use dm::hooks::{
    call_proc_by_id_hook, hook, hook_by_id, hook_by_id_with_bytecode_dont_use_this,
    CompileTimeHook, Dispatch, HookFailure, Proc, ProcHooks, ProcId,
};
use dm::opcode::Opcode;
use dm::register::Register;
use dm::vm::{Action, VM};

type NativeHook = fn(u32) -> u32;

fn twice(x: u32) -> u32 {
    2 * x
}

fn thrice(x: u32) -> u32 {
    3 * x
}

#[test]
fn compile_time_hook_keeps_its_parts() {
    let entry = CompileTimeHook::new("/proc/do_sum", twice as NativeHook);
    assert_eq!(entry.proc_path, "/proc/do_sum");
    assert_eq!((entry.hook)(4), 8);
}

#[test]
fn hook_by_id_installs_once() {
    let mut hooks: ProcHooks<NativeHook> = ProcHooks::new();
    assert!(!hooks.is_hooked(ProcId(7)));
    assert_eq!(hook_by_id(&mut hooks, ProcId(7), twice), Ok(()));
    assert!(hooks.is_hooked(ProcId(7)));
    assert_eq!(hook_by_id(&mut hooks, ProcId(7), thrice), Err(HookFailure::AlreadyHooked));
    match call_proc_by_id_hook(&hooks, ProcId(7)) {
        Dispatch::Rust(func) => assert_eq!(func(5), 10),
        _ => panic!("no native hook"),
    }
}

#[test]
fn hook_needs_a_procedure() {
    let mut hooks: ProcHooks<NativeHook> = ProcHooks::new();
    assert_eq!(hook(&mut hooks, None, twice), Err(HookFailure::ProcNotFound));
    assert_eq!(hook(&mut hooks, Some(Proc { id: ProcId(3) }), twice), Ok(()));
    assert_eq!(
        hook(&mut hooks, Some(Proc { id: ProcId(3) }), twice),
        Err(HookFailure::AlreadyHooked)
    );
    assert_eq!(Proc { id: ProcId(3) }.hook(&mut hooks, thrice), Err(HookFailure::AlreadyHooked));
    assert_eq!(Proc { id: ProcId(4) }.hook(&mut hooks, thrice), Ok(()));
    match call_proc_by_id_hook(&hooks, ProcId(4)) {
        Dispatch::Rust(func) => assert_eq!(func(5), 15),
        _ => panic!("no native hook"),
    }
}

#[test]
fn bytecode_hook_registers_the_program() {
    let mut hooks: ProcHooks<NativeHook> = ProcHooks::new();
    let mut vm = VM::new();
    let code = vec![Opcode::LOAD_ARGUMENT.to_byte(), 0, 0, Opcode::HALT.to_byte()];
    hook_by_id_with_bytecode_dont_use_this(&mut hooks, &mut vm, ProcId(9), code);
    assert!(matches!(call_proc_by_id_hook(&hooks, ProcId(9)), Dispatch::VM));
    assert!(vm.has_program(9));
    assert!(matches!(vm.run_program(9, vec![Register::new(1, 2)]), Action::Continue));
    assert!(matches!(vm.execute(10), Action::Finished(value) if value == Register::new(1, 2)));

    // A procedure that has a hook keeps it.
    hook_by_id(&mut hooks, ProcId(10), twice).unwrap();
    hook_by_id_with_bytecode_dont_use_this(&mut hooks, &mut vm, ProcId(10), vec![0]);
    assert!(matches!(call_proc_by_id_hook(&hooks, ProcId(10)), Dispatch::Rust(_)));
    assert!(!vm.has_program(10));
    hook_by_id_with_bytecode_dont_use_this(&mut hooks, &mut vm, ProcId(9), vec![0]);
    assert!(matches!(vm.run_program(9, vec![Register::new(1, 2)]), Action::Continue));
    assert!(matches!(vm.execute(10), Action::Finished(value) if value == Register::new(1, 2)));
}

#[test]
fn unhooked_procedure_runs_the_original() {
    let hooks: ProcHooks<NativeHook> = ProcHooks::new();
    assert!(matches!(call_proc_by_id_hook(&hooks, ProcId(1)), Dispatch::Original));
}

#[test]
fn failures_have_their_words() {
    assert_eq!(HookFailure::NotInitialized.message(), "Library not initialized");
    assert_eq!(HookFailure::ProcNotFound.message(), "Proc not found");
    assert_eq!(HookFailure::AlreadyHooked.message(), "Proc is already hooked");
    assert_eq!(HookFailure::UnknownFailure.message(), "Unknown failure");
}
