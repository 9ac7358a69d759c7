use dm::ast::{BinaryOp, Expression, Procedure, Statement, Term};
use dm::compiler::compile;
use dm::opcode::Opcode;
use dm::process::{Fault, Process, Step};
use dm::register::{Register, NUMBER_TAG};
use dm::vm::{Action, VM};

fn number(x: f32) -> Register {
    Register::new(NUMBER_TAG, x.to_bits())
}

fn load(reg: u8, x: f32) -> Vec<u8> {
    let mut bytes = vec![Opcode::LOAD_IMMEDIATE.to_byte(), reg, 0x2A];
    bytes.extend(x.to_le_bytes().iter());
    bytes
}

fn call(id: u32, result: u8) -> Vec<u8> {
    let mut bytes = vec![Opcode::CALL.to_byte()];
    bytes.extend(id.to_le_bytes().iter());
    bytes.push(result);
    bytes
}

fn multiply(left: u32, right: u32) -> u32 {
    (f32::from_bits(left) * f32::from_bits(right)).to_bits()
}

/// `return a * 2`
fn double() -> Vec<u8> {
    let a = Expression::Base { unary: vec![], term: Term::Ident("a".to_string()), follow: vec![] };
    let two = Expression::Base { unary: vec![], term: Term::Int(2), follow: vec![] };
    let product = Expression::BinaryOp { op: BinaryOp::Mul, lhs: Box::new(a), rhs: Box::new(two) };
    let proc = Procedure {
        parameters: vec!["a".to_string()],
        code: Some(vec![Statement::Return(Some(product))]),
    };
    compile(&proc).unwrap()
}

/// Loads argument 0, pushes it, calls `callee`, returns what it returned.
fn caller(callee: u32) -> Vec<u8> {
    let mut code = vec![Opcode::LOAD_ARGUMENT.to_byte(), 0, 3, Opcode::PUSH.to_byte(), 3];
    code.extend(call(callee, 5));
    code.extend([Opcode::RETURN.to_byte(), 5, Opcode::HALT.to_byte()]);
    code
}

#[test]
fn nested_call_returns_to_the_caller() {
    let mut vm = VM::new();
    vm.add_program(10, caller(11));
    vm.add_program(11, double());
    assert!(vm.has_program(10) && vm.has_program(11) && !vm.has_program(12));
    assert!(matches!(vm.run_program(10, vec![number(21.0)]), Action::Continue));
    assert_eq!(vm.depth(), 1);
    match vm.execute(100) {
        Action::Arithmetic { op, left, right } => {
            assert_eq!(op, Opcode::MUL);
            assert_eq!(vm.depth(), 2);
            assert_eq!((left, right), (21.0f32.to_bits(), 2.0f32.to_bits()));
            assert!(matches!(vm.resume_number(multiply(left, right)), Action::Continue));
        }
        other => panic!("unexpected action {:?}", other),
    }
    match vm.execute(100) {
        Action::Finished(value) => assert_eq!(value, number(42.0)),
        other => panic!("unexpected action {:?}", other),
    }
    assert_eq!(vm.depth(), 0);
}

#[test]
fn unknown_call_target_goes_native_once_with_all_arguments() {
    let mut code = load(0, 1.0);
    code.extend(load(1, 2.0));
    code.extend(load(2, 3.0));
    code.extend([Opcode::PUSH.to_byte(), 0, Opcode::PUSH.to_byte(), 1, Opcode::PUSH.to_byte(), 2]);
    code.extend(call(0xAABBCCDD, 4));
    code.extend(call(0xAABBCCDD, 5));
    code.extend([Opcode::RETURN.to_byte(), 4, Opcode::HALT.to_byte()]);
    let mut vm = VM::new();
    vm.add_program(1, code);
    assert!(matches!(vm.run_program(1, vec![]), Action::Continue));
    let mut requests = 0;
    match vm.execute(100) {
        Action::NativeCall { id, args } => {
            requests += 1;
            assert_eq!(id, 0xAABBCCDD);
            assert_eq!(args, vec![number(1.0), number(2.0), number(3.0)]);
        }
        other => panic!("unexpected action {:?}", other),
    }
    // No second request before the answer.
    assert!(matches!(vm.execute(100), Action::Fault(Fault::AnswerAwaited)));
    assert!(matches!(vm.resume_number(0), Action::Fault(Fault::NoSuchRequest)));
    assert!(matches!(vm.resume_value(Register::new(3, 77)), Action::Continue));
    // The stack was cleared: the second call passes nothing.
    match vm.execute(100) {
        Action::NativeCall { id, args } => {
            requests += 1;
            assert_eq!(id, 0xAABBCCDD);
            assert_eq!(args, vec![]);
        }
        other => panic!("unexpected action {:?}", other),
    }
    assert!(matches!(vm.resume_value(Register::new(3, 78)), Action::Continue));
    match vm.execute(100) {
        Action::Finished(value) => assert_eq!(value, Register::new(3, 77)),
        other => panic!("unexpected action {:?}", other),
    }
    assert_eq!(requests, 2);
}

#[test]
fn unregistered_program_is_a_native_call() {
    let mut vm = VM::new();
    match vm.run_program(5, vec![number(1.0), Register::new(2, 3)]) {
        Action::NativeCall { id, args } => {
            assert_eq!(id, 5);
            assert_eq!(args, vec![number(1.0), Register::new(2, 3)]);
        }
        other => panic!("unexpected action {:?}", other),
    }
    assert!(matches!(vm.execute_one(), Action::Fault(Fault::AnswerAwaited)));
    match vm.resume_value(Register::new(8, 9)) {
        Action::Finished(value) => assert_eq!(value, Register::new(8, 9)),
        other => panic!("unexpected action {:?}", other),
    }
    assert!(matches!(vm.resume_value(Register::new(8, 9)), Action::Fault(Fault::NoSuchRequest)));
    assert!(matches!(vm.execute_one(), Action::Fault(Fault::Idle)));
}

#[test]
fn failed_native_call_ends_the_invocation() {
    let mut vm = VM::new();
    vm.add_program(10, caller(999));
    assert!(matches!(vm.run_program(10, vec![number(1.0)]), Action::Continue));
    assert!(matches!(vm.fail_native_call(), Action::Fault(Fault::NoSuchRequest)));
    assert!(matches!(vm.execute(100), Action::NativeCall { id: 999, .. }));
    assert!(matches!(vm.fail_native_call(), Action::Fault(Fault::NativeCallFailed)));
    assert_eq!(vm.depth(), 0);
    assert!(matches!(vm.execute(100), Action::Fault(Fault::Idle)));

    assert!(matches!(vm.run_program(999, vec![]), Action::NativeCall { .. }));
    assert!(matches!(vm.fail_native_call(), Action::Fault(Fault::NativeCallFailed)));
    assert!(matches!(vm.fail_native_call(), Action::Fault(Fault::NoSuchRequest)));
}

#[test]
fn later_registration_overwrites() {
    let mut vm = VM::new();
    let mut first = load(0, 1.0);
    first.push(Opcode::HALT.to_byte());
    let mut second = load(0, 2.0);
    second.push(Opcode::HALT.to_byte());
    vm.add_program(1, first);
    vm.add_program(1, second);
    assert!(matches!(vm.run_program(1, vec![]), Action::Continue));
    match vm.execute(10) {
        Action::Finished(value) => assert_eq!(value, number(2.0)),
        other => panic!("unexpected action {:?}", other),
    }
}

#[test]
fn run_program_drops_what_was_in_flight() {
    let mut vm = VM::new();
    vm.add_program(10, caller(11));
    vm.add_program(11, double());
    assert!(matches!(vm.run_program(10, vec![number(1.0)]), Action::Continue));
    assert!(matches!(vm.execute(100), Action::Arithmetic { .. }));
    assert_eq!(vm.depth(), 2);
    assert!(matches!(vm.run_program(11, vec![number(4.0)]), Action::Continue));
    assert_eq!(vm.depth(), 1);
    match vm.execute(100) {
        Action::Arithmetic { left, right, .. } => {
            assert!(matches!(vm.resume_number(multiply(left, right)), Action::Continue));
        }
        other => panic!("unexpected action {:?}", other),
    }
    assert!(matches!(vm.execute(100), Action::Finished(value) if value == number(8.0)));
}

#[test]
fn budget_bounds_the_steps() {
    // JUMP 0: a loop that never ends.
    let mut vm = VM::new();
    vm.add_program(1, vec![Opcode::JUMP.to_byte(), 0, 0, 0, 0]);
    assert!(matches!(vm.run_program(1, vec![]), Action::Continue));
    assert!(matches!(vm.execute(0), Action::Continue));
    assert!(matches!(vm.execute(1000), Action::Continue));
    assert_eq!(vm.depth(), 1);

    let mut code = load(0, 1.0);
    code.extend(load(1, 2.0));
    code.push(Opcode::HALT.to_byte());
    let mut process = Process::new(0, code, vec![]);
    assert!(matches!(process.execute(1), Step::Continue));
    assert_eq!(process.position(), 7);
    assert!(matches!(process.execute(5), Step::Halt));
    assert_eq!(process.position(), 15);
}

#[test]
fn opcodes_without_effect_stop_the_process() {
    for byte in [Opcode::HALT.to_byte(), Opcode::SET_FIELD.to_byte(), Opcode::INVALID.to_byte(), 23, 200, 255] {
        let mut process = Process::new(0, vec![byte, 0, 0, 0, 0, 0, 0], vec![]);
        assert!(matches!(process.execute_one(), Step::Halt));
        assert_eq!(process.position(), 1);
        assert_eq!(process.get_return_value(), Register::default());
    }
}

#[test]
fn instructions_have_their_effects() {
    let args = vec![Register::new(5, 50), Register::new(6, 60)];
    let mut code = vec![Opcode::LOAD_ARGUMENT.to_byte(), 1, 2];
    code.extend([Opcode::STORE_LOCAL.to_byte(), 2, 15]);
    code.extend([Opcode::LOAD_LOCAL.to_byte(), 15, 9]);
    code.extend([Opcode::RETURN.to_byte(), 9]);
    code.extend([Opcode::JUMP_TRUE.to_byte(), 9, 30, 0, 0, 0]);
    let mut process = Process::new(3, code, args);
    assert_eq!(process.pid(), 3);
    assert!(matches!(process.execute_one(), Step::Continue));
    assert_eq!(process.registers[2], Register::new(6, 60));
    assert!(matches!(process.execute_one(), Step::Continue));
    assert!(matches!(process.execute_one(), Step::Continue));
    assert_eq!(process.registers[9], Register::new(6, 60));
    assert_eq!(process.get_return_value(), Register::new(0, 0));
    assert!(matches!(process.execute_one(), Step::Continue));
    assert_eq!(process.get_return_value(), Register::new(6, 60));
    assert!(matches!(process.execute_one(), Step::Continue));
    assert_eq!(process.position(), 30);
    assert!(matches!(process.execute_one(), Step::Fault(Fault::UnexpectedEnd)));
    assert_eq!(process.position(), 30);
}

#[test]
fn jumps_test_the_payload() {
    for (opcode, payload, jumps) in [
        (Opcode::JUMP_TRUE, 0u32, false),
        (Opcode::JUMP_TRUE, 1, true),
        (Opcode::JUMP_TRUE, 0x8000_0000, true),
        (Opcode::JUMP_FALSE, 0, true),
        (Opcode::JUMP_FALSE, 1, false),
        (Opcode::JUMP_FALSE, 0x8000_0000, false),
    ] {
        let mut code = vec![Opcode::LOAD_IMMEDIATE.to_byte(), 4, 1];
        code.extend(payload.to_le_bytes().iter());
        code.extend([opcode.to_byte(), 4, 0x78, 0x56, 0x34, 0x12]);
        let mut process = Process::new(0, code, vec![]);
        assert!(matches!(process.execute_one(), Step::Continue));
        assert_eq!(process.registers[4], Register::new(1, payload));
        assert!(matches!(process.execute_one(), Step::Continue));
        assert_eq!(process.position(), if jumps { 0x12345678 } else { 13 });
    }
}

#[test]
fn malformed_instructions_are_faults_and_change_nothing() {
    let cases: Vec<(Vec<u8>, Fault)> = vec![
        (vec![], Fault::UnexpectedEnd),
        (vec![Opcode::LOAD_IMMEDIATE.to_byte(), 0, 0x2A, 0, 0, 0], Fault::UnexpectedEnd),
        (vec![Opcode::RETURN.to_byte()], Fault::UnexpectedEnd),
        (vec![Opcode::LOAD_IMMEDIATE.to_byte(), 16, 0x2A, 0, 0, 0, 0], Fault::RegisterOutOfRange),
        (vec![Opcode::LOAD_ARGUMENT.to_byte(), 1, 0], Fault::ArgumentOutOfRange),
        (vec![Opcode::LOAD_ARGUMENT.to_byte(), 0, 16], Fault::RegisterOutOfRange),
        (vec![Opcode::LOAD_LOCAL.to_byte(), 16, 0], Fault::LocalOutOfRange),
        (vec![Opcode::LOAD_LOCAL.to_byte(), 0, 16], Fault::RegisterOutOfRange),
        (vec![Opcode::STORE_LOCAL.to_byte(), 0, 16], Fault::LocalOutOfRange),
        (vec![Opcode::STORE_LOCAL.to_byte(), 16, 0], Fault::RegisterOutOfRange),
        (vec![Opcode::GET_FIELD.to_byte(), 16, 0, 0, 0], Fault::RegisterOutOfRange),
        (vec![Opcode::GET_FIELD.to_byte(), 0, 0, 0, 16], Fault::RegisterOutOfRange),
        (vec![Opcode::ADD.to_byte(), 0, 0, 16], Fault::RegisterOutOfRange),
        (vec![Opcode::DIV.to_byte(), 0, 255, 0], Fault::RegisterOutOfRange),
        (vec![Opcode::EQUAL.to_byte(), 16, 0, 0], Fault::RegisterOutOfRange),
        (vec![Opcode::JUMP_TRUE.to_byte(), 16, 0, 0, 0, 0], Fault::RegisterOutOfRange),
        (vec![Opcode::JUMP_FALSE.to_byte(), 16, 0, 0, 0, 0], Fault::RegisterOutOfRange),
        (vec![Opcode::PUSH.to_byte(), 16], Fault::RegisterOutOfRange),
        (vec![Opcode::CALL.to_byte(), 0, 0, 0, 0, 16], Fault::RegisterOutOfRange),
        (vec![Opcode::RETURN.to_byte(), 16], Fault::RegisterOutOfRange),
    ];
    for (code, fault) in cases {
        let mut process = Process::new(0, code.clone(), vec![number(1.0)]);
        for _ in 0..2 {
            match process.execute_one() {
                Step::Fault(found) => assert_eq!(found, fault, "{:?}", code),
                other => panic!("{:?} gave {:?}", code, other),
            }
            assert_eq!(process.position(), 0);
            assert_eq!(process.registers, [Register::default(); 16]);
        }
        let mut vm = VM::new();
        vm.add_program(1, code);
        assert!(matches!(vm.run_program(1, vec![number(1.0)]), Action::Continue));
        assert!(matches!(vm.execute(10), Action::Fault(found) if found == fault));
        assert_eq!(vm.depth(), 1);
    }
}

#[test]
fn answers_go_to_the_process_that_asked() {
    let mut code = load(1, 6.0);
    code.extend([Opcode::SUB.to_byte(), 1, 1, 7]);
    code.extend([Opcode::GET_FIELD.to_byte(), 7, 0xCD, 0xAB, 8]);
    let mut process = Process::new(0, code, vec![]);
    assert!(!process.awaits_number() && !process.awaits_value());
    assert!(!process.supply_number(1) && !process.supply_value(number(1.0)));
    assert!(matches!(process.execute(10), Step::Arithmetic { op: Opcode::SUB, .. }));
    assert!(process.awaits_number() && !process.awaits_value());
    assert!(matches!(process.execute_one(), Step::Fault(Fault::AnswerAwaited)));
    assert!(!process.supply_value(number(1.0)));
    assert!(process.supply_number(0.0f32.to_bits()));
    assert_eq!(process.registers[7], number(0.0));
    match process.execute_one() {
        Step::GetField { source, field } => {
            assert_eq!(source, number(0.0));
            assert_eq!(field, 0xABCD);
        }
        other => panic!("unexpected step {:?}", other),
    }
    assert!(process.awaits_value() && !process.awaits_number());
    assert!(!process.supply_number(5));
    assert!(process.supply_value(Register::new(4, 5)));
    assert_eq!(process.registers[8], Register::new(4, 5));
    assert_eq!(process.position(), 16);
}

#[test]
fn compare_reads_payloads_as_floats() {
    let process = Process::new(0, vec![], vec![]);
    let one = Register::new(0, 1.0f32.to_bits());
    let two = Register::new(99, 2.0f32.to_bits());
    assert!(process.compare(&one, &two, Opcode::LESS_THAN));
    assert!(!process.compare(&two, &one, Opcode::LESS_THAN));
    assert!(process.compare(&one, &one, Opcode::EQUAL));
    assert!(!process.compare(&one, &two, Opcode::ADD));
}

#[test]
fn register_assign_copies_both_fields() {
    let mut target = Register::new(1, 2);
    target.assign(&Register::new(3, 4));
    assert_eq!(target, Register::new(3, 4));
    assert_eq!(Register::default(), Register::new(0, 0));
}

#[test]
fn opcodes_round_trip_through_bytes() {
    for byte in 0..=255u8 {
        let opcode = Opcode::from(byte);
        assert_eq!(opcode, Opcode::from_byte(byte));
        if byte < 22 {
            assert_eq!(u8::from(opcode), byte);
            assert_eq!(opcode.to_byte(), byte);
        } else {
            assert_eq!(opcode, Opcode::INVALID);
        }
    }
    assert_eq!(Opcode::HALT.to_byte(), 0);
    assert_eq!(Opcode::RETURN.to_byte(), 21);
    assert_eq!(Opcode::INVALID.to_byte(), 22);
    assert_eq!(Opcode::LOAD_IMMEDIATE.operand_bytes(), 6);
    assert_eq!(Opcode::CALL.operand_bytes(), 5);
    assert_eq!(Opcode::HALT.operand_bytes(), 0);
}
