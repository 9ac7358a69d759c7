//! Which procedures are intercepted, and by what.
//!
//! A procedure of the host can be replaced by a native hook or by a program
//! of the machine. The table of hooks says which; the layer that intercepts
//! the host's calls asks it for every call.

use crate::vm::{VMView, VM};
use std::collections::HashMap;
use vstd::prelude::*;

verus! {

broadcast use vstd::std_specs::hash::group_hash_axioms;

/// The identifier that the host gives a procedure.
#[derive(Clone, Copy, Debug, PartialEq, Eq, Structural)]
pub struct ProcId(pub u32);

/// A procedure of the host, as far as hooks need it.
#[derive(Clone, Copy, Debug, PartialEq, Eq, Structural)]
pub struct Proc {
    pub id: ProcId,
}

/// A native hook that is named together with the path of its procedure, to
/// be installed when the host has loaded.
pub struct CompileTimeHook<H> {
    pub proc_path: &'static str,
    pub hook: H,
}

impl<H> CompileTimeHook<H> {
    pub fn new(proc_path: &'static str, hook: H) -> (entry: CompileTimeHook<H>)
        ensures
            entry.proc_path == proc_path,
            entry.hook == hook,
    {
        CompileTimeHook { proc_path, hook }
    }
}

/// Why a hook could not be installed.
#[derive(Clone, Copy, Debug, PartialEq, Eq, Structural)]
pub enum HookFailure {
    NotInitialized,
    ProcNotFound,
    AlreadyHooked,
    UnknownFailure,
}

impl HookFailure {
    /// The failure in words.
    pub fn message(&self) -> (text: &'static str)
        ensures
            text@ == match *self {
                HookFailure::NotInitialized => "Library not initialized"@,
                HookFailure::ProcNotFound => "Proc not found"@,
                HookFailure::AlreadyHooked => "Proc is already hooked"@,
                HookFailure::UnknownFailure => "Unknown failure"@,
            },
    {
        match self {
            HookFailure::NotInitialized => "Library not initialized",
            HookFailure::ProcNotFound => "Proc not found",
            HookFailure::AlreadyHooked => "Proc is already hooked",
            HookFailure::UnknownFailure => "Unknown failure",
        }
    }
}

/// What stands in for an intercepted procedure.
pub enum HookType<H> {
    /// A native function.
    Rust(H),
    /// The program that the machine holds under the procedure's identifier.
    VM,
}

/// What to do with an intercepted call.
pub enum Dispatch<'a, H> {
    /// Call this native hook.
    Rust(&'a H),
    /// Run the machine's program for the procedure.
    VM,
    /// Nothing is installed: call the original procedure.
    Original,
}

/// The installed hooks, by procedure identifier.
pub struct ProcHooks<H> {
    hooks: HashMap<u32, HookType<H>>,
}

impl<H> View for ProcHooks<H> {
    type V = Map<u32, HookType<H>>;

    closed spec fn view(&self) -> Map<u32, HookType<H>> {
        self.hooks@
    }
}

impl<H> ProcHooks<H> {
    /// A table without hooks.
    pub fn new() -> (hooks: ProcHooks<H>)
        ensures
            hooks@ == Map::<u32, HookType<H>>::empty(),
    {
        ProcHooks { hooks: HashMap::new() }
    }

    /// Whether a hook is installed for `id`.
    pub fn is_hooked(&self, id: ProcId) -> (hooked: bool)
        ensures
            hooked == self@.contains_key(id.0),
    {
        self.hooks.contains_key(&id.0)
    }
}

/// What installing the native hook `hook` for procedure `id` comes to: the
/// table with the hook, or the failure `AlreadyHooked` where the procedure
/// has a hook.
pub open spec fn install<H>(hooks: Map<u32, HookType<H>>, id: ProcId, hook: H) -> Result<
    Map<u32, HookType<H>>,
    HookFailure,
> {
    if hooks.contains_key(id.0) {
        Err(HookFailure::AlreadyHooked)
    } else {
        Ok(hooks.insert(id.0, HookType::Rust(hook)))
    }
}

/// Installs the native hook `hook` for procedure `id`, unless the procedure
/// has a hook already: then nothing changes and the failure is
/// `AlreadyHooked`.
pub fn hook_by_id<H>(hooks: &mut ProcHooks<H>, id: ProcId, hook: H) -> (result: Result<
    (),
    HookFailure,
>)
    ensures
        match install(old(hooks)@, id, hook) {
            Ok(table) => result.is_ok() && final(hooks)@ == table,
            Err(failure) => result == Err::<(), HookFailure>(failure) && final(hooks)@
                == old(hooks)@,
        },
{
    if hooks.hooks.contains_key(&id.0) {
        Err(HookFailure::AlreadyHooked)
    } else {
        hooks.hooks.insert(id.0, HookType::Rust(hook));
        Ok(())
    }
}

/// Installs `hook` as the machine's program for procedure `id`: the table
/// marks the procedure as run by the machine, and the machine registers the
/// buffer under the procedure's identifier. A procedure that has a hook
/// already keeps it, and nothing changes.
pub fn hook_by_id_with_bytecode_dont_use_this<H>(
    hooks: &mut ProcHooks<H>,
    vm: &mut VM,
    id: ProcId,
    hook: Vec<u8>,
)
    ensures
        old(hooks)@.contains_key(id.0) ==> final(hooks)@ == old(hooks)@ && final(vm)@ == old(vm)@,
        !old(hooks)@.contains_key(id.0) ==> final(hooks)@ == old(hooks)@.insert(
            id.0,
            HookType::VM,
        ) && final(vm)@ == (VMView {
            bytecodes: old(vm)@.bytecodes.insert(id.0, hook@),
            ..old(vm)@
        }),
{
    if !hooks.hooks.contains_key(&id.0) {
        hooks.hooks.insert(id.0, HookType::VM);
        vm.add_program(id.0, hook);
    }
}

/// Installs the native hook `func` for the procedure that the host found
/// under a name: `proc` is what the lookup gave. Without a procedure the
/// failure is `ProcNotFound`; with one, see `hook_by_id`.
pub fn hook<H>(hooks: &mut ProcHooks<H>, proc: Option<Proc>, func: H) -> (result: Result<
    (),
    HookFailure,
>)
    ensures
        match proc {
            None => result == Err::<(), HookFailure>(HookFailure::ProcNotFound) && final(hooks)@
                == old(hooks)@,
            Some(p) => match install(old(hooks)@, p.id, func) {
                Ok(table) => result.is_ok() && final(hooks)@ == table,
                Err(failure) => result == Err::<(), HookFailure>(failure) && final(hooks)@
                    == old(hooks)@,
            },
        },
{
    match proc {
        Some(p) => hook_by_id(hooks, p.id, func),
        None => Err(HookFailure::ProcNotFound),
    }
}

impl Proc {
    /// Installs the native hook `func` for this procedure; see `hook_by_id`.
    pub fn hook<H>(&self, hooks: &mut ProcHooks<H>, func: H) -> (result: Result<(), HookFailure>)
        ensures
            match install(old(hooks)@, self.id, func) {
                Ok(table) => result.is_ok() && final(hooks)@ == table,
                Err(failure) => result == Err::<(), HookFailure>(failure) && final(hooks)@
                    == old(hooks)@,
            },
    {
        hook_by_id(hooks, self.id, func)
    }
}

/// Decides what an intercepted call of procedure `proc_id` runs: the native
/// hook that is installed for it; the machine's program, where the
/// procedure was given bytecode; the original procedure, where it has no
/// hook.
pub fn call_proc_by_id_hook<'a, H>(hooks: &'a ProcHooks<H>, proc_id: ProcId) -> (dispatch: Dispatch<
    'a,
    H,
>)
    ensures
        !hooks@.contains_key(proc_id.0) ==> dispatch is Original,
        hooks@.contains_key(proc_id.0) ==> match hooks@[proc_id.0] {
            HookType::Rust(func) => dispatch == Dispatch::Rust(&func),
            HookType::VM => dispatch is VM,
        },
{
    match hooks.hooks.get(&proc_id.0) {
        Some(HookType::Rust(func)) => Dispatch::Rust(func),
        Some(HookType::VM) => Dispatch::VM,
        None => Dispatch::Original,
    }
}

} // verus!
