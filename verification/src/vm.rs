//! The machine: the registered programs and the processes that run them.
//!
//! The machine decides and the caller acts. `run_program` starts an
//! invocation, `execute_one` and `execute` advance it, and every result is
//! an `Action` for the caller: go on, hand back the finished value, or do
//! what the machine cannot do itself (float arithmetic, a field lookup in
//! the host, a native procedure call) and bring the answer in with
//! `resume_number` or `resume_value`.

use crate::opcode::Opcode;
use crate::process::{Awaited, Fault, Process, ProcessView, Step, StepView};
use crate::register::Register;
use std::collections::HashMap;
use vstd::prelude::*;

verus! {

broadcast use vstd::std_specs::hash::group_hash_axioms;

/// What the caller of the machine does next.
#[derive(Debug)]
pub enum Action {
    /// Nothing: the invocation can be advanced further.
    Continue,
    /// The invocation is over, and this is its value.
    Finished(Register),
    /// Compute `left op right` on floats and bring the bits of the result in
    /// with `resume_number`.
    Arithmetic { op: Opcode, left: u32, right: u32 },
    /// Look up the field of `source` in the host and bring its value in with
    /// `resume_value`.
    GetField { source: Register, field: u16 },
    /// No program is registered under `id`: call the native procedure with
    /// these arguments and bring what it returns in with `resume_value`.
    NativeCall { id: u32, args: Vec<Register> },
    /// The invocation cannot go on.
    Fault(Fault),
}

/// An `Action` in specifications.
pub enum ActionView {
    Continue,
    Finished(Register),
    Arithmetic { op: Opcode, left: u32, right: u32 },
    GetField { source: Register, field: u16 },
    NativeCall { id: u32, args: Seq<Register> },
    Fault(Fault),
}

impl View for Action {
    type V = ActionView;

    open spec fn view(&self) -> ActionView {
        match *self {
            Action::Continue => ActionView::Continue,
            Action::Finished(value) => ActionView::Finished(value),
            Action::Arithmetic { op, left, right } => ActionView::Arithmetic { op, left, right },
            Action::GetField { source, field } => ActionView::GetField { source, field },
            Action::NativeCall { id, args } => ActionView::NativeCall { id, args: args@ },
            Action::Fault(fault) => ActionView::Fault(fault),
        }
    }
}

/// The machine in specifications.
pub struct VMView {
    /// The registered buffers, by procedure identifier.
    pub bytecodes: Map<u32, Seq<u8>>,
    /// The processes of the invocation in flight: the outermost first, each
    /// the caller of the next.
    pub programs: Seq<ProcessView>,
    /// The identifier that new processes get.
    pub current_pid: u32,
    /// Whether the invocation itself went to a native procedure whose result
    /// is awaited.
    pub native_pending: bool,
}

impl VMView {
    /// Every process is well formed, and each but the innermost waits for
    /// the value that its callee will return.
    pub open spec fn wf(self) -> bool {
        &&& forall|i: int| 0 <= i < self.programs.len() ==> (#[trigger] self.programs[i]).wf()
        &&& forall|i: int|
            0 <= i < self.programs.len() - 1 ==> (#[trigger] self.programs[i]).awaits(
                Awaited::Value,
            )
        &&& self.native_pending ==> self.programs.len() == 0
    }

    /// The machine with no invocation in flight.
    pub open spec fn idle(self) -> VMView {
        VMView { programs: Seq::empty(), native_pending: false, ..self }
    }

    /// The machine with the innermost process replaced.
    pub open spec fn with_top(self, top: ProcessView) -> VMView {
        VMView { programs: self.programs.drop_last().push(top), ..self }
    }

    /// A call of procedure `id`: a fresh process where a buffer is
    /// registered under `id`, and otherwise a request to the native
    /// procedure, with the arguments unchanged and in their order.
    pub open spec fn enter(self, id: u32, args: Seq<Register>) -> (VMView, ActionView) {
        if self.bytecodes.contains_key(id) {
            (
                VMView {
                    programs: self.programs.push(
                        ProcessView::fresh(self.current_pid, self.bytecodes[id], args),
                    ),
                    ..self
                },
                ActionView::Continue,
            )
        } else {
            (
                VMView { native_pending: self.programs.len() == 0, ..self },
                ActionView::NativeCall { id, args },
            )
        }
    }

    /// The innermost process has stopped: its value goes to the result
    /// register of its caller, or ends the invocation if it has none.
    pub open spec fn leave(self) -> (VMView, ActionView) {
        let value = self.programs.last().return_value();
        let callers = self.programs.drop_last();
        if callers.len() == 0 {
            (self.idle(), ActionView::Finished(value))
        } else {
            (
                VMView { programs: callers, ..self }.with_top(
                    callers.last().supply_value(value).0,
                ),
                ActionView::Continue,
            )
        }
    }

    /// A new invocation: whatever was in flight is dropped, then `id` is
    /// called.
    pub open spec fn run_program(self, id: u32, args: Seq<Register>) -> (VMView, ActionView) {
        self.idle().enter(id, args)
    }

    /// One step of the innermost process, and what follows from it for the
    /// machine.
    pub open spec fn step(self) -> (VMView, ActionView) {
        if self.programs.len() == 0 {
            (
                self,
                ActionView::Fault(
                    if self.native_pending {
                        Fault::AnswerAwaited
                    } else {
                        Fault::Idle
                    },
                ),
            )
        } else {
            let (top, step) = self.programs.last().step();
            let next = self.with_top(top);
            match step {
                StepView::Continue => (next, ActionView::Continue),
                StepView::Halt => next.leave(),
                StepView::Arithmetic { op, left, right } => (
                    next,
                    ActionView::Arithmetic { op, left, right },
                ),
                StepView::GetField { source, field } => (
                    next,
                    ActionView::GetField { source, field },
                ),
                StepView::Call { id, args } => next.enter(id, args),
                StepView::Fault(fault) => (self, ActionView::Fault(fault)),
            }
        }
    }

    /// Up to `budget` steps, ending early with the first action that is not
    /// `Continue`.
    pub open spec fn run(self, budget: nat) -> (VMView, ActionView)
        decreases budget,
    {
        if budget == 0 {
            (self, ActionView::Continue)
        } else {
            let (next, action) = self.step();
            if action is Continue {
                next.run((budget - 1) as nat)
            } else {
                (next, action)
            }
        }
    }

    /// The bits of an arithmetic result arrive for the innermost process.
    pub open spec fn resume_number(self, bits: u32) -> (VMView, ActionView) {
        if self.programs.len() > 0 && self.programs.last().awaits(Awaited::Number) {
            (self.with_top(self.programs.last().supply_number(bits).0), ActionView::Continue)
        } else {
            (self, ActionView::Fault(Fault::NoSuchRequest))
        }
    }

    /// A field, or what a native procedure returned, arrives: for the
    /// innermost process, or as the value of the whole invocation where that
    /// went to a native procedure.
    pub open spec fn resume_value(self, value: Register) -> (VMView, ActionView) {
        if self.programs.len() > 0 && self.programs.last().awaits(Awaited::Value) {
            (self.with_top(self.programs.last().supply_value(value).0), ActionView::Continue)
        } else if self.native_pending {
            (self.idle(), ActionView::Finished(value))
        } else {
            (self, ActionView::Fault(Fault::NoSuchRequest))
        }
    }

    /// Whether a value is awaited from outside: by the innermost process, or
    /// as the value of the whole invocation.
    pub open spec fn awaits_value(self) -> bool {
        self.native_pending || (self.programs.len() > 0 && self.programs.last().awaits(
            Awaited::Value,
        ))
    }

    /// The native procedure could not be run: the invocation ends with a
    /// fault, where a value was awaited.
    pub open spec fn fail_native_call(self) -> (VMView, ActionView) {
        if self.awaits_value() {
            (self.idle(), ActionView::Fault(Fault::NativeCallFailed))
        } else {
            (self, ActionView::Fault(Fault::NoSuchRequest))
        }
    }
}

} // verus!

verus! {

/// The registered programs, and the processes of the invocation in flight.
#[derive(Debug)]
pub struct VM {
    bytecodes: HashMap<u32, Vec<u8>>,
    programs: Vec<Process>,
    current_pid: u32,
    native_pending: bool,
}

impl View for VM {
    type V = VMView;

    closed spec fn view(&self) -> VMView {
        VMView {
            bytecodes: Map::new(
                |id: u32| self.bytecodes@.contains_key(id),
                |id: u32| self.bytecodes@[id]@,
            ),
            programs: Seq::new(self.programs@.len(), |i: int| self.programs@[i]@),
            current_pid: self.current_pid,
            native_pending: self.native_pending,
        }
    }
}

impl VM {
    pub open spec fn wf(&self) -> bool {
        self@.wf()
    }

    /// A machine with no programs and nothing in flight.
    pub fn new() -> (vm: VM)
        ensures
            vm.wf(),
            vm@.bytecodes == Map::<u32, Seq<u8>>::empty(),
            vm@.programs.len() == 0,
            vm@.current_pid == 0,
            !vm@.native_pending,
    {
        let vm = VM {
            bytecodes: HashMap::new(),
            programs: Vec::new(),
            current_pid: 0,
            native_pending: false,
        };
        assert(vm@.bytecodes =~= Map::<u32, Seq<u8>>::empty());
        vm
    }

    /// Registers `bytecode` under `id`, in place of what was there.
    pub fn add_program(&mut self, id: u32, bytecode: Vec<u8>)
        ensures
            final(self)@ == (VMView {
                bytecodes: old(self)@.bytecodes.insert(id, bytecode@),
                ..old(self)@
            }),
    {
        self.bytecodes.insert(id, bytecode);
        assert(self@.bytecodes =~= old(self)@.bytecodes.insert(id, bytecode@));
        assert(self@.programs =~= old(self)@.programs);
    }

    /// Whether a buffer is registered under `id`.
    pub fn has_program(&self, id: u32) -> (found: bool)
        ensures
            found == self@.bytecodes.contains_key(id),
    {
        self.bytecodes.contains_key(&id)
    }

    /// The number of processes in flight: 0 between invocations.
    pub fn depth(&self) -> (depth: usize)
        ensures
            depth == self@.programs.len(),
    {
        self.programs.len()
    }

    /// Calls procedure `id` from the innermost process, or from outside
    /// where there is none.
    fn enter(&mut self, id: u32, args: Vec<Register>) -> (action: Action)
        requires
            old(self).wf(),
            !old(self)@.native_pending,
            old(self)@.programs.len() > 0 ==> old(self)@.programs.last().awaits(Awaited::Value),
        ensures
            final(self).wf(),
            (final(self)@, action@) == old(self)@.enter(id, args@),
    {
        match self.bytecodes.get(&id) {
            Some(bytecode) => {
                let process = Process::new(self.current_pid, bytecode.clone(), args);
                self.programs.push(process);
                assert(self@.programs =~= old(self)@.programs.push(process@));
                assert(self@.bytecodes =~= old(self)@.bytecodes);
                Action::Continue
            },
            None => {
                self.native_pending = self.programs.len() == 0;
                assert(self@.programs =~= old(self)@.programs);
                assert(self@.bytecodes =~= old(self)@.bytecodes);
                Action::NativeCall { id, args }
            },
        }
    }

    /// Starts an invocation of procedure `id` with `args`.
    ///
    /// Whatever was in flight is dropped. Where a buffer is registered under
    /// `id`, a fresh process is created for it with `args` as its argument
    /// list, and the action is `Continue`: `execute` drives it. Where none
    /// is, the call belongs to the native procedure: the action is
    /// `NativeCall` with `id` and `args`, and the value brought in with
    /// `resume_value` is the value of the invocation.
    pub fn run_program(&mut self, id: u32, args: Vec<Register>) -> (action: Action)
        requires
            old(self).wf(),
        ensures
            final(self).wf(),
            (final(self)@, action@) == old(self)@.run_program(id, args@),
    {
        self.programs.clear();
        self.native_pending = false;
        assert(self@.programs =~= old(self)@.idle().programs);
        assert(self@.bytecodes =~= old(self)@.bytecodes);
        self.enter(id, args)
    }
}

} // verus!

verus! {

impl VM {
    /// The innermost process has stopped: pops it and hands its value on.
    fn leave(&mut self) -> (action: Action)
        requires
            old(self).wf(),
            old(self)@.programs.len() > 0,
        ensures
            final(self).wf(),
            (final(self)@, action@) == old(self)@.leave(),
    {
        let finished = self.programs.pop().unwrap();
        assert(finished@ == old(self)@.programs[old(self)@.programs.len() - 1]);
        let value = finished.get_return_value();
        match self.programs.pop() {
            None => {
                assert(self@.programs =~= old(self)@.idle().programs);
                assert(self@.bytecodes =~= old(self)@.bytecodes);
                Action::Finished(value)
            },
            Some(mut caller) => {
                proof {
                    assert(caller@ == old(self)@.programs[old(self)@.programs.len() - 2]);
                }
                let accepted = caller.supply_value(value);
                self.programs.push(caller);
                proof {
                    let callers = old(self)@.programs.drop_last();
                    assert(self@.programs =~= callers.drop_last().push(caller@));
                    assert(self@.bytecodes =~= old(self)@.bytecodes);
                }
                Action::Continue
            },
        }
    }

    /// Advances the invocation by one instruction of its innermost process.
    ///
    /// A `CALL` of a registered procedure starts a process for it, which is
    /// the innermost from then on; a `CALL` of any other goes out as
    /// `NativeCall`, with the arguments that were pushed, in push order. A
    /// process that stops hands its return value to the result register of
    /// its caller; the outermost ends the invocation with `Finished`. A
    /// fault changes nothing.
    pub fn execute_one(&mut self) -> (action: Action)
        requires
            old(self).wf(),
        ensures
            final(self).wf(),
            (final(self)@, action@) == old(self)@.step(),
    {
        let mut top = match self.programs.pop() {
            None => {
                assert(self@.programs =~= old(self)@.programs);
                assert(self@.bytecodes =~= old(self)@.bytecodes);
                return Action::Fault(
                    if self.native_pending {
                        Fault::AnswerAwaited
                    } else {
                        Fault::Idle
                    },
                );
            },
            Some(top) => top,
        };
        let ghost before = top@;
        assert(before == old(self)@.programs.last());
        let step = top.execute_one();
        self.programs.push(top);
        proof {
            assert(self@.programs =~= old(self)@.with_top(top@).programs);
            assert(self@.bytecodes =~= old(self)@.bytecodes);
            assert(self@ == old(self)@.with_top(top@));
        }
        match step {
            Step::Continue => Action::Continue,
            Step::Halt => self.leave(),
            Step::Arithmetic { op, left, right } => Action::Arithmetic { op, left, right },
            Step::GetField { source, field } => Action::GetField { source, field },
            Step::Call { id, args } => self.enter(id, args),
            Step::Fault(fault) => {
                assert(top@ == before);
                assert(self@.programs =~= old(self)@.programs);
                Action::Fault(fault)
            },
        }
    }

    /// Advances the invocation by up to `budget` instructions and stops
    /// early at the first action that is not `Continue`. `Continue` comes
    /// back only when the budget is used up.
    pub fn execute(&mut self, budget: u64) -> (action: Action)
        requires
            old(self).wf(),
        ensures
            final(self).wf(),
            (final(self)@, action@) == old(self)@.run(budget as nat),
    {
        let mut left = budget;
        while left > 0
            invariant
                self.wf(),
                self@.run(left as nat) == old(self)@.run(budget as nat),
            decreases left,
        {
            let action = self.execute_one();
            match action {
                Action::Continue => {},
                _ => {
                    return action;
                },
            }
            left = left - 1;
        }
        Action::Continue
    }

    /// Brings in the bits that an `Arithmetic` action asked for. Where the
    /// innermost process waits for no number, nothing changes and the action
    /// is the fault `NoSuchRequest`.
    pub fn resume_number(&mut self, bits: u32) -> (action: Action)
        requires
            old(self).wf(),
        ensures
            final(self).wf(),
            (final(self)@, action@) == old(self)@.resume_number(bits),
    {
        match self.programs.pop() {
            None => {
                assert(self@.programs =~= old(self)@.programs);
                assert(self@.bytecodes =~= old(self)@.bytecodes);
                Action::Fault(Fault::NoSuchRequest)
            },
            Some(mut top) => {
                assert(top@ == old(self)@.programs.last());
                let accepted = top.supply_number(bits);
                self.programs.push(top);
                proof {
                    assert(self@.programs =~= old(self)@.with_top(top@).programs);
                    assert(self@.bytecodes =~= old(self)@.bytecodes);
                    if !accepted {
                        assert(self@.programs =~= old(self)@.programs);
                    }
                }
                if accepted {
                    Action::Continue
                } else {
                    Action::Fault(Fault::NoSuchRequest)
                }
            },
        }
    }

    /// Brings in the value that a `GetField` or `NativeCall` action asked
    /// for. It goes to the innermost process; where the invocation itself
    /// went to a native procedure, it is the value of the invocation. Where
    /// no value is awaited, nothing changes and the action is the fault
    /// `NoSuchRequest`.
    pub fn resume_value(&mut self, value: Register) -> (action: Action)
        requires
            old(self).wf(),
        ensures
            final(self).wf(),
            (final(self)@, action@) == old(self)@.resume_value(value),
    {
        match self.programs.pop() {
            None => {
                assert(self@.programs =~= old(self)@.programs);
                assert(self@.bytecodes =~= old(self)@.bytecodes);
                if self.native_pending {
                    self.native_pending = false;
                    assert(self@.programs =~= old(self)@.idle().programs);
                    assert(self@.bytecodes =~= old(self)@.bytecodes);
                    Action::Finished(value)
                } else {
                    Action::Fault(Fault::NoSuchRequest)
                }
            },
            Some(mut top) => {
                assert(top@ == old(self)@.programs.last());
                let accepted = top.supply_value(value);
                self.programs.push(top);
                proof {
                    assert(self@.programs =~= old(self)@.with_top(top@).programs);
                    assert(self@.bytecodes =~= old(self)@.bytecodes);
                    if !accepted {
                        assert(self@.programs =~= old(self)@.programs);
                    }
                }
                if accepted {
                    Action::Continue
                } else {
                    Action::Fault(Fault::NoSuchRequest)
                }
            },
        }
    }

    /// Reports that the native procedure of a `NativeCall` action could not
    /// be run: the invocation is dropped and the action is the fault
    /// `NativeCallFailed`. Where no value is awaited, nothing changes and
    /// the action is the fault `NoSuchRequest`.
    pub fn fail_native_call(&mut self) -> (action: Action)
        requires
            old(self).wf(),
        ensures
            final(self).wf(),
            (final(self)@, action@) == old(self)@.fail_native_call(),
    {
        let awaited = if self.native_pending {
            true
        } else if self.programs.len() > 0 {
            self.programs[self.programs.len() - 1].awaits_value()
        } else {
            false
        };
        if awaited {
            self.programs.clear();
            self.native_pending = false;
            assert(self@.programs =~= old(self)@.idle().programs);
            assert(self@.bytecodes =~= old(self)@.bytecodes);
            Action::Fault(Fault::NativeCallFailed)
        } else {
            Action::Fault(Fault::NoSuchRequest)
        }
    }
}

} // verus!
