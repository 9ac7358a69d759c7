//! One execution of a bytecode buffer.

use crate::bytes::{le_u16, le_u32, read_u16_at, read_u32_at};
use crate::number::{compare_bits, holds, truth, ONE, ZERO};
use crate::opcode::Opcode;
use crate::register::{Register, NUMBER_TAG};
use vstd::prelude::*;

verus! {

/// The size of the general register file, and of the local slot array.
pub const NUM_REGISTERS: usize = 16;

/// Why a process or the machine cannot take its next step. A fault leaves
/// the process as it was, so the same step faults again.
#[derive(Clone, Copy, Debug, PartialEq, Eq, Structural)]
pub enum Fault {
    /// The cursor, or an operand of the instruction under it, lies past the
    /// end of the buffer.
    UnexpectedEnd,
    /// An operand names a register that the file does not have.
    RegisterOutOfRange,
    /// An operand names a local slot that the array does not have.
    LocalOutOfRange,
    /// An operand names an argument that the caller did not pass.
    ArgumentOutOfRange,
    /// The process waits for the answer to its last request.
    AnswerAwaited,
    /// An answer was supplied that the process does not wait for.
    NoSuchRequest,
    /// The machine has no process to run.
    Idle,
    /// The native procedure that a call fell back to could not be run.
    NativeCallFailed,
}

/// The kind of answer that a waiting process needs.
#[derive(Clone, Copy, Debug, PartialEq, Eq, Structural)]
pub enum Awaited {
    /// The bits of the result of an arithmetic instruction.
    Number,
    /// A tagged value: a field that was read, or what a call returned.
    Value,
}

/// An answer that a process waits for, and the register that will take it.
#[derive(Clone, Copy, Debug, PartialEq, Eq, Structural)]
pub struct Pending {
    pub dest: usize,
    pub kind: Awaited,
}

/// What one step of a process came to.
#[derive(Debug)]
pub enum Step {
    /// The instruction had its effect.
    Continue,
    /// An opcode without an effect ended the execution: `HALT`, or a byte
    /// that the machine does not implement.
    Halt,
    /// The process needs `left op right` computed on floats, and waits for
    /// the bits of the result.
    Arithmetic { op: Opcode, left: u32, right: u32 },
    /// The process needs a field of `source` looked up, and waits for its
    /// value.
    GetField { source: Register, field: u16 },
    /// The process calls procedure `id`, and waits for what it returns.
    Call { id: u32, args: Vec<Register> },
    /// The step could not be taken.
    Fault(Fault),
}

/// A `Step` in specifications.
pub enum StepView {
    Continue,
    Halt,
    Arithmetic { op: Opcode, left: u32, right: u32 },
    GetField { source: Register, field: u16 },
    Call { id: u32, args: Seq<Register> },
    Fault(Fault),
}

impl View for Step {
    type V = StepView;

    open spec fn view(&self) -> StepView {
        match *self {
            Step::Continue => StepView::Continue,
            Step::Halt => StepView::Halt,
            Step::Arithmetic { op, left, right } => StepView::Arithmetic { op, left, right },
            Step::GetField { source, field } => StepView::GetField { source, field },
            Step::Call { id, args } => StepView::Call { id, args: args@ },
            Step::Fault(fault) => StepView::Fault(fault),
        }
    }
}

/// A process in specifications.
pub struct ProcessView {
    pub registers: Seq<Register>,
    pub code: Seq<u8>,
    pub position: int,
    pub args: Seq<Register>,
    pub locals: Seq<Register>,
    pub pid: u32,
    pub return_register: int,
    pub call_args: Seq<Register>,
    pub waiting: Option<Pending>,
}

impl ProcessView {
    /// A process before its first step: every register and local zero, the
    /// cursor at the start, register 0 designated for the return value.
    pub open spec fn fresh(pid: u32, code: Seq<u8>, args: Seq<Register>) -> ProcessView {
        ProcessView {
            registers: Seq::new(NUM_REGISTERS as nat, |i: int| Register::zero()),
            code,
            position: 0,
            args,
            locals: Seq::new(NUM_REGISTERS as nat, |i: int| Register::zero()),
            pid,
            return_register: 0,
            call_args: Seq::empty(),
            waiting: None,
        }
    }

    pub open spec fn wf(self) -> bool {
        &&& self.registers.len() == NUM_REGISTERS
        &&& self.locals.len() == NUM_REGISTERS
        &&& 0 <= self.position
        &&& 0 <= self.return_register < NUM_REGISTERS
        &&& (self.waiting matches Some(w) ==> w.dest < NUM_REGISTERS)
    }

    /// Whether the process waits for an answer of `kind`.
    pub open spec fn awaits(self, kind: Awaited) -> bool {
        self.waiting matches Some(w) && w.kind == kind
    }

    /// The value that the process returns if it stops now.
    pub open spec fn return_value(self) -> Register {
        self.registers[self.return_register]
    }

    /// The opcode under the cursor.
    pub open spec fn opcode(self) -> Opcode {
        Opcode::decode(self.code[self.position])
    }

    /// The one-byte operand `k` bytes behind the opcode.
    pub open spec fn operand(self, k: int) -> int {
        self.code[self.position + 1 + k] as int
    }

    /// The two-byte operand that starts `k` bytes behind the opcode.
    pub open spec fn operand_u16(self, k: int) -> u16 {
        le_u16(self.code.subrange(self.position + 1 + k, self.position + 3 + k)) as u16
    }

    /// The four-byte operand that starts `k` bytes behind the opcode.
    pub open spec fn operand_u32(self, k: int) -> u32 {
        le_u32(self.code.subrange(self.position + 1 + k, self.position + 5 + k)) as u32
    }

    /// The process with the cursor behind an instruction of `n` operand bytes.
    pub open spec fn skip(self, n: int) -> ProcessView {
        ProcessView { position: self.position + 1 + n, ..self }
    }

    /// The process with the cursor at `target`.
    pub open spec fn jump(self, target: int) -> ProcessView {
        ProcessView { position: target, ..self }
    }

    /// The process with `value` in register `dest`.
    pub open spec fn store(self, dest: int, value: Register) -> ProcessView {
        ProcessView { registers: self.registers.update(dest, value), ..self }
    }

    /// The process waiting for an answer of `kind` for register `dest`.
    pub open spec fn wait(self, dest: int, kind: Awaited) -> ProcessView {
        ProcessView { waiting: Some(Pending { dest: dest as usize, kind }), ..self }
    }

    /// The step that changes nothing and reports `fault`.
    pub open spec fn fault(self, fault: Fault) -> (ProcessView, StepView) {
        (self, StepView::Fault(fault))
    }

    /// The step that leaves `next` and lets the process go on.
    pub open spec fn proceed(next: ProcessView) -> (ProcessView, StepView) {
        (next, StepView::Continue)
    }

    /// `LOAD_IMMEDIATE dest type value`.
    pub open spec fn load_immediate(self) -> (ProcessView, StepView) {
        let dest = self.operand(0);
        let value = Register { tag: self.operand(1) as u32, value: self.operand_u32(2) };
        if dest >= NUM_REGISTERS {
            self.fault(Fault::RegisterOutOfRange)
        } else {
            Self::proceed(self.store(dest, value).skip(6))
        }
    }

    /// `LOAD_ARGUMENT index dest`.
    pub open spec fn load_argument(self) -> (ProcessView, StepView) {
        let index = self.operand(0);
        let dest = self.operand(1);
        if index >= self.args.len() {
            self.fault(Fault::ArgumentOutOfRange)
        } else if dest >= NUM_REGISTERS {
            self.fault(Fault::RegisterOutOfRange)
        } else {
            Self::proceed(self.store(dest, self.args[index]).skip(2))
        }
    }

    /// `LOAD_LOCAL slot dest`.
    pub open spec fn load_local(self) -> (ProcessView, StepView) {
        let slot = self.operand(0);
        let dest = self.operand(1);
        if slot >= NUM_REGISTERS {
            self.fault(Fault::LocalOutOfRange)
        } else if dest >= NUM_REGISTERS {
            self.fault(Fault::RegisterOutOfRange)
        } else {
            Self::proceed(self.store(dest, self.locals[slot]).skip(2))
        }
    }

    /// `STORE_LOCAL source slot`.
    pub open spec fn store_local(self) -> (ProcessView, StepView) {
        let source = self.operand(0);
        let slot = self.operand(1);
        if slot >= NUM_REGISTERS {
            self.fault(Fault::LocalOutOfRange)
        } else if source >= NUM_REGISTERS {
            self.fault(Fault::RegisterOutOfRange)
        } else {
            Self::proceed(
                ProcessView {
                    locals: self.locals.update(slot, self.registers[source]),
                    ..self
                }.skip(2),
            )
        }
    }

    /// `GET_FIELD source name dest`: the host is asked for the field.
    pub open spec fn get_field(self) -> (ProcessView, StepView) {
        let source = self.operand(0);
        let field = self.operand_u16(1);
        let dest = self.operand(3);
        if source >= NUM_REGISTERS || dest >= NUM_REGISTERS {
            self.fault(Fault::RegisterOutOfRange)
        } else {
            (
                self.wait(dest, Awaited::Value).skip(4),
                StepView::GetField { source: self.registers[source], field },
            )
        }
    }

    /// `ADD`, `SUB`, `MUL`, `DIV left right dest`: the payloads of the two
    /// registers go out as floats, whatever their tags.
    pub open spec fn arithmetic(self) -> (ProcessView, StepView) {
        let left = self.operand(0);
        let right = self.operand(1);
        let dest = self.operand(2);
        if left >= NUM_REGISTERS || right >= NUM_REGISTERS || dest >= NUM_REGISTERS {
            self.fault(Fault::RegisterOutOfRange)
        } else {
            (
                self.wait(dest, Awaited::Number).skip(3),
                StepView::Arithmetic {
                    op: self.opcode(),
                    left: self.registers[left].value,
                    right: self.registers[right].value,
                },
            )
        }
    }

    /// A comparison `left right dest`: the result is the number 1.0 or 0.0.
    pub open spec fn comparison(self) -> (ProcessView, StepView) {
        let left = self.operand(0);
        let right = self.operand(1);
        let dest = self.operand(2);
        if left >= NUM_REGISTERS || right >= NUM_REGISTERS || dest >= NUM_REGISTERS {
            self.fault(Fault::RegisterOutOfRange)
        } else {
            let result = holds(
                self.opcode(),
                self.registers[left].value,
                self.registers[right].value,
            );
            Self::proceed(self.store(dest, Register::number(truth(result))).skip(3))
        }
    }

    /// `JUMP_TRUE condition target` where `when_zero` is false, `JUMP_FALSE`
    /// where it is true: the payload of the register decides, bit for bit.
    pub open spec fn branch(self, when_zero: bool) -> (ProcessView, StepView) {
        let condition = self.operand(0);
        let target = self.operand_u32(1);
        if condition >= NUM_REGISTERS {
            self.fault(Fault::RegisterOutOfRange)
        } else if (self.registers[condition].value == 0) == when_zero {
            Self::proceed(self.jump(target as int))
        } else {
            Self::proceed(self.skip(5))
        }
    }

    /// `PUSH source`.
    pub open spec fn push(self) -> (ProcessView, StepView) {
        let source = self.operand(0);
        if source >= NUM_REGISTERS {
            self.fault(Fault::RegisterOutOfRange)
        } else {
            Self::proceed(
                ProcessView {
                    call_args: self.call_args.push(self.registers[source]),
                    ..self
                }.skip(1),
            )
        }
    }

    /// `CALL id dest`: the whole call-argument stack goes out, in the order
    /// in which it was pushed, and is empty afterwards.
    pub open spec fn call(self) -> (ProcessView, StepView) {
        let id = self.operand_u32(0);
        let dest = self.operand(4);
        if dest >= NUM_REGISTERS {
            self.fault(Fault::RegisterOutOfRange)
        } else {
            (
                ProcessView { call_args: Seq::empty(), ..self }.wait(dest, Awaited::Value).skip(5),
                StepView::Call { id, args: self.call_args },
            )
        }
    }

    /// `RETURN source`: designates the register; the process goes on.
    pub open spec fn designate(self) -> (ProcessView, StepView) {
        let source = self.operand(0);
        if source >= NUM_REGISTERS {
            self.fault(Fault::RegisterOutOfRange)
        } else {
            Self::proceed(ProcessView { return_register: source, ..self }.skip(1))
        }
    }

    /// One step: the instruction under the cursor is decoded and executed,
    /// and the cursor moves behind its operands or to where it jumps.
    pub open spec fn step(self) -> (ProcessView, StepView) {
        if self.waiting is Some {
            self.fault(Fault::AnswerAwaited)
        } else if self.position >= self.code.len() {
            self.fault(Fault::UnexpectedEnd)
        } else if self.opcode().operands() == 0 {
            (self.skip(0), StepView::Halt)
        } else if self.position + 1 + self.opcode().operands() > self.code.len() {
            self.fault(Fault::UnexpectedEnd)
        } else {
            match self.opcode() {
                Opcode::LOAD_IMMEDIATE => self.load_immediate(),
                Opcode::LOAD_ARGUMENT => self.load_argument(),
                Opcode::LOAD_LOCAL => self.load_local(),
                Opcode::STORE_LOCAL => self.store_local(),
                Opcode::GET_FIELD => self.get_field(),
                Opcode::ADD | Opcode::SUB | Opcode::MUL | Opcode::DIV => self.arithmetic(),
                Opcode::LESS_THAN
                | Opcode::LESS_OR_EQUAL
                | Opcode::EQUAL
                | Opcode::GREATER_OR_EQUAL
                | Opcode::GREATER_THAN => self.comparison(),
                Opcode::JUMP => Self::proceed(self.jump(self.operand_u32(0) as int)),
                Opcode::JUMP_TRUE => self.branch(false),
                Opcode::JUMP_FALSE => self.branch(true),
                Opcode::PUSH => self.push(),
                Opcode::CALL => self.call(),
                Opcode::RETURN => self.designate(),
                _ => (self.skip(0), StepView::Halt),
            }
        }
    }

    /// The answer to an arithmetic request arrives: the destination becomes
    /// the number with these bits. Nothing changes, and the second part is
    /// false, if the process waits for no number.
    pub open spec fn supply_number(self, bits: u32) -> (ProcessView, bool) {
        if self.awaits(Awaited::Number) {
            (
                ProcessView {
                    waiting: None,
                    ..self.store(self.waiting->0.dest as int, Register::number(bits))
                },
                true,
            )
        } else {
            (self, false)
        }
    }

    /// The answer to a field or call request arrives: the destination becomes
    /// `value`. Nothing changes, and the second part is false, if the process
    /// waits for no value.
    pub open spec fn supply_value(self, value: Register) -> (ProcessView, bool) {
        if self.awaits(Awaited::Value) {
            (
                ProcessView { waiting: None, ..self.store(self.waiting->0.dest as int, value) },
                true,
            )
        } else {
            (self, false)
        }
    }

    /// Up to `budget` steps, ending early with the first step that is not
    /// `Continue`.
    pub open spec fn run(self, budget: nat) -> (ProcessView, StepView)
        decreases budget,
    {
        if budget == 0 {
            (self, StepView::Continue)
        } else {
            let (next, step) = self.step();
            if step is Continue {
                next.run((budget - 1) as nat)
            } else {
                (next, step)
            }
        }
    }
}

} // verus!

verus! {

/// One execution of a bytecode buffer: a cursor over the buffer, the
/// register file, the local slots, the caller's arguments, and the
/// arguments pushed for the next call.
#[derive(Debug)]
pub struct Process {
    pub registers: [Register; NUM_REGISTERS],
    bytecode: Vec<u8>,
    position: usize,
    args: Vec<Register>,
    locals: [Register; NUM_REGISTERS],
    pid: u32,
    return_register_id: usize,
    call_arg_stack: Vec<Register>,
    waiting: Option<Pending>,
}

impl View for Process {
    type V = ProcessView;

    closed spec fn view(&self) -> ProcessView {
        ProcessView {
            registers: self.registers@,
            code: self.bytecode@,
            position: self.position as int,
            args: self.args@,
            locals: self.locals@,
            pid: self.pid,
            return_register: self.return_register_id as int,
            call_args: self.call_arg_stack@,
            waiting: self.waiting,
        }
    }
}

impl Process {
    /// What every process keeps: the designated return register, and the
    /// register that an awaited answer goes to, exist.
    pub open spec fn wf(&self) -> bool {
        self@.wf()
    }

    pub fn new(pid: u32, bytecode: Vec<u8>, args: Vec<Register>) -> (process: Process)
        ensures
            process@ == ProcessView::fresh(pid, bytecode@, args@),
            process.wf(),
    {
        let process = Process {
            registers: [Register { tag: 0, value: 0 }; NUM_REGISTERS],
            bytecode,
            position: 0,
            args,
            locals: [Register { tag: 0, value: 0 }; NUM_REGISTERS],
            pid,
            return_register_id: 0,
            call_arg_stack: Vec::new(),
            waiting: None,
        };
        assert(process@.registers =~= ProcessView::fresh(pid, bytecode@, args@).registers);
        assert(process@.locals =~= ProcessView::fresh(pid, bytecode@, args@).locals);
        process
    }

    /// The value of the register that `RETURN` designated last, register 0
    /// if it never ran.
    pub fn get_return_value(&self) -> (value: Register)
        requires
            self.wf(),
        ensures
            value == self@.return_value(),
    {
        self.registers[self.return_register_id]
    }

    /// The offset of the next byte that the process reads.
    pub fn position(&self) -> (position: u64)
        ensures
            position == self@.position,
    {
        self.position as u64
    }

    /// The buffer that the process executes.
    pub fn bytecode(&self) -> (code: &Vec<u8>)
        ensures
            code@ == self@.code,
    {
        &self.bytecode
    }

    /// The identifier that the process was created with.
    pub fn pid(&self) -> (pid: u32)
        ensures
            pid == self@.pid,
    {
        self.pid
    }

    /// Whether the float comparison `op` holds of the payloads of two
    /// registers, whatever their tags. No opcode but the five comparisons
    /// holds of anything.
    pub fn compare(&self, left: &Register, right: &Register, op: Opcode) -> (result: bool)
        ensures
            result == holds(op, left.value, right.value),
    {
        compare_bits(op, left.value, right.value)
    }
}

} // verus!

verus! {

impl Process {
    /// Asks for the arithmetic that `op` names: the payloads of the two
    /// operand registers go out, and the process waits for the result.
    fn do_math_op(&mut self, op: Opcode) -> (step: Step)
        requires
            old(self).wf(),
            old(self)@.waiting is None,
            old(self)@.position + 4 <= old(self)@.code.len(),
            old(self)@.opcode() == op,
        ensures
            final(self).wf(),
            (final(self)@, step@) == old(self)@.arithmetic(),
    {
        let _ = self.bytecode.len();
        let at = self.position + 1;
        let lefti = self.bytecode[at] as usize;
        let righti = self.bytecode[at + 1] as usize;
        let desti = self.bytecode[at + 2] as usize;
        if lefti >= NUM_REGISTERS || righti >= NUM_REGISTERS || desti >= NUM_REGISTERS {
            return Step::Fault(Fault::RegisterOutOfRange);
        }
        let left = self.registers[lefti].value;
        let right = self.registers[righti].value;
        self.waiting = Some(Pending { dest: desti, kind: Awaited::Number });
        self.position = at + 3;
        Step::Arithmetic { op, left, right }
    }

    /// Decodes the instruction under the cursor and executes it.
    ///
    /// An instruction that needs work from outside the machine (float
    /// arithmetic, a field of a host object, a call) hands the request out
    /// as its step and leaves the process waiting: `supply_number` or
    /// `supply_value` brings the answer in. An opcode without an effect
    /// ends the execution with `Halt`. A malformed instruction is a fault,
    /// and leaves the process unchanged.
    pub fn execute_one(&mut self) -> (step: Step)
        requires
            old(self).wf(),
        ensures
            final(self).wf(),
            (final(self)@, step@) == old(self)@.step(),
    {
        let len = self.bytecode.len();
        if self.waiting.is_some() {
            return Step::Fault(Fault::AnswerAwaited);
        }
        if self.position >= len {
            return Step::Fault(Fault::UnexpectedEnd);
        }
        let op = Opcode::from_byte(self.bytecode[self.position]);
        let at = self.position + 1;
        let operands = op.operand_bytes();
        if operands == 0 {
            self.position = at;
            return Step::Halt;
        }
        if len - at < operands {
            return Step::Fault(Fault::UnexpectedEnd);
        }
        match op {
            Opcode::LOAD_IMMEDIATE => {
                let reg_idx = self.bytecode[at] as usize;
                let typ = self.bytecode[at + 1] as u32;
                let val = read_u32_at(&self.bytecode, at + 2);
                if reg_idx >= NUM_REGISTERS {
                    return Step::Fault(Fault::RegisterOutOfRange);
                }
                self.registers[reg_idx] = Register { tag: typ, value: val };
                self.position = at + 6;
                Step::Continue
            },
            Opcode::LOAD_ARGUMENT => {
                let arg_index = self.bytecode[at] as usize;
                let dest_index = self.bytecode[at + 1] as usize;
                if arg_index >= self.args.len() {
                    return Step::Fault(Fault::ArgumentOutOfRange);
                }
                if dest_index >= NUM_REGISTERS {
                    return Step::Fault(Fault::RegisterOutOfRange);
                }
                self.registers[dest_index] = self.args[arg_index];
                self.position = at + 2;
                Step::Continue
            },
            Opcode::LOAD_LOCAL => {
                let local_index = self.bytecode[at] as usize;
                let dest_index = self.bytecode[at + 1] as usize;
                if local_index >= NUM_REGISTERS {
                    return Step::Fault(Fault::LocalOutOfRange);
                }
                if dest_index >= NUM_REGISTERS {
                    return Step::Fault(Fault::RegisterOutOfRange);
                }
                self.registers[dest_index] = self.locals[local_index];
                self.position = at + 2;
                Step::Continue
            },
            Opcode::STORE_LOCAL => {
                let source_index = self.bytecode[at] as usize;
                let local_index = self.bytecode[at + 1] as usize;
                if local_index >= NUM_REGISTERS {
                    return Step::Fault(Fault::LocalOutOfRange);
                }
                if source_index >= NUM_REGISTERS {
                    return Step::Fault(Fault::RegisterOutOfRange);
                }
                self.locals[local_index] = self.registers[source_index];
                self.position = at + 2;
                Step::Continue
            },
            Opcode::GET_FIELD => {
                let source_index = self.bytecode[at] as usize;
                let field_name = read_u16_at(&self.bytecode, at + 1);
                let destination_index = self.bytecode[at + 3] as usize;
                if source_index >= NUM_REGISTERS || destination_index >= NUM_REGISTERS {
                    return Step::Fault(Fault::RegisterOutOfRange);
                }
                let source = self.registers[source_index];
                self.waiting = Some(Pending { dest: destination_index, kind: Awaited::Value });
                self.position = at + 4;
                Step::GetField { source, field: field_name }
            },
            Opcode::ADD | Opcode::SUB | Opcode::MUL | Opcode::DIV => self.do_math_op(op),
            Opcode::LESS_THAN
            | Opcode::LESS_OR_EQUAL
            | Opcode::EQUAL
            | Opcode::GREATER_OR_EQUAL
            | Opcode::GREATER_THAN => {
                let left = self.bytecode[at] as usize;
                let right = self.bytecode[at + 1] as usize;
                let result = self.bytecode[at + 2] as usize;
                if left >= NUM_REGISTERS || right >= NUM_REGISTERS || result >= NUM_REGISTERS {
                    return Step::Fault(Fault::RegisterOutOfRange);
                }
                let left = self.registers[left];
                let right = self.registers[right];
                let res = if self.compare(&left, &right, op) {
                    ONE
                } else {
                    ZERO
                };
                self.registers[result] = Register { tag: NUMBER_TAG, value: res };
                self.position = at + 3;
                Step::Continue
            },
            Opcode::JUMP => {
                let dest = read_u32_at(&self.bytecode, at);
                self.position = dest as usize;
                Step::Continue
            },
            Opcode::JUMP_TRUE => {
                let reg = self.bytecode[at] as usize;
                let dest = read_u32_at(&self.bytecode, at + 1);
                if reg >= NUM_REGISTERS {
                    return Step::Fault(Fault::RegisterOutOfRange);
                }
                if self.registers[reg].value != 0 {
                    self.position = dest as usize;
                } else {
                    self.position = at + 5;
                }
                Step::Continue
            },
            Opcode::JUMP_FALSE => {
                let reg = self.bytecode[at] as usize;
                let dest = read_u32_at(&self.bytecode, at + 1);
                if reg >= NUM_REGISTERS {
                    return Step::Fault(Fault::RegisterOutOfRange);
                }
                if self.registers[reg].value == 0 {
                    self.position = dest as usize;
                } else {
                    self.position = at + 5;
                }
                Step::Continue
            },
            Opcode::PUSH => {
                let arg_idx = self.bytecode[at] as usize;
                if arg_idx >= NUM_REGISTERS {
                    return Step::Fault(Fault::RegisterOutOfRange);
                }
                let value = self.registers[arg_idx];
                self.call_arg_stack.push(value);
                self.position = at + 1;
                Step::Continue
            },
            Opcode::CALL => {
                let proc_id = read_u32_at(&self.bytecode, at);
                let result_register = self.bytecode[at + 4] as usize;
                if result_register >= NUM_REGISTERS {
                    return Step::Fault(Fault::RegisterOutOfRange);
                }
                let mut args: Vec<Register> = Vec::new();
                std::mem::swap(&mut args, &mut self.call_arg_stack);
                self.waiting = Some(Pending { dest: result_register, kind: Awaited::Value });
                self.position = at + 5;
                Step::Call { id: proc_id, args }
            },
            Opcode::RETURN => {
                let source = self.bytecode[at] as usize;
                if source >= NUM_REGISTERS {
                    return Step::Fault(Fault::RegisterOutOfRange);
                }
                self.return_register_id = source;
                self.position = at + 1;
                Step::Continue
            },
            _ => {
                self.position = at;
                Step::Halt
            },
        }
    }
}

} // verus!

verus! {

impl Process {
    /// Brings in the bits that an arithmetic request asked for: the
    /// destination register becomes the number with these bits, and the
    /// process can go on. A process that waits for no number stays as it
    /// is, and the result is false.
    pub fn supply_number(&mut self, bits: u32) -> (accepted: bool)
        requires
            old(self).wf(),
        ensures
            final(self).wf(),
            (final(self)@, accepted) == old(self)@.supply_number(bits),
    {
        match self.waiting {
            Some(Pending { dest, kind: Awaited::Number }) => {
                self.registers[dest] = Register { tag: NUMBER_TAG, value: bits };
                self.waiting = None;
                true
            },
            _ => false,
        }
    }

    /// Brings in the value that a field or call request asked for: the
    /// destination register becomes `value`, and the process can go on. A
    /// process that waits for no value stays as it is, and the result is
    /// false.
    pub fn supply_value(&mut self, value: Register) -> (accepted: bool)
        requires
            old(self).wf(),
        ensures
            final(self).wf(),
            (final(self)@, accepted) == old(self)@.supply_value(value),
    {
        match self.waiting {
            Some(Pending { dest, kind: Awaited::Value }) => {
                self.registers[dest] = value;
                self.waiting = None;
                true
            },
            _ => false,
        }
    }

    /// Takes up to `budget` steps and stops early at the first that is not
    /// `Continue`: a halt, a request, or a fault. `Continue` comes back only
    /// when the budget is used up.
    pub fn execute(&mut self, budget: u64) -> (step: Step)
        requires
            old(self).wf(),
        ensures
            final(self).wf(),
            (final(self)@, step@) == old(self)@.run(budget as nat),
    {
        let mut left = budget;
        while left > 0
            invariant
                self.wf(),
                self@.run(left as nat) == old(self)@.run(budget as nat),
            decreases left,
        {
            let step = self.execute_one();
            match step {
                Step::Continue => {},
                _ => {
                    return step;
                },
            }
            left = left - 1;
        }
        Step::Continue
    }
}

} // verus!

verus! {

impl Process {
    /// Whether the process waits for a value: a field, or what a call
    /// returns.
    pub fn awaits_value(&self) -> (waits: bool)
        ensures
            waits == self@.awaits(Awaited::Value),
    {
        match self.waiting {
            Some(Pending { dest, kind: Awaited::Value }) => true,
            _ => false,
        }
    }

    /// Whether the process waits for the bits of an arithmetic result.
    pub fn awaits_number(&self) -> (waits: bool)
        ensures
            waits == self@.awaits(Awaited::Number),
    {
        match self.waiting {
            Some(Pending { dest, kind: Awaited::Number }) => true,
            _ => false,
        }
    }
}

} // verus!
