//! What holds of the compiler and the machine together.

use crate::ast::{
    BinaryOp, CompileErrorView, Expression, IfArm, IfChain, Procedure, Statement, Term,
};
use crate::bytes::{le_u32, lemma_le_bounds, lemma_le_round_trip, u32_le};
use crate::compiler::{
    compiled, holds_result, lemma_acquire, lemma_arms, lemma_block, lemma_consumed,
    lemma_expression, lemma_first_free, lemma_if, names_of, opcode_of, places_valid, resolve,
    CompilerView,
};
use crate::number::{bits_of_int, holds, is_nan, truth, ONE, ZERO};
use crate::opcode::Opcode;
use crate::process::{Fault, ProcessView, StepView, NUM_REGISTERS};
use crate::register::{Register, NUMBER_TAG};
use crate::vm::{ActionView, VMView};
use vstd::prelude::*;

verus! {

/// The number of temporaries below `upto` that are in use.
pub open spec fn count_live(s: CompilerView, upto: int) -> int
    decreases upto,
{
    if upto <= 0 {
        0
    } else {
        count_live(s, upto - 1) + if s.live(upto - 1) {
            1int
        } else {
            0int
        }
    }
}

/// The number of temporaries that are in use.
pub open spec fn live_count(s: CompilerView) -> int {
    count_live(s, NUM_REGISTERS as int)
}

pub open spec fn max(a: int, b: int) -> int {
    if a >= b {
        a
    } else {
        b
    }
}

/// The number of temporaries that the value of an expression needs at
/// once, by the nesting of the expression: one for a literal or an
/// identifier; for a binary operation what its left operand needs, or one
/// for the left value and what the right operand needs, or three for the
/// two values and the result, whichever is most.
pub open spec fn registers_needed(expr: Expression) -> int
    decreases expr,
{
    match expr {
        Expression::Base { unary, term, follow } => match term {
            Term::Expr(inner) => registers_needed(*inner),
            _ => 1,
        },
        Expression::BinaryOp { op, lhs, rhs } => max(
            max(registers_needed(*lhs), 1 + registers_needed(*rhs)),
            3,
        ),
        Expression::Other(text) => 1,
    }
}

/// With no temporary on the free list, all that were allocated are in use.
proof fn lemma_count_full(s: CompilerView, upto: int)
    requires
        s.wf(),
        0 <= upto <= NUM_REGISTERS,
        forall|id: int| 0 <= id < NUM_REGISTERS ==> !#[trigger] s.free_registers[id],
    ensures
        count_live(s, upto) == if upto <= s.next_free_register {
            upto
        } else {
            s.next_free_register
        },
    decreases upto,
{
    if upto > 0 {
        lemma_count_full(s, upto - 1);
    }
}

/// One more temporary in use is one more counted.
proof fn lemma_count_one_more(before: CompilerView, after: CompilerView, reg: int, upto: int)
    requires
        0 <= upto,
        0 <= reg,
        !before.live(reg),
        after.live(reg),
        forall|other: int| other != reg ==> after.live(other) == before.live(other),
    ensures
        count_live(after, upto) == count_live(before, upto) + if reg < upto {
            1int
        } else {
            0int
        },
    decreases upto,
{
    if upto > 0 {
        lemma_count_one_more(before, after, reg, upto - 1);
    }
}

/// A value that is held costs one temporary.
proof fn lemma_holds_result_count(before: CompilerView, after: CompilerView, reg: int)
    requires
        holds_result(before, after, reg),
    ensures
        live_count(after) == live_count(before) + 1,
{
    lemma_count_one_more(before, after, reg, NUM_REGISTERS as int);
}

/// Taking a temporary allocates a new one only when all that were ever
/// allocated are in use.
proof fn lemma_acquire_peak(s: CompilerView)
    requires
        s.wf(),
    ensures
        s.acquire() matches Ok((taken, id)) ==> taken.next_free_register <= max(
            s.next_free_register,
            live_count(s) + 1,
        ),
{
    lemma_first_free(s, 0);
    if s.first_free(0) >= NUM_REGISTERS {
        lemma_count_full(s, NUM_REGISTERS as int);
    }
}

/// Temporaries are reused. Lowering an expression never allocates a
/// temporary beyond what its nesting needs: afterwards the number of
/// temporaries that were ever allocated is what it was before, or the
/// number that were in use before plus `registers_needed`, whichever is
/// more. All but the one that holds the value are free again.
pub proof fn law_registers_are_reused(s: CompilerView, expr: Expression)
    requires
        s.wf(),
    ensures
        s.visit_expression(expr) matches Ok((after, reg)) ==> {
            &&& holds_result(s, after, reg)
            &&& live_count(after) == live_count(s) + 1
            &&& after.next_free_register <= max(
                s.next_free_register,
                live_count(s) + registers_needed(expr),
            )
        },
    decreases expr,
{
    lemma_expression(s, expr);
    if let Ok((after, reg)) = s.visit_expression(expr) {
        lemma_holds_result_count(s, after, reg);
    }
    match expr {
        Expression::Base { unary, term, follow } => {
            if unary.len() == 0 {
                lemma_acquire_peak(s);
                match term {
                    Term::Expr(inner) => {
                        if follow.len() == 0 {
                            law_registers_are_reused(s, *inner);
                        }
                    },
                    _ => {
                        assert(registers_needed(expr) == 1);
                        if let Ok((after, reg)) = s.visit_term(term, follow@) {
                            let taken = s.acquire()->Ok_0.0;
                            assert(after.next_free_register == taken.next_free_register);
                        }
                    },
                }
            }
        },
        Expression::BinaryOp { op, lhs, rhs } => {
            law_registers_are_reused(s, *lhs);
            if let Ok((after_left, left)) = s.visit_expression(*lhs) {
                law_registers_are_reused(after_left, *rhs);
                if let Ok((after_right, right)) = after_left.visit_expression(*rhs) {
                    lemma_acquire(after_right);
                    lemma_acquire_peak(after_right);
                }
            }
        },
        Expression::Other(text) => {},
    }
}

} // verus!

verus! {

/// A call of a procedure that has no program goes to the native procedure,
/// once, with all the arguments that were pushed, in the order in which
/// they were pushed.
///
/// The machine hands out one `NativeCall` and clears the call-argument
/// stack. Until the answer is brought in it hands out nothing more: a
/// further step is the fault `AnswerAwaited` and changes nothing. The value
/// that is brought in arrives in the result register of the call.
pub proof fn law_unknown_call_goes_native(vm: VMView, value: Register)
    requires
        vm.wf(),
        vm.programs.len() > 0,
        vm.programs.last().waiting is None,
        vm.programs.last().position + 6 <= vm.programs.last().code.len(),
        vm.programs.last().opcode() == Opcode::CALL,
        vm.programs.last().operand(4) < NUM_REGISTERS,
        !vm.bytecodes.contains_key(vm.programs.last().operand_u32(0)),
    ensures
        ({
            let caller = vm.programs.last();
            let (next, action) = vm.step();
            &&& action == ActionView::NativeCall {
                id: caller.operand_u32(0),
                args: caller.call_args,
            }
            &&& next.programs.len() == vm.programs.len()
            &&& next.programs.last().call_args == Seq::<Register>::empty()
            &&& next.step() == (next, ActionView::Fault(Fault::AnswerAwaited))
            &&& next.resume_value(value).1 == ActionView::Continue
            &&& next.resume_value(value).0.programs.last().registers[caller.operand(4)] == value
        }),
{
    let caller = vm.programs.last();
    let (called, step) = caller.step();
    let next = vm.with_top(called);
    assert(next.programs.last() == called);
    assert(vm.step().0.programs =~= next.programs);
}

/// A comparison leaves the number 1.0 or the number 0.0 in its result
/// register, and nothing else: 1.0 exactly where the comparison holds of
/// the two payloads as floats. With a NaN on either side it leaves 0.0,
/// whichever comparison it is.
pub proof fn law_comparison_is_one_or_zero(p: ProcessView)
    requires
        p.wf(),
        p.waiting is None,
        p.position + 4 <= p.code.len(),
        p.opcode().is_comparison(),
        p.operand(0) < NUM_REGISTERS,
        p.operand(1) < NUM_REGISTERS,
        p.operand(2) < NUM_REGISTERS,
    ensures
        ({
            let left = p.registers[p.operand(0)].value;
            let right = p.registers[p.operand(1)].value;
            let (next, step) = p.step();
            let result = next.registers[p.operand(2)];
            &&& step is Continue
            &&& result == Register::number(ONE) || result == Register::number(ZERO)
            &&& result == Register::number(ONE) <==> holds(p.opcode(), left, right)
            &&& is_nan(left) || is_nan(right) ==> result == Register::number(ZERO)
        }),
{
}

} // verus!

verus! {

/// Whether `expr` is a literal, integer or float, of the number with these
/// bits.
pub open spec fn is_literal(expr: Expression, bits: u32) -> bool {
    &&& expr matches Expression::Base { unary, term, follow }
    &&& unary.len() == 0
    &&& follow.len() == 0
    &&& match term {
        Term::Int(number) => bits == bits_of_int(number as int),
        Term::Float(number) => bits == number,
        _ => false,
    }
}

/// Whether the body of `proc` is the one statement `return expr`.
pub open spec fn body_returns(proc: Procedure, expr: Expression) -> bool {
    &&& proc.code matches Some(block)
    &&& block.len() == 1
    &&& block[0] == Statement::Return(Some(expr))
}

/// The instruction that loads the number with these bits into `reg`.
pub open spec fn load_number(reg: u8, bits: u32) -> Seq<u8> {
    seq![Opcode::LOAD_IMMEDIATE.code(), reg, NUMBER_TAG as u8] + u32_le(bits)
}

/// A compiler before its first statement has no temporary on its free
/// list.
proof fn lemma_fresh(args: Seq<Seq<char>>)
    ensures
        CompilerView::fresh(args).wf(),
        CompilerView::fresh(args).first_free(0) == NUM_REGISTERS,
{
    lemma_first_free(CompilerView::fresh(args), 0);
}

/// The code of `return L` for a literal `L`.
proof fn lemma_compiled_return_literal(proc: Procedure, expr: Expression, bits: u32)
    requires
        body_returns(proc, expr),
        is_literal(expr, bits),
    ensures
        compiled(proc) == Ok::<Seq<u8>, CompileErrorView>(
            load_number(0, bits) + seq![Opcode::RETURN.code(), 0u8, Opcode::HALT.code()],
        ),
{
    let s = CompilerView::fresh(names_of(proc.parameters@));
    let block = proc.code->0;
    lemma_fresh(s.args);
    reveal_with_fuel(CompilerView::visit_block, 3);
    let loaded = s.load_literal(bits);
    assert(loaded is Ok);
    let (after, reg) = loaded->Ok_0;
    assert(reg == 0);
    assert(s.visit_term(expr->term, expr->follow@) == loaded);
    assert(s.visit_expression(expr) == loaded);
    let last = after.emit(seq![Opcode::RETURN.code(), reg as u8]).release(reg);
    assert(s.visit_statement(block[0]) == Ok::<CompilerView, CompileErrorView>(last));
    assert(s.visit_block(block, 0) == Ok::<CompilerView, CompileErrorView>(last));
    assert(last.emit(seq![Opcode::HALT.code()]).bytecode =~= load_number(0, bits)
        + seq![Opcode::RETURN.code(), 0u8, Opcode::HALT.code()]);
}

/// A literal comes back as it is. Compiling `return L` for an integer or
/// float literal `L` and running the result gives the number whose bits
/// are those of the float that `L` denotes, whatever the arguments.
pub proof fn law_return_literal(
    proc: Procedure,
    expr: Expression,
    bits: u32,
    vm: VMView,
    id: u32,
    args: Seq<Register>,
)
    requires
        body_returns(proc, expr),
        is_literal(expr, bits),
        vm.bytecodes.contains_key(id),
        compiled(proc) is Ok ==> vm.bytecodes[id] == compiled(proc)->Ok_0,
    ensures
        compiled(proc) is Ok,
        vm.run_program(id, args).1 == ActionView::Continue,
        vm.run_program(id, args).0.run(3).1 == ActionView::Finished(Register::number(bits)),
{
    lemma_compiled_return_literal(proc, expr, bits);
    let code = load_number(0, bits) + seq![Opcode::RETURN.code(), 0u8, Opcode::HALT.code()];
    let started = vm.run_program(id, args).0;
    let p0 = ProcessView::fresh(vm.current_pid, code, args);
    assert(started.programs =~= seq![p0]);
    lemma_le_round_trip(bits, 0);
    assert(code.len() == 10);
    assert(code[0] == Opcode::LOAD_IMMEDIATE.code());
    assert(code.subrange(3, 7) =~= u32_le(bits));
    let (p1, s1) = p0.step();
    assert(s1 is Continue);
    assert(p1 == p0.store(0, Register::number(bits)).skip(6));
    let (p2, s2) = p1.step();
    assert(code[7] == Opcode::RETURN.code());
    assert(s2 is Continue);
    assert(p2.position == 9);
    let (p3, s3) = p2.step();
    assert(code[9] == Opcode::HALT.code());
    assert(s3 is Halt);
    assert(p3.return_value() == Register::number(bits));
    let vm1 = started.step().0;
    assert(vm1.programs =~= seq![p1]);
    assert(started.step() == (vm1, ActionView::Continue));
    let vm2 = vm1.step().0;
    assert(vm2.programs =~= seq![p2]);
    assert(vm1.step() == (vm2, ActionView::Continue));
    assert(vm2.with_top(p3).programs =~= seq![p3]);
    assert(vm2.step().1 == ActionView::Finished(Register::number(bits)));
    reveal_with_fuel(VMView::run, 4);
}

} // verus!

verus! {

/// Whether `expr` is `a op b` for literals `a` and `b` of the numbers with
/// these bits.
pub open spec fn is_operation(expr: Expression, op: BinaryOp, left: u32, right: u32) -> bool {
    &&& expr matches Expression::BinaryOp { op: operator, lhs, rhs }
    &&& operator == op
    &&& is_literal(*lhs, left)
    &&& is_literal(*rhs, right)
}

/// The code of `return a op b` for literals `a` and `b`: the operands in
/// temporaries 0 and 1, left first, and the result in temporary 2.
pub open spec fn operation_code(oper: Opcode, left: u32, right: u32) -> Seq<u8> {
    load_number(0, left) + load_number(1, right) + seq![oper.code(), 0u8, 1u8, 2u8] + seq![
        Opcode::RETURN.code(),
        2u8,
        Opcode::HALT.code(),
    ]
}

proof fn lemma_compiled_return_operation(
    proc: Procedure,
    expr: Expression,
    op: BinaryOp,
    oper: Opcode,
    left: u32,
    right: u32,
)
    requires
        body_returns(proc, expr),
        is_operation(expr, op, left, right),
        opcode_of(op) == Some(oper),
    ensures
        compiled(proc) == Ok::<Seq<u8>, CompileErrorView>(operation_code(oper, left, right)),
{
    let s = CompilerView::fresh(names_of(proc.parameters@));
    let block = proc.code->0;
    lemma_fresh(s.args);
    reveal_with_fuel(CompilerView::visit_block, 3);
    let lhs = *expr->lhs;
    let rhs = *expr->rhs;
    let s1 = s.load_literal(left)->Ok_0.0;
    assert(s.visit_term(lhs->term, lhs->follow@) == s.load_literal(left));
    assert(s.visit_expression(lhs) == Ok::<(CompilerView, int), CompileErrorView>((s1, 0)));
    lemma_first_free(s1, 0);
    let s2 = s1.load_literal(right)->Ok_0.0;
    assert(s1.visit_term(rhs->term, rhs->follow@) == s1.load_literal(right));
    assert(s1.visit_expression(rhs) == Ok::<(CompilerView, int), CompileErrorView>((s2, 1)));
    lemma_first_free(s2, 0);
    let s3 = s2.acquire()->Ok_0.0;
    assert(s2.acquire() == Ok::<(CompilerView, int), CompileErrorView>((s3, 2)));
    let s4 = s3.emit(seq![oper.code(), 0u8, 1u8, 2u8]).release(1).release(0);
    assert(s.visit_expression(expr) == Ok::<(CompilerView, int), CompileErrorView>((s4, 2)));
    let last = s4.emit(seq![Opcode::RETURN.code(), 2u8]).release(2);
    assert(s.visit_statement(block[0]) == Ok::<CompilerView, CompileErrorView>(last));
    assert(s.visit_block(block, 0) == Ok::<CompilerView, CompileErrorView>(last));
    assert(last.emit(seq![Opcode::HALT.code()]).bytecode =~= operation_code(oper, left, right));
}

/// The machine after the two loads of `operation_code`, and that it gets
/// there in two steps.
proof fn lemma_operands_loaded(
    vm: VMView,
    id: u32,
    args: Seq<Register>,
    oper: Opcode,
    left: u32,
    right: u32,
) -> (loaded: ProcessView)
    requires
        vm.bytecodes.contains_key(id),
        vm.bytecodes[id] == operation_code(oper, left, right),
    ensures
        vm.run_program(id, args).1 == ActionView::Continue,
        vm.run_program(id, args).0.run(2) == (
            VMView { programs: seq![loaded], ..vm.idle() },
            ActionView::Continue,
        ),
        loaded == (ProcessView {
            position: 14,
            registers: ProcessView::fresh(vm.current_pid, vm.bytecodes[id], args).registers.update(
                0,
                Register::number(left),
            ).update(1, Register::number(right)),
            ..ProcessView::fresh(vm.current_pid, vm.bytecodes[id], args)
        }),
        loaded.code.len() == 21,
        loaded.code[14] == oper.code(),
        loaded.code[15] == 0,
        loaded.code[16] == 1,
        loaded.code[17] == 2,
        loaded.code[18] == Opcode::RETURN.code(),
        loaded.code[19] == 2,
        loaded.code[20] == Opcode::HALT.code(),
{
    let code = operation_code(oper, left, right);
    let started = vm.run_program(id, args).0;
    let p0 = ProcessView::fresh(vm.current_pid, code, args);
    assert(started.programs =~= seq![p0]);
    lemma_le_round_trip(left, 0);
    lemma_le_round_trip(right, 0);
    assert(code.len() == 21);
    assert(code[0] == Opcode::LOAD_IMMEDIATE.code());
    assert(code.subrange(3, 7) =~= u32_le(left));
    let (p1, s1) = p0.step();
    assert(p1 == p0.store(0, Register::number(left)).skip(6));
    assert(code[7] == Opcode::LOAD_IMMEDIATE.code());
    assert(code[8] == 1);
    assert(code.subrange(10, 14) =~= u32_le(right));
    let (p2, s2) = p1.step();
    assert(p2 == p1.store(1, Register::number(right)).skip(6));
    let vm1 = started.step().0;
    assert(vm1.programs =~= seq![p1]);
    assert(started.step() == (vm1, ActionView::Continue));
    let vm2 = vm1.step().0;
    assert(vm2.programs =~= seq![p2]);
    assert(vm1.step() == (vm2, ActionView::Continue));
    reveal_with_fuel(VMView::run, 3);
    p2
}

/// A comparison of two literals comes back as 1.0 or 0.0. Compiling
/// `return a op b` for a comparison `op` and running the result gives the
/// number 1.0 where `a op b` holds of the two floats, and the number 0.0
/// where it does not; with a NaN on either side it gives 0.0.
pub proof fn law_return_comparison(
    proc: Procedure,
    expr: Expression,
    op: BinaryOp,
    left: u32,
    right: u32,
    vm: VMView,
    id: u32,
    args: Seq<Register>,
)
    requires
        body_returns(proc, expr),
        is_operation(expr, op, left, right),
        opcode_of(op) matches Some(oper) && oper.is_comparison(),
        vm.bytecodes.contains_key(id),
        compiled(proc) is Ok ==> vm.bytecodes[id] == compiled(proc)->Ok_0,
    ensures
        compiled(proc) is Ok,
        vm.run_program(id, args).1 == ActionView::Continue,
        vm.run_program(id, args).0.run(5).1 == ActionView::Finished(
            Register::number(truth(holds(opcode_of(op)->0, left, right))),
        ),
        is_nan(left) || is_nan(right) ==> vm.run_program(id, args).0.run(5).1
            == ActionView::Finished(Register::number(ZERO)),
{
    let oper = opcode_of(op)->0;
    lemma_compiled_return_operation(proc, expr, op, oper, left, right);
    let p2 = lemma_operands_loaded(vm, id, args, oper, left, right);
    let vm2 = VMView { programs: seq![p2], ..vm.idle() };
    let result = Register::number(truth(holds(oper, left, right)));
    let (p3, s3) = p2.step();
    assert(p3 == p2.store(2, result).skip(3));
    let (p4, s4) = p3.step();
    assert(s4 is Continue);
    assert(p4.position == 20);
    let (p5, s5) = p4.step();
    assert(s5 is Halt);
    assert(p5.return_value() == result);
    let vm3 = vm2.step().0;
    assert(vm3.programs =~= seq![p3]);
    assert(vm2.step() == (vm3, ActionView::Continue));
    let vm4 = vm3.step().0;
    assert(vm4.programs =~= seq![p4]);
    assert(vm3.step() == (vm4, ActionView::Continue));
    assert(vm4.with_top(p5).programs =~= seq![p5]);
    assert(vm4.step().1 == ActionView::Finished(result));
    reveal_with_fuel(VMView::run, 4);
    lemma_run_adds(vm.run_program(id, args).0, 2, 3);
}

/// Running `a` steps and then `b` more is running `a + b` steps, where the
/// first `a` all let the machine go on.
pub proof fn lemma_run_adds(vm: VMView, a: nat, b: nat)
    requires
        vm.run(a).1 is Continue,
    ensures
        vm.run(a + b) == vm.run(a).0.run(b),
    decreases a,
{
    if a > 0 {
        let (next, action) = vm.step();
        if action is Continue {
            lemma_run_adds(next, (a - 1) as nat, b);
        }
    }
}

/// The arithmetic of two literals goes out as it stands, and its answer
/// comes back as it is. Compiling `return a op b` for one of `+ - * /` and
/// running the result asks for `a op b` with the bits of the two literals,
/// the left one first; and whatever bits are brought in as the answer, the
/// invocation finishes with the number of these bits. The machine holds no
/// arithmetic of its own: division by zero is no error to it.
pub proof fn law_return_arithmetic(
    proc: Procedure,
    expr: Expression,
    op: BinaryOp,
    left: u32,
    right: u32,
    vm: VMView,
    id: u32,
    args: Seq<Register>,
    answer: u32,
)
    requires
        body_returns(proc, expr),
        is_operation(expr, op, left, right),
        opcode_of(op) matches Some(oper) && oper.is_arithmetic(),
        vm.bytecodes.contains_key(id),
        compiled(proc) is Ok ==> vm.bytecodes[id] == compiled(proc)->Ok_0,
    ensures
        compiled(proc) is Ok,
        vm.run_program(id, args).1 == ActionView::Continue,
        vm.run_program(id, args).0.run(3).1 == (ActionView::Arithmetic {
            op: opcode_of(op)->0,
            left,
            right,
        }),
        vm.run_program(id, args).0.run(3).0.resume_number(answer).1 == ActionView::Continue,
        vm.run_program(id, args).0.run(3).0.resume_number(answer).0.run(2).1
            == ActionView::Finished(Register::number(answer)),
{
    let oper = opcode_of(op)->0;
    lemma_compiled_return_operation(proc, expr, op, oper, left, right);
    let p2 = lemma_operands_loaded(vm, id, args, oper, left, right);
    let vm2 = VMView { programs: seq![p2], ..vm.idle() };
    let (p3, s3) = p2.step();
    assert(s3 == StepView::Arithmetic { op: oper, left, right });
    let vm3 = vm2.step().0;
    assert(vm3.programs =~= seq![p3]);
    assert(vm2.step() == (vm3, ActionView::Arithmetic { op: oper, left, right }));
    reveal_with_fuel(VMView::run, 3);
    lemma_run_adds(vm.run_program(id, args).0, 2, 1);
    let (p4, accepted) = p3.supply_number(answer);
    assert(accepted);
    let vm4 = vm3.resume_number(answer).0;
    assert(vm4.programs =~= seq![p4]);
    let (p5, s5) = p4.step();
    assert(s5 is Continue);
    assert(p5.position == 20);
    let (p6, s6) = p5.step();
    assert(s6 is Halt);
    assert(p6.return_value() == Register::number(answer));
    let vm5 = vm4.step().0;
    assert(vm5.programs =~= seq![p5]);
    assert(vm4.step() == (vm5, ActionView::Continue));
    assert(vm5.with_top(p6).programs =~= seq![p6]);
    assert(vm5.step().1 == ActionView::Finished(Register::number(answer)));
}

} // verus!

verus! {

/// The placeholder of a conditional jump on temporary `check`.
pub open spec fn branch_placeholder(check: int) -> Seq<u8> {
    seq![Opcode::JUMP_FALSE.code(), check as u8, 0, 0, 0, 0]
}

/// The placeholder of a jump.
pub open spec fn jump_placeholder() -> Seq<u8> {
    seq![Opcode::JUMP.code(), 0, 0, 0, 0]
}

/// The compiler behind the condition of an arm that is lowered from
/// `entry`, with the `JUMP_FALSE` emitted.
pub open spec fn arm_branched(entry: CompilerView, arm: IfArm) -> CompilerView {
    let (after_condition, check) = entry.visit_expression(arm.condition)->Ok_0;
    after_condition.emit(branch_placeholder(check)).release(check)
}

/// The place of the `JUMP_FALSE` of an arm that is lowered from `entry`.
pub open spec fn branch_at(entry: CompilerView, arm: IfArm) -> int {
    entry.visit_expression(arm.condition)->Ok_0.0.bytecode.len() as int
}

/// The temporary that holds the condition of the arm.
pub open spec fn check_register(entry: CompilerView, arm: IfArm) -> int {
    entry.visit_expression(arm.condition)->Ok_0.1
}

/// The place behind the block of the arm: where its `JUMP` stands, if the
/// chain has an `else`.
pub open spec fn block_end(entry: CompilerView, arm: IfArm) -> int {
    arm_branched(entry, arm).visit_block(arm.block, 0)->Ok_0.bytecode.len() as int
}

/// The place behind the whole arm.
pub open spec fn arm_end(entry: CompilerView, arm: IfArm, has_else: bool) -> int {
    block_end(entry, arm) + if has_else {
        5int
    } else {
        0int
    }
}

/// The compiler behind an arm that is lowered from `entry`.
pub open spec fn arm_exit(entry: CompilerView, arm: IfArm, has_else: bool) -> CompilerView {
    let branched = arm_branched(entry, arm);
    let after_block = branched.visit_block(arm.block, 0)->Ok_0;
    let closed = if has_else {
        after_block.emit(jump_placeholder())
    } else {
        after_block
    };
    closed.patch(branched.bytecode.len() - 4, closed.bytecode.len() as u32)
}

/// The compiler behind the arms from the `from`-th on, lowered from `entry`.
pub open spec fn arms_exit(entry: CompilerView, arms: Vec<IfArm>, has_else: bool, from: int)
    -> CompilerView
    decreases arms.len() - from,
{
    if from < 0 || from >= arms.len() {
        entry
    } else {
        arms_exit(arm_exit(entry, arms[from], has_else), arms, has_else, from + 1)
    }
}

/// How an arm that was lowered from `entry` lies in `code`, where the chain
/// ends at `end`.
///
/// Behind the code of the condition stands `JUMP_FALSE` on the temporary of
/// the condition, with the place behind the arm as its target. Behind that
/// stands the block. Where the chain has an `else`, a `JUMP` stands behind
/// the block, with the end of the chain as its target. Both jumps lead
/// forwards.
pub open spec fn arm_layout(
    code: Seq<u8>,
    entry: CompilerView,
    arm: IfArm,
    has_else: bool,
    end: int,
) -> bool {
    let branch = branch_at(entry, arm);
    let stop = block_end(entry, arm);
    let next = arm_end(entry, arm, has_else);
    &&& entry.bytecode.len() <= branch
    &&& branch + 6 <= stop
    &&& next <= end <= code.len()
    &&& code[branch] == Opcode::JUMP_FALSE.code()
    &&& code[branch + 1] == check_register(entry, arm)
    &&& le_u32(code.subrange(branch + 2, branch + 6)) == next
    &&& has_else ==> code[stop] == Opcode::JUMP.code() && le_u32(
        code.subrange(stop + 1, stop + 5),
    ) == end
}

/// How the arms from the `from`-th on lie in `code`, the first of them
/// lowered from `entry`: each as `arm_layout` says, and each where the one
/// before it ends.
pub open spec fn chain_layout(
    code: Seq<u8>,
    entry: CompilerView,
    arms: Vec<IfArm>,
    has_else: bool,
    from: int,
    end: int,
) -> bool
    decreases arms.len() - from,
{
    if from < 0 || from >= arms.len() {
        true
    } else {
        arm_layout(code, entry, arms[from], has_else, end) && chain_layout(
            code,
            arm_exit(entry, arms[from], has_else),
            arms,
            has_else,
            from + 1,
            end,
        )
    }
}

/// Whether byte `i` lies in none of the four-byte places from the
/// `from`-th on.
pub open spec fn untouched(i: int, places: Seq<int>, from: int) -> bool {
    forall|j: int| from <= j < places.len() ==> !(#[trigger] places[j] <= i < places[j] + 4)
}

/// Whether the places lie apart, in ascending order.
pub open spec fn places_apart(places: Seq<int>) -> bool {
    forall|j: int, k: int|
        0 <= j < k < places.len() ==> #[trigger] places[j] + 4 <= #[trigger] places[k]
}

/// Filling in a target at places that lie apart leaves the target at each
/// place, and every byte outside the places as it was.
proof fn lemma_patch_all_effect(s: CompilerView, places: Seq<int>, from: int, target: u32)
    requires
        places_valid(places, s),
        places_apart(places),
        0 <= from,
    ensures
        ({
            let patched = s.patch_all(places, from, target);
            &&& patched.bytecode.len() == s.bytecode.len()
            &&& forall|i: int|
                0 <= i < s.bytecode.len() && untouched(i, places, from) ==> patched.bytecode[i]
                    == s.bytecode[i]
            &&& forall|j: int|
                from <= j < places.len() ==> #[trigger] patched.bytecode.subrange(
                    places[j],
                    places[j] + 4,
                ) == u32_le(target)
        }),
    decreases places.len() - from,
{
    if from < places.len() {
        let at = places[from];
        let next = s.patch(at, target);
        assert(next.bytecode.len() == s.bytecode.len());
        lemma_patch_all_effect(next, places, from + 1, target);
        let patched = next.patch_all(places, from + 1, target);
        assert forall|i: int|
            0 <= i < s.bytecode.len() && untouched(i, places, from) implies patched.bytecode[i]
            == s.bytecode[i] by {
            assert(!(places[from] <= i < places[from] + 4));
            assert(untouched(i, places, from + 1));
            assert(next.bytecode[i] == s.bytecode[i]);
        }
        assert forall|j: int| from <= j < places.len() implies #[trigger] patched.bytecode.subrange(
            places[j],
            places[j] + 4,
        ) == u32_le(target) by {
            if j == from {
                assert forall|i: int| at <= i < at + 4 implies #[trigger] untouched(
                    i,
                    places,
                    from + 1,
                ) by {
                    assert forall|k: int| from + 1 <= k < places.len() implies !(
                    #[trigger] places[k] <= i < places[k] + 4) by {
                        assert(places[from] + 4 <= places[k]);
                    }
                }
                assert(next.bytecode.subrange(at, at + 4) =~= u32_le(target));
                assert(patched.bytecode.subrange(at, at + 4) =~= next.bytecode.subrange(
                    at,
                    at + 4,
                ));
            }
        }
    }
}

/// The places that the arms record: those that were recorded before, and
/// behind them, apart from each other, the new ones, which lie behind the
/// code that was there.
proof fn lemma_arms_places(
    s: CompilerView,
    arms: Vec<IfArm>,
    has_else: bool,
    from: int,
    places: Seq<int>,
)
    requires
        s.wf(),
        places_valid(places, s),
        places_apart(places),
        0 <= from,
    ensures
        s.visit_arms(arms, has_else, from, places) matches Ok((after, out)) ==> {
            &&& places.len() <= out.len()
            &&& forall|j: int| 0 <= j < places.len() ==> out[j] == places[j]
            &&& forall|j: int| places.len() <= j < out.len() ==> s.bytecode.len() <= out[j]
            &&& places_apart(out)
            &&& places_valid(out, after)
            &&& !has_else ==> out == places
            &&& after == arms_exit(s, arms, has_else, from)
        },
    decreases arms.len() - from,
{
    if from < arms.len() {
        let arm = arms[from];
        lemma_expression(s, arm.condition);
        if let Ok((after_condition, check)) = s.visit_expression(arm.condition) {
            let branched = after_condition.emit(branch_placeholder(check)).release(check);
            lemma_consumed(s, after_condition, check, branch_placeholder(check));
            lemma_block(branched, arm.block, 0);
            if let Ok(after_block) = branched.visit_block(arm.block, 0) {
                let closed = if has_else {
                    after_block.emit(jump_placeholder())
                } else {
                    after_block
                };
                let recorded = if has_else {
                    places.push(closed.bytecode.len() - 4)
                } else {
                    places
                };
                if closed.bytecode.len() <= u32::MAX {
                    let patched = closed.patch(
                        branched.bytecode.len() - 4,
                        closed.bytecode.len() as u32,
                    );
                    assert(patched == arm_exit(s, arm, has_else));
                    assert(patched.bytecode.len() == closed.bytecode.len());
                    assert(patched.wf());
                    assert(places_valid(recorded, patched));
                    assert(places_apart(recorded));
                    lemma_arms_places(patched, arms, has_else, from + 1, recorded);
                    lemma_arms(s, arms, has_else, from, places, 0);
                }
            }
        }
    }
}

/// The arms lie in the code as `chain_layout` says, given that the code
/// agrees with what the arms left outside the recorded places and holds
/// the end of the chain at each of them.
proof fn lemma_chain_layout(
    s: CompilerView,
    arms: Vec<IfArm>,
    has_else: bool,
    from: int,
    places: Seq<int>,
    code: Seq<u8>,
    end: int,
)
    requires
        s.wf(),
        places_valid(places, s),
        places_apart(places),
        0 <= from,
        s.visit_arms(arms, has_else, from, places) is Ok,
        ({
            let (after, out) = s.visit_arms(arms, has_else, from, places)->Ok_0;
            &&& after.bytecode.len() <= end <= code.len()
            &&& forall|i: int|
                0 <= i < after.bytecode.len() && untouched(i, out, 0) ==> code[i]
                    == after.bytecode[i]
            &&& forall|j: int|
                0 <= j < out.len() ==> le_u32(#[trigger] code.subrange(out[j], out[j] + 4)) == end
        }),
    ensures
        chain_layout(code, s, arms, has_else, from, end),
    decreases arms.len() - from,
{
    if from < arms.len() {
        let arm = arms[from];
        let (after, out) = s.visit_arms(arms, has_else, from, places)->Ok_0;
        lemma_expression(s, arm.condition);
        let (after_condition, check) = s.visit_expression(arm.condition)->Ok_0;
        let branched = after_condition.emit(branch_placeholder(check)).release(check);
        lemma_consumed(s, after_condition, check, branch_placeholder(check));
        lemma_block(branched, arm.block, 0);
        let after_block = branched.visit_block(arm.block, 0)->Ok_0;
        let closed = if has_else {
            after_block.emit(jump_placeholder())
        } else {
            after_block
        };
        let recorded = if has_else {
            places.push(closed.bytecode.len() - 4)
        } else {
            places
        };
        let patched = closed.patch(branched.bytecode.len() - 4, closed.bytecode.len() as u32);
        assert(patched == arm_exit(s, arm, has_else));
        assert(patched.bytecode.len() == closed.bytecode.len());
        assert(places_valid(recorded, patched));
        assert(places_apart(recorded));
        lemma_arms_places(patched, arms, has_else, from + 1, recorded);
        lemma_arms(patched, arms, has_else, from + 1, recorded, 0);
        lemma_chain_layout(patched, arms, has_else, from + 1, recorded, code, end);

        let branch = branch_at(s, arm);
        let stop = block_end(s, arm);
        let next = arm_end(s, arm, has_else);
        assert(branch == after_condition.bytecode.len());
        assert(stop == after_block.bytecode.len());
        assert(next == closed.bytecode.len());
        lemma_le_round_trip(next as u32, 0);
        // What the arm itself wrote.
        assert(branched.bytecode[branch] == Opcode::JUMP_FALSE.code());
        assert(branched.bytecode[branch + 1] == check as u8);
        assert forall|i: int| 0 <= i < branched.bytecode.len() implies closed.bytecode[i]
            == branched.bytecode[i] by {
            assert(after_block.bytecode.subrange(0, branched.bytecode.len() as int)[i]
                == branched.bytecode[i]);
        }
        assert(patched.bytecode[branch] == Opcode::JUMP_FALSE.code());
        assert(patched.bytecode[branch + 1] == check as u8);
        assert(patched.bytecode.subrange(branch + 2, branch + 6) =~= u32_le(next as u32));
        // What came later left it alone.
        assert forall|i: int| 0 <= i < patched.bytecode.len() implies after.bytecode[i]
            == patched.bytecode[i] by {
            assert(after.bytecode.subrange(0, patched.bytecode.len() as int)[i]
                == patched.bytecode[i]);
        }
        assert forall|i: int| branch <= i < branch + 6 implies #[trigger] untouched(i, out, 0) by {
            assert forall|j: int| 0 <= j < out.len() implies !(#[trigger] out[j] <= i < out[j]
                + 4) by {
                if j < places.len() {
                    assert(out[j] == recorded[j]);
                    assert(recorded[j] == places[j]);
                } else if j < recorded.len() {
                    assert(out[j] == recorded[j]);
                }
            }
        }
        assert(code[branch] == after.bytecode[branch]);
        assert(code[branch + 1] == after.bytecode[branch + 1]);
        assert(code.subrange(branch + 2, branch + 6) =~= patched.bytecode.subrange(
            branch + 2,
            branch + 6,
        )) by {
            assert forall|i: int| branch + 2 <= i < branch + 6 implies code[i]
                == patched.bytecode[i] by {
                assert(untouched(i, out, 0));
                assert(code[i] == after.bytecode[i]);
            }
        }
        if has_else {
            assert(closed.bytecode[stop] == Opcode::JUMP.code());
            assert(patched.bytecode[stop] == Opcode::JUMP.code());
            assert(untouched(stop, out, 0)) by {
                assert forall|j: int| 0 <= j < out.len() implies !(#[trigger] out[j] <= stop
                    < out[j] + 4) by {
                    if j < places.len() {
                        assert(out[j] == recorded[j]);
                        assert(recorded[j] == places[j]);
                    } else if j < recorded.len() {
                        assert(out[j] == recorded[j]);
                    }
                }
            }
            assert(code[stop] == after.bytecode[stop]);
            let own = places.len() as int;
            assert(out[own] == recorded[own]);
            assert(recorded[own] == stop + 1);
        }
        assert(arm_layout(code, s, arm, has_else, end));
    }
}

/// An `if` chain is laid out so that exactly one of its blocks runs, and
/// whichever runs, the execution goes on at one place: the end of the
/// chain.
///
/// In the code of a chain that was lowered, every arm stands as
/// `arm_layout` says. The `JUMP_FALSE` of an arm leads behind the arm:
/// that is where the next arm begins, or the `else` block, or, without an
/// `else`, where the chain ends. Where the chain has an `else`, the `JUMP`
/// behind the block of every arm leads to the end of the chain, which is
/// the end of the code as the chain leaves it. So a condition that is zero
/// passes the block by, one that is not zero enters it, and behind a block
/// nothing of the chain runs any more. What stood in the code before the
/// chain is unchanged.
pub proof fn law_if_chain_layout(s: CompilerView, chain: IfChain)
    requires
        s.wf(),
    ensures
        s.visit_if(chain) matches Ok(after) ==> {
            let has_else = chain.else_arm is Some;
            let arms_end = arms_exit(s, chain.arms, has_else, 0).bytecode.len();
            &&& chain_layout(
                after.bytecode,
                s,
                chain.arms,
                has_else,
                0,
                after.bytecode.len() as int,
            )
            &&& arms_end <= after.bytecode.len()
            &&& !has_else ==> arms_end == after.bytecode.len()
            &&& after.bytecode.subrange(0, s.bytecode.len() as int) == s.bytecode
        },
{
    let has_else = chain.else_arm is Some;
    let places = Seq::<int>::empty();
    lemma_if(s, chain);
    lemma_arms_places(s, chain.arms, has_else, 0, places);
    lemma_arms(s, chain.arms, has_else, 0, places, 0);
    if let Ok(after) = s.visit_if(chain) {
        let (after_arms, out) = s.visit_arms(chain.arms, has_else, 0, places)->Ok_0;
        match chain.else_arm {
            None => {
                assert(after == after_arms);
                lemma_chain_layout(
                    s,
                    chain.arms,
                    has_else,
                    0,
                    places,
                    after.bytecode,
                    after.bytecode.len() as int,
                );
            },
            Some(block) => {
                lemma_block(after_arms, block, 0);
                let after_else = after_arms.visit_block(block, 0)->Ok_0;
                let target = after_else.bytecode.len() as u32;
                assert(places_valid(out, after_else));
                lemma_patch_all_effect(after_else, out, 0, target);
                lemma_le_round_trip(target, 0);
                assert forall|i: int|
                    0 <= i < after_arms.bytecode.len() && untouched(
                        i,
                        out,
                        0,
                    ) implies after.bytecode[i] == after_arms.bytecode[i] by {
                    assert(after_else.bytecode.subrange(0, after_arms.bytecode.len() as int)[i]
                        == after_arms.bytecode[i]);
                }
                lemma_chain_layout(
                    s,
                    chain.arms,
                    has_else,
                    0,
                    places,
                    after.bytecode,
                    after.bytecode.len() as int,
                );
            },
        }
    }
}

} // verus!

verus! {

/// Where the execution goes at the two jumps of an arm. A process that
/// runs code which begins with the code of the chain, and stands at the
/// `JUMP_FALSE` of an arm, goes on behind the arm if the condition's
/// temporary holds zero, and enters the block if it holds anything else. A
/// process that stands at the `JUMP` behind a block goes on at the end of
/// the chain. Neither step changes anything but the cursor.
pub proof fn law_if_chain_control(
    code: Seq<u8>,
    entry: CompilerView,
    arm: IfArm,
    has_else: bool,
    end: int,
    p: ProcessView,
)
    requires
        entry.wf(),
        entry.visit_expression(arm.condition) is Ok,
        arm_layout(code, entry, arm, has_else, end),
        p.wf(),
        p.waiting is None,
        code.len() <= p.code.len(),
        p.code.subrange(0, code.len() as int) == code,
    ensures
        p.position == branch_at(entry, arm) ==> p.step() == (
            p.jump(
                if p.registers[check_register(entry, arm)].value == 0 {
                    arm_end(entry, arm, has_else)
                } else {
                    branch_at(entry, arm) + 6
                },
            ),
            StepView::Continue,
        ),
        has_else && p.position == block_end(entry, arm) ==> p.step() == (
            p.jump(end),
            StepView::Continue,
        ),
{
    lemma_expression(entry, arm.condition);
    let branch = branch_at(entry, arm);
    let stop = block_end(entry, arm);
    let check = check_register(entry, arm);
    assert forall|i: int| 0 <= i < code.len() implies p.code[i] == code[i] by {
        assert(p.code.subrange(0, code.len() as int)[i] == code[i]);
    }
    assert(p.code.subrange(branch + 2, branch + 6) =~= code.subrange(branch + 2, branch + 6));
    lemma_le_bounds(code.subrange(branch + 2, branch + 6));
    if p.position == branch {
        assert(p.opcode() == Opcode::JUMP_FALSE);
        assert(p.operand(0) == check);
        assert(p.operand_u32(1) == arm_end(entry, arm, has_else));
        assert(p.skip(5) == p.jump(branch + 6));
    }
    if has_else {
        assert(p.code.subrange(stop + 1, stop + 5) =~= code.subrange(stop + 1, stop + 5));
        lemma_le_bounds(code.subrange(stop + 1, stop + 5));
        if p.position == stop {
            assert(p.opcode() == Opcode::JUMP);
            assert(p.operand_u32(0) == end);
        }
    }
}

} // verus!

verus! {

/// Whether `expr` is the identifier `name`, with nothing around it.
pub open spec fn is_identifier(expr: Expression, name: Seq<char>) -> bool {
    &&& expr matches Expression::Base { unary, term, follow }
    &&& unary.len() == 0
    &&& follow.len() == 0
    &&& term matches Term::Ident(text)
    &&& text@ == name
}

/// The code of `return a` for the argument at `index`.
pub open spec fn argument_code(index: u8) -> Seq<u8> {
    seq![
        Opcode::LOAD_ARGUMENT.code(),
        index,
        0u8,
        Opcode::RETURN.code(),
        0u8,
        Opcode::HALT.code(),
    ]
}

/// An argument passes through unchanged. Compiling `return a` for a
/// parameter `a` and running the result gives the argument that the caller
/// passed at the position of `a`, tag and payload as they came.
pub proof fn law_return_argument(
    proc: Procedure,
    expr: Expression,
    name: Seq<char>,
    vm: VMView,
    id: u32,
    args: Seq<Register>,
)
    requires
        body_returns(proc, expr),
        is_identifier(expr, name),
        0 <= resolve(names_of(proc.parameters@), name, proc.parameters@.len() as int) <= u8::MAX,
        resolve(names_of(proc.parameters@), name, proc.parameters@.len() as int) < args.len(),
        vm.bytecodes.contains_key(id),
        compiled(proc) is Ok ==> vm.bytecodes[id] == compiled(proc)->Ok_0,
    ensures
        compiled(proc) is Ok,
        vm.run_program(id, args).1 == ActionView::Continue,
        vm.run_program(id, args).0.run(3).1 == ActionView::Finished(
            args[resolve(names_of(proc.parameters@), name, proc.parameters@.len() as int)],
        ),
{
    let names = names_of(proc.parameters@);
    let index = resolve(names, name, proc.parameters@.len() as int);
    let s = CompilerView::fresh(names);
    let block = proc.code->0;
    lemma_fresh(names);
    reveal_with_fuel(CompilerView::visit_block, 3);
    let s1 = s.acquire()->Ok_0.0;
    let loaded = s1.emit(seq![Opcode::LOAD_ARGUMENT.code(), index as u8, 0u8]);
    assert(s.visit_ident(name, expr->follow@) == Ok::<(CompilerView, int), CompileErrorView>(
        (loaded, 0),
    ));
    assert(s.visit_term(expr->term, expr->follow@) == s.visit_ident(name, expr->follow@));
    assert(s.visit_expression(expr) == Ok::<(CompilerView, int), CompileErrorView>((loaded, 0)));
    let last = loaded.emit(seq![Opcode::RETURN.code(), 0u8]).release(0);
    assert(s.visit_statement(block[0]) == Ok::<CompilerView, CompileErrorView>(last));
    assert(s.visit_block(block, 0) == Ok::<CompilerView, CompileErrorView>(last));
    let code = argument_code(index as u8);
    assert(last.emit(seq![Opcode::HALT.code()]).bytecode =~= code);

    let started = vm.run_program(id, args).0;
    let p0 = ProcessView::fresh(vm.current_pid, code, args);
    assert(started.programs =~= seq![p0]);
    assert(code[0] == Opcode::LOAD_ARGUMENT.code());
    let (p1, s1) = p0.step();
    assert(p1 == p0.store(0, args[index]).skip(2));
    assert(code[3] == Opcode::RETURN.code());
    let (p2, s2) = p1.step();
    assert(s2 is Continue);
    assert(p2.position == 5);
    assert(code[5] == Opcode::HALT.code());
    let (p3, s3) = p2.step();
    assert(s3 is Halt);
    assert(p3.return_value() == args[index]);
    let vm1 = started.step().0;
    assert(vm1.programs =~= seq![p1]);
    assert(started.step() == (vm1, ActionView::Continue));
    let vm2 = vm1.step().0;
    assert(vm2.programs =~= seq![p2]);
    assert(vm1.step() == (vm2, ActionView::Continue));
    assert(vm2.with_top(p3).programs =~= seq![p3]);
    assert(vm2.step().1 == ActionView::Finished(args[index]));
    reveal_with_fuel(VMView::run, 4);
}

/// Whether the body of `proc` is `var name = value` and then `return
/// result`.
pub open spec fn body_declares_and_returns(
    proc: Procedure,
    name: Seq<char>,
    value: Expression,
    result: Expression,
) -> bool {
    &&& proc.code matches Some(block)
    &&& block.len() == 2
    &&& block[0] matches Statement::Var(var)
    &&& var.name@ == name
    &&& var.value == Some(value)
    &&& block[1] == Statement::Return(Some(result))
}

/// The code of `var x = L; return x` for a literal `L`.
pub open spec fn local_code(bits: u32) -> Seq<u8> {
    load_number(0, bits) + seq![
        Opcode::STORE_LOCAL.code(),
        0u8,
        0u8,
        Opcode::LOAD_LOCAL.code(),
        0u8,
        0u8,
        Opcode::RETURN.code(),
        0u8,
        Opcode::HALT.code(),
    ]
}

/// A local gives back what was stored in it. Compiling `var x = L; return
/// x` for a literal `L` and a name `x` that no parameter has, and running
/// the result, gives the number that `L` denotes.
pub proof fn law_local_round_trip(
    proc: Procedure,
    name: Seq<char>,
    value: Expression,
    result: Expression,
    bits: u32,
    vm: VMView,
    id: u32,
    args: Seq<Register>,
)
    requires
        body_declares_and_returns(proc, name, value, result),
        is_literal(value, bits),
        is_identifier(result, name),
        resolve(names_of(proc.parameters@), name, proc.parameters@.len() as int) < 0,
        vm.bytecodes.contains_key(id),
        compiled(proc) is Ok ==> vm.bytecodes[id] == compiled(proc)->Ok_0,
    ensures
        compiled(proc) is Ok,
        vm.run_program(id, args).1 == ActionView::Continue,
        vm.run_program(id, args).0.run(5).1 == ActionView::Finished(Register::number(bits)),
{
    let names = names_of(proc.parameters@);
    let s = CompilerView::fresh(names);
    let block = proc.code->0;
    lemma_fresh(names);
    reveal_with_fuel(CompilerView::visit_block, 4);
    let declared = CompilerView { locals: s.locals.push(name), ..s };
    lemma_first_free(declared, 0);
    let s1 = declared.load_literal(bits)->Ok_0.0;
    assert(declared.visit_term(value->term, value->follow@) == declared.load_literal(bits));
    assert(declared.visit_expression(value) == Ok::<(CompilerView, int), CompileErrorView>(
        (s1, 0),
    ));
    let stored = s1.emit(seq![Opcode::STORE_LOCAL.code(), 0u8, 0u8]).release(0);
    assert(s.visit_var(name, Some(value)) == Ok::<CompilerView, CompileErrorView>(stored));
    assert(s.visit_statement(block[0]) == Ok::<CompilerView, CompileErrorView>(stored));
    lemma_first_free(stored, 0);
    assert(stored.first_free(0) == 0);
    let s2 = stored.acquire()->Ok_0.0;
    assert(stored.locals =~= seq![name]);
    assert(resolve(stored.locals, name, 1) == 0);
    let loaded = s2.emit(seq![Opcode::LOAD_LOCAL.code(), 0u8, 0u8]);
    assert(stored.visit_ident(name, result->follow@) == Ok::<
        (CompilerView, int),
        CompileErrorView,
    >((loaded, 0)));
    assert(stored.visit_term(result->term, result->follow@) == stored.visit_ident(
        name,
        result->follow@,
    ));
    assert(stored.visit_expression(result) == Ok::<(CompilerView, int), CompileErrorView>(
        (loaded, 0),
    ));
    let last = loaded.emit(seq![Opcode::RETURN.code(), 0u8]).release(0);
    assert(stored.visit_statement(block[1]) == Ok::<CompilerView, CompileErrorView>(last));
    assert(s.visit_block(block, 0) == Ok::<CompilerView, CompileErrorView>(last));
    let code = local_code(bits);
    assert(last.emit(seq![Opcode::HALT.code()]).bytecode =~= code);

    let started = vm.run_program(id, args).0;
    let p0 = ProcessView::fresh(vm.current_pid, code, args);
    assert(started.programs =~= seq![p0]);
    lemma_le_round_trip(bits, 0);
    assert(code.len() == 16);
    assert(code[0] == Opcode::LOAD_IMMEDIATE.code());
    assert(code.subrange(3, 7) =~= u32_le(bits));
    let number = Register::number(bits);
    let (p1, t1) = p0.step();
    assert(p1 == p0.store(0, number).skip(6));
    assert(code[7] == Opcode::STORE_LOCAL.code());
    let (p2, t2) = p1.step();
    assert(t2 is Continue);
    assert(p2.locals[0] == number);
    assert(p2.position == 10);
    assert(code[10] == Opcode::LOAD_LOCAL.code());
    let (p3, t3) = p2.step();
    assert(t3 is Continue);
    assert(p3.registers[0] == number);
    assert(p3.position == 13);
    assert(code[13] == Opcode::RETURN.code());
    let (p4, t4) = p3.step();
    assert(t4 is Continue);
    assert(p4.position == 15);
    assert(code[15] == Opcode::HALT.code());
    let (p5, t5) = p4.step();
    assert(t5 is Halt);
    assert(p5.return_value() == number);
    let vm1 = started.step().0;
    assert(vm1.programs =~= seq![p1]);
    assert(started.step() == (vm1, ActionView::Continue));
    let vm2 = vm1.step().0;
    assert(vm2.programs =~= seq![p2]);
    assert(vm1.step() == (vm2, ActionView::Continue));
    let vm3 = vm2.step().0;
    assert(vm3.programs =~= seq![p3]);
    assert(vm2.step() == (vm3, ActionView::Continue));
    let vm4 = vm3.step().0;
    assert(vm4.programs =~= seq![p4]);
    assert(vm3.step() == (vm4, ActionView::Continue));
    assert(vm4.with_top(p5).programs =~= seq![p5]);
    assert(vm4.step().1 == ActionView::Finished(number));
    reveal_with_fuel(VMView::run, 6);
}

} // verus!

verus! {

/// Whether `expr` is `a * L` for the identifier `a` and a literal `L` of
/// the number with these bits.
pub open spec fn is_product(expr: Expression, name: Seq<char>, bits: u32) -> bool {
    &&& expr matches Expression::BinaryOp { op, lhs, rhs }
    &&& op == BinaryOp::Mul
    &&& is_identifier(*lhs, name)
    &&& is_literal(*rhs, bits)
}

/// The code of `return a * L` for the first argument `a` and a literal `L`.
pub open spec fn product_code(bits: u32) -> Seq<u8> {
    seq![Opcode::LOAD_ARGUMENT.code(), 0u8, 0u8] + load_number(1, bits) + seq![
        Opcode::MUL.code(),
        0u8,
        1u8,
        2u8,
        Opcode::RETURN.code(),
        2u8,
        Opcode::HALT.code(),
    ]
}

/// The code of a procedure that loads its first argument into `reg`,
/// pushes it, calls `callee`, and returns what the call left in `dest`.
pub open spec fn caller_code(callee: u32, reg: u8, dest: u8) -> Seq<u8> {
    seq![Opcode::LOAD_ARGUMENT.code(), 0u8, reg, Opcode::PUSH.code(), reg, Opcode::CALL.code()]
        + u32_le(callee) + seq![dest, Opcode::RETURN.code(), dest, Opcode::HALT.code()]
}

proof fn lemma_compiled_product(proc: Procedure, expr: Expression, name: Seq<char>, bits: u32)
    requires
        body_returns(proc, expr),
        is_product(expr, name, bits),
        resolve(names_of(proc.parameters@), name, proc.parameters@.len() as int) == 0,
    ensures
        compiled(proc) == Ok::<Seq<u8>, CompileErrorView>(product_code(bits)),
{
    let names = names_of(proc.parameters@);
    let s = CompilerView::fresh(names);
    let block = proc.code->0;
    lemma_fresh(names);
    reveal_with_fuel(CompilerView::visit_block, 3);
    let lhs = *expr->lhs;
    let rhs = *expr->rhs;
    let s0 = s.acquire()->Ok_0.0;
    let s1 = s0.emit(seq![Opcode::LOAD_ARGUMENT.code(), 0u8, 0u8]);
    assert(s.visit_ident(name, lhs->follow@) == Ok::<(CompilerView, int), CompileErrorView>(
        (s1, 0),
    ));
    assert(s.visit_term(lhs->term, lhs->follow@) == s.visit_ident(name, lhs->follow@));
    assert(s.visit_expression(lhs) == Ok::<(CompilerView, int), CompileErrorView>((s1, 0)));
    lemma_first_free(s1, 0);
    let s2 = s1.load_literal(bits)->Ok_0.0;
    assert(s1.visit_term(rhs->term, rhs->follow@) == s1.load_literal(bits));
    assert(s1.visit_expression(rhs) == Ok::<(CompilerView, int), CompileErrorView>((s2, 1)));
    lemma_first_free(s2, 0);
    let s3 = s2.acquire()->Ok_0.0;
    assert(s2.acquire() == Ok::<(CompilerView, int), CompileErrorView>((s3, 2)));
    let s4 = s3.emit(seq![Opcode::MUL.code(), 0u8, 1u8, 2u8]).release(1).release(0);
    assert(s.visit_expression(expr) == Ok::<(CompilerView, int), CompileErrorView>((s4, 2)));
    let last = s4.emit(seq![Opcode::RETURN.code(), 2u8]).release(2);
    assert(s.visit_statement(block[0]) == Ok::<CompilerView, CompileErrorView>(last));
    assert(s.visit_block(block, 0) == Ok::<CompilerView, CompileErrorView>(last));
    assert(last.emit(seq![Opcode::HALT.code()]).bytecode =~= product_code(bits));
}

/// A call reaches the callee and its value comes back. Let a procedure
/// load its argument, push it, call a second procedure and return what
/// the call gave, and let the second be compiled from `return a * L` for
/// its parameter `a` and a literal `L`. Running the first with one
/// argument asks for the product of the argument's payload and `L`, in
/// the process of the callee; and whatever bits are brought in as the
/// answer, the invocation finishes with the number of these bits.
pub proof fn law_nested_call(
    proc: Procedure,
    expr: Expression,
    name: Seq<char>,
    bits: u32,
    vm: VMView,
    caller: u32,
    callee: u32,
    reg: u8,
    dest: u8,
    argument: Register,
    answer: u32,
)
    requires
        body_returns(proc, expr),
        is_product(expr, name, bits),
        resolve(names_of(proc.parameters@), name, proc.parameters@.len() as int) == 0,
        reg < NUM_REGISTERS,
        dest < NUM_REGISTERS,
        vm.bytecodes.contains_key(caller),
        vm.bytecodes[caller] == caller_code(callee, reg, dest),
        vm.bytecodes.contains_key(callee),
        compiled(proc) is Ok ==> vm.bytecodes[callee] == compiled(proc)->Ok_0,
    ensures
        compiled(proc) is Ok,
        vm.run_program(caller, seq![argument]).1 == ActionView::Continue,
        vm.run_program(caller, seq![argument]).0.run(6).1 == (ActionView::Arithmetic {
            op: Opcode::MUL,
            left: argument.value,
            right: bits,
        }),
        vm.run_program(caller, seq![argument]).0.run(6).0.programs.len() == 2,
        vm.run_program(caller, seq![argument]).0.run(6).0.resume_number(answer).1
            == ActionView::Continue,
        vm.run_program(caller, seq![argument]).0.run(6).0.resume_number(answer).0.run(4).1
            == ActionView::Finished(Register::number(answer)),
{
    lemma_compiled_product(proc, expr, name, bits);
    let outer = caller_code(callee, reg, dest);
    let inner = product_code(bits);
    let args = seq![argument];
    lemma_le_round_trip(callee, 0);
    lemma_le_round_trip(bits, 0);
    let started = vm.run_program(caller, args).0;
    let a0 = ProcessView::fresh(vm.current_pid, outer, args);
    assert(started.programs =~= seq![a0]);
    assert(outer.len() == 14);
    assert(outer[0] == Opcode::LOAD_ARGUMENT.code());
    let (a1, t1) = a0.step();
    assert(a1 == a0.store(reg as int, argument).skip(2));
    assert(outer[3] == Opcode::PUSH.code());
    let (a2, t2) = a1.step();
    assert(t2 is Continue);
    assert(a2.call_args =~= seq![argument]);
    assert(a2.position == 5);
    assert(outer[5] == Opcode::CALL.code());
    assert(outer.subrange(6, 10) =~= u32_le(callee));
    assert(outer[10] == dest);
    let (a3, t3) = a2.step();
    assert(t3 == StepView::Call { id: callee, args });
    assert(a3.position == 11);
    let vm1 = started.step().0;
    assert(vm1.programs =~= seq![a1]);
    assert(started.step() == (vm1, ActionView::Continue));
    let vm2 = vm1.step().0;
    assert(vm2.programs =~= seq![a2]);
    assert(vm1.step() == (vm2, ActionView::Continue));
    let b0 = ProcessView::fresh(vm.current_pid, inner, args);
    let vm3 = vm2.step().0;
    assert(vm2.with_top(a3).programs =~= seq![a3]);
    assert(vm3.programs =~= seq![a3, b0]);
    assert(vm2.step() == (vm3, ActionView::Continue));

    assert(inner.len() == 17);
    assert(inner[0] == Opcode::LOAD_ARGUMENT.code());
    let (b1, u1) = b0.step();
    assert(b1 == b0.store(0, argument).skip(2));
    assert(inner[3] == Opcode::LOAD_IMMEDIATE.code());
    assert(inner[4] == 1);
    assert(inner.subrange(6, 10) =~= u32_le(bits));
    let (b2, u2) = b1.step();
    assert(b2 == b1.store(1, Register::number(bits)).skip(6));
    assert(inner[10] == Opcode::MUL.code());
    let (b3, u3) = b2.step();
    assert(u3 == StepView::Arithmetic { op: Opcode::MUL, left: argument.value, right: bits });
    let vm4 = vm3.step().0;
    assert(vm3.programs.last() == b0);
    assert(vm4.programs =~= seq![a3, b1]);
    assert(vm3.step() == (vm4, ActionView::Continue));
    let vm5 = vm4.step().0;
    assert(vm4.programs.last() == b1);
    assert(vm5.programs =~= seq![a3, b2]);
    assert(vm4.step() == (vm5, ActionView::Continue));
    let vm6 = vm5.step().0;
    assert(vm5.programs.last() == b2);
    assert(vm6.programs =~= seq![a3, b3]);
    assert(vm5.step() == (
        vm6,
        ActionView::Arithmetic { op: Opcode::MUL, left: argument.value, right: bits },
    ));
    reveal_with_fuel(VMView::run, 7);
    assert(started.run(6) == (
        vm6,
        ActionView::Arithmetic { op: Opcode::MUL, left: argument.value, right: bits },
    ));

    let product = Register::number(answer);
    let (b4, accepted) = b3.supply_number(answer);
    assert(accepted);
    assert(vm6.programs.last() == b3);
    let vm7 = vm6.resume_number(answer).0;
    assert(vm7.programs =~= seq![a3, b4]);
    assert(b4.position == 14);
    assert(inner[14] == Opcode::RETURN.code());
    let (b5, u5) = b4.step();
    assert(u5 is Continue);
    assert(b5.position == 16);
    assert(inner[16] == Opcode::HALT.code());
    let (b6, u6) = b5.step();
    assert(u6 is Halt);
    assert(b6.return_value() == product);
    let vm8 = vm7.step().0;
    assert(vm7.programs.last() == b4);
    assert(vm8.programs =~= seq![a3, b5]);
    assert(vm7.step() == (vm8, ActionView::Continue));
    let (a4, supplied) = a3.supply_value(product);
    assert(supplied);
    let vm9 = vm8.step().0;
    assert(vm8.programs.last() == b5);
    assert(vm8.with_top(b6).programs =~= seq![a3, b6]);
    assert(vm8.with_top(b6).programs.drop_last() =~= seq![a3]);
    assert(vm9.programs =~= seq![a4]);
    assert(vm8.step() == (vm9, ActionView::Continue));
    assert(a4.registers[dest as int] == product);
    assert(outer[11] == Opcode::RETURN.code());
    let (a5, t5) = a4.step();
    assert(t5 is Continue);
    assert(a5.position == 13);
    assert(a5.return_value() == product);
    let vm10 = vm9.step().0;
    assert(vm9.programs.last() == a4);
    assert(vm10.programs =~= seq![a5]);
    assert(vm9.step() == (vm10, ActionView::Continue));
    assert(outer[13] == Opcode::HALT.code());
    let (a6, t6) = a5.step();
    assert(t6 is Halt);
    assert(a6.return_value() == product);
    assert(vm10.programs.last() == a5);
    assert(vm10.with_top(a6).programs =~= seq![a6]);
    assert(vm10.step().1 == ActionView::Finished(product));
    assert(vm7.run(4).1 == ActionView::Finished(product));
}

} // verus!
