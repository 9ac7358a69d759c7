//! Compiled code is well formed.
//!
//! The compiler emits whole instructions, one behind the other, and every
//! jump that it emits leads forwards to the start of an instruction. So a
//! process that runs compiled code with the arguments that the procedure
//! has parameters for never faults: it reads every operand inside the
//! buffer, names no register, local or argument that does not exist, moves
//! its cursor forwards with every step, and arrives at the `HALT` that
//! ends the buffer.

use crate::ast::{Expression, Follow, IfArm, IfChain, Procedure, Statement, Term};
use crate::bytes::{le_u32, lemma_le_bounds, lemma_le_round_trip, u16_le, u32_le};
use crate::compiler::{
    compiled, lemma_acquire, lemma_arms, lemma_block, lemma_consumed, lemma_expression,
    lemma_statement, names_of, opcode_of, places_from, places_valid, resolve, CompilerView,
};
use crate::number::bits_of_int;
use crate::opcode::{law_decode_inverts_code, Opcode};
use crate::process::{ProcessView, NUM_REGISTERS};
use crate::register::NUMBER_TAG;
use crate::vm::{ActionView, VMView};
use vstd::prelude::*;

verus! {

/// The number of bytes of the instruction at `at`.
pub open spec fn size_at(code: Seq<u8>, at: int) -> int {
    1 + Opcode::decode(code[at]).operands() as int
}

/// Whether reading instruction after instruction from `from` arrives at
/// `to`.
pub open spec fn reaches(code: Seq<u8>, from: int, to: int) -> bool
    decreases to - from,
{
    if from == to {
        true
    } else if from < 0 || from >= code.len() || from + size_at(code, from) > to {
        false
    } else {
        reaches(code, from + size_at(code, from), to)
    }
}

/// Whether an instruction starts at `at`, or the code ends there, when the
/// code is read from its beginning.
pub open spec fn is_start(code: Seq<u8>, at: int) -> bool {
    0 <= at <= code.len() && reaches(code, 0, at)
}

/// Whether the instruction at `at` is one that the compiler emits, and
/// names only registers and locals that exist, and only arguments below
/// `arguments`.
pub open spec fn operands_ok(code: Seq<u8>, at: int, arguments: int) -> bool {
    let a = at + 1;
    match Opcode::decode(code[at]) {
        Opcode::HALT | Opcode::JUMP => true,
        Opcode::LOAD_IMMEDIATE => code[a] < NUM_REGISTERS,
        Opcode::LOAD_ARGUMENT => code[a] < arguments && code[a + 1] < NUM_REGISTERS,
        Opcode::LOAD_LOCAL | Opcode::STORE_LOCAL => code[a] < NUM_REGISTERS && code[a + 1]
            < NUM_REGISTERS,
        Opcode::GET_FIELD => code[a] < NUM_REGISTERS && code[a + 3] < NUM_REGISTERS,
        Opcode::ADD
        | Opcode::SUB
        | Opcode::MUL
        | Opcode::DIV
        | Opcode::LESS_THAN
        | Opcode::LESS_OR_EQUAL
        | Opcode::EQUAL
        | Opcode::GREATER_OR_EQUAL
        | Opcode::GREATER_THAN => code[a] < NUM_REGISTERS && code[a + 1] < NUM_REGISTERS && code[a
            + 2] < NUM_REGISTERS,
        Opcode::JUMP_FALSE | Opcode::RETURN => code[a] < NUM_REGISTERS,
        Opcode::SET_FIELD
        | Opcode::JUMP_TRUE
        | Opcode::PUSH
        | Opcode::CALL
        | Opcode::INVALID => false,
    }
}

/// Where the target of the jump at `at` stands; -1 if the instruction is no
/// jump.
pub open spec fn target_place(code: Seq<u8>, at: int) -> int {
    match Opcode::decode(code[at]) {
        Opcode::JUMP => at + 1,
        Opcode::JUMP_TRUE | Opcode::JUMP_FALSE => at + 2,
        _ => -1,
    }
}

/// The target of the jump at `at`.
pub open spec fn target_of(code: Seq<u8>, at: int) -> int {
    le_u32(code.subrange(target_place(code, at), target_place(code, at) + 4))
}

/// Whether the instruction at `at`, if it is a jump, leads forwards to the
/// start of an instruction or to the end of the code, or is among the
/// jumps whose targets are still to be filled in.
pub open spec fn jump_ok(code: Seq<u8>, at: int, pending: Set<int>) -> bool {
    target_place(code, at) >= 0 ==> pending.contains(at) || (at < target_of(code, at)
        && is_start(code, target_of(code, at)))
}

/// Whether the code is a row of whole instructions whose operands are in
/// order, the targets of the `pending` jumps aside.
pub open spec fn sane(code: Seq<u8>, pending: Set<int>, arguments: int) -> bool {
    &&& reaches(code, 0, code.len() as int)
    &&& forall|at: int|
        0 <= at < code.len() && #[trigger] reaches(code, 0, at) ==> at + size_at(code, at)
            <= code.len() && operands_ok(code, at, arguments) && jump_ok(code, at, pending)
    &&& forall|at: int|
        #[trigger] pending.contains(at) ==> 0 <= at < code.len() && reaches(code, 0, at)
            && target_place(code, at) >= 0
}

/// One sweep behind another is one sweep.
pub proof fn lemma_reaches_trans(code: Seq<u8>, a: int, b: int, c: int)
    requires
        reaches(code, a, b),
        reaches(code, b, c),
    ensures
        reaches(code, a, c),
    decreases b - a,
{
    if a != b {
        lemma_reaches_order(code, b, c);
        lemma_reaches_trans(code, a + size_at(code, a), b, c);
    }
}

/// A sweep goes forwards.
pub proof fn lemma_reaches_order(code: Seq<u8>, a: int, b: int)
    requires
        reaches(code, a, b),
    ensures
        a <= b,
{
}

/// A sweep that passes two places passes from the first to the second.
pub proof fn lemma_reaches_split(code: Seq<u8>, a: int, b: int, c: int)
    requires
        reaches(code, a, b),
        reaches(code, a, c),
        b <= c,
    ensures
        reaches(code, b, c),
    decreases b - a,
{
    if a != b {
        lemma_reaches_split(code, a + size_at(code, a), b, c);
    }
}

/// No instruction starts inside another.
pub proof fn lemma_no_start_inside(code: Seq<u8>, a: int, x: int)
    requires
        reaches(code, 0, a),
        reaches(code, 0, x),
        a < x,
    ensures
        a + size_at(code, a) <= x,
        reaches(code, a + size_at(code, a), x),
{
    lemma_reaches_split(code, 0, a, x);
    lemma_reaches_order(code, a + size_at(code, a), x);
}

/// Two codes that agree where the instructions of the first start have
/// their instructions at the same places.
pub proof fn lemma_same_starts(first: Seq<u8>, second: Seq<u8>, from: int, to: int)
    requires
        first.len() == second.len(),
        forall|at: int|
            0 <= from <= at < first.len() && #[trigger] reaches(first, from, at) ==> second[at]
                == first[at],
    ensures
        reaches(second, from, to) == reaches(first, from, to),
    decreases to - from,
{
    if from != to && 0 <= from && from < first.len() {
        assert(reaches(first, from, from));
        let next = from + size_at(first, from);
        if next <= to {
            assert forall|at: int|
                0 <= next <= at < first.len() && #[trigger] reaches(
                    first,
                    next,
                    at,
                ) implies second[at] == first[at] by {
                lemma_reaches_order(first, next, at);
                assert(reaches(first, from, at));
            }
            lemma_same_starts(first, second, next, to);
        }
    }
}

/// A code that is extended keeps its instructions where they are.
pub proof fn lemma_reaches_extended(code: Seq<u8>, longer: Seq<u8>, from: int, to: int)
    requires
        code.len() <= longer.len(),
        longer.subrange(0, code.len() as int) == code,
        to <= code.len(),
    ensures
        reaches(longer, from, to) == reaches(code, from, to),
    decreases to - from,
{
    if from != to && 0 <= from && from < code.len() {
        assert(longer.subrange(0, code.len() as int)[from] == longer[from]);
        if from + size_at(code, from) <= to {
            lemma_reaches_extended(code, longer, from + size_at(code, from), to);
        }
    }
}

} // verus!

verus! {

/// The jumps that are pending once an instruction is appended to a code of
/// `len` bytes: a jump is pending itself.
pub open spec fn pending_with(pending: Set<int>, instr: Seq<u8>, len: int) -> Set<int> {
    if target_place(instr, 0) >= 0 {
        pending.insert(len)
    } else {
        pending
    }
}

/// One more whole instruction keeps the code well formed.
pub proof fn lemma_append(code: Seq<u8>, instr: Seq<u8>, pending: Set<int>, arguments: int)
    requires
        sane(code, pending, arguments),
        instr.len() >= 1,
        instr.len() == size_at(instr, 0),
        operands_ok(instr, 0, arguments),
    ensures
        sane(code + instr, pending_with(pending, instr, code.len() as int), arguments),
{
    let longer = code + instr;
    let len = code.len() as int;
    let after = pending_with(pending, instr, len);
    assert(longer.subrange(0, len) =~= code);
    assert forall|k: int| 0 <= k < instr.len() implies longer[len + k] == instr[k] by {}
    assert forall|i: int| 0 <= i < len implies longer[i] == code[i] by {}
    lemma_reaches_extended(code, longer, 0, len);
    assert(longer[len] == instr[0]);
    assert(size_at(longer, len) == instr.len());
    assert(reaches(longer, longer.len() as int, longer.len() as int));
    assert(reaches(longer, len, longer.len() as int));
    lemma_reaches_trans(longer, 0, len, longer.len() as int);
    assert forall|at: int| 0 <= at < longer.len() && #[trigger] reaches(longer, 0, at) implies at
        + size_at(longer, at) <= longer.len() && operands_ok(longer, at, arguments) && jump_ok(
        longer,
        at,
        after,
    ) by {
        if at < len {
            lemma_reaches_extended(code, longer, 0, at);
            assert(reaches(code, 0, at));
            assert(at + size_at(code, at) <= len);
            assert(operands_ok(code, at, arguments));
            assert(jump_ok(code, at, pending));
            if target_place(code, at) >= 0 && !pending.contains(at) {
                let place = target_place(code, at);
                assert(longer.subrange(place, place + 4) =~= code.subrange(place, place + 4));
                lemma_reaches_extended(code, longer, 0, target_of(code, at));
            }
        } else {
            if at > len {
                lemma_no_start_inside(longer, len, at);
            }
            assert(at == len);
        }
    }
    assert forall|at: int| #[trigger] after.contains(at) implies 0 <= at < longer.len() && reaches(
        longer,
        0,
        at,
    ) && target_place(longer, at) >= 0 by {
        if pending.contains(at) {
            lemma_reaches_extended(code, longer, 0, at);
        }
    }
}

/// The code with `target` written as the target of the jump at `at`.
pub open spec fn with_target(code: Seq<u8>, at: int, target: u32) -> Seq<u8> {
    let place = target_place(code, at);
    code.subrange(0, place) + u32_le(target) + code.subrange(place + 4, code.len() as int)
}

/// Filling in the target of a pending jump keeps the code well formed,
/// where the target lies ahead, at the start of an instruction or at the
/// end of the code.
pub proof fn lemma_fill_in(
    code: Seq<u8>,
    at: int,
    target: u32,
    pending: Set<int>,
    arguments: int,
)
    requires
        sane(code, pending, arguments),
        pending.contains(at),
        at < target <= code.len(),
        reaches(code, 0, target as int),
    ensures
        sane(with_target(code, at, target), pending.remove(at), arguments),
        with_target(code, at, target).len() == code.len(),
        forall|x: int|
            0 <= x < code.len() && #[trigger] reaches(code, 0, x) ==> with_target(
                code,
                at,
                target,
            )[x] == code[x],
{
    let place = target_place(code, at);
    let filled = with_target(code, at, target);
    let len = code.len() as int;
    let after = pending.remove(at);
    let size = size_at(code, at);
    assert(place + 4 == at + size);
    assert(at + size <= len);
    assert(filled.len() == len);
    assert forall|i: int| 0 <= i < len && !(place <= i < place + 4) implies filled[i]
        == code[i] by {}
    lemma_le_round_trip(target, 0);
    assert(filled.subrange(place, place + 4) =~= u32_le(target));
    assert forall|s: int| 0 <= s < len && #[trigger] reaches(code, 0, s) implies filled[s]
        == code[s] by {
        if s > at {
            lemma_no_start_inside(code, at, s);
        }
    }
    lemma_same_starts(code, filled, 0, len);
    lemma_same_starts(code, filled, 0, target as int);
    assert forall|x: int| 0 <= x < len && #[trigger] reaches(filled, 0, x) implies x + size_at(
        filled,
        x,
    ) <= len && operands_ok(filled, x, arguments) && jump_ok(filled, x, after) by {
        lemma_same_starts(code, filled, 0, x);
        assert(reaches(code, 0, x));
        assert(filled[x] == code[x]);
        assert(x + size_at(code, x) <= len);
        assert(operands_ok(code, x, arguments));
        assert(jump_ok(code, x, pending));
        if x == at {
            assert(target_of(filled, at) == target);
        } else {
            if x < at {
                lemma_no_start_inside(code, x, at);
            } else {
                lemma_no_start_inside(code, at, x);
            }
            assert forall|i: int| x <= i < x + size_at(code, x) implies filled[i] == code[i] by {}
            if target_place(code, x) >= 0 && !pending.contains(x) {
                let other = target_place(code, x);
                assert(filled.subrange(other, other + 4) =~= code.subrange(other, other + 4));
                lemma_same_starts(code, filled, 0, target_of(code, x));
            }
        }
    }
    assert forall|x: int| #[trigger] after.contains(x) implies 0 <= x < len && reaches(
        filled,
        0,
        x,
    ) && target_place(filled, x) >= 0 by {
        lemma_same_starts(code, filled, 0, x);
    }
}

} // verus!

verus! {

/// A name that is found is found below the bound of the search.
pub proof fn lemma_resolve_bounds(names: Seq<Seq<char>>, name: Seq<char>, upto: int)
    ensures
        -1 <= resolve(names, name, upto),
        upto >= 0 ==> resolve(names, name, upto) < upto,
    decreases upto,
{
    if upto > 0 && names[upto - 1] != name {
        lemma_resolve_bounds(names, name, upto - 1);
    }
}

/// Emitting one whole instruction that is no jump keeps the code of the
/// compiler well formed.
proof fn lemma_emit(s: CompilerView, bytes: Seq<u8>, pending: Set<int>, arguments: int)
    requires
        sane(s.bytecode, pending, arguments),
        bytes.len() >= 1,
        bytes.len() == size_at(bytes, 0),
        operands_ok(bytes, 0, arguments),
        target_place(bytes, 0) < 0,
    ensures
        sane(s.emit(bytes).bytecode, pending, arguments),
{
    lemma_append(s.bytecode, bytes, pending, arguments);
}

/// The code of an expression is a row of whole instructions that name only
/// registers and locals that exist.
pub proof fn lemma_expression_sane(
    s: CompilerView,
    expr: Expression,
    pending: Set<int>,
    arguments: int,
)
    requires
        s.wf(),
        s.args.len() <= arguments,
        sane(s.bytecode, pending, arguments),
    ensures
        s.visit_expression(expr) matches Ok((after, reg)) ==> sane(
            after.bytecode,
            pending,
            arguments,
        ),
    decreases expr,
{
    match expr {
        Expression::Base { unary, term, follow } => {
            if unary.len() == 0 {
                lemma_term_sane(s, term, follow@, pending, arguments);
            }
        },
        Expression::BinaryOp { op, lhs, rhs } => {
            lemma_expression(s, *lhs);
            lemma_expression_sane(s, *lhs, pending, arguments);
            if let Ok((after_left, left)) = s.visit_expression(*lhs) {
                lemma_expression(after_left, *rhs);
                lemma_expression_sane(after_left, *rhs, pending, arguments);
                if let Ok((after_right, right)) = after_left.visit_expression(*rhs) {
                    lemma_acquire(after_right);
                    if let Some(oper) = opcode_of(op) {
                        if let Ok((taken, result)) = after_right.acquire() {
                            law_decode_inverts_code(oper, 0);
                            let bytes = seq![oper.code(), left as u8, right as u8, result as u8];
                            lemma_emit(taken, bytes, pending, arguments);
                        }
                    }
                }
            }
        },
        Expression::Other(text) => {},
    }
}

/// As `lemma_expression_sane`, of a term with what follows it.
pub proof fn lemma_term_sane(
    s: CompilerView,
    term: Term,
    follows: Seq<Follow>,
    pending: Set<int>,
    arguments: int,
)
    requires
        s.wf(),
        s.args.len() <= arguments,
        sane(s.bytecode, pending, arguments),
    ensures
        s.visit_term(term, follows) matches Ok((after, reg)) ==> sane(
            after.bytecode,
            pending,
            arguments,
        ),
    decreases term,
{
    lemma_acquire(s);
    match term {
        Term::Ident(name) => {
            let arg = resolve(s.args, name@, s.args.len() as int);
            let local = resolve(s.locals, name@, s.locals.len() as int);
            lemma_resolve_bounds(s.locals, name@, s.locals.len() as int);
            lemma_resolve_bounds(s.args, name@, s.args.len() as int);
            if let Ok((taken, target)) = s.acquire() {
                let loaded = if arg >= 0 {
                    taken.emit(seq![Opcode::LOAD_ARGUMENT.code(), arg as u8, target as u8])
                } else {
                    taken.emit(seq![Opcode::LOAD_LOCAL.code(), local as u8, target as u8])
                };
                if arg >= 0 {
                    lemma_emit(
                        taken,
                        seq![Opcode::LOAD_ARGUMENT.code(), arg as u8, target as u8],
                        pending,
                        arguments,
                    );
                } else if local >= 0 {
                    lemma_emit(
                        taken,
                        seq![Opcode::LOAD_LOCAL.code(), local as u8, target as u8],
                        pending,
                        arguments,
                    );
                }
                if follows.len() == 1 {
                    if let Follow::Field(field) = follows[0] {
                        let bytes = seq![Opcode::GET_FIELD.code(), target as u8] + u16_le(field)
                            + seq![target as u8];
                        assert(bytes.len() == 5);
                        assert(bytes[0] == Opcode::GET_FIELD.code());
                        assert(bytes[1] == target as u8);
                        assert(bytes[4] == target as u8);
                        if arg >= 0 || local >= 0 {
                            lemma_emit(loaded, bytes, pending, arguments);
                        }
                    }
                }
            }
        },
        Term::Other(text) => {},
        Term::Int(number) => {
            if let Ok((taken, reg)) = s.acquire() {
                let bytes = seq![Opcode::LOAD_IMMEDIATE.code(), reg as u8, NUMBER_TAG as u8]
                    + u32_le(bits_of_int(number as int) as u32);
                assert(bytes.len() == 7);
                assert(bytes[0] == Opcode::LOAD_IMMEDIATE.code());
                assert(bytes[1] == reg as u8);
                lemma_emit(taken, bytes, pending, arguments);
            }
        },
        Term::Float(bits) => {
            if let Ok((taken, reg)) = s.acquire() {
                let bytes = seq![Opcode::LOAD_IMMEDIATE.code(), reg as u8, NUMBER_TAG as u8]
                    + u32_le(bits);
                assert(bytes.len() == 7);
                assert(bytes[0] == Opcode::LOAD_IMMEDIATE.code());
                assert(bytes[1] == reg as u8);
                lemma_emit(taken, bytes, pending, arguments);
            }
        },
        Term::Expr(inner) => {
            if follows.len() == 0 {
                lemma_expression_sane(s, *inner, pending, arguments);
            }
        },
    }
}

} // verus!

verus! {

/// The jumps whose targets stand at the places from the `from`-th on: the
/// instruction of each starts one byte before its place.
pub open spec fn jump_starts(places: Seq<int>, from: int) -> Set<int> {
    Set::new(|at: int| exists|j: int| from <= j < places.len() && #[trigger] places[j] == at + 1)
}

/// Whether a `JUMP` stands in front of each of the places.
pub open spec fn places_are_jumps(code: Seq<u8>, places: Seq<int>) -> bool {
    forall|j: int|
        0 <= j < places.len() ==> Opcode::decode(code[#[trigger] places[j] - 1]) == Opcode::JUMP
}

/// Whether all pending jumps lie below `base`.
pub open spec fn below(pending: Set<int>, base: int) -> bool {
    forall|at: int| #[trigger] pending.contains(at) ==> at < base
}

/// Whether the places lie apart, in ascending order.
pub open spec fn apart(places: Seq<int>) -> bool {
    forall|j: int, k: int|
        0 <= j < k < places.len() ==> #[trigger] places[j] + 4 <= #[trigger] places[k]
}

/// Filling in the end of the chain at every recorded place leaves no jump
/// of the chain pending.
proof fn lemma_patch_all_sane(
    s: CompilerView,
    places: Seq<int>,
    from: int,
    target: u32,
    pending: Set<int>,
    base: int,
    arguments: int,
)
    requires
        0 <= from,
        0 <= base,
        sane(s.bytecode, pending + jump_starts(places, from), arguments),
        below(pending, base),
        places_from(places, base + 1),
        places_valid(places, s),
        apart(places),
        places_are_jumps(s.bytecode, places),
        target == s.bytecode.len(),
    ensures
        sane(s.patch_all(places, from, target).bytecode, pending, arguments),
    decreases places.len() - from,
{
    let code = s.bytecode;
    let now = pending + jump_starts(places, from);
    if from < places.len() {
        let place = places[from];
        let at = place - 1;
        assert(jump_starts(places, from).contains(at));
        assert(target_place(code, at) == place);
        lemma_fill_in(code, at, target, now, arguments);
        let next = s.patch(place, target);
        assert(next.bytecode == with_target(code, at, target));
        let later = pending + jump_starts(places, from + 1);
        assert(now.remove(at) =~= later) by {
            assert forall|x: int| now.remove(at).contains(x) == later.contains(x) by {
                if jump_starts(places, from).contains(x) && x != at {
                    let j = choose|j: int| from <= j < places.len() && #[trigger] places[j] == x + 1;
                    assert(j != from);
                    assert(jump_starts(places, from + 1).contains(x));
                }
                if jump_starts(places, from + 1).contains(x) {
                    let j = choose|j: int|
                        from + 1 <= j < places.len() && #[trigger] places[j] == x + 1;
                    assert(places[from] + 4 <= places[j]);
                    assert(jump_starts(places, from).contains(x));
                }
            }
        }
        assert(places_are_jumps(next.bytecode, places)) by {
            assert forall|j: int| 0 <= j < places.len() implies Opcode::decode(
                next.bytecode[#[trigger] places[j] - 1],
            ) == Opcode::JUMP by {
                if j >= from {
                    assert(jump_starts(places, from).contains(places[j] - 1));
                    assert(now.contains(places[j] - 1));
                } else {
                    assert(places[j] + 4 <= places[from]);
                    assert(next.bytecode[places[j] - 1] == code[places[j] - 1]);
                }
            }
        }
        lemma_patch_all_sane(next, places, from + 1, target, pending, base, arguments);
    } else {
        assert(now =~= pending);
    }
}

/// The code of a statement keeps the code well formed: it is a row of
/// whole instructions, and the jumps in it lead forwards to the start of
/// an instruction or to the end of the code.
pub proof fn lemma_statement_sane(
    s: CompilerView,
    statement: Statement,
    pending: Set<int>,
    arguments: int,
)
    requires
        s.wf(),
        s.args.len() <= arguments,
        sane(s.bytecode, pending, arguments),
    ensures
        s.visit_statement(statement) matches Ok(after) ==> sane(
            after.bytecode,
            pending,
            arguments,
        ),
    decreases statement, 0nat,
{
    match statement {
        Statement::Expr(expr) => {
            lemma_expression_sane(s, expr, pending, arguments);
        },
        Statement::Return(Some(expr)) => {
            lemma_expression(s, expr);
            lemma_expression_sane(s, expr, pending, arguments);
            if let Ok((after, reg)) = s.visit_expression(expr) {
                lemma_emit(after, seq![Opcode::RETURN.code(), reg as u8], pending, arguments);
            }
        },
        Statement::Return(None) => {},
        Statement::Var(var) => {
            if s.locals.len() < NUM_REGISTERS {
                let slot = s.locals.len();
                let declared = CompilerView { locals: s.locals.push(var.name@), ..s };
                if let Some(expr) = var.value {
                    lemma_expression(declared, expr);
                    lemma_expression_sane(declared, expr, pending, arguments);
                    if let Ok((after, reg)) = declared.visit_expression(expr) {
                        lemma_emit(
                            after,
                            seq![Opcode::STORE_LOCAL.code(), reg as u8, slot as u8],
                            pending,
                            arguments,
                        );
                    }
                }
            }
        },
        Statement::If(chain) => {
            lemma_if_sane(s, chain, pending, arguments);
        },
        Statement::Other(text) => {},
    }
}

/// As `lemma_statement_sane`, of a block.
pub proof fn lemma_block_sane(
    s: CompilerView,
    block: Vec<Statement>,
    from: int,
    pending: Set<int>,
    arguments: int,
)
    requires
        s.wf(),
        s.args.len() <= arguments,
        0 <= from,
        sane(s.bytecode, pending, arguments),
    ensures
        s.visit_block(block, from) matches Ok(after) ==> sane(after.bytecode, pending, arguments),
    decreases block, block.len() - from,
{
    if from < block.len() {
        lemma_statement(s, block[from]);
        lemma_statement_sane(s, block[from], pending, arguments);
        if let Ok(after) = s.visit_statement(block[from]) {
            lemma_block_sane(after, block, from + 1, pending, arguments);
        }
    }
}

/// As `lemma_statement_sane`, of an `if` chain.
pub proof fn lemma_if_sane(s: CompilerView, chain: IfChain, pending: Set<int>, arguments: int)
    requires
        s.wf(),
        s.args.len() <= arguments,
        sane(s.bytecode, pending, arguments),
    ensures
        s.visit_if(chain) matches Ok(after) ==> sane(after.bytecode, pending, arguments),
    decreases chain, 0nat,
{
    let has_else = chain.else_arm is Some;
    let none = Seq::<int>::empty();
    let base = s.bytecode.len() as int;
    assert(pending + jump_starts(none, 0) =~= pending);
    lemma_arms_sane(s, chain.arms, has_else, 0, none, pending, base, arguments);
    lemma_arms(s, chain.arms, has_else, 0, none, base);
    if let Ok((after_arms, out)) = s.visit_arms(chain.arms, has_else, 0, none) {
        match chain.else_arm {
            None => {
                assert(pending + jump_starts(out, 0) =~= pending);
            },
            Some(block) => {
                let now = pending + jump_starts(out, 0);
                lemma_block(after_arms, block, 0);
                lemma_block_sane(after_arms, block, 0, now, arguments);
                if let Ok(after_else) = after_arms.visit_block(block, 0) {
                    if after_else.bytecode.len() <= u32::MAX {
                        assert(places_are_jumps(after_else.bytecode, out)) by {
                            assert forall|j: int| 0 <= j < out.len() implies Opcode::decode(
                                after_else.bytecode[#[trigger] out[j] - 1],
                            ) == Opcode::JUMP by {
                                assert(after_else.bytecode.subrange(
                                    0,
                                    after_arms.bytecode.len() as int,
                                )[out[j] - 1] == after_arms.bytecode[out[j] - 1]);
                            }
                        }
                        lemma_patch_all_sane(
                            after_else,
                            out,
                            0,
                            after_else.bytecode.len() as u32,
                            pending,
                            base,
                            arguments,
                        );
                    }
                }
            },
        }
    }
}

/// As `lemma_statement_sane`, of the arms of an `if` chain from the
/// `from`-th on: the jumps to the end of the chain are pending, and no
/// others.
pub proof fn lemma_arms_sane(
    s: CompilerView,
    arms: Vec<IfArm>,
    has_else: bool,
    from: int,
    places: Seq<int>,
    pending: Set<int>,
    base: int,
    arguments: int,
)
    requires
        s.wf(),
        s.args.len() <= arguments,
        0 <= from,
        0 <= base <= s.bytecode.len(),
        sane(s.bytecode, pending + jump_starts(places, 0), arguments),
        below(pending, base),
        places_valid(places, s),
        places_from(places, base + 1),
        apart(places),
        places_are_jumps(s.bytecode, places),
    ensures
        s.visit_arms(arms, has_else, from, places) matches Ok((after, out)) ==> {
            &&& sane(after.bytecode, pending + jump_starts(out, 0), arguments)
            &&& places_valid(out, after)
            &&& places_from(out, base + 1)
            &&& apart(out)
            &&& places_are_jumps(after.bytecode, out)
            &&& !has_else ==> out == places
        },
    decreases arms, arms.len() - from,
{
    if from < arms.len() {
        let arm = arms[from];
        let now = pending + jump_starts(places, 0);
        lemma_expression(s, arm.condition);
        lemma_expression_sane(s, arm.condition, now, arguments);
        if let Ok((after_condition, check)) = s.visit_expression(arm.condition) {
            let branch = after_condition.bytecode.len() as int;
            let placeholder = seq![Opcode::JUMP_FALSE.code(), check as u8, 0, 0, 0, 0];
            let branched = after_condition.emit(placeholder).release(check);
            lemma_consumed(s, after_condition, check, placeholder);
            lemma_append(after_condition.bytecode, placeholder, now, arguments);
            let inside = now.insert(branch);
            assert(pending_with(now, placeholder, branch) == inside);
            lemma_block(branched, arm.block, 0);
            lemma_block_sane(branched, arm.block, 0, inside, arguments);
            if let Ok(after_block) = branched.visit_block(arm.block, 0) {
                let stop = after_block.bytecode.len() as int;
                let jump = seq![Opcode::JUMP.code(), 0, 0, 0, 0];
                let closed = if has_else {
                    after_block.emit(jump)
                } else {
                    after_block
                };
                let recorded = if has_else {
                    places.push(closed.bytecode.len() - 4)
                } else {
                    places
                };
                let open = if has_else {
                    inside.insert(stop)
                } else {
                    inside
                };
                if has_else {
                    lemma_append(after_block.bytecode, jump, inside, arguments);
                    assert(pending_with(inside, jump, stop) == open);
                }
                assert(sane(closed.bytecode, open, arguments));
                if closed.bytecode.len() <= u32::MAX {
                    let target = closed.bytecode.len() as u32;
                    let patched = closed.patch(branched.bytecode.len() - 4, target);
                    // The bytes that stood in the code are still there.
                    assert forall|i: int| 0 <= i < branched.bytecode.len() implies #[trigger]
                        closed.bytecode[i] == branched.bytecode[i] by {
                        assert(after_block.bytecode.subrange(0, branched.bytecode.len() as int)[i]
                            == branched.bytecode[i]);
                    }
                    assert forall|i: int| 0 <= i < s.bytecode.len() implies #[trigger]
                        branched.bytecode[i] == s.bytecode[i] by {
                        assert(branched.bytecode.subrange(0, s.bytecode.len() as int)[i]
                            == s.bytecode[i]);
                    }
                    assert(closed.bytecode[branch] == Opcode::JUMP_FALSE.code());
                    assert(target_place(closed.bytecode, branch) == branch + 2);
                    lemma_fill_in(closed.bytecode, branch, target, open, arguments);
                    assert(patched.bytecode == with_target(closed.bytecode, branch, target));
                    let left = pending + jump_starts(recorded, 0);
                    assert(open.remove(branch) =~= left) by {
                        assert forall|x: int| open.remove(branch).contains(x) == left.contains(
                            x,
                        ) by {
                            if jump_starts(places, 0).contains(x) {
                                let j = choose|j: int|
                                    0 <= j < places.len() && #[trigger] places[j] == x + 1;
                                assert(recorded[j] == places[j]);
                                assert(jump_starts(recorded, 0).contains(x));
                            }
                            if has_else && x == stop {
                                assert(recorded[places.len() as int] == stop + 1);
                                assert(jump_starts(recorded, 0).contains(x));
                            }
                            if jump_starts(recorded, 0).contains(x) {
                                let j = choose|j: int|
                                    0 <= j < recorded.len() && #[trigger] recorded[j] == x + 1;
                                if j < places.len() {
                                    assert(places[j] == recorded[j]);
                                    assert(jump_starts(places, 0).contains(x));
                                }
                            }
                        }
                    }
                    assert(patched.wf());
                    assert(places_valid(recorded, patched));
                    assert(places_from(recorded, base + 1));
                    assert(apart(recorded));
                    assert(places_are_jumps(patched.bytecode, recorded)) by {
                        assert forall|j: int| 0 <= j < recorded.len() implies Opcode::decode(
                            patched.bytecode[#[trigger] recorded[j] - 1],
                        ) == Opcode::JUMP by {
                            let at = recorded[j] - 1;
                            if j < places.len() {
                                assert(places[j] == recorded[j]);
                                assert(jump_starts(places, 0).contains(at));
                                assert(closed.bytecode[at] == s.bytecode[at]);
                            } else {
                                assert(at == stop);
                                assert(closed.bytecode[stop] == jump[0]);
                            }
                            assert(open.contains(at));
                        }
                    }
                    lemma_arms_sane(
                        patched,
                        arms,
                        has_else,
                        from + 1,
                        recorded,
                        pending,
                        base,
                        arguments,
                    );
                }
            }
        }
    }
}

} // verus!

verus! {

/// Compiled code is well formed. The code of a procedure is a row of whole
/// instructions with a `HALT` as the last. Every instruction names only
/// registers and locals that exist and only arguments that the procedure
/// has as parameters, and every jump leads forwards, to the start of an
/// instruction at or before that `HALT`.
pub proof fn law_compiled_code_is_well_formed(proc: Procedure)
    ensures
        compiled(proc) matches Ok(code) ==> {
            &&& code.len() >= 1
            &&& code.last() == Opcode::HALT.code()
            &&& sane(code.drop_last(), Set::empty(), proc.parameters@.len() as int)
            &&& sane(code, Set::empty(), proc.parameters@.len() as int)
        },
{
    let s = CompilerView::fresh(names_of(proc.parameters@));
    let none = Set::<int>::empty();
    let arguments = proc.parameters@.len() as int;
    assert(reaches(s.bytecode, 0, 0));
    assert(sane(s.bytecode, none, arguments));
    let halt = seq![Opcode::HALT.code()];
    match proc.code {
        None => {
            lemma_append(s.bytecode, halt, none, arguments);
            assert((s.bytecode + halt).drop_last() =~= s.bytecode);
        },
        Some(block) => {
            lemma_block_sane(s, block, 0, none, arguments);
            if let Ok(after) = s.visit_block(block, 0) {
                lemma_append(after.bytecode, halt, none, arguments);
                assert((after.bytecode + halt).drop_last() =~= after.bytecode);
            }
        },
    }
}

/// A process that runs well-formed code cannot go astray. Let the code be
/// a well-formed body with a `HALT` behind it, let the process have all
/// the arguments that the body names, and let its cursor stand at the
/// start of an instruction of the body, or at that `HALT`. Then its next
/// step is no fault: it reads all its operands inside the buffer and names
/// only registers, locals and arguments that exist. It is no call either.
/// And unless the step stops the process, it moves the cursor forwards, to
/// the start of an instruction or to that `HALT`: so the process stops
/// after no more steps than the code has bytes.
pub proof fn law_step_is_safe(body: Seq<u8>, arguments: int, p: ProcessView)
    requires
        sane(body, Set::empty(), arguments),
        arguments <= p.args.len(),
        p.code == body + seq![Opcode::HALT.code()],
        p.wf(),
        p.waiting is None,
        is_start(body, p.position),
    ensures
        ({
            let (next, step) = p.step();
            &&& !(step is Fault)
            &&& !(step is Call)
            &&& !(step is Halt) ==> p.position < next.position && is_start(body, next.position)
            &&& next.code == p.code
            &&& next.wf()
        }),
{
    let at = p.position;
    let len = body.len() as int;
    assert forall|i: int| 0 <= i < len implies p.code[i] == body[i] by {}
    assert(p.code[len] == Opcode::HALT.code());
    if at < len {
        assert(reaches(body, 0, at));
        let size = size_at(body, at);
        assert(at + size <= len);
        assert(operands_ok(body, at, arguments));
        assert(jump_ok(body, at, Set::empty()));
        // The place behind the instruction is the start of the next.
        assert(reaches(body, at + size, at + size));
        assert(reaches(body, at, at + size));
        lemma_reaches_trans(body, 0, at, at + size);
        let place = target_place(body, at);
        if place >= 0 {
            assert(p.code.subrange(place, place + 4) =~= body.subrange(place, place + 4));
            lemma_le_bounds(body.subrange(place, place + 4));
        }
    }
}

} // verus!

verus! {

/// An invocation of well-formed code cannot go astray. Let the machine
/// run one process, as `law_step_is_safe` asks of it. Then the next action
/// of the machine is no fault and no native call. Either the invocation
/// is finished with the value that the process returns, or the machine
/// still runs this one process, with its cursor further on, at the start
/// of an instruction; and then the machine asks for arithmetic or a field
/// exactly where the process waits for the answer.
pub proof fn law_invocation_is_safe(body: Seq<u8>, arguments: int, vm: VMView)
    requires
        vm.programs.len() == 1,
        sane(body, Set::empty(), arguments),
        arguments <= vm.programs[0].args.len(),
        vm.programs[0].code == body + seq![Opcode::HALT.code()],
        vm.programs[0].wf(),
        vm.programs[0].waiting is None,
        is_start(body, vm.programs[0].position),
    ensures
        ({
            let before = vm.programs[0];
            let (next, action) = vm.step();
            &&& !(action is Fault)
            &&& !(action is NativeCall)
            &&& action matches ActionView::Finished(value) ==> next.programs.len() == 0 && value
                == before.step().0.return_value()
            &&& !(action is Finished) ==> {
                &&& next.programs.len() == 1
                &&& next.programs[0] == before.step().0
                &&& before.position < next.programs[0].position
                &&& is_start(body, next.programs[0].position)
                &&& (action is Continue <==> next.programs[0].waiting is None)
            }
        }),
{
    let before = vm.programs[0];
    law_step_is_safe(body, arguments, before);
    let (after, step) = before.step();
    assert(vm.programs.last() == before);
    assert(vm.with_top(after).programs =~= seq![after]);
}

} // verus!
