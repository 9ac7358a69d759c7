//! From a procedure body to bytecode.
//!
//! The compiler walks the statements once and appends instructions to a
//! buffer. Values of subexpressions live in temporary registers, which are
//! given back as soon as the instruction that reads them is emitted.
//! Arguments are addressed by their position and locals by the order of
//! their declaration, each apart from the temporaries.

use crate::ast::{
    BinaryOp, CompileError, CompileErrorView, Expression, Follow, IfArm, IfChain, Procedure,
    Statement, Term, VarStatement,
};
use crate::bytes::{push_u16, push_u32, u16_le, u32_le};
use crate::number::{bits_of_int, from_int, lemma_bits_of_int_bounds};
use crate::opcode::Opcode;
use crate::process::NUM_REGISTERS;
use crate::register::NUMBER_TAG;
use vstd::prelude::*;

verus! {

/// The greatest index below `upto` at which `names` holds `name`, or -1:
/// of two declarations of one name the later counts.
pub open spec fn resolve(names: Seq<Seq<char>>, name: Seq<char>, upto: int) -> int
    decreases upto,
{
    if upto <= 0 {
        -1
    } else if names[upto - 1] == name {
        upto - 1
    } else {
        resolve(names, name, upto - 1)
    }
}

/// The names of a list of strings.
pub open spec fn names_of(strings: Seq<String>) -> Seq<Seq<char>> {
    Seq::new(strings.len(), |i: int| strings[i]@)
}

/// The compiler in specifications.
pub struct CompilerView {
    /// The instructions emitted so far.
    pub bytecode: Seq<u8>,
    /// The number of temporaries that were ever allocated: every id below
    /// it is in use or free, none from it on was ever handed out.
    pub next_free_register: int,
    /// The free list: `free_registers[id]` says that temporary `id` was
    /// released and not taken again.
    pub free_registers: Seq<bool>,
    /// The names of the locals, each at the index of its slot.
    pub locals: Seq<Seq<char>>,
    /// The names of the arguments, each at its position.
    pub args: Seq<Seq<char>>,
}

impl CompilerView {
    /// A compiler before its first statement, for parameters of these names.
    pub open spec fn fresh(args: Seq<Seq<char>>) -> CompilerView {
        CompilerView {
            bytecode: Seq::empty(),
            next_free_register: 0,
            free_registers: Seq::new(NUM_REGISTERS as nat, |i: int| false),
            locals: Seq::empty(),
            args,
        }
    }

    /// The free list names only temporaries that were allocated, and
    /// neither temporaries nor locals exceed the machine's sixteen.
    pub open spec fn wf(self) -> bool {
        &&& self.free_registers.len() == NUM_REGISTERS
        &&& 0 <= self.next_free_register <= NUM_REGISTERS
        &&& forall|id: int|
            0 <= id < NUM_REGISTERS && #[trigger] self.free_registers[id] ==> id
                < self.next_free_register
        &&& self.locals.len() <= NUM_REGISTERS
    }

    /// Whether temporary `id` holds a value that is still to be read.
    pub open spec fn live(self, id: int) -> bool {
        0 <= id < self.next_free_register && !self.free_registers[id]
    }

    /// The smallest id from `from` on that is on the free list, or the
    /// number of registers if there is none.
    pub open spec fn first_free(self, from: int) -> int
        decreases NUM_REGISTERS - from,
    {
        if from >= NUM_REGISTERS {
            NUM_REGISTERS as int
        } else if self.free_registers[from] {
            from
        } else {
            self.first_free(from + 1)
        }
    }

    /// Taking a temporary: the smallest id on the free list, or the next
    /// id that was never allocated where the list is empty. With all
    /// sixteen in use there is none to take.
    pub open spec fn acquire(self) -> Result<(CompilerView, int), CompileErrorView> {
        let id = self.first_free(0);
        if id < NUM_REGISTERS {
            Ok((CompilerView { free_registers: self.free_registers.update(id, false), ..self }, id))
        } else if self.next_free_register < NUM_REGISTERS {
            Ok(
                (
                    CompilerView { next_free_register: self.next_free_register + 1, ..self },
                    self.next_free_register,
                ),
            )
        } else {
            Err(CompileErrorView::TooManyRegisters)
        }
    }

    /// Giving temporary `id` back to the free list.
    pub open spec fn release(self, id: int) -> CompilerView {
        CompilerView { free_registers: self.free_registers.update(id, true), ..self }
    }

    /// Appending `bytes` to the buffer.
    pub open spec fn emit(self, bytes: Seq<u8>) -> CompilerView {
        CompilerView { bytecode: self.bytecode + bytes, ..self }
    }

    /// Writing `target` over the four bytes at `at`.
    pub open spec fn patch(self, at: int, target: u32) -> CompilerView {
        CompilerView {
            bytecode: self.bytecode.subrange(0, at) + u32_le(target) + self.bytecode.subrange(
                at + 4,
                self.bytecode.len() as int,
            ),
            ..self
        }
    }

    /// Writing `target` over the four bytes at each of `places` from the
    /// `from`-th on.
    pub open spec fn patch_all(self, places: Seq<int>, from: int, target: u32) -> CompilerView
        decreases places.len() - from,
    {
        if 0 <= from < places.len() {
            self.patch(places[from], target).patch_all(places, from + 1, target)
        } else {
            self
        }
    }
}

/// The state of one compilation: the buffer, the temporaries, and the names
/// in scope.
pub struct Compiler<'a> {
    proc: &'a Procedure,
    bytecode: Vec<u8>,
    next_free_register: usize,
    free_registers: [bool; NUM_REGISTERS],
    locals: Vec<String>,
}

impl<'a> View for Compiler<'a> {
    type V = CompilerView;

    closed spec fn view(&self) -> CompilerView {
        CompilerView {
            bytecode: self.bytecode@,
            next_free_register: self.next_free_register as int,
            free_registers: self.free_registers@,
            locals: names_of(self.locals@),
            args: names_of(self.proc.parameters@),
        }
    }
}

impl<'a> Compiler<'a> {
    pub open spec fn wf(&self) -> bool {
        self@.wf()
    }

    /// The procedure that is compiled.
    pub closed spec fn procedure(&self) -> &'a Procedure {
        self.proc
    }

    /// A compiler for `proc`: nothing emitted, no temporary allocated, no
    /// local declared, and the parameters of `proc` as the arguments, in
    /// their order.
    pub fn new(proc: &'a Procedure) -> (compiler: Compiler<'a>)
        ensures
            compiler.wf(),
            compiler.procedure() == proc,
            compiler@ == CompilerView::fresh(names_of(proc.parameters@)),
    {
        let compiler = Compiler {
            proc,
            bytecode: Vec::new(),
            next_free_register: 0,
            free_registers: [false; NUM_REGISTERS],
            locals: Vec::new(),
        };
        assert(compiler@.free_registers =~= CompilerView::fresh(
            names_of(proc.parameters@),
        ).free_registers);
        assert(compiler@.locals =~= Seq::<Seq<char>>::empty());
        compiler
    }

    /// Takes a temporary register: the smallest id that was released, or
    /// the next that was never allocated.
    pub fn get_free_register(&mut self) -> (result: Result<usize, CompileError>)
        requires
            old(self).wf(),
        ensures
            final(self).procedure() == old(self).procedure(),
            match old(self)@.acquire() {
                Ok((view, id)) => result == Ok::<usize, CompileError>(id as usize) && final(self)@
                    == view && final(self).wf() && id < NUM_REGISTERS,
                Err(error) => result is Err && result->Err_0@ == error,
            },
    {
        let mut id: usize = 0;
        while id < NUM_REGISTERS
            invariant
                id <= NUM_REGISTERS,
                self@ == old(self)@,
                self.wf(),
                self.procedure() == old(self).procedure(),
                self@.first_free(0) == self@.first_free(id as int),
                self.free_registers@ == self@.free_registers,
            decreases NUM_REGISTERS - id,
        {
            if self.free_registers[id] {
                self.free_registers[id] = false;
                return Ok(id);
            }
            id = id + 1;
        }
        if self.next_free_register < NUM_REGISTERS {
            let id = self.next_free_register;
            self.next_free_register = id + 1;
            Ok(id)
        } else {
            Err(CompileError::TooManyRegisters)
        }
    }

    /// Gives temporary `id` back.
    pub fn release(&mut self, id: usize)
        requires
            old(self).wf(),
            old(self)@.live(id as int),
        ensures
            final(self).wf(),
            final(self).procedure() == old(self).procedure(),
            final(self)@ == old(self)@.release(id as int),
    {
        self.free_registers[id] = true;
    }

    /// Appends `bytes` to the buffer.
    pub fn emit(&mut self, bytes: &[u8])
        ensures
            final(self).procedure() == old(self).procedure(),
            final(self)@ == old(self)@.emit(bytes@),
    {
        let mut i: usize = 0;
        while i < bytes.len()
            invariant
                i <= bytes@.len(),
                self.procedure() == old(self).procedure(),
                self@ == old(self)@.emit(bytes@.subrange(0, i as int)),
            decreases bytes@.len() - i,
        {
            self.bytecode.push(bytes[i]);
            i = i + 1;
            assert(self@.bytecode =~= old(self)@.emit(bytes@.subrange(0, i as int)).bytecode);
        }
        assert(bytes@.subrange(0, i as int) =~= bytes@);
    }
}

} // verus!

verus! {

/// The opcode that lowers a binary operator: one for each of `+ - * /` and
/// of `< <= == >= >`, none for any other.
pub open spec fn opcode_of(op: BinaryOp) -> Option<Opcode> {
    match op {
        BinaryOp::Add => Some(Opcode::ADD),
        BinaryOp::Sub => Some(Opcode::SUB),
        BinaryOp::Mul => Some(Opcode::MUL),
        BinaryOp::Div => Some(Opcode::DIV),
        BinaryOp::Less => Some(Opcode::LESS_THAN),
        BinaryOp::LessEq => Some(Opcode::LESS_OR_EQUAL),
        BinaryOp::Eq => Some(Opcode::EQUAL),
        BinaryOp::GreaterEq => Some(Opcode::GREATER_OR_EQUAL),
        BinaryOp::Greater => Some(Opcode::GREATER_THAN),
        _ => None,
    }
}

/// The description of a `return` that returns nothing.
pub open spec fn return_without_value() -> Seq<char> {
    "return without a value"@
}

/// The description of an expression under a unary operator.
pub open spec fn unary_operator() -> Seq<char> {
    "unary operator"@
}

/// The description of a follow behind a term that is no identifier.
pub open spec fn follow_on_value() -> Seq<char> {
    "follow on a term that is not an identifier"@
}

/// The description of more than one follow behind a term.
pub open spec fn chained_follow() -> Seq<char> {
    "more than one follow"@
}

impl CompilerView {
    /// A literal: `LOAD_IMMEDIATE` of the number with these bits into a
    /// fresh temporary.
    pub open spec fn load_literal(self, bits: u32) -> Result<
        (CompilerView, int),
        CompileErrorView,
    > {
        match self.acquire() {
            Err(error) => Err(error),
            Ok((taken, reg)) => Ok(
                (
                    taken.emit(
                        seq![Opcode::LOAD_IMMEDIATE.code(), reg as u8, NUMBER_TAG as u8] + u32_le(
                            bits,
                        ),
                    ),
                    reg,
                ),
            ),
        }
    }

    /// What follows an identifier whose value is in `target`: nothing, or
    /// one field, which is read into `target` itself.
    pub open spec fn visit_follows(self, target: int, follows: Seq<Follow>) -> Result<
        (CompilerView, int),
        CompileErrorView,
    > {
        if follows.len() == 0 {
            Ok((self, target))
        } else if follows.len() > 1 {
            Err(CompileErrorView::UnsupportedFollow(chained_follow()))
        } else {
            match follows[0] {
                Follow::Field(name) => Ok(
                    (
                        self.emit(
                            seq![Opcode::GET_FIELD.code(), target as u8] + u16_le(name)
                                + seq![target as u8],
                        ),
                        target,
                    ),
                ),
                Follow::Other(text) => Err(CompileErrorView::UnsupportedFollow(text@)),
            }
        }
    }

    /// An identifier: an argument of that name if there is one, else a
    /// local of that name, loaded into a fresh temporary.
    pub open spec fn visit_ident(self, name: Seq<char>, follows: Seq<Follow>) -> Result<
        (CompilerView, int),
        CompileErrorView,
    > {
        let arg = resolve(self.args, name, self.args.len() as int);
        let local = resolve(self.locals, name, self.locals.len() as int);
        if arg >= 0 {
            if arg > u8::MAX {
                Err(CompileErrorView::TooManyArguments)
            } else {
                match self.acquire() {
                    Err(error) => Err(error),
                    Ok((taken, target)) => taken.emit(
                        seq![Opcode::LOAD_ARGUMENT.code(), arg as u8, target as u8],
                    ).visit_follows(target, follows),
                }
            }
        } else if local >= 0 {
            match self.acquire() {
                Err(error) => Err(error),
                Ok((taken, target)) => taken.emit(
                    seq![Opcode::LOAD_LOCAL.code(), local as u8, target as u8],
                ).visit_follows(target, follows),
            }
        } else {
            Err(CompileErrorView::UnknownIdentifier(name))
        }
    }

    /// A term with what follows it. The result is the compiler afterwards
    /// and the temporary that holds the value.
    pub open spec fn visit_term(self, term: Term, follows: Seq<Follow>) -> Result<
        (CompilerView, int),
        CompileErrorView,
    >
        decreases term, 0nat,
    {
        match term {
            Term::Ident(name) => self.visit_ident(name@, follows),
            Term::Other(text) => Err(CompileErrorView::UnsupportedTerm(text@)),
            Term::Int(number) => if follows.len() > 0 {
                Err(CompileErrorView::UnsupportedFollow(follow_on_value()))
            } else {
                self.load_literal(bits_of_int(number as int) as u32)
            },
            Term::Float(bits) => if follows.len() > 0 {
                Err(CompileErrorView::UnsupportedFollow(follow_on_value()))
            } else {
                self.load_literal(bits)
            },
            Term::Expr(inner) => if follows.len() > 0 {
                Err(CompileErrorView::UnsupportedFollow(follow_on_value()))
            } else {
                self.visit_expression(*inner)
            },
        }
    }

    /// An expression. The result is the compiler afterwards and the
    /// temporary that holds the value: the only temporary that is in use
    /// afterwards and was not before.
    ///
    /// A binary operation lowers its left operand, then its right operand,
    /// takes a temporary for the result, emits the instruction, and gives
    /// the temporaries of both operands back.
    pub open spec fn visit_expression(self, expr: Expression) -> Result<
        (CompilerView, int),
        CompileErrorView,
    >
        decreases expr, 0nat,
    {
        match expr {
            Expression::Base { unary, term, follow } => if unary.len() > 0 {
                Err(CompileErrorView::UnsupportedExpression(unary_operator()))
            } else {
                self.visit_term(term, follow@)
            },
            Expression::BinaryOp { op, lhs, rhs } => match self.visit_expression(*lhs) {
                Err(error) => Err(error),
                Ok((after_left, left)) => match after_left.visit_expression(*rhs) {
                    Err(error) => Err(error),
                    Ok((after_right, right)) => match opcode_of(op) {
                        None => Err(CompileErrorView::OperatorNotImplemented(op)),
                        Some(oper) => match after_right.acquire() {
                            Err(error) => Err(error),
                            Ok((taken, result)) => Ok(
                                (
                                    taken.emit(
                                        seq![oper.code(), left as u8, right as u8, result as u8],
                                    ).release(right).release(left),
                                    result,
                                ),
                            ),
                        },
                    },
                },
            },
            Expression::Other(text) => Err(CompileErrorView::UnsupportedExpression(text@)),
        }
    }

    /// A statement.
    pub open spec fn visit_statement(self, statement: Statement) -> Result<
        CompilerView,
        CompileErrorView,
    >
        decreases statement, 0nat,
    {
        match statement {
            Statement::Expr(expr) => match self.visit_expression(expr) {
                Err(error) => Err(error),
                Ok((after, reg)) => Ok(after.release(reg)),
            },
            Statement::Return(Some(expr)) => match self.visit_expression(expr) {
                Err(error) => Err(error),
                Ok((after, reg)) => Ok(
                    after.emit(seq![Opcode::RETURN.code(), reg as u8]).release(reg),
                ),
            },
            Statement::Return(None) => Err(
                CompileErrorView::UnsupportedStatement(return_without_value()),
            ),
            Statement::Var(var) => self.visit_var(var.name@, var.value),
            Statement::If(chain) => self.visit_if(chain),
            Statement::Other(text) => Err(CompileErrorView::UnsupportedStatement(text@)),
        }
    }

    /// An `if` chain: its arms, then its `else` block if it has one, and
    /// behind that the end of the chain, where the jump at the end of every
    /// arm leads.
    pub open spec fn visit_if(self, chain: IfChain) -> Result<CompilerView, CompileErrorView>
        decreases chain, 0nat,
    {
        match self.visit_arms(chain.arms, chain.else_arm is Some, 0, Seq::empty()) {
            Err(error) => Err(error),
            Ok((after_arms, places)) => match chain.else_arm {
                None => Ok(after_arms),
                Some(block) => match after_arms.visit_block(block, 0) {
                    Err(error) => Err(error),
                    Ok(after) => if after.bytecode.len() > u32::MAX {
                        Err(CompileErrorView::ProgramTooLarge)
                    } else {
                        Ok(after.patch_all(places, 0, after.bytecode.len() as u32))
                    },
                },
            },
        }
    }

    /// `var name` or `var name = value`: the name gets the next slot, and
    /// the value, if there is one, is stored in it.
    pub open spec fn visit_var(self, name: Seq<char>, value: Option<Expression>) -> Result<
        CompilerView,
        CompileErrorView,
    > {
        if self.locals.len() >= NUM_REGISTERS {
            Err(CompileErrorView::TooManyLocals)
        } else {
            let slot = self.locals.len();
            let declared = CompilerView { locals: self.locals.push(name), ..self };
            match value {
                None => Ok(declared),
                Some(expr) => match declared.visit_expression(expr) {
                    Err(error) => Err(error),
                    Ok((after, reg)) => Ok(
                        after.emit(seq![Opcode::STORE_LOCAL.code(), reg as u8, slot as u8]).release(
                            reg,
                        ),
                    ),
                },
            }
        }
    }

    /// The arms of an `if` chain from the `from`-th on. `places` are the
    /// places of the jumps to the end of the chain that are still to be
    /// filled in, and the result holds them all.
    ///
    /// Each arm is its condition, a `JUMP_FALSE` on the condition's
    /// temporary, its block, and, where the chain has an `else`, a `JUMP`
    /// to the end of the chain. The `JUMP_FALSE` leads behind all of that:
    /// to the next arm, to the `else` block, or to what follows the chain.
    pub open spec fn visit_arms(
        self,
        arms: Vec<IfArm>,
        has_else: bool,
        from: int,
        places: Seq<int>,
    ) -> Result<(CompilerView, Seq<int>), CompileErrorView>
        decreases arms, arms.len() - from,
    {
        if from < 0 || from >= arms.len() {
            Ok((self, places))
        } else {
            match self.visit_expression(arms[from].condition) {
                Err(error) => Err(error),
                Ok((after_condition, check)) => {
                    let branched = after_condition.emit(
                        seq![Opcode::JUMP_FALSE.code(), check as u8, 0, 0, 0, 0],
                    ).release(check);
                    let jump_location = branched.bytecode.len() - 4;
                    match branched.visit_block(arms[from].block, 0) {
                        Err(error) => Err(error),
                        Ok(after_block) => {
                            let closed = if has_else {
                                after_block.emit(seq![Opcode::JUMP.code(), 0, 0, 0, 0])
                            } else {
                                after_block
                            };
                            let places = if has_else {
                                places.push(closed.bytecode.len() - 4)
                            } else {
                                places
                            };
                            if closed.bytecode.len() > u32::MAX {
                                Err(CompileErrorView::ProgramTooLarge)
                            } else {
                                closed.patch(
                                    jump_location,
                                    closed.bytecode.len() as u32,
                                ).visit_arms(arms, has_else, from + 1, places)
                            }
                        },
                    }
                },
            }
        }
    }

    /// The statements of a block from the `from`-th on, in their order.
    pub open spec fn visit_block(self, block: Vec<Statement>, from: int) -> Result<
        CompilerView,
        CompileErrorView,
    >
        decreases block, block.len() - from,
    {
        if from < 0 || from >= block.len() {
            Ok(self)
        } else {
            match self.visit_statement(block[from]) {
                Err(error) => Err(error),
                Ok(after) => after.visit_block(block, from + 1),
            }
        }
    }

    /// A whole procedure: its statements, where it has a body, and a `HALT`
    /// behind them.
    pub open spec fn compile(self, code: Option<Vec<Statement>>) -> Result<
        CompilerView,
        CompileErrorView,
    > {
        match code {
            None => Ok(self.emit(seq![Opcode::HALT.code()])),
            Some(block) => match self.visit_block(block, 0) {
                Err(error) => Err(error),
                Ok(after) => Ok(after.emit(seq![Opcode::HALT.code()])),
            },
        }
    }
}

} // verus!

verus! {

/// Where the search of the free list ends: at the first free id from
/// `from` on, or behind the last register.
pub proof fn lemma_first_free(s: CompilerView, from: int)
    requires
        0 <= from <= NUM_REGISTERS,
    ensures
        from <= s.first_free(from) <= NUM_REGISTERS,
        s.first_free(from) < NUM_REGISTERS ==> s.free_registers[s.first_free(from)],
        forall|id: int| from <= id < s.first_free(from) ==> !#[trigger] s.free_registers[id],
    decreases NUM_REGISTERS - from,
{
    if from < NUM_REGISTERS && !s.free_registers[from] {
        lemma_first_free(s, from + 1);
    }
}

/// The temporary that is taken was not in use and is in use afterwards, and
/// nothing else changes.
pub proof fn lemma_acquire(s: CompilerView)
    requires
        s.wf(),
    ensures
        match s.acquire() {
            Ok((taken, id)) => {
                &&& taken.wf()
                &&& 0 <= id < NUM_REGISTERS
                &&& !s.live(id)
                &&& taken.live(id)
                &&& forall|other: int| other != id ==> taken.live(other) == s.live(other)
                &&& taken.bytecode == s.bytecode
                &&& taken.locals == s.locals
                &&& taken.args == s.args
                &&& s.next_free_register <= taken.next_free_register
            },
            Err(_) => true,
        },
{
    lemma_first_free(s, 0);
}

/// The effect of an expression on the compiler, apart from the code: its
/// result is the one temporary that is in use afterwards and was not
/// before; the code that was there stays, and so do the names in scope.
pub open spec fn holds_result(before: CompilerView, after: CompilerView, reg: int) -> bool {
    &&& after.wf()
    &&& 0 <= reg < NUM_REGISTERS
    &&& !before.live(reg)
    &&& after.live(reg)
    &&& forall|other: int| other != reg ==> after.live(other) == before.live(other)
    &&& after.locals == before.locals
    &&& after.args == before.args
    &&& before.bytecode.len() <= after.bytecode.len()
    &&& after.bytecode.subrange(0, before.bytecode.len() as int) == before.bytecode
    &&& before.next_free_register <= after.next_free_register
}

/// The effect of a statement on the compiler, apart from the code that it
/// appends: the temporaries in use are those that were; the code that was
/// there stays; the arguments stay.
pub open spec fn holds_nothing(before: CompilerView, after: CompilerView) -> bool {
    &&& after.wf()
    &&& forall|id: int| after.live(id) == before.live(id)
    &&& after.args == before.args
    &&& before.locals.len() <= after.locals.len()
    &&& before.bytecode.len() <= after.bytecode.len()
    &&& after.bytecode.subrange(0, before.bytecode.len() as int) == before.bytecode
    &&& before.next_free_register <= after.next_free_register
}

/// Every expression that is lowered leaves its value in one new temporary
/// and gives all others that it took back.
pub proof fn lemma_expression(s: CompilerView, expr: Expression)
    requires
        s.wf(),
    ensures
        s.visit_expression(expr) matches Ok((after, reg)) ==> holds_result(s, after, reg),
    decreases expr,
{
    match expr {
        Expression::Base { unary, term, follow } => {
            if unary.len() == 0 {
                lemma_term(s, term, follow@);
            }
        },
        Expression::BinaryOp { op, lhs, rhs } => {
            lemma_expression(s, *lhs);
            if let Ok((after_left, left)) = s.visit_expression(*lhs) {
                lemma_expression(after_left, *rhs);
                if let Ok((after_right, right)) = after_left.visit_expression(*rhs) {
                    lemma_acquire(after_right);
                    if let Some(oper) = opcode_of(op) {
                        if let Ok((taken, result)) = after_right.acquire() {
                            let bytes = seq![oper.code(), left as u8, right as u8, result as u8];
                            let after = taken.emit(bytes).release(right).release(left);
                            assert(after.bytecode.subrange(0, s.bytecode.len() as int)
                                =~= s.bytecode) by {
                                assert(after_left.bytecode.subrange(0, s.bytecode.len() as int)
                                    == s.bytecode);
                                assert(after_right.bytecode.subrange(
                                    0,
                                    after_left.bytecode.len() as int,
                                ) == after_left.bytecode);
                            }
                            assert(holds_result(s, after, result));
                        }
                    }
                }
            }
        },
        Expression::Other(text) => {},
    }
}

/// As `lemma_expression`, of a term with what follows it.
pub proof fn lemma_term(s: CompilerView, term: Term, follows: Seq<Follow>)
    requires
        s.wf(),
    ensures
        s.visit_term(term, follows) matches Ok((after, reg)) ==> holds_result(s, after, reg),
    decreases term,
{
    lemma_acquire(s);
    match term {
        Term::Ident(name) => {
            if let Ok((after, reg)) = s.visit_term(term, follows) {
                assert(after.bytecode.subrange(0, s.bytecode.len() as int) =~= s.bytecode);
            }
        },
        Term::Other(text) => {},
        Term::Int(number) => {
            if let Ok((after, reg)) = s.visit_term(term, follows) {
                assert(after.bytecode.subrange(0, s.bytecode.len() as int) =~= s.bytecode);
            }
        },
        Term::Float(bits) => {
            if let Ok((after, reg)) = s.visit_term(term, follows) {
                assert(after.bytecode.subrange(0, s.bytecode.len() as int) =~= s.bytecode);
            }
        },
        Term::Expr(inner) => {
            if follows.len() == 0 {
                lemma_expression(s, *inner);
            }
        },
    }
}

} // verus!

verus! {

/// Whether what lowering an expression comes to is what was specified: on
/// success the same temporary and the same compiler, on failure the same
/// error.
pub open spec fn lowered(
    specified: Result<(CompilerView, int), CompileErrorView>,
    after: CompilerView,
    result: Result<usize, CompileError>,
) -> bool {
    match specified {
        Ok((view, reg)) => result == Ok::<usize, CompileError>(reg as usize) && after == view,
        Err(error) => result is Err && result->Err_0@ == error,
    }
}

/// As `lowered`, for a statement, which leaves no value.
pub open spec fn done(
    specified: Result<CompilerView, CompileErrorView>,
    after: CompilerView,
    result: Result<(), CompileError>,
) -> bool {
    match specified {
        Ok(view) => result is Ok && after == view,
        Err(error) => result is Err && result->Err_0@ == error,
    }
}

/// The last place at which `names` holds `name`.
fn find_name(names: &Vec<String>, name: &String) -> (index: Option<usize>)
    ensures
        match index {
            Some(i) => i == resolve(names_of(names@), name@, names@.len() as int),
            None => resolve(names_of(names@), name@, names@.len() as int) == -1,
        },
{
    let mut i: usize = names.len();
    while i > 0
        invariant
            i <= names@.len(),
            resolve(names_of(names@), name@, names@.len() as int) == resolve(
                names_of(names@),
                name@,
                i as int,
            ),
        decreases i,
    {
        if names[i - 1] == *name {
            return Some(i - 1);
        }
        i = i - 1;
    }
    None
}

/// The opcode that lowers a binary operator.
fn operator_opcode(op: BinaryOp) -> (oper: Option<Opcode>)
    ensures
        oper == opcode_of(op),
{
    match op {
        BinaryOp::Add => Some(Opcode::ADD),
        BinaryOp::Sub => Some(Opcode::SUB),
        BinaryOp::Mul => Some(Opcode::MUL),
        BinaryOp::Div => Some(Opcode::DIV),
        BinaryOp::Less => Some(Opcode::LESS_THAN),
        BinaryOp::LessEq => Some(Opcode::LESS_OR_EQUAL),
        BinaryOp::Eq => Some(Opcode::EQUAL),
        BinaryOp::GreaterEq => Some(Opcode::GREATER_OR_EQUAL),
        BinaryOp::Greater => Some(Opcode::GREATER_THAN),
        _ => None,
    }
}

impl<'a> Compiler<'a> {
    /// Loads the number with these bits into a fresh temporary.
    fn load_literal(&mut self, bits: u32) -> (result: Result<usize, CompileError>)
        requires
            old(self).wf(),
        ensures
            final(self).procedure() == old(self).procedure(),
            lowered(old(self)@.load_literal(bits), final(self)@, result),
    {
        proof {
            lemma_acquire(self@);
        }
        let reg = self.get_free_register()?;
        let mut instr = vec![Opcode::LOAD_IMMEDIATE.to_byte(), reg as u8, NUMBER_TAG as u8];
        push_u32(&mut instr, bits);
        self.emit(instr.as_slice());
        Ok(reg)
    }

    /// Lowers what follows an identifier whose value is in `target`.
    fn visit_follows(&mut self, target: usize, follows: &Vec<Follow>) -> (result: Result<
        usize,
        CompileError,
    >)
        requires
            old(self).wf(),
            target < NUM_REGISTERS,
        ensures
            final(self).procedure() == old(self).procedure(),
            lowered(old(self)@.visit_follows(target as int, follows@), final(self)@, result),
    {
        if follows.len() == 0 {
            return Ok(target);
        }
        if follows.len() > 1 {
            return Err(CompileError::UnsupportedFollow("more than one follow".to_owned()));
        }
        match &follows[0] {
            Follow::Field(name) => {
                let mut bytes = vec![Opcode::GET_FIELD.to_byte(), target as u8];
                push_u16(&mut bytes, *name);
                bytes.push(target as u8);
                assert(bytes@ =~= seq![Opcode::GET_FIELD.code(), target as u8] + u16_le(*name)
                    + seq![target as u8]);
                self.emit(bytes.as_slice());
                Ok(target)
            },
            Follow::Other(text) => Err(CompileError::UnsupportedFollow(text.clone())),
        }
    }

    /// Lowers an identifier with what follows it.
    fn visit_ident(&mut self, name: &String, follows: &Vec<Follow>) -> (result: Result<
        usize,
        CompileError,
    >)
        requires
            old(self).wf(),
        ensures
            final(self).procedure() == old(self).procedure(),
            lowered(old(self)@.visit_ident(name@, follows@), final(self)@, result),
    {
        proof {
            lemma_acquire(self@);
        }
        if let Some(index) = find_name(&self.proc.parameters, name) {
            if index > 255 {
                return Err(CompileError::TooManyArguments);
            }
            let target = self.get_free_register()?;
            let instr = vec![Opcode::LOAD_ARGUMENT.to_byte(), index as u8, target as u8];
            self.emit(instr.as_slice());
            self.visit_follows(target, follows)
        } else if let Some(slot) = find_name(&self.locals, name) {
            let target = self.get_free_register()?;
            let instr = vec![Opcode::LOAD_LOCAL.to_byte(), slot as u8, target as u8];
            self.emit(instr.as_slice());
            self.visit_follows(target, follows)
        } else {
            Err(CompileError::UnknownIdentifier(name.clone()))
        }
    }

    /// Lowers a term with what follows it, and returns the temporary that
    /// holds its value.
    ///
    /// A literal is loaded as a number. An identifier is an argument if an
    /// argument has that name, else a local; one field may follow it. A
    /// term in parentheses is the expression inside. `is_statement` says
    /// that the value will not be read; it changes nothing.
    pub fn visit_term(&mut self, term: &Term, follows: &Vec<Follow>, is_statement: bool) -> (result:
        Result<usize, CompileError>)
        requires
            old(self).wf(),
        ensures
            final(self).procedure() == old(self).procedure(),
            lowered(old(self)@.visit_term(*term, follows@), final(self)@, result),
        decreases term, 0nat,
    {
        match term {
            Term::Int(number) => {
                if follows.len() > 0 {
                    return Err(
                        CompileError::UnsupportedFollow(
                            "follow on a term that is not an identifier".to_owned(),
                        ),
                    );
                }
                proof {
                    lemma_bits_of_int_bounds(*number as int);
                }
                self.load_literal(from_int(*number))
            },
            Term::Float(number) => {
                if follows.len() > 0 {
                    return Err(
                        CompileError::UnsupportedFollow(
                            "follow on a term that is not an identifier".to_owned(),
                        ),
                    );
                }
                self.load_literal(*number)
            },
            Term::Ident(name) => self.visit_ident(name, follows),
            Term::Expr(e) => {
                if follows.len() > 0 {
                    return Err(
                        CompileError::UnsupportedFollow(
                            "follow on a term that is not an identifier".to_owned(),
                        ),
                    );
                }
                self.visit_expression(e)
            },
            Term::Other(text) => Err(CompileError::UnsupportedTerm(text.clone())),
        }
    }

    /// Lowers an expression whose value is read, and returns the temporary
    /// that holds it.
    pub fn visit_expression(&mut self, expr: &Expression) -> (result: Result<usize, CompileError>)
        requires
            old(self).wf(),
        ensures
            final(self).procedure() == old(self).procedure(),
            lowered(old(self)@.visit_expression(*expr), final(self)@, result),
        decreases expr, 1nat,
    {
        self.visit_expression_impl(expr, false)
    }

    /// Lowers an expression, and returns the temporary that holds its
    /// value: the only temporary that is in use afterwards and was not
    /// before.
    ///
    /// A binary operation lowers its left operand first and its right
    /// operand second, writes its result to a fresh temporary, and gives
    /// the temporaries of both operands back. `is_statement` says that the
    /// value will not be read; it changes nothing.
    pub fn visit_expression_impl(&mut self, expr: &Expression, is_statement: bool) -> (result:
        Result<usize, CompileError>)
        requires
            old(self).wf(),
        ensures
            final(self).procedure() == old(self).procedure(),
            lowered(old(self)@.visit_expression(*expr), final(self)@, result),
        decreases expr, 0nat,
    {
        match expr {
            Expression::Base { unary, term, follow } => {
                if unary.len() > 0 {
                    return Err(CompileError::UnsupportedExpression("unary operator".to_owned()));
                }
                self.visit_term(term, follow, is_statement)
            },
            Expression::BinaryOp { op, lhs, rhs } => {
                let ghost before = self@;
                proof {
                    lemma_expression(before, **lhs);
                }
                let left_reg = self.visit_expression(lhs)?;
                let ghost after_left = self@;
                proof {
                    lemma_expression(after_left, **rhs);
                }
                let right_reg = self.visit_expression(rhs)?;
                let ghost after_right = self@;
                proof {
                    lemma_acquire(after_right);
                }
                let oper = match operator_opcode(*op) {
                    Some(oper) => oper,
                    None => {
                        return Err(CompileError::OperatorNotImplemented(*op));
                    },
                };
                let result_reg = self.get_free_register()?;
                let instr = vec![
                    oper.to_byte(),
                    left_reg as u8,
                    right_reg as u8,
                    result_reg as u8,
                ];
                self.emit(instr.as_slice());
                self.release(right_reg);
                self.release(left_reg);
                Ok(result_reg)
            },
            Expression::Other(text) => Err(CompileError::UnsupportedExpression(text.clone())),
        }
    }

    /// Lowers an expression whose value is not read, and gives its
    /// temporary back at once.
    pub fn visit_expression_statement(&mut self, expr: &Expression) -> (result: Result<
        (),
        CompileError,
    >)
        requires
            old(self).wf(),
        ensures
            final(self).procedure() == old(self).procedure(),
            done(
                old(self)@.visit_statement(Statement::Expr(*expr)),
                final(self)@,
                result,
            ),
    {
        proof {
            lemma_expression(self@, *expr);
        }
        let reg = self.visit_expression_impl(expr, true)?;
        self.release(reg);
        Ok(())
    }
}

} // verus!

verus! {

/// Whether each of `places` has its four bytes inside the code of `s`.
pub open spec fn places_valid(places: Seq<int>, s: CompilerView) -> bool {
    forall|k: int|
        0 <= k < places.len() ==> 0 <= #[trigger] places[k] && places[k] + 4 <= s.bytecode.len()
}

/// Whether each of `places` lies at `base` or behind it.
pub open spec fn places_from(places: Seq<int>, base: int) -> bool {
    forall|k: int| 0 <= k < places.len() ==> base <= #[trigger] places[k]
}

/// Filling in jump targets changes nothing but the code, not its length,
/// and nothing in front of the first place.
pub proof fn lemma_patch_all(s: CompilerView, places: Seq<int>, from: int, target: u32, base: int)
    requires
        s.wf(),
        places_valid(places, s),
        places_from(places, base),
        0 <= base,
        0 <= from,
    ensures
        ({
            let patched = s.patch_all(places, from, target);
            &&& patched.wf()
            &&& forall|id: int| patched.live(id) == s.live(id)
            &&& patched.args == s.args
            &&& patched.locals == s.locals
            &&& patched.next_free_register == s.next_free_register
            &&& patched.bytecode.len() == s.bytecode.len()
            &&& patched.bytecode.subrange(0, base) == s.bytecode.subrange(0, base)
        }),
    decreases places.len() - from,
{
    if from < places.len() {
        let next = s.patch(places[from], target);
        assert(next.bytecode.len() == s.bytecode.len());
        assert(next.bytecode.subrange(0, base) =~= s.bytecode.subrange(0, base));
        lemma_patch_all(next, places, from + 1, target, base);
    }
}

/// Once the instruction that reads the value of an expression is emitted
/// and the temporary given back, the temporaries in use are those that
/// were in use before the expression.
pub proof fn lemma_consumed(before: CompilerView, after: CompilerView, reg: int, bytes: Seq<u8>)
    requires
        holds_result(before, after, reg),
    ensures
        holds_nothing(before, after.emit(bytes).release(reg)),
        after.emit(bytes).release(reg).locals == before.locals,
{
    let last = after.emit(bytes).release(reg);
    assert(last.bytecode.subrange(0, before.bytecode.len() as int) =~= before.bytecode) by {
        assert(after.bytecode.subrange(0, before.bytecode.len() as int) == before.bytecode);
    }
    assert forall|id: int| last.live(id) == before.live(id) by {
        if id != reg {
            assert(after.live(id) == before.live(id));
        }
    }
    assert forall|id: int| 0 <= id < NUM_REGISTERS && #[trigger] last.free_registers[id] implies id
        < last.next_free_register by {
        if id != reg {
            assert(after.free_registers[id]);
        }
    }
}

/// Every statement that is lowered gives all temporaries that it took
/// back: those in use afterwards are those that were in use before.
pub proof fn lemma_statement(s: CompilerView, statement: Statement)
    requires
        s.wf(),
    ensures
        s.visit_statement(statement) matches Ok(after) ==> holds_nothing(s, after),
    decreases statement, 0nat,
{
    lemma_whole(s.bytecode);
    match statement {
        Statement::Expr(expr) => {
            lemma_expression(s, expr);
            if let Ok((after, reg)) = s.visit_expression(expr) {
                lemma_consumed(s, after, reg, Seq::empty());
                assert(after.emit(Seq::empty()) == after) by {
                    assert(after.bytecode + Seq::<u8>::empty() =~= after.bytecode);
                }
            }
        },
        Statement::Return(Some(expr)) => {
            lemma_expression(s, expr);
            if let Ok((after, reg)) = s.visit_expression(expr) {
                lemma_consumed(s, after, reg, seq![Opcode::RETURN.code(), reg as u8]);
            }
        },
        Statement::Return(None) => {},
        Statement::Var(var) => {
            if s.locals.len() < NUM_REGISTERS {
                let slot = s.locals.len();
                let declared = CompilerView { locals: s.locals.push(var.name@), ..s };
                if let Some(expr) = var.value {
                    lemma_expression(declared, expr);
                    if let Ok((after, reg)) = declared.visit_expression(expr) {
                        lemma_consumed(
                            declared,
                            after,
                            reg,
                            seq![Opcode::STORE_LOCAL.code(), reg as u8, slot as u8],
                        );
                    }
                }
            }
        },
        Statement::If(chain) => {
            lemma_if(s, chain);
        },
        Statement::Other(text) => {},
    }
}

/// As `lemma_statement`, of an `if` chain.
pub proof fn lemma_if(s: CompilerView, chain: IfChain)
    requires
        s.wf(),
    ensures
        s.visit_if(chain) matches Ok(after) ==> holds_nothing(s, after),
    decreases chain, 0nat,
{
    let base = s.bytecode.len() as int;
    lemma_whole(s.bytecode);
    lemma_arms(s, chain.arms, chain.else_arm is Some, 0, Seq::empty(), base);
    if let Ok((after_arms, places)) = s.visit_arms(
        chain.arms,
        chain.else_arm is Some,
        0,
        Seq::empty(),
    ) {
        if let Some(block) = chain.else_arm {
            lemma_block(after_arms, block, 0);
            if let Ok(after_else) = after_arms.visit_block(block, 0) {
                if after_else.bytecode.len() <= u32::MAX {
                    let target = after_else.bytecode.len() as u32;
                    lemma_patch_all(after_else, places, 0, target, base);
                    let after = after_else.patch_all(places, 0, target);
                    lemma_prefix(s.bytecode, after_arms.bytecode, after_else.bytecode);
                    assert(after.bytecode.subrange(0, base) =~= s.bytecode) by {
                        assert(after_else.bytecode.subrange(0, base) == s.bytecode);
                    }
                }
            }
        }
    }
}

/// All of a sequence is a prefix of it.
pub proof fn lemma_whole(a: Seq<u8>)
    ensures
        a.subrange(0, a.len() as int) == a,
{
    assert(a.subrange(0, a.len() as int) =~= a);
}

/// A prefix of a prefix is a prefix.
pub proof fn lemma_prefix(a: Seq<u8>, b: Seq<u8>, c: Seq<u8>)
    requires
        a.len() <= b.len() <= c.len(),
        b.subrange(0, a.len() as int) == a,
        c.subrange(0, b.len() as int) == b,
    ensures
        c.subrange(0, a.len() as int) == a,
{
    assert(c.subrange(0, a.len() as int) =~= c.subrange(0, b.len() as int).subrange(
        0,
        a.len() as int,
    ));
}

/// Statements in a row keep what one statement keeps.
pub proof fn lemma_holds_nothing_trans(a: CompilerView, b: CompilerView, c: CompilerView)
    requires
        holds_nothing(a, b),
        holds_nothing(b, c),
    ensures
        holds_nothing(a, c),
{
    lemma_prefix(a.bytecode, b.bytecode, c.bytecode);
}

/// As `lemma_statement`, of the arms of an `if` chain from the `from`-th
/// on; the places that are recorded lie inside the code, and the new ones
/// behind what was there.
pub proof fn lemma_arms(
    s: CompilerView,
    arms: Vec<IfArm>,
    has_else: bool,
    from: int,
    places: Seq<int>,
    base: int,
)
    requires
        s.wf(),
        places_valid(places, s),
        places_from(places, base),
        0 <= base <= s.bytecode.len(),
        0 <= from,
    ensures
        s.visit_arms(arms, has_else, from, places) matches Ok((after, out)) ==> holds_nothing(
            s,
            after,
        ) && places_valid(out, after) && places_from(out, base),
    decreases arms, arms.len() - from,
{
    lemma_whole(s.bytecode);
    if from < arms.len() {
        lemma_expression(s, arms[from].condition);
        if let Ok((after_condition, check)) = s.visit_expression(arms[from].condition) {
            let branched = after_condition.emit(
                seq![Opcode::JUMP_FALSE.code(), check as u8, 0, 0, 0, 0],
            ).release(check);
            let jump_location = branched.bytecode.len() - 4;
            lemma_consumed(
                s,
                after_condition,
                check,
                seq![Opcode::JUMP_FALSE.code(), check as u8, 0, 0, 0, 0],
            );
            lemma_block(branched, arms[from].block, 0);
            if let Ok(after_block) = branched.visit_block(arms[from].block, 0) {
                let closed = if has_else {
                    after_block.emit(seq![Opcode::JUMP.code(), 0, 0, 0, 0])
                } else {
                    after_block
                };
                let recorded = if has_else {
                    places.push(closed.bytecode.len() - 4)
                } else {
                    places
                };
                if closed.bytecode.len() <= u32::MAX {
                    let patched = closed.patch(jump_location, closed.bytecode.len() as u32);
                    assert(patched.bytecode.len() == closed.bytecode.len());
                    assert(closed.bytecode.subrange(0, after_block.bytecode.len() as int)
                        =~= after_block.bytecode);
                    lemma_prefix(s.bytecode, branched.bytecode, after_block.bytecode);
                    lemma_prefix(s.bytecode, after_block.bytecode, closed.bytecode);
                    assert(patched.bytecode.subrange(0, s.bytecode.len() as int) =~= s.bytecode)
                        by {
                        assert(closed.bytecode.subrange(0, s.bytecode.len() as int) == s.bytecode);
                    }
                    assert(holds_nothing(s, patched));
                    assert(places_valid(recorded, patched));
                    assert(places_from(recorded, base));
                    lemma_arms(patched, arms, has_else, from + 1, recorded, base);
                    if let Ok((after, out)) = patched.visit_arms(
                        arms,
                        has_else,
                        from + 1,
                        recorded,
                    ) {
                        lemma_holds_nothing_trans(s, patched, after);
                    }
                }
            }
        }
    }
}

/// As `lemma_statement`, of a block.
pub proof fn lemma_block(s: CompilerView, block: Vec<Statement>, from: int)
    requires
        s.wf(),
        0 <= from,
    ensures
        s.visit_block(block, from) matches Ok(after) ==> holds_nothing(s, after),
    decreases block, block.len() - from,
{
    lemma_whole(s.bytecode);
    if from < block.len() {
        lemma_statement(s, block[from]);
        if let Ok(after) = s.visit_statement(block[from]) {
            lemma_block(after, block, from + 1);
            if let Ok(last) = after.visit_block(block, from + 1) {
                lemma_holds_nothing_trans(s, after, last);
            }
        }
    }
}

} // verus!

verus! {

/// The places of recorded jumps as they stand in specifications.
pub open spec fn places_of(places: Seq<usize>) -> Seq<int> {
    Seq::new(places.len(), |k: int| places[k] as int)
}

impl<'a> Compiler<'a> {
    /// The number of bytes emitted so far.
    pub fn len(&self) -> (len: usize)
        ensures
            len == self@.bytecode.len(),
    {
        self.bytecode.len()
    }

    /// Writes `target` over the four bytes at `at`.
    fn patch(&mut self, at: usize, target: u32)
        requires
            at + 4 <= old(self)@.bytecode.len(),
        ensures
            final(self).procedure() == old(self).procedure(),
            final(self)@ == old(self)@.patch(at as int, target),
    {
        let _ = self.bytecode.len();
        self.bytecode[at] = (target % 256) as u8;
        self.bytecode[at + 1] = (target / 256 % 256) as u8;
        self.bytecode[at + 2] = (target / 65536 % 256) as u8;
        self.bytecode[at + 3] = (target / 16777216) as u8;
        assert(self@.bytecode =~= old(self)@.patch(at as int, target).bytecode);
    }

    /// Lowers `var name` or `var name = value`: the name gets the next
    /// local slot, and the value, if there is one, is stored in it.
    pub fn visit_var(&mut self, var: &VarStatement) -> (result: Result<(), CompileError>)
        requires
            old(self).wf(),
        ensures
            final(self).procedure() == old(self).procedure(),
            done(old(self)@.visit_var(var.name@, var.value), final(self)@, result),
    {
        let local_id = self.locals.len();
        if local_id >= NUM_REGISTERS {
            return Err(CompileError::TooManyLocals);
        }
        self.locals.push(var.name.clone());
        assert(self@.locals =~= old(self)@.locals.push(var.name@));
        if let Some(expr) = &var.value {
            proof {
                lemma_expression(self@, *expr);
            }
            let src_reg = self.visit_expression(expr)?;
            let instr = vec![Opcode::STORE_LOCAL.to_byte(), src_reg as u8, local_id as u8];
            self.emit(instr.as_slice());
            self.release(src_reg);
        }
        Ok(())
    }

    /// Lowers an `if` chain.
    ///
    /// Each arm is its condition, a `JUMP_FALSE` on the temporary of the
    /// condition, its block, and, where the chain has an `else`, a `JUMP`.
    /// The `JUMP_FALSE` of an arm leads to what stands behind the arm: the
    /// next condition, the `else` block, or the end of the chain. The
    /// `JUMP` of every arm leads to the end of the chain, behind the `else`
    /// block. No jump leads backwards.
    pub fn visit_if(&mut self, chain: &IfChain) -> (result: Result<(), CompileError>)
        requires
            old(self).wf(),
        ensures
            final(self).procedure() == old(self).procedure(),
            done(old(self)@.visit_if(*chain), final(self)@, result),
        decreases chain, 0nat,
    {
        let has_else = chain.else_arm.is_some();
        let mut patch_after_else: Vec<usize> = Vec::new();
        let mut i: usize = 0;
        assert(places_of(patch_after_else@) =~= Seq::<int>::empty());
        while i < chain.arms.len()
            invariant
                i <= chain.arms.len(),
                has_else == (chain.else_arm is Some),
                self.wf(),
                self.procedure() == old(self).procedure(),
                places_valid(places_of(patch_after_else@), self@),
                self@.visit_arms(chain.arms, has_else, i as int, places_of(patch_after_else@))
                    == old(self)@.visit_arms(chain.arms, has_else, 0, Seq::empty()),
            decreases chain.arms.len() - i,
        {
            let arm = &chain.arms[i];
            let ghost at_arm = self@;
            let ghost places = places_of(patch_after_else@);
            proof {
                lemma_expression(at_arm, arm.condition);
            }
            let check_reg = self.visit_expression(&arm.condition)?;
            let ghost after_condition = self@;
            let instr = vec![Opcode::JUMP_FALSE.to_byte(), check_reg as u8, 0, 0, 0, 0];
            self.emit(instr.as_slice());
            self.release(check_reg);
            let jump_location = self.len() - 4;
            proof {
                lemma_consumed(at_arm, after_condition, check_reg as int, instr@);
                lemma_block(self@, arm.block, 0);
            }
            self.visit_block(&arm.block)?;
            if has_else {
                let instr = vec![Opcode::JUMP.to_byte(), 0, 0, 0, 0];
                self.emit(instr.as_slice());
                patch_after_else.push(self.len() - 4);
            }
            assert(places_of(patch_after_else@) =~= if has_else {
                places.push(self@.bytecode.len() - 4)
            } else {
                places
            });
            let target = self.len();
            if target > u32::MAX as usize {
                return Err(CompileError::ProgramTooLarge);
            }
            self.patch(jump_location, target as u32);
            i = i + 1;
        }
        if let Some(else_arm) = &chain.else_arm {
            let ghost after_arms = self@;
            let ghost places = places_of(patch_after_else@);
            proof {
                lemma_block(after_arms, *else_arm, 0);
            }
            self.visit_block(else_arm)?;
            let ghost after_else = self@;
            let target = self.len();
            if target > u32::MAX as usize {
                return Err(CompileError::ProgramTooLarge);
            }
            let mut j: usize = 0;
            while j < patch_after_else.len()
                invariant
                    j <= patch_after_else.len(),
                    target <= u32::MAX,
                    places == places_of(patch_after_else@),
                    self.procedure() == old(self).procedure(),
                    self@.bytecode.len() == after_else.bytecode.len(),
                    places_valid(places, after_else),
                    self@.patch_all(places, j as int, target as u32) == after_else.patch_all(
                        places,
                        0,
                        target as u32,
                    ),
                decreases patch_after_else.len() - j,
            {
                assert(places[j as int] == patch_after_else[j as int]);
                self.patch(patch_after_else[j], target as u32);
                j = j + 1;
            }
        }
        Ok(())
    }

    /// Lowers the statements of a block in their order.
    pub fn visit_block(&mut self, block: &Vec<Statement>) -> (result: Result<(), CompileError>)
        requires
            old(self).wf(),
        ensures
            final(self).procedure() == old(self).procedure(),
            done(old(self)@.visit_block(*block, 0), final(self)@, result),
        decreases block, 0nat,
    {
        let mut i: usize = 0;
        while i < block.len()
            invariant
                i <= block.len(),
                self.wf(),
                self.procedure() == old(self).procedure(),
                self@.visit_block(*block, i as int) == old(self)@.visit_block(*block, 0),
            decreases block.len() - i,
        {
            proof {
                lemma_statement(self@, block[i as int]);
            }
            self.visit_statement(&block[i])?;
            i = i + 1;
        }
        Ok(())
    }

    /// Lowers one statement.
    ///
    /// An expression is lowered and its value dropped. `return` with a
    /// value lowers the value and emits `RETURN` on its temporary. `var`
    /// and `if` are lowered by `visit_var` and `visit_if`. Every other
    /// statement is an error that carries its description.
    pub fn visit_statement(&mut self, statement: &Statement) -> (result: Result<(), CompileError>)
        requires
            old(self).wf(),
        ensures
            final(self).procedure() == old(self).procedure(),
            done(old(self)@.visit_statement(*statement), final(self)@, result),
        decreases statement, 0nat,
    {
        match statement {
            Statement::Expr(expr) => self.visit_expression_statement(expr),
            Statement::Return(Some(expr)) => {
                proof {
                    lemma_expression(self@, *expr);
                }
                let return_reg = self.visit_expression(expr)?;
                let instr = vec![Opcode::RETURN.to_byte(), return_reg as u8];
                self.emit(instr.as_slice());
                self.release(return_reg);
                Ok(())
            },
            Statement::Return(None) => Err(
                CompileError::UnsupportedStatement("return without a value".to_owned()),
            ),
            Statement::Var(var) => self.visit_var(var),
            Statement::If(chain) => self.visit_if(chain),
            Statement::Other(text) => Err(CompileError::UnsupportedStatement(text.clone())),
        }
    }
}

} // verus!

verus! {

impl<'a> Compiler<'a> {
    /// Compiles the procedure: lowers its statements, where it has a body,
    /// and ends the buffer with `HALT`, so that an execution stops where
    /// the statements end. The result is the whole buffer.
    pub fn compile(&mut self) -> (result: Result<Vec<u8>, CompileError>)
        requires
            old(self).wf(),
        ensures
            final(self).procedure() == old(self).procedure(),
            match old(self)@.compile(old(self).procedure().code) {
                Ok(view) => result is Ok && result->Ok_0@ == view.bytecode && final(self)@ == view,
                Err(error) => result is Err && result->Err_0@ == error,
            },
    {
        if let Some(code) = &self.proc.code {
            self.visit_block(code)?;
        }
        let halt = vec![Opcode::HALT.to_byte()];
        assert(halt@ =~= seq![Opcode::HALT.code()]);
        self.emit(halt.as_slice());
        let code = self.bytecode.clone();
        assert(code@ =~= self.bytecode@);
        Ok(code)
    }
}

/// The bytecode of a procedure, or the reason why it has none.
pub open spec fn compiled(proc: Procedure) -> Result<Seq<u8>, CompileErrorView> {
    match CompilerView::fresh(names_of(proc.parameters@)).compile(proc.code) {
        Ok(view) => Ok(view.bytecode),
        Err(error) => Err(error),
    }
}

/// Compiles a procedure to bytecode.
///
/// The result is the buffer for the machine, or an error that names the
/// first construct that cannot be lowered, or the limit of the machine
/// that the procedure exceeds. There is no buffer for a part of a
/// procedure.
pub fn compile(proc: &Procedure) -> (result: Result<Vec<u8>, CompileError>)
    ensures
        match compiled(*proc) {
            Ok(code) => result is Ok && result->Ok_0@ == code,
            Err(error) => result is Err && result->Err_0@ == error,
        },
{
    let mut compiler = Compiler::new(proc);
    compiler.compile()
}

} // verus!

verus! {

impl<'a> Compiler<'a> {
    /// The instructions emitted so far.
    pub fn bytecode(&self) -> (code: &Vec<u8>)
        ensures
            code@ == self@.bytecode,
    {
        &self.bytecode
    }

    /// The number of temporaries that were ever allocated.
    pub fn next_free_register(&self) -> (next: usize)
        ensures
            next == self@.next_free_register,
    {
        self.next_free_register
    }

    /// The free list: the ids of the temporaries that were released and not
    /// taken again, in ascending order.
    pub fn free_registers(&self) -> (free: Vec<usize>)
        ensures
            forall|k: int|
                0 <= k < free@.len() ==> free@[k] < NUM_REGISTERS && self@.free_registers[free@[k] as int],
            forall|k: int, l: int| 0 <= k < l < free@.len() ==> free@[k] < free@[l],
            forall|id: int|
                0 <= id < NUM_REGISTERS && self@.free_registers[id] ==> free@.contains(id as usize),
    {
        let mut free: Vec<usize> = Vec::new();
        let mut id: usize = 0;
        while id < NUM_REGISTERS
            invariant
                id <= NUM_REGISTERS,
                self.free_registers@ == self@.free_registers,
                forall|k: int|
                    0 <= k < free@.len() ==> free@[k] < id && self@.free_registers[free@[k] as int],
                forall|k: int, l: int| 0 <= k < l < free@.len() ==> free@[k] < free@[l],
                forall|other: int|
                    0 <= other < id && self@.free_registers[other] ==> free@.contains(
                        other as usize,
                    ),
            decreases NUM_REGISTERS - id,
        {
            if self.free_registers[id] {
                let ghost before = free@;
                free.push(id);
                assert(free@[before.len() as int] == id);
                assert forall|other: int|
                    0 <= other < id + 1 && self@.free_registers[other] implies free@.contains(
                    other as usize,
                ) by {
                    if other < id {
                        let k = choose|k: int| 0 <= k < before.len() && before[k] == other as usize;
                        assert(free@[k] == other as usize);
                    }
                }
            }
            id = id + 1;
        }
        free
    }
}

} // verus!
