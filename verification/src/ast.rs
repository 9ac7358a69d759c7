//! The syntax that the compiler reads.
//!
//! A front end parses the source; this is the tree it hands over. Only what
//! the compiler knows how to lower has structure here. Every other form is
//! present as a variant `Other`, with a description of the form for the
//! error that names it.

use vstd::prelude::*;

verus! {

/// A binary operator of the source language.
#[derive(Clone, Copy, Debug, PartialEq, Eq, Structural)]
pub enum BinaryOp {
    Add,
    Sub,
    Mul,
    Div,
    Pow,
    Mod,
    Eq,
    NotEq,
    Less,
    Greater,
    LessEq,
    GreaterEq,
    Equiv,
    NotEquiv,
    BitAnd,
    BitXor,
    BitOr,
    LShift,
    RShift,
    And,
    Or,
    In,
    To,
}

/// A prefix or postfix operator of the source language.
#[derive(Clone, Copy, Debug, PartialEq, Eq, Structural)]
pub enum UnaryOp {
    Neg,
    Not,
    BitNot,
    PreIncr,
    PostIncr,
    PreDecr,
    PostDecr,
}

/// What follows a term.
#[derive(Debug)]
pub enum Follow {
    /// `.name`, with the identifier that the host interned the name under.
    Field(u16),
    /// An index, a method call, or anything else.
    Other(String),
}

/// The innermost part of an expression.
#[derive(Debug)]
pub enum Term {
    /// An integer literal.
    Int(i32),
    /// A float literal, as its IEEE-754 binary32 bits.
    Float(u32),
    /// The name of an argument or of a local.
    Ident(String),
    /// An expression in parentheses.
    Expr(Box<Expression>),
    /// Any other term.
    Other(String),
}

#[derive(Debug)]
pub enum Expression {
    /// A term with the unary operators around it and what follows it.
    Base { unary: Vec<UnaryOp>, term: Term, follow: Vec<Follow> },
    BinaryOp { op: BinaryOp, lhs: Box<Expression>, rhs: Box<Expression> },
    /// An assignment, a conditional expression, or anything else.
    Other(String),
}

/// `var name` or `var name = value`.
#[derive(Debug)]
pub struct VarStatement {
    pub name: String,
    pub value: Option<Expression>,
}

/// One `if` or `else if` of a chain: a condition and the block it guards.
#[derive(Debug)]
pub struct IfArm {
    pub condition: Expression,
    pub block: Vec<Statement>,
}

/// An `if` with its `else if`s, in their order, and its `else` if it has
/// one.
#[derive(Debug)]
pub struct IfChain {
    pub arms: Vec<IfArm>,
    pub else_arm: Option<Vec<Statement>>,
}

#[derive(Debug)]
pub enum Statement {
    /// An expression evaluated for its effects.
    Expr(Expression),
    Return(Option<Expression>),
    Var(VarStatement),
    If(IfChain),
    /// A loop, a switch, or any other statement.
    Other(String),
}

/// A procedure: the names of its parameters in the order of their
/// declaration, and its body if it has one.
#[derive(Debug)]
pub struct Procedure {
    pub parameters: Vec<String>,
    pub code: Option<Vec<Statement>>,
}

/// Why a procedure was not compiled.
#[derive(Debug)]
pub enum CompileError {
    /// A statement that the compiler does not lower, by its description.
    UnsupportedStatement(String),
    /// An expression that the compiler does not lower, by its description.
    UnsupportedExpression(String),
    /// A term that the compiler does not lower, by its description.
    UnsupportedTerm(String),
    /// A follow that the compiler does not lower, by its description.
    UnsupportedFollow(String),
    /// A binary operator that is neither arithmetic nor a comparison.
    OperatorNotImplemented(BinaryOp),
    /// A name that is neither an argument nor a local.
    UnknownIdentifier(String),
    /// An expression needs more temporaries at once than the register file
    /// has.
    TooManyRegisters,
    /// The procedure declares more locals than there are slots.
    TooManyLocals,
    /// The argument that a name refers to lies beyond what one byte can
    /// index.
    TooManyArguments,
    /// A jump target does not fit its four bytes.
    ProgramTooLarge,
}

/// A `CompileError` in specifications.
pub enum CompileErrorView {
    UnsupportedStatement(Seq<char>),
    UnsupportedExpression(Seq<char>),
    UnsupportedTerm(Seq<char>),
    UnsupportedFollow(Seq<char>),
    OperatorNotImplemented(BinaryOp),
    UnknownIdentifier(Seq<char>),
    TooManyRegisters,
    TooManyLocals,
    TooManyArguments,
    ProgramTooLarge,
}

impl View for CompileError {
    type V = CompileErrorView;

    open spec fn view(&self) -> CompileErrorView {
        match *self {
            CompileError::UnsupportedStatement(text) => CompileErrorView::UnsupportedStatement(
                text@,
            ),
            CompileError::UnsupportedExpression(text) => CompileErrorView::UnsupportedExpression(
                text@,
            ),
            CompileError::UnsupportedTerm(text) => CompileErrorView::UnsupportedTerm(text@),
            CompileError::UnsupportedFollow(text) => CompileErrorView::UnsupportedFollow(text@),
            CompileError::OperatorNotImplemented(op) => CompileErrorView::OperatorNotImplemented(
                op,
            ),
            CompileError::UnknownIdentifier(name) => CompileErrorView::UnknownIdentifier(name@),
            CompileError::TooManyRegisters => CompileErrorView::TooManyRegisters,
            CompileError::TooManyLocals => CompileErrorView::TooManyLocals,
            CompileError::TooManyArguments => CompileErrorView::TooManyArguments,
            CompileError::ProgramTooLarge => CompileErrorView::ProgramTooLarge,
        }
    }
}

} // verus!
