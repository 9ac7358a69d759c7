//! The instruction set.
//!
//! Each opcode is one byte, followed by zero or more operands. A register
//! operand is one byte, a type tag is one byte, a field name is two bytes,
//! an immediate value or a jump target is four bytes. Operands of more
//! than one byte are little-endian.

use vstd::prelude::*;
use vstd::std_specs::convert::FromSpecImpl;

verus! {

#[allow(non_camel_case_types)]
#[derive(Clone, Copy, Debug, PartialEq, Eq, Structural)]
pub enum Opcode {
    /// Stops the machine.
    HALT,
    /// `[destination register, type, value]`: loads an immediate.
    LOAD_IMMEDIATE,
    /// `[argument index, destination register]`: loads an argument.
    LOAD_ARGUMENT,
    /// `[local slot, destination register]`: loads a local.
    LOAD_LOCAL,
    /// `[source register, local slot]`: stores into a local.
    STORE_LOCAL,
    /// `[source register, field name, destination register]`: reads a field.
    GET_FIELD,
    /// Reserved for a field write; the machine gives it no effect.
    SET_FIELD,
    /// `[left register, right register, result register]`, as the next three.
    ADD,
    SUB,
    MUL,
    DIV,
    /// `[left register, right register, result register]`, as the next four.
    LESS_THAN,
    LESS_OR_EQUAL,
    EQUAL,
    GREATER_OR_EQUAL,
    GREATER_THAN,
    /// `[destination]`: jumps.
    JUMP,
    /// `[condition register, destination]`: jumps if the payload is not zero.
    JUMP_TRUE,
    /// `[condition register, destination]`: jumps if the payload is zero.
    JUMP_FALSE,
    /// `[source register]`: pushes a copy onto the call-argument stack.
    PUSH,
    /// `[procedure id, result register]`: calls with the pushed arguments.
    CALL,
    /// `[source register]`: designates the register to return.
    RETURN,
    /// Any byte that encodes no instruction.
    INVALID,
}

/// The number of bytes that encode an instruction; `INVALID` is not among them.
pub const OPCODE_COUNT: u8 = 22;

impl Opcode {
    /// The byte that encodes this opcode.
    pub open spec fn code(self) -> u8 {
        match self {
            Opcode::HALT => 0,
            Opcode::LOAD_IMMEDIATE => 1,
            Opcode::LOAD_ARGUMENT => 2,
            Opcode::LOAD_LOCAL => 3,
            Opcode::STORE_LOCAL => 4,
            Opcode::GET_FIELD => 5,
            Opcode::SET_FIELD => 6,
            Opcode::ADD => 7,
            Opcode::SUB => 8,
            Opcode::MUL => 9,
            Opcode::DIV => 10,
            Opcode::LESS_THAN => 11,
            Opcode::LESS_OR_EQUAL => 12,
            Opcode::EQUAL => 13,
            Opcode::GREATER_OR_EQUAL => 14,
            Opcode::GREATER_THAN => 15,
            Opcode::JUMP => 16,
            Opcode::JUMP_TRUE => 17,
            Opcode::JUMP_FALSE => 18,
            Opcode::PUSH => 19,
            Opcode::CALL => 20,
            Opcode::RETURN => 21,
            Opcode::INVALID => 22,
        }
    }

    /// The opcode that a byte encodes: the one whose code it is, and
    /// `INVALID` for every byte from `OPCODE_COUNT` on.
    pub open spec fn decode(b: u8) -> Opcode {
        if b == 0 {
            Opcode::HALT
        } else if b == 1 {
            Opcode::LOAD_IMMEDIATE
        } else if b == 2 {
            Opcode::LOAD_ARGUMENT
        } else if b == 3 {
            Opcode::LOAD_LOCAL
        } else if b == 4 {
            Opcode::STORE_LOCAL
        } else if b == 5 {
            Opcode::GET_FIELD
        } else if b == 6 {
            Opcode::SET_FIELD
        } else if b == 7 {
            Opcode::ADD
        } else if b == 8 {
            Opcode::SUB
        } else if b == 9 {
            Opcode::MUL
        } else if b == 10 {
            Opcode::DIV
        } else if b == 11 {
            Opcode::LESS_THAN
        } else if b == 12 {
            Opcode::LESS_OR_EQUAL
        } else if b == 13 {
            Opcode::EQUAL
        } else if b == 14 {
            Opcode::GREATER_OR_EQUAL
        } else if b == 15 {
            Opcode::GREATER_THAN
        } else if b == 16 {
            Opcode::JUMP
        } else if b == 17 {
            Opcode::JUMP_TRUE
        } else if b == 18 {
            Opcode::JUMP_FALSE
        } else if b == 19 {
            Opcode::PUSH
        } else if b == 20 {
            Opcode::CALL
        } else if b == 21 {
            Opcode::RETURN
        } else {
            Opcode::INVALID
        }
    }

    /// `ADD`, `SUB`, `MUL` or `DIV`.
    pub open spec fn is_arithmetic(self) -> bool {
        self == Opcode::ADD || self == Opcode::SUB || self == Opcode::MUL || self == Opcode::DIV
    }

    /// One of the five comparisons.
    pub open spec fn is_comparison(self) -> bool {
        self == Opcode::LESS_THAN || self == Opcode::LESS_OR_EQUAL || self == Opcode::EQUAL
            || self == Opcode::GREATER_OR_EQUAL || self == Opcode::GREATER_THAN
    }

    /// The number of operand bytes that follow the opcode. It is 0 exactly
    /// for the opcodes that have no effect and end an execution.
    pub open spec fn operands(self) -> nat {
        match self {
            Opcode::HALT | Opcode::SET_FIELD | Opcode::INVALID => 0,
            Opcode::LOAD_IMMEDIATE => 6,
            Opcode::LOAD_ARGUMENT | Opcode::LOAD_LOCAL | Opcode::STORE_LOCAL => 2,
            Opcode::GET_FIELD => 4,
            Opcode::ADD | Opcode::SUB | Opcode::MUL | Opcode::DIV => 3,
            Opcode::LESS_THAN
            | Opcode::LESS_OR_EQUAL
            | Opcode::EQUAL
            | Opcode::GREATER_OR_EQUAL
            | Opcode::GREATER_THAN => 3,
            Opcode::JUMP => 4,
            Opcode::JUMP_TRUE | Opcode::JUMP_FALSE => 5,
            Opcode::PUSH | Opcode::RETURN => 1,
            Opcode::CALL => 5,
        }
    }

    /// The number of operand bytes that follow the opcode.
    pub fn operand_bytes(self) -> (n: usize)
        ensures
            n == self.operands(),
    {
        match self {
            Opcode::HALT | Opcode::SET_FIELD | Opcode::INVALID => 0,
            Opcode::LOAD_IMMEDIATE => 6,
            Opcode::LOAD_ARGUMENT | Opcode::LOAD_LOCAL | Opcode::STORE_LOCAL => 2,
            Opcode::GET_FIELD => 4,
            Opcode::ADD | Opcode::SUB | Opcode::MUL | Opcode::DIV => 3,
            Opcode::LESS_THAN
            | Opcode::LESS_OR_EQUAL
            | Opcode::EQUAL
            | Opcode::GREATER_OR_EQUAL
            | Opcode::GREATER_THAN => 3,
            Opcode::JUMP => 4,
            Opcode::JUMP_TRUE | Opcode::JUMP_FALSE => 5,
            Opcode::PUSH | Opcode::RETURN => 1,
            Opcode::CALL => 5,
        }
    }

    /// The byte that encodes this opcode.
    pub fn to_byte(self) -> (b: u8)
        ensures
            b == self.code(),
    {
        match self {
            Opcode::HALT => 0,
            Opcode::LOAD_IMMEDIATE => 1,
            Opcode::LOAD_ARGUMENT => 2,
            Opcode::LOAD_LOCAL => 3,
            Opcode::STORE_LOCAL => 4,
            Opcode::GET_FIELD => 5,
            Opcode::SET_FIELD => 6,
            Opcode::ADD => 7,
            Opcode::SUB => 8,
            Opcode::MUL => 9,
            Opcode::DIV => 10,
            Opcode::LESS_THAN => 11,
            Opcode::LESS_OR_EQUAL => 12,
            Opcode::EQUAL => 13,
            Opcode::GREATER_OR_EQUAL => 14,
            Opcode::GREATER_THAN => 15,
            Opcode::JUMP => 16,
            Opcode::JUMP_TRUE => 17,
            Opcode::JUMP_FALSE => 18,
            Opcode::PUSH => 19,
            Opcode::CALL => 20,
            Opcode::RETURN => 21,
            Opcode::INVALID => 22,
        }
    }

    /// The opcode that a byte encodes.
    pub fn from_byte(b: u8) -> (op: Opcode)
        ensures
            op == Opcode::decode(b),
    {
        match b {
            0 => Opcode::HALT,
            1 => Opcode::LOAD_IMMEDIATE,
            2 => Opcode::LOAD_ARGUMENT,
            3 => Opcode::LOAD_LOCAL,
            4 => Opcode::STORE_LOCAL,
            5 => Opcode::GET_FIELD,
            6 => Opcode::SET_FIELD,
            7 => Opcode::ADD,
            8 => Opcode::SUB,
            9 => Opcode::MUL,
            10 => Opcode::DIV,
            11 => Opcode::LESS_THAN,
            12 => Opcode::LESS_OR_EQUAL,
            13 => Opcode::EQUAL,
            14 => Opcode::GREATER_OR_EQUAL,
            15 => Opcode::GREATER_THAN,
            16 => Opcode::JUMP,
            17 => Opcode::JUMP_TRUE,
            18 => Opcode::JUMP_FALSE,
            19 => Opcode::PUSH,
            20 => Opcode::CALL,
            21 => Opcode::RETURN,
            _ => Opcode::INVALID,
        }
    }
}

impl From<u8> for Opcode {
    fn from(b: u8) -> (op: Opcode) {
        Opcode::from_byte(b)
    }
}

impl FromSpecImpl<u8> for Opcode {
    open spec fn obeys_from_spec() -> bool {
        true
    }

    open spec fn from_spec(b: u8) -> Opcode {
        Opcode::decode(b)
    }
}

impl From<Opcode> for u8 {
    fn from(opcode: Opcode) -> (b: u8) {
        opcode.to_byte()
    }
}

impl FromSpecImpl<Opcode> for u8 {
    open spec fn obeys_from_spec() -> bool {
        true
    }

    open spec fn from_spec(opcode: Opcode) -> u8 {
        opcode.code()
    }
}

/// Decoding undoes encoding, and a byte below `OPCODE_COUNT` is the code of
/// the opcode it decodes to.
pub proof fn law_decode_inverts_code(op: Opcode, b: u8)
    ensures
        Opcode::decode(op.code()) == op,
        b < OPCODE_COUNT ==> Opcode::decode(b).code() == b,
        b >= OPCODE_COUNT ==> Opcode::decode(b) == Opcode::INVALID,
{
}

} // verus!
