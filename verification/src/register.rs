//! Tagged values.

use vstd::prelude::*;

verus! {

/// The tag of a number. The payload of a number is an IEEE-754 binary32 bit
/// pattern.
pub const NUMBER_TAG: u32 = 0x2A;

/// A tagged value: a type tag and a payload. For a number the payload is a
/// float bit pattern, for anything else an identifier that the host assigned.
#[derive(Clone, Copy, Debug, PartialEq, Eq, Structural)]
pub struct Register {
    pub tag: u32,
    pub value: u32,
}

impl Register {
    pub fn new(tag: u32, value: u32) -> (r: Register)
        ensures
            r == (Register { tag, value }),
    {
        Register { tag, value }
    }

    /// Copies both fields of `other` into `self`.
    pub fn assign(&mut self, other: &Register)
        ensures
            *final(self) == *other,
    {
        self.tag = other.tag;
        self.value = other.value;
    }

    /// The all-zero register, which every slot of a fresh process holds.
    pub open spec fn zero() -> Register {
        Register { tag: 0, value: 0 }
    }

    /// The number with the given float bit pattern.
    pub open spec fn number(bits: u32) -> Register {
        Register { tag: NUMBER_TAG, value: bits }
    }
}

impl Default for Register {
    fn default() -> (r: Register)
        ensures
            r == Register::zero(),
    {
        Register { tag: 0, value: 0 }
    }
}

} // verus!
