//! A single binary digit with logic-gate operators: the leaf type of the
//! bitwise arithmetic engine.

use vstd::prelude::*;

verus! {

/// One binary digit. Only the two states 0 and 1 are ever observable; any
/// nonzero input normalizes to 1. The view of a `Bit` is a `bool` (`true`
/// means 1).
#[derive(Clone, Copy, PartialEq, Eq, Structural, Debug)]
pub struct Bit {
    data: bool,
}

impl View for Bit {
    type V = bool;

    closed spec fn view(&self) -> bool {
        self.data
    }
}

impl Bit {
    /// Constructs a `Bit`; any nonzero input yields 1, zero yields 0.
    pub fn new(v: u8) -> (r: Bit)
        ensures
            r@ == (v != 0),
    {
        Bit { data: v != 0 }
    }

    /// Constructs a 0 bit.
    pub fn empty() -> (r: Bit)
        ensures
            r@ == false,
    {
        Bit { data: false }
    }

    /// The numeric value of the bit: 0 or 1.
    pub fn value(&self) -> (r: i8)
        ensures
            r == (if self@ { 1int } else { 0int }),
    {
        if self.data {
            1
        } else {
            0
        }
    }

    /// Whether the bit is 1.
    pub fn is_true(&self) -> (r: bool)
        ensures
            r == self@,
    {
        self.data
    }

    /// In-place overwrite, with the same zero/nonzero normalization as `new`.
    pub fn set(&mut self, v: isize)
        ensures
            final(self)@ == (v != 0),
    {
        self.data = v != 0;
    }

    /// Logic gate AND.
    pub fn and(self, rhs: Bit) -> (r: Bit)
        ensures
            r@ == (self@ && rhs@),
    {
        Bit { data: self.data && rhs.data }
    }

    /// Logic gate OR.
    pub fn or(self, rhs: Bit) -> (r: Bit)
        ensures
            r@ == (self@ || rhs@),
    {
        Bit { data: self.data || rhs.data }
    }

    /// Logic gate XOR.
    pub fn xor(self, rhs: Bit) -> (r: Bit)
        ensures
            r@ == (self@ != rhs@),
    {
        Bit { data: self.data != rhs.data }
    }

    /// Logic gate NOT.
    pub fn not(self) -> (r: Bit)
        ensures
            r@ == !self@,
    {
        Bit { data: !self.data }
    }

    /// Scalar multiply: a 1 bit passes the integer through, a 0 bit yields 0.
    /// Used to derive a sign multiplier from a sign bit.
    pub fn mul(self, rhs: i8) -> (r: i8)
        ensures
            r == (if self@ { rhs as int } else { 0int }),
    {
        if self.data {
            rhs
        } else {
            0
        }
    }
}

impl Default for Bit {
    /// The default bit is 0.
    fn default() -> (r: Bit)
        ensures
            r@ == false,
    {
        Bit { data: false }
    }
}

} // verus!
