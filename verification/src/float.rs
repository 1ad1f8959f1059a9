//! Floating-point numbers, carried by their bits and their text.
//!
//! The library computes nothing with these numbers: it tells whether one is finite, whether two
//! are equal, and prints them.

use vstd::prelude::*;

verus! {

/// A double-precision number: its IEEE 754 bits, and its text.
#[derive(Debug, PartialEq)]
pub struct Double {
    /// The bits, as `to_bits` gives them.
    pub bits: u64,
    /// The text, as `Display` gives it.
    pub text: String,
}

/// What a [`Double`] is.
pub struct DoubleView {
    pub bits: u64,
    pub text: Seq<char>,
}

impl View for Double {
    type V = DoubleView;

    open spec fn view(&self) -> DoubleView {
        DoubleView { bits: self.bits, text: self.text@ }
    }
}

impl Clone for Double {
    fn clone(&self) -> (r: Double)
        ensures
            r@ == self@,
    {
        self.copy()
    }
}

/// The exponent field is not all ones: the number is neither infinite nor "not a number".
pub open spec fn finite_double(bits: u64) -> bool {
    (bits / 0x10_0000_0000_0000) % 0x800 != 0x7ff
}

/// The bits of "not a number": all ones in the exponent, and a fraction.
pub open spec fn nan_double(bits: u64) -> bool {
    !finite_double(bits) && bits % 0x10_0000_0000_0000 != 0
}

/// Equality of double-precision numbers: no "not a number" equals anything, both zeros are
/// equal, and any other number equals itself.
pub open spec fn double_same(a: u64, b: u64) -> bool {
    &&& !nan_double(a)
    &&& !nan_double(b)
    &&& a == b || (a % 0x8000_0000_0000_0000 == 0 && b % 0x8000_0000_0000_0000 == 0)
}

impl Double {
    /// Whether the number is finite.
    pub fn is_finite(&self) -> (r: bool)
        ensures
            r == finite_double(self.bits),
    {
        (self.bits / 0x10_0000_0000_0000) % 0x800 != 0x7ff
    }

    /// Whether two numbers are equal.
    pub fn same(&self, other: &Double) -> (r: bool)
        ensures
            r == double_same(self.bits, other.bits),
    {
        let a: u64 = self.bits;
        let b: u64 = other.bits;
        let a_nan = !self.is_finite() && a % 0x10_0000_0000_0000 != 0;
        let b_nan = !other.is_finite() && b % 0x10_0000_0000_0000 != 0;
        !a_nan && !b_nan && (a == b || (a % 0x8000_0000_0000_0000 == 0 && b % 0x8000_0000_0000_0000
            == 0))
    }

    /// The same number again.
    pub fn copy(&self) -> (r: Double)
        ensures
            r@ == self@,
    {
        Double { bits: self.bits, text: self.text.clone() }
    }

    /// The number one.
    pub fn one() -> (r: Double)
        ensures
            r@ == (DoubleView { bits: 0x3ff0_0000_0000_0000, text: "1"@ }),
    {
        Double { bits: 0x3ff0_0000_0000_0000, text: "1".to_owned() }
    }
}

/// A single-precision number: its IEEE 754 bits, and its text.
#[derive(Debug, PartialEq)]
pub struct Single {
    /// The bits, as `to_bits` gives them.
    pub bits: u32,
    /// The text, as `Display` gives it.
    pub text: String,
    /// The JSON text of the number in double precision.
    pub json_text: String,
}

/// What a [`Single`] is.
pub struct SingleView {
    pub bits: u32,
    pub text: Seq<char>,
    pub json_text: Seq<char>,
}

impl View for Single {
    type V = SingleView;

    open spec fn view(&self) -> SingleView {
        SingleView { bits: self.bits, text: self.text@, json_text: self.json_text@ }
    }
}

impl Clone for Single {
    fn clone(&self) -> (r: Single)
        ensures
            r@ == self@,
    {
        self.copy()
    }
}

/// The exponent field is not all ones.
pub open spec fn finite_single(bits: u32) -> bool {
    (bits / 0x80_0000) % 0x100 != 0xff
}

/// More than zero and at most one: between the bits of the least number above zero and those
/// of one, in which order the numbers stand.
pub open spec fn fraction_single(bits: u32) -> bool {
    0 < bits <= 0x3f80_0000
}

impl Single {
    /// Whether the number is finite.
    pub fn is_finite(&self) -> (r: bool)
        ensures
            r == finite_single(self.bits),
    {
        (self.bits / 0x80_0000) % 0x100 != 0xff
    }

    /// Whether the number is more than zero and at most one.
    pub fn is_fraction(&self) -> (r: bool)
        ensures
            r == fraction_single(self.bits),
    {
        0 < self.bits && self.bits <= 0x3f80_0000
    }

    /// The same number again.
    pub fn copy(&self) -> (r: Single)
        ensures
            r@ == self@,
    {
        Single {
            bits: self.bits,
            text: self.text.clone(),
            json_text: self.json_text.clone(),
        }
    }
}

} // verus!
