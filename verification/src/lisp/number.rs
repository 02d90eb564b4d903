//! Single-precision numbers as bit patterns: sign in the top bit, then eight
//! bits of exponent and twenty-three of fraction. The library never computes
//! with them; it only tests and orders them, which the bits alone decide.

use vstd::prelude::*;
use crate::lisp::types::Operator;

verus! {

/// Arithmetic as a function: the number that an operation gives on two numbers.
pub type Arithmetic = spec_fn(Operator, u32, u32) -> u32;

/// What a host's arithmetic must be: defined on all operands, with one
/// result for each.
pub open spec fn computes<A: Fn(Operator, u32, u32) -> u32>(arith: &A) -> bool {
    &&& forall|op: Operator, a: u32, b: u32| arith.requires((op, a, b))
    &&& forall|op: Operator, a: u32, b: u32, r1: u32, r2: u32|
        arith.ensures((op, a, b), r1) && arith.ensures((op, a, b), r2) ==> r1 == r2
}

/// The function that a host's arithmetic computes.
pub open spec fn results<A: Fn(Operator, u32, u32) -> u32>(arith: &A) -> Arithmetic {
    |op: Operator, a: u32, b: u32| choose|r: u32| arith.ensures((op, a, b), r)
}

/// Reading numbers as a function: the number that a token spells, if it
/// spells one.
pub type Reading = spec_fn(Seq<char>) -> Option<u32>;

/// Whether a host's reader may answer `r` on a string that holds `text`.
pub open spec fn may_read<R: Fn(&str) -> Option<u32>>(read: &R, text: Seq<char>, r: Option<u32>) -> bool {
    exists|t: &str| t@ == text && #[trigger] read.ensures((t,), r)
}

/// What a host's reader of numbers must be: defined on every string, with
/// one answer for each text.
pub open spec fn reads<R: Fn(&str) -> Option<u32>>(read: &R) -> bool {
    &&& forall|t: &str| read.requires((t,))
    &&& forall|text: Seq<char>, a: Option<u32>, b: Option<u32>|
        may_read(read, text, a) && may_read(read, text, b) ==> a == b
}

/// The function that a host's reader computes.
pub open spec fn readings<R: Fn(&str) -> Option<u32>>(read: &R) -> Reading {
    |text: Seq<char>| choose|r: Option<u32>| may_read(read, text, r)
}

/// Writing numbers as a function: the text that spells a number.
pub type Numeral = spec_fn(u32) -> Seq<char>;

/// Whether a host's writer may answer a string that holds `text` on `bits`.
pub open spec fn may_write<W: Fn(u32) -> String>(write: &W, bits: u32, text: Seq<char>) -> bool {
    exists|s: String| s@ == text && #[trigger] write.ensures((bits,), s)
}

/// What a host's writer of numbers must be: defined on every number, with
/// one text for each.
pub open spec fn writes<W: Fn(u32) -> String>(write: &W) -> bool {
    &&& forall|bits: u32| write.requires((bits,))
    &&& forall|bits: u32, a: Seq<char>, b: Seq<char>|
        may_write(write, bits, a) && may_write(write, bits, b) ==> a == b
}

/// The function that a host's writer computes.
pub open spec fn writings<W: Fn(u32) -> String>(write: &W) -> Numeral {
    |bits: u32| choose|text: Seq<char>| may_write(write, bits, text)
}

/// The bits of `0.0`.
pub const ZERO: u32 = 0x0000_0000;

/// The bits of `1.0`.
pub const ONE: u32 = 0x3f80_0000;

/// The bits of the single-precision number nearest to π.
pub const PI: u32 = 0x4049_0fdb;

/// The bits of positive infinity: every exponent bit set, no fraction bit.
pub const INFINITY: u32 = 0x7f80_0000;

/// The pattern without its sign.
pub open spec fn magnitude(bits: u32) -> u32 {
    bits & 0x7fff_ffff
}

/// Whether the sign bit is set.
pub open spec fn is_negative(bits: u32) -> bool {
    bits & 0x8000_0000 != 0
}

/// Whether the pattern is no number: a full exponent with a fraction.
pub open spec fn is_nan(bits: u32) -> bool {
    magnitude(bits) > INFINITY
}

/// Whether the pattern is one of the two zeros.
pub open spec fn is_zero(bits: u32) -> bool {
    magnitude(bits) == 0
}

/// The place of a number on the line: magnitudes grow with the pattern, and
/// the sign mirrors them, so that both zeros share one place.
pub open spec fn place(bits: u32) -> int {
    if is_negative(bits) {
        -(magnitude(bits) as int)
    } else {
        magnitude(bits) as int
    }
}

/// `a < b` on numbers: false as soon as either is no number.
pub open spec fn less(a: u32, b: u32) -> bool {
    !is_nan(a) && !is_nan(b) && place(a) < place(b)
}

/// `a == b` on numbers: false as soon as either is no number; the zeros are equal.
pub open spec fn equal(a: u32, b: u32) -> bool {
    !is_nan(a) && !is_nan(b) && place(a) == place(b)
}

/// `a <= b` on numbers.
pub open spec fn at_most(a: u32, b: u32) -> bool {
    less(a, b) || equal(a, b)
}

pub fn nan(bits: u32) -> (r: bool)
    ensures
        r == is_nan(bits),
{
    bits & 0x7fff_ffff > INFINITY
}

pub fn zero(bits: u32) -> (r: bool)
    ensures
        r == is_zero(bits),
{
    bits & 0x7fff_ffff == 0
}

fn placed(bits: u32) -> (r: i64)
    ensures
        r == place(bits),
{
    let m: u32 = bits & 0x7fff_ffff;
    assert(m <= 0x7fff_ffff) by (bit_vector)
        requires
            m == bits & 0x7fff_ffff,
    ;
    if bits & 0x8000_0000 != 0 {
        -(m as i64)
    } else {
        m as i64
    }
}

pub fn less_than(a: u32, b: u32) -> (r: bool)
    ensures
        r == less(a, b),
{
    !nan(a) && !nan(b) && placed(a) < placed(b)
}

pub fn equal_to(a: u32, b: u32) -> (r: bool)
    ensures
        r == equal(a, b),
{
    !nan(a) && !nan(b) && placed(a) == placed(b)
}

pub fn no_more_than(a: u32, b: u32) -> (r: bool)
    ensures
        r == at_most(a, b),
{
    !nan(a) && !nan(b) && placed(a) <= placed(b)
}

} // verus!
