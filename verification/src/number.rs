//! Floating-point numbers by their bit patterns.
//!
//! Comparing two numbers is done here. Arithmetic on them is the caller's: it comes
//! as one function of an operation and two operands, and formulas are stated over
//! it.
use vstd::prelude::*;

verus! {

/// Zero.
pub const ZERO: u64 = 0;

/// One.
pub const ONE: u64 = 0x3FF0_0000_0000_0000;

/// One and a tenth.
pub const ONE_AND_A_TENTH: u64 = 0x3FF1_9999_9999_999A;

/// Two.
pub const TWO: u64 = 0x4000_0000_0000_0000;

/// A thousand.
pub const THOUSAND: u64 = 0x408F_4000_0000_0000;

/// What is not a number.
pub const NOT_A_NUMBER: u64 = 0x7FF8_0000_0000_0000;

/// Infinity.
pub const INFINITY: u64 = 0x7FF0_0000_0000_0000;

/// Negative infinity.
pub const NEGATIVE_INFINITY: u64 = 0xFFF0_0000_0000_0000;

// ---------------------------------------------------------------------
// Comparison.
// ---------------------------------------------------------------------

/// Whether a bit pattern is that of a number.
pub open spec fn is_number(bits: u64) -> bool {
    magnitude(bits) <= 0x7FF0_0000_0000_0000
}

/// A bit pattern without its sign.
pub open spec fn magnitude(bits: u64) -> int {
    if bits < 0x8000_0000_0000_0000 {
        bits as int
    } else {
        bits - 0x8000_0000_0000_0000
    }
}

/// The rank of a number: numbers compare as their ranks do.
pub open spec fn number_rank(bits: u64) -> int {
    if bits < 0x8000_0000_0000_0000 {
        magnitude(bits)
    } else {
        -magnitude(bits)
    }
}

/// Whether the number `a` is less than the number `b`. Nothing compares with what
/// is not a number.
pub open spec fn number_lt(a: u64, b: u64) -> bool {
    is_number(a) && is_number(b) && number_rank(a) < number_rank(b)
}

/// Whether the number `a` is less than the number `b`.
pub fn float_lt(a: u64, b: u64) -> (r: bool)
    ensures
        r == number_lt(a, b),
{
    let half: u64 = 0x8000_0000_0000_0000;
    let (neg_a, mag_a): (bool, u64) = if a < half {
        (false, a)
    } else {
        (true, a - half)
    };
    let (neg_b, mag_b): (bool, u64) = if b < half {
        (false, b)
    } else {
        (true, b - half)
    };
    if mag_a > 0x7FF0_0000_0000_0000 || mag_b > 0x7FF0_0000_0000_0000 {
        return false;
    }
    if neg_a {
        if neg_b {
            mag_b < mag_a
        } else {
            mag_a > 0 || mag_b > 0
        }
    } else {
        !neg_b && mag_a < mag_b
    }
}

/// Whether a bit pattern is that of a number.
pub fn float_is_number(bits: u64) -> (r: bool)
    ensures
        r == is_number(bits),
{
    let half: u64 = 0x8000_0000_0000_0000;
    if bits < half {
        bits <= 0x7FF0_0000_0000_0000
    } else {
        bits - half <= 0x7FF0_0000_0000_0000
    }
}

// ---------------------------------------------------------------------
// Arithmetic.
// ---------------------------------------------------------------------

/// An operation on numbers.
#[derive(Debug, Clone, Copy, PartialEq, Eq, Structural)]
pub enum Arith {
    Add,
    Sub,
    Mul,
    Div,
    /// The lesser of two numbers.
    Min,
    /// The greater of two numbers.
    Max,
    /// The root of the first operand.
    Sqrt,
    /// The first operand, rounded down.
    Floor,
    /// The first operand, rounded up.
    Ceil,
    /// The number that an integer, the first operand, is.
    OfInteger,
    /// The integer, not a bit pattern, that the first operand is.
    ToInteger,
    /// The seconds of a width in nanoseconds, the first operand.
    Seconds,
    /// The first operand per second of a width in nanoseconds, the second.
    PerSecond,
    /// The first operand as a rate where there is no width.
    PerNothing,
}

/// Whether a function computes: it takes every operand, and gives one answer.
pub open spec fn computes<A: Fn(Arith, u64, u64) -> u64>(arith: A) -> bool {
    &&& forall|op: Arith, a: u64, b: u64| call_requires(arith, (op, a, b))
    &&& forall|op: Arith, a: u64, b: u64, x: u64, y: u64| #[trigger]
        call_ensures(arith, (op, a, b), x) && #[trigger] call_ensures(arith, (op, a, b), y) ==> x
            == y
}

/// What an operation comes to.
pub open spec fn calc<A: Fn(Arith, u64, u64) -> u64>(arith: A, op: Arith, a: u64, b: u64) -> u64 {
    choose|r: u64| call_ensures(arith, (op, a, b), r)
}

/// Does an operation.
pub fn compute<A: Fn(Arith, u64, u64) -> u64>(arith: &A, op: Arith, a: u64, b: u64) -> (r: u64)
    requires
        computes(*arith),
    ensures
        r == calc(*arith, op, a, b),
{
    arith(op, a, b)
}

} // verus!
