//! The floating-point side of a run, which the caller supplies.
//!
//! The library forms every sum, difference, product and quotient through a
//! function that the caller hands in, and applies the quadrature rule to the
//! integrand through another one. It makes no assumption on what they return;
//! its contracts say which operations it asks for, on which operands.

use vstd::prelude::*;
use crate::double::Double;

verus! {

/// One of the four operations of arithmetic.
#[derive(Clone, Copy, Debug, PartialEq, Eq, Structural)]
pub enum Op {
    Add,
    Sub,
    Mul,
    Div,
}

/// What a quadrature rule makes of the integrand over one range.
#[derive(Clone, Copy, Debug)]
pub struct Estimate {
    /// Estimate of the integral.
    pub result: Double,
    /// Estimate of the absolute error of `result`.
    pub abserr: Double,
    /// Estimate of the integral of the magnitude of the integrand.
    pub resabs: Double,
    /// Estimate of the integral of the distance of the integrand from its mean
    /// over the range.
    pub resasc: Double,
}

/// Bit pattern of `0.5`.
pub const HALF_BITS: u64 = 0x3fe0_0000_0000_0000;

/// Bit pattern of `1.0`.
pub const ONE_BITS: u64 = 0x3ff0_0000_0000_0000;

/// Bit pattern of the machine epsilon, `2^-52`.
pub const EPSILON_BITS: u64 = 0x3cb0_0000_0000_0000;

/// Bit pattern of five times the machine epsilon.
pub const FIVE_EPSILON_BITS: u64 = 0x3cd4_0000_0000_0000;

/// Bit pattern of fifty times the machine epsilon.
pub const FIFTY_EPSILON_BITS: u64 = 0x3d09_0000_0000_0000;

/// Bit pattern of a hundred times the machine epsilon.
pub const HUNDRED_EPSILON_BITS: u64 = 0x3d19_0000_0000_0000;

/// The arithmetic can be asked for every operation on every pair of numbers.
pub open spec fn computes<A: Fn(Op, Double, Double) -> Double>(arithmetic: A) -> bool {
    forall|op: Op, x: Double, y: Double| call_requires(arithmetic, (op, x, y))
}

/// The rule can be asked for an estimate over every range.
pub open spec fn estimates<R: Fn(Double, Double) -> Estimate>(rule: R) -> bool {
    forall|a: Double, b: Double| call_requires(rule, (a, b))
}

/// The rule never gives a NaN for the error of an estimate.
pub open spec fn errors_are_numbers<R: Fn(Double, Double) -> Estimate>(rule: R) -> bool {
    forall|a: Double, b: Double, e: Estimate| call_ensures(rule, (a, b), e) ==> !e.abserr.is_nan()
}

/// `r` is what the arithmetic has answered, or may answer, when asked for `op`
/// on `x` and `y`.
pub open spec fn yields<A: Fn(Op, Double, Double) -> Double>(
    arithmetic: A,
    op: Op,
    x: Double,
    y: Double,
    r: Double,
) -> bool {
    call_ensures(arithmetic, (op, x, y), r)
}

/// `x + y`, as the arithmetic has it.
pub fn plus<A: Fn(Op, Double, Double) -> Double>(arithmetic: &A, x: Double, y: Double) -> (r: Double)
    requires
        computes(*arithmetic),
    ensures
        yields(*arithmetic, Op::Add, x, y, r),
{
    arithmetic(Op::Add, x, y)
}

/// `x - y`, as the arithmetic has it.
pub fn minus<A: Fn(Op, Double, Double) -> Double>(arithmetic: &A, x: Double, y: Double) -> (r: Double)
    requires
        computes(*arithmetic),
    ensures
        yields(*arithmetic, Op::Sub, x, y, r),
{
    arithmetic(Op::Sub, x, y)
}

/// `x * y`, as the arithmetic has it.
pub fn times<A: Fn(Op, Double, Double) -> Double>(arithmetic: &A, x: Double, y: Double) -> (r: Double)
    requires
        computes(*arithmetic),
    ensures
        yields(*arithmetic, Op::Mul, x, y, r),
{
    arithmetic(Op::Mul, x, y)
}

/// `x / y`, as the arithmetic has it.
pub fn over<A: Fn(Op, Double, Double) -> Double>(arithmetic: &A, x: Double, y: Double) -> (r: Double)
    requires
        computes(*arithmetic),
    ensures
        yields(*arithmetic, Op::Div, x, y, r),
{
    arithmetic(Op::Div, x, y)
}

/// The numbers `partial` are the sums that arise when `terms` are added up one
/// by one, starting from zero.
pub open spec fn sums<A: Fn(Op, Double, Double) -> Double>(
    arithmetic: A,
    terms: Seq<Double>,
    partial: Seq<Double>,
) -> bool {
    &&& partial.len() == terms.len() + 1
    &&& partial[0].bits == 0
    &&& forall|k: int|
        0 <= k < terms.len() ==> yields(arithmetic, Op::Add, #[trigger] partial[k], terms[k], partial[k + 1])
}

/// `r` is the sum of `terms`, added up one by one from zero.
pub open spec fn is_sum<A: Fn(Op, Double, Double) -> Double>(arithmetic: A, terms: Seq<Double>, r: Double) -> bool {
    exists|partial: Seq<Double>| #[trigger] sums(arithmetic, terms, partial) && r == partial[terms.len() as int]
}

/// Adds up `terms` one by one, starting from zero.
pub fn sum<A: Fn(Op, Double, Double) -> Double>(arithmetic: &A, terms: &Vec<Double>) -> (r: Double)
    requires
        computes(*arithmetic),
    ensures
        is_sum(*arithmetic, terms@, r),
{
    let mut total = Double { bits: 0 };
    let mut k: usize = 0;
    let ghost mut partial: Seq<Double> = seq![total];
    while k < terms.len()
        invariant
            computes(*arithmetic),
            k <= terms.len(),
            partial.len() == k + 1,
            partial[0].bits == 0,
            total == partial[k as int],
            forall|j: int|
                0 <= j < k ==> yields(*arithmetic, Op::Add, #[trigger] partial[j], terms@[j], partial[j + 1]),
        decreases terms.len() - k,
    {
        let next = plus(arithmetic, total, terms[k]);
        proof {
            partial = partial.push(next);
        }
        total = next;
        k += 1;
    }
    assert(sums(*arithmetic, terms@, partial));
    total
}

/// `m` is the point halfway between `a` and `b`: half of their sum.
pub open spec fn is_halfway<A: Fn(Op, Double, Double) -> Double>(
    arithmetic: A,
    a: Double,
    b: Double,
    m: Double,
) -> bool {
    exists|s: Double|
        #[trigger] yields(arithmetic, Op::Add, a, b, s) && yields(arithmetic, Op::Mul, Double { bits: HALF_BITS }, s, m)
}

/// The point halfway between `a` and `b`.
pub fn halfway<A: Fn(Op, Double, Double) -> Double>(arithmetic: &A, a: Double, b: Double) -> (m: Double)
    requires
        computes(*arithmetic),
    ensures
        is_halfway(*arithmetic, a, b, m),
{
    let s = plus(arithmetic, a, b);
    times(arithmetic, Double { bits: HALF_BITS }, s)
}

/// `r` is `total` with `old` replaced by `new` in it. With `inner` the
/// difference is formed first, `total + (new - old)`; else the sum,
/// `(total + new) - old`.
pub open spec fn is_replaced<A: Fn(Op, Double, Double) -> Double>(
    arithmetic: A,
    total: Double,
    new: Double,
    old: Double,
    inner: bool,
    r: Double,
) -> bool {
    if inner {
        exists|t: Double| #[trigger] yields(arithmetic, Op::Sub, new, old, t) && yields(arithmetic, Op::Add, total, t, r)
    } else {
        exists|t: Double| #[trigger] yields(arithmetic, Op::Add, total, new, t) && yields(arithmetic, Op::Sub, t, old, r)
    }
}

/// `total` with `old` replaced by `new` in it.
pub fn replaced<A: Fn(Op, Double, Double) -> Double>(
    arithmetic: &A,
    total: Double,
    new: Double,
    old: Double,
    inner: bool,
) -> (r: Double)
    requires
        computes(*arithmetic),
    ensures
        is_replaced(*arithmetic, total, new, old, inner, r),
{
    if inner {
        let t = minus(arithmetic, new, old);
        plus(arithmetic, total, t)
    } else {
        let t = plus(arithmetic, total, new);
        minus(arithmetic, t, old)
    }
}

} // verus!
