//! Comparisons of binary64 numbers with a tolerance.
use vstd::prelude::*;
use crate::accuracy;
use crate::double;
use crate::double::Double;
use crate::pow2;
use crate::rounding;

verus! {

/// The bits of 0.0001, the difference up to which two numbers count as equal.
pub const TOLERANCE_BITS: u64 = 0x3f1a_36e2_eb1c_432d;

/// `a` and `b` differ by no more than the tolerance.
pub open spec fn near(a: Double, b: Double) -> bool {
    a.minus(b).magnitude().at_most(Double { bits: TOLERANCE_BITS })
}

/// `a` is above `b`, or near it.
pub open spec fn above_or_near(a: Double, b: Double) -> bool {
    b.below(a) || near(a, b)
}

/// Whether two numbers are equal within the tolerance.
pub fn approx_eq(a: Double, b: Double) -> (r: bool)
    ensures
        r == near(a, b),
{
    a.sub(b).abs().le(Double { bits: TOLERANCE_BITS })
}

/// Whether `a >= b` within the tolerance.
pub fn approx_ge(a: Double, b: Double) -> (r: bool)
    ensures
        r == above_or_near(a, b),
{
    b.lt(a) || approx_eq(a, b)
}

/// The tolerance is 0.0001, from above, up to a part in `2^50`.
pub proof fn lemma_tolerance()
    ensures
        ({
            let t = Double { bits: TOLERANCE_BITS };
            &&& t.finite()
            &&& !t.sign()
            &&& 10000 * t.mag() >= accuracy::unit()
            &&& (10000 * t.mag()) * 0x4_0000_0000_0000 <= accuracy::unit() * 0x4_0000_0000_0001
        }),
{
    let t = Double { bits: TOLERANCE_BITS };
    let p = pow2::pow2(1008);
    pow2::lemma_pow2_consts();
    pow2::lemma_pow2_add(66, 1008);
    assert(pow2::pow2(66) == 2 * pow2::pow2(65));
    assert(pow2::pow2(65) == 2 * pow2::pow2(64));
    assert(t.step() == 1008);
    assert(t.mantissa() == 0x1a_36e2_eb1c_432d);
    assert(t.mag() == 0x1a_36e2_eb1c_432d * p);
    assert(accuracy::unit() == 0x4_0000_0000_0000_0000 * p);
}

/// Two finite numbers are near each other just where they differ by no more than
/// 0.0001: up to that, and not from a part in `2^40` above it on.
pub proof fn law_near(a: Double, b: Double)
    requires
        a.finite(),
        b.finite(),
    ensures
        10000 * accuracy::gap(a.value(), b.value()) <= accuracy::unit() ==> near(a, b),
        accuracy::gap(a.value(), b.value()) * 10000 * 0x100_0000_0000 >= accuracy::unit()
            * 0x100_0000_0001 ==> !near(a, b),
{
    let t = Double { bits: TOLERANCE_BITS };
    let diff = a.minus(b);
    let d = accuracy::gap(a.value(), b.value());
    lemma_tolerance();
    pow2::lemma_pow2_pos(1074);
    accuracy::law_minus(a, b);
    if diff.finite() {
        accuracy::lemma_magnitude(diff);
        accuracy::law_order(diff.magnitude(), t);
        if 10000 * d <= accuracy::unit() {
            lemma_rounds_within(a, b, t);
        }
    } else {
        pow2::lemma_pow2_mono(1074, 2097);
        accuracy::lemma_not_finite(a, b);
    }
}

/// A finite number is above another or near it where it is at least the other less
/// 0.0001, and not where it is lower by a part in `2^40` more.
pub proof fn law_above_or_near(a: Double, b: Double)
    requires
        a.finite(),
        b.finite(),
    ensures
        10000 * (b.value() - a.value()) <= accuracy::unit() ==> above_or_near(a, b),
        (b.value() - a.value()) * 10000 * 0x100_0000_0000 >= accuracy::unit() * 0x100_0000_0001
            ==> !above_or_near(a, b),
{
    law_near(a, b);
    accuracy::law_order(b, a);
    pow2::lemma_pow2_pos(1074);
}

/// A difference that is at most a number in exact terms is so when rounded.
proof fn lemma_rounds_within(a: Double, b: Double, t: Double)
    requires
        a.finite(),
        b.finite(),
        t.finite(),
        accuracy::gap(a.value(), b.value()) <= t.value(),
    ensures
        a.minus(b).magnitude().at_most(t),
{
    reveal(Double::plus);
    let z = b.negated();
    accuracy::lemma_negated(b);
    double::lemma_parts(t);
    let d = accuracy::gap(a.value(), b.value()) as nat;
    double::lemma_round_exact(t);
    double::lemma_round_zero(1);
    assert(d * 1 == d && t.mag() * 1 == t.mag());
    rounding::law_round_monotone(d, 1, t.mag(), 1);
    assert(a.minus(b).low() == rounding::round_mag(d, 1));
}

} // verus!
