//! How close the results of binary64 arithmetic are to the exact ones. Values
//! are compared in units of `2^-1074`, in which every finite number is an
//! integer.
use vstd::prelude::*;
use crate::double;
use crate::double::Double;
use crate::pow2;
use crate::rounding;

verus! {

/// One, in units of `2^-1074`.
pub open spec fn unit() -> nat {
    pow2::pow2(1074)
}

/// How far two integers are apart.
pub open spec fn gap(a: int, b: int) -> int {
    if a >= b {
        a - b
    } else {
        b - a
    }
}

proof fn lemma_nearest(sign: bool, num: nat, den: nat)
    requires
        den > 0,
    ensures
        num < den * pow2::pow2(2097) ==> Double::nearest(sign, num, den).finite(),
        Double::nearest(sign, num, den).sign() == sign,
        Double::nearest(sign, num, den).finite() ==> ({
            let m = Double::nearest(sign, num, den).mag();
            &&& gap((m * den) as int, num as int) * 0x20_0000_0000_0000 <= num
                + 0x10_0000_0000_0000 * den
            &&& den == 1 ==> gap(m as int, num as int) * 0x20_0000_0000_0000 <= num
        }),
{
    let x = Double::nearest(sign, num, den);
    if num < den * pow2::pow2(2097) {
        rounding::lemma_round_finite(num, den);
    }
    assert(x.low() == rounding::round_mag(num, den));
    if x.finite() {
        rounding::lemma_round_error(num, den);
        assert(x.mag() == rounding::mag_of(x.low()));
        if den == 1 {
            assert(x.mag() * 1 == x.mag());
        }
    }
}

/// A sum of finite numbers that is in range differs from the exact sum by no
/// more than a part in `2^53` of it.
pub proof fn law_plus(x: Double, y: Double)
    requires
        x.finite(),
        y.finite(),
    ensures
        gap(x.value() + y.value(), 0) < pow2::pow2(2097) ==> x.plus(y).finite(),
        x.plus(y).finite() ==> gap(x.plus(y).value(), x.value() + y.value())
            * 0x20_0000_0000_0000 <= gap(x.value() + y.value(), 0),
{
    reveal(Double::plus);
    double::lemma_parts(x);
    double::lemma_parts(y);
    let s = x.value() + y.value();
    if s == 0 {
        double::lemma_parts(x.plus(y));
    } else if s < 0 {
        lemma_nearest(true, (-s) as nat, 1);
    } else {
        lemma_nearest(false, s as nat, 1);
    }
}

/// The same of a difference.
pub proof fn law_minus(x: Double, y: Double)
    requires
        x.finite(),
        y.finite(),
    ensures
        gap(x.value(), y.value()) < pow2::pow2(2097) ==> x.minus(y).finite(),
        x.minus(y).finite() ==> gap(x.minus(y).value(), x.value() - y.value())
            * 0x20_0000_0000_0000 <= gap(x.value(), y.value()),
{
    let z = y.negated();
    assert(z.low() == y.low() && z.sign() == !y.sign());
    assert(z.value() == -y.value());
    law_plus(x, z);
}

/// A product of finite numbers that is in range differs from the exact product
/// by no more than a part in `2^53` of it, or by half a unit where that is more.
pub proof fn law_times(x: Double, y: Double)
    requires
        x.finite(),
        y.finite(),
    ensures
        x.mag() * y.mag() < unit() * pow2::pow2(2097) ==> x.times(y).finite(),
        x.times(y).sign() == (x.sign() != y.sign()),
        x.times(y).finite() ==> gap((x.times(y).mag() * unit()) as int, (x.mag() * y.mag()) as int)
            * 0x20_0000_0000_0000 <= x.mag() * y.mag() + 0x10_0000_0000_0000 * unit(),
{
    reveal(Double::times);
    pow2::lemma_pow2_pos(1074);
    lemma_nearest(x.sign() != y.sign(), x.mag() * y.mag(), unit());
}

/// A quotient of finite numbers that is in range differs from the exact
/// quotient by no more than a part in `2^53` of it, or by half a unit where that
/// is more.
pub proof fn law_over(x: Double, y: Double)
    requires
        x.finite(),
        y.finite(),
        y.value() != 0,
    ensures
        x.mag() * unit() < y.mag() * pow2::pow2(2097) ==> x.over(y).finite(),
        x.over(y).sign() == (x.sign() != y.sign()),
        x.over(y).finite() ==> gap((x.over(y).mag() * y.mag()) as int, (x.mag() * unit()) as int)
            * 0x20_0000_0000_0000 <= x.mag() * unit() + 0x10_0000_0000_0000 * y.mag(),
{
    reveal(Double::over);
    double::lemma_parts(y);
    lemma_nearest(x.sign() != y.sign(), x.mag() * unit(), y.mag());
}

/// An integer of 64 bits is represented up to a part in `2^53` of it.
pub proof fn law_of_nat(n: nat)
    requires
        n <= u64::MAX,
    ensures
        Double::of_nat(n).finite(),
        !Double::of_nat(n).sign(),
        gap(Double::of_nat(n).value(), (n * unit()) as int) * 0x20_0000_0000_0000 <= n * unit(),
{
    double::lemma_of_nat_bounds(n);
    reveal(Double::of_nat);
    lemma_nearest(false, n * unit(), 1);
}

/// What is not a number stays so, and infinities of the same sign add up while
/// those of different signs cancel out to no number.
pub proof fn law_plus_of_infinities(x: Double, y: Double)
    ensures
        x.nan() || y.nan() ==> x.plus(y).nan(),
        x.infinite() && y.finite() ==> x.plus(y) == x,
        x.finite() && y.infinite() ==> x.plus(y) == y,
        x.infinite() && y.infinite() && x.sign() == y.sign() ==> x.plus(y) == x,
        x.infinite() && y.infinite() && x.sign() != y.sign() ==> x.plus(y).nan(),
{
    reveal(Double::plus);
}

/// A product with an infinity is infinite, and no number where the other number
/// is zero.
pub proof fn law_times_of_infinities(x: Double, y: Double)
    ensures
        x.nan() || y.nan() ==> x.times(y).nan(),
        x.infinite() && y.finite() && y.mag() == 0 ==> x.times(y).nan(),
        y.infinite() && x.finite() && x.mag() == 0 ==> x.times(y).nan(),
        x.infinite() && y.finite() && y.mag() > 0 ==> x.times(y).infinite(),
        y.infinite() && x.finite() && x.mag() > 0 ==> x.times(y).infinite(),
        x.infinite() && y.infinite() ==> x.times(y).infinite(),
        x.times(y).infinite() ==> x.times(y).sign() == (x.sign() != y.sign()),
{
    reveal(Double::times);
    double::lemma_parts(x);
    double::lemma_parts(y);
}

/// A quotient by zero is infinite, and no number where the dividend is zero too;
/// one by an infinity is zero, and no number where the dividend is infinite too.
pub proof fn law_over_zero_and_infinities(x: Double, y: Double)
    ensures
        x.nan() || y.nan() ==> x.over(y).nan(),
        x.finite() && y.finite() && y.mag() == 0 && x.mag() > 0 ==> x.over(y).infinite(),
        x.finite() && y.finite() && y.mag() == 0 && x.mag() == 0 ==> x.over(y).nan(),
        x.infinite() && y.finite() ==> x.over(y).infinite(),
        x.finite() && y.infinite() ==> x.over(y).finite() && x.over(y).mag() == 0,
        x.infinite() && y.infinite() ==> x.over(y).nan(),
        x.over(y).infinite() ==> x.over(y).sign() == (x.sign() != y.sign()),
{
    reveal(Double::over);
    double::lemma_parts(x);
    double::lemma_parts(y);
    double::lemma_parts(x.over(y));
}

/// An infinity lies beyond every finite number, and what is not a number has no
/// place in the order: the lesser of the two is then the other one. As a key it
/// comes last.
pub proof fn law_order_of_infinities(x: Double, y: Double)
    ensures
        x.nan() || y.nan() ==> !x.below(y) && !x.at_most(y) && !x.same(y),
        x.infinite() && y.finite() ==> x.below(y) == x.sign() && y.below(x) == !x.sign(),
        x.infinite() && y.infinite() ==> x.same(y) == (x.sign() == y.sign()) && x.below(y) == (
        x.sign() && !y.sign()),
        x.nan() ==> x.lesser(y) == y || y.nan(),
        y.nan() ==> x.lesser(y) == x,
        !x.nan() && !y.nan() ==> x.lesser(y) == (if y.below(x) {
            y
        } else {
            x
        }),
        !x.nan() && y.nan() ==> x.rank() < y.rank(),
        x.nan() && y.nan() ==> x.rank() == y.rank(),
        !x.nan() && !y.nan() ==> (x.rank() < y.rank() <==> x.below(y)) && (x.rank() == y.rank()
            <==> x.same(y)),
{
    double::lemma_parts(x);
    double::lemma_parts(y);
}

/// A number that is moved into a range stays where it is within the range, and is
/// moved to the end that it is beyond otherwise.
pub proof fn law_clamped(x: Double, lo: Double, hi: Double)
    requires
        x.finite(),
        lo.finite(),
        hi.finite(),
        lo.value() <= hi.value(),
    ensures
        x.clamped(lo, hi).finite(),
        lo.value() <= x.clamped(lo, hi).value() <= hi.value(),
        lo.value() <= x.value() <= hi.value() ==> x.clamped(lo, hi) == x,
        x.value() < lo.value() ==> x.clamped(lo, hi) == lo,
        x.value() > hi.value() ==> x.clamped(lo, hi) == hi,
{
    law_order(x, lo);
    law_order(hi, x);
}

/// The integer part of a number that is not negative is the integer that is at
/// most the number and less than one below it, where that fits into 32 bits, and
/// the highest that does otherwise. Others have none.
pub proof fn law_truncated(x: Double)
    ensures
        x.nan() ==> x.truncated() == 0,
        x.infinite() ==> x.truncated() == (if x.sign() {
            0nat
        } else {
            0xffff_ffff
        }),
        x.finite() && x.value() < 0 ==> x.truncated() == 0,
        x.finite() && x.value() >= 0x1_0000_0000 * unit() ==> x.truncated() == 0xffff_ffff,
        x.finite() && 0 <= x.value() < 0x1_0000_0000 * unit() ==> x.truncated() * unit() <= x.value()
            < (x.truncated() + 1) * unit(),
{
    let u = unit() as int;
    let m = x.mag() as int;
    double::lemma_parts(x);
    pow2::lemma_pow2_pos(1074);
    vstd::arithmetic::div_mod::lemma_fundamental_div_mod(m, u);
    let f = m / u;
    assert(f * u <= m < (f + 1) * u && 0 <= f) by (nonlinear_arith)
        requires
            m == u * f + m % u,
            0 <= m % u < u,
            m >= 0,
    ;
    assert(f < 0x1_0000_0000 <==> m < 0x1_0000_0000 * u) by (nonlinear_arith)
        requires
            f * u <= m < (f + 1) * u,
            u > 0,
    ;
    assert(0 * u == 0 && 1 * u == u);
}

/// The order of two finite numbers is that of their values.
pub proof fn law_order(x: Double, y: Double)
    requires
        x.finite(),
        y.finite(),
    ensures
        x.below(y) <==> x.value() < y.value(),
        x.at_most(y) <==> x.value() <= y.value(),
        x.same(y) <==> x.value() == y.value(),
        x.lesser(y).value() == (if x.value() <= y.value() {
            x.value()
        } else {
            y.value()
        }),
{
    double::lemma_order_is_value_order(x, y);
}

/// The difference of two finite numbers that are not negative is finite.
pub proof fn lemma_difference_finite(x: Double, y: Double)
    requires
        x.finite(),
        y.finite(),
        x.value() >= 0,
        y.value() >= 0,
    ensures
        x.minus(y).finite(),
{
    reveal(Double::plus);
    let z = y.negated();
    assert(z.low() == y.low() && z.sign() == !y.sign());
    double::lemma_parts(x);
    double::lemma_parts(y);
    assert(z.value() == -y.value());
    let d = gap(x.value(), y.value()) as nat;
    double::lemma_round_exact(x);
    double::lemma_round_exact(y);
    assert(d * 1 == d && x.mag() * 1 == x.mag() && y.mag() * 1 == y.mag());
    if x.value() >= y.value() {
        rounding::law_round_monotone(d, 1, x.mag(), 1);
    } else {
        rounding::law_round_monotone(d, 1, y.mag(), 1);
    }
}

/// A difference of finite numbers that is not finite is infinite.
pub proof fn lemma_not_finite(x: Double, y: Double)
    requires
        x.finite(),
        y.finite(),
        !x.minus(y).finite(),
    ensures
        x.minus(y).infinite(),
{
    reveal(Double::plus);
}

/// The magnitude of a number is that of its value.
pub proof fn lemma_magnitude(x: Double)
    requires
        x.finite(),
    ensures
        x.magnitude().finite(),
        x.magnitude().value() == gap(x.value(), 0),
        x.magnitude().value() >= 0,
{
    double::lemma_parts(x);
}

/// The negated number has the negated value.
pub proof fn lemma_negated(x: Double)
    requires
        x.finite(),
    ensures
        x.negated().finite(),
        x.negated().value() == -x.value(),
{
    double::lemma_parts(x);
}

/// Powers at the end of the range.
pub proof fn lemma_range()
    ensures
        pow2::pow2(2097) == 4 * pow2::pow2(2095),
{
    assert(pow2::pow2(2097) == 2 * pow2::pow2(2096));
    assert(pow2::pow2(2096) == 2 * pow2::pow2(2095));
}

/// What is close stays close under a factor.
pub proof fn lemma_scale(a: int, b: int, bound: int, k: int, f: int)
    requires
        gap(a, b) * k <= bound,
        f >= 0,
    ensures
        gap(a * f, b * f) * k <= bound * f,
{
    assert(gap(a * f, b * f) == gap(a, b) * f) by (nonlinear_arith)
        requires
            f >= 0,
    ;
    let g = gap(a, b);
    assert((g * f) * k <= bound * f) by (nonlinear_arith)
        requires
            g * k <= bound,
            f >= 0,
    ;
}

/// Half of a finite number is exact, up to half a unit.
pub proof fn law_half(x: Double)
    requires
        x.finite(),
    ensures
        x.times(Double { bits: 0x3fe0_0000_0000_0000 }).finite(),
        x.times(Double { bits: 0x3fe0_0000_0000_0000 }).sign() == x.sign(),
        gap(2 * x.times(Double { bits: 0x3fe0_0000_0000_0000 }).value(), x.value()) <= 1,
{
    reveal(Double::times);
    let half = Double { bits: 0x3fe0_0000_0000_0000 };
    let r = x.times(half);
    let h = pow2::pow2(1073);
    let (k, m) = (x.step(), x.mantissa());
    double::lemma_parts(x);
    pow2::lemma_pow2_consts();
    pow2::lemma_pow2_pos(1073);
    pow2::lemma_pow2_add(52, 1021);
    assert(half.step() == 1021 && half.mantissa() == 0x10_0000_0000_0000);
    assert(half.mag() == h);
    assert(unit() == 2 * h);
    rounding::lemma_round_scale(x.mag(), 2, h);
    let low = rounding::round_mag(x.mag(), 2);
    if k > 0 {
        let p = pow2::pow2((k - 1) as nat);
        assert(pow2::pow2(k) == 2 * p);
        assert(x.mag() == (m * p) * 2) by (nonlinear_arith)
            requires
                x.mag() == m * (2 * p),
        ;
        assert(1 * 2 == 2);
        rounding::lemma_round_scale(m * p, 1, 2);
        if k > 1 {
            rounding::lemma_round_steps(m, (k - 1) as nat);
            assert(r.step() == k - 1 && r.mantissa() == m);
        } else {
            assert(pow2::pow2(0) == 1);
            assert(m * 1 == m);
            assert(p == 1 && m * p == m);
            rounding::lemma_round_steps_from_zero(m);
        }
        assert(r.mag() == m * p);
    } else {
        assert(pow2::pow2(0) == 1);
        assert(m * 1 == m);
        assert(x.mag() == m);
        rounding::lemma_round_halves(m);
        assert(r.low() == low);
    }
}

/// The quotient of two integers of 64 bits is the exact one up to a part in
/// `2^51` of it, or a unit where that is more.
pub proof fn law_ratio(a: nat, b: nat)
    requires
        a <= u64::MAX,
        0 < b <= u64::MAX,
    ensures
        Double::of_nat(a).over(Double::of_nat(b)).finite(),
        !Double::of_nat(a).over(Double::of_nat(b)).sign(),
        gap(
            Double::of_nat(a).over(Double::of_nat(b)).value() * b,
            (a * unit()) as int,
        ) * 0x8_0000_0000_0000 <= a * unit() + 0x8_0000_0000_0000 * b,
{
    let u = unit() as int;
    let (dx, dy) = (Double::of_nat(a), Double::of_nat(b));
    let r = dx.over(dy);
    law_of_nat(a);
    law_of_nat(b);
    double::lemma_of_nat_bounds(b);
    double::lemma_parts(dy);
    pow2::lemma_pow2_pos(1074);
    let (x, y, q) = (dx.mag() as int, dy.mag() as int, r.mag() as int);
    let (ex, ey) = (a * u, b * u);
    lemma_ratio_finite(a, b);
    law_over(dx, dy);
    lemma_scale(x, ex, ex, 0x20_0000_0000_0000, u);
    lemma_scale(y, ey, ey, 0x20_0000_0000_0000, q);
    let (p1, p2, p3, p4) = (q * y, x * u, ex * u, q * ey);
    assert(y * q == q * y && ey * q == q * ey) by (nonlinear_arith);
    assert(gap(p1, p2) * 0x20_0000_0000_0000 <= p2 + 0x10_0000_0000_0000 * y);
    assert(gap(p3, p2) * 0x20_0000_0000_0000 <= p3);
    assert(gap(p4, p1) * 0x20_0000_0000_0000 <= p4);
    assert(p4 >= 0) by (nonlinear_arith)
        requires
            p4 == q * ey,
            q >= 0,
            ey >= 0,
    ;
    assert(gap(p4, p3) * 0x8_0000_0000_0000 <= p3 + 0x8_0000_0000_0000 * ey);
    assert(p4 == (q * b) * u && p3 == (a * u) * u) by (nonlinear_arith)
        requires
            p4 == q * ey,
            ey == b * u,
            p3 == ex * u,
            ex == a * u,
    ;
    let (m, n) = (q * b, a * u);
    assert(gap(m, n) * 0x8_0000_0000_0000 <= n + 0x8_0000_0000_0000 * b) by (nonlinear_arith)
        requires
            gap(m * u, n * u) * 0x8_0000_0000_0000 <= n * u + 0x8_0000_0000_0000 * (b * u),
            u >= 1,
    {
        assert(gap(m * u, n * u) == gap(m, n) * u);
    }
}

/// The quotient of an integer and one that is not lower is at most one.
pub proof fn lemma_share_at_most_one(a: nat, b: nat)
    requires
        a <= b,
        0 < b <= u64::MAX,
    ensures
        Double::of_nat(a).over(Double::of_nat(b)).at_most(Double::of_nat(1)),
{
    let (x, y) = (Double::of_nat(a), Double::of_nat(b));
    let u = unit();
    double::lemma_of_nat_bounds(a);
    double::lemma_of_nat_bounds(b);
    assert(x.at_most(y)) by {
        reveal(Double::of_nat);
        assert((a * u) * 1 <= (b * u) * 1) by (nonlinear_arith)
            requires
                a <= b,
        ;
        rounding::law_round_monotone(a * u, 1, b * u, 1);
    }
    double::lemma_over_self(y);
    double::lemma_one();
    lemma_ratio_finite(a, b);
    double::law_over_monotone(x, y, y);
}

proof fn lemma_ratio_finite(a: nat, b: nat)
    requires
        a <= u64::MAX,
        0 < b <= u64::MAX,
    ensures
        Double::of_nat(a).over(Double::of_nat(b)).finite(),
{
    let (dx, dy) = (Double::of_nat(a), Double::of_nat(b));
    let u = unit() as int;
    law_of_nat(a);
    law_of_nat(b);
    double::lemma_of_nat_bounds(b);
    double::lemma_parts(dy);
    pow2::lemma_pow2_consts();
    pow2::lemma_pow2_pos(1074);
    pow2::lemma_pow2_add(127, 1074);
    pow2::lemma_pow2_mono(127 + 1074, 2097);
    let (x, y) = (dx.mag() as int, dy.mag() as int);
    assert(a * u < 0x1_0000_0000_0000_0000 * u && b * u >= u) by (nonlinear_arith)
        requires
            a < 0x1_0000_0000_0000_0000,
            b >= 1,
            u >= 1,
    ;
    assert(x < 0x2_0000_0000_0000_0000 * u && 2 * y >= u);
    let big = pow2::pow2(2097) as int;
    assert(x * u < y * big) by (nonlinear_arith)
        requires
            0 <= x < 0x2_0000_0000_0000_0000 * u,
            2 * y >= u,
            u >= 1,
            big >= 0x8000_0000_0000_0000_0000_0000_0000_0000 * u,
    ;
    law_over(dx, dy);
}

/// One more term of a sum: `sum` stands for `exact` up to `n` parts in `2^50`,
/// `term` for `part` up to one in `2^52`, beside `slack` for each term.
pub proof fn lemma_add_term(
    n: int,
    sum: int,
    exact: int,
    term: int,
    part: int,
    next: int,
    slack: int,
)
    requires
        0 <= n <= 0x10_0000,
        0 <= sum,
        0 <= exact,
        0 <= term,
        0 <= part,
        0 <= slack,
        gap(sum, exact) * 0x4_0000_0000_0000 <= n * (exact + slack),
        gap(term, part) * 0x10_0000_0000_0000 <= part + slack,
        gap(next, sum + term) * 0x20_0000_0000_0000 <= sum + term,
    ensures
        gap(next, exact + part) * 0x4_0000_0000_0000 <= (n + 1) * (exact + part + slack),
        next >= 0,
        next <= 4 * (exact + part + slack),
{
    let a = n * (exact + slack);
    let b = n * (exact + part + slack);
    assert(a <= b && a <= 0x10_0000 * (exact + slack)) by (nonlinear_arith)
        requires
            a == n * (exact + slack),
            b == n * (exact + part + slack),
            0 <= n <= 0x10_0000,
            part >= 0,
            exact + slack >= 0,
    ;
    assert((n + 1) * (exact + part + slack) == b + (exact + part + slack)) by (nonlinear_arith)
        requires
            b == n * (exact + part + slack),
    ;
    assert(sum <= 2 * exact + slack);
    assert(term <= 2 * part + slack);
}

/// One more sum: both stand for the exact ones up to `n` parts in `2^50`.
pub proof fn lemma_add_sum(n: int, sum: int, exact: int, term: int, part: int, next: int)
    requires
        1 <= n <= 0x10_0000,
        0 <= sum,
        0 <= exact,
        0 <= term,
        0 <= part,
        gap(sum, exact) * 0x4_0000_0000_0000 <= n * exact,
        gap(term, part) * 0x4_0000_0000_0000 <= n * part,
        gap(next, sum + term) * 0x20_0000_0000_0000 <= sum + term,
    ensures
        gap(next, exact + part) * 0x4_0000_0000_0000 <= (n + 1) * (exact + part),
        next >= 0,
        next <= 4 * (exact + part),
{
    let (a, b) = (n * exact, n * part);
    assert(a <= 0x10_0000 * exact && b <= 0x10_0000 * part) by (nonlinear_arith)
        requires
            a == n * exact,
            b == n * part,
            n <= 0x10_0000,
            exact >= 0,
            part >= 0,
    ;
    assert((n + 1) * (exact + part) == a + b + exact + part) by (nonlinear_arith)
        requires
            a == n * exact,
            b == n * part,
    ;
}

/// The sum of the first `n` numbers that are small, added up one after the other,
/// is the exact one up to `n` parts in `2^50`.
pub proof fn law_running_sum(s: Seq<Double>, n: nat)
    requires
        n <= 0x10_0000,
        forall|i: int| 0 <= i < n ==> small(#[trigger] s[i]),
    ensures
        running(s, n).finite(),
        running(s, n).value() >= 0,
        0 <= exact_sum(s, n) <= n * pow2::pow2(2000),
        gap(running(s, n).value(), exact_sum(s, n)) * 0x4_0000_0000_0000 <= n * exact_sum(s, n),
    decreases n,
{
    let top = pow2::pow2(2000) as int;
    if n == 0 {
        assert(0 * pow2::pow2(0) == 0);
        assert(0 * top == 0);
    } else {
        let m = (n - 1) as nat;
        law_running_sum(s, m);
        assert(n * top == m * top + top && m * top <= 0x10_0000 * top) by (nonlinear_arith)
            requires
                n == m + 1,
                m <= 0x10_0000,
                top >= 0,
        ;
        let (x, y) = (running(s, m), s[n - 1]);
        let e = exact_sum(s, m);
        lemma_small_range();
        assert(m * e <= 0x10_0000 * e) by (nonlinear_arith)
            requires
                m <= 0x10_0000,
                e >= 0,
        ;
        law_plus(x, y);
        lemma_add_term(m as int, x.value(), e, y.value(), y.value(), x.plus(y).value(), 0);
    }
}

/// The sum of the first `n` numbers, added up in that order.
pub open spec fn running(s: Seq<Double>, n: nat) -> Double
    decreases n,
{
    if n == 0 {
        Double::zero()
    } else {
        running(s, (n - 1) as nat).plus(s[n - 1])
    }
}

/// One term less: the same of a difference, where `most` bounds what was there
/// and what has been taken away.
pub proof fn lemma_take_term(
    n: int,
    rest: int,
    exact: int,
    most: int,
    term: int,
    part: int,
    next: int,
)
    requires
        0 <= n <= 0x10_0000,
        gap(exact, 0) <= most,
        0 <= term,
        0 <= part,
        gap(rest, exact) * 0x4_0000_0000_0000 <= n * most,
        gap(term, part) * 0x10_0000_0000_0000 <= part,
        gap(next, rest - term) * 0x20_0000_0000_0000 <= gap(rest, term),
    ensures
        gap(next, exact - part) * 0x4_0000_0000_0000 <= (n + 1) * (most + part),
        gap(exact - part, 0) <= most + part,
        gap(next, 0) <= 4 * (most + part),
{
    let a = n * most;
    let b = n * (most + part);
    assert(a <= b && a <= 0x10_0000 * most) by (nonlinear_arith)
        requires
            a == n * most,
            b == n * (most + part),
            0 <= n <= 0x10_0000,
            part >= 0,
            most >= 0,
    ;
    assert((n + 1) * (most + part) == b + (most + part)) by (nonlinear_arith)
        requires
            b == n * (most + part),
    ;
    assert(gap(rest, 0) <= 2 * most);
    assert(term <= 2 * part);
    assert(gap(rest, term) <= 2 * (most + part));
}

/// Finite, not negative, and small enough for sums and products of what a
/// machine has to be in range.
pub open spec fn small(x: Double) -> bool {
    x.finite() && 0 <= x.value() <= pow2::pow2(2000)
}

/// What is within `2^80` times the bound of a small number is in range.
pub proof fn lemma_small_range()
    ensures
        0x1_0000_0000_0000_0000_0000 * pow2::pow2(2000) < pow2::pow2(2097),
{
    pow2::lemma_pow2_consts();
    pow2::lemma_pow2_add(127, 1970);
    pow2::lemma_pow2_add(97, 2000);
    pow2::lemma_pow2_pos(2000);
    pow2::lemma_pow2_add(33, 64);
    pow2::lemma_pow2_mono(20, 33);
    reveal_with_fuel(pow2::pow2, 21);
    assert(pow2::pow2(20) == 0x10_0000);
    let (p, q, r) = (pow2::pow2(33), pow2::pow2(97), pow2::pow2(2000));
    assert(q >= 0x10_0000 * 0x1_0000_0000_0000_0000) by (nonlinear_arith)
        requires
            q == p * 0x1_0000_0000_0000_0000,
            p >= 0x10_0000,
    ;
    assert(q * r > 0x1_0000_0000_0000_0000_0000 * r) by (nonlinear_arith)
        requires
            q >= 0x10_0000 * 0x1_0000_0000_0000_0000,
            r >= 1,
    ;
}

/// The exact sum of the first `n` numbers.
pub open spec fn exact_sum(s: Seq<Double>, n: nat) -> int
    decreases n,
{
    if n == 0 {
        0
    } else {
        exact_sum(s, (n - 1) as nat) + s[n - 1].value()
    }
}

/// A number divided by a count is the exact quotient up to a part in `2^53` of
/// it, or half a unit where that is more.
pub proof fn law_mean(x: Double, n: nat)
    requires
        x.finite(),
        x.value() >= 0,
        0 < n < 0x20_0000_0000_0000,
    ensures
        x.over(Double::of_nat(n)).finite(),
        x.over(Double::of_nat(n)).value() >= 0,
        gap(x.over(Double::of_nat(n)).value() * n, x.value()) * 0x20_0000_0000_0000 <= x.value()
            + 0x10_0000_0000_0000 * n,
{
    let d = Double::of_nat(n);
    let q = x.over(d);
    let u = unit() as int;
    double::lemma_of_nat_exact(n);
    double::lemma_of_nat_bounds(n);
    double::lemma_parts(d);
    double::lemma_parts(x);
    pow2::lemma_pow2_pos(1074);
    assert(q.finite()) by {
        reveal(Double::over);
        double::lemma_round_exact(x);
        let (a, c) = (x.mag(), d.mag());
        assert((a * unit()) * 1 <= a * c) by (nonlinear_arith)
            requires
                c == n * unit(),
                n >= 1,
        ;
        rounding::law_round_monotone(a * unit(), c, a, 1);
    }
    double::lemma_parts(q);
    law_over(x, d);
    let (m, v) = (q.mag() as int, x.mag() as int);
    assert(m * (n * u) == (m * n) * u && 0x10_0000_0000_0000 * (n * u) == (0x10_0000_0000_0000 * n)
        * u) by (nonlinear_arith);
    let (a, b) = (m * n, 0x10_0000_0000_0000 * n);
    assert(gap(a, v) * 0x20_0000_0000_0000 <= v + b) by (nonlinear_arith)
        requires
            gap(a * u, v * u) * 0x20_0000_0000_0000 <= v * u + b * u,
            u >= 1,
    {
        assert(gap(a * u, v * u) == gap(a, v) * u);
    }
    if x.sign() {
        assert(v == 0);
        assert(0 * u == 0);
        reveal(Double::over);
        double::lemma_round_zero(d.mag());
    }
}

} // verus!
