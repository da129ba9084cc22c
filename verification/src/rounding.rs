//! Rounding of a non-negative rational to the nearest binary64 number.
//!
//! A magnitude is measured in units of the smallest positive binary64 number,
//! `2^-1074`, so that every finite binary64 number is an integer. The
//! magnitudes with exponent step `2^k` are `n * 2^k` with `n < 2^53`, and the
//! 63 low bits of such a number, read as an integer, are `k * 2^52 + n`.
use vstd::prelude::*;
use crate::pow2;

verus! {

/// The 63 low bits of infinity.
pub const INF_BITS: u64 = 0x7ff0_0000_0000_0000;

/// `n / d` rounded to the nearest integer, halves to the even one.
pub open spec fn div_half_even(n: nat, d: nat) -> nat {
    let q = n / d;
    let r = n % d;
    if 2 * r < d || (2 * r == d && q % 2 == 0) {
        q
    } else {
        q + 1
    }
}

/// The least `k` such that `q < 2^(53 + k)`: the exponent of the step between
/// neighbouring binary64 numbers at magnitude `q`.
pub open spec fn ulp_exp(q: nat) -> nat
    decreases q,
{
    if q < 0x20_0000_0000_0000 {
        0
    } else {
        1 + ulp_exp(q / 2)
    }
}

/// The 63 low bits of the binary64 number nearest to the magnitude
/// `num / den`, ties to even; infinity where it is out of range.
pub open spec fn round_mag(num: nat, den: nat) -> nat {
    let k = ulp_exp(num / den);
    let b = k * 0x10_0000_0000_0000 + div_half_even(num, den * pow2::pow2(k));
    if b < INF_BITS {
        b
    } else {
        INF_BITS as nat
    }
}

proof fn lemma_ulp_exp(q: nat, k: nat)
    requires
        q < pow2::pow2(53 + k),
        k == 0 || q >= pow2::pow2((52 + k) as nat),
    ensures
        ulp_exp(q) == k,
    decreases k,
{
    pow2::lemma_pow2_consts();
    if k > 0 {
        pow2::lemma_pow2_mono(53, (52 + k) as nat);
        assert(pow2::pow2(53 + k) == 2 * pow2::pow2((52 + k) as nat));
        if k > 1 {
            assert(pow2::pow2((52 + k) as nat) == 2 * pow2::pow2((51 + k) as nat));
        }
        lemma_ulp_exp(q / 2, (k - 1) as nat);
    }
}

/// The step at `num / den`, from an integer `n` of `bl` bits that holds the
/// leading digits of the quotient.
proof fn lemma_ulp_of_quotient(num: nat, den: nat, a: nat, b: nat, n: nat, bl: nat, k: nat)
    requires
        den > 0,
        n == (num * pow2::pow2(a)) / (den * pow2::pow2(b)),
        bl >= 1,
        pow2::pow2((bl - 1) as nat) <= n < pow2::pow2(bl),
        k == (if bl + b - a <= 53 { 0 } else { bl + b - a - 53 }),
    ensures
        ulp_exp(num / den) == k,
{
    let x = num * pow2::pow2(a);
    let y = den * pow2::pow2(b);
    let pa = pow2::pow2(a);
    pow2::lemma_pow2_pos(a);
    pow2::lemma_pow2_pos(b);
    assert(y > 0) by (nonlinear_arith)
        requires
            y == den * pow2::pow2(b),
            den > 0,
            pow2::pow2(b) >= 1,
    ;
    vstd::arithmetic::div_mod::lemma_fundamental_div_mod(x as int, y as int);
    assert(n * y <= x < (n + 1) * y) by (nonlinear_arith)
        requires
            x == y * n + x % y,
            0 <= x % y < y,
    ;
    // num < den * 2^(53 + k)
    let hi = pow2::pow2((53 + k) as nat);
    assert(num < den * hi) by {
        pow2::lemma_pow2_add(bl, b);
        pow2::lemma_pow2_mono(bl + b, (53 + k + a) as nat);
        pow2::lemma_pow2_add((53 + k) as nat, a);
        let pbl = pow2::pow2(bl);
        let pb = pow2::pow2(b);
        assert(x < den * (hi * pa)) by (nonlinear_arith)
            requires
                x < (n + 1) * y,
                n + 1 <= pbl,
                y == den * pb,
                pbl * pb <= hi * pa,
        ;
        assert(num < den * hi) by (nonlinear_arith)
            requires
                num * pa < den * (hi * pa),
                pa >= 1,
        ;
    }
    assert(num / den < hi) by (nonlinear_arith)
        requires
            num < den * hi,
            den > 0,
    ;
    if k > 0 {
        let lo = pow2::pow2((52 + k) as nat);
        pow2::lemma_pow2_add((bl - 1) as nat, b);
        assert((bl - 1) as nat + b == 52 + k + a);
        pow2::lemma_pow2_add((52 + k) as nat, a);
        let pbl = pow2::pow2((bl - 1) as nat);
        let pb = pow2::pow2(b);
        assert(den * (lo * pa) <= x) by (nonlinear_arith)
            requires
                n * y <= x,
                pbl <= n,
                y == den * pb,
                pbl * pb == lo * pa,
        ;
        assert(den * lo <= num) by (nonlinear_arith)
            requires
                den * (lo * pa) <= num * pa,
                pa >= 1,
        ;
        assert(num / den >= lo) by (nonlinear_arith)
            requires
                den * lo <= num,
                den > 0,
        ;
    }
    lemma_ulp_exp(num / den, k);
}

/// A common factor does not change the rounded quotient.
proof fn lemma_half_even_scale(n: nat, d: nat, c: nat)
    requires
        d > 0,
        c > 0,
    ensures
        div_half_even(n * c, d * c) == div_half_even(n, d),
{
    let q = n / d;
    let r = n % d;
    vstd::arithmetic::div_mod::lemma_fundamental_div_mod(n as int, d as int);
    assert(n * c == q * (d * c) + r * c) by (nonlinear_arith)
        requires
            n == d * q + r,
    ;
    assert(0 <= r * c < d * c) by (nonlinear_arith)
        requires
            0 <= r < d,
            c > 0,
    ;
    vstd::arithmetic::div_mod::lemma_fundamental_div_mod_converse(
        (n * c) as int,
        (d * c) as int,
        q as int,
        (r * c) as int,
    );
    assert((2 * (r * c) < d * c) == (2 * r < d)) by (nonlinear_arith)
        requires
            c > 0,
    ;
    assert((2 * (r * c) == d * c) == (2 * r == d)) by (nonlinear_arith)
        requires
            c > 0,
    ;
}

/// Rounding `x / (y * 2h)` from the integer part `n` of `x / y` and whether
/// anything is left over.
proof fn lemma_half_even_refine(x: nat, y: nat, h: nat)
    requires
        y > 0,
        h > 0,
    ensures
        div_half_even(x, y * (2 * h)) == ({
            let n = x / y;
            let q = n / (2 * h);
            let r = n % (2 * h);
            if r < h || (r == h && x % y == 0 && q % 2 == 0) {
                q
            } else {
                q + 1
            }
        }),
{
    let n = x / y;
    let rem = x % y;
    let t = 2 * h;
    let q = n / t;
    let r = n % t;
    vstd::arithmetic::div_mod::lemma_fundamental_div_mod(x as int, y as int);
    vstd::arithmetic::div_mod::lemma_fundamental_div_mod(n as int, t as int);
    assert(x == q * (y * t) + (r * y + rem)) by (nonlinear_arith)
        requires
            x == y * n + rem,
            n == t * q + r,
    ;
    assert(0 <= r * y + rem < y * t) by (nonlinear_arith)
        requires
            0 <= r < t,
            0 <= rem < y,
    ;
    vstd::arithmetic::div_mod::lemma_fundamental_div_mod_converse(
        x as int,
        (y * t) as int,
        q as int,
        (r * y + rem) as int,
    );
    let w = r * y + rem;
    assert(y * t == 2 * (h * y)) by (nonlinear_arith)
        requires
            t == 2 * h,
    ;
    if r < h {
        assert(2 * w < y * t) by (nonlinear_arith)
            requires
                r + 1 <= h,
                rem < y,
                w == r * y + rem,
                y * t == 2 * (h * y),
        ;
    } else if r > h {
        assert(2 * w > y * t) by (nonlinear_arith)
            requires
                r >= h + 1,
                rem >= 0,
                y > 0,
                w == r * y + rem,
                y * t == 2 * (h * y),
        ;
    } else {
        assert(2 * w == y * t + 2 * rem) by (nonlinear_arith)
            requires
                r == h,
                w == r * y + rem,
                y * t == 2 * (h * y),
        ;
    }
}

/// A magnitude that is a whole number of steps, few enough for its step, rounds
/// to itself.
pub proof fn lemma_round_steps(m: nat, k: nat)
    requires
        m < 0x20_0000_0000_0000,
        k > 0 ==> m >= 0x10_0000_0000_0000,
        k <= 2045,
    ensures
        round_mag(m * pow2::pow2(k), 1) == k * 0x10_0000_0000_0000 + m,
{
    let p = pow2::pow2(k);
    let num = m * p;
    pow2::lemma_pow2_consts();
    pow2::lemma_pow2_pos(k);
    pow2::lemma_pow2_add(53, k);
    pow2::lemma_pow2_add(52, k);
    assert(num < 0x20_0000_0000_0000 * p) by (nonlinear_arith)
        requires
            num == m * p,
            m < 0x20_0000_0000_0000,
            p >= 1,
    ;
    assert(k > 0 ==> num >= 0x10_0000_0000_0000 * p) by (nonlinear_arith)
        requires
            num == m * p,
            k > 0 ==> m >= 0x10_0000_0000_0000,
            p >= 1,
    ;
    assert(num / 1 == num);
    lemma_ulp_exp(num, k);
    assert(1 * p == p);
    vstd::arithmetic::div_mod::lemma_fundamental_div_mod_converse(num as int, p as int, m as int, 0);
}

/// A positive magnitude below `2^(53 + k)` rounds to something positive, and to
/// something finite where `k` is small enough.
pub proof fn lemma_round_bounds(num: nat, k: nat)
    requires
        0 < num < pow2::pow2(53 + k),
        k <= 2000,
    ensures
        0 < round_mag(num, 1) < INF_BITS,
{
    let j = lemma_ulp_bounds(num, k);
    let p = pow2::pow2(j);
    pow2::lemma_pow2_pos(j);
    pow2::lemma_pow2_consts();
    pow2::lemma_pow2_add(53, j);
    assert(num / 1 == num);
    assert(1 * p == p);
    assert(num / p < 0x20_0000_0000_0000) by (nonlinear_arith)
        requires
            num < 0x20_0000_0000_0000 * p,
            p > 0,
    ;
    if j == 0 {
        assert(num / 1 == num && num % 1 == 0);
    }
}

proof fn lemma_ulp_bounds(q: nat, k: nat) -> (j: nat)
    requires
        q < pow2::pow2(53 + k),
    ensures
        j == ulp_exp(q),
        j <= k,
        q < pow2::pow2(53 + j),
    decreases k,
{
    pow2::lemma_pow2_consts();
    if q < 0x20_0000_0000_0000 {
        0
    } else {
        assert(k > 0);
        assert(pow2::pow2(53 + k) == 2 * pow2::pow2((52 + k) as nat));
        let i = lemma_ulp_bounds(q / 2, (k - 1) as nat);
        assert(pow2::pow2(53 + (i + 1)) == 2 * pow2::pow2(53 + i));
        i + 1
    }
}

/// A positive whole number of units does not round to zero.
pub proof fn lemma_round_positive(num: nat)
    requires
        num > 0,
    ensures
        round_mag(num, 1) > 0,
{
    assert(num / 1 == num);
    let k = ulp_exp(num);
    if k == 0 {
        assert(pow2::pow2(0) == 1);
        assert(1 * pow2::pow2(0) == 1);
        assert(num % 1 == 0);
    }
}

/// A common factor does not change the rounded magnitude.
pub proof fn lemma_round_scale(num: nat, den: nat, c: nat)
    requires
        den > 0,
        c > 0,
    ensures
        round_mag(num * c, den * c) == round_mag(num, den),
{
    let q = num / den;
    assert(num * c == c * num && den * c == c * den) by (nonlinear_arith);
    vstd::arithmetic::div_mod::lemma_div_multiples_vanish_quotient(c as int, num as int, den as int);
    let k = ulp_exp(q);
    let p = pow2::pow2(k);
    pow2::lemma_pow2_pos(k);
    assert(den * p > 0) by (nonlinear_arith)
        requires
            den > 0,
            p >= 1,
    ;
    lemma_half_even_scale(num, den * p, c);
    assert((den * p) * c == (den * c) * p) by (nonlinear_arith);
}

/// The step exponent is the one that goes with the number of binary digits.
proof fn lemma_ulp_range(q: nat)
    ensures
        q < pow2::pow2(53 + ulp_exp(q)),
        ulp_exp(q) > 0 ==> q >= pow2::pow2(52 + ulp_exp(q)),
    decreases q,
{
    pow2::lemma_pow2_consts();
    if q >= 0x20_0000_0000_0000 {
        let k = ulp_exp(q / 2);
        lemma_ulp_range(q / 2);
        assert(pow2::pow2(53 + (k + 1)) == 2 * pow2::pow2(53 + k));
        if k > 0 {
            assert(pow2::pow2(52 + (k + 1)) == 2 * pow2::pow2(52 + k));
        }
    }
}

proof fn lemma_ulp_mono(q: nat, r: nat)
    requires
        q <= r,
    ensures
        ulp_exp(q) <= ulp_exp(r),
    decreases q,
{
    if q >= 0x20_0000_0000_0000 {
        lemma_ulp_mono(q / 2, r / 2);
    }
}

/// The rounded number of steps at `num / den` lies among those that go with the
/// step, or is the first one past them.
proof fn lemma_steps_range(num: nat, den: nat)
    requires
        den > 0,
    ensures
        ({
            let k = ulp_exp(num / den);
            let d = den * pow2::pow2(k);
            let n = div_half_even(num, d);
            &&& d > 0
            &&& num / d <= n <= num / d + 1
            &&& n <= 0x20_0000_0000_0000
            &&& k > 0 ==> num / d >= 0x10_0000_0000_0000
        }),
{
    let q = num / den;
    let k = ulp_exp(q);
    let p = pow2::pow2(k);
    let d = den * p;
    lemma_ulp_range(q);
    pow2::lemma_pow2_consts();
    pow2::lemma_pow2_pos(k);
    pow2::lemma_pow2_add(53, k);
    pow2::lemma_pow2_add(52, k);
    assert(d > 0) by (nonlinear_arith)
        requires
            d == den * p,
            den > 0,
            p >= 1,
    ;
    vstd::arithmetic::div_mod::lemma_fundamental_div_mod(num as int, den as int);
    let r = num % den;
    assert(num < 0x20_0000_0000_0000 * d) by (nonlinear_arith)
        requires
            num == den * q + r,
            r < den,
            q + 1 <= 0x20_0000_0000_0000 * p,
            d == den * p,
    ;
    assert(num / d < 0x20_0000_0000_0000) by (nonlinear_arith)
        requires
            num < 0x20_0000_0000_0000 * d,
            d > 0,
    ;
    if k > 0 {
        assert(num >= 0x10_0000_0000_0000 * d) by (nonlinear_arith)
            requires
                num == den * q + r,
                r >= 0,
                q >= 0x10_0000_0000_0000 * p,
                d == den * p,
        ;
        assert(num / d >= 0x10_0000_0000_0000) by (nonlinear_arith)
            requires
                num >= 0x10_0000_0000_0000 * d,
                d > 0,
        ;
    }
}

proof fn lemma_half_even_mono(m: nat, n: nat, d: nat)
    requires
        m <= n,
        d > 0,
    ensures
        div_half_even(m, d) <= div_half_even(n, d),
{
    vstd::arithmetic::div_mod::lemma_fundamental_div_mod(m as int, d as int);
    vstd::arithmetic::div_mod::lemma_fundamental_div_mod(n as int, d as int);
    vstd::arithmetic::div_mod::lemma_div_is_ordered(m as int, n as int, d as int);
    if m / d == n / d {
        assert(m % d <= n % d);
    }
}

/// A higher magnitude does not round to a lower number.
pub proof fn law_round_monotone(num1: nat, den1: nat, num2: nat, den2: nat)
    requires
        den1 > 0,
        den2 > 0,
        num1 * den2 <= num2 * den1,
    ensures
        round_mag(num1, den1) <= round_mag(num2, den2),
{
    let m = num1 * den2;
    let n = num2 * den1;
    let den = den1 * den2;
    lemma_round_scale(num1, den1, den2);
    lemma_round_scale(num2, den2, den1);
    assert(den2 * den1 == den) by (nonlinear_arith)
        requires
            den == den1 * den2,
    ;
    assert(den > 0) by (nonlinear_arith)
        requires
            den == den1 * den2,
            den1 > 0,
            den2 > 0,
    ;
    vstd::arithmetic::div_mod::lemma_div_is_ordered(m as int, n as int, den as int);
    lemma_ulp_mono(m / den, n / den);
    lemma_steps_range(m, den);
    lemma_steps_range(n, den);
    let j = ulp_exp(m / den);
    let k = ulp_exp(n / den);
    if j == k {
        lemma_half_even_mono(m, n, den * pow2::pow2(k));
    }
}

/// The magnitude of the number with these 63 low bits, where they are finite.
pub open spec fn mag_of(low: nat) -> nat {
    let k = if low < 0x10_0000_0000_0000 {
        0
    } else {
        (low / 0x10_0000_0000_0000 - 1) as nat
    };
    ((low - k * 0x10_0000_0000_0000) as nat) * pow2::pow2(k)
}

/// How far the magnitude of the number with these low bits is from `num / den`,
/// in units of `1 / den`.
pub open spec fn distance(low: nat, num: nat, den: nat) -> nat {
    let m = mag_of(low) * den;
    if m >= num {
        (m - num) as nat
    } else {
        (num - m) as nat
    }
}

/// The magnitude that rounding chooses is its number of steps, and no multiple
/// of the step is nearer.
proof fn lemma_chosen(num: nat, den: nat)
    requires
        den > 0,
    ensures
        ({
            let k = ulp_exp(num / den);
            let d = den * pow2::pow2(k);
            let n = div_half_even(num, d);
            let low = k * 0x10_0000_0000_0000 + n;
            &&& mag_of(low) * den == n * d
            &&& distance(low, num, den) <= num % d
            &&& distance(low, num, den) <= d - num % d
        }),
{
    let k = ulp_exp(num / den);
    let p = pow2::pow2(k);
    let d = den * p;
    let n = div_half_even(num, d);
    let low = k * 0x10_0000_0000_0000 + n;
    lemma_steps_range(num, den);
    vstd::arithmetic::div_mod::lemma_fundamental_div_mod(num as int, d as int);
    if n == 0x20_0000_0000_0000 {
        assert(low / 0x10_0000_0000_0000 == k + 2);
        assert(pow2::pow2(k + 1) == 2 * p);
        assert(mag_of(low) == 0x10_0000_0000_0000 * (2 * p));
        assert(0x10_0000_0000_0000 * (2 * p) == n * p);
    } else if n >= 0x10_0000_0000_0000 {
        assert(low / 0x10_0000_0000_0000 == k + 1);
    }
    assert(mag_of(low) == n * p);
    assert((n * p) * den == n * d) by (nonlinear_arith)
        requires
            d == den * p,
    ;
    let q = num / d;
    let r = num % d;
    assert(num == q * d + r) by (nonlinear_arith)
        requires
            num == d * q + r,
    ;
    if n == q {
    } else {
        assert((q + 1) * d == q * d + d) by (nonlinear_arith);
    }
}

/// No binary64 number is nearer to a magnitude than the one that it rounds to.
pub proof fn law_round_nearest(num: nat, den: nat, other: nat)
    requires
        den > 0,
        round_mag(num, den) < INF_BITS,
        other < INF_BITS,
    ensures
        distance(round_mag(num, den), num, den) <= distance(other, num, den),
{
    let k = ulp_exp(num / den);
    let p = pow2::pow2(k);
    let d = den * p;
    let r = num % d;
    let q = num / d;
    lemma_steps_range(num, den);
    lemma_chosen(num, den);
    vstd::arithmetic::div_mod::lemma_fundamental_div_mod(num as int, d as int);
    let j = if other < 0x10_0000_0000_0000 {
        0
    } else {
        (other / 0x10_0000_0000_0000 - 1) as nat
    };
    let m = (other - j * 0x10_0000_0000_0000) as nat;
    let pj = pow2::pow2(j);
    pow2::lemma_pow2_pos(j);
    assert(m < 0x20_0000_0000_0000);
    assert(mag_of(other) == m * pj);
    let far = mag_of(other) * den;
    if j >= k {
        let i = (j - k) as nat;
        pow2::lemma_pow2_add(i, k);
        let pi = pow2::pow2(i);
        let t = m * pi;
        assert(far == t * d) by (nonlinear_arith)
            requires
                far == (m * pj) * den,
                pj == pi * p,
                t == m * pi,
                d == den * p,
        ;
        if t <= q {
            assert(t * d <= q * d) by (nonlinear_arith)
                requires
                    t <= q,
                    d > 0,
            ;
            assert(q * d == d * q) by (nonlinear_arith);
        } else {
            assert(t * d >= q * d + d) by (nonlinear_arith)
                requires
                    t >= q + 1,
                    d > 0,
            ;
            assert(q * d == d * q) by (nonlinear_arith);
        }
    } else {
        pow2::lemma_pow2_mono(j + 1, k);
        assert(far <= d * q) by (nonlinear_arith)
            requires
                far == (m * pj) * den,
                m < 0x20_0000_0000_0000,
                2 * pj <= p,
                q >= 0x10_0000_0000_0000,
                d == den * p,
                den > 0,
        ;
    }
}

/// A magnitude between two neighbouring numbers rounds to the lower one below the
/// middle, to the higher one above it, and in the middle to the one whose bits are
/// even. The number above the highest finite one is infinity.
pub proof fn law_round_between(num: nat, den: nat, low: nat)
    requires
        den > 0,
        low < INF_BITS,
        mag_of(low) * den <= num < mag_of(low + 1) * den,
    ensures
        ({
            let middle = (mag_of(low) + mag_of(low + 1)) * den;
            &&& 2 * num < middle ==> round_mag(num, den) == low
            &&& 2 * num > middle ==> round_mag(num, den) == low + 1
            &&& 2 * num == middle ==> round_mag(num, den) == (if low % 2 == 0 {
                low
            } else {
                low + 1
            })
        }),
{
    let k = if low < 0x10_0000_0000_0000 {
        0
    } else {
        (low / 0x10_0000_0000_0000 - 1) as nat
    };
    let m = (low - k * 0x10_0000_0000_0000) as nat;
    let p = pow2::pow2(k);
    let d = den * p;
    pow2::lemma_pow2_pos(k);
    pow2::lemma_pow2_consts();
    pow2::lemma_pow2_add(53, k);
    pow2::lemma_pow2_add(52, k);
    assert(m < 0x20_0000_0000_0000);
    assert(mag_of(low) == m * p);
    if m == 0x1f_ffff_ffff_ffff {
        assert((low + 1) / 0x10_0000_0000_0000 == k + 2);
        assert(pow2::pow2(k + 1) == 2 * p);
        assert(mag_of(low + 1) == 0x10_0000_0000_0000 * (2 * p));
        assert((m + 1) * p == 0x10_0000_0000_0000 * (2 * p)) by (nonlinear_arith)
            requires
                m == 0x1f_ffff_ffff_ffff,
        ;
    } else {
        if low + 1 >= 0x10_0000_0000_0000 {
            assert((low + 1) / 0x10_0000_0000_0000 == k + 1);
        }
        let n = (low + 1 - k * 0x10_0000_0000_0000) as nat;
        assert(mag_of(low + 1) == n * p);
        assert(n == m + 1);
        assert(n * p == (m + 1) * p);
    }
    assert(mag_of(low + 1) == (m + 1) * p);
    let q = num / den;
    assert(m * p <= q < (m + 1) * p) by (nonlinear_arith)
        requires
            q == num / den,
            den > 0,
            (m * p) * den <= num < ((m + 1) * p) * den,
    ;
    assert((m + 1) * p <= 0x20_0000_0000_0000 * p) by (nonlinear_arith)
        requires
            m + 1 <= 0x20_0000_0000_0000,
            p >= 1,
    ;
    if k > 0 {
        assert(m * p >= 0x10_0000_0000_0000 * p) by (nonlinear_arith)
            requires
                m >= 0x10_0000_0000_0000,
                p >= 1,
        ;
    }
    lemma_ulp_exp(q, k);
    assert((m * p) * den == m * d && ((m + 1) * p) * den == m * d + d && (m * p + (m + 1) * p) * den
        == 2 * (m * d) + d && d > 0) by (nonlinear_arith)
        requires
            d == den * p,
            den > 0,
            p >= 1,
    ;
    let r = num - m * d;
    vstd::arithmetic::div_mod::lemma_fundamental_div_mod_converse(
        num as int,
        d as int,
        m as int,
        r,
    );
}

/// Fewer units than `2^53` round to themselves.
pub proof fn lemma_round_steps_from_zero(m: nat)
    requires
        m < 0x20_0000_0000_0000,
    ensures
        round_mag(m, 1) == m,
        mag_of(m) == m,
{
    lemma_round_steps(m, 0);
    assert(pow2::pow2(0) == 1);
    assert(m * 1 == m);
    if m >= 0x10_0000_0000_0000 {
        assert(m / 0x10_0000_0000_0000 == 1);
    }
}

/// Half of fewer units than `2^53` rounds to one of its neighbours.
pub proof fn lemma_round_halves(m: nat)
    requires
        m < 0x20_0000_0000_0000,
    ensures
        round_mag(m, 2) == m / 2 || (m % 2 == 1 && round_mag(m, 2) == m / 2 + 1),
        mag_of(round_mag(m, 2)) == round_mag(m, 2),
{
    assert(pow2::pow2(0) == 1);
    assert(ulp_exp(m / 2) == 0);
    assert(2 * pow2::pow2(0) == 2);
    lemma_round_steps_from_zero(round_mag(m, 2));
}

/// How far rounding moves a magnitude: by no more than a part in `2^53` of it,
/// or by half a unit where that is more; a whole number of units never by more
/// than the part in `2^53`.
pub proof fn lemma_round_error(num: nat, den: nat)
    requires
        den > 0,
        round_mag(num, den) < INF_BITS,
    ensures
        distance(round_mag(num, den), num, den) * 0x20_0000_0000_0000 <= num + 0x10_0000_0000_0000
            * den,
        den == 1 ==> distance(round_mag(num, den), num, den) * 0x20_0000_0000_0000 <= num,
{
    let k = ulp_exp(num / den);
    let p = pow2::pow2(k);
    let d = den * p;
    let off = distance(round_mag(num, den), num, den);
    lemma_steps_range(num, den);
    lemma_chosen(num, den);
    assert(2 * off <= d);
    if k > 0 {
        vstd::arithmetic::div_mod::lemma_fundamental_div_mod(num as int, d as int);
        let q = num / d;
        assert(num >= 0x10_0000_0000_0000 * d) by (nonlinear_arith)
            requires
                num == d * q + num % d,
                num % d >= 0,
                q >= 0x10_0000_0000_0000,
                d > 0,
        ;
    } else {
        assert(p == 1);
        assert(d == den * 1);
    }
}

/// A magnitude below `2^2097` units is in range.
pub proof fn lemma_round_finite(num: nat, den: nat)
    requires
        den > 0,
        num < den * pow2::pow2(2097),
    ensures
        round_mag(num, den) < INF_BITS,
{
    let big = pow2::pow2(2097);
    assert(num / den < big) by (nonlinear_arith)
        requires
            num < den * big,
            den > 0,
    ;
    let j = lemma_ulp_bounds(num / den, 2044);
    lemma_steps_range(num, den);
}

/// Two to the power `e`.
pub(crate) fn power(e: u32) -> (r: u128)
    requires
        e <= 127,
    ensures
        r == pow2::pow2(e as nat),
{
    let mut r: u128 = 1;
    let mut i: u32 = 0;
    while i < e
        invariant
            i <= e <= 127,
            r == pow2::pow2(i as nat),
        decreases e - i,
    {
        proof {
            pow2::lemma_pow2_mono((i + 1) as nat, 127);
            pow2::lemma_pow2_consts();
        }
        r = r * 2;
        i = i + 1;
    }
    r
}

/// The number of binary digits of `n`.
fn bit_length(n: u128) -> (bl: u32)
    requires
        0 < n < 0x8000_0000_0000_0000_0000_0000_0000_0000,
    ensures
        1 <= bl <= 127,
        pow2::pow2((bl - 1) as nat) <= n < pow2::pow2(bl as nat),
{
    let mut m: u128 = n;
    let mut i: u32 = 0;
    proof {
        assert(pow2::pow2(0) == 1);
        assert(m * 1 <= n < (m + 1) * 1);
    }
    while m > 1
        invariant
            0 < n < 0x8000_0000_0000_0000_0000_0000_0000_0000,
            1 <= m,
            i <= 126,
            m * pow2::pow2(i as nat) <= n < (m + 1) * pow2::pow2(i as nat),
        decreases m,
    {
        proof {
            let p = pow2::pow2(i as nat);
            pow2::lemma_pow2_consts();
            assert(pow2::pow2((i + 1) as nat) == 2 * p);
            if i == 126 {
                assert(pow2::pow2(127) == 2 * p);
                assert(2 * p <= m * p) by (nonlinear_arith)
                    requires
                        m >= 2,
                ;
            }
            assert((m / 2) * (2 * p) <= n) by (nonlinear_arith)
                requires
                    m * p <= n,
            ;
            assert(n < (m / 2 + 1) * (2 * p)) by (nonlinear_arith)
                requires
                    n < (m + 1) * p,
            ;
        }
        m = m / 2;
        i = i + 1;
    }
    proof {
        assert(pow2::pow2((i + 1) as nat) == 2 * pow2::pow2(i as nat));
        assert(1 * pow2::pow2(i as nat) == pow2::pow2(i as nat));
    }
    i + 1
}

/// Rounds a magnitude that is given by its leading digits: `n * 2^e`, and a
/// little more, but less than `2^e`, where `sticky` is set. `num`, `den`, `a`
/// and `b` name the exact magnitude `num / den` and how `n` was cut from it.
pub(crate) fn pack(
    n: u128,
    e: i32,
    sticky: bool,
    Ghost(num): Ghost<nat>,
    Ghost(den): Ghost<nat>,
    Ghost(a): Ghost<nat>,
    Ghost(b): Ghost<nat>,
) -> (r: u64)
    requires
        0 < n < 0x8000_0000_0000_0000_0000_0000_0000_0000,
        -5000 <= e <= 5000,
        e == b - a,
        den > 0,
        n == (num * pow2::pow2(a)) / (den * pow2::pow2(b)),
        sticky == ((num * pow2::pow2(a)) % (den * pow2::pow2(b)) != 0),
        sticky ==> n >= 0x40_0000_0000_0000,
    ensures
        r == round_mag(num, den),
        r <= INF_BITS,
{
    let bl: i32 = bit_length(n) as i32;
    let k: i32 = if bl + e <= 53 {
        0
    } else {
        bl + e - 53
    };
    let t: i32 = k - e;
    let ghost x = num * pow2::pow2(a);
    let ghost y = den * pow2::pow2(b);
    proof {
        pow2::lemma_pow2_consts();
        pow2::lemma_pow2_pos(a);
        pow2::lemma_pow2_pos(b);
        pow2::lemma_pow2_pos(k as nat);
        assert(y > 0) by (nonlinear_arith)
            requires
                y == den * pow2::pow2(b),
                den > 0,
                pow2::pow2(b) >= 1,
        ;
        assert(den * pow2::pow2(k as nat) > 0) by (nonlinear_arith)
            requires
                den > 0,
                pow2::pow2(k as nat) >= 1,
        ;
        lemma_ulp_of_quotient(num, den, a, b, n as nat, bl as nat, k as nat);
        if sticky && bl <= 54 {
            pow2::lemma_pow2_mono(bl as nat, 54);
        }
        if t >= 0 {
            lemma_half_even_scale(num, den * pow2::pow2(k as nat), pow2::pow2(a));
            pow2::lemma_pow2_add(k as nat, a);
            pow2::lemma_pow2_add(b, t as nat);
            assert(k as nat + a == b + t as nat);
            let pk = pow2::pow2(k as nat);
            let pa = pow2::pow2(a);
            let pb = pow2::pow2(b);
            let pt = pow2::pow2(t as nat);
            assert(den * pk * pa == y * pt) by (nonlinear_arith)
                requires
                    pk * pa == pb * pt,
                    y == den * pb,
            ;
        }
    }
    let m: u128 = if t > 127 {
        proof {
            let h = pow2::pow2((t - 1) as nat);
            pow2::lemma_pow2_mono(127, (t - 1) as nat);
            lemma_half_even_refine(x, y, h);
            assert((n as nat) / (2 * h) == 0 && (n as nat) % (2 * h) == n) by (nonlinear_arith)
                requires
                    n < h,
            ;
        }
        0
    } else if t > 0 {
        let p: u128 = power(t as u32);
        proof {
            pow2::lemma_pow2_pos(t as nat);
        }
        let q: u128 = n / p;
        let r: u128 = n % p;
        let h: u128 = p / 2;
        proof {
            lemma_half_even_refine(x, y, pow2::pow2((t - 1) as nat));
            assert(p == 2 * pow2::pow2((t - 1) as nat));
            // q < 2^53
            pow2::lemma_pow2_mono(bl as nat, (53 + t) as nat);
            pow2::lemma_pow2_add(53, t as nat);
            let np = p as nat;
            let nn = n as nat;
            assert(nn / np < 0x20_0000_0000_0000) by (nonlinear_arith)
                requires
                    nn < 0x20_0000_0000_0000 * np,
                    np > 0,
            ;
        }
        if r < h || (r == h && !sticky && q % 2 == 0) {
            q
        } else {
            q + 1
        }
    } else if t == 0 {
        proof {
            assert(pow2::pow2(0) == 1);
            assert(y * 1 == y) by (nonlinear_arith);
            pow2::lemma_pow2_mono(bl as nat, 53);
        }
        n
    } else {
        let s: i32 = -t;
        let p: u128 = power(s as u32);
        proof {
            let pk = pow2::pow2(k as nat);
            let pa = pow2::pow2(a);
            let pb = pow2::pow2(b);
            let ps = p as nat;
            let nn = n as nat;
            // No digit is lost: num == (n * 2^s) * (den * 2^k).
            pow2::lemma_pow2_add(a, k as nat);
            pow2::lemma_pow2_add(a + k as nat, s as nat);
            assert(b == a + k as nat + s as nat);
            vstd::arithmetic::div_mod::lemma_fundamental_div_mod(x as int, y as int);
            assert(num == (nn * ps) * (den * pk)) by (nonlinear_arith)
                requires
                    num * pa == y * nn,
                    y == den * pb,
                    pb == pa * pk * ps,
                    pa >= 1,
            ;
            vstd::arithmetic::div_mod::lemma_fundamental_div_mod_converse(
                num as int,
                (den * pk) as int,
                (nn * ps) as int,
                0,
            );
            // n * 2^s < 2^53
            pow2::lemma_pow2_add(bl as nat, s as nat);
            pow2::lemma_pow2_mono((bl + s) as nat, 53);
            let pbl = pow2::pow2(bl as nat);
            pow2::lemma_pow2_pos(s as nat);
            assert(nn * ps < pbl * ps) by (nonlinear_arith)
                requires
                    nn < pbl,
                    ps >= 1,
            ;
        }
        n * p
    };
    assert(m == div_half_even(num, den * pow2::pow2(k as nat)));
    assert(m <= 0x20_0000_0000_0000);
    if k > 2046 {
        return INF_BITS;
    }
    let bits: u64 = (k as u64) * 0x10_0000_0000_0000 + m as u64;
    if bits < INF_BITS {
        bits
    } else {
        INF_BITS
    }
}

} // verus!
