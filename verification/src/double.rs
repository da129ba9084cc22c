//! Binary64 numbers as bit patterns, with the arithmetic and the order that
//! IEEE 754 gives them: every operation returns the exact result rounded to
//! the nearest binary64 number, ties to even.
use vstd::prelude::*;
use crate::pow2;
use crate::rounding;
use crate::rounding::INF_BITS;

verus! {

/// The bit that holds the sign.
pub const SIGN_BIT: u64 = 0x8000_0000_0000_0000;

/// The bits of the not-a-number that operations return.
pub const NAN_BITS: u64 = 0x7ff8_0000_0000_0000;

/// A binary64 number, held as its bits.
#[derive(Clone, Copy, Debug)]
pub struct Double {
    pub bits: u64,
}

impl Double {
    /// Whether the sign bit is set.
    pub open spec fn sign(self) -> bool {
        self.bits >= SIGN_BIT
    }

    /// The bits without the sign, as an integer: it grows with the magnitude.
    pub open spec fn low(self) -> nat {
        (self.bits % SIGN_BIT) as nat
    }

    /// Whether this is not a number.
    pub open spec fn nan(self) -> bool {
        self.low() > INF_BITS
    }

    /// Whether this is one of the two infinities.
    pub open spec fn infinite(self) -> bool {
        self.low() == INF_BITS
    }

    /// Whether this is a finite number.
    pub open spec fn finite(self) -> bool {
        self.low() < INF_BITS
    }

    /// The exponent of the distance to the next number, in units of `2^-1074`.
    pub open spec fn step(self) -> nat {
        if self.low() < 0x10_0000_0000_0000 {
            0
        } else {
            (self.low() / 0x10_0000_0000_0000 - 1) as nat
        }
    }

    /// The significand: the magnitude is this many steps.
    pub open spec fn mantissa(self) -> nat {
        (self.low() - self.step() * 0x10_0000_0000_0000) as nat
    }

    /// The magnitude of a finite number, in units of `2^-1074`.
    pub open spec fn mag(self) -> nat {
        self.mantissa() * pow2::pow2(self.step())
    }

    /// The value of a finite number, in units of `2^-1074`.
    pub open spec fn value(self) -> int {
        if self.sign() {
            -(self.mag() as int)
        } else {
            self.mag() as int
        }
    }

    /// The number with the given sign and low bits.
    pub open spec fn make(sign: bool, low: nat) -> Double {
        Double { bits: (if sign { SIGN_BIT + low } else { low as int }) as u64 }
    }

    /// Positive zero.
    pub open spec fn zero() -> Double {
        Double { bits: 0 }
    }

    /// Not a number.
    pub open spec fn not_a_number() -> Double {
        Double { bits: NAN_BITS }
    }

    /// The number nearest to `num / den` units of `2^-1074`.
    pub open spec fn nearest(sign: bool, num: nat, den: nat) -> Double {
        Double::make(sign, rounding::round_mag(num, den))
    }

    /// The number nearest to the integer `n`.
    #[verifier::opaque]
    pub open spec fn of_nat(n: nat) -> Double {
        Double::nearest(false, n * pow2::pow2(1074), 1)
    }

    /// The negated number.
    pub open spec fn negated(self) -> Double {
        Double::make(!self.sign(), self.low())
    }

    /// The magnitude, as a number.
    pub open spec fn magnitude(self) -> Double {
        Double::make(false, self.low())
    }

    /// The sum.
    #[verifier::opaque]
    pub open spec fn plus(self, other: Double) -> Double {
        if self.nan() || other.nan() {
            Double::not_a_number()
        } else if self.infinite() {
            if other.infinite() && self.sign() != other.sign() {
                Double::not_a_number()
            } else {
                self
            }
        } else if other.infinite() {
            other
        } else {
            let s = self.value() + other.value();
            if s == 0 {
                Double::make(self.sign() && other.sign(), 0)
            } else if s < 0 {
                Double::nearest(true, (-s) as nat, 1)
            } else {
                Double::nearest(false, s as nat, 1)
            }
        }
    }

    /// The difference.
    pub open spec fn minus(self, other: Double) -> Double {
        self.plus(other.negated())
    }

    /// The product.
    #[verifier::opaque]
    pub open spec fn times(self, other: Double) -> Double {
        let sign = self.sign() != other.sign();
        if self.nan() || other.nan() {
            Double::not_a_number()
        } else if self.infinite() || other.infinite() {
            if self.low() == 0 || other.low() == 0 {
                Double::not_a_number()
            } else {
                Double::make(sign, INF_BITS as nat)
            }
        } else {
            Double::nearest(sign, self.mag() * other.mag(), pow2::pow2(1074))
        }
    }

    /// The quotient.
    #[verifier::opaque]
    pub open spec fn over(self, other: Double) -> Double {
        let sign = self.sign() != other.sign();
        if self.nan() || other.nan() {
            Double::not_a_number()
        } else if self.infinite() {
            if other.infinite() {
                Double::not_a_number()
            } else {
                Double::make(sign, INF_BITS as nat)
            }
        } else if other.infinite() {
            Double::make(sign, 0)
        } else if other.low() == 0 {
            if self.low() == 0 {
                Double::not_a_number()
            } else {
                Double::make(sign, INF_BITS as nat)
            }
        } else {
            Double::nearest(sign, self.mag() * pow2::pow2(1074), other.mag())
        }
    }

    /// An integer that orders the numbers as their values do; both zeros have
    /// the same one.
    pub open spec fn ord(self) -> int {
        if self.sign() {
            -(self.low() as int)
        } else {
            self.low() as int
        }
    }

    /// `self < other`; false where either is not a number.
    pub open spec fn below(self, other: Double) -> bool {
        !self.nan() && !other.nan() && self.ord() < other.ord()
    }

    /// `self <= other`; false where either is not a number.
    pub open spec fn at_most(self, other: Double) -> bool {
        !self.nan() && !other.nan() && self.ord() <= other.ord()
    }

    /// `self == other`; false where either is not a number.
    pub open spec fn same(self, other: Double) -> bool {
        !self.nan() && !other.nan() && self.ord() == other.ord()
    }

    /// The lesser of the two; the other one where one is not a number.
    pub open spec fn lesser(self, other: Double) -> Double {
        if other.nan() || self.at_most(other) {
            self
        } else {
            other
        }
    }

    /// The number, moved into the range from `lo` to `hi`.
    pub open spec fn clamped(self, lo: Double, hi: Double) -> Double {
        if self.below(lo) {
            lo
        } else if hi.below(self) {
            hi
        } else {
            self
        }
    }

    /// The integer part, moved into the range of `u32`; zero for not-a-number.
    pub open spec fn truncated(self) -> nat {
        if self.nan() || self.sign() {
            0
        } else if self.infinite() || self.mag() / pow2::pow2(1074) > u32::MAX {
            u32::MAX as nat
        } else {
            self.mag() / pow2::pow2(1074)
        }
    }

    /// The place of the number in the total order of map keys: not-a-number
    /// comes last and is equal to itself, and the zeros are equal.
    pub open spec fn rank(self) -> int {
        if self.nan() {
            SIGN_BIT as int
        } else {
            self.ord()
        }
    }
}

/// The parts that a number is made of.
pub proof fn lemma_parts(x: Double)
    ensures
        x.low() == x.step() * 0x10_0000_0000_0000 + x.mantissa(),
        x.mantissa() < 0x20_0000_0000_0000,
        x.step() > 0 ==> x.mantissa() >= 0x10_0000_0000_0000,
        x.finite() ==> x.step() <= 2045,
        x.low() < SIGN_BIT,
        x.low() > 0 ==> x.mantissa() > 0,
        x.low() == 0 ==> x.mantissa() == 0,
        x.mag() == 0 <==> x.low() == 0,
{
    pow2::lemma_pow2_pos(x.step());
    let m = x.mantissa();
    let p = pow2::pow2(x.step());
    assert(m * p == 0 <==> m == 0) by (nonlinear_arith)
        requires
            p >= 1,
            m >= 0,
    ;
}

proof fn lemma_make(sign: bool, low: nat)
    requires
        low < SIGN_BIT,
    ensures
        Double::make(sign, low).sign() == sign,
        Double::make(sign, low).low() == low,
{
}

/// The exact magnitude `n * 2^e`, cut at `2^e`, is `n` with nothing left over.
proof fn lemma_exact_cut(num: nat, n: nat, e: nat)
    requires
        num == n * pow2::pow2(e),
    ensures
        (num * pow2::pow2(0)) / (1 * pow2::pow2(e)) == n,
        (num * pow2::pow2(0)) % (1 * pow2::pow2(e)) == 0,
{
    pow2::lemma_pow2_pos(e);
    lemma_cut(num, n, 0, e);
}

/// The magnitude `n * 2^e + r`, cut at `2^e`, is `n` with `r` left over.
proof fn lemma_cut(num: nat, n: nat, r: nat, e: nat)
    requires
        num == n * pow2::pow2(e) + r,
        r < pow2::pow2(e),
    ensures
        (num * pow2::pow2(0)) / (1 * pow2::pow2(e)) == n,
        (num * pow2::pow2(0)) % (1 * pow2::pow2(e)) == r,
{
    assert(pow2::pow2(0) == 1);
    assert(num * 1 == num);
    assert(1 * pow2::pow2(e) == pow2::pow2(e));
    vstd::arithmetic::div_mod::lemma_fundamental_div_mod_converse(
        num as int,
        pow2::pow2(e) as int,
        n as int,
        r as int,
    );
}

impl Double {
    /// The number with the given bits.
    pub fn from_bits(bits: u64) -> (r: Double)
        ensures
            r.bits == bits,
    {
        Double { bits }
    }

    /// The bits of the number.
    pub fn to_bits(self) -> (r: u64)
        ensures
            r == self.bits,
    {
        self.bits
    }

    fn low_bits(self) -> (r: u64)
        ensures
            r == self.low(),
    {
        self.bits % SIGN_BIT
    }

    fn has_sign(self) -> (r: bool)
        ensures
            r == self.sign(),
    {
        self.bits >= SIGN_BIT
    }

    fn build(sign: bool, low: u64) -> (r: Double)
        requires
            low < SIGN_BIT,
        ensures
            r == Double::make(sign, low as nat),
    {
        if sign {
            Double { bits: SIGN_BIT + low }
        } else {
            Double { bits: low }
        }
    }

    fn step_bits(self) -> (r: u64)
        ensures
            r == self.step(),
            r <= 2047,
    {
        let low: u64 = self.low_bits();
        if low < 0x10_0000_0000_0000 {
            0
        } else {
            low / 0x10_0000_0000_0000 - 1
        }
    }

    fn mantissa_bits(self) -> (r: u64)
        ensures
            r == self.mantissa(),
            r < 0x20_0000_0000_0000,
    {
        let step: u64 = self.step_bits();
        proof {
            lemma_parts(self);
        }
        self.low_bits() - step * 0x10_0000_0000_0000
    }

    /// Whether this is not a number.
    pub fn is_nan(self) -> (r: bool)
        ensures
            r == self.nan(),
    {
        self.low_bits() > INF_BITS
    }

    /// The number with the opposite sign.
    pub fn neg(self) -> (r: Double)
        ensures
            r == self.negated(),
    {
        Double::build(!self.has_sign(), self.low_bits())
    }

    /// The magnitude of the number.
    pub fn abs(self) -> (r: Double)
        ensures
            r == self.magnitude(),
    {
        Double::build(false, self.low_bits())
    }

    /// The number nearest to an integer.
    pub fn from_u64(n: u64) -> (r: Double)
        ensures
            r == Double::of_nat(n as nat),
    {
        proof {
            reveal(Double::of_nat);
        }
        if n == 0 {
            proof {
                lemma_round_zero(1);
                assert(0 * pow2::pow2(1074) == 0);
            }
            return Double { bits: 0 };
        }
        let ghost num = n as nat * pow2::pow2(1074);
        proof {
            lemma_exact_cut(num, n as nat, 1074);
        }
        let low: u64 = rounding::pack(n as u128, 1074, false, Ghost(num), Ghost(1), Ghost(0), Ghost(1074));
        Double::build(false, low)
    }
}

/// Nothing rounds to zero.
pub proof fn lemma_round_zero(den: nat)
    requires
        den > 0,
    ensures
        rounding::round_mag(0, den) == 0,
{
    assert(0nat / den == 0) by (nonlinear_arith)
        requires
            den > 0,
    ;
    assert(rounding::ulp_exp(0) == 0);
    assert(pow2::pow2(0) == 1);
    assert(den * 1 == den);
    assert(0nat % den == 0) by (nonlinear_arith)
        requires
            den > 0,
    ;
}

/// A binary64 magnitude rounds to itself.
pub proof fn lemma_round_exact(x: Double)
    requires
        x.finite(),
    ensures
        rounding::round_mag(x.mag(), 1) == x.low(),
{
    lemma_parts(x);
    rounding::lemma_round_steps(x.mantissa(), x.step());
}

impl Double {
    /// The sum of two numbers, the first of which has the larger step.
    fn add_ordered(self, other: Double) -> (r: Double)
        requires
            self.finite(),
            other.finite(),
            self.step() >= other.step(),
        ensures
            r == self.plus(other),
    {
        proof {
            reveal(Double::plus);
        }
        let ea: u64 = self.step_bits();
        let eb: u64 = other.step_bits();
        let ma: u128 = self.mantissa_bits() as u128;
        let mb: u128 = other.mantissa_bits() as u128;
        let sa: bool = self.has_sign();
        let sb: bool = other.has_sign();
        proof {
            lemma_parts(self);
            lemma_parts(other);
            pow2::lemma_pow2_consts();
            pow2::lemma_pow2_pos(ea as nat);
            pow2::lemma_pow2_pos(eb as nat);
        }
        let d: u64 = ea - eb;
        let ghost pa = pow2::pow2(ea as nat);
        let ghost pb = pow2::pow2(eb as nat);
        if d <= 64 {
            let p: u128 = rounding::power(d as u32);
            proof {
                pow2::lemma_pow2_mono(d as nat, 64);
                assert(ma * p <= 0x1f_ffff_ffff_ffff * 0x1_0000_0000_0000_0000) by (nonlinear_arith)
                    requires
                        ma <= 0x1f_ffff_ffff_ffff,
                        p <= 0x1_0000_0000_0000_0000,
                ;
            }
            let x: u128 = ma * p;
            proof {
                pow2::lemma_pow2_add(d as nat, eb as nat);
                assert(self.mag() == x * pb) by (nonlinear_arith)
                    requires
                        self.mag() == ma * pa,
                        pa == p * pb,
                        x == ma * p,
                ;
                assert(x * pb + mb * pb == (x + mb) * pb) by (nonlinear_arith);
                assert(x * pb - mb * pb == (x - mb) * pb) by (nonlinear_arith);
                assert(mb * pb - x * pb == (mb - x) * pb) by (nonlinear_arith);
                assert(x > mb ==> (x - mb) * pb > 0) by (nonlinear_arith)
                    requires
                        pb >= 1,
                ;
                assert(x < mb ==> (mb - x) * pb > 0) by (nonlinear_arith)
                    requires
                        pb >= 1,
                ;
                assert(x + mb > 0 ==> (x + mb) * pb > 0) by (nonlinear_arith)
                    requires
                        pb >= 1,
                ;
            }
            let (n, sign): (u128, bool) = if sa == sb {
                (x + mb, sa)
            } else if x > mb {
                (x - mb, sa)
            } else {
                (mb - x, sb)
            };
            if n == 0 {
                return Double::build(sa && sb, 0);
            }
            let ghost num: nat = n as nat * pb;
            proof {
                lemma_exact_cut(num, n as nat, eb as nat);
            }
            let low: u64 = rounding::pack(n, eb as i32, false, Ghost(num), Ghost(1), Ghost(0), Ghost(eb as nat));
            return Double::build(sign, low);
        }
        if mb == 0 {
            proof {
                lemma_round_exact(self);
                assert(other.mag() == 0);
            }
            return self;
        }
        let s: u64 = d - 64;
        let (q, r): (u128, u128) = if s > 63 {
            (0, mb)
        } else {
            let p: u128 = rounding::power(s as u32);
            proof {
                pow2::lemma_pow2_pos(s as nat);
            }
            (mb / p, mb % p)
        };
        let ghost ps = pow2::pow2(s as nat);
        let e: u64 = ea - 64;
        let ghost pe = pow2::pow2(e as nat);
        let n0: u128 = ma * 0x1_0000_0000_0000_0000;
        let ghost rr: nat = r as nat * pb;
        proof {
            if s > 63 {
                pow2::lemma_pow2_mono(53, s as nat);
                assert(q * ps == 0) by (nonlinear_arith)
                    requires
                        q == 0,
                ;
            } else {
                vstd::arithmetic::div_mod::lemma_fundamental_div_mod(mb as int, ps as int);
                assert(q * ps == ps * q) by (nonlinear_arith);
                assert(q <= mb) by (nonlinear_arith)
                    requires
                        mb == ps * q + r,
                        ps >= 1,
                        q >= 0,
                        r >= 0,
                ;
            }
            assert(mb == q * ps + r && r < ps);
            pow2::lemma_pow2_add(64, e as nat);
            pow2::lemma_pow2_add(s as nat, eb as nat);
            assert(s as nat + eb as nat == e as nat);
            assert(self.mag() == n0 * pe) by (nonlinear_arith)
                requires
                    self.mag() == ma * pa,
                    pa == 0x1_0000_0000_0000_0000 * pe,
                    n0 == ma * 0x1_0000_0000_0000_0000,
            ;
            assert(other.mag() == q * pe + rr) by (nonlinear_arith)
                requires
                    other.mag() == mb * pb,
                    mb == q * ps + r,
                    pe == ps * pb,
                    rr == r * pb,
            ;
            assert(rr < pe) by (nonlinear_arith)
                requires
                    r < ps,
                    pe == ps * pb,
                    rr == r * pb,
                    pb >= 1,
            ;
            assert(rr == 0 <==> r == 0) by (nonlinear_arith)
                requires
                    rr == r * pb,
                    pb >= 1,
                    r >= 0,
            ;
            assert(n0 * pe + q * pe == (n0 + q) * pe) by (nonlinear_arith);
            assert(n0 * pe - q * pe == (n0 - q) * pe) by (nonlinear_arith);
            assert((n0 - q) * pe == (n0 - q - 1) * pe + pe) by (nonlinear_arith);
            assert((n0 - q - 1) * pe > 0) by (nonlinear_arith)
                requires
                    n0 - q - 1 > 0,
                    pe >= 1,
            ;
            assert((n0 + q) * pe > 0) by (nonlinear_arith)
                requires
                    n0 + q > 0,
                    pe >= 1,
            ;
        }
        let (n, sticky): (u128, bool) = if sa == sb {
            (n0 + q, r != 0)
        } else if r == 0 {
            (n0 - q, false)
        } else {
            (n0 - q - 1, true)
        };
        let ghost num: nat = if sa == sb {
            self.mag() + other.mag()
        } else {
            (self.mag() - other.mag()) as nat
        };
        proof {
            let left: nat = if sa == sb || r == 0 {
                rr
            } else {
                (pe - rr) as nat
            };
            lemma_cut(num, n as nat, left, e as nat);
        }
        let low: u64 = rounding::pack(n, e as i32, sticky, Ghost(num), Ghost(1), Ghost(0), Ghost(e as nat));
        Double::build(sa, low)
    }

    /// The sum.
    pub fn add(self, other: Double) -> (r: Double)
        ensures
            r == self.plus(other),
    {
        proof {
            reveal(Double::plus);
        }
        if self.is_nan() || other.is_nan() {
            return Double { bits: NAN_BITS };
        }
        if self.low_bits() == INF_BITS {
            if other.low_bits() == INF_BITS && self.has_sign() != other.has_sign() {
                return Double { bits: NAN_BITS };
            }
            return self;
        }
        if other.low_bits() == INF_BITS {
            return other;
        }
        if self.step_bits() >= other.step_bits() {
            self.add_ordered(other)
        } else {
            other.add_ordered(self)
        }
    }

    /// The difference.
    pub fn sub(self, other: Double) -> (r: Double)
        ensures
            r == self.minus(other),
    {
        self.add(other.neg())
    }

    /// The product.
    pub fn mul(self, other: Double) -> (r: Double)
        ensures
            r == self.times(other),
    {
        proof {
            reveal(Double::times);
        }
        if self.is_nan() || other.is_nan() {
            return Double { bits: NAN_BITS };
        }
        let sign: bool = self.has_sign() != other.has_sign();
        if self.low_bits() == INF_BITS || other.low_bits() == INF_BITS {
            if self.low_bits() == 0 || other.low_bits() == 0 {
                return Double { bits: NAN_BITS };
            }
            return Double::build(sign, INF_BITS);
        }
        let ea: u64 = self.step_bits();
        let eb: u64 = other.step_bits();
        let ma: u128 = self.mantissa_bits() as u128;
        let mb: u128 = other.mantissa_bits() as u128;
        proof {
            lemma_parts(self);
            lemma_parts(other);
            pow2::lemma_pow2_pos(1074);
        }
        if ma == 0 || mb == 0 {
            proof {
                assert(self.mag() * other.mag() == 0) by (nonlinear_arith)
                    requires
                        self.mag() == 0 || other.mag() == 0,
                ;
                lemma_round_zero(pow2::pow2(1074));
            }
            return Double::build(sign, 0);
        }
        proof {
            assert(0 < ma * mb < 0x20_0000_0000_0000 * 0x20_0000_0000_0000) by (nonlinear_arith)
                requires
                    0 < ma < 0x20_0000_0000_0000,
                    0 < mb < 0x20_0000_0000_0000,
            ;
        }
        let n: u128 = ma * mb;
        let ghost num = self.mag() * other.mag();
        let ghost den = pow2::pow2(1074);
        let ghost b = ea as nat + eb as nat;
        proof {
            let pa = pow2::pow2(ea as nat);
            let pb = pow2::pow2(eb as nat);
            let pab = pow2::pow2(b);
            pow2::lemma_pow2_add(ea as nat, eb as nat);
            pow2::lemma_pow2_pos(b);
            assert(num * den == n * (den * pab)) by (nonlinear_arith)
                requires
                    num == (ma * pa) * (mb * pb),
                    n == ma * mb,
                    pab == pa * pb,
            ;
            assert(den * pab > 0) by (nonlinear_arith)
                requires
                    den >= 1,
                    pab >= 1,
            ;
            vstd::arithmetic::div_mod::lemma_fundamental_div_mod_converse(
                (num * den) as int,
                (den * pab) as int,
                n as int,
                0,
            );
        }
        let low: u64 = rounding::pack(
            n,
            (ea + eb) as i32 - 1074,
            false,
            Ghost(num),
            Ghost(den),
            Ghost(1074),
            Ghost(b),
        );
        Double::build(sign, low)
    }
}

/// Shifts a significand up until it has all of its 53 bits.
fn normalize(m: u64) -> (r: (u64, u64))
    requires
        0 < m < 0x20_0000_0000_0000,
    ensures
        0x10_0000_0000_0000 <= r.0 < 0x20_0000_0000_0000,
        r.1 <= 52,
        r.0 == m * pow2::pow2(r.1 as nat),
{
    let mut v: u64 = m;
    let mut i: u64 = 0;
    proof {
        assert(pow2::pow2(0) == 1);
        assert(m * 1 == m);
    }
    while v < 0x10_0000_0000_0000
        invariant
            0 < m,
            0 < v < 0x20_0000_0000_0000,
            i <= 52,
            v == m * pow2::pow2(i as nat),
        decreases 0x20_0000_0000_0000 - v,
    {
        proof {
            let p = pow2::pow2(i as nat);
            pow2::lemma_pow2_consts();
            assert(m * (2 * p) == 2 * (m * p)) by (nonlinear_arith);
            if i == 52 {
                assert(m * p >= p) by (nonlinear_arith)
                    requires
                        m >= 1,
                ;
            }
        }
        v = v * 2;
        i = i + 1;
    }
    (v, i)
}

impl Double {
    /// The quotient of two finite numbers other than zero.
    fn div_finite(self, other: Double) -> (low: u64)
        requires
            self.finite(),
            other.finite(),
            self.low() > 0,
            other.low() > 0,
        ensures
            low == rounding::round_mag(self.mag() * pow2::pow2(1074), other.mag()),
            low <= INF_BITS,
    {
        let ea: u64 = self.step_bits();
        let eb: u64 = other.step_bits();
        let ma: u64 = self.mantissa_bits();
        let mb: u64 = other.mantissa_bits();
        proof {
            lemma_parts(self);
            lemma_parts(other);
        }
        let (na, sa): (u64, u64) = normalize(ma);
        let (nb, sb): (u64, u64) = normalize(mb);
        let x: u128 = na as u128 * 0x1000_0000_0000_0000;
        let y: u128 = nb as u128;
        let n: u128 = x / y;
        let sticky: bool = x % y != 0;
        let ghost num = self.mag() * pow2::pow2(1074);
        let ghost den = other.mag();
        let ghost a = sa as nat + 60 + eb as nat;
        let ghost b = sb as nat + ea as nat + 1074;
        proof {
            pow2::lemma_pow2_consts();
            let pa = pow2::pow2(ea as nat);
            let pb = pow2::pow2(eb as nat);
            let ps = pow2::pow2(sa as nat);
            let pt = pow2::pow2(sb as nat);
            let big = pow2::pow2(1074);
            // Both sides carry the same power of two.
            let c = pa * pb * big;
            pow2::lemma_pow2_add(sa as nat, 60);
            pow2::lemma_pow2_add(sa as nat + 60, eb as nat);
            pow2::lemma_pow2_add(sb as nat, ea as nat);
            pow2::lemma_pow2_add(sb as nat + ea as nat, 1074);
            pow2::lemma_pow2_pos(ea as nat);
            pow2::lemma_pow2_pos(eb as nat);
            pow2::lemma_pow2_pos(1074);
            let wa = pow2::pow2(a);
            let wb = pow2::pow2(b);
            let p60: nat = 0x1000_0000_0000_0000;
            assert(num * wa == x * c) by (nonlinear_arith)
                requires
                    num == (ma * pa) * big,
                    wa == (ps * p60) * pb,
                    x == (ma * ps) * p60,
                    c == pa * pb * big,
            ;
            assert(den * wb == y * c) by (nonlinear_arith)
                requires
                    den == mb * pb,
                    wb == (pt * pa) * big,
                    y == mb * pt,
                    c == pa * pb * big,
            ;
            assert(c > 0) by (nonlinear_arith)
                requires
                    c == pa * pb * big,
                    pa >= 1,
                    pb >= 1,
                    big >= 1,
            ;
            let nx = x as nat;
            let ny = y as nat;
            let r = nx % ny;
            vstd::arithmetic::div_mod::lemma_fundamental_div_mod(nx as int, ny as int);
            assert(nx * c == n * (ny * c) + r * c) by (nonlinear_arith)
                requires
                    nx == ny * n + r,
            ;
            assert(0 <= r * c < ny * c) by (nonlinear_arith)
                requires
                    0 <= r < ny,
                    c > 0,
            ;
            assert(r * c == 0 <==> r == 0) by (nonlinear_arith)
                requires
                    c > 0,
                    r >= 0,
            ;
            vstd::arithmetic::div_mod::lemma_fundamental_div_mod_converse(
                (nx * c) as int,
                (ny * c) as int,
                n as int,
                (r * c) as int,
            );
            assert(0x40_0000_0000_0000 <= n) by (nonlinear_arith)
                requires
                    nx == ny * n + r,
                    r < ny,
                    ny < 0x20_0000_0000_0000,
                    nx >= 0x10_0000_0000_0000 * 0x1000_0000_0000_0000,
            ;
            assert(n <= nx) by (nonlinear_arith)
                requires
                    nx == ny * n + r,
                    ny >= 1,
                    r >= 0,
                    n >= 0,
            ;
        }
        let e: i32 = sb as i32 + ea as i32 + 1074 - (sa as i32 + 60 + eb as i32);
        rounding::pack(n, e, sticky, Ghost(num), Ghost(den), Ghost(a), Ghost(b))
    }

    /// The quotient.
    pub fn div(self, other: Double) -> (r: Double)
        ensures
            r == self.over(other),
    {
        proof {
            reveal(Double::over);
        }
        if self.is_nan() || other.is_nan() {
            return Double { bits: NAN_BITS };
        }
        let sign: bool = self.has_sign() != other.has_sign();
        if self.low_bits() == INF_BITS {
            if other.low_bits() == INF_BITS {
                return Double { bits: NAN_BITS };
            }
            return Double::build(sign, INF_BITS);
        }
        if other.low_bits() == INF_BITS {
            return Double::build(sign, 0);
        }
        if other.low_bits() == 0 {
            if self.low_bits() == 0 {
                return Double { bits: NAN_BITS };
            }
            return Double::build(sign, INF_BITS);
        }
        if self.low_bits() == 0 {
            proof {
                lemma_parts(self);
                lemma_parts(other);
                assert(0 * pow2::pow2(1074) == 0);
                lemma_round_zero(other.mag());
            }
            return Double::build(sign, 0);
        }
        Double::build(sign, self.div_finite(other))
    }

    fn ord_key(self) -> (r: i64)
        ensures
            r == self.ord(),
    {
        let low: i64 = self.low_bits() as i64;
        if self.has_sign() {
            -low
        } else {
            low
        }
    }

    /// Whether `self < other`.
    pub fn lt(self, other: Double) -> (r: bool)
        ensures
            r == self.below(other),
    {
        !self.is_nan() && !other.is_nan() && self.ord_key() < other.ord_key()
    }

    /// Whether `self <= other`.
    pub fn le(self, other: Double) -> (r: bool)
        ensures
            r == self.at_most(other),
    {
        !self.is_nan() && !other.is_nan() && self.ord_key() <= other.ord_key()
    }

    /// Whether `self == other`.
    pub fn equals(self, other: Double) -> (r: bool)
        ensures
            r == self.same(other),
    {
        !self.is_nan() && !other.is_nan() && self.ord_key() == other.ord_key()
    }

    /// The lesser of the two numbers.
    pub fn min(self, other: Double) -> (r: Double)
        ensures
            r == self.lesser(other),
    {
        if other.is_nan() || self.le(other) {
            self
        } else {
            other
        }
    }

    /// Whether `self` comes before `other` among map keys.
    pub fn ranks_below(self, other: Double) -> (r: bool)
        ensures
            r == (self.rank() < other.rank()),
    {
        if self.is_nan() {
            false
        } else if other.is_nan() {
            true
        } else {
            self.ord_key() < other.ord_key()
        }
    }
}

impl Double {
    /// The number, moved into the range from `lo` to `hi`.
    pub fn clamp(self, lo: Double, hi: Double) -> (r: Double)
        requires
            lo.at_most(hi),
        ensures
            r == self.clamped(lo, hi),
    {
        if self.lt(lo) {
            lo
        } else if hi.lt(self) {
            hi
        } else {
            self
        }
    }

    /// The integer part, moved into the range of `u32`.
    pub fn to_u32(self) -> (r: u32)
        ensures
            r == self.truncated(),
    {
        if self.is_nan() || self.has_sign() {
            return 0;
        }
        if self.low_bits() == INF_BITS {
            return u32::MAX;
        }
        let k: u64 = self.step_bits();
        let m: u64 = self.mantissa_bits();
        let ghost big = pow2::pow2(1074);
        let ghost pk = pow2::pow2(k as nat);
        proof {
            lemma_parts(self);
            pow2::lemma_pow2_consts();
            pow2::lemma_pow2_pos(1074);
            pow2::lemma_pow2_pos(k as nat);
        }
        if k >= 1074 {
            proof {
                pow2::lemma_pow2_mono(1074, k as nat);
                assert(m * pk >= 0x10_0000_0000_0000 * big) by (nonlinear_arith)
                    requires
                        m >= 0x10_0000_0000_0000,
                        pk >= big,
                ;
                vstd::arithmetic::div_mod::lemma_div_is_ordered(
                    (0x10_0000_0000_0000 * big) as int,
                    (m * pk) as int,
                    big as int,
                );
                vstd::arithmetic::div_mod::lemma_div_by_multiple(0x10_0000_0000_0000, big as int);
            }
            return u32::MAX;
        }
        let s: u64 = 1074 - k;
        let ghost ps = pow2::pow2(s as nat);
        proof {
            pow2::lemma_pow2_add(k as nat, s as nat);
            pow2::lemma_pow2_pos(s as nat);
            assert(m * pk == pk * m) by (nonlinear_arith);
            vstd::arithmetic::div_mod::lemma_div_multiples_vanish_quotient(pk as int, m as int, ps as int);
        }
        if s > 63 {
            proof {
                pow2::lemma_pow2_mono(53, s as nat);
                vstd::arithmetic::div_mod::lemma_basic_div(m as int, ps as int);
            }
            return 0;
        }
        let v: u128 = m as u128 / rounding::power(s as u32);
        if v > u32::MAX as u128 {
            u32::MAX
        } else {
            v as u32
        }
    }
}

/// An integer that fits the significand is represented exactly.
pub proof fn lemma_of_nat_exact(n: nat)
    requires
        n < 0x20_0000_0000_0000,
    ensures
        Double::of_nat(n).finite(),
        !Double::of_nat(n).sign(),
        Double::of_nat(n).mag() == n * pow2::pow2(1074),
        Double::of_nat(n).value() == n * pow2::pow2(1074),
{
    reveal(Double::of_nat);
    let big = pow2::pow2(1074);
    if n == 0 {
        assert(0 * big == 0);
        lemma_round_zero(1);
        lemma_parts(Double::of_nat(0));
    } else {
        let s = lemma_shift(n);
        let m = n * pow2::pow2(s);
        let k = (1074 - s) as nat;
        pow2::lemma_pow2_add(s, k);
        let ps = pow2::pow2(s);
        let pk = pow2::pow2(k);
        assert(n * big == m * pk) by (nonlinear_arith)
            requires
                big == ps * pk,
                m == n * ps,
        ;
        rounding::lemma_round_steps(m, k);
        let x = Double::of_nat(n);
        lemma_make(false, (k * 0x10_0000_0000_0000 + m) as nat);
        assert(x.low() == k * 0x10_0000_0000_0000 + m);
        assert(x.step() == k);
        assert(x.mantissa() == m);
    }
}

/// Half of an integer that fits the significand is exact.
pub proof fn lemma_half_exact(n: nat)
    requires
        n < 0x20_0000_0000_0000,
    ensures
        Double::of_nat(n).over(Double::of_nat(2)).finite(),
        !Double::of_nat(n).over(Double::of_nat(2)).sign(),
        2 * Double::of_nat(n).over(Double::of_nat(2)).value() == n * pow2::pow2(1074),
{
    reveal(Double::over);
    let (x, two) = (Double::of_nat(n), Double::of_nat(2));
    let big = pow2::pow2(1074);
    let half = pow2::pow2(1073);
    lemma_of_nat_exact(n);
    lemma_of_nat_exact(2);
    lemma_parts(x);
    lemma_parts(two);
    pow2::lemma_pow2_pos(1074);
    assert(big == 2 * half);
    assert((n * big) * big == (n * half) * (2 * big)) by (nonlinear_arith)
        requires
            big == 2 * half,
    ;
    assert(1 * (2 * big) == 2 * big);
    rounding::lemma_round_scale(n * half, 1, 2 * big);
    let r = x.over(two);
    assert(r.low() == rounding::round_mag(n * half, 1));
    if n == 0 {
        assert(0 * half == 0);
        assert(0 * big == 0);
        lemma_round_zero(1);
        lemma_parts(r);
    } else {
        let s = lemma_shift(n);
        let m = n * pow2::pow2(s);
        let k = (1073 - s) as nat;
        pow2::lemma_pow2_add(s, k);
        let ps = pow2::pow2(s);
        let pk = pow2::pow2(k);
        assert(n * half == m * pk) by (nonlinear_arith)
            requires
                half == ps * pk,
                m == n * ps,
        ;
        rounding::lemma_round_steps(m, k);
        assert(r.step() == k);
        assert(r.mantissa() == m);
        assert(2 * (n * half) == n * big) by (nonlinear_arith)
            requires
                big == 2 * half,
        ;
    }
}

/// Every 64-bit integer has a finite nearest number, positive where the
/// integer is.
pub proof fn lemma_of_nat_bounds(n: nat)
    requires
        n <= u64::MAX,
    ensures
        Double::of_nat(n).finite(),
        !Double::of_nat(n).sign(),
        Double::of_nat(n).low() == 0 <==> n == 0,
{
    reveal(Double::of_nat);
    let big = pow2::pow2(1074);
    let num = n * big;
    if n == 0 {
        assert(0 * big == 0);
        lemma_round_zero(1);
    } else {
        pow2::lemma_pow2_consts();
        pow2::lemma_pow2_pos(1074);
        pow2::lemma_pow2_add(64, 1074);
        assert(0 < num < 0x1_0000_0000_0000_0000 * big) by (nonlinear_arith)
            requires
                num == n * big,
                0 < n < 0x1_0000_0000_0000_0000,
                big >= 1,
        ;
        assert(num / 1 == num);
        rounding::lemma_round_bounds(num, 1085);
    }
}

/// Sums and quotients of numbers without a sign have none.
pub proof fn lemma_unsigned_results(x: Double, y: Double)
    requires
        !x.sign(),
        !y.sign(),
    ensures
        !x.plus(y).sign(),
        !x.times(y).sign(),
        !x.over(y).sign(),
{
    reveal(Double::plus);
    reveal(Double::times);
    reveal(Double::over);
}

/// The number is one that a sum that starts at zero can have: not the negative
/// zero, and no other not-a-number than the one that operations return.
pub open spec fn settled(x: Double) -> bool {
    &&& x.nan() ==> x == Double::not_a_number()
    &&& x.low() == 0 ==> !x.sign()
}

/// Adding to such a number makes another one, and adding zero changes nothing.
pub proof fn lemma_settled(x: Double, y: Double)
    requires
        settled(x),
    ensures
        settled(x.plus(y)),
        x.plus(Double::zero()) == x,
{
    reveal(Double::plus);
    let zero = Double::zero();
    lemma_parts(x);
    lemma_parts(y);
    lemma_parts(zero);
    if x.finite() {
        let s = x.value() + y.value();
        if s > 0 {
            rounding::lemma_round_positive(s as nat);
        } else if s < 0 {
            rounding::lemma_round_positive((-s) as nat);
        }
        rounding::lemma_round_steps(x.mantissa(), x.step());
    }
}

/// Equality of numbers goes both ways.
pub proof fn lemma_same_symmetric(x: Double, y: Double)
    ensures
        x.same(y) <==> y.same(x),
{
}

/// A sum of numbers that are not negative is a number that is not negative.
pub proof fn lemma_unsigned_sum(x: Double, y: Double)
    requires
        x.finite(),
        y.finite(),
        x.value() >= 0,
        y.value() >= 0,
    ensures
        !x.plus(y).nan(),
        x.plus(y).low() > 0 ==> !x.plus(y).sign(),
{
    reveal(Double::plus);
}

/// A finite number other than zero, divided by itself, is one.
pub proof fn lemma_over_self(x: Double)
    requires
        x.finite(),
        x.low() > 0,
    ensures
        x.over(x) == (Double { bits: 0x3ff0_0000_0000_0000 }),
{
    reveal(Double::over);
    lemma_parts(x);
    let big = pow2::pow2(1074);
    let m = x.mag();
    rounding::lemma_round_scale(big, 1, m);
    assert(big * m == m * big) by (nonlinear_arith);
    assert(1 * m == m);
    pow2::lemma_pow2_consts();
    pow2::lemma_pow2_add(52, 1022);
    rounding::lemma_round_steps(0x10_0000_0000_0000, 1022);
}

/// The number nearest to the integer one.
pub proof fn lemma_one()
    ensures
        Double::of_nat(1) == (Double { bits: 0x3ff0_0000_0000_0000 }),
{
    reveal(Double::of_nat);
    pow2::lemma_pow2_consts();
    pow2::lemma_pow2_add(52, 1022);
    assert(1 * pow2::pow2(1074) == pow2::pow2(1074));
    rounding::lemma_round_steps(0x10_0000_0000_0000, 1022);
}

/// Zero divided by a finite number other than zero is zero.
pub proof fn lemma_zero_over(x: Double)
    requires
        x.finite(),
        x.low() > 0,
        !x.sign(),
    ensures
        Double::zero().over(x) == Double::zero(),
{
    reveal(Double::over);
    lemma_parts(x);
    lemma_parts(Double::zero());
    assert(0 * pow2::pow2(1074) == 0);
    lemma_round_zero(x.mag());
}

/// A difference is not a number where one of the numbers is not, and where both
/// are the same infinity.
pub proof fn lemma_difference_nan(x: Double, y: Double)
    ensures
        x.minus(y).nan() <==> x.nan() || y.nan() || (x.infinite() && y.infinite() && x.sign()
            == y.sign()),
{
    reveal(Double::plus);
    let z = y.negated();
    assert(z.low() == y.low() && z.sign() == !y.sign());
}

/// The sign of a difference tells the order of the numbers.
pub proof fn law_difference_sign(x: Double, y: Double)
    requires
        !x.minus(y).nan(),
    ensures
        Double::zero().below(x.minus(y)) <==> y.below(x),
        x.minus(y).below(Double::zero()) <==> x.below(y),
        x.minus(y).same(Double::zero()) <==> x.same(y),
{
    reveal(Double::plus);
    let z = y.negated();
    assert(z.low() == y.low() && z.sign() == !y.sign());
    lemma_parts(x);
    lemma_parts(y);
    if x.finite() && y.finite() {
        lemma_order_is_value_order(x, y);
        lemma_order_is_value_order(y, x);
        assert(z.value() == -y.value());
        let s = x.value() + z.value();
        if s > 0 {
            rounding::lemma_round_positive(s as nat);
        } else if s < 0 {
            rounding::lemma_round_positive((-s) as nat);
        }
    }
}

/// No finite number is nearer to a magnitude than the one that it is rounded
/// to.
pub proof fn law_nearest(sign: bool, num: nat, den: nat, other: Double)
    requires
        den > 0,
        Double::nearest(sign, num, den).finite(),
        other.finite(),
    ensures
        ({
            let chosen = Double::nearest(sign, num, den).mag() * den - num;
            let off = other.mag() * den - num;
            (if chosen >= 0 {
                chosen
            } else {
                -chosen
            }) <= (if off >= 0 {
                off
            } else {
                -off
            })
        }),
{
    let x = Double::nearest(sign, num, den);
    assert(x.low() == rounding::round_mag(num, den));
    rounding::law_round_nearest(num, den, other.low());
    assert(x.mag() == rounding::mag_of(x.low()));
    assert(other.mag() == rounding::mag_of(other.low()));
}

/// The number nearest to a whole number of units.
spec fn of_units(s: int) -> Double {
    if s < 0 {
        Double::nearest(true, (-s) as nat, 1)
    } else {
        Double::nearest(false, s as nat, 1)
    }
}

proof fn lemma_units_monotone(s: int, t: int)
    requires
        s <= t,
    ensures
        of_units(s).ord() <= of_units(t).ord(),
{
    if s >= 0 {
        rounding::law_round_monotone(s as nat, 1, t as nat, 1);
    } else if t < 0 {
        rounding::law_round_monotone((-t) as nat, 1, (-s) as nat, 1);
    }
}

/// The sum of finite numbers is not not-a-number, and its place in the order is
/// that of the number nearest to the exact sum.
proof fn lemma_finite_sum(x: Double, z: Double)
    requires
        x.finite(),
        z.finite(),
    ensures
        !x.plus(z).nan(),
        x.plus(z).ord() == of_units(x.value() + z.value()).ord(),
{
    reveal(Double::plus);
    lemma_round_zero(1);
}

/// A sum does not get lower when one of its numbers gets higher.
pub proof fn law_plus_monotone(x: Double, y: Double, z: Double)
    requires
        x.at_most(y),
        !x.plus(z).nan(),
        !y.plus(z).nan(),
    ensures
        x.plus(z).at_most(y.plus(z)),
{
    if x.finite() && y.finite() && z.finite() {
        lemma_order_is_value_order(x, y);
        lemma_finite_sum(x, z);
        lemma_finite_sum(y, z);
        lemma_units_monotone(x.value() + z.value(), y.value() + z.value());
    } else {
        reveal(Double::plus);
        lemma_parts(x);
        lemma_parts(y);
        lemma_parts(z);
    }
}

/// A quotient of numbers without a sign does not get lower when the dividend
/// gets higher.
pub proof fn law_over_monotone(x: Double, y: Double, z: Double)
    requires
        !x.sign(),
        !y.sign(),
        !z.sign(),
        x.at_most(y),
        !x.over(z).nan(),
        !y.over(z).nan(),
    ensures
        x.over(z).at_most(y.over(z)),
{
    reveal(Double::over);
    lemma_parts(x);
    lemma_parts(y);
    lemma_parts(z);
    if x.finite() && y.finite() && z.finite() && z.low() > 0 {
        lemma_order_is_value_order(x, y);
        let big = pow2::pow2(1074);
        let (a, b, c) = (x.mag(), y.mag(), z.mag());
        assert((a * big) * c <= (b * big) * c) by (nonlinear_arith)
            requires
                a <= b,
        ;
        rounding::law_round_monotone(a * big, c, b * big, c);
    }
}

/// How far an integer can be shifted up within 53 bits.
proof fn lemma_shift(n: nat) -> (s: nat)
    requires
        0 < n < 0x20_0000_0000_0000,
    ensures
        s <= 52,
        0x10_0000_0000_0000 <= n * pow2::pow2(s) < 0x20_0000_0000_0000,
    decreases 0x20_0000_0000_0000 - n,
{
    pow2::lemma_pow2_consts();
    if n >= 0x10_0000_0000_0000 {
        assert(pow2::pow2(0) == 1);
        assert(n * 1 == n);
        0
    } else {
        let s = lemma_shift(2 * n);
        let p = pow2::pow2(s);
        assert(n * (2 * p) == (2 * n) * p) by (nonlinear_arith);
        if s == 52 {
            assert((2 * n) * p >= 2 * p) by (nonlinear_arith)
                requires
                    n >= 1,
            ;
        }
        s + 1
    }
}

/// Sums of integers that fit the significand are exact.
pub proof fn lemma_add_integers(a: nat, b: nat)
    requires
        a < 0x20_0000_0000_0000,
        b < 0x20_0000_0000_0000,
    ensures
        Double::of_nat(a).plus(Double::of_nat(b)) == Double::of_nat(a + b),
{
    reveal(Double::of_nat);
    reveal(Double::plus);
    let big = pow2::pow2(1074);
    lemma_of_nat_exact(a);
    lemma_of_nat_exact(b);
    assert(a * big + b * big == (a + b) * big) by (nonlinear_arith);
    if a + b == 0 {
        lemma_round_zero(1);
        assert(0 * big == 0);
    } else {
        pow2::lemma_pow2_pos(1074);
        assert((a + b) * big > 0) by (nonlinear_arith)
            requires
                a + b > 0,
                big >= 1,
        ;
    }
}

/// Integers that fit the significand keep their order.
pub proof fn lemma_integer_order(a: nat, b: nat)
    requires
        a < 0x20_0000_0000_0000,
        b < 0x20_0000_0000_0000,
    ensures
        Double::of_nat(a).below(Double::of_nat(b)) <==> a < b,
        Double::of_nat(a).at_most(Double::of_nat(b)) <==> a <= b,
{
    let big = pow2::pow2(1074);
    lemma_of_nat_exact(a);
    lemma_of_nat_exact(b);
    lemma_order_is_value_order(Double::of_nat(a), Double::of_nat(b));
    pow2::lemma_pow2_pos(1074);
    assert((a * big < b * big) <==> a < b) by (nonlinear_arith)
        requires
            big >= 1,
    ;
    assert((a * big <= b * big) <==> a <= b) by (nonlinear_arith)
        requires
            big >= 1,
    ;
}

/// The order of the finite numbers is the order of their values.
pub proof fn lemma_order_is_value_order(x: Double, y: Double)
    requires
        x.finite(),
        y.finite(),
    ensures
        x.below(y) <==> x.value() < y.value(),
        x.at_most(y) <==> x.value() <= y.value(),
        x.same(y) <==> x.value() == y.value(),
{
    lemma_parts(x);
    lemma_parts(y);
    if x.low() < y.low() {
        lemma_mag_mono(x, y);
    }
    if y.low() < x.low() {
        lemma_mag_mono(y, x);
    }
}

proof fn lemma_mag_mono(x: Double, y: Double)
    requires
        x.low() < y.low(),
    ensures
        x.mag() < y.mag(),
{
    lemma_parts(x);
    lemma_parts(y);
    let (mx, kx) = (x.mantissa(), x.step());
    let (my, ky) = (y.mantissa(), y.step());
    let px = pow2::pow2(kx);
    let py = pow2::pow2(ky);
    pow2::lemma_pow2_pos(kx);
    assert(kx <= ky);
    if kx == ky {
        assert(mx * px < my * py) by (nonlinear_arith)
            requires
                mx < my,
                px == py,
                px >= 1,
        ;
    } else {
        pow2::lemma_pow2_mono((kx + 1) as nat, ky);
        assert(mx * px < my * py) by (nonlinear_arith)
            requires
                mx < 0x20_0000_0000_0000,
                my >= 0x10_0000_0000_0000,
                2 * px <= py,
                px >= 1,
        ;
    }
}

} // verus!
