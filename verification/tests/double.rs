use scx_rusty::double::Double;

/// A small multiplicative generator, so that the runs repeat.
struct Lcg(u64);

impl Lcg {
    fn next(&mut self) -> u64 {
        self.0 = self
            .0
            .wrapping_mul(6364136223846793005)
            .wrapping_add(1442695040888963407);
        let x = self.0;
        (x >> 33) ^ x.rotate_left(17)
    }

    /// Bits spread over all exponents, or close together, or special.
    fn operand(&mut self) -> f64 {
        let r = self.next();
        match r % 8 {
            0 => f64::from_bits(self.next()),
            1 => (self.next() % 20000) as f64 / 128.0,
            2 => f64::from_bits(self.next() & 0x801f_ffff_ffff_ffff),
            3 => f64::from_bits((self.next() & 0x800f_ffff_ffff_ffff) | (1000 + r % 40) << 52),
            4 => f64::from_bits((self.next() & 0x8000_0000_0000_0003) | (1000 + r % 40) << 52),
            5 => [0.0, -0.0, 1.0, -1.0, f64::INFINITY, f64::NEG_INFINITY, f64::NAN, f64::MAX, f64::MIN_POSITIVE, 5e-324]
                [(self.next() % 10) as usize],
            6 => f64::from_bits((self.next() & 0x800f_ffff_ffff_ffff) | (500 + r % 1000) << 52),
            _ => f64::from_bits((self.next() & 0x800f_ffff_ffff_ffff) | (2000 + r % 47) << 52),
        }
    }
}

fn d(x: f64) -> Double {
    Double::from_bits(x.to_bits())
}

fn check(what: &str, a: f64, b: f64, got: Double, want: f64) {
    if want.is_nan() {
        assert!(got.is_nan(), "{} {:e} {:e}", what, a, b);
    } else {
        assert_eq!(got.to_bits(), want.to_bits(), "{} {:e} {:e}", what, a, b);
    }
}

#[test]
fn arithmetic_agrees_with_the_hardware() {
    let mut rng = Lcg(42);
    for _ in 0..300_000 {
        let (a, b) = (rng.operand(), rng.operand());
        check("+", a, b, d(a).add(d(b)), a + b);
        check("-", a, b, d(a).sub(d(b)), a - b);
        check("*", a, b, d(a).mul(d(b)), a * b);
        check("/", a, b, d(a).div(d(b)), a / b);
        check("neg", a, b, d(a).neg(), -a);
        check("abs", a, b, d(a).abs(), a.abs());
    }
}

#[test]
fn order_agrees_with_the_hardware() {
    let mut rng = Lcg(7);
    for _ in 0..300_000 {
        let (a, b) = (rng.operand(), rng.operand());
        assert_eq!(d(a).lt(d(b)), a < b);
        assert_eq!(d(a).le(d(b)), a <= b);
        assert_eq!(d(a).equals(d(b)), a == b);
        let m = a.min(b);
        if m != 0.0 {
            check("min", a, b, d(a).min(d(b)), m);
        }
    }
}

#[test]
fn integers_convert_like_the_hardware() {
    let mut rng = Lcg(3);
    for i in 0..200_000u64 {
        let n = rng.next() >> (i % 64);
        assert_eq!(Double::from_u64(n).to_bits(), (n as f64).to_bits());
        assert_eq!(Double::from_u64(i).to_bits(), (i as f64).to_bits());
    }
    assert_eq!(Double::from_u64(u64::MAX).to_bits(), (u64::MAX as f64).to_bits());
}

#[test]
fn map_keys_rank_as_ordered_floats() {
    let mut rng = Lcg(11);
    for _ in 0..200_000 {
        let (a, b) = (rng.operand(), rng.operand());
        let want = ordered_float::OrderedFloat(a) < ordered_float::OrderedFloat(b);
        assert_eq!(d(a).ranks_below(d(b)), want, "{:e} {:e}", a, b);
    }
}

#[test]
fn constants_have_the_bits_of_their_decimals() {
    assert_eq!(scx_rusty::approx::TOLERANCE_BITS, 0.0001f64.to_bits());
    assert_eq!(scx_rusty::config::NSEC_PER_SEC_BITS, 1000000000.0f64.to_bits());
    assert_eq!(scx_rusty::cpustat::ONE_BITS, 1.0f64.to_bits());
    assert_eq!(scx_rusty::tuner::FULL_BITS, 0.99999f64.to_bits());
    assert_eq!(scx_rusty::tuner::HUNDRED_BITS, 100.0f64.to_bits());
    assert_eq!(scx_rusty::load_balancer::LOAD_IMBAL_HIGH_RATIO_BITS, 0.05f64.to_bits());
    assert_eq!(scx_rusty::migration::LOAD_IMBAL_XFER_TARGET_RATIO_BITS, 0.50f64.to_bits());
    assert_eq!(scx_rusty::migration::LOAD_IMBAL_PUSH_MAX_RATIO_BITS, 0.50f64.to_bits());
    assert_eq!(scx_rusty::double::NAN_BITS, f64::NAN.to_bits());
    assert_eq!(scx_rusty::double::SIGN_BIT, (-0.0f64).to_bits());
    assert_eq!(scx_rusty::rounding::INF_BITS, f64::INFINITY.to_bits());
}

#[test]
fn sums_are_rounded_to_even() {
    // Halfway between two neighbours: the even one is taken.
    let two53 = 9007199254740992.0;
    assert_eq!(d(two53).add(d(1.0)).to_bits(), d(two53).to_bits());
    assert_eq!(d(two53 + 2.0).add(d(1.0)).to_bits(), d(two53 + 4.0).to_bits());
    assert_eq!(d(0.1).add(d(0.2)).to_bits(), 0x3fd3_3333_3333_3334);
    assert_eq!(d(1.0).div(d(3.0)).to_bits(), 0x3fd5_5555_5555_5555);
    assert_eq!(d(f64::MAX).add(d(f64::MAX)).to_bits(), d(f64::INFINITY).to_bits());
    assert_eq!(d(5e-324).mul(d(0.5)).to_bits(), 0);
    assert_eq!(d(5e-324).mul(d(0.75)).to_bits(), 1);
}

#[test]
fn special_operands() {
    assert!(d(f64::INFINITY).sub(d(f64::INFINITY)).is_nan());
    assert!(d(0.0).div(d(0.0)).is_nan());
    assert!(d(0.0).mul(d(f64::INFINITY)).is_nan());
    assert_eq!(d(-1.0).div(d(0.0)).to_bits(), d(f64::NEG_INFINITY).to_bits());
    assert_eq!(d(1.0).sub(d(1.0)).to_bits(), 0);
    assert_eq!(d(-0.0).add(d(-0.0)).to_bits(), d(-0.0).to_bits());
    assert!(d(-0.0).equals(d(0.0)));
    assert!(!d(f64::NAN).equals(d(f64::NAN)));
    assert_eq!(d(f64::NAN).min(d(2.0)).to_bits(), d(2.0).to_bits());
    assert_eq!(d(2.0).min(d(f64::NAN)).to_bits(), d(2.0).to_bits());
}

#[test]
fn truncation_agrees_with_the_hardware() {
    let mut rng = Lcg(5);
    for _ in 0..200_000 {
        let a = rng.operand();
        assert_eq!(d(a).to_u32(), a as u32, "{:e}", a);
    }
    for a in [0.0, 0.999, 1.0, 1.5, 4294967294.9, 4294967295.0, 4294967296.0, -1.0, 1e300] {
        assert_eq!(d(a).to_u32(), a as u32, "{:e}", a);
    }
    assert_eq!(d(4294967294.9).to_u32(), 4294967294);
    assert_eq!(d(f64::NAN).to_u32(), 0);
    assert_eq!(d(f64::INFINITY).to_u32(), u32::MAX);
}

#[test]
fn clamping() {
    let (lo, hi) = (d(0.0), d(1.0));
    assert_eq!(d(-0.5).clamp(lo, hi).to_bits(), d(0.0).to_bits());
    assert_eq!(d(0.5).clamp(lo, hi).to_bits(), d(0.5).to_bits());
    assert_eq!(d(1.5).clamp(lo, hi).to_bits(), d(1.0).to_bits());
    assert!(d(f64::NAN).clamp(lo, hi).is_nan());
}

#[test]
fn order_of_numbers_shows_in_sums_differences_and_quotients() {
    let mut rng = Lcg(17);
    for _ in 0..100_000 {
        let (x, y, z) = (d(rng.operand()), d(rng.operand()), d(rng.operand()));
        let diff = x.sub(y);
        if !diff.is_nan() {
            assert_eq!(d(0.0).lt(diff), y.lt(x));
            assert_eq!(diff.lt(d(0.0)), x.lt(y));
            assert_eq!(diff.equals(d(0.0)), x.equals(y));
        }
        let (s, t) = (x.add(z), y.add(z));
        if x.le(y) && !s.is_nan() && !t.is_nan() {
            assert!(s.le(t));
        }
        let (x, y, z) = (x.abs(), y.abs(), z.abs());
        let (s, t) = (x.div(z), y.div(z));
        if x.le(y) && !s.is_nan() && !t.is_nan() {
            assert!(s.le(t));
        }
    }
}

#[test]
fn a_sum_is_the_nearest_number() {
    // 1 + 2^-53 lies between 1 and the next number; neither is nearer than 1.
    let next = f64::from_bits(1.0f64.to_bits() + 1);
    let tiny = 2f64.powi(-53);
    assert_eq!(d(1.0).add(d(tiny)).to_bits(), d(1.0).to_bits());
    // Anything above the middle goes up.
    let above = f64::from_bits(tiny.to_bits() + 1);
    assert_eq!(d(1.0).add(d(above)).to_bits(), d(next).to_bits());
}
