//! Powers of two over the natural numbers, and the few facts the rest of the
//! library needs about them.
use vstd::prelude::*;

verus! {

/// Two to the power `e`.
pub open spec fn pow2(e: nat) -> nat
    decreases e,
{
    if e == 0 {
        1
    } else {
        2 * pow2((e - 1) as nat)
    }
}

/// A power of two is never zero.
pub proof fn lemma_pow2_pos(e: nat)
    ensures
        pow2(e) >= 1,
    decreases e,
{
    if e > 0 {
        lemma_pow2_pos((e - 1) as nat);
    }
}

/// Exponents add up under multiplication.
pub proof fn lemma_pow2_add(a: nat, b: nat)
    ensures
        pow2(a + b) == pow2(a) * pow2(b),
    decreases a,
{
    if a > 0 {
        lemma_pow2_add((a - 1) as nat, b);
        let x = pow2((a - 1) as nat);
        let y = pow2(b);
        assert((2 * x) * y == 2 * (x * y)) by (nonlinear_arith);
        assert(((a + b) - 1) as nat == ((a - 1) as nat) + b);
    } else {
        assert(1 * pow2(b) == pow2(b));
        assert(pow2(0) == 1);
    }
}

/// Powers of two grow with their exponent.
pub proof fn lemma_pow2_mono(a: nat, b: nat)
    requires
        a <= b,
    ensures
        pow2(a) <= pow2(b),
    decreases b,
{
    if a < b {
        lemma_pow2_mono(a, (b - 1) as nat);
        lemma_pow2_pos((b - 1) as nat);
    }
}

/// The powers that delimit the fields of a binary64 number.
pub proof fn lemma_pow2_consts()
    ensures
        pow2(1) == 2,
        pow2(52) == 0x10_0000_0000_0000,
        pow2(53) == 0x20_0000_0000_0000,
        pow2(54) == 0x40_0000_0000_0000,
        pow2(60) == 0x1000_0000_0000_0000,
        pow2(64) == 0x1_0000_0000_0000_0000,
        pow2(127) == 0x8000_0000_0000_0000_0000_0000_0000_0000,
{
    reveal_with_fuel(pow2, 14);
    assert(pow2(13) == 0x2000);
    lemma_pow2_add(13, 13);
    assert(pow2(26) == 0x400_0000);
    lemma_pow2_add(26, 26);
    assert(pow2(52) == 0x10_0000_0000_0000);
    assert(pow2(60) == 256 * pow2(52));
    assert(pow2(64) == 4096 * pow2(52));
    lemma_pow2_add(52, 11);
    assert(pow2(63) == 0x8000_0000_0000_0000);
    lemma_pow2_add(64, 63);
}

} // verus!
