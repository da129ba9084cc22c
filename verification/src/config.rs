//! The settings that are handed to the kernel side before it starts.
use vstd::prelude::*;
use crate::accuracy;
use crate::double;
use crate::double::Double;
use crate::pow2;
use crate::rounding;
use crate::topology::Topology;

verus! {

/// The bits of 1000000000.0, the nanoseconds in a second.
pub const NSEC_PER_SEC_BITS: u64 = 0x41cd_cd65_0000_0000;

/// The options that the kernel side has to know about.
#[derive(Clone, Copy, Debug)]
pub struct Opts {
    /// Scheduling slice duration in microseconds.
    pub slice_us: u64,
    /// The half-life of task and domain load running averages in seconds.
    pub load_half_life: Double,
    /// The number of queued tasks from which on a domain can be stolen from.
    pub greedy_threshold: u32,
    /// Put per-cpu kthreads directly into local dsq's.
    pub kthreads_local: bool,
    /// Use FIFO scheduling instead of weighted vtime scheduling.
    pub fifo_sched: bool,
    /// Disable preemption to prioritize lower vtime waking tasks. Preemption
    /// does not work with FIFO scheduling either.
    pub no_preemption: bool,
    /// Only switch tasks whose scheduling policy is set to SCHED_EXT.
    pub partial: bool,
    pub verbose: u8,
}

/// The settings of the kernel side.
#[derive(Clone, Copy, Debug)]
pub struct Rodata {
    pub nr_doms: u32,
    pub nr_cpus: u32,
    pub slice_ns: u64,
    pub load_half_life: u32,
    pub kthreads_local: bool,
    pub fifo_sched: bool,
    pub switch_partial: bool,
    pub enable_preemption: bool,
    pub greedy_threshold: u32,
    pub debug: u32,
}

/// The settings for a machine, from the options. The half-life is in
/// nanoseconds, without the fraction and moved into the range of its type.
pub fn rodata(opts: &Opts, top: &Topology) -> (res: Rodata)
    requires
        top.within_limits(),
        opts.slice_us * 1000 <= u64::MAX,
    ensures
        res.nr_doms == top.doms(),
        res.nr_cpus == top.cpus(),
        res.slice_ns == opts.slice_us * 1000,
        res.load_half_life == opts.load_half_life.times(
            Double { bits: NSEC_PER_SEC_BITS },
        ).truncated(),
        res.kthreads_local == opts.kthreads_local,
        res.fifo_sched == opts.fifo_sched,
        res.switch_partial == opts.partial,
        res.enable_preemption <==> !opts.no_preemption && !opts.fifo_sched,
        res.greedy_threshold == opts.greedy_threshold,
        res.debug == opts.verbose,
{
    Rodata {
        nr_doms: top.nr_doms() as u32,
        nr_cpus: top.nr_cpus() as u32,
        slice_ns: opts.slice_us * 1000,
        load_half_life: opts.load_half_life.mul(Double { bits: NSEC_PER_SEC_BITS }).to_u32(),
        kthreads_local: opts.kthreads_local,
        fifo_sched: opts.fifo_sched,
        switch_partial: opts.partial,
        enable_preemption: !(opts.no_preemption || opts.fifo_sched),
        greedy_threshold: opts.greedy_threshold,
        debug: opts.verbose as u32,
    }
}

/// The half-life in nanoseconds is `10^9` times that in seconds, up to a part in
/// `2^50`, without the fraction; the largest that fits where it does not, and none
/// where it is negative.
pub proof fn law_half_life(secs: Double)
    requires
        secs.finite(),
        secs.value() <= pow2::pow2(2000),
    ensures
        ({
            let ns = secs.times(Double { bits: NSEC_PER_SEC_BITS }).truncated();
            let u = accuracy::unit();
            let x = 1000000000 * secs.value();
            &&& secs.value() < 0 ==> ns == 0
            &&& x >= 4294967296 * u ==> ns == u32::MAX
            &&& 0 <= x <= 4294967294 * u ==> {
                &&& ns * u * 0x4_0000_0000_0000 <= x * 0x4_0000_0000_0001 + u
                &&& x * 0x4_0000_0000_0000 <= (ns + 1) * u * 0x4_0000_0000_0001
            }
        }),
{
    let nsec = Double { bits: NSEC_PER_SEC_BITS };
    let u = accuracy::unit() as int;
    lemma_nsec();
    double::lemma_of_nat_exact(1000000000);
    double::lemma_parts(secs);
    double::lemma_parts(nsec);
    let r = secs.times(nsec);
    pow2::lemma_pow2_consts();
    pow2::lemma_pow2_pos(1074);
    pow2::lemma_pow2_mono(127, 1074);
    if secs.value() >= 0 {
        let v = secs.mag() as int;
        let x = 1000000000 * v;
        let big = pow2::pow2(2097) as int;
        accuracy::lemma_small_range();
        assert(v * (1000000000 * u) == x * u && x * u < u * big) by (nonlinear_arith)
            requires
                x == 1000000000 * v,
                x < big,
                u >= 1,
        ;
        accuracy::law_times(secs, nsec);
        double::lemma_parts(r);
        let t = r.mag() as int;
        assert(accuracy::gap(t, x) * 0x20_0000_0000_0000 <= x + 0x10_0000_0000_0000)
            by (nonlinear_arith)
            requires
                accuracy::gap(t * u, x * u) * 0x20_0000_0000_0000 <= x * u + 0x10_0000_0000_0000 * u,
                u >= 1,
        {
            assert(accuracy::gap(t * u, x * u) == accuracy::gap(t, x) * u);
        }
        let f = t / u;
        vstd::arithmetic::div_mod::lemma_fundamental_div_mod(t, u);
        assert(f * u <= t < (f + 1) * u && (f + 1) * u == f * u + u) by (nonlinear_arith)
            requires
                t == u * f + t % u,
                0 <= t % u < u,
        ;
        if x <= 4294967294 * u {
            assert(f <= u32::MAX) by (nonlinear_arith)
                requires
                    f * u <= t,
                    t < 4294967295 * u,
                    u >= 1,
            ;
            assert(f >= 0) by (nonlinear_arith)
                requires
                    t < f * u + u,
                    t >= 0,
                    u >= 1,
            ;
            if r.sign() {
                assert(v == 0);
            }
        }
        if x >= 4294967296 * u {
            assert(f >= u32::MAX) by (nonlinear_arith)
                requires
                    t < (f + 1) * u,
                    t >= 4294967295 * u,
                    u >= 1,
            ;
        }
    } else {
        assert(r.sign() || r.nan()) by {
            reveal(Double::times);
        }
    }
}

/// The bits of a billion.
proof fn lemma_nsec()
    ensures
        Double::of_nat(1000000000) == (Double { bits: NSEC_PER_SEC_BITS }),
{
    reveal(Double::of_nat);
    pow2::lemma_pow2_consts();
    pow2::lemma_pow2_add(23, 1051);
    pow2::lemma_pow2_add(23, 29);
    reveal_with_fuel(pow2::pow2, 24);
    let (big, p, h) = (pow2::pow2(1074), pow2::pow2(1051), pow2::pow2(23));
    assert(h == 0x80_0000);
    assert(1000000000 * big == 0x1d_cd65_0000_0000 * p) by (nonlinear_arith)
        requires
            big == h * p,
            h == 0x80_0000,
    ;
    rounding::lemma_round_steps(0x1d_cd65_0000_0000, 1051);
}

} // verus!
