//! The figures that are reported after each round of load balancing.
use vstd::prelude::*;
use crate::accuracy;
use crate::cpumask;
use crate::double;
use crate::double::Double;
use crate::pow2;
use crate::tuner;
use crate::tuner::{HUNDRED_BITS, TuneInput};

verus! {

/// The counters of the kernel side, added up over all CPUs.
#[derive(Clone, Copy, Debug)]
pub struct BpfStats {
    pub wake_sync: u64,
    pub prev_idle: u64,
    pub greedy_idle: u64,
    pub pinned: u64,
    pub direct_dispatch: u64,
    pub direct_greedy: u64,
    pub direct_greedy_far: u64,
    pub dsq_dispatch: u64,
    pub greedy: u64,
    pub repatriate: u64,
    pub kick_greedy: u64,
    pub load_balance: u64,
    pub task_get_err: u64,
}

/// The figures of a domain.
#[derive(Clone, Copy, Debug)]
pub struct DomReport {
    /// Utilization in percent.
    pub util: Double,
    pub load: Double,
    pub imbal: Double,
    /// The domain needs no balancing, so that its imbalance has no sign.
    pub balanced: bool,
}

/// The figures of a round. Shares are in percent of all dispatched tasks.
#[derive(Debug)]
pub struct Report {
    pub cpu_busy: Double,
    pub load_balance: u64,
    pub load_avg: Double,
    pub task_err: u64,
    pub lb_data_err: u64,
    pub total: u64,
    pub wake_sync: Double,
    pub prev_idle: Double,
    pub greedy_idle: Double,
    pub pinned: Double,
    pub direct_dispatch: Double,
    pub direct_greedy: Double,
    pub direct_greedy_far: Double,
    pub dsq_dispatch: Double,
    pub greedy: Double,
    pub kick_greedy: Double,
    pub repatriate: Double,
    pub direct_greedy_cpumask: String,
    pub kick_greedy_cpumask: String,
    pub doms: Vec<DomReport>,
}

impl BpfStats {
    /// The number of dispatched tasks: the counters that each stand for one way
    /// in which a task can be dispatched.
    pub open spec fn dispatched(self) -> nat {
        (self.wake_sync + self.prev_idle + self.greedy_idle + self.pinned + self.direct_dispatch
            + self.direct_greedy + self.direct_greedy_far + self.dsq_dispatch + self.greedy) as nat
    }

    /// The number of dispatched tasks; `None` where it does not fit.
    pub fn total(&self) -> (res: Option<u64>)
        ensures
            res is Some <==> self.dispatched() <= u64::MAX,
            res matches Some(total) ==> total == self.dispatched(),
    {
        let total: u128 = self.wake_sync as u128 + self.prev_idle as u128 + self.greedy_idle as u128
            + self.pinned as u128 + self.direct_dispatch as u128 + self.direct_greedy as u128
            + self.direct_greedy_far as u128 + self.dsq_dispatch as u128 + self.greedy as u128;
        if total <= u64::MAX as u128 {
            Some(total as u64)
        } else {
            None
        }
    }
}

/// The sum of the first `n` values.
pub open spec fn sum_of(values: Seq<u64>, n: nat) -> nat
    decreases n,
{
    if n == 0 {
        0
    } else {
        sum_of(values, (n - 1) as nat) + values[n - 1] as nat
    }
}

proof fn lemma_sum_mono(values: Seq<u64>, m: nat, n: nat)
    requires
        m <= n,
    ensures
        sum_of(values, m) <= sum_of(values, n),
    decreases n,
{
    if m < n {
        lemma_sum_mono(values, m, (n - 1) as nat);
    }
}

/// The sum of the first values is what adding them up from the left gives.
pub proof fn law_sum_of(values: Seq<u64>, n: nat)
    requires
        n <= values.len(),
    ensures
        sum_of(values, n) == values.take(n as int).fold_left(0int, |sum: int, value: u64| sum + value),
    decreases n,
{
    let head = values.take(n as int);
    if n > 0 {
        law_sum_of(values, (n - 1) as nat);
        assert(head.drop_last() =~= values.take(n - 1));
    }
}

/// What a task more in any one of the nine ways to dispatch it adds to the number
/// of dispatched tasks is one, and without any there are none.
pub proof fn law_dispatched(a: BpfStats, b: BpfStats)
    ensures
        b.dispatched() - a.dispatched() == (b.wake_sync - a.wake_sync) + (b.prev_idle - a.prev_idle)
            + (b.greedy_idle - a.greedy_idle) + (b.pinned - a.pinned) + (b.direct_dispatch
            - a.direct_dispatch) + (b.direct_greedy - a.direct_greedy) + (b.direct_greedy_far
            - a.direct_greedy_far) + (b.dsq_dispatch - a.dsq_dispatch) + (b.greedy - a.greedy),
        a.wake_sync == 0 && a.prev_idle == 0 && a.greedy_idle == 0 && a.pinned == 0
            && a.direct_dispatch == 0 && a.direct_greedy == 0 && a.direct_greedy_far == 0
            && a.dsq_dispatch == 0 && a.greedy == 0 ==> a.dispatched() == 0,
{
}

/// A counter of the kernel side, added up over all CPUs; `None` where the sum
/// does not fit.
pub fn sum_percpu(values: &[u64]) -> (res: Option<u64>)
    ensures
        res is Some <==> sum_of(values@, values@.len()) <= u64::MAX,
        res matches Some(sum) ==> sum == sum_of(values@, values@.len()),
{
    let mut sum: u64 = 0;
    let mut i: usize = 0;
    while i < values.len()
        invariant
            i <= values@.len(),
            sum == sum_of(values@, i as nat),
        decreases values@.len() - i,
    {
        proof {
            lemma_sum_mono(values@, (i + 1) as nat, values@.len());
        }
        match sum.checked_add(values[i]) {
            Some(next) => {
                sum = next;
            },
            None => {
                return None;
            },
        }
        i = i + 1;
    }
    Some(sum)
}

/// `stat` in percent of `total`.
pub open spec fn percent(stat: u64, total: nat) -> Double {
    Double::of_nat(stat as nat).over(Double::of_nat(total)).times(Double { bits: HUNDRED_BITS })
}

/// A share in percent is the exact one up to a part in `2^45`, or a few units
/// where that is more.
pub proof fn law_percent(stat: u64, total: u64)
    requires
        total > 0,
    ensures
        percent(stat, total as nat).finite(),
        accuracy::gap(
            percent(stat, total as nat).value() * total,
            100 * (stat * accuracy::unit()),
        ) * 0x2000_0000_0000 <= 100 * (stat * accuracy::unit()) + 0x20_0000_0000_0000 * total,
{
    let u = accuracy::unit() as int;
    let ratio = Double::of_nat(stat as nat).over(Double::of_nat(total as nat));
    let hundred = Double { bits: HUNDRED_BITS };
    accuracy::law_ratio(stat as nat, total as nat);
    tuner::lemma_hundred();
    double::lemma_of_nat_exact(100);
    double::lemma_parts(ratio);
    double::lemma_parts(hundred);
    pow2::lemma_pow2_consts();
    pow2::lemma_pow2_pos(1074);
    pow2::lemma_pow2_add(127, 1074);
    pow2::lemma_pow2_mono(127 + 1074, 2097);
    let (q, n, a) = (ratio.mag() as int, total as int, stat * u);
    assert(q <= q * n && a <= 0x1_0000_0000_0000_0000 * u) by (nonlinear_arith)
        requires
            q >= 0,
            n >= 1,
            a == stat * u,
            u >= 0,
            stat < 0x1_0000_0000_0000_0000,
    ;
    pow2::lemma_pow2_mono(127, 1074);
    assert(q * n <= 2 * a + n);
    let big = pow2::pow2(2097) as int;
    assert(q * (100 * u) < u * big) by (nonlinear_arith)
        requires
            0 <= q,
            100 * q < big,
            u >= 1,
    ;
    accuracy::law_times(ratio, hundred);
    let pct = percent(stat, total as nat);
    double::lemma_parts(pct);
    let v = pct.mag() as int;
    assert(q * (100 * u) == (100 * q) * u) by (nonlinear_arith);
    let x = 100 * q;
    assert(accuracy::gap(v, x) * 0x20_0000_0000_0000 <= x + 0x10_0000_0000_0000) by (nonlinear_arith)
        requires
            accuracy::gap(v * u, x * u) * 0x20_0000_0000_0000 <= x * u + 0x10_0000_0000_0000 * u,
            u >= 1,
    {
        assert(accuracy::gap(v * u, x * u) == accuracy::gap(v, x) * u);
    }
    accuracy::lemma_scale(v, x, x + 0x10_0000_0000_0000, 0x20_0000_0000_0000, n);
    assert(x * n == 100 * (q * n) && (x + 0x10_0000_0000_0000) * n == x * n + 0x10_0000_0000_0000
        * n) by (nonlinear_arith)
        requires
            x == 100 * q,
    ;
}

/// A share of nothing is no number, or infinite where there is a part of it.
pub proof fn law_percent_of_nothing(stat: u64)
    ensures
        stat == 0 ==> percent(stat, 0).nan(),
        stat > 0 ==> percent(stat, 0).infinite() && !percent(stat, 0).sign(),
{
    let (a, b) = (Double::of_nat(stat as nat), Double::of_nat(0));
    let hundred = Double { bits: HUNDRED_BITS };
    accuracy::law_of_nat(stat as nat);
    double::lemma_of_nat_bounds(stat as nat);
    double::lemma_of_nat_exact(0);
    double::lemma_of_nat_exact(100);
    tuner::lemma_hundred();
    pow2::lemma_pow2_pos(1074);
    double::lemma_parts(a);
    assert(0 * pow2::pow2(1074) == 0);
    accuracy::law_over_zero_and_infinities(a, b);
    accuracy::law_times_of_infinities(a.over(b), hundred);
}

fn stat_pct(stat: u64, total: u64) -> (res: Double)
    ensures
        res == percent(stat, total as nat),
{
    Double::from_u64(stat).div(Double::from_u64(total)).mul(Double { bits: HUNDRED_BITS })
}

/// The words of a mask that are shown for a number of CPUs.
pub open spec fn shown(mask: Seq<u64>, nr_cpus: int) -> Seq<u64> {
    mask.take(
        if (nr_cpus + 64) / 64 < mask.len() {
            (nr_cpus + 64) / 64
        } else {
            mask.len() as int
        },
    )
}

/// The words that are shown are those of the mask from the first one on, as far as
/// the mask goes, up to the one that the number of CPUs falls into.
pub proof fn law_shown(mask: Seq<u64>, nr_cpus: int, i: int)
    requires
        nr_cpus >= 0,
        i >= 0,
    ensures
        i < shown(mask, nr_cpus).len() <==> i < mask.len() && 64 * i <= nr_cpus,
        i < shown(mask, nr_cpus).len() ==> shown(mask, nr_cpus)[i] == mask[i],
{
}

/// Puts together the figures of a round.
pub fn report(
    stats: &BpfStats,
    cpu_busy: Double,
    nr_lb_data_errors: u64,
    load_avg: Double,
    dom_utils: &[Double],
    dom_loads: &[Double],
    imbal: &[Double],
    ti: &TuneInput,
    nr_cpus: usize,
    nr_doms: usize,
) -> (res: Report)
    requires
        stats.dispatched() <= u64::MAX,
        nr_cpus + 64 <= usize::MAX,
        nr_doms <= dom_utils@.len(),
        nr_doms <= dom_loads@.len(),
        nr_doms <= imbal@.len(),
    ensures
        res.cpu_busy == cpu_busy.times(Double { bits: HUNDRED_BITS }),
        res.load_balance == stats.load_balance,
        res.load_avg == load_avg,
        res.task_err == stats.task_get_err,
        res.lb_data_err == nr_lb_data_errors,
        res.total == stats.dispatched(),
        res.wake_sync == percent(stats.wake_sync, stats.dispatched()),
        res.prev_idle == percent(stats.prev_idle, stats.dispatched()),
        res.greedy_idle == percent(stats.greedy_idle, stats.dispatched()),
        res.pinned == percent(stats.pinned, stats.dispatched()),
        res.direct_dispatch == percent(stats.direct_dispatch, stats.dispatched()),
        res.direct_greedy == percent(stats.direct_greedy, stats.dispatched()),
        res.direct_greedy_far == percent(stats.direct_greedy_far, stats.dispatched()),
        res.dsq_dispatch == percent(stats.dsq_dispatch, stats.dispatched()),
        res.greedy == percent(stats.greedy, stats.dispatched()),
        res.kick_greedy == percent(stats.kick_greedy, stats.dispatched()),
        res.repatriate == percent(stats.repatriate, stats.dispatched()),
        res.direct_greedy_cpumask@ == cpumask::mask_text(
            shown(ti.direct_greedy_cpumask@, nr_cpus as int),
        ),
        res.kick_greedy_cpumask@ == cpumask::mask_text(
            shown(ti.kick_greedy_cpumask@, nr_cpus as int),
        ),
        res.doms@ == Seq::new(
            nr_doms as nat,
            |dom: int|
                (DomReport {
                    util: dom_utils@[dom].times(Double { bits: HUNDRED_BITS }),
                    load: dom_loads@[dom],
                    imbal: imbal@[dom],
                    balanced: imbal@[dom].same(Double::zero()),
                }),
        ),
{
    let total: u64 = stats.wake_sync + stats.prev_idle + stats.greedy_idle + stats.pinned
        + stats.direct_dispatch + stats.direct_greedy + stats.direct_greedy_far
        + stats.dsq_dispatch + stats.greedy;
    let mut doms: Vec<DomReport> = Vec::new();
    let mut dom: usize = 0;
    while dom < nr_doms
        invariant
            dom <= nr_doms,
            nr_doms <= dom_utils@.len(),
            nr_doms <= dom_loads@.len(),
            nr_doms <= imbal@.len(),
            doms@.len() == dom,
            forall|d: int|
                0 <= d < dom ==> #[trigger] doms@[d] == (DomReport {
                    util: dom_utils@[d].times(Double { bits: HUNDRED_BITS }),
                    load: dom_loads@[d],
                    imbal: imbal@[d],
                    balanced: imbal@[d].same(Double::zero()),
                }),
        decreases nr_doms - dom,
    {
        doms.push(
            DomReport {
                util: dom_utils[dom].mul(Double { bits: HUNDRED_BITS }),
                load: dom_loads[dom],
                imbal: imbal[dom],
                balanced: imbal[dom].equals(Double { bits: 0 }),
            },
        );
        dom = dom + 1;
    }
    assert(doms@ =~= Seq::new(
        nr_doms as nat,
        |d: int|
            (DomReport {
                util: dom_utils@[d].times(Double { bits: HUNDRED_BITS }),
                load: dom_loads@[d],
                imbal: imbal@[d],
                balanced: imbal@[d].same(Double::zero()),
            }),
    ));
    Report {
        cpu_busy: cpu_busy.mul(Double { bits: HUNDRED_BITS }),
        load_balance: stats.load_balance,
        load_avg,
        task_err: stats.task_get_err,
        lb_data_err: nr_lb_data_errors,
        total,
        wake_sync: stat_pct(stats.wake_sync, total),
        prev_idle: stat_pct(stats.prev_idle, total),
        greedy_idle: stat_pct(stats.greedy_idle, total),
        pinned: stat_pct(stats.pinned, total),
        direct_dispatch: stat_pct(stats.direct_dispatch, total),
        direct_greedy: stat_pct(stats.direct_greedy, total),
        direct_greedy_far: stat_pct(stats.direct_greedy_far, total),
        dsq_dispatch: stat_pct(stats.dsq_dispatch, total),
        greedy: stat_pct(stats.greedy, total),
        kick_greedy: stat_pct(stats.kick_greedy, total),
        repatriate: stat_pct(stats.repatriate, total),
        direct_greedy_cpumask: cpumask::format_cpumask(&ti.direct_greedy_cpumask, nr_cpus),
        kick_greedy_cpumask: cpumask::format_cpumask(&ti.kick_greedy_cpumask, nr_cpus),
        doms,
    }
}

} // verus!
