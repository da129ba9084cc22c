//! CPU time counters and the utilization over the interval between two
//! readings of them.
use vstd::prelude::*;
use crate::accuracy;
use crate::double;
use crate::double::Double;
use crate::pow2;

verus! {

/// The bits of 1.0.
pub const ONE_BITS: u64 = 0x3ff0_0000_0000_0000;

/// Accumulated CPU time by kind, in microseconds. A kind that the system does
/// not report is `None`.
#[derive(Clone, Copy, Debug)]
pub struct CpuStat {
    pub user_usec: Option<u64>,
    pub nice_usec: Option<u64>,
    pub system_usec: Option<u64>,
    pub idle_usec: Option<u64>,
    pub iowait_usec: Option<u64>,
    pub irq_usec: Option<u64>,
    pub softirq_usec: Option<u64>,
    pub stolen_usec: Option<u64>,
}

/// A kind of CPU time is missing from one of the readings.
#[derive(Clone, Copy, Debug, PartialEq, Eq, Structural)]
pub struct MissingStats;

impl CpuStat {
    /// Every kind of CPU time is reported.
    pub open spec fn complete(self) -> bool {
        &&& self.user_usec is Some
        &&& self.nice_usec is Some
        &&& self.system_usec is Some
        &&& self.idle_usec is Some
        &&& self.iowait_usec is Some
        &&& self.irq_usec is Some
        &&& self.softirq_usec is Some
        &&& self.stolen_usec is Some
    }
}

/// How far a counter went from `prev` to `curr`; nothing where it went back.
pub open spec fn advance(curr: u64, prev: u64) -> nat {
    if curr >= prev {
        (curr - prev) as nat
    } else {
        0
    }
}

/// The time spent working between two complete readings.
pub open spec fn busy_usec(curr: CpuStat, prev: CpuStat) -> nat {
    advance(curr.user_usec->0, prev.user_usec->0)
        + advance(curr.system_usec->0, prev.system_usec->0)
        + advance(curr.nice_usec->0, prev.nice_usec->0)
        + advance(curr.irq_usec->0, prev.irq_usec->0)
        + advance(curr.softirq_usec->0, prev.softirq_usec->0)
        + advance(curr.stolen_usec->0, prev.stolen_usec->0)
}

/// All the time that passed between two complete readings.
pub open spec fn total_usec(curr: CpuStat, prev: CpuStat) -> nat {
    advance(curr.idle_usec->0, prev.idle_usec->0) + busy_usec(curr, prev)
        + advance(curr.iowait_usec->0, prev.iowait_usec->0)
}

/// The time between two readings can be counted in 64 bits.
pub open spec fn countable(curr: CpuStat, prev: CpuStat) -> bool {
    curr.complete() && prev.complete() ==> total_usec(curr, prev) <= u64::MAX
}

/// The busy share of the time between two complete readings, between 0 and 1;
/// 1 where no time passed.
pub open spec fn util(curr: CpuStat, prev: CpuStat) -> Double {
    if total_usec(curr, prev) > 0 {
        Double::of_nat(busy_usec(curr, prev)).over(
            Double::of_nat(total_usec(curr, prev)),
        ).clamped(Double::zero(), Double { bits: ONE_BITS })
    } else {
        Double { bits: ONE_BITS }
    }
}

/// The difference of two counter values, or zero where the counter went back.
pub fn sub_or_zero(curr: &u64, prev: &u64) -> (res: u64)
    ensures
        res == advance(*curr, *prev),
{
    if let Some(res) = curr.checked_sub(*prev) {
        res
    } else {
        0
    }
}

/// The busy and the total time between two readings.
fn elapsed(curr: &CpuStat, prev: &CpuStat) -> (res: Result<(u64, u64), MissingStats>)
    requires
        countable(*curr, *prev),
    ensures
        res is Ok <==> curr.complete() && prev.complete(),
        res matches Ok(t) ==> t.0 == busy_usec(*curr, *prev) && t.1 == total_usec(*curr, *prev),
{
    match (curr, prev) {
        (
            CpuStat {
                user_usec: Some(curr_user),
                nice_usec: Some(curr_nice),
                system_usec: Some(curr_system),
                idle_usec: Some(curr_idle),
                iowait_usec: Some(curr_iowait),
                irq_usec: Some(curr_irq),
                softirq_usec: Some(curr_softirq),
                stolen_usec: Some(curr_stolen),
            },
            CpuStat {
                user_usec: Some(prev_user),
                nice_usec: Some(prev_nice),
                system_usec: Some(prev_system),
                idle_usec: Some(prev_idle),
                iowait_usec: Some(prev_iowait),
                irq_usec: Some(prev_irq),
                softirq_usec: Some(prev_softirq),
                stolen_usec: Some(prev_stolen),
            },
        ) => {
            let idle_usec: u64 = sub_or_zero(curr_idle, prev_idle);
            let iowait_usec: u64 = sub_or_zero(curr_iowait, prev_iowait);
            let user_usec: u64 = sub_or_zero(curr_user, prev_user);
            let system_usec: u64 = sub_or_zero(curr_system, prev_system);
            let nice_usec: u64 = sub_or_zero(curr_nice, prev_nice);
            let irq_usec: u64 = sub_or_zero(curr_irq, prev_irq);
            let softirq_usec: u64 = sub_or_zero(curr_softirq, prev_softirq);
            let stolen_usec: u64 = sub_or_zero(curr_stolen, prev_stolen);

            let busy_usec: u64 = user_usec + system_usec + nice_usec + irq_usec + softirq_usec
                + stolen_usec;
            let total_usec: u64 = idle_usec + busy_usec + iowait_usec;
            Ok((busy_usec, total_usec))
        },
        _ => Err(MissingStats),
    }
}

/// Whether the time between two readings can be counted in 64 bits.
pub fn is_countable(curr: &CpuStat, prev: &CpuStat) -> (res: bool)
    ensures
        res == countable(*curr, *prev),
{
    match (curr, prev) {
        (
            CpuStat {
                user_usec: Some(curr_user),
                nice_usec: Some(curr_nice),
                system_usec: Some(curr_system),
                idle_usec: Some(curr_idle),
                iowait_usec: Some(curr_iowait),
                irq_usec: Some(curr_irq),
                softirq_usec: Some(curr_softirq),
                stolen_usec: Some(curr_stolen),
            },
            CpuStat {
                user_usec: Some(prev_user),
                nice_usec: Some(prev_nice),
                system_usec: Some(prev_system),
                idle_usec: Some(prev_idle),
                iowait_usec: Some(prev_iowait),
                irq_usec: Some(prev_irq),
                softirq_usec: Some(prev_softirq),
                stolen_usec: Some(prev_stolen),
            },
        ) => {
            let total_usec: u128 = sub_or_zero(curr_idle, prev_idle) as u128
                + sub_or_zero(curr_iowait, prev_iowait) as u128
                + sub_or_zero(curr_user, prev_user) as u128
                + sub_or_zero(curr_system, prev_system) as u128
                + sub_or_zero(curr_nice, prev_nice) as u128
                + sub_or_zero(curr_irq, prev_irq) as u128
                + sub_or_zero(curr_softirq, prev_softirq) as u128
                + sub_or_zero(curr_stolen, prev_stolen) as u128;
            total_usec <= u64::MAX as u128
        },
        _ => true,
    }
}

/// The utilization of a CPU between two readings of its counters.
pub fn calc_util(curr: &CpuStat, prev: &CpuStat) -> (res: Result<Double, MissingStats>)
    requires
        countable(*curr, *prev),
    ensures
        res is Ok <==> curr.complete() && prev.complete(),
        res matches Ok(u) ==> u == util(*curr, *prev),
{
    match elapsed(curr, prev) {
        Ok((busy_usec, total_usec)) => {
            if total_usec > 0 {
                let busy: Double = Double::from_u64(busy_usec);
                Ok(
                    busy.div(Double::from_u64(total_usec)).clamp(
                        Double { bits: 0 },
                        Double { bits: ONE_BITS },
                    ),
                )
            } else {
                Ok(Double { bits: ONE_BITS })
            }
        },
        Err(e) => Err(e),
    }
}

/// The busy share of the whole machine since the last reading, which is then
/// replaced by `total_cpu`. Where a kind of time is missing nothing changes.
pub fn get_cpu_busy(prev_total_cpu: &mut CpuStat, total_cpu: CpuStat) -> (res: Result<
    Double,
    MissingStats,
>)
    requires
        countable(total_cpu, *old(prev_total_cpu)),
    ensures
        res is Ok <==> total_cpu.complete() && old(prev_total_cpu).complete(),
        res matches Ok(b) ==> b == Double::of_nat(busy_usec(total_cpu, *old(prev_total_cpu))).over(
            Double::of_nat(total_usec(total_cpu, *old(prev_total_cpu))),
        ),
        *final(prev_total_cpu) == (if res is Ok {
            total_cpu
        } else {
            *old(prev_total_cpu)
        }),
{
    match elapsed(&total_cpu, prev_total_cpu) {
        Ok((busy_usec, total_usec)) => {
            let busy: Double = Double::from_u64(busy_usec).div(Double::from_u64(total_usec));
            *prev_total_cpu = total_cpu;
            Ok(busy)
        },
        Err(e) => Err(e),
    }
}

/// Utilization is the busy share of the time that passed, up to a part in
/// `2^50`: the time that the user, system, nice, irq, softirq and stolen counters
/// advanced by, of the time that all counters advanced by, where a counter that
/// went back did not advance. Where no time passed it is 1.
pub proof fn law_util_is_the_busy_share(curr: CpuStat, prev: CpuStat)
    requires
        countable(curr, prev),
        curr.complete(),
        prev.complete(),
    ensures
        ({
            let went = |c: Option<u64>, p: Option<u64>|
                if c->0 >= p->0 {
                    c->0 - p->0
                } else {
                    0
                };
            let busy = went(curr.user_usec, prev.user_usec) + went(curr.system_usec, prev.system_usec)
                + went(curr.nice_usec, prev.nice_usec) + went(curr.irq_usec, prev.irq_usec) + went(
                curr.softirq_usec,
                prev.softirq_usec,
            ) + went(curr.stolen_usec, prev.stolen_usec);
            let total = busy + went(curr.idle_usec, prev.idle_usec) + went(
                curr.iowait_usec,
                prev.iowait_usec,
            );
            &&& util(curr, prev).finite()
            &&& total == 0 ==> util(curr, prev).value() == accuracy::unit()
            &&& total > 0 ==> accuracy::gap(
                util(curr, prev).value() * total,
                busy * accuracy::unit(),
            ) * 0x4_0000_0000_0000 <= total * accuracy::unit()
        }),
{
    let busy = busy_usec(curr, prev);
    let total = total_usec(curr, prev);
    let u = accuracy::unit() as int;
    let one = Double { bits: ONE_BITS };
    double::lemma_one();
    double::lemma_of_nat_exact(1);
    pow2::lemma_pow2_consts();
    if total > 0 {
        let q = Double::of_nat(busy).over(Double::of_nat(total));
        accuracy::law_ratio(busy, total);
        accuracy::lemma_share_at_most_one(busy, total);
        accuracy::law_order(q, one);
        accuracy::law_order(q, Double::zero());
        double::lemma_parts(q);
        double::lemma_parts(Double::zero());
        assert(util(curr, prev) == q);
        pow2::lemma_pow2_mono(60, 1074);
        assert(busy * u <= total * u && 0x1000_0000_0000_0000 * total <= total * u) by (nonlinear_arith)
            requires
                0 <= busy <= total,
                u >= 0x1000_0000_0000_0000,
        ;
    }
}

/// The times between two readings: the busy time is what the user, system, nice,
/// irq, softirq and stolen counters advanced by, and the total time what all
/// counters did. A reading with all eight counters is complete, and the time
/// between two of them can be counted where it fits into 64 bits.
pub proof fn law_elapsed(curr: CpuStat, prev: CpuStat)
    ensures
        curr.complete() <==> !(curr.user_usec is None || curr.nice_usec is None || curr.system_usec
            is None || curr.idle_usec is None || curr.iowait_usec is None || curr.irq_usec is None
            || curr.softirq_usec is None || curr.stolen_usec is None),
        ({
            let went = |c: Option<u64>, p: Option<u64>|
                if c->0 >= p->0 {
                    c->0 - p->0
                } else {
                    0
                };
            let busy = went(curr.user_usec, prev.user_usec) + went(curr.system_usec, prev.system_usec)
                + went(curr.nice_usec, prev.nice_usec) + went(curr.irq_usec, prev.irq_usec) + went(
                curr.softirq_usec,
                prev.softirq_usec,
            ) + went(curr.stolen_usec, prev.stolen_usec);
            let total = busy + went(curr.idle_usec, prev.idle_usec) + went(
                curr.iowait_usec,
                prev.iowait_usec,
            );
            &&& busy_usec(curr, prev) == busy
            &&& total_usec(curr, prev) == total
            &&& !countable(curr, prev) <==> curr.complete() && prev.complete() && total
                >= 0x1_0000_0000_0000_0000
        }),
{
}

/// The busy share of the whole machine is the exact one up to a part in `2^50` of
/// the whole; it is no number where no time passed.
pub proof fn law_machine_busy_share(curr: CpuStat, prev: CpuStat)
    requires
        countable(curr, prev),
        curr.complete(),
        prev.complete(),
    ensures
        ({
            let (busy, total) = (busy_usec(curr, prev), total_usec(curr, prev));
            let share = Double::of_nat(busy).over(Double::of_nat(total));
            &&& total == 0 ==> share.nan()
            &&& total > 0 ==> share.finite() && accuracy::gap(
                share.value() * total,
                (busy * accuracy::unit()) as int,
            ) * 0x4_0000_0000_0000 <= total * accuracy::unit()
        }),
{
    let (busy, total) = (busy_usec(curr, prev), total_usec(curr, prev));
    let u = accuracy::unit() as int;
    if total > 0 {
        accuracy::law_ratio(busy, total);
        pow2::lemma_pow2_consts();
        pow2::lemma_pow2_mono(60, 1074);
        assert(busy * u <= total * u && 0x1000_0000_0000_0000 * total <= total * u)
            by (nonlinear_arith)
            requires
                0 <= busy <= total,
                u >= 0x1000_0000_0000_0000,
        ;
    } else {
        double::lemma_of_nat_exact(0);
        assert(0 * pow2::pow2(1074) == 0);
        accuracy::law_over_zero_and_infinities(Double::of_nat(0), Double::of_nat(0));
    }
}

/// Utilization lies between 0 and 1.
pub proof fn law_util_range(curr: CpuStat, prev: CpuStat)
    requires
        countable(curr, prev),
        curr.complete(),
        prev.complete(),
    ensures
        !util(curr, prev).sign(),
        Double::zero().at_most(util(curr, prev)),
        util(curr, prev).at_most(Double { bits: ONE_BITS }),
{
    if total_usec(curr, prev) > 0 {
        double::lemma_of_nat_bounds(busy_usec(curr, prev));
        double::lemma_of_nat_bounds(total_usec(curr, prev));
        reveal(Double::over);
    }
}

} // verus!
