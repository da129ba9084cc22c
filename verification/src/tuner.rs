//! The high frequency part of the scheduler: it measures how busy the domains
//! are and marks the CPUs that may take work from other domains.
use std::collections::BTreeMap;
use vstd::prelude::*;
use crate::accuracy;
use crate::approx;
use crate::cpumask;
use crate::cpustat;
use crate::cpustat::{CpuStat, MissingStats};
use crate::double;
use crate::double::Double;
use crate::pow2;
use crate::rounding;
use crate::topology::{MAX_CPUS, Topology};

verus! {

/// The bits of 0.99999, from which on a share counts as the whole.
pub const FULL_BITS: u64 = 0x3fef_ffeb_074a_771d;

/// The bits of 100.0.
pub const HUNDRED_BITS: u64 = 0x4059_0000_0000_0000;

/// What the tuner hands to the kernel side.
#[derive(Clone, Copy, Debug)]
pub struct TuneInput {
    /// Grows by one with every update.
    pub gen: u64,
    /// CPUs that get remote tasks pushed on them directly while idle.
    pub direct_greedy_cpumask: [u64; 8],
    /// CPUs that may be kicked while idle to speed up stealing.
    pub kick_greedy_cpumask: [u64; 8],
}

/// The state of the tuner between two steps.
#[derive(Debug)]
pub struct Tuner {
    pub top: Topology,
    /// Domains less busy than this get remote tasks pushed on their CPUs.
    pub direct_greedy_under: Double,
    /// CPUs of domains less busy than this may be kicked.
    pub kick_greedy_under: Double,
    pub prev_cpu_stats: BTreeMap<u32, CpuStat>,
    /// Whether the machine is busy enough for load balancing to go by weight.
    pub lb_apply_weight: bool,
    pub dom_utils: Vec<Double>,
}

/// A CPU counts in a step where it has a domain and is in both readings.
pub open spec fn sampled(
    top: Topology,
    curr: Map<u32, CpuStat>,
    prev: Map<u32, CpuStat>,
    cpu: int,
) -> bool {
    top.dom_of(cpu) is Some && curr.contains_key(cpu as u32) && prev.contains_key(cpu as u32)
}

/// The sum of the utilization of the CPUs below `n`, added up in that order.
pub open spec fn util_sum(
    top: Topology,
    curr: Map<u32, CpuStat>,
    prev: Map<u32, CpuStat>,
    n: nat,
) -> Double
    decreases n,
{
    if n == 0 {
        Double::zero()
    } else {
        let cpu = n - 1;
        let sum = util_sum(top, curr, prev, (n - 1) as nat);
        if sampled(top, curr, prev, cpu) {
            sum.plus(cpustat::util(curr[cpu as u32], prev[cpu as u32]))
        } else {
            sum
        }
    }
}

/// The sum of the utilization of the CPUs of a domain below `n`, added up in
/// that order.
pub open spec fn dom_util_sum(
    top: Topology,
    curr: Map<u32, CpuStat>,
    prev: Map<u32, CpuStat>,
    dom: int,
    n: nat,
) -> Double
    decreases n,
{
    if n == 0 {
        Double::zero()
    } else {
        let cpu = n - 1;
        let sum = dom_util_sum(top, curr, prev, dom, (n - 1) as nat);
        if sampled(top, curr, prev, cpu) && top.dom_of(cpu)->0 == dom {
            sum.plus(cpustat::util(curr[cpu as u32], prev[cpu as u32]))
        } else {
            sum
        }
    }
}

/// The number of CPUs of a domain below `n` that count.
pub open spec fn dom_nr_cpus(
    top: Topology,
    curr: Map<u32, CpuStat>,
    prev: Map<u32, CpuStat>,
    dom: int,
    n: nat,
) -> nat
    decreases n,
{
    if n == 0 {
        0
    } else {
        let cpu = n - 1;
        let count = dom_nr_cpus(top, curr, prev, dom, (n - 1) as nat);
        if sampled(top, curr, prev, cpu) && top.dom_of(cpu)->0 == dom {
            count + 1
        } else {
            count
        }
    }
}

/// The average utilization of the CPUs of a domain; 0 where none counts.
pub open spec fn dom_util(
    top: Topology,
    curr: Map<u32, CpuStat>,
    prev: Map<u32, CpuStat>,
    dom: int,
) -> Double {
    let count = dom_nr_cpus(top, curr, prev, dom, top.cpus());
    if count == 0 {
        Double::zero()
    } else {
        dom_util_sum(top, curr, prev, dom, top.cpus()).over(Double::of_nat(count))
    }
}

/// The average utilization of the machine over all of its CPUs.
pub open spec fn avg_util(
    top: Topology,
    curr: Map<u32, CpuStat>,
    prev: Map<u32, CpuStat>,
) -> Double {
    util_sum(top, curr, prev, top.cpus()).over(Double::of_nat(top.cpus()))
}

/// Whether a domain with this utilization is to take work, given the share
/// under which it is: always where that share is the whole.
pub open spec fn takes_work(under: Double, util: Double) -> bool {
    (Double { bits: FULL_BITS }).below(under) || util.below(under)
}

/// The mask after a step: the CPUs of a domain are in it where the domain takes
/// work, and CPUs without a domain stay as they were.
pub open spec fn tuned(
    top: Topology,
    curr: Map<u32, CpuStat>,
    prev: Map<u32, CpuStat>,
    under: Double,
    before: Seq<u64>,
    after: Seq<u64>,
) -> bool {
    forall|cpu: int|
        0 <= cpu < 512 ==> #[trigger] cpumask::has_cpu(after, cpu) == (if cpu < top.cpus()
            && top.dom_of(cpu) is Some {
            takes_work(under, dom_util(top, curr, prev, top.dom_of(cpu)->0 as int))
        } else {
            cpumask::has_cpu(before, cpu)
        })
}

impl Tuner {
    /// There is a utilization for each domain, and the masks have room for
    /// every CPU.
    pub open spec fn wf(self) -> bool {
        &&& self.top.wf()
        &&& self.top.within_limits()
        &&& self.dom_utils@.len() == self.top.doms()
    }

    /// A tuner that has not taken a step yet. The two shares are in percent.
    pub fn new(
        top: Topology,
        direct_greedy_under: Double,
        kick_greedy_under: Double,
        prev_cpu_stats: BTreeMap<u32, CpuStat>,
    ) -> (res: Tuner)
        requires
            top.wf(),
            top.within_limits(),
        ensures
            res.wf(),
            res.top == top,
            res.direct_greedy_under == direct_greedy_under.over(Double { bits: HUNDRED_BITS }),
            res.kick_greedy_under == kick_greedy_under.over(Double { bits: HUNDRED_BITS }),
            res.prev_cpu_stats == prev_cpu_stats,
            !res.lb_apply_weight,
            forall|dom: int| 0 <= dom < top.doms() ==> #[trigger] res.dom_utils@[dom] == Double::zero(),
    {
        let mut dom_utils: Vec<Double> = Vec::new();
        let mut dom: usize = 0;
        while dom < top.nr_doms()
            invariant
                dom <= top.doms(),
                dom_utils@.len() == dom,
                forall|d: int| 0 <= d < dom ==> #[trigger] dom_utils@[d] == Double::zero(),
            decreases top.doms() - dom,
        {
            dom_utils.push(Double { bits: 0 });
            dom = dom + 1;
        }
        Tuner {
            direct_greedy_under: direct_greedy_under.div(Double { bits: HUNDRED_BITS }),
            kick_greedy_under: kick_greedy_under.div(Double { bits: HUNDRED_BITS }),
            prev_cpu_stats,
            dom_utils,
            lb_apply_weight: false,
            top,
        }
    }
}

/// Every CPU that counts has all of its counters in both readings.
pub open spec fn all_complete(
    top: Topology,
    curr: Map<u32, CpuStat>,
    prev: Map<u32, CpuStat>,
) -> bool {
    forall|cpu: int|
        0 <= cpu < top.cpus() && #[trigger] sampled(top, curr, prev, cpu)
            ==> curr[cpu as u32].complete() && prev[cpu as u32].complete()
}

/// The time between the readings of every CPU that counts fits 64 bits.
pub open spec fn all_countable(
    top: Topology,
    curr: Map<u32, CpuStat>,
    prev: Map<u32, CpuStat>,
) -> bool {
    forall|cpu: int|
        0 <= cpu < top.cpus() && #[trigger] sampled(top, curr, prev, cpu)
            ==> cpustat::countable(curr[cpu as u32], prev[cpu as u32])
}

/// What is added up over the CPUs in a step.
struct Sums {
    dom_nr_cpus: Vec<u64>,
    dom_util_sum: Vec<Double>,
    util_sum: Double,
}

impl Sums {
    spec fn covers(
        self,
        top: Topology,
        curr: Map<u32, CpuStat>,
        prev: Map<u32, CpuStat>,
        n: nat,
    ) -> bool {
        &&& self.dom_nr_cpus@.len() == top.doms()
        &&& self.dom_util_sum@.len() == top.doms()
        &&& self.util_sum == util_sum(top, curr, prev, n)
        &&& forall|dom: int|
            0 <= dom < top.doms() ==> #[trigger] self.dom_nr_cpus@[dom] == dom_nr_cpus(
                top,
                curr,
                prev,
                dom,
                n,
            )
        &&& forall|dom: int|
            0 <= dom < top.doms() ==> #[trigger] self.dom_util_sum@[dom] == dom_util_sum(
                top,
                curr,
                prev,
                dom,
                n,
            )
    }

    fn new(top: &Topology, curr: Ghost<Map<u32, CpuStat>>, prev: Ghost<Map<u32, CpuStat>>) -> (res:
        Sums)
        ensures
            res.covers(*top, curr@, prev@, 0),
    {
        let mut nr: Vec<u64> = Vec::new();
        let mut sum: Vec<Double> = Vec::new();
        let mut dom: usize = 0;
        while dom < top.nr_doms()
            invariant
                dom <= top.doms(),
                nr@.len() == dom,
                sum@.len() == dom,
                forall|d: int| 0 <= d < dom ==> #[trigger] nr@[d] == 0,
                forall|d: int| 0 <= d < dom ==> #[trigger] sum@[d] == Double::zero(),
            decreases top.doms() - dom,
        {
            nr.push(0);
            sum.push(Double { bits: 0 });
            dom = dom + 1;
        }
        Sums { dom_nr_cpus: nr, dom_util_sum: sum, util_sum: Double { bits: 0 } }
    }
}

proof fn lemma_dom_nr_cpus_bound(
    top: Topology,
    curr: Map<u32, CpuStat>,
    prev: Map<u32, CpuStat>,
    dom: int,
    n: nat,
)
    ensures
        dom_nr_cpus(top, curr, prev, dom, n) <= n,
    decreases n,
{
    if n > 0 {
        lemma_dom_nr_cpus_bound(top, curr, prev, dom, (n - 1) as nat);
    }
}

impl Tuner {
    /// Adds up the utilization since the last step over the CPUs that count.
    fn measure(&self, curr: &BTreeMap<u32, CpuStat>) -> (res: Result<Sums, MissingStats>)
        requires
            self.wf(),
            all_countable(self.top, curr@, self.prev_cpu_stats@),
        ensures
            res is Ok <==> all_complete(self.top, curr@, self.prev_cpu_stats@),
            res matches Ok(sums) ==> sums.covers(
                self.top,
                curr@,
                self.prev_cpu_stats@,
                self.top.cpus(),
            ),
    {
        broadcast use vstd::std_specs::btree::group_btree_axioms;

        let ghost prev = self.prev_cpu_stats@;
        let mut sums: Sums = Sums::new(&self.top, Ghost(curr@), Ghost(prev));
        let mut cpu: usize = 0;
        while cpu < self.top.nr_cpus()
            invariant
                self.wf(),
                prev == self.prev_cpu_stats@,
                all_countable(self.top, curr@, prev),
                cpu <= self.top.cpus(),
                sums.covers(self.top, curr@, prev, cpu as nat),
                forall|c: int|
                    0 <= c < cpu && #[trigger] sampled(self.top, curr@, prev, c)
                        ==> curr@[c as u32].complete() && prev[c as u32].complete(),
            decreases self.top.cpus() - cpu,
        {
            let cpu32: u32 = cpu as u32;
            if let (Some(dom), Some(c), Some(p)) = (
                self.top.cpu_domain_id(cpu),
                curr.get(&cpu32),
                self.prev_cpu_stats.get(&cpu32),
            ) {
                assert(sampled(self.top, curr@, prev, cpu as int));
                let util: Double = match cpustat::calc_util(c, p) {
                    Ok(util) => util,
                    Err(e) => {
                        return Err(e);
                    },
                };
                let ghost before = sums;
                proof {
                    lemma_dom_nr_cpus_bound(self.top, curr@, prev, dom as int, cpu as nat);
                    assert(before.dom_nr_cpus@[dom as int] <= cpu);
                }
                let nr: u64 = sums.dom_nr_cpus[dom];
                let sum: Double = sums.dom_util_sum[dom];
                sums.dom_nr_cpus[dom] = nr + 1;
                sums.dom_util_sum[dom] = sum.add(util);
                sums.util_sum = sums.util_sum.add(util);
                proof {
                    let n = (cpu + 1) as nat;
                    assert forall|d: int| 0 <= d < self.top.doms() implies #[trigger] sums.dom_nr_cpus@[d]
                        == dom_nr_cpus(self.top, curr@, prev, d, n) by {
                        assert(before.dom_nr_cpus@[d] == dom_nr_cpus(self.top, curr@, prev, d, cpu as nat));
                    }
                    assert forall|d: int| 0 <= d < self.top.doms() implies #[trigger] sums.dom_util_sum@[d]
                        == dom_util_sum(self.top, curr@, prev, d, n) by {
                        assert(before.dom_util_sum@[d] == dom_util_sum(self.top, curr@, prev, d, cpu as nat));
                    }
                }
            } else {
                assert(!sampled(self.top, curr@, prev, cpu as int));
            }
            cpu = cpu + 1;
        }
        Ok(sums)
    }

    /// Whether the time since the last step fits 64 bits on every CPU that
    /// counts.
    pub fn is_countable(&self, curr_cpu_stats: &BTreeMap<u32, CpuStat>) -> (res: bool)
        requires
            self.wf(),
        ensures
            res == all_countable(self.top, curr_cpu_stats@, self.prev_cpu_stats@),
    {
        broadcast use vstd::std_specs::btree::group_btree_axioms;

        let ghost curr = curr_cpu_stats@;
        let ghost prev = self.prev_cpu_stats@;
        let mut cpu: usize = 0;
        while cpu < self.top.nr_cpus()
            invariant
                self.wf(),
                curr == curr_cpu_stats@,
                prev == self.prev_cpu_stats@,
                cpu <= self.top.cpus(),
                forall|c: int|
                    0 <= c < cpu && #[trigger] sampled(self.top, curr, prev, c)
                        ==> cpustat::countable(curr[c as u32], prev[c as u32]),
            decreases self.top.cpus() - cpu,
        {
            let cpu32: u32 = cpu as u32;
            if let (Some(_), Some(c), Some(p)) = (
                self.top.cpu_domain_id(cpu),
                curr_cpu_stats.get(&cpu32),
                self.prev_cpu_stats.get(&cpu32),
            ) {
                assert(sampled(self.top, curr, prev, cpu as int));
                if !cpustat::is_countable(c, p) {
                    return false;
                }
            } else {
                assert(!sampled(self.top, curr, prev, cpu as int));
            }
            cpu = cpu + 1;
        }
        true
    }

    /// Takes a step: measures how busy the domains were since the last one and
    /// updates the masks of the CPUs that may take work from other domains.
    /// Where a counter is missing nothing changes.
    pub fn step(&mut self, curr_cpu_stats: BTreeMap<u32, CpuStat>, ti: &mut TuneInput) -> (res: Result<
        (),
        MissingStats,
    >)
        requires
            old(self).wf(),
            all_countable(old(self).top, curr_cpu_stats@, old(self).prev_cpu_stats@),
            old(ti).gen < u64::MAX,
        ensures
            final(self).wf(),
            res is Ok <==> all_complete(
                old(self).top,
                curr_cpu_stats@,
                old(self).prev_cpu_stats@,
            ),
            res is Err ==> *final(self) == *old(self) && *final(ti) == *old(ti),
            final(self).top == old(self).top,
            final(self).direct_greedy_under == old(self).direct_greedy_under,
            final(self).kick_greedy_under == old(self).kick_greedy_under,
            res is Ok ==> {
                let top = old(self).top;
                let curr = curr_cpu_stats@;
                let prev = old(self).prev_cpu_stats@;
                &&& final(self).prev_cpu_stats == curr_cpu_stats
                &&& final(self).lb_apply_weight == approx::above_or_near(
                    avg_util(top, curr, prev),
                    Double { bits: FULL_BITS },
                )
                &&& forall|dom: int|
                    0 <= dom < top.doms() ==> #[trigger] final(self).dom_utils@[dom] == dom_util(
                        top,
                        curr,
                        prev,
                        dom,
                    )
                &&& final(ti).gen == old(ti).gen + 1
                &&& tuned(
                    top,
                    curr,
                    prev,
                    old(self).direct_greedy_under,
                    old(ti).direct_greedy_cpumask@,
                    final(ti).direct_greedy_cpumask@,
                )
                &&& tuned(
                    top,
                    curr,
                    prev,
                    old(self).kick_greedy_under,
                    old(ti).kick_greedy_cpumask@,
                    final(ti).kick_greedy_cpumask@,
                )
            },
    {
        let ghost curr = curr_cpu_stats@;
        let ghost prev = self.prev_cpu_stats@;
        let ghost top = self.top;
        let ghost direct = ti.direct_greedy_cpumask@;
        let ghost kick = ti.kick_greedy_cpumask@;
        let sums: Sums = match self.measure(&curr_cpu_stats) {
            Ok(sums) => sums,
            Err(e) => {
                return Err(e);
            },
        };
        let avg: Double = sums.util_sum.div(Double::from_u64(self.top.nr_cpus() as u64));
        self.lb_apply_weight = approx::approx_ge(avg, Double { bits: FULL_BITS });

        let mut dom: usize = 0;
        while dom < self.top.nr_doms()
            invariant
                self.wf(),
                self.top == top,
                self.direct_greedy_under == old(self).direct_greedy_under,
                self.kick_greedy_under == old(self).kick_greedy_under,
                self.lb_apply_weight == approx::above_or_near(
                    avg_util(top, curr, prev),
                    Double { bits: FULL_BITS },
                ),
                sums.covers(top, curr, prev, top.cpus()),
                dom <= top.doms(),
                ti.gen == old(ti).gen,
                forall|d: int|
                    0 <= d < dom ==> #[trigger] self.dom_utils@[d] == dom_util(top, curr, prev, d),
                tuned_below(top, curr, prev, self.direct_greedy_under, direct, ti.direct_greedy_cpumask@, dom as nat),
                tuned_below(top, curr, prev, self.kick_greedy_under, kick, ti.kick_greedy_cpumask@, dom as nat),
            decreases top.doms() - dom,
        {
            let nr: u64 = sums.dom_nr_cpus[dom];
            let util: Double = if nr == 0 {
                Double { bits: 0 }
            } else {
                sums.dom_util_sum[dom].div(Double::from_u64(nr))
            };
            assert(util == dom_util(top, curr, prev, dom as int)) by {
                assert(sums.dom_nr_cpus@[dom as int] == dom_nr_cpus(top, curr, prev, dom as int, top.cpus()));
                assert(sums.dom_util_sum@[dom as int] == dom_util_sum(top, curr, prev, dom as int, top.cpus()));
            }
            self.dom_utils[dom] = util;

            let direct_val: bool = (Double { bits: FULL_BITS }).lt(self.direct_greedy_under)
                || util.lt(self.direct_greedy_under);
            cpumask::update_dom_bits(&mut ti.direct_greedy_cpumask, &self.top, dom, direct_val);
            let kick_val: bool = (Double { bits: FULL_BITS }).lt(self.kick_greedy_under)
                || util.lt(self.kick_greedy_under);
            cpumask::update_dom_bits(&mut ti.kick_greedy_cpumask, &self.top, dom, kick_val);
            dom = dom + 1;
        }
        ti.gen = ti.gen + 1;
        self.prev_cpu_stats = curr_cpu_stats;
        Ok(())
    }
}

/// The mask once the domains below `n` have been dealt with.
spec fn tuned_below(
    top: Topology,
    curr: Map<u32, CpuStat>,
    prev: Map<u32, CpuStat>,
    under: Double,
    before: Seq<u64>,
    after: Seq<u64>,
    n: nat,
) -> bool {
    forall|cpu: int|
        0 <= cpu < 512 ==> #[trigger] cpumask::has_cpu(after, cpu) == (if cpu < top.cpus()
            && top.dom_of(cpu) is Some && top.dom_of(cpu)->0 < n {
            takes_work(under, dom_util(top, curr, prev, top.dom_of(cpu)->0 as int))
        } else {
            cpumask::has_cpu(before, cpu)
        })
}

/// A threshold of 100 percent makes every domain take work.
pub proof fn law_hundred_enables_always(util: Double)
    ensures
        takes_work((Double { bits: HUNDRED_BITS }).over(Double { bits: HUNDRED_BITS }), util),
{
    double::lemma_over_self(Double { bits: HUNDRED_BITS });
}

/// A threshold of 0 percent keeps every domain from taking work.
pub proof fn law_zero_disables(
    top: Topology,
    curr: Map<u32, CpuStat>,
    prev: Map<u32, CpuStat>,
    dom: int,
)
    requires
        all_countable(top, curr, prev),
        all_complete(top, curr, prev),
        top.cpus() <= usize::MAX,
    ensures
        !takes_work(
            Double::zero().over(Double { bits: HUNDRED_BITS }),
            dom_util(top, curr, prev, dom),
        ),
{
    double::lemma_zero_over(Double { bits: HUNDRED_BITS });
    let n = dom_nr_cpus(top, curr, prev, dom, top.cpus());
    lemma_dom_util_sum_unsigned(top, curr, prev, dom, top.cpus());
    lemma_dom_nr_cpus_bound(top, curr, prev, dom, top.cpus());
    double::lemma_of_nat_bounds(n);
    double::lemma_unsigned_results(
        dom_util_sum(top, curr, prev, dom, top.cpus()),
        Double::of_nat(n),
    );
}

/// The exact sum of the utilization of the CPUs below `n` that have a domain, `dom`
/// where that is given, and are in both readings.
pub open spec fn exact_util_sum(
    top: Topology,
    curr: Map<u32, CpuStat>,
    prev: Map<u32, CpuStat>,
    dom: Option<int>,
    n: nat,
) -> int
    decreases n,
{
    if n == 0 {
        0
    } else {
        let cpu = (n - 1) as u32;
        let sum = exact_util_sum(top, curr, prev, dom, (n - 1) as nat);
        if top.dom_of(n - 1) is Some && curr.contains_key(cpu) && prev.contains_key(cpu) && (dom
            is None || top.dom_of(n - 1)->0 == dom->0) {
            sum + cpustat::util(curr[cpu], prev[cpu]).value()
        } else {
            sum
        }
    }
}

/// The number of CPUs below `n` that have the domain and are in both readings.
pub open spec fn sampled_cpus(
    top: Topology,
    curr: Map<u32, CpuStat>,
    prev: Map<u32, CpuStat>,
    dom: int,
    n: nat,
) -> nat
    decreases n,
{
    if n == 0 {
        0
    } else {
        let cpu = (n - 1) as u32;
        let count = sampled_cpus(top, curr, prev, dom, (n - 1) as nat);
        if top.dom_of(n - 1) is Some && curr.contains_key(cpu) && prev.contains_key(cpu)
            && top.dom_of(n - 1)->0 == dom {
            count + 1
        } else {
            count
        }
    }
}

/// The utilization of a CPU in exact terms is no more than one.
proof fn lemma_util_small(curr: CpuStat, prev: CpuStat)
    requires
        cpustat::countable(curr, prev),
        curr.complete(),
        prev.complete(),
    ensures
        accuracy::small(cpustat::util(curr, prev)),
{
    let v = cpustat::util(curr, prev);
    let one = Double { bits: cpustat::ONE_BITS };
    cpustat::law_util_is_the_busy_share(curr, prev);
    cpustat::law_util_range(curr, prev);
    double::lemma_one();
    double::lemma_of_nat_exact(1);
    accuracy::law_order(v, one);
    pow2::lemma_pow2_mono(1074, 2000);
    double::lemma_parts(v);
}

proof fn lemma_exact_util_sum(
    top: Topology,
    curr: Map<u32, CpuStat>,
    prev: Map<u32, CpuStat>,
    dom: int,
    n: nat,
)
    requires
        n <= top.cpus() <= MAX_CPUS,
        all_countable(top, curr, prev),
        all_complete(top, curr, prev),
    ensures
        ({
            let (v, e) = (
                util_sum(top, curr, prev, n),
                exact_util_sum(top, curr, prev, None, n),
            );
            &&& v.finite()
            &&& v.value() >= 0
            &&& 0 <= e <= n * pow2::pow2(2000)
            &&& accuracy::gap(v.value(), e) * 0x4_0000_0000_0000 <= n * e
        }),
        ({
            let (v, e) = (
                dom_util_sum(top, curr, prev, dom, n),
                exact_util_sum(top, curr, prev, Some(dom), n),
            );
            &&& v.finite()
            &&& v.value() >= 0
            &&& 0 <= e <= n * pow2::pow2(2000)
            &&& accuracy::gap(v.value(), e) * 0x4_0000_0000_0000 <= n * e
        }),
        dom_nr_cpus(top, curr, prev, dom, n) == sampled_cpus(top, curr, prev, dom, n),
    decreases n,
{
    let bound = pow2::pow2(2000) as int;
    if n == 0 {
        assert(0 * pow2::pow2(0) == 0);
        assert(0 * bound == 0);
    } else {
        let m = (n - 1) as nat;
        lemma_exact_util_sum(top, curr, prev, dom, m);
        let e = exact_util_sum(top, curr, prev, None, m);
        let f = exact_util_sum(top, curr, prev, Some(dom), m);
        lemma_counted(m as int, e);
        lemma_counted(m as int, f);
        lemma_counted(m as int, bound);
        if sampled(top, curr, prev, m as int) {
            let util = cpustat::util(curr[m as u32], prev[m as u32]);
            lemma_util_small(curr[m as u32], prev[m as u32]);
            lemma_util_step(m as int, util_sum(top, curr, prev, m), e, util);
            lemma_util_step(m as int, dom_util_sum(top, curr, prev, dom, m), f, util);
        }
    }
}

proof fn lemma_counted(n: int, x: int)
    requires
        0 <= n <= 512,
        x >= 0,
    ensures
        0 <= n * x <= 512 * x,
        (n + 1) * x == n * x + x,
{
    assert(0 <= n * x <= 512 * x && (n + 1) * x == n * x + x) by (nonlinear_arith)
        requires
            0 <= n <= 512,
            x >= 0,
    ;
}

proof fn lemma_util_step(n: int, sum: Double, exact: int, util: Double)
    requires
        0 <= n <= 512,
        sum.finite(),
        sum.value() >= 0,
        0 <= exact <= n * pow2::pow2(2000),
        accuracy::gap(sum.value(), exact) * 0x4_0000_0000_0000 <= n * exact,
        accuracy::small(util),
    ensures
        sum.plus(util).finite(),
        sum.plus(util).value() >= 0,
        accuracy::gap(sum.plus(util).value(), exact + util.value()) * 0x4_0000_0000_0000 <= (n + 1)
            * (exact + util.value()),
{
    lemma_counted(n, exact);
    lemma_counted(n, pow2::pow2(2000) as int);
    accuracy::lemma_small_range();
    accuracy::law_plus(sum, util);
    accuracy::lemma_add_term(
        n,
        sum.value(),
        exact,
        util.value(),
        util.value(),
        sum.plus(util).value(),
        0,
    );
}

/// The utilization of a domain is the average of that of its CPUs that have both
/// readings, up to a part in `2^40` and a unit; 0 where there are none.
pub proof fn law_dom_util_is_the_average(
    top: Topology,
    curr: Map<u32, CpuStat>,
    prev: Map<u32, CpuStat>,
    dom: int,
)
    requires
        all_countable(top, curr, prev),
        all_complete(top, curr, prev),
        top.within_limits(),
    ensures
        ({
            let v = dom_util(top, curr, prev, dom);
            let e = exact_util_sum(top, curr, prev, Some(dom), top.cpus());
            let count = sampled_cpus(top, curr, prev, dom, top.cpus());
            &&& v.finite()
            &&& count == 0 ==> v.value() == 0
            &&& count > 0 ==> accuracy::gap(v.value() * count, e) * 0x100_0000_0000 <= e
                + 0x100_0000_0000 * count
        }),
{
    lemma_exact_util_sum(top, curr, prev, dom, top.cpus());
    lemma_dom_nr_cpus_bound(top, curr, prev, dom, top.cpus());
    let e = exact_util_sum(top, curr, prev, Some(dom), top.cpus());
    let count = sampled_cpus(top, curr, prev, dom, top.cpus());
    lemma_counted(top.cpus() as int, e);
    assert(0 * pow2::pow2(0) == 0);
    if count > 0 {
        accuracy::law_mean(dom_util_sum(top, curr, prev, dom, top.cpus()), count);
    }
}

/// The average utilization of the machine is that of its CPUs that have a domain
/// and both readings, over all of its CPUs, up to a part in `2^40` and a unit.
pub proof fn law_avg_util_is_the_average(
    top: Topology,
    curr: Map<u32, CpuStat>,
    prev: Map<u32, CpuStat>,
)
    requires
        all_countable(top, curr, prev),
        all_complete(top, curr, prev),
        0 < top.cpus(),
        top.within_limits(),
    ensures
        ({
            let v = avg_util(top, curr, prev);
            let e = exact_util_sum(top, curr, prev, None, top.cpus());
            &&& v.finite()
            &&& v.value() >= 0
            &&& accuracy::gap(v.value() * top.cpus(), e) * 0x100_0000_0000 <= e + 0x100_0000_0000
                * top.cpus()
        }),
{
    lemma_exact_util_sum(top, curr, prev, 0, top.cpus());
    let e = exact_util_sum(top, curr, prev, None, top.cpus());
    lemma_counted(top.cpus() as int, e);
    accuracy::law_mean(util_sum(top, curr, prev, top.cpus()), top.cpus());
}

/// Balancing goes by weight where the CPUs are busy for at least 99.99 percent of
/// the time on average, and does not up to 99.98 percent.
pub proof fn law_weight_mode(top: Topology, curr: Map<u32, CpuStat>, prev: Map<u32, CpuStat>)
    requires
        all_countable(top, curr, prev),
        all_complete(top, curr, prev),
        0 < top.cpus(),
        top.within_limits(),
    ensures
        ({
            let by_weight = approx::above_or_near(
                avg_util(top, curr, prev),
                Double { bits: FULL_BITS },
            );
            let e = exact_util_sum(top, curr, prev, None, top.cpus());
            let all = top.cpus() * accuracy::unit();
            &&& 10000 * e >= 9999 * all ==> by_weight
            &&& 10000 * e <= 9998 * all ==> !by_weight
        }),
{
    let full = Double { bits: FULL_BITS };
    let v = avg_util(top, curr, prev);
    let u = accuracy::unit() as int;
    let p = top.cpus() as int;
    let e = exact_util_sum(top, curr, prev, None, top.cpus());
    law_avg_util_is_the_average(top, curr, prev);
    lemma_full();
    approx::law_near(v, full);
    accuracy::law_order(full, v);
    pow2::lemma_pow2_consts();
    pow2::lemma_pow2_mono(127, 1074);
    let (x, f) = (v.value(), full.value());
    let (xp, up, fp) = (x * p, u * p, f * p);
    assert(up >= p && p * u == up && up >= 0x1_0000_0000_0000_0000_0000 * p) by (nonlinear_arith)
        requires
            up == u * p,
            u >= 0x1_0000_0000_0000_0000_0000,
            p > 0,
    ;
    lemma_exact_util_sum(top, curr, prev, 0, top.cpus());
    if 10000 * e >= 9999 * up {
        assert(100000 * xp >= 99989 * up + up / 2);
        assert(100000 * x >= 99989 * u + u / 4) by (nonlinear_arith)
            requires
                100000 * xp >= 99989 * up + up / 2,
                xp == x * p,
                up == u * p,
                p > 0,
                u >= 100,
        {
            if 100000 * x < 99989 * u + u / 4 {
                assert((100000 * x) * p < (99989 * u + u / 4) * p);
                assert((u / 4) * p <= up / 4) by {
                    assert(4 * ((u / 4) * p) <= up);
                }
            }
        }
    }
    if 10000 * e <= 9998 * up {
        assert(100000 * xp <= 99980 * up + up);
        assert(100000 * x <= 99981 * u) by (nonlinear_arith)
            requires
                100000 * xp <= 99981 * up,
                xp == x * p,
                up == u * p,
                p > 0,
        {
            if 100000 * x > 99981 * u {
                assert((100000 * x) * p > (99981 * u) * p);
            }
        }
    }
}

/// The share that counts as the whole is 0.99999.
proof fn lemma_full()
    ensures
        ({
            let full = Double { bits: FULL_BITS };
            let u = accuracy::unit();
            &&& full.finite()
            &&& !full.sign()
            &&& accuracy::gap(100000 * full.value(), 99999 * u as int) * 0x10_0000_0000 <= u
        }),
{
    let full = Double { bits: FULL_BITS };
    let p = pow2::pow2(1021);
    pow2::lemma_pow2_consts();
    pow2::lemma_pow2_add(53, 1021);
    assert(full.step() == 1021);
    assert(full.mantissa() == 0x1f_ffeb_074a_771d);
    assert(full.mag() == 0x1f_ffeb_074a_771d * p);
    assert(accuracy::unit() == 0x20_0000_0000_0000 * p);
}

/// Whether a domain takes work, given the percentage under which it is to: where
/// its utilization in percent is below that, up to a part in `2^40`; always from
/// 99.9995 percent on.
pub proof fn law_takes_work(percent: Double, util: Double)
    requires
        accuracy::small(percent),
        accuracy::small(util),
        percent.value() >= accuracy::unit() / 0x1_0000_0000_0000_0000,
    ensures
        ({
            let takes = takes_work(percent.over(Double { bits: HUNDRED_BITS }), util);
            let (a, b, u) = (100 * util.value(), percent.value(), accuracy::unit());
            &&& b * 10000 >= 999995 * u ==> takes
            &&& a * 0x100_0000_0000 <= b * 0xff_ffff_ffff ==> takes
            &&& b * 10000 <= 999985 * u && a * 0x100_0000_0000 >= b * 0x100_0000_0001 ==> !takes
        }),
{
    let hundred = Double { bits: HUNDRED_BITS };
    let under = percent.over(hundred);
    let full = Double { bits: FULL_BITS };
    let u = accuracy::unit() as int;
    lemma_hundred();
    lemma_full();
    accuracy::law_mean(percent, 100);
    accuracy::law_order(full, under);
    accuracy::law_order(util, under);
    pow2::lemma_pow2_consts();
    pow2::lemma_pow2_add(127, 947);
    pow2::lemma_pow2_mono(127, 947);
    let q = pow2::pow2(947) as int;
    assert(u >= 0x8000_0000_0000_0000_0000_0000_0000_0000 * 0x8000_0000_0000_0000_0000_0000_0000_0000)
        by (nonlinear_arith)
        requires
            u == 0x8000_0000_0000_0000_0000_0000_0000_0000 * q,
            q >= 0x8000_0000_0000_0000_0000_0000_0000_0000,
    ;
    let (s, b) = (under.value(), percent.value());
    assert(b >= 0x1_0000_0000_0000_0000_0000);
    assert(accuracy::gap(s * 100, b) * 0x10_0000_0000_0000 <= b);
}

/// Which CPUs are in a mask after a step, given the percentage under which a domain
/// is to take work: those of the domains whose utilization in percent is below it,
/// up to a part in `2^40`, and those of all domains from 99.9995 percent on. A CPU
/// without a domain is in it where it was before.
pub proof fn law_mask_after_step(
    top: Topology,
    curr: Map<u32, CpuStat>,
    prev: Map<u32, CpuStat>,
    percent: Double,
    before: Seq<u64>,
    after: Seq<u64>,
    cpu: int,
)
    requires
        all_countable(top, curr, prev),
        all_complete(top, curr, prev),
        top.within_limits(),
        tuned(top, curr, prev, percent.over(Double { bits: HUNDRED_BITS }), before, after),
        accuracy::small(percent),
        percent.value() >= accuracy::unit() / 0x1_0000_0000_0000_0000,
        0 <= cpu < 512,
    ensures
        cpu >= top.cpus() || top.dom_of(cpu) is None ==> cpumask::has_cpu(after, cpu)
            == cpumask::has_cpu(before, cpu),
        cpu < top.cpus() && top.dom_of(cpu) is Some ==> ({
            let util = dom_util(top, curr, prev, top.dom_of(cpu)->0 as int);
            let (a, b, u) = (100 * util.value(), percent.value(), accuracy::unit());
            &&& b * 10000 >= 999995 * u ==> cpumask::has_cpu(after, cpu)
            &&& a * 0x100_0000_0000 <= b * 0xff_ffff_ffff ==> cpumask::has_cpu(after, cpu)
            &&& b * 10000 <= 999985 * u && a * 0x100_0000_0000 >= b * 0x100_0000_0001
                ==> !cpumask::has_cpu(after, cpu)
        }),
{
    assert(cpumask::has_cpu(after, cpu) == cpumask::has_cpu(after, cpu));
    if cpu < top.cpus() && top.dom_of(cpu) is Some {
        let dom = top.dom_of(cpu)->0 as int;
        let util = dom_util(top, curr, prev, dom);
        let one = Double { bits: cpustat::ONE_BITS };
        law_dom_util_range(top, curr, prev, dom);
        law_dom_util_is_the_average(top, curr, prev, dom);
        double::lemma_one();
        double::lemma_of_nat_exact(1);
        pow2::lemma_pow2_mono(1074, 2000);
        assert(0 * pow2::pow2(0) == 0);
        accuracy::law_order(Double::zero(), util);
        accuracy::law_order(util, one);
        law_takes_work(percent, util);
    }
}

/// The readings of a step can be used where none of the CPUs that have a domain
/// and are in both of them lacks a counter.
pub proof fn law_missing_counters(top: Topology, curr: Map<u32, CpuStat>, prev: Map<u32, CpuStat>)
    ensures
        !all_complete(top, curr, prev) <==> exists|cpu: int|
            0 <= cpu < top.cpus() && (#[trigger] top.dom_of(cpu)) is Some && curr.contains_key(
                cpu as u32,
            ) && prev.contains_key(cpu as u32) && !(curr[cpu as u32].complete()
                && prev[cpu as u32].complete()),
{
    assert forall|cpu: int|
        0 <= cpu < top.cpus() && (#[trigger] top.dom_of(cpu)) is Some && curr.contains_key(
            cpu as u32,
        ) && prev.contains_key(cpu as u32) implies sampled(top, curr, prev, cpu) by {}
    if !all_complete(top, curr, prev) {
        let cpu = choose|cpu: int|
            0 <= cpu < top.cpus() && #[trigger] sampled(top, curr, prev, cpu) && !(
            curr[cpu as u32].complete() && prev[cpu as u32].complete());
        assert(top.dom_of(cpu) is Some);
    }
}

/// The bits of one hundred.
pub proof fn lemma_hundred()
    ensures
        Double::of_nat(100) == (Double { bits: HUNDRED_BITS }),
{
    reveal(Double::of_nat);
    pow2::lemma_pow2_consts();
    pow2::lemma_pow2_add(46, 1028);
    pow2::lemma_pow2_add(46, 6);
    reveal_with_fuel(pow2::pow2, 7);
    assert(pow2::pow2(6) == 64);
    let (p, h) = (pow2::pow2(1028), pow2::pow2(46));
    assert(h == 0x4000_0000_0000);
    let big = pow2::pow2(1074);
    assert(100 * big == 0x19_0000_0000_0000 * p) by (nonlinear_arith)
        requires
            big == h * p,
            h == 0x4000_0000_0000,
    ;
    rounding::lemma_round_steps(0x19_0000_0000_0000, 1028);
}

/// The utilization of a domain lies between 0 and 1.
pub proof fn law_dom_util_range(
    top: Topology,
    curr: Map<u32, CpuStat>,
    prev: Map<u32, CpuStat>,
    dom: int,
)
    requires
        all_countable(top, curr, prev),
        all_complete(top, curr, prev),
        top.within_limits(),
    ensures
        Double::zero().at_most(dom_util(top, curr, prev, dom)),
        dom_util(top, curr, prev, dom).at_most(Double { bits: cpustat::ONE_BITS }),
{
    let n = dom_nr_cpus(top, curr, prev, dom, top.cpus());
    let sum = dom_util_sum(top, curr, prev, dom, top.cpus());
    if n > 0 {
        lemma_dom_util_sum_unsigned(top, curr, prev, dom, top.cpus());
        lemma_dom_util_sum_bound(top, curr, prev, dom, top.cpus());
        lemma_dom_nr_cpus_bound(top, curr, prev, dom, top.cpus());
        lemma_share(sum, n);
    }
}

/// The average utilization of the machine lies between 0 and 1.
pub proof fn law_avg_util_range(top: Topology, curr: Map<u32, CpuStat>, prev: Map<u32, CpuStat>)
    requires
        all_countable(top, curr, prev),
        all_complete(top, curr, prev),
        0 < top.cpus(),
        top.within_limits(),
    ensures
        Double::zero().at_most(avg_util(top, curr, prev)),
        avg_util(top, curr, prev).at_most(Double { bits: cpustat::ONE_BITS }),
{
    lemma_util_sum_bound(top, curr, prev, top.cpus());
    lemma_share(util_sum(top, curr, prev, top.cpus()), top.cpus());
}

/// What is at most `n`, divided by `n`, is at most one.
proof fn lemma_share(sum: Double, n: nat)
    requires
        0 < n <= MAX_CPUS,
        !sum.sign(),
        sum.at_most(Double::of_nat(n)),
    ensures
        Double::zero().at_most(sum.over(Double::of_nat(n))),
        sum.over(Double::of_nat(n)).at_most(Double { bits: cpustat::ONE_BITS }),
{
    let d = Double::of_nat(n);
    double::lemma_of_nat_bounds(n);
    double::lemma_unsigned_results(sum, d);
    double::lemma_over_self(d);
    assert(!sum.over(d).nan()) by {
        reveal(Double::over);
    }
    double::law_over_monotone(sum, d, d);
}

/// Adding a share to a sum of at most `n` makes at most `n + 1`.
proof fn lemma_one_more(sum: Double, util: Double, n: nat)
    requires
        n < MAX_CPUS,
        !sum.sign(),
        !util.sign(),
        sum.at_most(Double::of_nat(n)),
        util.at_most(Double { bits: cpustat::ONE_BITS }),
    ensures
        !sum.plus(util).sign(),
        sum.plus(util).at_most(Double::of_nat(n + 1)),
{
    let one = Double { bits: cpustat::ONE_BITS };
    let m = Double::of_nat(n);
    double::lemma_of_nat_bounds(n);
    double::lemma_of_nat_bounds(1);
    double::lemma_of_nat_bounds(n + 1);
    double::lemma_one();
    double::lemma_add_integers(n, 1);
    double::lemma_unsigned_results(sum, util);
    assert(!sum.plus(util).nan() && !m.plus(util).nan() && !util.plus(m).nan() && !one.plus(m).nan()
        && m.plus(util) == util.plus(m) && one.plus(m) == m.plus(one)) by {
        reveal(Double::plus);
    }
    double::law_plus_monotone(sum, m, util);
    double::law_plus_monotone(util, one, m);
}

proof fn lemma_util_sum_bound(
    top: Topology,
    curr: Map<u32, CpuStat>,
    prev: Map<u32, CpuStat>,
    n: nat,
)
    requires
        n <= top.cpus() <= MAX_CPUS,
        all_countable(top, curr, prev),
        all_complete(top, curr, prev),
    ensures
        !util_sum(top, curr, prev, n).sign(),
        util_sum(top, curr, prev, n).at_most(Double::of_nat(n)),
    decreases n,
{
    if n == 0 {
        double::lemma_of_nat_bounds(0);
    } else {
        let cpu = n - 1;
        let sum = util_sum(top, curr, prev, (n - 1) as nat);
        lemma_util_sum_bound(top, curr, prev, (n - 1) as nat);
        if sampled(top, curr, prev, cpu) {
            let util = cpustat::util(curr[cpu as u32], prev[cpu as u32]);
            cpustat::law_util_range(curr[cpu as u32], prev[cpu as u32]);
            lemma_one_more(sum, util, (n - 1) as nat);
        } else {
            double::lemma_integer_order((n - 1) as nat, n);
        }
    }
}

proof fn lemma_dom_util_sum_bound(
    top: Topology,
    curr: Map<u32, CpuStat>,
    prev: Map<u32, CpuStat>,
    dom: int,
    n: nat,
)
    requires
        n <= top.cpus() <= MAX_CPUS,
        all_countable(top, curr, prev),
        all_complete(top, curr, prev),
    ensures
        dom_util_sum(top, curr, prev, dom, n).at_most(
            Double::of_nat(dom_nr_cpus(top, curr, prev, dom, n)),
        ),
    decreases n,
{
    if n == 0 {
        double::lemma_of_nat_bounds(0);
    } else {
        let cpu = n - 1;
        let m = (n - 1) as nat;
        lemma_dom_util_sum_bound(top, curr, prev, dom, m);
        lemma_dom_util_sum_unsigned(top, curr, prev, dom, m);
        lemma_dom_nr_cpus_bound(top, curr, prev, dom, m);
        if sampled(top, curr, prev, cpu) && top.dom_of(cpu)->0 == dom {
            cpustat::law_util_range(curr[cpu as u32], prev[cpu as u32]);
            lemma_one_more(
                dom_util_sum(top, curr, prev, dom, m),
                cpustat::util(curr[cpu as u32], prev[cpu as u32]),
                dom_nr_cpus(top, curr, prev, dom, m),
            );
        }
    }
}

proof fn lemma_dom_util_sum_unsigned(
    top: Topology,
    curr: Map<u32, CpuStat>,
    prev: Map<u32, CpuStat>,
    dom: int,
    n: nat,
)
    requires
        n <= top.cpus(),
        all_countable(top, curr, prev),
        all_complete(top, curr, prev),
    ensures
        !dom_util_sum(top, curr, prev, dom, n).sign(),
    decreases n,
{
    if n > 0 {
        let cpu = n - 1;
        lemma_dom_util_sum_unsigned(top, curr, prev, dom, (n - 1) as nat);
        if sampled(top, curr, prev, cpu) {
            cpustat::law_util_range(curr[cpu as u32], prev[cpu as u32]);
            double::lemma_unsigned_results(
                dom_util_sum(top, curr, prev, dom, (n - 1) as nat),
                cpustat::util(curr[cpu as u32], prev[cpu as u32]),
            );
        }
    }
}

} // verus!
