//! Load balancing between domains: how much load each domain carries, and
//! which domains carry more or less of it than the average.
use vstd::prelude::*;
use crate::accuracy;
use crate::approx;
use crate::double;
use crate::double::Double;
use crate::load_map;
use crate::load_map::{LoadMap, Tagged};
use crate::pow2;
use crate::rounding;
use crate::topology::{MAX_DOMS, Topology};
use crate::weights;
use crate::weights::LB_LOAD_BUCKETS;

verus! {

/// The bits of 0.05. If the imbalance of a domain gets higher than this share
/// of the average load, balance it.
pub const LOAD_IMBAL_HIGH_RATIO_BITS: u64 = 0x3fa9_9999_9999_999a;

/// A task that was recently active on a domain.
#[derive(Clone, Copy, Debug)]
pub struct TaskInfo {
    pub pid: i32,
    /// The domains that the task may run in, one bit for each.
    pub dom_mask: u64,
    pub migrated: bool,
    pub is_kworker: bool,
}

impl Tagged for TaskInfo {
    open spec fn tag(&self) -> int {
        self.pid as int
    }

    fn id(&self) -> (res: i64) {
        self.pid as i64
    }
}

/// The state of one round of load balancing.
#[derive(Debug)]
pub struct LoadBalancer<'a> {
    pub top: &'a Topology,
    pub skip_kworkers: bool,
    /// Balance by weighted load rather than by duty cycle alone.
    pub lb_apply_weight: bool,
    /// Higher weights than this count as this.
    pub infeas_threshold: Double,
    /// The tasks of each domain, once they have been read.
    pub tasks_by_load: Vec<Option<LoadMap<TaskInfo>>>,
    pub load_avg: Double,
    pub dom_loads: Vec<Double>,
    /// By how much the load of a domain that needs balancing differs from the
    /// average.
    pub imbal: Vec<Double>,
    pub doms_to_push: LoadMap<u32>,
    pub doms_to_pull: LoadMap<u32>,
}

/// The sum of the first `n` numbers, added up in that order.
pub open spec fn running_sum(s: Seq<Double>, n: nat) -> Double
    decreases n,
{
    if n == 0 {
        Double::zero()
    } else {
        running_sum(s, (n - 1) as nat).plus(s[n - 1])
    }
}

/// The load of the first `n` buckets of a domain, with weights above the
/// threshold counted as the threshold.
pub open spec fn limited_load(dcycles: Seq<Double>, dom: int, threshold: Double, n: nat) -> Double
    decreases n,
{
    if n == 0 {
        Double::zero()
    } else {
        limited_load(dcycles, dom, threshold, (n - 1) as nat).plus(
            dcycles[dom * LB_LOAD_BUCKETS + n - 1].times(weights::weight_of(n - 1).lesser(threshold)),
        )
    }
}

/// The bucket has a duty cycle to speak of.
pub open spec fn loaded(dcycles: Seq<Double>, bucket: int) -> bool {
    !approx::near(dcycles[bucket], Double::zero())
}

/// The duty cycle of all loaded buckets from `bucket` up.
pub open spec fn dcycle_from(dcycles: Seq<Double>, bucket: int) -> Double
    decreases LB_LOAD_BUCKETS - bucket,
{
    if bucket >= LB_LOAD_BUCKETS {
        Double::zero()
    } else if loaded(dcycles, bucket) {
        dcycle_from(dcycles, bucket + 1).plus(dcycles[bucket])
    } else {
        dcycle_from(dcycles, bucket + 1)
    }
}

/// What is left of the whole load without the loaded buckets from `bucket` up.
pub open spec fn load_below(dcycles: Seq<Double>, load: Double, bucket: int) -> Double
    decreases LB_LOAD_BUCKETS - bucket,
{
    if bucket >= LB_LOAD_BUCKETS {
        load
    } else if loaded(dcycles, bucket) {
        load_below(dcycles, load, bucket + 1).minus(
            weights::weight_of(bucket).times(dcycles[bucket]),
        )
    } else {
        load_below(dcycles, load, bucket + 1)
    }
}

/// No bucket from `bucket` up is loaded.
pub open spec fn none_loaded_from(dcycles: Seq<Double>, bucket: int) -> bool {
    forall|b: int| bucket <= b < LB_LOAD_BUCKETS ==> !#[trigger] loaded(dcycles, b)
}

/// The highest feasible weight where the loaded buckets from `bucket` up are
/// the infeasible ones: with `P` CPUs, `Di` the duty cycle of those buckets and
/// `Lf` the load of the others, it is `Lf / (P - Di)`.
pub open spec fn lambda(dcycles: Seq<Double>, load: Double, p: Double, bucket: int) -> Double {
    if none_loaded_from(dcycles, bucket) {
        load.over(p)
    } else {
        load_below(dcycles, load, bucket).over(p.minus(dcycle_from(dcycles, bucket)))
    }
}

/// The weight of a loaded bucket is feasible where all higher ones are not.
pub open spec fn first_feasible(dcycles: Seq<Double>, load: Double, p: Double, bucket: int) -> bool {
    loaded(dcycles, bucket) && approx::above_or_near(
        lambda(dcycles, load, p, bucket + 1),
        weights::weight_of(bucket),
    )
}

/// The highest bucket below `n` whose weight is feasible where all higher ones
/// are not.
pub open spec fn feasible_bucket(dcycles: Seq<Double>, load: Double, p: Double, n: nat) -> Option<
    int,
>
    decreases n,
{
    if n == 0 {
        None
    } else if first_feasible(dcycles, load, p, n - 1) {
        Some(n - 1)
    } else {
        feasible_bucket(dcycles, load, p, (n - 1) as nat)
    }
}

impl<'a> LoadBalancer<'a> {
    /// There is a slot for each domain, the maps are in order, and they name
    /// domains that exist.
    pub open spec fn wf(self) -> bool {
        &&& self.top.wf()
        &&& self.top.within_limits()
        &&& self.tasks_by_load@.len() == self.top.doms()
        &&& self.dom_loads@.len() == self.top.doms()
        &&& self.imbal@.len() == self.top.doms()
        &&& self.doms_to_push.wf()
        &&& self.doms_to_pull.wf()
        &&& doms_exist(self.doms_to_push@, self.top.doms())
        &&& doms_exist(self.doms_to_pull@, self.top.doms())
        &&& forall|dom: int|
            0 <= dom < self.top.doms() ==> (#[trigger] self.tasks_by_load@[dom] matches Some(tasks)
                ==> tasks.wf())
    }

    /// Everything but the loads is the same.
    pub open spec fn same_but_loads(self, other: LoadBalancer<'a>) -> bool {
        &&& self.top == other.top
        &&& self.skip_kworkers == other.skip_kworkers
        &&& self.lb_apply_weight == other.lb_apply_weight
        &&& self.tasks_by_load == other.tasks_by_load
        &&& self.imbal == other.imbal
        &&& self.doms_to_push == other.doms_to_push
        &&& self.doms_to_pull == other.doms_to_pull
    }

    /// The loads that go with a threshold for infeasible weights.
    pub open spec fn limited_to(self, dcycles: Seq<Double>, threshold: Double) -> bool {
        &&& self.infeas_threshold == threshold
        &&& forall|dom: int|
            0 <= dom < self.top.doms() ==> #[trigger] self.dom_loads@[dom] == limited_load(
                dcycles,
                dom,
                threshold,
                LB_LOAD_BUCKETS as nat,
            )
        &&& self.load_avg == running_sum(self.dom_loads@, self.top.doms()).over(
            Double::of_nat(self.top.doms()),
        )
    }

    /// A balancer that knows no loads yet.
    pub fn new(top: &'a Topology, skip_kworkers: bool, lb_apply_weight: bool) -> (res: LoadBalancer<
        'a,
    >)
        requires
            top.wf(),
            top.within_limits(),
        ensures
            res.wf(),
            res.top == top,
            res.skip_kworkers == skip_kworkers,
            res.lb_apply_weight == lb_apply_weight,
            res.infeas_threshold == Double::of_nat(weights::LB_MAX_WEIGHT as nat),
            res.load_avg == Double::zero(),
            forall|dom: int|
                0 <= dom < top.doms() ==> #[trigger] res.tasks_by_load@[dom] is None,
            forall|dom: int|
                0 <= dom < top.doms() ==> #[trigger] res.dom_loads@[dom] == Double::zero(),
            forall|dom: int| 0 <= dom < top.doms() ==> #[trigger] res.imbal@[dom] == Double::zero(),
            res.doms_to_push@ == Seq::<(Double, u32)>::empty(),
            res.doms_to_pull@ == Seq::<(Double, u32)>::empty(),
    {
        let mut tasks_by_load: Vec<Option<LoadMap<TaskInfo>>> = Vec::new();
        let mut dom_loads: Vec<Double> = Vec::new();
        let mut imbal: Vec<Double> = Vec::new();
        let mut dom: usize = 0;
        while dom < top.nr_doms()
            invariant
                dom <= top.doms(),
                tasks_by_load@.len() == dom,
                dom_loads@.len() == dom,
                imbal@.len() == dom,
                forall|d: int| 0 <= d < dom ==> #[trigger] tasks_by_load@[d] is None,
                forall|d: int| 0 <= d < dom ==> #[trigger] dom_loads@[d] == Double::zero(),
                forall|d: int| 0 <= d < dom ==> #[trigger] imbal@[d] == Double::zero(),
            decreases top.doms() - dom,
        {
            tasks_by_load.push(None);
            dom_loads.push(Double { bits: 0 });
            imbal.push(Double { bits: 0 });
            dom = dom + 1;
        }
        LoadBalancer {
            top,
            skip_kworkers,
            lb_apply_weight,
            infeas_threshold: Double::from_u64(weights::LB_MAX_WEIGHT),
            tasks_by_load,
            load_avg: Double { bits: 0 },
            dom_loads,
            imbal,
            doms_to_pull: LoadMap::new(),
            doms_to_push: LoadMap::new(),
        }
    }

    /// Counts the loads again, with weights above the threshold counted as the
    /// threshold. `doms_dcycle_buckets` holds the duty cycles of all buckets,
    /// domain after domain.
    pub fn apply_infeas_threshold(&mut self, doms_dcycle_buckets: &[Double], infeas_thrsh: Double)
        requires
            old(self).wf(),
            doms_dcycle_buckets@.len() >= old(self).top.doms() * LB_LOAD_BUCKETS,
        ensures
            final(self).wf(),
            final(self).same_but_loads(*old(self)),
            final(self).limited_to(doms_dcycle_buckets@, infeas_thrsh),
    {
        self.infeas_threshold = infeas_thrsh;
        let mut global_load_sum: Double = Double { bits: 0 };
        let ghost dcycles = doms_dcycle_buckets@;
        let mut dom: usize = 0;
        while dom < self.top.nr_doms()
            invariant
                self.wf(),
                self.same_but_loads(*old(self)),
                self.infeas_threshold == infeas_thrsh,
                dcycles == doms_dcycle_buckets@,
                dcycles.len() >= self.top.doms() * LB_LOAD_BUCKETS,
                dom <= self.top.doms(),
                forall|d: int|
                    0 <= d < dom ==> #[trigger] self.dom_loads@[d] == limited_load(
                        dcycles,
                        d,
                        infeas_thrsh,
                        LB_LOAD_BUCKETS as nat,
                    ),
                global_load_sum == running_sum(self.dom_loads@, dom as nat),
            decreases self.top.doms() - dom,
        {
            let dom_offset: u64 = (dom as u64) * LB_LOAD_BUCKETS;
            let mut dom_load_sum: Double = Double { bits: 0 };
            let mut i: u64 = 0;
            while i < LB_LOAD_BUCKETS
                invariant
                    self.wf(),
                    self.infeas_threshold == infeas_thrsh,
                    dcycles == doms_dcycle_buckets@,
                    dcycles.len() >= self.top.doms() * LB_LOAD_BUCKETS,
                    dom < self.top.doms(),
                    dom_offset == dom * LB_LOAD_BUCKETS,
                    i <= LB_LOAD_BUCKETS,
                    dom_load_sum == limited_load(dcycles, dom as int, infeas_thrsh, i as nat),
                decreases LB_LOAD_BUCKETS - i,
            {
                let weight: Double = weights::bucket_weight(i).min(self.infeas_threshold);
                let dcycle: Double = doms_dcycle_buckets[(dom_offset + i) as usize];
                dom_load_sum = dom_load_sum.add(dcycle.mul(weight));
                i = i + 1;
            }
            let ghost before = self.dom_loads@;
            self.dom_loads[dom] = dom_load_sum;
            global_load_sum = global_load_sum.add(dom_load_sum);
            proof {
                lemma_running_sum_prefix(before, self.dom_loads@, dom as nat);
            }
            dom = dom + 1;
        }
        self.load_avg = global_load_sum.div(Double::from_u64(self.top.nr_doms() as u64));
    }
}

impl<'a> LoadBalancer<'a> {
    /// Finds the highest feasible weight and counts the loads again with it.
    ///
    /// The buckets are gone through from the highest weight down. The loaded
    /// ones are taken as infeasible until the highest feasible weight that
    /// follows from that reaches the weight of the next loaded bucket. Where
    /// that never happens the host is under-utilized, and the loads stay as
    /// they are.
    pub fn adjust_infeas_weights(
        &mut self,
        bucket_dcycles: &[Double],
        doms_dcycle_buckets: &[Double],
        global_load_sum: Double,
    )
        requires
            old(self).wf(),
            bucket_dcycles@.len() >= LB_LOAD_BUCKETS,
            doms_dcycle_buckets@.len() >= old(self).top.doms() * LB_LOAD_BUCKETS,
        ensures
            final(self).wf(),
            final(self).same_but_loads(*old(self)),
            ({
                let p = Double::of_nat(old(self).top.cpus());
                match feasible_bucket(
                    bucket_dcycles@,
                    global_load_sum,
                    p,
                    LB_LOAD_BUCKETS as nat,
                ) {
                    Some(bucket) => final(self).limited_to(
                        doms_dcycle_buckets@,
                        lambda(bucket_dcycles@, global_load_sum, p, bucket + 1),
                    ),
                    None => {
                        &&& final(self).infeas_threshold == old(self).infeas_threshold
                        &&& final(self).dom_loads == old(self).dom_loads
                        &&& final(self).load_avg == global_load_sum.over(
                            Double::of_nat(old(self).top.doms()),
                        )
                    },
                }
            }),
    {
        let p: Double = Double::from_u64(self.top.nr_cpus() as u64);
        let mut curr_dcycle_sum: Double = Double { bits: 0 };
        let mut curr_load_sum: Double = global_load_sum;
        let mut lambda_x: Double = curr_load_sum.div(p);
        let ghost dcycles = bucket_dcycles@;
        let mut n: u64 = LB_LOAD_BUCKETS;
        while n > 0
            invariant
                *self == *old(self),
                self.wf(),
                dcycles == bucket_dcycles@,
                dcycles.len() >= LB_LOAD_BUCKETS,
                doms_dcycle_buckets@.len() >= old(self).top.doms() * LB_LOAD_BUCKETS,
                p == Double::of_nat(self.top.cpus()),
                n <= LB_LOAD_BUCKETS,
                curr_dcycle_sum == dcycle_from(dcycles, n as int),
                curr_load_sum == load_below(dcycles, global_load_sum, n as int),
                lambda_x == lambda(dcycles, global_load_sum, p, n as int),
                feasible_bucket(dcycles, global_load_sum, p, LB_LOAD_BUCKETS as nat)
                    == feasible_bucket(dcycles, global_load_sum, p, n as nat),
            decreases n,
        {
            let bucket: u64 = n - 1;
            let dcycles_here: Double = bucket_dcycles[bucket as usize];
            if !approx::approx_eq(dcycles_here, Double { bits: 0 }) {
                assert(loaded(dcycles, bucket as int));
                let weight: Double = weights::bucket_weight(bucket);
                if approx::approx_ge(lambda_x, weight) {
                    self.apply_infeas_threshold(doms_dcycle_buckets, lambda_x);
                    return ;
                }
                curr_dcycle_sum = curr_dcycle_sum.add(dcycles_here);
                curr_load_sum = curr_load_sum.sub(weight.mul(dcycles_here));
                lambda_x = curr_load_sum.div(p.sub(curr_dcycle_sum));
            } else {
                assert(!loaded(dcycles, bucket as int));
                assert(none_loaded_from(dcycles, bucket as int) == none_loaded_from(
                    dcycles,
                    n as int,
                ));
            }
            n = n - 1;
        }
        self.load_avg = global_load_sum.div(Double::from_u64(self.top.nr_doms() as u64));
    }

    /// Finds the domains that carry more or less load than the average, by
    /// enough to be worth balancing.
    pub fn calculate_dom_load_balance(&mut self)
        requires
            old(self).wf(),
        ensures
            final(self).wf(),
            final(self).top == old(self).top,
            final(self).skip_kworkers == old(self).skip_kworkers,
            final(self).lb_apply_weight == old(self).lb_apply_weight,
            final(self).infeas_threshold == old(self).infeas_threshold,
            final(self).tasks_by_load == old(self).tasks_by_load,
            final(self).load_avg == old(self).load_avg,
            final(self).dom_loads == old(self).dom_loads,
            forall|dom: int|
                0 <= dom < old(self).top.doms() ==> #[trigger] final(self).imbal@[dom] == (
                if imbalanced(old(self).dom_loads@[dom], old(self).load_avg) {
                    old(self).dom_loads@[dom].minus(old(self).load_avg)
                } else {
                    old(self).imbal@[dom]
                }),
            final(self).doms_to_push@ == with_pushing(
                old(self).doms_to_push@,
                old(self).dom_loads@,
                old(self).load_avg,
                old(self).top.doms(),
            ),
            final(self).doms_to_pull@ == with_pulling(
                old(self).doms_to_pull@,
                old(self).dom_loads@,
                old(self).load_avg,
                old(self).top.doms(),
            ),
            forall|dom: int|
                0 <= dom < old(self).top.doms() && pushing(
                    #[trigger] old(self).dom_loads@[dom],
                    old(self).load_avg,
                ) ==> names(final(self).doms_to_push@, dom as u32),
            forall|dom: int|
                0 <= dom < old(self).top.doms() && pulling(
                    #[trigger] old(self).dom_loads@[dom],
                    old(self).load_avg,
                ) ==> names(final(self).doms_to_pull@, dom as u32),
    {
        let ghost loads = self.dom_loads@;
        let ghost avg = self.load_avg;
        let mut dom: usize = 0;
        while dom < self.dom_loads.len()
            invariant
                self.wf(),
                self.top == old(self).top,
                self.skip_kworkers == old(self).skip_kworkers,
                self.lb_apply_weight == old(self).lb_apply_weight,
                self.infeas_threshold == old(self).infeas_threshold,
                self.tasks_by_load == old(self).tasks_by_load,
                self.load_avg == old(self).load_avg,
                self.dom_loads == old(self).dom_loads,
                loads == self.dom_loads@,
                avg == self.load_avg,
                dom <= self.top.doms(),
                forall|d: int|
                    0 <= d < self.top.doms() ==> #[trigger] self.imbal@[d] == (if d < dom
                        && imbalanced(loads[d], avg) {
                        loads[d].minus(avg)
                    } else {
                        old(self).imbal@[d]
                    }),
                self.doms_to_push@ == with_pushing(old(self).doms_to_push@, loads, avg, dom as nat),
                self.doms_to_pull@ == with_pulling(old(self).doms_to_pull@, loads, avg, dom as nat),
            decreases self.top.doms() - dom,
        {
            let imbal: Double = self.dom_loads[dom].sub(self.load_avg);
            let high: Double = self.load_avg.mul(Double { bits: LOAD_IMBAL_HIGH_RATIO_BITS });
            if high.lt(imbal.abs()) {
                if (Double { bits: 0 }).lt(imbal) {
                    proof {
                        lemma_inserted_doms_exist(self.doms_to_push@, imbal, dom as u32, self.top.doms());
                    }
                    self.doms_to_push.insert(imbal, dom as u32);
                } else {
                    let neg: Double = imbal.neg();
                    proof {
                        lemma_inserted_doms_exist(self.doms_to_pull@, neg, dom as u32, self.top.doms());
                    }
                    self.doms_to_pull.insert(neg, dom as u32);
                }
                self.imbal[dom] = imbal;
            }
            dom = dom + 1;
        }
        proof {
            lemma_all_named(old(self).doms_to_push@, old(self).doms_to_pull@, loads, avg, dom as nat);
        }
    }
}

/// The domain is on the list.
pub open spec fn names(s: Seq<(Double, u32)>, dom: u32) -> bool {
    exists|i: int| 0 <= i < s.len() && (#[trigger] s[i]).1 == dom
}

/// An insertion adds its domain to those on the list.
pub proof fn lemma_inserted_names(s: Seq<(Double, u32)>, load: Double, dom: u32, other: u32)
    ensures
        names(load_map::inserted(s, load, dom), other) <==> other == dom || names(s, other),
    decreases s.len(),
{
    let r = load_map::inserted(s, load, dom);
    if s.len() == 0 {
        assert(r[0].1 == dom);
    } else {
        let d = s.drop_last();
        let n = s.len() - 1;
        if names(s, other) {
            let i = choose|i: int| 0 <= i < s.len() && (#[trigger] s[i]).1 == other;
            if i < n {
                assert(d[i].1 == other);
            }
        }
        if names(d, other) {
            let i = choose|i: int| 0 <= i < d.len() && (#[trigger] d[i]).1 == other;
            assert(s[i].1 == other);
        }
        if load_map::precedes(s.last(), (load, dom)) {
            assert(r[n + 1].1 == dom);
            assert(forall|i: int| 0 <= i <= n ==> r[i] == s[i]);
            if names(r, other) && other != dom {
                let i = choose|i: int| 0 <= i < r.len() && (#[trigger] r[i]).1 == other;
                assert(s[i].1 == other);
            }
            if names(s, other) {
                let i = choose|i: int| 0 <= i < s.len() && (#[trigger] s[i]).1 == other;
                assert(r[i].1 == other);
            }
        } else if load_map::same_key(s.last(), (load, dom)) {
            assert(s[n].1 == dom && r[n].1 == dom);
            assert(forall|i: int| 0 <= i < n ==> r[i] == s[i]);
            if names(r, other) {
                let i = choose|i: int| 0 <= i < r.len() && (#[trigger] r[i]).1 == other;
                assert(s[i].1 == other);
            }
            if names(s, other) {
                let i = choose|i: int| 0 <= i < s.len() && (#[trigger] s[i]).1 == other;
                assert(r[i].1 == other);
            }
        } else {
            let q = load_map::inserted(d, load, dom);
            lemma_inserted_names(d, load, dom, other);
            assert(r[q.len() as int] == s[n]);
            if names(q, other) {
                let i = choose|i: int| 0 <= i < q.len() && (#[trigger] q[i]).1 == other;
                assert(r[i].1 == other);
            }
            if names(r, other) {
                let i = choose|i: int| 0 <= i < r.len() && (#[trigger] r[i]).1 == other;
                if i < q.len() {
                    assert(q[i].1 == other);
                }
            }
        }
    }
}

proof fn lemma_all_named(
    push: Seq<(Double, u32)>,
    pull: Seq<(Double, u32)>,
    loads: Seq<Double>,
    avg: Double,
    n: nat,
)
    requires
        n <= MAX_DOMS,
    ensures
        forall|dom: int|
            0 <= dom < n && pushing(#[trigger] loads[dom], avg) ==> names(
                with_pushing(push, loads, avg, n),
                dom as u32,
            ),
        forall|dom: int|
            0 <= dom < n && pulling(#[trigger] loads[dom], avg) ==> names(
                with_pulling(pull, loads, avg, n),
                dom as u32,
            ),
    decreases n,
{
    if n > 0 {
        let m = (n - 1) as nat;
        lemma_all_named(push, pull, loads, avg, m);
        let diff = loads[m as int].minus(avg);
        assert forall|dom: int| 0 <= dom < n && pushing(#[trigger] loads[dom], avg) implies names(
            with_pushing(push, loads, avg, n),
            dom as u32,
        ) by {
            lemma_inserted_names(with_pushing(push, loads, avg, m), diff, m as u32, dom as u32);
        }
        assert forall|dom: int| 0 <= dom < n && pulling(#[trigger] loads[dom], avg) implies names(
            with_pulling(pull, loads, avg, n),
            dom as u32,
        ) by {
            lemma_inserted_names(
                with_pulling(pull, loads, avg, m),
                diff.negated(),
                m as u32,
                dom as u32,
            );
        }
    }
}

/// The load of a domain differs from the average by more than the ratio.
pub open spec fn imbalanced(load: Double, avg: Double) -> bool {
    avg.times(Double { bits: LOAD_IMBAL_HIGH_RATIO_BITS }).below(load.minus(avg).magnitude())
}

/// The domain carries too much load.
pub open spec fn pushing(load: Double, avg: Double) -> bool {
    imbalanced(load, avg) && Double::zero().below(load.minus(avg))
}

/// The domain carries too little load.
pub open spec fn pulling(load: Double, avg: Double) -> bool {
    imbalanced(load, avg) && !Double::zero().below(load.minus(avg))
}

/// The domains below `n` that carry too much load, added to a map under the
/// load that they have too much.
pub open spec fn with_pushing(
    s: Seq<(Double, u32)>,
    loads: Seq<Double>,
    avg: Double,
    n: nat,
) -> Seq<(Double, u32)>
    decreases n,
{
    if n == 0 {
        s
    } else {
        let dom = n - 1;
        let before = with_pushing(s, loads, avg, (n - 1) as nat);
        if pushing(loads[dom], avg) {
            load_map::inserted(before, loads[dom].minus(avg), dom as u32)
        } else {
            before
        }
    }
}

/// The domains below `n` that carry too little load, added to a map under the
/// load that they lack.
pub open spec fn with_pulling(
    s: Seq<(Double, u32)>,
    loads: Seq<Double>,
    avg: Double,
    n: nat,
) -> Seq<(Double, u32)>
    decreases n,
{
    if n == 0 {
        s
    } else {
        let dom = n - 1;
        let before = with_pulling(s, loads, avg, (n - 1) as nat);
        if pulling(loads[dom], avg) {
            load_map::inserted(before, loads[dom].minus(avg).negated(), dom as u32)
        } else {
            before
        }
    }
}

/// An insertion of a domain that exists keeps all domains existing.
pub proof fn lemma_inserted_doms_exist(s: Seq<(Double, u32)>, load: Double, dom: u32, doms: nat)
    requires
        doms_exist(s, doms),
        dom < doms,
    ensures
        doms_exist(load_map::inserted(s, load, dom), doms),
{
    let r = load_map::inserted(s, load, dom);
    assert forall|i: int| 0 <= i < r.len() implies (#[trigger] r[i]).1 < doms by {
        load_map::lemma_inserted_from(s, load, dom, i);
        if s.contains(r[i]) {
            let k = choose|k: int| 0 <= k < s.len() && s[k] == r[i];
            assert(s[k].1 < doms);
        }
    }
}

/// Every entry names a domain that exists.
pub open spec fn doms_exist(s: Seq<(Double, u32)>, doms: nat) -> bool {
    forall|i: int| 0 <= i < s.len() ==> (#[trigger] s[i]).1 < doms
}

proof fn lemma_running_sum_prefix(s: Seq<Double>, t: Seq<Double>, n: nat)
    requires
        forall|i: int| 0 <= i < n ==> s[i] == t[i],
    ensures
        running_sum(s, n) == running_sum(t, n),
    decreases n,
{
    if n > 0 {
        lemma_running_sum_prefix(s, t, (n - 1) as nat);
    }
}

/// A domain that is to push carries more load than the average.
pub proof fn law_pushing_is_above_average(load: Double, avg: Double)
    requires
        pushing(load, avg),
    ensures
        avg.below(load),
{
    double::law_difference_sign(load, avg);
}

/// A domain that is to pull carries less load than the average, where that is
/// not negative.
pub proof fn law_pulling_is_below_average(load: Double, avg: Double)
    requires
        !avg.sign(),
        pulling(load, avg),
    ensures
        load.below(avg),
{
    let ratio = Double { bits: LOAD_IMBAL_HIGH_RATIO_BITS };
    double::lemma_unsigned_results(avg, ratio);
    assert(!load.minus(avg).nan());
    assert(!load.minus(avg).same(Double::zero()));
    double::law_difference_sign(load, avg);
    double::lemma_difference_nan(load, avg);
}

/// A machine without any load has nothing to push and nothing to pull.
pub proof fn law_idle_is_balanced()
    ensures
        !imbalanced(Double::zero(), Double::zero()),
{
    let ratio = Double { bits: LOAD_IMBAL_HIGH_RATIO_BITS };
    double::lemma_unsigned_results(Double::zero(), ratio);
    reveal(Double::plus);
}

/// The entries are those of the domains below `n` that have a key, each under
/// the rank of its key.
spec fn lists(s: Seq<(Double, u32)>, key_of: spec_fn(int) -> Option<int>, n: nat) -> bool {
    &&& load_map::ascending(s)
    &&& forall|i: int|
        0 <= i < s.len() ==> (#[trigger] s[i]).1 < n && key_of(s[i].1 as int) == Some(
            s[i].0.rank(),
        )
    &&& forall|dom: int|
        0 <= dom < n && #[trigger] key_of(dom) is Some ==> names(s, dom as u32)
}

proof fn lemma_lists_one_more(
    before: Seq<(Double, u32)>,
    key_of: spec_fn(int) -> Option<int>,
    key: Double,
    n: nat,
)
    requires
        n < MAX_DOMS,
        lists(before, key_of, n),
        key_of(n as int) == Some(key.rank()),
    ensures
        lists(load_map::inserted(before, key, n as u32), key_of, n + 1),
{
    let s = load_map::inserted(before, key, n as u32);
    load_map::law_insert(before, key, n as u32);
    assert forall|i: int| 0 <= i < s.len() implies (#[trigger] s[i]).1 < n + 1 && key_of(
        s[i].1 as int,
    ) == Some(s[i].0.rank()) by {
        load_map::lemma_inserted_from(before, key, n as u32, i);
        if before.contains(s[i]) {
            let j = choose|j: int| 0 <= j < before.len() && before[j] == s[i];
            assert(before[j].1 < n);
        }
    }
    assert forall|dom: int| 0 <= dom < n + 1 && #[trigger] key_of(dom) is Some implies names(
        s,
        dom as u32,
    ) by {
        lemma_inserted_names(before, key, n as u32, dom as u32);
    }
}

proof fn lemma_lists_pushing(loads: Seq<Double>, avg: Double, n: nat)
    requires
        n <= MAX_DOMS,
    ensures
        lists(
            with_pushing(Seq::empty(), loads, avg, n),
            |dom: int|
                if pushing(loads[dom], avg) {
                    Some(loads[dom].minus(avg).rank())
                } else {
                    None
                },
            n,
        ),
    decreases n,
{
    if n > 0 {
        let m = (n - 1) as nat;
        lemma_lists_pushing(loads, avg, m);
        if pushing(loads[m as int], avg) {
            lemma_lists_one_more(
                with_pushing(Seq::empty(), loads, avg, m),
                |dom: int|
                    if pushing(loads[dom], avg) {
                        Some(loads[dom].minus(avg).rank())
                    } else {
                        None
                    },
                loads[m as int].minus(avg),
                m,
            );
        }
    }
}

proof fn lemma_lists_pulling(loads: Seq<Double>, avg: Double, n: nat)
    requires
        n <= MAX_DOMS,
    ensures
        lists(
            with_pulling(Seq::empty(), loads, avg, n),
            |dom: int|
                if pulling(loads[dom], avg) {
                    Some(loads[dom].minus(avg).negated().rank())
                } else {
                    None
                },
            n,
        ),
    decreases n,
{
    if n > 0 {
        let m = (n - 1) as nat;
        lemma_lists_pulling(loads, avg, m);
        if pulling(loads[m as int], avg) {
            lemma_lists_one_more(
                with_pulling(Seq::empty(), loads, avg, m),
                |dom: int|
                    if pulling(loads[dom], avg) {
                        Some(loads[dom].minus(avg).negated().rank())
                    } else {
                        None
                    },
                loads[m as int].minus(avg).negated(),
                m,
            );
        }
    }
}

/// The domains that are listed to push are domains that carry too much load,
/// each under the load that it has too much, and every domain that carries too
/// much load has an entry.
pub proof fn law_pushers(loads: Seq<Double>, avg: Double, n: nat)
    requires
        n <= MAX_DOMS,
    ensures
        ({
            let s = with_pushing(Seq::empty(), loads, avg, n);
            &&& load_map::ascending(s)
            &&& forall|i: int|
                0 <= i < s.len() ==> (#[trigger] s[i]).1 < n && pushing(loads[s[i].1 as int], avg)
                    && s[i].0.rank() == loads[s[i].1 as int].minus(avg).rank()
            &&& forall|dom: int|
                0 <= dom < n && pushing(#[trigger] loads[dom], avg) ==> names(s, dom as u32)
        }),
{
    let s = with_pushing(Seq::empty(), loads, avg, n);
    let key_of = |dom: int|
        if pushing(loads[dom], avg) {
            Some(loads[dom].minus(avg).rank())
        } else {
            None
        };
    lemma_lists_pushing(loads, avg, n);
    assert(lists(s, key_of, n));
    assert forall|dom: int| 0 <= dom < n && pushing(#[trigger] loads[dom], avg) implies names(
        s,
        dom as u32,
    ) by {
        assert(key_of(dom) is Some);
    }
}

/// The domains that are listed to pull are domains that carry too little load,
/// each under the load that it lacks, and every domain that carries too little
/// load has an entry.
pub proof fn law_pullers(loads: Seq<Double>, avg: Double, n: nat)
    requires
        n <= MAX_DOMS,
    ensures
        ({
            let s = with_pulling(Seq::empty(), loads, avg, n);
            &&& load_map::ascending(s)
            &&& forall|i: int|
                0 <= i < s.len() ==> (#[trigger] s[i]).1 < n && pulling(loads[s[i].1 as int], avg)
                    && s[i].0.rank() == loads[s[i].1 as int].minus(avg).negated().rank()
            &&& forall|dom: int|
                0 <= dom < n && pulling(#[trigger] loads[dom], avg) ==> names(s, dom as u32)
        }),
{
    let s = with_pulling(Seq::empty(), loads, avg, n);
    let key_of = |dom: int|
        if pulling(loads[dom], avg) {
            Some(loads[dom].minus(avg).negated().rank())
        } else {
            None
        };
    lemma_lists_pulling(loads, avg, n);
    assert(lists(s, key_of, n));
    assert forall|dom: int| 0 <= dom < n && pulling(#[trigger] loads[dom], avg) implies names(
        s,
        dom as u32,
    ) by {
        assert(key_of(dom) is Some);
    }
}

/// Of two domains the one with more load does not rank lower among those that
/// are to push, so that the domain that pushes first carries most load.
pub proof fn law_more_load_ranks_higher(load: Double, more: Double, avg: Double)
    requires
        load.at_most(more),
        !load.minus(avg).nan(),
        !more.minus(avg).nan(),
    ensures
        load.minus(avg).rank() <= more.minus(avg).rank(),
        more.minus(avg).negated().rank() <= load.minus(avg).negated().rank(),
{
    double::law_plus_monotone(load, more, avg.negated());
}

/// No domain is both to push and to pull.
pub proof fn law_push_or_pull(loads: Seq<Double>, avg: Double, n: nat, i: int, j: int)
    requires
        n <= MAX_DOMS,
        0 <= i < with_pushing(Seq::empty(), loads, avg, n).len(),
        0 <= j < with_pulling(Seq::empty(), loads, avg, n).len(),
    ensures
        with_pushing(Seq::empty(), loads, avg, n)[i].1 != with_pulling(
            Seq::empty(),
            loads,
            avg,
            n,
        )[j].1,
{
    law_pushers(loads, avg, n);
    law_pullers(loads, avg, n);
}

/// No domain is listed twice, neither to push nor to pull.
pub proof fn law_listed_once(loads: Seq<Double>, avg: Double, n: nat, i: int, j: int)
    requires
        n <= MAX_DOMS,
        0 <= i < j,
    ensures
        ({
            let push = with_pushing(Seq::empty(), loads, avg, n);
            j < push.len() ==> push[i].1 != push[j].1
        }),
        ({
            let pull = with_pulling(Seq::empty(), loads, avg, n);
            j < pull.len() ==> pull[i].1 != pull[j].1
        }),
{
    law_pushers(loads, avg, n);
    law_pullers(loads, avg, n);
}

/// The ratio is 0.05, from above, up to a part in `2^54`.
proof fn lemma_high_ratio()
    ensures
        ({
            let ratio = Double { bits: LOAD_IMBAL_HIGH_RATIO_BITS };
            &&& ratio.finite()
            &&& !ratio.sign()
            &&& 20 * ratio.mag() >= accuracy::unit()
            &&& (20 * ratio.mag()) * 0x40_0000_0000_0000 == accuracy::unit()
                * 0x40_0000_0000_0000 + accuracy::unit()
        }),
{
    let ratio = Double { bits: LOAD_IMBAL_HIGH_RATIO_BITS };
    let p = pow2::pow2(1017);
    pow2::lemma_pow2_consts();
    pow2::lemma_pow2_add(57, 1017);
    reveal_with_fuel(pow2::pow2, 6);
    assert(pow2::pow2(57) == 32 * pow2::pow2(52));
    assert(ratio.step() == 1017);
    assert(ratio.mantissa() == 0x19_9999_9999_999a);
    assert(ratio.mag() == 0x19_9999_9999_999a * p);
    assert(accuracy::unit() == 0x200_0000_0000_0000 * p);
}

proof fn lemma_within_ratio(load: Double, avg: Double)
    requires
        load.finite(),
        avg.finite(),
        load.value() >= 0,
        avg.value() >= 0,
        20 * accuracy::gap(load.value(), avg.value()) <= avg.value(),
    ensures
        !imbalanced(load, avg),
{
    reveal(Double::times);
    reveal(Double::plus);
    let ratio = Double { bits: LOAD_IMBAL_HIGH_RATIO_BITS };
    let (a, c, u) = (avg.mag(), ratio.mag(), accuracy::unit());
    let d = accuracy::gap(load.value(), avg.value()) as nat;
    lemma_high_ratio();
    pow2::lemma_pow2_pos(1074);
    double::lemma_parts(load);
    double::lemma_parts(avg);
    accuracy::lemma_difference_finite(load, avg);
    assert(d * u <= (a * c) * 1) by (nonlinear_arith)
        requires
            20 * d <= a,
            20 * c >= u,
    ;
    rounding::law_round_monotone(d, 1, a * c, u);
    let z = avg.negated();
    assert(z.low() == avg.low() && z.sign() == !avg.sign());
    assert(z.value() == -avg.value());
    assert(load.minus(avg).low() == rounding::round_mag(d, 1)) by {
        double::lemma_round_zero(1);
    }
    assert(avg.times(ratio).low() == rounding::round_mag(a * c, u));
    if avg.sign() {
        assert(0 * c == 0);
        double::lemma_round_zero(u);
    }
}

proof fn lemma_beyond_ratio(load: Double, avg: Double)
    requires
        load.finite(),
        avg.finite(),
        load.value() >= 0,
        avg.value() >= 0x1000_0000_0000_0000,
        accuracy::gap(load.value(), avg.value()) * 20 * 0x100_0000_0000 >= avg.value()
            * 0x100_0000_0001,
    ensures
        imbalanced(load, avg),
{
    let ratio = Double { bits: LOAD_IMBAL_HIGH_RATIO_BITS };
    let high = avg.times(ratio);
    let diff = load.minus(avg);
    let (a, c, u) = (avg.mag() as int, ratio.mag() as int, accuracy::unit() as int);
    let d = accuracy::gap(load.value(), avg.value());
    lemma_high_ratio();
    pow2::lemma_pow2_pos(1074);
    double::lemma_parts(avg);
    accuracy::lemma_difference_finite(load, avg);
    accuracy::law_minus(load, avg);
    accuracy::law_times(avg, ratio);
    let m = diff.mag() as int;
    assert(accuracy::gap(m, d) * 0x20_0000_0000_0000 <= d);
    accuracy::lemma_scale(m, d, d, 0x20_0000_0000_0000, u);
    let (mu, du, au, ac) = (m * u, d * u, a * u, a * c);
    assert((20 * ac) * 0x40_0000_0000_0000 == au * 0x40_0000_0000_0000 + au) by (nonlinear_arith)
        requires
            (20 * c) * 0x40_0000_0000_0000 == u * 0x40_0000_0000_0000 + u,
            ac == a * c,
            au == a * u,
    ;
    assert(du * 20 * 0x100_0000_0000 >= au * 0x100_0000_0001 && au >= 0x1000_0000_0000_0000 * u)
        by (nonlinear_arith)
        requires
            d * 20 * 0x100_0000_0000 >= a * 0x100_0000_0001,
            a >= 0x1000_0000_0000_0000,
            du == d * u,
            au == a * u,
            u >= 1,
    ;
    let h = high.mag() as int;
    lemma_product_in_range(avg, ratio);
    assert(h * u < mu);
    assert(h < m) by (nonlinear_arith)
        requires
            h * u < m * u,
            u >= 1,
    ;
    accuracy::law_order(high, diff.magnitude());
    assert(diff.magnitude().value() == m);
}

proof fn lemma_product_in_range(avg: Double, ratio: Double)
    requires
        avg.finite(),
        ratio.finite(),
        20 * ratio.mag() <= 2 * accuracy::unit(),
    ensures
        avg.times(ratio).finite(),
{
    reveal(Double::times);
    let (a, c, u) = (avg.mag(), ratio.mag(), accuracy::unit());
    pow2::lemma_pow2_pos(1074);
    double::lemma_round_exact(avg);
    assert((a * c) * 1 <= a * u) by (nonlinear_arith)
        requires
            20 * c <= 2 * u,
    ;
    rounding::law_round_monotone(a * c, u, a, 1);
}

/// A domain is listed just where its load differs from the average by more than
/// 5 percent of it: not up to 5 percent, and from a part in `2^40` above that on,
/// whatever the size of the loads. It is to push where it has more load than the
/// average and to pull where it has less, and it is listed with the difference,
/// up to a part in `2^53`.
pub proof fn law_five_percent(loads: Seq<Double>, avg: Double, n: nat, dom: int)
    requires
        n <= MAX_DOMS,
        0 <= dom < n,
        loads[dom].finite(),
        avg.finite(),
        loads[dom].value() >= 0,
        avg.value() >= 0,
    ensures
        ({
            let push = with_pushing(Seq::empty(), loads, avg, n);
            let pull = with_pulling(Seq::empty(), loads, avg, n);
            let (l, a) = (loads[dom].value(), avg.value());
            let off = accuracy::gap(l, a);
            &&& 20 * off <= a ==> !names(push, dom as u32) && !names(pull, dom as u32)
            &&& a >= 0x1000_0000_0000_0000 && off * 20 * 0x100_0000_0000 >= a * 0x100_0000_0001
                ==> (if l > a {
                names(push, dom as u32) && !names(pull, dom as u32)
            } else {
                names(pull, dom as u32) && !names(push, dom as u32)
            })
            &&& a == 0 && l > 0 ==> names(push, dom as u32) && !names(pull, dom as u32)
            &&& forall|i: int|
                0 <= i < push.len() && (#[trigger] push[i]).1 == dom ==> accuracy::gap(
                    push[i].0.value(),
                    l - a,
                ) * 0x20_0000_0000_0000 <= off
            &&& forall|i: int|
                0 <= i < pull.len() && (#[trigger] pull[i]).1 == dom ==> accuracy::gap(
                    pull[i].0.value(),
                    a - l,
                ) * 0x20_0000_0000_0000 <= off
        }),
{
    let push = with_pushing(Seq::empty(), loads, avg, n);
    let pull = with_pulling(Seq::empty(), loads, avg, n);
    let load = loads[dom];
    let (l, a) = (load.value(), avg.value());
    let off = accuracy::gap(l, a);
    law_pushers(loads, avg, n);
    law_pullers(loads, avg, n);
    accuracy::lemma_difference_finite(load, avg);
    accuracy::law_minus(load, avg);
    double::law_difference_sign(load, avg);
    accuracy::law_order(load, avg);
    if 20 * off <= a {
        lemma_within_ratio(load, avg);
    }
    if a >= 0x1000_0000_0000_0000 && off * 20 * 0x100_0000_0000 >= a * 0x100_0000_0001 {
        lemma_beyond_ratio(load, avg);
    }
    if a == 0 && l > 0 {
        lemma_high_ratio();
        double::lemma_parts(avg);
        lemma_zero_times(avg, Double { bits: LOAD_IMBAL_HIGH_RATIO_BITS });
    }
    let diff = load.minus(avg);
    assert forall|i: int| 0 <= i < push.len() && (#[trigger] push[i]).1 == dom implies accuracy::gap(
        push[i].0.value(),
        l - a,
    ) * 0x20_0000_0000_0000 <= off by {
        lemma_same_rank(push[i].0, diff);
    }
    assert forall|i: int| 0 <= i < pull.len() && (#[trigger] pull[i]).1 == dom implies accuracy::gap(
        pull[i].0.value(),
        a - l,
    ) * 0x20_0000_0000_0000 <= off by {
        lemma_same_rank(pull[i].0, diff.negated());
        assert(diff.negated().value() == -diff.value());
    }
}

/// Numbers of the same rank have the same value.
proof fn lemma_same_rank(x: Double, y: Double)
    requires
        x.rank() == y.rank(),
        y.finite(),
    ensures
        x.value() == y.value(),
{
    double::lemma_parts(x);
    double::lemma_parts(y);
    double::lemma_order_is_value_order(x, y);
}

proof fn lemma_zero_times(zero: Double, x: Double)
    requires
        zero.low() == 0,
        x.finite(),
    ensures
        zero.times(x).low() == 0,
{
    reveal(Double::times);
    double::lemma_parts(zero);
    pow2::lemma_pow2_pos(1074);
    assert(0 * x.mag() == 0);
    double::lemma_round_zero(accuracy::unit());
}

/// Where no domain differs enough from the average, none is to push or to pull.
pub proof fn law_balanced_stays_put(
    push: Seq<(Double, u32)>,
    pull: Seq<(Double, u32)>,
    loads: Seq<Double>,
    avg: Double,
    n: nat,
)
    requires
        forall|dom: int| 0 <= dom < n ==> !imbalanced(#[trigger] loads[dom], avg),
    ensures
        with_pushing(push, loads, avg, n) == push,
        with_pulling(pull, loads, avg, n) == pull,
    decreases n,
{
    if n > 0 {
        law_balanced_stays_put(push, pull, loads, avg, (n - 1) as nat);
    }
}

/// The bucket from which weights count as feasible is loaded, the highest
/// feasible weight reaches its weight, and the same is true of no higher bucket.
pub proof fn law_feasible_bucket(
    dcycles: Seq<Double>,
    load: Double,
    p: Double,
    n: nat,
    other: int,
)
    requires
        feasible_bucket(dcycles, load, p, n) is Some,
    ensures
        ({
            let bucket = feasible_bucket(dcycles, load, p, n)->0;
            &&& 0 <= bucket < n
            &&& first_feasible(dcycles, load, p, bucket)
            &&& bucket < other < n ==> !first_feasible(dcycles, load, p, other)
        }),
    decreases n,
{
    if n > 0 && !first_feasible(dcycles, load, p, n - 1) {
        law_feasible_bucket(dcycles, load, p, (n - 1) as nat, other);
    }
}

} // verus!
