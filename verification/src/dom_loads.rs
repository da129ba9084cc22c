//! The load of each domain, from the duty cycles of its buckets.
use vstd::prelude::*;
use crate::approx;
use crate::double;
use crate::double::Double;
use crate::load_balancer;
use crate::load_balancer::LoadBalancer;
use crate::pow2;
use crate::topology::MAX_CPUS;
use crate::weights;
use crate::weights::LB_LOAD_BUCKETS;

verus! {

/// The duty cycles of the buckets of each domain; `None` for a domain of which
/// the kernel side knows nothing.
pub type Readings = Seq<Option<Vec<Double>>>;

/// There is a reading for each domain, and it covers every bucket.
pub open spec fn readings_for(r: Readings, doms: nat) -> bool {
    &&& r.len() == doms
    &&& forall|dom: int|
        0 <= dom < doms ==> (#[trigger] r[dom] matches Some(buckets) ==> buckets@.len()
            == LB_LOAD_BUCKETS)
}

/// The duty cycle of a bucket of a domain that has a reading.
pub open spec fn duty_cycle(r: Readings, dom: int, bucket: int) -> Double {
    r[dom]->0@[bucket]
}

/// The bucket has a duty cycle to speak of in this domain.
pub open spec fn used(r: Readings, dom: int, bucket: int) -> bool {
    r[dom] is Some && !approx::near(Double::zero(), duty_cycle(r, dom, bucket))
}

/// The duty cycle of the first `n` buckets of a domain.
pub open spec fn dom_dcycle(r: Readings, dom: int, n: nat) -> Double
    decreases n,
{
    if n == 0 {
        Double::zero()
    } else if used(r, dom, n - 1) {
        dom_dcycle(r, dom, (n - 1) as nat).plus(duty_cycle(r, dom, n - 1))
    } else {
        dom_dcycle(r, dom, (n - 1) as nat)
    }
}

/// The load of the first `n` buckets of a domain: duty cycle by weight.
pub open spec fn dom_load(r: Readings, dom: int, n: nat) -> Double
    decreases n,
{
    if n == 0 {
        Double::zero()
    } else if used(r, dom, n - 1) {
        dom_load(r, dom, (n - 1) as nat).plus(
            weights::weight_of(n - 1).times(duty_cycle(r, dom, n - 1)),
        )
    } else {
        dom_load(r, dom, (n - 1) as nat)
    }
}

/// The duty cycle of a bucket over the first `n` domains.
pub open spec fn bucket_dcycle(r: Readings, bucket: int, n: nat) -> Double
    decreases n,
{
    if n == 0 {
        Double::zero()
    } else if used(r, n - 1, bucket) {
        bucket_dcycle(r, bucket, (n - 1) as nat).plus(duty_cycle(r, n - 1, bucket))
    } else {
        bucket_dcycle(r, bucket, (n - 1) as nat)
    }
}

/// The duty cycle of the first `n` domains.
pub open spec fn global_dcycle(r: Readings, n: nat) -> Double
    decreases n,
{
    if n == 0 {
        Double::zero()
    } else if r[n - 1] is Some {
        global_dcycle(r, (n - 1) as nat).plus(dom_dcycle(r, n - 1, LB_LOAD_BUCKETS as nat))
    } else {
        global_dcycle(r, (n - 1) as nat)
    }
}

/// The load of the first `n` domains.
pub open spec fn global_load(r: Readings, n: nat) -> Double
    decreases n,
{
    if n == 0 {
        Double::zero()
    } else if r[n - 1] is Some {
        global_load(r, (n - 1) as nat).plus(dom_load(r, n - 1, LB_LOAD_BUCKETS as nat))
    } else {
        global_load(r, (n - 1) as nat)
    }
}

/// One of the first `n` domains uses the bucket.
pub open spec fn used_by_any(r: Readings, n: nat, bucket: int) -> bool {
    exists|dom: int| 0 <= dom < n && #[trigger] used(r, dom, bucket)
}

/// The highest bucket below `m` that one of the first `n` domains uses.
pub open spec fn highest_used(r: Readings, n: nat, m: nat) -> Option<int>
    decreases m,
{
    if m == 0 {
        None
    } else if used_by_any(r, n, m - 1) {
        Some(m - 1)
    } else {
        highest_used(r, n, (m - 1) as nat)
    }
}

/// The highest weight that is in use; zero where none is.
pub open spec fn max_weight(r: Readings, n: nat) -> Double {
    match highest_used(r, n, LB_LOAD_BUCKETS as nat) {
        Some(bucket) => weights::weight_of(bucket),
        None => Double::zero(),
    }
}

/// The duty cycles of each bucket over all domains.
pub open spec fn bucket_dcycles(r: Readings) -> Seq<Double> {
    Seq::new(LB_LOAD_BUCKETS as nat, |bucket: int| bucket_dcycle(r, bucket, r.len()))
}

/// The duty cycles of all buckets, domain after domain, as they are recorded.
pub open spec fn recorded(r: Readings) -> Seq<Double> {
    Seq::new(
        r.len() * LB_LOAD_BUCKETS as nat,
        |i: int|
            if used(r, i / LB_LOAD_BUCKETS as int, i % LB_LOAD_BUCKETS as int) {
                duty_cycle(r, i / LB_LOAD_BUCKETS as int, i % LB_LOAD_BUCKETS as int)
            } else {
                Double::zero()
            },
    )
}

/// The loads when only the duty cycle counts: that of each domain, none for a
/// domain without a reading, and the average of them.
pub open spec fn by_dcycle(before: LoadBalancer, after: LoadBalancer, r: Readings) -> bool {
    &&& after.infeas_threshold == before.infeas_threshold
    &&& after.load_avg == load_balancer::running_sum(after.dom_loads@, r.len()).over(
        Double::of_nat(r.len()),
    )
    &&& forall|dom: int|
        0 <= dom < r.len() ==> #[trigger] after.dom_loads@[dom] == (if r[dom] is Some {
            dom_dcycle(r, dom, LB_LOAD_BUCKETS as nat)
        } else {
            Double::zero()
        })
}

/// The loads when every weight counts in full.
pub open spec fn by_weight(before: LoadBalancer, after: LoadBalancer, r: Readings) -> bool {
    &&& after.infeas_threshold == before.infeas_threshold
    &&& after.load_avg == global_load(r, r.len()).over(Double::of_nat(r.len()))
    &&& forall|dom: int|
        0 <= dom < r.len() ==> #[trigger] after.dom_loads@[dom] == (if r[dom] is Some {
            dom_load(r, dom, LB_LOAD_BUCKETS as nat)
        } else {
            before.dom_loads@[dom]
        })
}

/// The highest weight in use exceeds the load of a CPU, `L / P`, so that it
/// cannot be given what it asks for. A weight that equals `L / P` still can.
pub open spec fn has_infeasible(r: Readings, cpus: nat) -> bool {
    global_load(r, r.len()).over(Double::of_nat(cpus)).below(max_weight(r, r.len()))
}

/// The weight of the bucket exceeds the load of a CPU, and a domain uses it.
pub open spec fn exceeds(r: Readings, cpus: nat, bucket: int) -> bool {
    &&& used_by_any(r, r.len(), bucket)
    &&& global_load(r, r.len()).over(Double::of_nat(cpus)).below(weights::weight_of(bucket))
}

/// A weight is infeasible just where some bucket that is in use has a weight
/// that exceeds the load of a CPU.
pub proof fn law_infeasible_weights(r: Readings, cpus: nat)
    requires
        0 < cpus <= MAX_CPUS,
    ensures
        has_infeasible(r, cpus) <==> exists|bucket: int|
            0 <= bucket < LB_LOAD_BUCKETS && #[trigger] exceeds(r, cpus, bucket),
{
    let n = r.len();
    let m = LB_LOAD_BUCKETS as nat;
    lemma_highest_used_is(r, n, m);
    match highest_used(r, n, m) {
        Some(top) => {
            if has_infeasible(r, cpus) {
                assert(exceeds(r, cpus, top));
            }
            assert forall|bucket: int|
                0 <= bucket < LB_LOAD_BUCKETS && #[trigger] exceeds(r, cpus, bucket) implies
                has_infeasible(r, cpus) by {
                weights::law_bucket_weights_ascend(top as nat, bucket as nat);
                weights::law_bucket_weights_ascend(bucket as nat, top as nat);
                weights::law_weight_is_mid_point(top as nat);
                weights::law_weight_is_mid_point(bucket as nat);
            }
        },
        None => {
            lemma_unused_has_no_load(r, n);
            double::lemma_of_nat_bounds(cpus);
            double::lemma_zero_over(Double::of_nat(cpus));
        },
    }
}

proof fn lemma_highest_used_is(r: Readings, n: nat, m: nat)
    ensures
        highest_used(r, n, m) matches Some(top) ==> 0 <= top < m && used_by_any(r, n, top),
        forall|b: int|
            0 <= b < m && #[trigger] used_by_any(r, n, b) ==> highest_used(r, n, m) is Some && b
                <= highest_used(r, n, m)->0,
    decreases m,
{
    if m > 0 {
        lemma_highest_used_is(r, n, (m - 1) as nat);
    }
}

proof fn lemma_unused_has_no_load(r: Readings, n: nat)
    requires
        n <= r.len(),
        forall|b: int| 0 <= b < LB_LOAD_BUCKETS ==> !#[trigger] used_by_any(r, r.len(), b),
    ensures
        global_load(r, n) == Double::zero(),
    decreases n,
{
    if n > 0 {
        lemma_unused_has_no_load(r, (n - 1) as nat);
        lemma_unused_dom_has_no_load(r, n - 1, LB_LOAD_BUCKETS as nat);
        double::lemma_settled(Double::zero(), Double::zero());
    }
}

proof fn lemma_unused_dom_has_no_load(r: Readings, dom: int, m: nat)
    requires
        0 <= dom < r.len(),
        m <= LB_LOAD_BUCKETS,
        forall|b: int| 0 <= b < LB_LOAD_BUCKETS ==> !#[trigger] used_by_any(r, r.len(), b),
    ensures
        dom_load(r, dom, m) == Double::zero(),
    decreases m,
{
    if m > 0 {
        lemma_unused_dom_has_no_load(r, dom, (m - 1) as nat);
        assert(!used_by_any(r, r.len(), m - 1));
        assert(!used(r, dom, m - 1));
    }
}

proof fn lemma_highest_used(r: Readings, n: nat, m: nat, bucket: int)
    requires
        0 <= bucket < m,
        used_by_any(r, n, bucket),
        forall|b: int| bucket < b < m ==> !#[trigger] used_by_any(r, n, b),
    ensures
        highest_used(r, n, m) == Some(bucket),
    decreases m,
{
    if bucket < m - 1 {
        lemma_highest_used(r, n, (m - 1) as nat, bucket);
    }
}

proof fn lemma_none_used(r: Readings, n: nat, m: nat)
    requires
        forall|b: int| 0 <= b < m ==> !#[trigger] used_by_any(r, n, b),
    ensures
        highest_used(r, n, m) is None,
    decreases m,
{
    if m > 0 {
        lemma_none_used(r, n, (m - 1) as nat);
    }
}

/// A pair of a domain and a bucket that comes before another pair.
spec fn seen(dom: int, bucket: int, n: int, m: int) -> bool {
    dom < n || (dom == n && bucket < m)
}

/// `weight` belongs to the highest bucket in use among the pairs before
/// `(n, m)`.
spec fn is_max(r: Readings, weight: Double, top: Option<int>, n: int, m: int) -> bool {
    &&& forall|d: int, b: int|
        0 <= d && 0 <= b < LB_LOAD_BUCKETS && seen(d, b, n, m) && #[trigger] used(r, d, b)
            ==> top is Some && b <= top->0
    &&& match top {
        Some(t) => {
            &&& 0 <= t < LB_LOAD_BUCKETS
            &&& weight == weights::weight_of(t)
            &&& exists|d: int| 0 <= d && seen(d, t, n, m) && #[trigger] used(r, d, t)
        },
        None => weight == Double::zero(),
    }
}

proof fn lemma_is_max(r: Readings, weight: Double, top: Option<int>, n: nat)
    requires
        is_max(r, weight, top, n as int, 0),
    ensures
        weight == max_weight(r, n),
{
    let m = LB_LOAD_BUCKETS as nat;
    match top {
        Some(t) => {
            assert forall|b: int| t < b < m implies !#[trigger] used_by_any(r, n, b) by {
                if used_by_any(r, n, b) {
                    let d = choose|d: int| 0 <= d < n && #[trigger] used(r, d, b);
                    assert(seen(d, b, n as int, 0));
                }
            }
            lemma_highest_used(r, n, m, t);
        },
        None => {
            assert forall|b: int| 0 <= b < m implies !#[trigger] used_by_any(r, n, b) by {
                if used_by_any(r, n, b) {
                    let d = choose|d: int| 0 <= d < n && #[trigger] used(r, d, b);
                    assert(seen(d, b, n as int, 0));
                }
            }
            lemma_none_used(r, n, m);
        },
    }
}

proof fn lemma_zero_below_weight(bucket: nat)
    requires
        bucket < LB_LOAD_BUCKETS,
    ensures
        Double::zero().below(weights::weight_of(bucket as int)),
{
    let n = weights::bucket_min(bucket) + weights::bucket_max(bucket);
    let big = pow2::pow2(1074);
    weights::law_weight_is_mid_point(bucket);
    pow2::lemma_pow2_pos(1074);
    assert(n * big > 0) by (nonlinear_arith)
        requires
            n > 0,
            big >= 1,
    ;
    assert(Double::zero().value() == 0) by {
        assert(0 * pow2::pow2(0) == 0);
    }
    double::lemma_order_is_value_order(Double::zero(), weights::weight_of(bucket as int));
}

/// The sums over the domains are the sums of what is counted for each of them.
proof fn lemma_global_sums(r: Readings, dcycles: Seq<Double>, loads: Seq<Double>, n: nat)
    requires
        n <= r.len(),
        forall|d: int|
            0 <= d < n ==> #[trigger] dcycles[d] == (if r[d] is Some {
                dom_dcycle(r, d, LB_LOAD_BUCKETS as nat)
            } else {
                Double::zero()
            }),
        forall|d: int|
            0 <= d < n ==> #[trigger] loads[d] == (if r[d] is Some {
                dom_load(r, d, LB_LOAD_BUCKETS as nat)
            } else {
                Double::zero()
            }),
    ensures
        global_dcycle(r, n) == load_balancer::running_sum(dcycles, n),
        global_load(r, n) == load_balancer::running_sum(loads, n),
        double::settled(global_dcycle(r, n)),
        double::settled(global_load(r, n)),
    decreases n,
{
    if n > 0 {
        let m = (n - 1) as nat;
        lemma_global_sums(r, dcycles, loads, m);
        double::lemma_settled(global_dcycle(r, m), dcycles[n - 1]);
        double::lemma_settled(global_load(r, m), loads[n - 1]);
    }
}

/// A list of `n` times the same number.
fn filled(n: usize, x: Double) -> (res: Vec<Double>)
    ensures
        res@.len() == n,
        forall|i: int| 0 <= i < n ==> #[trigger] res@[i] == x,
{
    let mut res: Vec<Double> = Vec::new();
    let mut i: usize = 0;
    while i < n
        invariant
            i <= n,
            res@.len() == i,
            forall|j: int| 0 <= j < i ==> #[trigger] res@[j] == x,
        decreases n - i,
    {
        res.push(x);
        i = i + 1;
    }
    res
}

/// What is gathered about the domains before any adjustment.
struct Gathered {
    bucket_dcycle: Vec<Double>,
    dcycle_sum: Double,
    load_sum: Double,
    dcycle_buckets: Vec<Double>,
    dcycle_sums: Vec<Double>,
    dom_loads: Vec<Double>,
    max_weight: Double,
}

impl Gathered {
    /// Everything of the first `n` domains has been gathered.
    spec fn covers(self, r: Readings, before: Seq<Double>, n: nat) -> bool {
        &&& self.bucket_dcycle@.len() == LB_LOAD_BUCKETS
        &&& self.dcycle_buckets@.len() == r.len() * LB_LOAD_BUCKETS
        &&& self.dcycle_sums@.len() == r.len()
        &&& self.dom_loads@.len() == r.len()
        &&& self.dcycle_sum == global_dcycle(r, n)
        &&& self.load_sum == global_load(r, n)
        &&& forall|b: int|
            0 <= b < LB_LOAD_BUCKETS ==> #[trigger] self.bucket_dcycle@[b] == bucket_dcycle(r, b, n)
        &&& forall|i: int|
            0 <= i < r.len() * LB_LOAD_BUCKETS ==> #[trigger] self.dcycle_buckets@[i] == (if i < n
                * LB_LOAD_BUCKETS {
                recorded(r)[i]
            } else {
                Double::zero()
            })
        &&& forall|d: int|
            0 <= d < r.len() ==> #[trigger] self.dcycle_sums@[d] == (if d < n && r[d] is Some {
                dom_dcycle(r, d, LB_LOAD_BUCKETS as nat)
            } else {
                Double::zero()
            })
        &&& forall|d: int|
            0 <= d < r.len() ==> #[trigger] self.dom_loads@[d] == (if d < n && r[d] is Some {
                dom_load(r, d, LB_LOAD_BUCKETS as nat)
            } else {
                before[d]
            })
    }
}

/// Adds up duty cycles and loads over all domains and buckets.
fn gather(readings: &Vec<Option<Vec<Double>>>, dom_loads: Vec<Double>) -> (res: Gathered)
    requires
        readings@.len() <= 64,
        readings_for(readings@, readings@.len()),
        dom_loads@.len() == readings@.len(),
    ensures
        res.covers(readings@, dom_loads@, readings@.len()),
        res.max_weight == max_weight(readings@, readings@.len()),
{
    let ghost r = readings@;
    let ghost before = dom_loads@;
    let nr_doms: usize = readings.len();
    let mut g: Gathered = Gathered {
        bucket_dcycle: filled(LB_LOAD_BUCKETS as usize, Double { bits: 0 }),
        dcycle_sum: Double { bits: 0 },
        load_sum: Double { bits: 0 },
        dcycle_buckets: filled(LB_LOAD_BUCKETS as usize * nr_doms, Double { bits: 0 }),
        dcycle_sums: filled(nr_doms, Double { bits: 0 }),
        dom_loads,
        max_weight: Double { bits: 0 },
    };
    let ghost mut top: Option<int> = None;
    let mut dom: usize = 0;
    while dom < nr_doms
        invariant
            nr_doms == r.len(),
            r == readings@,
            nr_doms <= 64,
            readings_for(r, r.len()),
            before.len() == r.len(),
            dom <= nr_doms,
            g.covers(r, before, dom as nat),
            is_max(r, g.max_weight, top, dom as int, 0),
        decreases nr_doms - dom,
    {
        let ghost g0 = g;
        let dom_offset: usize = dom * LB_LOAD_BUCKETS as usize;
        if let Some(buckets) = &readings[dom] {
            assert(r[dom as int] is Some);
            let mut dom_dcycle_sum: Double = Double { bits: 0 };
            let mut dom_load_sum: Double = Double { bits: 0 };
            let mut bucket: u64 = 0;
            while bucket < LB_LOAD_BUCKETS
                invariant
                    nr_doms == r.len(),
                    r == readings@,
                    nr_doms <= 64,
                    readings_for(r, r.len()),
                    dom < nr_doms,
                    dom_offset == dom * LB_LOAD_BUCKETS,
                    r[dom as int] == Some(*buckets),
                    bucket <= LB_LOAD_BUCKETS,
                    g0.covers(r, before, dom as nat),
                    g.bucket_dcycle@.len() == LB_LOAD_BUCKETS,
                    g.dcycle_buckets@.len() == r.len() * LB_LOAD_BUCKETS,
                    g.dcycle_sum == g0.dcycle_sum,
                    g.load_sum == g0.load_sum,
                    g.dcycle_sums == g0.dcycle_sums,
                    g.dom_loads == g0.dom_loads,
                    dom_dcycle_sum == dom_dcycle(r, dom as int, bucket as nat),
                    dom_load_sum == dom_load(r, dom as int, bucket as nat),
                    forall|b: int|
                        0 <= b < LB_LOAD_BUCKETS ==> #[trigger] g.bucket_dcycle@[b]
                            == bucket_dcycle(r, b, (if b < bucket {
                            dom + 1
                        } else {
                            dom as int
                        }) as nat),
                    forall|i: int|
                        0 <= i < r.len() * LB_LOAD_BUCKETS ==> #[trigger] g.dcycle_buckets@[i] == (
                        if i < dom_offset + bucket {
                            recorded(r)[i]
                        } else {
                            Double::zero()
                        }),
                    is_max(r, g.max_weight, top, dom as int, bucket as int),
                decreases LB_LOAD_BUCKETS - bucket,
            {
                let duty: Double = buckets[bucket as usize];
                assert(duty == duty_cycle(r, dom as int, bucket as int));
                let ghost at = dom_offset + bucket;
                assert(at / LB_LOAD_BUCKETS as int == dom && at % LB_LOAD_BUCKETS as int == bucket);
                if approx::approx_eq(Double { bits: 0 }, duty) {
                    assert(!used(r, dom as int, bucket as int));
                    proof {
                        lemma_max_step_unused(r, g.max_weight, top, dom as int, bucket as int);
                    }
                } else {
                    assert(used(r, dom as int, bucket as int));
                    dom_dcycle_sum = dom_dcycle_sum.add(duty);
                    let sum: Double = g.bucket_dcycle[bucket as usize];
                    g.bucket_dcycle[bucket as usize] = sum.add(duty);
                    g.dcycle_buckets[dom_offset + bucket as usize] = duty;
                    let weight: Double = weights::bucket_weight(bucket);
                    dom_load_sum = dom_load_sum.add(weight.mul(duty));
                    let ghost old_weight = g.max_weight;
                    let ghost old_top = top;
                    if g.max_weight.lt(weight) {
                        g.max_weight = weight;
                        proof {
                            top = Some(bucket as int);
                        }
                    }
                    proof {
                        lemma_max_step_used(r, old_weight, old_top, dom as int, bucket as int);
                    }
                }
                bucket = bucket + 1;
            }
            g.dcycle_sum = g.dcycle_sum.add(dom_dcycle_sum);
            g.dcycle_sums[dom] = dom_dcycle_sum;
            g.load_sum = g.load_sum.add(dom_load_sum);
            g.dom_loads[dom] = dom_load_sum;
            proof {
                lemma_max_next_dom(r, g.max_weight, top, dom as int, LB_LOAD_BUCKETS as int);
            }
        } else {
            proof {
                assert(r[dom as int] is None);
                assert forall|b: int| 0 <= b < LB_LOAD_BUCKETS implies #[trigger] g.bucket_dcycle@[b]
                    == bucket_dcycle(r, b, (dom + 1) as nat) by {
                    assert(!used(r, dom as int, b));
                }
                assert forall|i: int| dom * LB_LOAD_BUCKETS <= i < (dom + 1) * LB_LOAD_BUCKETS implies
                    #[trigger] recorded(r)[i] == Double::zero() by {
                    assert(i / LB_LOAD_BUCKETS as int == dom);
                }
                lemma_max_next_dom(r, g.max_weight, top, dom as int, 0);
            }
        }
        dom = dom + 1;
    }
    proof {
        lemma_is_max(r, g.max_weight, top, nr_doms as nat);
    }
    g
}

proof fn lemma_max_step_unused(r: Readings, weight: Double, top: Option<int>, n: int, m: int)
    requires
        is_max(r, weight, top, n, m),
        !used(r, n, m),
    ensures
        is_max(r, weight, top, n, m + 1),
{
    assert forall|d: int, b: int|
        0 <= d && 0 <= b < LB_LOAD_BUCKETS && seen(d, b, n, m + 1) && #[trigger] used(r, d, b) implies
        top is Some && b <= top->0 by {
        assert(seen(d, b, n, m));
    }
    if let Some(t) = top {
        let d = choose|d: int| 0 <= d && seen(d, t, n, m) && #[trigger] used(r, d, t);
        assert(seen(d, t, n, m + 1) && used(r, d, t));
    }
}

proof fn lemma_max_step_used(r: Readings, weight: Double, top: Option<int>, n: int, m: int)
    requires
        is_max(r, weight, top, n, m),
        used(r, n, m),
        0 <= n,
        0 <= m < LB_LOAD_BUCKETS,
    ensures
        weight.below(weights::weight_of(m)) ==> is_max(
            r,
            weights::weight_of(m),
            Some(m),
            n,
            m + 1,
        ),
        !weight.below(weights::weight_of(m)) ==> is_max(r, weight, top, n, m + 1),
{
    lemma_zero_below_weight(m as nat);
    if let Some(t) = top {
        weights::law_bucket_weights_ascend(t as nat, m as nat);
        let d = choose|d: int| 0 <= d && seen(d, t, n, m) && #[trigger] used(r, d, t);
        assert(seen(d, t, n, m + 1) && used(r, d, t));
    }
    assert(seen(n, m, n, m + 1));
    assert forall|d: int, b: int|
        0 <= d && 0 <= b < LB_LOAD_BUCKETS && seen(d, b, n, m + 1) && #[trigger] used(r, d, b) implies
        seen(d, b, n, m) || (d == n && b == m) by {
    }
}

proof fn lemma_max_next_dom(r: Readings, weight: Double, top: Option<int>, n: int, m: int)
    requires
        is_max(r, weight, top, n, m),
        m == LB_LOAD_BUCKETS || r[n] is None,
        m <= LB_LOAD_BUCKETS,
    ensures
        is_max(r, weight, top, n + 1, 0),
{
    assert forall|d: int, b: int|
        0 <= d && 0 <= b < LB_LOAD_BUCKETS && seen(d, b, n + 1, 0) && #[trigger] used(r, d, b) implies
        top is Some && b <= top->0 by {
        assert(seen(d, b, n, m));
    }
    if let Some(t) = top {
        let d = choose|d: int| 0 <= d && seen(d, t, n, m) && #[trigger] used(r, d, t);
        assert(seen(d, t, n + 1, 0) && used(r, d, t));
    }
}

impl<'a> LoadBalancer<'a> {
    /// Works out the load of each domain and the average load, from the duty
    /// cycles of the buckets of each domain.
    ///
    /// An under-utilized system goes by duty cycle alone. Otherwise duty cycles
    /// count by weight, and where a weight in use is infeasible, weights count
    /// up to the highest feasible one. The average is that of the loads.
    pub fn read_dom_loads(&mut self, readings: &Vec<Option<Vec<Double>>>)
        requires
            old(self).wf(),
            readings_for(readings@, old(self).top.doms()),
        ensures
            final(self).wf(),
            final(self).same_but_loads(*old(self)),
            ({
                let r = readings@;
                let p = Double::of_nat(old(self).top.cpus());
                let load = global_load(r, r.len());
                if !old(self).lb_apply_weight {
                    by_dcycle(*old(self), *final(self), r)
                } else if !has_infeasible(r, old(self).top.cpus()) {
                    by_weight(*old(self), *final(self), r)
                } else {
                    match load_balancer::feasible_bucket(
                        bucket_dcycles(r),
                        load,
                        p,
                        LB_LOAD_BUCKETS as nat,
                    ) {
                        Some(bucket) => final(self).limited_to(
                            recorded(r),
                            load_balancer::lambda(bucket_dcycles(r), load, p, bucket + 1),
                        ),
                        None => by_weight(*old(self), *final(self), r),
                    }
                }
            }),
            !old(self).lb_apply_weight || (forall|dom: int|
                0 <= dom < old(self).top.doms() ==> #[trigger] old(self).dom_loads@[dom]
                    == Double::zero()) ==> final(self).load_avg == load_balancer::running_sum(
                final(self).dom_loads@,
                old(self).top.doms(),
            ).over(Double::of_nat(old(self).top.doms())),
    {
        let ghost r = readings@;
        let mut dom_loads: Vec<Double> = Vec::new();
        std::mem::swap(&mut dom_loads, &mut self.dom_loads);
        let g: Gathered = gather(readings, dom_loads);
        proof {
            let loads = Seq::new(
                r.len(),
                |d: int|
                    if r[d] is Some {
                        dom_load(r, d, LB_LOAD_BUCKETS as nat)
                    } else {
                        Double::zero()
                    },
            );
            lemma_global_sums(r, g.dcycle_sums@, loads, r.len());
            if forall|dom: int|
                0 <= dom < self.top.doms() ==> #[trigger] old(self).dom_loads@[dom]
                    == Double::zero() {
                assert(g.dom_loads@ =~= loads);
            }
        }
        self.dom_loads = g.dom_loads;
        let nr_doms: Double = Double::from_u64(self.top.nr_doms() as u64);

        if !self.lb_apply_weight {
            self.load_avg = g.dcycle_sum.div(nr_doms);
            self.dom_loads = g.dcycle_sums;
            return ;
        }
        let infeasible_thresh: Double = g.load_sum.div(
            Double::from_u64(self.top.nr_cpus() as u64),
        );
        if infeasible_thresh.lt(g.max_weight) {
            assert(g.bucket_dcycle@ =~= bucket_dcycles(r));
            assert(g.dcycle_buckets@ =~= recorded(r));
            self.adjust_infeas_weights(&g.bucket_dcycle, &g.dcycle_buckets, g.load_sum);
            return ;
        }
        self.load_avg = g.load_sum.div(nr_doms);
    }
}

} // verus!
