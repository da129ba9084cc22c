//! What the duty cycles and the loads of the domains are, in exact terms.
use vstd::prelude::*;
use crate::accuracy;
use crate::approx;
use crate::dom_loads;
use crate::dom_loads::Readings;
use crate::double::Double;
use crate::feasibility;
use crate::load_balancer;
use crate::load_balancer::LoadBalancer;
use crate::pow2;
use crate::topology::MAX_CPUS;
use crate::weights;
use crate::weights::LB_LOAD_BUCKETS;

verus! {

/// Every duty cycle that was read is small.
pub open spec fn readings_small(r: Readings) -> bool {
    forall|dom: int, bucket: int|
        0 <= dom < r.len() && r[dom] is Some && 0 <= bucket < LB_LOAD_BUCKETS ==> accuracy::small(
            #[trigger] dom_loads::duty_cycle(r, dom, bucket),
        )
}

/// A bucket of a domain that has a reading counts just where its duty cycle is
/// above 0.0001: not up to that, and from a part in `2^40` above it on. None does
/// where the domain has no reading.
pub proof fn law_used(r: Readings, dom: int, bucket: int)
    requires
        r[dom] is Some ==> accuracy::small(r[dom]->0@[bucket]),
    ensures
        r[dom] is None ==> !dom_loads::used(r, dom, bucket),
        r[dom] is Some && 10000 * r[dom]->0@[bucket].value() <= accuracy::unit()
            ==> !dom_loads::used(r, dom, bucket),
        r[dom] is Some && r[dom]->0@[bucket].value() * 10000 * 0x100_0000_0000 >= accuracy::unit()
            * 0x100_0000_0001 ==> dom_loads::used(r, dom, bucket),
        r[dom] is Some ==> dom_loads::duty_cycle(r, dom, bucket) == r[dom]->0@[bucket],
{
    if r[dom] is Some {
        lemma_zero();
        approx::law_near(Double::zero(), r[dom]->0@[bucket]);
    }
}

proof fn lemma_zero()
    ensures
        Double::zero().finite(),
        Double::zero().value() == 0,
{
    assert(0 * pow2::pow2(0) == 0);
}

/// The exact duty cycle of the first `n` buckets of a domain that count.
pub open spec fn exact_dom_dcycle(r: Readings, dom: int, n: nat) -> int
    decreases n,
{
    if n == 0 {
        0
    } else if dom_loads::used(r, dom, n - 1) {
        exact_dom_dcycle(r, dom, (n - 1) as nat) + r[dom]->0@[n - 1].value()
    } else {
        exact_dom_dcycle(r, dom, (n - 1) as nat)
    }
}

/// Twice the exact load of the first `n` buckets of a domain that count.
pub open spec fn twice_dom_load(r: Readings, dom: int, n: nat) -> int
    decreases n,
{
    if n == 0 {
        0
    } else if dom_loads::used(r, dom, n - 1) {
        twice_dom_load(r, dom, (n - 1) as nat) + (200 * (n - 1) + 101) * r[dom]->0@[n - 1].value()
    } else {
        twice_dom_load(r, dom, (n - 1) as nat)
    }
}

/// The exact duty cycle of a bucket over the first `n` domains in which it counts.
pub open spec fn exact_bucket_dcycle(r: Readings, bucket: int, n: nat) -> int
    decreases n,
{
    if n == 0 {
        0
    } else if dom_loads::used(r, n - 1, bucket) {
        exact_bucket_dcycle(r, bucket, (n - 1) as nat) + r[n - 1]->0@[bucket].value()
    } else {
        exact_bucket_dcycle(r, bucket, (n - 1) as nat)
    }
}

/// Twice the exact load of the first `n` domains.
pub open spec fn twice_global_load(r: Readings, n: nat) -> int
    decreases n,
{
    if n == 0 {
        0
    } else if r[n - 1] is Some {
        twice_global_load(r, (n - 1) as nat) + twice_dom_load(r, n - 1, LB_LOAD_BUCKETS as nat)
    } else {
        twice_global_load(r, (n - 1) as nat)
    }
}

/// A product with a count that is not high.
proof fn lemma_few(n: int, x: int)
    requires
        0 <= n <= 200,
        x >= 0,
    ensures
        0 <= n * x <= 200 * x,
        (n + 1) * x == n * x + x,
        n * x <= (n + 1) * x,
{
    assert(0 <= n * x <= 200 * x && (n + 1) * x == n * x + x) by (nonlinear_arith)
        requires
            0 <= n <= 200,
            x >= 0,
    ;
}

/// The duty cycle of a domain is the sum of those of its buckets that count, up to
/// `n` parts in `2^50`.
pub proof fn law_dom_dcycle(r: Readings, dom: int, n: nat)
    requires
        0 <= dom < r.len(),
        n <= LB_LOAD_BUCKETS,
        readings_small(r),
    ensures
        ({
            let v = dom_loads::dom_dcycle(r, dom, n);
            let e = exact_dom_dcycle(r, dom, n);
            &&& v.finite()
            &&& v.value() >= 0
            &&& 0 <= e <= n * pow2::pow2(2000)
            &&& accuracy::gap(v.value(), e) * 0x4_0000_0000_0000 <= n * e
        }),
    decreases n,
{
    let top = pow2::pow2(2000) as int;
    if n == 0 {
        lemma_zero();
        assert(0 * top == 0);
    } else {
        let m = (n - 1) as nat;
        law_dom_dcycle(r, dom, m);
        let v = dom_loads::dom_dcycle(r, dom, m);
        let e = exact_dom_dcycle(r, dom, m);
        lemma_few(m as int, e);
        lemma_few(m as int, top);
        if dom_loads::used(r, dom, m as int) {
            let d = dom_loads::duty_cycle(r, dom, m as int);
            assert(accuracy::small(d));
            accuracy::lemma_small_range();
            accuracy::law_plus(v, d);
            accuracy::lemma_add_term(
                m as int,
                v.value(),
                e,
                d.value(),
                d.value(),
                v.plus(d).value(),
                0,
            );
        }
    }
}

/// The duty cycle of a bucket over the first `n` domains is the sum of those of
/// the domains in which it counts, up to `n` parts in `2^50`.
pub proof fn law_bucket_dcycle(r: Readings, bucket: int, n: nat)
    requires
        n <= r.len(),
        n <= 64,
        0 <= bucket < LB_LOAD_BUCKETS,
        readings_small(r),
    ensures
        ({
            let v = dom_loads::bucket_dcycle(r, bucket, n);
            let e = exact_bucket_dcycle(r, bucket, n);
            &&& v.finite()
            &&& v.value() >= 0
            &&& 0 <= e <= n * pow2::pow2(2000)
            &&& accuracy::gap(v.value(), e) * 0x4_0000_0000_0000 <= n * e
            &&& n == r.len() ==> dom_loads::bucket_dcycles(r)[bucket] == v
        }),
    decreases n,
{
    let top = pow2::pow2(2000) as int;
    if n == 0 {
        lemma_zero();
        assert(0 * top == 0);
    } else {
        let m = (n - 1) as nat;
        law_bucket_dcycle(r, bucket, m);
        let v = dom_loads::bucket_dcycle(r, bucket, m);
        let e = exact_bucket_dcycle(r, bucket, m);
        lemma_few(m as int, e);
        lemma_few(m as int, top);
        if dom_loads::used(r, m as int, bucket) {
            let d = dom_loads::duty_cycle(r, m as int, bucket);
            assert(accuracy::small(d));
            accuracy::lemma_small_range();
            accuracy::law_plus(v, d);
            accuracy::lemma_add_term(
                m as int,
                v.value(),
                e,
                d.value(),
                d.value(),
                v.plus(d).value(),
                0,
            );
        }
    }
}

/// The load of a domain is the sum of weight by duty cycle over its buckets that
/// count, up to `n` parts in `2^50`.
pub proof fn law_dom_load(r: Readings, dom: int, n: nat)
    requires
        0 <= dom < r.len(),
        n <= LB_LOAD_BUCKETS,
        readings_small(r),
    ensures
        ({
            let v = dom_loads::dom_load(r, dom, n);
            let e = twice_dom_load(r, dom, n);
            &&& v.finite()
            &&& v.value() >= 0
            &&& 0 <= e <= n * (20000 * pow2::pow2(2000))
            &&& accuracy::gap(2 * v.value(), e) * 0x4_0000_0000_0000 <= n * e
        }),
    decreases n,
{
    let top = 20000 * pow2::pow2(2000) as int;
    if n == 0 {
        lemma_zero();
        assert(0 * top == 0);
    } else {
        let m = (n - 1) as nat;
        law_dom_load(r, dom, m);
        let v = dom_loads::dom_load(r, dom, m);
        let e = twice_dom_load(r, dom, m);
        lemma_few(m as int, e);
        lemma_few(m as int, top);
        if dom_loads::used(r, dom, m as int) {
            let d = dom_loads::duty_cycle(r, dom, m as int);
            assert(accuracy::small(d));
            law_used(r, dom, m as int);
            feasibility::lemma_bucket_load(m as int, d);
            let term = weights::weight_of(m as int).times(d);
            accuracy::lemma_small_range();
            accuracy::law_plus(v, term);
            accuracy::lemma_add_term(
                m as int,
                2 * v.value(),
                e,
                2 * term.value(),
                (200 * m + 101) * d.value(),
                2 * v.plus(term).value(),
                0,
            );
        }
    }
}

/// The load of the machine is the sum of those of its domains, up to a part in
/// `2^42`.
pub proof fn law_global_load(r: Readings, n: nat)
    requires
        n <= r.len(),
        n <= 64,
        readings_small(r),
    ensures
        ({
            let v = dom_loads::global_load(r, n);
            let e = twice_global_load(r, n);
            &&& v.finite()
            &&& v.value() >= 0
            &&& 0 <= e <= n * (100 * (20000 * pow2::pow2(2000)))
            &&& accuracy::gap(2 * v.value(), e) * 0x4_0000_0000_0000 <= (100 + n) * e
        }),
    decreases n,
{
    let top = 100 * (20000 * pow2::pow2(2000)) as int;
    if n == 0 {
        lemma_zero();
        assert(0 * top == 0);
    } else {
        let m = (n - 1) as nat;
        law_global_load(r, m);
        let v = dom_loads::global_load(r, m);
        let e = twice_global_load(r, m);
        lemma_few(100 + m as int, e);
        lemma_few(m as int, top);
        if r[m as int] is Some {
            law_dom_load(r, m as int, LB_LOAD_BUCKETS as nat);
            let term = dom_loads::dom_load(r, m as int, LB_LOAD_BUCKETS as nat);
            let x = twice_dom_load(r, m as int, LB_LOAD_BUCKETS as nat);
            assert(100 * x <= (100 + m) * x) by (nonlinear_arith)
                requires
                    m >= 0,
                    x >= 0,
            ;
            accuracy::lemma_small_range();
            accuracy::law_plus(v, term);
            accuracy::lemma_add_sum(
                100 + m as int,
                2 * v.value(),
                e,
                2 * term.value(),
                x,
                2 * v.plus(term).value(),
            );
        }
    }
}

/// Where balancing goes by duty cycle, the load of a domain is the sum of the duty
/// cycles of its buckets that count, up to a part in `2^43`, and a domain without
/// a reading has none.
pub proof fn law_loads_by_dcycle(before: LoadBalancer, after: LoadBalancer, r: Readings, dom: int)
    requires
        dom_loads::by_dcycle(before, after, r),
        0 <= dom < r.len(),
        readings_small(r),
    ensures
        ({
            let v = after.dom_loads@[dom].value();
            let e = exact_dom_dcycle(r, dom, LB_LOAD_BUCKETS as nat);
            &&& after.dom_loads@[dom].finite()
            &&& r[dom] is Some ==> accuracy::gap(v, e) * 0x800_0000_0000 <= e
            &&& r[dom] is None ==> v == 0
        }),
{
    law_dom_dcycle(r, dom, LB_LOAD_BUCKETS as nat);
    lemma_zero();
}

/// Where balancing goes by weight and every weight is feasible, the load of a
/// domain is the sum of weight by duty cycle over its buckets that count, up to a
/// part in `2^43`. That of a domain without a reading stays as it was.
pub proof fn law_loads_by_weight(before: LoadBalancer, after: LoadBalancer, r: Readings, dom: int)
    requires
        dom_loads::by_weight(before, after, r),
        0 <= dom < r.len(),
        readings_small(r),
    ensures
        ({
            let v = after.dom_loads@[dom].value();
            let e = twice_dom_load(r, dom, LB_LOAD_BUCKETS as nat);
            &&& r[dom] is Some ==> after.dom_loads@[dom].finite() && accuracy::gap(2 * v, e)
                * 0x800_0000_0000 <= e
            &&& r[dom] is None ==> after.dom_loads@[dom] == before.dom_loads@[dom]
        }),
{
    if r[dom] is Some {
        law_dom_load(r, dom, LB_LOAD_BUCKETS as nat);
    }
}

/// Where balancing goes by duty cycle, the average load is that of the loads of
/// all domains, up to a part in `2^40` and a unit, and the threshold for weights
/// stays as it was.
pub proof fn law_average_by_dcycle(before: LoadBalancer, after: LoadBalancer, r: Readings)
    requires
        dom_loads::by_dcycle(before, after, r),
        0 < r.len() <= 64,
        forall|dom: int| 0 <= dom < r.len() ==> accuracy::small(#[trigger] after.dom_loads@[dom]),
    ensures
        after.infeas_threshold == before.infeas_threshold,
        ({
            let (n, v) = (r.len(), after.load_avg.value());
            let e = accuracy::exact_sum(after.dom_loads@, n);
            &&& after.load_avg.finite()
            &&& accuracy::gap(v * n, e) * 0x100_0000_0000 <= e + 0x100_0000_0000 * n
        }),
{
    feasibility::law_average_load(after.dom_loads@, r.len());
}

/// Working out the loads leaves the tasks, the imbalances, the settings and the
/// lists of domains alone.
pub proof fn law_same_but_loads(a: LoadBalancer, b: LoadBalancer)
    requires
        a.same_but_loads(b),
    ensures
        a.top == b.top && a.skip_kworkers == b.skip_kworkers && a.lb_apply_weight
            == b.lb_apply_weight,
        a.tasks_by_load == b.tasks_by_load && a.imbal == b.imbal,
        a.doms_to_push == b.doms_to_push && a.doms_to_pull == b.doms_to_pull,
{
}

/// Where every weight counts in full, the average load is the load of the machine
/// over all domains, up to a part in `2^40` and a unit, and the threshold for
/// weights stays as it was.
pub proof fn law_average_by_weight(before: LoadBalancer, after: LoadBalancer, r: Readings)
    requires
        dom_loads::by_weight(before, after, r),
        0 < r.len() <= 64,
        readings_small(r),
    ensures
        after.infeas_threshold == before.infeas_threshold,
        ({
            let (n, v) = (r.len(), after.load_avg.value());
            let e = twice_global_load(r, n);
            &&& after.load_avg.finite()
            &&& accuracy::gap(2 * (v * n), e) * 0x100_0000_0000 <= e + 0x100_0000_0000 * n
        }),
{
    let n = r.len();
    let e = twice_global_load(r, n);
    law_global_load(r, n);
    accuracy::law_mean(dom_loads::global_load(r, n), n);
    assert((100 + n) * e <= 164 * e) by (nonlinear_arith)
        requires
            n <= 64,
            e >= 0,
    ;
}

/// Where weights count up to a threshold, that is the threshold that is kept, and
/// the average load is that of the loads of all domains, up to a part in `2^40`
/// and a unit.
pub proof fn law_average_when_limited(after: LoadBalancer, dcycles: Seq<Double>, threshold: Double)
    requires
        after.limited_to(dcycles, threshold),
        0 < after.top.doms() <= 64,
        forall|dom: int|
            0 <= dom < after.top.doms() ==> accuracy::small(#[trigger] after.dom_loads@[dom]),
    ensures
        after.infeas_threshold == threshold,
        forall|dom: int|
            0 <= dom < after.top.doms() ==> #[trigger] after.dom_loads@[dom]
                == load_balancer::limited_load(dcycles, dom, threshold, LB_LOAD_BUCKETS as nat),
        ({
            let (n, v) = (after.top.doms(), after.load_avg.value());
            let e = accuracy::exact_sum(after.dom_loads@, n);
            &&& after.load_avg.finite()
            &&& accuracy::gap(v * n, e) * 0x100_0000_0000 <= e + 0x100_0000_0000 * n
        }),
{
    feasibility::law_average_load(after.dom_loads@, after.top.doms());
}

/// The duty cycle that is recorded for a bucket of a domain is the one that was
/// read where the bucket counts, and none otherwise.
pub proof fn law_recorded(r: Readings, dom: int, bucket: int)
    requires
        0 <= dom < r.len(),
        0 <= bucket < LB_LOAD_BUCKETS,
    ensures
        dom_loads::recorded(r).len() == r.len() * LB_LOAD_BUCKETS,
        dom_loads::recorded(r)[dom * LB_LOAD_BUCKETS + bucket] == (if dom_loads::used(
            r,
            dom,
            bucket,
        ) {
            r[dom]->0@[bucket]
        } else {
            Double::zero()
        }),
{
    let i = dom * LB_LOAD_BUCKETS + bucket;
    assert(i / LB_LOAD_BUCKETS as int == dom && i % LB_LOAD_BUCKETS as int == bucket);
    assert(0 <= i < r.len() * LB_LOAD_BUCKETS);
}

/// A weight is infeasible just where some bucket that is in use has a weight above
/// the load of a CPU: with `L` the load and `P` the number of CPUs, one above
/// `L / P` by a part in `2^40` makes for it, and none does where all are below
/// `L / P` by as much.
pub proof fn law_infeasible_from_exact_load(r: Readings, cpus: nat, bucket: int)
    requires
        0 < cpus <= MAX_CPUS,
        r.len() <= 64,
        readings_small(r),
        0 <= bucket < LB_LOAD_BUCKETS,
        dom_loads::used_by_any(r, r.len(), bucket),
    ensures
        ({
            let load = twice_global_load(r, r.len());
            let weight = (200 * bucket + 101) * (cpus * accuracy::unit());
            &&& weight * 0x100_0000_0000 >= load * 0x100_0000_0001 ==> dom_loads::has_infeasible(
                r,
                cpus,
            )
            &&& dom_loads::has_infeasible(r, cpus) ==> exists|b: int|
                0 <= b < LB_LOAD_BUCKETS && #[trigger] dom_loads::used_by_any(r, r.len(), b) && (200
                    * b + 101) * (cpus * accuracy::unit()) * 0x100_0000_0001 >= load
                    * 0x100_0000_0000
        }),
{
    let n = r.len();
    let u = accuracy::unit() as int;
    let load = twice_global_load(r, n);
    let l = dom_loads::global_load(r, n);
    let t = l.over(Double::of_nat(cpus));
    law_global_load(r, n);
    accuracy::law_mean(l, cpus);
    lemma_some_load(r, bucket);
    dom_loads::law_infeasible_weights(r, cpus);
    lemma_few(100 + n as int, load);
    pow2::lemma_pow2_consts();
    pow2::lemma_pow2_mono(127, 1074);
    assert(cpus * 0x10_0000_0000_0000 <= 512 * 0x10_0000_0000_0000) by (nonlinear_arith)
        requires
            cpus <= 512,
    ;
    let weight = (200 * bucket + 101) * (cpus * u);
    if weight * 0x100_0000_0000 >= load * 0x100_0000_0001 {
        lemma_threshold(t, cpus, bucket, load);
        assert(dom_loads::exceeds(r, cpus, bucket));
    }
    if dom_loads::has_infeasible(r, cpus) {
        let b = choose|b: int| 0 <= b < LB_LOAD_BUCKETS && #[trigger] dom_loads::exceeds(r, cpus, b);
        lemma_threshold(t, cpus, b, load);
        assert(dom_loads::used_by_any(r, n, b));
    }
}

/// The order of a weight and the load of a CPU, in exact terms.
proof fn lemma_threshold(t: Double, cpus: nat, bucket: int, load: int)
    requires
        0 < cpus <= MAX_CPUS,
        0 <= bucket < LB_LOAD_BUCKETS,
        t.finite(),
        load >= accuracy::unit() / 10001,
        accuracy::gap(2 * (t.value() * cpus), load) * 0x200_0000_0000 <= load,
    ensures
        ({
            let weight = (200 * bucket + 101) * (cpus * accuracy::unit());
            &&& weight * 0x100_0000_0000 >= load * 0x100_0000_0001 ==> t.below(
                weights::weight_of(bucket),
            )
            &&& t.below(weights::weight_of(bucket)) ==> weight * 0x100_0000_0001 >= load
                * 0x100_0000_0000
        }),
{
    let w = weights::weight_of(bucket);
    let u = accuracy::unit() as int;
    feasibility::lemma_weight(bucket);
    accuracy::law_order(t, w);
    let n = 200 * bucket + 101;
    let (a, b) = (2 * t.value(), n * u);
    assert(2 * (t.value() * cpus) == a * cpus && n * (cpus * u) == b * cpus) by (nonlinear_arith)
        requires
            a == 2 * t.value(),
            b == n * u,
    ;
    assert(a < b <==> a * cpus < b * cpus) by (nonlinear_arith)
        requires
            cpus > 0,
    ;
    pow2::lemma_pow2_consts();
    pow2::lemma_pow2_mono(127, 1074);
    assert(load > 0);
}

/// Where a bucket is in use there is load.
proof fn lemma_some_load(r: Readings, bucket: int)
    requires
        readings_small(r),
        0 <= bucket < LB_LOAD_BUCKETS,
        dom_loads::used_by_any(r, r.len(), bucket),
    ensures
        twice_global_load(r, r.len()) >= accuracy::unit() / 10001,
{
    let dom = choose|dom: int| 0 <= dom < r.len() && #[trigger] dom_loads::used(r, dom, bucket);
    lemma_some_dom_load(r, dom, bucket, LB_LOAD_BUCKETS as nat);
    lemma_some_global_load(r, dom, r.len());
}

proof fn lemma_some_dom_load(r: Readings, dom: int, bucket: int, n: nat)
    requires
        readings_small(r),
        0 <= dom < r.len(),
        0 <= bucket < LB_LOAD_BUCKETS,
        n <= LB_LOAD_BUCKETS,
        dom_loads::used(r, dom, bucket),
    ensures
        twice_dom_load(r, dom, n) >= 0,
        bucket < n ==> twice_dom_load(r, dom, n) >= accuracy::unit() / 10001,
    decreases n,
{
    if n > 0 {
        let m = n - 1;
        lemma_some_dom_load(r, dom, bucket, m as nat);
        if dom_loads::used(r, dom, m) {
            let d = dom_loads::duty_cycle(r, dom, m);
            assert(accuracy::small(d));
            law_used(r, dom, m);
            let v = d.value();
            assert((200 * m + 101) * v >= v) by (nonlinear_arith)
                requires
                    v >= 0,
                    m >= 0,
            ;
        }
    }
}

proof fn lemma_some_global_load(r: Readings, dom: int, n: nat)
    requires
        readings_small(r),
        0 <= dom < r.len(),
        n <= r.len(),
        r[dom] is Some,
        twice_dom_load(r, dom, LB_LOAD_BUCKETS as nat) >= accuracy::unit() / 10001,
    ensures
        twice_global_load(r, n) >= 0,
        dom < n ==> twice_global_load(r, n) >= accuracy::unit() / 10001,
    decreases n,
{
    if n > 0 {
        lemma_some_global_load(r, dom, (n - 1) as nat);
        law_dom_load(r, n - 1, LB_LOAD_BUCKETS as nat);
    }
}

} // verus!
