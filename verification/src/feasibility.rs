//! What the highest feasible weight and the loads that follow from it are, in
//! exact terms.
use vstd::prelude::*;
use crate::accuracy;
use crate::approx;
use crate::double;
use crate::double::Double;
use crate::load_balancer;
use crate::pow2;
use crate::topology::MAX_CPUS;
use crate::weights;
use crate::weights::LB_LOAD_BUCKETS;

verus! {

/// The exact duty cycle of the loaded buckets from `bucket` up.
pub open spec fn exact_dcycle_from(dcycles: Seq<Double>, bucket: int) -> int
    decreases LB_LOAD_BUCKETS - bucket,
{
    if bucket >= LB_LOAD_BUCKETS {
        0
    } else if load_balancer::loaded(dcycles, bucket) {
        exact_dcycle_from(dcycles, bucket + 1) + dcycles[bucket].value()
    } else {
        exact_dcycle_from(dcycles, bucket + 1)
    }
}

/// Twice the exact load of the loaded buckets from `bucket` up. The weights of a
/// bucket go from `100 * bucket + 1` to `100 * bucket + 100`, so that twice its
/// mid-point is `200 * bucket + 101`.
pub open spec fn twice_load_from(dcycles: Seq<Double>, bucket: int) -> int
    decreases LB_LOAD_BUCKETS - bucket,
{
    if bucket >= LB_LOAD_BUCKETS {
        0
    } else if load_balancer::loaded(dcycles, bucket) {
        twice_load_from(dcycles, bucket + 1) + (200 * bucket + 101) * dcycles[bucket].value()
    } else {
        twice_load_from(dcycles, bucket + 1)
    }
}

/// The duty cycles of all buckets are small.
pub open spec fn all_small(dcycles: Seq<Double>) -> bool {
    forall|b: int| 0 <= b < LB_LOAD_BUCKETS ==> accuracy::small(#[trigger] dcycles[b])
}

/// A bucket is loaded just where its duty cycle is above 0.0001: not up to that,
/// and from a part in `2^40` above it on.
pub proof fn law_loaded(dcycles: Seq<Double>, bucket: int)
    requires
        accuracy::small(dcycles[bucket]),
    ensures
        10000 * dcycles[bucket].value() <= accuracy::unit() ==> !load_balancer::loaded(
            dcycles,
            bucket,
        ),
        dcycles[bucket].value() * 10000 * 0x100_0000_0000 >= accuracy::unit() * 0x100_0000_0001
            ==> load_balancer::loaded(dcycles, bucket),
{
    lemma_zero();
    approx::law_near(dcycles[bucket], Double::zero());
}

proof fn lemma_zero()
    ensures
        Double::zero().finite(),
        Double::zero().value() == 0,
{
    assert(0 * pow2::pow2(0) == 0);
}

/// Twice the weight of a bucket.
pub proof fn lemma_weight(bucket: int)
    requires
        0 <= bucket < LB_LOAD_BUCKETS,
    ensures
        weights::weight_of(bucket).finite(),
        !weights::weight_of(bucket).sign(),
        weights::weight_of(bucket).value() >= 0,
        2 * weights::weight_of(bucket).value() == (200 * bucket + 101) * accuracy::unit(),
        2 * weights::weight_of(bucket).mag() == (200 * bucket + 101) * accuracy::unit(),
{
    let u = accuracy::unit() as int;
    weights::law_weight_is_mid_point(bucket as nat);
    pow2::lemma_pow2_pos(1074);
    let n = weights::bucket_min(bucket as nat) + weights::bucket_max(bucket as nat);
    assert(n == 200 * bucket + 101);
    assert(n * u > 0) by (nonlinear_arith)
        requires
            n > 0,
            u > 0,
    ;
    double::lemma_parts(weights::weight_of(bucket));
}

/// The load of a bucket with a duty cycle to speak of.
pub proof fn lemma_bucket_load(bucket: int, d: Double)
    requires
        0 <= bucket < LB_LOAD_BUCKETS,
        accuracy::small(d),
        d.value() * 20000 >= accuracy::unit(),
    ensures
        weights::weight_of(bucket).times(d).finite(),
        weights::weight_of(bucket).times(d).value() >= 0,
        accuracy::gap(
            2 * weights::weight_of(bucket).times(d).value(),
            (200 * bucket + 101) * d.value(),
        ) * 0x10_0000_0000_0000 <= (200 * bucket + 101) * d.value(),
        0 <= (200 * bucket + 101) * d.value() <= 20000 * pow2::pow2(2000),
{
    let w = weights::weight_of(bucket);
    let r = w.times(d);
    let u = accuracy::unit() as int;
    let n = 200 * bucket + 101;
    lemma_weight(bucket);
    double::lemma_parts(d);
    pow2::lemma_pow2_pos(1074);
    accuracy::lemma_small_range();
    let (m, v) = (w.mag() as int, d.mag() as int);
    let x = n * v;
    let top = pow2::pow2(2000) as int;
    assert(2 * (m * v) == x * u && 0 <= x <= 20000 * top && x >= v) by (nonlinear_arith)
        requires
            2 * m == n * u,
            x == n * v,
            1 <= n <= 20000,
            0 <= v <= top,
    ;
    let big = pow2::pow2(2097) as int;
    assert(x * u < big * u) by (nonlinear_arith)
        requires
            x < big,
            u >= 1,
    ;
    assert(u * big == big * u && m * v >= 0) by (nonlinear_arith)
        requires
            m >= 0,
            v >= 0,
    ;
    accuracy::law_times(w, d);
    double::lemma_parts(r);
    let t = r.mag() as int;
    if v == 0 {
        assert(m * v == 0);
        assert(t == 0) by (nonlinear_arith)
            requires
                t >= 0,
                u >= 1,
                accuracy::gap(t * u, 0) * 0x20_0000_0000_0000 <= 0x10_0000_0000_0000 * u,
        ;
    }
    assert(d.sign() ==> v == 0);
    assert(r.value() >= 0);
    let h = 0x20_0000_0000_0000int;
    assert(accuracy::gap(2 * t, x) * h <= x + h) by (nonlinear_arith)
        requires
            accuracy::gap(t * u, m * v) * h <= m * v + 0x10_0000_0000_0000 * u,
            2 * (m * v) == x * u,
            h == 0x20_0000_0000_0000,
            u >= 1,
    {
        assert(accuracy::gap((2 * t) * u, x * u) == 2 * accuracy::gap(t * u, m * v));
        assert(accuracy::gap((2 * t) * u, x * u) == accuracy::gap(2 * t, x) * u);
        assert((accuracy::gap(2 * t, x) * h) * u <= (x + h) * u);
    }
    pow2::lemma_pow2_consts();
    pow2::lemma_pow2_mono(127, 1074);
    assert(x >= h);
}

/// How far the sums over the loaded buckets from `bucket` up are from the exact
/// ones.
proof fn lemma_sums_from(dcycles: Seq<Double>, load: Double, bucket: int)
    requires
        0 <= bucket <= LB_LOAD_BUCKETS,
        all_small(dcycles),
        accuracy::small(load),
    ensures
        ({
            let n = LB_LOAD_BUCKETS - bucket;
            let d = load_balancer::dcycle_from(dcycles, bucket);
            let l = load_balancer::load_below(dcycles, load, bucket);
            let (ed, el) = (
                exact_dcycle_from(dcycles, bucket),
                twice_load_from(dcycles, bucket),
            );
            let most = 2 * load.value() + el;
            &&& 0 <= ed <= n * pow2::pow2(2000)
            &&& 0 <= el <= n * (20000 * pow2::pow2(2000))
            &&& d.finite()
            &&& d.value() >= 0
            &&& accuracy::gap(d.value(), ed) * 0x4_0000_0000_0000 <= n * ed
            &&& l.finite()
            &&& accuracy::gap(2 * l.value(), 2 * load.value() - el) * 0x4_0000_0000_0000 <= n * most
            &&& accuracy::gap(2 * load.value() - el, 0) <= most
        }),
    decreases LB_LOAD_BUCKETS - bucket,
{
    let top = pow2::pow2(2000) as int;
    if bucket == LB_LOAD_BUCKETS {
        lemma_zero();
        assert(0 * top == 0 && 0 * (20000 * top) == 0);
        assert(0 * (2 * load.value()) == 0);
    } else {
        lemma_sums_from(dcycles, load, bucket + 1);
        let n = LB_LOAD_BUCKETS - (bucket + 1);
        assert((n + 1) * top == n * top + top && (n + 1) * (20000 * top) == n * (20000 * top)
            + 20000 * top) by (nonlinear_arith);
        let (ed, el) = (
            exact_dcycle_from(dcycles, bucket + 1),
            twice_load_from(dcycles, bucket + 1),
        );
        let most = 2 * load.value() + el;
        if load_balancer::loaded(dcycles, bucket) {
            lemma_one_more_bucket(dcycles, load, bucket);
        } else {
            assert(n * ed <= (n + 1) * ed && n * most <= (n + 1) * most) by (nonlinear_arith)
                requires
                    ed >= 0,
                    most >= 0,
            ;
        }
    }
}

proof fn lemma_one_more_bucket(dcycles: Seq<Double>, load: Double, bucket: int)
    requires
        0 <= bucket < LB_LOAD_BUCKETS,
        all_small(dcycles),
        accuracy::small(load),
        load_balancer::loaded(dcycles, bucket),
        ({
            let n = LB_LOAD_BUCKETS - (bucket + 1);
            let d = load_balancer::dcycle_from(dcycles, bucket + 1);
            let l = load_balancer::load_below(dcycles, load, bucket + 1);
            let (ed, el) = (
                exact_dcycle_from(dcycles, bucket + 1),
                twice_load_from(dcycles, bucket + 1),
            );
            let most = 2 * load.value() + el;
            &&& 0 <= ed <= n * pow2::pow2(2000)
            &&& 0 <= el <= n * (20000 * pow2::pow2(2000))
            &&& d.finite()
            &&& d.value() >= 0
            &&& accuracy::gap(d.value(), ed) * 0x4_0000_0000_0000 <= n * ed
            &&& l.finite()
            &&& accuracy::gap(2 * l.value(), 2 * load.value() - el) * 0x4_0000_0000_0000 <= n * most
            &&& accuracy::gap(2 * load.value() - el, 0) <= most
        }),
    ensures
        ({
            let n = LB_LOAD_BUCKETS - bucket;
            let d = load_balancer::dcycle_from(dcycles, bucket);
            let l = load_balancer::load_below(dcycles, load, bucket);
            let (ed, el) = (
                exact_dcycle_from(dcycles, bucket),
                twice_load_from(dcycles, bucket),
            );
            let most = 2 * load.value() + el;
            &&& 0 <= ed <= n * pow2::pow2(2000)
            &&& 0 <= el <= n * (20000 * pow2::pow2(2000))
            &&& d.finite()
            &&& d.value() >= 0
            &&& accuracy::gap(d.value(), ed) * 0x4_0000_0000_0000 <= n * ed
            &&& l.finite()
            &&& accuracy::gap(2 * l.value(), 2 * load.value() - el) * 0x4_0000_0000_0000 <= n * most
            &&& accuracy::gap(2 * load.value() - el, 0) <= most
        }),
{
    let top = pow2::pow2(2000) as int;
    let n = LB_LOAD_BUCKETS - (bucket + 1);
    let here = dcycles[bucket];
    let d = load_balancer::dcycle_from(dcycles, bucket + 1);
    let l = load_balancer::load_below(dcycles, load, bucket + 1);
    let (ed, el) = (exact_dcycle_from(dcycles, bucket + 1), twice_load_from(dcycles, bucket + 1));
    let most = 2 * load.value() + el;
    let x = (200 * bucket + 101) * here.value();
    law_loaded(dcycles, bucket);
    assert(here.value() * 20000 >= accuracy::unit());
    lemma_bucket_load(bucket, here);
    accuracy::lemma_small_range();
    assert((n + 1) * top == n * top + top && (n + 1) * (20000 * top) == n * (20000 * top) + 20000
        * top && n * top <= 100 * top && n * (20000 * top) <= 2000000 * top) by (nonlinear_arith)
        requires
            0 <= n <= 100,
            top >= 0,
    ;
    let term = weights::weight_of(bucket).times(here);
    assert(n * ed <= 100 * ed && n * most <= 100 * most) by (nonlinear_arith)
        requires
            0 <= n <= 100,
            ed >= 0,
            most >= 0,
    ;
    assert(d.value() <= 2 * ed);
    assert(accuracy::gap(2 * l.value(), 0) <= 2 * most);
    accuracy::law_plus(d, here);
    accuracy::law_minus(l, term);
    assert(accuracy::gap(l.value(), term.value()) < pow2::pow2(2097));
    assert(d.plus(here).finite() && l.minus(term).finite());
    accuracy::lemma_add_term(
        n,
        d.value(),
        ed,
        here.value(),
        here.value(),
        d.plus(here).value(),
        0,
    );
    accuracy::lemma_take_term(
        n,
        2 * l.value(),
        2 * load.value() - el,
        most,
        2 * term.value(),
        x,
        2 * l.minus(term).value(),
    );
}

/// A quotient in exact terms, with its sign.
proof fn lemma_quotient(x: Double, y: Double)
    requires
        x.finite(),
        y.finite(),
        x.over(y).finite(),
    ensures
        y.value() != 0,
        accuracy::gap(x.over(y).value() * y.value(), x.value() * accuracy::unit())
            * 0x20_0000_0000_0000 <= accuracy::gap(x.value(), 0) * accuracy::unit()
            + 0x10_0000_0000_0000 * accuracy::gap(y.value(), 0),
{
    double::lemma_parts(x);
    double::lemma_parts(y);
    double::lemma_parts(x.over(y));
    let u = accuracy::unit() as int;
    assert(y.low() != 0) by {
        reveal(Double::over);
    }
    accuracy::law_over(x, y);
    let (q, m, v) = (x.over(y).mag() as int, y.mag() as int, x.mag() as int);
    assert((-q) * m == -(q * m) && q * (-m) == -(q * m) && (-q) * (-m) == q * m && (-v) * u == -(v
        * u)) by (nonlinear_arith);
}

/// The highest feasible weight solves the equation that defines it. With `P` CPUs,
/// `Di` the duty cycle of the loaded buckets from `bucket` up, which are the
/// infeasible ones, and `Lf` what is left of the load without them, it is the `T`
/// for which `T * (P - Di) = Lf`, so that every infeasible task can be given its
/// duty cycle: up to a part in `2^40` of what goes into the equation.
pub proof fn law_highest_feasible_weight(
    dcycles: Seq<Double>,
    load: Double,
    cpus: nat,
    bucket: int,
)
    requires
        0 <= bucket <= LB_LOAD_BUCKETS,
        all_small(dcycles),
        accuracy::small(load),
        0 < cpus <= MAX_CPUS,
        load_balancer::lambda(dcycles, load, Double::of_nat(cpus), bucket).finite(),
    ensures
        ({
            let t = load_balancer::lambda(dcycles, load, Double::of_nat(cpus), bucket).value();
            let u = accuracy::unit();
            let p = cpus * u;
            let di = exact_dcycle_from(dcycles, bucket);
            let infeasible = twice_load_from(dcycles, bucket);
            let lf = 2 * load.value() - infeasible;
            accuracy::gap((2 * t) * (p - di), lf * u) * 0x100_0000_0000 <= accuracy::gap(2 * t, 0)
                * (p + di) + (2 * load.value() + infeasible) * u + 0x200_0000_0000 * (p + di)
        }),
{
    let p = Double::of_nat(cpus);
    let d = load_balancer::dcycle_from(dcycles, bucket);
    let l = load_balancer::load_below(dcycles, load, bucket);
    double::lemma_of_nat_exact(cpus);
    lemma_sums_from(dcycles, load, bucket);
    let top = pow2::pow2(2000) as int;
    let u = accuracy::unit() as int;
    let n = LB_LOAD_BUCKETS - bucket;
    let (di, el) = (exact_dcycle_from(dcycles, bucket), twice_load_from(dcycles, bucket));
    let most = 2 * load.value() + el;
    assert(n * di <= 100 * di && n * most <= 100 * most && n * top <= 100 * top && cpus * u <= 512
        * u && n * di >= 0 && n * most >= 0) by (nonlinear_arith)
        requires
            0 <= n <= 100,
            di >= 0,
            most >= 0,
            top >= 0,
            u >= 0,
            0 <= cpus <= 512,
    ;
    accuracy::lemma_small_range();
    pow2::lemma_pow2_mono(1074, 2000);
    if load_balancer::none_loaded_from(dcycles, bucket) {
        lemma_nothing_from(dcycles, load, bucket);
        lemma_quotient(load, p);
        lemma_equation(
            load_balancer::lambda(dcycles, load, p, bucket).value(),
            p.value(),
            0,
            load.value(),
            2 * load.value(),
            2 * load.value(),
            p.value(),
            u,
        );
    } else {
        accuracy::law_minus(p, d);
        assert(accuracy::gap(p.value(), d.value()) < pow2::pow2(2097));
        let free = p.minus(d);
        lemma_quotient(l, free);
        assert(accuracy::gap(free.value(), p.value() - di) * 0x800_0000_0000 <= p.value() + di);
        assert(accuracy::gap(2 * l.value(), 2 * load.value() - el) * 0x800_0000_0000 <= most);
        lemma_equation(
            load_balancer::lambda(dcycles, load, p, bucket).value(),
            p.value(),
            di,
            l.value(),
            2 * load.value() - el,
            most,
            free.value(),
            u,
        );
    }
}

proof fn lemma_nothing_from(dcycles: Seq<Double>, load: Double, bucket: int)
    requires
        0 <= bucket <= LB_LOAD_BUCKETS,
        load_balancer::none_loaded_from(dcycles, bucket),
    ensures
        exact_dcycle_from(dcycles, bucket) == 0,
        twice_load_from(dcycles, bucket) == 0,
    decreases LB_LOAD_BUCKETS - bucket,
{
    if bucket < LB_LOAD_BUCKETS {
        assert(!load_balancer::loaded(dcycles, bucket));
        lemma_nothing_from(dcycles, load, bucket + 1);
    }
}

/// The equation in exact terms, from that in rounded ones: `t` is the quotient of
/// `l` and `free`, which stand for half of `lf` and for `p - di`.
proof fn lemma_equation(t: int, p: int, di: int, l: int, lf: int, most: int, free: int, u: int)
    requires
        p >= 0,
        di >= 0,
        u >= 0,
        accuracy::gap(lf, 0) <= most,
        accuracy::gap(free, p - di) * 0x800_0000_0000 <= p + di,
        accuracy::gap(2 * l, lf) * 0x800_0000_0000 <= most,
        accuracy::gap(t * free, l * u) * 0x20_0000_0000_0000 <= accuracy::gap(l, 0) * u
            + 0x10_0000_0000_0000 * accuracy::gap(free, 0),
    ensures
        accuracy::gap((2 * t) * (p - di), lf * u) * 0x100_0000_0000 <= accuracy::gap(2 * t, 0) * (p
            + di) + most * u + 0x200_0000_0000 * (p + di),
{
    let a = accuracy::gap(2 * t, 0);
    let g = accuracy::gap(free, p - di);
    let w = a * (p + di);
    let mu = most * u;
    // Exact and rounded divisor.
    let x1 = (2 * t) * (p - di);
    let x2 = (2 * t) * free;
    let x3 = (2 * l) * u;
    let x4 = lf * u;
    assert(accuracy::gap(x1, x2) == a * g) by (nonlinear_arith)
        requires
            x1 == (2 * t) * (p - di),
            x2 == (2 * t) * free,
            a == accuracy::gap(2 * t, 0),
            g == accuracy::gap(free, p - di),
    ;
    assert((a * g) * 0x800_0000_0000 <= w) by (nonlinear_arith)
        requires
            g * 0x800_0000_0000 <= p + di,
            w == a * (p + di),
            a >= 0,
    ;
    assert(accuracy::gap(x2, x3) == 2 * accuracy::gap(t * free, l * u)) by (nonlinear_arith)
        requires
            x2 == (2 * t) * free,
            x3 == (2 * l) * u,
    ;
    assert(accuracy::gap(x3, x4) * 0x800_0000_0000 <= mu && accuracy::gap(l, 0) * u <= 2 * mu)
        by (nonlinear_arith)
        requires
            accuracy::gap(2 * l, lf) * 0x800_0000_0000 <= most,
            accuracy::gap(lf, 0) <= most,
            x3 == (2 * l) * u,
            x4 == lf * u,
            mu == most * u,
            u >= 0,
    {
        assert(accuracy::gap(x3, x4) == accuracy::gap(2 * l, lf) * u);
        assert(accuracy::gap(l, 0) <= 2 * most);
    }
    assert(accuracy::gap(free, 0) <= 2 * (p + di));
    assert(w >= 0 && mu >= 0) by (nonlinear_arith)
        requires
            w == a * (p + di),
            a >= 0,
            p + di >= 0,
            mu == most * u,
            most >= 0,
            u >= 0,
    ;
}

/// The bucket from which weights count as feasible is the highest loaded one
/// whose weight the highest feasible weight reaches, within 0.0001: the highest
/// feasible weight that follows from it does, and none that follows from a higher
/// loaded bucket does.
pub proof fn law_weight_is_feasible(
    dcycles: Seq<Double>,
    load: Double,
    cpus: nat,
    n: nat,
    higher: int,
)
    requires
        n <= LB_LOAD_BUCKETS,
        load_balancer::feasible_bucket(dcycles, load, Double::of_nat(cpus), n) is Some,
    ensures
        ({
            let p = Double::of_nat(cpus);
            let u = accuracy::unit();
            let bucket = load_balancer::feasible_bucket(dcycles, load, p, n)->0;
            let t = load_balancer::lambda(dcycles, load, p, bucket + 1);
            let above = load_balancer::lambda(dcycles, load, p, higher + 1);
            &&& 0 <= bucket < n
            &&& load_balancer::loaded(dcycles, bucket)
            &&& t.finite() ==> 10000 * (2 * t.value()) + 3 * u >= 10000 * ((200 * bucket + 101) * u)
            &&& t.finite() ==> ((200 * bucket + 101) * u - 2 * t.value()) * 10000 * 0x100_0000_0000
                < 2 * u * 0x100_0000_0001
            &&& bucket < higher < n && load_balancer::loaded(dcycles, higher) && above.finite()
                ==> 10000 * ((200 * higher + 101) * u - 2 * above.value()) > 2 * u
        }),
{
    let p = Double::of_nat(cpus);
    let u = accuracy::unit() as int;
    load_balancer::law_feasible_bucket(dcycles, load, p, n, higher);
    let bucket = load_balancer::feasible_bucket(dcycles, load, p, n)->0;
    let t = load_balancer::lambda(dcycles, load, p, bucket + 1);
    lemma_weight(bucket);
    let w = weights::weight_of(bucket);
    if t.finite() {
        approx::law_above_or_near(t, w);
        pow2::lemma_pow2_pos(1074);
    }
    let above = load_balancer::lambda(dcycles, load, p, higher + 1);
    if bucket < higher < n && load_balancer::loaded(dcycles, higher) && above.finite() {
        lemma_weight(higher);
        approx::law_above_or_near(above, weights::weight_of(higher));
    }
}

/// Where no weight is feasible, the highest feasible weight that follows from any
/// loaded bucket stays below the weight of the bucket by more than 0.0001.
pub proof fn law_no_weight_is_feasible(
    dcycles: Seq<Double>,
    load: Double,
    cpus: nat,
    n: nat,
    bucket: int,
)
    requires
        n <= LB_LOAD_BUCKETS,
        load_balancer::feasible_bucket(dcycles, load, Double::of_nat(cpus), n) is None,
        0 <= bucket < n,
        load_balancer::loaded(dcycles, bucket),
        load_balancer::lambda(dcycles, load, Double::of_nat(cpus), bucket + 1).finite(),
    ensures
        10000 * ((200 * bucket + 101) * accuracy::unit() - 2 * load_balancer::lambda(
            dcycles,
            load,
            Double::of_nat(cpus),
            bucket + 1,
        ).value()) > 2 * accuracy::unit(),
    decreases n,
{
    let p = Double::of_nat(cpus);
    if bucket < n - 1 {
        law_no_weight_is_feasible(dcycles, load, cpus, (n - 1) as nat, bucket);
    } else {
        let t = load_balancer::lambda(dcycles, load, p, bucket + 1);
        lemma_weight(bucket);
        approx::law_above_or_near(t, weights::weight_of(bucket));
    }
}

/// Twice the exact load of the first `n` buckets of a domain, in squared units,
/// with weights counted up to `threshold`.
pub open spec fn exact_limited_load(
    dcycles: Seq<Double>,
    dom: int,
    threshold: int,
    n: nat,
) -> int
    decreases n,
{
    if n == 0 {
        0
    } else {
        let weight = (200 * (n - 1) + 101) * accuracy::unit();
        exact_limited_load(dcycles, dom, threshold, (n - 1) as nat) + dcycles[dom * LB_LOAD_BUCKETS
            + n - 1].value() * (if weight <= 2 * threshold {
            weight
        } else {
            2 * threshold
        })
    }
}

/// The load of a domain, with weights counted up to a threshold, is the sum of
/// duty cycle by the lesser of weight and threshold over its buckets, up to `n`
/// parts in `2^50` and a few units.
pub proof fn law_limited_load(dcycles: Seq<Double>, dom: int, threshold: Double, n: nat)
    requires
        n <= LB_LOAD_BUCKETS,
        accuracy::small(threshold),
        forall|b: int|
            dom * LB_LOAD_BUCKETS <= b < dom * LB_LOAD_BUCKETS + n ==> accuracy::small(
                #[trigger] dcycles[b],
            ),
    ensures
        ({
            let v = load_balancer::limited_load(dcycles, dom, threshold, n);
            let e = exact_limited_load(dcycles, dom, threshold.value(), n);
            let u = accuracy::unit();
            &&& v.finite()
            &&& v.value() >= 0
            &&& 0 <= e <= n * (20000 * pow2::pow2(2000)) * u
            &&& accuracy::gap(v.value() * (2 * u), e) * 0x4_0000_0000_0000 <= n * (e
                + 0x10_0000_0000_0000 * u)
        }),
    decreases n,
{
    let u = accuracy::unit() as int;
    let top = pow2::pow2(2000) as int;
    pow2::lemma_pow2_pos(1074);
    if n == 0 {
        lemma_zero();
        assert(0 * (20000 * top) * u == 0 && 0 * (2 * u) == 0 && 0 * (0x10_0000_0000_0000 * u)
            == 0);
    } else {
        let m = (n - 1) as nat;
        law_limited_load(dcycles, dom, threshold, m);
        let d = dcycles[dom * LB_LOAD_BUCKETS + m];
        assert(accuracy::small(d));
        let v = load_balancer::limited_load(dcycles, dom, threshold, m);
        let e = exact_limited_load(dcycles, dom, threshold.value(), m);
        lemma_limited_term(m as int, d, threshold);
        let w = weights::weight_of(m as int).lesser(threshold);
        let term = d.times(w);
        let x = d.value() * (2 * w.value());
        lemma_limited_step(m as int, v, e, term, x, top);
    }
}

proof fn lemma_limited_term(bucket: int, d: Double, threshold: Double)
    requires
        0 <= bucket < LB_LOAD_BUCKETS,
        accuracy::small(d),
        accuracy::small(threshold),
    ensures
        ({
            let u = accuracy::unit();
            let weight = (200 * bucket + 101) * u;
            let w = weights::weight_of(bucket).lesser(threshold);
            let term = d.times(w);
            let x = d.value() * (2 * w.value());
            &&& 2 * w.value() == (if weight <= 2 * threshold.value() {
                weight
            } else {
                2 * threshold.value()
            })
            &&& 0 <= x <= (20000 * pow2::pow2(2000)) * u
            &&& term.finite()
            &&& term.value() >= 0
            &&& accuracy::gap(term.value() * (2 * u), x) * 0x10_0000_0000_0000 <= x
                + 0x10_0000_0000_0000 * u
        }),
{
    let u = accuracy::unit() as int;
    let top = pow2::pow2(2000) as int;
    let weight = (200 * bucket + 101) * u;
    let w = weights::weight_of(bucket).lesser(threshold);
    lemma_weight(bucket);
    accuracy::law_order(weights::weight_of(bucket), threshold);
    accuracy::lemma_small_range();
    pow2::lemma_pow2_pos(1074);
    double::lemma_parts(w);
    double::lemma_parts(d);
    let (v, m) = (d.mag() as int, w.mag() as int);
    let x = v * (2 * m);
    let n = 200 * bucket + 101;
    assert(0 <= x <= (20000 * top) * u && x == 2 * (v * m)) by (nonlinear_arith)
        requires
            x == v * (2 * m),
            0 <= v <= top,
            0 <= 2 * m <= n * u,
            n <= 20000,
            u >= 0,
    ;
    let big = pow2::pow2(2097) as int;
    assert((20000 * top) * u < u * big) by (nonlinear_arith)
        requires
            20000 * top < big,
            u >= 1,
    ;
    accuracy::law_times(d, w);
    let term = d.times(w);
    double::lemma_parts(term);
    let t = term.mag() as int;
    if v * m == 0 {
        assert(t == 0) by (nonlinear_arith)
            requires
                t >= 0,
                u >= 1,
                accuracy::gap(t * u, 0) * 0x20_0000_0000_0000 <= 0x10_0000_0000_0000 * u,
        ;
    } else {
        assert(v > 0 && m > 0) by (nonlinear_arith)
            requires
                v * m != 0,
                v >= 0,
                m >= 0,
        ;
    }
    assert(t * (2 * u) == 2 * (t * u)) by (nonlinear_arith);
}

proof fn lemma_limited_step(n: int, v: Double, e: int, term: Double, x: int, top: int)
    requires
        0 <= n < LB_LOAD_BUCKETS,
        top == pow2::pow2(2000),
        v.finite(),
        v.value() >= 0,
        0 <= e <= n * (20000 * top) * accuracy::unit(),
        accuracy::gap(v.value() * (2 * accuracy::unit()), e) * 0x4_0000_0000_0000 <= n * (e
            + 0x10_0000_0000_0000 * accuracy::unit()),
        0 <= x <= (20000 * top) * accuracy::unit(),
        term.finite(),
        term.value() >= 0,
        accuracy::gap(term.value() * (2 * accuracy::unit()), x) * 0x10_0000_0000_0000 <= x
            + 0x10_0000_0000_0000 * accuracy::unit(),
    ensures
        v.plus(term).finite(),
        v.plus(term).value() >= 0,
        0 <= e + x <= (n + 1) * (20000 * top) * accuracy::unit(),
        accuracy::gap(v.plus(term).value() * (2 * accuracy::unit()), e + x) * 0x4_0000_0000_0000 <= (n
            + 1) * (e + x + 0x10_0000_0000_0000 * accuracy::unit()),
{
    let u = accuracy::unit() as int;
    let slack = 0x10_0000_0000_0000 * u;
    let a = 20000 * top;
    pow2::lemma_pow2_pos(1074);
    pow2::lemma_pow2_mono(1074, 2000);
    accuracy::lemma_small_range();
    assert((n + 1) * a * u == n * a * u + a * u && n * a * u <= 100 * (a * u) && n * (e + slack)
        <= 100 * (e + slack)) by (nonlinear_arith)
        requires
            0 <= n <= 100,
            a >= 0,
            u >= 0,
            e >= 0,
            slack >= 0,
    ;
    let (p, q) = (v.value(), term.value());
    assert(p * (2 * u) <= 2 * e + slack);
    assert(q * (2 * u) <= 2 * x + slack);
    assert(p + q <= 101 * a + 0x10_0000_0000_0000) by (nonlinear_arith)
        requires
            p * (2 * u) + q * (2 * u) <= 2 * (e + x) + 2 * (0x10_0000_0000_0000 * u),
            e + x <= 101 * (a * u),
            u >= 1,
    {
        assert((p + q) * u <= (101 * a + 0x10_0000_0000_0000) * u);
    }
    pow2::lemma_pow2_consts();
    pow2::lemma_pow2_mono(53, 2000);
    accuracy::law_plus(v, term);
    let next = v.plus(term).value();
    accuracy::lemma_scale(next, p + q, p + q, 0x20_0000_0000_0000, 2 * u);
    assert((p + q) * (2 * u) == p * (2 * u) + q * (2 * u) && p * (2 * u) >= 0 && q * (2 * u) >= 0)
        by (nonlinear_arith)
        requires
            p >= 0,
            q >= 0,
            u >= 0,
    ;
    accuracy::lemma_add_term(
        n,
        p * (2 * u),
        e,
        q * (2 * u),
        x,
        next * (2 * u),
        slack,
    );
}

/// The average load is that of the loads, up to a part in `2^40` and a unit.
pub proof fn law_average_load(loads: Seq<Double>, n: nat)
    requires
        0 < n <= 64,
        forall|i: int| 0 <= i < n ==> accuracy::small(#[trigger] loads[i]),
    ensures
        ({
            let avg = load_balancer::running_sum(loads, n).over(Double::of_nat(n));
            let e = accuracy::exact_sum(loads, n);
            &&& avg.finite()
            &&& avg.value() >= 0
            &&& accuracy::gap(avg.value() * n, e) * 0x100_0000_0000 <= e + 0x100_0000_0000 * n
        }),
{
    lemma_running(loads, n);
    accuracy::law_running_sum(loads, n);
    let sum = load_balancer::running_sum(loads, n);
    accuracy::law_mean(sum, n);
    let e = accuracy::exact_sum(loads, n);
    assert(n * e <= 64 * e) by (nonlinear_arith)
        requires
            n <= 64,
            e >= 0,
    ;
}

proof fn lemma_running(s: Seq<Double>, n: nat)
    ensures
        load_balancer::running_sum(s, n) == accuracy::running(s, n),
    decreases n,
{
    if n > 0 {
        lemma_running(s, (n - 1) as nat);
    }
}

} // verus!
