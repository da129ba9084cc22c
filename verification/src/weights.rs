//! Task weights are tracked in buckets of equal width.
use vstd::prelude::*;
use crate::double;
use crate::double::Double;
use crate::pow2;

verus! {

/// The highest weight of a task.
pub const LB_MAX_WEIGHT: u64 = 10000;

/// The number of buckets. It divides the highest weight, so that every bucket
/// covers the same number of weights.
pub const LB_LOAD_BUCKETS: u64 = 100;

/// The number of weights in a bucket.
pub const LB_WEIGHT_PER_BUCKET: u64 = 100;

/// The lowest weight in a bucket.
pub open spec fn bucket_min(bucket: nat) -> nat {
    1 + (LB_MAX_WEIGHT * bucket) as nat / LB_LOAD_BUCKETS as nat
}

/// The highest weight in a bucket.
pub open spec fn bucket_max(bucket: nat) -> nat {
    (bucket_min(bucket) + LB_WEIGHT_PER_BUCKET - 1) as nat
}

/// The weight that stands for all weights of a bucket: the mid-point of its
/// range.
pub open spec fn weight_of(bucket: int) -> Double {
    Double::of_nat(bucket_min(bucket as nat)).plus(
        Double::of_nat(bucket_max(bucket as nat)),
    ).over(Double::of_nat(2))
}

/// The lowest and the highest weight of a bucket.
pub fn bucket_range(bucket: u64) -> (res: (Double, Double))
    requires
        bucket < LB_LOAD_BUCKETS,
    ensures
        res.0 == Double::of_nat(bucket_min(bucket as nat)),
        res.1 == Double::of_nat(bucket_max(bucket as nat)),
{
    let min_w: u64 = 1 + (LB_MAX_WEIGHT * bucket) / LB_LOAD_BUCKETS;
    let max_w: u64 = min_w + LB_WEIGHT_PER_BUCKET - 1;
    (Double::from_u64(min_w), Double::from_u64(max_w))
}

/// The weight that a bucket counts with.
pub fn bucket_weight(bucket: u64) -> (res: Double)
    requires
        bucket < LB_LOAD_BUCKETS,
    ensures
        res == weight_of(bucket as int),
{
    let (min_weight, max_weight) = bucket_range(bucket);
    min_weight.add(max_weight).div(Double::from_u64(2))
}

/// The mid-point of a bucket is half of the sum of its lowest and its highest
/// weight, exactly.
pub proof fn law_weight_is_mid_point(bucket: nat)
    requires
        bucket < LB_LOAD_BUCKETS,
    ensures
        weight_of(bucket as int).finite(),
        2 * weight_of(bucket as int).value() == (bucket_min(bucket) + bucket_max(bucket))
            * pow2::pow2(1074),
{
    let n = bucket_min(bucket) + bucket_max(bucket);
    double::lemma_add_integers(bucket_min(bucket), bucket_max(bucket));
    double::lemma_half_exact(n);
}

/// The buckets split the weights evenly: every weight from 1 to the highest is
/// in one bucket and in no other.
pub proof fn law_buckets_partition_weights(weight: nat, bucket: nat)
    requires
        1 <= weight <= LB_MAX_WEIGHT,
        bucket < LB_LOAD_BUCKETS,
    ensures
        bucket_min(bucket) <= weight <= bucket_max(bucket) <==> bucket == (weight - 1)
            / LB_WEIGHT_PER_BUCKET as int,
        (weight - 1) / (LB_WEIGHT_PER_BUCKET as int) < LB_LOAD_BUCKETS,
        LB_MAX_WEIGHT % LB_LOAD_BUCKETS == 0,
{
}

/// A bucket with a higher number counts with a higher weight.
pub proof fn law_bucket_weights_ascend(a: nat, b: nat)
    requires
        a < LB_LOAD_BUCKETS,
        b < LB_LOAD_BUCKETS,
    ensures
        weight_of(a as int).below(weight_of(b as int)) <==> a < b,
{
    law_weight_is_mid_point(a);
    law_weight_is_mid_point(b);
    double::lemma_order_is_value_order(weight_of(a as int), weight_of(b as int));
    let m = bucket_min(a) + bucket_max(a);
    let n = bucket_min(b) + bucket_max(b);
    let big = pow2::pow2(1074);
    pow2::lemma_pow2_pos(1074);
    assert((m * big < n * big) <==> m < n) by (nonlinear_arith)
        requires
            big >= 1,
    ;
}

} // verus!
