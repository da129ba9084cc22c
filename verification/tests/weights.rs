use scx_rusty::weights::{
    bucket_range, bucket_weight, LB_LOAD_BUCKETS, LB_MAX_WEIGHT, LB_WEIGHT_PER_BUCKET,
};

fn f(x: scx_rusty::double::Double) -> f64 {
    f64::from_bits(x.to_bits())
}

#[test]
fn ranges_of_buckets() {
    let (lo, hi) = bucket_range(0);
    assert_eq!((f(lo), f(hi)), (1.0, 100.0));
    let (lo, hi) = bucket_range(1);
    assert_eq!((f(lo), f(hi)), (101.0, 200.0));
    let (lo, hi) = bucket_range(99);
    assert_eq!((f(lo), f(hi)), (9901.0, 10000.0));
}

#[test]
fn weights_of_buckets() {
    assert_eq!(f(bucket_weight(0)), 50.5);
    assert_eq!(f(bucket_weight(1)), 150.5);
    assert_eq!(f(bucket_weight(99)), 9950.5);
    for b in 1..LB_LOAD_BUCKETS {
        assert!(bucket_weight(b - 1).lt(bucket_weight(b)));
        let (lo, hi) = bucket_range(b);
        assert_eq!(f(bucket_weight(b)), (f(lo) + f(hi)) / 2.0);
    }
}

#[test]
fn buckets_partition_the_weights() {
    assert_eq!(LB_MAX_WEIGHT % LB_LOAD_BUCKETS, 0);
    assert_eq!(LB_MAX_WEIGHT / LB_LOAD_BUCKETS, LB_WEIGHT_PER_BUCKET);
    for weight in 1..=LB_MAX_WEIGHT {
        let w = weight as f64;
        let inside: Vec<u64> = (0..LB_LOAD_BUCKETS)
            .filter(|b| {
                let (lo, hi) = bucket_range(*b);
                f(lo) <= w && w <= f(hi)
            })
            .collect();
        assert_eq!(inside, vec![(weight - 1) / LB_WEIGHT_PER_BUCKET]);
    }
}
