use kr2r::counters::{ReadCounts, TaxonCounters};

#[test]
fn read_counts_precision_is_checked() {
    assert!(ReadCounts::new(3).is_err());
    assert!(ReadCounts::new(19).is_err());
    assert!(ReadCounts::new(4).is_ok());
    assert!(ReadCounts::new(18).is_ok());
    assert!(TaxonCounters::new(3).is_err());
}

#[test]
fn read_counts_merge_adds_counts() {
    let mut a = ReadCounts::new(12).unwrap();
    let mut b = ReadCounts::new(12).unwrap();
    for _ in 0..3 {
        a.increment_read_count();
    }
    for _ in 0..7 {
        b.increment_read_count();
    }
    a.merge(&b).unwrap();
    assert_eq!(a.read_count, 10);
}

#[test]
fn read_counts_merge_rejects_other_precision() {
    let mut a = ReadCounts::new(12).unwrap();
    a.increment_read_count();
    let b = ReadCounts::new(14).unwrap();
    assert!(a.merge(&b).is_err());
    assert_eq!(a.read_count, 1);
}

#[test]
fn merging_per_shard_read_counters() {
    // Per-shard counters {taxon 5: 3} and {taxon 5: 7} merge to {taxon 5: 10}.
    let mut shard1 = TaxonCounters::new(12).unwrap();
    let mut shard2 = TaxonCounters::new(12).unwrap();
    let no_minimizers: Vec<u64> = Vec::new();
    for _ in 0..3 {
        shard1.record_classification(5, &no_minimizers);
    }
    for _ in 0..7 {
        shard2.record_classification(5, &no_minimizers);
    }
    shard1.merge(&shard2).unwrap();
    assert_eq!(shard1.get_read_count(5), 10);
    assert_eq!(shard1.get_read_count(6), 0);
}

#[test]
fn merge_is_commutative_and_associative() {
    let minis_a: Vec<u64> = vec![11, 12, 13];
    let minis_b: Vec<u64> = vec![12, 14];
    let minis_c: Vec<u64> = vec![15];
    let make = |taxon: u64, minis: &Vec<u64>, reads: u32| {
        let mut c = TaxonCounters::new(12).unwrap();
        for _ in 0..reads {
            c.record_classification(taxon, minis);
        }
        c
    };

    // ((a + b) + c)
    let mut left = make(5, &minis_a, 2);
    let b1 = make(5, &minis_b, 3);
    let c1 = make(6, &minis_c, 4);
    left.merge(&b1).unwrap();
    left.merge(&c1).unwrap();

    // (a + (c + b)), another order and grouping of the same counters
    let mut right = make(6, &minis_c, 4);
    let b2 = make(5, &minis_b, 3);
    right.merge(&b2).unwrap();
    let mut right_total = make(5, &minis_a, 2);
    right_total.merge(&right).unwrap();

    for taxon in [5u64, 6u64] {
        assert_eq!(left.get_read_count(taxon), right_total.get_read_count(taxon));
        assert_eq!(
            left.distinct_estimate(taxon),
            right_total.distinct_estimate(taxon)
        );
    }
    assert_eq!(left.get_read_count(5), 5);
    assert_eq!(left.get_read_count(6), 4);
}

#[test]
fn taxon_counters_merge_rejects_other_precision() {
    let mut a = TaxonCounters::new(12).unwrap();
    let empty: Vec<u64> = Vec::new();
    a.record_classification(5, &empty);
    let mut b = TaxonCounters::new(14).unwrap();
    b.record_classification(5, &empty);
    assert!(a.merge(&b).is_err());
    assert_eq!(a.get_read_count(5), 1);
}

#[test]
fn distinct_minimizers_are_counted_once() {
    let mut c = TaxonCounters::new(14).unwrap();
    c.record_classification(5, &vec![100, 200, 300]);
    c.record_classification(5, &vec![200, 300, 400]);
    // Four distinct minimizers were observed; small sets are counted
    // exactly by the sparse estimator.
    assert_eq!(c.distinct_estimate(5), 4);
    assert_eq!(c.distinct_estimate(9), 0);
    assert_eq!(c.get_read_count(5), 2);
}
