use kr2r::codec::HitRecord;
use kr2r::resolve::{classify, hit_groups, required_score, sort_rows};
use kr2r::taxonomy::Taxonomy;

fn row(pos: u32, value: u32) -> HitRecord {
    HitRecord { seq_id: 1, pos, value }
}

#[test]
fn five_hits_split_into_three_groups() {
    // Per-position taxa [A, A, B, A, A] with A = 2 and B = 3.
    let taxa = vec![2, 2, 3, 2, 2];
    let groups = hit_groups(&taxa);
    assert_eq!(groups, vec![(2, 2), (3, 1), (2, 2)]);
}

#[test]
fn zeros_separate_groups_and_vote_for_nobody() {
    let taxa = vec![0, 2, 2, 0, 2];
    let groups = hit_groups(&taxa);
    assert_eq!(groups, vec![(2, 2), (2, 1)]);
}

#[test]
fn sort_orders_by_position() {
    let rows = vec![row(5, 2), row(1, 3), row(3, 2)];
    let sorted = sort_rows(&rows);
    assert_eq!(sorted[0].pos, 1);
    assert_eq!(sorted[1].pos, 3);
    assert_eq!(sorted[2].pos, 5);
}

#[test]
fn required_score_rounds_up() {
    assert_eq!(required_score(10, 0, 100), 0);
    assert_eq!(required_score(10, 100, 100), 10);
    assert_eq!(required_score(10, 25, 100), 3);
    assert_eq!(required_score(10, 21, 100), 3);
    assert_eq!(required_score(10, 20, 100), 2);
}

#[test]
fn call_goes_to_best_scoring_node() {
    // 1 is the root; 2 and 3 are its children. Two hits on 2, one on 3:
    // node 1 accumulates all three votes and wins.
    let tax = Taxonomy::new(vec![0, 0, 1, 1]).unwrap();
    let rows = vec![row(0, 2), row(1, 2), row(2, 3)];
    let call = classify(&rows, &tax, 0xFFFF_FFFF, 3, 0, 100, 1);
    assert_eq!(call, 1);
}

#[test]
fn deep_consistent_evidence_calls_the_leaf() {
    let tax = Taxonomy::new(vec![0, 0, 1, 2]).unwrap();
    let rows = vec![row(0, 3), row(1, 3), row(2, 3)];
    let call = classify(&rows, &tax, 0xFFFF_FFFF, 3, 0, 100, 1);
    assert_eq!(call, 3);
}

#[test]
fn call_is_order_independent() {
    let tax = Taxonomy::new(vec![0, 0, 1, 1, 2, 2]).unwrap();
    let rows1 = vec![row(0, 4), row(1, 4), row(2, 5), row(3, 3), row(4, 4)];
    let mut rows2 = rows1.clone();
    rows2.reverse();
    let rows3 = vec![rows1[2], rows1[0], rows1[4], rows1[1], rows1[3]];
    let c1 = classify(&rows1, &tax, 0xFFFF_FFFF, 5, 10, 100, 1);
    let c2 = classify(&rows2, &tax, 0xFFFF_FFFF, 5, 10, 100, 1);
    let c3 = classify(&rows3, &tax, 0xFFFF_FFFF, 5, 10, 100, 1);
    assert_eq!(c1, c2);
    assert_eq!(c1, c3);
}

#[test]
fn zero_threshold_classifies_with_enough_groups() {
    let tax = Taxonomy::new(vec![0, 0, 1, 1]).unwrap();
    // Two groups: [2, 2] and [3].
    let rows = vec![row(0, 2), row(1, 2), row(2, 3)];
    let call = classify(&rows, &tax, 0xFFFF_FFFF, 3, 0, 100, 2);
    assert_ne!(call, 0);
}

#[test]
fn full_threshold_requires_unanimous_support() {
    let tax = Taxonomy::new(vec![0, 0, 1, 1]).unwrap();
    // All three minimizers vote through the root: unanimous, classified.
    let rows = vec![row(0, 2), row(1, 2), row(2, 3)];
    assert_eq!(classify(&rows, &tax, 0xFFFF_FFFF, 3, 1, 1, 1), 1);
    // One of four minimizers found no taxon: support is not unanimous.
    let rows2 = vec![row(0, 2), row(1, 2), row(2, 3), row(3, 0)];
    assert_eq!(classify(&rows2, &tax, 0xFFFF_FFFF, 4, 1, 1, 1), 0);
}

#[test]
fn one_group_short_of_minimum_is_unclassified() {
    let tax = Taxonomy::new(vec![0, 0, 1, 1]).unwrap();
    // Exactly 2 hit groups with heavy votes; minimum_hit_groups = 3.
    let rows = vec![row(0, 2), row(1, 2), row(2, 3), row(3, 3), row(4, 3)];
    let call = classify(&rows, &tax, 0xFFFF_FFFF, 5, 0, 100, 3);
    assert_eq!(call, 0);
    // With the minimum met, the same evidence classifies.
    let call2 = classify(&rows, &tax, 0xFFFF_FFFF, 5, 0, 100, 2);
    assert_ne!(call2, 0);
}

#[test]
fn no_hits_is_unclassified() {
    let tax = Taxonomy::new(vec![0, 0, 1, 1]).unwrap();
    let rows = vec![row(0, 0), row(1, 0)];
    assert_eq!(classify(&rows, &tax, 0xFFFF_FFFF, 2, 0, 100, 1), 0);
    assert_eq!(classify(&Vec::new(), &tax, 0xFFFF_FFFF, 0, 0, 100, 1), 0);
}

#[test]
fn value_mask_strips_partial_key_bits() {
    let tax = Taxonomy::new(vec![0, 0, 1, 1]).unwrap();
    // The stored value 0x20002 masked with 0xFFFF is taxon 2.
    let rows = vec![row(0, 0x0002_0002), row(1, 0x0002_0002)];
    let call = classify(&rows, &tax, 0xFFFF, 2, 0, 100, 1);
    assert_eq!(call, 2);
}
