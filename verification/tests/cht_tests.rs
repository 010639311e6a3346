use kr2r::cht::CompactHashTable;
use kr2r::taxonomy::Taxonomy;

fn empty_table(cells: usize, value_bits: u32) -> CompactHashTable {
    CompactHashTable::open(vec![0u32; cells], value_bits).unwrap()
}

#[test]
fn open_counts_populated_cells() {
    let t = CompactHashTable::open(vec![0, 5, 0, 7], 17).unwrap();
    assert_eq!(t.occupied, 2);
    assert!(CompactHashTable::open(vec![0u32; 4], 0).is_err());
    assert!(CompactHashTable::open(vec![0u32; 4], 32).is_err());
    assert!(CompactHashTable::open(Vec::new(), 17).is_err());
}

#[test]
fn stored_values_are_checked_against_a_node_count() {
    // Values 5 and 2 are stored; both lie below 6, but 5 does not lie
    // below 5, so a taxonomy of 5 nodes cannot take this shard.
    let t = CompactHashTable::open(vec![0, 5, 0, 2], 17).unwrap();
    assert!(t.values_ok(6));
    assert!(!t.values_ok(5));
    assert!(!t.values_ok(2));
    let empty = CompactHashTable::open(vec![0u32; 4], 17).unwrap();
    assert!(empty.values_ok(1));
}

#[test]
fn insert_then_lookup_finds_value() {
    let tax = Taxonomy::new(vec![0, 0, 1, 1]).unwrap();
    let mut t = empty_table(8, 17);
    let (eff, claimed) = t.insert_or_merge(9, 3, 2, &tax).unwrap();
    assert_eq!(eff, 2);
    assert!(claimed);
    assert_eq!(t.occupied, 1);
    assert_eq!(t.lookup(9, 3), 2);
    assert_eq!(t.lookup(8, 3), 0);
    assert_eq!(t.lookup(9, 5), 0);
}

#[test]
fn insert_twice_changes_nothing() {
    let tax = Taxonomy::new(vec![0, 0, 1, 1]).unwrap();
    let mut t = empty_table(8, 17);
    let (eff1, claimed1) = t.insert_or_merge(9, 3, 2, &tax).unwrap();
    let occupied_once = t.occupied;
    let (eff2, claimed2) = t.insert_or_merge(9, 3, 2, &tax).unwrap();
    assert_eq!(eff1, 2);
    assert!(claimed1);
    assert_eq!(eff2, 2);
    assert!(!claimed2);
    assert_eq!(t.occupied, occupied_once);
    assert_eq!(t.lookup(9, 3), 2);
}

#[test]
fn colliding_key_merges_to_lca() {
    // 1 is the root; 2 and 3 are its children.
    let tax = Taxonomy::new(vec![0, 0, 1, 1]).unwrap();
    let mut t = empty_table(8, 17);
    t.insert_or_merge(9, 3, 2, &tax).unwrap();
    let (eff, claimed) = t.insert_or_merge(9, 3, 3, &tax).unwrap();
    assert_eq!(eff, 1);
    assert!(!claimed);
    assert_eq!(t.occupied, 1);
    assert_eq!(t.lookup(9, 3), 1);
}

#[test]
fn distinct_keys_probe_to_free_cells() {
    let tax = Taxonomy::new(vec![0, 0, 1, 1]).unwrap();
    let mut t = empty_table(4, 17);
    t.insert_or_merge(9, 1, 2, &tax).unwrap();
    t.insert_or_merge(8, 1, 3, &tax).unwrap();
    assert_eq!(t.occupied, 2);
    assert_eq!(t.lookup(9, 1), 2);
    assert_eq!(t.lookup(8, 1), 3);
}

#[test]
fn probe_wraps_around_the_shard() {
    let tax = Taxonomy::new(vec![0, 0, 1, 1]).unwrap();
    let mut t = empty_table(4, 17);
    t.insert_or_merge(1, 3, 2, &tax).unwrap();
    t.insert_or_merge(2, 3, 3, &tax).unwrap();
    assert_eq!(t.lookup(2, 3), 3);
}

#[test]
fn exhausted_probe_is_an_error() {
    let tax = Taxonomy::new(vec![0, 0, 1, 1]).unwrap();
    let mut t = empty_table(2, 17);
    t.insert_or_merge(1, 0, 2, &tax).unwrap();
    t.insert_or_merge(2, 0, 2, &tax).unwrap();
    assert!(t.insert_or_merge(3, 0, 2, &tax).is_err());
}
