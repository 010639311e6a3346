use kr2r::builder::{fold_chunk, sum_counts};
use kr2r::cht::CompactHashTable;
use kr2r::codec::{ChunkRecord, QueryRecord};
use kr2r::lookup::{locate_bucket, lookup_batch, resolve_queries, ProbeKey};
use kr2r::taxonomy::Taxonomy;

fn empty_table(cells: usize, value_bits: u32) -> CompactHashTable {
    CompactHashTable::open(vec![0u32; cells], value_bits).unwrap()
}

#[test]
fn fold_fills_the_shard_and_counts_claims() {
    let tax = Taxonomy::new(vec![0, 0, 1, 1]).unwrap();
    let mut t = empty_table(8, 17);
    let records = vec![
        ChunkRecord { home: 1, key: 9, taxon: 2 },
        ChunkRecord { home: 4, key: 5, taxon: 3 },
        // Same key again: merges, claims nothing new.
        ChunkRecord { home: 1, key: 9, taxon: 2 },
    ];
    let newly = fold_chunk(&mut t, &records, &tax).unwrap();
    assert_eq!(newly, 2);
    assert_eq!(t.occupied, 2);
    assert_eq!(t.lookup(9, 1), 2);
    assert_eq!(t.lookup(5, 4), 3);
}

#[test]
fn fold_rejects_malformed_records() {
    let tax = Taxonomy::new(vec![0, 0, 1, 1]).unwrap();
    let mut t = empty_table(8, 17);
    // The empty sentinel is not a storable taxon.
    let bad_taxon = vec![ChunkRecord { home: 1, key: 9, taxon: 0 }];
    assert!(fold_chunk(&mut t, &bad_taxon, &tax).is_err());
    // A cell outside the shard.
    let bad_home = vec![ChunkRecord { home: 8, key: 9, taxon: 2 }];
    assert!(fold_chunk(&mut t, &bad_home, &tax).is_err());
}

#[test]
fn fold_reports_probe_exhaustion() {
    let tax = Taxonomy::new(vec![0, 0, 1, 1]).unwrap();
    let mut t = empty_table(2, 17);
    let records = vec![
        ChunkRecord { home: 0, key: 1, taxon: 2 },
        ChunkRecord { home: 0, key: 2, taxon: 2 },
        ChunkRecord { home: 0, key: 3, taxon: 2 },
    ];
    assert!(fold_chunk(&mut t, &records, &tax).is_err());
}

#[test]
fn sums_of_shard_counts() {
    assert_eq!(sum_counts(&vec![1, 2, 3]), Some(6));
    assert_eq!(sum_counts(&Vec::new()), Some(0));
    assert_eq!(sum_counts(&vec![u64::MAX, 1]), None);
}

#[test]
fn buckets_locate_into_shards() {
    assert_eq!(locate_bucket(87, 40), (2, 7));
    assert_eq!(locate_bucket(39, 40), (0, 39));
    assert_eq!(locate_bucket(40, 40), (1, 0));
}

#[test]
fn batch_lookup_resolves_each_query() {
    let tax = Taxonomy::new(vec![0, 0, 1, 1]).unwrap();
    let mut t = empty_table(8, 17);
    t.insert_or_merge(9, 1, 2, &tax).unwrap();
    let probes = vec![
        ProbeKey { partial_key: 9, local_bucket: 1, seq_id: 1, pos: 0 },
        ProbeKey { partial_key: 8, local_bucket: 1, seq_id: 1, pos: 1 },
    ];
    let hits = lookup_batch(&t, &probes);
    assert_eq!(hits.len(), 2);
    assert_eq!(hits[0].value, 2);
    assert_eq!(hits[1].value, 0);
    assert_eq!(hits[1].seq_id, 1);
    assert_eq!(hits[1].pos, 1);
}

#[test]
fn query_stream_resolves_against_its_shard() {
    let tax = Taxonomy::new(vec![0, 0, 1, 1]).unwrap();
    let mut t = empty_table(8, 17);
    t.insert_or_merge(9, 1, 2, &tax).unwrap();
    // Shard 1 (0-based) of capacity 8 covers global buckets 8..16.
    let queries = vec![
        QueryRecord { home: 9, key: 9, seq_id: 1, pos: 0 },
        QueryRecord { home: 9, key: 7, seq_id: 1, pos: 1 },
    ];
    let hits = resolve_queries(&t, 1, 8, &queries).unwrap();
    assert_eq!(hits.len(), 2);
    assert_eq!(hits[0].value, 2);
    assert_eq!(hits[1].value, 0);
    // A query whose bucket lies in another shard is a mismatch.
    let stray = vec![QueryRecord { home: 3, key: 9, seq_id: 1, pos: 0 }];
    assert!(resolve_queries(&t, 1, 8, &stray).is_err());
}
