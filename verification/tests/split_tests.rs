use kr2r::split::{encode_shard_header, parse_shard_header, plan_shards, SHARD_HEADER_BYTES};

#[test]
fn split_100_by_40_gives_three_shards() {
    let plan = plan_shards(100, 40);
    assert_eq!(plan.len(), 3);
    assert_eq!(plan[0].index, 1);
    assert_eq!(plan[1].index, 2);
    assert_eq!(plan[2].index, 3);
    assert_eq!(plan[0].cell_count, 40);
    assert_eq!(plan[1].cell_count, 40);
    assert_eq!(plan[2].cell_count, 20);
    // Contiguous, disjoint byte ranges after the 32-byte preamble.
    assert_eq!(plan[0].offset, 32);
    assert_eq!(plan[0].length, 160);
    assert_eq!(plan[1].offset, 192);
    assert_eq!(plan[1].length, 160);
    assert_eq!(plan[2].offset, 352);
    assert_eq!(plan[2].length, 80);
    assert_eq!(plan[2].offset + plan[2].length, 32 + 4 * 100);
}

#[test]
fn split_exact_multiple_has_full_last_shard() {
    let plan = plan_shards(80, 40);
    assert_eq!(plan.len(), 2);
    assert_eq!(plan[1].cell_count, 40);
    assert_eq!(plan[1].offset + plan[1].length, 32 + 4 * 80);
}

#[test]
fn shard_header_round_trips() {
    let bytes = encode_shard_header(2, 40);
    assert_eq!(bytes.len(), SHARD_HEADER_BYTES);
    let (index, cells) = parse_shard_header(bytes.as_slice()).unwrap();
    assert_eq!(index, 2);
    assert_eq!(cells, 40);
}

#[test]
fn shard_header_rejects_short_input() {
    assert!(parse_shard_header(&[1u8; 8]).is_err());
}
