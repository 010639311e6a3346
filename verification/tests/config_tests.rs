use kr2r::config::{parse_legacy_header, shard_count_for, IndexConfig, CONFIG_BYTES};

#[test]
fn shard_count_is_ceiling() {
    assert_eq!(shard_count_for(100, 40), 3);
    assert_eq!(shard_count_for(100, 100), 1);
    assert_eq!(shard_count_for(101, 100), 2);
    assert_eq!(shard_count_for(1, 1), 1);
    assert_eq!(shard_count_for(0, 7), 0);
}

#[test]
fn config_round_trips_through_bytes() {
    let c = IndexConfig::new(100, 40, 17, 25).unwrap();
    assert_eq!(c.shard_count, 3);
    let bytes = c.serialize();
    assert_eq!(bytes.len(), CONFIG_BYTES);
    let back = IndexConfig::deserialize(bytes.as_slice()).unwrap();
    assert_eq!(back, c);
    let again = back.serialize();
    assert_eq!(again, bytes);
}

#[test]
fn config_rejects_bad_fields() {
    assert!(IndexConfig::new(100, 0, 17, 0).is_err());
    assert!(IndexConfig::new(100, 200, 17, 0).is_err());
    assert!(IndexConfig::new(100, 40, 0, 0).is_err());
    assert!(IndexConfig::new(100, 40, 32, 0).is_err());
    assert!(IndexConfig::new(100, 40, 17, 101).is_err());
}

#[test]
fn deserialize_rejects_bad_images() {
    assert!(IndexConfig::deserialize(&[0u8; 16]).is_err());
    let c = IndexConfig::new(100, 40, 17, 0).unwrap();
    let mut bytes = c.serialize();
    // Corrupt the stored shard count: it no longer matches the ceiling.
    bytes[16] = 9;
    assert!(IndexConfig::deserialize(bytes.as_slice()).is_err());
}

#[test]
fn value_mask_matches_bit_width() {
    let c = IndexConfig::new(100, 40, 17, 0).unwrap();
    assert_eq!(c.value_mask(), (1u32 << 17) - 1);
    let c2 = IndexConfig::new(100, 40, 1, 0).unwrap();
    assert_eq!(c2.value_mask(), 1);
}

#[test]
fn legacy_header_parses_fields() {
    let mut bytes = Vec::new();
    bytes.extend_from_slice(&100u64.to_le_bytes());
    bytes.extend_from_slice(&25u64.to_le_bytes());
    bytes.extend_from_slice(&15u64.to_le_bytes());
    bytes.extend_from_slice(&17u64.to_le_bytes());
    let h = parse_legacy_header(bytes.as_slice()).unwrap();
    assert_eq!(h.capacity, 100);
    assert_eq!(h.populated, 25);
    assert_eq!(h.key_bits, 15);
    assert_eq!(h.value_bits, 17);
    assert!(parse_legacy_header(&bytes[0..31]).is_err());
}

#[test]
fn with_populated_records_build_result() {
    let c = IndexConfig::new(100, 40, 17, 0).unwrap();
    let c2 = c.with_populated(60).unwrap();
    assert_eq!(c2.populated, 60);
    assert_eq!(c2.capacity, c.capacity);
    assert!(c.with_populated(101).is_err());
}
