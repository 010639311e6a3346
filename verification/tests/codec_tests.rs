use kr2r::codec::{
    decode_cells, decode_chunk_records, decode_hit_records, decode_query_records, encode_cells,
    encode_chunk_record, encode_hit_record, encode_query_record, ChunkRecord, HitRecord,
    QueryRecord,
};

#[test]
fn hit_records_round_trip() {
    let records = vec![
        HitRecord { seq_id: 1, pos: 0, value: 7 },
        HitRecord { seq_id: 1, pos: 1, value: 9 },
        HitRecord { seq_id: 2, pos: 0, value: 0 },
    ];
    let mut bytes = Vec::new();
    for r in &records {
        bytes.extend_from_slice(&encode_hit_record(r));
    }
    let back = decode_hit_records(bytes.as_slice());
    assert_eq!(back, records);
}

#[test]
fn short_trailing_hit_record_is_stream_end() {
    let r = HitRecord { seq_id: 3, pos: 5, value: 8 };
    let mut bytes = encode_hit_record(&r);
    bytes.extend_from_slice(&[1, 2, 3]);
    let back = decode_hit_records(bytes.as_slice());
    assert_eq!(back, vec![r]);
    assert_eq!(decode_hit_records(&[0u8; 11]).len(), 0);
}

#[test]
fn chunk_records_round_trip() {
    let records = vec![
        ChunkRecord { home: 17, key: 4, taxon: 2 },
        ChunkRecord { home: 0, key: 0xFFFF, taxon: 9 },
    ];
    let mut bytes = Vec::new();
    for r in &records {
        bytes.extend_from_slice(&encode_chunk_record(r));
    }
    let back = decode_chunk_records(bytes.as_slice());
    assert_eq!(back, records);
}

#[test]
fn query_records_round_trip() {
    let records = vec![
        QueryRecord { home: 1234567, key: 9, seq_id: 1, pos: 0 },
        QueryRecord { home: 0, key: 0, seq_id: 2, pos: 31 },
    ];
    let mut bytes = Vec::new();
    for r in &records {
        bytes.extend_from_slice(&encode_query_record(r));
    }
    bytes.push(0);
    let back = decode_query_records(bytes.as_slice());
    assert_eq!(back, records);
}

#[test]
fn cells_round_trip() {
    let cells: Vec<u32> = vec![0, 1, 0xFFFF_FFFF, 42];
    let bytes = encode_cells(&cells);
    assert_eq!(bytes.len(), 16);
    assert_eq!(decode_cells(bytes.as_slice()), cells);
    // A short trailing cell is dropped.
    assert_eq!(decode_cells(&bytes[0..10]), vec![0, 1]);
}
