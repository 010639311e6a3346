use kr2r::text::{latest_file_index, parse_id_map_line, parse_taxon_map_line, parse_u64_digits};

#[test]
fn parses_decimal_numbers() {
    assert_eq!(parse_u64_digits(b"123"), Some(123));
    assert_eq!(parse_u64_digits(b"0"), Some(0));
    assert_eq!(parse_u64_digits(b""), None);
    assert_eq!(parse_u64_digits(b"12a"), None);
    assert_eq!(parse_u64_digits(b"18446744073709551615"), Some(u64::MAX));
    assert_eq!(parse_u64_digits(b"18446744073709551616"), None);
}

#[test]
fn parses_paired_id_map_line() {
    let rec = parse_id_map_line(b"7\tread1\t150\t30|28").unwrap();
    assert_eq!(rec.numeric_id, 7);
    assert_eq!(rec.seq_id, b"read1".to_vec());
    assert_eq!(rec.seq_size, b"150".to_vec());
    assert_eq!(rec.kmer_count1, 30);
    assert_eq!(rec.kmer_count2, Some(28));
}

#[test]
fn parses_single_ended_id_map_line() {
    let rec = parse_id_map_line(b"12\tread2\t75\t14").unwrap();
    assert_eq!(rec.numeric_id, 12);
    assert_eq!(rec.kmer_count1, 14);
    assert_eq!(rec.kmer_count2, None);
}

#[test]
fn rejects_short_or_malformed_id_map_lines() {
    assert!(parse_id_map_line(b"").is_none());
    assert!(parse_id_map_line(b"7\tread1\t150").is_none());
    assert!(parse_id_map_line(b"x\tread1\t150\t30").is_none());
    assert!(parse_id_map_line(b"7\tread1\t150\tx").is_none());
    // A malformed second count only drops that count.
    let rec = parse_id_map_line(b"7\tread1\t150\t30|x").unwrap();
    assert_eq!(rec.kmer_count2, None);
}

#[test]
fn parses_taxon_map_line() {
    let (seq_id, taxid) = parse_taxon_map_line(b"seqA 562").unwrap();
    assert_eq!(seq_id, b"seqA".to_vec());
    assert_eq!(taxid, 562);
    let (seq_id2, taxid2) = parse_taxon_map_line(b"  seqB\t9606").unwrap();
    assert_eq!(seq_id2, b"seqB".to_vec());
    assert_eq!(taxid2, 9606);
}

#[test]
fn latest_index_is_the_largest_first_column() {
    assert_eq!(latest_file_index(b""), 0);
    assert_eq!(latest_file_index(b"3\ta\n1\tb\n7\tc\n2\td"), 7);
    assert_eq!(latest_file_index(b"5\tx"), 5);
    // No line carries a number: the fallback index is 1.
    assert_eq!(latest_file_index(b"x\ty\nz\tw"), 1);
    // Lines without a tab still contribute their whole first column.
    assert_eq!(latest_file_index(b"4\n9\n2"), 9);
}

#[test]
fn rejects_short_taxon_map_lines() {
    assert!(parse_taxon_map_line(b"").is_none());
    assert!(parse_taxon_map_line(b"seqA").is_none());
    assert!(parse_taxon_map_line(b"seqA x").is_none());
}
