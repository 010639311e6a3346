use vstd::prelude::*;

verus! {

/// The numeric value of an ASCII digit string, most significant first.
pub open spec fn digits_val(s: Seq<u8>) -> int
    decreases s.len(),
{
    if s.len() == 0 {
        0
    } else {
        digits_val(s.drop_last()) * 10 + (s.last() - 48)
    }
}

pub open spec fn all_digits(s: Seq<u8>) -> bool {
    forall|i: int| 0 <= i < s.len() ==> 48 <= #[trigger] s[i] <= 57
}

/// A digit string's value only grows as more digits are read.
proof fn lemma_digits_val_bounds(s: Seq<u8>)
    requires
        all_digits(s),
    ensures
        digits_val(s) >= 0,
        s.len() > 0 ==> digits_val(s) >= digits_val(s.drop_last()),
    decreases s.len(),
{
    if s.len() > 0 {
        assert forall|i: int| 0 <= i < s.drop_last().len() implies 48 <= #[trigger] s.drop_last()[
        i] <= 57 by {
            assert(s.drop_last()[i] == s[i]);
        }
        lemma_digits_val_bounds(s.drop_last());
    }
}

proof fn lemma_digits_val_prefix(s: Seq<u8>, j: int)
    requires
        all_digits(s),
        0 <= j <= s.len(),
    ensures
        digits_val(s.take(j)) <= digits_val(s),
    decreases s.len(),
{
    if j == s.len() {
        assert(s.take(j) =~= s);
    } else {
        assert forall|i: int| 0 <= i < s.drop_last().len() implies 48 <= #[trigger] s.drop_last()[
        i] <= 57 by {
            assert(s.drop_last()[i] == s[i]);
        }
        lemma_digits_val_prefix(s.drop_last(), j);
        assert(s.drop_last().take(j) =~= s.take(j));
        lemma_digits_val_bounds(s);
    }
}

/// Parses an unsigned decimal number, rejecting an empty string, a
/// non-digit, or a value that does not fit.
pub fn parse_u64_digits(bytes: &[u8]) -> (r: Option<u64>)
    ensures
        match r {
            Some(v) => bytes@.len() > 0 && all_digits(bytes@) && v == digits_val(bytes@),
            None => bytes@.len() == 0 || !all_digits(bytes@) || digits_val(bytes@) > u64::MAX,
        },
{
    if bytes.len() == 0 {
        return None;
    }
    let n = bytes.len();
    let mut acc: u64 = 0;
    let mut i: usize = 0;
    proof {
        assert(bytes@.take(0) =~= Seq::<u8>::empty());
    }
    while i < n
        invariant
            n == bytes@.len(),
            i <= n,
            all_digits(bytes@.take(i as int)),
            acc == digits_val(bytes@.take(i as int)),
        decreases n - i,
    {
        let c = bytes[i];
        if c < 48 || c > 57 {
            return None;
        }
        let d = (c - 48) as u64;
        proof {
            assert(bytes@.take(i + 1).drop_last() =~= bytes@.take(i as int));
            assert(bytes@.take(i + 1).last() == bytes@[i as int]);
        }
        if acc > (u64::MAX - d) / 10 {
            proof {
                vstd::arithmetic::div_mod::lemma_fundamental_div_mod((u64::MAX - d) as int, 10);
                vstd::arithmetic::div_mod::lemma_mod_pos_bound((u64::MAX - d) as int, 10);
                assert((acc as int) * 10 + d > u64::MAX) by (nonlinear_arith)
                    requires
                        acc as int > ((u64::MAX - d) as int) / 10,
                        d <= 9u64,
                        (u64::MAX - d) as int == 10 * (((u64::MAX - d) as int) / 10) + ((u64::MAX
                            - d) as int) % 10,
                        0 <= ((u64::MAX - d) as int) % 10 < 10,
                ;
                if all_digits(bytes@) {
                    lemma_digits_val_prefix(bytes@, i + 1);
                }
            }
            return None;
        }
        acc = acc * 10 + d;
        i = i + 1;
    }
    proof {
        assert(bytes@.take(n as int) =~= bytes@);
    }
    Some(acc)
}

/// The first position at or after `from` holding `sep`, or the length
/// when there is none.
pub open spec fn spec_find_from(s: Seq<u8>, sep: u8, from: int) -> int
    decreases s.len() - from,
{
    if from < 0 || from >= s.len() {
        s.len() as int
    } else if s[from] == sep {
        from
    } else {
        spec_find_from(s, sep, from + 1)
    }
}

pub fn find_from(bytes: &[u8], sep: u8, from: usize) -> (r: usize)
    requires
        from <= bytes@.len(),
    ensures
        r == spec_find_from(bytes@, sep, from as int),
        from <= r <= bytes@.len(),
{
    let n = bytes.len();
    let mut i: usize = from;
    while i < n
        invariant
            from <= i <= n,
            n == bytes@.len(),
            spec_find_from(bytes@, sep, from as int) == spec_find_from(bytes@, sep, i as int),
        decreases n - i,
    {
        if bytes[i] == sep {
            return i;
        }
        i = i + 1;
    }
    n
}

fn copy_range(bytes: &[u8], a: usize, b: usize) -> (r: Vec<u8>)
    requires
        a <= b <= bytes@.len(),
    ensures
        r@ == bytes@.subrange(a as int, b as int),
{
    let mut out: Vec<u8> = Vec::new();
    let mut i: usize = a;
    proof {
        assert(out@ =~= bytes@.subrange(a as int, a as int));
    }
    while i < b
        invariant
            a <= i <= b <= bytes@.len(),
            out@ == bytes@.subrange(a as int, i as int),
        decreases b - i,
    {
        out.push(bytes[i]);
        proof {
            assert(bytes@.subrange(a as int, i + 1) =~= bytes@.subrange(a as int, i as int).push(
                bytes@[i as int],
            ));
        }
        i = i + 1;
    }
    out
}

/// A byte string that denotes a number no bigger than `bound`.
pub open spec fn parses_to(s: Seq<u8>, bound: int) -> bool {
    s.len() > 0 && all_digits(s) && digits_val(s) <= bound
}

/// One parsed line of the sequence-id map: numeric id, sequence id,
/// sequence length text, and the k-mer counts of the one or two mates.
pub struct IdMapLine {
    pub numeric_id: u32,
    pub seq_id: Vec<u8>,
    pub seq_size: Vec<u8>,
    pub kmer_count1: u64,
    pub kmer_count2: Option<u64>,
}

/// Parses one line of the tab-separated sequence-id map:
/// `numeric id, sequence id, sequence length, count1[|count2]`.
/// A line without three tabs, or whose numeric id or first count is not a
/// number, is rejected; a malformed second count leaves only that count
/// out, as a single-ended record.
pub fn parse_id_map_line(line: &[u8]) -> (r: Option<IdMapLine>)
    ensures
        ({
            let s = line@;
            let t1 = spec_find_from(s, 9, 0);
            let t2 = spec_find_from(s, 9, t1 + 1);
            let t3 = spec_find_from(s, 9, t2 + 1);
            let idp = s.subrange(0, t1);
            let c1end = spec_find_from(s, 124, t3 + 1);
            let c1p = s.subrange(t3 + 1, c1end);
            match r {
                Some(rec) => {
                    &&& t3 < s.len()
                    &&& parses_to(idp, u32::MAX as int)
                    &&& rec.numeric_id == digits_val(idp)
                    &&& rec.seq_id@ == s.subrange(t1 + 1, t2)
                    &&& rec.seq_size@ == s.subrange(t2 + 1, t3)
                    &&& parses_to(c1p, u64::MAX as int)
                    &&& rec.kmer_count1 == digits_val(c1p)
                    &&& rec.kmer_count2 == (if c1end < s.len() && parses_to(
                        s.subrange(c1end + 1, s.len() as int),
                        u64::MAX as int,
                    ) {
                        Some(digits_val(s.subrange(c1end + 1, s.len() as int)) as u64)
                    } else {
                        None::<u64>
                    })
                },
                None => !(t3 < s.len() && parses_to(idp, u32::MAX as int) && parses_to(
                    c1p,
                    u64::MAX as int,
                )),
            }
        }),
{
    let t1 = find_from(line, 9, 0);
    if t1 >= line.len() {
        return None;
    }
    let t2 = find_from(line, 9, t1 + 1);
    if t2 >= line.len() {
        return None;
    }
    let t3 = find_from(line, 9, t2 + 1);
    if t3 >= line.len() {
        return None;
    }
    let id_part = copy_range(line, 0, t1);
    let id64 = match parse_u64_digits(id_part.as_slice()) {
        Some(v) => v,
        None => {
            return None;
        },
    };
    if id64 > u32::MAX as u64 {
        return None;
    }
    let c1end = find_from(line, 124, t3 + 1);
    let c1_part = copy_range(line, t3 + 1, c1end);
    let kmer_count1 = match parse_u64_digits(c1_part.as_slice()) {
        Some(v) => v,
        None => {
            return None;
        },
    };
    let kmer_count2 = if c1end < line.len() {
        let c2_part = copy_range(line, c1end + 1, line.len());
        parse_u64_digits(c2_part.as_slice())
    } else {
        None
    };
    let seq_id = copy_range(line, t1 + 1, t2);
    let seq_size = copy_range(line, t2 + 1, t3);
    Some(IdMapLine { numeric_id: id64 as u32, seq_id, seq_size, kmer_count1, kmer_count2 })
}

/// The larger of two optional numbers; `None` is the neutral element.
pub open spec fn spec_opt_max(a: Option<u64>, b: Option<u64>) -> Option<u64> {
    match a {
        None => b,
        Some(x) => match b {
            None => Some(x),
            Some(y) => Some(
                if x >= y {
                    x
                } else {
                    y
                },
            ),
        },
    }
}

/// The first position at or after `from` lying at or beyond `sep`'s first
/// occurrence is within the string's bounds.
proof fn lemma_find_from_range(s: Seq<u8>, sep: u8, from: int)
    requires
        0 <= from <= s.len(),
    ensures
        from <= spec_find_from(s, sep, from) <= s.len(),
    decreases s.len() - from,
{
    if from < s.len() && s[from] != sep {
        lemma_find_from_range(s, sep, from + 1);
    }
}

/// The highest number in the first tab-separated column of any line at or
/// after `from`; `None` when no line carries one.
pub open spec fn spec_latest_from(s: Seq<u8>, from: int) -> Option<u64>
    decreases s.len() - from,
    via spec_latest_decreases
{
    if from < 0 || from >= s.len() {
        None
    } else {
        let line_end = spec_find_from(s, 10, from);
        let tab = spec_find_from(s, 9, from);
        let col_end = if tab < line_end {
            tab
        } else {
            line_end
        };
        let col = s.subrange(from, col_end);
        let this = if parses_to(col, u64::MAX as int) {
            Some(digits_val(col) as u64)
        } else {
            None
        };
        if line_end >= s.len() {
            this
        } else {
            spec_opt_max(this, spec_latest_from(s, line_end + 1))
        }
    }
}

#[via_fn]
proof fn spec_latest_decreases(s: Seq<u8>, from: int) {
    if 0 <= from < s.len() {
        lemma_find_from_range(s, 10, from);
    }
}

/// The highest file sequence number recorded in the first column of a map
/// file: 0 for empty content, and 1 when no line's first column is a
/// number.
pub fn latest_file_index(content: &[u8]) -> (r: u64)
    ensures
        r == (if content@.len() == 0 {
            0u64
        } else {
            match spec_latest_from(content@, 0) {
                Some(v) => v,
                None => 1u64,
            }
        }),
{
    let n = content.len();
    if n == 0 {
        return 0;
    }
    let mut best: Option<u64> = None;
    let mut from: usize = 0;
    while from < n
        invariant
            from <= n,
            n == content@.len(),
            spec_opt_max(best, spec_latest_from(content@, from as int)) == spec_latest_from(
                content@,
                0,
            ),
        decreases n - from,
    {
        let line_end = find_from(content, 10, from);
        let tab = find_from(content, 9, from);
        let col_end = if tab < line_end {
            tab
        } else {
            line_end
        };
        let part = copy_range(content, from, col_end);
        let this = parse_u64_digits(part.as_slice());
        best = match (best, this) {
            (None, x) => x,
            (x, None) => x,
            (Some(x), Some(y)) => Some(
                if x >= y {
                    x
                } else {
                    y
                },
            ),
        };
        if line_end >= n {
            proof {
                assert(spec_latest_from(content@, line_end as int + 1) is None);
            }
            return match best {
                Some(v) => v,
                None => 1,
            };
        }
        from = line_end + 1;
    }
    match best {
        Some(v) => v,
        None => 1,
    }
}

/// Whether a byte is blank (space or tab), the separators of the
/// sequence-to-taxon map.
pub open spec fn is_blank(c: u8) -> bool {
    c == 32 || c == 9
}

/// The first blank at or after `from`, or the length when there is none.
pub open spec fn spec_find_blank(s: Seq<u8>, from: int) -> int
    decreases s.len() - from,
{
    if from < 0 || from >= s.len() {
        s.len() as int
    } else if is_blank(s[from]) {
        from
    } else {
        spec_find_blank(s, from + 1)
    }
}

/// The first non-blank at or after `from`, or the length.
pub open spec fn spec_skip_blank(s: Seq<u8>, from: int) -> int
    decreases s.len() - from,
{
    if from < 0 || from >= s.len() {
        s.len() as int
    } else if is_blank(s[from]) {
        spec_skip_blank(s, from + 1)
    } else {
        from
    }
}

fn find_blank(bytes: &[u8], from: usize) -> (r: usize)
    requires
        from <= bytes@.len(),
    ensures
        r == spec_find_blank(bytes@, from as int),
        from <= r <= bytes@.len(),
{
    let n = bytes.len();
    let mut i: usize = from;
    while i < n
        invariant
            from <= i <= n,
            n == bytes@.len(),
            spec_find_blank(bytes@, from as int) == spec_find_blank(bytes@, i as int),
        decreases n - i,
    {
        if bytes[i] == 32 || bytes[i] == 9 {
            return i;
        }
        i = i + 1;
    }
    n
}

fn skip_blank(bytes: &[u8], from: usize) -> (r: usize)
    requires
        from <= bytes@.len(),
    ensures
        r == spec_skip_blank(bytes@, from as int),
        from <= r <= bytes@.len(),
{
    let n = bytes.len();
    let mut i: usize = from;
    while i < n
        invariant
            from <= i <= n,
            n == bytes@.len(),
            spec_skip_blank(bytes@, from as int) == spec_skip_blank(bytes@, i as int),
        decreases n - i,
    {
        if !(bytes[i] == 32 || bytes[i] == 9) {
            return i;
        }
        i = i + 1;
    }
    n
}

/// Parses one line of the sequence-to-taxon map: a sequence id and its
/// taxon id, blank-separated. A line without two columns, or whose taxon
/// id is not a number, is rejected.
pub fn parse_taxon_map_line(line: &[u8]) -> (r: Option<(Vec<u8>, u64)>)
    ensures
        ({
            let s = line@;
            let a0 = spec_skip_blank(s, 0);
            let e0 = spec_find_blank(s, a0);
            let a1 = spec_skip_blank(s, e0);
            let e1 = spec_find_blank(s, a1);
            let taxp = s.subrange(a1, e1);
            match r {
                Some((seq_id, taxid)) => {
                    &&& a0 < s.len()
                    &&& a1 < s.len()
                    &&& seq_id@ == s.subrange(a0, e0)
                    &&& parses_to(taxp, u64::MAX as int)
                    &&& taxid == digits_val(taxp)
                },
                None => !(a0 < s.len() && a1 < s.len() && parses_to(taxp, u64::MAX as int)),
            }
        }),
{
    let a0 = skip_blank(line, 0);
    if a0 >= line.len() {
        return None;
    }
    let e0 = find_blank(line, a0);
    let a1 = skip_blank(line, e0);
    if a1 >= line.len() {
        return None;
    }
    let e1 = find_blank(line, a1);
    let tax_part = copy_range(line, a1, e1);
    let taxid = match parse_u64_digits(tax_part.as_slice()) {
        Some(v) => v,
        None => {
            return None;
        },
    };
    let seq_id = copy_range(line, a0, e0);
    Some((seq_id, taxid))
}

} // verus!
