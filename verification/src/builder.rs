use vstd::prelude::*;
use crate::cht::{spec_mask_of, ChtError, CompactHashTable};
use crate::codec::ChunkRecord;
use crate::taxonomy::Taxonomy;

verus! {

/// A pending record a shard builder may fold: its cell lies in the shard,
/// its taxon is a nonzero id that fits the value field and names a node of
/// the taxonomy, and its partial key fits the cell's key field.
pub open spec fn record_valid(r: ChunkRecord, len: int, bits: u32, tax_len: int) -> bool {
    &&& (r.home as int) < len
    &&& 0 < r.taxon <= spec_mask_of(bits)
    &&& r.key <= u32::MAX >> bits
    &&& (r.taxon as int) < tax_len
}

/// The shard and claim count that folding a chunk leaves behind: each
/// record in turn is inserted or merged; a malformed record or an
/// exhausted probe aborts the fold.
pub open spec fn spec_fold(
    cells: Seq<u32>,
    bits: u32,
    parents: Seq<u32>,
    records: Seq<ChunkRecord>,
) -> Option<(Seq<u32>, nat)>
    decreases records.len(),
{
    if records.len() == 0 {
        Some((cells, 0))
    } else {
        let r0 = records[0];
        if !record_valid(r0, cells.len() as int, bits, parents.len() as int) {
            None
        } else {
            match CompactHashTable::spec_insert_result(
                cells,
                spec_mask_of(bits),
                bits,
                parents,
                r0.key,
                r0.home as int,
                r0.taxon,
            ) {
                None => None,
                Some((c1, _eff, claimed)) => match spec_fold(
                    c1,
                    bits,
                    parents,
                    records.drop_first(),
                ) {
                    None => None,
                    Some((cf, n)) => Some(
                        (
                            cf,
                            n + if claimed {
                                1nat
                            } else {
                                0nat
                            },
                        ),
                    ),
                },
            }
        }
    }
}

/// Folds one shard's chunk of pending records into its table, returning
/// how many cells the fold newly occupied. One builder owns the shard, so
/// the fold is plain sequential insertion; a malformed record or an
/// exhausted probe is a fatal error, never silently dropped.
pub fn fold_chunk(cht: &mut CompactHashTable, records: &Vec<ChunkRecord>, tax: &Taxonomy) -> (r:
    Result<u64, ChtError>)
    requires
        old(cht).wf(),
        tax.wf(),
        old(cht).values_below(tax@.len() as int),
    ensures
        final(cht).wf(),
        final(cht).value_bits == old(cht).value_bits,
        final(cht).value_mask == old(cht).value_mask,
        final(cht).cells@.len() == old(cht).cells@.len(),
        final(cht).values_below(tax@.len() as int),
        match r {
            Ok(newly) => spec_fold(old(cht).cells@, old(cht).value_bits, tax@, records@) == Some(
                (final(cht).cells@, newly as nat),
            ) && final(cht).occupied == old(cht).occupied + newly,
            Err(_) => spec_fold(old(cht).cells@, old(cht).value_bits, tax@, records@) is None,
        },
{
    let n = records.len();
    let bits = cht.value_bits;
    let mask = cht.value_mask;
    let mut claimed: u64 = 0;
    let mut j: usize = 0;
    proof {
        assert(records@.skip(0) =~= records@);
    }
    while j < n
        invariant
            cht.wf(),
            tax.wf(),
            cht.values_below(tax@.len() as int),
            bits == cht.value_bits,
            mask == cht.value_mask,
            cht.value_bits == old(cht).value_bits,
            cht.value_mask == old(cht).value_mask,
            cht.cells@.len() == old(cht).cells@.len(),
            cht.occupied == old(cht).occupied + claimed,
            n == records@.len(),
            j <= n,
            claimed <= j,
            spec_fold(old(cht).cells@, bits, tax@, records@) == (match spec_fold(
                cht.cells@,
                bits,
                tax@,
                records@.skip(j as int),
            ) {
                None => None::<(Seq<u32>, nat)>,
                Some((cf, m)) => Some((cf, (m + claimed) as nat)),
            }),
        decreases n - j,
    {
        let rec = records[j];
        proof {
            assert(records@.skip(j as int)[0] == records@[j as int]);
            assert(records@.skip(j as int).drop_first() =~= records@.skip(j + 1));
        }
        if !(rec.home < cht.cells.len() as u64) {
            return Err(ChtError::InvalidRecord);
        }
        if rec.taxon == 0 || rec.taxon > mask {
            return Err(ChtError::InvalidRecord);
        }
        if rec.key > u32::MAX >> bits {
            return Err(ChtError::InvalidRecord);
        }
        if !((rec.taxon as usize) < tax.node_count()) {
            return Err(ChtError::InvalidRecord);
        }
        let home = rec.home as usize;
        match cht.insert_or_merge(rec.key, home, rec.taxon, tax) {
            Ok((_eff, was_claimed)) => {
                if was_claimed {
                    claimed = claimed + 1;
                }
            },
            Err(e) => {
                return Err(e);
            },
        }
        j = j + 1;
    }
    proof {
        assert(records@.skip(n as int) =~= Seq::<ChunkRecord>::empty());
    }
    Ok(claimed)
}

/// Sum of per-shard occupied-cell counts.
pub open spec fn spec_sum(s: Seq<u64>) -> int
    decreases s.len(),
{
    if s.len() == 0 {
        0
    } else {
        spec_sum(s.drop_last()) + s.last()
    }
}

/// Sums the newly-occupied counts of all shards, to be recorded in the
/// index config after a build pass; `None` when the sum leaves u64.
pub fn sum_counts(counts: &Vec<u64>) -> (r: Option<u64>)
    ensures
        match r {
            Some(v) => v == spec_sum(counts@),
            None => spec_sum(counts@) > u64::MAX,
        },
{
    let mut acc: u64 = 0;
    let mut i: usize = 0;
    proof {
        assert(counts@.take(0) =~= Seq::<u64>::empty());
    }
    while i < counts.len()
        invariant
            i <= counts@.len(),
            acc == spec_sum(counts@.take(i as int)),
        decreases counts@.len() - i,
    {
        let c = counts[i];
        proof {
            assert(counts@.take(i + 1).drop_last() =~= counts@.take(i as int));
            assert(counts@.take(i + 1).last() == counts@[i as int]);
        }
        if acc > u64::MAX - c {
            proof {
                lemma_sum_mono(counts@, i + 1);
            }
            return None;
        }
        acc = acc + c;
        i = i + 1;
    }
    proof {
        assert(counts@.take(counts@.len() as int) =~= counts@);
    }
    Some(acc)
}

/// A prefix sum never exceeds the whole sum.
proof fn lemma_sum_mono(s: Seq<u64>, j: int)
    requires
        0 <= j <= s.len(),
    ensures
        spec_sum(s.take(j)) <= spec_sum(s),
    decreases s.len(),
{
    if j == s.len() {
        assert(s.take(j) =~= s);
    } else {
        lemma_sum_mono(s.drop_last(), j);
        assert(s.drop_last().take(j) =~= s.take(j));
    }
}

} // verus!
