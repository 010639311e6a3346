use vstd::prelude::*;
use vstd::arithmetic::div_mod::lemma_fundamental_div_mod;
use crate::cht::{ChtError, CompactHashTable};
use crate::codec::{HitRecord, QueryRecord};

verus! {

/// One minimizer query against the index: the partial key to match, the
/// cell the hash addresses within the target shard, and the sequence and
/// position the answer belongs to.
#[derive(Clone, Copy, PartialEq, Eq, Structural, Debug)]
pub struct ProbeKey {
    pub partial_key: u32,
    pub local_bucket: u64,
    pub seq_id: u32,
    pub pos: u32,
}

/// Splits a global bucket address into the shard that holds it and the
/// bucket's offset within that shard, before any shard is opened.
pub fn locate_bucket(home_bucket: u64, shard_capacity: u64) -> (r: (u64, u64))
    requires
        shard_capacity > 0,
    ensures
        r.0 == home_bucket / shard_capacity,
        r.1 == home_bucket % shard_capacity,
        home_bucket == r.0 * shard_capacity + r.1,
        r.1 < shard_capacity,
{
    proof {
        lemma_fundamental_div_mod(home_bucket as int, shard_capacity as int);
        assert((shard_capacity as int) * ((home_bucket / shard_capacity) as int) == ((home_bucket
            / shard_capacity) as int) * (shard_capacity as int)) by (nonlinear_arith);
    }
    (home_bucket / shard_capacity, home_bucket % shard_capacity)
}

/// Resolves one batch of queries against one open shard. The queries are
/// independent of one another: each yields a hit record carrying its own
/// sequence id and position, with the taxon the shard stores for the key
/// (or the 0 sentinel when the key is absent).
pub fn lookup_batch(cht: &CompactHashTable, probes: &Vec<ProbeKey>) -> (r: Vec<HitRecord>)
    requires
        cht.wf(),
        forall|i: int|
            0 <= i < probes@.len() ==> ((#[trigger] probes@[i]).local_bucket as int)
                < cht.cells@.len(),
    ensures
        r@.len() == probes@.len(),
        forall|i: int|
            0 <= i < probes@.len() ==> #[trigger] r@[i] == (HitRecord {
                seq_id: probes@[i].seq_id,
                pos: probes@[i].pos,
                value: cht.spec_lookup(probes@[i].partial_key, probes@[i].local_bucket as int),
            }),
{
    let mut out: Vec<HitRecord> = Vec::new();
    let mut i: usize = 0;
    while i < probes.len()
        invariant
            cht.wf(),
            i <= probes@.len(),
            out@.len() == i,
            forall|k: int|
                0 <= k < probes@.len() ==> ((#[trigger] probes@[k]).local_bucket as int)
                    < cht.cells@.len(),
            forall|k: int|
                0 <= k < i ==> #[trigger] out@[k] == (HitRecord {
                    seq_id: probes@[k].seq_id,
                    pos: probes@[k].pos,
                    value: cht.spec_lookup(probes@[k].partial_key, probes@[k].local_bucket as int),
                }),
        decreases probes@.len() - i,
    {
        let p = probes[i];
        proof {
            assert((probes@[i as int].local_bucket as int) < cht.cells@.len());
        }
        let n = cht.cells.len();
        assert(p.local_bucket < n as u64);
        let value = cht.lookup(p.partial_key, p.local_bucket as usize);
        out.push(HitRecord { seq_id: p.seq_id, pos: p.pos, value });
        i = i + 1;
    }
    out
}

/// Resolves a query stream against the shard it names: every query's
/// global bucket must locate into this shard and within its cells; a
/// query that does not is a fatal mismatch between stream and shard.
/// Each answer carries the query's own sequence id and position, so the
/// batch's entries are independent of one another.
pub fn resolve_queries(
    cht: &CompactHashTable,
    shard_index: u64,
    shard_capacity: u64,
    queries: &Vec<QueryRecord>,
) -> (r: Result<Vec<HitRecord>, ChtError>)
    requires
        cht.wf(),
        shard_capacity > 0,
    ensures
        match r {
            Ok(hits) => {
                &&& hits@.len() == queries@.len()
                &&& forall|k: int|
                    0 <= k < queries@.len() ==> ((#[trigger] queries@[k]).home as int)
                        / (shard_capacity as int) == shard_index && ((queries@[k].home as int) % (
                    shard_capacity as int)) < cht.cells@.len()
                &&& forall|k: int|
                    0 <= k < queries@.len() ==> #[trigger] hits@[k] == (HitRecord {
                        seq_id: queries@[k].seq_id,
                        pos: queries@[k].pos,
                        value: cht.spec_lookup(
                            queries@[k].key,
                            (queries@[k].home as int) % (shard_capacity as int),
                        ),
                    })
            },
            Err(_) => exists|k: int|
                0 <= k < queries@.len() && (((#[trigger] queries@[k]).home as int) / (
                shard_capacity as int) != shard_index || ((queries@[k].home as int) % (
                shard_capacity as int)) >= cht.cells@.len()),
        },
{
    let mut out: Vec<HitRecord> = Vec::new();
    let mut i: usize = 0;
    while i < queries.len()
        invariant
            cht.wf(),
            shard_capacity > 0,
            i <= queries@.len(),
            out@.len() == i,
            forall|k: int|
                0 <= k < i ==> ((#[trigger] queries@[k]).home as int) / (shard_capacity as int)
                    == shard_index && ((queries@[k].home as int) % (shard_capacity as int))
                    < cht.cells@.len(),
            forall|k: int|
                0 <= k < i ==> #[trigger] out@[k] == (HitRecord {
                    seq_id: queries@[k].seq_id,
                    pos: queries@[k].pos,
                    value: cht.spec_lookup(
                        queries@[k].key,
                        (queries@[k].home as int) % (shard_capacity as int),
                    ),
                }),
        decreases queries@.len() - i,
    {
        let q = queries[i];
        let (shard, local) = locate_bucket(q.home, shard_capacity);
        if shard != shard_index {
            return Err(ChtError::InvalidRecord);
        }
        let n = cht.cells.len();
        if !(local < n as u64) {
            return Err(ChtError::InvalidRecord);
        }
        let value = cht.lookup(q.key, local as usize);
        out.push(HitRecord { seq_id: q.seq_id, pos: q.pos, value });
        i = i + 1;
    }
    Ok(out)
}

} // verus!
