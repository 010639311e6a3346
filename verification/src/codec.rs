use vstd::prelude::*;
use vstd::arithmetic::div_mod::lemma_fundamental_div_mod_converse;
use vstd::bytes::{
    lemma_auto_spec_u32_to_from_le_bytes, lemma_auto_spec_u64_to_from_le_bytes,
    spec_u32_from_le_bytes, spec_u32_to_le_bytes, spec_u64_from_le_bytes, spec_u64_to_le_bytes,
    u32_from_le_bytes, u32_to_le_bytes, u64_from_le_bytes, u64_to_le_bytes,
};
use vstd::slice::slice_subrange;

verus! {

/// Bytes of one hit record.
pub const HIT_RECORD_BYTES: usize = 12;

/// Bytes of one pending chunk record.
pub const CHUNK_RECORD_BYTES: usize = 16;

/// One minimizer hit for one sequence: which sequence, at which position in
/// the read, and the cell value (taxon id) the lookup resolved.
#[derive(Clone, Copy, PartialEq, Eq, Structural, Debug)]
pub struct HitRecord {
    pub seq_id: u32,
    pub pos: u32,
    pub value: u32,
}

/// One pending index entry for one shard: the cell the key hashes to
/// within the shard, the partial key, and the taxon to record.
#[derive(Clone, Copy, PartialEq, Eq, Structural, Debug)]
pub struct ChunkRecord {
    pub home: u64,
    pub key: u32,
    pub taxon: u32,
}

pub open spec fn spec_decode_hit(b: Seq<u8>) -> HitRecord {
    HitRecord {
        seq_id: spec_u32_from_le_bytes(b.subrange(0, 4)),
        pos: spec_u32_from_le_bytes(b.subrange(4, 8)),
        value: spec_u32_from_le_bytes(b.subrange(8, 12)),
    }
}

pub open spec fn spec_encode_hit(r: HitRecord) -> Seq<u8> {
    spec_u32_to_le_bytes(r.seq_id) + spec_u32_to_le_bytes(r.pos) + spec_u32_to_le_bytes(r.value)
}

pub open spec fn spec_decode_chunk(b: Seq<u8>) -> ChunkRecord {
    ChunkRecord {
        home: spec_u64_from_le_bytes(b.subrange(0, 8)),
        key: spec_u32_from_le_bytes(b.subrange(8, 12)),
        taxon: spec_u32_from_le_bytes(b.subrange(12, 16)),
    }
}

pub open spec fn spec_encode_chunk(r: ChunkRecord) -> Seq<u8> {
    spec_u64_to_le_bytes(r.home) + spec_u32_to_le_bytes(r.key) + spec_u32_to_le_bytes(r.taxon)
}

/// A hit record round-trips through its byte image.
pub proof fn lemma_hit_round_trip(r: HitRecord)
    ensures
        spec_encode_hit(r).len() == HIT_RECORD_BYTES,
        spec_decode_hit(spec_encode_hit(r)) == r,
{
    lemma_auto_spec_u32_to_from_le_bytes();
    let b = spec_encode_hit(r);
    assert(b.subrange(0, 4) =~= spec_u32_to_le_bytes(r.seq_id));
    assert(b.subrange(4, 8) =~= spec_u32_to_le_bytes(r.pos));
    assert(b.subrange(8, 12) =~= spec_u32_to_le_bytes(r.value));
}

/// A chunk record round-trips through its byte image.
pub proof fn lemma_chunk_round_trip(r: ChunkRecord)
    ensures
        spec_encode_chunk(r).len() == CHUNK_RECORD_BYTES,
        spec_decode_chunk(spec_encode_chunk(r)) == r,
{
    lemma_auto_spec_u32_to_from_le_bytes();
    lemma_auto_spec_u64_to_from_le_bytes();
    let b = spec_encode_chunk(r);
    assert(b.subrange(0, 8) =~= spec_u64_to_le_bytes(r.home));
    assert(b.subrange(8, 12) =~= spec_u32_to_le_bytes(r.key));
    assert(b.subrange(12, 16) =~= spec_u32_to_le_bytes(r.taxon));
}

pub fn encode_hit_record(r: &HitRecord) -> (out: Vec<u8>)
    ensures
        out@ == spec_encode_hit(*r),
{
    proof {
        lemma_auto_spec_u32_to_from_le_bytes();
    }
    let mut out = u32_to_le_bytes(r.seq_id);
    let mut b1 = u32_to_le_bytes(r.pos);
    let mut b2 = u32_to_le_bytes(r.value);
    out.append(&mut b1);
    out.append(&mut b2);
    out
}

pub fn encode_chunk_record(r: &ChunkRecord) -> (out: Vec<u8>)
    ensures
        out@ == spec_encode_chunk(*r),
{
    proof {
        lemma_auto_spec_u32_to_from_le_bytes();
        lemma_auto_spec_u64_to_from_le_bytes();
    }
    let mut out = u64_to_le_bytes(r.home);
    let mut b1 = u32_to_le_bytes(r.key);
    let mut b2 = u32_to_le_bytes(r.taxon);
    out.append(&mut b1);
    out.append(&mut b2);
    out
}

/// Decodes the stream of fixed-width hit records held in `bytes`. A short
/// record at the end is the end of the stream, not corruption: it is
/// dropped.
pub fn decode_hit_records(bytes: &[u8]) -> (r: Vec<HitRecord>)
    ensures
        r@.len() == bytes@.len() as int / 12,
        forall|j: int|
            0 <= j < r@.len() ==> #[trigger] r@[j] == spec_decode_hit(
                bytes@.subrange(12 * j, 12 * j + 12),
            ),
{
    let mut out: Vec<HitRecord> = Vec::new();
    let mut base: usize = 0;
    let mut i: usize = 0;
    while bytes.len() - base >= HIT_RECORD_BYTES
        invariant
            base == 12 * i,
            base <= bytes@.len(),
            out@.len() == i,
            forall|j: int|
                0 <= j < i ==> #[trigger] out@[j] == spec_decode_hit(
                    bytes@.subrange(12 * j, 12 * j + 12),
                ),
        decreases bytes@.len() - base,
    {
        let chunk = slice_subrange(bytes, base, base + 12);
        let seq_id = u32_from_le_bytes(slice_subrange(chunk, 0, 4));
        let pos = u32_from_le_bytes(slice_subrange(chunk, 4, 8));
        let value = u32_from_le_bytes(slice_subrange(chunk, 8, 12));
        proof {
            assert(bytes@.subrange(base as int, base + 12).subrange(0, 4) =~= bytes@.subrange(
                12 * i as int,
                12 * i + 12,
            ).subrange(0, 4));
            assert(bytes@.subrange(base as int, base + 12).subrange(4, 8) =~= bytes@.subrange(
                12 * i as int,
                12 * i + 12,
            ).subrange(4, 8));
            assert(bytes@.subrange(base as int, base + 12).subrange(8, 12) =~= bytes@.subrange(
                12 * i as int,
                12 * i + 12,
            ).subrange(8, 12));
        }
        out.push(HitRecord { seq_id, pos, value });
        base = base + 12;
        i = i + 1;
    }
    proof {
        lemma_fundamental_div_mod_converse(
            bytes@.len() as int,
            12,
            i as int,
            bytes@.len() - 12 * i,
        );
    }
    out
}

/// Decodes the pending records of one shard's chunk file; a short trailing
/// record is the end of the stream.
pub fn decode_chunk_records(bytes: &[u8]) -> (r: Vec<ChunkRecord>)
    ensures
        r@.len() == bytes@.len() as int / 16,
        forall|j: int|
            0 <= j < r@.len() ==> #[trigger] r@[j] == spec_decode_chunk(
                bytes@.subrange(16 * j, 16 * j + 16),
            ),
{
    let mut out: Vec<ChunkRecord> = Vec::new();
    let mut base: usize = 0;
    let mut i: usize = 0;
    while bytes.len() - base >= CHUNK_RECORD_BYTES
        invariant
            base == 16 * i,
            base <= bytes@.len(),
            out@.len() == i,
            forall|j: int|
                0 <= j < i ==> #[trigger] out@[j] == spec_decode_chunk(
                    bytes@.subrange(16 * j, 16 * j + 16),
                ),
        decreases bytes@.len() - base,
    {
        let chunk = slice_subrange(bytes, base, base + 16);
        let home = u64_from_le_bytes(slice_subrange(chunk, 0, 8));
        let key = u32_from_le_bytes(slice_subrange(chunk, 8, 12));
        let taxon = u32_from_le_bytes(slice_subrange(chunk, 12, 16));
        proof {
            assert(bytes@.subrange(base as int, base + 16).subrange(0, 8) =~= bytes@.subrange(
                16 * i as int,
                16 * i + 16,
            ).subrange(0, 8));
            assert(bytes@.subrange(base as int, base + 16).subrange(8, 12) =~= bytes@.subrange(
                16 * i as int,
                16 * i + 16,
            ).subrange(8, 12));
            assert(bytes@.subrange(base as int, base + 16).subrange(12, 16) =~= bytes@.subrange(
                16 * i as int,
                16 * i + 16,
            ).subrange(12, 16));
        }
        out.push(ChunkRecord { home, key, taxon });
        base = base + 16;
        i = i + 1;
    }
    proof {
        lemma_fundamental_div_mod_converse(
            bytes@.len() as int,
            16,
            i as int,
            bytes@.len() - 16 * i,
        );
    }
    out
}

/// Bytes of one query record.
pub const QUERY_RECORD_BYTES: usize = 20;

/// One minimizer query as it stands in a query stream: the global bucket
/// its hash addresses, its partial key, and the sequence and position the
/// answer belongs to.
#[derive(Clone, Copy, PartialEq, Eq, Structural, Debug)]
pub struct QueryRecord {
    pub home: u64,
    pub key: u32,
    pub seq_id: u32,
    pub pos: u32,
}

pub open spec fn spec_decode_query(b: Seq<u8>) -> QueryRecord {
    QueryRecord {
        home: spec_u64_from_le_bytes(b.subrange(0, 8)),
        key: spec_u32_from_le_bytes(b.subrange(8, 12)),
        seq_id: spec_u32_from_le_bytes(b.subrange(12, 16)),
        pos: spec_u32_from_le_bytes(b.subrange(16, 20)),
    }
}

pub open spec fn spec_encode_query(r: QueryRecord) -> Seq<u8> {
    spec_u64_to_le_bytes(r.home) + spec_u32_to_le_bytes(r.key) + spec_u32_to_le_bytes(r.seq_id)
        + spec_u32_to_le_bytes(r.pos)
}

/// A query record round-trips through its byte image.
pub proof fn lemma_query_round_trip(r: QueryRecord)
    ensures
        spec_encode_query(r).len() == QUERY_RECORD_BYTES,
        spec_decode_query(spec_encode_query(r)) == r,
{
    lemma_auto_spec_u32_to_from_le_bytes();
    lemma_auto_spec_u64_to_from_le_bytes();
    let b = spec_encode_query(r);
    assert(b.subrange(0, 8) =~= spec_u64_to_le_bytes(r.home));
    assert(b.subrange(8, 12) =~= spec_u32_to_le_bytes(r.key));
    assert(b.subrange(12, 16) =~= spec_u32_to_le_bytes(r.seq_id));
    assert(b.subrange(16, 20) =~= spec_u32_to_le_bytes(r.pos));
}

pub fn encode_query_record(r: &QueryRecord) -> (out: Vec<u8>)
    ensures
        out@ == spec_encode_query(*r),
{
    proof {
        lemma_auto_spec_u32_to_from_le_bytes();
        lemma_auto_spec_u64_to_from_le_bytes();
    }
    let mut out = u64_to_le_bytes(r.home);
    let mut b1 = u32_to_le_bytes(r.key);
    let mut b2 = u32_to_le_bytes(r.seq_id);
    let mut b3 = u32_to_le_bytes(r.pos);
    out.append(&mut b1);
    out.append(&mut b2);
    out.append(&mut b3);
    out
}

/// Decodes a query stream's fixed-width records; a short trailing record
/// is the end of the stream.
pub fn decode_query_records(bytes: &[u8]) -> (r: Vec<QueryRecord>)
    ensures
        r@.len() == bytes@.len() as int / 20,
        forall|j: int|
            0 <= j < r@.len() ==> #[trigger] r@[j] == spec_decode_query(
                bytes@.subrange(20 * j, 20 * j + 20),
            ),
{
    let mut out: Vec<QueryRecord> = Vec::new();
    let mut base: usize = 0;
    let mut i: usize = 0;
    while bytes.len() - base >= QUERY_RECORD_BYTES
        invariant
            base == 20 * i,
            base <= bytes@.len(),
            out@.len() == i,
            forall|j: int|
                0 <= j < i ==> #[trigger] out@[j] == spec_decode_query(
                    bytes@.subrange(20 * j, 20 * j + 20),
                ),
        decreases bytes@.len() - base,
    {
        let chunk = slice_subrange(bytes, base, base + 20);
        let home = u64_from_le_bytes(slice_subrange(chunk, 0, 8));
        let key = u32_from_le_bytes(slice_subrange(chunk, 8, 12));
        let seq_id = u32_from_le_bytes(slice_subrange(chunk, 12, 16));
        let pos = u32_from_le_bytes(slice_subrange(chunk, 16, 20));
        proof {
            assert(bytes@.subrange(base as int, base + 20).subrange(0, 8) =~= bytes@.subrange(
                20 * i as int,
                20 * i + 20,
            ).subrange(0, 8));
            assert(bytes@.subrange(base as int, base + 20).subrange(8, 12) =~= bytes@.subrange(
                20 * i as int,
                20 * i + 20,
            ).subrange(8, 12));
            assert(bytes@.subrange(base as int, base + 20).subrange(12, 16) =~= bytes@.subrange(
                20 * i as int,
                20 * i + 20,
            ).subrange(12, 16));
            assert(bytes@.subrange(base as int, base + 20).subrange(16, 20) =~= bytes@.subrange(
                20 * i as int,
                20 * i + 20,
            ).subrange(16, 20));
        }
        out.push(QueryRecord { home, key, seq_id, pos });
        base = base + 20;
        i = i + 1;
    }
    proof {
        lemma_fundamental_div_mod_converse(
            bytes@.len() as int,
            20,
            i as int,
            bytes@.len() - 20 * i,
        );
    }
    out
}

/// Decodes the flat cell array of a shard file body: each cell is four
/// little-endian bytes; a short trailing cell is dropped.
pub fn decode_cells(bytes: &[u8]) -> (r: Vec<u32>)
    ensures
        r@.len() == bytes@.len() as int / 4,
        forall|j: int|
            0 <= j < r@.len() ==> #[trigger] r@[j] == spec_u32_from_le_bytes(
                bytes@.subrange(4 * j, 4 * j + 4),
            ),
{
    let mut out: Vec<u32> = Vec::new();
    let mut base: usize = 0;
    let mut i: usize = 0;
    while bytes.len() - base >= 4
        invariant
            base == 4 * i,
            base <= bytes@.len(),
            out@.len() == i,
            forall|j: int|
                0 <= j < i ==> #[trigger] out@[j] == spec_u32_from_le_bytes(
                    bytes@.subrange(4 * j, 4 * j + 4),
                ),
        decreases bytes@.len() - base,
    {
        let cell = u32_from_le_bytes(slice_subrange(bytes, base, base + 4));
        out.push(cell);
        base = base + 4;
        i = i + 1;
    }
    proof {
        lemma_fundamental_div_mod_converse(bytes@.len() as int, 4, i as int, bytes@.len() - 4 * i);
    }
    out
}

/// Encodes a cell array back to bytes; decoding the image yields the cells.
pub fn encode_cells(cells: &Vec<u32>) -> (r: Vec<u8>)
    ensures
        r@.len() == 4 * cells@.len(),
        forall|j: int|
            0 <= j < cells@.len() ==> r@.subrange(4 * j, 4 * j + 4) == spec_u32_to_le_bytes(
                #[trigger] cells@[j],
            ),
{
    proof {
        lemma_auto_spec_u32_to_from_le_bytes();
    }
    let mut out: Vec<u8> = Vec::new();
    let mut i: usize = 0;
    while i < cells.len()
        invariant
            out@.len() == 4 * i,
            i <= cells@.len(),
            forall|j: int|
                0 <= j < i ==> out@.subrange(4 * j, 4 * j + 4) == spec_u32_to_le_bytes(
                    #[trigger] cells@[j],
                ),
        decreases cells@.len() - i,
    {
        let mut b = u32_to_le_bytes(cells[i]);
        let ghost pre = out@;
        out.append(&mut b);
        proof {
            assert(out@.subrange(4 * i as int, 4 * i + 4) =~= spec_u32_to_le_bytes(
                cells@[i as int],
            ));
            assert forall|j: int| 0 <= j < i implies out@.subrange(4 * j, 4 * j + 4)
                == spec_u32_to_le_bytes(#[trigger] cells@[j]) by {
                assert(out@.subrange(4 * j, 4 * j + 4) =~= pre.subrange(4 * j, 4 * j + 4));
            }
        }
        i = i + 1;
    }
    out
}

} // verus!
