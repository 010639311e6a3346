use vstd::prelude::*;
use vstd::arithmetic::mul::lemma_mul_inequality;
use vstd::bytes::{
    lemma_auto_spec_u64_to_from_le_bytes, spec_u64_from_le_bytes, spec_u64_to_le_bytes,
    u64_from_le_bytes, u64_to_le_bytes,
};
use vstd::slice::slice_subrange;
use crate::config::{lemma_ceil_div, spec_ceil_div, ConfigError, LEGACY_HEADER_BYTES};

verus! {

/// Bytes per stored cell.
pub const CELL_BYTES: u64 = 4;

/// Bytes of the self-describing header that prefixes each shard file.
pub const SHARD_HEADER_BYTES: usize = 16;

/// One shard's slice of the legacy monolithic index file: which byte range
/// of the source holds its cells, and how many cells that is.
#[derive(Clone, Copy, PartialEq, Eq, Structural, Debug)]
pub struct ShardSlice {
    /// 1-based shard number.
    pub index: u64,
    /// First source byte of this shard's cells.
    pub offset: u64,
    /// Length of the copied byte range.
    pub length: u64,
    /// Number of cells in this shard.
    pub cell_count: u64,
}

/// Cuts a monolithic index of `capacity` cells into shards of
/// `shard_capacity` cells. The slices cover the cell array after the fixed
/// preamble contiguously and without overlap; every shard but the last is
/// full, and the last holds the remainder.
pub fn plan_shards(capacity: u64, shard_capacity: u64) -> (r: Vec<ShardSlice>)
    requires
        0 < shard_capacity <= capacity,
        CELL_BYTES * capacity + LEGACY_HEADER_BYTES <= u64::MAX,
    ensures
        r@.len() == spec_ceil_div(capacity as int, shard_capacity as int),
        forall|i: int| 0 <= i < r@.len() ==> (#[trigger] r@[i]).index == i + 1,
        forall|i: int|
            0 <= i < r@.len() ==> (#[trigger] r@[i]).length == CELL_BYTES * r@[i].cell_count,
        forall|i: int|
            0 <= i < r@.len() - 1 ==> (#[trigger] r@[i]).cell_count == shard_capacity,
        r@.len() > 0,
        r@[r@.len() - 1].cell_count == capacity - (r@.len() - 1) * shard_capacity,
        r@[0].offset == LEGACY_HEADER_BYTES as u64,
        forall|i: int|
            0 <= i < r@.len() - 1 ==> (#[trigger] r@[i + 1]).offset == r@[i].offset + r@[i].length,
        r@[r@.len() - 1].offset + r@[r@.len() - 1].length == LEGACY_HEADER_BYTES + CELL_BYTES
            * capacity,
{
    proof {
        lemma_ceil_div(capacity as int, shard_capacity as int);
    }
    let count = crate::config::shard_count_for(capacity, shard_capacity);
    let mut out: Vec<ShardSlice> = Vec::new();
    let mut idx: u64 = 0;
    let mut cells_done: u64 = 0;
    let mut cur_offset: u64 = LEGACY_HEADER_BYTES as u64;
    while idx < count
        invariant
            0 < shard_capacity <= capacity,
            CELL_BYTES * capacity + LEGACY_HEADER_BYTES <= u64::MAX,
            count == spec_ceil_div(capacity as int, shard_capacity as int),
            count * shard_capacity >= capacity,
            (count - 1) * shard_capacity < capacity,
            idx <= count,
            out@.len() == idx,
            idx < count ==> cells_done == idx * shard_capacity && cells_done < capacity,
            idx == count ==> cells_done == capacity,
            cur_offset == LEGACY_HEADER_BYTES + CELL_BYTES * cells_done,
            forall|i: int| 0 <= i < out@.len() ==> (#[trigger] out@[i]).index == i + 1,
            forall|i: int|
                0 <= i < out@.len() ==> (#[trigger] out@[i]).length == CELL_BYTES
                    * out@[i].cell_count,
            forall|i: int|
                0 <= i < out@.len() - 1 ==> (#[trigger] out@[i]).cell_count == shard_capacity,
            out@.len() > 0 ==> out@[out@.len() - 1].cell_count == cells_done - (out@.len() - 1)
                * shard_capacity,
            out@.len() > 0 ==> out@[0].offset == LEGACY_HEADER_BYTES as u64,
            forall|i: int|
                0 <= i < out@.len() - 1 ==> (#[trigger] out@[i + 1]).offset == out@[i].offset
                    + out@[i].length,
            out@.len() > 0 ==> out@[out@.len() - 1].offset + out@[out@.len() - 1].length
                == cur_offset,
        decreases count - idx,
    {
        let remaining = capacity - cells_done;
        let cells = if remaining < shard_capacity {
            remaining
        } else {
            shard_capacity
        };
        out.push(ShardSlice {
            index: idx + 1,
            offset: cur_offset,
            length: CELL_BYTES * cells,
            cell_count: cells,
        });
        proof {
            if idx + 1 < count {
                lemma_mul_inequality(idx as int + 1, count as int - 1, shard_capacity as int);
            }
            lemma_mul_inequality(idx as int + 1, count as int, shard_capacity as int);
            assert((idx as int + 1) * (shard_capacity as int) == (idx as int) * (
            shard_capacity as int) + shard_capacity as int) by (nonlinear_arith);
            assert((idx as int) * (shard_capacity as int) == (idx as int - 1) * (
            shard_capacity as int) + shard_capacity as int) by (nonlinear_arith);
        }
        cells_done = cells_done + cells;
        cur_offset = cur_offset + CELL_BYTES * cells;
        idx = idx + 1;
    }
    out
}

/// The little-endian image of a shard or chunk header: the 1-based shard
/// number followed by the number of cells (or pending records) behind it.
pub open spec fn spec_shard_header(index: u64, cell_count: u64) -> Seq<u8> {
    spec_u64_to_le_bytes(index) + spec_u64_to_le_bytes(cell_count)
}

pub fn encode_shard_header(index: u64, cell_count: u64) -> (r: Vec<u8>)
    ensures
        r@ == spec_shard_header(index, cell_count),
        r@.len() == SHARD_HEADER_BYTES,
{
    proof {
        lemma_auto_spec_u64_to_from_le_bytes();
    }
    let mut out = u64_to_le_bytes(index);
    let mut b1 = u64_to_le_bytes(cell_count);
    out.append(&mut b1);
    out
}

/// Reads a shard or chunk header back. A byte string shorter than the
/// header is malformed; later bytes are the payload and are ignored here.
pub fn parse_shard_header(bytes: &[u8]) -> (r: Result<(u64, u64), ConfigError>)
    ensures
        match r {
            Ok((index, cell_count)) => bytes@.len() >= SHARD_HEADER_BYTES && index
                == spec_u64_from_le_bytes(bytes@.subrange(0, 8)) && cell_count
                == spec_u64_from_le_bytes(bytes@.subrange(8, 16)),
            Err(_) => bytes@.len() < SHARD_HEADER_BYTES,
        },
{
    if bytes.len() < SHARD_HEADER_BYTES {
        return Err(ConfigError::BadLength);
    }
    let index = u64_from_le_bytes(slice_subrange(bytes, 0, 8));
    let cell_count = u64_from_le_bytes(slice_subrange(bytes, 8, 16));
    Ok((index, cell_count))
}

/// A shard header round-trips through its byte image.
pub proof fn lemma_shard_header_round_trip(index: u64, cell_count: u64)
    ensures
        spec_u64_from_le_bytes(spec_shard_header(index, cell_count).subrange(0, 8)) == index,
        spec_u64_from_le_bytes(spec_shard_header(index, cell_count).subrange(8, 16)) == cell_count,
{
    lemma_auto_spec_u64_to_from_le_bytes();
    assert(spec_shard_header(index, cell_count).subrange(0, 8) =~= spec_u64_to_le_bytes(index));
    assert(spec_shard_header(index, cell_count).subrange(8, 16) =~= spec_u64_to_le_bytes(
        cell_count,
    ));
}

} // verus!
