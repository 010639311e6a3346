use vstd::prelude::*;
use vstd::arithmetic::div_mod::{lemma_div_multiples_vanish_fancy, lemma_fundamental_div_mod};
use vstd::bytes::{
    lemma_auto_spec_u64_to_from_le_bytes, spec_u64_from_le_bytes, spec_u64_to_le_bytes,
    u64_from_le_bytes, u64_to_le_bytes,
};
use vstd::slice::slice_subrange;

verus! {

/// Number of bytes of a serialized `IndexConfig`.
pub const CONFIG_BYTES: usize = 40;

/// Number of bytes of the legacy monolithic index preamble.
pub const LEGACY_HEADER_BYTES: usize = 32;

/// Ceiling division over mathematical integers.
pub open spec fn spec_ceil_div(c: int, s: int) -> int {
    (c + s - 1) / s
}

/// `(c + s - 1) / s` is the ceiling of `c / s`.
pub proof fn lemma_ceil_div(c: int, s: int)
    requires
        0 < s,
        0 <= c,
    ensures
        spec_ceil_div(c, s) == c / s + if c % s == 0 { 0int } else { 1int },
        spec_ceil_div(c, s) * s >= c,
        c > 0 ==> (spec_ceil_div(c, s) - 1) * s < c,
{
    let q = c / s;
    let r = c % s;
    lemma_fundamental_div_mod(c, s);
    if r == 0 {
        assert(c + s - 1 == s * q + (s - 1));
        lemma_div_multiples_vanish_fancy(q, s - 1, s);
    } else {
        assert(c + s - 1 == s * (q + 1) + (r - 1)) by {
            assert(s * (q + 1) == s * q + s) by (nonlinear_arith);
        }
        lemma_div_multiples_vanish_fancy(q + 1, r - 1, s);
    }
    assert(spec_ceil_div(c, s) * s >= c) by (nonlinear_arith)
        requires
            0 < s,
            0 <= r < s,
            c == s * q + r,
            spec_ceil_div(c, s) == q + if r == 0 { 0int } else { 1int },
    ;
    if c > 0 {
        assert((spec_ceil_div(c, s) - 1) * s < c) by (nonlinear_arith)
            requires
                0 < s,
                0 <= r < s,
                c == s * q + r,
                c > 0,
                spec_ceil_div(c, s) == q + if r == 0 { 0int } else { 1int },
        ;
    }
}

/// The number of shards needed to cover `capacity` cells with shards of
/// `shard_capacity` cells each.
pub fn shard_count_for(capacity: u64, shard_capacity: u64) -> (r: u64)
    requires
        shard_capacity > 0,
    ensures
        r == spec_ceil_div(capacity as int, shard_capacity as int),
        r * shard_capacity >= capacity,
        capacity > 0 ==> (r - 1) * shard_capacity < capacity,
{
    proof {
        lemma_ceil_div(capacity as int, shard_capacity as int);
    }
    let q = capacity / shard_capacity;
    let r = capacity % shard_capacity;
    if r == 0 {
        q
    } else {
        proof {
            lemma_fundamental_div_mod(capacity as int, shard_capacity as int);
            assert(q < u64::MAX) by (nonlinear_arith)
                requires
                    capacity as int == (shard_capacity as int) * (q as int) + (r as int),
                    0 < r,
                    r < shard_capacity,
                    capacity <= u64::MAX,
            ;
        }
        q + 1
    }
}

#[derive(Debug)]
pub enum ConfigError {
    /// The byte string has the wrong length for this format.
    BadLength,
    /// A parsed or supplied field breaks a layout invariant.
    BadField,
}

/// Index-wide layout metadata: how many cells the whole table has, how the
/// cells are cut into shards, how a cell's bits are split between partial
/// key and value, and how many cells a finished build populated.
#[derive(Clone, Copy, PartialEq, Eq, Structural, Debug)]
pub struct IndexConfig {
    pub capacity: u64,
    pub shard_capacity: u64,
    pub shard_count: u64,
    pub value_bits: u64,
    pub populated: u64,
}

impl IndexConfig {
    /// Layout invariant: the shards cover the capacity exactly as ceiling
    /// division demands, the value field fits a 32-bit cell with room for a
    /// partial key, and no more cells are populated than exist.
    pub open spec fn wf(self) -> bool {
        &&& 0 < self.shard_capacity <= self.capacity
        &&& self.shard_count == spec_ceil_div(self.capacity as int, self.shard_capacity as int)
        &&& 0 < self.value_bits < 32
        &&& self.populated <= self.capacity
    }

    /// The mask selecting the value bits of a cell; fixed by the file
    /// format's bit width, never derived from the stored taxa.
    pub open spec fn spec_value_mask(self) -> u32 {
        (((1u64 << self.value_bits) - 1) as u32)
    }

    pub fn value_mask(&self) -> (r: u32)
        requires
            self.value_bits < 32,
        ensures
            r == self.spec_value_mask(),
    {
        let bits = self.value_bits;
        proof {
            assert(1u64 <= (1u64 << bits) && (1u64 << bits) <= 0x1_0000_0000u64) by (bit_vector)
                requires
                    bits < 32u64,
            ;
        }
        ((1u64 << bits) - 1) as u32
    }

    /// Builds a config, deriving the shard count, and rejecting any set of
    /// fields that breaks the layout invariant.
    pub fn new(capacity: u64, shard_capacity: u64, value_bits: u64, populated: u64) -> (r:
        Result<IndexConfig, ConfigError>)
        ensures
            match r {
                Ok(c) => {
                    &&& c.wf()
                    &&& c.capacity == capacity
                    &&& c.shard_capacity == shard_capacity
                    &&& c.value_bits == value_bits
                    &&& c.populated == populated
                },
                Err(_) => !(0 < shard_capacity <= capacity && 0 < value_bits < 32 && populated
                    <= capacity),
            },
    {
        if shard_capacity == 0 || shard_capacity > capacity {
            return Err(ConfigError::BadField);
        }
        if value_bits == 0 || value_bits >= 32 {
            return Err(ConfigError::BadField);
        }
        if populated > capacity {
            return Err(ConfigError::BadField);
        }
        let shard_count = shard_count_for(capacity, shard_capacity);
        Ok(IndexConfig { capacity, shard_capacity, shard_count, value_bits, populated })
    }

    /// Records the populated-cell total of a finished build pass: the one
    /// mutation a config sees after creation. A count beyond the capacity
    /// is rejected.
    pub fn with_populated(&self, populated: u64) -> (r: Result<IndexConfig, ConfigError>)
        requires
            self.wf(),
        ensures
            match r {
                Ok(c) => {
                    &&& populated <= self.capacity
                    &&& c.wf()
                    &&& c.capacity == self.capacity
                    &&& c.shard_capacity == self.shard_capacity
                    &&& c.shard_count == self.shard_count
                    &&& c.value_bits == self.value_bits
                    &&& c.populated == populated
                },
                Err(_) => populated > self.capacity,
            },
    {
        if populated > self.capacity {
            return Err(ConfigError::BadField);
        }
        Ok(
            IndexConfig {
                capacity: self.capacity,
                shard_capacity: self.shard_capacity,
                shard_count: self.shard_count,
                value_bits: self.value_bits,
                populated,
            },
        )
    }

    /// The fixed-width little-endian image of a config.
    pub open spec fn spec_serialize(self) -> Seq<u8> {
        spec_u64_to_le_bytes(self.capacity) + spec_u64_to_le_bytes(self.shard_capacity)
            + spec_u64_to_le_bytes(self.shard_count) + spec_u64_to_le_bytes(self.value_bits)
            + spec_u64_to_le_bytes(self.populated)
    }

    pub fn serialize(&self) -> (r: Vec<u8>)
        ensures
            r@ == self.spec_serialize(),
            r@.len() == CONFIG_BYTES,
    {
        proof {
            lemma_auto_spec_u64_to_from_le_bytes();
        }
        let mut out = u64_to_le_bytes(self.capacity);
        let mut b1 = u64_to_le_bytes(self.shard_capacity);
        let mut b2 = u64_to_le_bytes(self.shard_count);
        let mut b3 = u64_to_le_bytes(self.value_bits);
        let mut b4 = u64_to_le_bytes(self.populated);
        out.append(&mut b1);
        out.append(&mut b2);
        out.append(&mut b3);
        out.append(&mut b4);
        out
    }

    /// What a well-formed 40-byte image denotes, if anything.
    pub open spec fn spec_deserialize(b: Seq<u8>) -> Option<IndexConfig> {
        if b.len() != CONFIG_BYTES {
            None
        } else {
            let c = IndexConfig {
                capacity: spec_u64_from_le_bytes(b.subrange(0, 8)),
                shard_capacity: spec_u64_from_le_bytes(b.subrange(8, 16)),
                shard_count: spec_u64_from_le_bytes(b.subrange(16, 24)),
                value_bits: spec_u64_from_le_bytes(b.subrange(24, 32)),
                populated: spec_u64_from_le_bytes(b.subrange(32, 40)),
            };
            if c.wf() {
                Some(c)
            } else {
                None
            }
        }
    }

    /// Parses a previously written config file, rejecting a wrong length, a
    /// shard count that is not the ceiling the other fields demand, or any
    /// other broken layout invariant.
    pub fn deserialize(bytes: &[u8]) -> (r: Result<IndexConfig, ConfigError>)
        ensures
            match r {
                Ok(c) => Self::spec_deserialize(bytes@) == Some(c) && c.wf(),
                Err(_) => Self::spec_deserialize(bytes@) is None,
            },
    {
        if bytes.len() != CONFIG_BYTES {
            return Err(ConfigError::BadLength);
        }
        let capacity = u64_from_le_bytes(slice_subrange(bytes, 0, 8));
        let shard_capacity = u64_from_le_bytes(slice_subrange(bytes, 8, 16));
        let shard_count = u64_from_le_bytes(slice_subrange(bytes, 16, 24));
        let value_bits = u64_from_le_bytes(slice_subrange(bytes, 24, 32));
        let populated = u64_from_le_bytes(slice_subrange(bytes, 32, 40));
        if shard_capacity == 0 || shard_capacity > capacity {
            return Err(ConfigError::BadField);
        }
        if value_bits == 0 || value_bits >= 32 {
            return Err(ConfigError::BadField);
        }
        if populated > capacity {
            return Err(ConfigError::BadField);
        }
        let expected = shard_count_for(capacity, shard_capacity);
        if shard_count != expected {
            return Err(ConfigError::BadField);
        }
        Ok(IndexConfig { capacity, shard_capacity, shard_count, value_bits, populated })
    }
}

/// Serializing a well-formed config and parsing the image yields the config
/// back.
pub proof fn lemma_config_round_trip(c: IndexConfig)
    requires
        c.wf(),
    ensures
        IndexConfig::spec_deserialize(c.spec_serialize()) == Some(c),
{
    lemma_auto_spec_u64_to_from_le_bytes();
    let b = c.spec_serialize();
    assert(b.subrange(0, 8) =~= spec_u64_to_le_bytes(c.capacity));
    assert(b.subrange(8, 16) =~= spec_u64_to_le_bytes(c.shard_capacity));
    assert(b.subrange(16, 24) =~= spec_u64_to_le_bytes(c.shard_count));
    assert(b.subrange(24, 32) =~= spec_u64_to_le_bytes(c.value_bits));
    assert(b.subrange(32, 40) =~= spec_u64_to_le_bytes(c.populated));
}

/// Parsing a 40-byte image and serializing the result reproduces the image
/// byte for byte.
pub proof fn lemma_config_round_trip_bytes(b: Seq<u8>, c: IndexConfig)
    requires
        IndexConfig::spec_deserialize(b) == Some(c),
    ensures
        c.spec_serialize() =~= b,
{
    lemma_auto_spec_u64_to_from_le_bytes();
    assert(c.spec_serialize() =~= b.subrange(0, 8) + b.subrange(8, 16) + b.subrange(16, 24)
        + b.subrange(24, 32) + b.subrange(32, 40));
}

/// The four fields of the legacy monolithic index preamble.
#[derive(Clone, Copy, PartialEq, Eq, Structural, Debug)]
pub struct LegacyHeader {
    pub capacity: u64,
    pub populated: u64,
    pub key_bits: u64,
    pub value_bits: u64,
}

pub open spec fn spec_parse_legacy_header(b: Seq<u8>) -> Option<LegacyHeader> {
    if b.len() < LEGACY_HEADER_BYTES {
        None
    } else {
        Some(
            LegacyHeader {
                capacity: spec_u64_from_le_bytes(b.subrange(0, 8)),
                populated: spec_u64_from_le_bytes(b.subrange(8, 16)),
                key_bits: spec_u64_from_le_bytes(b.subrange(16, 24)),
                value_bits: spec_u64_from_le_bytes(b.subrange(24, 32)),
            },
        )
    }
}

/// Reads the preamble of a legacy monolithic index file. A byte string
/// shorter than the preamble is malformed; extra bytes after it (the cell
/// array) are ignored here.
pub fn parse_legacy_header(bytes: &[u8]) -> (r: Result<LegacyHeader, ConfigError>)
    ensures
        match r {
            Ok(h) => spec_parse_legacy_header(bytes@) == Some(h),
            Err(_) => spec_parse_legacy_header(bytes@) is None,
        },
{
    if bytes.len() < LEGACY_HEADER_BYTES {
        return Err(ConfigError::BadLength);
    }
    let capacity = u64_from_le_bytes(slice_subrange(bytes, 0, 8));
    let populated = u64_from_le_bytes(slice_subrange(bytes, 8, 16));
    let key_bits = u64_from_le_bytes(slice_subrange(bytes, 16, 24));
    let value_bits = u64_from_le_bytes(slice_subrange(bytes, 24, 32));
    Ok(LegacyHeader { capacity, populated, key_bits, value_bits })
}

} // verus!
