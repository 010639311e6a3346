use vstd::prelude::*;
use crate::taxonomy::{spec_lca, wf_parents, Taxonomy};

verus! {

/// The mask selecting the low `bits` value bits of a 32-bit cell.
pub open spec fn spec_mask_of(bits: u32) -> u32 {
    !(u32::MAX << bits)
}

/// The taxon id stored in a cell; 0 means the cell is empty.
pub open spec fn spec_cell_value(c: u32, mask: u32) -> u32 {
    c & mask
}

/// The partial key stored in a cell: the bits beyond the value field.
pub open spec fn spec_cell_key(c: u32, bits: u32) -> u32 {
    c >> bits
}

/// A compacted cell recovers the partial key and value it was built from.
pub proof fn lemma_compose_fields(key: u32, value: u32, bits: u32)
    requires
        bits < 32,
        value <= spec_mask_of(bits),
        key <= u32::MAX >> bits,
    ensures
        spec_cell_value((key << bits) | value, spec_mask_of(bits)) == value,
        spec_cell_key((key << bits) | value, bits) == key,
{
    assert((((key << bits) | value) & !(u32::MAX << bits)) == value) by (bit_vector)
        requires
            bits < 32u32,
            value <= !(u32::MAX << bits),
            key <= u32::MAX >> bits,
    ;
    assert((((key << bits) | value) >> bits) == key) by (bit_vector)
        requires
            bits < 32u32,
            value <= !(u32::MAX << bits),
            key <= u32::MAX >> bits,
    ;
}

/// How many cells of the shard are occupied (hold a nonzero value).
pub open spec fn spec_occupied(cells: Seq<u32>, mask: u32) -> nat
    decreases cells.len(),
{
    if cells.len() == 0 {
        0
    } else {
        spec_occupied(cells.drop_last(), mask) + if cells.last() & mask != 0 {
            1nat
        } else {
            0nat
        }
    }
}

pub proof fn lemma_occupied_le_len(cells: Seq<u32>, mask: u32)
    ensures
        spec_occupied(cells, mask) <= cells.len(),
    decreases cells.len(),
{
    if cells.len() > 0 {
        lemma_occupied_le_len(cells.drop_last(), mask);
    }
}

pub proof fn lemma_occupied_update(cells: Seq<u32>, mask: u32, i: int, v: u32)
    requires
        0 <= i < cells.len(),
    ensures
        spec_occupied(cells.update(i, v), mask) == spec_occupied(cells, mask) - (
        if cells[i] & mask != 0 {
            1int
        } else {
            0int
        }) + (if v & mask != 0 {
            1int
        } else {
            0int
        }),
    decreases cells.len(),
{
    let upd = cells.update(i, v);
    if i == cells.len() - 1 {
        assert(upd.drop_last() =~= cells.drop_last());
        assert(upd.last() == v);
    } else {
        assert(upd.drop_last() =~= cells.drop_last().update(i, v));
        assert(upd.last() == cells.last());
        lemma_occupied_update(cells.drop_last(), mask, i, v);
        assert(cells.drop_last()[i] == cells[i]);
    }
}

pub proof fn lemma_occupied_lt_len(cells: Seq<u32>, mask: u32, i: int)
    requires
        0 <= i < cells.len(),
        cells[i] & mask == 0,
    ensures
        spec_occupied(cells, mask) < cells.len(),
    decreases cells.len(),
{
    if i == cells.len() - 1 {
        lemma_occupied_le_len(cells.drop_last(), mask);
    } else {
        lemma_occupied_lt_len(cells.drop_last(), mask, i);
        assert(cells.drop_last()[i] == cells[i]);
    }
}

/// Forward linear probe with wraparound: the first slot, starting at `pos`
/// and looking at most `steps` slots, that is empty or holds `key`.
pub open spec fn spec_probe(cells: Seq<u32>, mask: u32, bits: u32, key: u32, pos: int, steps: nat)
    -> Option<int>
    decreases steps,
{
    if steps == 0 {
        None
    } else {
        let c = cells[pos];
        if c & mask == 0 || c >> bits == key {
            Some(pos)
        } else {
            spec_probe(
                cells,
                mask,
                bits,
                key,
                if pos + 1 == cells.len() {
                    0
                } else {
                    pos + 1
                },
                (steps - 1) as nat,
            )
        }
    }
}

#[derive(Debug, Clone, Copy, PartialEq, Eq, Structural)]
pub enum ChtError {
    /// The probe visited every cell without finding the key or an empty
    /// slot: the shard is under-provisioned for its load.
    ProbeExhausted,
    /// The value bit width does not leave room for both a value and a
    /// partial key in a 32-bit cell.
    BadValueBits,
    /// A pending record does not fit the shard: its cell lies outside, its
    /// taxon is empty or too wide, or its key has too many bits.
    InvalidRecord,
}

/// One shard of the compact hash table: a flat array of 32-bit cells, each
/// holding a partial key next to a taxon id of `value_bits` bits.
pub struct CompactHashTable {
    pub cells: Vec<u32>,
    pub value_bits: u32,
    pub value_mask: u32,
    pub occupied: u64,
}

impl CompactHashTable {
    pub open spec fn wf(self) -> bool {
        &&& 0 < self.value_bits < 32
        &&& self.value_mask == spec_mask_of(self.value_bits)
        &&& self.occupied == spec_occupied(self.cells@, self.value_mask)
        &&& self.cells@.len() > 0
    }

    /// Every stored taxon id lies below `limit` (so it indexes a taxonomy
    /// of that many nodes).
    pub open spec fn values_below(self, limit: int) -> bool {
        forall|i: int|
            0 <= i < self.cells@.len() ==> (#[trigger] self.cells@[i]) & self.value_mask == 0 || (
            self.cells@[i] & self.value_mask) < limit
    }

    /// Whether every stored taxon id lies below `limit`, so the shard can
    /// be folded against or resolved with a taxonomy of that many nodes.
    /// A cell that fails is corrupt shard data, to be reported with its
    /// path rather than fed to the fold.
    pub fn values_ok(&self, limit: usize) -> (r: bool)
        ensures
            r == self.values_below(limit as int),
    {
        let n = self.cells.len();
        let mask = self.value_mask;
        let mut i: usize = 0;
        while i < n
            invariant
                n == self.cells@.len(),
                mask == self.value_mask,
                i <= n,
                forall|k: int|
                    0 <= k < i ==> (#[trigger] self.cells@[k]) & mask == 0 || ((self.cells@[k]
                        & mask) as int) < limit,
            decreases n - i,
        {
            let v = self.cells[i] & mask;
            if v != 0 && !((v as usize) < limit) {
                assert(!self.values_below(limit as int));
                return false;
            }
            i = i + 1;
        }
        true
    }

    /// Binds a table to one shard's cell array, counting the cells a
    /// previous build populated.
    pub fn open(cells: Vec<u32>, value_bits: u32) -> (r: Result<CompactHashTable, ChtError>)
        ensures
            match r {
                Ok(t) => {
                    &&& t.wf()
                    &&& t.cells@ == cells@
                    &&& t.value_bits == value_bits
                },
                Err(_) => !(0 < value_bits < 32 && cells@.len() > 0),
            },
    {
        if value_bits == 0 || value_bits >= 32 {
            return Err(ChtError::BadValueBits);
        }
        if cells.len() == 0 {
            return Err(ChtError::BadValueBits);
        }
        let mask: u32 = !(u32::MAX << value_bits);
        let mut occupied: u64 = 0;
        let mut i: usize = 0;
        while i < cells.len()
            invariant
                i <= cells@.len(),
                occupied == spec_occupied(cells@.take(i as int), mask),
                occupied <= i,
            decreases cells@.len() - i,
        {
            proof {
                assert(cells@.take(i + 1).drop_last() =~= cells@.take(i as int));
                assert(cells@.take(i + 1).last() == cells@[i as int]);
            }
            if cells[i] & mask != 0 {
                occupied = occupied + 1;
            }
            i = i + 1;
        }
        proof {
            assert(cells@.take(cells@.len() as int) =~= cells@);
        }
        Ok(CompactHashTable { cells, value_bits, value_mask: mask, occupied })
    }

    /// What a probe starting at `home` returns: the stored taxon on a key
    /// hit, or 0 when the key is absent (an empty cell is reached or the
    /// probe bound is exhausted).
    pub open spec fn spec_lookup(self, key: u32, home: int) -> u32 {
        match spec_probe(
            self.cells@,
            self.value_mask,
            self.value_bits,
            key,
            home,
            self.cells@.len() as nat,
        ) {
            Some(i) => self.cells@[i] & self.value_mask,
            None => 0,
        }
    }

    pub fn lookup(&self, key: u32, home: usize) -> (r: u32)
        requires
            self.wf(),
            home < self.cells@.len(),
        ensures
            r == self.spec_lookup(key, home as int),
    {
        let n = self.cells.len();
        let mask = self.value_mask;
        let bits = self.value_bits;
        let mut pos: usize = home;
        let mut step: usize = 0;
        while step < n
            invariant
                self.wf(),
                n == self.cells@.len(),
                mask == self.value_mask,
                bits == self.value_bits,
                pos < n,
                step <= n,
                spec_probe(self.cells@, mask, bits, key, home as int, n as nat) == spec_probe(
                    self.cells@,
                    mask,
                    bits,
                    key,
                    pos as int,
                    (n - step) as nat,
                ),
            decreases n - step,
        {
            let c = self.cells[pos];
            if c & mask == 0 {
                return 0;
            }
            if c >> bits == key {
                return c & mask;
            }
            pos = pos + 1;
            if pos == n {
                pos = 0;
            }
            step = step + 1;
        }
        0
    }

    /// The table after one insert-or-merge, with the effective value and
    /// whether a fresh cell was claimed; `None` when the probe bound was
    /// exhausted.
    pub open spec fn spec_insert_result(
        pre: Seq<u32>,
        mask: u32,
        bits: u32,
        parents: Seq<u32>,
        key: u32,
        home: int,
        value: u32,
    ) -> Option<(Seq<u32>, u32, bool)> {
        match spec_probe(pre, mask, bits, key, home, pre.len() as nat) {
            None => None,
            Some(i) => {
                let c = pre[i];
                if c & mask == 0 {
                    Some((pre.update(i, (key << bits) | value), value, true))
                } else {
                    let merged = spec_lca(parents, c & mask, value);
                    Some((pre.update(i, (key << bits) | merged), merged, false))
                }
            },
        }
    }

    /// Claims the first free probed cell for `(key, value)`, or merges
    /// `value` into a cell that already holds `key` by replacing the stored
    /// taxon with the LCA of the two, so a colliding minimizer never gets a
    /// single wrong lineage. Probe exhaustion is an explicit error.
    pub fn insert_or_merge(&mut self, key: u32, home: usize, value: u32, tax: &Taxonomy) -> (r:
        Result<(u32, bool), ChtError>)
        requires
            old(self).wf(),
            home < old(self).cells@.len(),
            0 < value <= spec_mask_of(old(self).value_bits),
            key <= u32::MAX >> old(self).value_bits,
            tax.wf(),
            (value as int) < tax@.len(),
            old(self).values_below(tax@.len() as int),
        ensures
            final(self).wf(),
            final(self).value_bits == old(self).value_bits,
            final(self).value_mask == old(self).value_mask,
            final(self).cells@.len() == old(self).cells@.len(),
            final(self).values_below(tax@.len() as int),
            match r {
                Ok(p) => Self::spec_insert_result(
                    old(self).cells@,
                    old(self).value_mask,
                    old(self).value_bits,
                    tax@,
                    key,
                    home as int,
                    value,
                ) == Some((final(self).cells@, p.0, p.1)) && final(self).occupied == old(
                    self,
                ).occupied + (if p.1 {
                    1int
                } else {
                    0int
                }),
                Err(_) => Self::spec_insert_result(
                    old(self).cells@,
                    old(self).value_mask,
                    old(self).value_bits,
                    tax@,
                    key,
                    home as int,
                    value,
                ) is None && final(self).cells@ == old(self).cells@ && final(self).occupied == old(
                    self,
                ).occupied,
            },
    {
        let n = self.cells.len();
        let mask = self.value_mask;
        let bits = self.value_bits;
        let mut pos: usize = home;
        let mut step: usize = 0;
        while step < n
            invariant
                *self == *old(self),
                self.wf(),
                tax.wf(),
                n == self.cells@.len(),
                mask == self.value_mask,
                bits == self.value_bits,
                0 < value <= spec_mask_of(bits),
                key <= u32::MAX >> bits,
                (value as int) < tax@.len(),
                self.values_below(tax@.len() as int),
                home < n,
                pos < n,
                step <= n,
                spec_probe(self.cells@, mask, bits, key, home as int, n as nat) == spec_probe(
                    self.cells@,
                    mask,
                    bits,
                    key,
                    pos as int,
                    (n - step) as nat,
                ),
            decreases n - step,
        {
            let c = self.cells[pos];
            if c & mask == 0 {
                let composed = (key << bits) | value;
                proof {
                    lemma_compose_fields(key, value, bits);
                    lemma_occupied_update(self.cells@, mask, pos as int, composed);
                    lemma_occupied_lt_len(self.cells@, mask, pos as int);
                }
                self.cells.set(pos, composed);
                self.occupied = self.occupied + 1;
                return Ok((value, true));
            }
            if c >> bits == key {
                let stored = c & mask;
                assert(stored != 0 && stored <= spec_mask_of(bits)) by (bit_vector)
                    requires
                        stored == c & mask,
                        mask == spec_mask_of(bits),
                        c & mask != 0,
                ;
                let merged = tax.lca(stored, value);
                proof {
                    crate::taxonomy::lemma_lca_bounds(tax@, stored, value);
                    lemma_compose_fields(key, merged, bits);
                    lemma_occupied_update(self.cells@, mask, pos as int, (key << bits) | merged);
                }
                let composed = (key << bits) | merged;
                self.cells.set(pos, composed);
                return Ok((merged, false));
            }
            pos = pos + 1;
            if pos == n {
                pos = 0;
            }
            step = step + 1;
        }
        Err(ChtError::ProbeExhausted)
    }
}

/// Inserting a pair twice into an initially empty shard leaves exactly the
/// cells, occupied count and effective value that inserting it once does.
pub proof fn lemma_insert_idempotent_on_empty(
    pre: Seq<u32>,
    mask: u32,
    bits: u32,
    parents: Seq<u32>,
    key: u32,
    home: int,
    value: u32,
)
    requires
        0 < bits < 32,
        mask == spec_mask_of(bits),
        0 <= home < pre.len(),
        forall|i: int| 0 <= i < pre.len() ==> #[trigger] pre[i] == 0,
        0 < value <= spec_mask_of(bits),
        key <= u32::MAX >> bits,
        wf_parents(parents),
        (value as int) < parents.len(),
    ensures
        ({
            let once = CompactHashTable::spec_insert_result(
                pre,
                mask,
                bits,
                parents,
                key,
                home,
                value,
            );
            &&& once is Some
            &&& once->Some_0.1 == value
            &&& once->Some_0.2 == true
            &&& CompactHashTable::spec_insert_result(
                once->Some_0.0,
                mask,
                bits,
                parents,
                key,
                home,
                value,
            ) == Some((once->Some_0.0, value, false))
        }),
{
    let c0 = pre[home];
    assert(c0 & mask == 0) by (bit_vector)
        requires
            c0 == 0u32,
    ;
    assert(spec_probe(pre, mask, bits, key, home, pre.len() as nat) == Some(home));
    lemma_compose_fields(key, value, bits);
    let composed = (key << bits) | value;
    let cells1 = pre.update(home, composed);
    assert(CompactHashTable::spec_insert_result(pre, mask, bits, parents, key, home, value)
        == Some((cells1, value, true)));
    assert(cells1[home] == composed);
    assert(composed & mask != 0 && composed >> bits == key);
    assert(spec_probe(cells1, mask, bits, key, home, cells1.len() as nat) == Some(home));
    crate::taxonomy::lemma_lca_self(parents, value);
    assert(spec_lca(parents, cells1[home] & mask, value) == value);
    assert(cells1.update(home, (key << bits) | value) =~= cells1);
}

} // verus!
