use vstd::prelude::*;
use crate::hll::{
    sketch_clone, sketch_count, sketch_estimate, sketch_insert, sketch_items, sketch_merge,
    sketch_new, sketch_precision, MinimizerSketch,
};

verus! {

#[derive(Debug, Clone, Copy, PartialEq, Eq, Structural)]
pub enum CounterError {
    /// The estimator precision lies outside the supported range.
    BadPrecision,
    /// The two estimators were built with different precision parameters.
    IncompatiblePrecision,
}

/// Per-taxon aggregate: how many reads were called to the taxon, and a
/// sketch of the distinct minimizers observed for it.
pub struct ReadCounts {
    pub read_count: u64,
    pub precision: u8,
    pub sketch: MinimizerSketch,
}

impl ReadCounts {
    pub open spec fn wf(self) -> bool {
        &&& 4 <= self.precision <= 18
        &&& sketch_precision(self.sketch) == self.precision
    }

    /// The set of minimizers this counter has recorded.
    pub open spec fn minimizers(self) -> Set<u64> {
        sketch_items(self.sketch)
    }

    pub fn new(precision: u8) -> (r: Result<ReadCounts, CounterError>)
        ensures
            match r {
                Ok(c) => {
                    &&& c.wf()
                    &&& c.precision == precision
                    &&& c.read_count == 0
                    &&& c.minimizers() == Set::<u64>::empty()
                },
                Err(_) => !(4 <= precision <= 18),
            },
    {
        if precision < 4 || precision > 18 {
            return Err(CounterError::BadPrecision);
        }
        Ok(ReadCounts { read_count: 0, precision, sketch: sketch_new(precision) })
    }

    /// A fresh counter recording the same reads and minimizers.
    pub fn duplicate(&self) -> (r: ReadCounts)
        requires
            self.wf(),
        ensures
            r.wf(),
            r.read_count == self.read_count,
            r.precision == self.precision,
            r.minimizers() == self.minimizers(),
    {
        ReadCounts {
            read_count: self.read_count,
            precision: self.precision,
            sketch: sketch_clone(&self.sketch),
        }
    }

    pub fn increment_read_count(&mut self)
        requires
            old(self).wf(),
            old(self).read_count < u64::MAX,
        ensures
            final(self).wf(),
            final(self).read_count == old(self).read_count + 1,
            final(self).precision == old(self).precision,
            final(self).minimizers() == old(self).minimizers(),
    {
        self.read_count = self.read_count + 1;
    }

    pub fn add_minimizer(&mut self, m: u64)
        requires
            old(self).wf(),
        ensures
            final(self).wf(),
            final(self).read_count == old(self).read_count,
            final(self).precision == old(self).precision,
            final(self).minimizers() == old(self).minimizers().insert(m),
    {
        sketch_insert(&mut self.sketch, m);
    }

    /// Merges another counter in: read counts add, and the minimizer
    /// sketches union. Counters built with different precisions cannot be
    /// merged; that is an explicit error with no partial effect.
    pub fn merge(&mut self, other: &ReadCounts) -> (r: Result<(), CounterError>)
        requires
            old(self).wf(),
            other.wf(),
            old(self).read_count + other.read_count <= u64::MAX,
        ensures
            final(self).wf(),
            final(self).precision == old(self).precision,
            match r {
                Ok(_) => {
                    &&& old(self).precision == other.precision
                    &&& final(self).read_count == old(self).read_count + other.read_count
                    &&& final(self).minimizers() == old(self).minimizers().union(
                        other.minimizers(),
                    )
                },
                Err(_) => {
                    &&& old(self).precision != other.precision
                    &&& final(self).read_count == old(self).read_count
                    &&& final(self).minimizers() == old(self).minimizers()
                },
            },
    {
        if self.precision != other.precision {
            return Err(CounterError::IncompatiblePrecision);
        }
        sketch_merge(&mut self.sketch, &other.sketch);
        self.read_count = self.read_count + other.read_count;
        Ok(())
    }

    /// The estimated number of distinct minimizers recorded: exactly what
    /// the estimator computes from the sketch as it stood. A counter that
    /// recorded nothing reports zero.
    pub fn distinct_estimate(&mut self) -> (r: u64)
        requires
            old(self).wf(),
        ensures
            final(self).wf(),
            final(self).read_count == old(self).read_count,
            final(self).precision == old(self).precision,
            final(self).minimizers() == old(self).minimizers(),
            r == sketch_estimate(old(self).sketch),
            old(self).minimizers().is_empty() ==> r == 0,
    {
        sketch_count(&mut self.sketch)
    }
}

/// The abstract content of one per-taxon counter: its read count and its
/// set of recorded minimizers.
pub open spec fn entry_val(rc: ReadCounts) -> (int, Set<u64>) {
    (rc.read_count as int, rc.minimizers())
}

/// The mapping a counter table denotes: taxon id to read count and
/// recorded minimizer set.
pub open spec fn spec_map_of(entries: Seq<(u64, ReadCounts)>) -> Map<u64, (int, Set<u64>)>
    decreases entries.len(),
{
    if entries.len() == 0 {
        Map::empty()
    } else {
        spec_map_of(entries.drop_last()).insert(
            entries.last().0,
            entry_val(entries.last().1),
        )
    }
}

pub open spec fn entry_keys_distinct(entries: Seq<(u64, ReadCounts)>) -> bool {
    forall|i: int, j: int|
        0 <= i < j < entries.len() ==> (#[trigger] entries[i]).0 != (#[trigger] entries[j]).0
}

/// A taxon with no entry is not in the denoted mapping.
pub proof fn lemma_map_of_absent(entries: Seq<(u64, ReadCounts)>, k: u64)
    requires
        forall|i: int| 0 <= i < entries.len() ==> (#[trigger] entries[i]).0 != k,
    ensures
        !spec_map_of(entries).dom().contains(k),
    decreases entries.len(),
{
    if entries.len() > 0 {
        assert forall|i: int|
            0 <= i < entries.drop_last().len() implies (#[trigger] entries.drop_last()[i]).0
            != k by {
            assert(entries.drop_last()[i] == entries[i]);
        }
        lemma_map_of_absent(entries.drop_last(), k);
    }
}

/// With distinct keys, each entry is in the mapping with its own content.
pub proof fn lemma_map_of_entry(entries: Seq<(u64, ReadCounts)>, i: int)
    requires
        entry_keys_distinct(entries),
        0 <= i < entries.len(),
    ensures
        spec_map_of(entries).dom().contains(entries[i].0),
        spec_map_of(entries)[entries[i].0] == entry_val(entries[i].1),
    decreases entries.len(),
{
    if i == entries.len() - 1 {
    } else {
        assert(entry_keys_distinct(entries.drop_last())) by {
            assert forall|a: int, b: int|
                0 <= a < b < entries.drop_last().len() implies (#[trigger] entries.drop_last()[
            a]).0 != (#[trigger] entries.drop_last()[b]).0 by {
                assert(entries.drop_last()[a] == entries[a] && entries.drop_last()[b]
                    == entries[b]);
            }
        }
        assert(entries.drop_last()[i] == entries[i]);
        lemma_map_of_entry(entries.drop_last(), i);
        assert(entries[i].0 != entries.last().0);
    }
}

/// Every key of the mapping names some entry.
pub proof fn lemma_map_of_dom(entries: Seq<(u64, ReadCounts)>, k: u64)
    requires
        spec_map_of(entries).dom().contains(k),
    ensures
        exists|i: int| 0 <= i < entries.len() && (#[trigger] entries[i]).0 == k,
    decreases entries.len(),
{
    if entries.len() > 0 {
        if entries.last().0 == k {
            assert(entries[entries.len() - 1].0 == k);
        } else {
            lemma_map_of_dom(entries.drop_last(), k);
            let i = choose|i: int|
                0 <= i < entries.drop_last().len() && (#[trigger] entries.drop_last()[i]).0 == k;
            assert(entries[i].0 == k);
        }
    }
}

/// Replacing one entry's counter replaces only its key's content.
pub proof fn lemma_map_of_update(entries: Seq<(u64, ReadCounts)>, i: int, rc: ReadCounts)
    requires
        entry_keys_distinct(entries),
        0 <= i < entries.len(),
    ensures
        spec_map_of(entries.update(i, (entries[i].0, rc))) == spec_map_of(entries).insert(
            entries[i].0,
            entry_val(rc),
        ),
    decreases entries.len(),
{
    let k = entries[i].0;
    let upd = entries.update(i, (k, rc));
    if i == entries.len() - 1 {
        assert(upd.drop_last() =~= entries.drop_last());
        assert(upd.last() == (k, rc));
        assert(spec_map_of(upd) =~~= spec_map_of(entries).insert(k, entry_val(rc)));
    } else {
        assert(entry_keys_distinct(entries.drop_last())) by {
            assert forall|a: int, b: int|
                0 <= a < b < entries.drop_last().len() implies (#[trigger] entries.drop_last()[
            a]).0 != (#[trigger] entries.drop_last()[b]).0 by {
                assert(entries.drop_last()[a] == entries[a] && entries.drop_last()[b]
                    == entries[b]);
            }
        }
        assert(entries.drop_last()[i] == entries[i]);
        lemma_map_of_update(entries.drop_last(), i, rc);
        assert(upd.drop_last() =~= entries.drop_last().update(i, (k, rc)));
        assert(upd.last() == entries.last());
        assert(k != entries.last().0);
        assert(spec_map_of(upd) =~~= spec_map_of(entries).insert(k, entry_val(rc)));
    }
}

/// The pointwise combination of two counter mappings: read counts add and
/// minimizer sets union where both sides hold the taxon; elsewhere the one
/// side's content is kept.
pub open spec fn spec_combine(
    m1: Map<u64, (int, Set<u64>)>,
    m2: Map<u64, (int, Set<u64>)>,
) -> Map<u64, (int, Set<u64>)> {
    Map::new(
        |k: u64| m1.dom().contains(k) || m2.dom().contains(k),
        |k: u64|
            if m1.dom().contains(k) && m2.dom().contains(k) {
                (m1[k].0 + m2[k].0, m1[k].1.union(m2[k].1))
            } else if m1.dom().contains(k) {
                m1[k]
            } else {
                m2[k]
            },
    )
}

/// The set of values in a minimizer list.
pub open spec fn set_of(s: Seq<u64>) -> Set<u64>
    decreases s.len(),
{
    if s.len() == 0 {
        Set::empty()
    } else {
        set_of(s.drop_last()).insert(s.last())
    }
}

/// Per-taxon counters for one run, shard or sample: every entry holds one
/// taxon's read count and minimizer sketch, and all sketches share one
/// precision so the table can always merge with itself.
pub struct TaxonCounters {
    pub precision: u8,
    pub entries: Vec<(u64, ReadCounts)>,
}

impl View for TaxonCounters {
    type V = Map<u64, (int, Set<u64>)>;

    open spec fn view(&self) -> Map<u64, (int, Set<u64>)> {
        spec_map_of(self.entries@)
    }
}

impl TaxonCounters {
    pub open spec fn wf(self) -> bool {
        &&& 4 <= self.precision <= 18
        &&& entry_keys_distinct(self.entries@)
        &&& forall|i: int|
            0 <= i < self.entries@.len() ==> (#[trigger] self.entries@[i]).1.wf()
                && self.entries@[i].1.precision == self.precision
    }

    pub fn new(precision: u8) -> (r: Result<TaxonCounters, CounterError>)
        ensures
            match r {
                Ok(c) => c.wf() && c.precision == precision && c@ == Map::<
                    u64,
                    (int, Set<u64>),
                >::empty(),
                Err(_) => !(4 <= precision <= 18),
            },
    {
        if precision < 4 || precision > 18 {
            return Err(CounterError::BadPrecision);
        }
        Ok(TaxonCounters { precision, entries: Vec::new() })
    }

    /// The index of the taxon's entry, if it has one.
    fn find(&self, taxon: u64) -> (r: Option<usize>)
        ensures
            match r {
                Some(i) => i < self.entries@.len() && self.entries@[i as int].0 == taxon,
                None => forall|i: int|
                    0 <= i < self.entries@.len() ==> (#[trigger] self.entries@[i]).0 != taxon,
            },
    {
        let n = self.entries.len();
        let mut i: usize = 0;
        while i < n
            invariant
                n == self.entries@.len(),
                i <= n,
                forall|k: int| 0 <= k < i ==> (#[trigger] self.entries@[k]).0 != taxon,
            decreases n - i,
        {
            if self.entries[i].0 == taxon {
                return Some(i);
            }
            i = i + 1;
        }
        None
    }

    /// The taxon's read count, 0 when it was never called.
    pub fn get_read_count(&self, taxon: u64) -> (r: u64)
        requires
            self.wf(),
        ensures
            r as int == if self@.dom().contains(taxon) {
                self@[taxon].0
            } else {
                0
            },
    {
        match self.find(taxon) {
            Some(i) => {
                proof {
                    lemma_map_of_entry(self.entries@, i as int);
                }
                self.entries[i].1.read_count
            },
            None => {
                proof {
                    lemma_map_of_absent(self.entries@, taxon);
                }
                0
            },
        }
    }

    /// The estimated number of distinct minimizers recorded for the
    /// taxon: exactly what the estimator computes from the taxon's stored
    /// sketch, or 0 when the taxon was never called. The counters
    /// themselves are unchanged.
    pub fn distinct_estimate(&mut self, taxon: u64) -> (r: u64)
        requires
            old(self).wf(),
        ensures
            final(self).wf(),
            final(self).precision == old(self).precision,
            final(self)@ == old(self)@,
            !old(self)@.dom().contains(taxon) ==> r == 0,
            old(self)@.dom().contains(taxon) ==> exists|i: int|
                0 <= i < old(self).entries@.len() && (#[trigger] old(self).entries@[i]).0 == taxon
                    && r == sketch_estimate(old(self).entries@[i].1.sketch),
            old(self)@.dom().contains(taxon) && old(self)@[taxon].1.is_empty() ==> r == 0,
    {
        match self.find(taxon) {
            Some(i) => {
                proof {
                    lemma_map_of_entry(self.entries@, i as int);
                }
                let ghost pre = self.entries@;
                let mut pair = self.entries.remove(i);
                let est = pair.1.distinct_estimate();
                self.entries.insert(i, pair);
                proof {
                    assert(self.entries@ =~= pre.update(i as int, (pre[i as int].0, pair.1)));
                    lemma_map_of_update(pre, i as int, pair.1);
                    assert(spec_map_of(self.entries@) =~~= spec_map_of(pre));
                    assert(old(self).entries@[i as int].0 == taxon && est == sketch_estimate(
                        old(self).entries@[i as int].1.sketch,
                    ));
                }
                est
            },
            None => {
                proof {
                    lemma_map_of_absent(self.entries@, taxon);
                }
                0
            },
        }
    }

    /// Applies one classified sequence: one more read for the called
    /// taxon, and its distinct minimizers recorded into the taxon's
    /// sketch.
    pub fn record_classification(&mut self, taxon: u64, minimizers: &Vec<u64>)
        requires
            old(self).wf(),
            old(self)@.dom().contains(taxon) ==> old(self)@[taxon].0 + 1 <= u64::MAX,
        ensures
            final(self).wf(),
            final(self).precision == old(self).precision,
            final(self)@ == old(self)@.insert(
                taxon,
                if old(self)@.dom().contains(taxon) {
                    (old(self)@[taxon].0 + 1, old(self)@[taxon].1.union(set_of(minimizers@)))
                } else {
                    (1int, set_of(minimizers@))
                },
            ),
    {
        let ghost pre = self.entries@;
        let (i, mut pair): (usize, ReadCounts) = match self.find(taxon) {
            Some(i) => {
                proof {
                    lemma_map_of_entry(self.entries@, i as int);
                }
                let pair = self.entries.remove(i);
                (i, pair.1)
            },
            None => {
                proof {
                    lemma_map_of_absent(self.entries@, taxon);
                }
                let rc = match ReadCounts::new(self.precision) {
                    Ok(rc) => rc,
                    Err(_) => {
                        proof {
                            assert(false);
                        }
                        return ;
                    },
                };
                (self.entries.len(), rc)
            },
        };
        let ghost existed = pre.len() != self.entries@.len();
        pair.increment_read_count();
        let mut l: usize = 0;
        proof {
            assert(set_of(minimizers@.take(0)) =~= Set::<u64>::empty());
            assert(pair.minimizers().union(set_of(minimizers@.take(0))) =~= pair.minimizers());
        }
        let ghost base = pair.minimizers();
        while l < minimizers.len()
            invariant
                l <= minimizers@.len(),
                pair.wf(),
                pair.precision == old(self).precision,
                pair.read_count == (if old(self)@.dom().contains(taxon) {
                    old(self)@[taxon].0 + 1
                } else {
                    1int
                }),
                pair.minimizers() == base.union(set_of(minimizers@.take(l as int))),
            decreases minimizers@.len() - l,
        {
            let m = minimizers[l];
            pair.add_minimizer(m);
            proof {
                assert(minimizers@.take(l + 1).drop_last() =~= minimizers@.take(l as int));
                assert(minimizers@.take(l + 1).last() == m);
                assert(base.union(set_of(minimizers@.take(l + 1))) =~= base.union(
                    set_of(minimizers@.take(l as int)),
                ).insert(m));
            }
            l = l + 1;
        }
        proof {
            assert(minimizers@.take(minimizers@.len() as int) =~= minimizers@);
        }
        if i < self.entries.len() {
            self.entries.insert(i, (taxon, pair));
        } else {
            self.entries.push((taxon, pair));
        }
        proof {
            if existed {
                assert(self.entries@ =~= pre.update(i as int, (taxon, pair)));
                lemma_map_of_update(pre, i as int, pair);
            } else {
                assert(self.entries@ =~= pre.push((taxon, pair)));
                assert(self.entries@.drop_last() =~= pre);
                assert(base =~= Set::<u64>::empty());
                assert(base.union(set_of(minimizers@)) =~= set_of(minimizers@));
            }
            assert(final(self)@ =~~= old(self)@.insert(
                taxon,
                if old(self)@.dom().contains(taxon) {
                    (old(self)@[taxon].0 + 1, old(self)@[taxon].1.union(set_of(minimizers@)))
                } else {
                    (1int, set_of(minimizers@))
                },
            ));
        }
    }

    /// Merges another counter table in: for every taxon, read counts add
    /// and minimizer sketches union. Tables built with different
    /// precisions cannot be merged; that is an explicit error with no
    /// partial effect.
    pub fn merge(&mut self, other: &TaxonCounters) -> (r: Result<(), CounterError>)
        requires
            old(self).wf(),
            other.wf(),
            forall|k: u64|
                old(self)@.dom().contains(k) && other@.dom().contains(k) ==> (
                #[trigger] old(self)@[k]).0 + (#[trigger] other@[k]).0 <= u64::MAX,
        ensures
            final(self).wf(),
            final(self).precision == old(self).precision,
            match r {
                Ok(_) => old(self).precision == other.precision && final(self)@ == spec_combine(
                    old(self)@,
                    other@,
                ),
                Err(_) => old(self).precision != other.precision && final(self)@ == old(self)@,
            },
    {
        if self.precision != other.precision {
            return Err(CounterError::IncompatiblePrecision);
        }
        let ghost m1 = self@;
        let ghost m2 = other@;
        let n = other.entries.len();
        let mut j: usize = 0;
        proof {
            assert(spec_map_of(other.entries@.take(0)) =~= Map::<u64, (int, Set<u64>)>::empty());
            assert(spec_combine(m1, spec_map_of(other.entries@.take(0))) =~~= m1);
        }
        while j < n
            invariant
                self.wf(),
                other.wf(),
                self.precision == other.precision,
                self.precision == old(self).precision,
                n == other.entries@.len(),
                j <= n,
                m1 == old(self)@,
                m2 == other@,
                self@ == spec_combine(m1, spec_map_of(other.entries@.take(j as int))),
                forall|k: u64|
                    m1.dom().contains(k) && m2.dom().contains(k) ==> (#[trigger] m1[k]).0 + (
                    #[trigger] m2[k]).0 <= u64::MAX,
            decreases n - j,
        {
            let key = other.entries[j].0;
            let ghost oth_rc = other.entries@[j as int].1;
            proof {
                lemma_map_of_entry(other.entries@, j as int);
                assert forall|i: int|
                    0 <= i < j implies (#[trigger] other.entries@.take(j as int)[i]).0 != key by {
                    assert(other.entries@.take(j as int)[i] == other.entries@[i]);
                }
                lemma_map_of_absent(other.entries@.take(j as int), key);
                assert(other.entries@.take(j + 1).drop_last() =~= other.entries@.take(j as int));
                assert(other.entries@.take(j + 1).last() == other.entries@[j as int]);
            }
            let ghost cur = self@;
            match self.find(key) {
                Some(i) => {
                    proof {
                        lemma_map_of_entry(self.entries@, i as int);
                        assert(cur[key] == entry_val(self.entries@[i as int].1));
                        assert(m1.dom().contains(key)) by {
                            if !m1.dom().contains(key) {
                                assert(cur[key] == spec_map_of(other.entries@.take(j as int))[key]);
                            }
                        }
                        assert(cur[key] == m1[key]);
                        assert(m2.dom().contains(key) && m2[key] == entry_val(oth_rc));
                    }
                    let ghost pre = self.entries@;
                    let mut pair = self.entries.remove(i);
                    let merged = pair.1.merge(&other.entries[j].1);
                    match merged {
                        Ok(_) => {},
                        Err(_) => {
                            proof {
                                assert(false);
                            }
                            return Err(CounterError::IncompatiblePrecision);
                        },
                    }
                    self.entries.insert(i, pair);
                    proof {
                        assert(self.entries@ =~= pre.update(i as int, (key, pair.1)));
                        lemma_map_of_update(pre, i as int, pair.1);
                        assert(spec_map_of(self.entries@) =~~= spec_combine(
                            m1,
                            spec_map_of(other.entries@.take(j + 1)),
                        ));
                    }
                },
                None => {
                    proof {
                        lemma_map_of_absent(self.entries@, key);
                        assert(!m1.dom().contains(key)) by {
                            if m1.dom().contains(key) {
                                assert(cur.dom().contains(key));
                            }
                        }
                    }
                    let ghost pre = self.entries@;
                    let copy = other.entries[j].1.duplicate();
                    self.entries.push((key, copy));
                    proof {
                        assert(self.entries@.drop_last() =~= pre);
                        assert(spec_map_of(self.entries@) =~~= spec_combine(
                            m1,
                            spec_map_of(other.entries@.take(j + 1)),
                        ));
                    }
                },
            }
            j = j + 1;
        }
        proof {
            assert(other.entries@.take(n as int) =~= other.entries@);
        }
        Ok(())
    }
}

/// Combining counter mappings is commutative: merge order cannot change
/// the aggregate.
pub proof fn lemma_combine_commutative(m1: Map<u64, (int, Set<u64>)>, m2: Map<u64, (int, Set<u64>)>)
    ensures
        spec_combine(m1, m2) == spec_combine(m2, m1),
{
    assert(spec_combine(m1, m2) =~~= spec_combine(m2, m1));
}

/// Combining counter mappings is associative: merge grouping cannot
/// change the aggregate.
pub proof fn lemma_combine_associative(
    m1: Map<u64, (int, Set<u64>)>,
    m2: Map<u64, (int, Set<u64>)>,
    m3: Map<u64, (int, Set<u64>)>,
)
    ensures
        spec_combine(spec_combine(m1, m2), m3) == spec_combine(m1, spec_combine(m2, m3)),
{
    assert(spec_combine(spec_combine(m1, m2), m3) =~~= spec_combine(m1, spec_combine(m2, m3)));
}

} // verus!
