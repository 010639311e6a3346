use vstd::prelude::*;
use vstd::relations::total_ordering;
use vstd::seq_lib::lemma_sorted_unique;
use crate::codec::HitRecord;
use crate::config::{lemma_ceil_div, spec_ceil_div};
use crate::taxonomy::{
    lemma_chain_decreasing, lemma_chain_head, spec_chain, wf_parents, Taxonomy,
};
use vstd::arithmetic::div_mod::lemma_div_multiples_vanish_fancy;

verus! {

/// The order hit records are resolved in: by position in the read, with the
/// value and sequence id breaking ties so that the order is total.
pub open spec fn spec_row_le(a: HitRecord, b: HitRecord) -> bool {
    if a.pos != b.pos {
        a.pos < b.pos
    } else if a.value != b.value {
        a.value < b.value
    } else {
        a.seq_id <= b.seq_id
    }
}

pub open spec fn row_leq() -> spec_fn(HitRecord, HitRecord) -> bool {
    |a: HitRecord, b: HitRecord| spec_row_le(a, b)
}

pub proof fn lemma_row_le_total()
    ensures
        total_ordering(row_leq()),
{
}

/// Executable comparison agreeing with `spec_row_le`.
pub fn row_le(a: &HitRecord, b: &HitRecord) -> (r: bool)
    ensures
        r == spec_row_le(*a, *b),
{
    if a.pos != b.pos {
        a.pos < b.pos
    } else if a.value != b.value {
        a.value < b.value
    } else {
        a.seq_id <= b.seq_id
    }
}

/// Sorts hit records into resolution order. The result is the one sorted
/// arrangement of the input multiset, so any two batches holding the same
/// records sort to the same sequence.
pub fn sort_rows(rows: &Vec<HitRecord>) -> (r: Vec<HitRecord>)
    ensures
        r@ == rows@.sort_by(row_leq()),
{
    let mut out: Vec<HitRecord> = Vec::new();
    let mut i: usize = 0;
    proof {
        lemma_row_le_total();
        rows@.lemma_sort_by_ensures(row_leq());
        assert(out@ =~= rows@.take(0));
    }
    while i < rows.len()
        invariant
            i <= rows@.len(),
            vstd::relations::sorted_by(out@, row_leq()),
            out@.to_multiset() == rows@.take(i as int).to_multiset(),
            out@.len() == i,
        decreases rows@.len() - i,
    {
        let x = rows[i];
        let mut p: usize = 0;
        while p < out.len() && row_le(&out[p], &x)
            invariant
                p <= out@.len(),
                forall|k: int| 0 <= k < p ==> spec_row_le(#[trigger] out@[k], x),
            decreases out@.len() - p,
        {
            p = p + 1;
        }
        let ghost pre = out@;
        out.insert(p, x);
        proof {
            broadcast use vstd::seq_lib::to_multiset_insert;
            broadcast use vstd::seq_lib::to_multiset_build;

            assert(rows@.take(i + 1).drop_last() =~= rows@.take(i as int));
            assert(rows@.take(i + 1) =~= rows@.take(i as int).push(x));
            assert(out@.to_multiset() == rows@.take(i + 1).to_multiset());
            if p < pre.len() {
                assert(!spec_row_le(pre[p as int], x));
                assert(spec_row_le(x, pre[p as int])) by {
                    lemma_row_le_total();
                }
            }
            assert forall|k: int, l: int| 0 <= k < l < out@.len() implies spec_row_le(
                #[trigger] out@[k],
                #[trigger] out@[l],
            ) by {
                lemma_row_le_total();
                if l < p {
                    assert(row_leq()(pre[k], pre[l]));
                } else if k < p && l == p {
                    assert(row_leq()(pre[k], x));
                } else if k < p && l > p {
                    assert(out@[l] == pre[l - 1]);
                    assert(row_leq()(pre[k], pre[l - 1]));
                } else if k == p {
                    assert(out@[l] == pre[l - 1]);
                    assert(spec_row_le(x, pre[p as int]));
                    if l - 1 > p {
                        assert(row_leq()(pre[p as int], pre[l - 1]));
                    }
                } else {
                    assert(out@[k] == pre[k - 1] && out@[l] == pre[l - 1]);
                    assert(row_leq()(pre[k - 1], pre[l - 1]));
                }
            }
        }
        i = i + 1;
    }
    proof {
        assert(rows@.take(rows@.len() as int) =~= rows@);
        lemma_row_le_total();
        rows@.lemma_sort_by_ensures(row_leq());
        lemma_sorted_unique(out@, rows@.sort_by(row_leq()), row_leq());
    }
    out
}

/// The taxon each sorted record votes for: its cell value under the value
/// mask.
pub open spec fn spec_taxa_of(rows: Seq<HitRecord>, mask: u32) -> Seq<u32> {
    rows.map_values(|r: HitRecord| r.value & mask)
}

pub fn taxa_of(rows: &Vec<HitRecord>, mask: u32) -> (r: Vec<u32>)
    ensures
        r@ == spec_taxa_of(rows@, mask),
{
    let mut out: Vec<u32> = Vec::new();
    let mut i: usize = 0;
    while i < rows.len()
        invariant
            i <= rows@.len(),
            out@ =~= spec_taxa_of(rows@.take(i as int), mask),
        decreases rows@.len() - i,
    {
        out.push(rows[i].value & mask);
        proof {
            assert(spec_taxa_of(rows@.take(i + 1), mask) =~= spec_taxa_of(
                rows@.take(i as int),
                mask,
            ).push(rows@[i as int].value & mask));
        }
        i = i + 1;
    }
    proof {
        assert(rows@.take(rows@.len() as int) =~= rows@);
    }
    out
}

/// Length of the maximal constant prefix of `s`.
pub open spec fn spec_run_len(s: Seq<u32>) -> nat
    decreases s.len(),
{
    if s.len() == 0 {
        0
    } else if s.len() >= 2 && s[1] == s[0] {
        1 + spec_run_len(s.drop_first())
    } else {
        1
    }
}

pub proof fn lemma_run_len_bounds(s: Seq<u32>)
    requires
        s.len() > 0,
    ensures
        1 <= spec_run_len(s) <= s.len(),
        forall|k: int| 0 <= k < spec_run_len(s) ==> #[trigger] s[k] == s[0],
    decreases s.len(),
{
    if s.len() >= 2 && s[1] == s[0] {
        lemma_run_len_bounds(s.drop_first());
        assert forall|k: int| 0 <= k < spec_run_len(s) implies #[trigger] s[k] == s[0] by {
            if k > 0 {
                assert(s.drop_first()[k - 1] == s[k]);
            }
        }
    }
}

/// If the first `m` elements all equal the head and the element after them
/// differs (or the sequence ends), the run length is exactly `m`.
pub proof fn lemma_run_len_eq(s: Seq<u32>, m: int)
    requires
        0 < m <= s.len(),
        forall|k: int| 0 <= k < m ==> #[trigger] s[k] == s[0],
        m == s.len() || s[m] != s[0],
    ensures
        spec_run_len(s) == m,
    decreases s.len(),
{
    if s.len() >= 2 && s[1] == s[0] {
        assert(m >= 2) by {
            if m == 1 {
                assert(s[1] != s[0]);
            }
        }
        lemma_run_len_eq(s.drop_first(), m - 1);
    } else {
        if m >= 2 {
            assert(s[1] == s[0]);
        }
    }
}

/// The hit groups of a taxa sequence: maximal runs of consecutive records
/// sharing the same nonzero taxon, each with its run length as weight.
/// Records with taxon 0 (no hit) separate runs and form no group.
pub open spec fn spec_groups(s: Seq<u32>) -> Seq<(u32, nat)>
    decreases s.len(),
    via spec_groups_decreases
{
    if s.len() == 0 {
        Seq::empty()
    } else if s[0] == 0 {
        spec_groups(s.drop_first())
    } else {
        seq![(s[0], spec_run_len(s))] + spec_groups(s.skip(spec_run_len(s) as int))
    }
}

#[via_fn]
proof fn spec_groups_decreases(s: Seq<u32>) {
    if s.len() > 0 && s[0] != 0 {
        lemma_run_len_bounds(s);
    }
}

/// Total weight carried by a group sequence.
pub open spec fn spec_total_weight(groups: Seq<(u32, nat)>) -> nat
    decreases groups.len(),
{
    if groups.len() == 0 {
        0
    } else {
        spec_total_weight(groups.drop_last()) + groups.last().1
    }
}

/// Every group's taxon is a nonzero element of the taxa sequence, every
/// weight is at least one, and the weights sum to at most the number of
/// records.
pub proof fn lemma_groups_sound(s: Seq<u32>)
    ensures
        forall|i: int|
            0 <= i < spec_groups(s).len() ==> (#[trigger] spec_groups(s)[i]).0 != 0 && s.contains(
                spec_groups(s)[i].0,
            ) && spec_groups(s)[i].1 >= 1,
        spec_total_weight(spec_groups(s)) <= s.len(),
    decreases s.len(),
{
    if s.len() == 0 {
    } else if s[0] == 0 {
        lemma_groups_sound(s.drop_first());
        assert forall|i: int| 0 <= i < spec_groups(s).len() implies (#[trigger] spec_groups(
            s,
        )[i]).0 != 0 && s.contains(spec_groups(s)[i].0) && spec_groups(s)[i].1 >= 1 by {
            let rest = s.drop_first();
            assert(spec_groups(s)[i] == spec_groups(rest)[i]);
            let t = spec_groups(rest)[i].0;
            assert(rest.contains(t));
            let k = choose|k: int| 0 <= k < rest.len() && rest[k] == t;
            assert(s[k + 1] == t);
        }
    } else {
        let m = spec_run_len(s);
        lemma_run_len_bounds(s);
        let tail = s.skip(m as int);
        lemma_groups_sound(tail);
        lemma_total_weight_prepend(s[0], m, spec_groups(tail));
        assert forall|i: int| 0 <= i < spec_groups(s).len() implies (#[trigger] spec_groups(
            s,
        )[i]).0 != 0 && s.contains(spec_groups(s)[i].0) && spec_groups(s)[i].1 >= 1 by {
            if i == 0 {
                assert(spec_groups(s)[0] == (s[0], m));
                assert(s.contains(s[0]));
            } else {
                assert(spec_groups(s)[i] == spec_groups(tail)[i - 1]);
                let t = spec_groups(tail)[i - 1].0;
                assert(tail.contains(t));
                let k = choose|k: int| 0 <= k < tail.len() && tail[k] == t;
                assert(s[k + m] == t);
            }
        }
    }
}

/// Prepending one group adds its weight to the total.
pub proof fn lemma_total_weight_prepend(t: u32, w: nat, groups: Seq<(u32, nat)>)
    ensures
        spec_total_weight(seq![(t, w)] + groups) == w + spec_total_weight(groups),
    decreases groups.len(),
{
    let whole = seq![(t, w)] + groups;
    if groups.len() == 0 {
        assert(whole =~= seq![(t, w)]);
        assert(spec_total_weight(whole) == spec_total_weight(whole.drop_last()) + w);
        assert(whole.drop_last() =~= Seq::empty());
    } else {
        assert(whole.drop_last() =~= seq![(t, w)] + groups.drop_last());
        assert(whole.last() == groups.last());
        lemma_total_weight_prepend(t, w, groups.drop_last());
    }
}

/// Computes the hit groups of a taxa sequence.
pub fn hit_groups(taxa: &Vec<u32>) -> (r: Vec<(u32, u64)>)
    ensures
        spec_groups(taxa@) == r@.map_values(|p: (u32, u64)| (p.0, p.1 as nat)),
{
    let n = taxa.len();
    let mut out: Vec<(u32, u64)> = Vec::new();
    let mut i: usize = 0;
    proof {
        assert(taxa@.skip(0) =~= taxa@);
    }
    while i < n
        invariant
            i <= n,
            n == taxa@.len(),
            spec_groups(taxa@) == out@.map_values(|p: (u32, u64)| (p.0, p.1 as nat))
                + spec_groups(taxa@.skip(i as int)),
        decreases n - i,
    {
        let ghost gmap = |p: (u32, u64)| (p.0, p.1 as nat);
        if taxa[i] == 0 {
            proof {
                assert(taxa@.skip(i as int).drop_first() =~= taxa@.skip(i + 1));
            }
            i = i + 1;
        } else {
            let t = taxa[i];
            let mut j: usize = i + 1;
            while j < n && taxa[j] == t
                invariant
                    i < j <= n,
                    n == taxa@.len(),
                    t == taxa@[i as int],
                    forall|k: int| i <= k < j ==> #[trigger] taxa@[k] == t,
                decreases n - j,
            {
                j = j + 1;
            }
            proof {
                let run = taxa@.skip(i as int);
                assert forall|k: int| 0 <= k < j - i implies #[trigger] run[k] == run[0] by {
                    assert(run[k] == taxa@[k + i]);
                }
                assert(j - i == run.len() || run[j - i] != run[0]) by {
                    if j < n {
                        assert(run[j - i] == taxa@[j as int]);
                    }
                }
                lemma_run_len_eq(run, j - i);
                assert(run.skip(j - i) =~= taxa@.skip(j as int));
                assert(spec_groups(run) == seq![(t, (j - i) as nat)] + spec_groups(
                    taxa@.skip(j as int),
                ));
                assert((out@ + seq![(t, (j - i) as u64)]).map_values(gmap) =~= out@.map_values(gmap)
                    + seq![(t, (j - i) as nat)]);
                assert(out@.map_values(gmap) + spec_groups(taxa@.skip(i as int)) == (out@.map_values(
                    gmap,
                ) + seq![(t, (j - i) as nat)]) + spec_groups(taxa@.skip(j as int)));
            }
            out.push((t, (j - i) as u64));
            proof {
                assert(out@.map_values(gmap) =~= out@.drop_last().map_values(gmap) + seq![(t, (j
                    - i) as nat)]);
            }
            i = j;
        }
    }
    proof {
        assert(taxa@.skip(n as int) =~= Seq::<u32>::empty());
        assert(spec_groups(taxa@) =~= out@.map_values(|p: (u32, u64)| (p.0, p.1 as nat)));
    }
    out
}

/// The vote a taxon accumulates: the weight of every hit group whose
/// taxon's ancestor chain passes through it.
pub open spec fn spec_score(groups: Seq<(u32, nat)>, parents: Seq<u32>, t: u32) -> nat
    decreases groups.len(),
{
    if groups.len() == 0 {
        0
    } else {
        spec_score(groups.drop_last(), parents, t) + if spec_chain(
            parents,
            groups.last().0,
        ).contains(t) {
            groups.last().1
        } else {
            0
        }
    }
}

/// A score never exceeds the total weight of the groups.
pub proof fn lemma_score_le_total(groups: Seq<(u32, nat)>, parents: Seq<u32>, t: u32)
    ensures
        spec_score(groups, parents, t) <= spec_total_weight(groups),
    decreases groups.len(),
{
    if groups.len() > 0 {
        lemma_score_le_total(groups.drop_last(), parents, t);
    }
}

/// Sum of the scores recorded in a vote accumulator for taxon `t`.
pub open spec fn spec_acc_score(acc: Seq<(u32, u64)>, t: u32) -> nat
    decreases acc.len(),
{
    if acc.len() == 0 {
        0
    } else {
        spec_acc_score(acc.drop_last(), t) + if acc.last().0 == t {
            acc.last().1 as nat
        } else {
            0
        }
    }
}

pub open spec fn acc_keys_distinct(acc: Seq<(u32, u64)>) -> bool {
    forall|i: int, j: int|
        0 <= i < j < acc.len() ==> (#[trigger] acc[i]).0 != (#[trigger] acc[j]).0
}

/// Whether the accumulator holds an entry for taxon `t`.
pub open spec fn acc_has_key(acc: Seq<(u32, u64)>, t: u32) -> bool {
    exists|i: int| 0 <= i < acc.len() && (#[trigger] acc[i]).0 == t
}

/// With distinct keys, an entry's stored weight is exactly its taxon's
/// accumulated score.
pub proof fn lemma_acc_entry_score(acc: Seq<(u32, u64)>, i: int)
    requires
        acc_keys_distinct(acc),
        0 <= i < acc.len(),
    ensures
        spec_acc_score(acc, acc[i].0) == acc[i].1,
    decreases acc.len(),
{
    if i == acc.len() - 1 {
        assert forall|k: int| 0 <= k < acc.drop_last().len() implies (#[trigger] acc.drop_last()[
        k]).0 != acc[i].0 by {
            assert(acc.drop_last()[k] == acc[k]);
        }
        lemma_acc_absent(acc.drop_last(), acc[i].0);
    } else {
        assert(acc_keys_distinct(acc.drop_last())) by {
            assert forall|k: int, l: int| 0 <= k < l < acc.drop_last().len() implies (
            #[trigger] acc.drop_last()[k]).0 != (#[trigger] acc.drop_last()[l]).0 by {
                assert(acc.drop_last()[k] == acc[k] && acc.drop_last()[l] == acc[l]);
            }
        }
        lemma_acc_entry_score(acc.drop_last(), i);
        assert(acc.drop_last()[i] == acc[i]);
    }
}

/// A taxon with no entry has score zero.
pub proof fn lemma_acc_absent(acc: Seq<(u32, u64)>, t: u32)
    requires
        forall|i: int| 0 <= i < acc.len() ==> (#[trigger] acc[i]).0 != t,
    ensures
        spec_acc_score(acc, t) == 0,
    decreases acc.len(),
{
    if acc.len() > 0 {
        lemma_acc_absent(acc.drop_last(), t);
    }
}

/// Adds `w` to `taxon`'s accumulated vote, leaving every other taxon's
/// score unchanged.
fn add_weight(acc: &mut Vec<(u32, u64)>, taxon: u32, w: u64)
    requires
        acc_keys_distinct(old(acc)@),
        spec_acc_score(old(acc)@, taxon) + w <= u64::MAX,
        w >= 1,
        forall|i: int| 0 <= i < old(acc)@.len() ==> (#[trigger] old(acc)@[i]).1 >= 1,
    ensures
        acc_keys_distinct(final(acc)@),
        forall|i: int| 0 <= i < final(acc)@.len() ==> (#[trigger] final(acc)@[i]).1 >= 1,
        forall|t: u32|
            spec_acc_score(final(acc)@, t) == spec_acc_score(old(acc)@, t) + if t == taxon {
                w as nat
            } else {
                0
            },
        forall|t: u32|
            #[trigger] acc_has_key(final(acc)@, t) <==> (t == taxon || acc_has_key(old(acc)@, t)),
{
    let n = acc.len();
    let mut i: usize = 0;
    while i < n
        invariant
            acc@ == old(acc)@,
            acc_keys_distinct(acc@),
            spec_acc_score(acc@, taxon) + w <= u64::MAX,
            w >= 1,
            forall|k: int| 0 <= k < acc@.len() ==> (#[trigger] acc@[k]).1 >= 1,
            n == acc@.len(),
            i <= n,
            forall|k: int| 0 <= k < i ==> (#[trigger] acc@[k]).0 != taxon,
        decreases n - i,
    {
        if acc[i].0 == taxon {
            proof {
                lemma_acc_entry_score(acc@, i as int);
                lemma_acc_update(acc@, i as int, w, taxon);
            }
            let ghost pre = acc@;
            let cur = acc[i].1;
            acc.set(i, (taxon, cur + w));
            proof {
                assert(forall|k: int|
                    0 <= k < acc@.len() ==> (#[trigger] acc@[k]).0 == pre[k].0);
                assert forall|t: u32| #[trigger]
                    acc_has_key(acc@, t) <==> (t == taxon || acc_has_key(pre, t)) by {
                    if acc_has_key(acc@, t) {
                        let k = choose|k: int| 0 <= k < acc@.len() && (#[trigger] acc@[k]).0 == t;
                        assert(pre[k].0 == t);
                    }
                    if acc_has_key(pre, t) {
                        let k = choose|k: int| 0 <= k < pre.len() && (#[trigger] pre[k]).0 == t;
                        assert(acc@[k].0 == t);
                    }
                }
            }
            return ;
        }
        i = i + 1;
    }
    proof {
        lemma_acc_absent(acc@, taxon);
    }
    let ghost pre = acc@;
    acc.push((taxon, w));
    proof {
        assert forall|t: u32| spec_acc_score(acc@, t) == spec_acc_score(pre, t) + (if t == taxon {
            w as nat
        } else {
            0
        }) by {
            assert(acc@.drop_last() =~= pre);
        }
        assert forall|t: u32| #[trigger]
            acc_has_key(acc@, t) <==> (t == taxon || acc_has_key(pre, t)) by {
            if acc_has_key(acc@, t) {
                let i = choose|i: int| 0 <= i < acc@.len() && (#[trigger] acc@[i]).0 == t;
                if i < pre.len() {
                    assert(pre[i].0 == t);
                }
            }
            if t == taxon {
                assert(acc@[acc@.len() - 1].0 == t);
            }
            if acc_has_key(pre, t) {
                let i = choose|i: int| 0 <= i < pre.len() && (#[trigger] pre[i]).0 == t;
                assert(acc@[i].0 == t);
            }
        }
    }
}

/// A prefix of a group sequence carries at most the whole sequence's
/// weight.
pub proof fn lemma_total_weight_mono(s: Seq<(u32, nat)>, j: int)
    requires
        0 <= j <= s.len(),
    ensures
        spec_total_weight(s.take(j)) <= spec_total_weight(s),
    decreases s.len(),
{
    if j == s.len() {
        assert(s.take(j) =~= s);
    } else {
        lemma_total_weight_mono(s.drop_last(), j);
        assert(s.drop_last().take(j) =~= s.take(j));
    }
}

/// The view of an executable group vector at the specification level.
pub open spec fn gview(groups: Seq<(u32, u64)>) -> Seq<(u32, nat)> {
    groups.map_values(|p: (u32, u64)| (p.0, p.1 as nat))
}

/// Accumulates every hit group's weight onto each ancestor of its taxon,
/// so that afterwards each taxon's accumulated vote is exactly its score.
pub fn vote_groups(groups: &Vec<(u32, u64)>, tax: &Taxonomy) -> (acc: Vec<(u32, u64)>)
    requires
        tax.wf(),
        forall|i: int|
            0 <= i < groups@.len() ==> (#[trigger] groups@[i]).0 != 0 && (groups@[i].0 as int)
                < tax@.len() && groups@[i].1 >= 1,
        spec_total_weight(gview(groups@)) <= u64::MAX,
    ensures
        acc_keys_distinct(acc@),
        forall|i: int| 0 <= i < acc@.len() ==> (#[trigger] acc@[i]).1 >= 1,
        forall|t: u32|
            #[trigger] spec_acc_score(acc@, t) == spec_score(gview(groups@), tax@, t),
        forall|t: u32|
            #[trigger] acc_has_key(acc@, t) ==> t != 0 && (t as int) < tax@.len(),
{
    let ghost gv = gview(groups@);
    let mut acc: Vec<(u32, u64)> = Vec::new();
    let mut gi: usize = 0;
    proof {
        assert(gv.take(0) =~= Seq::<(u32, nat)>::empty());
    }
    while gi < groups.len()
        invariant
            tax.wf(),
            gv == gview(groups@),
            forall|i: int|
                0 <= i < groups@.len() ==> (#[trigger] groups@[i]).0 != 0 && (groups@[i].0 as int)
                    < tax@.len() && groups@[i].1 >= 1,
            spec_total_weight(gv) <= u64::MAX,
            gi <= groups@.len(),
            acc_keys_distinct(acc@),
            forall|i: int| 0 <= i < acc@.len() ==> (#[trigger] acc@[i]).1 >= 1,
            forall|t: u32|
                #[trigger] spec_acc_score(acc@, t) == spec_score(gv.take(gi as int), tax@, t),
            forall|t: u32|
                #[trigger] acc_has_key(acc@, t) ==> t != 0 && (t as int) < tax@.len(),
        decreases groups@.len() - gi,
    {
        let t = groups[gi].0;
        let w = groups[gi].1;
        let chain = tax.ancestors_of(t);
        let ghost chain_s = spec_chain(tax@, t);
        proof {
            lemma_chain_decreasing(tax@, t);
            crate::taxonomy::lemma_chain_bounds(tax@, t);
            assert(chain_s.take(0) =~= Seq::<u32>::empty());
            assert(spec_total_weight(gv.take(gi + 1)) == spec_total_weight(gv.take(gi as int))
                + w) by {
                assert(gv.take(gi + 1).drop_last() =~= gv.take(gi as int));
                assert(gv.take(gi + 1).last() == gv[gi as int]);
            }
            lemma_total_weight_mono(gv, gi + 1);
        }
        let mut k: usize = 0;
        while k < chain.len()
            invariant
                tax.wf(),
                chain@ == chain_s,
                chain_s == spec_chain(tax@, t),
                (t as int) < tax@.len(),
                t != 0,
                w >= 1,
                k <= chain@.len(),
                forall|a: int, b: int|
                    0 <= a < b < chain_s.len() ==> #[trigger] chain_s[a] > #[trigger] chain_s[b],
                forall|a: int| 0 <= a < chain_s.len() ==> 0 < #[trigger] chain_s[a] <= t,
                acc_keys_distinct(acc@),
                forall|i: int| 0 <= i < acc@.len() ==> (#[trigger] acc@[i]).1 >= 1,
                spec_total_weight(gv.take(gi as int)) + w <= u64::MAX,
                forall|t2: u32|
                    #[trigger] spec_acc_score(acc@, t2) == spec_score(gv.take(gi as int), tax@, t2)
                        + if chain_s.take(k as int).contains(t2) {
                        w as nat
                    } else {
                        0
                    },
                forall|t2: u32|
                    #[trigger] acc_has_key(acc@, t2) ==> t2 != 0 && (t2 as int) < tax@.len(),
            decreases chain@.len() - k,
        {
            let a = chain[k];
            proof {
                assert(!chain_s.take(k as int).contains(a)) by {
                    if chain_s.take(k as int).contains(a) {
                        let j = choose|j: int|
                            0 <= j < k && #[trigger] chain_s.take(k as int)[j] == a;
                        assert(chain_s[j] == a && chain_s[k as int] == a);
                    }
                }
                lemma_score_le_total(gv.take(gi as int), tax@, a);
            }
            let ghost pre_acc = acc@;
            add_weight(&mut acc, a, w);
            proof {
                assert(chain_s.take(k + 1) =~= chain_s.take(k as int).push(chain_s[k as int]));
                assert forall|t2: u32|
                    #[trigger] spec_acc_score(acc@, t2) == spec_score(gv.take(gi as int), tax@, t2)
                        + (if chain_s.take(k + 1).contains(t2) {
                        w as nat
                    } else {
                        0
                    }) by {
                    assert(spec_acc_score(pre_acc, t2) == spec_score(gv.take(gi as int), tax@, t2)
                        + (if chain_s.take(k as int).contains(t2) {
                        w as nat
                    } else {
                        0
                    }));
                    if t2 == a {
                        assert(chain_s.take(k + 1).contains(a)) by {
                            assert(chain_s.take(k + 1)[k as int] == a);
                        }
                    }
                    if t2 != a && chain_s.take(k + 1).contains(t2) {
                        let j = choose|j: int|
                            0 <= j < k + 1 && #[trigger] chain_s.take(k + 1)[j] == t2;
                        assert(chain_s.take(k as int)[j] == t2);
                    }
                    if t2 != a && chain_s.take(k as int).contains(t2) {
                        let j = choose|j: int|
                            0 <= j < k && #[trigger] chain_s.take(k as int)[j] == t2;
                        assert(chain_s.take(k + 1)[j] == t2);
                    }
                }
            }
            k = k + 1;
        }
        proof {
            assert(chain_s.take(chain_s.len() as int) =~= chain_s);
            assert forall|t2: u32|
                #[trigger] spec_acc_score(acc@, t2) == spec_score(gv.take(gi + 1), tax@, t2) by {
                assert(gv.take(gi + 1).drop_last() =~= gv.take(gi as int));
                assert(gv.take(gi + 1).last() == gv[gi as int]);
                assert(gv[gi as int] == (t, w as nat));
            }
        }
        gi = gi + 1;
    }
    proof {
        assert(gv.take(groups@.len() as int) =~= gv);
    }
    acc
}

/// The vote floor a call must reach: the confidence threshold, a fraction
/// `num / den`, of the minimizers considered, rounded up.
pub open spec fn spec_required(total: u64, num: u64, den: u64) -> int {
    spec_ceil_div((num * total) as int, den as int)
}

/// Computes the required score. A zero threshold requires nothing; a
/// threshold of one requires unanimous support.
pub fn required_score(total: u64, num: u64, den: u64) -> (r: u64)
    requires
        0 < den <= 1_000_000,
        num <= den,
        total <= u32::MAX,
    ensures
        r == spec_required(total, num, den),
        num == 0 ==> r == 0,
        num == den ==> r == total,
{
    proof {
        assert((num * total) as int <= 1_000_000int * (u32::MAX as int)) by (nonlinear_arith)
            requires
                num <= 1_000_000u64,
                total <= u32::MAX,
        ;
        lemma_ceil_div((num * total) as int, den as int);
        if num == 0 {
            vstd::arithmetic::div_mod::lemma_div_of0(den as int);
            vstd::arithmetic::div_mod::lemma_small_mod(0nat, den as nat);
        }
        if num == den {
            assert((den as int) * (total as int) + (den as int) - 1 == (den as int) * (
            total as int) + ((den as int) - 1));
            lemma_div_multiples_vanish_fancy(total as int, den as int - 1, den as int);
            assert((num * total) as int == (den as int) * (total as int)) by (nonlinear_arith)
                requires
                    num == den,
            ;
        }
    }
    let prod = num * total;
    let q = prod / den;
    let rm = prod % den;
    if rm == 0 {
        q
    } else {
        q + 1
    }
}

/// A taxon qualifies for the call when it is a real taxon with a positive
/// vote reaching the required score.
pub open spec fn spec_qualifies(
    groups: Seq<(u32, nat)>,
    parents: Seq<u32>,
    required: int,
    t: u32,
) -> bool {
    t != 0 && spec_score(groups, parents, t) >= required && spec_score(groups, parents, t) > 0
}

/// `a` is called rather than `b`: it has the higher vote, or the same vote
/// deeper in the tree, with the smaller id as the final tie break.
pub open spec fn spec_better(groups: Seq<(u32, nat)>, parents: Seq<u32>, a: u32, b: u32) -> bool {
    let sa = spec_score(groups, parents, a);
    let sb = spec_score(groups, parents, b);
    let da = spec_chain(parents, a).len();
    let db = spec_chain(parents, b).len();
    sa > sb || (sa == sb && (da > db || (da == db && a <= b)))
}

/// What the classification of a sequence returns: 0 when it has too few
/// hit groups or no qualifying taxon, else the best qualifying taxon.
pub open spec fn spec_is_call(
    groups: Seq<(u32, nat)>,
    parents: Seq<u32>,
    required: int,
    min_groups: nat,
    r: u32,
) -> bool {
    if groups.len() < min_groups {
        r == 0
    } else if r == 0 {
        forall|t: u32| !spec_qualifies(groups, parents, required, t)
    } else {
        spec_qualifies(groups, parents, required, r) && forall|t: u32|
            spec_qualifies(groups, parents, required, t) ==> spec_better(groups, parents, r, t)
    }
}

/// At most one taxon satisfies the call specification.
pub proof fn lemma_call_unique(
    groups: Seq<(u32, nat)>,
    parents: Seq<u32>,
    required: int,
    min_groups: nat,
    r1: u32,
    r2: u32,
)
    requires
        spec_is_call(groups, parents, required, min_groups, r1),
        spec_is_call(groups, parents, required, min_groups, r2),
    ensures
        r1 == r2,
{
    if groups.len() >= min_groups && r1 != 0 && r2 != 0 {
        assert(spec_better(groups, parents, r1, r2));
        assert(spec_better(groups, parents, r2, r1));
    }
}

/// `spec_qualifies`, read off the vote accumulator.
pub open spec fn acc_qualifies(acc: Seq<(u32, u64)>, required: int, t: u32) -> bool {
    t != 0 && spec_acc_score(acc, t) >= required && spec_acc_score(acc, t) > 0
}

/// `spec_better`, read off the vote accumulator.
pub open spec fn acc_better(acc: Seq<(u32, u64)>, parents: Seq<u32>, a: u32, b: u32) -> bool {
    let sa = spec_acc_score(acc, a);
    let sb = spec_acc_score(acc, b);
    let da = spec_chain(parents, a).len();
    let db = spec_chain(parents, b).len();
    sa > sb || (sa == sb && (da > db || (da == db && a <= b)))
}

/// Scans the vote accumulator for the best qualifying taxon: the highest
/// vote reaching `required`, the deepest node among equal votes, and the
/// smallest id among equal depths; 0 when no taxon qualifies.
fn select_call(acc: &Vec<(u32, u64)>, tax: &Taxonomy, required: u64) -> (r: u32)
    requires
        tax.wf(),
        acc_keys_distinct(acc@),
        forall|i: int| 0 <= i < acc@.len() ==> (#[trigger] acc@[i]).1 >= 1,
        forall|t: u32| #[trigger] acc_has_key(acc@, t) ==> t != 0 && (t as int) < tax@.len(),
    ensures
        r == 0 ==> forall|t: u32| !acc_qualifies(acc@, required as int, t),
        r != 0 ==> acc_qualifies(acc@, required as int, r) && forall|t: u32|
            acc_qualifies(acc@, required as int, t) ==> acc_better(acc@, tax@, r, t),
{
    let n = acc.len();
    let mut best: u32 = 0;
    let mut best_score: u64 = 0;
    let mut best_depth: usize = 0;
    let mut i: usize = 0;
    while i < n
        invariant
            tax.wf(),
            acc_keys_distinct(acc@),
            n == acc@.len(),
            i <= n,
            forall|j: int| 0 <= j < acc@.len() ==> (#[trigger] acc@[j]).1 >= 1,
            forall|t: u32| #[trigger] acc_has_key(acc@, t) ==> t != 0 && (t as int) < tax@.len(),
            best == 0 ==> forall|j: int| 0 <= j < i ==> !((#[trigger] acc@[j]).1 >= required),
            best != 0 ==> {
                &&& (best as int) < tax@.len()
                &&& best_score == spec_acc_score(acc@, best)
                &&& best_score >= required
                &&& best_score >= 1
                &&& best_depth == spec_chain(tax@, best).len()
                &&& exists|j: int| 0 <= j < i && (#[trigger] acc@[j]).0 == best
                &&& forall|j: int|
                    0 <= j < i && (#[trigger] acc@[j]).1 >= required ==> (best_score > acc@[j].1
                        || (best_score == acc@[j].1 && (best_depth > spec_chain(
                        tax@,
                        acc@[j].0,
                    ).len() || (best_depth == spec_chain(tax@, acc@[j].0).len() && best
                        <= acc@[j].0))))
            },
        decreases n - i,
    {
        let t = acc[i].0;
        let s = acc[i].1;
        if s >= required {
            proof {
                assert(acc_has_key(acc@, t)) by {
                    assert(acc@[i as int].0 == t);
                }
                crate::taxonomy::lemma_chain_len_le(tax@, t);
                lemma_acc_entry_score(acc@, i as int);
            }
            let d = tax.depth_of(t);
            if best == 0 || s > best_score || (s == best_score && (d > best_depth || (d
                == best_depth && t < best))) {
                best = t;
                best_score = s;
                best_depth = d;
            }
        }
        i = i + 1;
    }
    proof {
        if best == 0 {
            assert forall|t: u32| !acc_qualifies(acc@, required as int, t) by {
                if acc_qualifies(acc@, required as int, t) {
                    assert(acc_has_key(acc@, t)) by {
                        if !acc_has_key(acc@, t) {
                            lemma_acc_absent(acc@, t);
                        }
                    }
                    let j = choose|j: int| 0 <= j < acc@.len() && (#[trigger] acc@[j]).0 == t;
                    lemma_acc_entry_score(acc@, j);
                    assert(acc@[j].1 >= required);
                }
            }
        } else {
            assert(acc_qualifies(acc@, required as int, best));
            assert forall|t: u32| acc_qualifies(acc@, required as int, t) implies acc_better(
                acc@,
                tax@,
                best,
                t,
            ) by {
                assert(acc_has_key(acc@, t)) by {
                    if !acc_has_key(acc@, t) {
                        lemma_acc_absent(acc@, t);
                    }
                }
                let j = choose|j: int| 0 <= j < acc@.len() && (#[trigger] acc@[j]).0 == t;
                lemma_acc_entry_score(acc@, j);
                assert(acc@[j].1 >= required);
            }
        }
    }
    best
}

/// Classifies one sequence (or read pair) from its hit records: sorts the
/// records, cuts them into hit groups, adds each group's weight to every
/// ancestor of its taxon, and calls the best qualifying taxon, or 0 when
/// the sequence has fewer than `min_groups` hit groups or no taxon's vote
/// reaches the confidence threshold `conf_num / conf_den` of
/// `total_kmers`. The call depends only on which records were handed in,
/// never on their order.
pub fn classify(
    rows: &Vec<HitRecord>,
    tax: &Taxonomy,
    value_mask: u32,
    total_kmers: u64,
    conf_num: u64,
    conf_den: u64,
    min_groups: usize,
) -> (call: u32)
    requires
        tax.wf(),
        forall|i: int|
            0 <= i < rows@.len() ==> ((((#[trigger] rows@[i]).value & value_mask)) as int)
                < tax@.len(),
        0 < conf_den <= 1_000_000,
        conf_num <= conf_den,
        total_kmers <= u32::MAX,
    ensures
        spec_is_call(
            spec_groups(spec_taxa_of(rows@.sort_by(row_leq()), value_mask)),
            tax@,
            spec_required(total_kmers, conf_num, conf_den),
            min_groups as nat,
            call,
        ),
{
    let sorted = sort_rows(rows);
    let taxa = taxa_of(&sorted, value_mask);
    let ghost gseq = spec_groups(taxa@);
    proof {
        lemma_row_le_total();
        rows@.lemma_sort_by_ensures(row_leq());
        assert forall|k: int| 0 <= k < taxa@.len() implies (#[trigger] taxa@[k] as int)
            < tax@.len() by {
            assert(sorted@.contains(sorted@[k]));
            assert(rows@.contains(sorted@[k]));
            let j = choose|j: int| 0 <= j < rows@.len() && rows@[j] == sorted@[k];
            assert(((rows@[j].value & value_mask) as int) < tax@.len());
        }
        lemma_groups_sound(taxa@);
    }
    let groups = hit_groups(&taxa);
    let required = required_score(total_kmers, conf_num, conf_den);
    proof {
        assert(gview(groups@) == gseq);
        assert forall|i: int|
            0 <= i < groups@.len() implies (#[trigger] groups@[i]).0 != 0 && (
        groups@[i].0 as int) < tax@.len() && groups@[i].1 >= 1 by {
            assert(gview(groups@)[i] == (groups@[i].0, groups@[i].1 as nat));
            assert(gseq[i].0 != 0 && taxa@.contains(gseq[i].0) && gseq[i].1 >= 1);
            let k = choose|k: int| 0 <= k < taxa@.len() && taxa@[k] == gseq[i].0;
            assert((taxa@[k] as int) < tax@.len());
        }
        assert(spec_total_weight(gview(groups@)) <= u64::MAX);
    }
    if groups.len() < min_groups {
        return 0;
    }
    let acc = vote_groups(&groups, tax);
    let call = select_call(&acc, tax, required);
    proof {
        let req = spec_required(total_kmers, conf_num, conf_den);
        if call == 0 {
            assert forall|t: u32| !spec_qualifies(gseq, tax@, req, t) by {
                assert(!acc_qualifies(acc@, required as int, t));
                assert(spec_acc_score(acc@, t) == spec_score(gseq, tax@, t));
            }
        } else {
            assert(spec_acc_score(acc@, call) == spec_score(gseq, tax@, call));
            assert(spec_qualifies(gseq, tax@, req, call));
            assert forall|t: u32| spec_qualifies(gseq, tax@, req, t) implies spec_better(
                gseq,
                tax@,
                call,
                t,
            ) by {
                assert(spec_acc_score(acc@, t) == spec_score(gseq, tax@, t));
                assert(acc_qualifies(acc@, required as int, t));
                assert(acc_better(acc@, tax@, call, t));
            }
        }
    }
    call
}

/// Determinism: two batches holding the same hit records, in any order,
/// yield the same call for the same thresholds.
pub proof fn lemma_classify_deterministic(
    rows1: Seq<HitRecord>,
    rows2: Seq<HitRecord>,
    parents: Seq<u32>,
    value_mask: u32,
    required: int,
    min_groups: nat,
    r1: u32,
    r2: u32,
)
    requires
        rows1.to_multiset() == rows2.to_multiset(),
        spec_is_call(
            spec_groups(spec_taxa_of(rows1.sort_by(row_leq()), value_mask)),
            parents,
            required,
            min_groups,
            r1,
        ),
        spec_is_call(
            spec_groups(spec_taxa_of(rows2.sort_by(row_leq()), value_mask)),
            parents,
            required,
            min_groups,
            r2,
        ),
    ensures
        r1 == r2,
{
    lemma_row_le_total();
    rows1.lemma_sort_by_ensures(row_leq());
    rows2.lemma_sort_by_ensures(row_leq());
    lemma_sorted_unique(rows1.sort_by(row_leq()), rows2.sort_by(row_leq()), row_leq());
    assert(rows1.sort_by(row_leq()) == rows2.sort_by(row_leq()));
    lemma_call_unique(
        spec_groups(spec_taxa_of(rows1.sort_by(row_leq()), value_mask)),
        parents,
        required,
        min_groups,
        r1,
        r2,
    );
}

/// With the confidence threshold at zero, a sequence with at least
/// `min_groups` hit groups (and so at least one positive vote) is always
/// classified.
pub proof fn lemma_zero_threshold_classifies(
    taxa: Seq<u32>,
    parents: Seq<u32>,
    min_groups: nat,
    r: u32,
)
    requires
        wf_parents(parents),
        forall|k: int| 0 <= k < taxa.len() ==> (#[trigger] taxa[k] as int) < parents.len(),
        spec_groups(taxa).len() >= min_groups,
        spec_groups(taxa).len() > 0,
        spec_is_call(spec_groups(taxa), parents, 0, min_groups, r),
    ensures
        r != 0,
{
    let groups = spec_groups(taxa);
    lemma_groups_sound(taxa);
    let g = groups.last();
    assert(g.0 != 0 && taxa.contains(g.0) && g.1 >= 1);
    let k = choose|k: int| 0 <= k < taxa.len() && taxa[k] == g.0;
    assert((g.0 as int) < parents.len());
    lemma_chain_head(parents, g.0);
    assert(spec_score(groups, parents, g.0) >= g.1) by {
        assert(spec_score(groups, parents, g.0) == spec_score(groups.drop_last(), parents, g.0)
            + g.1);
    }
    assert(spec_qualifies(groups, parents, 0, g.0));
}

/// With the confidence threshold at one, a classified call's vote covers
/// every minimizer considered: support must be unanimous.
pub proof fn lemma_full_threshold_unanimous(
    groups: Seq<(u32, nat)>,
    parents: Seq<u32>,
    total: int,
    min_groups: nat,
    r: u32,
)
    requires
        spec_is_call(groups, parents, total, min_groups, r),
        r != 0,
    ensures
        spec_score(groups, parents, r) >= total,
{
}

/// A sequence with fewer hit groups than `min_groups` is unclassified,
/// whatever its votes.
pub proof fn lemma_too_few_groups_unclassified(
    groups: Seq<(u32, nat)>,
    parents: Seq<u32>,
    required: int,
    min_groups: nat,
    r: u32,
)
    requires
        spec_is_call(groups, parents, required, min_groups, r),
        groups.len() < min_groups,
    ensures
        r == 0,
{
}

/// Updating one entry's weight moves only that taxon's score.
proof fn lemma_acc_update(acc: Seq<(u32, u64)>, i: int, w: u64, taxon: u32)
    requires
        acc_keys_distinct(acc),
        0 <= i < acc.len(),
        acc[i].0 == taxon,
        acc[i].1 + w <= u64::MAX,
    ensures
        forall|t: u32|
            spec_acc_score(acc.update(i, (taxon, (acc[i].1 + w) as u64)), t) == spec_acc_score(
                acc,
                t,
            ) + if t == taxon {
                w as nat
            } else {
                0
            },
    decreases acc.len(),
{
    let upd = acc.update(i, (taxon, (acc[i].1 + w) as u64));
    if i == acc.len() - 1 {
        assert(upd.drop_last() =~= acc.drop_last());
        assert(upd.last() == (taxon, (acc[i].1 + w) as u64));
        assert forall|t: u32|
            spec_acc_score(upd, t) == spec_acc_score(acc, t) + (if t == taxon {
                w as nat
            } else {
                0
            }) by {
            assert(spec_acc_score(upd, t) == spec_acc_score(upd.drop_last(), t) + (
            if upd.last().0 == t {
                upd.last().1 as nat
            } else {
                0
            }));
            assert(spec_acc_score(acc, t) == spec_acc_score(acc.drop_last(), t) + (
            if acc.last().0 == t {
                acc.last().1 as nat
            } else {
                0
            }));
        }
    } else {
        assert(acc_keys_distinct(acc.drop_last())) by {
            assert forall|k: int, l: int| 0 <= k < l < acc.drop_last().len() implies (
            #[trigger] acc.drop_last()[k]).0 != (#[trigger] acc.drop_last()[l]).0 by {
                assert(acc.drop_last()[k] == acc[k] && acc.drop_last()[l] == acc[l]);
            }
        }
        assert(acc.drop_last()[i] == acc[i]);
        lemma_acc_update(acc.drop_last(), i, w, taxon);
        assert(upd.drop_last() =~= acc.drop_last().update(i, (taxon, (acc[i].1 + w) as u64)));
        assert(upd.last() == acc.last());
        assert forall|t: u32|
            spec_acc_score(upd, t) == spec_acc_score(acc, t) + (if t == taxon {
                w as nat
            } else {
                0
            }) by {
            assert(spec_acc_score(upd, t) == spec_acc_score(upd.drop_last(), t) + (
            if upd.last().0 == t {
                upd.last().1 as nat
            } else {
                0
            }));
            assert(spec_acc_score(acc, t) == spec_acc_score(acc.drop_last(), t) + (
            if acc.last().0 == t {
                acc.last().1 as nat
            } else {
                0
            }));
        }
    }
}

} // verus!
