use vstd::prelude::*;

verus! {

/// A taxonomy is stored as a parent table indexed by taxon id. Id 0 is the
/// "no taxon" sentinel; every other node's parent lies strictly below it,
/// so every parent chain reaches 0 after finitely many steps.
pub open spec fn wf_parents(p: Seq<u32>) -> bool {
    forall|t: int| 0 < t < p.len() ==> #[trigger] p[t] < t
}

/// The ancestor chain of `t`: the taxon itself, then its parent, and so on,
/// ending just before the 0 sentinel.
pub open spec fn spec_chain(p: Seq<u32>, t: u32) -> Seq<u32>
    decreases t,
    when wf_parents(p)
{
    if t == 0 || t >= p.len() {
        seq![]
    } else {
        seq![t] + spec_chain(p, p[t as int])
    }
}

/// Lowest common ancestor of two taxa. A 0 argument acts as a neutral
/// element; otherwise the higher-numbered node is moved to its parent until
/// the walks meet, which is the LCA because parents lie strictly below
/// their children.
pub open spec fn spec_lca(p: Seq<u32>, a: u32, b: u32) -> u32
    decreases a + b,
    when wf_parents(p) && a < p.len() && b < p.len()
{
    if a == 0 {
        b
    } else if b == 0 {
        a
    } else if a == b {
        a
    } else if a < b {
        spec_lca(p, a, p[b as int])
    } else {
        spec_lca(p, p[a as int], b)
    }
}

#[derive(Debug)]
pub enum TaxonomyError {
    /// Some node's parent does not lie strictly below the node.
    ParentNotBelow,
}

/// The taxonomy tree, as a parent table.
pub struct Taxonomy {
    pub parent: Vec<u32>,
}

impl Taxonomy {
    pub open spec fn view(&self) -> Seq<u32> {
        self.parent@
    }

    pub open spec fn wf(&self) -> bool {
        wf_parents(self@)
    }

    /// Builds a taxonomy from a parent table, rejecting one in which some
    /// parent does not lie strictly below its child.
    pub fn new(parent: Vec<u32>) -> (r: Result<Taxonomy, TaxonomyError>)
        ensures
            match r {
                Ok(t) => t@ == parent@ && t.wf(),
                Err(_) => !wf_parents(parent@),
            },
    {
        let n = parent.len();
        let mut i: usize = 1;
        while i < n
            invariant
                1 <= i,
                i - 1 <= n,
                n == parent@.len(),
                forall|t: int| 0 < t < i ==> #[trigger] parent@[t] < t,
            decreases n - i,
        {
            if parent[i] as usize >= i {
                return Err(TaxonomyError::ParentNotBelow);
            }
            i = i + 1;
        }
        Ok(Taxonomy { parent })
    }

    pub fn node_count(&self) -> (n: usize)
        ensures
            n == self@.len(),
    {
        self.parent.len()
    }

    /// The ancestors of `t`, from `t` itself up to the node just below the
    /// root sentinel.
    pub fn ancestors_of(&self, t: u32) -> (r: Vec<u32>)
        requires
            self.wf(),
            t < self@.len(),
        ensures
            r@ == spec_chain(self@, t),
    {
        let mut acc: Vec<u32> = Vec::new();
        let mut cur: u32 = t;
        while cur != 0
            invariant
                self.wf(),
                cur < self@.len(),
                spec_chain(self@, t) == acc@ + spec_chain(self@, cur),
            decreases cur,
        {
            acc.push(cur);
            cur = self.parent[cur as usize];
        }
        assert(acc@ + spec_chain(self@, cur) =~= acc@);
        acc
    }

    /// Depth of `t`: the length of its ancestor chain.
    pub fn depth_of(&self, t: u32) -> (r: usize)
        requires
            self.wf(),
            t < self@.len(),
            spec_chain(self@, t).len() <= usize::MAX,
        ensures
            r == spec_chain(self@, t).len(),
    {
        let mut depth: usize = 0;
        let mut cur: u32 = t;
        while cur != 0
            invariant
                self.wf(),
                cur < self@.len(),
                spec_chain(self@, t).len() == depth + spec_chain(self@, cur).len(),
                spec_chain(self@, t).len() <= usize::MAX,
            decreases cur,
        {
            proof {
                lemma_chain_head(self@, cur);
            }
            depth = depth + 1;
            cur = self.parent[cur as usize];
        }
        depth
    }

    /// Lowest common ancestor of `a` and `b`, with 0 as neutral element.
    pub fn lca(&self, a: u32, b: u32) -> (r: u32)
        requires
            self.wf(),
            a < self@.len(),
            b < self@.len(),
        ensures
            r == spec_lca(self@, a, b),
    {
        let mut x: u32 = a;
        let mut y: u32 = b;
        while x != 0 && y != 0 && x != y
            invariant
                self.wf(),
                x < self@.len(),
                y < self@.len(),
                spec_lca(self@, x, y) == spec_lca(self@, a, b),
            decreases x + y,
        {
            if x < y {
                y = self.parent[y as usize];
            } else {
                x = self.parent[x as usize];
            }
        }
        if x == 0 {
            y
        } else {
            x
        }
    }
}

/// The LCA of a taxon with itself is the taxon.
pub proof fn lemma_lca_self(p: Seq<u32>, t: u32)
    requires
        wf_parents(p),
        t < p.len(),
    ensures
        spec_lca(p, t, t) == t,
{
}

/// The LCA of two valid nonzero taxa is a valid nonzero taxon no higher
/// than either.
pub proof fn lemma_lca_bounds(p: Seq<u32>, a: u32, b: u32)
    requires
        wf_parents(p),
        a < p.len(),
        b < p.len(),
        a != 0,
        b != 0,
    ensures
        0 < spec_lca(p, a, b),
        spec_lca(p, a, b) <= a,
        spec_lca(p, a, b) <= b,
    decreases a + b,
{
    if a != b {
        if a < b {
            assert(spec_lca(p, a, b) == spec_lca(p, a, p[b as int]));
            if p[b as int] == 0 {
                assert(spec_lca(p, a, 0) == a);
            } else {
                lemma_lca_bounds(p, a, p[b as int]);
            }
        } else {
            assert(spec_lca(p, a, b) == spec_lca(p, p[a as int], b));
            if p[a as int] == 0 {
                assert(spec_lca(p, 0, b) == b);
            } else {
                lemma_lca_bounds(p, p[a as int], b);
            }
        }
    }
}

/// Every element of an ancestor chain is positive and bounded by the taxon.
pub proof fn lemma_chain_bounds(p: Seq<u32>, t: u32)
    requires
        wf_parents(p),
        t < p.len(),
    ensures
        forall|i: int|
            0 <= i < spec_chain(p, t).len() ==> 0 < #[trigger] spec_chain(p, t)[i] <= t,
    decreases t,
{
    if t != 0 {
        lemma_chain_bounds(p, p[t as int]);
        let c = spec_chain(p, t);
        let rest = spec_chain(p, p[t as int]);
        assert forall|i: int| 0 <= i < c.len() implies 0 < #[trigger] c[i] <= t by {
            if i == 0 {
                assert(c[0] == t);
            } else {
                assert(c[i] == rest[i - 1]);
                assert(0 < rest[i - 1] <= p[t as int]);
            }
        }
    }
}

/// An ancestor chain is strictly decreasing, hence free of duplicates.
pub proof fn lemma_chain_decreasing(p: Seq<u32>, t: u32)
    requires
        wf_parents(p),
        t < p.len(),
    ensures
        forall|i: int, j: int|
            0 <= i < j < spec_chain(p, t).len() ==> #[trigger] spec_chain(p, t)[i]
                > #[trigger] spec_chain(p, t)[j],
    decreases t,
{
    if t != 0 {
        let rest = spec_chain(p, p[t as int]);
        lemma_chain_decreasing(p, p[t as int]);
        lemma_chain_bounds(p, p[t as int]);
        assert forall|i: int, j: int|
            0 <= i < j < spec_chain(p, t).len() implies #[trigger] spec_chain(p, t)[i]
            > #[trigger] spec_chain(p, t)[j] by {
            if i == 0 {
                assert(spec_chain(p, t)[j] == rest[j - 1]);
                assert(rest[j - 1] <= p[t as int] < t);
            } else {
                assert(spec_chain(p, t)[i] == rest[i - 1]);
                assert(spec_chain(p, t)[j] == rest[j - 1]);
            }
        }
    }
}

/// An ancestor chain is no longer than its taxon's id.
pub proof fn lemma_chain_len_le(p: Seq<u32>, t: u32)
    requires
        wf_parents(p),
        t < p.len(),
    ensures
        spec_chain(p, t).len() <= t,
    decreases t,
{
    if t != 0 {
        lemma_chain_len_le(p, p[t as int]);
    }
}

/// A nonzero taxon heads its own ancestor chain.
pub proof fn lemma_chain_head(p: Seq<u32>, t: u32)
    requires
        wf_parents(p),
        0 < t < p.len(),
    ensures
        spec_chain(p, t).len() > 0,
        spec_chain(p, t)[0] == t,
        spec_chain(p, t).contains(t),
{
    assert(spec_chain(p, t)[0] == t);
}

} // verus!
