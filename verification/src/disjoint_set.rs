//! A disjoint-set (union-find) forest with path halving on find and
//! union by rank on merge.
//!
//! The ghost `depth` map orders every node strictly below its parent, which
//! both rules out cycles and bounds the climbs; the partition itself is
//! described by `rep_of`, the root reached from a node.

use vstd::prelude::*;

verus! {

/// A parent forest: indices in range, each non-root strictly shallower than
/// its parent, depths bounded by `mx`.
pub open spec fn wf_forest(p: Seq<usize>, d: Map<int, nat>, mx: nat) -> bool {
    &&& forall|i: int| 0 <= i < p.len() ==> (#[trigger] p[i]) < p.len()
    &&& forall|i: int| 0 <= i < p.len() ==> d.dom().contains(i)
    &&& forall|i: int| 0 <= i < p.len() && p[i] as int != i ==> d[i] < d[#[trigger] p[i] as int]
    &&& forall|i: int| 0 <= i < p.len() ==> (#[trigger] d[i]) <= mx
}

/// The root of the tree holding node `i`: follow parents to the fixpoint.
pub open spec fn forest_rep(p: Seq<usize>, d: Map<int, nat>, mx: nat, i: int) -> int
    decreases mx - d[i],
        when wf_forest(p, d, mx) && 0 <= i < p.len()
{
    if p[i] as int == i {
        i
    } else {
        forest_rep(p, d, mx, p[i] as int)
    }
}

/// The representative is a root, and following one parent link keeps it.
proof fn lemma_rep_root(p: Seq<usize>, d: Map<int, nat>, mx: nat, i: int)
    requires
        wf_forest(p, d, mx),
        0 <= i < p.len(),
    ensures
        0 <= forest_rep(p, d, mx, i) < p.len(),
        p[forest_rep(p, d, mx, i)] as int == forest_rep(p, d, mx, i),
    decreases mx - d[i],
{
    if p[i] as int != i {
        lemma_rep_root(p, d, mx, p[i] as int);
    }
}

/// Path halving (re-pointing `node` at its grandparent) moves no node to a
/// different tree.
proof fn lemma_halve_rep(p: Seq<usize>, d: Map<int, nat>, mx: nat, node: int, i: int)
    requires
        wf_forest(p, d, mx),
        0 <= node < p.len(),
        p[node] as int != node,
        0 <= i < p.len(),
        wf_forest(p.update(node, p[p[node] as int]), d, mx),
    ensures
        forest_rep(p.update(node, p[p[node] as int]), d, mx, i) == forest_rep(p, d, mx, i),
    decreases mx - d[i],
{
    let p2 = p.update(node, p[p[node] as int]);
    if p2[i] as int == i {
        assert(p[i] as int == i);
    } else {
        if i == node {
            let par = p[node] as int;
            let gp = p[par] as int;
            assert(p2[i] as int == gp);
            if gp != node {
                lemma_halve_rep(p, d, mx, node, gp);
            }
            assert(forest_rep(p, d, mx, node) == forest_rep(p, d, mx, par));
            if par != gp {
                assert(forest_rep(p, d, mx, par) == forest_rep(p, d, mx, gp));
            }
        } else {
            assert(p2[i] == p[i]);
            lemma_halve_rep(p, d, mx, node, p[i] as int);
        }
    }
}

/// Linking root `b` under root `a` moves exactly `b`'s tree to `a`'s root.
proof fn lemma_link_rep(
    p: Seq<usize>,
    d: Map<int, nat>,
    mx: nat,
    d2: Map<int, nat>,
    mx2: nat,
    a: int,
    b: int,
    i: int,
)
    requires
        wf_forest(p, d, mx),
        0 <= a < p.len(),
        0 <= b < p.len(),
        a != b,
        p[a] as int == a,
        p[b] as int == b,
        0 <= i < p.len(),
        wf_forest(p.update(b, a as usize), d2, mx2),
        forall|j: int| 0 <= j < p.len() && j != a ==> d2.dom().contains(j) && d2[j] == d[j],
    ensures
        forest_rep(p.update(b, a as usize), d2, mx2, i) == if forest_rep(p, d, mx, i) == b {
            a
        } else {
            forest_rep(p, d, mx, i)
        },
    decreases mx2 - d2[i],
{
    let p2 = p.update(b, a as usize);
    if p2[i] as int == i {
        assert(i != b);
        assert(p[i] as int == i);
    } else {
        if i == b {
            assert(p2[i] as int == a);
            assert(forest_rep(p2, d2, mx2, a) == a);
        } else {
            assert(p2[i] == p[i]);
            assert(p[i] as int != i);
            let par = p[i] as int;
            assert(i != a);
            assert(d2[par] > d2[i] || par == a);
            if par == a {
                assert(forest_rep(p2, d2, mx2, a) == a);
                assert(forest_rep(p, d, mx, a) == a);
            } else {
                lemma_link_rep(p, d, mx, d2, mx2, a, b, par);
            }
        }
    }
}

/// Appending a fresh self-rooted node changes no existing representative.
proof fn lemma_push_rep(p: Seq<usize>, d: Map<int, nat>, mx: nat, d2: Map<int, nat>, i: int)
    requires
        wf_forest(p, d, mx),
        0 <= i < p.len(),
        wf_forest(p.push(p.len() as usize), d2, mx),
        forall|j: int| 0 <= j < p.len() ==> d2.dom().contains(j) && d2[j] == d[j],
    ensures
        forest_rep(p.push(p.len() as usize), d2, mx, i) == forest_rep(p, d, mx, i),
    decreases mx - d[i],
{
    let p2 = p.push(p.len() as usize);
    assert(p2[i] == p[i]);
    if p[i] as int != i {
        lemma_push_rep(p, d, mx, d2, p[i] as int);
    }
}

/// The union-find structure.  `depth` and `max_depth` are ghost bookkeeping
/// for the strict ordering along parent chains.
pub struct DisjointSet {
    parents: Vec<usize>,
    ranks: Vec<u8>,
    depth: Ghost<Map<int, nat>>,
    max_depth: Ghost<nat>,
}

impl DisjointSet {
    /// The parent forest.
    pub closed spec fn parents(self) -> Seq<usize> {
        self.parents@
    }

    /// How many nodes the structure holds.
    pub open spec fn count(self) -> nat {
        self.parents().len()
    }

    /// The representative (root) of the set holding node `i`.
    pub closed spec fn rep_of(self, i: int) -> int {
        forest_rep(self.parents@, self.depth@, self.max_depth@, i)
    }

    /// Nodes `i` and `j` are in the same set.
    pub open spec fn same_set(self, i: int, j: int) -> bool {
        self.rep_of(i) == self.rep_of(j)
    }

    pub closed spec fn wf(self) -> bool {
        &&& wf_forest(self.parents@, self.depth@, self.max_depth@)
        &&& self.ranks@.len() == self.parents@.len()
        &&& forall|i: int|
            0 <= i < self.parents@.len() && (#[trigger] self.parents@[i]) as int == i
                ==> self.ranks@[i] == 0
    }

    pub fn new() -> (r: DisjointSet)
        ensures
            r.wf(),
            r.count() == 0,
    {
        DisjointSet {
            parents: Vec::new(),
            ranks: Vec::new(),
            depth: Ghost(Map::empty()),
            max_depth: Ghost(0),
        }
    }

    /// The parent of `node_idx`, or `None` if it is a root.
    fn parent_node(&self, node_idx: usize) -> (r: Option<usize>)
        requires
            self.wf(),
            (node_idx as int) < self.count(),
        ensures
            match r {
                Some(p) => self.parents()[node_idx as int] == p && p as int != node_idx as int && (
                p as int) < self.count(),
                None => self.parents()[node_idx as int] as int == node_idx as int,
            },
    {
        let parent_idx = self.parents[node_idx];
        if parent_idx == node_idx {
            return None;
        }
        Some(parent_idx)
    }

    /// Adds a new singleton set; returns its node index.
    pub fn insert_set(&mut self) -> (node_idx: usize)
        requires
            old(self).wf(),
            old(self).count() < usize::MAX as nat,
        ensures
            final(self).wf(),
            final(self).count() == old(self).count() + 1,
            node_idx as int == old(self).count(),
            final(self).rep_of(node_idx as int) == node_idx as int,
            forall|i: int|
                0 <= i < old(self).count() ==> final(self).rep_of(i) == old(self).rep_of(i),
    {
        let node_idx = self.parents.len();
        self.parents.push(node_idx);
        self.ranks.push(0);
        proof {
            let p0 = old(self).parents@;
            let d0 = old(self).depth@;
            let d2 = d0.insert(node_idx as int, 0nat);
            self.depth = Ghost(d2);
            assert(wf_forest(self.parents@, d2, self.max_depth@)) by {
                assert(forall|j: int| 0 <= j < p0.len() ==> self.parents@[j] == p0[j]);
                assert(self.parents@[node_idx as int] == node_idx);
            }
            assert forall|i: int| 0 <= i < old(self).count() implies final(self).rep_of(i) == old(self).rep_of(i) by {
                lemma_push_rep(p0, d0, self.max_depth@, d2, i);
            }
            assert(self.rep_of(node_idx as int) == node_idx as int);
        }
        node_idx
    }

    /// The representative of the set holding `node_idx`.  Along the way the
    /// tree is flattened by path halving, which moves no node to a different
    /// set.
    pub fn find(&mut self, node_idx: usize) -> (r: usize)
        requires
            old(self).wf(),
            (node_idx as int) < old(self).count(),
        ensures
            final(self).wf(),
            final(self).count() == old(self).count(),
            forall|i: int| 0 <= i < old(self).count() ==> final(self).rep_of(i) == old(self).rep_of(i),
            r as int == old(self).rep_of(node_idx as int),
            (r as int) < final(self).count(),
            final(self).parents()[r as int] as int == r as int,
            final(self).rep_of(r as int) == r as int,
            forall|i: int|
                0 <= i < old(self).count() && old(self).parents()[i] as int == i ==> final(self).parents()[i] as int == i,
    {
        let ghost d = self.depth@;
        let ghost mx = self.max_depth@;
        let mut node = node_idx;
        proof {
            lemma_rep_root(self.parents@, d, mx, node_idx as int);
        }
        loop
            invariant
                self.wf(),
                self.depth@ == d,
                self.max_depth@ == mx,
                self.count() == old(self).count(),
                self.ranks@ == old(self).ranks@,
                (node as int) < self.count(),
                self.rep_of(node as int) == old(self).rep_of(node_idx as int),
                forall|i: int| 0 <= i < old(self).count() ==> self.rep_of(i) == old(self).rep_of(
                    i,
                ),
                forall|i: int|
                    0 <= i < old(self).count() && old(self).parents()[i] as int == i ==> (
                    #[trigger] self.parents()[i]) as int == i,
            decreases mx - d[node as int],
        {
            match self.parent_node(node) {
                Some(parent_idx) => {
                    let gp = self.parents[parent_idx];
                    let ghost p0 = self.parents@;
                    let slot = vstd::std_specs::vec::vec_index_mut(&mut self.parents, node);
                    *slot = gp;
                    proof {
                        assert(self.parents@ == p0.update(node as int, p0[p0[node as int] as int]));
                        assert(wf_forest(self.parents@, d, mx)) by {
                            let par = p0[node as int] as int;
                            if p0[par] as int != node as int {
                                if p0[par] as int != par {
                                    assert(d[node as int] < d[par]);
                                }
                            } else {
                                assert(d[node as int] < d[par] && d[par] < d[node as int]);
                            }
                        }
                        assert forall|i: int| 0 <= i < self.count() implies forest_rep(
                            self.parents@,
                            d,
                            mx,
                            i,
                        ) == forest_rep(p0, d, mx, i) by {
                            lemma_halve_rep(p0, d, mx, node as int, i);
                        }
                        assert(forest_rep(p0, d, mx, node as int) == forest_rep(
                            p0,
                            d,
                            mx,
                            p0[node as int] as int,
                        ));
                    }
                    node = parent_idx;
                },
                None => {
                    return node;
                },
            }
        }
    }

    /// Joins the sets holding `set_a_idx` and `set_b_idx`: afterwards two
    /// nodes share a set exactly when they already did, or each was in one of
    /// the two joined sets.  The surviving representative is one of the two
    /// old ones.
    pub fn merge(&mut self, set_a_idx: usize, set_b_idx: usize)
        requires
            old(self).wf(),
            (set_a_idx as int) < old(self).count(),
            (set_b_idx as int) < old(self).count(),
        ensures
            final(self).wf(),
            final(self).count() == old(self).count(),
            final(self).rep_of(set_a_idx as int) == old(self).rep_of(set_a_idx as int) || final(self).rep_of(set_a_idx as int) == old(self).rep_of(set_b_idx as int),
            forall|i: int|
                0 <= i < old(self).count() ==> final(self).rep_of(i) == if old(self).rep_of(i)
                    == old(self).rep_of(set_a_idx as int) || old(self).rep_of(i) == old(self).rep_of(set_b_idx as int) {
                    final(self).rep_of(set_a_idx as int)
                } else {
                    old(self).rep_of(i)
                },
    {
        let mut a_idx = self.find(set_a_idx);
        let mut b_idx = self.find(set_b_idx);

        if a_idx == b_idx {
            return ;
        }
        if self.ranks[a_idx] < self.ranks[b_idx] {
            let tmp = a_idx;
            a_idx = b_idx;
            b_idx = tmp;
        }
        let ghost p0 = self.parents@;
        let ghost d0 = self.depth@;
        let ghost mx0 = self.max_depth@;
        proof {
            assert(p0[a_idx as int] as int == a_idx as int);
            assert(p0[b_idx as int] as int == b_idx as int);
        }
        let ghost da: nat = if d0[a_idx as int] >= d0[b_idx as int] + 1 {
            d0[a_idx as int]
        } else {
            d0[b_idx as int] + 1
        };
        let slot = vstd::std_specs::vec::vec_index_mut(&mut self.parents, b_idx);
        *slot = a_idx;
        proof {
            let d2 = d0.insert(a_idx as int, da);
            let mx2: nat = if mx0 >= da {
                mx0
            } else {
                da
            };
            self.depth = Ghost(d2);
            self.max_depth = Ghost(mx2);
            assert(self.parents@ == p0.update(b_idx as int, a_idx));
            assert(wf_forest(self.parents@, d2, mx2));
            assert forall|i: int| 0 <= i < self.count() implies forest_rep(
                self.parents@,
                d2,
                mx2,
                i,
            ) == if forest_rep(p0, d0, mx0, i) == b_idx as int {
                a_idx as int
            } else {
                forest_rep(p0, d0, mx0, i)
            } by {
                lemma_link_rep(p0, d0, mx0, d2, mx2, a_idx as int, b_idx as int, i);
            }
        }
        if self.ranks[a_idx] == self.ranks[b_idx] {
            let slot2 = vstd::std_specs::vec::vec_index_mut(&mut self.ranks, b_idx);
            *slot2 = *slot2 + 1;
        }
        proof {
            assert forall|i: int|
                0 <= i < self.parents@.len() && (#[trigger] self.parents@[i]) as int
                    == i implies self.ranks@[i] == 0 by {
                assert(i != b_idx as int);
            }
        }
    }
}

impl Default for DisjointSet {
    /// An empty structure, as `new` builds it.
    fn default() -> (r: DisjointSet)
        ensures
            r.wf(),
            r.count() == 0,
    {
        DisjointSet::new()
    }
}

} // verus!
