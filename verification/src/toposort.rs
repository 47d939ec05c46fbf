//! Adjacency-list graphs and Kahn's topological sort.

use vstd::prelude::*;
use vstd::set_lib::{lemma_int_range, lemma_len_subset, set_int_range};
use crate::seq_facts::{lemma_distinct_below, lemma_push_contains};

verus! {

/// A vertex handle: an index into the graph's adjacency lists.
#[derive(Clone, Copy, PartialEq, Eq, Structural, Debug)]
pub struct Vertex(usize);

impl Vertex {
    /// The index this handle stands for.
    pub fn index(&self) -> (r: usize)
        ensures
            r as int == self.spec_index_of(),
    {
        self.0
    }

    /// The index, for specifications.
    pub closed spec fn spec_index_of(self) -> int {
        self.0 as int
    }
}

/// Vertex number `v` occurs somewhere in `r`.
pub open spec fn appears(r: Seq<Vertex>, v: int) -> bool {
    exists|p: int| 0 <= p < r.len() && (#[trigger] r[p]).spec_index_of() == v
}

/// A directed graph: `adj()[a]` lists the targets of the edges leaving `a`.
#[derive(Debug)]
pub struct AdjacencyGraph(Vec<Vec<Vertex>>);

/// The predicate picking the targets equal to `y`.
pub open spec fn is_target(y: int) -> spec_fn(usize) -> bool {
    |x: usize| x as int == y
}

/// Occurrences of `y` among the targets in `row`.
pub open spec fn cnt(row: Seq<usize>, y: int) -> nat {
    row.filter(is_target(y)).len()
}

proof fn lemma_cnt_take_step(row: Seq<usize>, y: int, j: int)
    requires
        0 <= j < row.len(),
    ensures
        cnt(row.take(j + 1), y) == cnt(row.take(j), y) + (if row[j] as int == y {
            1nat
        } else {
            0nat
        }),
{
    assert(row.take(j + 1) =~= row.take(j).push(row[j]));
    row.take(j).lemma_filter_push(row[j], is_target(y));
}

proof fn lemma_cnt_take_all(row: Seq<usize>, y: int)
    ensures
        cnt(row.take(row.len() as int), y) == cnt(row, y),
{
    assert(row.take(row.len() as int) =~= row);
}

proof fn lemma_cnt_take_le(row: Seq<usize>, y: int, j: int)
    requires
        0 <= j <= row.len(),
    ensures
        cnt(row.take(j), y) <= cnt(row, y),
    decreases row.len() - j,
{
    if j == row.len() {
        lemma_cnt_take_all(row, y);
    } else {
        lemma_cnt_take_step(row, y, j);
        lemma_cnt_take_le(row, y, j + 1);
    }
}

proof fn lemma_cnt_le(row: Seq<usize>, y: int)
    ensures
        cnt(row, y) <= row.len(),
{
    row.lemma_filter_len(is_target(y));
}

/// The count is positive exactly when `y` occurs in the row.
proof fn lemma_cnt_pos(row: Seq<usize>, y: int)
    ensures
        (cnt(row, y) > 0) <==> exists|j: int| 0 <= j < row.len() && (#[trigger] row[j]) as int == y,
{
    let pred = is_target(y);
    if exists|j: int| 0 <= j < row.len() && (#[trigger] row[j]) as int == y {
        let j = choose|j: int| 0 <= j < row.len() && (#[trigger] row[j]) as int == y;
        assert(pred(row[j]));
        row.lemma_filter_contains(pred, j);
        let f = row.filter(pred);
        let k = choose|k: int| 0 <= k < f.len() && f[k] == row[j];
    }
    if cnt(row, y) > 0 {
        let f = row.filter(pred);
        assert(f.contains(f[0])) by {
            assert(f[0] == f[0]);
        }
        row.lemma_filter_contains_rev(pred, f[0]);
        row.lemma_filter_pred(pred, 0);
        let j = choose|j: int| 0 <= j < row.len() && row[j] == f[0];
        assert(row[j] as int == y);
    }
}

/// Incoming edges of `y` from the rows before `i`.
pub open spec fn pend_pre(adj: Seq<Seq<usize>>, y: int, i: int) -> nat
    decreases i,
{
    if i <= 0 {
        0
    } else {
        pend_pre(adj, y, i - 1) + cnt(adj[i - 1], y)
    }
}

/// Incoming edges of `y` from rows at or after `i` whose source vertex has
/// not been emitted (is not in `done`).
pub open spec fn pending(adj: Seq<Seq<usize>>, y: int, done: Seq<usize>, i: int) -> nat
    decreases adj.len() - i,
{
    if i < 0 || i >= adj.len() {
        0
    } else {
        (if done.contains(i as usize) {
            0nat
        } else {
            cnt(adj[i], y)
        }) + pending(adj, y, done, i + 1)
    }
}

/// Total number of edge targets from row `i` on.
pub open spec fn total_targets(adj: Seq<Seq<usize>>, i: int) -> nat
    decreases adj.len() - i,
{
    if i < 0 || i >= adj.len() {
        0
    } else {
        adj[i].len() + total_targets(adj, i + 1)
    }
}

proof fn lemma_pre_bound(adj: Seq<Seq<usize>>, y: int, i: int)
    requires
        0 <= i <= adj.len(),
    ensures
        pend_pre(adj, y, i) + total_targets(adj, i) <= total_targets(adj, 0),
    decreases i,
{
    if i > 0 {
        lemma_pre_bound(adj, y, i - 1);
        lemma_cnt_le(adj[i - 1], y);
        if i - 1 < adj.len() {
            assert(total_targets(adj, i - 1) == adj[i - 1].len() + total_targets(adj, i));
        }
    }
}

/// Counting all rows with nothing emitted matches the prefix sum.
proof fn lemma_bridge(adj: Seq<Seq<usize>>, y: int, i: int)
    requires
        0 <= i <= adj.len(),
    ensures
        pend_pre(adj, y, i) + pending(adj, y, Seq::<usize>::empty(), i) == pending(
            adj,
            y,
            Seq::<usize>::empty(),
            0,
        ),
    decreases i,
{
    if i > 0 {
        lemma_bridge(adj, y, i - 1);
        assert(!Seq::<usize>::empty().contains((i - 1) as usize));
        if i - 1 < adj.len() {
            assert(pending(adj, y, Seq::<usize>::empty(), i - 1) == cnt(adj[i - 1], y) + pending(
                adj,
                y,
                Seq::<usize>::empty(),
                i,
            ));
        }
    }
}

/// Marking one more source as emitted removes exactly its contribution.
proof fn lemma_pending_mark(adj: Seq<Seq<usize>>, y: int, done: Seq<usize>, u: usize, i: int)
    requires
        !done.contains(u),
        (u as int) < adj.len(),
        adj.len() <= usize::MAX as nat,
        0 <= i <= adj.len(),
    ensures
        i <= u as int ==> pending(adj, y, done.push(u), i) + cnt(adj[u as int], y) == pending(
            adj,
            y,
            done,
            i,
        ),
        i > u as int ==> pending(adj, y, done.push(u), i) == pending(adj, y, done, i),
    decreases adj.len() - i,
{
    if i < adj.len() {
        lemma_push_contains(done, u, i as usize);
        lemma_pending_mark(adj, y, done, u, i + 1);
    }
}

proof fn lemma_pending_bound(adj: Seq<Seq<usize>>, y: int, done: Seq<usize>, i: int)
    requires
        0 <= i,
    ensures
        pending(adj, y, done, i) <= total_targets(adj, i),
    decreases adj.len() - i,
{
    if i < adj.len() {
        lemma_cnt_le(adj[i], y);
        lemma_pending_bound(adj, y, done, i + 1);
    }
}

/// Nothing pending means every unemitted source has no edge into `y`.
proof fn lemma_pending_zero(adj: Seq<Seq<usize>>, y: int, done: Seq<usize>, i: int)
    requires
        0 <= i,
        adj.len() <= usize::MAX as nat,
        pending(adj, y, done, i) == 0,
    ensures
        forall|u: int|
            i <= u < adj.len() && !done.contains(u as usize) ==> cnt(#[trigger] adj[u], y) == 0,
    decreases adj.len() - i,
{
    if i < adj.len() {
        lemma_pending_zero(adj, y, done, i + 1);
    }
}

/// Every in-neighbour of `w` is already in `done`.
pub open spec fn preds_in(adj: Seq<Seq<usize>>, done: Seq<usize>, w: int) -> bool {
    forall|u: int| 0 <= u < adj.len() && cnt(#[trigger] adj[u], w) > 0 ==> done.contains(u as usize)
}

proof fn lemma_preds_in_push(adj: Seq<Seq<usize>>, done: Seq<usize>, w: int, x: usize)
    requires
        preds_in(adj, done, w),
    ensures
        preds_in(adj, done.push(x), w),
{
    assert forall|u: int|
        0 <= u < adj.len() && cnt(#[trigger] adj[u], w) > 0 implies done.push(x).contains(
        u as usize,
    ) by {
        lemma_push_contains(done, x, u as usize);
    }
}

/// The emitted ids, in emission order.
pub open spec fn out_ids(output: Seq<Vertex>) -> Seq<usize> {
    output.map_values(|v: Vertex| v.spec_index_of() as usize)
}

impl AdjacencyGraph {
    /// The adjacency lists, as plain indices.
    pub closed spec fn adj(self) -> Seq<Seq<usize>> {
        self.0@.map_values(|row: Vec<Vertex>| row@.map_values(|v: Vertex| v.0))
    }

    pub open spec fn count(self) -> nat {
        self.adj().len()
    }

    /// There is an edge from `a` to `b`.
    pub open spec fn edge(self, a: int, b: int) -> bool {
        0 <= a < self.adj().len() && exists|j: int|
            0 <= j < self.adj()[a].len() && (#[trigger] self.adj()[a][j]) as int == b
    }

    /// Every listed target is a vertex of the graph.
    pub open spec fn wf(self) -> bool {
        forall|i: int, j: int|
            0 <= i < self.adj().len() && 0 <= j < self.adj()[i].len() ==> (
            #[trigger] self.adj()[i][j]) < self.adj().len()
    }

    /// Adds an isolated vertex and returns its handle.
    pub fn add_vertex(&mut self) -> (r: Vertex)
        requires
            old(self).wf(),
            old(self).count() < usize::MAX as nat,
        ensures
            final(self).wf(),
            final(self).count() == old(self).count() + 1,
            r.spec_index_of() == old(self).count(),
            final(self).adj() == old(self).adj().push(Seq::<usize>::empty()),
    {
        self.0.push(Vec::new());
        proof {
            assert(self.adj() =~~= old(self).adj().push(Seq::<usize>::empty()));
        }
        Vertex(self.0.len() - 1)
    }

    /// Adds the edge `a -> b`; a no-op if it is already present.
    pub fn add_edge(&mut self, a: Vertex, b: Vertex)
        requires
            old(self).wf(),
            a.spec_index_of() < old(self).count(),
            b.spec_index_of() < old(self).count(),
        ensures
            final(self).wf(),
            final(self).count() == old(self).count(),
            forall|x: int, y: int|
                final(self).edge(x, y) <==> (old(self).edge(x, y) || (x == a.spec_index_of() && y
                    == b.spec_index_of())),
            forall|i: int|
                0 <= i < old(self).count() && i != a.spec_index_of() ==> final(self).adj()[i]
                    == old(self).adj()[i],
            old(self).edge(a.spec_index_of(), b.spec_index_of()) ==> final(self).adj() == old(
                self,
            ).adj(),
    {
        let ghost adj0 = self.adj();
        let ai = a.0;
        let row = &self.0[ai];
        let n = row.len();
        let mut k: usize = 0;
        let mut present = false;
        while k < n
            invariant
                self == old(self),
                self.wf(),
                adj0 == self.adj(),
                ai as int == a.spec_index_of(),
                0 <= ai < adj0.len(),
                n == adj0[ai as int].len(),
                0 <= k <= n,
                present <==> exists|j: int|
                    0 <= j < k && (#[trigger] adj0[ai as int][j]) as int == b.spec_index_of(),
            decreases n - k,
        {
            if self.0[ai][k] == b {
                present = true;
                proof {
                    assert(adj0[ai as int][k as int] as int == b.spec_index_of());
                }
            }
            k += 1;
        }
        if !present {
            let slot = vstd::std_specs::vec::vec_index_mut(&mut self.0, ai);
            slot.push(b);
            proof {
                let adj1 = self.adj();
                assert(adj1.len() == adj0.len());
                assert(forall|i: int| 0 <= i < adj0.len() && i != ai as int ==> adj1[i] == adj0[i]);
                assert(adj1[ai as int] =~= adj0[ai as int].push(b.0));
                assert forall|x: int, y: int|
                    final(self).edge(x, y) <==> (old(self).edge(x, y) || (x == a.spec_index_of()
                        && y == b.spec_index_of())) by {
                    if x == ai as int && 0 <= x < adj1.len() {
                        if old(self).edge(x, y) {
                            let j = choose|j: int|
                                0 <= j < adj0[x].len() && adj0[x][j] as int == y;
                            assert(adj1[x][j] as int == y);
                        }
                        if y == b.spec_index_of() {
                            assert(adj1[x][adj0[x].len() as int] as int == y);
                        }
                        if final(self).edge(x, y) {
                            let j = choose|j: int|
                                0 <= j < adj1[x].len() && adj1[x][j] as int == y;
                            if j < adj0[x].len() {
                                assert(adj0[x][j] as int == y);
                            }
                        }
                    }
                }
            }
        } else {
            proof {
                let j = choose|j: int|
                    0 <= j < n && adj0[ai as int][j] as int == b.spec_index_of();
                assert(old(self).edge(a.spec_index_of(), b.spec_index_of()));
            }
        }
    }

    /// The number of vertices.
    pub fn len(&self) -> (r: usize)
        ensures
            r == self.count(),
    {
        self.0.len()
    }

    /// The targets of the edges leaving vertex `i`.
    pub fn edges_from(&self, i: usize) -> (r: &Vec<Vertex>)
        requires
            (i as int) < self.count(),
        ensures
            r@.map_values(|v: Vertex| v.spec_index_of()) == self.adj()[i as int].map_values(
                |x: usize| x as int,
            ),
    {
        let r = &self.0[i];
        proof {
            assert(r@.map_values(|v: Vertex| v.spec_index_of()) =~= self.adj()[
                i as int].map_values(|x: usize| x as int));
        }
        r
    }

    /// The graph with every edge turned around.
    pub fn reverse(&self) -> (r: Self)
        requires
            self.wf(),
        ensures
            r.wf(),
            r.count() == self.count(),
            forall|x: int, y: int| r.edge(x, y) <==> self.edge(y, x),
    {
        let n = self.0.len();
        let mut rows: Vec<Vec<Vertex>> = Vec::new();
        let mut i: usize = 0;
        while i < n
            invariant
                0 <= i <= n,
                rows@.len() == i,
                forall|k: int| 0 <= k < i ==> (#[trigger] rows@[k])@.len() == 0,
            decreases n - i,
        {
            rows.push(Vec::new());
            i += 1;
        }
        let mut out = AdjacencyGraph(rows);
        proof {
            assert(forall|x: int, y: int| !out.edge(x, y));
            assert(out.adj().len() == n);
        }
        let mut from: usize = 0;
        while from < n
            invariant
                0 <= from <= n,
                n == self.count(),
                self.wf(),
                out.adj().len() == n,
                out.wf(),
                forall|x: int, y: int|
                    out.edge(x, y) <==> (self.edge(y, x) && 0 <= y < from),
            decreases n - from,
        {
            let row_len = self.0[from].len();
            let mut j: usize = 0;
            while j < row_len
                invariant
                    0 <= from < n,
                    0 <= j <= row_len,
                    n == self.count(),
                    self.wf(),
                    row_len == self.adj()[from as int].len(),
                    out.adj().len() == n,
                    out.wf(),
                    forall|x: int, y: int|
                        out.edge(x, y) <==> ((self.edge(y, x) && 0 <= y < from) || (y
                            == from as int && exists|jj: int|
                            0 <= jj < j && (#[trigger] self.adj()[from as int][jj]) as int == x)),
                decreases row_len - j,
            {
                let ghost out0 = out;
                let ghost outadj0 = out.adj();
                let to = self.0[from][j].0;
                proof {
                    assert(self.adj()[from as int][j as int] == to);
                    assert((to as int) < n);
                }
                let slot = vstd::std_specs::vec::vec_index_mut(&mut out.0, to);
                slot.push(Vertex(from));
                proof {
                    let outadj1 = out.adj();
                    assert(outadj1.len() == outadj0.len());
                    assert(forall|k: int|
                        0 <= k < n && k != to as int ==> outadj1[k] == outadj0[k]);
                    assert(outadj1[to as int] =~= outadj0[to as int].push(from));
                    assert forall|x: int, y: int|
                        out.edge(x, y) <==> ((self.edge(y, x) && 0 <= y < from) || (y
                            == from as int && exists|jj: int|
                            0 <= jj < j + 1 && (#[trigger] self.adj()[from as int][jj]) as int
                                == x)) by {
                        let old_rhs = (self.edge(y, x) && 0 <= y < from) || (y == from as int
                            && exists|jj: int|
                            0 <= jj < j && (#[trigger] self.adj()[from as int][jj]) as int == x);
                        let old_edge = 0 <= x < outadj0.len() && exists|k: int|
                            0 <= k < outadj0[x].len() && (#[trigger] outadj0[x][k]) as int == y;
                        assert(out0.edge(x, y) == old_rhs);
                        assert(old_edge == out0.edge(x, y));
                        if x == to as int {
                            if out.edge(x, y) {
                                let k = choose|k: int|
                                    0 <= k < outadj1[x].len() && (#[trigger] outadj1[x][k]) as int
                                        == y;
                                if k < outadj0[x].len() {
                                    assert(outadj0[x][k] as int == y);
                                    assert(old_edge);
                                } else {
                                    assert(outadj1[x][k] == from);
                                    assert(self.adj()[from as int][j as int] as int == x);
                                }
                            }
                            if y == from as int && self.adj()[from as int][j as int] as int == x {
                                assert(outadj1[x][outadj0[x].len() as int] as int == y);
                                assert(out.edge(x, y));
                            }
                            if old_edge {
                                let k = choose|k: int|
                                    0 <= k < outadj0[x].len() && (#[trigger] outadj0[x][k]) as int
                                        == y;
                                assert(outadj1[x][k] as int == y);
                                assert(out.edge(x, y));
                            }
                        } else {
                            if 0 <= x < n {
                                assert(outadj1[x] == outadj0[x]);
                            }
                            if y == from as int && exists|jj: int|
                                0 <= jj < j + 1 && (#[trigger] self.adj()[from as int][jj]) as int
                                    == x {
                                let jj = choose|jj: int|
                                    0 <= jj < j + 1 && (#[trigger] self.adj()[from as int][jj])
                                        as int == x;
                                if jj == j {
                                    assert(self.adj()[from as int][jj] == to);
                                    assert(false);
                                }
                            }
                            if self.edge(y, x) {
                                let k = choose|k: int|
                                    0 <= k < self.adj()[y].len() && (
                                    #[trigger] self.adj()[y][k]) as int == x;
                                assert(0 <= x < n);
                            }
                        }
                    }
                }
                j += 1;
            }
            proof {
                assert forall|x: int, y: int|
                    out.edge(x, y) <==> (self.edge(y, x) && 0 <= y < from + 1) by {
                    if y == from as int && self.edge(y, x) {
                        let jj = choose|jj: int|
                            0 <= jj < self.adj()[y].len() && (#[trigger] self.adj()[y][jj]) as int
                                == x;
                    }
                }
            }
            from += 1;
        }
        out
    }

    /// Kahn's algorithm.  Vertices are emitted once their counted incoming
    /// edges are exhausted; on an acyclic graph that is all of them, while the
    /// vertices of a cycle are never emitted.  The result never repeats a
    /// vertex, and every in-neighbour of an emitted vertex is emitted earlier.
    /// The edge-target total must fit the 64-bit counters.
    pub fn toposort(&self) -> (r: Vec<Vertex>)
        requires
            self.wf(),
            total_targets(self.adj(), 0) < 0x7fff_ffff_ffff_ffff,
        ensures
            r@.len() <= self.count(),
            forall|p: int| 0 <= p < r@.len() ==> (#[trigger] r@[p]).spec_index_of() < self.count(),
            forall|p: int, q: int|
                0 <= p < q < r@.len() ==> r@[p].spec_index_of() != r@[q].spec_index_of(),
            r@.len() == self.count() ==> forall|v: int|
                0 <= v < self.count() ==> #[trigger] appears(r@, v),
            forall|q: int, u: int|
                0 <= q < r@.len() && #[trigger] self.edge(u, r@[q].spec_index_of()) ==> exists|
                    p: int,
                |
                    0 <= p < q && (#[trigger] r@[p]).spec_index_of() == u,
    {
        let ghost am = self.adj();
        let n = self.0.len();
        let mut output: Vec<Vertex> = Vec::new();
        let mut l: std::collections::VecDeque<usize> = std::collections::VecDeque::new();

        // exact counts of incoming edges; the requires keeps them in range
        let mut indegress: Vec<i64> = Vec::new();
        let mut i: usize = 0;
        while i < n
            invariant
                0 <= i <= n,
                indegress@.len() == i,
                forall|y: int| 0 <= y < i ==> #[trigger] indegress@[y] == 0,
            decreases n - i,
        {
            indegress.push(0);
            i += 1;
        }
        proof {
            assert forall|y: int| 0 <= y < n implies #[trigger] indegress@[y] == pend_pre(
                am,
                y,
                0,
            ) by {}
        }
        let mut v: usize = 0;
        while v < n
            invariant
                0 <= v <= n,
                n == self.count(),
                am == self.adj(),
                self.wf(),
                total_targets(am, 0) < 0x7fff_ffff_ffff_ffff,
                indegress@.len() == n,
                forall|y: int|
                    0 <= y < n ==> #[trigger] indegress@[y] == pend_pre(am, y, v as int),
            decreases n - v,
        {
            let row_len = self.0[v].len();
            let mut j: usize = 0;
            while j < row_len
                invariant
                    0 <= v < n,
                    0 <= j <= row_len,
                    n == self.count(),
                    am == self.adj(),
                    self.wf(),
                    total_targets(am, 0) < 0x7fff_ffff_ffff_ffff,
                    row_len == am[v as int].len(),
                    indegress@.len() == n,
                    forall|y: int|
                        0 <= y < n ==> #[trigger] indegress@[y] == pend_pre(am, y, v as int) + cnt(
                            am[v as int].take(j as int),
                            y,
                        ),
                decreases row_len - j,
            {
                let to = self.0[v][j].0;
                proof {
                    assert(am[v as int][j as int] == to);
                    lemma_cnt_take_step(am[v as int], to as int, j as int);
                    lemma_cnt_take_le(am[v as int], to as int, j as int + 1);
                    lemma_pre_bound(am, to as int, v as int + 1);
                    assert(pend_pre(am, to as int, v as int + 1) == pend_pre(am, to as int, v as int)
                        + cnt(am[v as int], to as int));
                }
                let d = indegress[to];
                let slot = vstd::std_specs::vec::vec_index_mut(&mut indegress, to);
                *slot = d + 1;
                proof {
                    assert forall|y: int|
                        0 <= y < n implies #[trigger] indegress@[y] == pend_pre(am, y, v as int)
                        + cnt(am[v as int].take(j as int + 1), y) by {
                        lemma_cnt_take_step(am[v as int], y, j as int);
                    }
                }
                j += 1;
            }
            proof {
                assert forall|y: int|
                    0 <= y < n implies #[trigger] indegress@[y] == pend_pre(
                    am,
                    y,
                    v as int + 1,
                ) by {
                    lemma_cnt_take_all(am[v as int], y);
                }
            }
            v += 1;
        }
        proof {
            assert forall|y: int|
                0 <= y < n implies #[trigger] indegress@[y] == pending(
                am,
                y,
                out_ids(output@),
                0,
            ) by {
                lemma_bridge(am, y, n as int);
                assert(out_ids(output@) =~= Seq::<usize>::empty());
            }
        }

        // seed the queue with the vertices that have no incoming edges
        let ghost mut seen: Set<int> = Set::empty();
        let mut s: usize = 0;
        while s < n
            invariant
                0 <= s <= n,
                n == self.count(),
                am == self.adj(),
                self.wf(),
                indegress@.len() == n,
                output@.len() == 0,
                l@.len() <= s,
                forall|p: int| 0 <= p < l@.len() ==> (#[trigger] l@[p]) < s,
                forall|p: int, q: int| 0 <= p < q < l@.len() ==> l@[p] != l@[q],
                forall|p: int| 0 <= p < l@.len() ==> seen.contains((#[trigger] l@[p]) as int),
                forall|x: int| seen.contains(x) ==> 0 <= x < n && indegress@[x] <= 0,
                forall|y: int|
                    0 <= y < n ==> #[trigger] indegress@[y] == pending(am, y, out_ids(output@), 0),
                forall|p: int|
                    0 <= p < l@.len() ==> preds_in(am, out_ids(output@), (#[trigger] l@[p]) as int),
            decreases n - s,
        {
            if indegress[s] == 0 {
                proof {
                    lemma_pending_zero(am, s as int, out_ids(output@), 0);
                    assert(preds_in(am, out_ids(output@), s as int));
                }
                l.push_back(s);
                proof {
                    seen = seen.insert(s as int);
                }
            }
            s += 1;
        }

        // emit ready vertices, releasing their outgoing edges
        loop
            invariant
                n == self.count(),
                am == self.adj(),
                self.wf(),
                indegress@.len() == n,
                output@.len() + l@.len() <= n,
                forall|p: int| 0 <= p < output@.len() ==> (#[trigger] output@[p]).spec_index_of()
                    < n,
                forall|p: int| 0 <= p < l@.len() ==> (#[trigger] l@[p]) < n,
                forall|p: int, q: int|
                    0 <= p < q < output@.len() ==> output@[p].spec_index_of()
                        != output@[q].spec_index_of(),
                forall|p: int, q: int| 0 <= p < q < l@.len() ==> l@[p] != l@[q],
                forall|p: int, q: int|
                    0 <= p < output@.len() && 0 <= q < l@.len() ==> (
                    #[trigger] output@[p]).spec_index_of() != (#[trigger] l@[q]) as int,
                forall|p: int|
                    0 <= p < output@.len() ==> seen.contains(
                        (#[trigger] output@[p]).spec_index_of(),
                    ),
                forall|p: int| 0 <= p < l@.len() ==> seen.contains((#[trigger] l@[p]) as int),
                forall|x: int| seen.contains(x) ==> 0 <= x < n && indegress@[x] <= 0,
                forall|y: int|
                    0 <= y < n ==> #[trigger] indegress@[y] == pending(am, y, out_ids(output@), 0),
                forall|p: int|
                    0 <= p < l@.len() ==> preds_in(am, out_ids(output@), (#[trigger] l@[p]) as int),
                forall|q: int|
                    0 <= q < output@.len() ==> preds_in(
                        am,
                        out_ids(output@).take(q),
                        (#[trigger] output@[q]).spec_index_of(),
                    ),
            decreases n - output@.len(), l@.len(),
        {
            let ghost l_pre = l@;
            let popped = l.pop_front();
            match popped {
                None => {
                    break ;
                },
                Some(v2) => {
                    let ghost out_old = output@;
                    let ghost ids_old = out_ids(out_old);
                    proof {
                        assert(l_pre[0] == v2);
                        assert(preds_in(am, ids_old, v2 as int));
                        assert(!ids_old.contains(v2)) by {
                            if ids_old.contains(v2) {
                                let p = choose|p: int| 0 <= p < ids_old.len() && ids_old[p] == v2;
                                assert(out_old[p].spec_index_of() == v2 as int);
                                assert(out_old[p].spec_index_of() != l_pre[0] as int);
                            }
                        }
                    }
                    output.push(Vertex(v2));
                    proof {
                        let ids_new = out_ids(output@);
                        assert(ids_new =~= ids_old.push(v2));
                        assert forall|y: int|
                            0 <= y < n implies #[trigger] indegress@[y] + cnt(
                            am[v2 as int].take(0),
                            y,
                        ) == pending(am, y, ids_new, 0) + cnt(am[v2 as int], y) by {
                            lemma_pending_mark(am, y, ids_old, v2, 0);
                            lemma_cnt_take_le(am[v2 as int], y, 0);
                            assert(cnt(am[v2 as int].take(0), y) == 0) by {
                                assert(am[v2 as int].take(0) =~= Seq::<usize>::empty());
                                lemma_cnt_le(Seq::<usize>::empty(), y);
                            }
                        }
                        // the order property for the newly emitted vertex
                        assert(ids_new.take(out_old.len() as int) =~= ids_old);
                        assert forall|q: int|
                            0 <= q < output@.len() implies preds_in(
                            am,
                            out_ids(output@).take(q),
                            (#[trigger] output@[q]).spec_index_of(),
                        ) by {
                            if q < out_old.len() {
                                assert(ids_new.take(q) =~= ids_old.take(q));
                                assert(output@[q] == out_old[q]);
                            } else {
                                assert(output@[q].spec_index_of() == v2 as int);
                                assert(ids_new.take(q) =~= ids_old);
                            }
                        }
                        // the queue keeps its property under the grown output
                        assert forall|p: int|
                            0 <= p < l@.len() implies preds_in(
                            am,
                            out_ids(output@),
                            (#[trigger] l@[p]) as int,
                        ) by {
                            assert(l@[p] == l_pre[p + 1]);
                            lemma_preds_in_push(am, ids_old, l_pre[p + 1] as int, v2);
                        }
                        // distinctness gives the pigeonhole bound
                        let outs = output@.map_values(|vv: Vertex| vv.spec_index_of());
                        let ls = l@.map_values(|x: usize| x as int);
                        let all = outs + ls;
                        assert(all.no_duplicates()) by {
                            assert forall|p: int, q: int|
                                0 <= p < q < all.len() implies all[p] != all[q] by {
                                if q < outs.len() {
                                    assert(output@[p].spec_index_of()
                                        != output@[q].spec_index_of());
                                } else if p < outs.len() {
                                    assert(l@[q - outs.len()] == l_pre[q - outs.len() + 1]);
                                    assert(output@[p].spec_index_of() != (l@[q
                                        - outs.len()]) as int);
                                } else {
                                    assert(l@[p - outs.len()] != l@[q - outs.len()]);
                                }
                            }
                        }
                        assert(forall|p: int| 0 <= p < all.len() ==> 0 <= #[trigger] all[p] < n);
                        lemma_distinct_below(all, n as int);
                        assert(output@.len() + l@.len() <= n);
                    }
                    let ghost ids_new = out_ids(output@);
                    let row_len = self.0[v2].len();
                    let mut c: usize = 0;
                    while c < row_len
                        invariant
                            0 <= c <= row_len,
                            v2 < n,
                            n == self.count(),
                            am == self.adj(),
                            self.wf(),
                            row_len == am[v2 as int].len(),
                            indegress@.len() == n,
                            output@.len() + l@.len() <= n,
                            ids_new == out_ids(output@),
                            forall|p: int|
                                0 <= p < output@.len() ==> (
                                #[trigger] output@[p]).spec_index_of() < n,
                            forall|p: int| 0 <= p < l@.len() ==> (#[trigger] l@[p]) < n,
                            forall|p: int, q: int|
                                0 <= p < q < output@.len() ==> output@[p].spec_index_of()
                                    != output@[q].spec_index_of(),
                            forall|p: int, q: int| 0 <= p < q < l@.len() ==> l@[p] != l@[q],
                            forall|p: int, q: int|
                                0 <= p < output@.len() && 0 <= q < l@.len() ==> (
                                #[trigger] output@[p]).spec_index_of() != (
                                #[trigger] l@[q]) as int,
                            forall|p: int|
                                0 <= p < output@.len() ==> seen.contains(
                                    (#[trigger] output@[p]).spec_index_of(),
                                ),
                            forall|p: int|
                                0 <= p < l@.len() ==> seen.contains((#[trigger] l@[p]) as int),
                            forall|x: int| seen.contains(x) ==> 0 <= x < n && indegress@[x] <= 0,
                            forall|y: int|
                                0 <= y < n ==> #[trigger] indegress@[y] + cnt(
                                    am[v2 as int].take(c as int),
                                    y,
                                ) == pending(am, y, ids_new, 0) + cnt(am[v2 as int], y),
                            forall|p: int|
                                0 <= p < l@.len() ==> preds_in(
                                    am,
                                    out_ids(output@),
                                    (#[trigger] l@[p]) as int,
                                ),
                            forall|q: int|
                                0 <= q < output@.len() ==> preds_in(
                                    am,
                                    out_ids(output@).take(q),
                                    (#[trigger] output@[q]).spec_index_of(),
                                ),
                        decreases row_len - c,
                    {
                        let to = self.0[v2][c].0;
                        proof {
                            assert(am[v2 as int][c as int] == to);
                            lemma_cnt_take_step(am[v2 as int], to as int, c as int);
                            lemma_cnt_take_le(am[v2 as int], to as int, c as int + 1);
                        }
                        let d = indegress[to];
                        let slot = vstd::std_specs::vec::vec_index_mut(&mut indegress, to);
                        *slot = d - 1;
                        proof {
                            assert forall|y: int|
                                0 <= y < n implies #[trigger] indegress@[y] + cnt(
                                am[v2 as int].take(c as int + 1),
                                y,
                            ) == pending(am, y, ids_new, 0) + cnt(am[v2 as int], y) by {
                                lemma_cnt_take_step(am[v2 as int], y, c as int);
                            }
                        }
                        if indegress[to] == 0 {
                            proof {
                                assert(!seen.contains(to as int));
                                assert(pending(am, to as int, ids_new, 0) == 0) by {
                                    lemma_cnt_take_le(am[v2 as int], to as int, c as int + 1);
                                }
                                lemma_pending_zero(am, to as int, ids_new, 0);
                                assert(preds_in(am, out_ids(output@), to as int));
                            }
                            l.push_back(to);
                            proof {
                                seen = seen.insert(to as int);
                                assert(l@[l@.len() - 1] == to);
                                assert(forall|p: int| 0 <= p < l@.len() - 1 ==> l@[p] != to);
                                let outs = output@.map_values(|vv: Vertex| vv.spec_index_of());
                                let ls = l@.map_values(|x: usize| x as int);
                                let all = outs + ls;
                                assert(all.no_duplicates()) by {
                                    assert forall|p: int, q: int|
                                        0 <= p < q < all.len() implies all[p] != all[q] by {
                                        if q < outs.len() {
                                            assert(output@[p].spec_index_of()
                                                != output@[q].spec_index_of());
                                        } else if p < outs.len() {
                                            assert(output@[p].spec_index_of() != (l@[q
                                                - outs.len()]) as int);
                                        } else {
                                            assert(l@[p - outs.len()] != l@[q - outs.len()]);
                                        }
                                    }
                                }
                                assert(forall|p: int|
                                    0 <= p < all.len() ==> 0 <= #[trigger] all[p] < n);
                                lemma_distinct_below(all, n as int);
                            }
                        }
                        c += 1;
                    }
                    proof {
                        assert forall|y: int|
                            0 <= y < n implies #[trigger] indegress@[y] == pending(
                            am,
                            y,
                            out_ids(output@),
                            0,
                        ) by {
                            lemma_cnt_take_all(am[v2 as int], y);
                        }
                    }
                },
            }
        }
        proof {
            if output@.len() == n {
                let outs = output@.map_values(|vv: Vertex| vv.spec_index_of());
                assert(outs.no_duplicates());
                outs.unique_seq_to_set();
                lemma_int_range(0, n as int);
                assert(outs.to_set().subset_of(set_int_range(0, n as int))) by {
                    assert forall|z: int| outs.to_set().contains(z) implies set_int_range(
                        0,
                        n as int,
                    ).contains(z) by {
                        assert(outs.contains(z));
                        let k = choose|k: int| 0 <= k < outs.len() && outs[k] == z;
                    }
                }
                assert forall|v3: int| 0 <= v3 < n implies #[trigger] appears(output@, v3) by {
                    assert(outs.to_set().contains(v3)) by {
                        if !outs.to_set().contains(v3) {
                            outs.to_set().lemma_subset_not_in_lt(set_int_range(0, n as int), v3);
                        }
                    }
                    assert(outs.contains(v3));
                    let p = choose|p: int| 0 <= p < outs.len() && outs[p] == v3;
                    assert(output@[p].spec_index_of() == v3);
                }
            }
            // the order property, from the per-prefix invariant
            assert forall|q: int, u: int|
                0 <= q < output@.len() && #[trigger] self.edge(
                    u,
                    output@[q].spec_index_of(),
                ) implies exists|p: int|
                0 <= p < q && (#[trigger] output@[p]).spec_index_of() == u by {
                let w = output@[q].spec_index_of();
                assert(preds_in(am, out_ids(output@).take(q), w));
                assert(cnt(am[u], w) > 0) by {
                    lemma_cnt_pos(am[u], w);
                }
                assert(out_ids(output@).take(q).contains(u as usize));
                let p = choose|p: int|
                    0 <= p < out_ids(output@).take(q).len() && out_ids(output@).take(q)[p]
                        == u as usize;
                assert(output@[p].spec_index_of() == u);
            }
        }
        output
    }
}

impl AdjacencyGraph {
    /// The adjacency-list graph holding one vertex per generator vertex and
    /// every edge the generator lists.
    pub fn from_generator(g: &crate::rand_graph::DAGGenerator) -> (r: AdjacencyGraph)
        requires
            g.wf(),
            g.order() < usize::MAX as nat,
        ensures
            r.wf(),
            r.count() == g.order(),
            forall|x: int, y: int| r.edge(x, y) ==> g.has(x, y),
    {
        let mut g2 = AdjacencyGraph::default();
        let n = g.vertex_count();
        let mut vs: Vec<Vertex> = Vec::new();
        let mut i: usize = 0;
        while i < n
            invariant
                0 <= i <= n,
                n == g.order(),
                g2.wf(),
                g2.count() == i,
                vs@.len() == i,
                forall|k: int| 0 <= k < i ==> (#[trigger] vs@[k]).spec_index_of() == k,
                forall|x: int, y: int| !g2.edge(x, y),
            decreases n - i,
        {
            let ghost g2_pre = g2;
            let v = g2.add_vertex();
            vs.push(v);
            proof {
                assert forall|x: int, y: int| !g2.edge(x, y) by {
                    if g2.edge(x, y) {
                        let jj = choose|jj: int|
                            0 <= jj < g2.adj()[x].len() && (#[trigger] g2.adj()[x][jj]) as int == y;
                        if x < i {
                            assert(g2.adj()[x] == g2_pre.adj()[x]);
                            assert(g2_pre.edge(x, y));
                        }
                    }
                }
            }
            i += 1;
        }
        let listed = g.iter_edges();
        let m = listed.len();
        let mut k: usize = 0;
        while k < m
            invariant
                0 <= k <= m,
                n == g.order(),
                g.wf(),
                m == listed@.len(),
                g2.wf(),
                g2.count() == n,
                vs@.len() == n,
                forall|p: int| 0 <= p < n ==> (#[trigger] vs@[p]).spec_index_of() == p,
                forall|p: int|
                    0 <= p < m ==> g.has((#[trigger] listed@[p]).0 as int, listed@[p].1 as int),
                forall|x: int, y: int| g2.edge(x, y) ==> g.has(x, y),
            decreases m - k,
        {
            let (a, b) = listed[k];
            proof {
                assert(g.has(a as int, b as int));
                assert(g.mat()[a as int].len() == g.order());
            }
            let ghost g2_pre = g2;
            g2.add_edge(vs[a], vs[b]);
            proof {
                assert forall|x: int, y: int| g2.edge(x, y) implies g.has(x, y) by {
                    if !(x == a as int && y == b as int) {
                        assert(g2_pre.edge(x, y));
                    }
                }
            }
            k += 1;
        }
        g2
    }
}

impl Default for AdjacencyGraph {
    /// The empty graph.
    fn default() -> (r: Self)
        ensures
            r.wf(),
            r.count() == 0,
    {
        AdjacencyGraph(Vec::new())
    }
}

} // verus!
