//! Random directed acyclic graph generation over an adjacency matrix.
//!
//! Candidate edges are drawn at random; an edge is inserted only when the
//! reverse direction is unreachable, so no insertion can close a cycle.

use vstd::prelude::*;
use crate::seq_facts::lemma_distinct_below;

verus! {

/// True cells in one matrix row.
pub open spec fn row_count(r: Seq<bool>) -> nat
    decreases r.len(),
{
    if r.len() == 0 {
        0
    } else {
        row_count(r.drop_last()) + if r.last() {
            1nat
        } else {
            0nat
        }
    }
}

/// True cells in the whole matrix.
pub open spec fn mat_count(m: Seq<Seq<bool>>) -> nat
    decreases m.len(),
{
    if m.len() == 0 {
        0
    } else {
        mat_count(m.drop_last()) + row_count(m.last())
    }
}

proof fn lemma_row_count_zero(r: Seq<bool>)
    requires
        forall|k: int| 0 <= k < r.len() ==> !r[k],
    ensures
        row_count(r) == 0,
    decreases r.len(),
{
    if r.len() > 0 {
        lemma_row_count_zero(r.drop_last());
    }
}

proof fn lemma_row_count_le(r: Seq<bool>)
    ensures
        row_count(r) <= r.len(),
    decreases r.len(),
{
    if r.len() > 0 {
        lemma_row_count_le(r.drop_last());
    }
}

proof fn lemma_row_count_update(r: Seq<bool>, j: int, b: bool)
    requires
        0 <= j < r.len(),
    ensures
        row_count(r.update(j, b)) + (if r[j] {
            1nat
        } else {
            0nat
        }) == row_count(r) + (if b {
            1nat
        } else {
            0nat
        }),
    decreases r.len(),
{
    let r2 = r.update(j, b);
    if j == r.len() - 1 {
        assert(r2.drop_last() =~= r.drop_last());
    } else {
        assert(r2.drop_last() =~= r.drop_last().update(j, b));
        lemma_row_count_update(r.drop_last(), j, b);
    }
}

proof fn lemma_mat_count_update(m: Seq<Seq<bool>>, i: int, row2: Seq<bool>)
    requires
        0 <= i < m.len(),
    ensures
        mat_count(m.update(i, row2)) + row_count(m[i]) == mat_count(m) + row_count(row2),
    decreases m.len(),
{
    let m2 = m.update(i, row2);
    if i == m.len() - 1 {
        assert(m2.drop_last() =~= m.drop_last());
    } else {
        assert(m2.drop_last() =~= m.drop_last().update(i, row2));
        assert(m2.last() == m.last());
        lemma_mat_count_update(m.drop_last(), i, row2);
    }
}

proof fn lemma_mat_count_bound(m: Seq<Seq<bool>>, n: nat)
    requires
        forall|i: int| 0 <= i < m.len() ==> (#[trigger] m[i]).len() == n,
    ensures
        mat_count(m) <= m.len() * n,
    decreases m.len(),
{
    if m.len() > 0 {
        lemma_mat_count_bound(m.drop_last(), n);
        lemma_row_count_le(m.last());
        assert(mat_count(m) <= (m.len() - 1) * n + n) by (nonlinear_arith)
            requires
                mat_count(m.drop_last()) <= (m.len() - 1) * n,
                row_count(m.last()) <= n,
                mat_count(m) == mat_count(m.drop_last()) + row_count(m.last()),
        ;
        assert((m.len() - 1) * n + n == m.len() * n) by (nonlinear_arith);
    }
}

/// The pair `(a, b)` occurs in an edge list.
pub open spec fn edge_listed(s: Seq<(usize, usize)>, a: int, b: int) -> bool {
    exists|k: int| 0 <= k < s.len() && (#[trigger] s[k]).0 == a && s[k].1 == b
}

/// An edge is present in the matrix.
pub open spec fn mat_has(m: Seq<Seq<bool>>, i: int, j: int) -> bool {
    0 <= i < m.len() && 0 <= j < m[i].len() && m[i][j]
}

/// `p` is a walk through present edges from `i` to `j`.
pub open spec fn path_ok(m: Seq<Seq<bool>>, p: Seq<int>, i: int, j: int) -> bool {
    &&& p.len() >= 1
    &&& p[0] == i
    &&& p[p.len() - 1] == j
    &&& forall|k: int| 0 <= k < p.len() - 1 ==> mat_has(m, #[trigger] p[k], p[k + 1])
}

/// `j` can be reached from `i` along present edges (trivially when `i == j`).
pub open spec fn reach(m: Seq<Seq<bool>>, i: int, j: int) -> bool {
    exists|p: Seq<int>| path_ok(m, p, i, j)
}

proof fn lemma_reach_self(m: Seq<Seq<bool>>, i: int)
    ensures
        reach(m, i, i),
{
    let p = seq![i];
    assert(path_ok(m, p, i, i));
}

proof fn lemma_reach_step(m: Seq<Seq<bool>>, i: int, v: int, y: int)
    requires
        reach(m, i, v),
        mat_has(m, v, y),
    ensures
        reach(m, i, y),
{
    let p = choose|p: Seq<int>| path_ok(m, p, i, v);
    let p2 = p.push(y);
    assert(p2[p2.len() - 2] == v);
    assert forall|k: int| 0 <= k < p2.len() - 1 implies mat_has(m, #[trigger] p2[k], p2[k + 1]) by {
        if k < p.len() - 1 {
            assert(p2[k] == p[k] && p2[k + 1] == p[k + 1]);
        }
    }
    assert(path_ok(m, p2, i, y));
}

/// A set closed under present edges and holding `i` holds everything `i`
/// reaches.
proof fn lemma_closed_reach(m: Seq<Seq<bool>>, s: Set<int>, p: Seq<int>, i: int, j: int)
    requires
        path_ok(m, p, i, j),
        s.contains(i),
        forall|x: int, y: int| s.contains(x) && mat_has(m, x, y) ==> s.contains(y),
    ensures
        s.contains(j),
    decreases p.len(),
{
    if p.len() > 1 {
        assert(mat_has(m, p[0], p[1]));
        let p2 = p.drop_first();
        assert forall|k: int| 0 <= k < p2.len() - 1 implies mat_has(
            m,
            #[trigger] p2[k],
            p2[k + 1],
        ) by {
            assert(p2[k] == p[k + 1] && p2[k + 1] == p[k + 2]);
        }
        assert(path_ok(m, p2, p[1], j));
        lemma_closed_reach(m, s, p2, p[1], j);
    }
}

/// The edges of row `i` from column `j` on, in column order.
pub open spec fn row_edges(i: usize, row: Seq<bool>, j: int) -> Seq<(usize, usize)>
    decreases row.len() - j,
{
    if j < 0 || j >= row.len() {
        Seq::<(usize, usize)>::empty()
    } else {
        (if row[j] {
            seq![(i, j as usize)]
        } else {
            Seq::<(usize, usize)>::empty()
        }) + row_edges(i, row, j + 1)
    }
}

/// Every present edge of the matrix from row `i` on, in row-major order.
pub open spec fn mat_edges(m: Seq<Seq<bool>>, i: int) -> Seq<(usize, usize)>
    decreases m.len() - i,
{
    if i < 0 || i >= m.len() {
        Seq::<(usize, usize)>::empty()
    } else {
        row_edges(i as usize, m[i], 0) + mat_edges(m, i + 1)
    }
}

proof fn lemma_row_edges_props(i: usize, row: Seq<bool>, j: int)
    requires
        0 <= j,
        row.len() <= usize::MAX as nat,
    ensures
        forall|k: int|
            0 <= k < row_edges(i, row, j).len() ==> ((#[trigger] row_edges(i, row, j)[k]).0 == i
                && j <= row_edges(i, row, j)[k].1 < row.len() && row[row_edges(
                i,
                row,
                j,
            )[k].1 as int]),
    decreases row.len() - j,
{
    if 0 <= j < row.len() {
        lemma_row_edges_props(i, row, j + 1);
        let cur = row_edges(i, row, j);
        let rest = row_edges(i, row, j + 1);
        assert forall|k: int|
            0 <= k < cur.len() implies ((#[trigger] cur[k]).0 == i && j <= cur[k].1 < row.len()
                && row[cur[k].1 as int]) by {
            if row[j] {
                if k == 0 {
                    assert(cur[0] == (i, j as usize));
                } else {
                    assert(cur[k] == rest[k - 1]);
                }
            } else {
                assert(cur[k] == rest[k]);
            }
        }
    }
}

/// Each listed pair is a present edge.
proof fn lemma_mat_edges_sound(m: Seq<Seq<bool>>, i: int)
    requires
        0 <= i,
        m.len() <= usize::MAX as nat,
        forall|r: int| 0 <= r < m.len() ==> (#[trigger] m[r]).len() <= usize::MAX as nat,
    ensures
        forall|k: int|
            0 <= k < mat_edges(m, i).len() ==> mat_has(
                m,
                (#[trigger] mat_edges(m, i)[k]).0 as int,
                mat_edges(m, i)[k].1 as int,
            ),
    decreases m.len() - i,
{
    if i < m.len() {
        lemma_row_edges_props(i as usize, m[i], 0);
        lemma_mat_edges_sound(m, i + 1);
        let head = row_edges(i as usize, m[i], 0);
        let tail = mat_edges(m, i + 1);
        assert forall|k: int|
            0 <= k < mat_edges(m, i).len() implies mat_has(
            m,
            (#[trigger] mat_edges(m, i)[k]).0 as int,
            mat_edges(m, i)[k].1 as int,
        ) by {
            if k < head.len() {
                assert(mat_edges(m, i)[k] == head[k]);
            } else {
                assert(mat_edges(m, i)[k] == tail[k - head.len()]);
            }
        }
    }
}

/// The listing has exactly one entry per present edge.
proof fn lemma_row_edges_len(i: usize, row: Seq<bool>, j: int)
    requires
        0 <= j <= row.len(),
    ensures
        row_edges(i, row, j).len() + row_count(row.take(j)) == row_count(row),
    decreases row.len() - j,
{
    if j == row.len() {
        assert(row.take(j) =~= row);
    } else {
        lemma_row_edges_len(i, row, j + 1);
        assert(row.take(j + 1) =~= row.take(j).push(row[j]));
        lemma_row_count_push(row.take(j), row[j]);
    }
}

proof fn lemma_row_count_push(s: Seq<bool>, b: bool)
    ensures
        row_count(s.push(b)) == row_count(s) + (if b {
            1nat
        } else {
            0nat
        }),
{
    assert(s.push(b).drop_last() =~= s);
}

proof fn lemma_mat_edges_len(m: Seq<Seq<bool>>, i: int)
    requires
        0 <= i,
    ensures
        mat_edges(m, i).len() == mat_count_from(m, i),
    decreases m.len() - i,
{
    if i < m.len() {
        lemma_row_edges_len(i as usize, m[i], 0);
        assert(m[i].take(0) =~= Seq::<bool>::empty());
        assert(row_count(Seq::<bool>::empty()) == 0);
        lemma_mat_edges_len(m, i + 1);
    }
}

/// The count of true cells from row `i` on.
pub open spec fn mat_count_from(m: Seq<Seq<bool>>, i: int) -> nat
    decreases m.len() - i,
{
    if i < 0 || i >= m.len() {
        0
    } else {
        row_count(m[i]) + mat_count_from(m, i + 1)
    }
}

proof fn lemma_mat_count_from(m: Seq<Seq<bool>>, i: int)
    requires
        0 <= i <= m.len(),
    ensures
        mat_count_from(m, i) + mat_count(m.take(i)) == mat_count(m),
    decreases m.len() - i,
{
    if i == m.len() {
        assert(m.take(i) =~= m);
    } else {
        lemma_mat_count_from(m, i + 1);
        assert(m.take(i + 1) =~= m.take(i).push(m[i]));
        assert(m.take(i + 1).drop_last() =~= m.take(i));
    }
}

/// A directed graph held as a square boolean adjacency matrix, in row-major
/// order: `mat()[i][j]` says the edge from `i` to `j` is present.
pub struct DAGGenerator {
    edges: Vec<Vec<bool>>,
    edge_count: usize,
}

impl DAGGenerator {
    /// The adjacency matrix.
    pub closed spec fn mat(self) -> Seq<Seq<bool>> {
        self.edges@.map_values(|row: Vec<bool>| row@)
    }

    pub open spec fn order(self) -> nat {
        self.mat().len()
    }

    /// The matrix view mirrors the vectors row by row.
    proof fn mat_facts(self)
        ensures
            self.mat().len() == self.edges@.len(),
            forall|i: int|
                0 <= i < self.edges@.len() ==> (#[trigger] self.mat()[i]) == self.edges@[i]@,
    {
    }

    /// The edge from `i` to `j` is present.
    pub open spec fn has(self, i: int, j: int) -> bool {
        mat_has(self.mat(), i, j)
    }

    /// The stored edge count.
    pub closed spec fn count_spec(self) -> nat {
        self.edge_count as nat
    }

    /// A square matrix whose stored edge count matches the true cells.
    pub open spec fn wf(self) -> bool {
        &&& forall|i: int| 0 <= i < self.mat().len() ==> (#[trigger] self.mat()[i]).len()
            == self.mat().len()
        &&& self.count_spec() == mat_count(self.mat())
    }

    /// An `n` by `n` graph with no edges.
    pub fn new_empty(n: usize) -> (g: DAGGenerator)
        ensures
            g.wf(),
            g.order() == n,
            forall|i: int, j: int| !g.has(i, j),
            g.count_spec() == 0,
    {
        let mut rows: Vec<Vec<bool>> = Vec::new();
        let mut i: usize = 0;
        while i < n
            invariant
                0 <= i <= n,
                rows@.len() == i,
                forall|k: int|
                    0 <= k < i ==> (#[trigger] rows@[k])@.len() == n && forall|j: int|
                        0 <= j < n ==> !(#[trigger] rows@[k]@[j]),
            decreases n - i,
        {
            let mut row: Vec<bool> = Vec::new();
            let mut j: usize = 0;
            while j < n
                invariant
                    0 <= j <= n,
                    row@.len() == j,
                    forall|k: int| 0 <= k < j ==> !(#[trigger] row@[k]),
                decreases n - j,
            {
                row.push(false);
                j += 1;
            }
            rows.push(row);
            i += 1;
        }
        let g = DAGGenerator { edges: rows, edge_count: 0 };
        proof {
            assert(g.mat().len() == n);
            assert(mat_count(g.mat()) == 0) by {
                lemma_all_false_mat(g.mat());
            }
        }
        g
    }

    /// The number of vertices.
    pub fn vertex_count(&self) -> (r: usize)
        ensures
            r == self.order(),
    {
        self.edges.len()
    }

    /// Whether the edge `(i, j)` is present.
    pub fn has_edge(&self, edge: (usize, usize)) -> (r: bool)
        requires
            self.wf(),
            (edge.0 as int) < self.order(),
            (edge.1 as int) < self.order(),
        ensures
            r == self.has(edge.0 as int, edge.1 as int),
    {
        proof {
            self.mat_facts();
            assert(self.mat()[edge.0 as int].len() == self.order());
        }
        let (i, j) = edge;
        self.edges[i][j]
    }

    /// Removes the edge `(i, j)` if present.
    pub fn remove_edge(&mut self, edge: (usize, usize))
        requires
            old(self).wf(),
            (edge.0 as int) < old(self).order(),
            (edge.1 as int) < old(self).order(),
        ensures
            final(self).wf(),
            final(self).order() == old(self).order(),
            !final(self).has(edge.0 as int, edge.1 as int),
            forall|x: int, y: int|
                (x, y) != (edge.0 as int, edge.1 as int) ==> final(self).has(x, y) == old(
                    self,
                ).has(x, y),
            final(self).count_spec() == if old(self).has(edge.0 as int, edge.1 as int) {
                old(self).count_spec() - 1
            } else {
                old(self).count_spec() as int
            },
    {
        let (i, j) = edge;
        if self.has_edge(edge) {
            let ghost m0 = self.mat();
            proof {
                self.mat_facts();
                assert(self.mat()[i as int].len() == self.order());
                lemma_row_count_update(m0[i as int], j as int, false);
                lemma_mat_count_update(m0, i as int, m0[i as int].update(j as int, false));
            }
            let row = vstd::std_specs::vec::vec_index_mut(&mut self.edges, i);
            let cell = vstd::std_specs::vec::vec_index_mut(row, j);
            *cell = false;
            self.edge_count = self.edge_count - 1;
            proof {
                self.mat_facts();
                let m1 = self.mat();
                assert(m1 =~~= m0.update(i as int, m0[i as int].update(j as int, false)));
                assert forall|x: int, y: int|
                    !(x == i as int && y == j as int) implies self.has(x, y) == old(self).has(
                    x,
                    y,
                ) by {
                    if 0 <= x < m0.len() {
                        if x != i as int {
                            assert(m1[x] == m0[x]);
                        }
                    }
                }
            }
        }
    }

    /// Whether `j` can be reached from `i` along present edges; `i` reaches
    /// itself.  A depth-first search over the matrix.
    #[verifier::rlimit(100)]
    pub fn connected(&self, i: usize, j: usize) -> (r: bool)
        requires
            self.wf(),
            (i as int) < self.order(),
            (j as int) < self.order(),
        ensures
            r == reach(self.mat(), i as int, j as int),
    {
        let ghost m = self.mat();
        let n = self.edges.len();
        proof {
            self.mat_facts();
        }
        if i == j {
            proof {
                lemma_reach_self(m, i as int);
            }
            return true;
        }
        let mut x: Vec<usize> = Vec::new();
        x.push(i);
        let mut visited: Vec<usize> = Vec::new();
        proof {
            assert(x@[0] == i);
            assert(x@.contains(i));
            lemma_reach_self(m, i as int);
        }

        loop
            invariant
                self.wf(),
                m == self.mat(),
                n == self.order(),
                (i as int) < n,
                (j as int) < n,
                i != j,
                forall|k: int|
                    0 <= k < x@.len() ==> (#[trigger] x@[k]) < n && reach(m, i as int, x@[k] as int)
                        && x@[k] != j,
                forall|k: int|
                    0 <= k < visited@.len() ==> (#[trigger] visited@[k]) < n && reach(
                        m,
                        i as int,
                        visited@[k] as int,
                    ) && visited@[k] != j,
                forall|p: int, q: int| 0 <= p < q < visited@.len() ==> visited@[p] != visited@[q],
                x@.contains(i) || visited@.contains(i),
                forall|v: int, y: int|
                    visited@.contains(v as usize) && 0 <= v < n && mat_has(m, v, y) && 0 <= y
                        < n ==> (visited@.contains(y as usize) || x@.contains(y as usize)),
                visited@.len() <= n,
            ensures
                x@.len() == 0,
                visited@.contains(i),
                forall|k: int|
                    0 <= k < visited@.len() ==> (#[trigger] visited@[k]) < n && visited@[k] != j,
                forall|v: int, y: int|
                    visited@.contains(v as usize) && 0 <= v < n && mat_has(m, v, y) && 0 <= y
                        < n ==> visited@.contains(y as usize),
            decreases n - visited@.len(), x@.len(),
        {
            let ghost x_pre = x@;
            let ghost visited_pre = visited@;
            let popped = x.pop();
            match popped {
                None => {
                    break ;
                },
                Some(v) => {
                    proof {
                        assert(x_pre =~= x@.push(v));
                        assert(x_pre[x_pre.len() - 1] == v);
                        assert(x_pre.contains(v));
                        assert((v as int) < n && reach(m, i as int, v as int) && v != j);
                    }
                    if contains_idx(&visited, v) {
                        proof {
                            assert forall|vv: int, y: int|
                                visited@.contains(vv as usize) && 0 <= vv < n && mat_has(m, vv, y)
                                    && 0 <= y < n implies (visited@.contains(y as usize)
                                || x@.contains(y as usize)) by {
                                if x_pre.contains(y as usize) {
                                    let k = choose|k: int|
                                        0 <= k < x_pre.len() && x_pre[k] == y as usize;
                                    if k < x@.len() {
                                        assert(x@[k] == y as usize);
                                    } else {
                                        assert(y as usize == v);
                                    }
                                }
                            }
                            if x_pre.contains(i) {
                                let k = choose|k: int| 0 <= k < x_pre.len() && x_pre[k] == i;
                                if k < x@.len() {
                                    assert(x@[k] == i);
                                } else {
                                    assert(i == v);
                                }
                            }
                        }
                        continue ;
                    }
                    visited.push(v);
                    proof {
                        assert(visited@ =~= visited_pre.push(v));
                        assert(visited@[visited@.len() - 1] == v);
                        assert(visited@.contains(v));
                        assert(!visited_pre.contains(v));
                        assert forall|p: int, q: int|
                            0 <= p < q < visited@.len() implies visited@[p] != visited@[q] by {
                            if q == visited@.len() - 1 {
                                assert(visited_pre[p] == visited@[p]);
                                assert(visited_pre.contains(visited_pre[p]));
                            }
                        }
                        let vs = visited@.map_values(|u: usize| u as int);
                        assert(vs.no_duplicates());
                        assert(forall|k: int| 0 <= k < vs.len() ==> 0 <= #[trigger] vs[k] < n);
                        lemma_distinct_below(vs, n as int);
                        if x_pre.contains(i) {
                            let k = choose|k: int| 0 <= k < x_pre.len() && x_pre[k] == i;
                            if k < x@.len() {
                                assert(x@[k] == i);
                            } else {
                                assert(i == v);
                            }
                        } else {
                            let k = choose|k: int|
                                0 <= k < visited_pre.len() && visited_pre[k] == i;
                            assert(visited@[k] == i);
                        }
                        assert forall|vv: int, y: int|
                            visited@.contains(vv as usize) && 0 <= vv < n && mat_has(m, vv, y) && 0
                                <= y < n && (vv != v as int || y < 0) implies (visited@.contains(
                            y as usize,
                        ) || x@.contains(y as usize)) by {
                            assert(vv != v as int);
                            assert(visited_pre.contains(vv as usize)) by {
                                let k = choose|k: int|
                                    0 <= k < visited@.len() && visited@[k] == vv as usize;
                                assert(k < visited_pre.len());
                                assert(visited_pre[k] == vv as usize);
                            }
                            if visited_pre.contains(y as usize) {
                                let k = choose|k: int|
                                    0 <= k < visited_pre.len() && visited_pre[k] == y as usize;
                                assert(visited@[k] == y as usize);
                            }
                            if x_pre.contains(y as usize) {
                                let k = choose|k: int|
                                    0 <= k < x_pre.len() && x_pre[k] == y as usize;
                                if k < x@.len() {
                                    assert(x@[k] == y as usize);
                                } else {
                                    assert(y as usize == v);
                                }
                            }
                        }
                    }
                    let row_len = self.edges[v].len();
                    proof {
                        assert(self.mat()[v as int].len() == n);
                    }
                    let mut c: usize = 0;
                    while c < row_len
                        invariant
                            self.wf(),
                            m == self.mat(),
                            n == self.order(),
                            (i as int) < n,
                            (j as int) < n,
                            i != j,
                            (v as int) < n,
                            row_len == n,
                            0 <= c <= row_len,
                            reach(m, i as int, v as int),
                            visited@.len() <= n,
                            forall|k: int|
                                0 <= k < x@.len() ==> (#[trigger] x@[k]) < n && reach(
                                    m,
                                    i as int,
                                    x@[k] as int,
                                ) && x@[k] != j,
                            forall|k: int|
                                0 <= k < visited@.len() ==> (#[trigger] visited@[k]) < n && reach(
                                    m,
                                    i as int,
                                    visited@[k] as int,
                                ) && visited@[k] != j,
                            forall|p: int, q: int|
                                0 <= p < q < visited@.len() ==> visited@[p] != visited@[q],
                            x@.contains(i) || visited@.contains(i),
                            forall|vv: int, y: int|
                                visited@.contains(vv as usize) && 0 <= vv < n && mat_has(m, vv, y)
                                    && 0 <= y < n && (vv != v as int || y < c) ==> (
                                visited@.contains(y as usize) || x@.contains(y as usize)),
                        decreases row_len - c,
                    {
                        proof {
                            self.mat_facts();
                            assert(self.mat()[v as int].len() == n);
                        }
                        let present = self.edges[v][c];
                        proof {
                            assert(present == mat_has(m, v as int, c as int));
                        }
                        if present {
                            proof {
                                lemma_reach_step(m, i as int, v as int, c as int);
                            }
                            if c == j {
                                return true;
                            }
                            if !contains_idx(&visited, c) {
                                let ghost x_before = x@;
                                x.push(c);
                                proof {
                                    assert(x@ =~= x_before.push(c));
                                    assert(x@[x@.len() - 1] == c);
                                    assert(x@.contains(c));
                                    assert forall|k: int|
                                        0 <= k < x@.len() implies (#[trigger] x@[k]) < n && reach(
                                        m,
                                        i as int,
                                        x@[k] as int,
                                    ) && x@[k] != j by {
                                        if k < x_before.len() {
                                            assert(x@[k] == x_before[k]);
                                        } else {
                                            assert(x@[k] == c);
                                        }
                                    }
                                    if x_before.contains(i) {
                                        let k = choose|k: int|
                                            0 <= k < x_before.len() && x_before[k] == i;
                                        assert(x@[k] == i);
                                    }
                                    assert forall|vv: int, y: int|
                                        visited@.contains(vv as usize) && 0 <= vv < n && mat_has(
                                            m,
                                            vv,
                                            y,
                                        ) && 0 <= y < n && (vv != v as int || y < c + 1) implies (
                                    visited@.contains(y as usize) || x@.contains(
                                        y as usize,
                                    )) by {
                                        if vv == v as int && y == c as int {
                                        } else {
                                            if x_before.contains(y as usize) {
                                                let k = choose|k: int|
                                                    0 <= k < x_before.len() && x_before[k]
                                                        == y as usize;
                                                assert(x@[k] == y as usize);
                                            }
                                        }
                                    }
                                }
                            } else {
                                proof {
                                    assert forall|vv: int, y: int|
                                        visited@.contains(vv as usize) && 0 <= vv < n && mat_has(
                                            m,
                                            vv,
                                            y,
                                        ) && 0 <= y < n && (vv != v as int || y < c + 1) implies (
                                    visited@.contains(y as usize) || x@.contains(
                                        y as usize,
                                    )) by {
                                        if vv == v as int && y == c as int {
                                            assert(visited@.contains(c));
                                        }
                                    }
                                }
                            }
                        }
                        c += 1;
                    }
                },
            }
        }
        proof {
            if reach(m, i as int, j as int) {
                let s = Set::new(|z: int| 0 <= z < n && visited@.contains(z as usize));
                assert(s.contains(i as int));
                assert forall|a: int, b: int| s.contains(a) && mat_has(m, a, b) implies s.contains(
                    b,
                ) by {
                    assert(visited@.contains(a as usize));
                    assert(0 <= b < n) by {
                        assert(self.mat()[a].len() == self.order());
                    }
                }
                let p = choose|p: Seq<int>| path_ok(m, p, i as int, j as int);
                lemma_closed_reach(m, s, p, i as int, j as int);
                assert(s.contains(j as int));
                assert(visited@.contains(j));
                let k = choose|k: int| 0 <= k < visited@.len() && visited@[k] == j;
                assert(false);
            }
        }
        false
    }

    /// Inserts the absent edge `(i, j)` unless `i` is reachable from `j`
    /// (which would close a cycle); reports whether it was inserted.  The
    /// edge must be absent: on a present edge the stored count would come
    /// apart from the matrix, so callers check `has_edge` first, as every
    /// use here does.
    pub fn try_insert_edge(&mut self, edge: (usize, usize)) -> (r: Option<()>)
        requires
            old(self).wf(),
            (edge.0 as int) < old(self).order(),
            (edge.1 as int) < old(self).order(),
            !old(self).has(edge.0 as int, edge.1 as int),
            old(self).count_spec() < usize::MAX as nat,
        ensures
            final(self).wf(),
            final(self).order() == old(self).order(),
            if reach(old(self).mat(), edge.1 as int, edge.0 as int) {
                r is None && final(self).mat() == old(self).mat() && final(self).count_spec()
                    == old(self).count_spec()
            } else {
                &&& r is Some
                &&& final(self).has(edge.0 as int, edge.1 as int)
                &&& forall|x: int, y: int|
                    !(x == edge.0 as int && y == edge.1 as int) ==> final(self).has(x, y) == old(
                        self,
                    ).has(x, y)
                &&& final(self).count_spec() == old(self).count_spec() + 1
            },
    {
        let (i, j) = edge;
        if self.connected(j, i) {
            return None;
        }
        self.edge_count = self.edge_count + 1;
        let ghost m0 = self.mat();
        proof {
            self.mat_facts();
            assert(self.mat()[i as int].len() == self.order());
            lemma_row_count_update(m0[i as int], j as int, true);
            lemma_mat_count_update(m0, i as int, m0[i as int].update(j as int, true));
        }
        let row = vstd::std_specs::vec::vec_index_mut(&mut self.edges, i);
        let cell = vstd::std_specs::vec::vec_index_mut(row, j);
        *cell = true;
        proof {
            self.mat_facts();
            let m1 = self.mat();
            assert(m1 =~~= m0.update(i as int, m0[i as int].update(j as int, true)));
            assert forall|x: int, y: int|
                !(x == i as int && y == j as int) implies self.has(x, y) == old(self).has(
                x,
                y,
            ) by {
                if 0 <= x < m0.len() && x != i as int {
                    assert(m1[x] == m0[x]);
                }
            }
        }
        Some(())
    }

    /// The present edges, exactly in row-major order: one entry per true
    /// cell, `edge_count` of them in all.
    pub fn iter_edges(&self) -> (r: Vec<(usize, usize)>)
        requires
            self.wf(),
        ensures
            r@ == mat_edges(self.mat(), 0),
            r@.len() == self.count_spec(),
            forall|k: int|
                0 <= k < r@.len() ==> self.has(
                    (#[trigger] r@[k]).0 as int,
                    r@[k].1 as int,
                ),
    {
        let ghost m = self.mat();
        let n = self.edges.len();
        let mut out: Vec<(usize, usize)> = Vec::new();
        let mut i: usize = 0;
        proof {
            self.mat_facts();
        }
        while i < n
            invariant
                self.wf(),
                m == self.mat(),
                n == self.order(),
                0 <= i <= n,
                out@ + mat_edges(m, i as int) =~= mat_edges(m, 0),
            decreases n - i,
        {
            let mut j: usize = 0;
            proof {
                self.mat_facts();
                assert(m[i as int].len() == n);
                assert(mat_edges(m, i as int) == row_edges(i, m[i as int], 0) + mat_edges(
                    m,
                    i as int + 1,
                ));
            }
            while j < n
                invariant
                    self.wf(),
                    m == self.mat(),
                    n == self.order(),
                    0 <= i < n,
                    0 <= j <= n,
                    m[i as int].len() == n,
                    out@ + row_edges(i, m[i as int], j as int) + mat_edges(m, i as int + 1)
                        =~= mat_edges(m, 0),
                decreases n - j,
            {
                proof {
                    self.mat_facts();
                }
                if self.edges[i][j] {
                    out.push((i, j));
                    proof {
                        assert(row_edges(i, m[i as int], j as int) == seq![(i, j)] + row_edges(
                            i,
                            m[i as int],
                            j as int + 1,
                        ));
                    }
                } else {
                    proof {
                        assert(row_edges(i, m[i as int], j as int) == row_edges(
                            i,
                            m[i as int],
                            j as int + 1,
                        ));
                    }
                }
                j += 1;
            }
            proof {
                assert(row_edges(i, m[i as int], n as int) =~= Seq::<(usize, usize)>::empty());
            }
            i += 1;
        }
        proof {
            assert(mat_edges(m, n as int) =~= Seq::<(usize, usize)>::empty());
            assert(out@ =~= mat_edges(m, 0));
            lemma_mat_edges_len(m, 0);
            lemma_mat_count_from(m, 0);
            assert(m.take(0) =~= Seq::<Seq<bool>>::empty());
            lemma_mat_edges_sound(m, 0);
        }
        out
    }

    /// The graph in dot syntax, as bytes: a `digraph` block with one line
    /// per present edge, in row-major order.
    pub fn to_dot(&self) -> (r: Vec<u8>)
        requires
            self.wf(),
        ensures
            r@ == spec_dot(mat_edges(self.mat(), 0)),
    {
        let pairs = self.iter_edges();
        dot_bytes(&pairs)
    }

    /// The number of present edges.
    pub fn edge_count(&self) -> (r: usize)
        ensures
            r as nat == self.count_spec(),
    {
        self.edge_count
    }
}

proof fn lemma_all_false_mat(m: Seq<Seq<bool>>)
    requires
        forall|i: int|
            0 <= i < m.len() ==> forall|j: int|
                0 <= j < (#[trigger] m[i]).len() ==> !(#[trigger] m[i][j]),
    ensures
        mat_count(m) == 0,
    decreases m.len(),
{
    if m.len() > 0 {
        lemma_all_false_mat(m.drop_last());
        lemma_row_count_zero(m.last());
    }
}

/// The decimal digits of `n`, most significant first.
pub open spec fn dec_rep(n: nat) -> Seq<u8>
    decreases n,
{
    if n < 10 {
        seq![(48 + n) as u8]
    } else {
        dec_rep(n / 10).push((48 + n % 10) as u8)
    }
}

/// Appends the decimal digits of `n`.
fn push_decimal(out: &mut Vec<u8>, n: usize)
    ensures
        final(out)@ == old(out)@ + dec_rep(n as nat),
    decreases n,
{
    if n >= 10 {
        push_decimal(out, n / 10);
    }
    out.push(48 + (n % 10) as u8);
    proof {
        assert(final(out)@ =~= old(out)@ + dec_rep(n as nat));
    }
}

/// The dot rendering of the edge pairs from index `i` on: one indented
/// `a -> b` line each.
pub open spec fn spec_dot_lines(pairs: Seq<(usize, usize)>, i: int) -> Seq<u8>
    decreases pairs.len() - i,
{
    if i < 0 || i >= pairs.len() {
        Seq::<u8>::empty()
    } else {
        seq![9u8] + dec_rep(pairs[i].0 as nat) + seq![32u8, 45u8, 62u8, 32u8] + dec_rep(
            pairs[i].1 as nat,
        ) + seq![10u8] + spec_dot_lines(pairs, i + 1)
    }
}

/// A full dot document for the given edge pairs.
pub open spec fn spec_dot(pairs: Seq<(usize, usize)>) -> Seq<u8> {
    seq![
        100u8,
        105u8,
        103u8,
        114u8,
        97u8,
        112u8,
        104u8,
        32u8,
        123u8,
        10u8,
    ] + spec_dot_lines(pairs, 0) + seq![125u8]
}

/// Renders edge pairs in dot syntax.
pub fn dot_bytes(pairs: &Vec<(usize, usize)>) -> (r: Vec<u8>)
    ensures
        r@ == spec_dot(pairs@),
{
    let mut out: Vec<u8> = Vec::new();
    let header: [u8; 10] = [100, 105, 103, 114, 97, 112, 104, 32, 123, 10];
    let mut h: usize = 0;
    while h < 10
        invariant
            0 <= h <= 10,
            out@ =~= header@.take(h as int),
            header@ =~= seq![
                100u8,
                105u8,
                103u8,
                114u8,
                97u8,
                112u8,
                104u8,
                32u8,
                123u8,
                10u8,
            ],
        decreases 10 - h,
    {
        out.push(header[h]);
        proof {
            assert(out@ =~= header@.take(h + 1));
        }
        h += 1;
    }
    let n = pairs.len();
    let mut k: usize = 0;
    while k < n
        invariant
            0 <= k <= n,
            n == pairs@.len(),
            out@ + spec_dot_lines(pairs@, k as int) =~= spec_dot(pairs@).drop_last(),
        decreases n - k,
    {
        let ghost pre = out@;
        let (a, b) = pairs[k];
        out.push(9);
        push_decimal(&mut out, a);
        out.push(32);
        out.push(45);
        out.push(62);
        out.push(32);
        push_decimal(&mut out, b);
        out.push(10);
        proof {
            assert(out@ =~= pre + (seq![9u8] + dec_rep(a as nat) + seq![32u8, 45u8, 62u8, 32u8]
                + dec_rep(b as nat) + seq![10u8]));
            assert(spec_dot_lines(pairs@, k as int) == (seq![9u8] + dec_rep(pairs@[k as int].0 as nat)
                + seq![32u8, 45u8, 62u8, 32u8] + dec_rep(pairs@[k as int].1 as nat) + seq![10u8])
                + spec_dot_lines(pairs@, k as int + 1));
            assert(out@ + spec_dot_lines(pairs@, k as int + 1) =~= spec_dot(pairs@).drop_last());
        }
        k += 1;
    }
    out.push(125);
    proof {
        assert(spec_dot_lines(pairs@, n as int) == Seq::<u8>::empty());
        assert(out@ =~= spec_dot(pairs@));
    }
    out
}

/// Whether `v` holds `x`.
fn contains_idx(v: &Vec<usize>, x: usize) -> (r: bool)
    ensures
        r == v@.contains(x),
{
    let mut i: usize = 0;
    while i < v.len()
        invariant
            0 <= i <= v@.len(),
            forall|j: int| 0 <= j < i ==> v@[j] != x,
        decreases v@.len() - i,
    {
        if v[i] == x {
            return true;
        }
        i += 1;
    }
    false
}

/// Relies on rand::Rng::random_range over `0..n`: a value drawn below `n`
/// (the call panics on an empty range, so `n` must be positive).
#[verifier::external_body]
fn sample_index(rng: &mut rand::rngs::SmallRng, n: usize) -> (r: usize)
    requires
        n > 0,
    ensures
        r < n,
{
    rand::Rng::random_range(rng, 0..n)
}

#[verifier::external_type_specification]
#[verifier::external_body]
pub struct ExSmallRng(rand::rngs::SmallRng);

/// Factors bounded by a 64-bit word multiply without overflowing 128 bits.
proof fn lemma_u64_mul_fits(x: u128, y: u128)
    requires
        x < 0x1_0000_0000_0000_0000,
        y < 0x1_0000_0000_0000_0000,
    ensures
        x * y <= u128::MAX,
{
    assert(x * y <= u128::MAX) by (nonlinear_arith)
        requires
            x < 0x1_0000_0000_0000_0000,
            y < 0x1_0000_0000_0000_0000,
    ;
}

/// A ratio of two machine integers.
#[derive(Clone, Copy, PartialEq, Eq, Structural, Debug)]
pub struct Ratio {
    pub numerator: usize,
    pub denominator: usize,
}

impl Ratio {
    /// Scaling by `rhs`, exactly as the generator applies it: the product of
    /// `rhs` and the denominator becomes the numerator.
    pub fn mul(self, rhs: usize) -> (r: Ratio)
        requires
            rhs * self.denominator <= usize::MAX,
        ensures
            r.numerator == rhs * self.denominator,
            r.denominator == self.denominator,
    {
        Ratio { numerator: rhs * self.denominator, denominator: self.denominator }
    }

    /// Whether the ratio exceeds the whole number `other`.
    pub fn gt_usize(self, other: usize) -> (r: bool)
        ensures
            r == (self.numerator > other * self.denominator),
    {
        let lhs: u128 = self.numerator as u128;
        proof {
            lemma_u64_mul_fits(other as u128, self.denominator as u128);
        }
        let rhs: u128 = (other as u128) * (self.denominator as u128);
        lhs > rhs
    }

    /// Whether the ratio equals the whole number `other`.
    pub fn eq_usize(self, other: usize) -> (r: bool)
        ensures
            r == (self.numerator == other * self.denominator),
    {
        let lhs: u128 = self.numerator as u128;
        proof {
            lemma_u64_mul_fits(other as u128, self.denominator as u128);
        }
        let rhs: u128 = (other as u128) * (self.denominator as u128);
        lhs == rhs
    }
}

/// Builds an `n`-vertex graph by repeatedly drawing a candidate edge at
/// random: a present edge is removed, an absent one is inserted unless that
/// would close a cycle.
pub fn generate_random_dag(
    rng: &mut rand::rngs::SmallRng,
    n: usize,
    iter_count: Option<usize>,
) -> (g: DAGGenerator)
    requires
        1 <= n,
        n * 5 <= usize::MAX,
        n * n < usize::MAX,
    ensures
        g.wf(),
        g.order() == n,
{
    let mut graph = DAGGenerator::new_empty(n);
    let count = match iter_count {
        Some(c) => c,
        None => 5 * n,
    };
    let mut it: usize = 0;
    while it < count
        invariant
            graph.wf(),
            graph.order() == n,
            1 <= n,
            n * n < usize::MAX,
        decreases count - it,
    {
        let i = sample_index(rng, n);
        let j = sample_index(rng, n);
        let edge = (i, j);

        if graph.has_edge(edge) {
            graph.remove_edge(edge);
        } else {
            proof {
                lemma_mat_count_bound(graph.mat(), n as nat);
                assert(graph.count_spec() < usize::MAX as nat) by (nonlinear_arith)
                    requires
                        graph.count_spec() <= n * n,
                        n * n < usize::MAX,
                ;
            }
            graph.try_insert_edge(edge);
        }
        it += 1;
    }
    graph
}

/// As `generate_random_dag`, but seeded with a vertex chain and capped so the
/// edge count stays below the given ratio of the vertex count.
pub fn generate_random_simply_connected_dag(
    rng: &mut rand::rngs::SmallRng,
    n: usize,
    iter_count: Option<usize>,
    ratio: Ratio,
) -> (g: DAGGenerator)
    requires
        1 <= n,
        n * 2 <= usize::MAX,
        n * n < usize::MAX,
        n * ratio.denominator <= usize::MAX,
    ensures
        g.wf(),
        g.order() == n,
        g.count_spec() <= n - 1,
{
    let mut graph = DAGGenerator::new_empty(n);
    let mut i: usize = 1;
    while i < n
        invariant
            graph.wf(),
            graph.order() == n,
            1 <= i <= n,
            n * n < usize::MAX,
            graph.count_spec() <= i - 1,
            forall|a: int, b: int| graph.has(a, b) ==> b == a + 1 && b < i,
        decreases n - i,
    {
        proof {
            lemma_mat_count_bound(graph.mat(), n as nat);
            assert(graph.count_spec() < usize::MAX as nat) by (nonlinear_arith)
                requires
                    graph.count_spec() <= n * n,
                    n * n < usize::MAX,
            ;
        }
        let ghost g0 = graph;
        graph.try_insert_edge((i - 1, i));
        proof {
            assert forall|a: int, b: int| graph.has(a, b) implies b == a + 1 && b < i + 1 by {
                if !(a == i - 1 && b == i as int) {
                    assert(g0.has(a, b));
                }
            }
        }
        i += 1;
    }

    let count = match iter_count {
        Some(c) => c,
        None => 2 * n,
    };
    let mut it: usize = 0;
    while it < count
        invariant
            graph.wf(),
            graph.order() == n,
            1 <= n,
            n * n < usize::MAX,
            n * ratio.denominator <= usize::MAX,
            graph.count_spec() <= n - 1,
        decreases count - it,
    {
        let i2 = sample_index(rng, n);
        let j2 = sample_index(rng, n);
        let edge = (i2, j2);

        if graph.has_edge(edge) {
            graph.remove_edge(edge);
        } else {
            proof {
                lemma_mat_count_bound(graph.mat(), n as nat);
                assert(graph.count_spec() < usize::MAX as nat) by (nonlinear_arith)
                    requires
                        graph.count_spec() <= n * n,
                        n * n < usize::MAX,
                ;
            }
            let scaled = ratio.mul(graph.vertex_count());
            if scaled.gt_usize(graph.edge_count() + 1) {
                proof {
                    // the cap: the guard compares n against the count plus one
                    assert(n > graph.count_spec() + 1) by (nonlinear_arith)
                        requires
                            n * ratio.denominator > (graph.count_spec() + 1) * ratio.denominator,
                    ;
                }
                graph.try_insert_edge(edge);
            }
            // otherwise the graph stays within the density cap
        }
        it += 1;
    }
    graph
}

} // verus!
