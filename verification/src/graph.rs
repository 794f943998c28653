//! The patient graph: an adjacency list paired with a boolean adjacency
//! matrix over the same node set, plus the traversal and aggregate metrics
//! (shortest distances, connected components, edge density, average path
//! length, clustering coefficient) and the neighbor-majority risk heuristics.

use vstd::prelude::*;

use std::collections::VecDeque;

use crate::builder::{
    count_flagged_nodes, flags_of, fraction_exceeds, fraction_meets, lemma_count_flagged_bounds,
    AttributeVector,
};
use crate::paths::{
    assigned, dval, edge, has_dist, is_min_dist, lemma_closed_path_dist, lemma_closed_reachable,
    lemma_dist_step, lemma_min_dist_unique, lemma_path_refl,
    lemma_reach_step, lemma_reach_sym, lemma_reach_trans, min_dist, reachable, sym,
};
use crate::ratio::{ratio_reduce_fit, scales};
use crate::{rat_eq, GraphError, Ratio, MAX_NODES};

verus! {

/// One adjacency row is well formed: every neighbor is a node other than
/// `i` itself, and no neighbor is listed twice.
pub open spec fn row_wf(row: Seq<usize>, n: int, i: int) -> bool {
    &&& forall|k: int| 0 <= k < row.len() ==> (#[trigger] row[k]) < n && row[k] != i
    &&& row.no_duplicates()
}

/// A similarity graph over `n` patients. The adjacency map and the adjacency
/// matrix always describe the same edge set; the matrix diagonal is `true`
/// by convention while the map holds no self-loops.
pub struct Graph {
    pub n: usize,
    pub nodes: Vec<AttributeVector>,
    pub adj_map: Vec<Vec<usize>>,
    pub adj_matrix: Vec<Vec<bool>>,
}

impl Graph {
    /// The adjacency map as a sequence of neighbor sequences.
    pub open spec fn adj(&self) -> Seq<Seq<usize>> {
        self.adj_map@.map_values(|row: Vec<usize>| row@)
    }

    /// The outcome flag of each node, in node order.
    pub open spec fn flags(&self) -> Seq<bool> {
        self.nodes@.map_values(|v: AttributeVector| v.flag)
    }

    /// Internal consistency: all four parts agree on the node count, every
    /// adjacency row is well formed, and the matrix mirrors the map with a
    /// `true` diagonal.
    pub open spec fn wf(&self) -> bool {
        &&& self.n == self.nodes@.len()
        &&& self.n == self.adj_map@.len()
        &&& self.n == self.adj_matrix@.len()
        &&& self.n <= MAX_NODES
        &&& forall|i: int|
            0 <= i < self.n ==> (#[trigger] self.adj_matrix@[i])@.len() == self.n
        &&& forall|i: int| 0 <= i < self.n ==> row_wf(#[trigger] self.adj()[i], self.n as int, i)
        &&& forall|i: int, j: int|
            0 <= i < self.n && 0 <= j < self.n ==> ((#[trigger] self.adj_matrix@[i]@[j]) <==> (i
                == j || self.adj()[i].contains(j as usize)))
    }

    /// The adjacency relation is symmetric (holds after `undirected`).
    pub open spec fn symmetric(&self) -> bool {
        sym(self.adj())
    }

    /// Assembles a graph from builder output. The parts must already be
    /// consistent; `createadj` produces exactly such parts.
    pub fn new(
        n: usize,
        nodes: Vec<AttributeVector>,
        adj_map: Vec<Vec<usize>>,
        adj_matrix: Vec<Vec<bool>>,
    ) -> (g: Graph)
        requires
            (Graph { n, nodes, adj_map, adj_matrix }).wf(),
        ensures
            g == (Graph { n, nodes, adj_map, adj_matrix }),
            g.wf(),
    {
        Graph { n, nodes, adj_map, adj_matrix }
    }
}

/// An entry of a well-formed row is a node other than the row's owner.
pub proof fn lemma_row_entry(row: Seq<usize>, n: int, i: int, x: usize)
    requires
        row_wf(row, n, i),
        row.contains(x),
    ensures
        x < n,
        x != i,
{
    let k = choose|k: int| 0 <= k < row.len() && row[k] == x;
    assert(row[k] == x);
}

/// Pushing an element that is not yet listed keeps a sequence duplicate-free
/// and extends its membership by exactly that element.
pub proof fn lemma_push_effect(s: Seq<usize>, x: usize)
    requires
        !s.contains(x),
        s.no_duplicates(),
    ensures
        s.push(x).no_duplicates(),
        forall|y: usize| #[trigger] s.push(x).contains(y) <==> (s.contains(y) || y == x),
{
    let t = s.push(x);
    assert forall|y: usize| #[trigger] t.contains(y) implies (s.contains(y) || y == x) by {
        let k = choose|k: int| 0 <= k < t.len() && t[k] == y;
        if k < s.len() {
            assert(s[k] == y);
        }
    }
    assert forall|y: usize| (s.contains(y) || y == x) implies #[trigger] t.contains(y) by {
        if s.contains(y) {
            let k = choose|k: int| 0 <= k < s.len() && s[k] == y;
            assert(t[k] == y);
        } else {
            assert(t[s.len() as int] == y);
        }
    }
    assert forall|p: int, q: int| 0 <= p < q < t.len() implies t[p] != t[q] by {
        if q < s.len() {
            assert(s[p] != s[q]);
        } else {
            assert(t[q] == x);
            assert(s.contains(s[p]));
        }
    }
}

pub(crate) fn contains_idx(row: &Vec<usize>, x: usize) -> (b: bool)
    ensures
        b == row@.contains(x),
{
    let mut k: usize = 0;
    while k < row.len()
        invariant
            k <= row@.len(),
            forall|i: int| 0 <= i < k ==> row@[i] != x,
        decreases row@.len() - k,
    {
        if row[k] == x {
            return true;
        }
        k += 1;
    }
    false
}

pub(crate) fn copy_row(row: &Vec<usize>) -> (r: Vec<usize>)
    ensures
        r@ == row@,
{
    let mut r: Vec<usize> = Vec::new();
    let mut k: usize = 0;
    while k < row.len()
        invariant
            k <= row@.len(),
            r@ == row@.take(k as int),
        decreases row@.len() - k,
    {
        r.push(row[k]);
        assert(r@ == row@.take(k + 1 as int));
        k += 1;
    }
    assert(row@.take(row@.len() as int) == row@);
    r
}

impl Graph {
    /// Symmetrizes the adjacency relation: after the call, `v` is a neighbor
    /// of `u` exactly when, before it, `u` listed `v` or `v` listed `u`.
    /// No entry is duplicated, and the matrix is kept consistent, so running
    /// this twice leaves the neighbor sets of the first run unchanged.
    pub fn undirected(&mut self)
        requires
            old(self).wf(),
        ensures
            final(self).wf(),
            final(self).n == old(self).n,
            final(self).nodes == old(self).nodes,
            forall|u: int, v: int|
                #[trigger] edge(final(self).adj(), u, v) <==> (edge(old(self).adj(), u, v) || edge(
                    old(self).adj(),
                    v,
                    u,
                )),
            final(self).symmetric(),
    {
        let n = self.n;
        let ghost a0 = self.adj();
        let mut new_map: Vec<Vec<usize>> = Vec::new();
        let mut v: usize = 0;
        while v < n
            invariant
                self == old(self),
                old(self).wf(),
                n == old(self).n,
                a0 == old(self).adj(),
                v <= n,
                new_map@.len() == v,
                forall|i: int|
                    0 <= i < v ==> row_wf(#[trigger] new_map@[i]@, n as int, i),
                forall|i: int, w: int|
                    0 <= i < v && 0 <= w < n ==> ((#[trigger] new_map@[i]@.contains(w as usize))
                        <==> (a0[i].contains(w as usize) || a0[w].contains(i as usize))),
            decreases n - v,
        {
            let mut row: Vec<usize> = copy_row(&self.adj_map[v]);
            proof {
                assert(a0[v as int] == self.adj_map@[v as int]@);
                assert(row_wf(a0[v as int], n as int, v as int));
            }
            let mut u: usize = 0;
            while u < n
                invariant
                    self == old(self),
                    old(self).wf(),
                    n == old(self).n,
                    a0 == old(self).adj(),
                    v < n,
                    u <= n,
                    row_wf(row@, n as int, v as int),
                    forall|w: int|
                        0 <= w < n ==> ((#[trigger] row@.contains(w as usize)) <==> (a0[
                            v as int
                        ].contains(w as usize) || (w < u && a0[w].contains(v)))),
                decreases n - u,
            {
                assert(a0[u as int] == self.adj_map@[u as int]@);
                if contains_idx(&self.adj_map[u], v) && !contains_idx(&row, u) {
                    proof {
                        lemma_row_entry(a0[u as int], n as int, u as int, v);
                        lemma_push_effect(row@, u);
                    }
                    row.push(u);
                }
                u += 1;
            }
            new_map.push(row);
            v += 1;
        }
        // Rebuild the matrix from the symmetrized map.
        let mut new_matrix: Vec<Vec<bool>> = Vec::new();
        let mut i: usize = 0;
        while i < n
            invariant
                n == self.n,
                self.wf(),
                new_map@.len() == n,
                i <= n,
                new_matrix@.len() == i,
                forall|r: int| 0 <= r < i ==> (#[trigger] new_matrix@[r])@.len() == n,
                forall|r: int, c: int|
                    0 <= r < i && 0 <= c < n ==> ((#[trigger] new_matrix@[r]@[c]) <==> (r == c
                        || new_map@[r]@.contains(c as usize))),
                forall|r: int| 0 <= r < n ==> row_wf(#[trigger] new_map@[r]@, n as int, r),
            decreases n - i,
        {
            let mut mrow: Vec<bool> = Vec::new();
            let mut j: usize = 0;
            while j < n
                invariant
                    n == self.n,
                    self.wf(),
                    new_map@.len() == n,
                    i < n,
                    j <= n,
                    mrow@.len() == j,
                    forall|c: int|
                        0 <= c < j ==> ((#[trigger] mrow@[c]) <==> (i as int == c
                            || new_map@[i as int]@.contains(c as usize))),
                decreases n - j,
            {
                let b = if i == j {
                    true
                } else {
                    contains_idx(&new_map[i], j)
                };
                mrow.push(b);
                j += 1;
            }
            new_matrix.push(mrow);
            i += 1;
        }
        self.adj_map = new_map;
        self.adj_matrix = new_matrix;
        assert forall|u: int, v: int|
            #[trigger] edge(self.adj(), u, v) <==> (edge(a0, u, v) || edge(a0, v, u)) by {
            assert(0 <= u < n && 0 <= v < n ==> self.adj()[u] == self.adj_map@[u]@);
        }
        assert(self.wf()) by {
            assert(forall|i: int| 0 <= i < n ==> #[trigger] self.adj()[i] == self.adj_map@[i]@);
        }
        assert forall|u: int, v: int| #[trigger] edge(self.adj(), u, v) implies edge(
            self.adj(),
            v,
            u,
        ) by {
            assert(edge(a0, u, v) || edge(a0, v, u));
        }
    }
}

/// Some node carries the label `c`.
pub open spec fn label_used(labels: Seq<usize>, c: int) -> bool {
    exists|v: int| 0 <= v < labels.len() && labels[v] == c
}

/// `post` is `pre` with the adjacency relation symmetrized, as `undirected`
/// ensures it.
pub open spec fn symmetrized(pre: Graph, post: Graph) -> bool {
    &&& post.n == pre.n
    &&& forall|u: int, v: int|
        #[trigger] edge(post.adj(), u, v) <==> (edge(pre.adj(), u, v) || edge(pre.adj(), v, u))
}

/// Symmetrization is idempotent: symmetrizing an already symmetrized graph
/// changes no edge and leaves every neighbor set (duplicate-free by
/// well-formedness) exactly as it was.
pub proof fn lemma_symmetrize_idempotent(g0: Graph, g1: Graph, g2: Graph)
    requires
        g0.wf(),
        g1.wf(),
        g2.wf(),
        symmetrized(g0, g1),
        symmetrized(g1, g2),
    ensures
        forall|u: int, v: int| #[trigger] edge(g2.adj(), u, v) <==> edge(g1.adj(), u, v),
        forall|u: int|
            0 <= u < g1.n ==> (#[trigger] g2.adj()[u]).to_set() == g1.adj()[u].to_set(),
{
    assert forall|u: int, v: int| #[trigger] edge(g2.adj(), u, v) <==> edge(g1.adj(), u, v) by {
        assert(edge(g1.adj(), u, v) <==> (edge(g0.adj(), u, v) || edge(g0.adj(), v, u)));
        assert(edge(g1.adj(), v, u) <==> (edge(g0.adj(), v, u) || edge(g0.adj(), u, v)));
    }
    assert forall|u: int|
        0 <= u < g1.n implies (#[trigger] g2.adj()[u]).to_set() == g1.adj()[u].to_set() by {
        assert forall|y: usize| #[trigger] g2.adj()[u].contains(y) implies g1.adj()[
            u
        ].contains(y) by {
            lemma_row_entry(g2.adj()[u], g2.n as int, u, y);
            assert(edge(g2.adj(), u, y as int));
            assert(edge(g1.adj(), u, y as int));
        }
        assert forall|y: usize| #[trigger] g1.adj()[u].contains(y) implies g2.adj()[
            u
        ].contains(y) by {
            lemma_row_entry(g1.adj()[u], g1.n as int, u, y);
            assert(edge(g1.adj(), u, y as int));
            assert(edge(g2.adj(), u, y as int));
        }
        assert(g2.adj()[u].to_set() =~= g1.adj()[u].to_set());
    }
}

/// `dist` assigns to every node its exact shortest hop count from `s`, and
/// `None` exactly to the nodes unreachable from `s`.
pub open spec fn distances_from(a: Seq<Seq<usize>>, s: int, dist: Seq<Option<u32>>) -> bool {
    &&& dist.len() == a.len()
    &&& forall|v: int|
        0 <= v < a.len() ==> ((#[trigger] dist[v]) is Some <==> reachable(a, s, v))
    &&& forall|v: int|
        0 <= v < a.len() && (#[trigger] dist[v]) is Some ==> is_min_dist(a, s, v, dval(dist, v))
            && dval(dist, v) < a.len()
}

impl Graph {
    /// Breadth-first search from `start`. Entry `v` of the result holds the
    /// exact shortest hop count from `start` to `v`, and `None` exactly when
    /// `v` is unreachable; every node is visited at most once, and recorded
    /// distances never decrease in visitation order.
    fn shortest_paths(&self, start: usize) -> (dist: Vec<Option<u32>>)
        requires
            self.wf(),
            start < self.n,
        ensures
            distances_from(self.adj(), start as int, dist@),
    {
        let n = self.n;
        let ghost a = self.adj();
        let ghost s = start as int;
        let mut dist: Vec<Option<u32>> = Vec::new();
        let mut k: usize = 0;
        while k < n
            invariant
                k <= n,
                dist@.len() == k,
                forall|v: int| 0 <= v < k ==> (#[trigger] dist@[v]) is None,
            decreases n - k,
        {
            dist.push(None);
            k += 1;
        }
        dist.set(start, Some(0u32));
        let ghost mut visited: Set<int> = Set::empty().insert(s);
        let mut queue: VecDeque<usize> = VecDeque::new();
        queue.push_back(start);
        proof {
            lemma_path_refl(a, s);
            assert(visited.len() == 1) by {
                assert(Set::<int>::empty().len() == 0);
            }
            vstd::set_lib::lemma_int_range(0, n as int);
            assert(visited.subset_of(vstd::set_lib::set_int_range(0, n as int)));
            vstd::set_lib::lemma_len_subset(visited, vstd::set_lib::set_int_range(0, n as int));
            assert(queue@[0] == start);
            assert(queue@.contains(start));
            assert(forall|v: int| #[trigger] visited.contains(v) ==> v == s);
        }
        while queue.len() > 0
            invariant
                self.wf(),
                n == self.n,
                a == self.adj(),
                s == start,
                start < n,
                dist@.len() == n,
                visited.finite(),
                visited.len() <= n,
                visited.contains(s),
                dval(dist@, s) == 0,
                forall|v: int| 0 <= v < n ==> (assigned(dist@, v) <==> visited.contains(v)),
                forall|v: int| #[trigger] visited.contains(v) ==> 0 <= v < n,
                forall|v: int|
                    #[trigger] visited.contains(v) ==> 0 <= dval(dist@, v) < visited.len(),
                forall|v: int|
                    #[trigger] visited.contains(v) ==> has_dist(a, s, v, dval(dist@, v)),
                forall|k: int|
                    0 <= k < queue@.len() ==> visited.contains(#[trigger] queue@[k] as int),
                queue@.no_duplicates(),
                forall|k: int, l: int|
                    #![trigger queue@[k], queue@[l]]
                    0 <= k <= l < queue@.len() ==> dval(dist@, queue@[k] as int) <= dval(
                        dist@,
                        queue@[l] as int,
                    ),
                queue@.len() > 0 ==> dval(dist@, queue@.last() as int) <= dval(
                    dist@,
                    queue@[0] as int,
                ) + 1,
                queue@.len() > 0 ==> (forall|v: int|
                    #[trigger] visited.contains(v) ==> dval(dist@, v) <= dval(
                        dist@,
                        queue@.last() as int,
                    )),
                queue@.len() > 0 ==> (forall|v: int|
                    #[trigger] visited.contains(v) && !queue@.contains(v as usize) ==> dval(
                        dist@,
                        v,
                    ) <= dval(dist@, queue@[0] as int)),
                forall|v: int, w: int|
                    visited.contains(v) && !queue@.contains(v as usize) && #[trigger] edge(
                        a,
                        v,
                        w,
                    ) ==> visited.contains(w) && dval(dist@, w) <= dval(dist@, v) + 1,
            decreases 2 * (n - visited.len()) + queue@.len(),
        {
            let ghost queue0 = queue@;
            let cur = queue.pop_front().unwrap();
            proof {
                assert(visited.contains(cur as int));
            }
            let dcur = dist[cur].unwrap();
            let ghost dc = dcur as int;
            let ghost measure0 = 2 * (n - visited.len()) + queue@.len();
            let row_len = self.adj_map[cur].len();
            proof {
                assert(a[cur as int] == self.adj_map@[cur as int]@);
                assert(row_wf(a[cur as int], n as int, cur as int));
                assert(forall|k: int|
                    0 <= k < queue@.len() ==> queue@[k] == queue0[k + 1]);
                assert forall|x: usize| #[trigger] queue0.contains(x) implies (x == cur
                    || queue@.contains(x)) by {
                    let i = choose|i: int| 0 <= i < queue0.len() && queue0[i] == x;
                    if i > 0 {
                        assert(queue@[i - 1] == x);
                    }
                }
                assert forall|x: usize| #[trigger] queue@.contains(x) implies queue0.contains(
                    x,
                ) by {
                    let i = choose|i: int| 0 <= i < queue@.len() && queue@[i] == x;
                    assert(queue0[i + 1] == x);
                }
                assert forall|v: int| #[trigger] visited.contains(v) implies dval(dist@, v) <= dc
                    + 1 by {
                    assert(dval(dist@, v) <= dval(dist@, queue0.last() as int));
                    assert(dval(dist@, queue0.last() as int) <= dval(dist@, queue0[0] as int) + 1);
                }
                assert forall|v: int|
                    #[trigger] visited.contains(v) && dval(dist@, v) == dc + 1 implies queue@.contains(
                    v as usize,
                ) by {
                    if !queue0.contains(v as usize) {
                        assert(dval(dist@, v) <= dval(dist@, queue0[0] as int));
                    } else {
                        let i = choose|i: int| 0 <= i < queue0.len() && queue0[i] == v as usize;
                        assert(i != 0);
                        assert(queue@[i - 1] == v as usize);
                    }
                }
                assert(!queue@.contains(cur)) by {
                    if queue@.contains(cur) {
                        let i = choose|i: int| 0 <= i < queue@.len() && queue@[i] == cur;
                        assert(queue0[i + 1] == cur && queue0[0] == cur);
                    }
                }
            }
            let mut k: usize = 0;
            while k < row_len
                invariant
                    self.wf(),
                    n == self.n,
                    a == self.adj(),
                    s == start,
                    start < n,
                    dist@.len() == n,
                    cur < n,
                    row_len == a[cur as int].len(),
                    visited.contains(cur as int),
                    dval(dist@, cur as int) == dc,
                    dc == dcur as int,
                    0 <= dc,
                    dc + 1 <= visited.len(),
                    k <= row_len,
                    visited.finite(),
                    visited.len() <= n,
                    visited.contains(s),
                    dval(dist@, s) == 0,
                    forall|v: int| 0 <= v < n ==> (assigned(dist@, v) <==> visited.contains(v)),
                    forall|v: int| #[trigger] visited.contains(v) ==> 0 <= v < n,
                    forall|v: int|
                        #[trigger] visited.contains(v) ==> 0 <= dval(dist@, v) < visited.len(),
                    forall|v: int|
                        #[trigger] visited.contains(v) ==> has_dist(a, s, v, dval(dist@, v)),
                    forall|k: int|
                        0 <= k < queue@.len() ==> visited.contains(#[trigger] queue@[k] as int),
                    queue@.no_duplicates(),
                    forall|k: int, l: int|
                        #![trigger queue@[k], queue@[l]]
                        0 <= k <= l < queue@.len() ==> dval(dist@, queue@[k] as int) <= dval(
                            dist@,
                            queue@[l] as int,
                        ),
                    forall|k: int|
                        0 <= k < queue@.len() ==> dc <= dval(dist@, #[trigger] queue@[k] as int)
                            <= dc + 1,
                    forall|v: int| #[trigger] visited.contains(v) ==> dval(dist@, v) <= dc + 1,
                    forall|v: int|
                        #[trigger] visited.contains(v) && dval(dist@, v) == dc + 1
                            ==> queue@.contains(v as usize),
                    forall|v: int, w: int|
                        visited.contains(v) && v != cur as int && !queue@.contains(v as usize)
                            && #[trigger] edge(a, v, w) ==> visited.contains(w) && dval(dist@, w)
                            <= dval(dist@, v) + 1,
                    !queue@.contains(cur),
                    forall|idx: int|
                        0 <= idx < k ==> visited.contains(#[trigger] a[cur as int][idx] as int)
                            && dval(dist@, a[cur as int][idx] as int) <= dc + 1,
                    2 * (n - visited.len()) + queue@.len() <= measure0,
                decreases row_len - k,
            {
                let w = self.adj_map[cur][k];
                proof {
                    assert(a[cur as int][k as int] == w);
                    assert(a[cur as int].contains(w));
                    lemma_row_entry(a[cur as int], n as int, cur as int, w);
                    assert(edge(a, cur as int, w as int));
                }
                if dist[w].is_none() {
                    proof {
                        assert(!visited.contains(w as int));
                        assert(dcur < n) by {
                            assert(dval(dist@, cur as int) < visited.len());
                        }
                        lemma_dist_step(a, s, cur as int, w as int, dc);
                    }
                    dist.set(w, Some(dcur + 1));
                    proof {
                        let ghost visited1 = visited.insert(w as int);
                        assert(visited1.len() == visited.len() + 1);
                        vstd::set_lib::lemma_int_range(0, n as int);
                        assert(visited1.subset_of(vstd::set_lib::set_int_range(0, n as int)));
                        vstd::set_lib::lemma_len_subset(
                            visited1,
                            vstd::set_lib::set_int_range(0, n as int),
                        );
                        assert(!queue@.contains(w)) by {
                            if queue@.contains(w) {
                                let i = choose|i: int| 0 <= i < queue@.len() && queue@[i] == w;
                                assert(visited.contains(queue@[i] as int));
                            }
                        }
                        visited = visited1;
                    }
                    let ghost q0 = queue@;
                    queue.push_back(w);
                    proof {
                        lemma_push_effect(q0, w);
                    }
                } else {
                    proof {
                        assert(assigned(dist@, w as int));
                        assert(visited.contains(w as int));
                        assert(dval(dist@, w as int) <= dc + 1);
                    }
                }
                k += 1;
            }
            proof {
                assert forall|v: int, w: int|
                    visited.contains(v) && !queue@.contains(v as usize) && #[trigger] edge(
                        a,
                        v,
                        w,
                    ) implies visited.contains(w) && dval(dist@, w) <= dval(dist@, v) + 1 by {
                    if v == cur as int {
                        assert(0 <= w < n && a[cur as int].contains(w as usize));
                        let idx = choose|idx: int|
                            0 <= idx < a[cur as int].len() && a[cur as int][idx] == w as usize;
                        assert(visited.contains(a[cur as int][idx] as int));
                        assert(dval(dist@, a[cur as int][idx] as int) <= dc + 1);
                    }
                }
                if queue@.len() > 0 {
                    assert(dval(dist@, queue@.last() as int) <= dval(dist@, queue@[0] as int) + 1);
                    assert forall|v: int| #[trigger] visited.contains(v) implies dval(dist@, v)
                        <= dval(dist@, queue@.last() as int) by {
                        assert(dc <= dval(dist@, queue@.last() as int) <= dc + 1);
                        if dval(dist@, v) == dc + 1 {
                            assert(queue@.contains(v as usize));
                            let i = choose|i: int| 0 <= i < queue@.len() && queue@[i] == v as usize;
                            assert(dval(dist@, queue@[i] as int) <= dval(
                                dist@,
                                queue@[queue@.len() - 1] as int,
                            ));
                        }
                    }
                    assert forall|v: int|
                        #[trigger] visited.contains(v) && !queue@.contains(v as usize) implies dval(
                        dist@,
                        v,
                    ) <= dval(dist@, queue@[0] as int) by {
                        assert(dval(dist@, v) <= dc + 1);
                        assert(dc <= dval(dist@, queue@[0] as int));
                        if dval(dist@, v) == dc + 1 {
                            assert(queue@.contains(v as usize));
                        }
                    }
                }
            }
        }
        proof {
            assert forall|v: int| 0 <= v < n implies ((#[trigger] dist@[v]) is Some <==> reachable(
                a,
                s,
                v,
            )) by {
                if dist@[v] is Some {
                    assert(visited.contains(v));
                    assert(has_dist(a, s, v, dval(dist@, v)));
                    let p = choose|p: Seq<int>|
                        crate::paths::connects(a, p, s, v) && p.len() == dval(dist@, v) + 1;
                    assert(crate::paths::connects(a, p, s, v));
                }
                if reachable(a, s, v) {
                    let p = choose|p: Seq<int>| crate::paths::connects(a, p, s, v);
                    lemma_closed_path_dist(a, dist@, p);
                }
            }
            assert forall|v: int|
                0 <= v < n && (#[trigger] dist@[v]) is Some implies is_min_dist(
                a,
                s,
                v,
                dval(dist@, v),
            ) && dval(dist@, v) < n by {
                assert(visited.contains(v));
                assert(has_dist(a, s, v, dval(dist@, v)));
                assert forall|e: int| 0 <= e < dval(dist@, v) implies !has_dist(a, s, v, e) by {
                    if has_dist(a, s, v, e) {
                        let p = choose|p: Seq<int>|
                            crate::paths::connects(a, p, s, v) && p.len() == e + 1;
                        lemma_closed_path_dist(a, dist@, p);
                        assert(dval(dist@, v) <= e);
                    }
                }
            }
        }
        dist
    }

    /// Breadth-first distances from one node: entry `v` of the result holds
    /// the exact shortest hop count from `node` to `v`, or `None` when `v`
    /// is unreachable. A node the graph does not hold is reported as
    /// `NotFound` rather than answered.
    pub fn node_distance(&self, node: usize) -> (r: Result<Vec<Option<u32>>, GraphError>)
        requires
            self.wf(),
        ensures
            r is Ok <==> node < self.n,
            (r matches Ok(dist) ==> distances_from(self.adj(), node as int, dist@)),
            (r matches Err(e) ==> e == GraphError::NotFound),
    {
        if node < self.n {
            Ok(self.shortest_paths(node))
        } else {
            Err(GraphError::NotFound)
        }
    }

    /// Breadth-first distances from every node: row `u` holds the distances
    /// from node `u`, as `node_distance` reports them.
    pub fn distances(&self) -> (r: Vec<Vec<Option<u32>>>)
        requires
            self.wf(),
        ensures
            r@.len() == self.n,
            forall|u: int|
                0 <= u < self.n ==> distances_from(self.adj(), u, (#[trigger] r@[u])@),
    {
        let mut r: Vec<Vec<Option<u32>>> = Vec::new();
        let mut u: usize = 0;
        while u < self.n
            invariant
                self.wf(),
                u <= self.n,
                r@.len() == u,
                forall|i: int|
                    0 <= i < u ==> distances_from(self.adj(), i, (#[trigger] r@[i])@),
            decreases self.n - u,
        {
            r.push(self.shortest_paths(u));
            u += 1;
        }
        r
    }

    /// The immediate neighborhood of every node: row `u` is a copy of node
    /// `u`'s neighbor list, in stored order.
    pub fn analyze_neighborhoods(&self) -> (r: Vec<Vec<usize>>)
        requires
            self.wf(),
        ensures
            r@.len() == self.n,
            forall|u: int| 0 <= u < self.n ==> (#[trigger] r@[u])@ == self.adj()[u],
    {
        let mut r: Vec<Vec<usize>> = Vec::new();
        let mut u: usize = 0;
        while u < self.n
            invariant
                self.wf(),
                u <= self.n,
                r@.len() == u,
                forall|i: int| 0 <= i < u ==> (#[trigger] r@[i])@ == self.adj()[i],
            decreases self.n - u,
        {
            let row = copy_row(&self.adj_map[u]);
            proof {
                assert(self.adj()[u as int] == self.adj_map@[u as int]@);
            }
            r.push(row);
            u += 1;
        }
        r
    }

    /// Labels every node reachable from `node` with the fresh component id
    /// `count` and returns how many nodes that is. Nodes of other components
    /// keep their labels; `count` must not be in use, and everything
    /// reachable from `node` must still be unlabeled.
    fn find_components(&self, node: usize, visited: &mut Vec<usize>, count: usize) -> (size: usize)
        requires
            self.wf(),
            node < self.n,
            old(visited)@.len() == self.n,
            count >= 1,
            forall|v: int| 0 <= v < self.n ==> (#[trigger] old(visited)@[v]) != count,
            forall|v: int|
                0 <= v < self.n && reachable(self.adj(), node as int, v) ==> (#[trigger] old(visited)@[v]) == 0,
        ensures
            final(visited)@.len() == self.n,
            forall|v: int|
                0 <= v < self.n ==> (((#[trigger] final(visited)@[v]) == count) <==> reachable(
                    self.adj(),
                    node as int,
                    v,
                )),
            forall|v: int|
                0 <= v < self.n && !reachable(self.adj(), node as int, v) ==> (#[trigger] final(visited)@[v]) == old(visited)@[v],
            size == Set::new(
                |v: int| 0 <= v < self.n && reachable(self.adj(), node as int, v),
            ).len(),
    {
        let n = self.n;
        let ghost a = self.adj();
        let ghost s = node as int;
        let ghost old_vis = visited@;
        visited.set(node, count);
        let mut size: usize = 1;
        let ghost mut labeled: Set<int> = Set::empty().insert(s);
        let mut queue: VecDeque<usize> = VecDeque::new();
        queue.push_back(node);
        proof {
            lemma_path_refl(a, s);
            assert(labeled.len() == 1) by {
                assert(Set::<int>::empty().len() == 0);
            }
            vstd::set_lib::lemma_int_range(0, n as int);
            assert(labeled.subset_of(vstd::set_lib::set_int_range(0, n as int)));
            vstd::set_lib::lemma_len_subset(labeled, vstd::set_lib::set_int_range(0, n as int));
            assert(queue@[0] == node);
            assert(queue@.contains(node));
            assert(forall|v: int| #[trigger] labeled.contains(v) ==> v == s);
        }
        while queue.len() > 0
            invariant
                self.wf(),
                n == self.n,
                a == self.adj(),
                s == node,
                node < n,
                count >= 1,
                visited@.len() == n,
                old_vis.len() == n,
                forall|v: int| 0 <= v < n ==> (#[trigger] old_vis[v]) != count,
                forall|v: int|
                    0 <= v < n && reachable(a, s, v) ==> (#[trigger] old_vis[v]) == 0,
                labeled.finite(),
                labeled.len() <= n,
                size == labeled.len(),
                labeled.contains(s),
                forall|v: int| #[trigger] labeled.contains(v) ==> 0 <= v < n,
                forall|v: int|
                    0 <= v < n ==> ((visited@[v] == count) <==> labeled.contains(v)),
                forall|v: int|
                    0 <= v < n && !labeled.contains(v) ==> visited@[v] == old_vis[v],
                forall|v: int| #[trigger] labeled.contains(v) ==> reachable(a, s, v),
                forall|k: int|
                    0 <= k < queue@.len() ==> labeled.contains(#[trigger] queue@[k] as int),
                queue@.no_duplicates(),
                forall|v: int, w: int|
                    labeled.contains(v) && !queue@.contains(v as usize) && #[trigger] edge(
                        a,
                        v,
                        w,
                    ) ==> labeled.contains(w),
            decreases 2 * (n - labeled.len()) + queue@.len(),
        {
            let ghost queue0 = queue@;
            let cur = queue.pop_front().unwrap();
            proof {
                assert(labeled.contains(cur as int));
                assert(forall|k: int| 0 <= k < queue@.len() ==> queue@[k] == queue0[k + 1]);
                assert forall|x: usize| #[trigger] queue0.contains(x) implies (x == cur
                    || queue@.contains(x)) by {
                    let i = choose|i: int| 0 <= i < queue0.len() && queue0[i] == x;
                    if i > 0 {
                        assert(queue@[i - 1] == x);
                    }
                }
                assert forall|x: usize| #[trigger] queue@.contains(x) implies queue0.contains(
                    x,
                ) by {
                    let i = choose|i: int| 0 <= i < queue@.len() && queue@[i] == x;
                    assert(queue0[i + 1] == x);
                }
                assert(!queue@.contains(cur)) by {
                    if queue@.contains(cur) {
                        let i = choose|i: int| 0 <= i < queue@.len() && queue@[i] == cur;
                        assert(queue0[i + 1] == cur && queue0[0] == cur);
                    }
                }
            }
            let ghost measure0 = 2 * (n - labeled.len()) + queue@.len();
            let row_len = self.adj_map[cur].len();
            proof {
                assert(a[cur as int] == self.adj_map@[cur as int]@);
                assert(row_wf(a[cur as int], n as int, cur as int));
            }
            let mut k: usize = 0;
            while k < row_len
                invariant
                    self.wf(),
                    n == self.n,
                    a == self.adj(),
                    s == node,
                    node < n,
                    count >= 1,
                    cur < n,
                    row_len == a[cur as int].len(),
                    labeled.contains(cur as int),
                    k <= row_len,
                    visited@.len() == n,
                    old_vis.len() == n,
                    forall|v: int| 0 <= v < n ==> (#[trigger] old_vis[v]) != count,
                    forall|v: int|
                        0 <= v < n && reachable(a, s, v) ==> (#[trigger] old_vis[v]) == 0,
                    labeled.finite(),
                    labeled.len() <= n,
                    size == labeled.len(),
                    labeled.contains(s),
                    forall|v: int| #[trigger] labeled.contains(v) ==> 0 <= v < n,
                    forall|v: int|
                        0 <= v < n ==> ((visited@[v] == count) <==> labeled.contains(v)),
                    forall|v: int|
                        0 <= v < n && !labeled.contains(v) ==> visited@[v] == old_vis[v],
                    forall|v: int| #[trigger] labeled.contains(v) ==> reachable(a, s, v),
                    forall|k: int|
                        0 <= k < queue@.len() ==> labeled.contains(#[trigger] queue@[k] as int),
                    queue@.no_duplicates(),
                    !queue@.contains(cur),
                    forall|v: int, w: int|
                        labeled.contains(v) && v != cur as int && !queue@.contains(v as usize)
                            && #[trigger] edge(a, v, w) ==> labeled.contains(w),
                    forall|idx: int|
                        0 <= idx < k ==> labeled.contains(#[trigger] a[cur as int][idx] as int),
                    2 * (n - labeled.len()) + queue@.len() <= measure0,
                decreases row_len - k,
            {
                let w = self.adj_map[cur][k];
                proof {
                    assert(a[cur as int][k as int] == w);
                    assert(a[cur as int].contains(w));
                    lemma_row_entry(a[cur as int], n as int, cur as int, w);
                    assert(edge(a, cur as int, w as int));
                    lemma_reach_step(a, s, cur as int, w as int);
                }
                if visited[w] == 0 {
                    proof {
                        assert(!labeled.contains(w as int));
                        let ghost labeled1 = labeled.insert(w as int);
                        assert(labeled1.len() == labeled.len() + 1);
                        vstd::set_lib::lemma_int_range(0, n as int);
                        assert(labeled1.subset_of(vstd::set_lib::set_int_range(0, n as int)));
                        vstd::set_lib::lemma_len_subset(
                            labeled1,
                            vstd::set_lib::set_int_range(0, n as int),
                        );
                        assert(!queue@.contains(w)) by {
                            if queue@.contains(w) {
                                let i = choose|i: int| 0 <= i < queue@.len() && queue@[i] == w;
                                assert(labeled.contains(queue@[i] as int));
                            }
                        }
                        labeled = labeled1;
                    }
                    visited.set(w, count);
                    size += 1;
                    let ghost q0 = queue@;
                    queue.push_back(w);
                    proof {
                        lemma_push_effect(q0, w);
                    }
                } else {
                    proof {
                        assert(visited@[w as int] != 0);
                        assert(labeled.contains(w as int)) by {
                            if !labeled.contains(w as int) {
                                assert(visited@[w as int] == old_vis[w as int]);
                                assert(old_vis[w as int] == 0);
                            }
                        }
                    }
                }
                k += 1;
            }
            proof {
                assert forall|v: int, w: int|
                    labeled.contains(v) && !queue@.contains(v as usize) && #[trigger] edge(
                        a,
                        v,
                        w,
                    ) implies labeled.contains(w) by {
                    if v == cur as int {
                        assert(0 <= w < n && a[cur as int].contains(w as usize));
                        let idx = choose|idx: int|
                            0 <= idx < a[cur as int].len() && a[cur as int][idx] == w as usize;
                        assert(labeled.contains(a[cur as int][idx] as int));
                    }
                }
            }
        }
        proof {
            let reach_set = Set::new(|v: int| 0 <= v < n && reachable(a, s, v));
            assert forall|v: int| #[trigger] reach_set.contains(v) implies labeled.contains(v) by {
                lemma_closed_reachable(a, labeled, s, v);
            }
            assert(labeled =~= reach_set);
            assert forall|v: int| 0 <= v < n implies ((visited@[v] == count) <==> reachable(
                a,
                s,
                v,
            )) by {
                if reachable(a, s, v) {
                    assert(reach_set.contains(v));
                    assert(labeled.contains(v));
                }
                if visited@[v] == count {
                    assert(labeled.contains(v));
                    assert(reachable(a, s, v));
                }
            }
            assert(reach_set =~= Set::new(
                |v: int| 0 <= v < self.n && reachable(self.adj(), node as int, v),
            ));
        }
        size
    }

    /// Partitions the nodes into connected components of the (symmetric)
    /// graph: returns one label per node, labels running from 1 to the
    /// returned component count, and two nodes carry the same label exactly
    /// when a path connects them.
    pub fn components(&self) -> (r: (Vec<usize>, usize))
        requires
            self.wf(),
            self.symmetric(),
        ensures
            r.0@.len() == self.n,
            forall|v: int| 0 <= v < self.n ==> 1 <= (#[trigger] r.0@[v]) <= r.1,
            forall|u: int, v: int|
                0 <= u < self.n && 0 <= v < self.n ==> (((#[trigger] r.0@[u]) == (
                #[trigger] r.0@[v])) <==> reachable(self.adj(), u, v)),
            r.1 <= self.n,
            self.n == 0 ==> r.1 == 0,
            forall|c: int| 1 <= c <= r.1 ==> #[trigger] label_used(r.0@, c),
    {
        let n = self.n;
        let ghost a = self.adj();
        let mut labels: Vec<usize> = Vec::new();
        let mut k: usize = 0;
        while k < n
            invariant
                k <= n,
                labels@.len() == k,
                forall|v: int| 0 <= v < k ==> (#[trigger] labels@[v]) == 0,
            decreases n - k,
        {
            labels.push(0);
            k += 1;
        }
        let mut count: usize = 0;
        let ghost mut seeds: Seq<int> = Seq::empty();
        let mut u: usize = 0;
        while u < n
            invariant
                self.wf(),
                self.symmetric(),
                n == self.n,
                a == self.adj(),
                u <= n,
                count <= u,
                labels@.len() == n,
                seeds.len() == count,
                forall|kk: int|
                    0 <= kk < count ==> 0 <= #[trigger] seeds[kk] < n && labels@[seeds[kk]] == kk
                        + 1,
                forall|v: int| 0 <= v < n ==> (#[trigger] labels@[v]) <= count,
                forall|v: int| 0 <= v < u ==> (#[trigger] labels@[v]) != 0,
                forall|v: int|
                    0 <= v < n && (#[trigger] labels@[v]) != 0 ==> reachable(
                        a,
                        seeds[labels@[v] - 1],
                        v,
                    ),
                forall|v: int, kk: int|
                    0 <= v < n && 0 <= kk < count && reachable(a, #[trigger] seeds[kk], v) ==> (
                    #[trigger] labels@[v]) == kk + 1,
            decreases n - u,
        {
            if labels[u] == 0 {
                proof {
                    assert forall|v: int|
                        0 <= v < n && reachable(a, u as int, v) implies (#[trigger] labels@[v])
                        == 0 by {
                        if labels@[v] != 0 {
                            let kk = labels@[v] - 1;
                            assert(reachable(a, seeds[kk], v));
                            lemma_reach_sym(a, u as int, v);
                            lemma_reach_trans(a, seeds[kk], v, u as int);
                            assert(labels@[u as int] == kk + 1);
                        }
                    }
                }
                let ghost labels_pre = labels@;
                count += 1;
                let _size: usize = self.find_components(u, &mut labels, count);
                proof {
                    let ghost seeds1 = seeds.push(u as int);
                    lemma_path_refl(a, u as int);
                    assert forall|v: int|
                        0 <= v < n && (#[trigger] labels@[v]) != 0 implies reachable(
                        a,
                        seeds1[labels@[v] - 1],
                        v,
                    ) by {
                        if labels@[v] == count {
                            assert(seeds1[count - 1] == u as int);
                            assert(reachable(a, u as int, v));
                        } else {
                            assert(!reachable(a, u as int, v));
                            assert(labels@[v] == labels_pre[v]);
                            assert(seeds1[labels@[v] - 1] == seeds[labels@[v] - 1]);
                            assert(reachable(a, seeds[labels_pre[v] - 1], v));
                        }
                    }
                    assert forall|v: int, kk: int|
                        0 <= v < n && 0 <= kk < count && reachable(a, #[trigger] seeds1[kk], v)
                        implies (#[trigger] labels@[v]) == kk + 1 by {
                        if kk < seeds.len() {
                            assert(seeds1[kk] == seeds[kk]);
                            if reachable(a, u as int, v) {
                                assert(labels_pre[v] == kk + 1);
                                assert(labels_pre[v] == 0);
                                assert(false);
                            } else {
                                assert(labels@[v] == labels_pre[v]);
                                assert(labels_pre[v] == kk + 1);
                            }
                        } else {
                            assert(seeds1[kk] == u as int);
                            assert(labels@[v] == count);
                        }
                    }
                    seeds = seeds1;
                }
            }
            u += 1;
        }
        proof {
            assert forall|uu: int, v: int|
                0 <= uu < n && 0 <= v < n implies (((#[trigger] labels@[uu]) == (
            #[trigger] labels@[v])) <==> reachable(a, uu, v)) by {
                let ku = labels@[uu] - 1;
                let kv = labels@[v] - 1;
                if labels@[uu] == labels@[v] {
                    assert(reachable(a, seeds[ku], uu));
                    assert(reachable(a, seeds[ku], v));
                    lemma_reach_sym(a, seeds[ku], uu);
                    lemma_reach_trans(a, uu, seeds[ku], v);
                }
                if reachable(a, uu, v) {
                    assert(reachable(a, seeds[ku], uu));
                    lemma_reach_trans(a, seeds[ku], uu, v);
                    assert(labels@[v] == ku + 1);
                }
            }
            assert forall|c: int| 1 <= c <= count implies #[trigger] label_used(labels@, c) by {
                assert(labels@[seeds[c - 1]] == c);
            }
        }
        (labels, count)
    }
}

/// Sum of the neighbor-list lengths of the first `upto` rows. On a
/// symmetrized graph every undirected edge is stored twice, so half this sum
/// is the undirected edge count.
pub open spec fn degree_sum(a: Seq<Seq<usize>>, upto: int) -> int
    decreases upto,
{
    if upto <= 0 {
        0
    } else {
        degree_sum(a, upto - 1) + a[upto - 1].len()
    }
}

/// Every pair of distinct nodes is adjacent.
pub open spec fn complete(g: Graph) -> bool {
    forall|i: int, j: int| 0 <= i < g.n && 0 <= j < g.n && i != j ==> edge(g.adj(), i, j)
}

/// A well-formed row holds at most `n - 1` distinct neighbors, and holds all
/// of them exactly when it has length `n - 1`.
pub proof fn lemma_row_card(row: Seq<usize>, n: int, i: int)
    requires
        row_wf(row, n, i),
        0 <= i < n,
        n <= usize::MAX,
    ensures
        row.len() <= n - 1,
        row.len() == n - 1 ==> forall|j: int|
            0 <= j < n && j != i ==> row.contains(#[trigger] (j as usize)),
{
    let rowi = row.map_values(|x: usize| x as int);
    assert(rowi.no_duplicates()) by {
        assert forall|p: int, q: int|
            0 <= p < rowi.len() && 0 <= q < rowi.len() && p != q implies rowi[p] != rowi[q] by {
            assert(row[p] != row[q]);
        }
    }
    rowi.unique_seq_to_set();
    let range = vstd::set_lib::set_int_range(0, n);
    vstd::set_lib::lemma_int_range(0, n);
    let others = range.remove(i);
    assert(others.len() == n - 1);
    assert forall|y: int| #[trigger] rowi.to_set().contains(y) implies others.contains(y) by {
        let k = choose|k: int| 0 <= k < rowi.len() && rowi[k] == y;
        assert(row[k] == y as usize);
    }
    assert(rowi.to_set().subset_of(others));
    vstd::set_lib::lemma_len_subset(rowi.to_set(), others);
    if row.len() == n - 1 {
        vstd::set_lib::lemma_subset_equality(rowi.to_set(), others);
        assert forall|j: int| 0 <= j < n && j != i implies row.contains(#[trigger] (j as usize)) by {
            assert(others.contains(j));
            assert(rowi.to_set().contains(j));
            let k = choose|k: int| 0 <= k < rowi.len() && rowi[k] == j;
            assert(row[k] == j as usize);
        }
    }
}

/// The degree sum of the first `upto` well-formed rows is at most
/// `upto * (n - 1)`, with equality only when each of those rows is full.
pub proof fn lemma_degree_sum_le(a: Seq<Seq<usize>>, n: int, upto: int)
    requires
        0 <= upto <= n,
        n <= usize::MAX,
        a.len() == n,
        forall|i: int| 0 <= i < n ==> row_wf(#[trigger] a[i], n, i),
    ensures
        0 <= degree_sum(a, upto) <= upto * (n - 1),
        degree_sum(a, upto) == upto * (n - 1) ==> forall|i: int|
            0 <= i < upto ==> (#[trigger] a[i]).len() == n - 1,
    decreases upto,
{
    if upto > 0 {
        lemma_degree_sum_le(a, n, upto - 1);
        lemma_row_card(a[upto - 1], n, upto - 1);
        assert((upto - 1) * (n - 1) + (n - 1) == upto * (n - 1)) by (nonlinear_arith);
    }
}

/// The degree sum of `upto` full rows is exactly `upto * (n - 1)`.
pub proof fn lemma_degree_sum_full(a: Seq<Seq<usize>>, n: int, upto: int)
    requires
        0 <= upto <= n,
        a.len() == n,
        forall|i: int| 0 <= i < n ==> (#[trigger] a[i]).len() == n - 1,
    ensures
        degree_sum(a, upto) == upto * (n - 1),
    decreases upto,
{
    if upto > 0 {
        lemma_degree_sum_full(a, n, upto - 1);
        assert(a[upto - 1].len() == n - 1);
        assert(degree_sum(a, upto) == degree_sum(a, upto - 1) + a[upto - 1].len());
        assert((upto - 1) * (n - 1) + (n - 1) == upto * (n - 1)) by (nonlinear_arith);
    } else {
        assert(upto * (n - 1) == 0) by (nonlinear_arith)
            requires
                upto == 0,
        ;
    }
}

/// `n * (n - 1)` is even: twice the number of unordered pairs.
pub proof fn lemma_pair_count_even(n: int)
    requires
        n >= 0,
    ensures
        n * (n - 1) == 2 * ((n * (n - 1)) / 2),
{
    let m = n * (n - 1);
    if n % 2 == 0 {
        let h = n / 2;
        vstd::arithmetic::div_mod::lemma_fundamental_div_mod(n, 2);
        assert(m == (h * (n - 1)) * 2) by (nonlinear_arith)
            requires
                n == 2 * h,
                m == n * (n - 1),
        ;
        vstd::arithmetic::div_mod::lemma_fundamental_div_mod_converse(m, 2, h * (n - 1), 0);
    } else {
        let h = (n - 1) / 2;
        vstd::arithmetic::div_mod::lemma_fundamental_div_mod(n - 1, 2);
        assert((n - 1) % 2 == 0) by {
            vstd::arithmetic::div_mod::lemma_mod_sub_multiples_vanish(n, 2);
        }
        assert(m == (n * h) * 2) by (nonlinear_arith)
            requires
                n - 1 == 2 * h,
                m == n * (n - 1),
        ;
        vstd::arithmetic::div_mod::lemma_fundamental_div_mod_converse(m, 2, n * h, 0);
    }
}

/// Density bound: half the degree sum of a well-formed graph never exceeds
/// `n * (n - 1) / 2`, and reaches it exactly when every pair of distinct
/// nodes is adjacent. This is the numerator-to-denominator comparison of the
/// ratio `edge_density` returns.
pub proof fn lemma_density_bounds(g: Graph)
    requires
        g.wf(),
        g.n >= 2,
    ensures
        0 <= degree_sum(g.adj(), g.n as int) / 2,
        degree_sum(g.adj(), g.n as int) / 2 <= (g.n as int) * (g.n as int - 1) / 2,
        (degree_sum(g.adj(), g.n as int) / 2 == (g.n as int) * (g.n as int - 1) / 2)
            <==> complete(g),
{
    let a = g.adj();
    let n = g.n as int;
    let s = degree_sum(a, n);
    let m = n * (n - 1);
    lemma_degree_sum_le(a, n, n);
    vstd::arithmetic::div_mod::lemma_div_is_ordered(0, s, 2);
    vstd::arithmetic::div_mod::lemma_div_is_ordered(s, m, 2);
    lemma_pair_count_even(n);
    if s / 2 == m / 2 {
        // An even total with the same half must be the full total.
        if s < m {
            vstd::arithmetic::div_mod::lemma_div_is_ordered(s, m - 1, 2);
            vstd::arithmetic::div_mod::lemma_fundamental_div_mod_converse(
                m - 1,
                2,
                m / 2 - 1,
                1,
            );
            assert(false);
        }
        assert forall|i: int, j: int|
            0 <= i < g.n && 0 <= j < g.n && i != j implies edge(g.adj(), i, j) by {
            assert(a[i].len() == n - 1);
            lemma_row_card(a[i], n, i);
        }
    }
    if complete(g) {
        assert forall|i: int| 0 <= i < n implies (#[trigger] a[i]).len() == n - 1 by {
            lemma_row_card(a[i], n, i);
            if a[i].len() < n - 1 {
                lemma_row_missing(a[i], n, i);
                let j = choose|j: int|
                    0 <= j < n && j != i && !a[i].contains(#[trigger] (j as usize));
                assert(edge(g.adj(), i, j));
                assert(false);
            }
        }
        lemma_degree_sum_full(a, n, n);
    }
}

/// A well-formed row shorter than `n - 1` misses some candidate neighbor.
proof fn lemma_row_missing(row: Seq<usize>, n: int, i: int)
    requires
        row_wf(row, n, i),
        0 <= i < n,
        n <= usize::MAX,
        row.len() < n - 1,
    ensures
        exists|j: int| 0 <= j < n && j != i && !row.contains(#[trigger] (j as usize)),
{
    if forall|j: int| 0 <= j < n && j != i ==> row.contains(#[trigger] (j as usize)) {
        // Then the row's entry set would have n - 1 members inside a shorter
        // sequence: impossible.
        let rowi = row.map_values(|x: usize| x as int);
        assert(rowi.no_duplicates()) by {
            assert forall|p: int, q: int|
                0 <= p < rowi.len() && 0 <= q < rowi.len() && p != q implies rowi[p] != rowi[
                q
            ] by {
                assert(row[p] != row[q]);
            }
        }
        rowi.unique_seq_to_set();
        let range = vstd::set_lib::set_int_range(0, n);
        vstd::set_lib::lemma_int_range(0, n);
        let others = range.remove(i);
        assert(others.len() == n - 1);
        assert forall|y: int| #[trigger] others.contains(y) implies rowi.to_set().contains(y) by {
            assert(row.contains(y as usize));
            let k = choose|k: int| 0 <= k < row.len() && row[k] == y as usize;
            assert(rowi[k] == y);
        }
        assert(others.subset_of(rowi.to_set()));
        vstd::set_lib::lemma_len_subset(others, rowi.to_set());
        assert(false);
    }
}

impl Graph {
    /// Ratio of undirected edges to the largest possible count
    /// `n * (n - 1) / 2`; `None` on graphs of fewer than two nodes, where
    /// the ratio is undefined. Meaningful only after `undirected`, since the
    /// edge count is derived by halving the degree sum.
    pub fn edge_density(&self) -> (r: Option<Ratio>)
        requires
            self.wf(),
            self.symmetric(),
        ensures
            r is Some <==> self.n >= 2,
            (r matches Some(rt) ==> {
                &&& rt.num == degree_sum(self.adj(), self.n as int) / 2
                &&& rt.den == (self.n as int) * (self.n as int - 1) / 2
                &&& rt.den > 0
                &&& rt.num <= rt.den
            }),
    {
        let n = self.n;
        if n < 2 {
            return None;
        }
        let ghost a = self.adj();
        let mut sum: u64 = 0;
        let mut i: usize = 0;
        while i < n
            invariant
                self.wf(),
                n == self.n,
                a == self.adj(),
                2 <= n <= MAX_NODES,
                i <= n,
                sum == degree_sum(a, i as int),
                sum <= (i as int) * (n as int - 1),
            decreases n - i,
        {
            proof {
                assert(a[i as int] == self.adj_map@[i as int]@);
                lemma_row_card(a[i as int], n as int, i as int);
                assert((i as int) * (n as int - 1) + (n as int - 1) == (i as int + 1) * (n as int
                    - 1)) by (nonlinear_arith);
                assert((i as int + 1) * (n as int - 1) <= (n as int) * (n as int - 1))
                    by (nonlinear_arith)
                    requires
                        0 <= i as int + 1 <= n as int,
                        n as int >= 2,
                ;
                assert((n as int) * (n as int - 1) < 0x10000000000) by (nonlinear_arith)
                    requires
                        2 <= n as int <= MAX_NODES as int,
                ;
            }
            let len = self.adj_map[i].len();
            sum = sum + (len as u64);
            i += 1;
        }
        proof {
            assert((n as int) * (n as int - 1) < 0x10000000000) by (nonlinear_arith)
                requires
                    2 <= n as int <= MAX_NODES as int,
            ;
            vstd::arithmetic::div_mod::lemma_div_is_ordered(sum as int, (n as int) * (n as int - 1), 2);
            vstd::arithmetic::div_mod::lemma_div_is_ordered(0, sum as int, 2);
            assert((n as int) * (n as int - 1) >= 2) by (nonlinear_arith)
                requires
                    n as int >= 2,
            ;
            vstd::arithmetic::div_mod::lemma_div_is_ordered(2, (n as int) * (n as int - 1), 2);
        }
        let actual: u64 = sum / 2;
        let maxe: u64 = (n as u64) * ((n as u64) - 1) / 2;
        Some(Ratio { num: actual, den: maxe })
    }

    /// The nodes whose flagged-neighbor fraction meets or exceeds `ratio`,
    /// in ascending node order (so the result is stable however the
    /// adjacency was built). Nodes without neighbors are never included.
    pub fn high_risk_pts(&self, ratio: Ratio) -> (r: Vec<usize>)
        requires
            self.wf(),
            ratio.den > 0,
        ensures
            forall|k: int, l: int| 0 <= k < l < r@.len() ==> r@[k] < r@[l],
            forall|k: int| 0 <= k < r@.len() ==> (#[trigger] r@[k]) < self.n,
            forall|i: int|
                0 <= i < self.n ==> (r@.contains(i as usize) <==> (self.adj()[i].len() > 0
                    && fraction_meets(
                    self.adj()[i],
                    self.flags(),
                    ratio.num as int,
                    ratio.den as int,
                ))),
    {
        let n = self.n;
        let ghost a = self.adj();
        let mut r: Vec<usize> = Vec::new();
        let mut i: usize = 0;
        while i < n
            invariant
                self.wf(),
                n == self.n,
                a == self.adj(),
                ratio.den > 0,
                i <= n,
                forall|k: int, l: int| 0 <= k < l < r@.len() ==> r@[k] < r@[l],
                forall|k: int| 0 <= k < r@.len() ==> (#[trigger] r@[k]) < i,
                forall|j: int|
                    0 <= j < i ==> (r@.contains(j as usize) <==> (a[j].len() > 0
                        && fraction_meets(
                        a[j],
                        self.flags(),
                        ratio.num as int,
                        ratio.den as int,
                    ))),
            decreases n - i,
        {
            let row = &self.adj_map[i];
            proof {
                assert(a[i as int] == self.adj_map@[i as int]@);
                assert(self.flags() == flags_of(self.nodes@));
            }
            if row.len() > 0 {
                let c = count_flagged_nodes(row, &self.nodes);
                proof {
                    lemma_count_flagged_bounds(row@, flags_of(self.nodes@));
                }
                if crate::cross_ge(c, ratio.den, ratio.num, row.len() as u64) {
                    proof {
                        assert(!r@.contains(i as usize)) by {
                            if r@.contains(i as usize) {
                                let k = choose|k: int|
                                    0 <= k < r@.len() && r@[k] == i as usize;
                                assert(r@[k] < i);
                            }
                        }
                        assert(r@.no_duplicates()) by {
                            assert forall|p: int, q: int|
                                0 <= p < r@.len() && 0 <= q < r@.len() && p != q implies r@[p]
                                != r@[q] by {
                                if p < q {
                                    assert(r@[p] < r@[q]);
                                } else {
                                    assert(r@[q] < r@[p]);
                                }
                            }
                        }
                        lemma_push_effect(r@, i);
                    }
                    r.push(i);
                }
            }
            proof {
                if r@.contains(i as usize) {
                    let k = choose|k: int| 0 <= k < r@.len() && r@[k] == i as usize;
                    assert(r@[k] == i as usize);
                }
            }
            i += 1;
        }
        r
    }

    /// Predicts the outcome flag of `patient` from its neighborhood: `true`
    /// when the fraction of neighbors with a set flag strictly exceeds
    /// `ratio`. No prediction (`None`) exactly when the patient is not in
    /// the graph or has no neighbors.
    pub fn predict_angina(&self, patient: usize, ratio: Ratio) -> (r: Option<bool>)
        requires
            self.wf(),
            ratio.den > 0,
        ensures
            r is Some <==> (patient < self.n && self.adj()[patient as int].len() > 0),
            (r matches Some(b) ==> b == fraction_exceeds(
                self.adj()[patient as int],
                self.flags(),
                ratio.num as int,
                ratio.den as int,
            )),
    {
        if patient >= self.n {
            return None;
        }
        let row = &self.adj_map[patient];
        proof {
            assert(self.adj()[patient as int] == self.adj_map@[patient as int]@);
            assert(self.flags() == flags_of(self.nodes@));
        }
        if row.len() == 0 {
            return None;
        }
        let c = count_flagged_nodes(row, &self.nodes);
        proof {
            lemma_count_flagged_bounds(row@, flags_of(self.nodes@));
        }
        Some(crate::cross_gt(c, ratio.den, ratio.num, row.len() as u64))
    }
}

/// The contribution of the ordered pair `(u, v)` to the path-length mean:
/// its shortest distance when the distinct pair is connected, else nothing.
pub open spec fn pair_dist(a: Seq<Seq<usize>>, u: int, v: int) -> int {
    if u != v && reachable(a, u, v) {
        min_dist(a, u, v)
    } else {
        0
    }
}

/// Whether the ordered pair `(u, v)` counts: distinct and connected.
pub open spec fn pair_counts(a: Seq<Seq<usize>>, u: int, v: int) -> int {
    if u != v && reachable(a, u, v) {
        1int
    } else {
        0int
    }
}

pub open spec fn row_dist_sum(a: Seq<Seq<usize>>, u: int, upto: int) -> int
    decreases upto,
{
    if upto <= 0 {
        0
    } else {
        row_dist_sum(a, u, upto - 1) + pair_dist(a, u, upto - 1)
    }
}

pub open spec fn row_pair_cnt(a: Seq<Seq<usize>>, u: int, upto: int) -> int
    decreases upto,
{
    if upto <= 0 {
        0
    } else {
        row_pair_cnt(a, u, upto - 1) + pair_counts(a, u, upto - 1)
    }
}

/// Sum of the shortest distances of all connected ordered pairs of distinct
/// nodes whose first node is below `upto`.
pub open spec fn all_dist_sum(a: Seq<Seq<usize>>, upto: int) -> int
    decreases upto,
{
    if upto <= 0 {
        0
    } else {
        all_dist_sum(a, upto - 1) + row_dist_sum(a, upto - 1, a.len() as int)
    }
}

/// Number of connected ordered pairs of distinct nodes whose first node is
/// below `upto`.
pub open spec fn all_pair_cnt(a: Seq<Seq<usize>>, upto: int) -> int
    decreases upto,
{
    if upto <= 0 {
        0
    } else {
        all_pair_cnt(a, upto - 1) + row_pair_cnt(a, upto - 1, a.len() as int)
    }
}

impl Graph {
    /// Mean shortest distance over all connected ordered pairs of distinct
    /// nodes, as the exact ratio of their total distance to their count
    /// (each unordered pair counts twice, consistently). `None` exactly when
    /// no such pair exists (at most one node, or totally disconnected).
    pub fn average_path_length(&self) -> (r: Option<Ratio>)
        requires
            self.wf(),
        ensures
            r is Some <==> all_pair_cnt(self.adj(), self.n as int) > 0,
            (r matches Some(rt) ==> {
                &&& rt.num == all_dist_sum(self.adj(), self.n as int)
                &&& rt.den == all_pair_cnt(self.adj(), self.n as int)
                &&& rt.den > 0
            }),
    {
        let n = self.n;
        let ghost a = self.adj();
        let mut total: u64 = 0;
        let mut cnt: u64 = 0;
        let mut u: usize = 0;
        while u < n
            invariant
                self.wf(),
                n == self.n,
                a == self.adj(),
                n <= MAX_NODES,
                u <= n,
                total == all_dist_sum(a, u as int),
                cnt == all_pair_cnt(a, u as int),
                cnt <= (u as int) * (n as int),
                total <= cnt * (n as int),
            decreases n - u,
        {
            let dist = self.shortest_paths(u);
            let mut v: usize = 0;
            while v < n
                invariant
                    self.wf(),
                    n == self.n,
                    a == self.adj(),
                    n <= MAX_NODES,
                    u < n,
                    v <= n,
                    distances_from(a, u as int, dist@),
                    total == all_dist_sum(a, u as int) + row_dist_sum(a, u as int, v as int),
                    cnt == all_pair_cnt(a, u as int) + row_pair_cnt(a, u as int, v as int),
                    cnt <= (u as int) * (n as int) + (v as int),
                    total <= cnt * (n as int),
                decreases n - v,
            {
                if v != u {
                    if let Some(d) = dist[v] {
                        proof {
                            assert(assigned(dist@, v as int));
                            assert(reachable(a, u as int, v as int));
                            assert(is_min_dist(a, u as int, v as int, d as int));
                            lemma_min_dist_unique(a, u as int, v as int, d as int);
                            assert(pair_dist(a, u as int, v as int) == d as int);
                            assert(d < n);
                            assert(cnt as int + 1 <= ((u as int) * (n as int) + (v as int)) + 1);
                            assert((u as int) * (n as int) + (n as int) == (u as int + 1) * (
                            n as int)) by (nonlinear_arith);
                            assert((u as int + 1) * (n as int) <= (n as int) * (n as int))
                                by (nonlinear_arith)
                                requires
                                    0 <= u as int + 1 <= n as int,
                            ;
                            assert((n as int) * (n as int) <= 0x10000000000) by (nonlinear_arith)
                                requires
                                    0 <= n as int <= MAX_NODES as int,
                                    MAX_NODES == 0x100000,
                            ;
                            assert(total as int + d as int <= (cnt as int + 1) * (n as int))
                                by (nonlinear_arith)
                                requires
                                    total as int <= cnt as int * (n as int),
                                    (d as int) < (n as int),
                                    0 <= d as int,
                            ;
                            assert((cnt as int + 1) * (n as int) <= 0x10000000000 * (n as int))
                                by (nonlinear_arith)
                                requires
                                    cnt as int + 1 <= 0x10000000000,
                                    n as int >= 0,
                            ;
                            assert(0x10000000000 * (n as int) <= 0x10000000000 * 0x100000)
                                by (nonlinear_arith)
                                requires
                                    0 <= n as int <= 0x100000,
                            ;
                        }
                        total = total + (d as u64);
                        cnt = cnt + 1;
                    } else {
                        proof {
                            assert(!assigned(dist@, v as int));
                            assert(!reachable(a, u as int, v as int));
                        }
                    }
                } else {
                    proof {
                        assert(pair_dist(a, u as int, v as int) == 0);
                    }
                }
                v += 1;
            }
            u += 1;
            proof {
                assert(cnt <= (u as int) * (n as int)) by (nonlinear_arith)
                    requires
                        cnt as int <= (u as int - 1) * (n as int) + (n as int),
                ;
            }
        }
        if cnt == 0 {
            None
        } else {
            Some(Ratio { num: total, den: cnt })
        }
    }
}

/// Neighbors `row[k]` and `row[l]` are themselves adjacent.
pub open spec fn pair_connected(a: Seq<Seq<usize>>, row: Seq<usize>, k: int, l: int) -> bool {
    a[row[k] as int].contains(row[l])
}

/// How many of the pairs `(k, l)` with `k < l < upto` are adjacent.
pub open spec fn row_conn_inner(a: Seq<Seq<usize>>, row: Seq<usize>, k: int, upto: int) -> int
    decreases upto,
{
    if upto <= k + 1 || upto <= 0 {
        0
    } else {
        row_conn_inner(a, row, k, upto - 1) + (if pair_connected(a, row, k, upto - 1) {
            1int
        } else {
            0int
        })
    }
}

/// How many unordered pairs of entries of `row`, the first below `uptok`,
/// are adjacent: the triangle count at the row's owner.
pub open spec fn row_conn(a: Seq<Seq<usize>>, row: Seq<usize>, uptok: int) -> int
    decreases uptok,
{
    if uptok <= 0 {
        0
    } else {
        row_conn(a, row, uptok - 1) + row_conn_inner(a, row, uptok - 1, row.len() as int)
    }
}

/// The exact clustering-coefficient sum over the first `upto` nodes, as an
/// unreduced rational: each node of degree at least two contributes its
/// fraction of adjacent neighbor pairs, every other node contributes zero.
pub open spec fn cc_pair(a: Seq<Seq<usize>>, upto: int) -> (int, int)
    decreases upto,
{
    if upto <= 0 {
        (0int, 1int)
    } else {
        let s = cc_pair(a, upto - 1);
        let deg = a[upto - 1].len() as int;
        if deg >= 2 {
            let tn = row_conn(a, a[upto - 1], deg);
            let td = deg * (deg - 1) / 2;
            (s.0 * td + tn * s.1, s.1 * td)
        } else {
            s
        }
    }
}

/// Every prefix of the clustering sum, and the final denominator scaled by
/// `n`, fits in `u64` unreduced. Under this condition the reduced fold of
/// `clustering_coefficient` cannot overflow.
pub open spec fn cc_fits(a: Seq<Seq<usize>>, n: int) -> bool {
    &&& forall|k: int|
        0 <= k <= n ==> (#[trigger] cc_pair(a, k)).0 <= u64::MAX && cc_pair(a, k).1 <= u64::MAX
    &&& cc_pair(a, n).1 * n <= u64::MAX
}

pub proof fn lemma_row_conn_inner_bounds(a: Seq<Seq<usize>>, row: Seq<usize>, k: int, upto: int)
    ensures
        0 <= row_conn_inner(a, row, k, upto),
        upto > k + 1 && k >= 0 ==> row_conn_inner(a, row, k, upto) <= upto - k - 1,
        upto <= k + 1 ==> row_conn_inner(a, row, k, upto) == 0,
    decreases upto,
{
    if upto > k + 1 && upto > 0 {
        lemma_row_conn_inner_bounds(a, row, k, upto - 1);
    }
}

/// Twice the pair count of a row's prefix is bounded by the count of
/// available pairs: `2 * row_conn <= 2mL - m^2 - m` for a prefix of `m`
/// first indices over a row of length `L`.
pub proof fn lemma_row_conn_le(a: Seq<Seq<usize>>, row: Seq<usize>, m: int)
    requires
        0 <= m <= row.len(),
    ensures
        0 <= 2 * row_conn(a, row, m),
        2 * row_conn(a, row, m) <= 2 * m * (row.len() as int) - m * m - m,
    decreases m,
{
    let len = row.len() as int;
    if m > 0 {
        lemma_row_conn_le(a, row, m - 1);
        lemma_row_conn_inner_bounds(a, row, m - 1, len);
        assert(2 * (m - 1) * len - (m - 1) * (m - 1) - (m - 1) + 2 * (len - m) == 2 * m * len - m
            * m - m) by (nonlinear_arith);
        assert(0 <= 2 * m * len - m * m - m) by (nonlinear_arith)
            requires
                0 < m <= len,
        ;
    } else {
        assert(2 * m * len - m * m - m == 0) by (nonlinear_arith)
            requires
                m == 0,
        ;
    }
}

/// The clustering sum is a fraction in `[0, upto]`: non-negative numerator,
/// positive denominator, numerator at most `upto` times the denominator.
pub proof fn lemma_cc_pair_bounds(a: Seq<Seq<usize>>, upto: int)
    requires
        upto >= 0,
    ensures
        cc_pair(a, upto).1 >= 1,
        0 <= cc_pair(a, upto).0,
        cc_pair(a, upto).0 <= upto * cc_pair(a, upto).1,
    decreases upto,
{
    if upto == 0 {
        assert(upto * cc_pair(a, upto).1 == 0) by (nonlinear_arith)
            requires
                upto == 0,
        ;
    } else {
        lemma_cc_pair_bounds(a, upto - 1);
        let s = cc_pair(a, upto - 1);
        let deg = a[upto - 1].len() as int;
        if deg >= 2 {
            let tn = row_conn(a, a[upto - 1], deg);
            let td = deg * (deg - 1) / 2;
            lemma_row_conn_le(a, a[upto - 1], deg);
            lemma_pair_count_even(deg);
            assert(2 * deg * deg - deg * deg - deg == deg * (deg - 1)) by (nonlinear_arith);
            assert(tn <= td);
            assert(td >= 1) by (nonlinear_arith)
                requires
                    deg >= 2,
                    deg * (deg - 1) == 2 * td,
            ;
            assert(tn >= 0);
            assert(s.1 * td >= 1) by (nonlinear_arith)
                requires
                    s.1 >= 1,
                    td >= 1,
            ;
            assert(0 <= s.0 * td + tn * s.1) by (nonlinear_arith)
                requires
                    s.0 >= 0,
                    td >= 1,
                    tn >= 0,
                    s.1 >= 1,
            ;
            assert(s.0 * td + tn * s.1 <= upto * (s.1 * td)) by (nonlinear_arith)
                requires
                    s.0 <= (upto - 1) * s.1,
                    tn <= td,
                    tn >= 0,
                    s.0 >= 0,
                    s.1 >= 1,
                    td >= 1,
            ;
        } else {
            assert(cc_pair(a, upto) == s);
            assert(s.0 <= upto * s.1) by (nonlinear_arith)
                requires
                    s.0 <= (upto - 1) * s.1,
                    s.1 >= 1,
            ;
        }
    }
}

/// Clustering coefficient range: any ratio denoting the network clustering
/// coefficient (the clustering sum divided by the node count) lies in
/// `[0, 1]` — its numerator never exceeds its denominator.
pub proof fn lemma_clustering_in_unit_range(a: Seq<Seq<usize>>, n: int, rt: Ratio)
    requires
        n >= 1,
        rt.den > 0,
        rat_eq(rt.num as int, rt.den as int, cc_pair(a, n).0, cc_pair(a, n).1 * n),
    ensures
        rt.num <= rt.den,
{
    lemma_cc_pair_bounds(a, n);
    let s = cc_pair(a, n);
    assert(s.0 <= n * s.1);
    assert(rt.num as int * (s.1 * n) == s.0 * (rt.den as int));
    assert(rt.num <= rt.den) by (nonlinear_arith)
        requires
            rt.num as int * (s.1 * n) == s.0 * (rt.den as int),
            s.0 <= n * s.1,
            s.0 >= 0,
            s.1 >= 1,
            n >= 1,
            rt.den > 0,
            rt.num >= 0,
    ;
}

impl Graph {
    /// Network-wide clustering coefficient, as an exact reduced ratio: the
    /// sum over all nodes of the fraction of adjacent neighbor pairs (zero
    /// for degree below two), divided by the node count. `None` on an empty
    /// graph, where the mean is undefined, or if an intermediate exact value
    /// outgrows 64 bits even after reduction — never when `cc_fits` holds.
    pub fn clustering_coefficient(&self) -> (r: Option<Ratio>)
        requires
            self.wf(),
        ensures
            self.n == 0 ==> r is None,
            (r matches Some(rt) ==> {
                &&& self.n >= 1
                &&& rt.den > 0
                &&& rat_eq(
                    rt.num as int,
                    rt.den as int,
                    cc_pair(self.adj(), self.n as int).0,
                    cc_pair(self.adj(), self.n as int).1 * (self.n as int),
                )
                &&& rt.num <= rt.den
            }),
            self.n >= 1 && cc_fits(self.adj(), self.n as int) ==> r is Some,
    {
        let n = self.n;
        if n == 0 {
            return None;
        }
        let ghost a = self.adj();
        let mut acc = Ratio { num: 0, den: 1 };
        let ghost mut mult: int = 1;
        let mut i: usize = 0;
        proof {
            assert(cc_pair(a, 0).0 == mult * (acc.num as int)) by (nonlinear_arith)
                requires
                    mult == 1,
                    acc.num == 0,
                    cc_pair(a, 0).0 == 0,
            ;
        }
        while i < n
            invariant
                self.wf(),
                n == self.n,
                a == self.adj(),
                1 <= n <= MAX_NODES,
                i <= n,
                acc.den > 0,
                mult >= 1,
                cc_pair(a, i as int).0 == mult * (acc.num as int),
                cc_pair(a, i as int).1 == mult * (acc.den as int),
            decreases n - i,
        {
            let row = &self.adj_map[i];
            let deg = row.len();
            proof {
                assert(a[i as int] == self.adj_map@[i as int]@);
                assert(row_wf(a[i as int], n as int, i as int));
                lemma_row_card(a[i as int], n as int, i as int);
            }
            if deg >= 2 {
                let mut conn: u64 = 0;
                let mut k: usize = 0;
                while k < deg
                    invariant
                        self.wf(),
                        n == self.n,
                        a == self.adj(),
                        1 <= n <= MAX_NODES,
                        i < n,
                        row@ == a[i as int],
                        deg == row@.len(),
                        2 <= deg <= n - 1,
                        k <= deg,
                        conn == row_conn(a, a[i as int], k as int),
                        conn <= (k as int) * (deg as int),
                    decreases deg - k,
                {
                    let mut l: usize = k + 1;
                    proof {
                        lemma_row_conn_inner_bounds(a, a[i as int], k as int, l as int);
                    }
                    while l < deg
                        invariant
                            self.wf(),
                            n == self.n,
                            a == self.adj(),
                            1 <= n <= MAX_NODES,
                            i < n,
                            row@ == a[i as int],
                            deg == row@.len(),
                            2 <= deg <= n - 1,
                            k < deg,
                            k + 1 <= l <= deg,
                            conn == row_conn(a, a[i as int], k as int) + row_conn_inner(
                                a,
                                a[i as int],
                                k as int,
                                l as int,
                            ),
                            conn <= (k as int) * (deg as int) + (l as int),
                        decreases deg - l,
                    {
                        let x = row[k];
                        let y = row[l];
                        proof {
                            assert(a[i as int][k as int] == x);
                            assert(a[i as int][l as int] == y);
                            assert(x < n && y < n);
                            assert(x != y);
                            assert(self.adj_matrix@[x as int]@[y as int] <==> (x == y || self.adj()[
                                x as int
                            ].contains(y)));
                            assert(pair_connected(a, a[i as int], k as int, l as int) <==> a[
                                x as int
                            ].contains(y));
                            assert((k as int) * (deg as int) + (deg as int) <= (deg as int) * (
                            deg as int)) by (nonlinear_arith)
                                requires
                                    0 <= k as int + 1 <= deg as int,
                            ;
                            assert((deg as int) * (deg as int) < 0x10000000000)
                                by (nonlinear_arith)
                                requires
                                    0 <= deg as int,
                                    (deg as int) < 0x100000,
                            ;
                        }
                        if self.adj_matrix[x][y] {
                            conn = conn + 1;
                        }
                        l += 1;
                    }
                    proof {
                        assert(conn <= (k as int + 1) * (deg as int)) by (nonlinear_arith)
                            requires
                                conn as int <= (k as int) * (deg as int) + (deg as int),
                        ;
                    }
                    k += 1;
                }
                proof {
                    assert((deg as int) * (deg as int - 1) >= 2) by (nonlinear_arith)
                        requires
                            deg as int >= 2,
                    ;
                    assert((deg as int) * (deg as int - 1) < 0x10000000000) by (nonlinear_arith)
                        requires
                            0 <= deg as int,
                            (deg as int) < 0x100000,
                    ;
                    vstd::arithmetic::div_mod::lemma_div_is_ordered(
                        2,
                        (deg as int) * (deg as int - 1),
                        2,
                    );
                    vstd::arithmetic::div_mod::lemma_div_is_ordered(
                        (deg as int) * (deg as int - 1),
                        0x10000000000,
                        2,
                    );
                }
                let td: u64 = (deg as u64) * ((deg as u64) - 1) / 2;
                let ghost tn = row_conn(a, a[i as int], deg as int);
                let ghost s = cc_pair(a, i as int);
                proof {
                    assert(conn as int == tn);
                    lemma_row_conn_le(a, a[i as int], deg as int);
                    lemma_pair_count_even(deg as int);
                    assert(2 * (deg as int) * (deg as int) - (deg as int) * (deg as int) - (
                    deg as int) == (deg as int) * (deg as int - 1)) by (nonlinear_arith);
                    assert(tn <= td as int);
                    assert((acc.num as int) * (td as int) + (conn as int) * (acc.den as int)
                        < 0x200000000000000000000000000) by (nonlinear_arith)
                        requires
                            acc.num <= u64::MAX,
                            acc.den <= u64::MAX,
                            0 <= conn as int <= td as int,
                            0 <= td < 0x10000000000,
                    ;
                    assert((acc.den as int) * (td as int) > 0) by (nonlinear_arith)
                        requires
                            acc.den > 0,
                            td >= 1,
                    ;
                    assert((acc.den as int) * (td as int) < 0x200000000000000000000000000)
                        by (nonlinear_arith)
                        requires
                            acc.den <= u64::MAX,
                            0 <= td < 0x10000000000,
                    ;
                }
                let num0: u128 = (acc.num as u128) * (td as u128) + (conn as u128) * (
                acc.den as u128);
                let den0: u128 = (acc.den as u128) * (td as u128);
                let ghost s1 = cc_pair(a, i as int + 1);
                proof {
                    assert(s1.0 == s.0 * (td as int) + tn * s.1);
                    assert(s1.1 == s.1 * (td as int));
                    assert(s1.0 == mult * (num0 as int)) by (nonlinear_arith)
                        requires
                            s1.0 == s.0 * (td as int) + tn * s.1,
                            s.0 == mult * (acc.num as int),
                            s.1 == mult * (acc.den as int),
                            tn == conn as int,
                            num0 as int == (acc.num as int) * (td as int) + (conn as int) * (
                            acc.den as int),
                    ;
                    assert(s1.1 == mult * (den0 as int)) by (nonlinear_arith)
                        requires
                            s1.1 == s.1 * (td as int),
                            s.1 == mult * (acc.den as int),
                            den0 as int == (acc.den as int) * (td as int),
                    ;
                }
                match ratio_reduce_fit(num0, den0) {
                    Some(nacc) => {
                        proof {
                            let g = choose|g: int|
                                scales(g, num0 as int, den0 as int, nacc);
                            assert(s1.0 == (mult * g) * (nacc.num as int)) by (nonlinear_arith)
                                requires
                                    s1.0 == mult * (num0 as int),
                                    num0 as int == g * (nacc.num as int),
                            ;
                            assert(s1.1 == (mult * g) * (nacc.den as int)) by (nonlinear_arith)
                                requires
                                    s1.1 == mult * (den0 as int),
                                    den0 as int == g * (nacc.den as int),
                            ;
                            assert(mult * g >= 1) by (nonlinear_arith)
                                requires
                                    mult >= 1,
                                    g >= 1,
                            ;
                            mult = mult * g;
                        }
                        acc = nacc;
                    },
                    None => {
                        proof {
                            if cc_fits(a, n as int) {
                                assert(cc_pair(a, i as int + 1).0 <= u64::MAX);
                                assert(cc_pair(a, i as int + 1).1 <= u64::MAX);
                                assert(num0 <= u64::MAX) by (nonlinear_arith)
                                    requires
                                        s1.0 == mult * (num0 as int),
                                        s1.0 <= u64::MAX,
                                        mult >= 1,
                                        num0 >= 0,
                                ;
                                assert(den0 <= u64::MAX) by (nonlinear_arith)
                                    requires
                                        s1.1 == mult * (den0 as int),
                                        s1.1 <= u64::MAX,
                                        mult >= 1,
                                        den0 >= 0,
                                ;
                                assert(false);
                            }
                        }
                        return None;
                    },
                }
            }
            i += 1;
        }
        let ghost s = cc_pair(a, n as int);
        let num0: u128 = acc.num as u128;
        proof {
            assert((acc.den as int) * (n as int) < 0x200000000000000000000000000)
                by (nonlinear_arith)
                requires
                    acc.den <= u64::MAX,
                    0 < n as int <= 0x100000,
            ;
        }
        let den0: u128 = (acc.den as u128) * (n as u128);
        proof {
            assert(den0 > 0) by (nonlinear_arith)
                requires
                    acc.den > 0,
                    n >= 1,
                    den0 as int == (acc.den as int) * (n as int),
            ;
            assert(s.1 * (n as int) == mult * (den0 as int)) by (nonlinear_arith)
                requires
                    s.1 == mult * (acc.den as int),
                    den0 as int == (acc.den as int) * (n as int),
            ;
        }
        match ratio_reduce_fit(num0, den0) {
            Some(rt) => {
                proof {
                    let g = choose|g: int| scales(g, num0 as int, den0 as int, rt);
                    assert(s.0 == (mult * g) * (rt.num as int)) by (nonlinear_arith)
                        requires
                            s.0 == mult * (num0 as int),
                            num0 as int == g * (rt.num as int),
                    ;
                    assert(s.1 * (n as int) == (mult * g) * (rt.den as int))
                        by (nonlinear_arith)
                        requires
                            s.1 * (n as int) == mult * (den0 as int),
                            den0 as int == g * (rt.den as int),
                    ;
                    assert(rat_eq(rt.num as int, rt.den as int, s.0, s.1 * (n as int)))
                        by (nonlinear_arith)
                        requires
                            s.0 == (mult * g) * (rt.num as int),
                            s.1 * (n as int) == (mult * g) * (rt.den as int),
                    ;
                    lemma_clustering_in_unit_range(a, n as int, rt);
                }
                Some(rt)
            },
            None => {
                proof {
                    if cc_fits(a, n as int) {
                        assert(cc_pair(a, n as int).0 <= u64::MAX);
                        assert(num0 <= u64::MAX) by (nonlinear_arith)
                            requires
                                s.0 == mult * (num0 as int),
                                s.0 <= u64::MAX,
                                mult >= 1,
                                num0 >= 0,
                        ;
                        assert(den0 <= u64::MAX) by (nonlinear_arith)
                            requires
                                s.1 * (n as int) == mult * (den0 as int),
                                s.1 * (n as int) <= u64::MAX,
                                mult >= 1,
                                den0 >= 0,
                        ;
                        assert(false);
                    }
                }
                None
            },
        }
    }
}

} // verus!


