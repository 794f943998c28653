//! Paths and reachability over an adjacency list, together with the lemmas
//! the traversal algorithms are proved against: reachability is reflexive,
//! transitive, symmetric on a symmetric adjacency, and cannot leave a set
//! that is closed under edges.

use vstd::prelude::*;

verus! {

/// Node `u` has an edge to node `v` in the adjacency list `a`.
pub open spec fn edge(a: Seq<Seq<usize>>, u: int, v: int) -> bool {
    &&& 0 <= u < a.len()
    &&& 0 <= v < a.len()
    &&& a[u].contains(v as usize)
}

/// The whole adjacency relation is symmetric (the graph is undirected).
pub open spec fn sym(a: Seq<Seq<usize>>) -> bool {
    forall|u: int, v: int| #[trigger] edge(a, u, v) ==> edge(a, v, u)
}

/// `p` is a walk through `a`: non-empty, all entries are nodes, and each
/// consecutive pair is an edge.
pub open spec fn is_path(a: Seq<Seq<usize>>, p: Seq<int>) -> bool {
    &&& p.len() >= 1
    &&& forall|k: int| 0 <= k < p.len() ==> 0 <= #[trigger] p[k] < a.len()
    &&& forall|k: int| 0 <= k < p.len() - 1 ==> #[trigger] edge(a, p[k], p[k + 1])
}

/// `p` is a walk from `s` to `t`.
pub open spec fn connects(a: Seq<Seq<usize>>, p: Seq<int>, s: int, t: int) -> bool {
    &&& is_path(a, p)
    &&& p[0] == s
    &&& p[p.len() - 1] == t
}

/// Some walk leads from `s` to `t` (in particular, every node reaches itself).
pub open spec fn reachable(a: Seq<Seq<usize>>, s: int, t: int) -> bool {
    exists|p: Seq<int>| connects(a, p, s, t)
}

/// Some walk of exactly `d` hops leads from `s` to `t`.
pub open spec fn has_dist(a: Seq<Seq<usize>>, s: int, t: int, d: int) -> bool {
    exists|p: Seq<int>| connects(a, p, s, t) && p.len() == d + 1
}

/// `d` is the length of a shortest walk from `s` to `t`.
pub open spec fn is_min_dist(a: Seq<Seq<usize>>, s: int, t: int, d: int) -> bool {
    &&& has_dist(a, s, t, d)
    &&& forall|e: int| 0 <= e < d ==> !has_dist(a, s, t, e)
}

/// The shortest-walk length from `s` to `t`; meaningful only when
/// `reachable(a, s, t)` (see `lemma_min_dist_exists`).
pub open spec fn min_dist(a: Seq<Seq<usize>>, s: int, t: int) -> int {
    choose|d: int| is_min_dist(a, s, t, d)
}

pub proof fn lemma_path_refl(a: Seq<Seq<usize>>, s: int)
    requires
        0 <= s < a.len(),
    ensures
        reachable(a, s, s),
        has_dist(a, s, s, 0),
{
    let p: Seq<int> = seq![s];
    assert(p[0] == s);
    assert(is_path(a, p));
    assert(connects(a, p, s, s) && p.len() == 0 + 1);
}

/// Extending a walk of `d` hops by one edge gives a walk of `d + 1` hops.
pub proof fn lemma_dist_step(a: Seq<Seq<usize>>, s: int, u: int, v: int, d: int)
    requires
        has_dist(a, s, u, d),
        edge(a, u, v),
    ensures
        has_dist(a, s, v, d + 1),
        reachable(a, s, v),
{
    let p = choose|p: Seq<int>| connects(a, p, s, u) && p.len() == d + 1;
    let q = p.push(v);
    assert forall|k: int| 0 <= k < q.len() - 1 implies #[trigger] edge(a, q[k], q[k + 1]) by {
        if k < p.len() - 1 {
            assert(edge(a, p[k], p[k + 1]));
        } else {
            assert(q[k] == p[p.len() - 1]);
        }
    }
    assert(is_path(a, q));
    assert(connects(a, q, s, v) && q.len() == (d + 1) + 1);
}

pub proof fn lemma_reach_step(a: Seq<Seq<usize>>, s: int, u: int, v: int)
    requires
        reachable(a, s, u),
        edge(a, u, v),
    ensures
        reachable(a, s, v),
{
    let p = choose|p: Seq<int>| connects(a, p, s, u);
    lemma_dist_step(a, s, u, v, p.len() - 1);
}

pub proof fn lemma_reach_trans(a: Seq<Seq<usize>>, s: int, m: int, t: int)
    requires
        reachable(a, s, m),
        reachable(a, m, t),
    ensures
        reachable(a, s, t),
{
    let p1 = choose|p: Seq<int>| connects(a, p, s, m);
    let p2 = choose|p: Seq<int>| connects(a, p, m, t);
    if p2.len() == 1 {
        assert(connects(a, p1, s, t));
    } else {
        let q = p1 + p2.subrange(1, p2.len() as int);
        assert(q.len() == p1.len() + p2.len() - 1);
        assert forall|k: int| 0 <= k < q.len() implies 0 <= #[trigger] q[k] < a.len() by {
            if k < p1.len() {
                assert(q[k] == p1[k]);
            } else {
                assert(q[k] == p2[k - p1.len() + 1]);
            }
        }
        assert forall|k: int| 0 <= k < q.len() - 1 implies #[trigger] edge(a, q[k], q[k + 1]) by {
            if k < p1.len() - 1 {
                assert(q[k] == p1[k] && q[k + 1] == p1[k + 1]);
                assert(edge(a, p1[k], p1[k + 1]));
            } else if k == p1.len() - 1 {
                assert(q[k] == p1[p1.len() - 1]);
                assert(q[k + 1] == p2[1]);
                assert(edge(a, p2[0], p2[1]));
            } else {
                let j = k - p1.len() + 1;
                assert(q[k] == p2[j] && q[k + 1] == p2[j + 1]);
                assert(edge(a, p2[j], p2[j + 1]));
            }
        }
        assert(is_path(a, q));
        assert(q[q.len() - 1] == p2[p2.len() - 1]);
        assert(connects(a, q, s, t));
    }
}

/// On a symmetric adjacency, reachability is symmetric: reverse the walk.
pub proof fn lemma_reach_sym(a: Seq<Seq<usize>>, s: int, t: int)
    requires
        sym(a),
        reachable(a, s, t),
    ensures
        reachable(a, t, s),
{
    let p = choose|p: Seq<int>| connects(a, p, s, t);
    let len = p.len() as int;
    let q = Seq::new(p.len(), |k: int| p[len - 1 - k]);
    assert forall|k: int| 0 <= k < q.len() - 1 implies #[trigger] edge(a, q[k], q[k + 1]) by {
        let j = len - 2 - k;
        assert(edge(a, p[j], p[j + 1]));
        assert(q[k] == p[j + 1] && q[k + 1] == p[j]);
    }
    assert(is_path(a, q));
    assert(q[0] == t && q[q.len() - 1] == s);
    assert(connects(a, q, t, s));
}

/// A walk cannot leave a set of nodes that is closed under edges.
pub proof fn lemma_closed_path(a: Seq<Seq<usize>>, inset: Set<int>, p: Seq<int>)
    requires
        is_path(a, p),
        inset.contains(p[0]),
        forall|v: int, w: int| inset.contains(v) && #[trigger] edge(a, v, w) ==> inset.contains(w),
    ensures
        inset.contains(p[p.len() - 1]),
    decreases p.len(),
{
    if p.len() > 1 {
        let q = p.drop_last();
        assert(is_path(a, q)) by {
            assert(forall|k: int| 0 <= k < q.len() - 1 ==> #[trigger] edge(a, q[k], q[k + 1]));
        }
        lemma_closed_path(a, inset, q);
        let j = p.len() - 2;
        assert(edge(a, p[j], p[j + 1]));
        assert(p[j + 1] == p[p.len() - 1]);
    }
}

/// Whatever is reachable from a member of an edge-closed set is in the set.
pub proof fn lemma_closed_reachable(a: Seq<Seq<usize>>, inset: Set<int>, s: int, t: int)
    requires
        reachable(a, s, t),
        inset.contains(s),
        forall|v: int, w: int| inset.contains(v) && #[trigger] edge(a, v, w) ==> inset.contains(w),
    ensures
        inset.contains(t),
{
    let p = choose|p: Seq<int>| connects(a, p, s, t);
    lemma_closed_path(a, inset, p);
}

/// The label map of a finished breadth-first search is closed under edges
/// with unit cost, so along any walk the recorded value grows by at most one
/// per hop: the endpoint of a walk of `L` hops is assigned at most `L`.
pub proof fn lemma_closed_path_dist(
    a: Seq<Seq<usize>>,
    dist: Seq<Option<u32>>,
    p: Seq<int>,
)
    requires
        is_path(a, p),
        dist.len() == a.len(),
        assigned(dist, p[0]),
        dval(dist, p[0]) == 0,
        forall|v: int, w: int|
            0 <= v < dist.len() && assigned(dist, v) && #[trigger] edge(a, v, w) ==> assigned(
                dist,
                w,
            ) && dval(dist, w) <= dval(dist, v) + 1,
    ensures
        assigned(dist, p[p.len() - 1]),
        dval(dist, p[p.len() - 1]) <= p.len() - 1,
    decreases p.len(),
{
    if p.len() > 1 {
        let q = p.drop_last();
        assert(is_path(a, q)) by {
            assert(forall|k: int| 0 <= k < q.len() - 1 ==> #[trigger] edge(a, q[k], q[k + 1]));
        }
        lemma_closed_path_dist(a, dist, q);
        let j = p.len() - 2;
        assert(edge(a, p[j], p[j + 1]));
        assert(p[j + 1] == p[p.len() - 1]);
    }
}

/// `dist[v]` holds a value.
pub open spec fn assigned(dist: Seq<Option<u32>>, v: int) -> bool {
    dist[v] is Some
}

/// The value held at `dist[v]` (meaningful only when `assigned`).
pub open spec fn dval(dist: Seq<Option<u32>>, v: int) -> int {
    match dist[v] {
        Some(d) => d as int,
        None => -1,
    }
}

/// Among the lengths of all walks from `s` to `t` there is a least one.
pub proof fn lemma_min_dist_exists(a: Seq<Seq<usize>>, s: int, t: int, d0: int)
    requires
        has_dist(a, s, t, d0),
        d0 >= 0,
    ensures
        exists|d: int| 0 <= d <= d0 && #[trigger] is_min_dist(a, s, t, d),
    decreases d0,
{
    if forall|e: int| 0 <= e < d0 ==> !has_dist(a, s, t, e) {
        assert(is_min_dist(a, s, t, d0));
    } else {
        let e = choose|e: int| 0 <= e < d0 && has_dist(a, s, t, e);
        lemma_min_dist_exists(a, s, t, e);
        let d = choose|d: int| 0 <= d <= e && #[trigger] is_min_dist(a, s, t, d);
        assert(is_min_dist(a, s, t, d));
    }
}

/// A shortest-walk length is unique, so `min_dist` returns exactly it.
pub proof fn lemma_min_dist_unique(a: Seq<Seq<usize>>, s: int, t: int, d: int)
    requires
        is_min_dist(a, s, t, d),
    ensures
        min_dist(a, s, t) == d,
{
    let d2 = min_dist(a, s, t);
    assert(is_min_dist(a, s, t, d2));
    if d2 < d {
        assert(has_dist(a, s, t, d2));
        assert(false);
    } else if d < d2 {
        assert(has_dist(a, s, t, d));
        assert(false);
    }
}

} // verus!
