//! Breadth-first search over a built graph, along outgoing edges only.
//! From a start vertex it computes hop distances and returns the farthest
//! reachable vertex together with its distance (the eccentricity of the
//! start). Ties for the farthest vertex are broken by discovery order: the
//! first vertex found at the maximum distance keeps the title.

use vstd::prelude::*;
use vstd::pervasive::VecAdditionalExecFns;
use crate::graphs::Graph;

verus! {

/// A directed edge from `u` to `v` exists in the graph.
pub open spec fn edge(g: Graph, u: usize, v: usize) -> bool {
    u < g.n && g.row(u as int).contains(v)
}

/// Vertex `u` can be reached from `s` along directed edges within `k` hops.
pub open spec fn reach(g: Graph, s: usize, u: usize, k: nat) -> bool
    decreases k,
{
    if u == s {
        true
    } else if k == 0 {
        false
    } else {
        exists|w: usize| reach(g, s, w, (k - 1) as nat) && edge(g, w, u)
    }
}

/// `d` is the length of the shortest directed path from `s` to `u`.
pub open spec fn dist_is(g: Graph, s: usize, u: usize, d: nat) -> bool {
    reach(g, s, u, d) && (d == 0 || !reach(g, s, u, (d - 1) as nat))
}

/// Reachability within `k1` hops implies reachability within any `k2 >= k1`.
proof fn lemma_reach_mono(g: Graph, s: usize, u: usize, k1: nat, k2: nat)
    requires
        reach(g, s, u, k1),
        k1 <= k2,
    ensures
        reach(g, s, u, k2),
    decreases k1,
{
    if u != s {
        let w = choose|w: usize| reach(g, s, w, (k1 - 1) as nat) && edge(g, w, u);
        lemma_reach_mono(g, s, w, (k1 - 1) as nat, (k2 - 1) as nat);
    }
}

/// One more hop along an edge extends reachability.
proof fn lemma_reach_step(g: Graph, s: usize, w: usize, u: usize, k: nat)
    requires
        reach(g, s, w, k),
        edge(g, w, u),
    ensures
        reach(g, s, u, k + 1),
{
    if u != s {
        assert(reach(g, s, w, ((k + 1) - 1) as nat) && edge(g, w, u));
    }
}

/// A vertex reachable within `k` hops has a shortest distance of at most `k`.
proof fn lemma_dist_exists(g: Graph, s: usize, u: usize, k: nat)
    requires
        reach(g, s, u, k),
    ensures
        exists|d: nat| d <= k && #[trigger] dist_is(g, s, u, d),
    decreases k,
{
    if k == 0 || !reach(g, s, u, (k - 1) as nat) {
        assert(dist_is(g, s, u, k));
    } else {
        lemma_dist_exists(g, s, u, (k - 1) as nat);
    }
}

/// The shortest distance to a vertex is unique.
proof fn lemma_dist_unique(g: Graph, s: usize, u: usize, d1: nat, d2: nat)
    requires
        dist_is(g, s, u, d1),
        dist_is(g, s, u, d2),
    ensures
        d1 == d2,
{
    if d1 < d2 {
        lemma_reach_mono(g, s, u, d1, (d2 - 1) as nat);
    }
    if d2 < d1 {
        lemma_reach_mono(g, s, u, d2, (d1 - 1) as nat);
    }
}

/// Vertex `x` has been given a hop distance.
pub open spec fn visited(dist: Seq<Option<usize>>, x: usize) -> bool {
    x < dist.len() && dist[x as int].is_some()
}

/// The hop distance recorded for `x`.
pub open spec fn hops(dist: Seq<Option<usize>>, x: usize) -> nat {
    dist[x as int].unwrap() as nat
}

/// When the set of vertices holding a distance is closed under outgoing
/// edges and contains the start, it contains every reachable vertex.
proof fn lemma_closed_reach(g: Graph, s: usize, dist: Seq<Option<usize>>, u: usize, k: nat)
    requires
        visited(dist, s),
        forall|v: usize, w: usize|
            visited(dist, v) && #[trigger] edge(g, v, w) ==> visited(dist, w),
        reach(g, s, u, k),
    ensures
        visited(dist, u),
    decreases k,
{
    if u != s {
        let w = choose|w: usize| reach(g, s, w, (k - 1) as nat) && edge(g, w, u);
        lemma_closed_reach(g, s, dist, w, (k - 1) as nat);
    }
}

/// A duplicate-free list of vertex ids below `n` has at most `n` entries.
proof fn lemma_distinct_bounded(s: Seq<usize>, n: int)
    requires
        s.no_duplicates(),
        forall|j: int| 0 <= j < s.len() ==> (#[trigger] s[j]) < n,
        n >= 0,
    ensures
        s.len() <= n,
{
    let f = |x: usize| x as int;
    assert(vstd::relations::injective(f));
    s.lemma_no_duplicates_injective(f);
    let t = s.map_values(f);
    t.unique_seq_to_set();
    assert forall|e: int| t.to_set().contains(e) implies vstd::set_lib::set_int_range(
        0,
        n,
    ).contains(e) by {
        let j = choose|j: int| 0 <= j < t.len() && t[j] == e;
        assert(s[j] < n);
    }
    assert(t.to_set().subset_of(vstd::set_lib::set_int_range(0, n)));
    vstd::set_lib::lemma_int_range(0, n);
    vstd::set_lib::lemma_len_subset(t.to_set(), vstd::set_lib::set_int_range(0, n));
}

/// Breadth-first search from `start` along outgoing edges. Returns a pair
/// `(farthest, max_distance)`: `max_distance` is the largest shortest-path
/// hop count among the vertices reachable from `start` (unreachable
/// vertices play no part), and `farthest` is a vertex whose shortest
/// distance from `start` is exactly `max_distance` — the first such vertex
/// in discovery order. With nothing reachable the result is `(start, 0)`.
#[verifier::loop_isolation(false)]
pub fn bfs(graph: &Graph, start: usize) -> (r: (usize, usize))
    requires
        graph.wf(),
        start < graph.n,
    ensures
        r.0 < graph.n,
        dist_is(*graph, start, r.0, r.1 as nat),
        forall|u: usize, k: nat| #[trigger] dist_is(*graph, start, u, k) ==> k <= r.1,
{
    let n = graph.n;
    let mut dist: Vec<Option<usize>> = Vec::new();
    while dist.len() < n
        invariant
            dist.len() <= n,
            forall|x: int| 0 <= x < dist.len() ==> dist[x] is None,
        decreases n - dist.len(),
    {
        dist.push(None);
    }
    dist.set(start, Some(0));
    let mut q: Vec<usize> = Vec::new();
    q.push(start);
    let mut far: usize = start;
    let mut maxd: usize = 0;
    let mut i: usize = 0;
    proof {
        assert(q@[0] == start);
        assert(q@.contains(start));
    }
    while i < q.len()
        invariant
            dist.len() == n,
            i <= q@.len() <= n,
            q@.no_duplicates(),
            forall|j: int|
                0 <= j < q@.len() ==> (#[trigger] q@[j]) < n && dist@[q@[j] as int].is_some(),
            forall|x: usize| x < n && (#[trigger] dist@[x as int]).is_some() ==> q@.contains(x),
            dist@[start as int] == Some(0usize),
            forall|x: usize|
                x < n && (#[trigger] dist@[x as int]).is_some() ==> dist_is(
                    *graph,
                    start,
                    x,
                    hops(dist@, x),
                ),
            forall|j: int| 0 <= j < q@.len() ==> hops(dist@, #[trigger] q@[j]) <= j,
            forall|j1: int, j2: int|
                0 <= j1 <= j2 < q@.len() ==> hops(dist@, q@[j1]) <= hops(dist@, q@[j2]),
            i < q@.len() ==> hops(dist@, q@[q@.len() - 1]) <= hops(dist@, q@[i as int]) + 1,
            forall|j: int, w: usize|
                0 <= j < i && #[trigger] edge(*graph, q@[j], w) ==> visited(dist@, w),
            forall|x: usize, k: nat|
                #[trigger] reach(*graph, start, x, k) ==> ((i < q@.len() ==> (k <= hops(
                    dist@,
                    q@[i as int],
                ) ==> visited(dist@, x))) && (i >= q@.len() ==> visited(dist@, x))),
            far < n,
            visited(dist@, far),
            hops(dist@, far) == maxd,
            forall|j: int| 0 <= j < q@.len() ==> hops(dist@, #[trigger] q@[j]) <= maxd,
        decreases n - i,
    {
        let v = q[i];
        let dv = dist[v].unwrap();
        proof {
            assert(hops(dist@, q@[i as int]) <= i);
        }
        let row_len = graph.outedges[v].len();
        let mut t: usize = 0;
        while t < row_len
            invariant
                dist.len() == n,
                i < q@.len() <= n,
                q@[i as int] == v,
                v < n,
                dv == hops(dist@, v),
                dv <= i,
                dv <= maxd,
                row_len == graph.row(v as int).len(),
                t <= row_len,
                q@.no_duplicates(),
                forall|j: int|
                    0 <= j < q@.len() ==> (#[trigger] q@[j]) < n && dist@[q@[j] as int].is_some(),
                forall|x: usize| x < n && (#[trigger] dist@[x as int]).is_some() ==> q@.contains(x),
                dist@[start as int] == Some(0usize),
                forall|x: usize|
                    x < n && (#[trigger] dist@[x as int]).is_some() ==> dist_is(
                        *graph,
                        start,
                        x,
                        hops(dist@, x),
                    ),
                forall|j: int| 0 <= j < q@.len() ==> hops(dist@, #[trigger] q@[j]) <= j,
                forall|j1: int, j2: int|
                    0 <= j1 <= j2 < q@.len() ==> hops(dist@, q@[j1]) <= hops(dist@, q@[j2]),
                hops(dist@, q@[q@.len() - 1]) <= dv + 1,
                forall|j: int, w: usize|
                    0 <= j < i && #[trigger] edge(*graph, q@[j], w) ==> visited(dist@, w),
                forall|tt: int|
                    0 <= tt < t ==> visited(dist@, #[trigger] graph.row(v as int)[tt]),
                forall|x: usize, k: nat|
                    #[trigger] reach(*graph, start, x, k) && k <= dv ==> visited(dist@, x),
                far < n,
                visited(dist@, far),
                hops(dist@, far) == maxd,
                forall|j: int| 0 <= j < q@.len() ==> hops(dist@, #[trigger] q@[j]) <= maxd,
            decreases row_len - t,
        {
            let u = graph.outedges[v][t];
            proof {
                assert(graph.row(v as int)[t as int] == u);
                assert(graph.row(v as int).contains(u));
                assert(edge(*graph, v, u));
            }
            let ou = dist[u];
            if ou.is_none() {
                let ghost dist0 = dist@;
                let ghost q0 = q@;
                proof {
                    assert(dist_is(*graph, start, v, dv as nat));
                    assert(reach(*graph, start, v, dv as nat));
                    lemma_reach_step(*graph, start, v, u, dv as nat);
                    if dv + 1 > 0 && reach(*graph, start, u, ((dv + 1) - 1) as nat) {
                        assert(visited(dist0, u));
                    }
                    assert(dist_is(*graph, start, u, (dv + 1) as nat));
                }
                dist.set(u, Some(dv + 1));
                q.push(u);
                proof {
                    broadcast use vstd::seq_lib::lemma_seq_contains_after_push;

                    assert(dist@ == dist0.update(u as int, Some((dv + 1) as usize)));
                    assert(q@ == q0.push(u));
                    assert(!q0.contains(u));
                    assert forall|p: int, r: int| 0 <= p < r < q@.len() implies q@[p] != q@[r] by {
                        if r < q@.len() - 1 {
                            assert(q0[p] != q0[r]);
                        } else {
                            assert(q@[p] == q0[p] && q@[r] == u);
                            assert(q0.contains(q0[p]));
                        }
                    }
                    assert(q@.no_duplicates());
                    lemma_distinct_bounded(q@, n as int);
                    assert forall|x: usize|
                        x < n && (#[trigger] dist@[x as int]).is_some() implies q@.contains(x) by {
                        if x != u {
                            assert(dist0[x as int].is_some());
                            assert(q0.contains(x));
                        } else {
                            assert(q@[q@.len() - 1] == u);
                        }
                    }
                    assert(hops(dist@, u) == dv + 1);
                    assert forall|j1: int, j2: int| 0 <= j1 <= j2 < q@.len() implies hops(
                        dist@,
                        q@[j1],
                    ) <= hops(dist@, q@[j2]) by {
                        if j2 == q@.len() - 1 && j1 < j2 {
                            assert(hops(dist@, q@[j1]) == hops(dist0, q0[j1]));
                            assert(hops(dist0, q0[j1]) <= hops(dist0, q0[q0.len() - 1]));
                        }
                    }
                }
                if dv + 1 > maxd {
                    far = u;
                    maxd = dv + 1;
                }
            }
            t = t + 1;
        }
        i = i + 1;
        proof {
            let gi = i as int;
            assert forall|j: int, w: usize|
                0 <= j < gi && #[trigger] edge(*graph, q@[j], w) implies visited(dist@, w) by {
                if j == gi - 1 {
                    assert(q@[j] == v);
                    assert(graph.row(v as int).contains(w));
                    let tt = choose|tt: int|
                        0 <= tt < graph.row(v as int).len() && graph.row(v as int)[tt] == w;
                    assert(visited(dist@, graph.row(v as int)[tt]));
                }
            }
            assert forall|x: usize, k: nat| #[trigger] reach(*graph, start, x, k) implies ((gi
                < q@.len() ==> (k <= hops(dist@, q@[gi]) ==> visited(dist@, x))) && (gi >= q@.len()
                ==> visited(dist@, x))) by {
                if gi >= q@.len() {
                    assert forall|vv: usize, w: usize|
                        visited(dist@, vv) && #[trigger] edge(*graph, vv, w) implies visited(
                        dist@,
                        w,
                    ) by {
                        assert(q@.contains(vv));
                        let j = choose|j: int| 0 <= j < q@.len() && q@[j] == vv;
                        assert(edge(*graph, q@[j], w));
                    }
                    lemma_closed_reach(*graph, start, dist@, x, k);
                } else {
                    let dnext = hops(dist@, q@[gi]);
                    assert(hops(dist@, q@[gi - 1]) == dv);
                    assert(dnext >= dv);
                    assert(dnext <= hops(dist@, q@[q@.len() - 1]) <= dv + 1);
                    if k <= dnext {
                        lemma_dist_exists(*graph, start, x, k);
                        let dx = choose|d: nat| d <= k && #[trigger] dist_is(*graph, start, x, d);
                        assert(reach(*graph, start, x, dx));
                        if dx <= dv {
                            assert(visited(dist@, x));
                        } else {
                            assert(dx == dv + 1 && dnext == dv + 1);
                            assert(x != start) by {
                                if x == start {
                                    assert(reach(*graph, start, x, (dx - 1) as nat));
                                }
                            }
                            let w = choose|w: usize|
                                reach(*graph, start, w, (dx - 1) as nat) && edge(*graph, w, x);
                            assert(reach(*graph, start, w, dv as nat));
                            assert(visited(dist@, w));
                            assert(q@.contains(w));
                            let jw = choose|j: int| 0 <= j < q@.len() && q@[j] == w;
                            lemma_dist_exists(*graph, start, w, dv as nat);
                            let dw = choose|d: nat|
                                d <= dv && #[trigger] dist_is(*graph, start, w, d);
                            lemma_dist_unique(*graph, start, w, dw, hops(dist@, w));
                            assert(hops(dist@, w) <= dv);
                            if jw >= gi {
                                assert(hops(dist@, q@[gi]) <= hops(dist@, q@[jw]));
                                assert(false);
                            }
                            assert(edge(*graph, q@[jw], x));
                            assert(visited(dist@, x));
                        }
                    }
                }
            }
        }
    }
    proof {
        assert(dist_is(*graph, start, far, maxd as nat));
        assert forall|u: usize, k: nat| #[trigger] dist_is(*graph, start, u, k) implies k
            <= maxd by {
            assert(reach(*graph, start, u, k));
            assert(visited(dist@, u));
            lemma_dist_unique(*graph, start, u, k, hops(dist@, u));
            assert(q@.contains(u));
            let j = choose|j: int| 0 <= j < q@.len() && q@[j] == u;
            assert(hops(dist@, q@[j]) <= maxd);
        }
    }
    (far, maxd)
}

} // verus!
