//! The directed graph representation: a vertex count `n` and one out-neighbor
//! list per vertex, each list sorted ascending after construction. Edges are
//! kept exactly as given (duplicates and self-loops included), so degrees and
//! overlap counts reflect edge multiplicity.

use vstd::prelude::*;
use vstd::pervasive::VecAdditionalExecFns;

verus! {

/// A list is sorted ascending (duplicates allowed).
pub open spec fn sorted(s: Seq<usize>) -> bool {
    forall|i: int, j: int| 0 <= i <= j < s.len() ==> s[i] <= s[j]
}

/// The out-neighbors contributed to vertex `u` by the edge list `es`,
/// in the order the edges appear.
pub open spec fn edge_targets(es: Seq<(usize, usize)>, u: int) -> Seq<usize>
    decreases es.len(),
{
    if es.len() == 0 {
        Seq::empty()
    } else {
        let rest = edge_targets(es.drop_last(), u);
        if es.last().0 == u {
            rest.push(es.last().1)
        } else {
            rest
        }
    }
}

/// Every target contributed by `es` is a target named in `es`.
proof fn lemma_edge_targets_bound(es: Seq<(usize, usize)>, u: int, n: int)
    requires
        forall|k: int| 0 <= k < es.len() ==> (#[trigger] es[k]).1 < n,
    ensures
        forall|j: int|
            0 <= j < edge_targets(es, u).len() ==> (#[trigger] edge_targets(es, u)[j]) < n,
    decreases es.len(),
{
    if es.len() > 0 {
        let esp = es.drop_last();
        assert(forall|k: int| 0 <= k < esp.len() ==> (#[trigger] esp[k]).1 < n);
        lemma_edge_targets_bound(esp, u, n);
        let rest = edge_targets(esp, u);
        assert forall|j: int|
            0 <= j < edge_targets(es, u).len() implies (#[trigger] edge_targets(es, u)[j])
            < n by {
            if es.last().0 == u {
                assert(edge_targets(es, u) == rest.push(es.last().1));
                if j < rest.len() {
                    assert(edge_targets(es, u)[j] == rest[j]);
                } else {
                    assert(edge_targets(es, u)[j] == es.last().1);
                    assert(es.last() == es[es.len() - 1]);
                }
            } else {
                assert(edge_targets(es, u) == rest);
            }
        }
    }
}

/// A directed graph over vertex ids `0 .. n`. `outedges[u]` holds the
/// out-neighbors of `u`, with multiplicity, sorted ascending once built.
pub struct Graph {
    pub n: usize,
    pub outedges: Vec<Vec<usize>>,
}

impl Graph {
    /// The out-neighbor list of vertex `u`, as a mathematical sequence.
    pub open spec fn row(self, u: int) -> Seq<usize> {
        self.outedges[u]@
    }

    /// Well-formedness: one list per vertex, each sorted, every id in range.
    pub open spec fn wf(self) -> bool {
        &&& self.outedges.len() == self.n
        &&& forall|u: int| 0 <= u < self.n ==> sorted(#[trigger] self.row(u))
        &&& forall|u: int, k: int|
            0 <= u < self.n && 0 <= k < self.row(u).len() ==> (#[trigger] self.row(u)[k]) < self.n
    }

    /// Appends the target of each edge `(u, v)` to `u`'s out-neighbor list,
    /// in edge-list order. No reverse edges are added.
    pub fn add_directed_edges(&mut self, edges: &Vec<(usize, usize)>)
        requires
            forall|k: int|
                0 <= k < edges@.len() ==> (#[trigger] edges@[k]).0 < old(self).outedges.len(),
        ensures
            final(self).n == old(self).n,
            final(self).outedges.len() == old(self).outedges.len(),
            forall|u: int|
                0 <= u < final(self).outedges.len()
                    ==> #[trigger] final(self).row(u) == old(self).row(u) + edge_targets(
                    edges@,
                    u,
                ),
    {
        let ghost orig = *self;
        let mut k: usize = 0;
        while k < edges.len()
            invariant
                k <= edges.len(),
                self.n == orig.n,
                self.outedges.len() == orig.outedges.len(),
                forall|j: int|
                    0 <= j < edges@.len() ==> (#[trigger] edges@[j]).0 < orig.outedges.len(),
                forall|u: int|
                    0 <= u < self.outedges.len()
                        ==> #[trigger] self.row(u) == orig.row(u) + edge_targets(
                        edges@.take(k as int),
                        u,
                    ),
            decreases edges.len() - k,
        {
            let ghost pre = *self;
            let (u, v) = edges[k];
            let mut taken: Vec<usize> = Vec::new();
            self.outedges.set_and_swap(u, &mut taken);
            taken.push(v);
            self.outedges.set_and_swap(u, &mut taken);
            proof {
                assert(edges@[k as int] == (u, v));
                assert(self.row(u as int) == pre.row(u as int).push(v));
                let es1 = edges@.take(k + 1);
                assert(es1.drop_last() =~= edges@.take(k as int));
                assert(es1.last() == edges@[k as int]);
                assert forall|w: int| 0 <= w < self.outedges.len() implies #[trigger] self.row(w)
                    == orig.row(w) + edge_targets(es1, w) by {
                    assert(pre.row(w) == orig.row(w) + edge_targets(edges@.take(k as int), w));
                    if w == u {
                        assert(edge_targets(es1, w) == edge_targets(
                            edges@.take(k as int),
                            w,
                        ).push(v));
                        assert(self.row(w) =~= orig.row(w) + edge_targets(es1, w));
                    } else {
                        assert(edge_targets(es1, w) == edge_targets(edges@.take(k as int), w));
                        assert(self.row(w) == pre.row(w));
                    }
                }
            }
            k = k + 1;
        }
        proof {
            assert(edges@.take(edges@.len() as int) =~= edges@);
        }
    }

    /// Sorts every out-neighbor list ascending. Sorting keeps multiplicity:
    /// each list afterwards holds the same values, as a multiset, as before.
    pub fn sort_graph_lists(&mut self)
        ensures
            final(self).n == old(self).n,
            final(self).outedges.len() == old(self).outedges.len(),
            forall|u: int|
                0 <= u < final(self).outedges.len() ==> sorted(#[trigger] final(self).row(u)),
            forall|u: int|
                0 <= u < final(self).outedges.len()
                    ==> (#[trigger] final(self).row(u)).to_multiset() == old(self).row(
                    u,
                ).to_multiset(),
    {
        let ghost orig = *self;
        let mut u: usize = 0;
        while u < self.outedges.len()
            invariant
                u <= self.outedges.len(),
                self.n == orig.n,
                self.outedges.len() == orig.outedges.len(),
                forall|w: int| 0 <= w < u ==> sorted(#[trigger] self.row(w)),
                forall|w: int|
                    0 <= w < u
                        ==> (#[trigger] self.row(w)).to_multiset() == orig.row(w).to_multiset(),
                forall|w: int|
                    u <= w < self.outedges.len() ==> #[trigger] self.row(w) == orig.row(w),
            decreases self.outedges.len() - u,
        {
            let ghost pre = *self;
            let mut taken: Vec<usize> = Vec::new();
            self.outedges.set_and_swap(u, &mut taken);
            sort_vec(&mut taken);
            self.outedges.set_and_swap(u, &mut taken);
            proof {
                assert(pre.row(u as int) == orig.row(u as int));
                assert(self.row(u as int).to_multiset() == orig.row(u as int).to_multiset());
                assert(sorted(self.row(u as int)));
                assert forall|w: int| 0 <= w < u implies sorted(#[trigger] self.row(w))
                    && self.row(w).to_multiset() == orig.row(w).to_multiset() by {
                    assert(self.row(w) == pre.row(w));
                    assert(sorted(pre.row(w)));
                }
                assert forall|w: int|
                    u + 1 <= w < self.outedges.len() implies #[trigger] self.row(w) == orig.row(
                    w,
                ) by {
                    assert(self.row(w) == pre.row(w));
                }
            }
            u = u + 1;
        }
    }

    /// Builds the graph: `n` empty lists, every edge target appended to its
    /// source's list, then every list sorted. Each resulting list holds, as a
    /// multiset, exactly the targets the edge list names for that vertex.
    pub fn create_directed(n: usize, edges: &Vec<(usize, usize)>) -> (g: Graph)
        requires
            forall|k: int| 0 <= k < edges@.len() ==> (#[trigger] edges@[k]).0 < n,
            forall|k: int| 0 <= k < edges@.len() ==> (#[trigger] edges@[k]).1 < n,
        ensures
            g.wf(),
            g.n == n,
            forall|u: int|
                0 <= u < n ==> (#[trigger] g.row(u)).to_multiset() == edge_targets(
                    edges@,
                    u,
                ).to_multiset(),
    {
        let mut lists: Vec<Vec<usize>> = Vec::new();
        while lists.len() < n
            invariant
                lists.len() <= n,
                forall|u: int| 0 <= u < lists.len() ==> (#[trigger] lists[u]@) == Seq::<
                    usize,
                >::empty(),
            decreases n - lists.len(),
        {
            lists.push(Vec::new());
        }
        let mut g = Graph { n, outedges: lists };
        g.add_directed_edges(edges);
        g.sort_graph_lists();
        proof {
            broadcast use vstd::seq_lib::group_to_multiset_ensures;

            assert forall|u: int| 0 <= u < n implies (#[trigger] g.row(u)).to_multiset()
                == edge_targets(edges@, u).to_multiset() by {
                assert(Seq::<usize>::empty() + edge_targets(edges@, u) =~= edge_targets(
                    edges@,
                    u,
                ));
            }
            assert forall|u: int, k: int|
                0 <= u < g.n && 0 <= k < g.row(u).len() implies (#[trigger] g.row(u)[k])
                < g.n by {
                lemma_edge_targets_bound(edges@, u, n as int);
                let ts = edge_targets(edges@, u);
                assert(g.row(u).to_multiset().contains(g.row(u)[k]));
                assert(ts.to_multiset().contains(g.row(u)[k]));
                assert(ts.contains(g.row(u)[k]));
            }
        }
        g
    }

    /// The sorted out-neighbor list of `v`, read-only.
    pub fn enumerate(&self, v: usize) -> (r: &Vec<usize>)
        requires
            v < self.outedges.len(),
        ensures
            r@ == self.row(v as int),
    {
        &self.outedges[v]
    }
}

/// In-place insertion sort, ascending; the result holds the same values with
/// the same multiplicity as the input.
fn sort_vec(v: &mut Vec<usize>)
    ensures
        final(v).len() == old(v).len(),
        sorted(final(v)@),
        final(v)@.to_multiset() == old(v)@.to_multiset(),
{
    let ghost orig = v@;
    let mut i: usize = 1;
    while i < v.len()
        invariant
            1 <= i || v.len() == 0,
            i <= v.len() || v.len() == 0,
            v.len() == orig.len(),
            v@.to_multiset() == orig.to_multiset(),
            forall|a: int, b: int| 0 <= a <= b < i ==> v@[a] <= v@[b],
        decreases v.len() - i,
    {
        let mut j: usize = i;
        while j > 0 && v[j - 1] > v[j]
            invariant
                j <= i < v.len(),
                v.len() == orig.len(),
                v@.to_multiset() == orig.to_multiset(),
                forall|a: int, b: int| 0 <= a <= b <= i && b != j ==> v@[a] <= v@[b],
            decreases j,
        {
            let ghost before = v@;
            let x = v[j - 1];
            let y = v[j];
            v.set(j - 1, y);
            v.set(j, x);
            proof {
                broadcast use vstd::seq_lib::group_to_multiset_ensures;

                assert(v@ == before.update(j - 1, y).update(j as int, x));
                assert(v@.to_multiset() =~= before.to_multiset());
            }
            j = j - 1;
        }
        i = i + 1;
    }
}

} // verus!
