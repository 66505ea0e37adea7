//! Neighborhood-overlap metrics over a built graph: the local clustering
//! coefficient of a vertex, the pairwise Jaccard similarity of two vertices,
//! and graph-wide scans built on them (the vertices of coefficient exactly
//! one or exactly zero, and the edge-adjacent pair of greatest or least
//! Jaccard similarity).
//!
//! Both metrics are ratios of counts. They are returned as exact fractions
//! (`Ratio`), not floating-point approximations: the numerator and the
//! denominator are the counts themselves, unreduced. A Jaccard query on two
//! vertices that both have no out-neighbors yields the explicit undefined
//! sentinel `0 / 0` rather than a not-a-number value.

use vstd::prelude::*;
use crate::graphs::Graph;

verus! {

/// An exact non-negative fraction `num / den`. `den == 0` marks the one
/// undefined case (Jaccard similarity of two vertices with no out-neighbors).
#[derive(Clone, Copy, Debug, PartialEq, Eq, Structural)]
pub struct Ratio {
    pub num: u64,
    pub den: u64,
}

/// How many entries of `a` (with multiplicity) also occur in `b`.
pub open spec fn count_in(a: Seq<usize>, b: Seq<usize>) -> nat
    decreases a.len(),
{
    if a.len() == 0 {
        0
    } else {
        count_in(a.drop_last(), b) + if b.contains(a.last()) {
            1nat
        } else {
            0nat
        }
    }
}

/// How many entries of `b` (with multiplicity) occur nowhere in `a`.
pub open spec fn count_not_in(b: Seq<usize>, a: Seq<usize>) -> nat
    decreases b.len(),
{
    if b.len() == 0 {
        0
    } else {
        count_not_in(b.drop_last(), a) + if a.contains(b.last()) {
            0nat
        } else {
            1nat
        }
    }
}

/// The intersection count of the Jaccard similarity of `n1` and `n2`:
/// entries of `n1`'s list that also occur in `n2`'s list.
pub open spec fn jaccard_num(g: Graph, n1: int, n2: int) -> nat {
    count_in(g.row(n1), g.row(n2))
}

/// The union count of the Jaccard similarity of `n1` and `n2`:
/// all of `n1`'s list plus the entries of `n2`'s list missing from it.
pub open spec fn jaccard_den(g: Graph, n1: int, n2: int) -> nat {
    g.row(n1).len() + count_not_in(g.row(n2), g.row(n1))
}

/// Two vertices count as linked for the clustering coefficient when a
/// directed edge exists either way between them.
pub open spec fn linked(g: Graph, u: usize, v: usize) -> bool {
    g.row(u as int).contains(v) || g.row(v as int).contains(u)
}

/// Among the pairs `(a[i], a[jj])` with `j <= jj < a.len()`, how many name
/// two linked vertices.
pub open spec fn linked_in_row(g: Graph, a: Seq<usize>, i: int, j: int) -> nat
    decreases a.len() - j,
{
    if j < 0 || j >= a.len() {
        0
    } else {
        (if linked(g, a[i], a[j]) {
            1nat
        } else {
            0nat
        }) + linked_in_row(g, a, i, j + 1)
    }
}

/// Among the unordered position pairs `(p, q)` with `i <= p < q < a.len()`,
/// how many name two linked vertices.
pub open spec fn linked_pairs_from(g: Graph, a: Seq<usize>, i: int) -> nat
    decreases a.len() - i,
{
    if i < 0 || i >= a.len() {
        0
    } else {
        linked_in_row(g, a, i, i + 1) + linked_pairs_from(g, a, i + 1)
    }
}

/// How many unordered pairs of distinct positions in `v`'s out-neighbor list
/// name two linked vertices.
pub open spec fn linked_pairs(g: Graph, v: int) -> nat {
    linked_pairs_from(g, g.row(v), 0)
}

/// The numerator of the clustering coefficient of `v`: twice the linked pair
/// count, or zero when the out-degree is below two.
pub open spec fn cc_num(g: Graph, v: int) -> nat {
    if g.row(v).len() < 2 {
        0
    } else {
        2 * linked_pairs(g, v)
    }
}

/// The denominator of the clustering coefficient of `v`: the number of
/// ordered pairs of distinct positions, or one when the out-degree is below
/// two (the coefficient is then zero by policy).
pub open spec fn cc_den(g: Graph, v: int) -> nat {
    if g.row(v).len() < 2 {
        1
    } else {
        (g.row(v).len() * (g.row(v).len() - 1)) as nat
    }
}

/// The clustering coefficient of `v` is exactly zero.
pub open spec fn cc_is_zero(g: Graph, v: int) -> bool {
    cc_num(g, v) == 0
}

/// The clustering coefficient of `v` is exactly one.
pub open spec fn cc_is_one(g: Graph, v: int) -> bool {
    cc_num(g, v) == cc_den(g, v)
}

proof fn lemma_linked_in_row_bound(g: Graph, a: Seq<usize>, i: int, j: int)
    requires
        0 <= j <= a.len(),
    ensures
        linked_in_row(g, a, i, j) <= a.len() - j,
    decreases a.len() - j,
{
    if j < a.len() {
        lemma_linked_in_row_bound(g, a, i, j + 1);
    }
}

/// At most all `(len - i) * (len - i - 1) / 2` unordered pairs at or after
/// position `i` can be linked.
proof fn lemma_linked_pairs_bound(g: Graph, a: Seq<usize>, i: int)
    requires
        0 <= i <= a.len(),
    ensures
        2 * linked_pairs_from(g, a, i) <= (a.len() - i) * (a.len() - i - 1),
    decreases a.len() - i,
{
    if i >= a.len() {
        assert((a.len() - i) * (a.len() - i - 1) == 0) by (nonlinear_arith)
            requires
                i == a.len(),
        {}
    } else {
        lemma_linked_pairs_bound(g, a, i + 1);
        lemma_linked_in_row_bound(g, a, i, i + 1);
        assert(2 * linked_pairs_from(g, a, i) <= (a.len() - i) * (a.len() - i - 1)) by (nonlinear_arith)
            requires
                linked_pairs_from(g, a, i) == linked_in_row(g, a, i, i + 1) + linked_pairs_from(
                    g,
                    a,
                    i + 1,
                ),
                linked_in_row(g, a, i, i + 1) <= a.len() - i - 1,
                2 * linked_pairs_from(g, a, i + 1) <= (a.len() - i - 1) * (a.len() - i - 2),
                i < a.len(),
        {}
    }
}

/// Linear membership test against an out-neighbor list.
fn row_contains(row: &Vec<usize>, x: usize) -> (b: bool)
    ensures
        b == row@.contains(x),
{
    let mut k: usize = 0;
    while k < row.len()
        invariant
            k <= row.len(),
            forall|t: int| 0 <= t < k ==> row@[t] != x,
        decreases row.len() - k,
    {
        if row[k] == x {
            return true;
        }
        k = k + 1;
    }
    false
}

/// The local clustering coefficient of `node`: the fraction of unordered
/// pairs of its out-neighbors that are linked by an edge in either
/// direction. With fewer than two out-neighbors the coefficient is zero
/// (returned as `0 / 1`); otherwise it is
/// `2 * linked pairs / (degree * (degree - 1))`, a value in `[0, 1]`.
pub fn clustering_coefficient(graph: &Graph, node: usize) -> (r: Ratio)
    requires
        graph.wf(),
        node < graph.n,
        graph.row(node as int).len() <= 0xFFFF_FFFF,
    ensures
        r.num == cc_num(*graph, node as int),
        r.den == cc_den(*graph, node as int),
        r.num <= r.den,
        r.den >= 1,
        graph.row(node as int).len() < 2 ==> r == (Ratio { num: 0, den: 1 }),
{
    let ghost a = graph.row(node as int);
    let k = graph.outedges[node].len();
    if k < 2 {
        return Ratio { num: 0, den: 1 };
    }
    let mut cnt: u64 = 0;
    let mut i: usize = 0;
    while i < k
        invariant
            graph.wf(),
            node < graph.n,
            a == graph.row(node as int),
            k == a.len(),
            2 <= k <= 0xFFFF_FFFF,
            i <= k,
            cnt + linked_pairs_from(*graph, a, i as int) == linked_pairs(*graph, node as int),
            cnt <= linked_pairs(*graph, node as int),
        decreases k - i,
    {
        let mut j: usize = i + 1;
        while j < k
            invariant
                graph.wf(),
                node < graph.n,
                a == graph.row(node as int),
                k == a.len(),
                2 <= k <= 0xFFFF_FFFF,
                i < k,
                i + 1 <= j <= k,
                cnt + linked_in_row(*graph, a, i as int, j as int) + linked_pairs_from(
                    *graph,
                    a,
                    i + 1,
                ) == linked_pairs(*graph, node as int),
                cnt <= linked_pairs(*graph, node as int),
            decreases k - j,
        {
            let u = graph.outedges[node][i];
            let v = graph.outedges[node][j];
            proof {
                lemma_linked_pairs_bound(*graph, a, 0);
                assert((a.len() - 0) * (a.len() - 0 - 1) <= 0xFFFF_FFFF * (0xFFFF_FFFF - 1))
                    by (nonlinear_arith)
                    requires
                        2 <= a.len() <= 0xFFFF_FFFF,
                {}
            }
            if row_contains(&graph.outedges[u], v) || row_contains(&graph.outedges[v], u) {
                cnt = cnt + 1;
            }
            j = j + 1;
        }
        i = i + 1;
    }
    proof {
        lemma_linked_pairs_bound(*graph, a, 0);
        assert(2 <= a.len() * (a.len() - 1) <= 0xFFFF_FFFF * (0xFFFF_FFFF - 1))
            by (nonlinear_arith)
            requires
                2 <= a.len() <= 0xFFFF_FFFF,
        {}
    }
    let den = (k as u64) * ((k - 1) as u64);
    Ratio { num: 2 * cnt, den }
}

/// The Jaccard similarity of `node1` and `node2` over their out-neighbor
/// lists as stored (with multiplicity): the intersection count over the
/// union count, as an exact fraction. When both lists are empty the result
/// is the undefined sentinel `0 / 0`.
pub fn jaccard_similarity(graph: &Graph, node1: usize, node2: usize) -> (r: Ratio)
    requires
        graph.wf(),
        node1 < graph.n,
        node2 < graph.n,
        graph.row(node1 as int).len() <= 0xFFFF_FFFF,
        graph.row(node2 as int).len() <= 0xFFFF_FFFF,
    ensures
        r.num == jaccard_num(*graph, node1 as int, node2 as int),
        r.den == jaccard_den(*graph, node1 as int, node2 as int),
        r.num <= r.den,
        r.den == 0 <==> graph.row(node1 as int).len() == 0 && graph.row(node2 as int).len() == 0,
{
    let ghost a = graph.row(node1 as int);
    let ghost b = graph.row(node2 as int);
    let mut inter: u64 = 0;
    let mut union_ct: u64 = 0;
    let len1 = graph.outedges[node1].len();
    let len2 = graph.outedges[node2].len();
    let mut k: usize = 0;
    while k < len1
        invariant
            graph.wf(),
            node1 < graph.n,
            node2 < graph.n,
            a == graph.row(node1 as int),
            b == graph.row(node2 as int),
            len1 == a.len(),
            len2 == b.len(),
            len1 <= 0xFFFF_FFFF,
            len2 <= 0xFFFF_FFFF,
            k <= len1,
            inter == count_in(a.take(k as int), b),
            inter <= k,
            union_ct == k,
        decreases len1 - k,
    {
        let x = graph.outedges[node1][k];
        if row_contains(&graph.outedges[node2], x) {
            inter = inter + 1;
        }
        union_ct = union_ct + 1;
        proof {
            assert(a.take(k + 1).drop_last() =~= a.take(k as int));
            assert(a.take(k + 1).last() == a[k as int]);
            lemma_count_in_le(a.take(k + 1), b);
        }
        k = k + 1;
    }
    proof {
        assert(a.take(len1 as int) =~= a);
    }
    let mut j: usize = 0;
    while j < len2
        invariant
            graph.wf(),
            node1 < graph.n,
            node2 < graph.n,
            a == graph.row(node1 as int),
            b == graph.row(node2 as int),
            len1 == a.len(),
            len2 == b.len(),
            len1 <= 0xFFFF_FFFF,
            len2 <= 0xFFFF_FFFF,
            j <= len2,
            inter == count_in(a, b),
            inter <= len1,
            union_ct == len1 + count_not_in(b.take(j as int), a),
            union_ct <= len1 + j,
        decreases len2 - j,
    {
        let y = graph.outedges[node2][j];
        if !row_contains(&graph.outedges[node1], y) {
            union_ct = union_ct + 1;
        }
        proof {
            assert(b.take(j + 1).drop_last() =~= b.take(j as int));
            assert(b.take(j + 1).last() == b[j as int]);
            lemma_count_not_in_le(b.take(j + 1), a);
        }
        j = j + 1;
    }
    proof {
        assert(b.take(len2 as int) =~= b);
        lemma_count_in_le(a, b);
        if len1 == 0 {
            lemma_count_not_in_empty(b, a);
        }
    }
    Ratio { num: inter, den: union_ct }
}

/// The intersection count never exceeds the first list's length.
proof fn lemma_count_in_le(a: Seq<usize>, b: Seq<usize>)
    ensures
        count_in(a, b) <= a.len(),
    decreases a.len(),
{
    if a.len() > 0 {
        lemma_count_in_le(a.drop_last(), b);
    }
}

/// The excluded count never exceeds the list's length.
proof fn lemma_count_not_in_le(b: Seq<usize>, a: Seq<usize>)
    ensures
        count_not_in(b, a) <= b.len(),
    decreases b.len(),
{
    if b.len() > 0 {
        lemma_count_not_in_le(b.drop_last(), a);
    }
}

/// Against an empty list, every entry of `b` counts as excluded.
proof fn lemma_count_not_in_empty(b: Seq<usize>, a: Seq<usize>)
    requires
        a.len() == 0,
    ensures
        count_not_in(b, a) == b.len(),
    decreases b.len(),
{
    if b.len() > 0 {
        lemma_count_not_in_empty(b.drop_last(), a);
    }
}

/// The vertices whose clustering coefficient is exactly one — every pair of
/// their out-neighbors is linked — in ascending order.
pub fn full_similarity(graph: &Graph) -> (r: Vec<usize>)
    requires
        graph.wf(),
        forall|u: int| 0 <= u < graph.n ==> (#[trigger] graph.row(u)).len() <= 0xFFFF_FFFF,
    ensures
        forall|v: usize| r@.contains(v) <==> v < graph.n && cc_is_one(*graph, v as int),
        forall|p: int, q: int| 0 <= p < q < r@.len() ==> r@[p] < r@[q],
{
    let mut out: Vec<usize> = Vec::new();
    let mut node: usize = 0;
    while node < graph.n
        invariant
            graph.wf(),
            forall|u: int| 0 <= u < graph.n ==> (#[trigger] graph.row(u)).len() <= 0xFFFF_FFFF,
            node <= graph.n,
            forall|v: usize| out@.contains(v) <==> v < node && cc_is_one(*graph, v as int),
            forall|p: int, q: int| 0 <= p < q < out@.len() ==> out@[p] < out@[q],
            forall|p: int| 0 <= p < out@.len() ==> (#[trigger] out@[p]) < node,
        decreases graph.n - node,
    {
        let c = clustering_coefficient(graph, node);
        if c.num == c.den {
            let ghost old_out = out@;
            out.push(node);
            proof {
                broadcast use vstd::seq_lib::lemma_seq_contains_after_push;

                assert(out@ == old_out.push(node));
                assert(forall|p: int| 0 <= p < old_out.len() ==> out@[p] == old_out[p]);
            }
        }
        node = node + 1;
    }
    out
}

/// The vertices whose clustering coefficient is exactly zero — no pair of
/// their out-neighbors is linked, which by the guard policy includes every
/// vertex of out-degree below two — in ascending order.
pub fn no_similarity(graph: &Graph) -> (r: Vec<usize>)
    requires
        graph.wf(),
        forall|u: int| 0 <= u < graph.n ==> (#[trigger] graph.row(u)).len() <= 0xFFFF_FFFF,
    ensures
        forall|v: usize| r@.contains(v) <==> v < graph.n && cc_is_zero(*graph, v as int),
        forall|p: int, q: int| 0 <= p < q < r@.len() ==> r@[p] < r@[q],
{
    let mut out: Vec<usize> = Vec::new();
    let mut node: usize = 0;
    while node < graph.n
        invariant
            graph.wf(),
            forall|u: int| 0 <= u < graph.n ==> (#[trigger] graph.row(u)).len() <= 0xFFFF_FFFF,
            node <= graph.n,
            forall|v: usize| out@.contains(v) <==> v < node && cc_is_zero(*graph, v as int),
            forall|p: int, q: int| 0 <= p < q < out@.len() ==> out@[p] < out@[q],
            forall|p: int| 0 <= p < out@.len() ==> (#[trigger] out@[p]) < node,
        decreases graph.n - node,
    {
        let c = clustering_coefficient(graph, node);
        if c.num == 0 {
            let ghost old_out = out@;
            out.push(node);
            proof {
                broadcast use vstd::seq_lib::lemma_seq_contains_after_push;

                assert(out@ == old_out.push(node));
                assert(forall|p: int| 0 <= p < old_out.len() ==> out@[p] == old_out[p]);
            }
        }
        node = node + 1;
    }
    out
}

/// The fraction `an / ad` is at most `bn / bd`, by cross-multiplication.
/// Meaningful whenever both denominators are positive.
pub open spec fn ratio_le(an: int, ad: int, bn: int, bd: int) -> bool {
    an * bd <= bn * ad
}

/// Exact comparison `an / ad > bn / bd` of two non-negative fractions.
fn frac_gt(an: u64, ad: u64, bn: u64, bd: u64) -> (r: bool)
    ensures
        r == !ratio_le(an as int, ad as int, bn as int, bd as int),
{
    proof {
        assert((an as u128) * (bd as u128) <= u128::MAX && (bn as u128) * (ad as u128)
            <= u128::MAX) by (nonlinear_arith)
            requires
                an <= u64::MAX && ad <= u64::MAX && bn <= u64::MAX && bd <= u64::MAX,
        {}
    }
    (an as u128) * (bd as u128) > (bn as u128) * (ad as u128)
}

/// Exact comparison `an / ad < bn / bd` of two non-negative fractions.
fn frac_lt(an: u64, ad: u64, bn: u64, bd: u64) -> (r: bool)
    ensures
        r == !ratio_le(bn as int, bd as int, an as int, ad as int),
{
    proof {
        assert((an as u128) * (bd as u128) <= u128::MAX && (bn as u128) * (ad as u128)
            <= u128::MAX) by (nonlinear_arith)
            requires
                an <= u64::MAX && ad <= u64::MAX && bn <= u64::MAX && bd <= u64::MAX,
        {}
    }
    (an as u128) * (bd as u128) < (bn as u128) * (ad as u128)
}

/// The fraction `an / ad` is strictly below `bn / bd`, by
/// cross-multiplication. Meaningful whenever both denominators are positive.
pub open spec fn ratio_lt(an: int, ad: int, bn: int, bd: int) -> bool {
    an * bd < bn * ad
}

/// `ratio_le` is transitive over fractions with positive denominators.
proof fn lemma_ratio_le_trans(an: int, ad: int, bn: int, bd: int, cn: int, cd: int)
    requires
        ad > 0,
        bd > 0,
        cd > 0,
        ratio_le(an, ad, bn, bd),
        ratio_le(bn, bd, cn, cd),
    ensures
        ratio_le(an, ad, cn, cd),
{
    assert(an * cd <= cn * ad) by (nonlinear_arith)
        requires
            ad > 0 && bd > 0 && cd > 0,
            an * bd <= bn * ad,
            bn * cd <= cn * bd,
    {}
}

/// A fraction at most a second one, itself strictly below a third, is
/// strictly below the third.
proof fn lemma_ratio_le_lt_trans(an: int, ad: int, bn: int, bd: int, cn: int, cd: int)
    requires
        ad > 0,
        bd > 0,
        cd > 0,
        ratio_le(an, ad, bn, bd),
        ratio_lt(bn, bd, cn, cd),
    ensures
        ratio_lt(an, ad, cn, cd),
{
    assert(an * cd < cn * ad) by (nonlinear_arith)
        requires
            ad > 0 && bd > 0 && cd > 0,
            an * bd <= bn * ad,
            bn * cd < cn * bd,
    {}
}

/// A fraction strictly below a second one, itself at most a third, is
/// strictly below the third.
proof fn lemma_ratio_lt_le_trans(an: int, ad: int, bn: int, bd: int, cn: int, cd: int)
    requires
        ad > 0,
        bd > 0,
        cd > 0,
        ratio_lt(an, ad, bn, bd),
        ratio_le(bn, bd, cn, cd),
    ensures
        ratio_lt(an, ad, cn, cd),
{
    assert(an * cd < cn * ad) by (nonlinear_arith)
        requires
            ad > 0 && bd > 0 && cd > 0,
            an * bd < bn * ad,
            bn * cd <= cn * bd,
    {}
}

/// A Jaccard denominator of an edge-adjacent pair is positive: the source's
/// own out-neighbor list is non-empty.
proof fn lemma_adjacent_jaccard_den_pos(g: Graph, u: int, v: usize)
    requires
        g.row(u).contains(v),
    ensures
        jaccard_den(g, u, v as int) >= g.row(u).len() >= 1,
{
}

/// Both counts of an entry split a list's length.
proof fn lemma_count_in_plus_not_in(x: Seq<usize>, y: Seq<usize>)
    ensures
        count_in(x, y) + count_not_in(x, y) == x.len(),
    decreases x.len(),
{
    if x.len() > 0 {
        lemma_count_in_plus_not_in(x.drop_last(), y);
    }
}

/// On a duplicate-free list, the intersection count is the cardinality of
/// the set intersection of the two lists' values.
proof fn lemma_count_in_distinct(a: Seq<usize>, b: Seq<usize>)
    requires
        a.no_duplicates(),
    ensures
        count_in(a, b) == a.to_set().intersect(b.to_set()).len(),
    decreases a.len(),
{
    broadcast use vstd::seq_lib::seq_to_set_is_finite;
    broadcast use vstd::seq_lib::lemma_seq_contains_after_push;

    if a.len() == 0 {
        assert(a.to_set().intersect(b.to_set()) =~= Set::empty());
    } else {
        let ap = a.drop_last();
        let x = a.last();
        assert(forall|p: int, q: int|
            0 <= p < q < ap.len() ==> ap[p] == a[p] && ap[q] == a[q]);
        assert(ap.no_duplicates());
        assert(!ap.contains(x));
        lemma_count_in_distinct(ap, b);
        assert(ap.push(x) =~= a);
        assert(a.to_set() =~= ap.to_set().insert(x));
        let s = ap.to_set().intersect(b.to_set());
        if b.to_set().contains(x) {
            assert(a.to_set().intersect(b.to_set()) =~= s.insert(x));
            assert(!s.contains(x));
            assert(s.insert(x).len() == s.len() + 1);
            assert(b.contains(x));
        } else {
            assert(a.to_set().intersect(b.to_set()) =~= s);
            assert(!b.contains(x));
        }
    }
}

/// Every entry of `x` occurring in `y` makes the intersection count full.
proof fn lemma_count_in_all(x: Seq<usize>, y: Seq<usize>)
    requires
        forall|e: usize| x.contains(e) ==> y.contains(e),
    ensures
        count_in(x, y) == x.len(),
    decreases x.len(),
{
    if x.len() > 0 {
        assert(forall|e: usize| x.drop_last().contains(e) ==> x.contains(e));
        lemma_count_in_all(x.drop_last(), y);
        assert(x.contains(x.last()));
    }
}

/// The Jaccard similarity is symmetric on vertices whose out-neighbor lists
/// are free of duplicate entries: both the intersection count and the union
/// count agree in the two orders. (With duplicate edges the two orders can
/// differ, so duplicate-free lists are required.)
pub proof fn lemma_jaccard_symmetric(g: Graph, a: int, b: int)
    requires
        g.wf(),
        0 <= a < g.n,
        0 <= b < g.n,
        g.row(a).no_duplicates(),
        g.row(b).no_duplicates(),
    ensures
        jaccard_num(g, a, b) == jaccard_num(g, b, a),
        jaccard_den(g, a, b) == jaccard_den(g, b, a),
{
    let ra = g.row(a);
    let rb = g.row(b);
    lemma_count_in_distinct(ra, rb);
    lemma_count_in_distinct(rb, ra);
    assert(ra.to_set().intersect(rb.to_set()) =~= rb.to_set().intersect(ra.to_set()));
    lemma_count_in_plus_not_in(ra, rb);
    lemma_count_in_plus_not_in(rb, ra);
}

/// The Jaccard similarity of a vertex with itself is exactly one whenever
/// the vertex has at least one out-neighbor: intersection and union count
/// both equal the list's length (so the fraction is `len / len`; with no
/// out-neighbors it is the undefined sentinel `0 / 0`).
pub proof fn lemma_jaccard_self(g: Graph, a: int)
    requires
        g.wf(),
        0 <= a < g.n,
    ensures
        jaccard_num(g, a, a) == g.row(a).len(),
        jaccard_den(g, a, a) == g.row(a).len(),
{
    let ra = g.row(a);
    lemma_count_in_all(ra, ra);
    lemma_count_in_plus_not_in(ra, ra);
}

/// A vertex with out-degree below two has clustering coefficient exactly
/// zero by the guard policy, and so always lands in the zero-similarity
/// scan's result (`none` here is any list with `no_similarity`'s contract).
pub proof fn lemma_low_degree_no_similarity(g: Graph, none: Seq<usize>, v: usize)
    requires
        forall|x: usize| none.contains(x) <==> x < g.n && cc_is_zero(g, x as int),
        v < g.n,
        g.row(v as int).len() < 2,
    ensures
        cc_is_zero(g, v as int),
        none.contains(v),
{
}

/// No vertex has clustering coefficient both exactly one and exactly zero,
/// so the results of `full_similarity` and `no_similarity` never share a
/// vertex.
pub proof fn lemma_full_no_similarity_disjoint(g: Graph, full: Seq<usize>, none: Seq<usize>)
    requires
        forall|v: usize| full.contains(v) <==> v < g.n && cc_is_one(g, v as int),
        forall|v: usize| none.contains(v) <==> v < g.n && cc_is_zero(g, v as int),
    ensures
        forall|v: usize| !(full.contains(v) && none.contains(v)),
{
    assert forall|v: usize| !(full.contains(v) && none.contains(v)) by {
        if full.contains(v) && none.contains(v) {
            let k = g.row(v as int).len();
            if k >= 2 {
                assert(k * (k - 1) >= 2) by (nonlinear_arith)
                    requires
                        k >= 2,
                {}
            }
        }
    }
}

/// Scans every edge-adjacent pair — each vertex `node1` against each entry
/// `node2` of its out-neighbor list, in ascending vertex then list order —
/// and returns the first pair whose Jaccard similarity reaches the strict
/// maximum: every pair is at most as similar, and every pair encountered
/// earlier is strictly less similar. When no pair has similarity above zero
/// (in particular on a graph with no edges), the initial placeholder pair
/// `(0, 1)` is returned unchanged, whether or not it is an edge.
pub fn greatest_jaccard(graph: &Graph) -> (r: (usize, usize))
    requires
        graph.wf(),
        forall|u: int| 0 <= u < graph.n ==> (#[trigger] graph.row(u)).len() <= 0xFFFF_FFFF,
    ensures
        (exists|u: int, t: int|
            0 <= u < graph.n && 0 <= t < graph.row(u).len() && jaccard_num(
                *graph,
                u,
                #[trigger] graph.row(u)[t] as int,
            ) > 0) ==> {
            &&& r.0 < graph.n
            &&& graph.row(r.0 as int).contains(r.1)
            &&& jaccard_num(*graph, r.0 as int, r.1 as int) > 0
            &&& forall|u: int, t: int|
                0 <= u < graph.n && 0 <= t < graph.row(u).len() ==> ratio_le(
                    jaccard_num(*graph, u, #[trigger] graph.row(u)[t] as int) as int,
                    jaccard_den(*graph, u, graph.row(u)[t] as int) as int,
                    jaccard_num(*graph, r.0 as int, r.1 as int) as int,
                    jaccard_den(*graph, r.0 as int, r.1 as int) as int,
                )
            &&& exists|su: int, st: int|
                0 <= su < graph.n && 0 <= st < graph.row(su).len() && r.0 == su && r.1 == (
                #[trigger] graph.row(su)[st]) && (forall|u: int, t: int|
                    0 <= u < graph.n && 0 <= t < graph.row(u).len() && (u < su || (u == su && t
                        < st)) ==> ratio_lt(
                        jaccard_num(*graph, u, #[trigger] graph.row(u)[t] as int) as int,
                        jaccard_den(*graph, u, graph.row(u)[t] as int) as int,
                        jaccard_num(*graph, r.0 as int, r.1 as int) as int,
                        jaccard_den(*graph, r.0 as int, r.1 as int) as int,
                    ))
        },
        (forall|u: int, t: int|
            0 <= u < graph.n && 0 <= t < graph.row(u).len() ==> jaccard_num(
                *graph,
                u,
                #[trigger] graph.row(u)[t] as int,
            ) == 0) ==> r == (0usize, 1usize),
{
    let mut best = Ratio { num: 0, den: 1 };
    let mut pair: (usize, usize) = (0, 1);
    let ghost mut ub: int = 0;
    let ghost mut tb: int = 0;
    let mut node1: usize = 0;
    while node1 < graph.n
        invariant
            graph.wf(),
            forall|u: int| 0 <= u < graph.n ==> (#[trigger] graph.row(u)).len() <= 0xFFFF_FFFF,
            node1 <= graph.n,
            best.den >= 1,
            best.num == 0 ==> pair == (0usize, 1usize) && best.den == 1 && forall|u: int, t: int|
                0 <= u < node1 && 0 <= t < graph.row(u).len() ==> jaccard_num(
                    *graph,
                    u,
                    #[trigger] graph.row(u)[t] as int,
                ) == 0,
            best.num > 0 ==> {
                &&& pair.0 < graph.n
                &&& graph.row(pair.0 as int).contains(pair.1)
                &&& best.num == jaccard_num(*graph, pair.0 as int, pair.1 as int)
                &&& best.den == jaccard_den(*graph, pair.0 as int, pair.1 as int)
                &&& 0 <= ub < graph.n
                &&& 0 <= tb < graph.row(ub).len()
                &&& pair.0 == ub && pair.1 == graph.row(ub)[tb]
                &&& forall|u: int, t: int|
                    0 <= u < node1 && 0 <= t < graph.row(u).len() ==> ratio_le(
                        jaccard_num(*graph, u, #[trigger] graph.row(u)[t] as int) as int,
                        jaccard_den(*graph, u, graph.row(u)[t] as int) as int,
                        best.num as int,
                        best.den as int,
                    )
                &&& forall|u: int, t: int|
                    0 <= u < graph.n && 0 <= t < graph.row(u).len() && (u < ub || (u == ub && t
                        < tb)) ==> ratio_lt(
                        jaccard_num(*graph, u, #[trigger] graph.row(u)[t] as int) as int,
                        jaccard_den(*graph, u, graph.row(u)[t] as int) as int,
                        best.num as int,
                        best.den as int,
                    )
            },
        decreases graph.n - node1,
    {
        let row_len = graph.outedges[node1].len();
        let mut t: usize = 0;
        while t < row_len
            invariant
                graph.wf(),
                forall|u: int| 0 <= u < graph.n ==> (#[trigger] graph.row(u)).len()
                    <= 0xFFFF_FFFF,
                node1 < graph.n,
                row_len == graph.row(node1 as int).len(),
                t <= row_len,
                best.den >= 1,
                best.num == 0 ==> pair == (0usize, 1usize) && best.den == 1 && forall|
                    u: int,
                    tt: int,
                |
                    0 <= u < graph.n && 0 <= tt < graph.row(u).len() && (u < node1 || (u == node1
                        && tt < t)) ==> jaccard_num(
                        *graph,
                        u,
                        #[trigger] graph.row(u)[tt] as int,
                    ) == 0,
                best.num > 0 ==> {
                    &&& pair.0 < graph.n
                    &&& graph.row(pair.0 as int).contains(pair.1)
                    &&& best.num == jaccard_num(*graph, pair.0 as int, pair.1 as int)
                    &&& best.den == jaccard_den(*graph, pair.0 as int, pair.1 as int)
                    &&& 0 <= ub < graph.n
                    &&& 0 <= tb < graph.row(ub).len()
                    &&& pair.0 == ub && pair.1 == graph.row(ub)[tb]
                    &&& forall|u: int, tt: int|
                        0 <= u < graph.n && 0 <= tt < graph.row(u).len() && (u < node1 || (u
                            == node1 && tt < t)) ==> ratio_le(
                            jaccard_num(*graph, u, #[trigger] graph.row(u)[tt] as int) as int,
                            jaccard_den(*graph, u, graph.row(u)[tt] as int) as int,
                            best.num as int,
                            best.den as int,
                        )
                    &&& forall|u: int, tt: int|
                        0 <= u < graph.n && 0 <= tt < graph.row(u).len() && (u < ub || (u == ub
                            && tt < tb)) ==> ratio_lt(
                            jaccard_num(*graph, u, #[trigger] graph.row(u)[tt] as int) as int,
                            jaccard_den(*graph, u, graph.row(u)[tt] as int) as int,
                            best.num as int,
                            best.den as int,
                        )
                },
            decreases row_len - t,
        {
            let node2 = graph.outedges[node1][t];
            let js = jaccard_similarity(graph, node1, node2);
            let ghost oldb = best;
            proof {
                assert(graph.row(node1 as int).contains(node2));
                lemma_adjacent_jaccard_den_pos(*graph, node1 as int, node2);
            }
            if frac_gt(js.num, js.den, best.num, best.den) {
                best = js;
                pair = (node1, node2);
                proof {
                    ub = node1 as int;
                    tb = t as int;
                    assert(graph.row(ub)[tb] == node2);
                    assert(js.num * oldb.den > oldb.num * js.den);
                    assert(js.num > 0) by (nonlinear_arith)
                        requires
                            js.num * oldb.den > oldb.num * js.den,
                            oldb.num >= 0 && oldb.den >= 0 && js.den >= 0,
                    {}
                    assert forall|u: int, tt: int|
                        0 <= u < graph.n && 0 <= tt < graph.row(u).len() && (u < ub || (u == ub
                            && tt < tb)) implies ratio_lt(
                        jaccard_num(*graph, u, #[trigger] graph.row(u)[tt] as int) as int,
                        jaccard_den(*graph, u, graph.row(u)[tt] as int) as int,
                        best.num as int,
                        best.den as int,
                    ) by {
                        let pn = jaccard_num(*graph, u, graph.row(u)[tt] as int) as int;
                        let pd = jaccard_den(*graph, u, graph.row(u)[tt] as int) as int;
                        lemma_adjacent_jaccard_den_pos(*graph, u, graph.row(u)[tt]);
                        if oldb.num == 0 {
                            assert(pn == 0);
                            assert(ratio_lt(pn, pd, best.num as int, best.den as int))
                                by (nonlinear_arith)
                                requires
                                    pn == 0 && pd >= 1 && best.num >= 1 && best.den >= 1,
                            {}
                        } else {
                            assert(ratio_le(pn, pd, oldb.num as int, oldb.den as int));
                            assert(ratio_lt(
                                oldb.num as int,
                                oldb.den as int,
                                best.num as int,
                                best.den as int,
                            ));
                            lemma_ratio_le_lt_trans(
                                pn,
                                pd,
                                oldb.num as int,
                                oldb.den as int,
                                best.num as int,
                                best.den as int,
                            );
                        }
                    }
                    assert forall|u: int, tt: int|
                        0 <= u < graph.n && 0 <= tt < graph.row(u).len() && (u < node1 || (u
                            == node1 && tt <= t)) implies ratio_le(
                        jaccard_num(*graph, u, #[trigger] graph.row(u)[tt] as int) as int,
                        jaccard_den(*graph, u, graph.row(u)[tt] as int) as int,
                        best.num as int,
                        best.den as int,
                    ) by {
                        let pn = jaccard_num(*graph, u, graph.row(u)[tt] as int) as int;
                        let pd = jaccard_den(*graph, u, graph.row(u)[tt] as int) as int;
                        lemma_adjacent_jaccard_den_pos(*graph, u, graph.row(u)[tt]);
                        if u == node1 && tt == t {
                            assert(graph.row(u)[tt] == node2);
                        } else if oldb.num == 0 {
                            assert(pn == 0);
                            assert(ratio_le(pn, pd, best.num as int, best.den as int))
                                by (nonlinear_arith)
                                requires
                                    pn == 0 && pd >= 0 && best.num >= 0 && best.den >= 0,
                            {}
                        } else {
                            assert(ratio_le(pn, pd, oldb.num as int, oldb.den as int));
                            lemma_ratio_le_trans(
                                pn,
                                pd,
                                oldb.num as int,
                                oldb.den as int,
                                best.num as int,
                                best.den as int,
                            );
                        }
                    }
                }
            } else {
                proof {
                    assert(ratio_le(js.num as int, js.den as int, best.num as int, best.den as int));
                    if best.num == 0 {
                        assert(js.num * best.den <= best.num * js.den);
                        assert(js.num == 0) by (nonlinear_arith)
                            requires
                                js.num * best.den <= best.num * js.den,
                                best.num == 0 && best.den >= 1 && js.num >= 0 && js.den >= 0,
                        {}
                    }
                    assert(graph.row(node1 as int)[t as int] == node2);
                }
            }
            t = t + 1;
        }
        node1 = node1 + 1;
    }
    proof {
        if best.num > 0 {
            let t = choose|t: int|
                0 <= t < graph.row(pair.0 as int).len() && graph.row(pair.0 as int)[t] == pair.1;
            assert(0 <= pair.0 < graph.n && 0 <= t < graph.row(pair.0 as int).len() && jaccard_num(
                *graph,
                pair.0 as int,
                graph.row(pair.0 as int)[t] as int,
            ) > 0);
            assert(0 <= ub < graph.n && 0 <= tb < graph.row(ub).len() && pair.0 == ub && pair.1
                == graph.row(ub)[tb]);
        }
    }
    pair
}

/// Scans every edge-adjacent pair in the same order as `greatest_jaccard`
/// and returns the first pair whose Jaccard similarity reaches the strict
/// minimum: every pair is at least as similar, and every pair encountered
/// earlier is strictly more similar. When every pair has similarity exactly
/// one (in particular on a graph with no edges), the initial placeholder
/// pair `(0, 1)` is returned unchanged, whether or not it is an edge.
pub fn least_jaccard(graph: &Graph) -> (r: (usize, usize))
    requires
        graph.wf(),
        forall|u: int| 0 <= u < graph.n ==> (#[trigger] graph.row(u)).len() <= 0xFFFF_FFFF,
    ensures
        (exists|u: int, t: int|
            0 <= u < graph.n && 0 <= t < graph.row(u).len() && jaccard_num(
                *graph,
                u,
                #[trigger] graph.row(u)[t] as int,
            ) < jaccard_den(*graph, u, graph.row(u)[t] as int)) ==> {
            &&& r.0 < graph.n
            &&& graph.row(r.0 as int).contains(r.1)
            &&& jaccard_num(*graph, r.0 as int, r.1 as int) < jaccard_den(
                *graph,
                r.0 as int,
                r.1 as int,
            )
            &&& forall|u: int, t: int|
                0 <= u < graph.n && 0 <= t < graph.row(u).len() ==> ratio_le(
                    jaccard_num(*graph, r.0 as int, r.1 as int) as int,
                    jaccard_den(*graph, r.0 as int, r.1 as int) as int,
                    jaccard_num(*graph, u, #[trigger] graph.row(u)[t] as int) as int,
                    jaccard_den(*graph, u, graph.row(u)[t] as int) as int,
                )
            &&& exists|su: int, st: int|
                0 <= su < graph.n && 0 <= st < graph.row(su).len() && r.0 == su && r.1 == (
                #[trigger] graph.row(su)[st]) && (forall|u: int, t: int|
                    0 <= u < graph.n && 0 <= t < graph.row(u).len() && (u < su || (u == su && t
                        < st)) ==> ratio_lt(
                        jaccard_num(*graph, r.0 as int, r.1 as int) as int,
                        jaccard_den(*graph, r.0 as int, r.1 as int) as int,
                        jaccard_num(*graph, u, #[trigger] graph.row(u)[t] as int) as int,
                        jaccard_den(*graph, u, graph.row(u)[t] as int) as int,
                    ))
        },
        (forall|u: int, t: int|
            0 <= u < graph.n && 0 <= t < graph.row(u).len() ==> jaccard_num(
                *graph,
                u,
                #[trigger] graph.row(u)[t] as int,
            ) == jaccard_den(*graph, u, graph.row(u)[t] as int)) ==> r == (0usize, 1usize),
{
    let mut best = Ratio { num: 1, den: 1 };
    let mut pair: (usize, usize) = (0, 1);
    let ghost mut ub: int = 0;
    let ghost mut tb: int = 0;
    let mut node1: usize = 0;
    while node1 < graph.n
        invariant
            graph.wf(),
            forall|u: int| 0 <= u < graph.n ==> (#[trigger] graph.row(u)).len() <= 0xFFFF_FFFF,
            node1 <= graph.n,
            best.den >= 1,
            best.num >= best.den ==> pair == (0usize, 1usize) && best == (Ratio {
                num: 1,
                den: 1,
            }) && forall|u: int, t: int|
                0 <= u < node1 && 0 <= t < graph.row(u).len() ==> jaccard_num(
                    *graph,
                    u,
                    #[trigger] graph.row(u)[t] as int,
                ) == jaccard_den(*graph, u, graph.row(u)[t] as int),
            best.num < best.den ==> {
                &&& pair.0 < graph.n
                &&& graph.row(pair.0 as int).contains(pair.1)
                &&& best.num == jaccard_num(*graph, pair.0 as int, pair.1 as int)
                &&& best.den == jaccard_den(*graph, pair.0 as int, pair.1 as int)
                &&& 0 <= ub < graph.n
                &&& 0 <= tb < graph.row(ub).len()
                &&& pair.0 == ub && pair.1 == graph.row(ub)[tb]
                &&& forall|u: int, t: int|
                    0 <= u < node1 && 0 <= t < graph.row(u).len() ==> ratio_le(
                        best.num as int,
                        best.den as int,
                        jaccard_num(*graph, u, #[trigger] graph.row(u)[t] as int) as int,
                        jaccard_den(*graph, u, graph.row(u)[t] as int) as int,
                    )
                &&& forall|u: int, t: int|
                    0 <= u < graph.n && 0 <= t < graph.row(u).len() && (u < ub || (u == ub && t
                        < tb)) ==> ratio_lt(
                        best.num as int,
                        best.den as int,
                        jaccard_num(*graph, u, #[trigger] graph.row(u)[t] as int) as int,
                        jaccard_den(*graph, u, graph.row(u)[t] as int) as int,
                    )
            },
        decreases graph.n - node1,
    {
        let row_len = graph.outedges[node1].len();
        let mut t: usize = 0;
        while t < row_len
            invariant
                graph.wf(),
                forall|u: int| 0 <= u < graph.n ==> (#[trigger] graph.row(u)).len()
                    <= 0xFFFF_FFFF,
                node1 < graph.n,
                row_len == graph.row(node1 as int).len(),
                t <= row_len,
                best.den >= 1,
                best.num >= best.den ==> pair == (0usize, 1usize) && best == (Ratio {
                    num: 1,
                    den: 1,
                }) && forall|u: int, tt: int|
                    0 <= u < graph.n && 0 <= tt < graph.row(u).len() && (u < node1 || (u == node1
                        && tt < t)) ==> jaccard_num(
                        *graph,
                        u,
                        #[trigger] graph.row(u)[tt] as int,
                    ) == jaccard_den(*graph, u, graph.row(u)[tt] as int),
                best.num < best.den ==> {
                    &&& pair.0 < graph.n
                    &&& graph.row(pair.0 as int).contains(pair.1)
                    &&& best.num == jaccard_num(*graph, pair.0 as int, pair.1 as int)
                    &&& best.den == jaccard_den(*graph, pair.0 as int, pair.1 as int)
                    &&& 0 <= ub < graph.n
                    &&& 0 <= tb < graph.row(ub).len()
                    &&& pair.0 == ub && pair.1 == graph.row(ub)[tb]
                    &&& forall|u: int, tt: int|
                        0 <= u < graph.n && 0 <= tt < graph.row(u).len() && (u < node1 || (u
                            == node1 && tt < t)) ==> ratio_le(
                            best.num as int,
                            best.den as int,
                            jaccard_num(*graph, u, #[trigger] graph.row(u)[tt] as int) as int,
                            jaccard_den(*graph, u, graph.row(u)[tt] as int) as int,
                        )
                    &&& forall|u: int, tt: int|
                        0 <= u < graph.n && 0 <= tt < graph.row(u).len() && (u < ub || (u == ub
                            && tt < tb)) ==> ratio_lt(
                            best.num as int,
                            best.den as int,
                            jaccard_num(*graph, u, #[trigger] graph.row(u)[tt] as int) as int,
                            jaccard_den(*graph, u, graph.row(u)[tt] as int) as int,
                        )
                },
            decreases row_len - t,
        {
            let node2 = graph.outedges[node1][t];
            let js = jaccard_similarity(graph, node1, node2);
            let ghost oldb = best;
            proof {
                assert(graph.row(node1 as int).contains(node2));
                lemma_adjacent_jaccard_den_pos(*graph, node1 as int, node2);
            }
            if frac_lt(js.num, js.den, best.num, best.den) {
                best = js;
                pair = (node1, node2);
                proof {
                    ub = node1 as int;
                    tb = t as int;
                    assert(graph.row(ub)[tb] == node2);
                    assert(!ratio_le(oldb.num as int, oldb.den as int, js.num as int, js.den as int));
                    assert(js.num < js.den) by (nonlinear_arith)
                        requires
                            oldb.num * js.den > js.num * oldb.den,
                            oldb.num <= oldb.den,
                            oldb.den >= 1 && js.den >= 1,
                            js.num >= 0,
                    {}
                    assert forall|u: int, tt: int|
                        0 <= u < graph.n && 0 <= tt < graph.row(u).len() && (u < ub || (u == ub
                            && tt < tb)) implies ratio_lt(
                        best.num as int,
                        best.den as int,
                        jaccard_num(*graph, u, #[trigger] graph.row(u)[tt] as int) as int,
                        jaccard_den(*graph, u, graph.row(u)[tt] as int) as int,
                    ) by {
                        let pn = jaccard_num(*graph, u, graph.row(u)[tt] as int) as int;
                        let pd = jaccard_den(*graph, u, graph.row(u)[tt] as int) as int;
                        lemma_adjacent_jaccard_den_pos(*graph, u, graph.row(u)[tt]);
                        if oldb.num >= oldb.den {
                            assert(pn == pd);
                            assert(ratio_lt(best.num as int, best.den as int, pn, pd))
                                by (nonlinear_arith)
                                requires
                                    pn == pd && pd >= 1 && best.num < best.den && best.den >= 1,
                            {}
                        } else {
                            assert(ratio_le(oldb.num as int, oldb.den as int, pn, pd));
                            assert(ratio_lt(
                                best.num as int,
                                best.den as int,
                                oldb.num as int,
                                oldb.den as int,
                            ));
                            lemma_ratio_lt_le_trans(
                                best.num as int,
                                best.den as int,
                                oldb.num as int,
                                oldb.den as int,
                                pn,
                                pd,
                            );
                        }
                    }
                    assert forall|u: int, tt: int|
                        0 <= u < graph.n && 0 <= tt < graph.row(u).len() && (u < node1 || (u
                            == node1 && tt <= t)) implies ratio_le(
                        best.num as int,
                        best.den as int,
                        jaccard_num(*graph, u, #[trigger] graph.row(u)[tt] as int) as int,
                        jaccard_den(*graph, u, graph.row(u)[tt] as int) as int,
                    ) by {
                        let pn = jaccard_num(*graph, u, graph.row(u)[tt] as int) as int;
                        let pd = jaccard_den(*graph, u, graph.row(u)[tt] as int) as int;
                        lemma_adjacent_jaccard_den_pos(*graph, u, graph.row(u)[tt]);
                        if u == node1 && tt == t {
                            assert(graph.row(u)[tt] == node2);
                        } else if oldb.num >= oldb.den {
                            assert(pn == pd);
                            assert(ratio_le(best.num as int, best.den as int, pn, pd))
                                by (nonlinear_arith)
                                requires
                                    pn == pd && pd >= 1 && best.num < best.den,
                            {}
                        } else {
                            assert(ratio_le(oldb.num as int, oldb.den as int, pn, pd));
                            assert(ratio_le(
                                best.num as int,
                                best.den as int,
                                oldb.num as int,
                                oldb.den as int,
                            ));
                            lemma_ratio_le_trans(
                                best.num as int,
                                best.den as int,
                                oldb.num as int,
                                oldb.den as int,
                                pn,
                                pd,
                            );
                        }
                    }
                }
            } else {
                proof {
                    assert(ratio_le(best.num as int, best.den as int, js.num as int, js.den as int));
                    if best.num >= best.den {
                        assert(js.den <= js.num);
                        assert(js.num == js.den);
                    }
                    assert(graph.row(node1 as int)[t as int] == node2);
                }
            }
            t = t + 1;
        }
        node1 = node1 + 1;
    }
    proof {
        if best.num < best.den {
            let t = choose|t: int|
                0 <= t < graph.row(pair.0 as int).len() && graph.row(pair.0 as int)[t] == pair.1;
            assert(0 <= pair.0 < graph.n && 0 <= t < graph.row(pair.0 as int).len() && jaccard_num(
                *graph,
                pair.0 as int,
                graph.row(pair.0 as int)[t] as int,
            ) < jaccard_den(*graph, pair.0 as int, graph.row(pair.0 as int)[t] as int));
            assert(0 <= ub < graph.n && 0 <= tb < graph.row(ub).len() && pair.0 == ub && pair.1
                == graph.row(ub)[tb]);
        }
    }
    pair
}

} // verus!
