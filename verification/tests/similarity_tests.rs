use graph_metrics::graphs::Graph;
use graph_metrics::similarities::{
    clustering_coefficient, full_similarity, greatest_jaccard, jaccard_similarity, least_jaccard,
    no_similarity, Ratio,
};

#[test]
fn test_clustering() {
    let graph = Graph::create_directed(4, &vec![(1, 2), (2, 3), (0, 2), (0, 1), (0, 3)]);
    let clustering_coeff = clustering_coefficient(&graph, 0);
    assert_eq!(
        clustering_coeff.num as f64 / clustering_coeff.den as f64,
        2.0 / 3.0
    );
}

#[test]
fn test_jaccard() {
    let graph = Graph::create_directed(6, &vec![(0, 1), (0, 2), (0, 3), (0, 5), (1, 2), (1, 3), (1, 4)]);
    let jaccard_sim = jaccard_similarity(&graph, 0, 1);
    assert_eq!(jaccard_sim.num as f64 / jaccard_sim.den as f64, 2.0 / 5.0);
}

#[test]
fn clustering_exact_fraction() {
    let graph = Graph::create_directed(4, &vec![(1, 2), (2, 3), (0, 2), (0, 1), (0, 3)]);
    // Out-neighbors of 0 are [1, 2, 3]; the pairs (1,2) and (2,3) are linked.
    assert_eq!(clustering_coefficient(&graph, 0), Ratio { num: 4, den: 6 });
}

#[test]
fn clustering_low_degree_is_zero() {
    let graph = Graph::create_directed(4, &vec![(1, 2), (2, 3), (0, 2), (0, 1), (0, 3)]);
    // Vertices 1 and 2 have one out-neighbor, vertex 3 has none.
    assert_eq!(clustering_coefficient(&graph, 1), Ratio { num: 0, den: 1 });
    assert_eq!(clustering_coefficient(&graph, 2), Ratio { num: 0, den: 1 });
    assert_eq!(clustering_coefficient(&graph, 3), Ratio { num: 0, den: 1 });
}

#[test]
fn clustering_duplicate_edges_count() {
    // The duplicate edge (0, 1) is kept: degree 2, the single pair (1, 1)
    // is not linked, so the coefficient is 0 / 2.
    let graph = Graph::create_directed(2, &vec![(0, 1), (0, 1)]);
    assert_eq!(clustering_coefficient(&graph, 0), Ratio { num: 0, den: 2 });
}

#[test]
fn clustering_full_triangle() {
    let graph = Graph::create_directed(3, &vec![(0, 1), (0, 2), (1, 2)]);
    assert_eq!(clustering_coefficient(&graph, 0), Ratio { num: 2, den: 2 });
}

#[test]
fn jaccard_exact_fraction() {
    let graph = Graph::create_directed(6, &vec![(0, 1), (0, 2), (0, 3), (0, 5), (1, 2), (1, 3), (1, 4)]);
    assert_eq!(jaccard_similarity(&graph, 0, 1), Ratio { num: 2, den: 5 });
}

#[test]
fn jaccard_symmetry_without_duplicates() {
    let graph = Graph::create_directed(6, &vec![(0, 1), (0, 2), (0, 3), (0, 5), (1, 2), (1, 3), (1, 4)]);
    let ab = jaccard_similarity(&graph, 0, 1);
    let ba = jaccard_similarity(&graph, 1, 0);
    assert_eq!(ab, ba);
}

#[test]
fn jaccard_self_is_one() {
    let graph = Graph::create_directed(3, &vec![(0, 1), (0, 2)]);
    let selfsim = jaccard_similarity(&graph, 0, 0);
    assert_eq!(selfsim, Ratio { num: 2, den: 2 });
    assert_eq!(selfsim.num as f64 / selfsim.den as f64, 1.0);
}

#[test]
fn jaccard_asymmetric_with_duplicate_edges() {
    // Duplicate edges count with multiplicity, so the two orders can
    // disagree: out-neighbors are 0 -> [1, 1, 2] and 1 -> [1].
    let graph = Graph::create_directed(3, &vec![(0, 1), (0, 1), (0, 2), (1, 1)]);
    assert_eq!(jaccard_similarity(&graph, 0, 1), Ratio { num: 2, den: 3 });
    assert_eq!(jaccard_similarity(&graph, 1, 0), Ratio { num: 1, den: 2 });
}

#[test]
fn jaccard_both_empty_is_undefined_sentinel() {
    let graph = Graph::create_directed(2, &vec![]);
    assert_eq!(jaccard_similarity(&graph, 0, 1), Ratio { num: 0, den: 0 });
}

#[test]
fn full_similarity_finds_coefficient_one() {
    // Vertex 0's out-neighbors 1 and 2 are linked by the edge (1, 2).
    let graph = Graph::create_directed(3, &vec![(0, 1), (0, 2), (1, 2)]);
    assert_eq!(full_similarity(&graph), vec![0]);
    assert_eq!(no_similarity(&graph), vec![1, 2]);
}

#[test]
fn no_similarity_includes_low_degree() {
    let graph = Graph::create_directed(4, &vec![(1, 2), (2, 3), (0, 2), (0, 1), (0, 3)]);
    // Vertex 0 has coefficient 2/3; all others have out-degree below two.
    assert_eq!(full_similarity(&graph), Vec::<usize>::new());
    assert_eq!(no_similarity(&graph), vec![1, 2, 3]);
}

#[test]
fn full_and_no_similarity_are_disjoint() {
    let graph = Graph::create_directed(6, &vec![(0, 1), (0, 2), (0, 3), (0, 5), (1, 2), (1, 3), (1, 4)]);
    let full = full_similarity(&graph);
    let none = no_similarity(&graph);
    for v in &full {
        assert!(!none.contains(v));
    }
}

#[test]
fn greatest_jaccard_picks_maximum_pair() {
    let graph = Graph::create_directed(6, &vec![(0, 1), (0, 2), (0, 3), (0, 5), (1, 2), (1, 3), (1, 4)]);
    assert_eq!(greatest_jaccard(&graph), (0, 1));
}

#[test]
fn least_jaccard_picks_minimum_pair() {
    let graph = Graph::create_directed(6, &vec![(0, 1), (0, 2), (0, 3), (0, 5), (1, 2), (1, 3), (1, 4)]);
    // (0, 1) scores 2/5 and is beaten by (0, 2) with 0/4; later zero scores
    // do not beat it strictly, so the first zero pair wins.
    assert_eq!(least_jaccard(&graph), (0, 2));
}

#[test]
fn extremal_pairs_are_edges() {
    let graph = Graph::create_directed(6, &vec![(0, 1), (0, 2), (0, 3), (0, 5), (1, 2), (1, 3), (1, 4)]);
    let (g1, g2) = greatest_jaccard(&graph);
    let (l1, l2) = least_jaccard(&graph);
    assert!(graph.enumerate(g1).contains(&g2));
    assert!(graph.enumerate(l1).contains(&l2));
}

#[test]
fn greatest_jaccard_placeholder_when_all_zero() {
    // The only edge-adjacent pair (1, 0) has similarity 0, so the initial
    // placeholder pair is returned unchanged.
    let graph = Graph::create_directed(3, &vec![(1, 0)]);
    assert_eq!(greatest_jaccard(&graph), (0, 1));
    assert_eq!(least_jaccard(&graph), (1, 0));
}

#[test]
fn least_jaccard_placeholder_when_all_one() {
    // The self-loop pair (0, 0) has similarity 1/1, so the minimum scan
    // keeps its placeholder while the maximum scan picks the pair.
    let graph = Graph::create_directed(1, &vec![(0, 0)]);
    assert_eq!(least_jaccard(&graph), (0, 1));
    assert_eq!(greatest_jaccard(&graph), (0, 0));
}

#[test]
fn extremal_scans_on_empty_graph() {
    let graph = Graph::create_directed(4, &vec![]);
    assert_eq!(greatest_jaccard(&graph), (0, 1));
    assert_eq!(least_jaccard(&graph), (0, 1));
}
