use graph_metrics::graphs::Graph;
use graph_metrics::traversal::bfs;

#[test]
fn create_directed_sorts_each_list() {
    let graph = Graph::create_directed(4, &vec![(0, 3), (0, 1), (0, 2)]);
    assert_eq!(graph.n, 4);
    assert_eq!(graph.enumerate(0), &vec![1, 2, 3]);
    assert_eq!(graph.enumerate(1), &Vec::<usize>::new());
}

#[test]
fn create_directed_keeps_duplicates_and_self_loops() {
    let graph = Graph::create_directed(3, &vec![(0, 2), (0, 1), (0, 2), (1, 1)]);
    assert_eq!(graph.enumerate(0), &vec![1, 2, 2]);
    assert_eq!(graph.enumerate(1), &vec![1]);
}

#[test]
fn create_directed_adds_no_reverse_edges() {
    let graph = Graph::create_directed(2, &vec![(0, 1)]);
    assert_eq!(graph.enumerate(0), &vec![1]);
    assert_eq!(graph.enumerate(1), &Vec::<usize>::new());
}

#[test]
fn add_and_sort_build_the_same_graph() {
    let mut graph = Graph {
        n: 3,
        outedges: vec![Vec::new(), Vec::new(), Vec::new()],
    };
    graph.add_directed_edges(&vec![(0, 2), (0, 1), (1, 0)]);
    assert_eq!(graph.enumerate(0), &vec![2, 1]);
    graph.sort_graph_lists();
    assert_eq!(graph.enumerate(0), &vec![1, 2]);
    assert_eq!(graph.enumerate(1), &vec![0]);
    assert_eq!(graph.enumerate(2), &Vec::<usize>::new());
}

#[test]
fn bfs_on_a_path() {
    let graph = Graph::create_directed(4, &vec![(0, 1), (1, 2), (2, 3)]);
    assert_eq!(bfs(&graph, 0), (3, 3));
    assert_eq!(bfs(&graph, 1), (3, 2));
    assert_eq!(bfs(&graph, 3), (3, 0));
}

#[test]
fn bfs_breaks_ties_by_discovery_order() {
    // Vertices 1 and 2 both sit one hop from 0; vertex 1 is discovered
    // first (ascending adjacency order) and keeps the title.
    let graph = Graph::create_directed(3, &vec![(0, 2), (0, 1)]);
    assert_eq!(bfs(&graph, 0), (1, 1));
}

#[test]
fn bfs_ignores_unreachable_vertices() {
    let graph = Graph::create_directed(5, &vec![(0, 1), (3, 4)]);
    assert_eq!(bfs(&graph, 0), (1, 1));
    assert_eq!(bfs(&graph, 3), (4, 1));
}

#[test]
fn bfs_on_a_diamond_takes_shortest_paths() {
    // Two routes lead from 0 to 3; the shortest has two hops.
    let graph = Graph::create_directed(4, &vec![(0, 1), (0, 2), (1, 3), (2, 3), (0, 3)]);
    // The direct edge (0, 3) makes every vertex one hop away.
    assert_eq!(bfs(&graph, 0), (1, 1));
    let no_shortcut = Graph::create_directed(4, &vec![(0, 1), (0, 2), (1, 3), (2, 3)]);
    assert_eq!(bfs(&no_shortcut, 0), (3, 2));
}

#[test]
fn bfs_follows_edge_direction_only() {
    let graph = Graph::create_directed(3, &vec![(1, 0), (1, 2)]);
    // From 0 nothing is reachable: edges are not traversed backwards.
    assert_eq!(bfs(&graph, 0), (0, 0));
    assert_eq!(bfs(&graph, 1), (0, 1));
}

#[test]
fn bfs_handles_cycles() {
    let graph = Graph::create_directed(3, &vec![(0, 1), (1, 2), (2, 0)]);
    assert_eq!(bfs(&graph, 0), (2, 2));
}
