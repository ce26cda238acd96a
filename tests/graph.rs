use sage_triples::graph::Graph;
use sage_triples::Triple;

fn sro() -> Vec<(&'static str, &'static str, &'static str)> {
    vec![
        ("simon", "plays", "tennis"),
        ("simon", "lives", "melbourne"),
        ("tennis", "sport", "melbourne"),
        ("melbourne", "located", "australia"),
        ("tennis", "plays", "simon"),
        ("melbourne", "lives", "simon"),
        ("melbourne", "sport", "tennis"),
        ("australia", "located", "melbourne"),
    ]
}

fn triple(s: &str, r: &str, o: &str) -> Triple {
    Triple::new(s.to_string(), r.to_string(), o.to_string())
}

#[test]
fn test_graph() {
    let graph = Graph::from(sro().as_slice());
    assert_eq!(graph.n_nodes(), 4);
    assert_eq!(graph.n_edges(), 8);
    assert_eq!(graph.n_triples(), 8);
    assert!(graph.is_undirected());
}

#[test]
fn test_adj_matrix() {
    let graph = Graph::from(sro().as_slice());
    assert_eq!(
        graph.adj_matrix().to_rows(),
        vec![vec![0, 1, 1, 0], vec![1, 0, 1, 0], vec![1, 1, 0, 1], vec![0, 0, 1, 0]]
    );
}

#[test]
fn test_edge_features() {
    let graph = Graph::from(sro().as_slice());
    let dense_matrix = vec![
        vec![0, 0, 1, 0, 0, 0, 0, 0],
        vec![0, 0, 2, 0, 0, 0, 0, 0],
        vec![1, 2, 0, 3, 0, 0, 0, 0],
        vec![0, 0, 3, 0, 0, 0, 0, 0],
        vec![0, 0, 0, 0, 0, 0, 0, 0],
        vec![0, 0, 0, 0, 0, 0, 0, 0],
        vec![0, 0, 0, 0, 0, 0, 0, 0],
        vec![0, 0, 0, 0, 0, 0, 0, 0],
    ];
    let edge_features = graph.edge_features();
    assert_eq!(edge_features.dense_rows(), dense_matrix);
}

#[test]
fn fixture_nodes_and_edges_in_order() {
    let graph = Graph::from(sro().as_slice());
    assert_eq!(graph.nodes(), &["simon", "tennis", "melbourne", "australia"]);
    assert_eq!(
        graph.edges(),
        &["plays", "lives", "sport", "located", "plays", "lives", "sport", "located"]
    );
    assert_eq!(graph.len(), 8);
    assert!(!graph.is_empty());
    assert!(!graph.is_directed());
}

#[test]
fn duplicate_triples_are_all_counted() {
    let mut graph = Graph::new();
    graph.add_triple(triple("a", "r", "b"));
    graph.add_triple(triple("a", "r", "b"));
    graph.add_triple(triple("a", "r", "b"));
    assert_eq!(graph.n_triples(), 3);
    assert_eq!(graph.n_nodes(), 2);
    assert_eq!(graph.n_edges(), 3);
    assert_eq!(graph.triples().len(), 3);
}

#[test]
fn nodes_are_distinct_subjects_and_objects() {
    let mut graph = Graph::new();
    graph.add_triple(triple("x", "r", "x"));
    graph.add_triple(triple("y", "x", "z"));
    graph.add_triple(triple("z", "r", "y"));
    assert_eq!(graph.n_nodes(), 3);
    assert_eq!(graph.nodes(), &["x", "y", "z"]);
}

#[test]
fn undirected_edges_match_triple_count() {
    let graph = Graph::from(vec![triple("a", "r", "b"), triple("b", "r", "c"), triple("c", "s", "a")]);
    assert_eq!(graph.n_edges(), graph.n_triples());
    assert_eq!(graph.n_edges(), 3);
}

#[test]
fn node_index_is_absent_then_stable() {
    let mut graph = Graph::default();
    assert_eq!(graph.get_node_idx("a"), None);
    graph.add_triple(triple("a", "r", "b"));
    assert_eq!(graph.get_node_idx("a"), Some(0));
    assert_eq!(graph.get_node_idx("b"), Some(1));
    assert_eq!(graph.get_node_idx("r"), None);
    graph.add_triple(triple("c", "r", "a"));
    graph.add_triple(triple("b", "q", "d"));
    assert_eq!(graph.get_node_idx("a"), Some(0));
    assert_eq!(graph.get_node_idx("b"), Some(1));
    assert_eq!(graph.get_node_idx("c"), Some(2));
    assert_eq!(graph.get_node_idx("d"), Some(3));
}

#[test]
fn edge_index_is_first_occurrence() {
    let graph = Graph::from(sro().as_slice());
    assert_eq!(graph.get_edge_idx("plays"), Some(0));
    assert_eq!(graph.get_edge_idx("located"), Some(3));
    assert_eq!(graph.get_edge_idx("simon"), None);
}

#[test]
fn adjacency_records_presence_only() {
    let mut graph = Graph::new();
    graph.add_triple(triple("a", "r", "b"));
    graph.add_triple(triple("a", "s", "b"));
    graph.add_triple(triple("b", "r", "b"));
    assert_eq!(graph.adj_matrix().to_rows(), vec![vec![0, 1], vec![0, 1]]);
}

#[test]
fn empty_graph_has_empty_matrices() {
    let graph = Graph::new();
    assert!(graph.is_empty());
    assert_eq!(graph.len(), 0);
    assert_eq!(graph.adj_matrix().to_rows(), Vec::<Vec<u8>>::new());
    assert_eq!(graph.edge_features().dense_rows(), Vec::<Vec<i32>>::new());
}

#[test]
fn relation_index_zero_reads_as_zero() {
    let mut graph = Graph::new();
    graph.add_triple(triple("a", "r", "b"));
    graph.add_triple(triple("b", "s", "a"));
    assert_eq!(graph.edge_features().dense_rows(), vec![vec![0, 0], vec![1, 0]]);
}

#[test]
fn relation_matrix_keeps_last_writer() {
    let mut graph = Graph::new();
    graph.add_triple(triple("a", "r", "b"));
    graph.add_triple(triple("b", "s", "a"));
    graph.add_triple(triple("a", "t", "b"));
    assert_eq!(
        graph.edge_features().dense_rows(),
        vec![vec![0, 2, 0], vec![1, 0, 0], vec![0, 0, 0]]
    );
}

#[test]
fn graph_renders_one_triple_per_line() {
    let mut graph = Graph::new();
    graph.add_triple(triple("simon", "plays", "tennis"));
    graph.add_triple(triple("tennis", "sport", "melbourne"));
    assert_eq!(
        graph.render(),
        "(simon -- plays -- tennis)\n(tennis -- sport -- melbourne)\n"
    );
}

#[test]
fn labels_and_triples_build_the_same_graph() {
    let a = Graph::from_labels(sro().as_slice());
    let b = Graph::from_triples(sro().iter().map(|t| triple(t.0, t.1, t.2)).collect());
    assert_eq!(a.nodes(), b.nodes());
    assert_eq!(a.edges(), b.edges());
    assert_eq!(a.triples(), b.triples());
}

#[test]
fn relation_zero_is_stored() {
    let mut graph = Graph::new();
    graph.add_triple(triple("x", "y", "x"));
    let m = graph.edge_features();
    assert_eq!(m.stored(0, 0), Some(0));
}

#[test]
fn written_cells_are_stored_and_others_absent() {
    let graph = Graph::from(sro().as_slice());
    let m = graph.edge_features();
    assert_eq!(m.stored(0, 1), Some(0));
    assert_eq!(m.stored(0, 2), Some(1));
    assert_eq!(m.stored(2, 3), Some(3));
    assert_eq!(m.stored(0, 0), None);
    assert_eq!(m.stored(7, 7), None);
}

#[test]
fn equal_graphs_compare_equal() {
    let a = Graph::from(sro().as_slice());
    let b = Graph::from(sro().as_slice());
    assert!(a == b);
    assert!(a != Graph::new());
}
