use gtc::{
    kruskal_mst, DirectedGraph, GraphDefinition, Simple, UndirectedGraph, UnionFind, WeightOverflow,
};

type Storage = GraphDefinition<String, (), (), i32>;

fn edges(list: &[(&str, &str, i32)]) -> Vec<(String, String, i32)> {
    list.iter().map(|(a, b, w)| (a.to_string(), b.to_string(), *w)).collect()
}

fn named(list: &[(&str, &str, i32)]) -> Vec<(String, String, i32)> {
    edges(list)
}

#[test]
fn spanning_tree_of_the_twelve_node_example_weighs_40() {
    let graph = UndirectedGraph::<Storage, Simple>::from_edges(edges(&[
        ("a", "b", 7),
        ("a", "c", 1),
        ("a", "d", 4),
        ("b", "e", 6),
        ("b", "f", 5),
        ("c", "d", 1),
        ("c", "g", 3),
        ("d", "h", 2),
        ("e", "f", 6),
        ("e", "h", 5),
        ("e", "i", 3),
        ("f", "i", 4),
        ("f", "l", 7),
        ("g", "h", 5),
        ("g", "j", 3),
        ("h", "j", 4),
        ("i", "k", 7),
        ("j", "k", 8),
        ("k", "l", 6),
    ]))
    .unwrap();
    let result = kruskal_mst(&graph).unwrap();
    assert_eq!(result.total_weight, 40);
    assert_eq!(
        result.edges,
        named(&[
            ("a", "c", 1),
            ("c", "d", 1),
            ("d", "h", 2),
            ("c", "g", 3),
            ("e", "i", 3),
            ("g", "j", 3),
            ("f", "i", 4),
            ("b", "f", 5),
            ("e", "h", 5),
            ("k", "l", 6),
            ("f", "l", 7),
        ])
    );
}

#[test]
fn forest_of_two_components_and_unweighted_records() {
    let mut graph = DirectedGraph::<Storage, Simple>::from_edges(edges(&[
        ("a", "b", 2),
        ("b", "c", 2),
        ("c", "a", 1),
        ("x", "y", 9),
    ]))
    .unwrap();
    graph.storage.add_edge_by_key("y".to_string(), "z".to_string(), (), (), (), None);
    let result = kruskal_mst(&graph).unwrap();
    assert_eq!(result.edges, named(&[("c", "a", 1), ("a", "b", 2), ("x", "y", 9)]));
    assert_eq!(result.total_weight, 12);
}

#[test]
fn graph_without_weights_has_the_empty_forest() {
    let graph = DirectedGraph::<Storage, Simple>::from_isolated_nodes_and_edges(
        vec!["a".to_string()],
        vec![],
    )
    .unwrap();
    let result = kruskal_mst(&graph).unwrap();
    assert!(result.edges.is_empty());
    assert_eq!(result.total_weight, 0);
}

#[test]
fn total_out_of_range_is_reported() {
    let graph = DirectedGraph::<Storage, Simple>::from_edges(edges(&[
        ("a", "b", i32::MAX),
        ("b", "c", 1),
    ]))
    .unwrap();
    assert_eq!(kruskal_mst(&graph).err(), Some(WeightOverflow));
}

#[test]
fn negative_weights_come_first() {
    let graph = DirectedGraph::<GraphDefinition<String, (), (), i64>, Simple>::from_edges(vec![
        ("a".to_string(), "b".to_string(), 5i64),
        ("b".to_string(), "c".to_string(), -3i64),
        ("a".to_string(), "c".to_string(), 4i64),
    ])
    .unwrap();
    let result = kruskal_mst(&graph).unwrap();
    assert_eq!(result.total_weight, 1);
    assert_eq!(result.edges[0].2, -3);
}

#[test]
fn union_find_joins_sets() {
    let mut uf = UnionFind::new(5);
    assert!(uf.union(0, 1));
    assert!(uf.union(3, 4));
    assert!(!uf.union(1, 0));
    assert_eq!(uf.find(0), uf.find(1));
    assert_ne!(uf.find(1), uf.find(3));
    assert!(uf.union(1, 4));
    assert_eq!(uf.find(0), uf.find(3));
    assert_eq!(uf.find(2), 2);
}
