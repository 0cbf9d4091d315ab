use gtc::{dijkstra, DijkstraError, DirectedGraph, GraphDefinition, NodeId, PathError, Simple};

type Storage = GraphDefinition<String, (), (), i32>;

fn arcs(list: &[(&str, &str, i32)]) -> Vec<(String, String, i32)> {
    list.iter().map(|(a, b, w)| (a.to_string(), b.to_string(), *w)).collect()
}

fn sample() -> DirectedGraph<Storage, Simple> {
    DirectedGraph::<Storage, Simple>::from_edges(arcs(&[
        ("s", "u", 10),
        ("s", "x", 5),
        ("u", "x", 2),
        ("x", "u", 3),
        ("u", "v", 1),
        ("x", "v", 9),
        ("x", "y", 2),
        ("v", "y", 4),
        ("y", "v", 6),
        ("y", "s", 7),
    ]))
    .unwrap()
}

#[test]
fn lightest_path_from_s_to_v_has_weight_nine() {
    let graph = sample();
    let result = dijkstra(&graph, "s".to_string()).unwrap();
    let (weight, path) = result.lightest_path_to(&"v".to_string()).unwrap();
    assert_eq!(weight, 9);
    assert_eq!(path, vec!["s".to_string(), "x".to_string(), "u".to_string(), "v".to_string()]);
}

#[test]
fn dijkstra_tables_hold_all_distances() {
    let graph = sample();
    let result = dijkstra(&graph, "s".to_string()).unwrap();
    assert_eq!(result.nodes, vec!["s", "u", "x", "v", "y"]);
    assert_eq!(result.tentative_weights, vec![Some(0), Some(8), Some(5), Some(9), Some(7)]);
    assert_eq!(
        result.predecessors,
        vec![None, Some(NodeId(2)), Some(NodeId(0)), Some(NodeId(1)), Some(NodeId(2))]
    );
}

#[test]
fn dijkstra_rejects_unknown_start() {
    let graph = sample();
    assert_eq!(dijkstra(&graph, "q".to_string()).err(), Some(DijkstraError::StartNotFound));
}

#[test]
fn unreachable_node_has_no_path() {
    let graph = DirectedGraph::<Storage, Simple>::from_edges(arcs(&[("a", "b", 1), ("c", "d", 2)]))
        .unwrap();
    let result = dijkstra(&graph, "a".to_string()).unwrap();
    assert_eq!(result.tentative_weights, vec![Some(0), Some(1), None, None]);
    assert_eq!(result.predecessors, vec![None, Some(NodeId(0)), None, None]);
    assert_eq!(result.lightest_path_to(&"d".to_string()), Err(PathError::NoPath));
    assert_eq!(result.lightest_path_to(&"z".to_string()), Err(PathError::TargetNotFound));
    assert_eq!(result.lightest_path_to(&"a".to_string()), Ok((0, vec!["a".to_string()])));
}

#[test]
fn one_heavy_record_is_no_obstacle() {
    let graph = DirectedGraph::<Storage, Simple>::from_edges(arcs(&[
        ("a", "b", 1_000_000_000),
        ("b", "c", 1_000_000_000),
    ]))
    .unwrap();
    let result = dijkstra(&graph, "a".to_string()).unwrap();
    assert_eq!(result.tentative_weights, vec![Some(0), Some(1_000_000_000), Some(2_000_000_000)]);
    let (weight, path) = result.lightest_path_to(&"c".to_string()).unwrap();
    assert_eq!(weight, 2_000_000_000);
    assert_eq!(path, vec!["a".to_string(), "b".to_string(), "c".to_string()]);
}
