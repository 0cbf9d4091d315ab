use gtc::{
    compute_graph_distances, warshall_closure, warshall_lightest_path_matrix, DirectedGraph,
    GraphDefinition, Simple, UndirectedGraph, WeightOverflow,
};

type Storage = GraphDefinition<String, (), (), i32>;

fn arcs(list: &[(&str, &str, i32)]) -> Vec<(String, String, i32)> {
    list.iter().map(|(a, b, w)| (a.to_string(), b.to_string(), *w)).collect()
}

#[test]
fn closure_of_the_five_node_example() {
    let graph = DirectedGraph::<Storage, Simple>::from_edges(arcs(&[
        ("v1", "v3", 1),
        ("v2", "v1", 1),
        ("v3", "v5", 1),
        ("v4", "v3", 1),
        ("v5", "v1", 1),
        ("v5", "v4", 1),
    ]))
    .unwrap();
    let result = warshall_closure(&graph);
    assert_eq!(result.nodes, vec!["v1", "v3", "v2", "v5", "v4"]);
    let t = true;
    let f = false;
    assert_eq!(
        result.closure,
        vec![
            vec![t, t, f, t, t],
            vec![t, t, f, t, t],
            vec![t, t, t, t, t],
            vec![t, t, f, t, t],
            vec![t, t, f, t, t],
        ]
    );
}

#[test]
fn closure_is_reflexive_and_transitive() {
    let graph = DirectedGraph::<Storage, Simple>::from_edges(arcs(&[
        ("a", "b", 1),
        ("b", "c", 1),
        ("d", "a", 1),
        ("e", "e2", 1),
    ]))
    .unwrap();
    let c = warshall_closure(&graph).closure;
    let n = c.len();
    for i in 0..n {
        assert!(c[i][i]);
        for j in 0..n {
            for k in 0..n {
                if c[i][j] && c[j][k] {
                    assert!(c[i][k]);
                }
            }
        }
    }
    assert!(c[3][2]);
    assert!(!c[2][3]);
    assert!(!c[0][4]);
}

#[test]
fn lightest_paths_improve_round_by_round() {
    let graph = DirectedGraph::<Storage, Simple>::from_edges(arcs(&[
        ("a", "b", 1),
        ("b", "c", 2),
        ("a", "c", 5),
    ]))
    .unwrap();
    let result = warshall_lightest_path_matrix(&graph).unwrap();
    assert_eq!(result.nodes, vec!["a", "b", "c"]);
    assert_eq!(result.matrices.len(), 4);
    assert_eq!(result.matrices[0].paths[0][2], Some((vec![0, 2], 5)));
    assert_eq!(result.matrices[1].paths[0][2], Some((vec![0, 2], 5)));
    assert_eq!(result.matrices[2].paths[0][2], Some((vec![0, 1, 2], 3)));
    assert_eq!(result.matrices[3].paths[0][2], Some((vec![0, 1, 2], 3)));
    assert_eq!(result.matrices[3].paths[0][1], Some((vec![0, 1], 1)));
    assert_eq!(result.matrices[3].paths[2][0], None);
    assert_eq!(result.matrices[3].paths[0][0], None);
}

#[test]
fn equally_light_path_does_not_replace_the_first() {
    let graph = DirectedGraph::<Storage, Simple>::from_edges(arcs(&[
        ("a", "c", 3),
        ("a", "b", 1),
        ("b", "c", 2),
    ]))
    .unwrap();
    let result = warshall_lightest_path_matrix(&graph).unwrap();
    assert_eq!(result.matrices.last().unwrap().paths[0][1], Some((vec![0, 1], 3)));
}

#[test]
fn sum_out_of_range_is_reported() {
    let graph = DirectedGraph::<Storage, Simple>::from_edges(arcs(&[
        ("a", "b", i32::MAX),
        ("b", "c", 1),
    ]))
    .unwrap();
    assert_eq!(warshall_lightest_path_matrix(&graph).err(), Some(WeightOverflow));
}

#[test]
fn distances_of_a_path_of_three_nodes() {
    let graph = UndirectedGraph::<Storage, Simple>::from_edges(arcs(&[("a", "b", 1), ("b", "c", 1)]))
        .unwrap();
    let matrix = warshall_lightest_path_matrix(&graph).unwrap();
    let distances = compute_graph_distances(&matrix);
    assert_eq!(distances.nodes, vec!["a", "b", "c"]);
    assert_eq!(distances.eccentricities, vec![Some(2), Some(1), Some(2)]);
    assert_eq!(distances.radius, Some(1));
    assert_eq!(distances.diameter, Some(2));
    assert_eq!(distances.center_nodes(), vec![1]);
    assert_eq!(distances.periphery_nodes(), vec![0, 2]);
}

#[test]
fn eccentricity_is_undefined_where_a_node_is_out_of_reach() {
    let graph = DirectedGraph::<Storage, Simple>::from_edges(arcs(&[("a", "b", 4), ("b", "a", 6)]))
        .unwrap();
    let both = compute_graph_distances(&warshall_lightest_path_matrix(&graph).unwrap());
    assert_eq!(both.eccentricities, vec![Some(4), Some(6)]);
    assert_eq!(both.radius, Some(4));
    assert_eq!(both.diameter, Some(6));
    let one_way = DirectedGraph::<Storage, Simple>::from_edges(arcs(&[("a", "b", 4), ("b", "c", 1)]))
        .unwrap();
    let some = compute_graph_distances(&warshall_lightest_path_matrix(&one_way).unwrap());
    assert_eq!(some.eccentricities, vec![Some(5), None, None]);
    assert_eq!(some.radius, Some(5));
    assert_eq!(some.center_nodes(), vec![0]);
    let apart = DirectedGraph::<Storage, Simple>::from_isolated_nodes_and_edges(
        vec!["x".to_string(), "y".to_string()],
        vec![],
    )
    .unwrap();
    let none = compute_graph_distances(&warshall_lightest_path_matrix(&apart).unwrap());
    assert_eq!(none.eccentricities, vec![None, None]);
    assert_eq!(none.radius, None);
    assert_eq!(none.diameter, None);
    assert!(none.center_nodes().is_empty());
    assert!(none.periphery_nodes().is_empty());
}
