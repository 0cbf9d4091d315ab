use gtc::{
    hierholzer_undirected, GraphBase, GraphDefinition, HierholzerError, MutableStorage, NodeId,
    Pseudo, Simple, UndirectedGraph,
};

type Storage = GraphDefinition<String, (), (), ()>;

fn edges(list: &[(&str, &str)]) -> Vec<(String, String, ())> {
    list.iter().map(|(a, b)| (a.to_string(), b.to_string(), ())).collect()
}

fn is_circuit<GK: gtc::GraphKindMarker>(graph: &UndirectedGraph<Storage, GK>, path: &[String]) {
    let edges = graph.size() / 2;
    assert_eq!(path.len(), edges + 1);
    assert_eq!(path.first(), path.last());
    let mut used = vec![false; edges];
    for pair in path.windows(2) {
        let a = graph.node_id(&pair[0]).unwrap();
        let b = graph.node_id(&pair[1]).unwrap();
        let found = (0..edges).find(|&e| {
            let (f, t) = graph.endpoints(gtc::EdgeId(2 * e));
            !used[e] && ((f, t) == (a, b) || (f, t) == (b, a))
        });
        used[found.expect("every step runs over an edge that is still free")] = true;
    }
    assert!(used.iter().all(|u| *u));
}

#[test]
fn triangle_has_a_circuit_over_every_edge() {
    let graph =
        UndirectedGraph::<Storage, Simple>::from_edges(edges(&[("a", "b"), ("b", "c"), ("c", "a")]))
            .unwrap();
    let result = hierholzer_undirected(&graph).unwrap();
    is_circuit(&graph, &result.path);
    assert_eq!(result.path.len(), 4);
    assert_eq!(result.path[0], "a");
}

#[test]
fn two_triangles_at_one_node_have_a_circuit_of_seven_keys() {
    let graph = UndirectedGraph::<Storage, Simple>::from_edges(edges(&[
        ("a", "b"),
        ("b", "c"),
        ("c", "a"),
        ("a", "x"),
        ("x", "y"),
        ("y", "a"),
    ]))
    .unwrap();
    let result = hierholzer_undirected(&graph).unwrap();
    is_circuit(&graph, &result.path);
    assert_eq!(result.path.len(), 7);
}

#[test]
fn two_separate_triangles_are_disconnected() {
    let graph = UndirectedGraph::<Storage, Simple>::from_edges(edges(&[
        ("a", "b"),
        ("b", "c"),
        ("c", "a"),
        ("x", "y"),
        ("y", "z"),
        ("z", "x"),
    ]))
    .unwrap();
    assert_eq!(hierholzer_undirected(&graph).err(), Some(HierholzerError::Disconnected));
}

#[test]
fn one_edge_makes_two_odd_nodes() {
    let graph = UndirectedGraph::<Storage, Simple>::from_edges(edges(&[("a", "b")])).unwrap();
    assert_eq!(
        hierholzer_undirected(&graph).err(),
        Some(HierholzerError::OddDegree { node: NodeId(0), degree: 1 })
    );
    assert_eq!(
        hierholzer_undirected(&graph).err(),
        Some(HierholzerError::OddDegree { node: NodeId(0), degree: 1 })
    );
}

#[test]
fn path_of_two_edges_has_an_odd_end() {
    let graph =
        UndirectedGraph::<Storage, Simple>::from_edges(edges(&[("a", "b"), ("b", "c")])).unwrap();
    assert_eq!(
        hierholzer_undirected(&graph).err(),
        Some(HierholzerError::OddDegree { node: NodeId(0), degree: 1 })
    );
}

#[test]
fn graph_without_edges_gives_its_first_node() {
    let mut storage = Storage::new();
    storage.add_node("only".to_string(), ());
    storage.add_node("other".to_string(), ());
    let graph = UndirectedGraph::<Storage, Simple>::new(storage);
    assert_eq!(hierholzer_undirected(&graph).unwrap().path, vec!["only".to_string()]);
    let empty = UndirectedGraph::<Storage, Simple>::new(Storage::new());
    assert!(hierholzer_undirected(&empty).unwrap().path.is_empty());
}

#[test]
fn self_loop_counts_twice_at_its_node() {
    let graph =
        UndirectedGraph::<Storage, Pseudo>::from_edges(edges(&[("a", "a"), ("a", "b"), ("a", "b")]))
            .unwrap();
    let result = hierholzer_undirected(&graph).unwrap();
    is_circuit(&graph, &result.path);
    assert_eq!(result.path.len(), 4);
    let odd = UndirectedGraph::<Storage, Pseudo>::from_edges(edges(&[("a", "a"), ("a", "b")])).unwrap();
    assert_eq!(
        hierholzer_undirected(&odd).err(),
        Some(HierholzerError::OddDegree { node: NodeId(0), degree: 3 })
    );
}

#[test]
fn square_with_even_degrees_has_a_circuit_of_five_keys() {
    let graph = UndirectedGraph::<Storage, Simple>::from_edges(edges(&[
        ("a", "b"),
        ("b", "c"),
        ("c", "d"),
        ("d", "a"),
    ]))
    .unwrap();
    let result = hierholzer_undirected(&graph).unwrap();
    is_circuit(&graph, &result.path);
    assert_eq!(result.path.len(), 5);
}
