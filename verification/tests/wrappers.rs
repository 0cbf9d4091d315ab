use gtc::{
    DirectedGraph, EdgeId, EdgeRejection, GraphBase, GraphDefinition, Multi, NodeId, Pseudo, Simple,
    UndirectedGraph,
};

type Storage = GraphDefinition<String, (), (), i32>;
type Plain = GraphDefinition<String, (), (), ()>;

fn nodes<S: gtc::MutableStorage<Key = String, Data = ()>>(storage: &mut S, n: usize) {
    for i in 0..n {
        storage.add_node(format!("n{}", i), ());
    }
}

#[test]
fn simple_directed_graph_refuses_loops_and_parallel_arcs() {
    let mut storage = Storage::new();
    nodes(&mut storage, 3);
    let mut graph = DirectedGraph::<Storage, Simple>::new(storage);
    assert_eq!(graph.add_arc_checked(NodeId(0), NodeId(1), (), Some(5)), Ok(EdgeId(0)));
    assert_eq!(graph.add_arc_checked(NodeId(1), NodeId(0), (), Some(5)), Ok(EdgeId(1)));
    assert_eq!(
        graph.add_arc_checked(NodeId(0), NodeId(1), (), Some(6)),
        Err(EdgeRejection::ParallelEdge)
    );
    assert_eq!(graph.add_arc_checked(NodeId(2), NodeId(2), (), None), Err(EdgeRejection::SelfLoop));
    assert_eq!(graph.add_arc_with_weight(NodeId(1), NodeId(2), (), 9), Ok(EdgeId(2)));
    assert_eq!(graph.size(), 3);
}

#[test]
fn multi_directed_graph_admits_parallel_arcs_only() {
    let mut storage = Storage::new();
    nodes(&mut storage, 2);
    let mut graph = DirectedGraph::<Storage, Multi>::new(storage);
    assert_eq!(graph.add_arc_checked(NodeId(0), NodeId(1), (), Some(1)), Ok(EdgeId(0)));
    assert_eq!(graph.add_arc_checked(NodeId(0), NodeId(1), (), Some(2)), Ok(EdgeId(1)));
    assert_eq!(graph.add_arc_checked(NodeId(1), NodeId(1), (), Some(2)), Err(EdgeRejection::SelfLoop));
}

#[test]
fn pseudo_directed_graph_admits_everything() {
    let mut storage = Plain::new();
    nodes(&mut storage, 2);
    let mut graph = DirectedGraph::<Plain, Pseudo>::new(storage);
    assert_eq!(graph.add_arc(NodeId(0), NodeId(0), ()), Ok(EdgeId(0)));
    assert_eq!(graph.add_arc(NodeId(0), NodeId(1), ()), Ok(EdgeId(1)));
    assert_eq!(graph.add_arc(NodeId(0), NodeId(1), ()), Ok(EdgeId(2)));
}

#[test]
fn undirected_edge_is_two_mirrored_records() {
    let mut storage = Storage::new();
    nodes(&mut storage, 3);
    let mut graph = UndirectedGraph::<Storage, Simple>::new(storage);
    assert_eq!(graph.add_edge_checked(NodeId(0), NodeId(1), (), Some(4)), Ok((EdgeId(0), EdgeId(1))));
    assert_eq!(graph.endpoints(EdgeId(0)), (NodeId(0), NodeId(1)));
    assert_eq!(graph.endpoints(EdgeId(1)), (NodeId(1), NodeId(0)));
    assert_eq!(
        graph.add_edge_checked(NodeId(1), NodeId(0), (), Some(4)),
        Err(EdgeRejection::ParallelEdge)
    );
    assert_eq!(graph.size(), 2);
    assert_eq!(graph.add_edge_with_weight(NodeId(2), NodeId(2), (), 1), Err(EdgeRejection::SelfLoop));
    assert_eq!(graph.successors(NodeId(1)), vec![NodeId(0), NodeId(0)]);
    assert_eq!(graph.predecessors(NodeId(1)), vec![NodeId(0), NodeId(0)]);
    assert_eq!(graph.neighborhood(NodeId(0)), vec![NodeId(1), NodeId(1)]);
    assert!(graph.neighborhood(NodeId(2)).is_empty());
}

#[test]
fn undirected_kinds_differ_as_the_directed_ones() {
    let mut storage = Plain::new();
    nodes(&mut storage, 2);
    let mut multi = UndirectedGraph::<Plain, Multi>::new(storage);
    assert_eq!(multi.add_edge(NodeId(0), NodeId(1), ()), Ok((EdgeId(0), EdgeId(1))));
    assert_eq!(multi.add_edge(NodeId(0), NodeId(1), ()), Ok((EdgeId(2), EdgeId(3))));
    assert_eq!(multi.add_edge(NodeId(0), NodeId(0), ()), Err(EdgeRejection::SelfLoop));
    let mut storage = Plain::new();
    nodes(&mut storage, 1);
    let mut pseudo = UndirectedGraph::<Plain, Pseudo>::new(storage);
    assert_eq!(pseudo.add_edge(NodeId(0), NodeId(0), ()), Ok((EdgeId(0), EdgeId(1))));
}

#[test]
fn arcs_by_key_intern_their_ends() {
    let mut graph = DirectedGraph::<Storage, Simple>::new(Storage::new());
    assert_eq!(
        graph.add_arc_by_key_checked("a".to_string(), "b".to_string(), (), (), (), Some(1)),
        Ok(EdgeId(0))
    );
    assert_eq!(
        graph.add_arc_by_key_checked("c".to_string(), "c".to_string(), (), (), (), Some(1)),
        Err(EdgeRejection::SelfLoop)
    );
    assert_eq!(graph.order(), 3);
    assert_eq!(graph.size(), 1);
    let mut other = UndirectedGraph::<Storage, Simple>::new(Storage::new());
    assert_eq!(
        other.add_edge_by_key_checked("a".to_string(), "b".to_string(), (), (), (), Some(1)),
        Ok((EdgeId(0), EdgeId(1)))
    );
    assert_eq!(
        other.add_edge_by_key_checked("b".to_string(), "a".to_string(), (), (), (), Some(1)),
        Err(EdgeRejection::ParallelEdge)
    );
}

#[test]
fn builders_report_the_first_refusal() {
    let ok = DirectedGraph::<Storage, Simple>::from_isolated_nodes_and_edges(
        vec!["z".to_string()],
        vec![("a".to_string(), "b".to_string(), 1), ("b".to_string(), "a".to_string(), 2)],
    )
    .unwrap();
    assert_eq!(ok.order(), 3);
    assert_eq!(ok.node_key(NodeId(0)), "z");
    assert_eq!(ok.size(), 2);
    let refused = DirectedGraph::<Storage, Simple>::from_edges(vec![
        ("a".to_string(), "b".to_string(), 1),
        ("a".to_string(), "b".to_string(), 2),
        ("c".to_string(), "c".to_string(), 3),
    ]);
    assert_eq!(refused.err(), Some(EdgeRejection::ParallelEdge));
    let undirected = UndirectedGraph::<Storage, Simple>::from_edges(vec![
        ("a".to_string(), "b".to_string(), 1),
        ("b".to_string(), "c".to_string(), 2),
    ])
    .unwrap();
    assert_eq!(undirected.size(), 4);
    let looped = UndirectedGraph::<Storage, Multi>::from_isolated_nodes_and_edges(
        vec![],
        vec![("a".to_string(), "a".to_string(), 1)],
    );
    assert_eq!(looped.err(), Some(EdgeRejection::SelfLoop));
}
