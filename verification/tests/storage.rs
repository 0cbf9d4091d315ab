use gtc::{
    UndirectedGraph, AdjacencyList, AdjacencyListIn, AdjacencyMatrix, DirectedGraph, EdgeId, EdgeRecord, EdgeWeights,
    GraphBase, GraphDefinition, MutableStorage, NodeId, NodeInterner, Simple, StorageConvert,
    StorageRepresentation,
};

fn sorted(mut nodes: Vec<NodeId>) -> Vec<usize> {
    let mut ids: Vec<usize> = nodes.drain(..).map(|n| n.0).collect();
    ids.sort();
    ids.dedup();
    ids
}

fn fill<S>(storage: &mut S)
where
    S: MutableStorage<Key = String, Data = (), EdgeMeta = (), Weight = i32>,
{
    for key in ["a", "b", "c", "d"] {
        storage.add_node(key.to_string(), ());
    }
    storage.add_edge_by_id(NodeId(0), NodeId(1), (), Some(4));
    storage.add_edge_by_id(NodeId(0), NodeId(2), (), Some(1));
    storage.add_edge_by_id(NodeId(2), NodeId(1), (), None);
    storage.add_edge_by_id(NodeId(0), NodeId(1), (), Some(7));
    storage.add_edge_by_id(NodeId(3), NodeId(3), (), Some(2));
}

fn check_reads<S>(storage: &S, all_parallel: bool)
where
    S: GraphBase<Key = String, Data = (), EdgeMeta = (), Weight = i32> + EdgeWeights,
{
    assert_eq!(storage.order(), 4);
    assert_eq!(storage.size(), 5);
    assert_eq!(storage.node_id(&"c".to_string()), Some(NodeId(2)));
    assert_eq!(storage.node_id(&"z".to_string()), None);
    assert_eq!(storage.node_key(NodeId(3)), "d");
    assert_eq!(storage.node_ids(), vec![NodeId(0), NodeId(1), NodeId(2), NodeId(3)]);
    assert_eq!(storage.edge_ids().len(), 5);
    assert_eq!(storage.endpoints(EdgeId(2)), (NodeId(2), NodeId(1)));
    assert_eq!(storage.weight_of(EdgeId(1)), Some(1));
    assert_eq!(storage.weight_of(EdgeId(2)), None);
    assert_eq!(storage.weight_of(EdgeId(9)), None);
    if all_parallel {
        assert_eq!(storage.edges_between(NodeId(0), NodeId(1)), vec![EdgeId(0), EdgeId(3)]);
    } else {
        assert_eq!(storage.edges_between(NodeId(0), NodeId(1)), vec![EdgeId(3)]);
    }
    assert_eq!(storage.edges_between(NodeId(1), NodeId(0)), Vec::<EdgeId>::new());
    assert_eq!(storage.edges_between(NodeId(3), NodeId(3)), vec![EdgeId(4)]);
    assert_eq!(sorted(storage.successors(NodeId(0))), vec![1, 2]);
    assert_eq!(sorted(storage.predecessors(NodeId(1))), vec![0, 2]);
    assert_eq!(sorted(storage.neighborhood(NodeId(2))), vec![0, 1]);
    assert_eq!(sorted(storage.neighborhood(NodeId(3))), vec![3]);
    assert_eq!(sorted(storage.successors(NodeId(1))), Vec::<usize>::new());
    assert_eq!(sorted(storage.successors(NodeId(17))), Vec::<usize>::new());
}

#[test]
fn graph_definition_answers_every_query() {
    let mut storage = GraphDefinition::<String, (), (), i32>::new();
    fill(&mut storage);
    check_reads(&storage, true);
}

#[test]
fn adjacency_list_answers_every_query() {
    let mut storage = AdjacencyList::<String, (), (), i32>::new();
    fill(&mut storage);
    check_reads(&storage, true);
    assert_eq!(storage.out_adj[0], vec![EdgeId(0), EdgeId(1), EdgeId(3)]);
}

#[test]
fn adjacency_list_in_answers_every_query() {
    let mut storage = AdjacencyListIn::<String, (), (), i32>::new();
    fill(&mut storage);
    check_reads(&storage, true);
    assert_eq!(storage.in_adj[1], vec![EdgeId(0), EdgeId(2), EdgeId(3)]);
}

#[test]
fn adjacency_matrix_answers_every_query() {
    let mut storage = AdjacencyMatrix::<String, (), (), i32>::new(0);
    fill(&mut storage);
    check_reads(&storage, false);
    assert_eq!(storage.n, 4);
    assert_eq!(storage.get_edge_id(NodeId(0), NodeId(1)), Some(EdgeId(3)));
    assert_eq!(storage.get_edge_id(NodeId(1), NodeId(0)), None);
    assert_eq!(storage.row(NodeId(0)), vec![None, Some(EdgeId(3)), Some(EdgeId(1)), None]);
}

#[test]
fn matrix_keeps_its_cells_when_it_grows() {
    let mut storage = AdjacencyMatrix::<String, (), (), i32>::new(1);
    storage.add_edge_by_key("a".to_string(), "b".to_string(), (), (), (), Some(1));
    storage.add_edge_by_key("b".to_string(), "c".to_string(), (), (), (), Some(2));
    storage.add_edge_by_key("c".to_string(), "a".to_string(), (), (), (), Some(3));
    assert_eq!(storage.n, 3);
    assert_eq!(storage.get_edge_id(NodeId(0), NodeId(1)), Some(EdgeId(0)));
    assert_eq!(storage.get_edge_id(NodeId(1), NodeId(2)), Some(EdgeId(1)));
    assert_eq!(storage.get_edge_id(NodeId(2), NodeId(0)), Some(EdgeId(2)));
    assert_eq!(storage.get_edge_id(NodeId(0), NodeId(2)), None);
}

#[test]
fn matrix_capacity_is_a_hint() {
    let storage = AdjacencyMatrix::<String, (), (), i32>::new(3);
    assert_eq!(storage.n, 3);
    assert_eq!(storage.order(), 0);
    let too_wide = AdjacencyMatrix::<String, (), (), i32>::with_node_capacity(1 << 20);
    assert_eq!(too_wide.n, 0);
}

#[test]
fn interner_collapses_duplicate_keys() {
    let mut interner = NodeInterner::<String, i32>::new();
    assert_eq!(interner.intern("x".to_string(), 1), NodeId(0));
    assert_eq!(interner.intern("y".to_string(), 2), NodeId(1));
    assert_eq!(interner.intern("x".to_string(), 3), NodeId(0));
    assert_eq!(interner.len(), 2);
    assert_eq!(interner.get(NodeId(0)).data, 1);
    assert_eq!(interner.get_id(&"y".to_string()), Some(NodeId(1)));
    assert_eq!(interner.get_id(&"z".to_string()), None);
    interner.get_mut(NodeId(1)).data = 9;
    let listed: Vec<(NodeId, i32)> = interner.iter().iter().map(|(id, r)| (*id, r.data)).collect();
    assert_eq!(listed, vec![(NodeId(0), 1), (NodeId(1), 9)]);
    let copy = interner.duplicate();
    let records = interner.into_parts();
    assert_eq!(records.len(), 2);
    assert_eq!(copy.get(NodeId(1)).key, "y");
}

#[test]
fn clear_edges_keeps_the_nodes() {
    let mut list = AdjacencyListIn::<String, (), (), i32>::new();
    fill(&mut list);
    list.clear_edges();
    assert_eq!(list.order(), 4);
    assert_eq!(list.size(), 0);
    assert!(list.successors(NodeId(0)).is_empty());
    let mut matrix = AdjacencyMatrix::<String, (), (), i32>::new(0);
    fill(&mut matrix);
    matrix.clear_edges();
    assert_eq!(matrix.get_edge_id(NodeId(0), NodeId(1)), None);
    assert_eq!(matrix.order(), 4);
}

#[test]
fn conversion_round_trip_keeps_nodes_and_records() {
    let mut def = GraphDefinition::<String, (), (), i32>::new();
    fill(&mut def);
    let list: AdjacencyList<String, (), (), i32> = def.convert();
    let both: AdjacencyListIn<String, (), (), i32> = list.convert();
    let matrix: AdjacencyMatrix<String, (), (), i32> = both.convert();
    let back: GraphDefinition<String, (), (), i32> = matrix.convert();
    assert_eq!(back.order(), 4);
    assert_eq!(back.size(), 5);
    for (i, key) in ["a", "b", "c", "d"].iter().enumerate() {
        assert_eq!(back.node_key(NodeId(i)), key);
    }
    for e in 0..5 {
        assert_eq!(back.endpoints(EdgeId(e)), def.endpoints(EdgeId(e)));
        assert_eq!(back.weight_of(EdgeId(e)), def.weight_of(EdgeId(e)));
    }
    let via_def = AdjacencyList::from_graphdef(list.to_graph_def());
    assert_eq!(via_def.out_adj, list.out_adj);
    let via_in = AdjacencyListIn::from_graphdef(both.to_graph_def());
    assert_eq!(via_in.in_adj, both.in_adj);
    let via_matrix = AdjacencyMatrix::from_graphdef(matrix.to_graph_def());
    assert_eq!(via_matrix.data, matrix.data);
}

#[test]
fn directed_graph_converts_its_storage() {
    let graph = DirectedGraph::<GraphDefinition<String, (), (), i32>, Simple>::from_edges(vec![
        ("a".to_string(), "b".to_string(), 3),
        ("b".to_string(), "c".to_string(), 4),
    ])
    .unwrap();
    let as_matrix: AdjacencyMatrix<String, (), (), i32> = graph.convert_storage();
    assert_eq!(as_matrix.get_edge_id(NodeId(1), NodeId(2)), Some(EdgeId(1)));
    let other = DirectedGraph::<AdjacencyList<String, (), (), i32>, Simple>::converted_storage(&graph);
    assert_eq!(other.size(), 2);
    let moved: DirectedGraph<AdjacencyListIn<String, (), (), i32>, Simple> = graph.into_storage();
    assert_eq!(sorted(moved.predecessors(NodeId(2))), vec![1]);
    let record = EdgeRecord::new(NodeId(0), NodeId(1), (), Some(3));
    assert_eq!(record.weight, moved.storage.edges[0].weight);
}

#[test]
fn undirected_graph_turns_into_a_directed_one() {
    let graph = UndirectedGraph::<GraphDefinition<String, (), (), i32>, Simple>::from_edges(vec![(
        "a".to_string(),
        "b".to_string(),
        3,
    )])
    .unwrap();
    let directed: DirectedGraph<AdjacencyList<String, (), (), i32>, Simple> = graph.into_directed();
    assert_eq!(directed.size(), 2);
    assert_eq!(sorted(directed.successors(NodeId(0))), vec![1]);
    assert_eq!(sorted(directed.successors(NodeId(1))), vec![0]);
    let graph = UndirectedGraph::<GraphDefinition<String, (), (), i32>, Simple>::from_edges(vec![(
        "a".to_string(),
        "b".to_string(),
        3,
    )])
    .unwrap();
    let moved: UndirectedGraph<AdjacencyMatrix<String, (), (), i32>, Simple> = graph.into_storage();
    assert_eq!(sorted(moved.successors(NodeId(1))), vec![0]);
}

#[test]
fn adjacency_lists_from_node_and_record_lists() {
    let nodes = vec![("x".to_string(), 10), ("y".to_string(), 20), ("x".to_string(), 30)];
    let edges = vec![
        ("y".to_string(), "z".to_string(), 'a', Some(1)),
        ("z".to_string(), "x".to_string(), 'b', None),
    ];
    let list = AdjacencyList::<String, i32, char, i32>::from_edge_list(nodes.clone(), edges.clone(), 0);
    assert_eq!(list.order(), 3);
    assert_eq!(*list.node_data(NodeId(0)), 10);
    assert_eq!(*list.node_data(NodeId(2)), 0);
    assert_eq!(list.endpoints(EdgeId(0)), (NodeId(1), NodeId(2)));
    assert_eq!(list.endpoints(EdgeId(1)), (NodeId(2), NodeId(0)));
    assert_eq!(*list.edge_meta(EdgeId(1)), 'b');
    assert_eq!(list.out_adj, vec![vec![], vec![EdgeId(0)], vec![EdgeId(1)]]);
    let both = AdjacencyListIn::<String, i32, char, i32>::from_edge_list(nodes, edges, 0);
    assert_eq!(both.in_adj, vec![vec![EdgeId(1)], vec![], vec![EdgeId(0)]]);
    assert_eq!(both.weight_of(EdgeId(0)), Some(1));
}

fn ids(nodes: Vec<NodeId>) -> Vec<usize> {
    nodes.into_iter().map(|n| n.0).collect()
}

#[test]
fn lists_give_one_far_end_for_each_record_in_record_order() {
    let mut def = GraphDefinition::<String, (), (), i32>::new();
    fill(&mut def);
    assert_eq!(ids(def.successors(NodeId(0))), vec![1, 2, 1]);
    assert_eq!(ids(def.predecessors(NodeId(1))), vec![0, 2, 0]);
    assert_eq!(ids(def.neighborhood(NodeId(1))), vec![0, 2, 0]);
    assert_eq!(ids(def.neighborhood(NodeId(2))), vec![0, 1]);
    assert_eq!(ids(def.neighborhood(NodeId(3))), vec![3]);
    let mut out = AdjacencyList::<String, (), (), i32>::new();
    fill(&mut out);
    assert_eq!(ids(out.successors(NodeId(0))), vec![1, 2, 1]);
    assert_eq!(ids(out.predecessors(NodeId(1))), vec![0, 2, 0]);
    assert_eq!(ids(out.neighborhood(NodeId(1))), vec![0, 2, 0]);
    let mut copy = GraphDefinition::<String, (), (), i32>::new();
    fill(&mut copy);
    let both = AdjacencyListIn::<String, (), (), i32>::from_graphdef(copy);
    for v in 0..4 {
        assert_eq!(both.successors(NodeId(v)), def.successors(NodeId(v)));
        assert_eq!(both.predecessors(NodeId(v)), def.predecessors(NodeId(v)));
    }
    assert_eq!(ids(both.neighborhood(NodeId(1))), vec![0, 2]);
    assert_eq!(ids(both.neighborhood(NodeId(2))), vec![1, 0]);
    assert_eq!(ids(both.neighborhood(NodeId(3))), vec![3]);
}

#[test]
fn matrix_lists_each_neighbour_once_and_ascending() {
    let mut matrix = AdjacencyMatrix::<String, (), (), i32>::new(4);
    fill(&mut matrix);
    matrix.add_edge_by_id(NodeId(3), NodeId(0), (), None);
    assert_eq!(ids(matrix.successors(NodeId(0))), vec![1, 2]);
    assert_eq!(ids(matrix.predecessors(NodeId(1))), vec![0, 2]);
    assert_eq!(ids(matrix.successors(NodeId(3))), vec![0, 3]);
    assert_eq!(ids(matrix.neighborhood(NodeId(0))), vec![1, 2, 3]);
    assert_eq!(ids(matrix.neighborhood(NodeId(3))), vec![0, 3]);
}
