use gtc::{
    prufer_to_tree, tree_to_prufer, EdgeId, GraphBase, GraphDefinition, NodeId, NotATree,
    PruferError, Simple, UndirectedGraph,
};

type Storage = GraphDefinition<usize, (), (), ()>;

fn tree(list: &[(usize, usize)]) -> UndirectedGraph<Storage, Simple> {
    UndirectedGraph::<Storage, Simple>::from_edges(list.iter().map(|(a, b)| (*a, *b, ())).collect())
        .unwrap()
}

fn labelled_edges(def: &Storage) -> Vec<(usize, usize)> {
    (0..def.size())
        .map(|e| {
            let (f, t) = def.endpoints(EdgeId(e));
            (*def.node_key(f), *def.node_key(t))
        })
        .collect()
}

#[test]
fn sequence_4_3_1_3_1_decodes_to_a_tree_of_seven_nodes() {
    let def = prufer_to_tree(&vec![4, 3, 1, 3, 1]).unwrap();
    assert_eq!(def.order(), 7);
    assert_eq!(def.size(), 6);
    for i in 0..7 {
        assert_eq!(*def.node_key(NodeId(i)), i + 1);
    }
    assert_eq!(labelled_edges(&def), vec![(2, 4), (4, 3), (5, 1), (6, 3), (3, 1), (1, 7)]);
}

#[test]
fn empty_sequence_decodes_to_one_edge() {
    let def = prufer_to_tree(&vec![]).unwrap();
    assert_eq!(def.order(), 2);
    assert_eq!(labelled_edges(&def), vec![(1, 2)]);
    let three = prufer_to_tree(&vec![2]).unwrap();
    assert_eq!(labelled_edges(&three), vec![(1, 2), (2, 3)]);
}

#[test]
fn label_out_of_range_is_refused() {
    assert_eq!(prufer_to_tree(&vec![1, 9, 0]).err(), Some(PruferError::LabelOutOfRange { label: 9 }));
    assert_eq!(prufer_to_tree(&vec![0]).err(), Some(PruferError::LabelOutOfRange { label: 0 }));
    assert_eq!(prufer_to_tree(&vec![4]).err(), Some(PruferError::LabelOutOfRange { label: 4 }));
    assert!(prufer_to_tree(&vec![3]).is_ok());
}

#[test]
fn tree_of_seven_nodes_encodes_to_7_4_7_4_7() {
    let graph = tree(&[(4, 5), (4, 2), (4, 7), (3, 7), (1, 7), (6, 7)]);
    assert_eq!(tree_to_prufer(&graph), Ok(vec![7, 4, 7, 4, 7]));
}

#[test]
fn decoding_an_encoded_tree_gives_the_tree_back() {
    let list = [(1, 2), (2, 3), (3, 4), (3, 5), (5, 6), (2, 7), (7, 8)];
    let mut nodes: Vec<(usize, usize, ())> = Vec::new();
    // intern the labels in ascending order so that keys and labels agree
    let graph = UndirectedGraph::<Storage, Simple>::from_isolated_nodes_and_edges(
        (1..=8).collect(),
        list.iter().map(|(a, b)| (*a, *b, ())).collect(),
    )
    .unwrap();
    nodes.clear();
    let sequence = tree_to_prufer(&graph).unwrap();
    assert_eq!(sequence.len(), 6);
    let decoded = prufer_to_tree(&sequence).unwrap();
    let mut got: Vec<(usize, usize)> =
        labelled_edges(&decoded).iter().map(|(a, b)| (*a.min(b), *a.max(b))).collect();
    let mut want: Vec<(usize, usize)> = list.to_vec();
    got.sort();
    want.sort();
    assert_eq!(got, want);
}

#[test]
fn small_graphs_have_the_empty_sequence() {
    let one = UndirectedGraph::<Storage, Simple>::from_isolated_nodes_and_edges(vec![1], vec![])
        .unwrap();
    assert_eq!(tree_to_prufer(&one), Ok(vec![]));
    assert_eq!(tree_to_prufer(&tree(&[(1, 2)])), Ok(vec![]));
}

#[test]
fn pruning_a_cycle_comes_to_a_halt() {
    assert_eq!(tree_to_prufer(&tree(&[(1, 2), (2, 3), (3, 1)])), Err(NotATree));
    assert_eq!(tree_to_prufer(&tree(&[(1, 2), (3, 4)])), Err(NotATree));
}
