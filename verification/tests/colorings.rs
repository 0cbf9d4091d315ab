use gtc::{
    chromatic_number, chromatic_polynomial, num_k_colorings, ChromaticPolynomialMethod,
    GraphDefinition, Polynomial, Simple, UndirectedGraph, WorkingGraph,
};

type Storage = GraphDefinition<i32, (), (), ()>;

fn graph(nodes: &[i32], list: &[(i32, i32)]) -> UndirectedGraph<Storage, Simple> {
    UndirectedGraph::<Storage, Simple>::from_isolated_nodes_and_edges(
        nodes.to_vec(),
        list.iter().map(|(a, b)| (*a, *b, ())).collect(),
    )
    .unwrap()
}

fn example() -> UndirectedGraph<Storage, Simple> {
    graph(&[], &[(7, 8), (7, 2), (8, 1), (1, 6), (8, 2), (2, 5), (2, 3), (3, 5), (4, 3)])
}

#[test]
fn polynomial_arithmetic() {
    let p = Polynomial { coeffs: vec![1, 2] };
    let q = Polynomial { coeffs: vec![-1, 0, 3] };
    assert_eq!(p.plus(&q).unwrap().coeffs, vec![0, 2, 3]);
    assert_eq!(p.minus(&q).unwrap().coeffs, vec![2, 2, -3]);
    assert_eq!(p.times(&q).unwrap().coeffs, vec![-1, -2, 3, 6]);
    assert_eq!(q.minus(&q).unwrap().coeffs, vec![0]);
    assert_eq!(Polynomial::zero().coeffs, vec![0]);
    assert_eq!(Polynomial::one().coeffs, vec![1]);
    assert_eq!(Polynomial::x().coeffs, vec![0, 1]);
    assert_eq!(Polynomial::from_monomial(3, -2).coeffs, vec![0, 0, 0, -2]);
    assert_eq!(Polynomial::from_monomial(3, 0).coeffs, vec![0, 0, 0, 0]);
    assert_eq!(q.eval(2), Some(11));
    assert_eq!(q.eval(-1), Some(2));
    assert_eq!(Polynomial::zero().times(&q).unwrap().coeffs, vec![0]);
}

#[test]
fn polynomial_overflow_is_reported() {
    let big = Polynomial { coeffs: vec![i64::MAX] };
    assert_eq!(big.plus(&Polynomial::one()), None);
    assert_eq!(Polynomial { coeffs: vec![i64::MIN] }.minus(&Polynomial::one()), None);
    assert_eq!(big.times(&Polynomial { coeffs: vec![2] }), None);
    assert_eq!(Polynomial { coeffs: vec![0, 1] }.eval(i64::MAX), Some(i64::MAX));
    assert_eq!(Polynomial { coeffs: vec![1, 1] }.eval(i64::MAX), None);
    assert_eq!(Polynomial { coeffs: vec![0, 0, 1] }.eval(1 << 40), None);
}

#[test]
fn triangle_has_the_polynomial_of_the_complete_graph() {
    let triangle = graph(&[], &[(1, 2), (2, 3), (3, 1)]);
    let by_removal = chromatic_polynomial(&triangle, ChromaticPolynomialMethod::RemoveEdges).unwrap();
    let by_addition = chromatic_polynomial(&triangle, ChromaticPolynomialMethod::AddEdges).unwrap();
    let auto = chromatic_polynomial(&triangle, ChromaticPolynomialMethod::Auto).unwrap();
    assert_eq!(by_removal.coeffs, vec![0, 2, -3, 1]);
    assert_eq!(by_addition, by_removal);
    assert_eq!(auto, by_removal);
    assert_eq!(chromatic_number(&triangle), Some(3));
    assert_eq!(num_k_colorings(&triangle, 3), Some(6));
}

#[test]
fn both_methods_agree_on_the_example_of_eight_nodes() {
    let g = example();
    let by_removal = chromatic_polynomial(&g, ChromaticPolynomialMethod::RemoveEdges).unwrap();
    let by_addition = chromatic_polynomial(&g, ChromaticPolynomialMethod::AddEdges).unwrap();
    assert_eq!(by_removal.coeffs, vec![0, -4, 24, -61, 85, -70, 34, -9, 1]);
    assert_eq!(by_addition, by_removal);
    assert_eq!(by_removal.eval(0), Some(0));
    assert_eq!(by_removal.eval(2), Some(0));
    assert_eq!(by_removal.eval(3), Some(96));
    assert_eq!(by_removal.eval(4), Some(3888));
    assert_eq!(chromatic_number(&g), Some(3));
    for k in 3..8 {
        assert!(num_k_colorings(&g, k).unwrap() > 0);
    }
}

#[test]
fn graphs_without_edges_and_without_nodes() {
    let two = graph(&[1, 2], &[]);
    assert_eq!(
        chromatic_polynomial(&two, ChromaticPolynomialMethod::RemoveEdges).unwrap().coeffs,
        vec![0, 0, 1]
    );
    assert_eq!(
        chromatic_polynomial(&two, ChromaticPolynomialMethod::AddEdges).unwrap().coeffs,
        vec![0, 0, 1]
    );
    assert_eq!(chromatic_number(&two), Some(1));
    let none = graph(&[], &[]);
    assert_eq!(chromatic_polynomial(&none, ChromaticPolynomialMethod::Auto).unwrap().coeffs, vec![1]);
    assert_eq!(chromatic_number(&none), Some(0));
    let path = graph(&[], &[(1, 2), (2, 3)]);
    assert_eq!(
        chromatic_polynomial(&path, ChromaticPolynomialMethod::Auto).unwrap().coeffs,
        vec![0, 1, -2, 1]
    );
    assert_eq!(chromatic_number(&path), Some(2));
}

#[test]
fn working_graph_operations() {
    let g = graph(&[], &[(1, 2), (2, 3), (3, 4)]);
    let wg = WorkingGraph::from_graph(&g);
    assert_eq!(wg.n, 4);
    assert_eq!(wg.edge_count(), 3);
    assert_eq!(wg.find_edge(), Some((0, 1)));
    assert_eq!(wg.find_non_edge(), Some((0, 2)));
    assert!(wg.adj[1][2] && wg.adj[2][1] && !wg.adj[0][0]);
    let merged = wg.contract(1, 2);
    assert_eq!(merged.n, 3);
    assert_eq!(
        merged.adj,
        vec![vec![false, true, false], vec![true, false, true], vec![false, true, false]]
    );
    let mut changed = wg.duplicate();
    changed.remove_edge(0, 1);
    assert_eq!(changed.find_edge(), Some((1, 2)));
    changed.add_edge(0, 3);
    assert!(changed.adj[3][0]);
    assert_eq!(changed.edge_count(), 3);
    assert_eq!(wg.edge_count(), 3);
}

#[test]
fn the_polynomial_counts_the_colourings_of_a_square() {
    let g = graph(&[], &[(1, 2), (2, 3), (3, 4), (4, 1)]);
    let joined = [(0usize, 1usize), (1, 2), (2, 3), (3, 0)];
    let expected = [0i64, 0, 2, 18, 84];
    for k in 0..5i64 {
        let mut count = 0i64;
        for code in 0..k.pow(4) {
            let c = [code % k, (code / k) % k, (code / (k * k)) % k, (code / (k * k * k)) % k];
            if joined.iter().all(|(a, b)| c[*a] != c[*b]) {
                count += 1;
            }
        }
        assert_eq!(count, expected[k as usize]);
        assert_eq!(num_k_colorings(&g, k), Some(count));
    }
}
