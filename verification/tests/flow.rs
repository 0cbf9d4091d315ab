use gtc::{
    ford_fulkerson, residual_network, AdjacencyList, DirectedGraph, EdgeId, Flow, FlowInputError,
    FlowNetwork, GraphBase, GraphDefinition, NodeId, Pseudo, Simple,
};

type Storage = AdjacencyList<String, (), (), ()>;

fn arcs(list: &[(&str, &str, i32, u32)]) -> Vec<(String, String, i32, u32)> {
    list.iter().map(|(a, b, f, c)| (a.to_string(), b.to_string(), *f, *c)).collect()
}

fn textbook() -> FlowNetwork<Storage, Simple> {
    FlowNetwork::<Storage, Simple>::from_edges(
        arcs(&[
            ("s", "v1", 0, 16),
            ("s", "v2", 0, 13),
            ("v1", "v2", 0, 10),
            ("v2", "v1", 0, 4),
            ("v1", "v3", 0, 12),
            ("v3", "v2", 0, 9),
            ("v2", "v4", 0, 14),
            ("v4", "v3", 0, 7),
            ("v3", "t", 0, 20),
            ("v4", "t", 0, 4),
        ]),
        "s".to_string(),
        "t".to_string(),
    )
    .unwrap()
}

fn net_out(flow: &Flow, n: usize, u: usize) -> i64 {
    (0..n).map(|v| flow.get(NodeId(u), NodeId(v)) as i64).sum()
}

#[test]
fn textbook_network_has_maximum_flow_23() {
    let result = ford_fulkerson(textbook());
    assert_eq!(result.max_flow, 23);
    let again = ford_fulkerson(textbook());
    assert_eq!(again.max_flow, 23);
    assert_eq!(again.steps.len(), result.steps.len());
}

#[test]
fn maximum_flow_equals_the_capacity_of_a_cut() {
    let net = textbook();
    let n = net.graph.order();
    let records: Vec<(usize, usize, u32)> = (0..net.graph.size())
        .map(|e| {
            let (f, t) = net.graph.endpoints(EdgeId(e));
            (f.0, t.0, net.capacity[e])
        })
        .collect();
    let source = net.source.0;
    let result = ford_fulkerson(net);
    // the nodes that the last residual network reaches from the source
    let residual = &result.steps.last().unwrap().0;
    let mut reached = vec![false; n];
    reached[source] = true;
    let mut changed = true;
    while changed {
        changed = false;
        for e in 0..residual.graph.size() {
            let (f, t) = residual.graph.endpoints(EdgeId(e));
            if reached[f.0] && !reached[t.0] {
                reached[t.0] = true;
                changed = true;
            }
        }
    }
    let cut: u64 = records
        .iter()
        .filter(|(f, t, _)| reached[*f] && !reached[*t])
        .map(|(_, _, c)| *c as u64)
        .sum();
    assert_eq!(cut, 23);
    assert_eq!(cut, result.max_flow);
}

#[test]
fn pushed_flow_is_conserved_and_skew_symmetric() {
    let net = textbook();
    let n = net.graph.order();
    let (source, sink) = (net.source.0, net.sink.0);
    let result = ford_fulkerson(net);
    for u in 0..n {
        for v in 0..n {
            assert_eq!(
                result.flow.get(NodeId(u), NodeId(v)),
                -result.flow.get(NodeId(v), NodeId(u))
            );
        }
        if u != source && u != sink {
            assert_eq!(net_out(&result.flow, n, u), 0);
        }
    }
    assert_eq!(net_out(&result.flow, n, source), 23);
    assert_eq!(net_out(&result.flow, n, sink), -23);
}

#[test]
fn trace_ends_with_the_round_that_finds_no_path() {
    let result = ford_fulkerson(textbook());
    let last = result.steps.last().unwrap();
    assert!(last.1.is_none());
    assert!(last.2.is_empty());
    assert_eq!(last.3, 0);
    let mut total = 0u64;
    for step in &result.steps[..result.steps.len() - 1] {
        assert!(step.1.is_some());
        assert!(step.3 >= 1);
        assert_eq!(step.2.first().unwrap(), "s");
        assert_eq!(step.2.last().unwrap(), "t");
        total += step.3 as u64;
    }
    assert_eq!(total, result.max_flow);
    let first = &result.steps[0];
    assert_eq!(first.2, vec!["s".to_string(), "v1".to_string(), "v3".to_string(), "t".to_string()]);
    assert_eq!(first.3, 12);
}

#[test]
fn initial_flow_lowers_what_is_pushed() {
    let net = FlowNetwork::<Storage, Simple>::from_edges(
        arcs(&[("s", "a", 3, 10), ("a", "t", 3, 5)]),
        "s".to_string(),
        "t".to_string(),
    )
    .unwrap();
    assert_eq!(net.flow.get(NodeId(0), NodeId(1)), 3);
    assert_eq!(net.flow.get(NodeId(1), NodeId(0)), 0);
    assert_eq!(net.capacity, vec![10, 5]);
    let result = ford_fulkerson(net);
    assert_eq!(result.max_flow, 2);
}

#[test]
fn residual_network_has_forward_and_backward_records() {
    let mut net = FlowNetwork::<Storage, Simple>::from_edges(
        arcs(&[("s", "a", 4, 10), ("a", "t", 5, 5), ("t", "a", 0, 1)]),
        "s".to_string(),
        "t".to_string(),
    )
    .unwrap();
    let residual = residual_network(&net);
    // s -> a has room 6 and flow 4: forward and backward; a -> t is full and
    // has a reverse record: nothing; t -> a has room 1
    assert_eq!(residual.graph.size(), 3);
    assert_eq!(residual.graph.endpoints(EdgeId(0)), (NodeId(0), NodeId(1)));
    assert_eq!(residual.graph.endpoints(EdgeId(1)), (NodeId(1), NodeId(0)));
    assert_eq!(residual.graph.endpoints(EdgeId(2)), (NodeId(2), NodeId(1)));
    assert_eq!(residual.capacity, vec![6, 4, 1]);
    assert_eq!(residual.flow.get(NodeId(0), NodeId(1)), 0);
    net.flow.put(NodeId(0), NodeId(1), 10);
    assert_eq!(residual_network(&net).capacity, vec![10, 1]);
}

#[test]
fn flow_network_needs_source_and_sink() {
    let edges = arcs(&[("s", "a", 0, 1)]);
    let missing_source =
        FlowNetwork::<Storage, Simple>::from_edges(edges.clone(), "x".to_string(), "a".to_string());
    assert_eq!(missing_source.err(), Some(FlowInputError::SourceNotFound));
    let missing_sink =
        FlowNetwork::<Storage, Simple>::from_edges(edges, "s".to_string(), "y".to_string());
    assert_eq!(missing_sink.err(), Some(FlowInputError::SinkNotFound));
}

#[test]
fn network_without_path_has_no_flow() {
    let mut storage = GraphDefinition::<String, (), (), ()>::new();
    storage.add_node("s".to_string(), ());
    storage.add_node("t".to_string(), ());
    let graph = DirectedGraph::<GraphDefinition<String, (), (), ()>, Pseudo>::new(storage);
    let net = FlowNetwork::new(graph, vec![], NodeId(0), NodeId(1));
    let result = ford_fulkerson(net);
    assert_eq!(result.max_flow, 0);
    assert_eq!(result.steps.len(), 1);
    assert_eq!(result.flow.len(), 2);
}

#[test]
fn flow_tables_add_up_cell_by_cell() {
    let mut a = Flow::new(2);
    let mut b = Flow::new(2);
    a.put(NodeId(0), NodeId(1), 4);
    b.put(NodeId(0), NodeId(1), -1);
    b.put(NodeId(1), NodeId(0), 7);
    let sum = a.plus(&b);
    assert_eq!(sum.get(NodeId(0), NodeId(1)), 3);
    assert_eq!(sum.get(NodeId(1), NodeId(0)), 7);
    assert_eq!(sum.get(NodeId(5), NodeId(0)), 0);
    assert_eq!(a.duplicate().get(NodeId(0), NodeId(1)), 4);
}

#[test]
fn every_round_pushes_its_bottleneck_along_its_path() {
    let net = textbook();
    let n = net.graph.order();
    let result = ford_fulkerson(net);
    let mut carried = Flow::new(n);
    for (residual, augmented, path, amount) in result.steps.iter() {
        let augmented = match augmented {
            Some(a) => a,
            None => break,
        };
        let ids: Vec<NodeId> = path.iter().map(|k| residual.graph.node_id(k).unwrap()).collect();
        // the bottleneck is the least residual capacity along the path
        let least = ids
            .windows(2)
            .map(|w| residual.capacity[residual.graph.edges_between(w[0], w[1])[0].0])
            .min()
            .unwrap();
        assert_eq!(*amount, least);
        // the flow after the round is the flow before, plus the bottleneck
        // along the path and minus the bottleneck against it
        for w in ids.windows(2) {
            let forward = carried.get(w[0], w[1]);
            let backward = carried.get(w[1], w[0]);
            carried.put(w[0], w[1], forward + *amount as i32);
            carried.put(w[1], w[0], backward - *amount as i32);
        }
        for u in 0..n {
            for v in 0..n {
                assert_eq!(augmented.flow.get(NodeId(u), NodeId(v)), carried.get(NodeId(u), NodeId(v)));
            }
        }
    }
    for u in 0..n {
        for v in 0..n {
            assert_eq!(result.flow.get(NodeId(u), NodeId(v)), carried.get(NodeId(u), NodeId(v)));
        }
    }
}

#[test]
fn network_of_fourteen_arcs_has_maximum_flow_32_on_every_run() {
    let build = || {
        FlowNetwork::<Storage, Simple>::from_edges(
            arcs(&[
                ("s", "b", 0, 12),
                ("s", "e", 0, 15),
                ("s", "g", 0, 13),
                ("b", "c", 0, 9),
                ("e", "c", 0, 11),
                ("c", "d", 0, 18),
                ("c", "f", 0, 10),
                ("f", "d", 0, 6),
                ("f", "t", 0, 20),
                ("d", "t", 0, 12),
                ("g", "h", 0, 12),
                ("h", "e", 0, 8),
                ("h", "f", 0, 6),
                ("h", "t", 0, 10),
            ]),
            "s".to_string(),
            "t".to_string(),
        )
        .unwrap()
    };
    let first = ford_fulkerson(build());
    let second = ford_fulkerson(build());
    assert_eq!(first.max_flow, 32);
    assert_eq!(second.max_flow, 32);
    assert_eq!(first.steps.len(), second.steps.len());
    for (a, b) in first.steps.iter().zip(second.steps.iter()) {
        assert_eq!(a.2, b.2);
        assert_eq!(a.3, b.3);
    }
    assert_eq!(first.steps[0].2, vec!["s".to_string(), "g".to_string(), "h".to_string(), "t".to_string()]);
    assert_eq!(first.steps[0].3, 10);
}
