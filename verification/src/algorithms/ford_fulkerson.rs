//! Maximum flow by repeated augmentation along breadth-first paths.

use vstd::prelude::*;
use crate::base::{EdgeId, NodeId, NodeKey};
use crate::interner::{key_position, keys_with};
use crate::storage::graph_definition::EdgeRecord;
use crate::algorithms::cuts::{
    cut_capacity, flows, is_cut, lemma_max_flow_min_cut, reach_side, row_total,
};
use crate::algorithms::dijkstra::{node_keys, reverse_keys};
use crate::algorithms::search::{
    breadth_first, is_first_search, is_route, is_search_tree, joined,
};
use crate::storage::scan::{clone_nodes, clone_storage};
use crate::traits::{
    has_edge, EdgeWeights, GraphBase, GraphKindMarker, MutableStorage, StorageRepresentation,
};
use crate::wrappers::DirectedGraph;

verus! {

/// The sum of the entries of one row of a flow table.
pub open spec fn row_sum(row: Seq<i32>) -> int
    decreases row.len(),
{
    if row.len() == 0 {
        0
    } else {
        row_sum(row.drop_last()) + row.last()
    }
}

/// A signed flow value for every ordered pair of nodes.
pub struct Flow {
    rows: Vec<Vec<i32>>,
}

impl Flow {
    /// The number of nodes the table covers.
    pub closed spec fn dim(&self) -> nat {
        self.rows@.len()
    }

    /// The table is square.
    pub closed spec fn wf(&self) -> bool {
        forall|u: int| 0 <= u < self.rows@.len() ==> (#[trigger] self.rows@[u])@.len() == self.rows@.len()
    }

    /// The flow from `u` to `v`; zero outside the table.
    pub closed spec fn at(&self, u: int, v: int) -> int {
        if 0 <= u < self.rows@.len() && 0 <= v < self.rows@[u]@.len() {
            self.rows@[u]@[v] as int
        } else {
            0
        }
    }

    /// The net flow that leaves `u`.
    pub closed spec fn net_out(&self, u: int) -> int {
        if 0 <= u < self.rows@.len() {
            row_sum(self.rows@[u]@)
        } else {
            0
        }
    }

    /// The table without any flow, for `n` nodes.
    pub fn new(n: usize) -> (flow: Self)
        ensures
            flow.wf(),
            flow.dim() == n,
            forall|u: int, v: int| flow.at(u, v) == 0,
            forall|u: int| flow.net_out(u) == 0,
    {
        let mut rows: Vec<Vec<i32>> = Vec::new();
        let mut u: usize = 0;
        while u < n
            invariant
                u <= n,
                rows@.len() == u,
                forall|a: int| 0 <= a < u ==> (#[trigger] rows@[a])@.len() == n,
                forall|a: int, b: int| 0 <= a < u && 0 <= b < n ==> (#[trigger] rows@[a]@[b]) == 0,
                forall|a: int| 0 <= a < u ==> row_sum((#[trigger] rows@[a])@) == 0,
            decreases n - u,
        {
            let mut row: Vec<i32> = Vec::new();
            let mut v: usize = 0;
            while v < n
                invariant
                    v <= n,
                    row@.len() == v,
                    forall|b: int| 0 <= b < v ==> (#[trigger] row@[b]) == 0,
                    row_sum(row@) == 0,
                decreases n - v,
            {
                let ghost before = row@;
                row.push(0);
                assert(row@.drop_last() =~= before);
                v += 1;
            }
            rows.push(row);
            u += 1;
        }
        Flow { rows }
    }

    /// The number of nodes the table covers.
    pub fn len(&self) -> (n: usize)
        ensures
            n == self.dim(),
    {
        self.rows.len()
    }

    /// The flow from `from` to `to`; zero for a pair outside the table.
    pub fn get(&self, from: NodeId, to: NodeId) -> (value: i32)
        ensures
            value == self.at(from.0 as int, to.0 as int),
    {
        if from.0 < self.rows.len() && to.0 < self.rows[from.0].len() {
            self.rows[from.0][to.0]
        } else {
            0
        }
    }

    /// Sets the flow from `from` to `to`.
    pub fn put(&mut self, from: NodeId, to: NodeId, value: i32)
        requires
            old(self).wf(),
            from.0 < old(self).dim(),
            to.0 < old(self).dim(),
        ensures
            final(self).wf(),
            final(self).dim() == old(self).dim(),
            final(self).at(from.0 as int, to.0 as int) == value,
            forall|u: int, v: int|
                !(u == from.0 && v == to.0) ==> final(self).at(u, v) == old(self).at(u, v),
            forall|u: int| u != from.0 ==> final(self).net_out(u) == old(self).net_out(u),
            final(self).net_out(from.0 as int) == old(self).net_out(from.0 as int) - old(self).at(
                from.0 as int,
                to.0 as int,
            ) + value,
    {
        proof {
            lemma_row_sum_update(self.rows@[from.0 as int]@, to.0 as int, value);
        }
        self.rows[from.0][to.0] = value;
    }
}

impl Flow {
    /// The cell-wise sum of two tables of the same size.
    pub fn plus(&self, other: &Flow) -> (sum: Flow)
        requires
            self.wf(),
            other.wf(),
            self.dim() == other.dim(),
            forall|u: int, v: int|
                i32::MIN <= #[trigger] self.at(u, v) + #[trigger] other.at(u, v) <= i32::MAX,
        ensures
            sum.wf(),
            sum.dim() == self.dim(),
            forall|u: int, v: int| #[trigger] sum.at(u, v) == self.at(u, v) + other.at(u, v),
    {
        let n = self.rows.len();
        let mut rows: Vec<Vec<i32>> = Vec::new();
        let mut u: usize = 0;
        while u < n
            invariant
                self.wf(),
                other.wf(),
                n == self.rows@.len(),
                n == other.rows@.len(),
                forall|a: int, b: int|
                    i32::MIN <= #[trigger] self.at(a, b) + #[trigger] other.at(a, b) <= i32::MAX,
                u <= n,
                rows@.len() == u,
                forall|a: int| 0 <= a < u ==> (#[trigger] rows@[a])@.len() == n,
                forall|a: int, b: int|
                    0 <= a < u && 0 <= b < n ==> (#[trigger] rows@[a]@[b]) == self.rows@[a]@[b]
                        + other.rows@[a]@[b],
            decreases n - u,
        {
            let mut row: Vec<i32> = Vec::new();
            let mut v: usize = 0;
            while v < n
                invariant
                    self.wf(),
                    other.wf(),
                    n == self.rows@.len(),
                    n == other.rows@.len(),
                    forall|a: int, b: int|
                        i32::MIN <= #[trigger] self.at(a, b) + #[trigger] other.at(a, b) <= i32::MAX,
                    u < n,
                    v <= n,
                    row@.len() == v,
                    forall|b: int|
                        0 <= b < v ==> (#[trigger] row@[b]) == self.rows@[u as int]@[b]
                            + other.rows@[u as int]@[b],
                decreases n - v,
            {
                assert(i32::MIN <= self.at(u as int, v as int) + other.at(u as int, v as int)
                    <= i32::MAX);
                row.push(self.rows[u][v] + other.rows[u][v]);
                v += 1;
            }
            rows.push(row);
            u += 1;
        }
        Flow { rows }
    }

    /// An independent copy of the table.
    pub fn duplicate(&self) -> (copy: Flow)
        requires
            self.wf(),
        ensures
            copy.wf(),
            copy.dim() == self.dim(),
            forall|u: int, v: int| #[trigger] copy.at(u, v) == self.at(u, v),
            forall|u: int| #[trigger] copy.net_out(u) == self.net_out(u),
    {
        let n = self.rows.len();
        let mut rows: Vec<Vec<i32>> = Vec::new();
        let mut u: usize = 0;
        while u < n
            invariant
                self.wf(),
                n == self.rows@.len(),
                u <= n,
                rows@.len() == u,
                forall|a: int| 0 <= a < u ==> (#[trigger] rows@[a])@ == self.rows@[a]@,
            decreases n - u,
        {
            let mut row: Vec<i32> = Vec::new();
            let mut v: usize = 0;
            while v < n
                invariant
                    self.wf(),
                    n == self.rows@.len(),
                    u < n,
                    v <= n,
                    row@ == self.rows@[u as int]@.take(v as int),
                decreases n - v,
            {
                row.push(self.rows[u][v]);
                v += 1;
                assert(row@ =~= self.rows@[u as int]@.take(v as int));
            }
            assert(self.rows@[u as int]@.take(n as int) =~= self.rows@[u as int]@);
            rows.push(row);
            u += 1;
        }
        Flow { rows }
    }

    /// The net flow out of a node is at most the largest entry of its row
    /// times the number of nodes.
    pub proof fn lemma_net_out_bound(&self, u: int, bound: int)
        requires
            self.wf(),
            forall|v: int| #[trigger] self.at(u, v) <= bound,
            0 <= bound,
        ensures
            self.net_out(u) <= self.dim() * bound,
    {
        if 0 <= u < self.rows@.len() {
            let row = self.rows@[u]@;
            assert forall|v: int| 0 <= v < row.len() implies (#[trigger] row[v]) <= bound by {
                assert(self.at(u, v) <= bound);
            }
            lemma_row_sum_bound(row, bound);
        } else {
            assert(0 <= self.dim() * bound) by (nonlinear_arith)
                requires
                    0 <= bound,
                    0 <= self.dim(),
            ;
        }
    }

    /// The net flow out of a node is the sum of its flows to every node.
    pub proof fn lemma_net_out_total(&self, u: int)
        requires
            self.wf(),
            0 <= u < self.dim(),
        ensures
            self.net_out(u) == row_total(flows(*self), u, self.dim() as int),
    {
        let row = self.rows@[u]@;
        lemma_row_prefix(*self, u, row.len() as int);
        assert(row.take(row.len() as int) =~= row);
    }
}

/// The first entries of a row of the table sum to the flows to the first
/// nodes.
proof fn lemma_row_prefix(flow: Flow, u: int, k: int)
    requires
        flow.wf(),
        0 <= u < flow.dim(),
        0 <= k <= flow.dim(),
    ensures
        row_sum(flow.rows@[u]@.take(k)) == row_total(flows(flow), u, k),
    decreases k,
{
    let row = flow.rows@[u]@;
    if k > 0 {
        lemma_row_prefix(flow, u, k - 1);
        assert(row.take(k).drop_last() =~= row.take(k - 1));
        assert(row.take(k).last() == row[k - 1]);
        assert(flow.at(u, k - 1) == row[k - 1]);
    } else {
        assert(row.take(0).len() == 0);
    }
}

/// A row whose entries are at most `bound` sums to at most its length
/// times `bound`.
pub proof fn lemma_row_sum_bound(row: Seq<i32>, bound: int)
    requires
        forall|v: int| 0 <= v < row.len() ==> (#[trigger] row[v]) <= bound,
    ensures
        row_sum(row) <= row.len() * bound,
    decreases row.len(),
{
    if row.len() > 0 {
        lemma_row_sum_bound(row.drop_last(), bound);
        assert(row.len() * bound == (row.len() - 1) * bound + bound) by (nonlinear_arith);
    }
}

/// Replacing one entry of a row changes its sum by the difference.
pub proof fn lemma_row_sum_update(row: Seq<i32>, i: int, value: i32)
    requires
        0 <= i < row.len(),
    ensures
        row_sum(row.update(i, value)) == row_sum(row) - row[i] + value,
    decreases row.len(),
{
    let changed = row.update(i, value);
    if i == row.len() - 1 {
        assert(changed.drop_last() =~= row.drop_last());
    } else {
        lemma_row_sum_update(row.drop_last(), i, value);
        assert(changed.drop_last() =~= row.drop_last().update(i, value));
    }
}

/// The largest capacity, and the largest magnitude of an initial flow
/// value, for which every intermediate value of the algorithm fits `i32`.
pub const FLOW_LIMIT: i32 = 0x1FFF_FFFF;

/// A directed graph with a capacity for every edge record, a flow for
/// every ordered pair of nodes, and a designated source and sink.
pub struct FlowNetwork<S: StorageRepresentation, GK: GraphKindMarker> {
    pub graph: DirectedGraph<S, GK>,
    pub capacity: Vec<u32>,
    pub source: NodeId,
    pub sink: NodeId,
    pub flow: Flow,
}

impl<S: StorageRepresentation, GK: GraphKindMarker> FlowNetwork<S, GK> {
    /// One capacity per record, a flow table over all nodes, and source and
    /// sink among the nodes.
    pub open spec fn wf(&self) -> bool {
        &&& self.graph.storage.wf()
        &&& self.capacity@.len() == self.graph.storage.edges().len()
        &&& self.flow.wf()
        &&& self.flow.dim() == self.graph.storage.keys().len()
        &&& self.source.0 < self.graph.storage.keys().len()
        &&& self.sink.0 < self.graph.storage.keys().len()
    }

    /// No capacity exceeds `FLOW_LIMIT`, and no flow value exceeds `bound`
    /// in magnitude.
    pub open spec fn within(&self, bound: int) -> bool {
        &&& forall|e: int| 0 <= e < self.capacity@.len() ==> (#[trigger] self.capacity@[e]) <= FLOW_LIMIT
        &&& forall|u: int, v: int| -bound <= #[trigger] self.flow.at(u, v) <= bound
    }

    /// A network over `graph` without any flow.
    pub fn new(graph: DirectedGraph<S, GK>, capacity: Vec<u32>, source: NodeId, sink: NodeId) -> (net:
        Self)
        requires
            graph.storage.wf(),
        ensures
            net.graph == graph,
            net.capacity == capacity,
            net.source == source,
            net.sink == sink,
            net.flow.wf(),
            net.flow.dim() == graph.storage.keys().len(),
            forall|u: int, v: int| net.flow.at(u, v) == 0,
    {
        let n = graph.storage.order();
        Self { graph, capacity, source, sink, flow: Flow::new(n) }
    }
}

/// The records of the residual network that stem from the first `upto`
/// records of a network, each with its residual capacity.
///
/// A record with room left gives a forward record with that room. A record
/// that carries flow, and whose reverse pair has no record in the network,
/// also gives a backward record whose capacity is that flow.
pub open spec fn residual_arcs<E, W>(
    edges: Seq<EdgeRecord<E, W>>,
    caps: Seq<u32>,
    flow: Flow,
    upto: int,
) -> Seq<(EdgeRecord<E, W>, u32)>
    decreases upto,
{
    if upto <= 0 {
        Seq::empty()
    } else {
        let before = residual_arcs(edges, caps, flow, upto - 1);
        let e = edges[upto - 1];
        let f = flow.at(e.from.0 as int, e.to.0 as int);
        let room = caps[upto - 1] - f;
        let forward = if room > 0 {
            before.push(
                (EdgeRecord { from: e.from, to: e.to, meta: e.meta, weight: None }, room as u32),
            )
        } else {
            before
        };
        if f > 0 && !has_edge(edges, e.to, e.from) {
            forward.push((EdgeRecord { from: e.to, to: e.from, meta: e.meta, weight: None }, f as u32))
        } else {
            forward
        }
    }
}

/// `records` and `caps` hold the two halves of `arcs`.
pub open spec fn holds_arcs<E, W>(
    records: Seq<EdgeRecord<E, W>>,
    caps: Seq<u32>,
    arcs: Seq<(EdgeRecord<E, W>, u32)>,
) -> bool {
    &&& records.len() == arcs.len()
    &&& caps.len() == arcs.len()
    &&& forall|i: int|
        0 <= i < arcs.len() ==> (#[trigger] records[i]) == arcs[i].0 && caps[i] == arcs[i].1
}

/// Every residual record has a positive capacity and joins two nodes that
/// some record of the network joins, in one direction or the other.
pub proof fn lemma_residual_arcs<E, W>(
    edges: Seq<EdgeRecord<E, W>>,
    caps: Seq<u32>,
    flow: Flow,
    upto: int,
)
    requires
        0 <= upto <= edges.len(),
        caps.len() == edges.len(),
        forall|e: int| 0 <= e < caps.len() ==> (#[trigger] caps[e]) <= FLOW_LIMIT,
        forall|u: int, v: int| -3 * FLOW_LIMIT <= #[trigger] flow.at(u, v) <= 3 * FLOW_LIMIT,
    ensures
        forall|i: int|
            0 <= i < residual_arcs(edges, caps, flow, upto).len() ==> {
                let arc = #[trigger] residual_arcs(edges, caps, flow, upto)[i];
                &&& arc.1 >= 1
                &&& arc.0.weight is None
                &&& exists|e: int|
                    0 <= e < upto && {
                        ||| (#[trigger] edges[e]).from == arc.0.from && edges[e].to == arc.0.to
                            && arc.1 == caps[e] - flow.at(arc.0.from.0 as int, arc.0.to.0 as int)
                        ||| edges[e].from == arc.0.to && edges[e].to == arc.0.from && arc.1
                            == flow.at(arc.0.to.0 as int, arc.0.from.0 as int) && !has_edge(
                            edges,
                            arc.0.from,
                            arc.0.to,
                        )
                    }
            },
    decreases upto,
{
    if upto > 0 {
        lemma_residual_arcs(edges, caps, flow, upto - 1);
        let before = residual_arcs(edges, caps, flow, upto - 1);
        let now = residual_arcs(edges, caps, flow, upto);
        assert forall|i: int| 0 <= i < now.len() implies {
            let arc = #[trigger] now[i];
            &&& arc.1 >= 1
            &&& arc.0.weight is None
            &&& exists|e: int|
                0 <= e < upto && {
                    ||| (#[trigger] edges[e]).from == arc.0.from && edges[e].to == arc.0.to && arc.1
                        == caps[e] - flow.at(arc.0.from.0 as int, arc.0.to.0 as int)
                    ||| edges[e].from == arc.0.to && edges[e].to == arc.0.from && arc.1 == flow.at(
                        arc.0.to.0 as int,
                        arc.0.from.0 as int,
                    ) && !has_edge(edges, arc.0.from, arc.0.to)
                }
        } by {
            if i < before.len() {
                assert(now[i] == before[i]);
                let arc = before[i];
                let e = choose|e: int|
                    0 <= e < upto - 1 && {
                        ||| (#[trigger] edges[e]).from == arc.0.from && edges[e].to == arc.0.to
                            && arc.1 == caps[e] - flow.at(arc.0.from.0 as int, arc.0.to.0 as int)
                        ||| edges[e].from == arc.0.to && edges[e].to == arc.0.from && arc.1
                            == flow.at(arc.0.to.0 as int, arc.0.from.0 as int) && !has_edge(
                            edges,
                            arc.0.from,
                            arc.0.to,
                        )
                    };
                assert(0 <= e < upto);
            } else {
                let r = edges[upto - 1];
                assert(caps[upto - 1] <= FLOW_LIMIT);
                assert(-3 * FLOW_LIMIT <= flow.at(r.from.0 as int, r.to.0 as int) <= 3 * FLOW_LIMIT);
            }
        }
    }
}

/// The residual network of `net`: the same nodes, the residual records in
/// the order of the records they stem from, and no flow.
pub fn residual_network<S, GK>(net: &FlowNetwork<S, GK>) -> (residual: FlowNetwork<S, GK>) where
    S: MutableStorage,
    GK: GraphKindMarker,

    requires
        net.wf(),
        net.within(3 * FLOW_LIMIT),
    ensures
        residual.wf(),
        residual.source == net.source,
        residual.sink == net.sink,
        residual.graph.storage.keys() == net.graph.storage.keys(),
        residual.graph.storage.payloads() == net.graph.storage.payloads(),
        holds_arcs(
            residual.graph.storage.edges(),
            residual.capacity@,
            residual_arcs(
                net.graph.storage.edges(),
                net.capacity@,
                net.flow,
                net.graph.storage.edges().len() as int,
            ),
        ),
        forall|u: int, v: int| residual.flow.at(u, v) == 0,
{
    let mut storage = clone_nodes(&net.graph.storage);
    let mut capacity: Vec<u32> = Vec::new();
    let m = net.graph.storage.size();
    let ghost edges = net.graph.storage.edges();
    let mut i: usize = 0;
    while i < m
        invariant
            net.wf(),
            net.within(3 * FLOW_LIMIT),
            edges == net.graph.storage.edges(),
            m == edges.len(),
            i <= m,
            storage.wf(),
            storage.keys() == net.graph.storage.keys(),
            storage.payloads() == net.graph.storage.payloads(),
            holds_arcs(
                storage.edges(),
                capacity@,
                residual_arcs(edges, net.capacity@, net.flow, i as int),
            ),
        decreases m - i,
    {
        proof {
            net.graph.storage.lemma_wf();
        }
        let (src, dst) = net.graph.storage.endpoints(EdgeId(i));
        let meta = *net.graph.storage.edge_meta(EdgeId(i));
        let cap = net.capacity[i];
        let f = net.flow.get(src, dst);
        assert(-3 * FLOW_LIMIT <= net.flow.at(src.0 as int, dst.0 as int) <= 3 * FLOW_LIMIT);
        let room: i32 = cap as i32 - f;
        if room > 0 {
            storage.add_edge_by_id(src, dst, meta, None);
            capacity.push(room as u32);
        }
        let reverse = net.graph.storage.edges_between(dst, src);
        proof {
            net.graph.storage.lemma_between(dst, src);
        }
        if reverse.len() == 0 && f > 0 {
            storage.add_edge_by_id(dst, src, meta, None);
            capacity.push(f as u32);
        }
        i += 1;
    }
    let n = storage.order();
    FlowNetwork {
        graph: DirectedGraph::new(storage),
        capacity,
        source: net.source,
        sink: net.sink,
        flow: Flow::new(n),
    }
}

/// For every record with room left the residual records hold a forward
/// record of its pair, and for every record that carries flow and has no
/// reverse record they hold a backward record.
pub proof fn lemma_residual_complete<E, W>(
    edges: Seq<EdgeRecord<E, W>>,
    caps: Seq<u32>,
    flow: Flow,
    upto: int,
    e: int,
)
    requires
        0 <= e < upto <= edges.len(),
        caps.len() == edges.len(),
    ensures
        caps[e] - flow.at(edges[e].from.0 as int, edges[e].to.0 as int) > 0 ==> exists|i: int|
            0 <= i < residual_arcs(edges, caps, flow, upto).len() && (#[trigger] residual_arcs(
                edges,
                caps,
                flow,
                upto,
            )[i]).0.from == edges[e].from && residual_arcs(edges, caps, flow, upto)[i].0.to
                == edges[e].to,
        flow.at(edges[e].from.0 as int, edges[e].to.0 as int) > 0 && !has_edge(
            edges,
            edges[e].to,
            edges[e].from,
        ) ==> exists|i: int|
            0 <= i < residual_arcs(edges, caps, flow, upto).len() && (#[trigger] residual_arcs(
                edges,
                caps,
                flow,
                upto,
            )[i]).0.from == edges[e].to && residual_arcs(edges, caps, flow, upto)[i].0.to
                == edges[e].from,
    decreases upto,
{
    let now = residual_arcs(edges, caps, flow, upto);
    let before = residual_arcs(edges, caps, flow, upto - 1);
    let r = edges[upto - 1];
    let f = flow.at(r.from.0 as int, r.to.0 as int);
    let room = caps[upto - 1] - f;
    let forward = if room > 0 {
        before.push((EdgeRecord { from: r.from, to: r.to, meta: r.meta, weight: None }, room as u32))
    } else {
        before
    };
    if e < upto - 1 {
        lemma_residual_complete(edges, caps, flow, upto - 1, e);
        if caps[e] - flow.at(edges[e].from.0 as int, edges[e].to.0 as int) > 0 {
            let i = choose|i: int|
                0 <= i < before.len() && (#[trigger] before[i]).0.from == edges[e].from
                    && before[i].0.to == edges[e].to;
            assert(now[i] == before[i]);
        }
        if flow.at(edges[e].from.0 as int, edges[e].to.0 as int) > 0 && !has_edge(
            edges,
            edges[e].to,
            edges[e].from,
        ) {
            let i = choose|i: int|
                0 <= i < before.len() && (#[trigger] before[i]).0.from == edges[e].to
                    && before[i].0.to == edges[e].from;
            assert(now[i] == before[i]);
        }
    } else {
        if room > 0 {
            assert(now[before.len() as int].0.from == r.from);
            assert(now[before.len() as int].0.to == r.to);
        }
        if f > 0 && !has_edge(edges, r.to, r.from) {
            assert(now[forward.len() as int].0.from == r.to);
            assert(now[forward.len() as int].0.to == r.from);
        }
    }
}

/// Flow can still be pushed from `u` to `v`: some record of the pair has
/// room left, or the pair has no record and the reverse pair carries flow.
pub open spec fn can_push<E, W>(
    edges: Seq<EdgeRecord<E, W>>,
    caps: Seq<u32>,
    base: Flow,
    extra: Flow,
    u: NodeId,
    v: NodeId,
) -> bool {
    ||| exists|e: int|
        0 <= e < edges.len() && (#[trigger] edges[e]).from == u && edges[e].to == v && caps[e] - (
        base.at(u.0 as int, v.0 as int) + extra.at(u.0 as int, v.0 as int)) > 0
    ||| !has_edge(edges, u, v) && has_edge(edges, v, u) && base.at(v.0 as int, u.0 as int)
        + extra.at(v.0 as int, u.0 as int) > 0
}

/// Flow can be pushed along every step of `route`.
pub open spec fn augmenting<E, W>(
    edges: Seq<EdgeRecord<E, W>>,
    caps: Seq<u32>,
    base: Flow,
    extra: Flow,
    route: Seq<NodeId>,
) -> bool {
    &&& route.len() >= 1
    &&& forall|i: int|
        0 <= i < route.len() - 1 ==> can_push(edges, caps, base, extra, #[trigger] route[i], route[i + 1])
}

/// The flow from `v` to `u` is the negative of the flow from `u` to `v`.
pub open spec fn skew(flow: Flow) -> bool {
    forall|u: int, v: int| #[trigger] flow.at(u, v) == -flow.at(v, u)
}

/// One of the links of `chain`, which runs from the sink back to the
/// source, leads from `a` to `b`.
pub open spec fn pushed_over(chain: Seq<NodeId>, a: int, b: int) -> bool {
    exists|i: int| 0 <= i < chain.len() - 1 && (#[trigger] chain[i + 1]).0 == a && chain[i].0 == b
}

/// One of the first `upto` links of `chain` leads from `a` to `b`.
pub open spec fn pushed_before(chain: Seq<NodeId>, upto: int, a: int, b: int) -> bool {
    exists|i: int| 0 <= i < upto && i < chain.len() - 1 && (#[trigger] chain[i + 1]).0 == a && chain[i].0 == b
}

/// What pushing `amount` along the first `upto` links of `chain` adds to
/// the flow from `a` to `b`.
pub open spec fn push_gain(chain: Seq<NodeId>, upto: int, amount: int, a: int, b: int) -> int {
    (if pushed_before(chain, upto, a, b) {
        amount
    } else {
        0
    }) - (if pushed_before(chain, upto, b, a) {
        amount
    } else {
        0
    })
}

/// The flow from `u` to `v` is at most the capacity of some record from
/// `u` to `v`.
pub open spec fn within_capacity<E, W>(
    edges: Seq<EdgeRecord<E, W>>,
    caps: Seq<u32>,
    base: Flow,
    extra: Flow,
    u: NodeId,
    v: NodeId,
) -> bool {
    exists|e: int|
        0 <= e < edges.len() && (#[trigger] edges[e]).from == u && edges[e].to == v && base.at(
            u.0 as int,
            v.0 as int,
        ) + extra.at(u.0 as int, v.0 as int) <= caps[e]
}

/// For every ordered pair that has a record, the flow is at most the
/// capacity of some record of the pair; for a pair without a record it is
/// at most zero. The flow that was there to begin with is skew-symmetric.
pub open spec fn respects_capacities<E, W>(
    edges: Seq<EdgeRecord<E, W>>,
    caps: Seq<u32>,
    base: Flow,
    extra: Flow,
) -> bool {
    &&& skew(base)
    &&& forall|u: NodeId, v: NodeId| #[trigger]
        has_edge(edges, u, v) ==> within_capacity(edges, caps, base, extra, u, v)
    &&& forall|u: NodeId, v: NodeId|
        !#[trigger] has_edge(edges, u, v) ==> base.at(u.0 as int, v.0 as int) + extra.at(
            u.0 as int,
            v.0 as int,
        ) <= 0
}

/// The flow is skew-symmetric, at most the capacity of some record for
/// every ordered pair that has a record, and at most zero for a pair
/// without a record.
pub open spec fn is_feasible<E, W>(edges: Seq<EdgeRecord<E, W>>, caps: Seq<u32>, flow: Flow) -> bool {
    &&& skew(flow)
    &&& forall|u: NodeId, v: NodeId| #[trigger]
        has_edge(edges, u, v) ==> exists|e: int|
            0 <= e < caps.len() && (#[trigger] edges[e]).from == u && edges[e].to == v && flow.at(
                u.0 as int,
                v.0 as int,
            ) <= caps[e]
    &&& forall|u: NodeId, v: NodeId|
        !#[trigger] has_edge(edges, u, v) ==> flow.at(u.0 as int, v.0 as int) <= 0
}

/// Pushing an amount that the first residual record of every link admits
/// keeps the flow within the capacities.
pub proof fn lemma_push_respects<E, W>(
    edges: Seq<EdgeRecord<E, W>>,
    caps: Seq<u32>,
    base: Flow,
    before: Flow,
    after: Flow,
    total: Flow,
    res_edges: Seq<EdgeRecord<E, W>>,
    res_caps: Seq<u32>,
    chain: Seq<NodeId>,
    amount: int,
)
    requires
        caps.len() == edges.len(),
        forall|e: int| 0 <= e < caps.len() ==> (#[trigger] caps[e]) <= FLOW_LIMIT,
        forall|u: int, v: int| -3 * FLOW_LIMIT <= #[trigger] total.at(u, v) <= 3 * FLOW_LIMIT,
        forall|a: int, b: int| #[trigger] total.at(a, b) == base.at(a, b) + before.at(a, b),
        holds_arcs(res_edges, res_caps, residual_arcs(edges, caps, total, edges.len() as int)),
        respects_capacities(edges, caps, base, before),
        skew(before),
        forall|i: int|
            0 <= i < chain.len() - 1 ==> exists|r: int|
                0 <= r < res_edges.len() && (#[trigger] res_edges[r]).from == chain[i + 1]
                    && res_edges[r].to == #[trigger] chain[i] && amount <= res_caps[r],
        forall|a: int, b: int|
            #[trigger] after.at(a, b) <= before.at(a, b) || (pushed_over(chain, a, b) && after.at(
                a,
                b,
            ) == before.at(a, b) + amount),
    ensures
        respects_capacities(edges, caps, base, after),
{
    let arcs = residual_arcs(edges, caps, total, edges.len() as int);
    lemma_residual_arcs(edges, caps, total, edges.len() as int);
    assert forall|u: NodeId, v: NodeId| #[trigger] has_edge(edges, u, v) implies within_capacity(
        edges,
        caps,
        base,
        after,
        u,
        v,
    ) by {
        assert(within_capacity(edges, caps, base, before, u, v));
        let a = u.0 as int;
        let b = v.0 as int;
        if after.at(a, b) <= before.at(a, b) {
            let e = choose|e: int|
                0 <= e < edges.len() && (#[trigger] edges[e]).from == u && edges[e].to == v
                    && base.at(a, b) + before.at(a, b) <= caps[e];
            assert(base.at(a, b) + after.at(a, b) <= caps[e]);
        } else {
            let i = choose|i: int|
                0 <= i < chain.len() - 1 && (#[trigger] chain[i + 1]).0 == a && chain[i].0 == b;
            let r = choose|r: int|
                0 <= r < res_edges.len() && (#[trigger] res_edges[r]).from == chain[i + 1]
                    && res_edges[r].to == chain[i] && amount <= res_caps[r];
            assert(res_edges[r] == arcs[r].0);
            assert(res_caps[r] == arcs[r].1);
            assert(chain[i + 1] == u && chain[i] == v);
            let e = choose|e: int|
                0 <= e < edges.len() && {
                    ||| (#[trigger] edges[e]).from == arcs[r].0.from && edges[e].to == arcs[r].0.to
                        && arcs[r].1 == caps[e] - total.at(
                        arcs[r].0.from.0 as int,
                        arcs[r].0.to.0 as int,
                    )
                    ||| edges[e].from == arcs[r].0.to && edges[e].to == arcs[r].0.from && arcs[r].1
                        == total.at(arcs[r].0.to.0 as int, arcs[r].0.from.0 as int) && !has_edge(
                        edges,
                        arcs[r].0.from,
                        arcs[r].0.to,
                    )
                };
            assert(edges[e].from == u && edges[e].to == v);
            assert(base.at(a, b) + after.at(a, b) <= caps[e]);
        }
    }
    assert forall|u: NodeId, v: NodeId| !#[trigger] has_edge(edges, u, v) implies base.at(
        u.0 as int,
        v.0 as int,
    ) + after.at(u.0 as int, v.0 as int) <= 0 by {
        let a = u.0 as int;
        let b = v.0 as int;
        assert(base.at(a, b) + before.at(a, b) <= 0);
        if after.at(a, b) > before.at(a, b) {
            let i = choose|i: int|
                0 <= i < chain.len() - 1 && (#[trigger] chain[i + 1]).0 == a && chain[i].0 == b;
            let r = choose|r: int|
                0 <= r < res_edges.len() && (#[trigger] res_edges[r]).from == chain[i + 1]
                    && res_edges[r].to == chain[i] && amount <= res_caps[r];
            assert(res_edges[r] == arcs[r].0);
            assert(res_caps[r] == arcs[r].1);
            assert(chain[i + 1] == u && chain[i] == v);
            let e = choose|e: int|
                0 <= e < edges.len() && {
                    ||| (#[trigger] edges[e]).from == arcs[r].0.from && edges[e].to == arcs[r].0.to
                        && arcs[r].1 == caps[e] - total.at(
                        arcs[r].0.from.0 as int,
                        arcs[r].0.to.0 as int,
                    )
                    ||| edges[e].from == arcs[r].0.to && edges[e].to == arcs[r].0.from && arcs[r].1
                        == total.at(arcs[r].0.to.0 as int, arcs[r].0.from.0 as int) && !has_edge(
                        edges,
                        arcs[r].0.from,
                        arcs[r].0.to,
                    )
                };
            assert(edges[e].from == v && edges[e].to == u);
            assert(amount <= total.at(b, a));
            assert(base.at(a, b) == -base.at(b, a));
            assert(before.at(a, b) == -before.at(b, a));
            assert(total.at(a, b) == base.at(a, b) + before.at(a, b));
            assert(total.at(b, a) == base.at(b, a) + before.at(b, a));
        }
    }
}

/// The nodes from `sink` back to `source` along the parent links of a
/// search.
pub fn trace_back(parent: &Vec<Option<NodeId>>, source: NodeId, sink: NodeId, Ghost(rank): Ghost<
    Seq<nat>,
>) -> (chain: Vec<NodeId>)
    requires
        source.0 < parent@.len(),
        sink.0 < parent@.len(),
        rank.len() == parent@.len(),
        parent@[source.0 as int] is None,
        rank[source.0 as int] == 0,
        forall|x: int|
            0 <= x < parent@.len() && (#[trigger] parent@[x]) is Some ==> {
                let p = parent@[x]->Some_0;
                &&& p.0 < parent@.len()
                &&& rank[p.0 as int] + 1 == rank[x]
                &&& (p == source || parent@[p.0 as int] is Some)
            },
        sink == source || parent@[sink.0 as int] is Some,
    ensures
        chain@.len() == rank[sink.0 as int] + 1,
        chain@.len() >= 1,
        chain@[0] == sink,
        chain@.last() == source,
        forall|i: int| 0 <= i < chain@.len() ==> (#[trigger] chain@[i]).0 < parent@.len(),
        forall|i: int|
            0 <= i < chain@.len() - 1 ==> parent@[(#[trigger] chain@[i]).0 as int] == Some(
                chain@[i + 1],
            ),
        forall|i: int, j: int|
            0 <= i < j < chain@.len() ==> rank[(#[trigger] chain@[j]).0 as int] < rank[(
            #[trigger] chain@[i]).0 as int],
{
    let mut chain: Vec<NodeId> = Vec::new();
    chain.push(sink);
    let mut current = sink;
    let mut link = parent[current.0];
    while link.is_some()
        invariant
            source.0 < parent@.len(),
            sink.0 < parent@.len(),
            rank.len() == parent@.len(),
            parent@[source.0 as int] is None,
            rank[source.0 as int] == 0,
            forall|x: int|
                0 <= x < parent@.len() && (#[trigger] parent@[x]) is Some ==> {
                    let p = parent@[x]->Some_0;
                    &&& p.0 < parent@.len()
                    &&& rank[p.0 as int] + 1 == rank[x]
                    &&& (p == source || parent@[p.0 as int] is Some)
                },
            chain@.len() + rank[current.0 as int] == rank[sink.0 as int] + 1,
            current.0 < parent@.len(),
            current == source || parent@[current.0 as int] is Some,
            link == parent@[current.0 as int],
            chain@.len() >= 1,
            chain@[0] == sink,
            chain@.last() == current,
            forall|i: int| 0 <= i < chain@.len() ==> (#[trigger] chain@[i]).0 < parent@.len(),
            forall|i: int|
                0 <= i < chain@.len() - 1 ==> parent@[(#[trigger] chain@[i]).0 as int] == Some(
                    chain@[i + 1],
                ),
            forall|i: int, j: int|
                0 <= i < j < chain@.len() ==> rank[(#[trigger] chain@[j]).0 as int] < rank[(
                #[trigger] chain@[i]).0 as int],
        decreases rank[current.0 as int],
    {
        let up = link.unwrap();
        let ghost before = chain@;
        chain.push(up);
        proof {
            assert forall|i: int, j: int| 0 <= i < j < chain@.len() implies rank[(
            #[trigger] chain@[j]).0 as int] < rank[(#[trigger] chain@[i]).0 as int] by {
                if j == chain@.len() - 1 {
                    if i < j - 1 {
                        assert(rank[before[j - 1].0 as int] < rank[before[i].0 as int]);
                    }
                }
            }
        }
        current = up;
        link = parent[current.0];
    }
    chain
}

/// The least capacity along the links of `chain`, where each link counts
/// with the first record that the backend reports for its pair.
pub fn path_bottleneck<S, GK>(residual: &FlowNetwork<S, GK>, chain: &Vec<NodeId>) -> (least: u32)
    where S: StorageRepresentation, GK: GraphKindMarker
    requires
        residual.wf(),
        forall|i: int|
            0 <= i < chain@.len() - 1 ==> has_edge(
                residual.graph.storage.edges(),
                #[trigger] chain@[i + 1],
                chain@[i],
            ),
    ensures
        forall|i: int|
            0 <= i < chain@.len() - 1 ==> least <= residual.capacity@[residual.graph.storage.between(
                #[trigger] chain@[i + 1],
                chain@[i],
            )[0].0 as int],
        chain@.len() >= 2 ==> exists|i: int|
            0 <= i < chain@.len() - 1 && least == residual.capacity@[residual.graph.storage.between(
                #[trigger] chain@[i + 1],
                chain@[i],
            )[0].0 as int],
        chain@.len() < 2 ==> least == u32::MAX,
{
    let mut least: u32 = u32::MAX;
    let links = if chain.len() == 0 {
        0
    } else {
        chain.len() - 1
    };
    let mut i: usize = 0;
    while i < links
        invariant
            residual.wf(),
            links == if chain@.len() == 0 { 0 } else { chain@.len() - 1 },
            forall|k: int|
                0 <= k < chain@.len() - 1 ==> has_edge(
                    residual.graph.storage.edges(),
                    #[trigger] chain@[k + 1],
                    chain@[k],
                ),
            i <= chain@.len(),
            forall|k: int|
                0 <= k < i && k < chain@.len() - 1 ==> least
                    <= residual.capacity@[residual.graph.storage.between(
                    #[trigger] chain@[k + 1],
                    chain@[k],
                )[0].0 as int],
            i >= 1 ==> exists|k: int|
                0 <= k < i && k < chain@.len() - 1 && least
                    == residual.capacity@[residual.graph.storage.between(
                    #[trigger] chain@[k + 1],
                    chain@[k],
                )[0].0 as int],
            i == 0 ==> least == u32::MAX,
        decreases chain@.len() - i,
    {
        let u = chain[i + 1];
        let v = chain[i];
        let ids = residual.graph.storage.edges_between(u, v);
        proof {
            residual.graph.storage.lemma_between(u, v);
            assert(has_edge(residual.graph.storage.edges(), chain@[i as int + 1], chain@[i as int]));
        }
        let cap = residual.capacity[ids[0].0];
        if cap < least {
            least = cap;
        }
        proof {
            if least == cap {
                assert(least == residual.capacity@[residual.graph.storage.between(
                    chain@[i as int + 1],
                    chain@[i as int],
                )[0].0 as int]);
            }
        }
        i += 1;
    }
    least
}

/// Adds `amount` to the flow along every link of `chain`, which runs from
/// the sink back to the source, and subtracts it in the reverse direction.
pub fn push_along(flow: &mut Flow, chain: &Vec<NodeId>, amount: u32, Ghost(rank): Ghost<Seq<nat>>)
    requires
        old(flow).wf(),
        skew(*old(flow)),
        chain@.len() >= 2,
        rank.len() == old(flow).dim(),
        forall|i: int| 0 <= i < chain@.len() ==> (#[trigger] chain@[i]).0 < old(flow).dim(),
        forall|i: int, j: int|
            0 <= i < j < chain@.len() ==> rank[(#[trigger] chain@[j]).0 as int] < rank[(
            #[trigger] chain@[i]).0 as int],
        forall|u: int, v: int| -2 * FLOW_LIMIT <= #[trigger] old(flow).at(u, v) <= 2 * FLOW_LIMIT,
        forall|i: int|
            0 <= i < chain@.len() - 1 ==> old(flow).at(
                (#[trigger] chain@[i + 1]).0 as int,
                chain@[i].0 as int,
            ) + amount <= 2 * FLOW_LIMIT,
    ensures
        final(flow).wf(),
        final(flow).dim() == old(flow).dim(),
        skew(*final(flow)),
        forall|u: int, v: int| -2 * FLOW_LIMIT <= #[trigger] final(flow).at(u, v) <= 2 * FLOW_LIMIT,
        forall|x: int|
            x != chain@[0].0 && x != chain@.last().0 ==> #[trigger] final(flow).net_out(x) == old(
                flow,
            ).net_out(x),
        final(flow).net_out(chain@.last().0 as int) == old(flow).net_out(chain@.last().0 as int)
            + amount,
        final(flow).net_out(chain@[0].0 as int) == old(flow).net_out(chain@[0].0 as int) - amount,
        forall|a: int, b: int|
            #[trigger] final(flow).at(a, b) <= old(flow).at(a, b) || (pushed_over(chain@, a, b)
                && final(flow).at(a, b) == old(flow).at(a, b) + amount),
        forall|a: int, b: int|
            #[trigger] final(flow).at(a, b) == old(flow).at(a, b) + push_gain(
                chain@,
                chain@.len() - 1,
                amount as int,
                a,
                b,
            ),
{
    let ghost start = *flow;
    let ghost sink = chain@[0].0 as int;
    let links = chain.len() - 1;
    let mut i: usize = 0;
    while i < links
        invariant
            flow.wf(),
            links == chain@.len() - 1,
            flow.dim() == start.dim(),
            skew(*flow),
            skew(start),
            chain@.len() >= 2,
            sink == chain@[0].0,
            rank.len() == flow.dim(),
            i < chain@.len(),
            forall|k: int| 0 <= k < chain@.len() ==> (#[trigger] chain@[k]).0 < flow.dim(),
            forall|k: int, j: int|
                0 <= k < j < chain@.len() ==> rank[(#[trigger] chain@[j]).0 as int] < rank[(
                #[trigger] chain@[k]).0 as int],
            forall|u: int, v: int| -2 * FLOW_LIMIT <= #[trigger] start.at(u, v) <= 2 * FLOW_LIMIT,
            forall|u: int, v: int| -2 * FLOW_LIMIT <= #[trigger] flow.at(u, v) <= 2 * FLOW_LIMIT,
            forall|k: int|
                0 <= k < chain@.len() - 1 ==> start.at(
                    (#[trigger] chain@[k + 1]).0 as int,
                    chain@[k].0 as int,
                ) + amount <= 2 * FLOW_LIMIT,
            forall|u: int, v: int|
                0 <= u < flow.dim() && 0 <= v < flow.dim() && rank[u] <= rank[chain@[i as int].0 as int]
                    && rank[v] <= rank[chain@[i as int].0 as int] ==> #[trigger] flow.at(u, v)
                    == start.at(u, v),
            forall|x: int|
                x != chain@[i as int].0 && x != sink ==> #[trigger] flow.net_out(x) == start.net_out(
                    x,
                ),
            i > 0 ==> flow.net_out(chain@[i as int].0 as int) == start.net_out(
                chain@[i as int].0 as int,
            ) + amount,
            i > 0 ==> flow.net_out(sink) == start.net_out(sink) - amount,
            i == 0 ==> flow.net_out(sink) == start.net_out(sink),
            forall|a: int, b: int|
                #[trigger] flow.at(a, b) <= start.at(a, b) || (pushed_over(chain@, a, b) && flow.at(
                    a,
                    b,
                ) == start.at(a, b) + amount),
            forall|a: int, b: int|
                #[trigger] flow.at(a, b) == start.at(a, b) + push_gain(chain@, i as int, amount as int, a, b),
        decreases chain@.len() - i,
    {
        let u = chain[i + 1];
        let v = chain[i];
        proof {
            assert(rank[chain@[i as int + 1].0 as int] < rank[chain@[i as int].0 as int]);
            assert(rank[chain@[i as int].0 as int] <= rank[chain@[0].0 as int]) by {
                if i > 0 {
                    assert(rank[chain@[i as int].0 as int] < rank[chain@[0].0 as int]);
                }
            }
            assert(flow.at(u.0 as int, v.0 as int) == start.at(u.0 as int, v.0 as int));
            assert(flow.at(v.0 as int, u.0 as int) == start.at(v.0 as int, u.0 as int));
            assert(start.at(chain@[i as int + 1].0 as int, chain@[i as int].0 as int) + amount <= 2
                * FLOW_LIMIT);
            assert(flow.at(v.0 as int, u.0 as int) == -flow.at(u.0 as int, v.0 as int));
        }
        let forward = flow.get(u, v);
        let backward = flow.get(v, u);
        let ghost mid = *flow;
        flow.put(u, v, forward + amount as i32);
        let ghost half = *flow;
        flow.put(v, u, backward - amount as i32);
        proof {
            assert(u.0 != v.0);
            assert(u.0 != sink);
            assert(half.net_out(u.0 as int) == mid.net_out(u.0 as int) + amount);
            assert(half.net_out(v.0 as int) == mid.net_out(v.0 as int));
            assert(half.at(v.0 as int, u.0 as int) == mid.at(v.0 as int, u.0 as int));
            assert(flow.net_out(v.0 as int) == mid.net_out(v.0 as int) - amount);
            assert(flow.net_out(u.0 as int) == mid.net_out(u.0 as int) + amount);
            if i > 0 {
                assert(rank[chain@[i as int].0 as int] < rank[chain@[0].0 as int]);
                assert(v.0 != sink);
            }
            if v.0 != sink {
                assert(half.net_out(sink) == mid.net_out(sink));
                assert(flow.net_out(sink) == mid.net_out(sink));
            }
            assert forall|a: int, b: int| #[trigger] flow.at(a, b) == -flow.at(b, a) by {
                assert(mid.at(a, b) == -mid.at(b, a));
            }
            assert forall|a: int, b: int| -2 * FLOW_LIMIT <= #[trigger] flow.at(a, b) <= 2
                * FLOW_LIMIT by {
                assert(-2 * FLOW_LIMIT <= mid.at(a, b) <= 2 * FLOW_LIMIT);
            }
            assert forall|a: int, b: int|
                0 <= a < flow.dim() && 0 <= b < flow.dim() && rank[a] <= rank[u.0 as int] && rank[b]
                    <= rank[u.0 as int] implies #[trigger] flow.at(a, b) == start.at(a, b) by {
                assert(mid.at(a, b) == start.at(a, b));
            }
            assert forall|x: int| x != u.0 && x != sink implies #[trigger] flow.net_out(x)
                == start.net_out(x) by {
                if x != v.0 {
                    assert(mid.net_out(x) == start.net_out(x));
                }
            }
            assert forall|a: int, b: int|
                #[trigger] flow.at(a, b) <= start.at(a, b) || (pushed_over(chain@, a, b) && flow.at(
                    a,
                    b,
                ) == start.at(a, b) + amount) by {
                if a == u.0 && b == v.0 {
                    assert(chain@[i + 1].0 == a && chain@[i as int].0 == b);
                    assert(pushed_over(chain@, a, b));
                } else if a == v.0 && b == u.0 {
                } else {
                    assert(flow.at(a, b) == mid.at(a, b));
                    assert(mid.at(a, b) <= start.at(a, b) || (pushed_over(chain@, a, b) && mid.at(
                        a,
                        b,
                    ) == start.at(a, b) + amount));
                }
            }
            assert forall|a: int, b: int| #[trigger] flow.at(a, b) == start.at(a, b) + push_gain(
                chain@,
                i as int + 1,
                amount as int,
                a,
                b,
            ) by {
                lemma_push_gain(chain@, rank, i as int, amount as int, a, b);
                assert(mid.at(a, b) == start.at(a, b) + push_gain(chain@, i as int, amount as int, a, b));
                if a == u.0 && b == v.0 {
                } else if a == v.0 && b == u.0 {
                } else {
                    assert(flow.at(a, b) == mid.at(a, b));
                }
            }
        }
        i += 1;
    }
}

/// One link more of a chain without repeated nodes adds the amount to the
/// flow along the link, takes it from the flow against the link, and
/// changes nothing else; before, nothing was pushed along or against that
/// link.
pub proof fn lemma_push_gain(chain: Seq<NodeId>, rank: Seq<nat>, i: int, amount: int, a: int, b: int)
    requires
        0 <= i < chain.len() - 1,
        forall|k: int| 0 <= k < chain.len() ==> (#[trigger] chain[k]).0 < rank.len(),
        forall|k: int, j: int|
            0 <= k < j < chain.len() ==> rank[(#[trigger] chain[j]).0 as int] < rank[(
            #[trigger] chain[k]).0 as int],
    ensures
        push_gain(chain, i + 1, amount, a, b) == push_gain(chain, i, amount, a, b) + (if a
            == chain[i + 1].0 && b == chain[i].0 {
            amount
        } else {
            0
        }) - (if b == chain[i + 1].0 && a == chain[i].0 {
            amount
        } else {
            0
        }),
        (a == chain[i + 1].0 && b == chain[i].0) || (b == chain[i + 1].0 && a == chain[i].0)
            ==> push_gain(chain, i, amount, a, b) == 0,
{
    lemma_link_once(chain, rank, i, a, b);
    lemma_link_once(chain, rank, i, b, a);
}

/// Whether one of the first links of a chain without repeated nodes leads
/// from `a` to `b`, with one link more.
pub proof fn lemma_link_once(chain: Seq<NodeId>, rank: Seq<nat>, i: int, a: int, b: int)
    requires
        0 <= i < chain.len() - 1,
        forall|k: int| 0 <= k < chain.len() ==> (#[trigger] chain[k]).0 < rank.len(),
        forall|k: int, j: int|
            0 <= k < j < chain.len() ==> rank[(#[trigger] chain[j]).0 as int] < rank[(
            #[trigger] chain[k]).0 as int],
    ensures
        pushed_before(chain, i + 1, a, b) == (pushed_before(chain, i, a, b) || (a == chain[i + 1].0
            && b == chain[i].0)),
        (a == chain[i + 1].0 && b == chain[i].0) || (b == chain[i + 1].0 && a == chain[i].0)
            ==> !pushed_before(chain, i, a, b),
{
    if pushed_before(chain, i + 1, a, b) {
        let k = choose|k: int|
            0 <= k < i + 1 && k < chain.len() - 1 && (#[trigger] chain[k + 1]).0 == a && chain[k].0 == b;
        if k < i {
            assert(pushed_before(chain, i, a, b));
        }
    }
    if pushed_before(chain, i, a, b) {
        let k = choose|k: int|
            0 <= k < i && k < chain.len() - 1 && (#[trigger] chain[k + 1]).0 == a && chain[k].0 == b;
        assert(0 <= k < i + 1);
        assert(pushed_before(chain, i + 1, a, b));
        if a == chain[i + 1].0 {
            assert(rank[chain[i + 1].0 as int] < rank[chain[k + 1].0 as int] || k + 1 == i + 1);
        }
        if b == chain[i + 1].0 {
            assert(rank[chain[i + 1].0 as int] < rank[chain[k].0 as int]);
        }
    }
    if a == chain[i + 1].0 && b == chain[i].0 {
        assert(pushed_before(chain, i + 1, a, b));
    }
}

/// An independent copy of a list of capacities.
pub fn copy_capacities(capacity: &Vec<u32>) -> (copy: Vec<u32>)
    ensures
        copy@ == capacity@,
{
    let mut copy: Vec<u32> = Vec::new();
    let mut i: usize = 0;
    while i < capacity.len()
        invariant
            i <= capacity@.len(),
            copy@ == capacity@.take(i as int),
        decreases capacity@.len() - i,
    {
        copy.push(capacity[i]);
        i += 1;
        assert(copy@ =~= capacity@.take(i as int));
    }
    assert(capacity@.take(i as int) =~= capacity@);
    copy
}

/// An independent copy of `net` that carries `flow`.
pub fn clone_network<S, GK>(net: &FlowNetwork<S, GK>, flow: &Flow) -> (copy: FlowNetwork<S, GK>)
    where S: MutableStorage + EdgeWeights, GK: GraphKindMarker
    requires
        net.wf(),
        flow.wf(),
        flow.dim() == net.flow.dim(),
    ensures
        copy.wf(),
        copy.graph.storage.keys() == net.graph.storage.keys(),
        copy.graph.storage.payloads() == net.graph.storage.payloads(),
        copy.graph.storage.edges() == net.graph.storage.edges(),
        copy.capacity@ == net.capacity@,
        copy.source == net.source,
        copy.sink == net.sink,
        forall|u: int, v: int| #[trigger] copy.flow.at(u, v) == flow.at(u, v),
{
    FlowNetwork {
        graph: DirectedGraph::new(clone_storage(&net.graph.storage)),
        capacity: copy_capacities(&net.capacity),
        source: net.source,
        sink: net.sink,
        flow: flow.duplicate(),
    }
}

/// The keys of the nodes of `chain`, last node first.
pub fn route_keys<G: GraphBase>(graph: &G, chain: &Vec<NodeId>) -> (keys: Vec<G::Key>)
    requires
        graph.wf(),
        forall|i: int| 0 <= i < chain@.len() ==> (#[trigger] chain@[i]).0 < graph.keys().len(),
    ensures
        keys@.len() == chain@.len(),
        forall|i: int|
            0 <= i < keys@.len() ==> (#[trigger] keys@[i])@ == graph.keys()[chain@[chain@.len() - 1
                - i].0 as int],
{
    let mut collected: Vec<G::Key> = Vec::new();
    let mut i: usize = 0;
    while i < chain.len()
        invariant
            graph.wf(),
            forall|k: int| 0 <= k < chain@.len() ==> (#[trigger] chain@[k]).0 < graph.keys().len(),
            i <= chain@.len(),
            collected@.len() == i,
            forall|k: int|
                0 <= k < i ==> (#[trigger] collected@[k])@ == graph.keys()[chain@[k].0 as int],
        decreases chain@.len() - i,
    {
        collected.push(graph.node_key(chain[i]).key_clone());
        i += 1;
    }
    reverse_keys(collected)
}

/// One round of the algorithm: the residual network, then, if a path was
/// found, the network with the flow pushed so far, the keys along the path
/// from source to sink, and the bottleneck of the path.
pub type FlowStep<S, GK> = (
    FlowNetwork<S, GK>,
    Option<FlowNetwork<S, GK>>,
    Vec<<S as GraphBase>::Key>,
    u32,
);

/// The sum of the bottlenecks of `steps`.
pub open spec fn pushed<S: StorageRepresentation, GK: GraphKindMarker>(
    steps: Seq<FlowStep<S, GK>>,
) -> int
    decreases steps.len(),
{
    if steps.len() == 0 {
        0
    } else {
        pushed(steps.drop_last()) + steps.last().3
    }
}

/// `route` is the route that the breadth-first search of the graph finds
/// from `source` to `sink`: the search takes the nodes in the order
/// `order`, each node has the parent from whose successors it was first
/// seen, and the route follows the parent links.
pub open spec fn is_searched_route<G: GraphBase>(
    g: &G,
    source: NodeId,
    sink: NodeId,
    route: Seq<NodeId>,
    parent: Seq<Option<NodeId>>,
    order: Seq<usize>,
    via: Seq<(int, int)>,
    done: int,
) -> bool {
    &&& is_first_search(g, source, sink, true, parent, order, via, done)
    &&& route.len() >= 1
    &&& route[0] == source
    &&& route.last() == sink
    &&& forall|i: int|
        0 <= i < route.len() - 1 ==> (#[trigger] route[i + 1]).0 < parent.len() && parent[route[i
            + 1].0 as int] == Some(route[i])
}

/// A round that pushed flow along a path from `source` to `sink`: the
/// path runs over records of the residual network of the round, no route
/// from `source` to `sink` in that network has fewer nodes, and the path
/// is the one that the breadth-first search of that network finds, which
/// goes through the successors of a node in the order in which the
/// network lists them.
pub open spec fn is_augmenting_step<S: StorageRepresentation, GK: GraphKindMarker>(
    step: FlowStep<S, GK>,
    keys: Seq<<S::Key as View>::V>,
    source: NodeId,
    sink: NodeId,
) -> bool {
    &&& step.0.wf()
    &&& step.0.graph.storage.keys() == keys
    &&& step.1 is Some
    &&& step.1->Some_0.wf()
    &&& step.3 >= 1
    &&& step.2@.len() >= 2
    &&& step.2@[0]@ == keys[source.0 as int]
    &&& step.2@.last()@ == keys[sink.0 as int]
    &&& exists|route: Seq<NodeId>|
        {
            &&& #[trigger] is_route(&step.0.graph, route)
            &&& route[0] == source
            &&& route.last() == sink
            &&& route.len() == step.2@.len()
            &&& forall|i: int|
                0 <= i < route.len() ==> (#[trigger] route[i]).0 < keys.len() && step.2@[i]@
                    == keys[route[i].0 as int]
        }
    &&& forall|other: Seq<NodeId>|
        #[trigger] is_route(&step.0.graph, other) && other[0] == source && other.last() == sink
            ==> step.2@.len() <= other.len()
    &&& exists|
        route: Seq<NodeId>,
        parent: Seq<Option<NodeId>>,
        order: Seq<usize>,
        via: Seq<(int, int)>,
        done: int,
    |
        {
            &&& #[trigger] is_searched_route(
                &step.0.graph,
                source,
                sink,
                route,
                parent,
                order,
                via,
                done,
            )
            &&& route.len() == step.2@.len()
            &&& forall|i: int|
                0 <= i < route.len() ==> (#[trigger] route[i]).0 < keys.len() && step.2@[i]@
                    == keys[route[i].0 as int]
        }
}

/// The round that found no path and ended the algorithm.
pub open spec fn is_final_step<S: StorageRepresentation, GK: GraphKindMarker>(
    step: FlowStep<S, GK>,
    keys: Seq<<S::Key as View>::V>,
) -> bool {
    &&& step.0.wf()
    &&& step.0.graph.storage.keys() == keys
    &&& step.1 is None
    &&& step.2@.len() == 0
    &&& step.3 == 0
}

/// `least` is the least capacity along the links of `chain`, which runs
/// from the sink back to the source, where each link counts with the
/// first record that the backend reports for its pair.
pub open spec fn is_bottleneck<S: StorageRepresentation, GK: GraphKindMarker>(
    residual: &FlowNetwork<S, GK>,
    chain: Seq<NodeId>,
    least: u32,
) -> bool {
    &&& forall|i: int|
        0 <= i < chain.len() - 1 ==> least <= residual.capacity@[residual.graph.storage.between(
            #[trigger] chain[i + 1],
            chain[i],
        )[0].0 as int]
    &&& exists|i: int|
        0 <= i < chain.len() - 1 && least == residual.capacity@[residual.graph.storage.between(
            #[trigger] chain[i + 1],
            chain[i],
        )[0].0 as int]
}

/// The flow from `a` to `b` that was pushed before round `i`: what the
/// network of the round before carries, and nothing before the first
/// round.
pub open spec fn carried<S: StorageRepresentation, GK: GraphKindMarker>(
    steps: Seq<FlowStep<S, GK>>,
    i: int,
    a: int,
    b: int,
) -> int {
    if 0 < i <= steps.len() && steps[i - 1].1 is Some {
        steps[i - 1].1->Some_0.flow.at(a, b)
    } else {
        0
    }
}

/// Round `i` pushed its bottleneck along `chain`, its path read from the
/// sink back to the source: the bottleneck is the least capacity along
/// the path in the residual network of the round, and the network of the
/// round carries what was pushed before, plus the bottleneck along every
/// link of the path and minus the bottleneck against it.
pub open spec fn is_push<S: StorageRepresentation, GK: GraphKindMarker>(
    steps: Seq<FlowStep<S, GK>>,
    i: int,
    chain: Seq<NodeId>,
    keys: Seq<<S::Key as View>::V>,
) -> bool {
    let step = steps[i];
    &&& chain.len() == step.2@.len()
    &&& forall|k: int|
        0 <= k < chain.len() ==> (#[trigger] chain[k]).0 < keys.len() && step.2@[chain.len() - 1 - k]@
            == keys[chain[k].0 as int]
    &&& is_bottleneck(&step.0, chain, step.3)
    &&& forall|a: int, b: int|
        #[trigger] step.1->Some_0.flow.at(a, b) == carried(steps, i, a, b) + push_gain(
            chain,
            chain.len() - 1,
            step.3 as int,
            a,
            b,
        )
}

/// `total` is the flow that the network carries when round `i` begins,
/// and the residual network of the round holds its residual records.
pub open spec fn is_residual_of<S: StorageRepresentation, GK: GraphKindMarker>(
    steps: Seq<FlowStep<S, GK>>,
    i: int,
    edges: Seq<EdgeRecord<S::EdgeMeta, S::Weight>>,
    caps: Seq<u32>,
    initial: Flow,
    total: Flow,
) -> bool {
    &&& forall|a: int, b: int| #[trigger] total.at(a, b) == initial.at(a, b) + carried(steps, i, a, b)
    &&& holds_arcs(
        steps[i].0.graph.storage.edges(),
        steps[i].0.capacity@,
        residual_arcs(edges, caps, total, edges.len() as int),
    )
}

/// What round `i` holds: the residual network of the flow that the
/// network carried when the round began and, if a path was found, the
/// network with the flow after the bottleneck of the path was pushed
/// along it.
pub open spec fn is_round<S: StorageRepresentation, GK: GraphKindMarker>(
    steps: Seq<FlowStep<S, GK>>,
    i: int,
    edges: Seq<EdgeRecord<S::EdgeMeta, S::Weight>>,
    caps: Seq<u32>,
    initial: Flow,
    keys: Seq<<S::Key as View>::V>,
) -> bool {
    &&& exists|total: Flow| #[trigger] is_residual_of(steps, i, edges, caps, initial, total)
    &&& steps[i].1 is Some ==> {
        &&& steps[i].1->Some_0.graph.storage.edges() == edges
        &&& steps[i].1->Some_0.capacity@ == caps
        &&& exists|chain: Seq<NodeId>| #[trigger] is_push(steps, i, chain, keys)
    }
}

/// Every round holds what it should.
pub open spec fn is_trace<S: StorageRepresentation, GK: GraphKindMarker>(
    steps: Seq<FlowStep<S, GK>>,
    edges: Seq<EdgeRecord<S::EdgeMeta, S::Weight>>,
    caps: Seq<u32>,
    initial: Flow,
    keys: Seq<<S::Key as View>::V>,
) -> bool {
    forall|i: int| 0 <= i < steps.len() ==> #[trigger] is_round(steps, i, edges, caps, initial, keys)
}

/// One round more keeps the trace, if the round holds what it should.
pub proof fn lemma_round_added<S: StorageRepresentation, GK: GraphKindMarker>(
    before: Seq<FlowStep<S, GK>>,
    step: FlowStep<S, GK>,
    edges: Seq<EdgeRecord<S::EdgeMeta, S::Weight>>,
    caps: Seq<u32>,
    initial: Flow,
    keys: Seq<<S::Key as View>::V>,
    total: Flow,
    flow_before: Flow,
    chain: Seq<NodeId>,
)
    requires
        is_trace(before, edges, caps, initial, keys),
        forall|a: int, b: int|
            #[trigger] flow_before.at(a, b) == carried(before, before.len() as int, a, b),
        forall|a: int, b: int| #[trigger] total.at(a, b) == initial.at(a, b) + flow_before.at(a, b),
        holds_arcs(
            step.0.graph.storage.edges(),
            step.0.capacity@,
            residual_arcs(edges, caps, total, edges.len() as int),
        ),
        step.1 is Some ==> {
            &&& step.1->Some_0.graph.storage.edges() == edges
            &&& step.1->Some_0.capacity@ == caps
            &&& chain.len() == step.2@.len()
            &&& forall|k: int|
                0 <= k < chain.len() ==> (#[trigger] chain[k]).0 < keys.len() && step.2@[chain.len() - 1
                    - k]@ == keys[chain[k].0 as int]
            &&& is_bottleneck(&step.0, chain, step.3)
            &&& forall|a: int, b: int|
                #[trigger] step.1->Some_0.flow.at(a, b) == flow_before.at(a, b) + push_gain(
                    chain,
                    chain.len() - 1,
                    step.3 as int,
                    a,
                    b,
                )
        },
    ensures
        is_trace(before.push(step), edges, caps, initial, keys),
        step.1 is Some ==> forall|a: int, b: int|
            #[trigger] step.1->Some_0.flow.at(a, b) == carried(
                before.push(step),
                before.len() as int + 1,
                a,
                b,
            ),
        forall|a: int, b: int|
            #[trigger] flow_before.at(a, b) == carried(before.push(step), before.len() as int, a, b),
{
    let after = before.push(step);
    let last = before.len() as int;
    assert forall|i: int, a: int, b: int| 0 <= i <= last implies #[trigger] carried(after, i, a, b)
        == carried(before, i, a, b) by {
        if i > 0 {
            assert(after[i - 1] == before[i - 1]);
        }
    }
    assert forall|i: int| 0 <= i < after.len() implies #[trigger] is_round(
        after,
        i,
        edges,
        caps,
        initial,
        keys,
    ) by {
        if i < last {
            assert(is_round(before, i, edges, caps, initial, keys));
            assert(after[i] == before[i]);
            let t = choose|t: Flow| #[trigger] is_residual_of(before, i, edges, caps, initial, t);
            assert forall|a: int, b: int| #[trigger] t.at(a, b) == initial.at(a, b) + carried(
                after,
                i,
                a,
                b,
            ) by {
                assert(carried(after, i, a, b) == carried(before, i, a, b));
            }
            assert(is_residual_of(after, i, edges, caps, initial, t));
            if after[i].1 is Some {
                let c = choose|c: Seq<NodeId>| #[trigger] is_push(before, i, c, keys);
                assert forall|a: int, b: int| #[trigger] after[i].1->Some_0.flow.at(a, b) == carried(
                    after,
                    i,
                    a,
                    b,
                ) + push_gain(c, c.len() - 1, after[i].3 as int, a, b) by {
                    assert(carried(after, i, a, b) == carried(before, i, a, b));
                }
                assert(is_push(after, i, c, keys));
            }
        } else {
            assert(after[i] == step);
            assert forall|a: int, b: int| #[trigger] total.at(a, b) == initial.at(a, b) + carried(
                after,
                i,
                a,
                b,
            ) by {
                assert(carried(after, i, a, b) == carried(before, i, a, b));
                assert(flow_before.at(a, b) == carried(before, last, a, b));
            }
            assert(is_residual_of(after, i, edges, caps, initial, total));
            if step.1 is Some {
                assert forall|a: int, b: int| #[trigger] after[i].1->Some_0.flow.at(a, b) == carried(
                    after,
                    i,
                    a,
                    b,
                ) + push_gain(chain, chain.len() - 1, after[i].3 as int, a, b) by {
                    assert(carried(after, i, a, b) == carried(before, i, a, b));
                    assert(flow_before.at(a, b) == carried(before, last, a, b));
                }
                assert(is_push(after, i, chain, keys));
            }
        }
    }
    assert forall|a: int, b: int| #[trigger] flow_before.at(a, b) == carried(after, last, a, b) by {
        assert(carried(after, last, a, b) == carried(before, last, a, b));
    }
}

/// The value of a maximum flow, the flow that was pushed to reach it, and
/// the rounds of the algorithm.
pub struct FordFulkersonResult<S: StorageRepresentation, GK: GraphKindMarker> {
    pub max_flow: u64,
    pub flow: Flow,
    pub steps: Vec<FlowStep<S, GK>>,
}

/// Once no route leads from the source to the sink of the residual
/// network, no route along which flow can be pushed does.
pub proof fn lemma_saturated<S: StorageRepresentation, GK: GraphKindMarker>(
    residual: &FlowNetwork<S, GK>,
    edges: Seq<EdgeRecord<S::EdgeMeta, S::Weight>>,
    caps: Seq<u32>,
    total: Flow,
    base: Flow,
    extra: Flow,
)
    requires
        caps.len() == edges.len(),
        forall|a: int, b: int| #[trigger] total.at(a, b) == base.at(a, b) + extra.at(a, b),
        holds_arcs(
            residual.graph.storage.edges(),
            residual.capacity@,
            residual_arcs(edges, caps, total, edges.len() as int),
        ),
        forall|route: Seq<NodeId>|
            #[trigger] is_route(&residual.graph, route) && route[0] == residual.source
                ==> route.last() != residual.sink,
    ensures
        forall|route: Seq<NodeId>|
            #[trigger] augmenting(edges, caps, base, extra, route) && route[0] == residual.source
                ==> route.last() != residual.sink,
{
    assert forall|route: Seq<NodeId>|
        #[trigger] augmenting(edges, caps, base, extra, route) && route[0]
            == residual.source implies route.last() != residual.sink by {
        assert forall|i: int| 0 <= i < route.len() - 1 implies joined(
            &residual.graph,
            #[trigger] route[i],
            route[i + 1],
        ) by {
            let u = route[i];
            let v = route[i + 1];
            assert(can_push(edges, caps, base, extra, u, v));
            lemma_push_is_arc(
                edges,
                caps,
                total,
                base,
                extra,
                residual.graph.storage.edges(),
                residual.capacity@,
                u,
                v,
            );
        }
        assert(is_route(&residual.graph, route));
    }
}

/// One round that pushes flow: follows the parent links of the search
/// from the sink back to the source, takes the least capacity on the way
/// and pushes that much along the path. Returns the flow that the network
/// carries afterwards, the keys along the path, the amount, and the path
/// itself from the sink back to the source.
fn augment<S, GK>(
    net: &FlowNetwork<S, GK>,
    residual: &FlowNetwork<S, GK>,
    parent: &Vec<Option<NodeId>>,
    base_flow: &Flow,
    flow: &mut Flow,
    Ghost(initial): Ghost<Flow>,
    Ghost(hops): Ghost<Seq<nat>>,
    Ghost(feasible): Ghost<bool>,
) -> (out: (Flow, Vec<S::Key>, u32, Ghost<Seq<NodeId>>)) where
    S: StorageRepresentation,
    GK: GraphKindMarker,

    requires
        net.wf(),
        residual.wf(),
        net.source != net.sink,
        residual.source == net.source,
        residual.sink == net.sink,
        residual.graph.storage.keys() == net.graph.storage.keys(),
        forall|e: int| 0 <= e < net.capacity@.len() ==> (#[trigger] net.capacity@[e]) <= FLOW_LIMIT,
        holds_arcs(
            residual.graph.storage.edges(),
            residual.capacity@,
            residual_arcs(
                net.graph.storage.edges(),
                net.capacity@,
                net.flow,
                net.graph.storage.edges().len() as int,
            ),
        ),
        is_search_tree(&residual.graph, net.source, parent@, hops),
        parent@[net.sink.0 as int] is Some,
        base_flow.wf(),
        base_flow.dim() == net.graph.storage.keys().len(),
        forall|u: int, v: int| #[trigger] base_flow.at(u, v) == initial.at(u, v),
        forall|u: int, v: int| -FLOW_LIMIT <= #[trigger] initial.at(u, v) <= FLOW_LIMIT,
        old(flow).wf(),
        old(flow).dim() == net.graph.storage.keys().len(),
        skew(*old(flow)),
        forall|u: int, v: int| -2 * FLOW_LIMIT <= #[trigger] old(flow).at(u, v) <= 2 * FLOW_LIMIT,
        forall|u: int, v: int| #[trigger] net.flow.at(u, v) == initial.at(u, v) + old(flow).at(u, v),
        feasible ==> respects_capacities(
            net.graph.storage.edges(),
            net.capacity@,
            initial,
            *old(flow),
        ),
    ensures
        final(flow).wf(),
        final(flow).dim() == old(flow).dim(),
        skew(*final(flow)),
        forall|u: int, v: int| -2 * FLOW_LIMIT <= #[trigger] final(flow).at(u, v) <= 2 * FLOW_LIMIT,
        out.2 >= 1,
        forall|x: int|
            x != net.source.0 && x != net.sink.0 ==> #[trigger] final(flow).net_out(x) == old(
                flow,
            ).net_out(x),
        final(flow).net_out(net.source.0 as int) == old(flow).net_out(net.source.0 as int) + out.2,
        final(flow).net_out(net.sink.0 as int) == old(flow).net_out(net.sink.0 as int) - out.2,
        out.0.wf(),
        out.0.dim() == old(flow).dim(),
        forall|u: int, v: int| #[trigger] out.0.at(u, v) == initial.at(u, v) + final(flow).at(u, v),
        feasible ==> respects_capacities(
            net.graph.storage.edges(),
            net.capacity@,
            initial,
            *final(flow),
        ),
        out.3@.len() == hops[net.sink.0 as int] + 1,
        out.3@.len() >= 2,
        out.3@[0] == net.sink,
        out.3@.last() == net.source,
        forall|i: int| 0 <= i < out.3@.len() ==> (#[trigger] out.3@[i]).0 < parent@.len(),
        forall|i: int|
            0 <= i < out.3@.len() - 1 ==> parent@[(#[trigger] out.3@[i]).0 as int] == Some(
                out.3@[i + 1],
            ),
        out.1@.len() == out.3@.len(),
        forall|i: int|
            0 <= i < out.3@.len() ==> (#[trigger] out.1@[i])@
                == net.graph.storage.keys()[out.3@[out.3@.len() - 1 - i].0 as int],
        is_bottleneck(residual, out.3@, out.2),
        forall|a: int, b: int|
            #[trigger] final(flow).at(a, b) == old(flow).at(a, b) + push_gain(
                out.3@,
                out.3@.len() - 1,
                out.2 as int,
                a,
                b,
            ),
{
    let ghost edges = net.graph.storage.edges();
    let ghost caps = net.capacity@;
    let ghost arcs = residual_arcs(edges, caps, net.flow, edges.len() as int);
    let ghost res_edges = residual.graph.storage.edges();
    let source = net.source;
    let sink = net.sink;
    proof {
        assert forall|u: int, v: int| -3 * FLOW_LIMIT <= #[trigger] net.flow.at(u, v) <= 3
            * FLOW_LIMIT by {
            assert(-FLOW_LIMIT <= initial.at(u, v) <= FLOW_LIMIT);
            assert(-2 * FLOW_LIMIT <= flow.at(u, v) <= 2 * FLOW_LIMIT);
        }
    }
    let chain = trace_back(parent, source, sink, Ghost(hops));
    proof {
        assert forall|i: int| 0 <= i < chain@.len() - 1 implies has_edge(
            res_edges,
            #[trigger] chain@[i + 1],
            chain@[i],
        ) by {
            assert(parent@[chain@[i].0 as int] == Some(chain@[i + 1]));
            assert(joined(&residual.graph, chain@[i + 1], NodeId(chain@[i].0)));
        }
        assert(chain@.len() >= 2);
    }
    let amount = path_bottleneck(residual, &chain);
    proof {
        lemma_residual_arcs(edges, caps, net.flow, edges.len() as int);
        assert forall|i: int| 0 <= i < chain@.len() - 1 implies flow.at(
            (#[trigger] chain@[i + 1]).0 as int,
            chain@[i].0 as int,
        ) + amount <= 2 * FLOW_LIMIT && residual.capacity@[residual.graph.storage.between(
            chain@[i + 1],
            chain@[i],
        )[0].0 as int] >= 1 && exists|r: int|
            0 <= r < res_edges.len() && (#[trigger] res_edges[r]).from == chain@[i + 1]
                && res_edges[r].to == chain@[i] && amount <= residual.capacity@[r] by {
            let u = chain@[i + 1];
            let v = chain@[i];
            residual.graph.storage.lemma_between(u, v);
            let r = residual.graph.storage.between(u, v)[0].0 as int;
            assert(res_edges[r] == arcs[r].0);
            assert(residual.capacity@[r] == arcs[r].1);
            assert(skew(*flow));
            assert(flow.at(v.0 as int, u.0 as int) == -flow.at(u.0 as int, v.0 as int));
            assert(net.flow.at(u.0 as int, v.0 as int) == initial.at(u.0 as int, v.0 as int)
                + flow.at(u.0 as int, v.0 as int));
            assert(net.flow.at(v.0 as int, u.0 as int) == initial.at(v.0 as int, u.0 as int)
                + flow.at(v.0 as int, u.0 as int));
            assert(-FLOW_LIMIT <= initial.at(u.0 as int, v.0 as int) <= FLOW_LIMIT);
            assert(-FLOW_LIMIT <= initial.at(v.0 as int, u.0 as int) <= FLOW_LIMIT);
        }
        assert(amount >= 1);
    }
    let path_keys = route_keys(&net.graph.storage, &chain);
    let ghost flow_before = *flow;
    push_along(flow, &chain, amount, Ghost(hops));
    proof {
        if feasible {
            lemma_push_respects(
                edges,
                caps,
                initial,
                flow_before,
                *flow,
                net.flow,
                res_edges,
                residual.capacity@,
                chain@,
                amount as int,
            );
        }
        assert forall|u: int, v: int|
            i32::MIN <= #[trigger] base_flow.at(u, v) + #[trigger] flow.at(u, v) <= i32::MAX by {
            assert(base_flow.at(u, v) == initial.at(u, v));
            assert(-FLOW_LIMIT <= initial.at(u, v) <= FLOW_LIMIT);
            assert(-2 * FLOW_LIMIT <= flow.at(u, v) <= 2 * FLOW_LIMIT);
        }
    }
    let new_total = base_flow.plus(flow);
    proof {
        assert forall|u: int, v: int| #[trigger] new_total.at(u, v) == initial.at(u, v) + flow.at(
            u,
            v,
        ) by {
            assert(base_flow.at(u, v) == initial.at(u, v));
        }
    }
    (new_total, path_keys, amount, Ghost(chain@))
}

/// Maximum flow from the source to the sink of `flow_network`.
///
/// Starting from the flow that the network carries, flow is pushed along
/// breadth-first paths of the residual network until the sink cannot be
/// reached any more. The pushed flow is conserved at every node but source
/// and sink, and its value is what leaves the source. For a network that
/// carries no flow to begin with, that value is the capacity of a least
/// cut between source and sink: of the nodes that are still within reach
/// of the source.
///
/// Every round is kept: its residual network, which holds the residual
/// records of the flow that the network carried when the round began,
/// and, for a round that found a path, the network with the flow pushed
/// so far, the keys along the path and the bottleneck, which is the least
/// residual capacity along the path. The last round is the one that
/// found no path.
pub fn ford_fulkerson<S, GK>(flow_network: FlowNetwork<S, GK>) -> (result: FordFulkersonResult<
    S,
    GK,
>) where S: MutableStorage + EdgeWeights, GK: GraphKindMarker
    requires
        flow_network.wf(),
        flow_network.within(FLOW_LIMIT as int),
        flow_network.source != flow_network.sink,
        flow_network.graph.storage.keys().len() <= u32::MAX,
    ensures
        result.flow.wf(),
        result.flow.dim() == flow_network.graph.storage.keys().len(),
        skew(result.flow),
        forall|x: int|
            x != flow_network.source.0 && x != flow_network.sink.0 ==> #[trigger] result.flow.net_out(
                x,
            ) == 0,
        result.max_flow == result.flow.net_out(flow_network.source.0 as int),
        result.max_flow == -result.flow.net_out(flow_network.sink.0 as int),
        forall|route: Seq<NodeId>|
            #[trigger] augmenting(
                flow_network.graph.storage.edges(),
                flow_network.capacity@,
                flow_network.flow,
                result.flow,
                route,
            ) && route[0] == flow_network.source ==> route.last() != flow_network.sink,
        result.steps@.len() >= 1,
        is_final_step(result.steps@.last(), flow_network.graph.storage.keys()),
        forall|i: int|
            0 <= i < result.steps@.len() - 1 ==> is_augmenting_step(
                #[trigger] result.steps@[i],
                flow_network.graph.storage.keys(),
                flow_network.source,
                flow_network.sink,
            ),
        pushed(result.steps@) == result.max_flow,
        is_trace(
            result.steps@,
            flow_network.graph.storage.edges(),
            flow_network.capacity@,
            flow_network.flow,
            flow_network.graph.storage.keys(),
        ),
        forall|a: int, b: int|
            #[trigger] result.flow.at(a, b) == carried(result.steps@, result.steps@.len() - 1, a, b),
        is_feasible(
            flow_network.graph.storage.edges(),
            flow_network.capacity@,
            flow_network.flow,
        ) ==> respects_capacities(
            flow_network.graph.storage.edges(),
            flow_network.capacity@,
            flow_network.flow,
            result.flow,
        ),
        (forall|u: int, v: int| #[trigger] flow_network.flow.at(u, v) == 0) ==> is_least_cut(
            flow_network.graph.storage.edges(),
            flow_network.capacity@,
            reach_side(
                flow_network.graph.storage.edges(),
                flow_network.capacity@,
                flow_network.flow,
                result.flow,
                flow_network.source,
                flow_network.graph.storage.keys().len() as int,
            ),
            flow_network.source,
            flow_network.sink,
            result.max_flow as int,
        ),
{
    let ghost initial = flow_network.flow;
    let ghost feasible = is_feasible(
        flow_network.graph.storage.edges(),
        flow_network.capacity@,
        flow_network.flow,
    );
    let ghost edges = flow_network.graph.storage.edges();
    let ghost caps = flow_network.capacity@;
    let ghost keys = flow_network.graph.storage.keys();
    let mut net = flow_network;
    let source = net.source;
    let sink = net.sink;
    let n = net.graph.storage.order();
    let base_flow = net.flow.duplicate();
    let mut flow = Flow::new(n);
    let mut steps: Vec<FlowStep<S, GK>> = Vec::new();
    let mut total: u64 = 0;
    let mut done = false;
    while !done
        invariant
            net.wf(),
            net.graph.storage.edges() == edges,
            net.graph.storage.keys() == keys,
            net.capacity@ == caps,
            net.source == source,
            net.sink == sink,
            source != sink,
            n == keys.len(),
            n <= u32::MAX,
            forall|e: int| 0 <= e < caps.len() ==> (#[trigger] caps[e]) <= FLOW_LIMIT,
            base_flow.wf(),
            base_flow.dim() == n,
            forall|u: int, v: int| #[trigger] base_flow.at(u, v) == initial.at(u, v),
            forall|u: int, v: int| -FLOW_LIMIT <= #[trigger] initial.at(u, v) <= FLOW_LIMIT,
            flow.wf(),
            flow.dim() == n,
            skew(flow),
            forall|u: int, v: int| -2 * FLOW_LIMIT <= #[trigger] flow.at(u, v) <= 2 * FLOW_LIMIT,
            forall|u: int, v: int| #[trigger] net.flow.at(u, v) == initial.at(u, v) + flow.at(u, v),
            forall|x: int| x != source.0 && x != sink.0 ==> #[trigger] flow.net_out(x) == 0,
            flow.net_out(source.0 as int) == total,
            flow.net_out(sink.0 as int) == -total,
            pushed(steps@) == total,
            is_trace(steps@, edges, caps, initial, keys),
            forall|a: int, b: int|
                #[trigger] flow.at(a, b) == carried(
                    steps@,
                    steps@.len() - if done { 1int } else { 0int },
                    a,
                    b,
                ),
            feasible ==> respects_capacities(edges, caps, initial, flow),
            !done ==> forall|i: int|
                0 <= i < steps@.len() ==> is_augmenting_step(#[trigger] steps@[i], keys, source, sink),
            done ==> {
                &&& steps@.len() >= 1
                &&& is_final_step(steps@.last(), keys)
                &&& forall|i: int|
                    0 <= i < steps@.len() - 1 ==> is_augmenting_step(
                        #[trigger] steps@[i],
                        keys,
                        source,
                        sink,
                    )
                &&& forall|route: Seq<NodeId>|
                    #[trigger] augmenting(edges, caps, initial, flow, route) && route[0] == source
                        ==> route.last() != sink
            },
        decreases n * (2 * FLOW_LIMIT) - total + (if done { 0int } else { 1int }),
    {
        proof {
            flow.lemma_net_out_bound(source.0 as int, 2 * FLOW_LIMIT as int);
            assert forall|u: int, v: int| -3 * FLOW_LIMIT <= #[trigger] net.flow.at(u, v) <= 3
                * FLOW_LIMIT by {
                assert(-FLOW_LIMIT <= initial.at(u, v) <= FLOW_LIMIT);
                assert(-2 * FLOW_LIMIT <= flow.at(u, v) <= 2 * FLOW_LIMIT);
            }
        }
        let residual = residual_network(&net);
        let ghost total_flow = net.flow;
        let (found, parent) = breadth_first(&residual.graph, source, sink);
        let ghost before = steps@;
        let ghost (order, via, upto) = choose|order: Seq<usize>, via: Seq<(int, int)>, upto: int| #[trigger]
            is_first_search(&residual.graph, source, sink, found, parent@, order, via, upto);
        if !found {
            steps.push((residual, None, Vec::new(), 0));
            done = true;
            proof {
                assert(steps@.drop_last() =~= before);
                assert forall|i: int| 0 <= i < steps@.len() - 1 implies is_augmenting_step(
                    #[trigger] steps@[i],
                    keys,
                    source,
                    sink,
                ) by {
                    assert(steps@[i] == before[i]);
                }
                lemma_saturated(
                    &steps@[before.len() as int].0,
                    edges,
                    caps,
                    total_flow,
                    initial,
                    flow,
                );
                lemma_round_added(
                    before,
                    steps@[before.len() as int],
                    edges,
                    caps,
                    initial,
                    keys,
                    total_flow,
                    flow,
                    Seq::empty(),
                );
                assert(steps@ =~= before.push(steps@[before.len() as int]));
            }
        } else {
            let ghost hops = choose|hops: Seq<nat>|
                {
                    &&& #[trigger] is_search_tree(&residual.graph, source, parent@, hops)
                    &&& found ==> forall|route: Seq<NodeId>|
                        #[trigger] is_route(&residual.graph, route) && route[0] == source
                            && route.last() == sink ==> hops[sink.0 as int] < route.len()
                };
            let ghost flow_before = flow;
            let (new_total, path_keys, amount, Ghost(chain)) = augment(
                &net,
                &residual,
                &parent,
                &base_flow,
                &mut flow,
                Ghost(initial),
                Ghost(hops),
                Ghost(feasible),
            );
            net.flow = new_total;
            let augmented = clone_network(&net, &flow);
            steps.push((residual, Some(augmented), path_keys, amount));
            proof {
                flow.lemma_net_out_bound(source.0 as int, 2 * FLOW_LIMIT as int);
                assert(n * (2 * FLOW_LIMIT) <= u32::MAX * (2 * FLOW_LIMIT)) by (nonlinear_arith)
                    requires
                        n <= u32::MAX,
                ;
                assert(steps@.drop_last() =~= before);
                let step = steps@[before.len() as int];
                lemma_step_route(step, keys, source, sink, parent@, hops, chain, order, via, upto);
                assert forall|k: int| 0 <= k < chain.len() implies (#[trigger] chain[k]).0 < keys.len()
                    && step.2@[chain.len() - 1 - k]@ == keys[chain[k].0 as int] by {
                    let back = chain.len() - 1 - k;
                    assert(step.2@[back]@ == keys[chain[chain.len() - 1 - back].0 as int]);
                }
                lemma_round_added(before, step, edges, caps, initial, keys, total_flow, flow_before, chain);
                assert(steps@ =~= before.push(step));
                assert forall|i: int| 0 <= i < steps@.len() implies is_augmenting_step(
                    #[trigger] steps@[i],
                    keys,
                    source,
                    sink,
                ) by {
                    if i < before.len() {
                        assert(steps@[i] == before[i]);
                    }
                }
            }
            total = total + amount as u64;
        }
    }
    proof {
        if forall|u: int, v: int| #[trigger] initial.at(u, v) == 0 {
            lemma_empty_feasible(edges, caps, initial);
            lemma_max_flow_min_cut(edges, caps, initial, flow, source, sink);
        }
    }
    FordFulkersonResult { max_flow: total, flow, steps }
}

/// `side` is a cut between source and sink whose capacity is `value`,
/// and no cut between the two has a lesser capacity.
pub open spec fn is_least_cut<E, W>(
    edges: Seq<EdgeRecord<E, W>>,
    caps: Seq<u32>,
    side: Seq<bool>,
    source: NodeId,
    sink: NodeId,
    value: int,
) -> bool {
    &&& is_cut(side, side.len() as int, source.0 as int, sink.0 as int)
    &&& value == cut_capacity(edges, caps, side)
    &&& forall|other: Seq<bool>|
        is_cut(other, side.len() as int, source.0 as int, sink.0 as int) ==> value
            <= #[trigger] cut_capacity(edges, caps, other)
}

/// No flow at all is within the capacities.
pub proof fn lemma_empty_feasible<E, W>(edges: Seq<EdgeRecord<E, W>>, caps: Seq<u32>, flow: Flow)
    requires
        caps.len() == edges.len(),
        forall|u: int, v: int| #[trigger] flow.at(u, v) == 0,
    ensures
        is_feasible(edges, caps, flow),
{
    assert forall|u: int, v: int| #[trigger] flow.at(u, v) == -flow.at(v, u) by {
        assert(flow.at(v, u) == 0);
    }
    assert forall|u: NodeId, v: NodeId| #[trigger] has_edge(edges, u, v) implies exists|e: int|
        0 <= e < caps.len() && (#[trigger] edges[e]).from == u && edges[e].to == v && flow.at(
            u.0 as int,
            v.0 as int,
        ) <= caps[e] by {
        let e = choose|e: int| 0 <= e < edges.len() && (#[trigger] edges[e]).from == u && edges[e].to == v;
        assert(flow.at(u.0 as int, v.0 as int) == 0);
    }
}

/// A round whose path follows the parent links of a breadth-first search
/// of its residual network is a round that pushed flow along a shortest
/// path.
pub proof fn lemma_step_route<S: StorageRepresentation, GK: GraphKindMarker>(
    step: FlowStep<S, GK>,
    keys: Seq<<S::Key as View>::V>,
    source: NodeId,
    sink: NodeId,
    parent: Seq<Option<NodeId>>,
    hops: Seq<nat>,
    chain: Seq<NodeId>,
    order: Seq<usize>,
    via: Seq<(int, int)>,
    done: int,
)
    requires
        step.0.wf(),
        step.0.graph.storage.keys() == keys,
        step.1 is Some,
        step.1->Some_0.wf(),
        step.3 >= 1,
        is_search_tree(&step.0.graph, source, parent, hops),
        is_first_search(&step.0.graph, source, sink, true, parent, order, via, done),
        forall|route: Seq<NodeId>|
            #[trigger] is_route(&step.0.graph, route) && route[0] == source && route.last() == sink
                ==> hops[sink.0 as int] < route.len(),
        chain.len() == hops[sink.0 as int] + 1,
        chain.len() >= 2,
        chain[0] == sink,
        chain.last() == source,
        forall|i: int| 0 <= i < chain.len() ==> (#[trigger] chain[i]).0 < parent.len(),
        forall|i: int|
            0 <= i < chain.len() - 1 ==> parent[(#[trigger] chain[i]).0 as int] == Some(chain[i + 1]),
        step.2@.len() == chain.len(),
        forall|i: int|
            0 <= i < chain.len() ==> (#[trigger] step.2@[i])@ == keys[chain[chain.len() - 1 - i].0 as int],
    ensures
        is_augmenting_step(step, keys, source, sink),
{
    let way = Seq::new(chain.len(), |i: int| chain[chain.len() - 1 - i]);
    assert forall|i: int| 0 <= i < way.len() - 1 implies joined(
        &step.0.graph,
        #[trigger] way[i],
        way[i + 1],
    ) by {
        let k = chain.len() - 2 - i;
        assert(parent[chain[k].0 as int] == Some(chain[k + 1]));
        assert(NodeId(chain[k].0) == chain[k]);
    }
    assert(is_route(&step.0.graph, way));
    assert(way[0] == source && way.last() == sink);
    assert forall|i: int| 0 <= i < way.len() implies (#[trigger] way[i]).0 < keys.len() && step.2@[i]@
        == keys[way[i].0 as int] by {
        assert(chain[chain.len() - 1 - i].0 < parent.len());
    }
    assert(step.2@[0]@ == keys[way[0].0 as int]);
    assert(step.2@[step.2@.len() - 1]@ == keys[way[way.len() - 1].0 as int]);
    assert forall|i: int| 0 <= i < way.len() - 1 implies (#[trigger] way[i + 1]).0 < parent.len()
        && parent[way[i + 1].0 as int] == Some(way[i]) by {
        let k = chain.len() - 2 - i;
        assert(parent[chain[k].0 as int] == Some(chain[k + 1]));
        assert(way[i + 1] == chain[k]);
        assert(way[i] == chain[k + 1]);
    }
    assert(is_searched_route(&step.0.graph, source, sink, way, parent, order, via, done));
}

/// Where flow can be pushed from `u` to `v`, the residual network has a
/// record from `u` to `v`.
pub proof fn lemma_push_is_arc<E, W>(
    edges: Seq<EdgeRecord<E, W>>,
    caps: Seq<u32>,
    total: Flow,
    base: Flow,
    extra: Flow,
    res_edges: Seq<EdgeRecord<E, W>>,
    res_caps: Seq<u32>,
    u: NodeId,
    v: NodeId,
)
    requires
        caps.len() == edges.len(),
        forall|a: int, b: int| #[trigger] total.at(a, b) == base.at(a, b) + extra.at(a, b),
        holds_arcs(res_edges, res_caps, residual_arcs(edges, caps, total, edges.len() as int)),
        can_push(edges, caps, base, extra, u, v),
    ensures
        has_edge(res_edges, u, v),
{
    let arcs = residual_arcs(edges, caps, total, edges.len() as int);
    assert(total.at(u.0 as int, v.0 as int) == base.at(u.0 as int, v.0 as int) + extra.at(
        u.0 as int,
        v.0 as int,
    ));
    assert(total.at(v.0 as int, u.0 as int) == base.at(v.0 as int, u.0 as int) + extra.at(
        v.0 as int,
        u.0 as int,
    ));
    if exists|e: int|
        0 <= e < edges.len() && (#[trigger] edges[e]).from == u && edges[e].to == v && caps[e] - (
        base.at(u.0 as int, v.0 as int) + extra.at(u.0 as int, v.0 as int)) > 0 {
        let e = choose|e: int|
            0 <= e < edges.len() && (#[trigger] edges[e]).from == u && edges[e].to == v && caps[e]
                - (base.at(u.0 as int, v.0 as int) + extra.at(u.0 as int, v.0 as int)) > 0;
        lemma_residual_complete(edges, caps, total, edges.len() as int, e);
        let i = choose|i: int|
            0 <= i < arcs.len() && (#[trigger] arcs[i]).0.from == edges[e].from && arcs[i].0.to
                == edges[e].to;
        assert(res_edges[i] == arcs[i].0);
    } else {
        let e = choose|e: int|
            0 <= e < edges.len() && (#[trigger] edges[e]).from == v && edges[e].to == u;
        lemma_residual_complete(edges, caps, total, edges.len() as int, e);
        let i = choose|i: int|
            0 <= i < arcs.len() && (#[trigger] arcs[i]).0.from == edges[e].to && arcs[i].0.to
                == edges[e].from;
        assert(res_edges[i] == arcs[i].0);
    }
}

/// Why a flow network could not be set up.
#[derive(Clone, Copy, Debug, PartialEq, Eq, Structural)]
pub enum FlowInputError {
    /// The key of the source names no node.
    SourceNotFound,
    /// The key of the sink names no node.
    SinkNotFound,
}

/// Keys and records after the first `k` of `items` are inserted by their
/// keys, whatever the kind of the graph.
pub open spec fn network_built<K: NodeKey>(items: Seq<(K, K, i32, u32)>, k: int) -> (
    Seq<K::V>,
    Seq<EdgeRecord<(), ()>>,
)
    decreases k,
{
    if k <= 0 {
        (Seq::empty(), Seq::empty())
    } else {
        let state = network_built(items, k - 1);
        let keys1 = keys_with(state.0, items[k - 1].0@);
        let keys2 = keys_with(keys1, items[k - 1].1@);
        (
            keys2,
            state.1.push(
                EdgeRecord {
                    from: NodeId(key_position(state.0, items[k - 1].0@) as usize),
                    to: NodeId(key_position(keys1, items[k - 1].1@) as usize),
                    meta: (),
                    weight: None,
                },
            ),
        )
    }
}

/// The flow that the first `k` of `items` give for the pair `(u, v)`: that
/// of the last item whose record leads from `u` to `v`, and zero if there
/// is none.
pub open spec fn flow_listed<K>(
    items: Seq<(K, K, i32, u32)>,
    edges: Seq<EdgeRecord<(), ()>>,
    k: int,
    u: int,
    v: int,
) -> int
    decreases k,
{
    if k <= 0 {
        0
    } else if edges[k - 1].from.0 == u && edges[k - 1].to.0 == v {
        items[k - 1].2 as int
    } else {
        flow_listed(items, edges, k - 1, u, v)
    }
}

impl<S: MutableStorage<Data = (), EdgeMeta = (), Weight = ()>, GK: GraphKindMarker> FlowNetwork<
    S,
    GK,
> {
    /// The network whose arcs are `edges`, each given by the keys of its
    /// ends, its initial flow and its capacity, between the nodes with the
    /// keys `source_key` and `sink_key`.
    ///
    /// The arcs are inserted as they come, whatever the kind of the
    /// graph. Where several arcs join the same ordered pair, the flow of
    /// the last one counts for the pair. Fails if the key of the source,
    /// or else that of the sink, is the key of no end of an arc.
    pub fn from_edges(edges: Vec<(S::Key, S::Key, i32, u32)>, source_key: S::Key, sink_key: S::Key) -> (outcome:
        Result<Self, FlowInputError>)
        requires
            2 * edges@.len() + 1 < S::node_limit(),
        ensures
            ({
                let plan = network_built(edges@, edges@.len() as int);
                &&& outcome == Err::<Self, FlowInputError>(FlowInputError::SourceNotFound)
                    <==> !plan.0.contains(source_key@)
                &&& outcome == Err::<Self, FlowInputError>(FlowInputError::SinkNotFound)
                    <==> plan.0.contains(source_key@) && !plan.0.contains(sink_key@)
                &&& match outcome {
                    Ok(net) => {
                        &&& net.wf()
                        &&& net.graph.storage.keys() == plan.0
                        &&& net.graph.storage.edges() == plan.1
                        &&& net.capacity@.len() == edges@.len()
                        &&& forall|i: int|
                            0 <= i < edges@.len() ==> #[trigger] net.capacity@[i] == edges@[i].3
                        &&& plan.0[net.source.0 as int] == source_key@
                        &&& plan.0[net.sink.0 as int] == sink_key@
                        &&& forall|u: int, v: int|
                            0 <= u < plan.0.len() && 0 <= v < plan.0.len() ==> #[trigger] net.flow.at(
                                u,
                                v,
                            ) == flow_listed(edges@, plan.1, edges@.len() as int, u, v)
                    },
                    Err(_) => true,
                }
            }),
    {
        let hint = if edges.len() <= usize::MAX / 2 {
            edges.len() * 2
        } else {
            edges.len()
        };
        let mut storage = S::with_node_capacity(hint);
        let mut capacity: Vec<u32> = Vec::new();
        let mut pairs: Vec<(NodeId, NodeId, i32)> = Vec::new();
        proof {
            storage.lemma_wf();
            assert(storage.keys() =~= network_built(edges@, 0).0);
            assert(storage.edges() =~= network_built(edges@, 0).1);
        }
        let mut i: usize = 0;
        while i < edges.len()
            invariant
                i <= edges@.len(),
                2 * edges@.len() + 1 < S::node_limit(),
                storage.wf(),
                storage.keys() == network_built(edges@, i as int).0,
                storage.edges() == network_built(edges@, i as int).1,
                storage.keys().len() <= 2 * i,
                storage.edges().len() == i,
                capacity@.len() == i,
                pairs@.len() == i,
                forall|k: int| 0 <= k < i ==> #[trigger] capacity@[k] == edges@[k].3,
                forall|k: int|
                    0 <= k < i ==> (#[trigger] pairs@[k]).0 == storage.edges()[k].from && pairs@[k].1
                        == storage.edges()[k].to && pairs@[k].2 == edges@[k].2,
            decreases edges@.len() - i,
        {
            let from_key = edges[i].0.key_clone();
            let to_key = edges[i].1.key_clone();
            let flow = edges[i].2;
            let cap = edges[i].3;
            let ghost before = storage.edges();
            let id = storage.add_edge_by_key(from_key, to_key, (), (), (), None);
            proof {
                storage.lemma_wf();
            }
            let (from, to) = storage.endpoints(id);
            capacity.push(cap);
            pairs.push((from, to, flow));
            proof {
                assert forall|k: int| 0 <= k < i + 1 implies (#[trigger] pairs@[k]).0
                    == storage.edges()[k].from && pairs@[k].1 == storage.edges()[k].to && pairs@[k].2
                    == edges@[k].2 by {
                    if k < i {
                        assert(storage.edges()[k] == before[k]);
                    }
                }
            }
            i += 1;
        }
        let ghost plan = network_built(edges@, edges@.len() as int);
        let n = storage.order();
        let mut flow = Flow::new(n);
        let mut j: usize = 0;
        proof {
            storage.lemma_wf();
        }
        while j < pairs.len()
            invariant
                j <= pairs@.len(),
                pairs@.len() == edges@.len(),
                storage.edges().len() == edges@.len(),
                storage.wf(),
                n == storage.keys().len(),
                plan == network_built(edges@, edges@.len() as int),
                storage.edges() == plan.1,
                flow.wf(),
                flow.dim() == n,
                forall|k: int|
                    0 <= k < pairs@.len() ==> (#[trigger] pairs@[k]).0 == storage.edges()[k].from
                        && pairs@[k].1 == storage.edges()[k].to && pairs@[k].2 == edges@[k].2,
                forall|u: int, v: int|
                    0 <= u < n && 0 <= v < n ==> #[trigger] flow.at(u, v) == flow_listed(
                        edges@,
                        plan.1,
                        j as int,
                        u,
                        v,
                    ),
            decreases pairs@.len() - j,
        {
            let (from, to, value) = pairs[j];
            proof {
                storage.lemma_wf();
                assert(pairs@[j as int].0 == storage.edges()[j as int].from);
                assert(storage.edges()[j as int].from.0 < n);
                assert(storage.edges()[j as int].to.0 < n);
            }
            let ghost old_flow = flow;
            flow.put(from, to, value);
            proof {
                assert forall|u: int, v: int| 0 <= u < n && 0 <= v < n implies #[trigger] flow.at(u, v)
                    == flow_listed(edges@, plan.1, j + 1, u, v) by {
                    if !(u == from.0 && v == to.0) {
                        assert(flow.at(u, v) == old_flow.at(u, v));
                    }
                }
            }
            j += 1;
        }
        let source = match storage.node_id(&source_key) {
            Some(id) => id,
            None => {
                return Err(FlowInputError::SourceNotFound);
            },
        };
        let sink = match storage.node_id(&sink_key) {
            Some(id) => id,
            None => {
                return Err(FlowInputError::SinkNotFound);
            },
        };
        proof {
            assert(storage.keys().contains(source_key@));
            assert(storage.keys().contains(sink_key@));
        }
        Ok(FlowNetwork { graph: DirectedGraph::new(storage), capacity, source, sink, flow })
    }
}

} // verus!
