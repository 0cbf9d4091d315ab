//! Cuts of a flow network, and why a flow that cannot be augmented is as
//! large as the least cut.

use vstd::prelude::*;
use crate::algorithms::ford_fulkerson::{
    augmenting, can_push, respects_capacities, skew, within_capacity, Flow,
};
use crate::base::NodeId;
use crate::storage::graph_definition::EdgeRecord;
use crate::traits::has_edge;

verus! {

/// The sum of `g(u, v)` over the numbers `v` below `k`.
pub open spec fn row_total(g: spec_fn(int, int) -> int, u: int, k: int) -> int
    decreases k,
{
    if k <= 0 {
        0
    } else {
        row_total(g, u, k - 1) + g(u, k - 1)
    }
}

/// The sum of `g(u, v)` over the numbers `u` below `m`.
pub open spec fn column_total(g: spec_fn(int, int) -> int, v: int, m: int) -> int
    decreases m,
{
    if m <= 0 {
        0
    } else {
        column_total(g, v, m - 1) + g(m - 1, v)
    }
}

/// The sum of `g(u, v)` over the numbers `u` below `m` and `v` below `k`.
pub open spec fn table_total(g: spec_fn(int, int) -> int, m: int, k: int) -> int
    decreases m,
{
    if m <= 0 {
        0
    } else {
        table_total(g, m - 1, k) + row_total(g, m - 1, k)
    }
}

/// One column more adds the sum of that column.
pub proof fn lemma_table_column(g: spec_fn(int, int) -> int, m: int, k: int)
    requires
        0 <= k,
    ensures
        table_total(g, m, k + 1) == table_total(g, m, k) + column_total(g, k, m),
    decreases m,
{
    if m > 0 {
        lemma_table_column(g, m - 1, k);
    }
}

/// Where `g(a, b)` is the negative of `g(b, a)`, a row sums to the
/// negative of the column with the same number.
pub proof fn lemma_skew_row(g: spec_fn(int, int) -> int, u: int, k: int)
    requires
        forall|a: int, b: int| #[trigger] g(a, b) == -g(b, a),
    ensures
        row_total(g, u, k) == -column_total(g, u, k),
    decreases k,
{
    if k > 0 {
        lemma_skew_row(g, u, k - 1);
        assert(g(u, k - 1) == -g(k - 1, u));
    }
}

/// Where `g(a, b)` is the negative of `g(b, a)`, a square table sums to
/// zero.
pub proof fn lemma_skew_table(g: spec_fn(int, int) -> int, m: int)
    requires
        forall|a: int, b: int| #[trigger] g(a, b) == -g(b, a),
    ensures
        table_total(g, m, m) == 0,
    decreases m,
{
    if m > 0 {
        lemma_skew_table(g, m - 1);
        lemma_table_column(g, m - 1, m - 1);
        lemma_skew_row(g, m - 1, m - 1);
        assert(g(m - 1, m - 1) == -g(m - 1, m - 1));
    }
}

/// A row that is nowhere greater than another sums to no more, and to
/// the same where the two agree.
pub proof fn lemma_row_order(g: spec_fn(int, int) -> int, h: spec_fn(int, int) -> int, u: int, k: int)
    requires
        forall|b: int| 0 <= b < k ==> #[trigger] g(u, b) <= h(u, b),
    ensures
        row_total(g, u, k) <= row_total(h, u, k),
        (forall|b: int| 0 <= b < k ==> #[trigger] g(u, b) == h(u, b)) ==> row_total(g, u, k)
            == row_total(h, u, k),
    decreases k,
{
    if k > 0 {
        lemma_row_order(g, h, u, k - 1);
        assert(g(u, k - 1) <= h(u, k - 1));
        if forall|b: int| 0 <= b < k ==> #[trigger] g(u, b) == h(u, b) {
            assert(g(u, k - 1) == h(u, k - 1));
        }
    }
}

/// A table that is nowhere greater than another sums to no more, and to
/// the same where the two agree.
pub proof fn lemma_table_order(g: spec_fn(int, int) -> int, h: spec_fn(int, int) -> int, m: int, k: int)
    requires
        forall|a: int, b: int| 0 <= a < m && 0 <= b < k ==> #[trigger] g(a, b) <= h(a, b),
    ensures
        table_total(g, m, k) <= table_total(h, m, k),
        (forall|a: int, b: int| 0 <= a < m && 0 <= b < k ==> #[trigger] g(a, b) == h(a, b))
            ==> table_total(g, m, k) == table_total(h, m, k),
    decreases m,
{
    if m > 0 {
        lemma_table_order(g, h, m - 1, k);
        lemma_row_order(g, h, m - 1, k);
        if forall|a: int, b: int| 0 <= a < m && 0 <= b < k ==> #[trigger] g(a, b) == h(a, b) {
            assert forall|b: int| 0 <= b < k implies #[trigger] g(m - 1, b) == h(m - 1, b) by {}
        }
    }
}

/// Where every entry of `s` is the sum of the entries of `g` and `h`, so
/// are the sums of the rows.
pub proof fn lemma_row_parts(
    s: spec_fn(int, int) -> int,
    g: spec_fn(int, int) -> int,
    h: spec_fn(int, int) -> int,
    u: int,
    k: int,
)
    requires
        forall|b: int| 0 <= b < k ==> #[trigger] s(u, b) == g(u, b) + h(u, b),
    ensures
        row_total(s, u, k) == row_total(g, u, k) + row_total(h, u, k),
    decreases k,
{
    if k > 0 {
        lemma_row_parts(s, g, h, u, k - 1);
        assert(s(u, k - 1) == g(u, k - 1) + h(u, k - 1));
    }
}

/// Where every entry of `s` is the sum of the entries of `g` and `h`, so
/// are the sums of the tables.
pub proof fn lemma_table_parts(
    s: spec_fn(int, int) -> int,
    g: spec_fn(int, int) -> int,
    h: spec_fn(int, int) -> int,
    m: int,
    k: int,
)
    requires
        forall|a: int, b: int| 0 <= a < m && 0 <= b < k ==> #[trigger] s(a, b) == g(a, b) + h(a, b),
    ensures
        table_total(s, m, k) == table_total(g, m, k) + table_total(h, m, k),
    decreases m,
{
    if m > 0 {
        lemma_table_parts(s, g, h, m - 1, k);
        lemma_row_parts(s, g, h, m - 1, k);
    }
}

/// The flow from node to node, as a table.
pub open spec fn flows(flow: Flow) -> spec_fn(int, int) -> int {
    |a: int, b: int| flow.at(a, b)
}

/// The flow that leaves the nodes on the near side of a cut, whatever
/// side it goes to.
pub open spec fn leaving(flow: Flow, side: Seq<bool>) -> spec_fn(int, int) -> int {
    |a: int, b: int|
        if 0 <= a < side.len() && side[a] {
            flow.at(a, b)
        } else {
            0
        }
}

/// The flow between nodes on the near side of a cut.
pub open spec fn staying(flow: Flow, side: Seq<bool>) -> spec_fn(int, int) -> int {
    |a: int, b: int|
        if 0 <= a < side.len() && 0 <= b < side.len() && side[a] && side[b] {
            flow.at(a, b)
        } else {
            0
        }
}

/// The flow from the near side of a cut to the far side.
pub open spec fn crossing(flow: Flow, side: Seq<bool>) -> spec_fn(int, int) -> int {
    |a: int, b: int|
        if 0 <= a < side.len() && 0 <= b < side.len() && side[a] && !side[b] {
            flow.at(a, b)
        } else {
            0
        }
}

/// The capacity from `a` to `b`: the greatest capacity among the first
/// `upto` records that lead from `a` to `b`, and zero if there is none.
pub open spec fn pair_capacity<E, W>(
    edges: Seq<EdgeRecord<E, W>>,
    caps: Seq<u32>,
    a: int,
    b: int,
    upto: int,
) -> int
    decreases upto,
{
    if upto <= 0 {
        0
    } else {
        let rest = pair_capacity(edges, caps, a, b, upto - 1);
        let e = edges[upto - 1];
        if e.from.0 == a && e.to.0 == b && caps[upto - 1] > rest {
            caps[upto - 1] as int
        } else {
            rest
        }
    }
}

/// The capacities from the near side of a cut to the far side.
pub open spec fn crossing_capacities<E, W>(
    edges: Seq<EdgeRecord<E, W>>,
    caps: Seq<u32>,
    side: Seq<bool>,
) -> spec_fn(int, int) -> int {
    |a: int, b: int|
        if 0 <= a < side.len() && 0 <= b < side.len() && side[a] && !side[b] {
            pair_capacity(edges, caps, a, b, edges.len() as int)
        } else {
            0
        }
}

/// `side` is a cut of the `n` nodes: it tells for each node whether it
/// lies on the near side, where the source is, or on the far side, where
/// the sink is.
pub open spec fn is_cut(side: Seq<bool>, n: int, source: int, sink: int) -> bool {
    &&& side.len() == n
    &&& 0 <= source < n
    &&& 0 <= sink < n
    &&& side[source]
    &&& !side[sink]
}

/// The capacity of a cut: the sum of the capacities from each node of the
/// near side to each node of the far side.
pub open spec fn cut_capacity<E, W>(edges: Seq<EdgeRecord<E, W>>, caps: Seq<u32>, side: Seq<bool>) -> int {
    table_total(crossing_capacities(edges, caps, side), side.len() as int, side.len() as int)
}

/// The capacity of a pair is not negative, at least the capacity of each
/// of its records, and that of one of them unless it is zero.
pub proof fn lemma_pair_capacity<E, W>(
    edges: Seq<EdgeRecord<E, W>>,
    caps: Seq<u32>,
    a: int,
    b: int,
    upto: int,
)
    requires
        0 <= upto <= edges.len(),
        caps.len() == edges.len(),
    ensures
        0 <= pair_capacity(edges, caps, a, b, upto),
        forall|e: int|
            0 <= e < upto && (#[trigger] edges[e]).from.0 == a && edges[e].to.0 == b ==> caps[e]
                <= pair_capacity(edges, caps, a, b, upto),
        pair_capacity(edges, caps, a, b, upto) > 0 ==> exists|e: int|
            0 <= e < upto && (#[trigger] edges[e]).from.0 == a && edges[e].to.0 == b && caps[e]
                == pair_capacity(edges, caps, a, b, upto),
    decreases upto,
{
    if upto > 0 {
        lemma_pair_capacity(edges, caps, a, b, upto - 1);
        let rest = pair_capacity(edges, caps, a, b, upto - 1);
        let last = edges[upto - 1];
        if last.from.0 == a && last.to.0 == b && caps[upto - 1] > rest {
        } else if rest > 0 {
            let e = choose|e: int|
                0 <= e < upto - 1 && (#[trigger] edges[e]).from.0 == a && edges[e].to.0 == b && caps[e]
                    == rest;
            assert(0 <= e < upto);
        }
    }
}

/// The flow that leaves the near side of a cut is the flow that crosses
/// to the far side.
pub proof fn lemma_leaving_crosses(flow: Flow, side: Seq<bool>)
    requires
        skew(flow),
    ensures
        table_total(leaving(flow, side), side.len() as int, side.len() as int) == table_total(
            crossing(flow, side),
            side.len() as int,
            side.len() as int,
        ),
{
    let n = side.len() as int;
    let all = leaving(flow, side);
    let inner = staying(flow, side);
    let outer = crossing(flow, side);
    assert forall|a: int, b: int| #[trigger] inner(a, b) == -inner(b, a) by {
        assert(flow.at(a, b) == -flow.at(b, a));
    }
    lemma_skew_table(inner, n);
    assert forall|a: int, b: int| 0 <= a < n && 0 <= b < n implies #[trigger] all(a, b) == inner(a, b)
        + outer(a, b) by {}
    lemma_table_parts(all, inner, outer, n, n);
}

/// Of the flow that leaves the near side of a cut, only what leaves the
/// source counts, where the flow is conserved at every other node.
pub proof fn lemma_leaving_source(flow: Flow, side: Seq<bool>, source: int, sink: int, m: int)
    requires
        flow.wf(),
        flow.dim() == side.len(),
        is_cut(side, side.len() as int, source, sink),
        0 <= m <= side.len(),
        forall|x: int| x != source && x != sink ==> #[trigger] flow.net_out(x) == 0,
    ensures
        table_total(leaving(flow, side), m, side.len() as int) == if source < m {
            flow.net_out(source)
        } else {
            0
        },
    decreases m,
{
    let n = side.len() as int;
    if m > 0 {
        lemma_leaving_source(flow, side, source, sink, m - 1);
        let u = m - 1;
        let all = leaving(flow, side);
        let none = |a: int, b: int| 0int;
        if side[u] {
            assert forall|b: int| 0 <= b < n implies #[trigger] all(u, b) == flows(flow)(u, b) by {}
            lemma_row_order(all, flows(flow), u, n);
            assert forall|b: int| 0 <= b < n implies #[trigger] all(u, b) <= flows(flow)(u, b) by {}
            flow.lemma_net_out_total(u);
            if u != source {
                assert(u != sink);
                assert(flow.net_out(u) == 0);
            }
        } else {
            assert forall|b: int| 0 <= b < n implies #[trigger] all(u, b) == none(u, b) by {}
            assert forall|b: int| 0 <= b < n implies #[trigger] all(u, b) <= none(u, b) by {}
            lemma_row_order(all, none, u, n);
            lemma_row_zero(u, n);
        }
    }
}

/// A row of zeros sums to zero.
pub proof fn lemma_row_zero(u: int, k: int)
    ensures
        row_total(|a: int, b: int| 0int, u, k) == 0,
    decreases k,
{
    if k > 0 {
        lemma_row_zero(u, k - 1);
    }
}

/// The node `v` can be reached from the source along a route on which
/// flow can still be pushed.
pub open spec fn in_reach<E, W>(
    edges: Seq<EdgeRecord<E, W>>,
    caps: Seq<u32>,
    base: Flow,
    flow: Flow,
    source: NodeId,
    v: int,
) -> bool {
    exists|route: Seq<NodeId>|
        #[trigger] augmenting(edges, caps, base, flow, route) && route[0] == source && route.last().0
            == v
}

/// The nodes that can be reached from the source along routes on which
/// flow can still be pushed.
pub open spec fn reach_side<E, W>(
    edges: Seq<EdgeRecord<E, W>>,
    caps: Seq<u32>,
    base: Flow,
    flow: Flow,
    source: NodeId,
    n: int,
) -> Seq<bool> {
    Seq::new(n as nat, |v: int| in_reach(edges, caps, base, flow, source, v))
}

/// No flow can be pushed from a node within reach to one out of reach.
pub proof fn lemma_reach_closed<E, W>(
    edges: Seq<EdgeRecord<E, W>>,
    caps: Seq<u32>,
    base: Flow,
    flow: Flow,
    source: NodeId,
    u: NodeId,
    v: NodeId,
)
    requires
        in_reach(edges, caps, base, flow, source, u.0 as int),
        !in_reach(edges, caps, base, flow, source, v.0 as int),
    ensures
        !can_push(edges, caps, base, flow, u, v),
{
    if can_push(edges, caps, base, flow, u, v) {
        let route = choose|route: Seq<NodeId>|
            #[trigger] augmenting(edges, caps, base, flow, route) && route[0] == source
                && route.last().0 == u.0 as int;
        let longer = route.push(v);
        assert(route.last() == u);
        assert forall|i: int| 0 <= i < longer.len() - 1 implies can_push(
            edges,
            caps,
            base,
            flow,
            #[trigger] longer[i],
            longer[i + 1],
        ) by {
            if i < route.len() - 1 {
                assert(can_push(edges, caps, base, flow, route[i], route[i + 1]));
            }
        }
        assert(augmenting(edges, caps, base, flow, longer) && longer[0] == source && longer.last().0
            == v.0 as int);
    }
}

/// A flow within the capacities is, from node to node, at most the
/// capacity of the pair.
pub proof fn lemma_flow_bounded<E, W>(
    edges: Seq<EdgeRecord<E, W>>,
    caps: Seq<u32>,
    base: Flow,
    flow: Flow,
    a: int,
    b: int,
)
    requires
        caps.len() == edges.len(),
        0 <= a <= usize::MAX,
        0 <= b <= usize::MAX,
        forall|u: int, v: int| #[trigger] base.at(u, v) == 0,
        respects_capacities(edges, caps, base, flow),
    ensures
        flow.at(a, b) <= pair_capacity(edges, caps, a, b, edges.len() as int),
{
    let u = NodeId(a as usize);
    let v = NodeId(b as usize);
    lemma_pair_capacity(edges, caps, a, b, edges.len() as int);
    assert(base.at(a, b) == 0);
    if has_edge(edges, u, v) {
        assert(within_capacity(edges, caps, base, flow, u, v));
        let e = choose|e: int|
            0 <= e < edges.len() && (#[trigger] edges[e]).from == u && edges[e].to == v && base.at(
                u.0 as int,
                v.0 as int,
            ) + flow.at(u.0 as int, v.0 as int) <= caps[e];
        assert(edges[e].from.0 == a && edges[e].to.0 == b);
    }
}

/// Where no flow can be pushed from `a` to `b`, a flow within the
/// capacities fills the capacity of the pair.
pub proof fn lemma_flow_fills<E, W>(
    edges: Seq<EdgeRecord<E, W>>,
    caps: Seq<u32>,
    base: Flow,
    flow: Flow,
    a: int,
    b: int,
)
    requires
        caps.len() == edges.len(),
        0 <= a <= usize::MAX,
        0 <= b <= usize::MAX,
        forall|u: int, v: int| #[trigger] base.at(u, v) == 0,
        skew(flow),
        respects_capacities(edges, caps, base, flow),
        !can_push(edges, caps, base, flow, NodeId(a as usize), NodeId(b as usize)),
    ensures
        flow.at(a, b) == pair_capacity(edges, caps, a, b, edges.len() as int),
{
    let u = NodeId(a as usize);
    let v = NodeId(b as usize);
    let full = pair_capacity(edges, caps, a, b, edges.len() as int);
    lemma_pair_capacity(edges, caps, a, b, edges.len() as int);
    lemma_flow_bounded(edges, caps, base, flow, a, b);
    assert(base.at(a, b) == 0);
    assert(base.at(b, a) == 0);
    assert(flow.at(a, b) == -flow.at(b, a));
    if full > 0 {
        let e = choose|e: int|
            0 <= e < edges.len() && (#[trigger] edges[e]).from.0 == a && edges[e].to.0 == b && caps[e]
                == full;
        assert(edges[e].from == u && edges[e].to == v);
        assert(caps[e] - (base.at(u.0 as int, v.0 as int) + flow.at(u.0 as int, v.0 as int)) <= 0);
    } else if has_edge(edges, u, v) {
        let e = choose|e: int| 0 <= e < edges.len() && (#[trigger] edges[e]).from == u && edges[e].to == v;
        assert(caps[e] - (base.at(u.0 as int, v.0 as int) + flow.at(u.0 as int, v.0 as int)) <= 0);
    } else if has_edge(edges, v, u) {
        assert(base.at(v.0 as int, u.0 as int) + flow.at(v.0 as int, u.0 as int) <= 0);
    } else {
        assert(base.at(v.0 as int, u.0 as int) + flow.at(v.0 as int, u.0 as int) <= 0);
    }
}

/// No flow is greater than a cut: what leaves the source is at most the
/// capacity of any cut between source and sink.
pub proof fn lemma_flow_below_cut<E, W>(
    edges: Seq<EdgeRecord<E, W>>,
    caps: Seq<u32>,
    base: Flow,
    flow: Flow,
    source: NodeId,
    sink: NodeId,
    side: Seq<bool>,
)
    requires
        caps.len() == edges.len(),
        flow.wf(),
        flow.dim() == side.len(),
        side.len() <= usize::MAX,
        is_cut(side, side.len() as int, source.0 as int, sink.0 as int),
        forall|u: int, v: int| #[trigger] base.at(u, v) == 0,
        skew(flow),
        forall|x: int| x != source.0 && x != sink.0 ==> #[trigger] flow.net_out(x) == 0,
        respects_capacities(edges, caps, base, flow),
    ensures
        flow.net_out(source.0 as int) <= cut_capacity(edges, caps, side),
{
    let n = side.len() as int;
    lemma_leaving_source(flow, side, source.0 as int, sink.0 as int, n);
    lemma_leaving_crosses(flow, side);
    let over = crossing(flow, side);
    let room = crossing_capacities(edges, caps, side);
    assert forall|a: int, b: int| 0 <= a < n && 0 <= b < n implies #[trigger] over(a, b) <= room(a, b) by {
        if side[a] && !side[b] {
            lemma_flow_bounded(edges, caps, base, flow, a, b);
        }
    }
    lemma_table_order(over, room, n, n);
}

/// Maximum flow and least cut: where no route is left along which flow
/// can be pushed from the source to the sink, the nodes within reach of
/// the source are a cut whose capacity is the flow that leaves the source.
/// As no flow is greater than any cut, that flow is a greatest flow and
/// that cut a least cut.
pub proof fn lemma_max_flow_min_cut<E, W>(
    edges: Seq<EdgeRecord<E, W>>,
    caps: Seq<u32>,
    base: Flow,
    flow: Flow,
    source: NodeId,
    sink: NodeId,
)
    requires
        caps.len() == edges.len(),
        flow.wf(),
        flow.dim() <= usize::MAX,
        source.0 < flow.dim(),
        sink.0 < flow.dim(),
        forall|u: int, v: int| #[trigger] base.at(u, v) == 0,
        skew(flow),
        forall|x: int| x != source.0 && x != sink.0 ==> #[trigger] flow.net_out(x) == 0,
        respects_capacities(edges, caps, base, flow),
        forall|route: Seq<NodeId>|
            #[trigger] augmenting(edges, caps, base, flow, route) && route[0] == source
                ==> route.last() != sink,
    ensures
        is_cut(
            reach_side(edges, caps, base, flow, source, flow.dim() as int),
            flow.dim() as int,
            source.0 as int,
            sink.0 as int,
        ),
        flow.net_out(source.0 as int) == cut_capacity(
            edges,
            caps,
            reach_side(edges, caps, base, flow, source, flow.dim() as int),
        ),
        forall|side: Seq<bool>|
            is_cut(side, flow.dim() as int, source.0 as int, sink.0 as int) ==> flow.net_out(
                source.0 as int,
            ) <= #[trigger] cut_capacity(edges, caps, side),
{
    let n = flow.dim() as int;
    let side = reach_side(edges, caps, base, flow, source, n);
    let alone = seq![source];
    assert(augmenting(edges, caps, base, flow, alone) && alone[0] == source && alone.last().0
        == source.0 as int);
    assert(side[source.0 as int]);
    assert(!side[sink.0 as int]) by {
        if in_reach(edges, caps, base, flow, source, sink.0 as int) {
            let route = choose|route: Seq<NodeId>|
                #[trigger] augmenting(edges, caps, base, flow, route) && route[0] == source
                    && route.last().0 == sink.0 as int;
            assert(route.last() == sink);
        }
    }
    lemma_leaving_source(flow, side, source.0 as int, sink.0 as int, n);
    lemma_leaving_crosses(flow, side);
    let over = crossing(flow, side);
    let room = crossing_capacities(edges, caps, side);
    assert forall|a: int, b: int| 0 <= a < n && 0 <= b < n implies #[trigger] over(a, b) == room(a, b) by {
        if side[a] && !side[b] {
            lemma_reach_closed(edges, caps, base, flow, source, NodeId(a as usize), NodeId(b as usize));
            lemma_flow_fills(edges, caps, base, flow, a, b);
        }
    }
    assert forall|a: int, b: int| 0 <= a < n && 0 <= b < n implies #[trigger] over(a, b) <= room(a, b) by {
        assert(over(a, b) == room(a, b));
    }
    lemma_table_order(over, room, n, n);
    assert forall|other: Seq<bool>|
        is_cut(other, n, source.0 as int, sink.0 as int) implies flow.net_out(source.0 as int)
        <= #[trigger] cut_capacity(edges, caps, other) by {
        lemma_flow_below_cut(edges, caps, base, flow, source, sink, other);
    }
}

} // verus!
