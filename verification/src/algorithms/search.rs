//! Breadth-first search over the successor relation of a graph.

use vstd::prelude::*;
use crate::base::NodeId;
use crate::counting::lemma_distinct_bounded;
use crate::storage::scan::unknown_table;
use crate::traits::{has_edge, GraphBase};

verus! {

/// `to` is a successor of `from`.
pub open spec fn joined<G: GraphBase>(g: &G, from: NodeId, to: NodeId) -> bool {
    has_edge(g.edges(), from, to) || (g.symmetric() && has_edge(g.edges(), to, from))
}

/// `route` lists nodes of which each is a successor of the one before.
pub open spec fn is_route<G: GraphBase>(g: &G, route: Seq<NodeId>) -> bool {
    &&& route.len() >= 1
    &&& forall|i: int| 0 <= i < route.len() - 1 ==> joined(g, #[trigger] route[i], route[i + 1])
}

/// Every parent link joins the parent to its child and leads one hop
/// closer to `source`, and ends at `source` or at a node that has a parent
/// itself.
pub open spec fn is_search_tree<G: GraphBase>(
    g: &G,
    source: NodeId,
    parent: Seq<Option<NodeId>>,
    hops: Seq<nat>,
) -> bool {
    &&& parent.len() == g.keys().len()
    &&& hops.len() == parent.len()
    &&& source.0 < parent.len()
    &&& parent[source.0 as int] is None
    &&& hops[source.0 as int] == 0
    &&& forall|x: int|
        0 <= x < parent.len() && (#[trigger] parent[x]) is Some ==> {
            let p = parent[x]->Some_0;
            &&& p.0 < parent.len()
            &&& joined(g, p, NodeId(x as usize))
            &&& hops[p.0 as int] + 1 == hops[x]
            &&& (p == source || parent[p.0 as int] is Some)
        }
}

/// What the search keeps true of its queue: the nodes before `head` have
/// been expanded, which means that all their successors are visited and
/// at most one hop farther; the nodes of the queue are the visited nodes,
/// in the order of their hops; and no node of the queue is more than one
/// hop farther than the node at `head`.
pub open spec fn queue_ok<G: GraphBase>(
    g: &G,
    queue: Seq<usize>,
    head: int,
    visited: Seq<bool>,
    hops: Seq<nat>,
) -> bool {
    let n = g.keys().len() as int;
    &&& visited.len() == n
    &&& hops.len() == n
    &&& 0 <= head <= queue.len()
    &&& queue.no_duplicates()
    &&& forall|i: int| 0 <= i < queue.len() ==> (#[trigger] queue[i]) < n
    &&& forall|x: int| 0 <= x < n ==> ((#[trigger] visited[x]) <==> queue.contains(x as usize))
    &&& forall|i: int, j: int|
        0 <= i < j < queue.len() ==> hops[(#[trigger] queue[i]) as int] <= hops[(
        #[trigger] queue[j]) as int]
    &&& head < queue.len() ==> forall|j: int|
        0 <= j < queue.len() ==> hops[(#[trigger] queue[j]) as int] <= hops[queue[head] as int] + 1
    &&& forall|i: int, y: NodeId|
        0 <= i < head && #[trigger] joined(g, NodeId(#[trigger] queue[i]), y) ==> y.0 < n
            && visited[y.0 as int] && hops[y.0 as int] <= hops[queue[i] as int] + 1
}

/// Along a route from the first node of the queue every node is visited
/// and no more hops away than its place in the route, up to the place
/// where the route is as long as the node at `head` is far.
pub proof fn lemma_route_hops<G: GraphBase>(
    g: &G,
    route: Seq<NodeId>,
    queue: Seq<usize>,
    head: int,
    visited: Seq<bool>,
    hops: Seq<nat>,
    upto: int,
)
    requires
        queue_ok(g, queue, head, visited, hops),
        is_route(g, route),
        0 <= upto < route.len(),
        queue.len() >= 1,
        route[0].0 == queue[0],
        hops[queue[0] as int] == 0,
    ensures
        (route[upto].0 < visited.len() && visited[route[upto].0 as int]
            && hops[route[upto].0 as int] <= upto && (head == queue.len() || queue.take(head).contains(
            route[upto].0,
        ) || hops[queue[head] as int] <= upto)) || (head < queue.len() && hops[queue[head] as int]
            <= upto),
    decreases upto,
{
    if upto == 0 {
        assert(queue.contains(queue[0]));
        if head > 0 {
            assert(queue.take(head)[0] == queue[0]);
        } else if head < queue.len() {
        }
    } else {
        lemma_route_hops(g, route, queue, head, visited, hops, upto - 1);
        let x = route[upto - 1];
        let y = route[upto];
        if head < queue.len() && hops[queue[head] as int] <= upto - 1 {
        } else {
            assert(visited[x.0 as int]);
            assert(queue.contains(x.0));
            let q = choose|q: int| 0 <= q < queue.len() && queue[q] == x.0;
            if q < head {
                assert(NodeId(queue[q]) == x);
                assert(joined(g, NodeId(queue[q]), y));
                assert(queue.contains(y.0));
                let r = choose|r: int| 0 <= r < queue.len() && queue[r] == y.0;
                if r < head {
                    assert(queue.take(head)[r] == y.0);
                } else if head < queue.len() {
                    if head < r {
                        assert(hops[queue[head] as int] <= hops[queue[r] as int]);
                    }
                }
            } else {
                if queue.take(head).contains(x.0) {
                    let p = choose|p: int| 0 <= p < head && queue.take(head)[p] == x.0;
                    assert(queue[p] == queue[q]);
                }
            }
        }
    }
}

/// The pair `a` comes before the pair `b`: its first item is less, or the
/// first items are equal and its second item is less.
pub open spec fn comes_first(a: (int, int), b: (int, int)) -> bool {
    a.0 < b.0 || (a.0 == b.0 && a.1 < b.1)
}

/// The node at the place `r` of `order` was first seen as the item
/// `via[r].1` of the successors of the node at the place `via[r].0`, which
/// became its parent: no earlier node of the order has it as a successor,
/// and no earlier item of these successors is this node.
pub open spec fn is_first_seen<G: GraphBase>(
    g: &G,
    parent: Seq<Option<NodeId>>,
    order: Seq<usize>,
    via: Seq<(int, int)>,
    r: int,
) -> bool {
    let from = via[r].0;
    let at = via[r].1;
    let list = g.heads(NodeId(order[from]));
    &&& 0 <= from < r
    &&& 0 <= at < list.len()
    &&& list[at] == NodeId(order[r])
    &&& parent[order[r] as int] == Some(NodeId(order[from]))
    &&& forall|k: int| 0 <= k < at ==> #[trigger] list[k] != NodeId(order[r])
    &&& forall|i: int| 0 <= i < from ==> !joined(g, NodeId(#[trigger] order[i]), NodeId(order[r]))
}

/// What the search keeps true of the order in which it sees the nodes,
/// when it has gone through the successors of the first `done` nodes and
/// through the first `partial` successors of the next: every node but the
/// first was first seen there, and the nodes stand in the order in which
/// they were seen.
pub open spec fn seen_in_order<G: GraphBase>(
    g: &G,
    parent: Seq<Option<NodeId>>,
    order: Seq<usize>,
    via: Seq<(int, int)>,
    done: int,
    partial: int,
) -> bool {
    &&& via.len() == order.len()
    &&& forall|r: int|
        1 <= r < order.len() ==> #[trigger] is_first_seen(g, parent, order, via, r) && comes_first(
            via[r],
            (done, partial),
        )
    &&& forall|a: int, b: int|
        1 <= a < b < order.len() ==> comes_first(#[trigger] via[a], #[trigger] via[b])
}

/// The parent links are those of the breadth-first search from `source`
/// that takes the nodes in the order `order`, goes through the successors
/// of each in the order in which the graph lists them, and ends when it
/// comes to `sink`, or when no node is left.
///
/// The first `done` nodes of the order are those whose successors the
/// search has gone through: all their successors are in the order. Every
/// node but the source stands where it was first seen, as `via` says, and
/// has the node there as its parent.
pub open spec fn is_first_search<G: GraphBase>(
    g: &G,
    source: NodeId,
    sink: NodeId,
    found: bool,
    parent: Seq<Option<NodeId>>,
    order: Seq<usize>,
    via: Seq<(int, int)>,
    done: int,
) -> bool {
    let n = g.keys().len();
    &&& parent.len() == n
    &&& order.len() >= 1
    &&& order[0] == source.0
    &&& order.no_duplicates()
    &&& forall|i: int| 0 <= i < order.len() ==> (#[trigger] order[i]) < n
    &&& forall|x: int|
        0 <= x < n ==> ((#[trigger] parent[x]) is Some <==> order.contains(x as usize) && x != source.0)
    &&& 0 <= done <= order.len()
    &&& forall|i: int| 0 <= i < done ==> (#[trigger] order[i]) != sink.0
    &&& if found {
        done < order.len() && order[done] == sink.0
    } else {
        done == order.len()
    }
    &&& seen_in_order(g, parent, order, via, done, 0)
    &&& forall|i: int, y: NodeId|
        0 <= i < done && #[trigger] joined(g, NodeId(#[trigger] order[i]), y) ==> order.contains(y.0)
}

/// Taking a node that is not visited yet into the order, as the item
/// `at` of the successors of the node that is being gone through, keeps
/// the nodes in the order in which they were seen.
pub proof fn lemma_seen_pushed<G: GraphBase>(
    g: &G,
    parent: Seq<Option<NodeId>>,
    order: Seq<usize>,
    via: Seq<(int, int)>,
    head: int,
    at: int,
    y: NodeId,
    visited: Seq<bool>,
    hops: Seq<nat>,
)
    requires
        0 <= head < order.len(),
        parent.len() == g.keys().len(),
        y.0 < parent.len(),
        forall|i: int| 0 <= i < order.len() ==> (#[trigger] order[i]) < parent.len(),
        !order.contains(y.0),
        visited.len() == g.keys().len(),
        !visited[y.0 as int],
        forall|i: int, z: NodeId|
            0 <= i < head && #[trigger] joined(g, NodeId(#[trigger] order[i]), z) ==> z.0
                < visited.len() && visited[z.0 as int],
        seen_in_order(g, parent, order, via, head, at),
        0 <= at < g.heads(NodeId(order[head])).len(),
        g.heads(NodeId(order[head]))[at] == y,
        forall|k: int|
            0 <= k < at ==> visited[(#[trigger] g.heads(NodeId(order[head]))[k]).0 as int],
        forall|k: int|
            0 <= k < at ==> (#[trigger] g.heads(NodeId(order[head]))[k]).0 < visited.len(),
    ensures
        seen_in_order(
            g,
            parent.update(y.0 as int, Some(NodeId(order[head]))),
            order.push(y.0),
            via.push((head, at)),
            head,
            at + 1,
        ),
{
    let after = parent.update(y.0 as int, Some(NodeId(order[head])));
    let longer = order.push(y.0);
    let more = via.push((head, at));
    let last = order.len() as int;
    let list = g.heads(NodeId(order[head]));
    assert forall|r: int| 1 <= r < longer.len() implies #[trigger] is_first_seen(
        g,
        after,
        longer,
        more,
        r,
    ) && comes_first(more[r], (head, at + 1)) by {
        if r < last {
            assert(is_first_seen(g, parent, order, via, r));
            assert(comes_first(via[r], (head, at)));
            assert(more[r] == via[r]);
            assert(longer[r] == order[r]);
            assert(order.contains(order[r]));
            assert(order[r] != y.0);
            let from = via[r].0;
            assert(longer[from] == order[from]);
            assert forall|i: int| 0 <= i < from implies !joined(
                g,
                NodeId(#[trigger] longer[i]),
                NodeId(longer[r]),
            ) by {
                assert(longer[i] == order[i]);
                assert(!joined(g, NodeId(order[i]), NodeId(order[r])));
            }
        } else {
            assert(more[r] == (head, at));
            assert(longer[r] == y.0);
            assert(longer[head] == order[head]);
            assert(NodeId(longer[r]) == y);
            assert forall|k: int| 0 <= k < at implies #[trigger] list[k] != y by {
                assert(visited[list[k].0 as int]);
            }
            assert forall|i: int| 0 <= i < head implies !joined(
                g,
                NodeId(#[trigger] longer[i]),
                NodeId(longer[r]),
            ) by {
                assert(longer[i] == order[i]);
                if joined(g, NodeId(order[i]), y) {
                    assert(visited[y.0 as int]);
                }
            }
        }
    }
    assert forall|a: int, b: int| 1 <= a < b < longer.len() implies comes_first(
        #[trigger] more[a],
        #[trigger] more[b],
    ) by {
        assert(more[a] == via[a]);
        if b < last {
            assert(more[b] == via[b]);
        } else {
            assert(is_first_seen(g, parent, order, via, a));
            assert(comes_first(via[a], (head, at)));
        }
    }
}

/// Breadth-first search from `source` until `sink` is taken from the queue.
///
/// Returns whether `sink` was reached, and the parent links of the search.
/// If it was, the links lead from `sink` back to `source` over as few hops
/// as any route from `source` to `sink` has; if not, no route leads from
/// `source` to `sink`.
pub fn breadth_first<G: GraphBase>(graph: &G, source: NodeId, sink: NodeId) -> (found: (
    bool,
    Vec<Option<NodeId>>,
))
    requires
        graph.wf(),
        source.0 < graph.keys().len(),
        sink.0 < graph.keys().len(),
    ensures
        exists|hops: Seq<nat>|
            {
                &&& #[trigger] is_search_tree(graph, source, found.1@, hops)
                &&& found.0 ==> forall|route: Seq<NodeId>|
                    #[trigger] is_route(graph, route) && route[0] == source && route.last() == sink
                        ==> hops[sink.0 as int] < route.len()
            },
        found.0 ==> sink == source || found.1@[sink.0 as int] is Some,
        !found.0 ==> forall|route: Seq<NodeId>|
            #[trigger] is_route(graph, route) && route[0] == source ==> route.last() != sink,
        exists|order: Seq<usize>, via: Seq<(int, int)>, done: int| #[trigger]
            is_first_search(graph, source, sink, found.0, found.1@, order, via, done),
{
    let n = graph.order();
    let mut parent: Vec<Option<NodeId>> = unknown_table(n);
    let mut visited: Vec<bool> = Vec::new();
    let mut i: usize = 0;
    while i < n
        invariant
            i <= n,
            visited@.len() == i,
            forall|j: int| 0 <= j < i ==> !(#[trigger] visited@[j]),
        decreases n - i,
    {
        visited.push(false);
        i += 1;
    }
    let mut queue: Vec<usize> = Vec::new();
    queue.push(source.0);
    visited.set(source.0, true);
    let ghost mut hops: Seq<nat> = Seq::new(n as nat, |i: int| 0nat);
    let mut head: usize = 0;
    let mut found = false;
    let ghost mut via: Seq<(int, int)> = seq![(0int, 0int)];
    proof {
        assert forall|x: int| 0 <= x < n implies ((#[trigger] visited@[x]) <==> queue@.contains(
            x as usize,
        )) by {
            if x == source.0 {
                assert(queue@[0] == source.0);
            }
        }
    }
    while !found && head < queue.len()
        invariant
            graph.wf(),
            n == graph.keys().len(),
            source.0 < n,
            sink.0 < n,
            parent@.len() == n,
            queue@.len() >= 1,
            queue@[0] == source.0,
            queue_ok(graph, queue@, head as int, visited@, hops),
            is_search_tree(graph, source, parent@, hops),
            forall|x: int|
                0 <= x < n && (#[trigger] parent@[x]) is Some ==> visited@[x] && visited@[parent@[x]->Some_0.0 as int],
            forall|x: int| 0 <= x < n && (#[trigger] visited@[x]) && x != source.0 ==> parent@[x] is Some,
            forall|i: int| 0 <= i < head ==> (#[trigger] queue@[i]) != sink.0,
            found ==> head < queue@.len() && queue@[head as int] == sink.0,
            seen_in_order(graph, parent@, queue@, via, head as int, 0),
        decreases n - head, if found { 0int } else { 1int },
    {
        proof {
            lemma_distinct_bounded(queue@, n as nat);
        }
        let current = queue[head];
        if current == sink.0 {
            found = true;
        } else {
            let next = graph.successors(NodeId(current));
            proof {
                graph.lemma_wf();
            }
            let mut j: usize = 0;
            while j < next.len()
                invariant
                    graph.wf(),
                    n == graph.keys().len(),
                    source.0 < n,
                    sink.0 < n,
                    current < n,
                    current != sink.0,
                    parent@.len() == n,
                    queue@.len() >= 1,
                    queue@[0] == source.0,
                    head < queue@.len(),
                    queue@[head as int] == current,
                    !found,
                    queue_ok(graph, queue@, head as int, visited@, hops),
                    is_search_tree(graph, source, parent@, hops),
                    forall|x: int|
                        0 <= x < n && (#[trigger] parent@[x]) is Some ==> visited@[x]
                            && visited@[parent@[x]->Some_0.0 as int],
                    forall|x: int|
                        0 <= x < n && (#[trigger] visited@[x]) && x != source.0 ==> parent@[x] is Some,
                    forall|i: int| 0 <= i < head ==> (#[trigger] queue@[i]) != sink.0,
                    j <= next@.len(),
                    next@ == graph.heads(NodeId(current)),
                    seen_in_order(graph, parent@, queue@, via, head as int, j as int),
                    forall|y: NodeId| next@.contains(y) <==> joined(graph, NodeId(current), y),
                    forall|y: NodeId| next@.contains(y) ==> y.0 < n,
                    forall|k: int|
                        0 <= k < j ==> visited@[(#[trigger] next@[k]).0 as int] && hops[next@[k].0 as int]
                            <= hops[current as int] + 1,
                decreases next@.len() - j,
            {
                let y = next[j];
                assert(next@.contains(y));
                let ghost seen = visited@;
                let ghost old_hops = hops;
                let ghost old_queue = queue@;
                let ghost old_via = via;
                let ghost parent_before = parent@;
                proof {
                    assert forall|k: int| 0 <= k < j implies (#[trigger] next@[k]).0 < n by {
                        assert(next@.contains(next@[k]));
                    }
                    assert(old_queue.contains(current));
                }
                if !visited[y.0] {
                    let ghost old_parent = parent@;
                    visited.set(y.0, true);
                    parent.set(y.0, Some(NodeId(current)));
                    proof {
                        hops = hops.update(y.0 as int, hops[current as int] + 1);
                        assert(!old_queue.contains(y.0));
                        assert(y.0 != current);
                        assert(y.0 != source.0) by {
                            assert(old_queue.contains(source.0));
                        }
                    }
                    queue.push(y.0);
                    proof {
                        let last = old_queue.len() as int;
                        assert(queue@[last] == y.0);
                        via = via.push((head as int, j as int));
                        lemma_seen_pushed(
                            graph,
                            parent_before,
                            old_queue,
                            old_via,
                            head as int,
                            j as int,
                            y,
                            seen,
                            hops,
                        );
                        assert(parent@ =~= parent_before.update(y.0 as int, Some(NodeId(current))));
                        assert forall|i: int| 0 <= i < old_queue.len() implies queue@[i] == old_queue[i]
                            && old_queue[i] != y.0 && hops[old_queue[i] as int] == old_hops[old_queue[i] as int] by {
                            assert(old_queue.contains(old_queue[i]));
                        }
                        assert forall|x: int| 0 <= x < n implies ((#[trigger] visited@[x])
                            <==> queue@.contains(x as usize)) by {
                            crate::storage::scan::lemma_push_contains(old_queue, y.0, x as usize);
                        }
                        assert(queue@.no_duplicates()) by {
                            assert forall|a: int, b: int|
                                0 <= a < queue@.len() && 0 <= b < queue@.len() && a != b implies queue@[a]
                                != queue@[b] by {
                                if a < last && b < last {
                                    assert(old_queue[a] != old_queue[b]);
                                }
                            }
                        }
                        assert forall|a: int, b: int| 0 <= a < b < queue@.len() implies hops[(
                        #[trigger] queue@[a]) as int] <= hops[(#[trigger] queue@[b]) as int] by {
                            if b < last {
                                assert(old_hops[old_queue[a] as int] <= old_hops[old_queue[b] as int]);
                            } else {
                                assert(old_hops[old_queue[a] as int] <= old_hops[old_queue[head as int] as int]
                                    + 1);
                            }
                        }
                        assert forall|b: int| 0 <= b < queue@.len() implies hops[(
                        #[trigger] queue@[b]) as int] <= hops[queue@[head as int] as int] + 1 by {
                            if b < last {
                                assert(old_hops[old_queue[b] as int] <= old_hops[old_queue[head as int] as int]
                                    + 1);
                            }
                        }
                        assert forall|i: int, z: NodeId|
                            0 <= i < head && #[trigger] joined(
                                graph,
                                NodeId(#[trigger] queue@[i]),
                                z,
                            ) implies z.0 < n && visited@[z.0 as int] && hops[z.0 as int]
                            <= hops[queue@[i] as int] + 1 by {
                            assert(queue@[i] == old_queue[i]);
                            assert(seen[z.0 as int]);
                            assert(z.0 != y.0);
                        }
                        assert(queue_ok(graph, queue@, head as int, visited@, hops));
                        assert forall|x: int| 0 <= x < n && (#[trigger] parent@[x]) is Some implies {
                            let p = parent@[x]->Some_0;
                            &&& p.0 < n
                            &&& joined(graph, p, NodeId(x as usize))
                            &&& hops[p.0 as int] + 1 == hops[x]
                            &&& (p == source || parent@[p.0 as int] is Some)
                            &&& visited@[x]
                            &&& visited@[p.0 as int]
                        } by {
                            if x != y.0 {
                                assert(parent@[x] == old_parent[x]);
                                let p = old_parent[x]->Some_0;
                                assert(seen[x] && seen[p.0 as int]);
                                assert(p.0 != y.0);
                                assert(old_hops[p.0 as int] + 1 == old_hops[x]);
                                assert(parent@[p.0 as int] == old_parent[p.0 as int]);
                            } else {
                                assert(parent@[x] == Some(NodeId(current)));
                                assert(NodeId(x as usize) == y);
                                assert(joined(graph, NodeId(current), y));
                                assert(seen[current as int]);
                                assert(parent@[current as int] == old_parent[current as int]);
                            }
                        }
                        assert forall|k: int| 0 <= k < j + 1 implies visited@[(
                        #[trigger] next@[k]).0 as int] && hops[next@[k].0 as int] <= hops[current as int]
                            + 1 by {
                            if k < j {
                                assert(seen[next@[k].0 as int]);
                            }
                        }
                    }
                } else {
                    proof {
                        assert(queue@.contains(y.0));
                        let r = choose|r: int| 0 <= r < queue@.len() && queue@[r] == y.0;
                        assert(hops[queue@[r] as int] <= hops[queue@[head as int] as int] + 1);
                        assert forall|r: int| 1 <= r < queue@.len() implies #[trigger] is_first_seen(
                            graph,
                            parent@,
                            queue@,
                            via,
                            r,
                        ) && comes_first(via[r], (head as int, j + 1)) by {
                            assert(is_first_seen(graph, parent@, queue@, via, r));
                            assert(comes_first(via[r], (head as int, j as int)));
                        }
                    }
                }
                j += 1;
            }
            proof {
                assert forall|y: NodeId| #[trigger]
                    joined(graph, NodeId(queue@[head as int]), y) implies y.0 < n && visited@[y.0 as int]
                    && hops[y.0 as int] <= hops[queue@[head as int] as int] + 1 by {
                    assert(next@.contains(y));
                    let k = choose|k: int| 0 <= k < next@.len() && next@[k] == y;
                    assert(visited@[next@[k].0 as int]);
                }
                assert forall|r: int| 1 <= r < queue@.len() implies #[trigger] is_first_seen(
                    graph,
                    parent@,
                    queue@,
                    via,
                    r,
                ) && comes_first(via[r], (head + 1, 0int)) by {
                    assert(is_first_seen(graph, parent@, queue@, via, r));
                    assert(comes_first(via[r], (head as int, j as int)));
                }
                if head + 1 < queue@.len() {
                    assert forall|b: int| 0 <= b < queue@.len() implies hops[(
                    #[trigger] queue@[b]) as int] <= hops[queue@[head + 1] as int] + 1 by {
                        assert(hops[queue@[b] as int] <= hops[queue@[head as int] as int] + 1);
                        assert(hops[queue@[head as int] as int] <= hops[queue@[head + 1] as int]);
                    }
                }
            }
            head += 1;
        }
    }
    proof {
        assert forall|i: int, y: NodeId|
            0 <= i < head && #[trigger] joined(graph, NodeId(#[trigger] queue@[i]), y) implies queue@.contains(
            y.0,
        ) by {
            assert(visited@[y.0 as int]);
        }
        assert forall|x: int| 0 <= x < n implies ((#[trigger] parent@[x]) is Some <==> queue@.contains(
            x as usize,
        ) && x != source.0) by {
            assert(visited@[x] <==> queue@.contains(x as usize));
        }
        assert(seen_in_order(graph, parent@, queue@, via, head as int, 0));
        assert(forall|i: int| 0 <= i < queue@.len() ==> (#[trigger] queue@[i]) < n);
        assert(queue@.no_duplicates());
        assert(is_first_search(graph, source, sink, found, parent@, queue@, via, head as int));
        if found {
            assert forall|route: Seq<NodeId>|
                #[trigger] is_route(graph, route) && route[0] == source && route.last()
                    == sink implies hops[sink.0 as int] < route.len() by {
                lemma_route_hops(
                    graph,
                    route,
                    queue@,
                    head as int,
                    visited@,
                    hops,
                    route.len() - 1,
                );
                if queue@.take(head as int).contains(sink.0) {
                    let p = choose|p: int| 0 <= p < head && queue@.take(head as int)[p] == sink.0;
                    assert(queue@[p] != sink.0);
                }
            }
            if sink != source {
                assert(visited@[sink.0 as int]) by {
                    assert(queue@.contains(queue@[head as int]));
                }
            }
        } else {
            assert forall|route: Seq<NodeId>|
                #[trigger] is_route(graph, route) && route[0] == source implies route.last()
                != sink by {
                lemma_route_hops(
                    graph,
                    route,
                    queue@,
                    head as int,
                    visited@,
                    hops,
                    route.len() - 1,
                );
                if route.last() == sink {
                    assert(queue@.contains(sink.0));
                    let q = choose|q: int| 0 <= q < queue@.len() && queue@[q] == sink.0;
                    assert(queue@[q] != sink.0);
                }
            }
        }
    }
    (found, parent)
}

} // verus!
