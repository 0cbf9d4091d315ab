//! Eulerian circuits of undirected graphs by Hierholzer's algorithm.

use vstd::prelude::*;
use crate::base::{EdgeId, NodeId, NodeKey};
use crate::counting::lemma_distinct_covers;
use crate::storage::graph_definition::EdgeRecord;
use crate::traits::{GraphBase, GraphKindMarker, StorageRepresentation};
use crate::wrappers::{logical, UndirectedGraph};

verus! {

/// The edges of an undirected graph, which holds every edge as a record
/// and its mirror image: of each two records the first.
pub open spec fn edge_list<E, W>(records: Seq<EdgeRecord<E, W>>) -> Seq<EdgeRecord<E, W>> {
    Seq::new((records.len() / 2) as nat, |k: int| logical(records, k))
}

/// How often the record `r` touches the node `x`: twice for a self-loop.
pub open spec fn incidence<E, W>(r: EdgeRecord<E, W>, x: int) -> int {
    (if r.from.0 == x { 1int } else { 0int }) + (if r.to.0 == x { 1int } else { 0int })
}

/// The degree of the node `x`: every record counts, a self-loop twice.
pub open spec fn degree<E, W>(edges: Seq<EdgeRecord<E, W>>, x: int) -> int
    decreases edges.len(),
{
    if edges.len() == 0 {
        0
    } else {
        degree(edges.drop_last(), x) + incidence(edges.last(), x)
    }
}

/// The record `r` joins the nodes `a` and `b`, in whatever direction.
pub open spec fn joins<E, W>(r: EdgeRecord<E, W>, a: int, b: int) -> bool {
    (r.from.0 == a && r.to.0 == b) || (r.from.0 == b && r.to.0 == a)
}

/// `trail` runs over every record exactly once, from node to node along
/// `nodes`, and ends where it starts.
pub open spec fn is_euler_circuit<E, W>(
    edges: Seq<EdgeRecord<E, W>>,
    nodes: Seq<int>,
    trail: Seq<int>,
) -> bool {
    &&& trail.len() == edges.len()
    &&& nodes.len() == trail.len() + 1
    &&& trail.no_duplicates()
    &&& forall|i: int|
        0 <= i < trail.len() ==> 0 <= #[trigger] trail[i] < edges.len() && joins(
            edges[trail[i]],
            nodes[i],
            nodes[i + 1],
        )
    &&& nodes[0] == nodes.last()
}

/// `x` is the first node that a record touches; any node if there is no
/// record.
pub open spec fn is_first_touched<E, W>(edges: Seq<EdgeRecord<E, W>>, x: int) -> bool {
    edges.len() > 0 ==> degree(edges, x) > 0 && forall|y: int| 0 <= y < x ==> #[trigger] degree(edges, y) == 0
}

/// Some circuit runs over every record exactly once.
pub open spec fn has_euler_circuit<E, W>(edges: Seq<EdgeRecord<E, W>>) -> bool {
    exists|nodes: Seq<int>, trail: Seq<int>| #[trigger] is_euler_circuit(edges, nodes, trail)
}

/// `nodes` lists nodes of which each is joined to the next by a record.
pub open spec fn is_node_walk<E, W>(edges: Seq<EdgeRecord<E, W>>, nodes: Seq<int>) -> bool {
    &&& nodes.len() >= 1
    &&& forall|i: int| 0 <= i < nodes.len() - 1 ==> #[trigger] is_joined_step(edges, nodes, i)
}

/// Some record joins the node at the place `i` of `nodes` to the next.
pub open spec fn is_joined_step<E, W>(edges: Seq<EdgeRecord<E, W>>, nodes: Seq<int>, i: int) -> bool {
    exists|e: int| 0 <= e < edges.len() && joins(#[trigger] edges[e], nodes[i], nodes[i + 1])
}

/// The records hang together: from every record a walk over records
/// leads to every other.
pub open spec fn hangs_together<E, W>(edges: Seq<EdgeRecord<E, W>>) -> bool {
    forall|a: int, b: int|
        0 <= a < edges.len() && 0 <= b < edges.len() ==> exists|nodes: Seq<int>|
            #[trigger] is_node_walk(edges, nodes) && nodes[0] == (#[trigger] edges[a]).from.0
                && nodes.last() == (#[trigger] edges[b]).from.0
}

/// Some node below `n` has an odd degree.
pub open spec fn has_odd_node<E, W>(edges: Seq<EdgeRecord<E, W>>, n: int) -> bool {
    exists|x: int| 0 <= x < n && #[trigger] degree(edges, x) % 2 == 1
}

/// Why a graph has no Eulerian circuit.
#[derive(Clone, Copy, Debug, PartialEq, Eq, Structural)]
pub enum HierholzerError {
    /// The first node of odd degree, and its degree.
    OddDegree { node: NodeId, degree: usize },
    /// All degrees are even, but the edges do not hang together.
    Disconnected,
}

/// The keys of the nodes along an Eulerian circuit.
pub struct HierholzerResult<K> {
    pub path: Vec<K>,
}

/// The degree of `x` counted over the records that are not used yet.
pub open spec fn open_degree<E, W>(edges: Seq<EdgeRecord<E, W>>, used: Seq<bool>, x: int) -> int
    decreases edges.len(),
{
    if edges.len() == 0 {
        0
    } else {
        open_degree(edges.drop_last(), used.drop_last(), x) + if used.last() {
            0
        } else {
            incidence(edges.last(), x)
        }
    }
}

/// The number of records that are not used yet.
pub open spec fn open_count(used: Seq<bool>) -> int
    decreases used.len(),
{
    if used.len() == 0 {
        0
    } else {
        open_count(used.drop_last()) + if used.last() {
            0int
        } else {
            1int
        }
    }
}

/// With no record used, the open degree is the degree.
pub proof fn lemma_open_degree_fresh<E, W>(edges: Seq<EdgeRecord<E, W>>, used: Seq<bool>, x: int)
    requires
        used.len() == edges.len(),
        forall|e: int| 0 <= e < used.len() ==> !#[trigger] used[e],
    ensures
        open_degree(edges, used, x) == degree(edges, x),
        open_count(used) == used.len(),
    decreases edges.len(),
{
    if edges.len() > 0 {
        lemma_open_degree_fresh(edges.drop_last(), used.drop_last(), x);
    }
}

/// Using one more record lowers the open degree of a node by how often the
/// record touches it, and the number of open records by one.
pub proof fn lemma_open_degree_use<E, W>(
    edges: Seq<EdgeRecord<E, W>>,
    used: Seq<bool>,
    e: int,
    x: int,
)
    requires
        used.len() == edges.len(),
        0 <= e < used.len(),
        !used[e],
    ensures
        open_degree(edges, used.update(e, true), x) == open_degree(edges, used, x) - incidence(
            edges[e],
            x,
        ),
        open_count(used.update(e, true)) == open_count(used) - 1,
    decreases edges.len(),
{
    let after = used.update(e, true);
    if e == edges.len() - 1 {
        assert(after.drop_last() =~= used.drop_last());
    } else {
        lemma_open_degree_use(edges.drop_last(), used.drop_last(), e, x);
        assert(after.drop_last() =~= used.drop_last().update(e, true));
    }
}

/// A node that no open record touches has open degree zero; and while
/// open records are left, one of them can be named.
pub proof fn lemma_open_degree_none<E, W>(edges: Seq<EdgeRecord<E, W>>, used: Seq<bool>, x: int)
    requires
        used.len() == edges.len(),
    ensures
        (forall|e: int| 0 <= e < used.len() && !#[trigger] used[e] ==> incidence(edges[e], x) == 0)
            ==> open_degree(edges, used, x) == 0,
        open_count(used) > 0 ==> exists|e: int| 0 <= e < used.len() && !#[trigger] used[e],
        0 <= open_count(used) <= used.len(),
    decreases edges.len(),
{
    if edges.len() > 0 {
        lemma_open_degree_none(edges.drop_last(), used.drop_last(), x);
        if forall|e: int| 0 <= e < used.len() && !#[trigger] used[e] ==> incidence(edges[e], x) == 0 {
            assert forall|e: int|
                0 <= e < used.drop_last().len() && !#[trigger] used.drop_last()[e] implies incidence(
                edges.drop_last()[e],
                x,
            ) == 0 by {
                assert(!used[e]);
            }
            assert(used.last() == used[used.len() - 1]);
        }
        if open_count(used) > 0 {
            if used.last() {
                let e = choose|e: int|
                    0 <= e < used.drop_last().len() && !#[trigger] used.drop_last()[e];
                assert(!used[e]);
            } else {
                assert(!used[used.len() - 1]);
            }
        }
    }
}

/// Between two positions whose flags differ, two neighbouring positions
/// have different flags.
pub proof fn lemma_flag_change(flags: Seq<bool>, i: int, j: int)
    requires
        0 <= i < j < flags.len(),
        flags[i] != flags[j],
    ensures
        exists|p: int| i <= p < j && #[trigger] flags[p] != flags[p + 1],
    decreases j - i,
{
    if flags[i] != flags[i + 1] {
    } else {
        lemma_flag_change(flags, i + 1, j);
    }
}

/// For every node the edges that touch it, a self-loop twice. An edge
/// has the number of its pair of records.
pub fn incidence_lists<G: GraphBase>(graph: &G) -> (adj: Vec<Vec<usize>>)
    requires
        graph.wf(),
    ensures
        adj@.len() == graph.keys().len(),
        forall|x: int|
            0 <= x < adj@.len() ==> (#[trigger] adj@[x])@.len() == degree(edge_list(graph.edges()), x),
        forall|x: int, i: int|
            0 <= x < adj@.len() && 0 <= i < adj@[x]@.len() ==> (#[trigger] adj@[x]@[i]) < edge_list(
                graph.edges(),
            ).len() && incidence(edge_list(graph.edges())[adj@[x]@[i] as int], x) > 0,
        forall|x: int, e: int|
            0 <= x < adj@.len() && 0 <= e < edge_list(graph.edges()).len() && incidence(
                #[trigger] edge_list(graph.edges())[e],
                x,
            ) > 0 ==> (#[trigger] adj@[x])@.contains(e as usize),
{
    let n = graph.order();
    let m = graph.size() / 2;
    let mut adj: Vec<Vec<usize>> = Vec::new();
    let mut x: usize = 0;
    while x < n
        invariant
            x <= n,
            adj@.len() == x,
            forall|y: int| 0 <= y < x ==> (#[trigger] adj@[y])@.len() == 0,
        decreases n - x,
    {
        adj.push(Vec::new());
        x += 1;
    }
    let ghost edges = edge_list(graph.edges());
    let mut e: usize = 0;
    while e < m
        invariant
            graph.wf(),
            edges == edge_list(graph.edges()),
            n == graph.keys().len(),
            m == edges.len(),
            e <= m,
            adj@.len() == n,
            forall|x: int|
                0 <= x < n ==> (#[trigger] adj@[x])@.len() == degree(edges.take(e as int), x),
            forall|x: int, i: int|
                0 <= x < n && 0 <= i < adj@[x]@.len() ==> (#[trigger] adj@[x]@[i]) < e && incidence(
                    edges[adj@[x]@[i] as int],
                    x,
                ) > 0,
            forall|x: int, k: int|
                0 <= x < n && 0 <= k < e && incidence(#[trigger] edges[k], x) > 0 ==> (
                #[trigger] adj@[x])@.contains(k as usize),
        decreases m - e,
    {
        proof {
            graph.lemma_wf();
        }
        let (u, v) = graph.endpoints(EdgeId(2 * e));
        proof {
            assert(edges[e as int] == graph.edges()[2 * e]);
        }
        let ghost before = adj@;
        adj[u.0].push(e);
        let ghost half = adj@;
        adj[v.0].push(e);
        proof {
            assert(edges.take(e + 1).drop_last() =~= edges.take(e as int));
            assert(edges.take(e + 1).last() == edges[e as int]);
            assert forall|x: int| 0 <= x < n implies (#[trigger] adj@[x])@.len() == degree(
                edges.take(e + 1),
                x,
            ) by {
                assert(before[x]@.len() == degree(edges.take(e as int), x));
            }
            assert forall|x: int, k: int|
                0 <= x < n && 0 <= k < e + 1 && incidence(#[trigger] edges[k], x) > 0 implies (
            #[trigger] adj@[x])@.contains(k as usize) by {
                if k < e {
                    assert(before[x]@.contains(k as usize));
                    let i = choose|i: int| 0 <= i < before[x]@.len() && before[x]@[i] == k as usize;
                    assert(half[x]@[i] == k as usize);
                    assert(adj@[x]@[i] == k as usize);
                } else {
                    if x == v.0 {
                        assert(adj@[x]@[adj@[x]@.len() - 1] == e);
                    } else {
                        assert(x == u.0);
                        assert(half[x]@[half[x]@.len() - 1] == e);
                        assert(adj@[x]@[half[x]@.len() - 1] == e);
                    }
                }
            }
        }
        e += 1;
    }
    proof {
        assert(edges.take(e as int) =~= edges);
    }
    adj
}

/// Takes records from the back of `row` until one is found that is not
/// used yet.
pub fn take_open_edge(row: &mut Vec<usize>, used: &Vec<bool>) -> (found: Option<usize>)
    requires
        forall|i: int| 0 <= i < old(row)@.len() ==> (#[trigger] old(row)@[i]) < used@.len(),
    ensures
        final(row)@ == old(row)@.take(final(row)@.len() as int),
        final(row)@.len() <= old(row)@.len(),
        forall|i: int|
            final(row)@.len() < i < old(row)@.len() ==> used@[(#[trigger] old(row)@[i]) as int],
        match found {
            Some(e) => {
                &&& final(row)@.len() < old(row)@.len()
                &&& old(row)@[final(row)@.len() as int] == e
                &&& e < used@.len()
                &&& !used@[e as int]
            },
            None => final(row)@.len() == 0 && forall|i: int|
                0 <= i < old(row)@.len() ==> used@[(#[trigger] old(row)@[i]) as int],
        },
{
    let ghost start = row@;
    let mut found: Option<usize> = None;
    while found.is_none() && row.len() > 0
        invariant
            forall|i: int| 0 <= i < start.len() ==> (#[trigger] start[i]) < used@.len(),
            row@.len() <= start.len(),
            row@ == start.take(row@.len() as int),
            match found {
                Some(e) => {
                    &&& row@.len() < start.len()
                    &&& start[row@.len() as int] == e
                    &&& e < used@.len()
                    &&& !used@[e as int]
                    &&& forall|i: int| row@.len() < i < start.len() ==> used@[(#[trigger] start[i]) as int]
                },
                None => forall|i: int|
                    row@.len() <= i < start.len() ==> used@[(#[trigger] start[i]) as int],
            },
        decreases row@.len() + if found is None { 1int } else { 0int },
    {
        let e = row.pop().unwrap();
        assert(e == start[row@.len() as int]);
        assert(row@ =~= start.take(row@.len() as int));
        if !used[e] {
            found = Some(e);
        }
    }
    found
}

/// What the walk of Hierholzer's algorithm keeps true from step to step.
///
/// `stack` is the current walk from `start`, over the records `stack_via`;
/// `circuit` holds the nodes that are done, joined by `circuit_via`;
/// `pending` joins the node done last to `anchor`, the node at which the
/// current excursion set out. `place` and `pos` say where each used record
/// is kept.
pub open spec fn walk_ok<E, W>(
    edges: Seq<EdgeRecord<E, W>>,
    n: int,
    start: int,
    stack: Seq<usize>,
    circuit: Seq<usize>,
    used: Seq<bool>,
    adj: Seq<Vec<usize>>,
    stack_via: Seq<int>,
    circuit_via: Seq<int>,
    pending: Option<int>,
    anchor: int,
    place: Seq<int>,
    pos: Seq<int>,
) -> bool {
    let m = edges.len() as int;
    &&& m <= usize::MAX
    &&& used.len() == m
    &&& place.len() == m
    &&& pos.len() == m
    &&& adj.len() == n
    &&& 0 <= start < n
    &&& 0 <= anchor < n
    &&& forall|e: int| 0 <= e < m ==> (#[trigger] edges[e]).from.0 < n && edges[e].to.0 < n
    &&& forall|i: int| 0 <= i < stack.len() ==> (#[trigger] stack[i]) < n
    &&& forall|i: int| 0 <= i < circuit.len() ==> (#[trigger] circuit[i]) < n
    // the incidence lists
    &&& forall|x: int, i: int|
        0 <= x < n && 0 <= i < adj[x]@.len() ==> (#[trigger] adj[x]@[i]) < m && incidence(
            edges[adj[x]@[i] as int],
            x,
        ) > 0
    &&& forall|x: int, e: int|
        0 <= x < n && 0 <= e < m && !used[e] && incidence(#[trigger] edges[e], x) > 0 ==> (
        #[trigger] adj[x])@.contains(e as usize)
    // where the used records are
    &&& forall|e: int| 0 <= e < m && !used[e] ==> #[trigger] place[e] == 0
    &&& forall|i: int|
        0 <= i < stack_via.len() ==> 0 <= #[trigger] stack_via[i] < m && place[stack_via[i]] == 1
            && pos[stack_via[i]] == i
    &&& forall|i: int|
        0 <= i < circuit_via.len() ==> 0 <= #[trigger] circuit_via[i] < m && place[circuit_via[i]]
            == 3 && pos[circuit_via[i]] == i
    &&& pending is Some ==> 0 <= pending->Some_0 < m && place[pending->Some_0] == 2
    &&& open_count(used) + stack_via.len() + circuit_via.len() + (if pending is Some {
        1int
    } else {
        0int
    }) == m
    // the two trails
    &&& stack.len() > 0 ==> stack_via.len() + 1 == stack.len() && stack[0] == start
    &&& stack.len() == 0 ==> stack_via.len() == 0 && pending is None && circuit.len() > 0
        && circuit.last() == start
    &&& forall|i: int|
        0 <= i < stack_via.len() ==> joins(
            edges[#[trigger] stack_via[i]],
            stack[i] as int,
            stack[i + 1] as int,
        )
    &&& circuit.len() > 0 ==> circuit_via.len() + 1 == circuit.len() && circuit[0] == start
    &&& circuit.len() == 0 ==> circuit_via.len() == 0 && pending is None && anchor == start
    &&& forall|i: int|
        0 <= i < circuit_via.len() ==> joins(
            edges[#[trigger] circuit_via[i]],
            circuit[i] as int,
            circuit[i + 1] as int,
        )
    &&& circuit.len() > 0 && stack.len() > 0 ==> pending is Some && joins(
        edges[pending->Some_0],
        circuit.last() as int,
        anchor,
    )
    // parity of the open degrees
    &&& stack.len() > 0 ==> forall|x: int|
        0 <= x < n ==> (#[trigger] open_degree(edges, used, x)) % 2 == (if stack.last() != anchor
            && (x == stack.last() || x == anchor) {
            1int
        } else {
            0int
        })
    // nodes that are done have no open record, and used records touch
    // only nodes of the walk
    &&& forall|i: int, e: int|
        0 <= i < circuit.len() && 0 <= e < m && incidence(#[trigger] edges[e], #[trigger] circuit[i] as int)
            > 0 ==> used[e]
    &&& forall|e: int|
        0 <= e < m && #[trigger] used[e] ==> (stack.contains(edges[e].from.0) || circuit.contains(
            edges[e].from.0,
        )) && (stack.contains(edges[e].to.0) || circuit.contains(edges[e].to.0))
}

/// The step of the walk that follows the open record `e` from the top of
/// the stack to the node `v`.
pub proof fn lemma_walk_push<E, W>(
    edges: Seq<EdgeRecord<E, W>>,
    n: int,
    start: int,
    stack: Seq<usize>,
    circuit: Seq<usize>,
    used: Seq<bool>,
    adj: Seq<Vec<usize>>,
    stack_via: Seq<int>,
    circuit_via: Seq<int>,
    pending: Option<int>,
    anchor: int,
    place: Seq<int>,
    pos: Seq<int>,
    new_adj: Seq<Vec<usize>>,
    e: int,
    v: usize,
)
    requires
        walk_ok(
            edges,
            n,
            start,
            stack,
            circuit,
            used,
            adj,
            stack_via,
            circuit_via,
            pending,
            anchor,
            place,
            pos,
        ),
        stack.len() > 0,
        new_adj.len() == adj.len(),
        forall|x: int| 0 <= x < n && x != stack.last() ==> #[trigger] new_adj[x] == adj[x],
        new_adj[stack.last() as int]@ == adj[stack.last() as int]@.take(
            new_adj[stack.last() as int]@.len() as int,
        ),
        new_adj[stack.last() as int]@.len() < adj[stack.last() as int]@.len(),
        adj[stack.last() as int]@[new_adj[stack.last() as int]@.len() as int] == e,
        forall|i: int|
            new_adj[stack.last() as int]@.len() < i < adj[stack.last() as int]@.len() ==> used[(
            #[trigger] adj[stack.last() as int]@[i]) as int],
        0 <= e < edges.len(),
        !used[e],
        joins(edges[e], stack.last() as int, v as int),
    ensures
        walk_ok(
            edges,
            n,
            start,
            stack.push(v),
            circuit,
            used.update(e, true),
            new_adj,
            stack_via.push(e),
            circuit_via,
            pending,
            anchor,
            place.update(e, 1),
            pos.update(e, stack_via.len() as int),
        ),
        open_count(used.update(e, true)) == open_count(used) - 1,
{
    let m = edges.len() as int;
    let u = stack.last() as int;
    let stack2 = stack.push(v);
    let used2 = used.update(e, true);
    let via2 = stack_via.push(e);
    let place2 = place.update(e, 1);
    let pos2 = pos.update(e, stack_via.len() as int);
    lemma_open_degree_use(edges, used, e, 0);
    assert forall|x: int, i: int| 0 <= x < n && 0 <= i < new_adj[x]@.len() implies (
    #[trigger] new_adj[x]@[i]) < m && incidence(edges[new_adj[x]@[i] as int], x) > 0 by {
        if x == u {
            assert(new_adj[x]@[i] == adj[x]@[i]);
        }
    }
    assert forall|x: int, k: int|
        0 <= x < n && 0 <= k < m && !used2[k] && incidence(#[trigger] edges[k], x) > 0 implies (
    #[trigger] new_adj[x])@.contains(k as usize) by {
        assert(adj[x]@.contains(k as usize));
        if x == u {
            let i = choose|i: int| 0 <= i < adj[x]@.len() && adj[x]@[i] == k as usize;
            assert(i < new_adj[x]@.len());
            assert(new_adj[x]@[i] == k as usize);
        }
    }
    assert forall|i: int| 0 <= i < via2.len() implies 0 <= #[trigger] via2[i] < m && place2[via2[i]]
        == 1 && pos2[via2[i]] == i by {
        if i < stack_via.len() {
            assert(via2[i] == stack_via[i]);
            assert(place[stack_via[i]] == 1);
        }
    }
    assert forall|i: int| 0 <= i < circuit_via.len() implies 0 <= #[trigger] circuit_via[i] < m
        && place2[circuit_via[i]] == 3 && pos2[circuit_via[i]] == i by {
        assert(place[circuit_via[i]] == 3);
    }
    assert forall|i: int| 0 <= i < via2.len() implies joins(
        edges[#[trigger] via2[i]],
        stack2[i] as int,
        stack2[i + 1] as int,
    ) by {
        if i < stack_via.len() {
            assert(via2[i] == stack_via[i]);
            assert(stack2[i] == stack[i] && stack2[i + 1] == stack[i + 1]);
        }
    }
    assert forall|x: int| 0 <= x < n implies (#[trigger] open_degree(edges, used2, x)) % 2 == (
    if stack2.last() != anchor && (x == stack2.last() || x == anchor) {
        1int
    } else {
        0int
    }) by {
        lemma_open_degree_use(edges, used, e, x);
        assert(open_degree(edges, used, x) % 2 == (if stack.last() != anchor && (x == stack.last()
            || x == anchor) {
            1int
        } else {
            0int
        }));
        lemma_open_degree_none(edges, used, x);
    }
    assert forall|i: int, k: int|
        0 <= i < circuit.len() && 0 <= k < m && incidence(
            #[trigger] edges[k],
            #[trigger] circuit[i] as int,
        ) > 0 implies used2[k] by {
        assert(used[k]);
    }
    assert forall|k: int| 0 <= k < m && #[trigger] used2[k] implies (stack2.contains(
        edges[k].from.0,
    ) || circuit.contains(edges[k].from.0)) && (stack2.contains(edges[k].to.0) || circuit.contains(
        edges[k].to.0,
    )) by {
        assert(stack2[stack.len() as int] == v);
        assert(stack2[stack.len() - 1] == stack.last());
        if k != e {
            assert(used[k]);
            if stack.contains(edges[k].from.0) {
                let i = choose|i: int| 0 <= i < stack.len() && stack[i] == edges[k].from.0;
                assert(stack2[i] == edges[k].from.0);
            }
            if stack.contains(edges[k].to.0) {
                let i = choose|i: int| 0 <= i < stack.len() && stack[i] == edges[k].to.0;
                assert(stack2[i] == edges[k].to.0);
            }
        }
    }
}

/// The step of the walk that takes the top of the stack, which no open
/// record touches any more, into the circuit.
pub proof fn lemma_walk_pop<E, W>(
    edges: Seq<EdgeRecord<E, W>>,
    n: int,
    start: int,
    stack: Seq<usize>,
    circuit: Seq<usize>,
    used: Seq<bool>,
    adj: Seq<Vec<usize>>,
    stack_via: Seq<int>,
    circuit_via: Seq<int>,
    pending: Option<int>,
    anchor: int,
    place: Seq<int>,
    pos: Seq<int>,
    new_adj: Seq<Vec<usize>>,
)
    requires
        walk_ok(
            edges,
            n,
            start,
            stack,
            circuit,
            used,
            adj,
            stack_via,
            circuit_via,
            pending,
            anchor,
            place,
            pos,
        ),
        stack.len() > 0,
        new_adj.len() == adj.len(),
        forall|x: int| 0 <= x < n && x != stack.last() ==> #[trigger] new_adj[x] == adj[x],
        new_adj[stack.last() as int]@.len() == 0,
        forall|i: int|
            0 <= i < adj[stack.last() as int]@.len() ==> used[(
            #[trigger] adj[stack.last() as int]@[i]) as int],
    ensures
        walk_ok(
            edges,
            n,
            start,
            stack.drop_last(),
            circuit.push(stack.last()),
            used,
            new_adj,
            if stack.len() >= 2 {
                stack_via.drop_last()
            } else {
                stack_via
            },
            if pending is Some {
                circuit_via.push(pending->Some_0)
            } else {
                circuit_via
            },
            if stack.len() >= 2 {
                Some(stack_via.last())
            } else {
                None
            },
            if stack.len() >= 2 {
                stack[stack.len() - 2] as int
            } else {
                anchor
            },
            if stack.len() >= 2 {
                let moved = if pending is Some {
                    place.update(pending->Some_0, 3)
                } else {
                    place
                };
                moved.update(stack_via.last(), 2)
            } else {
                if pending is Some {
                    place.update(pending->Some_0, 3)
                } else {
                    place
                }
            },
            if pending is Some {
                pos.update(pending->Some_0, circuit_via.len() as int)
            } else {
                pos
            },
        ),
{
    let m = edges.len() as int;
    let c = stack.last();
    let u = c as int;
    let stack2 = stack.drop_last();
    let circuit2 = circuit.push(c);
    let via2 = if stack.len() >= 2 {
        stack_via.drop_last()
    } else {
        stack_via
    };
    let cvia2 = if pending is Some {
        circuit_via.push(pending->Some_0)
    } else {
        circuit_via
    };
    let place_a = if pending is Some {
        place.update(pending->Some_0, 3)
    } else {
        place
    };
    let place2 = if stack.len() >= 2 {
        place_a.update(stack_via.last(), 2)
    } else {
        place_a
    };
    let pos2 = if pending is Some {
        pos.update(pending->Some_0, circuit_via.len() as int)
    } else {
        pos
    };
    // no open record touches the top, so its open degree is even and it
    // is the anchor
    assert forall|k: int| 0 <= k < m && !#[trigger] used[k] implies incidence(edges[k], u) == 0 by {
        if incidence(edges[k], u) > 0 {
            assert(adj[u]@.contains(k as usize));
            let i = choose|i: int| 0 <= i < adj[u]@.len() && adj[u]@[i] == k as usize;
            assert(used[adj[u]@[i] as int]);
        }
    }
    lemma_open_degree_none(edges, used, u);
    assert(open_degree(edges, used, u) % 2 == (if stack.last() != anchor && (u == stack.last()
        || u == anchor) {
        1int
    } else {
        0int
    }));
    assert(u == anchor);
    assert forall|x: int, i: int| 0 <= x < n && 0 <= i < new_adj[x]@.len() implies (
    #[trigger] new_adj[x]@[i]) < m && incidence(edges[new_adj[x]@[i] as int], x) > 0 by {
        assert(new_adj[x] == adj[x]);
    }
    assert forall|x: int, k: int|
        0 <= x < n && 0 <= k < m && !used[k] && incidence(#[trigger] edges[k], x) > 0 implies (
    #[trigger] new_adj[x])@.contains(k as usize) by {
        assert(adj[x]@.contains(k as usize));
    }
    assert forall|k: int| 0 <= k < m && !used[k] implies #[trigger] place2[k] == 0 by {
        assert(place[k] == 0);
    }
    assert forall|i: int| 0 <= i < via2.len() implies 0 <= #[trigger] via2[i] < m && place2[via2[i]]
        == 1 && pos2[via2[i]] == i by {
        assert(via2[i] == stack_via[i]);
        assert(place[stack_via[i]] == 1 && pos[stack_via[i]] == i);
        assert(pos[stack_via.last()] == stack_via.len() - 1);
    }
    assert forall|i: int| 0 <= i < cvia2.len() implies 0 <= #[trigger] cvia2[i] < m
        && place2[cvia2[i]] == 3 && pos2[cvia2[i]] == i by {
        if i < circuit_via.len() {
            assert(cvia2[i] == circuit_via[i]);
            assert(place[circuit_via[i]] == 3 && pos[circuit_via[i]] == i);
        }
        if stack.len() >= 2 {
            assert(place[stack_via.last()] == 1);
        }
    }
    assert forall|i: int| 0 <= i < via2.len() implies joins(
        edges[#[trigger] via2[i]],
        stack2[i] as int,
        stack2[i + 1] as int,
    ) by {
        assert(via2[i] == stack_via[i]);
    }
    assert forall|i: int| 0 <= i < cvia2.len() implies joins(
        edges[#[trigger] cvia2[i]],
        circuit2[i] as int,
        circuit2[i + 1] as int,
    ) by {
        if i < circuit_via.len() {
            assert(cvia2[i] == circuit_via[i]);
            assert(circuit2[i] == circuit[i] && circuit2[i + 1] == circuit[i + 1]);
        }
    }
    if stack.len() >= 2 {
        assert(joins(
            edges[stack_via.last()],
            stack[stack.len() - 2] as int,
            stack[stack.len() - 1] as int,
        ));
        assert forall|x: int| 0 <= x < n implies (#[trigger] open_degree(edges, used, x)) % 2 == 0 by {
            assert(open_degree(edges, used, x) % 2 == (if stack.last() != anchor && (x
                == stack.last() || x == anchor) {
                1int
            } else {
                0int
            }));
        }
    }
    assert forall|i: int, k: int|
        0 <= i < circuit2.len() && 0 <= k < m && incidence(
            #[trigger] edges[k],
            #[trigger] circuit2[i] as int,
        ) > 0 implies used[k] by {
        if i < circuit.len() {
            assert(circuit2[i] == circuit[i]);
        }
    }
    assert forall|k: int| 0 <= k < m && #[trigger] used[k] implies (stack2.contains(
        edges[k].from.0,
    ) || circuit2.contains(edges[k].from.0)) && (stack2.contains(edges[k].to.0)
        || circuit2.contains(edges[k].to.0)) by {
        assert(circuit2[circuit.len() as int] == c);
        let f = edges[k].from.0;
        let t = edges[k].to.0;
        if stack.contains(f) {
            let i = choose|i: int| 0 <= i < stack.len() && stack[i] == f;
            if i < stack.len() - 1 {
                assert(stack2[i] == f);
            }
        } else {
            let i = choose|i: int| 0 <= i < circuit.len() && circuit[i] == f;
            assert(circuit2[i] == f);
        }
        if stack.contains(t) {
            let i = choose|i: int| 0 <= i < stack.len() && stack[i] == t;
            if i < stack.len() - 1 {
                assert(stack2[i] == t);
            }
        } else {
            let i = choose|i: int| 0 <= i < circuit.len() && circuit[i] == t;
            assert(circuit2[i] == t);
        }
    }
}

/// `path` holds the keys of the nodes `nodes`, in order.
pub open spec fn names<K: NodeKey>(path: Seq<K>, keys: Seq<K::V>, nodes: Seq<int>) -> bool {
    &&& path.len() == nodes.len()
    &&& forall|i: int|
        0 <= i < nodes.len() ==> 0 <= #[trigger] nodes[i] < keys.len() && path[i]@ == keys[nodes[i]]
}

/// When the walk has ended with every record in the circuit, the circuit,
/// read backwards, is an Eulerian circuit.
pub proof fn lemma_circuit_found<E, W>(
    edges: Seq<EdgeRecord<E, W>>,
    n: int,
    start: int,
    circuit: Seq<usize>,
    used: Seq<bool>,
    adj: Seq<Vec<usize>>,
    circuit_via: Seq<int>,
    anchor: int,
    place: Seq<int>,
    pos: Seq<int>,
)
    requires
        walk_ok(
            edges,
            n,
            start,
            Seq::<usize>::empty(),
            circuit,
            used,
            adj,
            Seq::<int>::empty(),
            circuit_via,
            None,
            anchor,
            place,
            pos,
        ),
        circuit.len() == edges.len() + 1,
    ensures
        is_euler_circuit(
            edges,
            Seq::new(circuit.len(), |i: int| circuit[circuit.len() - 1 - i] as int),
            Seq::new(circuit_via.len(), |i: int| circuit_via[circuit_via.len() - 1 - i]),
        ),
{
    let nodes = Seq::new(circuit.len(), |i: int| circuit[circuit.len() - 1 - i] as int);
    let trail = Seq::new(circuit_via.len(), |i: int| circuit_via[circuit_via.len() - 1 - i]);
    let m = circuit_via.len() as int;
    assert forall|i: int, j: int| 0 <= i < trail.len() && 0 <= j < trail.len() && i != j implies trail[i]
        != trail[j] by {
        assert(pos[circuit_via[m - 1 - i]] == m - 1 - i);
        assert(pos[circuit_via[m - 1 - j]] == m - 1 - j);
    }
    assert forall|i: int| 0 <= i < trail.len() implies 0 <= #[trigger] trail[i] < edges.len()
        && joins(edges[trail[i]], nodes[i], nodes[i + 1]) by {
        let k = m - 1 - i;
        assert(trail[i] == circuit_via[k]);
        assert(joins(edges[circuit_via[k]], circuit[k] as int, circuit[k + 1] as int));
        assert(nodes[i] == circuit[k + 1] as int);
        assert(nodes[i + 1] == circuit[k] as int);
    }
}

/// When the walk has ended and records are left over, no circuit runs over
/// every record.
pub proof fn lemma_no_circuit<E, W>(
    edges: Seq<EdgeRecord<E, W>>,
    n: int,
    start: int,
    circuit: Seq<usize>,
    used: Seq<bool>,
    adj: Seq<Vec<usize>>,
    circuit_via: Seq<int>,
    anchor: int,
    place: Seq<int>,
    pos: Seq<int>,
)
    requires
        walk_ok(
            edges,
            n,
            start,
            Seq::<usize>::empty(),
            circuit,
            used,
            adj,
            Seq::<int>::empty(),
            circuit_via,
            None,
            anchor,
            place,
            pos,
        ),
        circuit.len() != edges.len() + 1,
        degree(edges, start) > 0,
    ensures
        !has_euler_circuit(edges),
{
    let m = edges.len() as int;
    let none = Seq::<usize>::empty();
    lemma_open_degree_none(edges, used, start);
    // some record is open
    assert(open_count(used) > 0);
    let g = choose|g: int| 0 <= g < used.len() && !#[trigger] used[g];
    // some record is used: one that touches the start
    lemma_degree_positive(edges, start);
    let f = choose|f: int| 0 <= f < edges.len() && incidence(#[trigger] edges[f], start) > 0;
    assert(circuit[circuit.len() - 1] == start);
    assert(incidence(edges[f], circuit[circuit.len() - 1] as int) > 0);
    assert(used[f]);
    if has_euler_circuit(edges) {
        let (nodes, trail) = choose|nodes: Seq<int>, trail: Seq<int>| #[trigger]
            is_euler_circuit(edges, nodes, trail);
        lemma_distinct_covers(trail, f);
        lemma_distinct_covers(trail, g);
        let i = choose|i: int| 0 <= i < trail.len() && trail[i] == f;
        let j = choose|j: int| 0 <= j < trail.len() && trail[j] == g;
        let flags = Seq::new(trail.len(), |k: int| used[trail[k]]);
        assert(flags[i] && !flags[j]);
        let lo = if i < j { i } else { j };
        let hi = if i < j { j } else { i };
        lemma_flag_change(flags, lo, hi);
        let p = choose|p: int| lo <= p < hi && #[trigger] flags[p] != flags[p + 1];
        let a = trail[p];
        let b = trail[p + 1];
        let x = nodes[p + 1];
        assert(joins(edges[a], nodes[p], nodes[p + 1]));
        assert(joins(edges[b], nodes[p + 1], nodes[p + 2]));
        assert(incidence(edges[a], x) > 0);
        assert(incidence(edges[b], x) > 0);
        let w = if used[a] { a } else { b };
        let o = if used[a] { b } else { a };
        assert(used[w] && !used[o]);
        assert(!none.contains(x as usize));
        assert(!none.contains(edges[w].from.0) && !none.contains(edges[w].to.0));
        assert(circuit.contains(edges[w].from.0) && circuit.contains(edges[w].to.0));
        assert(circuit.contains(x as usize));
        let q = choose|q: int| 0 <= q < circuit.len() && circuit[q] == x as usize;
        assert(incidence(edges[o], circuit[q] as int) > 0);
        assert(used[o]);
    }
}

/// When the walk has ended and records are left over, the records do not
/// hang together: no walk leads from the records of the walk to those
/// that are left over.
pub proof fn lemma_not_together<E, W>(
    edges: Seq<EdgeRecord<E, W>>,
    n: int,
    start: int,
    circuit: Seq<usize>,
    used: Seq<bool>,
    adj: Seq<Vec<usize>>,
    circuit_via: Seq<int>,
    anchor: int,
    place: Seq<int>,
    pos: Seq<int>,
)
    requires
        walk_ok(
            edges,
            n,
            start,
            Seq::<usize>::empty(),
            circuit,
            used,
            adj,
            Seq::<int>::empty(),
            circuit_via,
            None,
            anchor,
            place,
            pos,
        ),
        circuit.len() != edges.len() + 1,
        degree(edges, start) > 0,
    ensures
        !hangs_together(edges),
{
    let none = Seq::<usize>::empty();
    lemma_open_degree_none(edges, used, start);
    assert(open_count(used) > 0);
    let g = choose|g: int| 0 <= g < used.len() && !#[trigger] used[g];
    lemma_degree_positive(edges, start);
    let f = choose|f: int| 0 <= f < edges.len() && incidence(#[trigger] edges[f], start) > 0;
    assert(circuit[circuit.len() - 1] == start);
    assert(incidence(edges[f], circuit[circuit.len() - 1] as int) > 0);
    assert(used[f]);
    if hangs_together(edges) {
        let nodes = choose|nodes: Seq<int>|
            #[trigger] is_node_walk(edges, nodes) && nodes[0] == edges[f].from.0 && nodes.last()
                == edges[g].from.0;
        let flags = Seq::new(nodes.len(), |k: int| 0 <= nodes[k] < n && circuit.contains(nodes[k] as usize));
        assert(!none.contains(edges[f].from.0));
        assert(circuit.contains(edges[f].from.0));
        assert(flags[0]);
        let last = nodes.len() - 1;
        assert(!flags[last]) by {
            if circuit.contains(edges[g].from.0) {
                let q = choose|q: int| 0 <= q < circuit.len() && circuit[q] == edges[g].from.0;
                assert(incidence(edges[g], circuit[q] as int) > 0);
                assert(used[g]);
            }
        }
        lemma_flag_change(flags, 0, last);
        let p = choose|p: int| 0 <= p < last && #[trigger] flags[p] != flags[p + 1];
        assert(is_joined_step(edges, nodes, p));
        let e = choose|e: int| 0 <= e < edges.len() && joins(#[trigger] edges[e], nodes[p], nodes[p + 1]);
        let inside = if flags[p] {
            nodes[p]
        } else {
            nodes[p + 1]
        };
        let outside = if flags[p] {
            nodes[p + 1]
        } else {
            nodes[p]
        };
        assert(circuit.contains(inside as usize));
        let q = choose|q: int| 0 <= q < circuit.len() && circuit[q] == inside as usize;
        assert(incidence(edges[e], circuit[q] as int) > 0);
        assert(used[e]);
        assert(!none.contains(edges[e].from.0) && !none.contains(edges[e].to.0));
        assert(circuit.contains(edges[e].from.0) && circuit.contains(edges[e].to.0));
        assert(0 <= outside < n);
        assert(circuit.contains(outside as usize));
    }
}

/// A node of positive degree is touched by some record.
pub proof fn lemma_degree_positive<E, W>(edges: Seq<EdgeRecord<E, W>>, x: int)
    requires
        degree(edges, x) > 0,
    ensures
        exists|f: int| 0 <= f < edges.len() && incidence(#[trigger] edges[f], x) > 0,
    decreases edges.len(),
{
    if edges.len() > 0 {
        if incidence(edges.last(), x) > 0 {
            assert(incidence(edges[edges.len() - 1], x) > 0);
        } else {
            lemma_degree_positive(edges.drop_last(), x);
            let f = choose|f: int|
                0 <= f < edges.drop_last().len() && incidence(#[trigger] edges.drop_last()[f], x) > 0;
            assert(edges[f] == edges.drop_last()[f]);
        }
    }
}

/// A circuit that runs over every edge of the graph exactly once.
///
/// An edge is a record together with its mirror image; the result has
/// one key more than the graph has edges. The degree of a node counts
/// every edge that touches it, a self-loop twice. Fails with the first
/// node of odd degree if there is one, and with `Disconnected` if all
/// degrees are even but the edges do not hang together, so that no
/// circuit covers them all. A graph without
/// edges gives the circuit that consists of its first node, or the empty
/// result if it has no node.
pub fn hierholzer_undirected<S, GK>(graph: &UndirectedGraph<S, GK>) -> (outcome: Result<
    HierholzerResult<S::Key>,
    HierholzerError,
>) where S: StorageRepresentation, GK: GraphKindMarker
    requires
        graph.storage.wf(),
    ensures
        match outcome {
            Ok(result) => (graph.storage.keys().len() == 0 && result.path@.len() == 0) || exists|
                nodes: Seq<int>,
                trail: Seq<int>,
            |
                #[trigger] is_euler_circuit(edge_list(graph.storage.edges()), nodes, trail) && names(
                    result.path@,
                    graph.storage.keys(),
                    nodes,
                ) && is_first_touched(edge_list(graph.storage.edges()), nodes[0]),
            Err(HierholzerError::OddDegree { node, degree: d }) => {
                &&& edge_list(graph.storage.edges()).len() > 0
                &&& node.0 < graph.storage.keys().len()
                &&& d == degree(edge_list(graph.storage.edges()), node.0 as int)
                &&& d % 2 == 1
                &&& forall|x: int| 0 <= x < node.0 ==> #[trigger] degree(edge_list(graph.storage.edges()), x) % 2 == 0
            },
            Err(HierholzerError::Disconnected) => {
                &&& edge_list(graph.storage.edges()).len() > 0
                &&& !has_odd_node(edge_list(graph.storage.edges()), graph.storage.keys().len() as int)
                &&& !has_euler_circuit(edge_list(graph.storage.edges()))
                &&& !hangs_together(edge_list(graph.storage.edges()))
            },
        },
        edge_list(graph.storage.edges()).len() > 0 && has_odd_node(
            edge_list(graph.storage.edges()),
            graph.storage.keys().len() as int,
        ) ==> outcome is Err && outcome->Err_0 is OddDegree,
        edge_list(graph.storage.edges()).len() == 0 ==> outcome is Ok,
        outcome is Ok && graph.storage.keys().len() > 0 ==> outcome->Ok_0.path@.len() == edge_list(
            graph.storage.edges(),
        ).len() + 1,
{
    let n = graph.order();
    let m = graph.size() / 2;
    let ghost edges = edge_list(graph.storage.edges());
    proof {
        graph.storage.lemma_wf();
    }
    if m == 0 {
        let mut path: Vec<S::Key> = Vec::new();
        if n > 0 {
            path.push(graph.node_key(NodeId(0)).key_clone());
            proof {
                let nodes = seq![0int];
                let trail = Seq::<int>::empty();
                assert(is_euler_circuit(edges, nodes, trail));
                assert(names(path@, graph.storage.keys(), nodes));
                assert(is_first_touched(edges, nodes[0]));
            }
        }
        return Ok(HierholzerResult { path });
    }
    let mut adj = incidence_lists(graph);
    let mut first: Option<usize> = None;
    let mut x: usize = 0;
    while x < n
        invariant
            x <= n,
            n == graph.storage.keys().len(),
            edges == edge_list(graph.storage.edges()),
            adj@.len() == n,
            forall|y: int| 0 <= y < n ==> (#[trigger] adj@[y])@.len() == degree(edges, y),
            forall|y: int| 0 <= y < x ==> #[trigger] degree(edges, y) % 2 == 0,
            match first {
                Some(s) => s < x && degree(edges, s as int) > 0 && forall|y: int|
                    0 <= y < s ==> #[trigger] degree(edges, y) == 0,
                None => forall|y: int| 0 <= y < x ==> #[trigger] degree(edges, y) == 0,
            },
        decreases n - x,
    {
        let d = adj[x].len();
        if d % 2 != 0 {
            assert(degree(edges, x as int) % 2 == 1);
            return Err(HierholzerError::OddDegree { node: NodeId(x), degree: d });
        }
        if d > 0 && first.is_none() {
            first = Some(x);
        }
        x += 1;
    }
    assert(!has_odd_node(edges, n as int));
    let start = match first {
        Some(s) => s,
        None => {
            proof {
                let u = edges[0].from.0 as int;
                assert(incidence(edges[0], u) > 0);
                assert(adj@[u]@.contains(0usize));
                assert(degree(edges, u) == 0);
            }
            return Ok(HierholzerResult { path: Vec::new() });
        },
    };
    let mut used: Vec<bool> = Vec::new();
    let mut e: usize = 0;
    while e < m
        invariant
            e <= m,
            used@.len() == e,
            forall|k: int| 0 <= k < e ==> !#[trigger] used@[k],
        decreases m - e,
    {
        used.push(false);
        e += 1;
    }
    let mut stack: Vec<usize> = Vec::new();
    stack.push(start);
    let mut circuit: Vec<usize> = Vec::new();
    let ghost mut stack_via: Seq<int> = Seq::empty();
    let ghost mut circuit_via: Seq<int> = Seq::empty();
    let ghost mut pending: Option<int> = None;
    let ghost mut anchor: int = start as int;
    let ghost mut place: Seq<int> = Seq::new(m as nat, |k: int| 0int);
    let ghost mut pos: Seq<int> = Seq::new(m as nat, |k: int| 0int);
    proof {
        assert forall|y: int| 0 <= y < n implies (#[trigger] open_degree(edges, used@, y)) % 2
            == 0 by {
            lemma_open_degree_fresh(edges, used@, y);
            assert(degree(edges, y) % 2 == 0);
        }
        lemma_open_degree_fresh(edges, used@, 0);
        assert(walk_ok(
            edges,
            n as int,
            start as int,
            stack@,
            circuit@,
            used@,
            adj@,
            stack_via,
            circuit_via,
            pending,
            anchor,
            place,
            pos,
        ));
    }
    while stack.len() > 0
        invariant
            graph.storage.wf(),
            edges == edge_list(graph.storage.edges()),
            n == graph.storage.keys().len(),
            m == edges.len(),
            m > 0,
            is_first_touched(edges, start as int),
            walk_ok(
                edges,
                n as int,
                start as int,
                stack@,
                circuit@,
                used@,
                adj@,
                stack_via,
                circuit_via,
                pending,
                anchor,
                place,
                pos,
            ),
        decreases 2 * open_count(used@) + stack@.len(),
    {
        let u = stack[stack.len() - 1];
        let ghost old_adj = adj@;
        let ghost old_used = used@;
        let ghost old_stack = stack@;
        let ghost old_circuit = circuit@;
        proof {
            lemma_open_degree_none(edges, used@, 0);
        }
        let taken = take_open_edge(&mut adj[u], &used);
        match taken {
            Some(e) => {
                used.set(e, true);
                proof {
                    graph.storage.lemma_wf();
                    assert(e < edges.len());
                }
                let (v1, v2) = graph.endpoints(EdgeId(2 * e));
                proof {
                    assert(edges[e as int] == graph.storage.edges()[2 * e]);
                }
                let v = if v1.0 == u {
                    v2.0
                } else {
                    v1.0
                };
                stack.push(v);
                proof {
                    assert(old_adj[u as int]@[adj@[u as int]@.len() as int] == e);
                    assert(incidence(edges[e as int], u as int) > 0);
                    lemma_walk_push(
                        edges,
                        n as int,
                        start as int,
                        old_stack,
                        old_circuit,
                        old_used,
                        old_adj,
                        stack_via,
                        circuit_via,
                        pending,
                        anchor,
                        place,
                        pos,
                        adj@,
                        e as int,
                        v,
                    );
                    place = place.update(e as int, 1);
                    pos = pos.update(e as int, stack_via.len() as int);
                    stack_via = stack_via.push(e as int);
                }
            },
            None => {
                let c = stack.pop().unwrap();
                circuit.push(c);
                proof {
                    lemma_walk_pop(
                        edges,
                        n as int,
                        start as int,
                        old_stack,
                        old_circuit,
                        old_used,
                        old_adj,
                        stack_via,
                        circuit_via,
                        pending,
                        anchor,
                        place,
                        pos,
                        adj@,
                    );
                    let moved = if pending is Some {
                        place.update(pending->Some_0, 3)
                    } else {
                        place
                    };
                    if pending is Some {
                        pos = pos.update(pending->Some_0, circuit_via.len() as int);
                        circuit_via = circuit_via.push(pending->Some_0);
                    }
                    if old_stack.len() >= 2 {
                        place = moved.update(stack_via.last(), 2);
                        pending = Some(stack_via.last());
                        anchor = old_stack[old_stack.len() - 2] as int;
                        stack_via = stack_via.drop_last();
                    } else {
                        place = moved;
                        pending = None;
                    }
                }
            },
        }
    }
    proof {
        assert(stack@ =~= Seq::<usize>::empty());
        assert(stack_via =~= Seq::<int>::empty());
    }
    if circuit.len() - 1 != m {
        proof {
            lemma_no_circuit(
                edges,
                n as int,
                start as int,
                circuit@,
                used@,
                adj@,
                circuit_via,
                anchor,
                place,
                pos,
            );
        }
        proof {
            lemma_not_together(
                edges,
                n as int,
                start as int,
                circuit@,
                used@,
                adj@,
                circuit_via,
                anchor,
                place,
                pos,
            );
        }
        return Err(HierholzerError::Disconnected);
    }
    let ghost done = circuit@;
    let mut path: Vec<S::Key> = Vec::new();
    let total = circuit.len();
    let mut i: usize = 0;
    while i < total
        invariant
            graph.storage.wf(),
            circuit@ == done,
            n == graph.storage.keys().len(),
            total == circuit@.len(),
            forall|k: int| 0 <= k < circuit@.len() ==> (#[trigger] circuit@[k]) < n,
            i <= total,
            path@.len() == i,
            forall|k: int|
                0 <= k < i ==> (#[trigger] path@[k])@ == graph.storage.keys()[circuit@[total - 1 - k] as int],
        decreases total - i,
    {
        path.push(graph.node_key(NodeId(circuit[total - 1 - i])).key_clone());
        i += 1;
    }
    proof {
        lemma_circuit_found(
            edges,
            n as int,
            start as int,
            circuit@,
            used@,
            adj@,
            circuit_via,
            anchor,
            place,
            pos,
        );
        let nodes = Seq::new(circuit@.len(), |i: int| circuit@[circuit@.len() - 1 - i] as int);
        let trail = Seq::new(circuit_via.len(), |i: int| circuit_via[circuit_via.len() - 1 - i]);
        assert(is_euler_circuit(edges, nodes, trail));
        assert(names(path@, graph.storage.keys(), nodes));
        assert(nodes[0] == start);
        assert(is_first_touched(edges, nodes[0]));
    }
    Ok(HierholzerResult { path })
}

} // verus!
