//! Linear scans over an edge list, shared by the list-based backends.

use vstd::prelude::*;
use crate::base::{EdgeId, NodeId, NodeKey};
use crate::storage::graph_definition::EdgeRecord;
use crate::interner::{key_position, keys_with, payloads_with};
use crate::traits::{edge_ids_between, has_edge, EdgeWeights, GraphBase, MutableStorage};
use crate::storage::graph_definition::endpoints_below;

verus! {

/// Taking one more record into account adds exactly that record's pair.
pub proof fn lemma_has_edge_step<E, W>(
    edges: Seq<EdgeRecord<E, W>>,
    k: int,
    from: NodeId,
    to: NodeId,
)
    requires
        0 <= k < edges.len(),
    ensures
        has_edge(edges.take(k + 1), from, to) == (has_edge(edges.take(k), from, to) || (edges[k].from
            == from && edges[k].to == to)),
{
    let short = edges.take(k);
    let long = edges.take(k + 1);
    if has_edge(long, from, to) {
        let i = choose|i: int| 0 <= i < long.len() && (#[trigger] long[i]).from == from && long[i].to == to;
        if i < k {
            assert(short[i] == long[i]);
        }
    }
    if has_edge(short, from, to) {
        let i = choose|i: int|
            0 <= i < short.len() && (#[trigger] short[i]).from == from && short[i].to == to;
        assert(long[i] == short[i]);
    }
    if edges[k].from == from && edges[k].to == to {
        assert(long[k] == edges[k]);
    }
}

/// Membership after one `push`.
pub proof fn lemma_push_contains<T>(s: Seq<T>, x: T, y: T)
    ensures
        s.push(x).contains(y) == (s.contains(y) || y == x),
{
    if s.contains(y) {
        let i = choose|i: int| 0 <= i < s.len() && s[i] == y;
        assert(s.push(x)[i] == y);
    }
    if y == x {
        assert(s.push(x)[s.len() as int] == y);
    }
}

/// `edge_ids_between` holds exactly the ids of the records of the pair.
pub proof fn lemma_edge_ids_between<E, W>(edges: Seq<EdgeRecord<E, W>>, from: NodeId, to: NodeId)
    requires
        edges.len() <= usize::MAX,
    ensures
        forall|e: EdgeId|
            edge_ids_between(edges, from, to).contains(e) <==> (e.0 < edges.len() && edges[e.0 as int].from
                == from && edges[e.0 as int].to == to),
        forall|i: int|
            0 <= i < edge_ids_between(edges, from, to).len() ==> (#[trigger] edge_ids_between(
                edges,
                from,
                to,
            )[i]).0 < edges.len(),
        forall|i: int, j: int|
            0 <= i < j < edge_ids_between(edges, from, to).len() ==> edge_ids_between(
                edges,
                from,
                to,
            )[i].0 < edge_ids_between(edges, from, to)[j].0,
        edge_ids_between(edges, from, to).no_duplicates(),
        (edge_ids_between(edges, from, to).len() > 0) == has_edge(edges, from, to),
    decreases edges.len(),
{
    let ids = edge_ids_between(edges, from, to);
    if edges.len() == 0 {
    } else {
        let front = edges.drop_last();
        let rest = edge_ids_between(front, from, to);
        lemma_edge_ids_between(front, from, to);
        let last = (edges.len() - 1) as int;
        let hit = edges.last().from == from && edges.last().to == to;
        assert forall|e: EdgeId|
            ids.contains(e) <==> (e.0 < edges.len() && edges[e.0 as int].from == from && edges[e.0 as int].to
                == to) by {
            if hit {
                lemma_push_contains(rest, EdgeId(last as usize), e);
            }
            if e.0 < front.len() {
                assert(front[e.0 as int] == edges[e.0 as int]);
            }
        }
        if has_edge(edges, from, to) {
            let i = choose|i: int|
                0 <= i < edges.len() && (#[trigger] edges[i]).from == from && edges[i].to == to;
            assert(ids.contains(EdgeId(i as usize)));
        }
        if ids.len() > 0 {
            let e = ids[0];
            assert(ids.contains(e));
            assert(edges[e.0 as int].from == from);
        }
    }
}

/// The ids of the records that lead from `from` to `to`, ascending.
pub fn scan_between<E, W>(edges: &Vec<EdgeRecord<E, W>>, from: NodeId, to: NodeId) -> (ids: Vec<
    EdgeId,
>)
    ensures
        ids@ == edge_ids_between(edges@, from, to),
{
    let mut ids: Vec<EdgeId> = Vec::new();
    let mut i: usize = 0;
    while i < edges.len()
        invariant
            i <= edges@.len(),
            ids@ == edge_ids_between(edges@.take(i as int), from, to),
        decreases edges@.len() - i,
    {
        proof {
            assert(edges@.take(i + 1).drop_last() =~= edges@.take(i as int));
        }
        if edges[i].from == from && edges[i].to == to {
            ids.push(EdgeId(i));
        }
        i += 1;
    }
    proof {
        assert(edges@.take(i as int) =~= edges@);
    }
    ids
}

/// The heads of the records that leave `v`, in record order, one for
/// each record.
pub open spec fn heads_from<E, W>(edges: Seq<EdgeRecord<E, W>>, v: NodeId) -> Seq<NodeId>
    decreases edges.len(),
{
    if edges.len() == 0 {
        Seq::empty()
    } else if edges.last().from == v {
        heads_from(edges.drop_last(), v).push(edges.last().to)
    } else {
        heads_from(edges.drop_last(), v)
    }
}

/// The tails of the records that enter `v`, in record order, one for
/// each record.
pub open spec fn tails_to<E, W>(edges: Seq<EdgeRecord<E, W>>, v: NodeId) -> Seq<NodeId>
    decreases edges.len(),
{
    if edges.len() == 0 {
        Seq::empty()
    } else if edges.last().to == v {
        tails_to(edges.drop_last(), v).push(edges.last().from)
    } else {
        tails_to(edges.drop_last(), v)
    }
}

/// The far ends of the records that touch `v`, in record order, one for
/// each record: the head of a record that leaves `v`, and the tail of
/// any other record that enters it.
pub open spec fn ends_near<E, W>(edges: Seq<EdgeRecord<E, W>>, v: NodeId) -> Seq<NodeId>
    decreases edges.len(),
{
    if edges.len() == 0 {
        Seq::empty()
    } else if edges.last().from == v {
        ends_near(edges.drop_last(), v).push(edges.last().to)
    } else if edges.last().to == v {
        ends_near(edges.drop_last(), v).push(edges.last().from)
    } else {
        ends_near(edges.drop_last(), v)
    }
}

/// The far ends of the records `ids`: the heads if `heads` is set, the
/// tails if not.
pub open spec fn ends_of<E, W>(edges: Seq<EdgeRecord<E, W>>, ids: Seq<EdgeId>, heads: bool) -> Seq<
    NodeId,
> {
    Seq::new(
        ids.len(),
        |i: int|
            if heads {
                edges[ids[i].0 as int].to
            } else {
                edges[ids[i].0 as int].from
            },
    )
}

/// A node that is no end of any record has no successor and no
/// predecessor.
pub proof fn lemma_no_heads<E, W>(edges: Seq<EdgeRecord<E, W>>, v: NodeId, n: int)
    requires
        forall|e: int| 0 <= e < edges.len() ==> (#[trigger] edges[e]).from.0 < n && edges[e].to.0 < n,
        v.0 >= n,
    ensures
        heads_from(edges, v).len() == 0,
        tails_to(edges, v).len() == 0,
        ends_near(edges, v).len() == 0,
    decreases edges.len(),
{
    if edges.len() > 0 {
        assert forall|e: int| 0 <= e < edges.drop_last().len() implies (
        #[trigger] edges.drop_last()[e]).from.0 < n && edges.drop_last()[e].to.0 < n by {
            assert(edges.drop_last()[e] == edges[e]);
        }
        lemma_no_heads(edges.drop_last(), v, n);
        assert(edges[edges.len() - 1].from.0 < n);
    }
}

/// The heads of the records that leave `v` are the far ends of the ids
/// that match `v` as the tail, and likewise for the records that enter.
pub proof fn lemma_ends_of_matching<E, W>(edges: Seq<EdgeRecord<E, W>>, v: NodeId)
    requires
        edges.len() <= usize::MAX,
    ensures
        ends_of(edges, ids_matching(edges, Some(v), None), true) == heads_from(edges, v),
        ends_of(edges, ids_matching(edges, None, Some(v)), false) == tails_to(edges, v),
    decreases edges.len(),
{
    if edges.len() > 0 {
        let front = edges.drop_last();
        lemma_ends_of_matching(front, v);
        lemma_ids_matching(front, Some(v), None);
        lemma_ids_matching(front, None, Some(v));
        let out = ids_matching(front, Some(v), None);
        let inn = ids_matching(front, None, Some(v));
        assert forall|i: int| 0 <= i < out.len() implies edges[(#[trigger] out[i]).0 as int]
            == front[out[i].0 as int] by {
            assert(out.contains(out[i]));
        }
        assert forall|i: int| 0 <= i < inn.len() implies edges[(#[trigger] inn[i]).0 as int]
            == front[inn[i].0 as int] by {
            assert(inn.contains(inn[i]));
        }
        assert(ends_of(edges, ids_matching(edges, Some(v), None), true) =~= heads_from(edges, v)) by {
            assert(ends_of(front, out, true) == heads_from(front, v));
            assert forall|i: int| 0 <= i < out.len() implies ends_of(edges, out, true)[i] == ends_of(
                front,
                out,
                true,
            )[i] by {
                assert(edges[out[i].0 as int] == front[out[i].0 as int]);
            }
        }
        assert(ends_of(edges, ids_matching(edges, None, Some(v)), false) =~= tails_to(edges, v)) by {
            assert(ends_of(front, inn, false) == tails_to(front, v));
            assert forall|i: int| 0 <= i < inn.len() implies ends_of(edges, inn, false)[i] == ends_of(
                front,
                inn,
                false,
            )[i] by {
                assert(edges[inn[i].0 as int] == front[inn[i].0 as int]);
            }
        }
    }
}

/// The far ends of the records that touch `v`, in record order.
pub fn scan_neighborhood<E, W>(edges: &Vec<EdgeRecord<E, W>>, v: NodeId) -> (near: Vec<NodeId>)
    ensures
        near@ == ends_near(edges@, v),
        forall|u: NodeId| near@.contains(u) <==> has_edge(edges@, v, u) || has_edge(edges@, u, v),
{
    let mut near: Vec<NodeId> = Vec::new();
    let mut i: usize = 0;
    while i < edges.len()
        invariant
            i <= edges@.len(),
            near@ == ends_near(edges@.take(i as int), v),
            forall|u: NodeId|
                near@.contains(u) <==> has_edge(edges@.take(i as int), v, u) || has_edge(
                    edges@.take(i as int),
                    u,
                    v,
                ),
        decreases edges@.len() - i,
    {
        let ghost before = near@;
        if edges[i].from == v {
            near.push(edges[i].to);
        } else if edges[i].to == v {
            near.push(edges[i].from);
        }
        proof {
            assert(edges@.take(i + 1).drop_last() =~= edges@.take(i as int));
            assert(edges@.take(i + 1).last() == edges@[i as int]);
            assert forall|u: NodeId|
                near@.contains(u) <==> has_edge(edges@.take(i + 1), v, u) || has_edge(
                    edges@.take(i + 1),
                    u,
                    v,
                ) by {
                lemma_has_edge_step(edges@, i as int, v, u);
                lemma_has_edge_step(edges@, i as int, u, v);
                lemma_push_contains(before, edges@[i as int].to, u);
                lemma_push_contains(before, edges@[i as int].from, u);
            }
        }
        i += 1;
    }
    proof {
        assert(edges@.take(i as int) =~= edges@);
    }
    near
}

/// The heads of the records that leave `v`, in record order.
pub fn scan_successors<E, W>(edges: &Vec<EdgeRecord<E, W>>, v: NodeId) -> (next: Vec<NodeId>)
    ensures
        next@ == heads_from(edges@, v),
        forall|u: NodeId| next@.contains(u) <==> has_edge(edges@, v, u),
{
    let mut next: Vec<NodeId> = Vec::new();
    let mut i: usize = 0;
    while i < edges.len()
        invariant
            i <= edges@.len(),
            next@ == heads_from(edges@.take(i as int), v),
            forall|u: NodeId| next@.contains(u) <==> has_edge(edges@.take(i as int), v, u),
        decreases edges@.len() - i,
    {
        let ghost before = next@;
        if edges[i].from == v {
            next.push(edges[i].to);
        }
        proof {
            assert(edges@.take(i + 1).drop_last() =~= edges@.take(i as int));
            assert(edges@.take(i + 1).last() == edges@[i as int]);
            assert forall|u: NodeId| next@.contains(u) <==> has_edge(edges@.take(i + 1), v, u) by {
                lemma_has_edge_step(edges@, i as int, v, u);
                lemma_push_contains(before, edges@[i as int].to, u);
            }
        }
        i += 1;
    }
    proof {
        assert(edges@.take(i as int) =~= edges@);
    }
    next
}

/// The tails of the records that enter `v`, in record order.
pub fn scan_predecessors<E, W>(edges: &Vec<EdgeRecord<E, W>>, v: NodeId) -> (prev: Vec<NodeId>)
    ensures
        prev@ == tails_to(edges@, v),
        forall|u: NodeId| prev@.contains(u) <==> has_edge(edges@, u, v),
{
    let mut prev: Vec<NodeId> = Vec::new();
    let mut i: usize = 0;
    while i < edges.len()
        invariant
            i <= edges@.len(),
            prev@ == tails_to(edges@.take(i as int), v),
            forall|u: NodeId| prev@.contains(u) <==> has_edge(edges@.take(i as int), u, v),
        decreases edges@.len() - i,
    {
        let ghost before = prev@;
        if edges[i].to == v {
            prev.push(edges[i].from);
        }
        proof {
            assert(edges@.take(i + 1).drop_last() =~= edges@.take(i as int));
            assert(edges@.take(i + 1).last() == edges@[i as int]);
            assert forall|u: NodeId| prev@.contains(u) <==> has_edge(edges@.take(i + 1), u, v) by {
                lemma_has_edge_step(edges@, i as int, u, v);
                lemma_push_contains(before, edges@[i as int].from, u);
            }
        }
        i += 1;
    }
    proof {
        assert(edges@.take(i as int) =~= edges@);
    }
    prev
}

/// The ids `0, 1, ..` up to `n`, as node ids.
pub fn node_id_range(n: usize) -> (ids: Vec<NodeId>)
    ensures
        ids@ == Seq::new(n as nat, |i: int| NodeId(i as usize)),
{
    let mut ids: Vec<NodeId> = Vec::new();
    let mut i: usize = 0;
    while i < n
        invariant
            i <= n,
            ids@ == Seq::new(i as nat, |j: int| NodeId(j as usize)),
        decreases n - i,
    {
        ids.push(NodeId(i));
        i += 1;
        assert(ids@ =~= Seq::new(i as nat, |j: int| NodeId(j as usize)));
    }
    ids
}

/// The ids `0, 1, ..` up to `n`, as edge ids.
pub fn edge_id_range(n: usize) -> (ids: Vec<EdgeId>)
    ensures
        ids@ == Seq::new(n as nat, |i: int| EdgeId(i as usize)),
{
    let mut ids: Vec<EdgeId> = Vec::new();
    let mut i: usize = 0;
    while i < n
        invariant
            i <= n,
            ids@ == Seq::new(i as nat, |j: int| EdgeId(j as usize)),
        decreases n - i,
    {
        ids.push(EdgeId(i));
        i += 1;
        assert(ids@ =~= Seq::new(i as nat, |j: int| EdgeId(j as usize)));
    }
    ids
}

/// A fresh storage with the nodes of `source` and no edges.
pub fn clone_nodes<S: MutableStorage>(source: &S) -> (target: S)
    requires
        source.wf(),
    ensures
        target.wf(),
        target.keys() == source.keys(),
        target.payloads() == source.payloads(),
        target.edges().len() == 0,
{
    let n = source.order();
    let mut target = S::with_node_capacity(n);
    proof {
        source.lemma_directed();
        source.lemma_wf();
        target.lemma_wf();
        assert(target.keys() =~= source.keys().take(0));
        assert(target.payloads() =~= source.payloads().take(0));
    }
    let mut i: usize = 0;
    while i < n
        invariant
            source.wf(),
            n == source.keys().len(),
            n <= S::node_limit(),
            source.payloads().len() == n,
            source.keys().no_duplicates(),
            i <= n,
            target.wf(),
            target.edges().len() == 0,
            target.keys() == source.keys().take(i as int),
            target.payloads() == source.payloads().take(i as int),
        decreases n - i,
    {
        let key = source.node_key(NodeId(i)).key_clone();
        let data = *source.node_data(NodeId(i));
        proof {
            let keys = source.keys();
            if keys.take(i as int).contains(key@) {
                let j = choose|j: int| 0 <= j < i && keys.take(i as int)[j] == key@;
                assert(keys[j] == keys[i as int]);
            }
            assert(keys.take(i as int).push(key@) =~= keys.take(i + 1));
            assert(source.payloads().take(i as int).push(data) =~= source.payloads().take(i + 1));
        }
        target.add_node(key, data);
        i += 1;
    }
    proof {
        assert(source.keys().take(i as int) =~= source.keys());
        assert(source.payloads().take(i as int) =~= source.payloads());
    }
    target
}

/// A fresh storage with the nodes and the edge records of `source`.
pub fn clone_storage<S: MutableStorage + EdgeWeights>(source: &S) -> (target: S)
    requires
        source.wf(),
    ensures
        target.wf(),
        target.keys() == source.keys(),
        target.payloads() == source.payloads(),
        target.edges() == source.edges(),
{
    let mut target = clone_nodes(source);
    let m = source.size();
    proof {
        source.lemma_wf();
        assert(target.edges() =~= source.edges().take(0));
    }
    let mut j: usize = 0;
    while j < m
        invariant
            source.wf(),
            m == source.edges().len(),
            j <= m,
            target.wf(),
            target.keys() == source.keys(),
            target.payloads() == source.payloads(),
            target.edges() == source.edges().take(j as int),
        decreases m - j,
    {
        let (from, to) = source.endpoints(EdgeId(j));
        let meta = *source.edge_meta(EdgeId(j));
        let weight = source.weight_of(EdgeId(j));
        proof {
            source.lemma_wf();
            let er = source.edges()[j as int];
            assert(er == EdgeRecord { from, to, meta, weight });
            assert(source.edges().take(j as int).push(er) =~= source.edges().take(j + 1));
        }
        target.add_edge_by_id(from, to, meta, weight);
        j += 1;
    }
    proof {
        assert(source.edges().take(j as int) =~= source.edges());
    }
    target
}

/// A table with one entry `None` for each of `n` nodes.
pub fn unknown_table<T>(n: usize) -> (table: Vec<Option<T>>)
    ensures
        table@.len() == n,
        forall|i: int| 0 <= i < n ==> (#[trigger] table@[i]) is None,
{
    let mut table: Vec<Option<T>> = Vec::new();
    let mut i: usize = 0;
    while i < n
        invariant
            i <= n,
            table@.len() == i,
            forall|j: int| 0 <= j < i ==> (#[trigger] table@[j]) is None,
        decreases n - i,
    {
        table.push(None);
        i += 1;
    }
    table
}

/// The record leaves `from`, if a node is given, and enters `to`, if a
/// node is given.
pub open spec fn ends_match<E, W>(r: EdgeRecord<E, W>, from: Option<NodeId>, to: Option<NodeId>) -> bool {
    (from is None || r.from == from->Some_0) && (to is None || r.to == to->Some_0)
}

/// The ids of all records whose ends match, ascending.
pub open spec fn ids_matching<E, W>(
    edges: Seq<EdgeRecord<E, W>>,
    from: Option<NodeId>,
    to: Option<NodeId>,
) -> Seq<EdgeId>
    decreases edges.len(),
{
    if edges.len() == 0 {
        Seq::empty()
    } else {
        let rest = ids_matching(edges.drop_last(), from, to);
        if ends_match(edges.last(), from, to) {
            rest.push(EdgeId((edges.len() - 1) as usize))
        } else {
            rest
        }
    }
}

/// `ids_matching` holds exactly the ids of the records whose ends match,
/// each once.
pub proof fn lemma_ids_matching<E, W>(
    edges: Seq<EdgeRecord<E, W>>,
    from: Option<NodeId>,
    to: Option<NodeId>,
)
    requires
        edges.len() <= usize::MAX,
    ensures
        forall|e: EdgeId|
            ids_matching(edges, from, to).contains(e) <==> (e.0 < edges.len() && ends_match(
                edges[e.0 as int],
                from,
                to,
            )),
        ids_matching(edges, from, to).no_duplicates(),
        ids_matching(edges, from, to).len() <= edges.len(),
    decreases edges.len(),
{
    let ids = ids_matching(edges, from, to);
    if edges.len() > 0 {
        let front = edges.drop_last();
        let rest = ids_matching(front, from, to);
        lemma_ids_matching(front, from, to);
        let last = (edges.len() - 1) as int;
        assert forall|e: EdgeId|
            ids.contains(e) <==> (e.0 < edges.len() && ends_match(edges[e.0 as int], from, to)) by {
            if ends_match(edges.last(), from, to) {
                lemma_push_contains(rest, EdgeId(last as usize), e);
            }
            if e.0 < front.len() {
                assert(front[e.0 as int] == edges[e.0 as int]);
            }
        }
        if ends_match(edges.last(), from, to) {
            assert(!rest.contains(EdgeId(last as usize)));
            assert forall|i: int, j: int| 0 <= i < ids.len() && 0 <= j < ids.len() && i != j implies ids[i]
                != ids[j] by {
                if i < rest.len() {
                    assert(rest.contains(rest[i]));
                }
                if j < rest.len() {
                    assert(rest.contains(rest[j]));
                }
            }
        }
    }
}

/// Appending a record appends its id to the matching ids if its ends
/// match.
pub proof fn lemma_ids_matching_push<E, W>(
    edges: Seq<EdgeRecord<E, W>>,
    r: EdgeRecord<E, W>,
    from: Option<NodeId>,
    to: Option<NodeId>,
)
    ensures
        ids_matching(edges.push(r), from, to) == if ends_match(r, from, to) {
            ids_matching(edges, from, to).push(EdgeId(edges.len() as usize))
        } else {
            ids_matching(edges, from, to)
        },
{
    assert(edges.push(r).drop_last() =~= edges);
}

/// Where no record's ends match, no id matches.
pub proof fn lemma_ids_matching_none<E, W>(
    edges: Seq<EdgeRecord<E, W>>,
    from: Option<NodeId>,
    to: Option<NodeId>,
)
    requires
        forall|i: int| 0 <= i < edges.len() ==> !ends_match(#[trigger] edges[i], from, to),
    ensures
        ids_matching(edges, from, to).len() == 0,
    decreases edges.len(),
{
    if edges.len() > 0 {
        assert forall|i: int| 0 <= i < edges.drop_last().len() implies !ends_match(
            #[trigger] edges.drop_last()[i],
            from,
            to,
        ) by {
            assert(edges.drop_last()[i] == edges[i]);
        }
        lemma_ids_matching_none(edges.drop_last(), from, to);
        assert(!ends_match(edges[edges.len() - 1], from, to));
    }
}

/// The far ends of the records `ids`: the heads if `heads` is set, the
/// tails if not.
pub fn far_ends<E, W>(edges: &Vec<EdgeRecord<E, W>>, ids: &Vec<EdgeId>, heads: bool) -> (ends: Vec<
    NodeId,
>)
    requires
        forall|i: int| 0 <= i < ids@.len() ==> (#[trigger] ids@[i]).0 < edges@.len(),
    ensures
        ends@ == ends_of(edges@, ids@, heads),
        ends@.len() == ids@.len(),
        forall|i: int|
            0 <= i < ids@.len() ==> #[trigger] ends@[i] == if heads {
                edges@[ids@[i].0 as int].to
            } else {
                edges@[ids@[i].0 as int].from
            },
{
    let mut ends: Vec<NodeId> = Vec::new();
    let mut i: usize = 0;
    while i < ids.len()
        invariant
            i <= ids@.len(),
            forall|k: int| 0 <= k < ids@.len() ==> (#[trigger] ids@[k]).0 < edges@.len(),
            ends@.len() == i,
            forall|k: int|
                0 <= k < i ==> #[trigger] ends@[k] == if heads {
                    edges@[ids@[k].0 as int].to
                } else {
                    edges@[ids@[k].0 as int].from
                },
        decreases ids@.len() - i,
    {
        let r = &edges[ids[i].0];
        ends.push(if heads { r.to } else { r.from });
        i += 1;
    }
    assert(ends@ =~= ends_of(edges@, ids@, heads));
    ends
}

/// A copy of `source` in another storage: every node, then every record,
/// in their order.
pub fn copy_into<S, T>(source: &S) -> (target: T) where
    S: GraphBase + EdgeWeights,
    T: MutableStorage<Key = S::Key, Data = S::Data, EdgeMeta = S::EdgeMeta, Weight = S::Weight>,

    requires
        source.wf(),
        source.keys().len() <= T::node_limit(),
    ensures
        target.wf(),
        target.keys() == source.keys(),
        target.payloads() == source.payloads(),
        target.edges() == source.edges(),
{
    let n = source.order();
    let mut target = T::with_node_capacity(n);
    proof {
        source.lemma_wf();
        target.lemma_wf();
        assert(target.keys() =~= source.keys().take(0));
        assert(target.payloads() =~= source.payloads().take(0));
    }
    let mut i: usize = 0;
    while i < n
        invariant
            source.wf(),
            n == source.keys().len(),
            n <= T::node_limit(),
            source.payloads().len() == n,
            source.keys().no_duplicates(),
            i <= n,
            target.wf(),
            target.edges().len() == 0,
            target.keys() == source.keys().take(i as int),
            target.payloads() == source.payloads().take(i as int),
        decreases n - i,
    {
        let key = source.node_key(NodeId(i)).key_clone();
        let data = *source.node_data(NodeId(i));
        proof {
            let keys = source.keys();
            if keys.take(i as int).contains(key@) {
                let j = choose|j: int| 0 <= j < i && keys.take(i as int)[j] == key@;
                assert(keys[j] == keys[i as int]);
            }
            assert(keys.take(i as int).push(key@) =~= keys.take(i + 1));
            assert(source.payloads().take(i as int).push(data) =~= source.payloads().take(i + 1));
        }
        target.add_node(key, data);
        i += 1;
    }
    let m = source.size();
    proof {
        assert(source.keys().take(i as int) =~= source.keys());
        assert(source.payloads().take(i as int) =~= source.payloads());
        assert(target.edges() =~= source.edges().take(0));
    }
    let mut j: usize = 0;
    while j < m
        invariant
            source.wf(),
            m == source.edges().len(),
            j <= m,
            target.wf(),
            target.keys() == source.keys(),
            target.payloads() == source.payloads(),
            target.edges() == source.edges().take(j as int),
        decreases m - j,
    {
        let (from, to) = source.endpoints(EdgeId(j));
        let meta = *source.edge_meta(EdgeId(j));
        let weight = source.weight_of(EdgeId(j));
        proof {
            source.lemma_wf();
            let er = source.edges()[j as int];
            assert(er == EdgeRecord { from, to, meta, weight });
            assert(source.edges().take(j as int).push(er) =~= source.edges().take(j + 1));
        }
        target.add_edge_by_id(from, to, meta, weight);
        j += 1;
    }
    proof {
        assert(source.edges().take(j as int) =~= source.edges());
    }
    target
}

/// An independent copy of a list of records.
pub fn copy_records<E: Copy, W: Copy>(edges: &Vec<EdgeRecord<E, W>>) -> (copy: Vec<EdgeRecord<E, W>>)
    ensures
        copy@ == edges@,
{
    let mut copy: Vec<EdgeRecord<E, W>> = Vec::new();
    let mut i: usize = 0;
    while i < edges.len()
        invariant
            i <= edges@.len(),
            copy@ == edges@.take(i as int),
        decreases edges@.len() - i,
    {
        copy.push(edges[i]);
        i += 1;
        assert(copy@ =~= edges@.take(i as int));
    }
    assert(edges@.take(i as int) =~= edges@);
    copy
}

/// Keys, payloads and records of a storage under construction.
pub type Contents<K, D, E, W> = (Seq<<K as View>::V>, Seq<D>, Seq<EdgeRecord<E, W>>);

/// The contents after interning the first `k` of `nodes`, each with its
/// payload.
pub open spec fn nodes_listed<K: NodeKey, D, E, W>(nodes: Seq<(K, D)>, k: int) -> Contents<K, D, E, W>
    decreases k,
{
    if k <= 0 {
        (Seq::empty(), Seq::empty(), Seq::empty())
    } else {
        let before = nodes_listed::<K, D, E, W>(nodes, k - 1);
        (
            keys_with(before.0, nodes[k - 1].0@),
            payloads_with(before.0, before.1, nodes[k - 1].0@, nodes[k - 1].1),
            before.2,
        )
    }
}

/// The contents after inserting the first `k` of `edges` by their keys;
/// an end that is not yet a node is interned with the payload `filler`.
pub open spec fn edges_listed<K: NodeKey, D, E, W>(
    start: Contents<K, D, E, W>,
    edges: Seq<(K, K, E, Option<W>)>,
    filler: D,
    k: int,
) -> Contents<K, D, E, W>
    decreases k,
{
    if k <= 0 {
        start
    } else {
        let before = edges_listed(start, edges, filler, k - 1);
        let item = edges[k - 1];
        let keys1 = keys_with(before.0, item.0@);
        let data1 = payloads_with(before.0, before.1, item.0@, filler);
        (
            keys_with(keys1, item.1@),
            payloads_with(keys1, data1, item.1@, filler),
            before.2.push(
                EdgeRecord {
                    from: NodeId(key_position(before.0, item.0@) as usize),
                    to: NodeId(key_position(keys1, item.1@) as usize),
                    meta: item.2,
                    weight: item.3,
                },
            ),
        )
    }
}

/// A storage with the nodes `nodes`, then the records `edges` inserted by
/// the keys of their ends; an end that is no node yet becomes one with the
/// payload `filler`.
pub fn storage_from_lists<S: MutableStorage>(
    nodes: Vec<(S::Key, S::Data)>,
    edges: Vec<(S::Key, S::Key, S::EdgeMeta, Option<S::Weight>)>,
    filler: S::Data,
) -> (storage: S)
    requires
        nodes@.len() + 2 * edges@.len() + 1 < S::node_limit(),
    ensures
        storage.wf(),
        (storage.keys(), storage.payloads(), storage.edges()) == edges_listed(
            nodes_listed::<S::Key, S::Data, S::EdgeMeta, S::Weight>(nodes@, nodes@.len() as int),
            edges@,
            filler,
            edges@.len() as int,
        ),
{
    let mut storage = S::with_node_capacity(nodes.len());
    proof {
        storage.lemma_wf();
        assert(storage.keys() =~= Seq::empty());
        assert(storage.payloads() =~= Seq::empty());
        assert(storage.edges() =~= Seq::empty());
    }
    let mut i: usize = 0;
    while i < nodes.len()
        invariant
            i <= nodes@.len(),
            nodes@.len() + 2 * edges@.len() + 1 < S::node_limit(),
            storage.wf(),
            storage.keys().len() <= i,
            (storage.keys(), storage.payloads(), storage.edges()) == nodes_listed::<
                S::Key,
                S::Data,
                S::EdgeMeta,
                S::Weight,
            >(nodes@, i as int),
        decreases nodes@.len() - i,
    {
        storage.add_node(nodes[i].0.key_clone(), nodes[i].1);
        i += 1;
    }
    let ghost start = nodes_listed::<S::Key, S::Data, S::EdgeMeta, S::Weight>(
        nodes@,
        nodes@.len() as int,
    );
    let mut j: usize = 0;
    while j < edges.len()
        invariant
            j <= edges@.len(),
            nodes@.len() + 2 * edges@.len() + 1 < S::node_limit(),
            storage.wf(),
            storage.keys().len() <= nodes@.len() + 2 * j,
            (storage.keys(), storage.payloads(), storage.edges()) == edges_listed(
                start,
                edges@,
                filler,
                j as int,
            ),
        decreases edges@.len() - j,
    {
        let from_key = edges[j].0.key_clone();
        let to_key = edges[j].1.key_clone();
        storage.add_edge_by_key(from_key, to_key, filler, filler, edges[j].2, edges[j].3);
        j += 1;
    }
    storage
}

} // verus!
