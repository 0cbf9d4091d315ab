//! Out-adjacency lists: for every node the records that leave it.

use vstd::prelude::*;
use crate::base::{EdgeId, NodeId, NodeKey};
use crate::interner::{key_position, keys_with, payloads_with, NodeInterner};
use crate::storage::graph_definition::{endpoints_below, EdgeRecord, GraphDefinition};
use crate::storage::scan::{
    edges_listed, ends_near, heads_from, lemma_ends_of_matching, lemma_no_heads, nodes_listed,
    storage_from_lists, tails_to,
    copy_into, copy_records, edge_id_range, far_ends, ids_matching, lemma_edge_ids_between,
    lemma_ids_matching, lemma_ids_matching_none, lemma_ids_matching_push, node_id_range,
    scan_between, scan_neighborhood, scan_predecessors,
};
use crate::traits::{
    edge_ids_between, has_edge, EdgeWeights, GraphBase, MutableStorage, StorageConvert,
    StorageRepresentation,
};

verus! {

/// The edge list together with a list, for every node, of the ids of the
/// records that leave it.
pub struct AdjacencyList<Key: NodeKey, Data: Copy, EdgeMeta: Copy, Weight: Copy> {
    pub nodes: NodeInterner<Key, Data>,
    pub edges: Vec<EdgeRecord<EdgeMeta, Weight>>,
    pub out_adj: Vec<Vec<EdgeId>>,
}

/// Row `v` of `adj` lists the records that match `v` as their tail, if
/// `leaving` is set, and as their head, if not.
pub open spec fn rows_match<E, W>(
    adj: Seq<Vec<EdgeId>>,
    edges: Seq<EdgeRecord<E, W>>,
    leaving: bool,
) -> bool {
    forall|v: int|
        0 <= v < adj.len() ==> (#[trigger] adj[v])@ == if leaving {
            ids_matching(edges, Some(NodeId(v as usize)), None)
        } else {
            ids_matching(edges, None, Some(NodeId(v as usize)))
        }
}

/// One more empty row, for a node that no record touches yet.
pub fn push_row(adj: &mut Vec<Vec<EdgeId>>)
    ensures
        final(adj)@.len() == old(adj)@.len() + 1,
        forall|v: int| 0 <= v < old(adj)@.len() ==> #[trigger] final(adj)@[v] == old(adj)@[v],
        final(adj)@[old(adj)@.len() as int]@.len() == 0,
{
    adj.push(Vec::new());
}

/// Empties every row.
pub fn clear_rows(adj: &mut Vec<Vec<EdgeId>>)
    ensures
        final(adj)@.len() == old(adj)@.len(),
        forall|v: int| 0 <= v < final(adj)@.len() ==> (#[trigger] final(adj)@[v])@.len() == 0,
{
    let n = adj.len();
    let mut i: usize = 0;
    while i < n
        invariant
            i <= n,
            adj@.len() == n,
            forall|v: int| 0 <= v < i ==> (#[trigger] adj@[v])@.len() == 0,
        decreases n - i,
    {
        adj[i].clear();
        i += 1;
    }
}

/// `n` empty rows.
pub fn empty_rows(n: usize) -> (adj: Vec<Vec<EdgeId>>)
    ensures
        adj@.len() == n,
        forall|v: int| 0 <= v < n ==> (#[trigger] adj@[v])@.len() == 0,
{
    let mut adj: Vec<Vec<EdgeId>> = Vec::new();
    let mut i: usize = 0;
    while i < n
        invariant
            i <= n,
            adj@.len() == i,
            forall|v: int| 0 <= v < i ==> (#[trigger] adj@[v])@.len() == 0,
        decreases n - i,
    {
        adj.push(Vec::new());
        i += 1;
    }
    adj
}

/// Rows without entries match an edge list without records.
pub proof fn lemma_rows_empty<E, W>(adj: Seq<Vec<EdgeId>>, leaving: bool)
    requires
        forall|v: int| 0 <= v < adj.len() ==> (#[trigger] adj[v])@.len() == 0,
    ensures
        rows_match(adj, Seq::<EdgeRecord<E, W>>::empty(), leaving),
{
    assert forall|v: int| 0 <= v < adj.len() implies (#[trigger] adj[v])@ == if leaving {
        ids_matching(Seq::<EdgeRecord<E, W>>::empty(), Some(NodeId(v as usize)), None)
    } else {
        ids_matching(Seq::<EdgeRecord<E, W>>::empty(), None, Some(NodeId(v as usize)))
    } by {
        assert(adj[v]@ =~= Seq::<EdgeId>::empty());
    }
}

/// A new row for a node that no record touches keeps the rows matching.
pub proof fn lemma_rows_grow<E, W>(
    before: Seq<Vec<EdgeId>>,
    after: Seq<Vec<EdgeId>>,
    edges: Seq<EdgeRecord<E, W>>,
    leaving: bool,
)
    requires
        rows_match(before, edges, leaving),
        endpoints_below(edges, before.len() as int),
        after.len() == before.len() + 1,
        after.len() <= usize::MAX,
        forall|v: int| 0 <= v < before.len() ==> #[trigger] after[v] == before[v],
        after[before.len() as int]@.len() == 0,
    ensures
        rows_match(after, edges, leaving),
{
    let fresh = NodeId(before.len() as usize);
    assert forall|v: int| 0 <= v < after.len() implies (#[trigger] after[v])@ == if leaving {
        ids_matching(edges, Some(NodeId(v as usize)), None)
    } else {
        ids_matching(edges, None, Some(NodeId(v as usize)))
    } by {
        if v == before.len() {
            if leaving {
                lemma_ids_matching_none(edges, Some(NodeId(v as usize)), None);
            } else {
                lemma_ids_matching_none(edges, None, Some(NodeId(v as usize)));
            }
            assert(after[v]@ =~= Seq::<EdgeId>::empty());
        } else {
            assert(after[v] == before[v]);
        }
    }
}

/// Appending the id of a new record to the row of its end keeps the rows
/// matching.
pub proof fn lemma_rows_push<E, W>(
    before: Seq<Vec<EdgeId>>,
    after: Seq<Vec<EdgeId>>,
    edges: Seq<EdgeRecord<E, W>>,
    r: EdgeRecord<E, W>,
    leaving: bool,
)
    requires
        rows_match(before, edges, leaving),
        after.len() == before.len(),
        before.len() <= usize::MAX,
        ({
            let end = if leaving { r.from.0 as int } else { r.to.0 as int };
            &&& 0 <= end < before.len()
            &&& after[end]@ == before[end]@.push(EdgeId(edges.len() as usize))
            &&& forall|v: int| 0 <= v < before.len() && v != end ==> #[trigger] after[v] == before[v]
        }),
    ensures
        rows_match(after, edges.push(r), leaving),
{
    assert forall|v: int| 0 <= v < after.len() implies (#[trigger] after[v])@ == if leaving {
        ids_matching(edges.push(r), Some(NodeId(v as usize)), None)
    } else {
        ids_matching(edges.push(r), None, Some(NodeId(v as usize)))
    } by {
        if leaving {
            lemma_ids_matching_push(edges, r, Some(NodeId(v as usize)), None);
        } else {
            lemma_ids_matching_push(edges, r, None, Some(NodeId(v as usize)));
        }
        let end = if leaving { r.from.0 as int } else { r.to.0 as int };
        if v != end {
            assert(after[v] == before[v]);
        }
    }
}

impl<Key: NodeKey, Data: Copy, EdgeMeta: Copy, Weight: Copy> AdjacencyList<
    Key,
    Data,
    EdgeMeta,
    Weight,
> {
    /// Keys are unique, every record joins two existing nodes, and every
    /// node has its row of leaving records.
    pub open spec fn inv(&self) -> bool {
        &&& self.nodes.wf()
        &&& endpoints_below(self.edges@, self.nodes.records@.len() as int)
        &&& self.out_adj@.len() == self.nodes.records@.len()
        &&& rows_match(self.out_adj@, self.edges@, true)
    }

    pub fn new() -> (list: Self)
        ensures
            list.inv(),
            list.nodes.records@.len() == 0,
            list.edges@.len() == 0,
    {
        Self { nodes: NodeInterner::new(), edges: Vec::new(), out_adj: Vec::new() }
    }

    /// The adjacency list with the nodes and records of `def`.
    pub fn from_graphdef(def: GraphDefinition<Key, Data, EdgeMeta, Weight>) -> (list: Self)
        requires
            def.inv(),
        ensures
            list.inv(),
            list.nodes == def.nodes,
            list.edges@ == def.edges@,
    {
        let n = def.nodes.len();
        let mut out_adj = empty_rows(n);
        let mut i: usize = 0;
        proof {
            lemma_rows_empty::<EdgeMeta, Weight>(out_adj@, true);
            assert(def.edges@.take(0) =~= Seq::<EdgeRecord<EdgeMeta, Weight>>::empty());
            assert(def.edges@.len() == def.edges.len());
        }
        while i < def.edges.len()
            invariant
                def.inv(),
                n == def.nodes.records@.len(),
                i <= def.edges@.len(),
                out_adj@.len() == n,
                rows_match(out_adj@, def.edges@.take(i as int), true),
            decreases def.edges@.len() - i,
        {
            let from = def.edges[i].from.0;
            let ghost before = out_adj@;
            out_adj[from].push(EdgeId(i));
            proof {
                lemma_rows_push(before, out_adj@, def.edges@.take(i as int), def.edges@[i as int], true);
                assert(def.edges@.take(i as int).push(def.edges@[i as int]) =~= def.edges@.take(
                    i + 1,
                ));
            }
            i += 1;
        }
        proof {
            assert(def.edges@.take(i as int) =~= def.edges@);
        }
        Self { nodes: def.nodes, edges: def.edges, out_adj }
    }

    /// The adjacency list with the nodes `nodes`, then the records `edges`
    /// inserted by the keys of their ends; an end that is no node yet
    /// becomes one with the payload `filler`.
    pub fn from_edge_list(
        nodes: Vec<(Key, Data)>,
        edges: Vec<(Key, Key, EdgeMeta, Option<Weight>)>,
        filler: Data,
    ) -> (list: Self)
        requires
            nodes@.len() + 2 * edges@.len() + 1 < usize::MAX,
        ensures
            list.inv(),
            (list.nodes.keys(), list.nodes.payloads(), list.edges@) == edges_listed(
                nodes_listed::<Key, Data, EdgeMeta, Weight>(nodes@, nodes@.len() as int),
                edges@,
                filler,
                edges@.len() as int,
            ),
    {
        storage_from_lists(nodes, edges, filler)
    }

    /// The edge list with the nodes and records of the adjacency list.
    pub fn to_graph_def(&self) -> (def: GraphDefinition<Key, Data, EdgeMeta, Weight>)
        requires
            self.inv(),
        ensures
            def.inv(),
            def.nodes.keys() == self.nodes.keys(),
            def.nodes.payloads() == self.nodes.payloads(),
            def.edges@ == self.edges@,
    {
        let nodes = self.nodes.duplicate();
        proof {
            self.nodes.lemma_keys_distinct();
            nodes.lemma_keys_distinct();
        }
        GraphDefinition { nodes, edges: copy_records(&self.edges) }
    }
}

impl<Key: NodeKey, Data: Copy, EdgeMeta: Copy, Weight: Copy> GraphBase for AdjacencyList<
    Key,
    Data,
    EdgeMeta,
    Weight,
> {
    type Key = Key;

    type Data = Data;

    type EdgeMeta = EdgeMeta;

    type Weight = Weight;

    open spec fn wf(&self) -> bool {
        self.inv()
    }

    open spec fn keys(&self) -> Seq<Key::V> {
        self.nodes.keys()
    }

    open spec fn payloads(&self) -> Seq<Data> {
        self.nodes.payloads()
    }

    open spec fn edges(&self) -> Seq<EdgeRecord<EdgeMeta, Weight>> {
        self.edges@
    }

    open spec fn symmetric(&self) -> bool {
        false
    }

    open spec fn between(&self, from: NodeId, to: NodeId) -> Seq<EdgeId> {
        edge_ids_between(self.edges@, from, to)
    }

    /// One far end for each record that touches `v`, in record order.
    open spec fn neighbours(&self, v: NodeId) -> Seq<NodeId> {
        ends_near(self.edges@, v)
    }

    /// One head for each record that leaves `v`, in record order.
    open spec fn heads(&self, v: NodeId) -> Seq<NodeId> {
        heads_from(self.edges@, v)
    }

    /// One tail for each record that enters `v`, in record order.
    open spec fn tails(&self, v: NodeId) -> Seq<NodeId> {
        tails_to(self.edges@, v)
    }

    proof fn lemma_wf(&self) {
        self.nodes.lemma_keys_distinct();
        assert(self.edges@.len() == self.edges.len());
        assert(self.nodes.records@.len() == self.nodes.records.len());
    }

    proof fn lemma_between(&self, from: NodeId, to: NodeId) {
        assert(self.edges@.len() == self.edges.len());
        lemma_edge_ids_between(self.edges@, from, to);
        let ids = self.between(from, to);
        assert forall|i: int| 0 <= i < ids.len() implies {
            let e = #[trigger] ids[i];
            &&& e.0 < self.edges@.len()
            &&& self.edges@[e.0 as int].from == from
            &&& self.edges@[e.0 as int].to == to
        } by {
            assert(ids.contains(ids[i]));
        }
    }

    fn order(&self) -> (n: usize) {
        self.nodes.len()
    }

    fn size(&self) -> (m: usize) {
        self.edges.len()
    }

    fn node_id(&self, key: &Key) -> (found: Option<NodeId>) {
        let found = self.nodes.get_id(key);
        proof {
            if let Some(id) = found {
                assert(self.nodes.keys()[id.0 as int] == self.nodes.records@[id.0 as int].key@);
            }
        }
        found
    }

    fn node_ids(&self) -> (ids: Vec<NodeId>) {
        node_id_range(self.nodes.len())
    }

    fn node_key(&self, id: NodeId) -> (key: &Key) {
        &self.nodes.get(id).key
    }

    fn node_data(&self, id: NodeId) -> (data: &Data) {
        &self.nodes.get(id).data
    }

    fn edge_ids(&self) -> (ids: Vec<EdgeId>) {
        edge_id_range(self.edges.len())
    }

    fn endpoints(&self, e: EdgeId) -> (ends: (NodeId, NodeId)) {
        let r = &self.edges[e.0];
        (r.from, r.to)
    }

    fn edge_meta(&self, e: EdgeId) -> (meta: &EdgeMeta) {
        &self.edges[e.0].meta
    }

    fn edges_between(&self, from: NodeId, to: NodeId) -> (ids: Vec<EdgeId>) {
        scan_between(&self.edges, from, to)
    }

    fn neighborhood(&self, v: NodeId) -> (near: Vec<NodeId>) {
        scan_neighborhood(&self.edges, v)
    }

    fn successors(&self, v: NodeId) -> (next: Vec<NodeId>) {
        if v.0 >= self.out_adj.len() {
            let next: Vec<NodeId> = Vec::new();
            proof {
                lemma_no_heads(self.edges@, v, self.nodes.records@.len() as int);
                assert forall|u: NodeId| !has_edge(self.edges@, v, u) by {
                    if has_edge(self.edges@, v, u) {
                        let i = choose|i: int|
                            0 <= i < self.edges@.len() && (#[trigger] self.edges@[i]).from == v
                                && self.edges@[i].to == u;
                        assert(self.edges@[i].from.0 < self.nodes.records@.len());
                    }
                }
            }
            return next;
        }
        proof {
            assert(self.edges@.len() == self.edges.len());
            lemma_ids_matching(self.edges@, Some(v), None);
            assert(self.out_adj@[v.0 as int]@ == ids_matching(self.edges@, Some(v), None));
            assert forall|i: int| 0 <= i < self.out_adj@[v.0 as int]@.len() implies (
            #[trigger] self.out_adj@[v.0 as int]@[i]).0 < self.edges@.len() by {
                assert(self.out_adj@[v.0 as int]@.contains(self.out_adj@[v.0 as int]@[i]));
            }
        }
        let next = far_ends(&self.edges, &self.out_adj[v.0], true);
        proof {
            lemma_ends_of_matching(self.edges@, v);
            let ids = self.out_adj@[v.0 as int]@;
            assert forall|u: NodeId| next@.contains(u) <==> has_edge(self.edges@, v, u) by {
                if next@.contains(u) {
                    let i = choose|i: int| 0 <= i < next@.len() && next@[i] == u;
                    assert(ids.contains(ids[i]));
                    assert(self.edges@[ids[i].0 as int].from == v);
                }
                if has_edge(self.edges@, v, u) {
                    let e = choose|e: int|
                        0 <= e < self.edges@.len() && (#[trigger] self.edges@[e]).from == v
                            && self.edges@[e].to == u;
                    assert(ids.contains(EdgeId(e as usize)));
                    let i = choose|i: int| 0 <= i < ids.len() && ids[i] == EdgeId(e as usize);
                    assert(next@[i] == u);
                }
            }
        }
        next
    }

    fn predecessors(&self, v: NodeId) -> (prev: Vec<NodeId>) {
        scan_predecessors(&self.edges, v)
    }
}

impl<Key: NodeKey, Data: Copy, EdgeMeta: Copy, Weight: Copy> EdgeWeights for AdjacencyList<
    Key,
    Data,
    EdgeMeta,
    Weight,
> {
    fn weight_of(&self, e: EdgeId) -> (w: Option<Weight>) {
        if e.0 < self.edges.len() {
            self.edges[e.0].weight
        } else {
            None
        }
    }
}

impl<Key: NodeKey, Data: Copy, EdgeMeta: Copy, Weight: Copy> StorageRepresentation for AdjacencyList<
    Key,
    Data,
    EdgeMeta,
    Weight,
> {
    open spec fn node_limit() -> nat {
        usize::MAX as nat
    }

    proof fn lemma_directed(&self) {
        assert(self.nodes.records@.len() == self.nodes.records.len());
    }

    fn with_node_capacity(capacity: usize) -> (storage: Self) {
        Self { nodes: NodeInterner::new(), edges: Vec::new(), out_adj: Vec::with_capacity(capacity) }
    }
}

impl<Key: NodeKey, Data: Copy, EdgeMeta: Copy, Weight: Copy> MutableStorage for AdjacencyList<
    Key,
    Data,
    EdgeMeta,
    Weight,
> {
    fn add_node(&mut self, key: Key, data: Data) -> (id: NodeId) {
        let ghost before = self.out_adj@;
        let id = self.nodes.intern(key, data);
        if self.out_adj.len() <= id.0 {
            push_row(&mut self.out_adj);
            proof {
                assert(self.out_adj@.len() == self.out_adj.len());
                lemma_rows_grow(before, self.out_adj@, self.edges@, true);
            }
        }
        proof {
            old(self).nodes.lemma_keys_distinct();
            if old(self).nodes.keys().contains(key@) {
                assert(0 <= old(self).nodes.keys().index_of(key@) < old(self).nodes.keys().len());
            }
        }
        id
    }

    fn add_edge_by_id(
        &mut self,
        from: NodeId,
        to: NodeId,
        meta: EdgeMeta,
        weight: Option<Weight>,
    ) -> (id: EdgeId) {
        let ghost before = self.out_adj@;
        let ghost edges = self.edges@;
        proof {
            self.nodes.lemma_keys_distinct();
            assert(self.nodes.records@.len() == self.nodes.records.len());
        }
        let id = EdgeId(self.edges.len());
        self.out_adj[from.0].push(id);
        self.edges.push(EdgeRecord::new(from, to, meta, weight));
        proof {
            lemma_rows_push(before, self.out_adj@, edges, EdgeRecord { from, to, meta, weight }, true);
        }
        id
    }

    fn add_edge_by_key(
        &mut self,
        from_key: Key,
        to_key: Key,
        from_data: Data,
        to_data: Data,
        meta: EdgeMeta,
        weight: Option<Weight>,
    ) -> (id: EdgeId) {
        let from = self.add_node(from_key, from_data);
        proof {
            self.nodes.lemma_keys_distinct();
        }
        let ghost mid = self.nodes.keys();
        let to = self.add_node(to_key, to_data);
        proof {
            self.nodes.lemma_keys_distinct();
            if old(self).nodes.keys().contains(from_key@) {
                assert(0 <= old(self).nodes.keys().index_of(from_key@) < old(self).nodes.keys().len());
            }
            if mid.contains(to_key@) {
                assert(0 <= mid.index_of(to_key@) < mid.len());
            }
        }
        self.add_edge_by_id(from, to, meta, weight)
    }

    fn clear_edges(&mut self) {
        self.edges.clear();
        clear_rows(&mut self.out_adj);
        proof {
            lemma_rows_empty::<EdgeMeta, Weight>(self.out_adj@, true);
            assert(self.edges@ =~= Seq::<EdgeRecord<EdgeMeta, Weight>>::empty());
        }
    }
}

impl<Key, Data, EdgeMeta, Weight, Target> StorageConvert<Target> for AdjacencyList<
    Key,
    Data,
    EdgeMeta,
    Weight,
> where
    Key: NodeKey,
    Data: Copy,
    EdgeMeta: Copy,
    Weight: Copy,
    Target: MutableStorage<Key = Key, Data = Data, EdgeMeta = EdgeMeta, Weight = Weight>,
 {
    open spec fn convertible(&self) -> bool {
        self.nodes.records@.len() <= Target::node_limit()
    }

    fn convert(&self) -> (target: Target) {
        proof {
            self.nodes.lemma_keys_distinct();
        }
        copy_into(self)
    }
}

} // verus!
