//! The canonical, backend-agnostic edge list.

use vstd::prelude::*;
use crate::base::{EdgeId, NodeId, NodeKey};
use crate::interner::{key_position, keys_with, payloads_with, NodeInterner};
use crate::storage::scan::{
    edge_id_range, ends_near, heads_from, lemma_edge_ids_between, node_id_range, scan_between,
    scan_neighborhood, scan_predecessors, scan_successors, tails_to,
};
use crate::traits::{
    edge_ids_between, has_edge, EdgeWeights, GraphBase, MutableStorage, StorageConvert,
    StorageRepresentation,
};

verus! {

/// One directed edge with its payload and optional weight.
#[derive(Clone, Copy, Debug)]
pub struct EdgeRecord<EdgeMeta, Weight> {
    pub from: NodeId,
    pub to: NodeId,
    pub meta: EdgeMeta,
    pub weight: Option<Weight>,
}

impl<EdgeMeta, Weight> EdgeRecord<EdgeMeta, Weight> {
    pub fn new(from: NodeId, to: NodeId, meta: EdgeMeta, weight: Option<Weight>) -> (record: Self)
        ensures
            record == (EdgeRecord { from, to, meta, weight }),
    {
        EdgeRecord { from, to, meta, weight }
    }
}

/// Every record of `edges` joins two nodes below `order`.
pub open spec fn endpoints_below<E, W>(edges: Seq<EdgeRecord<E, W>>, order: int) -> bool {
    forall|e: int|
        0 <= e < edges.len() ==> (#[trigger] edges[e]).from.0 < order && edges[e].to.0 < order
}

/// The mathematical definition of a graph: its nodes and its edge records,
/// in insertion order. Every other backend converts to and from it.
pub struct GraphDefinition<Key: NodeKey, Data: Copy, EdgeMeta: Copy, Weight: Copy> {
    pub nodes: NodeInterner<Key, Data>,
    pub edges: Vec<EdgeRecord<EdgeMeta, Weight>>,
}

impl<Key: NodeKey, Data: Copy, EdgeMeta: Copy, Weight: Copy> GraphDefinition<
    Key,
    Data,
    EdgeMeta,
    Weight,
> {
    /// Keys are unique and every record joins two existing nodes.
    pub open spec fn inv(&self) -> bool {
        &&& self.nodes.wf()
        &&& endpoints_below(self.edges@, self.nodes.records@.len() as int)
    }

    pub fn new() -> (def: Self)
        ensures
            def.inv(),
            def.nodes.records@.len() == 0,
            def.edges@.len() == 0,
    {
        Self { nodes: NodeInterner::new(), edges: Vec::new() }
    }

    pub fn add_node(&mut self, key: Key, data: Data) -> (id: NodeId)
        requires
            old(self).inv(),
        ensures
            final(self).inv(),
            final(self).edges@ == old(self).edges@,
            final(self).nodes.keys() == keys_with(old(self).nodes.keys(), key@),
            final(self).nodes.payloads() == payloads_with(
                old(self).nodes.keys(),
                old(self).nodes.payloads(),
                key@,
                data,
            ),
            id.0 == key_position(old(self).nodes.keys(), key@),
    {
        self.nodes.intern(key, data)
    }

    pub fn add_edge_by_id(
        &mut self,
        from: NodeId,
        to: NodeId,
        meta: EdgeMeta,
        weight: Option<Weight>,
    ) -> (id: EdgeId)
        requires
            old(self).inv(),
            from.0 < old(self).nodes.records@.len(),
            to.0 < old(self).nodes.records@.len(),
        ensures
            final(self).inv(),
            final(self).nodes == old(self).nodes,
            final(self).edges@ == old(self).edges@.push(EdgeRecord { from, to, meta, weight }),
            id.0 == old(self).edges@.len(),
    {
        let id = EdgeId(self.edges.len());
        self.edges.push(EdgeRecord::new(from, to, meta, weight));
        id
    }

    pub fn add_edge_by_key(
        &mut self,
        from_key: Key,
        to_key: Key,
        from_data: Data,
        to_data: Data,
        meta: EdgeMeta,
        weight: Option<Weight>,
    ) -> (id: EdgeId)
        requires
            old(self).inv(),
        ensures
            final(self).inv(),
            final(self).nodes.keys() == keys_with(
                keys_with(old(self).nodes.keys(), from_key@),
                to_key@,
            ),
            final(self).nodes.payloads() == payloads_with(
                keys_with(old(self).nodes.keys(), from_key@),
                payloads_with(
                    old(self).nodes.keys(),
                    old(self).nodes.payloads(),
                    from_key@,
                    from_data,
                ),
                to_key@,
                to_data,
            ),
            final(self).edges@ == old(self).edges@.push(
                EdgeRecord {
                    from: NodeId(key_position(old(self).nodes.keys(), from_key@) as usize),
                    to: NodeId(
                        key_position(keys_with(old(self).nodes.keys(), from_key@), to_key@) as usize,
                    ),
                    meta,
                    weight,
                },
            ),
            id.0 == old(self).edges@.len(),
    {
        let from = self.nodes.intern(from_key, from_data);
        let to = self.nodes.intern(to_key, to_data);
        proof {
            self.nodes.lemma_keys_distinct();
        }
        self.add_edge_by_id(from, to, meta, weight)
    }

    pub fn order(&self) -> (n: usize)
        ensures
            n == self.nodes.records@.len(),
    {
        self.nodes.len()
    }

    pub fn size(&self) -> (m: usize)
        ensures
            m == self.edges@.len(),
    {
        self.edges.len()
    }
}

impl<Key: NodeKey, Data: Copy, EdgeMeta: Copy, Weight: Copy> GraphBase for GraphDefinition<
    Key,
    Data,
    EdgeMeta,
    Weight,
> {
    type Key = Key;

    type Data = Data;

    type EdgeMeta = EdgeMeta;

    type Weight = Weight;

    open spec fn wf(&self) -> bool {
        self.inv()
    }

    open spec fn keys(&self) -> Seq<Key::V> {
        self.nodes.keys()
    }

    open spec fn payloads(&self) -> Seq<Data> {
        self.nodes.payloads()
    }

    open spec fn edges(&self) -> Seq<EdgeRecord<EdgeMeta, Weight>> {
        self.edges@
    }

    open spec fn symmetric(&self) -> bool {
        false
    }

    open spec fn between(&self, from: NodeId, to: NodeId) -> Seq<EdgeId> {
        edge_ids_between(self.edges@, from, to)
    }

    /// One far end for each record that touches `v`, in record order.
    open spec fn neighbours(&self, v: NodeId) -> Seq<NodeId> {
        ends_near(self.edges@, v)
    }

    /// One head for each record that leaves `v`, in record order.
    open spec fn heads(&self, v: NodeId) -> Seq<NodeId> {
        heads_from(self.edges@, v)
    }

    /// One tail for each record that enters `v`, in record order.
    open spec fn tails(&self, v: NodeId) -> Seq<NodeId> {
        tails_to(self.edges@, v)
    }

    proof fn lemma_wf(&self) {
        self.nodes.lemma_keys_distinct();
        assert(self.edges@.len() == self.edges.len());
        assert(self.nodes.records@.len() == self.nodes.records.len());
    }

    proof fn lemma_between(&self, from: NodeId, to: NodeId) {
        assert(self.edges@.len() == self.edges.len());
        lemma_edge_ids_between(self.edges@, from, to);
        let ids = self.between(from, to);
        assert forall|i: int| 0 <= i < ids.len() implies {
            let e = #[trigger] ids[i];
            &&& e.0 < self.edges@.len()
            &&& self.edges@[e.0 as int].from == from
            &&& self.edges@[e.0 as int].to == to
        } by {
            assert(ids.contains(ids[i]));
        }
    }

    fn order(&self) -> (n: usize) {
        self.nodes.len()
    }

    fn size(&self) -> (m: usize) {
        self.edges.len()
    }

    fn node_id(&self, key: &Key) -> (found: Option<NodeId>) {
        let found = self.nodes.get_id(key);
        proof {
            if let Some(id) = found {
                assert(self.nodes.keys()[id.0 as int] == self.nodes.records@[id.0 as int].key@);
            }
        }
        found
    }

    fn node_ids(&self) -> (ids: Vec<NodeId>) {
        node_id_range(self.nodes.len())
    }

    fn node_key(&self, id: NodeId) -> (key: &Key) {
        &self.nodes.get(id).key
    }

    fn node_data(&self, id: NodeId) -> (data: &Data) {
        &self.nodes.get(id).data
    }

    fn edge_ids(&self) -> (ids: Vec<EdgeId>) {
        edge_id_range(self.edges.len())
    }

    fn endpoints(&self, e: EdgeId) -> (ends: (NodeId, NodeId)) {
        let r = &self.edges[e.0];
        (r.from, r.to)
    }

    fn edge_meta(&self, e: EdgeId) -> (meta: &EdgeMeta) {
        &self.edges[e.0].meta
    }

    fn edges_between(&self, from: NodeId, to: NodeId) -> (ids: Vec<EdgeId>) {
        scan_between(&self.edges, from, to)
    }

    fn neighborhood(&self, v: NodeId) -> (near: Vec<NodeId>) {
        scan_neighborhood(&self.edges, v)
    }

    fn successors(&self, v: NodeId) -> (next: Vec<NodeId>) {
        scan_successors(&self.edges, v)
    }

    fn predecessors(&self, v: NodeId) -> (prev: Vec<NodeId>) {
        scan_predecessors(&self.edges, v)
    }
}

impl<Key: NodeKey, Data: Copy, EdgeMeta: Copy, Weight: Copy> EdgeWeights for GraphDefinition<
    Key,
    Data,
    EdgeMeta,
    Weight,
> {
    fn weight_of(&self, e: EdgeId) -> (w: Option<Weight>) {
        if e.0 < self.edges.len() {
            self.edges[e.0].weight
        } else {
            None
        }
    }
}

impl<Key: NodeKey, Data: Copy, EdgeMeta: Copy, Weight: Copy> StorageRepresentation for GraphDefinition<
    Key,
    Data,
    EdgeMeta,
    Weight,
> {
    open spec fn node_limit() -> nat {
        usize::MAX as nat
    }

    proof fn lemma_directed(&self) {
        assert(self.nodes.records@.len() == self.nodes.records.len());
    }

    fn with_node_capacity(_capacity: usize) -> (storage: Self) {
        Self::new()
    }
}

impl<Key: NodeKey, Data: Copy, EdgeMeta: Copy, Weight: Copy> MutableStorage for GraphDefinition<
    Key,
    Data,
    EdgeMeta,
    Weight,
> {
    fn add_node(&mut self, key: Key, data: Data) -> (id: NodeId) {
        self.nodes.intern(key, data)
    }

    fn add_edge_by_id(
        &mut self,
        from: NodeId,
        to: NodeId,
        meta: EdgeMeta,
        weight: Option<Weight>,
    ) -> (id: EdgeId) {
        let id = EdgeId(self.edges.len());
        self.edges.push(EdgeRecord::new(from, to, meta, weight));
        id
    }

    fn add_edge_by_key(
        &mut self,
        from_key: Key,
        to_key: Key,
        from_data: Data,
        to_data: Data,
        meta: EdgeMeta,
        weight: Option<Weight>,
    ) -> (id: EdgeId) {
        let from = self.nodes.intern(from_key, from_data);
        let to = self.nodes.intern(to_key, to_data);
        proof {
            self.nodes.lemma_keys_distinct();
        }
        let id = EdgeId(self.edges.len());
        self.edges.push(EdgeRecord::new(from, to, meta, weight));
        id
    }

    fn clear_edges(&mut self) {
        self.edges.clear();
    }
}

impl<Key, Data, EdgeMeta, Weight, Target> StorageConvert<Target> for GraphDefinition<
    Key,
    Data,
    EdgeMeta,
    Weight,
> where
    Key: NodeKey,
    Data: Copy,
    EdgeMeta: Copy,
    Weight: Copy,
    Target: MutableStorage<Key = Key, Data = Data, EdgeMeta = EdgeMeta, Weight = Weight>,
 {
    open spec fn convertible(&self) -> bool {
        self.nodes.records@.len() <= Target::node_limit()
    }

    fn convert(&self) -> (target: Target) {
        let mut target = Target::with_node_capacity(self.nodes.len());
        proof {
            target.lemma_wf();
            assert(target.keys() =~= self.nodes.keys().take(0));
            assert(target.payloads() =~= self.nodes.payloads().take(0));
        }
        let mut i: usize = 0;
        while i < self.nodes.len()
            invariant
                self.inv(),
                i <= self.nodes.records@.len(),
                self.nodes.records@.len() <= Target::node_limit(),
                target.wf(),
                target.edges().len() == 0,
                target.keys() == self.nodes.keys().take(i as int),
                target.payloads() == self.nodes.payloads().take(i as int),
            decreases self.nodes.records@.len() - i,
        {
            let rec = self.nodes.get(NodeId(i));
            let key = rec.key.key_clone();
            proof {
                self.nodes.lemma_keys_distinct();
                let keys = self.nodes.keys();
                assert(keys[i as int] == key@);
                if keys.take(i as int).contains(key@) {
                    let j = choose|j: int| 0 <= j < i && keys.take(i as int)[j] == key@;
                    assert(keys[j] == keys[i as int]);
                }
                assert(keys.take(i as int).push(key@) =~= keys.take(i + 1));
                assert(self.nodes.payloads().take(i as int).push(rec.data)
                    =~= self.nodes.payloads().take(i + 1));
            }
            target.add_node(key, rec.data);
            i += 1;
        }
        proof {
            assert(self.nodes.keys().take(i as int) =~= self.nodes.keys());
            assert(self.nodes.payloads().take(i as int) =~= self.nodes.payloads());
        }
        let mut j: usize = 0;
        while j < self.edges.len()
            invariant
                self.inv(),
                j <= self.edges@.len(),
                target.wf(),
                target.keys() == self.nodes.keys(),
                target.payloads() == self.nodes.payloads(),
                target.edges() == self.edges@.take(j as int),
            decreases self.edges@.len() - j,
        {
            let er = self.edges[j];
            proof {
                assert(self.edges@.take(j as int).push(er) =~= self.edges@.take(j + 1));
            }
            target.add_edge_by_id(er.from, er.to, er.meta, er.weight);
            j += 1;
        }
        proof {
            assert(self.edges@.take(j as int) =~= self.edges@);
        }
        target
    }
}

} // verus!
