//! Capability contracts that let algorithms run on any storage backend.

use vstd::prelude::*;
use crate::base::{EdgeId, NodeId, NodeKey};
use crate::interner::{key_position, keys_with, payloads_with};
use crate::storage::graph_definition::EdgeRecord;

verus! {

/// Some record in `edges` leads from `from` to `to`.
pub open spec fn has_edge<E, W>(edges: Seq<EdgeRecord<E, W>>, from: NodeId, to: NodeId) -> bool {
    exists|i: int| 0 <= i < edges.len() && (#[trigger] edges[i]).from == from && edges[i].to == to
}

/// The ids of all records in `edges` that lead from `from` to `to`, ascending.
pub open spec fn edge_ids_between<E, W>(
    edges: Seq<EdgeRecord<E, W>>,
    from: NodeId,
    to: NodeId,
) -> Seq<EdgeId>
    decreases edges.len(),
{
    if edges.len() == 0 {
        Seq::empty()
    } else {
        let rest = edge_ids_between(edges.drop_last(), from, to);
        if edges.last().from == from && edges.last().to == to {
            rest.push(EdgeId((edges.len() - 1) as usize))
        } else {
            rest
        }
    }
}

/// Read-only view of a graph: nodes with unique keys, and directed edge
/// records between them.
pub trait GraphBase {
    type Key: NodeKey;

    type Data: Copy;

    type EdgeMeta: Copy;

    type Weight: Copy;

    /// The structural invariant of the implementor.
    spec fn wf(&self) -> bool;

    /// Views of the node keys, by node id.
    spec fn keys(&self) -> Seq<<Self::Key as View>::V>;

    /// Node payloads, by node id.
    spec fn payloads(&self) -> Seq<Self::Data>;

    /// Edge records, by edge id.
    spec fn edges(&self) -> Seq<EdgeRecord<Self::EdgeMeta, Self::Weight>>;

    /// Whether `successors` and `predecessors` ignore the direction of the
    /// records.
    spec fn symmetric(&self) -> bool;

    /// What `edges_between` reports for an ordered pair.
    spec fn between(&self, from: NodeId, to: NodeId) -> Seq<EdgeId>;

    /// What `neighborhood` lists for a node, in order.
    spec fn neighbours(&self, v: NodeId) -> Seq<NodeId>;

    /// What `successors` lists for a node, in order.
    spec fn heads(&self, v: NodeId) -> Seq<NodeId>;

    /// What `predecessors` lists for a node, in order.
    spec fn tails(&self, v: NodeId) -> Seq<NodeId>;

    /// What well-formedness means for every implementor.
    proof fn lemma_wf(&self)
        requires
            self.wf(),
        ensures
            self.payloads().len() == self.keys().len(),
            self.keys().no_duplicates(),
            self.keys().len() <= usize::MAX,
            self.edges().len() <= usize::MAX,
            forall|e: int|
                0 <= e < self.edges().len() ==> (#[trigger] self.edges()[e]).from.0
                    < self.keys().len() && self.edges()[e].to.0 < self.keys().len(),
    ;

    /// `between` lists distinct records of the pair, and is empty only if
    /// the pair has none.
    proof fn lemma_between(&self, from: NodeId, to: NodeId)
        requires
            self.wf(),
        ensures
            self.between(from, to).no_duplicates(),
            forall|i: int|
                0 <= i < self.between(from, to).len() ==> {
                    let e = #[trigger] self.between(from, to)[i];
                    &&& e.0 < self.edges().len()
                    &&& self.edges()[e.0 as int].from == from
                    &&& self.edges()[e.0 as int].to == to
                },
            (self.between(from, to).len() > 0) == has_edge(self.edges(), from, to),
    ;

    /// Number of nodes.
    fn order(&self) -> (n: usize)
        requires
            self.wf(),
        ensures
            n == self.keys().len(),
    ;

    /// Number of edge records.
    fn size(&self) -> (m: usize)
        requires
            self.wf(),
        ensures
            m == self.edges().len(),
    ;

    fn node_id(&self, key: &Self::Key) -> (found: Option<NodeId>)
        requires
            self.wf(),
        ensures
            match found {
                Some(id) => id.0 < self.keys().len() && self.keys()[id.0 as int] == key@,
                None => !self.keys().contains(key@),
            },
    ;

    fn node_ids(&self) -> (ids: Vec<NodeId>)
        requires
            self.wf(),
        ensures
            ids@ == Seq::new(self.keys().len(), |i: int| NodeId(i as usize)),
    ;

    fn node_key(&self, id: NodeId) -> (key: &Self::Key)
        requires
            self.wf(),
            id.0 < self.keys().len(),
        ensures
            key@ == self.keys()[id.0 as int],
    ;

    fn node_data(&self, id: NodeId) -> (data: &Self::Data)
        requires
            self.wf(),
            id.0 < self.keys().len(),
        ensures
            *data == self.payloads()[id.0 as int],
    ;

    fn edge_ids(&self) -> (ids: Vec<EdgeId>)
        requires
            self.wf(),
        ensures
            ids@ == Seq::new(self.edges().len(), |i: int| EdgeId(i as usize)),
    ;

    fn endpoints(&self, e: EdgeId) -> (ends: (NodeId, NodeId))
        requires
            self.wf(),
            e.0 < self.edges().len(),
        ensures
            ends.0 == self.edges()[e.0 as int].from,
            ends.1 == self.edges()[e.0 as int].to,
    ;

    fn edge_meta(&self, e: EdgeId) -> (meta: &Self::EdgeMeta)
        requires
            self.wf(),
            e.0 < self.edges().len(),
        ensures
            *meta == self.edges()[e.0 as int].meta,
    ;

    /// The records the backend reports for the ordered pair: zero, one or
    /// many.
    fn edges_between(&self, from: NodeId, to: NodeId) -> (ids: Vec<EdgeId>)
        requires
            self.wf(),
        ensures
            ids@ == self.between(from, to),
    ;

    /// The nodes joined to `v` by a record in either direction, in the
    /// order and as often as `neighbours` says for the backend.
    fn neighborhood(&self, v: NodeId) -> (near: Vec<NodeId>)
        requires
            self.wf(),
        ensures
            near@ == self.neighbours(v),
            forall|u: NodeId|
                near@.contains(u) <==> has_edge(self.edges(), v, u) || has_edge(
                    self.edges(),
                    u,
                    v,
                ),
    ;

    /// The nodes reached from `v` over one record, in the order and as
    /// often as `heads` says for the backend.
    fn successors(&self, v: NodeId) -> (next: Vec<NodeId>)
        requires
            self.wf(),
        ensures
            next@ == self.heads(v),
            forall|u: NodeId|
                next@.contains(u) <==> has_edge(self.edges(), v, u) || (self.symmetric()
                    && has_edge(self.edges(), u, v)),
    ;

    /// The nodes from which `v` is reached over one record, in the order
    /// and as often as `tails` says for the backend.
    fn predecessors(&self, v: NodeId) -> (prev: Vec<NodeId>)
        requires
            self.wf(),
        ensures
            prev@ == self.tails(v),
            forall|u: NodeId|
                prev@.contains(u) <==> has_edge(self.edges(), u, v) || (self.symmetric()
                    && has_edge(self.edges(), v, u)),
    ;
}

/// Optional weight lookup.
pub trait EdgeWeights: GraphBase {
    /// The weight of a record; `None` for an unweighted record and for an id
    /// that names no record.
    fn weight_of(&self, e: EdgeId) -> (w: Option<Self::Weight>)
        requires
            self.wf(),
        ensures
            w == if e.0 < self.edges().len() {
                self.edges()[e.0 as int].weight
            } else {
                None
            },
    ;
}

/// A storage backend: a directed graph that can be created empty.
pub trait StorageRepresentation: GraphBase {
    /// How many nodes the backend can hold on this machine.
    spec fn node_limit() -> nat;

    /// Storage never ignores direction, and never holds more nodes than
    /// the backend can.
    proof fn lemma_directed(&self)
        ensures
            !self.symmetric(),
            self.wf() ==> self.keys().len() <= Self::node_limit(),
    ;

    /// An empty storage. `capacity` is a hint for how many nodes to expect.
    fn with_node_capacity(capacity: usize) -> (storage: Self) where Self: Sized
        ensures
            storage.wf(),
            storage.keys().len() == 0,
            storage.edges().len() == 0,
    ;
}

/// Node and edge insertion, and bulk removal of all edges.
pub trait MutableStorage: StorageRepresentation {
    /// Interns a node. A key that is already present keeps its id and payload.
    fn add_node(&mut self, key: Self::Key, data: Self::Data) -> (id: NodeId)
        requires
            old(self).wf(),
            old(self).keys().len() < Self::node_limit(),
        ensures
            final(self).wf(),
            final(self).edges() == old(self).edges(),
            final(self).keys() == keys_with(old(self).keys(), key@),
            final(self).payloads() == payloads_with(
                old(self).keys(),
                old(self).payloads(),
                key@,
                data,
            ),
            id.0 == key_position(old(self).keys(), key@),
    ;

    /// Appends one record between two existing nodes.
    fn add_edge_by_id(
        &mut self,
        from: NodeId,
        to: NodeId,
        meta: Self::EdgeMeta,
        weight: Option<Self::Weight>,
    ) -> (id: EdgeId)
        requires
            old(self).wf(),
            from.0 < old(self).keys().len(),
            to.0 < old(self).keys().len(),
        ensures
            final(self).wf(),
            final(self).keys() == old(self).keys(),
            final(self).payloads() == old(self).payloads(),
            final(self).edges() == old(self).edges().push(EdgeRecord { from, to, meta, weight }),
            id.0 == old(self).edges().len(),
    ;

    /// Interns both endpoints, then appends one record between them.
    fn add_edge_by_key(
        &mut self,
        from_key: Self::Key,
        to_key: Self::Key,
        from_data: Self::Data,
        to_data: Self::Data,
        meta: Self::EdgeMeta,
        weight: Option<Self::Weight>,
    ) -> (id: EdgeId)
        requires
            old(self).wf(),
            old(self).keys().len() + 1 < Self::node_limit(),
        ensures
            final(self).wf(),
            final(self).keys() == keys_with(keys_with(old(self).keys(), from_key@), to_key@),
            final(self).payloads() == payloads_with(
                keys_with(old(self).keys(), from_key@),
                payloads_with(old(self).keys(), old(self).payloads(), from_key@, from_data),
                to_key@,
                to_data,
            ),
            final(self).edges() == old(self).edges().push(
                EdgeRecord {
                    from: NodeId(key_position(old(self).keys(), from_key@) as usize),
                    to: NodeId(
                        key_position(keys_with(old(self).keys(), from_key@), to_key@) as usize,
                    ),
                    meta,
                    weight,
                },
            ),
            id.0 == old(self).edges().len(),
    ;

    /// Removes every edge record and keeps the nodes.
    fn clear_edges(&mut self)
        requires
            old(self).wf(),
        ensures
            final(self).wf(),
            final(self).keys() == old(self).keys(),
            final(self).payloads() == old(self).payloads(),
            final(self).edges().len() == 0,
    ;
}

/// Conversion into another backend through the canonical edge list.
pub trait StorageConvert<Target>: GraphBase where
    Target: GraphBase<
        Key = Self::Key,
        Data = Self::Data,
        EdgeMeta = Self::EdgeMeta,
        Weight = Self::Weight,
    >,
 {
    /// Whether a graph of this size fits into the target on this machine.
    spec fn convertible(&self) -> bool;

    /// Copies every node, then every edge, in their order.
    fn convert(&self) -> (target: Target)
        requires
            self.wf(),
            self.convertible(),
        ensures
            target.wf(),
            target.keys() == self.keys(),
            target.payloads() == self.payloads(),
            target.edges() == self.edges(),
    ;
}

/// Graph kinds: which edges a wrapper admits.
pub trait GraphKindMarker {
    /// Whether an edge may join a node to itself.
    spec fn loops_allowed() -> bool;

    /// Whether two edges may join the same pair of nodes.
    spec fn parallel_allowed() -> bool;

    fn allows_loops() -> (yes: bool)
        ensures
            yes == Self::loops_allowed(),
    ;

    fn allows_parallel() -> (yes: bool)
        ensures
            yes == Self::parallel_allowed(),
    ;
}

/// Kind of a graph without self-loops and without parallel edges.
pub trait SimpleGraphKind: GraphKindMarker {

}

/// Kind of a graph that admits self-loops and parallel edges.
pub trait PseudoGraphKind: GraphKindMarker {

}

/// Kind of a graph that admits parallel edges but no self-loops.
pub trait MultiGraphKind: GraphKindMarker {

}

/// Weight types that carry no information.
pub trait IsUnit {

}

/// Weight types that carry a number.
pub trait NotUnit {

}

impl IsUnit for () {

}

impl NotUnit for i32 {

}

impl NotUnit for i64 {

}

/// Node keys that have a total order.
pub trait OrderedNodes: NodeKey {
    /// The place of a key in the order.
    spec fn rank(key: <Self as View>::V) -> int;

    /// Different keys have different places.
    proof fn lemma_rank(a: <Self as View>::V, b: <Self as View>::V)
        ensures
            Self::rank(a) == Self::rank(b) ==> a == b,
    ;

    /// Whether `self` comes strictly before `other`.
    fn key_lt(&self, other: &Self) -> (lt: bool)
        ensures
            lt == (Self::rank(self@) < Self::rank(other@)),
    ;
}

impl OrderedNodes for usize {
    open spec fn rank(key: usize) -> int {
        key as int
    }

    proof fn lemma_rank(a: usize, b: usize) {
    }

    fn key_lt(&self, other: &Self) -> (lt: bool) {
        *self < *other
    }
}

impl OrderedNodes for u32 {
    open spec fn rank(key: u32) -> int {
        key as int
    }

    proof fn lemma_rank(a: u32, b: u32) {
    }

    fn key_lt(&self, other: &Self) -> (lt: bool) {
        *self < *other
    }
}

impl OrderedNodes for u64 {
    open spec fn rank(key: u64) -> int {
        key as int
    }

    proof fn lemma_rank(a: u64, b: u64) {
    }

    fn key_lt(&self, other: &Self) -> (lt: bool) {
        *self < *other
    }
}

impl OrderedNodes for i32 {
    open spec fn rank(key: i32) -> int {
        key as int
    }

    proof fn lemma_rank(a: i32, b: i32) {
    }

    fn key_lt(&self, other: &Self) -> (lt: bool) {
        *self < *other
    }
}

impl OrderedNodes for i64 {
    open spec fn rank(key: i64) -> int {
        key as int
    }

    proof fn lemma_rank(a: i64, b: i64) {
    }

    fn key_lt(&self, other: &Self) -> (lt: bool) {
        *self < *other
    }
}

/// How two graphs are merged.
#[derive(Clone, Debug)]
pub enum MergeStrategy {
    /// Relabel nodes.
    Relabel,
    /// Merge nodes with equal keys.
    MergeByKey,
    /// Merge nodes with equal globally unique ids.
    MergeByUid,
}

} // verus!
