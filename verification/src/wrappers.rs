//! Directed and undirected graph wrappers over a storage backend.
//!
//! Storage admits any edge; the wrappers are the place where the kind of a
//! graph (simple, pseudo, multi) decides which edges may be inserted.

use vstd::prelude::*;
use core::marker::PhantomData;
use crate::base::{EdgeId, NodeId, NodeKey};
use crate::interner::{key_position, keys_with, payloads_with};
use crate::storage::graph_definition::EdgeRecord;
use crate::traits::{
    has_edge, EdgeWeights, GraphBase, GraphKindMarker, IsUnit, MultiGraphKind, MutableStorage,
    NotUnit, PseudoGraphKind, SimpleGraphKind, StorageConvert, StorageRepresentation,
};

verus! {

/// A graph as algorithms see it: the read contract plus access to the
/// storage behind it.
pub trait Graph: GraphBase {
    type Storage: StorageRepresentation<
        Key = Self::Key,
        Data = Self::Data,
        EdgeMeta = Self::EdgeMeta,
        Weight = Self::Weight,
    >;

    /// The storage behind the graph.
    spec fn backing(&self) -> Self::Storage;

    /// The graph shows exactly what its storage holds.
    proof fn lemma_backing(&self)
        ensures
            self.wf() == self.backing().wf(),
            self.keys() == self.backing().keys(),
            self.payloads() == self.backing().payloads(),
            self.edges() == self.backing().edges(),
    ;

    fn storage(&self) -> (storage: &Self::Storage)
        ensures
            *storage == self.backing(),
    ;

    fn storage_mut(&mut self) -> (storage: &mut Self::Storage)
        ensures
            *storage == old(self).backing(),
            final(self).backing() == *final(storage),
    ;
}

/// No self-loops, no parallel edges.
#[derive(Clone, Copy, Debug)]
pub struct Simple;

/// Self-loops and parallel edges are both admitted.
#[derive(Clone, Copy, Debug)]
pub struct Pseudo;

/// Parallel edges are admitted, self-loops are not.
#[derive(Clone, Copy, Debug)]
pub struct Multi;

impl GraphKindMarker for Simple {
    open spec fn loops_allowed() -> bool {
        false
    }

    open spec fn parallel_allowed() -> bool {
        false
    }

    fn allows_loops() -> (yes: bool) {
        false
    }

    fn allows_parallel() -> (yes: bool) {
        false
    }
}

impl SimpleGraphKind for Simple {

}

impl GraphKindMarker for Pseudo {
    open spec fn loops_allowed() -> bool {
        true
    }

    open spec fn parallel_allowed() -> bool {
        true
    }

    fn allows_loops() -> (yes: bool) {
        true
    }

    fn allows_parallel() -> (yes: bool) {
        true
    }
}

impl PseudoGraphKind for Pseudo {

}

impl GraphKindMarker for Multi {
    open spec fn loops_allowed() -> bool {
        false
    }

    open spec fn parallel_allowed() -> bool {
        true
    }

    fn allows_loops() -> (yes: bool) {
        false
    }

    fn allows_parallel() -> (yes: bool) {
        true
    }
}

impl MultiGraphKind for Multi {

}

/// Why a wrapper refused an edge.
#[derive(Clone, Copy, Debug, PartialEq, Eq, Structural)]
pub enum EdgeRejection {
    /// The edge would join a node to itself and the kind forbids that.
    SelfLoop,
    /// The pair is already joined and the kind forbids a second edge.
    ParallelEdge,
}

/// No record joins a node to itself.
pub open spec fn loop_free<E, W>(edges: Seq<EdgeRecord<E, W>>) -> bool {
    forall|e: int| 0 <= e < edges.len() ==> (#[trigger] edges[e]).from != edges[e].to
}

/// No two records lead from the same node to the same node.
pub open spec fn arcs_distinct<E, W>(edges: Seq<EdgeRecord<E, W>>) -> bool {
    forall|i: int, j: int|
        0 <= i < j < edges.len() ==> !((#[trigger] edges[i]).from == (#[trigger] edges[j]).from
            && edges[i].to == edges[j].to)
}

/// Whether some record leads from `from` to `to`.
pub fn has_edge_between<S: GraphBase>(storage: &S, from: NodeId, to: NodeId) -> (found: bool)
    requires
        storage.wf(),
    ensures
        found == has_edge(storage.edges(), from, to),
{
    let ids = storage.edge_ids();
    let mut i: usize = 0;
    while i < ids.len()
        invariant
            storage.wf(),
            ids@ == Seq::new(storage.edges().len(), |k: int| EdgeId(k as usize)),
            i <= ids@.len(),
            forall|k: int|
                0 <= k < i ==> !((#[trigger] storage.edges()[k]).from == from && storage.edges()[k].to
                    == to),
        decreases ids@.len() - i,
    {
        let (f, t) = storage.endpoints(ids[i]);
        if f == from && t == to {
            return true;
        }
        i += 1;
    }
    false
}

/// A directed graph of kind `GK` over the storage `S`.
pub struct DirectedGraph<S: StorageRepresentation, GK: GraphKindMarker> {
    pub storage: S,
    pub kind: PhantomData<GK>,
}

impl<S: StorageRepresentation, GK: GraphKindMarker> DirectedGraph<S, GK> {
    /// The records obey the constraints of the kind `GK`.
    pub open spec fn respects_kind(&self) -> bool {
        &&& !GK::loops_allowed() ==> loop_free(self.storage.edges())
        &&& !GK::parallel_allowed() ==> arcs_distinct(self.storage.edges())
    }

    pub fn new(storage: S) -> (graph: Self)
        ensures
            graph.storage == storage,
    {
        Self { storage, kind: PhantomData }
    }

    /// A copy of the storage in another representation.
    pub fn convert_storage<TargetS>(&self) -> (target: TargetS) where
        S: StorageConvert<TargetS>,
        TargetS: GraphBase<
            Key = S::Key,
            Data = S::Data,
            EdgeMeta = S::EdgeMeta,
            Weight = S::Weight,
        >,

        requires
            self.storage.wf(),
            self.storage.convertible(),
        ensures
            target.wf(),
            target.keys() == self.storage.keys(),
            target.payloads() == self.storage.payloads(),
            target.edges() == self.storage.edges(),
    {
        self.storage.convert()
    }

    /// The same graph over another storage representation.
    pub fn into_storage<TargetS>(self) -> (graph: DirectedGraph<TargetS, GK>) where
        S: StorageConvert<TargetS>,
        TargetS: StorageRepresentation<
            Key = S::Key,
            Data = S::Data,
            EdgeMeta = S::EdgeMeta,
            Weight = S::Weight,
        >,

        requires
            self.storage.wf(),
            self.storage.convertible(),
        ensures
            graph.storage.wf(),
            graph.storage.keys() == self.storage.keys(),
            graph.storage.payloads() == self.storage.payloads(),
            graph.storage.edges() == self.storage.edges(),
    {
        let new = self.storage.convert();
        DirectedGraph::new(new)
    }

    /// A graph over the storage `S` with the content of `other`.
    pub fn converted_storage<SourceS>(other: &DirectedGraph<SourceS, GK>) -> (graph: Self) where
        SourceS: StorageConvert<S> + StorageRepresentation<
            Key = S::Key,
            Data = S::Data,
            EdgeMeta = S::EdgeMeta,
            Weight = S::Weight,
        >,

        requires
            other.storage.wf(),
            other.storage.convertible(),
        ensures
            graph.storage.wf(),
            graph.storage.keys() == other.storage.keys(),
            graph.storage.payloads() == other.storage.payloads(),
            graph.storage.edges() == other.storage.edges(),
    {
        let new = other.storage.convert();
        DirectedGraph::new(new)
    }
}

impl<S: StorageRepresentation, GK: GraphKindMarker> GraphBase for DirectedGraph<S, GK> {
    type Key = S::Key;

    type Data = S::Data;

    type EdgeMeta = S::EdgeMeta;

    type Weight = S::Weight;

    open spec fn wf(&self) -> bool {
        self.storage.wf()
    }

    open spec fn keys(&self) -> Seq<<S::Key as View>::V> {
        self.storage.keys()
    }

    open spec fn payloads(&self) -> Seq<S::Data> {
        self.storage.payloads()
    }

    open spec fn edges(&self) -> Seq<EdgeRecord<S::EdgeMeta, S::Weight>> {
        self.storage.edges()
    }

    open spec fn symmetric(&self) -> bool {
        false
    }

    open spec fn between(&self, from: NodeId, to: NodeId) -> Seq<EdgeId> {
        self.storage.between(from, to)
    }

    open spec fn neighbours(&self, v: NodeId) -> Seq<NodeId> {
        self.storage.neighbours(v)
    }

    open spec fn heads(&self, v: NodeId) -> Seq<NodeId> {
        self.storage.heads(v)
    }

    open spec fn tails(&self, v: NodeId) -> Seq<NodeId> {
        self.storage.tails(v)
    }

    proof fn lemma_wf(&self) {
        self.storage.lemma_wf();
    }

    proof fn lemma_between(&self, from: NodeId, to: NodeId) {
        self.storage.lemma_between(from, to);
    }

    fn order(&self) -> (n: usize) {
        self.storage.order()
    }

    fn size(&self) -> (m: usize) {
        self.storage.size()
    }

    fn node_id(&self, key: &S::Key) -> (found: Option<NodeId>) {
        self.storage.node_id(key)
    }

    fn node_ids(&self) -> (ids: Vec<NodeId>) {
        self.storage.node_ids()
    }

    fn node_key(&self, id: NodeId) -> (key: &S::Key) {
        self.storage.node_key(id)
    }

    fn node_data(&self, id: NodeId) -> (data: &S::Data) {
        self.storage.node_data(id)
    }

    fn edge_ids(&self) -> (ids: Vec<EdgeId>) {
        self.storage.edge_ids()
    }

    fn endpoints(&self, e: EdgeId) -> (ends: (NodeId, NodeId)) {
        self.storage.endpoints(e)
    }

    fn edge_meta(&self, e: EdgeId) -> (meta: &S::EdgeMeta) {
        self.storage.edge_meta(e)
    }

    fn edges_between(&self, from: NodeId, to: NodeId) -> (ids: Vec<EdgeId>) {
        self.storage.edges_between(from, to)
    }

    fn neighborhood(&self, v: NodeId) -> (near: Vec<NodeId>) {
        self.storage.neighborhood(v)
    }

    fn successors(&self, v: NodeId) -> (next: Vec<NodeId>) {
        proof {
            self.storage.lemma_directed();
        }
        self.storage.successors(v)
    }

    fn predecessors(&self, v: NodeId) -> (prev: Vec<NodeId>) {
        proof {
            self.storage.lemma_directed();
        }
        self.storage.predecessors(v)
    }
}

impl<S: StorageRepresentation, GK: GraphKindMarker> Graph for DirectedGraph<S, GK> {
    type Storage = S;

    open spec fn backing(&self) -> S {
        self.storage
    }

    proof fn lemma_backing(&self) {
    }

    fn storage(&self) -> (storage: &S) {
        &self.storage
    }

    fn storage_mut(&mut self) -> (storage: &mut S) {
        &mut self.storage
    }
}

impl<S: StorageRepresentation + EdgeWeights, GK: GraphKindMarker> EdgeWeights for DirectedGraph<
    S,
    GK,
> {
    fn weight_of(&self, e: EdgeId) -> (w: Option<S::Weight>) {
        self.storage.weight_of(e)
    }
}

impl<S: MutableStorage, GK: GraphKindMarker> DirectedGraph<S, GK> {
    /// Inserts the arc `from -> to` if the kind `GK` admits it.
    ///
    /// A self-loop is refused unless the kind allows loops; otherwise an arc
    /// whose ordered pair is already joined is refused unless the kind allows
    /// parallel edges. A refused arc leaves the graph untouched.
    pub fn add_arc_checked(
        &mut self,
        from: NodeId,
        to: NodeId,
        meta: S::EdgeMeta,
        weight: Option<S::Weight>,
    ) -> (outcome: Result<EdgeId, EdgeRejection>)
        requires
            old(self).storage.wf(),
            from.0 < old(self).storage.keys().len(),
            to.0 < old(self).storage.keys().len(),
        ensures
            final(self).storage.wf(),
            final(self).storage.keys() == old(self).storage.keys(),
            final(self).storage.payloads() == old(self).storage.payloads(),
            outcome == Err::<EdgeId, EdgeRejection>(EdgeRejection::SelfLoop) <==> !GK::loops_allowed()
                && from == to,
            outcome == Err::<EdgeId, EdgeRejection>(EdgeRejection::ParallelEdge) <==> !(
            !GK::loops_allowed() && from == to) && !GK::parallel_allowed() && has_edge(
                old(self).storage.edges(),
                from,
                to,
            ),
            match outcome {
                Ok(id) => {
                    &&& id.0 == old(self).storage.edges().len()
                    &&& final(self).storage.edges() == old(self).storage.edges().push(
                        EdgeRecord { from, to, meta, weight },
                    )
                    &&& old(self).respects_kind() ==> final(self).respects_kind()
                },
                Err(_) => final(self).storage == old(self).storage,
            },
    {
        if !GK::allows_loops() && from.0 == to.0 {
            return Err(EdgeRejection::SelfLoop);
        }
        if !GK::allows_parallel() && has_edge_between(&self.storage, from, to) {
            return Err(EdgeRejection::ParallelEdge);
        }
        let id = self.storage.add_edge_by_id(from, to, meta, weight);
        Ok(id)
    }

    /// Inserts an unweighted arc.
    pub fn add_arc(&mut self, from: NodeId, to: NodeId, meta: S::EdgeMeta) -> (outcome: Result<
        EdgeId,
        EdgeRejection,
    >) where S::Weight: IsUnit
        requires
            old(self).storage.wf(),
            from.0 < old(self).storage.keys().len(),
            to.0 < old(self).storage.keys().len(),
        ensures
            final(self).storage.wf(),
            final(self).storage.keys() == old(self).storage.keys(),
            final(self).storage.payloads() == old(self).storage.payloads(),
            outcome == Err::<EdgeId, EdgeRejection>(EdgeRejection::SelfLoop) <==> !GK::loops_allowed()
                && from == to,
            outcome == Err::<EdgeId, EdgeRejection>(EdgeRejection::ParallelEdge) <==> !(
            !GK::loops_allowed() && from == to) && !GK::parallel_allowed() && has_edge(
                old(self).storage.edges(),
                from,
                to,
            ),
            match outcome {
                Ok(id) => {
                    &&& id.0 == old(self).storage.edges().len()
                    &&& final(self).storage.edges() == old(self).storage.edges().push(
                        EdgeRecord { from, to, meta, weight: None },
                    )
                    &&& old(self).respects_kind() ==> final(self).respects_kind()
                },
                Err(_) => final(self).storage == old(self).storage,
            },
    {
        self.add_arc_checked(from, to, meta, None)
    }

    /// Inserts a weighted arc.
    pub fn add_arc_with_weight(
        &mut self,
        from: NodeId,
        to: NodeId,
        meta: S::EdgeMeta,
        weight: S::Weight,
    ) -> (outcome: Result<EdgeId, EdgeRejection>) where S::Weight: NotUnit
        requires
            old(self).storage.wf(),
            from.0 < old(self).storage.keys().len(),
            to.0 < old(self).storage.keys().len(),
        ensures
            final(self).storage.wf(),
            final(self).storage.keys() == old(self).storage.keys(),
            final(self).storage.payloads() == old(self).storage.payloads(),
            outcome == Err::<EdgeId, EdgeRejection>(EdgeRejection::SelfLoop) <==> !GK::loops_allowed()
                && from == to,
            outcome == Err::<EdgeId, EdgeRejection>(EdgeRejection::ParallelEdge) <==> !(
            !GK::loops_allowed() && from == to) && !GK::parallel_allowed() && has_edge(
                old(self).storage.edges(),
                from,
                to,
            ),
            match outcome {
                Ok(id) => {
                    &&& id.0 == old(self).storage.edges().len()
                    &&& final(self).storage.edges() == old(self).storage.edges().push(
                        EdgeRecord { from, to, meta, weight: Some(weight) },
                    )
                    &&& old(self).respects_kind() ==> final(self).respects_kind()
                },
                Err(_) => final(self).storage == old(self).storage,
            },
    {
        self.add_arc_checked(from, to, meta, Some(weight))
    }
}

impl<S: MutableStorage, GK: GraphKindMarker> DirectedGraph<S, GK> {
    /// Interns both endpoints, then inserts the arc between them if the
    /// kind `GK` admits it. The nodes stay interned when the arc is refused.
    pub fn add_arc_by_key_checked(
        &mut self,
        from_key: S::Key,
        to_key: S::Key,
        from_data: S::Data,
        to_data: S::Data,
        meta: S::EdgeMeta,
        weight: Option<S::Weight>,
    ) -> (outcome: Result<EdgeId, EdgeRejection>)
        requires
            old(self).storage.wf(),
            old(self).storage.keys().len() + 1 < S::node_limit(),
        ensures
            final(self).storage.wf(),
            final(self).storage.keys() == keys_with(
                keys_with(old(self).storage.keys(), from_key@),
                to_key@,
            ),
            final(self).storage.payloads() == payloads_with(
                keys_with(old(self).storage.keys(), from_key@),
                payloads_with(
                    old(self).storage.keys(),
                    old(self).storage.payloads(),
                    from_key@,
                    from_data,
                ),
                to_key@,
                to_data,
            ),
            ({
                let from = NodeId(key_position(old(self).storage.keys(), from_key@) as usize);
                let to = NodeId(
                    key_position(keys_with(old(self).storage.keys(), from_key@), to_key@) as usize,
                );
                &&& outcome == Err::<EdgeId, EdgeRejection>(EdgeRejection::SelfLoop)
                    <==> !GK::loops_allowed() && from == to
                &&& outcome == Err::<EdgeId, EdgeRejection>(EdgeRejection::ParallelEdge) <==> !(
                !GK::loops_allowed() && from == to) && !GK::parallel_allowed() && has_edge(
                    old(self).storage.edges(),
                    from,
                    to,
                )
                &&& match outcome {
                    Ok(id) => {
                        &&& id.0 == old(self).storage.edges().len()
                        &&& final(self).storage.edges() == old(self).storage.edges().push(
                            EdgeRecord { from, to, meta, weight },
                        )
                        &&& old(self).respects_kind() ==> final(self).respects_kind()
                    },
                    Err(_) => final(self).storage.edges() == old(self).storage.edges(),
                }
            }),
    {
        proof {
            self.storage.lemma_wf();
        }
        let ghost keys0 = self.storage.keys();
        let from = self.storage.add_node(from_key, from_data);
        proof {
            self.storage.lemma_wf();
        }
        let ghost keys1 = self.storage.keys();
        let to = self.storage.add_node(to_key, to_data);
        proof {
            self.storage.lemma_wf();
            if keys0.contains(from_key@) {
                assert(0 <= keys0.index_of(from_key@) < keys0.len());
            }
            if keys1.contains(to_key@) {
                assert(0 <= keys1.index_of(to_key@) < keys1.len());
            }
        }
        self.add_arc_checked(from, to, meta, weight)
    }
}

/// Every record at an even position is followed by its mirror image: the
/// same pair in the opposite direction, with the same payload and weight.
pub open spec fn mirrored<E, W>(edges: Seq<EdgeRecord<E, W>>) -> bool {
    &&& edges.len() % 2 == 0
    &&& forall|k: int| 0 <= k < edges.len() / 2 ==> #[trigger] pair_mirrored(edges, k)
}

/// The records at the positions `2k` and `2k + 1` are mirror images.
pub open spec fn pair_mirrored<E, W>(edges: Seq<EdgeRecord<E, W>>, k: int) -> bool {
    &&& edges[2 * k].from == edges[2 * k + 1].to
    &&& edges[2 * k].to == edges[2 * k + 1].from
    &&& edges[2 * k].meta == edges[2 * k + 1].meta
    &&& edges[2 * k].weight == edges[2 * k + 1].weight
}

/// The record that stands for the edge number `k` of an undirected graph.
pub open spec fn logical<E, W>(edges: Seq<EdgeRecord<E, W>>, k: int) -> EdgeRecord<E, W> {
    edges[2 * k]
}

/// The two records join the same two nodes, in whatever direction.
pub open spec fn same_pair<E, W>(r: EdgeRecord<E, W>, s: EdgeRecord<E, W>) -> bool {
    (r.from == s.from && r.to == s.to) || (r.from == s.to && r.to == s.from)
}

/// No two edges of an undirected graph join the same two nodes.
pub open spec fn pairs_distinct<E, W>(edges: Seq<EdgeRecord<E, W>>) -> bool {
    forall|i: int, j: int|
        0 <= i < j < edges.len() / 2 ==> !same_pair(
            #[trigger] logical(edges, i),
            #[trigger] logical(edges, j),
        )
}

/// Appending a record and its mirror image keeps what a kind asks of the
/// records, provided the kind admits the new edge.
pub proof fn lemma_pair_keeps_kind<E, W>(
    before: Seq<EdgeRecord<E, W>>,
    a: NodeId,
    b: NodeId,
    meta: E,
    weight: Option<W>,
)
    ensures
        ({
            let after = before.push(EdgeRecord { from: a, to: b, meta, weight }).push(
                EdgeRecord { from: b, to: a, meta, weight },
            );
            &&& mirrored(before) ==> mirrored(after)
            &&& loop_free(before) && a != b ==> loop_free(after)
            &&& before.len() % 2 == 0 && pairs_distinct(before) && !has_edge(before, a, b)
                && !has_edge(before, b, a) ==> pairs_distinct(after)
        }),
{
    let after = before.push(EdgeRecord { from: a, to: b, meta, weight }).push(
        EdgeRecord { from: b, to: a, meta, weight },
    );
    if mirrored(before) {
        assert forall|k: int| 0 <= k < after.len() / 2 implies #[trigger] pair_mirrored(after, k) by {
            if k < before.len() / 2 {
                assert(pair_mirrored(before, k));
                assert(after[2 * k] == before[2 * k]);
                assert(after[2 * k + 1] == before[2 * k + 1]);
            }
        }
    }
    if before.len() % 2 == 0 && pairs_distinct(before) && !has_edge(before, a, b) && !has_edge(
        before,
        b,
        a,
    ) {
        assert forall|i: int, j: int| 0 <= i < j < after.len() / 2 implies !same_pair(
            #[trigger] logical(after, i),
            #[trigger] logical(after, j),
        ) by {
            assert(after[2 * i] == before[2 * i]);
            if j < before.len() / 2 {
                assert(after[2 * j] == before[2 * j]);
                assert(!same_pair(logical(before, i), logical(before, j)));
            }
        }
    }
}

/// An undirected graph of kind `GK` over the storage `S`. Every edge is
/// held as two records, one in each direction.
pub struct UndirectedGraph<S: StorageRepresentation, GK: GraphKindMarker> {
    pub storage: S,
    pub kind: PhantomData<GK>,
}

impl<S: StorageRepresentation, GK: GraphKindMarker> UndirectedGraph<S, GK> {
    /// The records come in mirrored pairs and obey the constraints of the
    /// kind `GK`.
    pub open spec fn respects_kind(&self) -> bool {
        &&& mirrored(self.storage.edges())
        &&& !GK::loops_allowed() ==> loop_free(self.storage.edges())
        &&& !GK::parallel_allowed() ==> pairs_distinct(self.storage.edges())
    }

    pub fn new(storage: S) -> (graph: Self)
        ensures
            graph.storage == storage,
    {
        Self { storage, kind: PhantomData }
    }

    /// The same graph over another storage representation.
    pub fn into_storage<TargetS>(self) -> (graph: UndirectedGraph<TargetS, GK>) where
        S: StorageConvert<TargetS>,
        TargetS: StorageRepresentation<
            Key = S::Key,
            Data = S::Data,
            EdgeMeta = S::EdgeMeta,
            Weight = S::Weight,
        >,

        requires
            self.storage.wf(),
            self.storage.convertible(),
        ensures
            graph.storage.wf(),
            graph.storage.keys() == self.storage.keys(),
            graph.storage.payloads() == self.storage.payloads(),
            graph.storage.edges() == self.storage.edges(),
    {
        let new = self.storage.convert();
        UndirectedGraph::new(new)
    }

    /// The directed graph with the same records.
    pub fn into_directed<TargetS>(self) -> (graph: DirectedGraph<TargetS, GK>) where
        S: StorageConvert<TargetS>,
        TargetS: StorageRepresentation<
            Key = S::Key,
            Data = S::Data,
            EdgeMeta = S::EdgeMeta,
            Weight = S::Weight,
        >,

        requires
            self.storage.wf(),
            self.storage.convertible(),
        ensures
            graph.storage.wf(),
            graph.storage.keys() == self.storage.keys(),
            graph.storage.payloads() == self.storage.payloads(),
            graph.storage.edges() == self.storage.edges(),
    {
        let new = self.storage.convert();
        DirectedGraph::new(new)
    }
}

impl<S: StorageRepresentation, GK: GraphKindMarker> GraphBase for UndirectedGraph<S, GK> {
    type Key = S::Key;

    type Data = S::Data;

    type EdgeMeta = S::EdgeMeta;

    type Weight = S::Weight;

    open spec fn wf(&self) -> bool {
        self.storage.wf()
    }

    open spec fn keys(&self) -> Seq<<S::Key as View>::V> {
        self.storage.keys()
    }

    open spec fn payloads(&self) -> Seq<S::Data> {
        self.storage.payloads()
    }

    open spec fn edges(&self) -> Seq<EdgeRecord<S::EdgeMeta, S::Weight>> {
        self.storage.edges()
    }

    open spec fn symmetric(&self) -> bool {
        true
    }

    open spec fn between(&self, from: NodeId, to: NodeId) -> Seq<EdgeId> {
        self.storage.between(from, to)
    }

    open spec fn neighbours(&self, v: NodeId) -> Seq<NodeId> {
        self.storage.neighbours(v)
    }

    /// Without direction, the successors are the neighbours.
    open spec fn heads(&self, v: NodeId) -> Seq<NodeId> {
        self.storage.neighbours(v)
    }

    /// Without direction, the predecessors are the neighbours.
    open spec fn tails(&self, v: NodeId) -> Seq<NodeId> {
        self.storage.neighbours(v)
    }

    proof fn lemma_wf(&self) {
        self.storage.lemma_wf();
    }

    proof fn lemma_between(&self, from: NodeId, to: NodeId) {
        self.storage.lemma_between(from, to);
    }

    fn order(&self) -> (n: usize) {
        self.storage.order()
    }

    fn size(&self) -> (m: usize) {
        self.storage.size()
    }

    fn node_id(&self, key: &S::Key) -> (found: Option<NodeId>) {
        self.storage.node_id(key)
    }

    fn node_ids(&self) -> (ids: Vec<NodeId>) {
        self.storage.node_ids()
    }

    fn node_key(&self, id: NodeId) -> (key: &S::Key) {
        self.storage.node_key(id)
    }

    fn node_data(&self, id: NodeId) -> (data: &S::Data) {
        self.storage.node_data(id)
    }

    fn edge_ids(&self) -> (ids: Vec<EdgeId>) {
        self.storage.edge_ids()
    }

    fn endpoints(&self, e: EdgeId) -> (ends: (NodeId, NodeId)) {
        self.storage.endpoints(e)
    }

    fn edge_meta(&self, e: EdgeId) -> (meta: &S::EdgeMeta) {
        self.storage.edge_meta(e)
    }

    fn edges_between(&self, from: NodeId, to: NodeId) -> (ids: Vec<EdgeId>) {
        self.storage.edges_between(from, to)
    }

    fn neighborhood(&self, v: NodeId) -> (near: Vec<NodeId>) {
        self.storage.neighborhood(v)
    }

    fn successors(&self, v: NodeId) -> (next: Vec<NodeId>) {
        self.storage.neighborhood(v)
    }

    fn predecessors(&self, v: NodeId) -> (prev: Vec<NodeId>) {
        self.storage.neighborhood(v)
    }
}

impl<S: StorageRepresentation, GK: GraphKindMarker> Graph for UndirectedGraph<S, GK> {
    type Storage = S;

    open spec fn backing(&self) -> S {
        self.storage
    }

    proof fn lemma_backing(&self) {
    }

    fn storage(&self) -> (storage: &S) {
        &self.storage
    }

    fn storage_mut(&mut self) -> (storage: &mut S) {
        &mut self.storage
    }
}

impl<S: StorageRepresentation + EdgeWeights, GK: GraphKindMarker> EdgeWeights for UndirectedGraph<
    S,
    GK,
> {
    fn weight_of(&self, e: EdgeId) -> (w: Option<S::Weight>) {
        self.storage.weight_of(e)
    }
}

/// What `add_edge_checked` promises, for the endpoints `a` and `b`.
pub open spec fn edge_added<S: MutableStorage, GK: GraphKindMarker>(
    before: UndirectedGraph<S, GK>,
    after: UndirectedGraph<S, GK>,
    a: NodeId,
    b: NodeId,
    meta: S::EdgeMeta,
    weight: Option<S::Weight>,
    outcome: Result<(EdgeId, EdgeId), EdgeRejection>,
) -> bool {
    &&& outcome == Err::<(EdgeId, EdgeId), EdgeRejection>(EdgeRejection::SelfLoop)
        <==> !GK::loops_allowed() && a == b
    &&& outcome == Err::<(EdgeId, EdgeId), EdgeRejection>(EdgeRejection::ParallelEdge) <==> !(
    !GK::loops_allowed() && a == b) && !GK::parallel_allowed() && (has_edge(
        before.storage.edges(),
        a,
        b,
    ) || has_edge(before.storage.edges(), b, a))
    &&& match outcome {
        Ok((first, second)) => {
            &&& first.0 == before.storage.edges().len()
            &&& second.0 == before.storage.edges().len() + 1
            &&& after.storage.edges() == before.storage.edges().push(
                EdgeRecord { from: a, to: b, meta, weight },
            ).push(EdgeRecord { from: b, to: a, meta, weight })
            &&& before.respects_kind() ==> after.respects_kind()
        },
        Err(_) => after.storage.edges() == before.storage.edges(),
    }
}

impl<S: MutableStorage, GK: GraphKindMarker> UndirectedGraph<S, GK> {
    /// Inserts the edge between `a` and `b`, as two mirrored records, if
    /// the kind `GK` admits it.
    ///
    /// A self-loop is refused unless the kind allows loops; otherwise an
    /// edge whose pair is already joined in either direction is refused
    /// unless the kind allows parallel edges. The check comes before the
    /// first insertion, so a refused edge leaves no record behind.
    pub fn add_edge_checked(
        &mut self,
        a: NodeId,
        b: NodeId,
        meta: S::EdgeMeta,
        weight: Option<S::Weight>,
    ) -> (outcome: Result<(EdgeId, EdgeId), EdgeRejection>)
        requires
            old(self).storage.wf(),
            a.0 < old(self).storage.keys().len(),
            b.0 < old(self).storage.keys().len(),
        ensures
            final(self).storage.wf(),
            final(self).storage.keys() == old(self).storage.keys(),
            final(self).storage.payloads() == old(self).storage.payloads(),
            edge_added(*old(self), *final(self), a, b, meta, weight, outcome),
    {
        if !GK::allows_loops() && a.0 == b.0 {
            return Err(EdgeRejection::SelfLoop);
        }
        if !GK::allows_parallel() && (has_edge_between(&self.storage, a, b) || has_edge_between(
            &self.storage,
            b,
            a,
        )) {
            return Err(EdgeRejection::ParallelEdge);
        }
        let ghost before = self.storage.edges();
        let first = self.storage.add_edge_by_id(a, b, meta, weight);
        let second = self.storage.add_edge_by_id(b, a, meta, weight);
        proof {
            lemma_pair_keeps_kind(before, a, b, meta, weight);
        }
        Ok((first, second))
    }

    /// Inserts an unweighted edge.
    pub fn add_edge(&mut self, a: NodeId, b: NodeId, meta: S::EdgeMeta) -> (outcome: Result<
        (EdgeId, EdgeId),
        EdgeRejection,
    >) where S::Weight: IsUnit
        requires
            old(self).storage.wf(),
            a.0 < old(self).storage.keys().len(),
            b.0 < old(self).storage.keys().len(),
        ensures
            final(self).storage.wf(),
            final(self).storage.keys() == old(self).storage.keys(),
            final(self).storage.payloads() == old(self).storage.payloads(),
            edge_added(*old(self), *final(self), a, b, meta, None, outcome),
    {
        self.add_edge_checked(a, b, meta, None)
    }

    /// Inserts a weighted edge.
    pub fn add_edge_with_weight(&mut self, a: NodeId, b: NodeId, meta: S::EdgeMeta, weight: S::Weight) -> (outcome:
        Result<(EdgeId, EdgeId), EdgeRejection>) where S::Weight: NotUnit
        requires
            old(self).storage.wf(),
            a.0 < old(self).storage.keys().len(),
            b.0 < old(self).storage.keys().len(),
        ensures
            final(self).storage.wf(),
            final(self).storage.keys() == old(self).storage.keys(),
            final(self).storage.payloads() == old(self).storage.payloads(),
            edge_added(*old(self), *final(self), a, b, meta, Some(weight), outcome),
    {
        self.add_edge_checked(a, b, meta, Some(weight))
    }

    /// Interns both endpoints, then inserts the edge between them if the
    /// kind `GK` admits it. The nodes stay interned when the edge is
    /// refused.
    pub fn add_edge_by_key_checked(
        &mut self,
        a_key: S::Key,
        b_key: S::Key,
        a_data: S::Data,
        b_data: S::Data,
        meta: S::EdgeMeta,
        weight: Option<S::Weight>,
    ) -> (outcome: Result<(EdgeId, EdgeId), EdgeRejection>)
        requires
            old(self).storage.wf(),
            old(self).storage.keys().len() + 1 < S::node_limit(),
        ensures
            final(self).storage.wf(),
            final(self).storage.keys() == keys_with(
                keys_with(old(self).storage.keys(), a_key@),
                b_key@,
            ),
            final(self).storage.payloads() == payloads_with(
                keys_with(old(self).storage.keys(), a_key@),
                payloads_with(old(self).storage.keys(), old(self).storage.payloads(), a_key@, a_data),
                b_key@,
                b_data,
            ),
            ({
                let a = NodeId(key_position(old(self).storage.keys(), a_key@) as usize);
                let b = NodeId(
                    key_position(keys_with(old(self).storage.keys(), a_key@), b_key@) as usize,
                );
                &&& outcome == Err::<(EdgeId, EdgeId), EdgeRejection>(EdgeRejection::SelfLoop)
                    <==> !GK::loops_allowed() && a == b
                &&& outcome == Err::<(EdgeId, EdgeId), EdgeRejection>(EdgeRejection::ParallelEdge)
                    <==> !(!GK::loops_allowed() && a == b) && !GK::parallel_allowed() && (has_edge(
                    old(self).storage.edges(),
                    a,
                    b,
                ) || has_edge(old(self).storage.edges(), b, a))
                &&& match outcome {
                    Ok((first, second)) => {
                        &&& first.0 == old(self).storage.edges().len()
                        &&& second.0 == old(self).storage.edges().len() + 1
                        &&& final(self).storage.edges() == old(self).storage.edges().push(
                            EdgeRecord { from: a, to: b, meta, weight },
                        ).push(EdgeRecord { from: b, to: a, meta, weight })
                        &&& old(self).respects_kind() ==> final(self).respects_kind()
                    },
                    Err(_) => final(self).storage.edges() == old(self).storage.edges(),
                }
            }),
    {
        proof {
            self.storage.lemma_wf();
        }
        let ghost keys0 = self.storage.keys();
        let a = self.storage.add_node(a_key, a_data);
        proof {
            self.storage.lemma_wf();
        }
        let ghost keys1 = self.storage.keys();
        let b = self.storage.add_node(b_key, b_data);
        proof {
            self.storage.lemma_wf();
            if keys0.contains(a_key@) {
                assert(0 <= keys0.index_of(a_key@) < keys0.len());
            }
            if keys1.contains(b_key@) {
                assert(0 <= keys1.index_of(b_key@) < keys1.len());
            }
        }
        self.add_edge_checked(a, b, meta, weight)
    }
}

/// The keys after interning each of `nodes` in turn.
pub open spec fn keys_listed<K: NodeKey>(nodes: Seq<K>, k: int) -> Seq<K::V>
    decreases k,
{
    if k <= 0 {
        Seq::empty()
    } else {
        keys_with(keys_listed(nodes, k - 1), nodes[k - 1]@)
    }
}

/// Keys and records of a graph under construction.
pub type Blueprint<K, W> = (Seq<<K as View>::V>, Seq<EdgeRecord<(), W>>);

/// What inserting the arc `item` by its keys makes of a directed graph
/// with the given keys and records: both ends are interned, and the arc is
/// appended unless the kind of the graph refuses it.
pub open spec fn arc_step<K: NodeKey, W>(
    state: Blueprint<K, W>,
    item: (K, K, W),
    loops: bool,
    parallel: bool,
) -> Result<Blueprint<K, W>, EdgeRejection> {
    let keys1 = keys_with(state.0, item.0@);
    let keys2 = keys_with(keys1, item.1@);
    let from = NodeId(key_position(state.0, item.0@) as usize);
    let to = NodeId(key_position(keys1, item.1@) as usize);
    if !loops && from == to {
        Err(EdgeRejection::SelfLoop)
    } else if !parallel && has_edge(state.1, from, to) {
        Err(EdgeRejection::ParallelEdge)
    } else {
        Ok((keys2, state.1.push(EdgeRecord { from, to, meta: (), weight: Some(item.2) })))
    }
}

/// What inserting the edge `item` by its keys makes of an undirected
/// graph: both ends are interned, and the edge is appended as two mirrored
/// records unless the kind of the graph refuses it.
pub open spec fn edge_step<K: NodeKey, W>(
    state: Blueprint<K, W>,
    item: (K, K, W),
    loops: bool,
    parallel: bool,
) -> Result<Blueprint<K, W>, EdgeRejection> {
    let keys1 = keys_with(state.0, item.0@);
    let keys2 = keys_with(keys1, item.1@);
    let a = NodeId(key_position(state.0, item.0@) as usize);
    let b = NodeId(key_position(keys1, item.1@) as usize);
    if !loops && a == b {
        Err(EdgeRejection::SelfLoop)
    } else if !parallel && (has_edge(state.1, a, b) || has_edge(state.1, b, a)) {
        Err(EdgeRejection::ParallelEdge)
    } else {
        Ok(
            (
                keys2,
                state.1.push(EdgeRecord { from: a, to: b, meta: (), weight: Some(item.2) }).push(
                    EdgeRecord { from: b, to: a, meta: (), weight: Some(item.2) },
                ),
            ),
        )
    }
}

/// The graph after inserting the first `k` of `items` one by one, or the
/// first refusal.
pub open spec fn built<K: NodeKey, W>(
    start: Seq<K::V>,
    items: Seq<(K, K, W)>,
    k: int,
    loops: bool,
    parallel: bool,
    undirected: bool,
) -> Result<Blueprint<K, W>, EdgeRejection>
    decreases k,
{
    if k <= 0 {
        Ok((start, Seq::empty()))
    } else {
        match built(start, items, k - 1, loops, parallel, undirected) {
            Ok(state) => if undirected {
                edge_step(state, items[k - 1], loops, parallel)
            } else {
                arc_step(state, items[k - 1], loops, parallel)
            },
            Err(refusal) => Err(refusal),
        }
    }
}

/// A refusal stays a refusal.
pub proof fn lemma_built_refused<K: NodeKey, W>(
    start: Seq<K::V>,
    items: Seq<(K, K, W)>,
    k: int,
    later: int,
    loops: bool,
    parallel: bool,
    undirected: bool,
)
    requires
        0 <= k <= later,
        built(start, items, k, loops, parallel, undirected) is Err,
    ensures
        built(start, items, later, loops, parallel, undirected) == built(
            start,
            items,
            k,
            loops,
            parallel,
            undirected,
        ),
    decreases later - k,
{
    if k < later {
        lemma_built_refused(start, items, k, later - 1, loops, parallel, undirected);
    }
}

/// Interns each of `nodes`, with an empty payload, into a fresh storage.
pub fn storage_of_nodes<S>(nodes: &Vec<S::Key>) -> (storage: S) where S: MutableStorage<Data = ()>
    requires
        nodes@.len() < S::node_limit(),
    ensures
        storage.wf(),
        storage.keys() == keys_listed(nodes@, nodes@.len() as int),
        storage.edges().len() == 0,
{
    let mut storage = S::with_node_capacity(nodes.len());
    proof {
        storage.lemma_wf();
        assert(storage.keys() =~= keys_listed(nodes@, 0));
    }
    let mut i: usize = 0;
    while i < nodes.len()
        invariant
            i <= nodes@.len(),
            nodes@.len() < S::node_limit(),
            storage.wf(),
            storage.edges().len() == 0,
            storage.keys() == keys_listed(nodes@, i as int),
            storage.keys().len() <= i,
        decreases nodes@.len() - i,
    {
        storage.add_node(nodes[i].key_clone(), ());
        i += 1;
    }
    storage
}

impl<S: MutableStorage<Data = (), EdgeMeta = ()>, GK: GraphKindMarker> DirectedGraph<S, GK> {
    /// The graph with the nodes `nodes`, then the arcs `edges` inserted
    /// one by one by their keys, each with its weight. Fails with the
    /// first refusal of an arc by the kind of the graph.
    pub fn from_isolated_nodes_and_edges(nodes: Vec<S::Key>, edges: Vec<(S::Key, S::Key, S::Weight)>) -> (outcome:
        Result<Self, EdgeRejection>)
        requires
            nodes@.len() + 2 * edges@.len() + 1 < S::node_limit(),
        ensures
            match (
                outcome,
                built(
                    keys_listed(nodes@, nodes@.len() as int),
                    edges@,
                    edges@.len() as int,
                    GK::loops_allowed(),
                    GK::parallel_allowed(),
                    false,
                ),
            ) {
                (Ok(graph), Ok(state)) => {
                    &&& graph.storage.wf()
                    &&& graph.storage.keys() == state.0
                    &&& graph.storage.edges() == state.1
                    &&& graph.respects_kind()
                },
                (Err(refusal), Err(expected)) => refusal == expected,
                _ => false,
            },
    {
        let storage: S = storage_of_nodes(&nodes);
        let mut graph = Self::new(storage);
        let ghost start = keys_listed(nodes@, nodes@.len() as int);
        let ghost loops = GK::loops_allowed();
        let ghost parallel = GK::parallel_allowed();
        let mut i: usize = 0;
        proof {
            lemma_keys_listed_len(nodes@, nodes@.len() as int);
            assert(graph.storage.edges() =~= Seq::empty());
        }
        while i < edges.len()
            invariant
                i <= edges@.len(),
                nodes@.len() + 2 * edges@.len() + 1 < S::node_limit(),
                start == keys_listed(nodes@, nodes@.len() as int),
                loops == GK::loops_allowed(),
                parallel == GK::parallel_allowed(),
                graph.storage.wf(),
                graph.respects_kind(),
                graph.storage.keys().len() <= nodes@.len() + 2 * i,
                built(start, edges@, i as int, loops, parallel, false) == Ok::<
                    Blueprint<S::Key, S::Weight>,
                    EdgeRejection,
                >((graph.storage.keys(), graph.storage.edges())),
            decreases edges@.len() - i,
        {
            let from_key = edges[i].0.key_clone();
            let to_key = edges[i].1.key_clone();
            let weight = edges[i].2;
            let ghost state = (graph.storage.keys(), graph.storage.edges());
            proof {
                assert(arc_step(state, edges@[i as int], loops, parallel) == arc_step(
                    state,
                    (from_key, to_key, weight),
                    loops,
                    parallel,
                ));
            }
            match graph.add_arc_by_key_checked(from_key, to_key, (), (), (), Some(weight)) {
                Ok(_) => {},
                Err(refusal) => {
                    proof {
                        assert(built(start, edges@, i + 1, loops, parallel, false) == Err::<
                            Blueprint<S::Key, S::Weight>,
                            EdgeRejection,
                        >(refusal));
                        lemma_built_refused(
                            start,
                            edges@,
                            i + 1,
                            edges@.len() as int,
                            loops,
                            parallel,
                            false,
                        );
                    }
                    return Err(refusal);
                },
            }
            i += 1;
        }
        Ok(graph)
    }

    /// The graph with the arcs `edges` inserted one by one by their keys,
    /// each with its weight. Fails with the first refusal of an arc by the
    /// kind of the graph.
    pub fn from_edges(edges: Vec<(S::Key, S::Key, S::Weight)>) -> (outcome: Result<Self, EdgeRejection>)
        requires
            2 * edges@.len() + 1 < S::node_limit(),
        ensures
            match (
                outcome,
                built(
                    Seq::<<S::Key as View>::V>::empty(),
                    edges@,
                    edges@.len() as int,
                    GK::loops_allowed(),
                    GK::parallel_allowed(),
                    false,
                ),
            ) {
                (Ok(graph), Ok(state)) => {
                    &&& graph.storage.wf()
                    &&& graph.storage.keys() == state.0
                    &&& graph.storage.edges() == state.1
                    &&& graph.respects_kind()
                },
                (Err(refusal), Err(expected)) => refusal == expected,
                _ => false,
            },
    {
        let nodes: Vec<S::Key> = Vec::new();
        Self::from_isolated_nodes_and_edges(nodes, edges)
    }
}

/// Interning adds at most one key at a time.
pub proof fn lemma_keys_listed_len<K: NodeKey>(nodes: Seq<K>, k: int)
    requires
        0 <= k,
    ensures
        keys_listed(nodes, k).len() <= k,
    decreases k,
{
    if k > 0 {
        lemma_keys_listed_len(nodes, k - 1);
    }
}

impl<S: MutableStorage<Data = (), EdgeMeta = ()>, GK: GraphKindMarker> UndirectedGraph<S, GK> {
    /// The graph with the nodes `nodes`, then the edges `edges` inserted
    /// one by one by their keys, each with its weight. Fails with the
    /// first refusal of an edge by the kind of the graph.
    pub fn from_isolated_nodes_and_edges(nodes: Vec<S::Key>, edges: Vec<(S::Key, S::Key, S::Weight)>) -> (outcome:
        Result<Self, EdgeRejection>)
        requires
            nodes@.len() + 2 * edges@.len() + 1 < S::node_limit(),
        ensures
            match (
                outcome,
                built(
                    keys_listed(nodes@, nodes@.len() as int),
                    edges@,
                    edges@.len() as int,
                    GK::loops_allowed(),
                    GK::parallel_allowed(),
                    true,
                ),
            ) {
                (Ok(graph), Ok(state)) => {
                    &&& graph.storage.wf()
                    &&& graph.storage.keys() == state.0
                    &&& graph.storage.edges() == state.1
                    &&& graph.respects_kind()
                },
                (Err(refusal), Err(expected)) => refusal == expected,
                _ => false,
            },
    {
        let storage: S = storage_of_nodes(&nodes);
        let mut graph = Self::new(storage);
        let ghost start = keys_listed(nodes@, nodes@.len() as int);
        let ghost loops = GK::loops_allowed();
        let ghost parallel = GK::parallel_allowed();
        let mut i: usize = 0;
        proof {
            lemma_keys_listed_len(nodes@, nodes@.len() as int);
            assert(graph.storage.edges() =~= Seq::empty());
        }
        while i < edges.len()
            invariant
                i <= edges@.len(),
                nodes@.len() + 2 * edges@.len() + 1 < S::node_limit(),
                start == keys_listed(nodes@, nodes@.len() as int),
                loops == GK::loops_allowed(),
                parallel == GK::parallel_allowed(),
                graph.storage.wf(),
                graph.respects_kind(),
                graph.storage.keys().len() <= nodes@.len() + 2 * i,
                built(start, edges@, i as int, loops, parallel, true) == Ok::<
                    Blueprint<S::Key, S::Weight>,
                    EdgeRejection,
                >((graph.storage.keys(), graph.storage.edges())),
            decreases edges@.len() - i,
        {
            let a_key = edges[i].0.key_clone();
            let b_key = edges[i].1.key_clone();
            let weight = edges[i].2;
            let ghost state = (graph.storage.keys(), graph.storage.edges());
            proof {
                assert(edge_step(state, edges@[i as int], loops, parallel) == edge_step(
                    state,
                    (a_key, b_key, weight),
                    loops,
                    parallel,
                ));
            }
            match graph.add_edge_by_key_checked(a_key, b_key, (), (), (), Some(weight)) {
                Ok(_) => {},
                Err(refusal) => {
                    proof {
                        assert(built(start, edges@, i + 1, loops, parallel, true) == Err::<
                            Blueprint<S::Key, S::Weight>,
                            EdgeRejection,
                        >(refusal));
                        lemma_built_refused(
                            start,
                            edges@,
                            i + 1,
                            edges@.len() as int,
                            loops,
                            parallel,
                            true,
                        );
                    }
                    return Err(refusal);
                },
            }
            i += 1;
        }
        Ok(graph)
    }

    /// The graph with the edges `edges` inserted one by one by their keys,
    /// each with its weight. Fails with the first refusal of an edge by
    /// the kind of the graph.
    pub fn from_edges(edges: Vec<(S::Key, S::Key, S::Weight)>) -> (outcome: Result<Self, EdgeRejection>)
        requires
            2 * edges@.len() + 1 < S::node_limit(),
        ensures
            match (
                outcome,
                built(
                    Seq::<<S::Key as View>::V>::empty(),
                    edges@,
                    edges@.len() as int,
                    GK::loops_allowed(),
                    GK::parallel_allowed(),
                    true,
                ),
            ) {
                (Ok(graph), Ok(state)) => {
                    &&& graph.storage.wf()
                    &&& graph.storage.keys() == state.0
                    &&& graph.storage.edges() == state.1
                    &&& graph.respects_kind()
                },
                (Err(refusal), Err(expected)) => refusal == expected,
                _ => false,
            },
    {
        let nodes: Vec<S::Key> = Vec::new();
        Self::from_isolated_nodes_and_edges(nodes, edges)
    }
}

} // verus!
