//! In- and out-adjacency lists: for every node the records that leave it
//! and the records that enter it.

use vstd::prelude::*;
use crate::base::{EdgeId, NodeId, NodeKey};
use crate::interner::{key_position, keys_with, payloads_with, NodeInterner};
use crate::storage::graph_definition::{endpoints_below, EdgeRecord, GraphDefinition};
use indexmap::IndexSet;
use crate::insertion_set::{insert_all, into_nodes, set_items, set_new, without_repeats};
use crate::storage::adjacency_list::{
    clear_rows, empty_rows, lemma_rows_empty, lemma_rows_grow, lemma_rows_push, push_row,
    rows_match,
};
use crate::storage::scan::{
    edges_listed, heads_from, lemma_ends_of_matching, lemma_no_heads, nodes_listed,
    storage_from_lists, tails_to,
    copy_into, copy_records, edge_id_range, far_ends, ids_matching, lemma_ids_matching,
    node_id_range,
};
use crate::traits::{
    has_edge, EdgeWeights, GraphBase, MutableStorage, StorageConvert, StorageRepresentation,
};

verus! {

/// The edge list together with two lists for every node: the ids of the
/// records that leave it and the ids of the records that enter it.
pub struct AdjacencyListIn<Key: NodeKey, Data: Copy, EdgeMeta: Copy, Weight: Copy> {
    pub nodes: NodeInterner<Key, Data>,
    pub edges: Vec<EdgeRecord<EdgeMeta, Weight>>,
    pub out_adj: Vec<Vec<EdgeId>>,
    pub in_adj: Vec<Vec<EdgeId>>,
}

/// The ids of `ids` whose records enter `to`, in the order of `ids`.
pub open spec fn kept<E, W>(ids: Seq<EdgeId>, edges: Seq<EdgeRecord<E, W>>, to: NodeId) -> Seq<EdgeId>
    decreases ids.len(),
{
    if ids.len() == 0 {
        Seq::empty()
    } else {
        let rest = kept(ids.drop_last(), edges, to);
        if edges[ids.last().0 as int].to == to {
            rest.push(ids.last())
        } else {
            rest
        }
    }
}

/// `kept` holds exactly the ids of `ids` whose records enter `to`, and
/// none twice if `ids` holds none twice.
pub proof fn lemma_kept<E, W>(ids: Seq<EdgeId>, edges: Seq<EdgeRecord<E, W>>, to: NodeId)
    ensures
        forall|e: EdgeId|
            #[trigger] kept(ids, edges, to).contains(e) <==> ids.contains(e) && edges[e.0 as int].to
                == to,
        ids.no_duplicates() ==> kept(ids, edges, to).no_duplicates(),
    decreases ids.len(),
{
    let out = kept(ids, edges, to);
    if ids.len() > 0 {
        let front = ids.drop_last();
        let rest = kept(front, edges, to);
        lemma_kept(front, edges, to);
        assert forall|e: EdgeId|
            #[trigger] out.contains(e) <==> ids.contains(e) && edges[e.0 as int].to == to by {
            if edges[ids.last().0 as int].to == to {
                crate::storage::scan::lemma_push_contains(rest, ids.last(), e);
            }
            if front.contains(e) {
                let i = choose|i: int| 0 <= i < front.len() && front[i] == e;
                assert(ids[i] == e);
            }
            if ids.contains(e) {
                let i = choose|i: int| 0 <= i < ids.len() && ids[i] == e;
                if i < front.len() {
                    assert(front[i] == e);
                }
            }
        }
        if ids.no_duplicates() {
            assert(front.no_duplicates());
            if edges[ids.last().0 as int].to == to {
                assert(!front.contains(ids.last())) by {
                    if front.contains(ids.last()) {
                        let i = choose|i: int| 0 <= i < front.len() && front[i] == ids.last();
                        assert(ids[i] == ids[ids.len() - 1]);
                    }
                }
                assert forall|i: int, j: int|
                    0 <= i < out.len() && 0 <= j < out.len() && i != j implies out[i] != out[j] by {
                    if i < rest.len() {
                        assert(rest.contains(rest[i]));
                    }
                    if j < rest.len() {
                        assert(rest.contains(rest[j]));
                    }
                }
            }
        }
    }
}

/// The ids of `ids` whose records enter `to`.
pub fn keep_entering<E, W>(ids: &Vec<EdgeId>, edges: &Vec<EdgeRecord<E, W>>, to: NodeId) -> (out: Vec<
    EdgeId,
>)
    requires
        forall|i: int| 0 <= i < ids@.len() ==> (#[trigger] ids@[i]).0 < edges@.len(),
    ensures
        out@ == kept(ids@, edges@, to),
{
    let mut out: Vec<EdgeId> = Vec::new();
    let mut i: usize = 0;
    while i < ids.len()
        invariant
            i <= ids@.len(),
            forall|k: int| 0 <= k < ids@.len() ==> (#[trigger] ids@[k]).0 < edges@.len(),
            out@ == kept(ids@.take(i as int), edges@, to),
        decreases ids@.len() - i,
    {
        proof {
            assert(ids@.take(i + 1).drop_last() =~= ids@.take(i as int));
        }
        if edges[ids[i].0].to.0 == to.0 {
            out.push(ids[i]);
        }
        i += 1;
    }
    proof {
        assert(ids@.take(i as int) =~= ids@);
    }
    out
}

impl<Key: NodeKey, Data: Copy, EdgeMeta: Copy, Weight: Copy> AdjacencyListIn<
    Key,
    Data,
    EdgeMeta,
    Weight,
> {
    /// Keys are unique, every record joins two existing nodes, and every
    /// node has its rows of leaving and of entering records.
    pub open spec fn inv(&self) -> bool {
        &&& self.nodes.wf()
        &&& endpoints_below(self.edges@, self.nodes.records@.len() as int)
        &&& self.out_adj@.len() == self.nodes.records@.len()
        &&& self.in_adj@.len() == self.nodes.records@.len()
        &&& rows_match(self.out_adj@, self.edges@, true)
        &&& rows_match(self.in_adj@, self.edges@, false)
    }

    /// The row of leaving records of `v` holds, each once, the ids of
    /// the records that leave `v`.
    pub proof fn lemma_out_row(&self, v: NodeId)
        requires
            self.inv(),
            v.0 < self.nodes.records@.len(),
        ensures
            self.out_adj@[v.0 as int]@.no_duplicates(),
            forall|i: int|
                0 <= i < self.out_adj@[v.0 as int]@.len() ==> (
                #[trigger] self.out_adj@[v.0 as int]@[i]).0 < self.edges@.len()
                    && self.edges@[self.out_adj@[v.0 as int]@[i].0 as int].from == v,
            forall|e: EdgeId|
                #[trigger] self.out_adj@[v.0 as int]@.contains(e) <==> e.0 < self.edges@.len()
                    && self.edges@[e.0 as int].from == v,
    {
        assert(self.edges@.len() == self.edges.len());
        let row = self.out_adj@[v.0 as int]@;
        lemma_ids_matching(self.edges@, Some(v), None);
        assert(NodeId(v.0 as int as usize) == v);
        assert(row == ids_matching(self.edges@, Some(v), None));
        assert forall|i: int| 0 <= i < row.len() implies (#[trigger] row[i]).0 < self.edges@.len()
            && self.edges@[row[i].0 as int].from == v by {
            assert(row.contains(row[i]));
        }
    }

    /// The row of entering records of `v` holds, each once, the ids of
    /// the records that enter `v`.
    pub proof fn lemma_in_row(&self, v: NodeId)
        requires
            self.inv(),
            v.0 < self.nodes.records@.len(),
        ensures
            self.in_adj@[v.0 as int]@.no_duplicates(),
            forall|i: int|
                0 <= i < self.in_adj@[v.0 as int]@.len() ==> (
                #[trigger] self.in_adj@[v.0 as int]@[i]).0 < self.edges@.len()
                    && self.edges@[self.in_adj@[v.0 as int]@[i].0 as int].to == v,
            forall|e: EdgeId|
                #[trigger] self.in_adj@[v.0 as int]@.contains(e) <==> e.0 < self.edges@.len()
                    && self.edges@[e.0 as int].to == v,
    {
        assert(self.edges@.len() == self.edges.len());
        let row = self.in_adj@[v.0 as int]@;
        lemma_ids_matching(self.edges@, None, Some(v));
        assert(NodeId(v.0 as int as usize) == v);
        assert(row == ids_matching(self.edges@, None, Some(v)));
        assert forall|i: int| 0 <= i < row.len() implies (#[trigger] row[i]).0 < self.edges@.len()
            && self.edges@[row[i].0 as int].to == v by {
            assert(row.contains(row[i]));
        }
    }

    pub fn new() -> (list: Self)
        ensures
            list.inv(),
            list.nodes.records@.len() == 0,
            list.edges@.len() == 0,
    {
        Self {
            nodes: NodeInterner::new(),
            edges: Vec::new(),
            out_adj: Vec::new(),
            in_adj: Vec::new(),
        }
    }

    /// The adjacency list with the nodes and records of `def`.
    pub fn from_graphdef(def: GraphDefinition<Key, Data, EdgeMeta, Weight>) -> (list: Self)
        requires
            def.inv(),
        ensures
            list.inv(),
            list.nodes == def.nodes,
            list.edges@ == def.edges@,
    {
        let n = def.nodes.len();
        let mut out_adj = empty_rows(n);
        let mut in_adj = empty_rows(n);
        let mut i: usize = 0;
        proof {
            lemma_rows_empty::<EdgeMeta, Weight>(out_adj@, true);
            lemma_rows_empty::<EdgeMeta, Weight>(in_adj@, false);
            assert(def.edges@.take(0) =~= Seq::<EdgeRecord<EdgeMeta, Weight>>::empty());
            assert(def.edges@.len() == def.edges.len());
        }
        while i < def.edges.len()
            invariant
                def.inv(),
                n == def.nodes.records@.len(),
                i <= def.edges@.len(),
                out_adj@.len() == n,
                in_adj@.len() == n,
                rows_match(out_adj@, def.edges@.take(i as int), true),
                rows_match(in_adj@, def.edges@.take(i as int), false),
            decreases def.edges@.len() - i,
        {
            let from = def.edges[i].from.0;
            let to = def.edges[i].to.0;
            let ghost before_out = out_adj@;
            let ghost before_in = in_adj@;
            out_adj[from].push(EdgeId(i));
            in_adj[to].push(EdgeId(i));
            proof {
                lemma_rows_push(
                    before_out,
                    out_adj@,
                    def.edges@.take(i as int),
                    def.edges@[i as int],
                    true,
                );
                lemma_rows_push(
                    before_in,
                    in_adj@,
                    def.edges@.take(i as int),
                    def.edges@[i as int],
                    false,
                );
                assert(def.edges@.take(i as int).push(def.edges@[i as int]) =~= def.edges@.take(
                    i + 1,
                ));
            }
            i += 1;
        }
        proof {
            assert(def.edges@.take(i as int) =~= def.edges@);
        }
        Self { nodes: def.nodes, edges: def.edges, out_adj, in_adj }
    }

    /// The adjacency list with the nodes `nodes`, then the records `edges`
    /// inserted by the keys of their ends; an end that is no node yet
    /// becomes one with the payload `filler`.
    pub fn from_edge_list(
        nodes: Vec<(Key, Data)>,
        edges: Vec<(Key, Key, EdgeMeta, Option<Weight>)>,
        filler: Data,
    ) -> (list: Self)
        requires
            nodes@.len() + 2 * edges@.len() + 1 < usize::MAX,
        ensures
            list.inv(),
            (list.nodes.keys(), list.nodes.payloads(), list.edges@) == edges_listed(
                nodes_listed::<Key, Data, EdgeMeta, Weight>(nodes@, nodes@.len() as int),
                edges@,
                filler,
                edges@.len() as int,
            ),
    {
        storage_from_lists(nodes, edges, filler)
    }

    /// The edge list with the nodes and records of the adjacency list.
    pub fn to_graph_def(&self) -> (def: GraphDefinition<Key, Data, EdgeMeta, Weight>)
        requires
            self.inv(),
        ensures
            def.inv(),
            def.nodes.keys() == self.nodes.keys(),
            def.nodes.payloads() == self.nodes.payloads(),
            def.edges@ == self.edges@,
    {
        let nodes = self.nodes.duplicate();
        proof {
            self.nodes.lemma_keys_distinct();
            nodes.lemma_keys_distinct();
        }
        GraphDefinition { nodes, edges: copy_records(&self.edges) }
    }
}

impl<Key: NodeKey, Data: Copy, EdgeMeta: Copy, Weight: Copy> GraphBase for AdjacencyListIn<
    Key,
    Data,
    EdgeMeta,
    Weight,
> {
    type Key = Key;

    type Data = Data;

    type EdgeMeta = EdgeMeta;

    type Weight = Weight;

    open spec fn wf(&self) -> bool {
        self.inv()
    }

    open spec fn keys(&self) -> Seq<Key::V> {
        self.nodes.keys()
    }

    open spec fn payloads(&self) -> Seq<Data> {
        self.nodes.payloads()
    }

    open spec fn edges(&self) -> Seq<EdgeRecord<EdgeMeta, Weight>> {
        self.edges@
    }

    open spec fn symmetric(&self) -> bool {
        false
    }

    open spec fn between(&self, from: NodeId, to: NodeId) -> Seq<EdgeId> {
        if from.0 < self.out_adj@.len() {
            kept(self.out_adj@[from.0 as int]@, self.edges@, to)
        } else {
            Seq::empty()
        }
    }

    /// The successors and then the predecessors of `v`, each node at its
    /// first occurrence only.
    open spec fn neighbours(&self, v: NodeId) -> Seq<NodeId> {
        without_repeats(heads_from(self.edges@, v), tails_to(self.edges@, v))
    }

    /// One head for each record that leaves `v`, in record order.
    open spec fn heads(&self, v: NodeId) -> Seq<NodeId> {
        heads_from(self.edges@, v)
    }

    /// One tail for each record that enters `v`, in record order.
    open spec fn tails(&self, v: NodeId) -> Seq<NodeId> {
        tails_to(self.edges@, v)
    }

    proof fn lemma_wf(&self) {
        self.nodes.lemma_keys_distinct();
        assert(self.edges@.len() == self.edges.len());
        assert(self.nodes.records@.len() == self.nodes.records.len());
    }

    proof fn lemma_between(&self, from: NodeId, to: NodeId) {
        let ids = self.between(from, to);
        if from.0 < self.out_adj@.len() {
            self.lemma_out_row(from);
            let row = self.out_adj@[from.0 as int]@;
            lemma_kept(row, self.edges@, to);
            assert forall|i: int| 0 <= i < ids.len() implies {
                let e = #[trigger] ids[i];
                &&& e.0 < self.edges@.len()
                &&& self.edges@[e.0 as int].from == from
                &&& self.edges@[e.0 as int].to == to
            } by {
                assert(ids.contains(ids[i]));
                assert(row.contains(ids[i]));
            }
            if has_edge(self.edges@, from, to) {
                let e = choose|e: int|
                    0 <= e < self.edges@.len() && (#[trigger] self.edges@[e]).from == from
                        && self.edges@[e].to == to;
                assert(self.edges@.len() == self.edges.len());
                assert(row.contains(EdgeId(e as usize)));
                assert(ids.contains(EdgeId(e as usize)));
            }
            if ids.len() > 0 {
                assert(ids.contains(ids[0]));
                assert(self.edges@[ids[0].0 as int].from == from);
            }
        } else {
            if has_edge(self.edges@, from, to) {
                let e = choose|e: int|
                    0 <= e < self.edges@.len() && (#[trigger] self.edges@[e]).from == from
                        && self.edges@[e].to == to;
                assert(self.edges@[e].from.0 < self.nodes.records@.len());
            }
        }
    }

    fn order(&self) -> (n: usize) {
        self.nodes.len()
    }

    fn size(&self) -> (m: usize) {
        self.edges.len()
    }

    fn node_id(&self, key: &Key) -> (found: Option<NodeId>) {
        let found = self.nodes.get_id(key);
        proof {
            if let Some(id) = found {
                assert(self.nodes.keys()[id.0 as int] == self.nodes.records@[id.0 as int].key@);
            }
        }
        found
    }

    fn node_ids(&self) -> (ids: Vec<NodeId>) {
        node_id_range(self.nodes.len())
    }

    fn node_key(&self, id: NodeId) -> (key: &Key) {
        &self.nodes.get(id).key
    }

    fn node_data(&self, id: NodeId) -> (data: &Data) {
        &self.nodes.get(id).data
    }

    fn edge_ids(&self) -> (ids: Vec<EdgeId>) {
        edge_id_range(self.edges.len())
    }

    fn endpoints(&self, e: EdgeId) -> (ends: (NodeId, NodeId)) {
        let r = &self.edges[e.0];
        (r.from, r.to)
    }

    fn edge_meta(&self, e: EdgeId) -> (meta: &EdgeMeta) {
        &self.edges[e.0].meta
    }

    fn edges_between(&self, from: NodeId, to: NodeId) -> (ids: Vec<EdgeId>) {
        if from.0 >= self.out_adj.len() {
            return Vec::new();
        }
        proof {
            self.lemma_out_row(from);
        }
        keep_entering(&self.out_adj[from.0], &self.edges, to)
    }

    fn neighborhood(&self, v: NodeId) -> (near: Vec<NodeId>) {
        let next = self.successors(v);
        let prev = self.predecessors(v);
        let mut set = set_new();
        insert_all(&mut set, &next);
        insert_all(&mut set, &prev);
        let near = into_nodes(set);
        proof {
            assert forall|u: NodeId|
                near@.contains(u) <==> has_edge(self.edges@, v, u) || has_edge(self.edges@, u, v) by {
                assert(NodeId(u.0) == u);
            }
        }
        near
    }

    fn successors(&self, v: NodeId) -> (next: Vec<NodeId>) {
        if v.0 >= self.out_adj.len() {
            let next: Vec<NodeId> = Vec::new();
            proof {
                lemma_no_heads(self.edges@, v, self.nodes.records@.len() as int);
                assert forall|u: NodeId| !has_edge(self.edges@, v, u) by {
                    if has_edge(self.edges@, v, u) {
                        let i = choose|i: int|
                            0 <= i < self.edges@.len() && (#[trigger] self.edges@[i]).from == v
                                && self.edges@[i].to == u;
                        assert(self.edges@[i].from.0 < self.nodes.records@.len());
                    }
                }
            }
            return next;
        }
        proof {
            self.lemma_out_row(v);
        }
        let next = far_ends(&self.edges, &self.out_adj[v.0], true);
        proof {
            assert(self.edges@.len() == self.edges.len());
            lemma_ends_of_matching(self.edges@, v);
            let ids = self.out_adj@[v.0 as int]@;
            assert(self.edges@.len() == self.edges.len());
            assert forall|u: NodeId| next@.contains(u) <==> has_edge(self.edges@, v, u) by {
                if next@.contains(u) {
                    let i = choose|i: int| 0 <= i < next@.len() && next@[i] == u;
                    assert(ids.contains(ids[i]));
                    assert(self.edges@[ids[i].0 as int].from == v);
                }
                if has_edge(self.edges@, v, u) {
                    let e = choose|e: int|
                        0 <= e < self.edges@.len() && (#[trigger] self.edges@[e]).from == v
                            && self.edges@[e].to == u;
                    assert(ids.contains(EdgeId(e as usize)));
                    let i = choose|i: int| 0 <= i < ids.len() && ids[i] == EdgeId(e as usize);
                    assert(next@[i] == u);
                }
            }
        }
        next
    }

    fn predecessors(&self, v: NodeId) -> (prev: Vec<NodeId>) {
        if v.0 >= self.in_adj.len() {
            let prev: Vec<NodeId> = Vec::new();
            proof {
                lemma_no_heads(self.edges@, v, self.nodes.records@.len() as int);
                assert forall|u: NodeId| !has_edge(self.edges@, u, v) by {
                    if has_edge(self.edges@, u, v) {
                        let i = choose|i: int|
                            0 <= i < self.edges@.len() && (#[trigger] self.edges@[i]).from == u
                                && self.edges@[i].to == v;
                        assert(self.edges@[i].to.0 < self.nodes.records@.len());
                    }
                }
            }
            return prev;
        }
        proof {
            self.lemma_in_row(v);
        }
        let prev = far_ends(&self.edges, &self.in_adj[v.0], false);
        proof {
            assert(self.edges@.len() == self.edges.len());
            lemma_ends_of_matching(self.edges@, v);
            let ids = self.in_adj@[v.0 as int]@;
            assert(self.edges@.len() == self.edges.len());
            assert forall|u: NodeId| prev@.contains(u) <==> has_edge(self.edges@, u, v) by {
                if prev@.contains(u) {
                    let i = choose|i: int| 0 <= i < prev@.len() && prev@[i] == u;
                    assert(ids.contains(ids[i]));
                    assert(self.edges@[ids[i].0 as int].to == v);
                }
                if has_edge(self.edges@, u, v) {
                    let e = choose|e: int|
                        0 <= e < self.edges@.len() && (#[trigger] self.edges@[e]).from == u
                            && self.edges@[e].to == v;
                    assert(ids.contains(EdgeId(e as usize)));
                    let i = choose|i: int| 0 <= i < ids.len() && ids[i] == EdgeId(e as usize);
                    assert(prev@[i] == u);
                }
            }
        }
        prev
    }
}

impl<Key: NodeKey, Data: Copy, EdgeMeta: Copy, Weight: Copy> EdgeWeights for AdjacencyListIn<
    Key,
    Data,
    EdgeMeta,
    Weight,
> {
    fn weight_of(&self, e: EdgeId) -> (w: Option<Weight>) {
        if e.0 < self.edges.len() {
            self.edges[e.0].weight
        } else {
            None
        }
    }
}

impl<Key: NodeKey, Data: Copy, EdgeMeta: Copy, Weight: Copy> StorageRepresentation for AdjacencyListIn<
    Key,
    Data,
    EdgeMeta,
    Weight,
> {
    open spec fn node_limit() -> nat {
        usize::MAX as nat
    }

    proof fn lemma_directed(&self) {
        assert(self.nodes.records@.len() == self.nodes.records.len());
    }

    fn with_node_capacity(capacity: usize) -> (storage: Self) {
        Self {
            nodes: NodeInterner::new(),
            edges: Vec::new(),
            out_adj: Vec::with_capacity(capacity),
            in_adj: Vec::with_capacity(capacity),
        }
    }
}

impl<Key: NodeKey, Data: Copy, EdgeMeta: Copy, Weight: Copy> MutableStorage for AdjacencyListIn<
    Key,
    Data,
    EdgeMeta,
    Weight,
> {
    fn add_node(&mut self, key: Key, data: Data) -> (id: NodeId) {
        let ghost before_out = self.out_adj@;
        let ghost before_in = self.in_adj@;
        let id = self.nodes.intern(key, data);
        if self.out_adj.len() <= id.0 {
            push_row(&mut self.out_adj);
            push_row(&mut self.in_adj);
            proof {
                assert(self.out_adj@.len() == self.out_adj.len());
                assert(self.in_adj@.len() == self.in_adj.len());
                lemma_rows_grow(before_out, self.out_adj@, self.edges@, true);
                lemma_rows_grow(before_in, self.in_adj@, self.edges@, false);
            }
        }
        proof {
            old(self).nodes.lemma_keys_distinct();
            if old(self).nodes.keys().contains(key@) {
                assert(0 <= old(self).nodes.keys().index_of(key@) < old(self).nodes.keys().len());
            }
        }
        id
    }

    fn add_edge_by_id(
        &mut self,
        from: NodeId,
        to: NodeId,
        meta: EdgeMeta,
        weight: Option<Weight>,
    ) -> (id: EdgeId) {
        let ghost before_out = self.out_adj@;
        let ghost before_in = self.in_adj@;
        let ghost edges = self.edges@;
        proof {
            self.nodes.lemma_keys_distinct();
            assert(self.nodes.records@.len() == self.nodes.records.len());
        }
        let id = EdgeId(self.edges.len());
        self.out_adj[from.0].push(id);
        self.in_adj[to.0].push(id);
        self.edges.push(EdgeRecord::new(from, to, meta, weight));
        proof {
            let r = EdgeRecord { from, to, meta, weight };
            lemma_rows_push(before_out, self.out_adj@, edges, r, true);
            lemma_rows_push(before_in, self.in_adj@, edges, r, false);
        }
        id
    }

    fn add_edge_by_key(
        &mut self,
        from_key: Key,
        to_key: Key,
        from_data: Data,
        to_data: Data,
        meta: EdgeMeta,
        weight: Option<Weight>,
    ) -> (id: EdgeId) {
        let from = self.add_node(from_key, from_data);
        proof {
            self.nodes.lemma_keys_distinct();
        }
        let ghost mid = self.nodes.keys();
        let to = self.add_node(to_key, to_data);
        proof {
            self.nodes.lemma_keys_distinct();
            if old(self).nodes.keys().contains(from_key@) {
                assert(0 <= old(self).nodes.keys().index_of(from_key@) < old(self).nodes.keys().len());
            }
            if mid.contains(to_key@) {
                assert(0 <= mid.index_of(to_key@) < mid.len());
            }
        }
        self.add_edge_by_id(from, to, meta, weight)
    }

    fn clear_edges(&mut self) {
        self.edges.clear();
        clear_rows(&mut self.out_adj);
        clear_rows(&mut self.in_adj);
        proof {
            lemma_rows_empty::<EdgeMeta, Weight>(self.out_adj@, true);
            lemma_rows_empty::<EdgeMeta, Weight>(self.in_adj@, false);
            assert(self.edges@ =~= Seq::<EdgeRecord<EdgeMeta, Weight>>::empty());
        }
    }
}

impl<Key, Data, EdgeMeta, Weight, Target> StorageConvert<Target> for AdjacencyListIn<
    Key,
    Data,
    EdgeMeta,
    Weight,
> where
    Key: NodeKey,
    Data: Copy,
    EdgeMeta: Copy,
    Weight: Copy,
    Target: MutableStorage<Key = Key, Data = Data, EdgeMeta = EdgeMeta, Weight = Weight>,
 {
    open spec fn convertible(&self) -> bool {
        self.nodes.records@.len() <= Target::node_limit()
    }

    fn convert(&self) -> (target: Target) {
        proof {
            self.nodes.lemma_keys_distinct();
        }
        copy_into(self)
    }
}

} // verus!
