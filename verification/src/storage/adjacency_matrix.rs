//! Dense adjacency matrix: for every ordered pair of nodes the id of the
//! last record that joins it.

use vstd::prelude::*;
use indexmap::IndexSet;
use crate::base::{EdgeId, NodeId, NodeKey};
use crate::insertion_set::{insert_all, into_nodes, set_items, set_new, without_repeats};
use crate::interner::{key_position, keys_with, payloads_with, NodeInterner};
use crate::storage::graph_definition::{endpoints_below, EdgeRecord, GraphDefinition};
use crate::storage::scan::{copy_into, copy_records, edge_id_range, node_id_range};
use crate::traits::{
    has_edge, EdgeWeights, GraphBase, MutableStorage, StorageConvert, StorageRepresentation,
};

verus! {

/// The id of the last record that leads from `from` to `to`, if any.
pub open spec fn last_between<E, W>(edges: Seq<EdgeRecord<E, W>>, from: NodeId, to: NodeId) -> Option<
    EdgeId,
>
    decreases edges.len(),
{
    if edges.len() == 0 {
        None
    } else if edges.last().from == from && edges.last().to == to {
        Some(EdgeId((edges.len() - 1) as usize))
    } else {
        last_between(edges.drop_last(), from, to)
    }
}

/// What `last_between` names is a record of the pair, and it names one
/// exactly if the pair has a record.
pub proof fn lemma_last_between<E, W>(edges: Seq<EdgeRecord<E, W>>, from: NodeId, to: NodeId)
    requires
        edges.len() <= usize::MAX,
    ensures
        match last_between(edges, from, to) {
            Some(e) => e.0 < edges.len() && edges[e.0 as int].from == from && edges[e.0 as int].to
                == to,
            None => true,
        },
        last_between(edges, from, to) is Some <==> has_edge(edges, from, to),
    decreases edges.len(),
{
    if edges.len() > 0 {
        lemma_last_between(edges.drop_last(), from, to);
        if edges.last().from == from && edges.last().to == to {
            assert(edges[edges.len() - 1].from == from);
        } else {
            if has_edge(edges, from, to) {
                let i = choose|i: int|
                    0 <= i < edges.len() && (#[trigger] edges[i]).from == from && edges[i].to == to;
                assert(edges.drop_last()[i] == edges[i]);
            }
            if has_edge(edges.drop_last(), from, to) {
                let i = choose|i: int|
                    0 <= i < edges.drop_last().len() && (#[trigger] edges.drop_last()[i]).from
                        == from && edges.drop_last()[i].to == to;
                assert(edges[i] == edges.drop_last()[i]);
            }
        }
    }
}

/// The cell of the pair `(r, c)` lies in a matrix of `n` times `n` cells,
/// and different pairs have different cells.
pub proof fn lemma_cell(r: int, c: int, n: int, r2: int, c2: int)
    requires
        0 <= r < n,
        0 <= c < n,
        0 <= r2 < n,
        0 <= c2 < n,
    ensures
        0 <= r * n + c < n * n,
        r * n + c == r2 * n + c2 ==> r == r2 && c == c2,
{
    assert(r * n + c < n * n) by (nonlinear_arith)
        requires
            0 <= r < n,
            0 <= c < n,
    ;
    assert(0 <= r * n) by (nonlinear_arith)
        requires
            0 <= r,
            0 <= n,
    ;
    if r * n + c == r2 * n + c2 {
        if r < r2 {
            assert(r * n + n <= r2 * n) by (nonlinear_arith)
                requires
                    r < r2,
                    0 <= n,
            ;
        }
        if r2 < r {
            assert(r2 * n + n <= r * n) by (nonlinear_arith)
                requires
                    r2 < r,
                    0 <= n,
            ;
        }
    }
}

/// A matrix of `n` times `n` cells can be allocated for up to this many
/// nodes on every machine.
pub proof fn lemma_limit_fits(n: int)
    requires
        0 <= n <= 0xFFFF,
    ensures
        n * n <= usize::MAX,
{
    assert(n * n <= 0xFFFF * 0xFFFF) by (nonlinear_arith)
        requires
            0 <= n <= 0xFFFF,
    ;
}

/// The nodes below `upto` that a record joins to `v`, each once and
/// ascending: those that a record leads to from `v` if `row` is set, those
/// from which a record leads to `v` if not.
pub open spec fn line_ends<E, W>(edges: Seq<EdgeRecord<E, W>>, v: NodeId, upto: int, row: bool) -> Seq<
    NodeId,
>
    decreases upto,
{
    if upto <= 0 {
        Seq::empty()
    } else {
        let c = NodeId((upto - 1) as usize);
        if (row && has_edge(edges, v, c)) || (!row && has_edge(edges, c, v)) {
            line_ends(edges, v, upto - 1, row).push(c)
        } else {
            line_ends(edges, v, upto - 1, row)
        }
    }
}

/// The most nodes a matrix takes: with them the number of its cells fits
/// a `usize` on every machine.
pub const MATRIX_NODE_LIMIT: usize = 0xFFFF;

/// Every cell of the matrix of side `n` holds the last record of its pair
/// among `edges`.
pub open spec fn cells_match<E, W>(data: Seq<Option<EdgeId>>, n: int, edges: Seq<EdgeRecord<E, W>>) -> bool {
    &&& data.len() == n * n
    &&& forall|r: int, c: int|
        0 <= r < n && 0 <= c < n ==> #[trigger] data[r * n + c] == last_between(
            edges,
            NodeId(r as usize),
            NodeId(c as usize),
        )
}

/// A list of `cells` empty cells.
pub fn empty_cells(cells: usize) -> (data: Vec<Option<EdgeId>>)
    ensures
        data@.len() == cells,
        forall|i: int| 0 <= i < cells ==> (#[trigger] data@[i]) is None,
{
    let mut data: Vec<Option<EdgeId>> = Vec::new();
    let mut i: usize = 0;
    while i < cells
        invariant
            i <= cells,
            data@.len() == i,
            forall|k: int| 0 <= k < i ==> (#[trigger] data@[k]) is None,
        decreases cells - i,
    {
        data.push(None);
        i += 1;
    }
    data
}

/// The matrix of side `n` for the records `edges`.
pub fn cells_of<E, W>(edges: &Vec<EdgeRecord<E, W>>, n: usize) -> (data: Vec<Option<EdgeId>>)
    requires
        n <= MATRIX_NODE_LIMIT,
        endpoints_below(edges@, n as int),
    ensures
        cells_match(data@, n as int, edges@),
{
    proof {
        lemma_limit_fits(n as int);
    }
    let mut data = empty_cells(n * n);
    let mut i: usize = 0;
    proof {
        assert(edges@.take(0) =~= Seq::<EdgeRecord<E, W>>::empty());
        assert forall|r: int, c: int| 0 <= r < n && 0 <= c < n implies #[trigger] data@[r * n + c]
            == last_between(edges@.take(0), NodeId(r as usize), NodeId(c as usize)) by {
            lemma_cell(r, c, n as int, 0, 0);
        }
    }
    while i < edges.len()
        invariant
            n <= MATRIX_NODE_LIMIT,
            endpoints_below(edges@, n as int),
            i <= edges@.len(),
            cells_match(data@, n as int, edges@.take(i as int)),
        decreases edges@.len() - i,
    {
        let from = edges[i].from.0;
        let to = edges[i].to.0;
        let ghost before = data@;
        proof {
            lemma_limit_fits(n as int);
            lemma_cell(from as int, to as int, n as int, 0, 0);
            assert(0 <= from * n) by (nonlinear_arith)
                requires
                    0 <= from,
                    0 <= n,
            ;
        }
        data[from * n + to] = Some(EdgeId(i));
        proof {
            let now = edges@.take(i + 1);
            assert(now.drop_last() =~= edges@.take(i as int));
            assert(now.last() == edges@[i as int]);
            assert forall|r: int, c: int| 0 <= r < n && 0 <= c < n implies #[trigger] data@[r * n
                + c] == last_between(now, NodeId(r as usize), NodeId(c as usize)) by {
                lemma_cell(r, c, n as int, from as int, to as int);
                if r == from && c == to {
                } else {
                    assert(data@[r * n + c] == before[r * n + c]);
                }
            }
        }
        i += 1;
    }
    proof {
        assert(edges@.take(i as int) =~= edges@);
    }
    data
}

/// The edge list together with a matrix that holds, for every ordered
/// pair of nodes, the id of the last record of the pair. Of several
/// records of one pair only the last can be looked up through the matrix.
pub struct AdjacencyMatrix<Key: NodeKey, Data: Copy, EdgeMeta: Copy, Weight: Copy> {
    pub n: usize,
    pub nodes: NodeInterner<Key, Data>,
    pub edges: Vec<EdgeRecord<EdgeMeta, Weight>>,
    pub data: Vec<Option<EdgeId>>,
}

impl<Key: NodeKey, Data: Copy, EdgeMeta: Copy, Weight: Copy> AdjacencyMatrix<
    Key,
    Data,
    EdgeMeta,
    Weight,
> {
    /// Keys are unique, every record joins two existing nodes, the matrix
    /// has a row and a column for every node, and every cell holds the
    /// last record of its pair.
    pub open spec fn inv(&self) -> bool {
        &&& self.nodes.wf()
        &&& endpoints_below(self.edges@, self.nodes.records@.len() as int)
        &&& self.nodes.records@.len() <= self.n <= MATRIX_NODE_LIMIT
        &&& cells_match(self.data@, self.n as int, self.edges@)
    }

    /// An empty matrix with room for `n` nodes; without room if `n` is
    /// more than a matrix takes.
    pub fn new(n: usize) -> (matrix: Self)
        ensures
            matrix.inv(),
            matrix.nodes.records@.len() == 0,
            matrix.edges@.len() == 0,
            matrix.n == if n <= MATRIX_NODE_LIMIT { n } else { 0 },
    {
        let side = if n <= MATRIX_NODE_LIMIT {
            n
        } else {
            0
        };
        let edges: Vec<EdgeRecord<EdgeMeta, Weight>> = Vec::new();
        let data = cells_of(&edges, side);
        Self { n: side, nodes: NodeInterner::new(), edges, data }
    }

    /// The matrix with the nodes and records of `def`.
    pub fn from_graphdef(def: GraphDefinition<Key, Data, EdgeMeta, Weight>) -> (matrix: Self)
        requires
            def.inv(),
            def.nodes.records@.len() <= MATRIX_NODE_LIMIT,
        ensures
            matrix.inv(),
            matrix.nodes == def.nodes,
            matrix.edges@ == def.edges@,
            matrix.n == def.nodes.records@.len(),
    {
        let n = def.nodes.len();
        let data = cells_of(&def.edges, n);
        Self { n, nodes: def.nodes, edges: def.edges, data }
    }

    /// The edge list with the nodes and records of the matrix.
    pub fn to_graph_def(&self) -> (def: GraphDefinition<Key, Data, EdgeMeta, Weight>)
        requires
            self.inv(),
        ensures
            def.inv(),
            def.nodes.keys() == self.nodes.keys(),
            def.nodes.payloads() == self.nodes.payloads(),
            def.edges@ == self.edges@,
    {
        let nodes = self.nodes.duplicate();
        proof {
            self.nodes.lemma_keys_distinct();
            nodes.lemma_keys_distinct();
        }
        GraphDefinition { nodes, edges: copy_records(&self.edges) }
    }

    /// Appends one record between two existing nodes and enters it into
    /// the matrix, in place of an earlier record of the same pair.
    pub fn add_edge(&mut self, from: NodeId, to: NodeId, meta: EdgeMeta, weight: Option<Weight>) -> (id:
        EdgeId)
        requires
            old(self).inv(),
            from.0 < old(self).nodes.records@.len(),
            to.0 < old(self).nodes.records@.len(),
        ensures
            final(self).inv(),
            final(self).n == old(self).n,
            final(self).nodes == old(self).nodes,
            final(self).edges@ == old(self).edges@.push(EdgeRecord { from, to, meta, weight }),
            id.0 == old(self).edges@.len(),
    {
        let id = EdgeId(self.edges.len());
        let ghost before = self.data@;
        let ghost edges = self.edges@;
        let n = self.n;
        proof {
            lemma_limit_fits(n as int);
            lemma_cell(from.0 as int, to.0 as int, n as int, 0, 0);
            assert(0 <= from.0 * n) by (nonlinear_arith)
                requires
                    0 <= from.0,
                    0 <= n,
            ;
        }
        self.edges.push(EdgeRecord::new(from, to, meta, weight));
        self.data[from.0 * n + to.0] = Some(id);
        proof {
            let now = self.edges@;
            assert(now.drop_last() =~= edges);
            assert forall|r: int, c: int| 0 <= r < n && 0 <= c < n implies #[trigger] self.data@[r
                * n + c] == last_between(now, NodeId(r as usize), NodeId(c as usize)) by {
                lemma_cell(r, c, n as int, from.0 as int, to.0 as int);
                if r == from.0 && c == to.0 {
                } else {
                    assert(self.data@[r * n + c] == before[r * n + c]);
                }
            }
        }
        id
    }

    /// The id of the last record from `from` to `to`, if there is one.
    pub fn get_edge_id(&self, from: NodeId, to: NodeId) -> (found: Option<EdgeId>)
        requires
            self.inv(),
        ensures
            found == last_between(self.edges@, from, to),
    {
        if from.0 < self.n && to.0 < self.n {
            proof {
                lemma_limit_fits(self.n as int);
                lemma_cell(from.0 as int, to.0 as int, self.n as int, 0, 0);
                assert(0 <= from.0 * self.n) by (nonlinear_arith)
                    requires
                        0 <= from.0,
                        0 <= self.n,
                ;
                assert(self.data@[from.0 * self.n + to.0] == last_between(
                    self.edges@,
                    NodeId(from.0 as int as usize),
                    NodeId(to.0 as int as usize),
                ));
            }
            self.data[from.0 * self.n + to.0]
        } else {
            proof {
                assert(self.edges@.len() == self.edges.len());
                lemma_last_between(self.edges@, from, to);
                if has_edge(self.edges@, from, to) {
                    let i = choose|i: int|
                        0 <= i < self.edges@.len() && (#[trigger] self.edges@[i]).from == from
                            && self.edges@[i].to == to;
                    assert(self.edges@[i].from.0 < self.n);
                }
            }
            None
        }
    }

    /// The cells of the row of `u`: for every node the last record from
    /// `u` to it.
    pub fn row(&self, u: NodeId) -> (cells: Vec<Option<EdgeId>>)
        requires
            self.inv(),
        ensures
            cells@.len() == self.n,
            forall|c: int|
                0 <= c < self.n ==> #[trigger] cells@[c] == last_between(
                    self.edges@,
                    u,
                    NodeId(c as usize),
                ),
    {
        let mut cells: Vec<Option<EdgeId>> = Vec::new();
        let mut c: usize = 0;
        while c < self.n
            invariant
                self.inv(),
                c <= self.n,
                cells@.len() == c,
                forall|k: int|
                    0 <= k < c ==> #[trigger] cells@[k] == last_between(
                        self.edges@,
                        u,
                        NodeId(k as usize),
                    ),
            decreases self.n - c,
        {
            cells.push(self.get_edge_id(u, NodeId(c)));
            c += 1;
        }
        cells
    }

    /// The nodes at the far ends of the records that the row, or the
    /// column, of `v` holds.
    fn line(&self, v: NodeId, row: bool) -> (ends: Vec<NodeId>)
        requires
            self.inv(),
        ensures
            ends@ == line_ends(self.edges@, v, self.n as int, row),
            forall|u: NodeId|
                ends@.contains(u) <==> if row {
                    has_edge(self.edges@, v, u)
                } else {
                    has_edge(self.edges@, u, v)
                },
    {
        let mut ends: Vec<NodeId> = Vec::new();
        let mut c: usize = 0;
        proof {
            assert(self.edges@.len() == self.edges.len());
        }
        while c < self.n
            invariant
                self.inv(),
                self.edges@.len() <= usize::MAX,
                c <= self.n,
                ends@ == line_ends(self.edges@, v, c as int, row),
                forall|u: NodeId|
                    ends@.contains(u) <==> u.0 < c && if row {
                        has_edge(self.edges@, v, u)
                    } else {
                        has_edge(self.edges@, u, v)
                    },
            decreases self.n - c,
        {
            let cell = if row {
                self.get_edge_id(v, NodeId(c))
            } else {
                self.get_edge_id(NodeId(c), v)
            };
            let ghost before = ends@;
            proof {
                lemma_last_between(self.edges@, v, NodeId(c));
                lemma_last_between(self.edges@, NodeId(c), v);
            }
            match cell {
                Some(eid) => {
                    let far = if row {
                        self.edges[eid.0].to
                    } else {
                        self.edges[eid.0].from
                    };
                    assert(far == NodeId(c));
                    ends.push(far);
                },
                None => {},
            }
            proof {
                assert forall|u: NodeId|
                    ends@.contains(u) <==> u.0 < c + 1 && if row {
                        has_edge(self.edges@, v, u)
                    } else {
                        has_edge(self.edges@, u, v)
                    } by {
                    crate::storage::scan::lemma_push_contains(before, NodeId(c), u);
                    if u.0 == c {
                        assert(u == NodeId(c));
                    }
                }
            }
            c += 1;
        }
        proof {
            assert forall|u: NodeId|
                ends@.contains(u) <==> if row {
                    has_edge(self.edges@, v, u)
                } else {
                    has_edge(self.edges@, u, v)
                } by {
                if has_edge(self.edges@, v, u) && row {
                    let i = choose|i: int|
                        0 <= i < self.edges@.len() && (#[trigger] self.edges@[i]).from == v
                            && self.edges@[i].to == u;
                    assert(self.edges@[i].to.0 < self.n);
                }
                if has_edge(self.edges@, u, v) && !row {
                    let i = choose|i: int|
                        0 <= i < self.edges@.len() && (#[trigger] self.edges@[i]).from == u
                            && self.edges@[i].to == v;
                    assert(self.edges@[i].from.0 < self.n);
                }
            }
        }
        ends
    }

    /// Makes the matrix as wide as there are nodes and enters the records
    /// anew.
    fn widen(&mut self)
        requires
            old(self).nodes.wf(),
            endpoints_below(old(self).edges@, old(self).nodes.records@.len() as int),
            old(self).nodes.records@.len() <= MATRIX_NODE_LIMIT,
        ensures
            final(self).inv(),
            final(self).nodes == old(self).nodes,
            final(self).edges == old(self).edges,
    {
        let n = self.nodes.len();
        self.data = cells_of(&self.edges, n);
        self.n = n;
    }
}

impl<Key: NodeKey, Data: Copy, EdgeMeta: Copy, Weight: Copy> GraphBase for AdjacencyMatrix<
    Key,
    Data,
    EdgeMeta,
    Weight,
> {
    type Key = Key;

    type Data = Data;

    type EdgeMeta = EdgeMeta;

    type Weight = Weight;

    open spec fn wf(&self) -> bool {
        self.inv()
    }

    open spec fn keys(&self) -> Seq<Key::V> {
        self.nodes.keys()
    }

    open spec fn payloads(&self) -> Seq<Data> {
        self.nodes.payloads()
    }

    open spec fn edges(&self) -> Seq<EdgeRecord<EdgeMeta, Weight>> {
        self.edges@
    }

    open spec fn symmetric(&self) -> bool {
        false
    }

    open spec fn between(&self, from: NodeId, to: NodeId) -> Seq<EdgeId> {
        match last_between(self.edges@, from, to) {
            Some(e) => seq![e],
            None => Seq::empty(),
        }
    }

    /// The successors and then the predecessors of `v`, each node at its
    /// first occurrence only.
    open spec fn neighbours(&self, v: NodeId) -> Seq<NodeId> {
        without_repeats(
            line_ends(self.edges@, v, self.n as int, true),
            line_ends(self.edges@, v, self.n as int, false),
        )
    }

    /// The nodes that a record leads to from `v`, each once, ascending.
    open spec fn heads(&self, v: NodeId) -> Seq<NodeId> {
        line_ends(self.edges@, v, self.n as int, true)
    }

    /// The nodes from which a record leads to `v`, each once, ascending.
    open spec fn tails(&self, v: NodeId) -> Seq<NodeId> {
        line_ends(self.edges@, v, self.n as int, false)
    }

    proof fn lemma_wf(&self) {
        self.nodes.lemma_keys_distinct();
        assert(self.edges@.len() == self.edges.len());
        assert(self.nodes.records@.len() == self.nodes.records.len());
    }

    proof fn lemma_between(&self, from: NodeId, to: NodeId) {
        assert(self.edges@.len() == self.edges.len());
        lemma_last_between(self.edges@, from, to);
    }

    fn order(&self) -> (n: usize) {
        self.nodes.len()
    }

    fn size(&self) -> (m: usize) {
        self.edges.len()
    }

    fn node_id(&self, key: &Key) -> (found: Option<NodeId>) {
        let found = self.nodes.get_id(key);
        proof {
            if let Some(id) = found {
                assert(self.nodes.keys()[id.0 as int] == self.nodes.records@[id.0 as int].key@);
            }
        }
        found
    }

    fn node_ids(&self) -> (ids: Vec<NodeId>) {
        node_id_range(self.nodes.len())
    }

    fn node_key(&self, id: NodeId) -> (key: &Key) {
        &self.nodes.get(id).key
    }

    fn node_data(&self, id: NodeId) -> (data: &Data) {
        &self.nodes.get(id).data
    }

    fn edge_ids(&self) -> (ids: Vec<EdgeId>) {
        edge_id_range(self.edges.len())
    }

    fn endpoints(&self, e: EdgeId) -> (ends: (NodeId, NodeId)) {
        let r = &self.edges[e.0];
        (r.from, r.to)
    }

    fn edge_meta(&self, e: EdgeId) -> (meta: &EdgeMeta) {
        &self.edges[e.0].meta
    }

    fn edges_between(&self, from: NodeId, to: NodeId) -> (ids: Vec<EdgeId>) {
        let mut ids: Vec<EdgeId> = Vec::new();
        match self.get_edge_id(from, to) {
            Some(e) => {
                ids.push(e);
                assert(ids@ =~= seq![e]);
            },
            None => {},
        }
        ids
    }

    fn neighborhood(&self, v: NodeId) -> (near: Vec<NodeId>) {
        let next = self.line(v, true);
        let prev = self.line(v, false);
        let mut set = set_new();
        insert_all(&mut set, &next);
        insert_all(&mut set, &prev);
        let near = into_nodes(set);
        proof {
            assert forall|u: NodeId|
                near@.contains(u) <==> has_edge(self.edges@, v, u) || has_edge(self.edges@, u, v) by {
                assert(NodeId(u.0) == u);
            }
        }
        near
    }

    fn successors(&self, v: NodeId) -> (next: Vec<NodeId>) {
        self.line(v, true)
    }

    fn predecessors(&self, v: NodeId) -> (prev: Vec<NodeId>) {
        self.line(v, false)
    }
}

impl<Key: NodeKey, Data: Copy, EdgeMeta: Copy, Weight: Copy> EdgeWeights for AdjacencyMatrix<
    Key,
    Data,
    EdgeMeta,
    Weight,
> {
    fn weight_of(&self, e: EdgeId) -> (w: Option<Weight>) {
        if e.0 < self.edges.len() {
            self.edges[e.0].weight
        } else {
            None
        }
    }
}

impl<Key: NodeKey, Data: Copy, EdgeMeta: Copy, Weight: Copy> StorageRepresentation for AdjacencyMatrix<
    Key,
    Data,
    EdgeMeta,
    Weight,
> {
    open spec fn node_limit() -> nat {
        MATRIX_NODE_LIMIT as nat
    }

    proof fn lemma_directed(&self) {
    }

    fn with_node_capacity(capacity: usize) -> (storage: Self) {
        Self::new(capacity)
    }
}

impl<Key: NodeKey, Data: Copy, EdgeMeta: Copy, Weight: Copy> MutableStorage for AdjacencyMatrix<
    Key,
    Data,
    EdgeMeta,
    Weight,
> {
    fn add_node(&mut self, key: Key, data: Data) -> (id: NodeId) {
        proof {
            self.nodes.lemma_keys_distinct();
        }
        let id = self.nodes.intern(key, data);
        proof {
            self.nodes.lemma_keys_distinct();
            if old(self).nodes.keys().contains(key@) {
                assert(0 <= old(self).nodes.keys().index_of(key@) < old(self).nodes.keys().len());
            }
        }
        if self.nodes.len() > self.n {
            self.widen();
        }
        id
    }

    fn add_edge_by_id(
        &mut self,
        from: NodeId,
        to: NodeId,
        meta: EdgeMeta,
        weight: Option<Weight>,
    ) -> (id: EdgeId) {
        proof {
            self.nodes.lemma_keys_distinct();
        }
        self.add_edge(from, to, meta, weight)
    }

    fn add_edge_by_key(
        &mut self,
        from_key: Key,
        to_key: Key,
        from_data: Data,
        to_data: Data,
        meta: EdgeMeta,
        weight: Option<Weight>,
    ) -> (id: EdgeId) {
        let from = self.add_node(from_key, from_data);
        proof {
            self.nodes.lemma_keys_distinct();
        }
        let ghost mid = self.nodes.keys();
        let to = self.add_node(to_key, to_data);
        proof {
            self.nodes.lemma_keys_distinct();
            if old(self).nodes.keys().contains(from_key@) {
                assert(0 <= old(self).nodes.keys().index_of(from_key@) < old(self).nodes.keys().len());
            }
            if mid.contains(to_key@) {
                assert(0 <= mid.index_of(to_key@) < mid.len());
            }
        }
        self.add_edge(from, to, meta, weight)
    }

    fn clear_edges(&mut self) {
        self.edges.clear();
        proof {
            assert(self.edges@ =~= Seq::<EdgeRecord<EdgeMeta, Weight>>::empty());
        }
        self.data = cells_of(&self.edges, self.n);
    }
}

impl<Key, Data, EdgeMeta, Weight, Target> StorageConvert<Target> for AdjacencyMatrix<
    Key,
    Data,
    EdgeMeta,
    Weight,
> where
    Key: NodeKey,
    Data: Copy,
    EdgeMeta: Copy,
    Weight: Copy,
    Target: MutableStorage<Key = Key, Data = Data, EdgeMeta = EdgeMeta, Weight = Weight>,
 {
    open spec fn convertible(&self) -> bool {
        self.nodes.records@.len() <= Target::node_limit()
    }

    fn convert(&self) -> (target: Target) {
        proof {
            self.nodes.lemma_keys_distinct();
        }
        copy_into(self)
    }
}

} // verus!
