//! Minimum spanning forests by Kruskal's algorithm over a disjoint-set
//! forest.

use vstd::prelude::*;
use crate::counting::{count_in_row, lemma_count_in_row_nonnegative, lemma_count_in_row_update};
use crate::algorithms::hierholzer::joins;
use crate::algorithms::warshall::WeightOverflow;
use crate::base::{EdgeId, NodeId, NodeKey, Weight};
use crate::storage::graph_definition::EdgeRecord;
use crate::traits::{EdgeWeights, GraphBase};
use crate::wrappers::Graph;

verus! {

/// The root of the tree that holds `x`: the node that is reached from `x`
/// over the parent links. `height` grows along every link and stays
/// below `bound`.
pub open spec fn root_of(parent: Seq<usize>, height: Seq<nat>, bound: nat, x: int) -> int
    decreases bound - height[x],
    when links_ok(parent, height, bound) && 0 <= x < parent.len()
{
    if parent[x] == x {
        x
    } else {
        root_of(parent, height, bound, parent[x] as int)
    }
}

/// Every parent link leads to a node of greater height, and all heights
/// are below `bound`.
pub open spec fn links_ok(parent: Seq<usize>, height: Seq<nat>, bound: nat) -> bool {
    &&& height.len() == parent.len()
    &&& forall|x: int| 0 <= x < height.len() ==> #[trigger] height[x] < bound
    &&& forall|x: int|
        0 <= x < parent.len() ==> (#[trigger] parent[x]) < parent.len() && (parent[x] != x
            ==> height[x] < height[parent[x] as int])
}

/// The root of a node is a node that is its own parent, and is at least
/// as high as the node.
pub proof fn lemma_root(parent: Seq<usize>, height: Seq<nat>, bound: nat, x: int)
    requires
        links_ok(parent, height, bound),
        0 <= x < parent.len(),
    ensures
        0 <= root_of(parent, height, bound, x) < parent.len(),
        parent[root_of(parent, height, bound, x)] == root_of(parent, height, bound, x),
        height[x] <= height[root_of(parent, height, bound, x)],
        parent[x] != x ==> height[x] < height[root_of(parent, height, bound, x)],
    decreases bound - height[x],
{
    if parent[x] != x {
        lemma_root(parent, height, bound, parent[x] as int);
    }
}

/// Linking a node straight to its root changes the root of no node.
pub proof fn lemma_compress(parent: Seq<usize>, height: Seq<nat>, bound: nat, i: int, y: int)
    requires
        links_ok(parent, height, bound),
        0 <= i < parent.len(),
        0 <= y < parent.len(),
    ensures
        links_ok(
            parent.update(i, root_of(parent, height, bound, i) as usize),
            height,
            bound,
        ),
        root_of(parent.update(i, root_of(parent, height, bound, i) as usize), height, bound, y)
            == root_of(parent, height, bound, y),
    decreases bound - height[y],
{
    let r = root_of(parent, height, bound, i);
    lemma_root(parent, height, bound, i);
    let changed = parent.update(i, r as usize);
    assert(links_ok(changed, height, bound)) by {
        assert forall|x: int| 0 <= x < changed.len() implies (#[trigger] changed[x]) < changed.len()
            && (changed[x] != x ==> height[x] < height[changed[x] as int]) by {
            assert(parent[x] < parent.len());
        }
    }
    if y == i {
        if r != i {
            assert(changed[r] == r);
            assert(root_of(changed, height, bound, r) == r);
        }
    } else if parent[y] != y {
        lemma_compress(parent, height, bound, i, parent[y] as int);
    }
}

/// Linking the root `b` below the root `a`, with `a` raised above `b`,
/// gives every node of the tree of `b` the root `a` and leaves all other
/// roots as they are.
pub proof fn lemma_link(parent: Seq<usize>, height: Seq<nat>, bound: nat, a: int, b: int, y: int)
    requires
        links_ok(parent, height, bound),
        0 <= a < parent.len(),
        0 <= b < parent.len(),
        0 <= y < parent.len(),
        a != b,
        parent[a] == a,
        parent[b] == b,
    ensures
        links_ok(
            parent.update(b, a as usize),
            height.update(a, height[a] + height[b] + 1),
            bound + height[b] + 1,
        ),
        root_of(
            parent.update(b, a as usize),
            height.update(a, height[a] + height[b] + 1),
            bound + height[b] + 1,
            y,
        ) == if root_of(parent, height, bound, y) == b {
            a
        } else {
            root_of(parent, height, bound, y)
        },
    decreases bound - height[y],
{
    let linked = parent.update(b, a as usize);
    let raised = height.update(a, height[a] + height[b] + 1);
    let limit = bound + height[b] + 1;
    assert(links_ok(linked, raised, limit)) by {
        assert forall|x: int| 0 <= x < raised.len() implies #[trigger] raised[x] < limit by {
            assert(height[x] < bound);
            assert(height[a] < bound);
        }
        assert forall|x: int| 0 <= x < linked.len() implies (#[trigger] linked[x]) < linked.len() && (linked[x] != x
            ==> raised[x] < raised[linked[x] as int]) by {
            assert(parent[x] < parent.len());
            if x != b && x != a && parent[x] != x {
                assert(height[x] < height[parent[x] as int]);
            }
        }
    }
    if y == b {
        assert(linked[a] == a);
        assert(root_of(linked, raised, limit, a) == a);
    } else if parent[y] != y {
        lemma_link(parent, height, bound, a, b, parent[y] as int);
    } else {
        assert(linked[y] == y);
    }
}

/// A disjoint-set forest with path compression and union by rank.
pub struct UnionFind {
    pub parent: Vec<usize>,
    pub rank: Vec<usize>,
    pub height: Ghost<Seq<nat>>,
    pub bound: Ghost<nat>,
}

impl UnionFind {
    /// The parent links form a forest over as many nodes as there are
    /// ranks.
    pub open spec fn wf(&self) -> bool {
        &&& self.rank@.len() == self.parent@.len()
        &&& links_ok(self.parent@, self.height@, self.bound@)
    }

    /// The number of nodes.
    pub open spec fn len(&self) -> nat {
        self.parent@.len()
    }

    /// The root of the set that holds `x`.
    pub open spec fn root(&self, x: int) -> int {
        root_of(self.parent@, self.height@, self.bound@, x)
    }

    /// `n` sets of one node each.
    pub fn new(n: usize) -> (uf: Self)
        ensures
            uf.wf(),
            uf.len() == n,
            forall|x: int| 0 <= x < n ==> #[trigger] uf.root(x) == x,
    {
        let mut parent: Vec<usize> = Vec::new();
        let mut rank: Vec<usize> = Vec::new();
        let mut i: usize = 0;
        while i < n
            invariant
                i <= n,
                parent@.len() == i,
                rank@.len() == i,
                forall|x: int| 0 <= x < i ==> (#[trigger] parent@[x]) == x,
            decreases n - i,
        {
            parent.push(i);
            rank.push(0);
            i += 1;
        }
        let uf = Self {
            parent,
            rank,
            height: Ghost(Seq::new(n as nat, |x: int| 0nat)),
            bound: Ghost(1nat),
        };
        proof {
            assert(uf.wf());
            assert forall|x: int| 0 <= x < n implies #[trigger] uf.root(x) == x by {
                assert(uf.parent@[x] == x);
            }
        }
        uf
    }

    /// The root of the set that holds `i`. The nodes on the way are linked
    /// straight to the root; the sets stay as they are.
    pub fn find(&mut self, i: usize) -> (root: usize)
        requires
            old(self).wf(),
            i < old(self).len(),
        ensures
            final(self).wf(),
            final(self).len() == old(self).len(),
            final(self).rank == old(self).rank,
            final(self).height == old(self).height,
            final(self).bound == old(self).bound,
            root == old(self).root(i as int),
            forall|x: int| 0 <= x < old(self).len() ==> #[trigger] final(self).root(x) == old(self).root(x),
        decreases old(self).bound@ - old(self).height@[i as int],
    {
        let p = self.parent[i];
        if p != i {
            let ghost before = *self;
            let root = self.find(p);
            let ghost mid = self.parent@;
            proof {
                assert(before.root(i as int) == before.root(p as int));
                assert(self.root(i as int) == before.root(i as int));
                assert(self.root(p as int) == before.root(p as int));
                lemma_root(mid, self.height@, self.bound@, i as int);
                assert(root_of(mid, self.height@, self.bound@, i as int) == root);
                assert forall|x: int| 0 <= x < mid.len() implies root_of(
                    mid,
                    self.height@,
                    self.bound@,
                    x,
                ) == before.root(x) by {
                    assert(self.root(x) == before.root(x));
                }
                assert forall|x: int| 0 <= x < mid.len() implies root_of(
                    mid.update(i as int, root),
                    self.height@,
                    self.bound@,
                    x,
                ) == root_of(mid, self.height@, self.bound@, x) by {
                    lemma_compress(mid, self.height@, self.bound@, i as int, x);
                }
                lemma_compress(mid, self.height@, self.bound@, i as int, 0);
            }
            self.parent[i] = root;
            root
        } else {
            i
        }
    }

    /// Joins the sets that hold `i` and `j`. Returns whether they were two
    /// sets.
    pub fn union(&mut self, i: usize, j: usize) -> (joined: bool)
        requires
            old(self).wf(),
            i < old(self).len(),
            j < old(self).len(),
        ensures
            final(self).wf(),
            final(self).len() == old(self).len(),
            joined == (old(self).root(i as int) != old(self).root(j as int)),
            forall|x: int, y: int|
                0 <= x < old(self).len() && 0 <= y < old(self).len() ==> ((#[trigger] final(self).root(
                    x,
                ) == #[trigger] final(self).root(y)) <==> (old(self).root(x) == old(self).root(y)
                    || (joined && ((old(self).root(x) == old(self).root(i as int) && old(self).root(
                    y,
                ) == old(self).root(j as int)) || (old(self).root(x) == old(self).root(j as int)
                    && old(self).root(y) == old(self).root(i as int)))))),
    {
        let ghost start = *self;
        let root_i = self.find(i);
        let ghost middle = *self;
        let root_j = self.find(j);
        proof {
            assert(middle.root(i as int) == start.root(i as int));
            assert(middle.root(j as int) == start.root(j as int));
            assert(self.root(i as int) == middle.root(i as int));
            assert(self.root(j as int) == middle.root(j as int));
            lemma_root(self.parent@, self.height@, self.bound@, i as int);
            lemma_root(self.parent@, self.height@, self.bound@, j as int);
            assert forall|x: int| 0 <= x < start.len() implies #[trigger] self.root(x) == start.root(
                x,
            ) by {
                assert(middle.root(x) == start.root(x));
            }
        }
        let ghost settled = *self;
        if root_i != root_j {
            let ghost parent = self.parent@;
            let ghost height = self.height@;
            let ghost bound = self.bound@;
            let ri = self.rank[root_i];
            let rj = self.rank[root_j];
            if ri < rj {
                self.parent[root_i] = root_j;
                proof {
                    self.height = Ghost(height.update(root_j as int, height[root_j as int] + height[root_i as int] + 1));
                    self.bound = Ghost(bound + height[root_i as int] + 1);
                    assert forall|x: int| 0 <= x < parent.len() implies #[trigger] self.root(x) == (
                    if root_of(parent, height, bound, x) == root_i {
                        root_j as int
                    } else {
                        root_of(parent, height, bound, x)
                    }) by {
                        lemma_link(parent, height, bound, root_j as int, root_i as int, x);
                    }
                    lemma_link(parent, height, bound, root_j as int, root_i as int, 0);
                    assert forall|x: int, y: int|
                        0 <= x < start.len() && 0 <= y < start.len() implies ((#[trigger] self.root(x)
                        == #[trigger] self.root(y)) <==> (start.root(x) == start.root(y) || ((
                    start.root(x) == start.root(i as int) && start.root(y) == start.root(j as int))
                        || (start.root(x) == start.root(j as int) && start.root(y) == start.root(
                        i as int,
                    ))))) by {
                        assert(settled.root(x) == start.root(x));
                        assert(settled.root(y) == start.root(y));
                    }
                }
            } else {
                self.parent[root_j] = root_i;
                if ri == rj {
                    self.rank[root_i] = if ri < usize::MAX {
                        ri + 1
                    } else {
                        ri
                    };
                }
                proof {
                    self.height = Ghost(height.update(root_i as int, height[root_i as int] + height[root_j as int] + 1));
                    self.bound = Ghost(bound + height[root_j as int] + 1);
                    assert forall|x: int| 0 <= x < parent.len() implies #[trigger] self.root(x) == (
                    if root_of(parent, height, bound, x) == root_j {
                        root_i as int
                    } else {
                        root_of(parent, height, bound, x)
                    }) by {
                        lemma_link(parent, height, bound, root_i as int, root_j as int, x);
                    }
                    lemma_link(parent, height, bound, root_i as int, root_j as int, 0);
                    assert forall|x: int, y: int|
                        0 <= x < start.len() && 0 <= y < start.len() implies ((#[trigger] self.root(x)
                        == #[trigger] self.root(y)) <==> (start.root(x) == start.root(y) || ((
                    start.root(x) == start.root(i as int) && start.root(y) == start.root(j as int))
                        || (start.root(x) == start.root(j as int) && start.root(y) == start.root(
                        i as int,
                    ))))) by {
                        assert(settled.root(x) == start.root(x));
                        assert(settled.root(y) == start.root(y));
                    }
                }
            }
            true
        } else {
            proof {
                assert forall|x: int, y: int|
                    0 <= x < start.len() && 0 <= y < start.len() implies ((#[trigger] self.root(x)
                    == #[trigger] self.root(y)) <==> start.root(x) == start.root(y)) by {
                    assert(settled.root(x) == start.root(x));
                    assert(settled.root(y) == start.root(y));
                }
            }
            false
        }
    }
}

/// The item `a` comes before the item `b`: it is lighter, or as heavy and
/// of lower edge id.
pub open spec fn precedes<W: Weight>(a: (usize, W), b: (usize, W)) -> bool {
    a.1.value() < b.1.value() || (a.1.value() == b.1.value() && a.0 < b.0)
}

/// Whether `a` comes before `b`.
pub fn comes_before<W: Weight>(a: &(usize, W), b: &(usize, W)) -> (yes: bool)
    ensures
        yes == precedes(*a, *b),
{
    a.1.less_than(&b.1) || (!b.1.less_than(&a.1) && a.0 < b.0)
}

/// The items in ascending order of weight; items of the same weight in
/// ascending order of edge id, which is the order in which a stable sort
/// by weight leaves items that were collected by ascending id.
pub fn sort_by_weight<W: Weight>(items: &Vec<(usize, W)>) -> (sorted: Vec<(usize, W)>)
    ensures
        sorted@.to_multiset() == items@.to_multiset(),
        forall|i: int, j: int| 0 <= i < j < sorted@.len() ==> !precedes(sorted@[j], sorted@[i]),
{
    let mut sorted: Vec<(usize, W)> = Vec::new();
    let mut k: usize = 0;
    proof {
        assert(items@.take(0) =~= Seq::<(usize, W)>::empty());
    }
    while k < items.len()
        invariant
            k <= items@.len(),
            sorted@.to_multiset() == items@.take(k as int).to_multiset(),
            forall|i: int, j: int| 0 <= i < j < sorted@.len() ==> !precedes(sorted@[j], sorted@[i]),
        decreases items@.len() - k,
    {
        let x = items[k];
        let mut pos: usize = 0;
        while pos < sorted.len() && !comes_before(&x, &sorted[pos])
            invariant
                pos <= sorted@.len(),
                forall|q: int| 0 <= q < pos ==> !precedes(x, #[trigger] sorted@[q]),
            decreases sorted@.len() - pos,
        {
            pos += 1;
        }
        let ghost before = sorted@;
        sorted.insert(pos, x);
        proof {
            vstd::seq_lib::to_multiset_insert(before, pos as int, x);
            assert(items@.take(k + 1) =~= items@.take(k as int).push(x));
            vstd::seq_lib::to_multiset_build(items@.take(k as int), x);
            assert forall|i: int, j: int| 0 <= i < j < sorted@.len() implies !precedes(
                sorted@[j],
                sorted@[i],
            ) by {
                let a = if i < pos { before[i] } else if i == pos { x } else { before[i - 1] };
                let b = if j < pos { before[j] } else if j == pos { x } else { before[j - 1] };
                assert(sorted@[i] == a && sorted@[j] == b);
                if pos < before.len() {
                    assert(precedes(x, before[pos as int]));
                    if j > pos {
                        assert(!precedes(before[j - 1], before[pos as int]) || j - 1 == pos);
                    }
                }
            }
        }
        k += 1;
    }
    proof {
        assert(items@.take(k as int) =~= items@);
    }
    sorted
}

/// The labels after the sets of the nodes `a` and `b` are joined: every
/// node with the label of `b` takes the label of `a`.
pub open spec fn merged(labels: Seq<int>, a: int, b: int) -> Seq<int> {
    Seq::new(labels.len(), |x: int| if labels[x] == labels[b] { labels[a] } else { labels[x] })
}

/// `order` lists the weighted records by ascending weight, records of the
/// same weight by ascending id.
pub open spec fn is_weight_order<E, W: Weight>(edges: Seq<EdgeRecord<E, W>>, order: Seq<int>) -> bool {
    &&& forall|i: int|
        0 <= i < order.len() ==> 0 <= #[trigger] order[i] < edges.len() && edges[order[i]].weight is Some
    &&& forall|i: int, j: int|
        0 <= i < j < order.len() ==> {
            let a = edges[#[trigger] order[i]].weight->Some_0.value();
            let b = edges[#[trigger] order[j]].weight->Some_0.value();
            a < b || (a == b && order[i] < order[j])
        }
    &&& forall|e: int|
        0 <= e < edges.len() && (#[trigger] edges[e]).weight is Some ==> order.contains(e)
}

/// The records that Kruskal's algorithm accepts among the first `k`
/// records of `order`, and a label for every node that tells the accepted
/// records' components apart. A record is accepted if its ends have
/// different labels.
pub open spec fn selection<E, W>(edges: Seq<EdgeRecord<E, W>>, n: int, order: Seq<int>, k: int) -> (
    Seq<int>,
    Seq<int>,
)
    decreases k,
{
    if k <= 0 {
        (Seq::<int>::empty(), Seq::new(n as nat, |x: int| x))
    } else {
        let (accepted, labels) = selection(edges, n, order, k - 1);
        let e = order[k - 1];
        let a = edges[e].from.0 as int;
        let b = edges[e].to.0 as int;
        if labels[a] == labels[b] {
            (accepted, labels)
        } else {
            (accepted.push(e), merged(labels, a, b))
        }
    }
}

/// The sum of the weights of the records `accepted`.
pub open spec fn total_weight<E, W: Weight>(edges: Seq<EdgeRecord<E, W>>, accepted: Seq<int>) -> int
    decreases accepted.len(),
{
    if accepted.len() == 0 {
        0
    } else {
        total_weight(edges, accepted.drop_last()) + edges[accepted.last()].weight->Some_0.value()
    }
}

/// The accepted records, each with the keys of its ends and its weight,
/// and the sum of their weights.
pub struct KruskalResult<K, W> {
    pub edges: Vec<(K, K, W)>,
    pub total_weight: W,
}

/// `listed` names the records `accepted`: the keys of their ends and their
/// weights.
pub open spec fn lists<K: NodeKey, E, W: Weight>(
    listed: Seq<(K, K, W)>,
    keys: Seq<K::V>,
    edges: Seq<EdgeRecord<E, W>>,
    accepted: Seq<int>,
) -> bool {
    &&& listed.len() == accepted.len()
    &&& forall|i: int|
        0 <= i < accepted.len() ==> {
            let r = edges[accepted[i]];
            &&& (#[trigger] listed[i]).0@ == keys[r.from.0 as int]
            &&& listed[i].1@ == keys[r.to.0 as int]
            &&& r.weight == Some(listed[i].2)
        }
}

/// A spanning forest of least weight by Kruskal's algorithm.
///
/// The weighted records are taken by ascending weight, records of the same
/// weight by ascending id; a record is accepted if it joins two components
/// of the records accepted before it. Fails if the sum of the accepted
/// weights leaves the range of the weight type on the way.
pub fn kruskal_mst<G>(graph: &G) -> (outcome: Result<KruskalResult<G::Key, G::Weight>, WeightOverflow>)
    where G: Graph + EdgeWeights, G::Weight: Weight
    requires
        graph.wf(),
    ensures
        exists|order: Seq<int>|
            {
                let accepted = selection(
                    graph.edges(),
                    graph.keys().len() as int,
                    order,
                    order.len() as int,
                ).0;
                &&& #[trigger] is_weight_order(graph.edges(), order)
                &&& match outcome {
                    Ok(result) => {
                        &&& lists(result.edges@, graph.keys(), graph.edges(), accepted)
                        &&& result.total_weight.value() == total_weight(graph.edges(), accepted)
                    },
                    Err(_) => exists|j: int|
                        0 <= j <= accepted.len() && !(G::Weight::lowest() <= #[trigger] total_weight(
                            graph.edges(),
                            accepted.take(j),
                        ) <= G::Weight::highest()),
                }
            },
{
    let n = graph.order();
    let m = graph.size();
    let ghost edges = graph.edges();
    let mut items: Vec<(usize, G::Weight)> = Vec::new();
    let mut e: usize = 0;
    while e < m
        invariant
            graph.wf(),
            edges == graph.edges(),
            m == edges.len(),
            e <= m,
            forall|i: int|
                0 <= i < items@.len() ==> (#[trigger] items@[i]).0 < e && edges[items@[i].0 as int].weight
                    == Some(items@[i].1),
            forall|i: int, j: int| 0 <= i < j < items@.len() ==> items@[i].0 < items@[j].0,
            forall|id: int|
                0 <= id < e && (#[trigger] edges[id]).weight is Some ==> items@.contains(
                    (id as usize, edges[id].weight->Some_0),
                ),
        decreases m - e,
    {
        let ghost before = items@;
        match graph.weight_of(EdgeId(e)) {
            Some(w) => {
                items.push((e, w));
                proof {
                    assert forall|id: int|
                        0 <= id < e + 1 && (#[trigger] edges[id]).weight is Some implies items@.contains(
                        (id as usize, edges[id].weight->Some_0),
                    ) by {
                        crate::storage::scan::lemma_push_contains(
                            before,
                            (e, w),
                            (id as usize, edges[id].weight->Some_0),
                        );
                    }
                }
            },
            None => {},
        }
        e += 1;
    }
    let sorted = sort_by_weight(&items);
    let ghost order = Seq::new(sorted@.len(), |i: int| sorted@[i].0 as int);
    proof {
        assert(items@.no_duplicates());
        items@.lemma_multiset_has_no_duplicates();
        sorted@.lemma_multiset_has_no_duplicates_conv();
        assert forall|i: int| 0 <= i < sorted@.len() implies items@.contains(#[trigger] sorted@[i]) by {
            vstd::seq_lib::to_multiset_contains(sorted@, sorted@[i]);
            vstd::seq_lib::to_multiset_contains(items@, sorted@[i]);
            assert(sorted@.contains(sorted@[i]));
        }
        assert forall|i: int| 0 <= i < order.len() implies 0 <= #[trigger] order[i] < edges.len()
            && edges[order[i]].weight == Some(sorted@[i].1) by {
            assert(items@.contains(sorted@[i]));
            let q = choose|q: int| 0 <= q < items@.len() && items@[q] == sorted@[i];
            assert(items@[q].0 < m);
        }
        assert forall|i: int, j: int| 0 <= i < j < order.len() implies {
            let a = edges[#[trigger] order[i]].weight->Some_0.value();
            let b = edges[#[trigger] order[j]].weight->Some_0.value();
            a < b || (a == b && order[i] < order[j])
        } by {
            assert(!precedes(sorted@[j], sorted@[i]));
            assert(sorted@[i] != sorted@[j]);
            assert(edges[order[i]].weight == Some(sorted@[i].1));
            assert(edges[order[j]].weight == Some(sorted@[j].1));
            if sorted@[i].0 == sorted@[j].0 {
                assert(sorted@[i].1 == sorted@[j].1);
            }
        }
        assert forall|id: int|
            0 <= id < edges.len() && (#[trigger] edges[id]).weight is Some implies order.contains(
            id,
        ) by {
            let item = (id as usize, edges[id].weight->Some_0);
            assert(items@.contains(item));
            vstd::seq_lib::to_multiset_contains(sorted@, item);
            vstd::seq_lib::to_multiset_contains(items@, item);
            let q = choose|q: int| 0 <= q < sorted@.len() && sorted@[q] == item;
            assert(order[q] == id);
        }
        assert(is_weight_order(edges, order));
        graph.lemma_wf();
    }
    let mut uf = UnionFind::new(n);
    let mut mst: Vec<(G::Key, G::Key, G::Weight)> = Vec::new();
    let mut total = G::Weight::zero();
    proof {
        G::Weight::lemma_range(total, total);
        let none = selection(edges, n as int, order, 0).0;
        assert(none.take(0) =~= none);
    }
    let mut k: usize = 0;
    while k < sorted.len()
        invariant
            graph.wf(),
            edges == graph.edges(),
            n == graph.keys().len(),
            k <= sorted@.len(),
            order == Seq::new(sorted@.len(), |i: int| sorted@[i].0 as int),
            is_weight_order(edges, order),
            forall|i: int|
                0 <= i < order.len() ==> edges[#[trigger] order[i]].weight == Some(sorted@[i].1),
            uf.wf(),
            uf.len() == n,
            selection(edges, n as int, order, k as int).1.len() == n,
            forall|x: int, y: int|
                0 <= x < n && 0 <= y < n ==> ((#[trigger] uf.root(x) == #[trigger] uf.root(y)) <==> (
                selection(edges, n as int, order, k as int).1[x] == selection(
                    edges,
                    n as int,
                    order,
                    k as int,
                ).1[y])),
            lists(mst@, graph.keys(), edges, selection(edges, n as int, order, k as int).0),
            total.value() == total_weight(edges, selection(edges, n as int, order, k as int).0),
            forall|j: int|
                0 <= j <= selection(edges, n as int, order, k as int).0.len() ==> G::Weight::lowest()
                    <= #[trigger] total_weight(
                    edges,
                    selection(edges, n as int, order, k as int).0.take(j),
                ) <= G::Weight::highest(),
        decreases sorted@.len() - k,
    {
        let (eid, w) = sorted[k];
        proof {
            graph.lemma_wf();
            assert(order[k as int] == eid);
        }
        let (u, v) = graph.endpoints(EdgeId(eid));
        let ghost before = selection(edges, n as int, order, k as int);
        let ghost old_uf = uf;
        let ghost old_mst = mst@;
        let joined = uf.union(u.0, v.0);
        proof {
            assert(joined == (before.1[u.0 as int] != before.1[v.0 as int])) by {
                assert((old_uf.root(u.0 as int) == old_uf.root(v.0 as int)) <==> (before.1[u.0 as int]
                    == before.1[v.0 as int]));
            }
        }
        if joined {
            mst.push((graph.node_key(u).key_clone(), graph.node_key(v).key_clone(), w));
            let ghost after = selection(edges, n as int, order, k + 1);
            proof {
                assert(after.0 == before.0.push(eid as int));
                assert(after.0.drop_last() =~= before.0);
                assert(total_weight(edges, after.0) == total_weight(edges, before.0) + w.value());
                assert forall|j: int| 0 <= j <= before.0.len() implies after.0.take(j)
                    == before.0.take(j) by {
                    assert(after.0.take(j) =~= before.0.take(j));
                }
                assert(after.0.take(after.0.len() as int) =~= after.0);
            }
            total = match total.checked_plus(&w) {
                Some(t) => t,
                None => {
                    proof {
                        let accepted = selection(edges, n as int, order, order.len() as int).0;
                        lemma_selection_prefix(edges, n as int, order, k + 1, order.len() as int);
                        assert(accepted.take(after.0.len() as int) == after.0);
                        assert(!(G::Weight::lowest() <= total_weight(
                            edges,
                            accepted.take(after.0.len() as int),
                        ) <= G::Weight::highest()));
                    }
                    return Err(WeightOverflow);
                },
            };
            proof {
                assert forall|i: int| 0 <= i < after.0.len() implies {
                    let r = edges[after.0[i]];
                    &&& (#[trigger] mst@[i]).0@ == graph.keys()[r.from.0 as int]
                    &&& mst@[i].1@ == graph.keys()[r.to.0 as int]
                    &&& r.weight == Some(mst@[i].2)
                } by {
                    if i < before.0.len() {
                        assert(mst@[i] == old_mst[i]);
                        assert(after.0[i] == before.0[i]);
                    }
                }
                assert forall|j: int| 0 <= j <= after.0.len() implies G::Weight::lowest()
                    <= #[trigger] total_weight(edges, after.0.take(j)) <= G::Weight::highest() by {
                    if j <= before.0.len() {
                        assert(after.0.take(j) == before.0.take(j));
                    }
                }
            }
        }
        proof {
            let after = selection(edges, n as int, order, k + 1);
            assert(after.1.len() == n);
            assert forall|x: int, y: int| 0 <= x < n && 0 <= y < n implies ((#[trigger] uf.root(x)
                == #[trigger] uf.root(y)) <==> (after.1[x] == after.1[y])) by {
                assert((old_uf.root(x) == old_uf.root(y)) <==> (before.1[x] == before.1[y]));
                assert((old_uf.root(x) == old_uf.root(u.0 as int)) <==> (before.1[x]
                    == before.1[u.0 as int]));
                assert((old_uf.root(x) == old_uf.root(v.0 as int)) <==> (before.1[x]
                    == before.1[v.0 as int]));
                assert((old_uf.root(y) == old_uf.root(u.0 as int)) <==> (before.1[y]
                    == before.1[u.0 as int]));
                assert((old_uf.root(y) == old_uf.root(v.0 as int)) <==> (before.1[y]
                    == before.1[v.0 as int]));
            }
        }
        k += 1;
    }
    proof {
        let accepted = selection(edges, n as int, order, order.len() as int).0;
        assert(sorted@.len() == order.len());
    }
    Ok(KruskalResult { edges: mst, total_weight: total })
}

/// The records accepted among the first `k` records are the first of the
/// records accepted among the first `later` records.
pub proof fn lemma_selection_prefix<E, W>(
    edges: Seq<EdgeRecord<E, W>>,
    n: int,
    order: Seq<int>,
    k: int,
    later: int,
)
    requires
        0 <= k <= later,
    ensures
        selection(edges, n, order, k).0.len() <= selection(edges, n, order, later).0.len(),
        selection(edges, n, order, later).0.take(selection(edges, n, order, k).0.len() as int)
            == selection(edges, n, order, k).0,
    decreases later - k,
{
    let short = selection(edges, n, order, k).0;
    if k < later {
        lemma_selection_prefix(edges, n, order, k, later - 1);
        let mid = selection(edges, n, order, later - 1).0;
        let long = selection(edges, n, order, later).0;
        assert(long.take(short.len() as int) =~= mid.take(short.len() as int));
    } else {
        assert(short.take(short.len() as int) =~= short);
    }
}

/// One of the records `allowed` joins the nodes `a` and `b`, in whatever
/// direction.
pub open spec fn links<E, W>(edges: Seq<EdgeRecord<E, W>>, allowed: Seq<int>, a: int, b: int) -> bool {
    exists|i: int| 0 <= i < allowed.len() && joins(edges[#[trigger] allowed[i]], a, b)
}

/// `walk` lists nodes of which each is joined to the next by one of the
/// records `allowed`.
pub open spec fn is_link_walk<E, W>(edges: Seq<EdgeRecord<E, W>>, allowed: Seq<int>, walk: Seq<int>) -> bool {
    &&& walk.len() >= 1
    &&& forall|i: int| 0 <= i < walk.len() - 1 ==> links(edges, allowed, #[trigger] walk[i], walk[i + 1])
}

/// Over the records `allowed` one gets from `x` to `y`.
pub open spec fn linked_by<E, W>(edges: Seq<EdgeRecord<E, W>>, allowed: Seq<int>, x: int, y: int) -> bool {
    exists|walk: Seq<int>|
        #[trigger] is_link_walk(edges, allowed, walk) && walk[0] == x && walk.last() == y
}

/// Every record of `order` joins two nodes below `n`.
pub open spec fn ends_below<E, W>(edges: Seq<EdgeRecord<E, W>>, order: Seq<int>, n: int) -> bool {
    forall|i: int|
        0 <= i < order.len() ==> 0 <= #[trigger] order[i] < edges.len() && edges[order[i]].from.0 < n
            && edges[order[i]].to.0 < n
}

/// Walks can be put end to end.
pub proof fn lemma_linked_transitive<E, W>(
    edges: Seq<EdgeRecord<E, W>>,
    allowed: Seq<int>,
    x: int,
    y: int,
    z: int,
)
    requires
        linked_by(edges, allowed, x, y),
        linked_by(edges, allowed, y, z),
    ensures
        linked_by(edges, allowed, x, z),
{
    let a = choose|walk: Seq<int>|
        #[trigger] is_link_walk(edges, allowed, walk) && walk[0] == x && walk.last() == y;
    let b = choose|walk: Seq<int>|
        #[trigger] is_link_walk(edges, allowed, walk) && walk[0] == y && walk.last() == z;
    let whole = a + b.drop_first();
    assert forall|p: int| 0 <= p < whole.len() - 1 implies links(
        edges,
        allowed,
        #[trigger] whole[p],
        whole[p + 1],
    ) by {
        if p < a.len() - 1 {
            assert(whole[p] == a[p] && whole[p + 1] == a[p + 1]);
            assert(links(edges, allowed, a[p], a[p + 1]));
        } else if p == a.len() - 1 {
            assert(whole[p] == b[0]);
            assert(whole[p + 1] == b[1]);
            assert(links(edges, allowed, b[0], b[1]));
        } else {
            let q = p - a.len() + 1;
            assert(whole[p] == b[q] && whole[p + 1] == b[q + 1]);
            assert(links(edges, allowed, b[q], b[q + 1]));
        }
    }
    assert(is_link_walk(edges, allowed, whole));
    assert(whole[0] == a[0]);
    if b.len() == 1 {
        assert(whole.last() == a.last());
    } else {
        assert(whole.last() == b.last());
    }
}

/// A walk can be walked backwards, and a node is linked to itself.
pub proof fn lemma_linked_symmetric<E, W>(edges: Seq<EdgeRecord<E, W>>, allowed: Seq<int>, x: int, y: int)
    requires
        linked_by(edges, allowed, x, y),
    ensures
        linked_by(edges, allowed, y, x),
        linked_by(edges, allowed, x, x),
{
    let a = choose|walk: Seq<int>|
        #[trigger] is_link_walk(edges, allowed, walk) && walk[0] == x && walk.last() == y;
    let back = Seq::new(a.len(), |i: int| a[a.len() - 1 - i]);
    assert forall|p: int| 0 <= p < back.len() - 1 implies links(
        edges,
        allowed,
        #[trigger] back[p],
        back[p + 1],
    ) by {
        let q = a.len() - 2 - p;
        assert(links(edges, allowed, a[q], a[q + 1]));
        let i = choose|i: int| 0 <= i < allowed.len() && joins(edges[#[trigger] allowed[i]], a[q], a[q + 1]);
        assert(joins(edges[allowed[i]], back[p], back[p + 1]));
    }
    assert(is_link_walk(edges, allowed, back) && back[0] == y && back.last() == x);
    let one = seq![x];
    assert(is_link_walk(edges, allowed, one) && one[0] == x && one.last() == x);
}

/// A walk over some records is a walk over any records that include them.
pub proof fn lemma_linked_more<E, W>(
    edges: Seq<EdgeRecord<E, W>>,
    allowed: Seq<int>,
    more: Seq<int>,
    x: int,
    y: int,
)
    requires
        linked_by(edges, allowed, x, y),
        forall|i: int| 0 <= i < allowed.len() ==> more.contains(#[trigger] allowed[i]),
    ensures
        linked_by(edges, more, x, y),
{
    let a = choose|walk: Seq<int>|
        #[trigger] is_link_walk(edges, allowed, walk) && walk[0] == x && walk.last() == y;
    assert forall|p: int| 0 <= p < a.len() - 1 implies links(edges, more, #[trigger] a[p], a[p + 1]) by {
        assert(links(edges, allowed, a[p], a[p + 1]));
        let i = choose|i: int| 0 <= i < allowed.len() && joins(edges[#[trigger] allowed[i]], a[p], a[p + 1]);
        assert(more.contains(allowed[i]));
        let j = choose|j: int| 0 <= j < more.len() && more[j] == allowed[i];
        assert(joins(edges[more[j]], a[p], a[p + 1]));
    }
    assert(is_link_walk(edges, more, a));
}

/// What holds of the labels and the accepted records after the first `k`
/// records of `order`: two nodes have the same label exactly if the
/// accepted records link them, the accepted records are among the first
/// `k`, and the ends of each of the first `k` records have the same label.
pub proof fn lemma_selection<E, W>(edges: Seq<EdgeRecord<E, W>>, n: int, order: Seq<int>, k: int)
    requires
        0 <= k <= order.len(),
        0 <= n,
        ends_below(edges, order, n),
    ensures
        selection(edges, n, order, k).1.len() == n,
        forall|i: int|
            0 <= i < selection(edges, n, order, k).0.len() ==> order.take(k).contains(
                #[trigger] selection(edges, n, order, k).0[i],
            ),
        forall|x: int, y: int|
            0 <= x < n && 0 <= y < n ==> ((#[trigger] selection(edges, n, order, k).1[x]
                == #[trigger] selection(edges, n, order, k).1[y]) <==> linked_by(
                edges,
                selection(edges, n, order, k).0,
                x,
                y,
            )),
        forall|i: int|
            0 <= i < k ==> selection(edges, n, order, k).1[edges[#[trigger] order[i]].from.0 as int]
                == selection(edges, n, order, k).1[edges[order[i]].to.0 as int],
    decreases k,
{
    let now = selection(edges, n, order, k);
    if k == 0 {
        assert forall|x: int, y: int| 0 <= x < n && 0 <= y < n implies ((#[trigger] now.1[x]
            == #[trigger] now.1[y]) <==> linked_by(edges, now.0, x, y)) by {
            if x == y {
                let one = seq![x];
                assert(is_link_walk(edges, now.0, one) && one[0] == x && one.last() == y);
            }
            if linked_by(edges, now.0, x, y) {
                let walk = choose|walk: Seq<int>|
                    #[trigger] is_link_walk(edges, now.0, walk) && walk[0] == x && walk.last() == y;
                if walk.len() > 1 {
                    assert(links(edges, now.0, walk[0], walk[1]));
                }
            }
        }
    } else {
        lemma_selection(edges, n, order, k - 1);
        let before = selection(edges, n, order, k - 1);
        let e = order[k - 1];
        let a = edges[e].from.0 as int;
        let b = edges[e].to.0 as int;
        assert(order.take(k)[k - 1] == e);
        assert forall|i: int| 0 <= i < now.0.len() implies order.take(k).contains(
            #[trigger] now.0[i],
        ) by {
            if i < before.0.len() {
                assert(now.0[i] == before.0[i]);
                let prefix = order.take(k - 1);
                assert(prefix.contains(before.0[i]));
                let j = choose|j: int| 0 <= j < prefix.len() && prefix[j] == before.0[i];
                assert(order.take(k)[j] == before.0[i]);
            }
        }
        assert forall|i: int| 0 <= i < before.0.len() implies now.0.contains(
            #[trigger] before.0[i],
        ) by {
            assert(now.0[i] == before.0[i]);
        }
        if before.1[a] != before.1[b] {
            assert(now.0[before.0.len() as int] == e);
            assert(joins(edges[now.0[before.0.len() as int]], a, b));
            let two = seq![a, b];
            assert(is_link_walk(edges, now.0, two) && two[0] == a && two.last() == b) by {
                assert(links(edges, now.0, two[0], two[1]));
            }
            assert(linked_by(edges, now.0, a, b));
        }
        assert forall|x: int, y: int| 0 <= x < n && 0 <= y < n implies ((#[trigger] now.1[x]
            == #[trigger] now.1[y]) <==> linked_by(edges, now.0, x, y)) by {
            assert((before.1[x] == before.1[y]) <==> linked_by(edges, before.0, x, y));
            assert((before.1[x] == before.1[a]) <==> linked_by(edges, before.0, x, a));
            assert((before.1[x] == before.1[b]) <==> linked_by(edges, before.0, x, b));
            assert((before.1[y] == before.1[a]) <==> linked_by(edges, before.0, y, a));
            assert((before.1[y] == before.1[b]) <==> linked_by(edges, before.0, y, b));
            if now.1[x] == now.1[y] {
                if before.1[x] == before.1[y] {
                    lemma_linked_more(edges, before.0, now.0, x, y);
                } else {
                    // one of the two had the label of `b`, the other that of `a`
                    if before.1[x] == before.1[b] {
                        lemma_linked_more(edges, before.0, now.0, x, b);
                        lemma_linked_more(edges, before.0, now.0, y, a);
                        lemma_linked_symmetric(edges, now.0, y, a);
                        lemma_linked_symmetric(edges, now.0, a, b);
                        lemma_linked_transitive(edges, now.0, x, b, a);
                        lemma_linked_transitive(edges, now.0, x, a, y);
                    } else {
                        lemma_linked_more(edges, before.0, now.0, x, a);
                        lemma_linked_more(edges, before.0, now.0, y, b);
                        lemma_linked_symmetric(edges, now.0, y, b);
                        lemma_linked_transitive(edges, now.0, x, a, b);
                        lemma_linked_transitive(edges, now.0, x, b, y);
                    }
                }
            }
            if linked_by(edges, now.0, x, y) {
                let walk = choose|walk: Seq<int>|
                    #[trigger] is_link_walk(edges, now.0, walk) && walk[0] == x && walk.last() == y;
                lemma_walk_keeps_label(edges, n, order, k, walk, walk.len() - 1);
            }
        }
        assert forall|i: int| 0 <= i < k implies now.1[edges[#[trigger] order[i]].from.0 as int]
            == now.1[edges[order[i]].to.0 as int] by {
            if i < k - 1 {
                assert(before.1[edges[order[i]].from.0 as int] == before.1[edges[order[i]].to.0 as int]);
            }
        }
    }
}

/// Along a walk over the accepted records the label does not change.
pub proof fn lemma_walk_keeps_label<E, W>(
    edges: Seq<EdgeRecord<E, W>>,
    n: int,
    order: Seq<int>,
    k: int,
    walk: Seq<int>,
    upto: int,
)
    requires
        1 <= k <= order.len(),
        0 <= n,
        ends_below(edges, order, n),
        is_link_walk(edges, selection(edges, n, order, k).0, walk),
        0 <= walk[0] < n,
        0 <= upto < walk.len(),
        selection(edges, n, order, k - 1).1.len() == n,
        forall|i: int|
            0 <= i < selection(edges, n, order, k - 1).0.len() ==> order.take(k - 1).contains(
                #[trigger] selection(edges, n, order, k - 1).0[i],
            ),
        forall|x: int, y: int|
            0 <= x < n && 0 <= y < n ==> ((#[trigger] selection(edges, n, order, k - 1).1[x]
                == #[trigger] selection(edges, n, order, k - 1).1[y]) <==> linked_by(
                edges,
                selection(edges, n, order, k - 1).0,
                x,
                y,
            )),
    ensures
        0 <= walk[upto] < n,
        selection(edges, n, order, k).1[walk[0]] == selection(edges, n, order, k).1[walk[upto]],
    decreases upto,
{
    if upto > 0 {
        lemma_walk_keeps_label(edges, n, order, k, walk, upto - 1);
        let now = selection(edges, n, order, k);
        let before = selection(edges, n, order, k - 1);
        let u = walk[upto - 1];
        let v = walk[upto];
        assert(links(edges, now.0, u, v));
        let i = choose|i: int| 0 <= i < now.0.len() && joins(edges[#[trigger] now.0[i]], u, v);
        let e = order[k - 1];
        let a = edges[e].from.0 as int;
        let b = edges[e].to.0 as int;
        if i < before.0.len() {
            assert(now.0[i] == before.0[i]);
            let prefix = order.take(k - 1);
            assert(prefix.contains(before.0[i]));
            let j = choose|j: int| 0 <= j < prefix.len() && prefix[j] == before.0[i];
            assert(order[j] == before.0[i]);
            assert(joins(edges[before.0[i]], u, v));
            let two = seq![u, v];
            assert(is_link_walk(edges, before.0, two) && two[0] == u && two.last() == v) by {
                assert(links(edges, before.0, two[0], two[1]));
            }
            assert(linked_by(edges, before.0, u, v));
            assert(before.1[u] == before.1[v]);
        } else {
            assert(now.0[i] == e);
        }
    }
}

/// The accepted records form a forest: a record is accepted only if the
/// records accepted before it do not link its ends.
pub proof fn lemma_kruskal_forest<E, W>(edges: Seq<EdgeRecord<E, W>>, n: int, order: Seq<int>, k: int)
    requires
        1 <= k <= order.len(),
        0 <= n,
        ends_below(edges, order, n),
    ensures
        selection(edges, n, order, k).0.len() > selection(edges, n, order, k - 1).0.len() <==> !linked_by(
            edges,
            selection(edges, n, order, k - 1).0,
            edges[order[k - 1]].from.0 as int,
            edges[order[k - 1]].to.0 as int,
        ),
{
    lemma_selection(edges, n, order, k - 1);
    let before = selection(edges, n, order, k - 1);
    let a = edges[order[k - 1]].from.0 as int;
    let b = edges[order[k - 1]].to.0 as int;
    assert((before.1[a] == before.1[b]) <==> linked_by(edges, before.0, a, b));
}

/// The accepted records span what the listed records span: two nodes that
/// the records of `order` link are linked by the accepted records.
pub proof fn lemma_kruskal_spans<E, W>(
    edges: Seq<EdgeRecord<E, W>>,
    n: int,
    order: Seq<int>,
    x: int,
    y: int,
)
    requires
        0 <= n,
        ends_below(edges, order, n),
        0 <= x < n,
        0 <= y < n,
        linked_by(edges, order, x, y),
    ensures
        linked_by(edges, selection(edges, n, order, order.len() as int).0, x, y),
{
    let k = order.len() as int;
    lemma_selection(edges, n, order, k);
    let last = selection(edges, n, order, k);
    let walk = choose|walk: Seq<int>|
        #[trigger] is_link_walk(edges, order, walk) && walk[0] == x && walk.last() == y;
    lemma_listed_walk(edges, n, order, walk, walk.len() - 1);
    assert((last.1[x] == last.1[y]) <==> linked_by(edges, last.0, x, y));
}

/// Along a walk over the listed records the final label does not change.
pub proof fn lemma_listed_walk<E, W>(
    edges: Seq<EdgeRecord<E, W>>,
    n: int,
    order: Seq<int>,
    walk: Seq<int>,
    upto: int,
)
    requires
        0 <= n,
        ends_below(edges, order, n),
        is_link_walk(edges, order, walk),
        0 <= walk[0] < n,
        0 <= upto < walk.len(),
        forall|i: int|
            0 <= i < order.len() ==> selection(edges, n, order, order.len() as int).1[edges[#[trigger] order[i]].from.0 as int]
                == selection(edges, n, order, order.len() as int).1[edges[order[i]].to.0 as int],
    ensures
        0 <= walk[upto] < n,
        selection(edges, n, order, order.len() as int).1[walk[0]] == selection(
            edges,
            n,
            order,
            order.len() as int,
        ).1[walk[upto]],
    decreases upto,
{
    if upto > 0 {
        lemma_listed_walk(edges, n, order, walk, upto - 1);
        assert(links(edges, order, walk[upto - 1], walk[upto]));
        let i = choose|i: int|
            0 <= i < order.len() && joins(edges[#[trigger] order[i]], walk[upto - 1], walk[upto]);
    }
}

/// For every node whether it carries its own index as its label, which
/// makes it the one node of its component that stands for it.
pub open spec fn stands_for_itself(labels: Seq<int>) -> Seq<bool> {
    Seq::new(labels.len(), |x: int| labels[x] == x)
}

/// Every accepted record lowers the number of components by one: the
/// accepted records and the components of their forest are together as
/// many as there are nodes. So a graph with a node has fewer accepted
/// records than nodes.
pub proof fn lemma_kruskal_count<E, W>(edges: Seq<EdgeRecord<E, W>>, n: int, order: Seq<int>, k: int)
    requires
        0 <= k <= order.len(),
        0 <= n,
        ends_below(edges, order, n),
    ensures
        selection(edges, n, order, k).1.len() == n,
        forall|x: int|
            0 <= x < n ==> 0 <= #[trigger] selection(edges, n, order, k).1[x] < n && selection(
                edges,
                n,
                order,
                k,
            ).1[selection(edges, n, order, k).1[x]] == selection(edges, n, order, k).1[x],
        selection(edges, n, order, k).0.len() + count_in_row(
            stands_for_itself(selection(edges, n, order, k).1),
            true,
        ) == n,
        n >= 1 ==> selection(edges, n, order, k).0.len() <= n - 1,
    decreases k,
{
    let now = selection(edges, n, order, k);
    if k == 0 {
        lemma_all_stand(now.1, n);
    } else {
        lemma_kruskal_count(edges, n, order, k - 1);
        let before = selection(edges, n, order, k - 1);
        let e = order[k - 1];
        let a = edges[e].from.0 as int;
        let b = edges[e].to.0 as int;
        if before.1[a] != before.1[b] {
            let gone = before.1[b];
            let kept = before.1[a];
            assert(before.1[gone] == gone);
            assert(before.1[kept] == kept);
            assert(stands_for_itself(now.1) =~= stands_for_itself(before.1).update(gone, false)) by {
                assert forall|x: int| 0 <= x < n implies stands_for_itself(now.1)[x]
                    == stands_for_itself(before.1).update(gone, false)[x] by {
                    assert(before.1[before.1[x]] == before.1[x]);
                }
            }
            lemma_count_in_row_update(stands_for_itself(before.1), gone, false, true);
            assert forall|x: int| 0 <= x < n implies 0 <= #[trigger] now.1[x] < n && now.1[now.1[x]]
                == now.1[x] by {
                assert(before.1[before.1[x]] == before.1[x]);
            }
        }
    }
    if n >= 1 {
        let first = now.1[0];
        assert(now.1[first] == first);
        lemma_count_positive(stands_for_itself(now.1), first);
    }
}

/// With every node as its own label, every node stands for itself.
pub proof fn lemma_all_stand(labels: Seq<int>, n: int)
    requires
        0 <= n,
        labels == Seq::new(n as nat, |x: int| x),
    ensures
        count_in_row(stands_for_itself(labels), true) == n,
    decreases n,
{
    if n > 0 {
        let front = Seq::new((n - 1) as nat, |x: int| x);
        lemma_all_stand(front, n - 1);
        assert(stands_for_itself(labels).drop_last() =~= stands_for_itself(front));
    }
}

/// A row with a set flag has at least one set flag.
pub proof fn lemma_count_positive(row: Seq<bool>, i: int)
    requires
        0 <= i < row.len(),
        row[i],
    ensures
        count_in_row(row, true) >= 1,
    decreases row.len(),
{
    lemma_count_in_row_nonnegative(row.drop_last(), true);
    if i < row.len() - 1 {
        lemma_count_positive(row.drop_last(), i);
    }
}

} // verus!
