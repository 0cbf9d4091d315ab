//! Single-source lightest paths for non-negative integer weights.

use vstd::prelude::*;
use indexmap::IndexSet;
use crate::base::{EdgeId, NodeId, NodeKey};
use crate::counting::lemma_remove_value;
use crate::insertion_set::{
    set_contains, set_get_index, set_is_empty, set_items, set_len, set_of_range, set_shift_remove,
};
use crate::storage::scan::unknown_table;
use crate::traits::{has_edge, EdgeWeights, GraphBase};
use crate::wrappers::Graph;

verus! {

/// The record `e` carries a weight and is reported by the backend for its
/// own pair of endpoints, so a path may run over it.
pub open spec fn usable<G: GraphBase<Weight = i32>>(g: &G, e: int) -> bool {
    &&& 0 <= e < g.edges().len()
    &&& g.edges()[e].weight is Some
    &&& g.between(g.edges()[e].from, g.edges()[e].to).contains(EdgeId(e as usize))
}

/// The weight of a weighted record.
pub open spec fn cost<G: GraphBase<Weight = i32>>(g: &G, e: int) -> int {
    g.edges()[e].weight->Some_0 as int
}

/// `p` lists the records of a walk from node `s` to node `t`.
pub open spec fn is_walk<G: GraphBase<Weight = i32>>(g: &G, p: Seq<int>, s: int, t: int) -> bool
    decreases p.len(),
{
    if p.len() == 0 {
        s == t
    } else {
        &&& usable(g, p.last())
        &&& g.edges()[p.last()].to.0 == t
        &&& is_walk(g, p.drop_last(), s, g.edges()[p.last()].from.0 as int)
    }
}

/// The sum of the weights along `p`.
pub open spec fn walk_cost<G: GraphBase<Weight = i32>>(g: &G, p: Seq<int>) -> int
    decreases p.len(),
{
    if p.len() == 0 {
        0
    } else {
        walk_cost(g, p.drop_last()) + cost(g, p.last())
    }
}

/// The nodes at which the records of `p` arrive, in order.
pub open spec fn walk_ends<G: GraphBase<Weight = i32>>(g: &G, p: Seq<int>) -> Seq<int> {
    Seq::new(p.len(), |i: int| g.edges()[p[i]].to.0 as int)
}

/// The walk `p` from `s` comes to no node twice, and never back to `s`.
pub open spec fn is_simple<G: GraphBase<Weight = i32>>(g: &G, p: Seq<int>, s: int) -> bool {
    walk_ends(g, p).no_duplicates() && !walk_ends(g, p).contains(s)
}

/// No usable weight is negative, and the weights along a walk from the
/// node `s` that comes to no node twice never sum to more than an `i32`
/// holds.
pub open spec fn weights_fit<G: GraphBase<Weight = i32>>(g: &G, s: int) -> bool {
    &&& forall|e: int| #[trigger] usable(g, e) ==> 0 <= cost(g, e)
    &&& forall|p: Seq<int>, t: int|
        #[trigger] is_walk(g, p, s, t) && is_simple(g, p, s) ==> walk_cost(g, p) <= i32::MAX
}

/// All nodes that the walk `p` comes to before its end are visited.
pub open spec fn runs_through<G: GraphBase<Weight = i32>>(
    g: &G,
    p: Seq<int>,
    unvisited: Seq<usize>,
) -> bool {
    forall|i: int| 0 <= i < p.len() - 1 ==> !unvisited.contains((#[trigger] walk_ends(g, p)[i]) as usize)
}

/// A walk through visited nodes that ends at a visited node stays simple,
/// and runs through visited nodes, when it goes on to a node that is not
/// visited.
pub proof fn lemma_walk_extended<G: GraphBase<Weight = i32>>(
    g: &G,
    p: Seq<int>,
    e: int,
    s: int,
    u: int,
    unvisited: Seq<usize>,
)
    requires
        g.wf(),
        is_walk(g, p, s, u),
        is_simple(g, p, s),
        runs_through(g, p, unvisited),
        0 <= u < g.keys().len(),
        !unvisited.contains(u as usize),
        usable(g, e),
        g.edges()[e].from.0 == u,
        unvisited.contains(g.edges()[e].to.0),
        g.edges()[e].to.0 != s,
    ensures
        is_simple(g, p.push(e), s),
        runs_through(g, p.push(e), unvisited),
{
    let t = g.edges()[e].to.0 as int;
    let longer = p.push(e);
    let ends = walk_ends(g, p);
    let more = walk_ends(g, longer);
    g.lemma_wf();
    assert forall|i: int| 0 <= i < p.len() implies more[i] == ends[i] && !unvisited.contains(
        ends[i] as usize,
    ) by {
        assert(longer[i] == p[i]);
        if i == p.len() - 1 {
            assert(p.last() == p[i]);
            assert(ends[i] == u);
        } else {
            assert(!unvisited.contains(walk_ends(g, p)[i] as usize));
        }
    }
    assert(more[p.len() as int] == t);
    assert forall|i: int, j: int| 0 <= i < more.len() && 0 <= j < more.len() && i != j implies more[i]
        != more[j] by {
        if i < p.len() && j < p.len() {
            assert(ends[i] != ends[j]);
        } else if i < p.len() {
            assert(!unvisited.contains(ends[i] as usize));
        } else {
            assert(!unvisited.contains(ends[j] as usize));
        }
    }
    if more.contains(s) {
        let i = choose|i: int| 0 <= i < more.len() && more[i] == s;
        if i < p.len() {
            assert(ends[i] == s);
            assert(ends.contains(s));
        }
    }
    assert forall|i: int| 0 <= i < longer.len() - 1 implies !unvisited.contains(
        (#[trigger] walk_ends(g, longer)[i]) as usize,
    ) by {
        assert(more[i] == ends[i]);
    }
}

/// `a` is at most `b`, where an unknown distance is larger than any known one.
pub open spec fn no_farther(a: Option<i32>, b: Option<i32>) -> bool {
    b is Some ==> a is Some && a->Some_0 <= b->Some_0
}

/// `dist` holds, for every node, the least weight of a walk from `s`, and
/// `None` exactly where no walk arrives.
pub open spec fn lightest_weights<G: GraphBase<Weight = i32>>(
    g: &G,
    s: int,
    dist: Seq<Option<i32>>,
) -> bool {
    &&& dist.len() == g.keys().len()
    &&& forall|t: int|
        0 <= t < dist.len() && (#[trigger] dist[t]) is Some ==> exists|p: Seq<int>|
            #[trigger] is_walk(g, p, s, t) && walk_cost(g, p) == dist[t]->Some_0
    &&& forall|t: int, p: Seq<int>|
        0 <= t < dist.len() && #[trigger] is_walk(g, p, s, t) ==> dist[t] is Some
            && dist[t]->Some_0 <= walk_cost(g, p)
}

/// Every predecessor link runs over a usable record whose weight accounts
/// for the difference of the two distances; every reached node but `s` has
/// a link, and no other node has one.
pub open spec fn links_explain<G: GraphBase<Weight = i32>>(
    g: &G,
    s: int,
    dist: Seq<Option<i32>>,
    preds: Seq<Option<NodeId>>,
) -> bool {
    &&& preds.len() == dist.len()
    &&& forall|t: int|
        0 <= t < preds.len() ==> match #[trigger] preds[t] {
            Some(u) => {
                &&& t != s
                &&& u.0 < dist.len()
                &&& dist[u.0 as int] is Some
                &&& dist[t] is Some
                &&& exists|e: int|
                    #[trigger] usable(g, e) && g.edges()[e].from == u && g.edges()[e].to.0 == t
                        && dist[t]->Some_0 == dist[u.0 as int]->Some_0 + cost(g, e)
            },
            None => t == s || dist[t] is None,
        }
}

/// The records `p` lead along the nodes of `chain`, one record for each
/// link.
pub open spec fn runs_along<G: GraphBase<Weight = i32>>(g: &G, p: Seq<int>, chain: Seq<int>) -> bool {
    &&& p.len() + 1 == chain.len()
    &&& forall|i: int|
        0 <= i < p.len() ==> usable(g, #[trigger] p[i]) && g.edges()[p[i]].from.0 == chain[i]
            && g.edges()[p[i]].to.0 == chain[i + 1]
}

/// The path that the predecessor links give has the weight of its
/// target: along the chain of links from the start to a node with a known
/// weight run records whose weights sum to that weight.
pub proof fn lemma_chain_weight<G: GraphBase<Weight = i32>>(
    g: &G,
    s: int,
    dist: Seq<Option<i32>>,
    preds: Seq<Option<NodeId>>,
    chain: Seq<int>,
    target: int,
)
    requires
        g.wf(),
        0 <= s < dist.len(),
        dist.len() == g.keys().len(),
        dist[s] == Some(0i32),
        links_explain(g, s, dist, preds),
        is_chain(preds, chain, target),
        dist[target] is Some,
    ensures
        chain[0] == s,
        exists|p: Seq<int>|
            #[trigger] is_walk(g, p, s, target) && runs_along(g, p, chain) && walk_cost(g, p)
                == dist[target]->Some_0,
    decreases chain.len(),
{
    if chain.len() == 1 {
        let p = Seq::<int>::empty();
        assert(preds[target] is None);
        assert(is_walk(g, p, s, target) && runs_along(g, p, chain) && walk_cost(g, p) == 0);
    } else {
        let last = chain.len() - 1;
        let u = chain[last - 1];
        g.lemma_wf();
        assert(preds[chain[last]] == Some(NodeId(u as usize)));
        assert(chain[last] == target);
        assert(0 <= chain[last - 1] < preds.len());
        assert(NodeId(u as usize).0 as int == u);
        assert(preds[target] is Some);
        assert(dist[NodeId(u as usize).0 as int] is Some);
        let front = chain.drop_last();
        assert forall|i: int| 1 <= i < front.len() implies preds[#[trigger] front[i]] == Some(
            NodeId(front[i - 1] as usize),
        ) by {
            assert(front[i] == chain[i]);
            assert(preds[chain[i]] == Some(NodeId(chain[i - 1] as usize)));
        }
        assert(is_chain(preds, front, u));
        assert(dist[u] is Some);
        lemma_chain_weight(g, s, dist, preds, front, u);
        let q = choose|q: Seq<int>|
            #[trigger] is_walk(g, q, s, u) && runs_along(g, q, front) && walk_cost(g, q)
                == dist[u]->Some_0;
        let e = choose|e: int|
            #[trigger] usable(g, e) && g.edges()[e].from == NodeId(u as usize) && g.edges()[e].to.0
                == target && dist[target]->Some_0 == dist[u]->Some_0 + cost(g, e);
        let p = q.push(e);
        assert(p.drop_last() =~= q);
        assert(is_walk(g, p, s, target));
        assert forall|i: int| 0 <= i < p.len() implies usable(g, #[trigger] p[i]) && g.edges()[p[i]].from.0
            == chain[i] && g.edges()[p[i]].to.0 == chain[i + 1] by {
            if i < q.len() {
                assert(p[i] == q[i]);
                assert(front[i] == chain[i] && front[i + 1] == chain[i + 1]);
            }
        }
        assert(runs_along(g, p, chain));
        assert(walk_cost(g, p) == dist[target]->Some_0);
    }
}

/// Why `dijkstra` gave no result.
#[derive(Clone, Copy, Debug, PartialEq, Eq, Structural)]
pub enum DijkstraError {
    /// The start key names no node of the graph.
    StartNotFound,
}

/// Why `lightest_path_to` gave no path.
#[derive(Clone, Copy, Debug, PartialEq, Eq, Structural)]
pub enum PathError {
    /// The target key names no node of the result.
    TargetNotFound,
    /// The target cannot be reached from the start node.
    NoPath,
}

/// Tentative weights and predecessor links as Dijkstra's algorithm leaves
/// them, indexed by node id.
pub struct DijkstraResult<K: NodeKey> {
    pub nodes: Vec<K>,
    pub tentative_weights: Vec<Option<i32>>,
    pub predecessors: Vec<Option<NodeId>>,
}

/// `rank` grows along every predecessor link.
pub open spec fn ranked(preds: Seq<Option<NodeId>>, rank: Seq<nat>) -> bool {
    &&& rank.len() == preds.len()
    &&& forall|t: int|
        0 <= t < preds.len() && (#[trigger] preds[t]) is Some ==> preds[t]->Some_0.0 < preds.len()
            && rank[preds[t]->Some_0.0 as int] < rank[t]
}

/// `chain` follows the predecessor links from a node without predecessor
/// down to `target`.
pub open spec fn is_chain(preds: Seq<Option<NodeId>>, chain: Seq<int>, target: int) -> bool {
    &&& chain.len() >= 1
    &&& chain.last() == target
    &&& forall|i: int| 0 <= i < chain.len() ==> 0 <= #[trigger] chain[i] < preds.len()
    &&& preds[chain[0]] is None
    &&& forall|i: int|
        1 <= i < chain.len() ==> preds[#[trigger] chain[i]] == Some(NodeId(chain[i - 1] as usize))
}

impl<K: NodeKey> DijkstraResult<K> {
    /// The views of the node keys, by node id.
    pub open spec fn keys(&self) -> Seq<K::V> {
        Seq::new(self.nodes@.len(), |i: int| self.nodes@[i]@)
    }

    /// The three tables have one entry per node, and the predecessor links
    /// never run in a circle.
    pub open spec fn wf(&self) -> bool {
        &&& self.tentative_weights@.len() == self.nodes@.len()
        &&& self.predecessors@.len() == self.nodes@.len()
        &&& exists|rank: Seq<nat>| #[trigger] ranked(self.predecessors@, rank)
    }

    /// The weight of the lightest path to `target`, and the keys along it
    /// from the start node on.
    ///
    /// Fails with `TargetNotFound` if no node has the key `target`, and with
    /// `NoPath` if the first node with that key has no known distance.
    pub fn lightest_path_to(&self, target: &K) -> (outcome: Result<(i32, Vec<K>), PathError>)
        requires
            self.wf(),
        ensures
            outcome == Err::<(i32, Vec<K>), PathError>(PathError::TargetNotFound)
                <==> !self.keys().contains(target@),
            outcome == Err::<(i32, Vec<K>), PathError>(PathError::NoPath) <==> self.keys().contains(
                target@,
            ) && self.tentative_weights@[self.keys().index_of_first(target@).unwrap()] is None,
            match outcome {
                Ok((weight, path)) => {
                    let ti = self.keys().index_of_first(target@).unwrap();
                    &&& self.tentative_weights@[ti] == Some(weight)
                    &&& exists|chain: Seq<int>|
                        {
                            &&& #[trigger] is_chain(self.predecessors@, chain, ti)
                            &&& path@.len() == chain.len()
                            &&& forall|i: int|
                                0 <= i < chain.len() ==> (#[trigger] path@[i])@
                                    == self.keys()[chain[i]]
                        }
                },
                Err(_) => true,
            },
    {
        proof {
            self.keys().index_of_first_ensures(target@);
        }
        let mut ti: usize = 0;
        while ti < self.nodes.len() && !self.nodes[ti].key_eq(target)
            invariant
                ti <= self.nodes@.len(),
                forall|j: int| 0 <= j < ti ==> self.keys()[j] != target@,
            decreases self.nodes@.len() - ti,
        {
            ti += 1;
        }
        if ti >= self.nodes.len() {
            return Err(PathError::TargetNotFound);
        }
        assert(self.keys()[ti as int] == target@);
        assert(self.keys().index_of_first(target@).unwrap() == ti);
        let weight = match self.tentative_weights[ti] {
            Some(w) => w,
            None => {
                return Err(PathError::NoPath);
            },
        };
        let ghost rank = choose|rank: Seq<nat>| #[trigger] ranked(self.predecessors@, rank);
        let mut reversed: Vec<K> = Vec::new();
        let ghost mut tail: Seq<int> = Seq::empty();
        let mut current: usize = ti;
        let mut link = self.predecessors[current];
        while link.is_some()
            invariant
                self.wf(),
                link == self.predecessors@[current as int],
                ranked(self.predecessors@, rank),
                current < self.nodes@.len(),
                reversed@.len() == tail.len(),
                forall|i: int| 0 <= i < tail.len() ==> 0 <= #[trigger] tail[i] < self.nodes@.len(),
                forall|i: int|
                    0 <= i < tail.len() ==> (#[trigger] reversed@[i])@ == self.keys()[tail[i]],
                tail.len() == 0 ==> current == ti,
                tail.len() > 0 ==> tail[0] == ti && self.predecessors@[tail.last()] == Some(
                    NodeId(current),
                ),
                forall|i: int|
                    1 <= i < tail.len() ==> self.predecessors@[#[trigger] tail[i - 1]] == Some(
                        NodeId(tail[i] as usize),
                    ),
            decreases rank[current as int],
        {
            reversed.push(self.nodes[current].key_clone());
            proof {
                tail = tail.push(current as int);
            }
            current = link.unwrap().0;
            link = self.predecessors[current];
        }
        reversed.push(self.nodes[current].key_clone());
        proof {
            tail = tail.push(current as int);
        }
        let path = reverse_keys(reversed);
        proof {
            let chain = tail.reverse();
            assert forall|i: int| 1 <= i < chain.len() implies self.predecessors@[#[trigger] chain[i]]
                == Some(NodeId(chain[i - 1] as usize)) by {
                let j = chain.len() - i;
                assert(chain[i] == tail[j - 1]);
                assert(chain[i - 1] == tail[j]);
            }
            assert(is_chain(self.predecessors@, chain, ti as int));
            assert forall|i: int| 0 <= i < chain.len() implies (#[trigger] path@[i])@
                == self.keys()[chain[i]] by {
                assert(path@[i]@ == reversed@[chain.len() - 1 - i]@);
            }
        }
        Ok((weight, path))
    }
}

/// The keys of `keys` in the opposite order.
pub fn reverse_keys<K: NodeKey>(keys: Vec<K>) -> (reversed: Vec<K>)
    ensures
        reversed@.len() == keys@.len(),
        forall|i: int|
            0 <= i < keys@.len() ==> (#[trigger] reversed@[i])@ == keys@[keys@.len() - 1 - i]@,
{
    let mut reversed: Vec<K> = Vec::new();
    let mut i: usize = keys.len();
    while i > 0
        invariant
            i <= keys@.len(),
            reversed@.len() == keys@.len() - i,
            forall|j: int|
                0 <= j < reversed@.len() ==> (#[trigger] reversed@[j])@ == keys@[keys@.len() - 1
                    - j]@,
        decreases i,
    {
        i -= 1;
        reversed.push(keys[i].key_clone());
    }
    reversed
}

/// The unvisited node with the least tentative weight; among several, the
/// one that comes first in the set.
pub fn closest_unvisited(unvisited: &IndexSet<usize>, dist: &Vec<Option<i32>>) -> (best: usize)
    requires
        set_items(*unvisited).len() > 0,
        forall|i: int|
            0 <= i < set_items(*unvisited).len() ==> (#[trigger] set_items(*unvisited)[i])
                < dist@.len(),
    ensures
        set_items(*unvisited).contains(best),
        forall|u: usize| #[trigger]
            set_items(*unvisited).contains(u) ==> no_farther(dist@[best as int], dist@[u as int]),
{
    let ghost items = set_items(*unvisited);
    let n = set_len(unvisited);
    let mut best: usize = set_get_index(unvisited, 0).unwrap();
    let mut i: usize = 1;
    while i < n
        invariant
            items == set_items(*unvisited),
            n == items.len(),
            1 <= i <= n,
            forall|j: int| 0 <= j < items.len() ==> (#[trigger] items[j]) < dist@.len(),
            items.contains(best),
            forall|j: int|
                0 <= j < i ==> no_farther(dist@[best as int], dist@[(#[trigger] items[j]) as int]),
        decreases n - i,
    {
        let candidate = set_get_index(unvisited, i).unwrap();
        let closer = match (dist[candidate], dist[best]) {
            (Some(c), Some(b)) => c < b,
            (Some(_), None) => true,
            (None, _) => false,
        };
        if closer {
            best = candidate;
        }
        i += 1;
    }
    best
}

/// The lightest usable record from `from` to `to`, if there is one; among
/// several of the same weight, the first that the backend reports.
pub fn lightest_edge<G>(graph: &G, from: NodeId, to: NodeId) -> (found: Option<(EdgeId, i32)>)
    where G: Graph + EdgeWeights<Weight = i32>
    requires
        graph.wf(),
    ensures
        match found {
            Some((e, w)) => {
                &&& usable(graph, e.0 as int)
                &&& graph.edges()[e.0 as int].from == from
                &&& graph.edges()[e.0 as int].to == to
                &&& cost(graph, e.0 as int) == w
                &&& forall|o: int|
                    #[trigger] usable(graph, o) && graph.edges()[o].from == from && graph.edges()[o].to
                        == to ==> w <= cost(graph, o)
            },
            None => forall|o: int| #[trigger]
                usable(graph, o) ==> !(graph.edges()[o].from == from && graph.edges()[o].to == to),
        },
{
    let ids = graph.edges_between(from, to);
    proof {
        graph.lemma_between(from, to);
        graph.lemma_wf();
    }
    let mut found: Option<(EdgeId, i32)> = None;
    let mut i: usize = 0;
    while i < ids.len()
        invariant
            graph.wf(),
            ids@ == graph.between(from, to),
            i <= ids@.len(),
            forall|k: int|
                0 <= k < ids@.len() ==> {
                    let e = #[trigger] ids@[k];
                    &&& e.0 < graph.edges().len()
                    &&& graph.edges()[e.0 as int].from == from
                    &&& graph.edges()[e.0 as int].to == to
                },
            match found {
                Some((e, w)) => {
                    &&& usable(graph, e.0 as int)
                    &&& graph.edges()[e.0 as int].from == from
                    &&& graph.edges()[e.0 as int].to == to
                    &&& cost(graph, e.0 as int) == w
                    &&& forall|k: int|
                        0 <= k < i && graph.edges()[(#[trigger] ids@[k]).0 as int].weight is Some
                            ==> w <= cost(graph, ids@[k].0 as int)
                },
                None => forall|k: int|
                    0 <= k < i ==> graph.edges()[(#[trigger] ids@[k]).0 as int].weight is None,
            },
        decreases ids@.len() - i,
    {
        let e = ids[i];
        assert(ids@.contains(e));
        match graph.weight_of(e) {
            Some(w) => {
                let lighter = match found {
                    Some((_, best)) => w < best,
                    None => true,
                };
                if lighter {
                    found = Some((e, w));
                }
            },
            None => {},
        }
        i += 1;
    }
    proof {
        assert forall|o: int|
            #[trigger] usable(graph, o) && graph.edges()[o].from == from && graph.edges()[o].to
                == to implies match found {
            Some((e, w)) => w <= cost(graph, o),
            None => false,
        } by {
            let k = choose|k: int| 0 <= k < ids@.len() && ids@[k] == EdgeId(o as usize);
            assert(ids@[k].0 == o);
        }
    }
    found
}

/// What holds of the tables of Dijkstra's algorithm between two steps,
/// apart from the relaxation of edges: `paths` justifies every known
/// weight, `rank` is the order in which nodes left `unvisited`, and `k`
/// counts them.
pub open spec fn tables_ok<G: GraphBase<Weight = i32>>(
    g: &G,
    s: int,
    dist: Seq<Option<i32>>,
    preds: Seq<Option<NodeId>>,
    unvisited: Seq<usize>,
    paths: Seq<Seq<int>>,
    rank: Seq<nat>,
    k: nat,
) -> bool {
    let n = g.keys().len();
    &&& 0 <= s < n
    &&& dist.len() == n
    &&& preds.len() == n
    &&& paths.len() == n
    &&& rank.len() == n
    &&& unvisited.no_duplicates()
    &&& forall|i: int| 0 <= i < unvisited.len() ==> (#[trigger] unvisited[i]) < n
    &&& k + unvisited.len() == n
    &&& dist[s] == Some(0i32)
    &&& forall|v: int|
        0 <= v < n && (#[trigger] dist[v]) is Some ==> {
            &&& 0 <= dist[v]->Some_0
            &&& is_walk(g, paths[v], s, v)
            &&& walk_cost(g, paths[v]) == dist[v]->Some_0
            &&& paths[v].len() <= k
            &&& is_simple(g, paths[v], s)
            &&& runs_through(g, paths[v], unvisited)
        }
    &&& forall|t: int|
        0 <= t < n ==> match #[trigger] preds[t] {
            Some(u) => {
                &&& t != s
                &&& u.0 < n
                &&& !unvisited.contains(u.0)
                &&& rank[u.0 as int] < k
                &&& (!unvisited.contains(t as usize) ==> rank[u.0 as int] < rank[t])
                &&& dist[u.0 as int] is Some
                &&& dist[t] is Some
                &&& exists|e: int|
                    #[trigger] usable(g, e) && g.edges()[e].from == u && g.edges()[e].to.0 == t
                        && dist[t]->Some_0 == dist[u.0 as int]->Some_0 + cost(g, e)
            },
            None => t == s || dist[t] is None,
        }
    &&& forall|v: int| 0 <= v < n && !unvisited.contains(v as usize) ==> (#[trigger] rank[v]) < k
    &&& forall|v: int, u: int|
        0 <= v < n && 0 <= u < n && !unvisited.contains(v as usize) && unvisited.contains(
            u as usize,
        ) ==> no_farther(#[trigger] dist[v], #[trigger] dist[u])
}

/// The record `e` cannot improve the weight at its head.
pub open spec fn edge_settled<G: GraphBase<Weight = i32>>(
    g: &G,
    dist: Seq<Option<i32>>,
    e: int,
) -> bool {
    let u = g.edges()[e].from.0 as int;
    let t = g.edges()[e].to.0 as int;
    dist[u] is Some ==> dist[t] is Some && dist[t]->Some_0 <= dist[u]->Some_0 + cost(g, e)
}

/// Every usable record that leaves a visited node other than `pending` is
/// settled.
pub open spec fn visited_settled<G: GraphBase<Weight = i32>>(
    g: &G,
    dist: Seq<Option<i32>>,
    unvisited: Seq<usize>,
    pending: int,
) -> bool {
    forall|e: int|
        #[trigger] usable(g, e) && !unvisited.contains(g.edges()[e].from.0) && g.edges()[e].from.0
            != pending ==> edge_settled(g, dist, e)
}

/// Once every usable record is settled and the start has weight zero, no
/// walk from the start is lighter than the weight at its end.
pub proof fn lemma_walk_bound<G: GraphBase<Weight = i32>>(
    g: &G,
    s: int,
    dist: Seq<Option<i32>>,
    p: Seq<int>,
    t: int,
)
    requires
        g.wf(),
        dist.len() == g.keys().len(),
        0 <= s < dist.len(),
        dist[s] == Some(0i32),
        forall|e: int| #[trigger] usable(g, e) ==> edge_settled(g, dist, e),
        is_walk(g, p, s, t),
    ensures
        0 <= t < dist.len(),
        dist[t] is Some,
        dist[t]->Some_0 <= walk_cost(g, p),
    decreases p.len(),
{
    if p.len() > 0 {
        let e = p.last();
        g.lemma_wf();
        lemma_walk_bound(g, s, dist, p.drop_last(), g.edges()[e].from.0 as int);
        assert(edge_settled(g, dist, e));
    }
}

/// Relaxes every usable record that leaves `current`, whose weight `reach`
/// is final, towards the nodes that are still unvisited.
fn relax_successors<G>(
    graph: &G,
    current: usize,
    reach: i32,
    unvisited: &IndexSet<usize>,
    dist: &mut Vec<Option<i32>>,
    preds: &mut Vec<Option<NodeId>>,
    Ghost(s): Ghost<int>,
    Ghost(paths): Ghost<Seq<Seq<int>>>,
    Ghost(rank): Ghost<Seq<nat>>,
    Ghost(k): Ghost<nat>,
) -> (new_paths: Ghost<Seq<Seq<int>>>) where G: Graph + EdgeWeights<Weight = i32>
    requires
        graph.wf(),
        weights_fit(graph, s),
        tables_ok(graph, s, old(dist)@, old(preds)@, set_items(*unvisited), paths, rank, k),
        visited_settled(graph, old(dist)@, set_items(*unvisited), current as int),
        current < old(dist)@.len(),
        !set_items(*unvisited).contains(current),
        old(dist)@[current as int] == Some(reach),
        paths[current as int].len() + 1 <= k,
        forall|v: int|
            0 <= v < old(dist)@.len() && !set_items(*unvisited).contains(v as usize) ==> no_farther(
                #[trigger] old(dist)@[v],
                Some(reach),
            ),
    ensures
        tables_ok(graph, s, final(dist)@, final(preds)@, set_items(*unvisited), new_paths@, rank, k),
        visited_settled(graph, final(dist)@, set_items(*unvisited), -1),
{
    let ghost items = set_items(*unvisited);
    let ghost n = graph.keys().len() as int;
    let ghost mut paths = paths;
    let next = graph.successors(NodeId(current));
    proof {
        graph.lemma_wf();
    }
    let mut i: usize = 0;
    while i < next.len()
        invariant
            graph.wf(),
            weights_fit(graph, s),
            items == set_items(*unvisited),
            n == graph.keys().len(),
            tables_ok(graph, s, dist@, preds@, items, paths, rank, k),
            visited_settled(graph, dist@, items, current as int),
            current < n,
            !items.contains(current),
            dist@[current as int] == Some(reach),
            paths[current as int].len() + 1 <= k,
            forall|v: int|
                0 <= v < n && !items.contains(v as usize) ==> no_farther(
                    #[trigger] dist@[v],
                    Some(reach),
                ),
            i <= next@.len(),
            forall|u: NodeId|
                next@.contains(u) <==> has_edge(graph.edges(), NodeId(current), u) || (
                graph.symmetric() && has_edge(graph.edges(), u, NodeId(current))),
            forall|j: int, e: int|
                0 <= j < i && #[trigger] usable(graph, e) && graph.edges()[e].from.0 == current
                    && graph.edges()[e].to == #[trigger] next@[j] && items.contains(next@[j].0)
                    ==> edge_settled(graph, dist@, e),
        decreases next@.len() - i,
    {
        let t = next[i];
        assert(next@.contains(t));
        proof {
            graph.lemma_wf();
        }
        if set_contains(unvisited, t.0) {
            assert(t.0 < n) by {
                let q = choose|q: int| 0 <= q < items.len() && items[q] == t.0;
            }
            match lightest_edge(graph, NodeId(current), t) {
                Some((e, w)) => {
                    let ghost path = paths[current as int].push(e.0 as int);
                    proof {
                        assert(usable(graph, e.0 as int));
                        assert(path.drop_last() =~= paths[current as int]);
                        assert(is_walk(graph, path, s, t.0 as int));
                        assert(walk_cost(graph, path) == reach + w);
                        assert(0 <= reach && 0 <= w);
                    }
                    let wide: i64 = reach as i64 + w as i64;
                    let improves = match dist[t.0] {
                        Some(d) => wide < d as i64,
                        None => true,
                    };
                    if improves {
                        proof {
                            assert(t.0 as int != s);
                            lemma_walk_extended(
                                graph,
                                paths[current as int],
                                e.0 as int,
                                s,
                                current as int,
                                items,
                            );
                            assert(reach + w <= i32::MAX);
                        }
                        let alt: i32 = reach + w;
                        let ghost old_dist = dist@;
                        dist.set(t.0, Some(alt));
                        preds.set(t.0, Some(NodeId(current)));
                        proof {
                            paths = paths.update(t.0 as int, path);
                            assert(t.0 != current);
                            assert(0 <= reach && 0 <= w);
                            assert(t.0 as int != s);
                            assert(is_walk(graph, path, s, t.0 as int));
                            assert(walk_cost(graph, path) == alt);
                            assert forall|o: int|
                                #[trigger] usable(graph, o) && !items.contains(
                                    graph.edges()[o].from.0,
                                ) && graph.edges()[o].from.0 != current as int implies edge_settled(
                                graph,
                                dist@,
                                o,
                            ) by {
                                assert(edge_settled(graph, old_dist, o));
                                assert(graph.edges()[o].from.0 != t.0);
                                assert(graph.edges()[o].to.0 < n);
                            }
                            assert forall|j: int, o: int|
                                0 <= j < i && #[trigger] usable(graph, o) && graph.edges()[o].from.0
                                    == current && graph.edges()[o].to == #[trigger] next@[j]
                                    && items.contains(next@[j].0) implies edge_settled(
                                graph,
                                dist@,
                                o,
                            ) by {
                                assert(edge_settled(graph, old_dist, o));
                            }
                        }
                    }
                },
                None => {},
            }
        }
        i += 1;
    }
    proof {
        graph.lemma_wf();
        assert forall|e: int|
            #[trigger] usable(graph, e) && !items.contains(graph.edges()[e].from.0) implies edge_settled(
            graph,
            dist@,
            e,
        ) by {
            let u = graph.edges()[e].from;
            let t = graph.edges()[e].to;
            if u.0 == current {
                if items.contains(t.0) {
                    assert(has_edge(graph.edges(), NodeId(current), t));
                    assert(next@.contains(t));
                    let j = choose|j: int| 0 <= j < next@.len() && next@[j] == t;
                    assert(next@[j] == t);
                } else {
                    assert(no_farther(dist@[t.0 as int], Some(reach)));
                }
            }
        }
    }
    Ghost(paths)
}

/// Copies of the keys of all nodes, by node id.
pub fn node_keys<G: GraphBase>(graph: &G) -> (keys: Vec<G::Key>)
    requires
        graph.wf(),
    ensures
        keys@.len() == graph.keys().len(),
        forall|i: int| 0 <= i < keys@.len() ==> (#[trigger] keys@[i])@ == graph.keys()[i],
{
    let n = graph.order();
    let mut keys: Vec<G::Key> = Vec::new();
    let mut i: usize = 0;
    while i < n
        invariant
            graph.wf(),
            n == graph.keys().len(),
            i <= n,
            keys@.len() == i,
            forall|j: int| 0 <= j < i ==> (#[trigger] keys@[j])@ == graph.keys()[j],
        decreases n - i,
    {
        keys.push(graph.node_key(NodeId(i)).key_clone());
        i += 1;
    }
    keys
}

/// Lightest paths from the node with key `start` to every node.
///
/// Every known tentative weight is the least weight of a walk from the
/// start over weighted records; a node that no walk reaches keeps an
/// unknown weight and no predecessor. Fails if and only if `start` names no
/// node.
///
/// No weight may be negative, and the weights along a path from the start
/// that comes to no node twice must sum to no more than an `i32` holds.
pub fn dijkstra<G>(graph: &G, start: G::Key) -> (outcome: Result<
    DijkstraResult<G::Key>,
    DijkstraError,
>) where G: Graph + EdgeWeights<Weight = i32>
    requires
        graph.wf(),
        graph.keys().contains(start@) ==> weights_fit(graph, graph.keys().index_of(start@)),
    ensures
        outcome is Err <==> !graph.keys().contains(start@),
        match outcome {
            Ok(result) => {
                let s = graph.keys().index_of(start@);
                &&& result.wf()
                &&& result.keys() == graph.keys()
                &&& result.tentative_weights@[s] == Some(0i32)
                &&& lightest_weights(graph, s, result.tentative_weights@)
                &&& links_explain(graph, s, result.tentative_weights@, result.predecessors@)
            },
            Err(e) => e == DijkstraError::StartNotFound,
        },
{
    let source = match graph.node_id(&start) {
        Some(id) => id,
        None => {
            return Err(DijkstraError::StartNotFound);
        },
    };
    proof {
        graph.lemma_wf();
    }
    let ghost s = source.0 as int;
    assert(graph.keys().index_of(start@) == s);
    let n = graph.order();
    let mut dist: Vec<Option<i32>> = unknown_table(n);
    let mut preds: Vec<Option<NodeId>> = unknown_table(n);
    dist.set(source.0, Some(0));
    let mut unvisited = set_of_range(n);
    let ghost mut paths: Seq<Seq<int>> = Seq::new(n as nat, |i: int| Seq::<int>::empty());
    let ghost mut rank: Seq<nat> = Seq::new(n as nat, |i: int| 0nat);
    let ghost mut k: nat = 0;
    proof {
        let items = set_items(unvisited);
        assert forall|v: usize| v < n implies #[trigger] items.contains(v) by {
            assert(items[v as int] == v);
        }
        assert(is_walk(graph, paths[s], s, s));
        assert(walk_cost(graph, paths[s]) == 0);
        assert(items.no_duplicates());
        assert forall|v: int| 0 <= v < n && (#[trigger] dist@[v]) is Some implies {
            &&& 0 <= dist@[v]->Some_0
            &&& is_walk(graph, paths[v], s, v)
            &&& walk_cost(graph, paths[v]) == dist@[v]->Some_0
            &&& paths[v].len() <= k
            &&& is_simple(graph, paths[v], s)
            &&& runs_through(graph, paths[v], items)
        } by {
            assert(v == s);
            assert(dist@[v] == Some(0i32));
            assert(paths[v].len() == 0);
        }
        assert forall|t: int| 0 <= t < n implies (#[trigger] preds@[t]) is None && (t == s
            || dist@[t] is None) by {}
        assert forall|v: int| 0 <= v < n && !items.contains(v as usize) implies (#[trigger] rank[v])
            < k by {
            assert(items.contains(v as usize));
        }
        assert forall|v: int, u: int|
            0 <= v < n && 0 <= u < n && !items.contains(v as usize) && items.contains(
                u as usize,
            ) implies no_farther(#[trigger] dist@[v], #[trigger] dist@[u]) by {
            assert(items.contains(v as usize));
        }
        assert(tables_ok(graph, s, dist@, preds@, items, paths, rank, k));
    }
    while !set_is_empty(&unvisited)
        invariant
            graph.wf(),
            weights_fit(graph, s),
            n == graph.keys().len(),
            tables_ok(graph, s, dist@, preds@, set_items(unvisited), paths, rank, k),
            visited_settled(graph, dist@, set_items(unvisited), -1),
        decreases set_items(unvisited).len(),
    {
        let ghost before = set_items(unvisited);
        let current = closest_unvisited(&unvisited, &dist);
        set_shift_remove(&mut unvisited, current);
        let ghost items = set_items(unvisited);
        proof {
            lemma_remove_value(before, current);
            let q = choose|q: int| 0 <= q < before.len() && before[q] == current;
            assert(current < n);
            let old_rank = rank;
            rank = rank.update(current as int, k);
            k = k + 1;
            assert forall|i: int| 0 <= i < items.len() implies (#[trigger] items[i]) < n by {
                assert(items.contains(items[i]));
                assert(before.contains(items[i]));
                let b = choose|b: int| 0 <= b < before.len() && before[b] == items[i];
            }
            assert forall|v: int, u: int|
                0 <= v < n && 0 <= u < n && !items.contains(v as usize) && items.contains(
                    u as usize,
                ) implies no_farther(#[trigger] dist@[v], #[trigger] dist@[u]) by {
                assert(before.contains(u as usize));
                if v != current {
                    assert(!before.contains(v as usize));
                }
            }
            assert forall|t: int| 0 <= t < n implies match #[trigger] preds@[t] {
                Some(u) => {
                    &&& t != s
                    &&& u.0 < n
                    &&& !items.contains(u.0)
                    &&& rank[u.0 as int] < k
                    &&& (!items.contains(t as usize) ==> rank[u.0 as int] < rank[t])
                    &&& dist@[u.0 as int] is Some
                    &&& dist@[t] is Some
                    &&& exists|e: int|
                        #[trigger] usable(graph, e) && graph.edges()[e].from == u
                            && graph.edges()[e].to.0 == t && dist@[t]->Some_0
                            == dist@[u.0 as int]->Some_0 + cost(graph, e)
                },
                None => t == s || dist@[t] is None,
            } by {
                if let Some(u) = preds@[t] {
                    assert(!before.contains(u.0));
                    assert(u.0 != current);
                    assert(old_rank[u.0 as int] < k - 1);
                    if !items.contains(t as usize) && t != current {
                        assert(!before.contains(t as usize));
                    }
                }
            }
            assert forall|v: int| 0 <= v < n && !items.contains(v as usize) implies (#[trigger] rank[v])
                < k by {
                if v != current {
                    assert(!before.contains(v as usize));
                    assert(old_rank[v] < k - 1);
                }
            }
            assert forall|v: int| 0 <= v < n && (#[trigger] dist@[v]) is Some implies runs_through(
                graph,
                paths[v],
                items,
            ) by {
                assert(runs_through(graph, paths[v], before));
                assert forall|i: int| 0 <= i < paths[v].len() - 1 implies !items.contains(
                    (#[trigger] walk_ends(graph, paths[v])[i]) as usize,
                ) by {
                    assert(!before.contains(walk_ends(graph, paths[v])[i] as usize));
                }
            }
            assert(tables_ok(graph, s, dist@, preds@, items, paths, rank, k));
            assert forall|e: int|
                #[trigger] usable(graph, e) && !items.contains(graph.edges()[e].from.0)
                    && graph.edges()[e].from.0 != current as int implies edge_settled(
                graph,
                dist@,
                e,
            ) by {
                assert(!before.contains(graph.edges()[e].from.0));
            }
        }
        match dist[current] {
            Some(reach) => {
                proof {
                    assert forall|v: int|
                        0 <= v < n && !items.contains(v as usize) implies no_farther(
                        #[trigger] dist@[v],
                        Some(reach),
                    ) by {
                        if v != current {
                            assert(!before.contains(v as usize));
                            assert(no_farther(dist@[v], dist@[current as int]));
                        }
                    }
                }
                let new_paths = relax_successors(
                    graph,
                    current,
                    reach,
                    &unvisited,
                    &mut dist,
                    &mut preds,
                    Ghost(s),
                    Ghost(paths),
                    Ghost(rank),
                    Ghost(k),
                );
                proof {
                    paths = new_paths@;
                }
            },
            None => {},
        }
    }
    let nodes = node_keys(graph);
    let result = DijkstraResult { nodes, tentative_weights: dist, predecessors: preds };
    proof {
        let items = set_items(unvisited);
        assert(items.len() == 0);
        assert forall|e: int| #[trigger] usable(graph, e) implies edge_settled(graph, dist@, e) by {
            assert(!items.contains(graph.edges()[e].from.0));
        }
        assert forall|t: int, p: Seq<int>|
            0 <= t < dist@.len() && #[trigger] is_walk(graph, p, s, t) implies dist@[t] is Some
            && dist@[t]->Some_0 <= walk_cost(graph, p) by {
            lemma_walk_bound(graph, s, dist@, p, t);
        }
        assert forall|t: int| 0 <= t < dist@.len() && (#[trigger] dist@[t]) is Some implies exists|
            p: Seq<int>,
        | #[trigger] is_walk(graph, p, s, t) && walk_cost(graph, p) == dist@[t]->Some_0 by {
            assert(is_walk(graph, paths[t], s, t));
        }
        assert(ranked(preds@, rank)) by {
            assert forall|t: int| 0 <= t < preds@.len() && (#[trigger] preds@[t]) is Some implies preds@[t]->Some_0.0
                < preds@.len() && rank[preds@[t]->Some_0.0 as int] < rank[t] by {
                assert(!items.contains(t as usize));
            }
        }
        assert(result.keys() =~= graph.keys());
        assert(result.tentative_weights@.len() == result.nodes@.len());
        assert(result.predecessors@.len() == result.nodes@.len());
        assert(ranked(result.predecessors@, rank));
        assert(result.wf());
        assert(lightest_weights(graph, s, result.tentative_weights@));
        assert(links_explain(graph, s, result.tentative_weights@, result.predecessors@));
    }
    Ok(result)
}

} // verus!
