//! Trees, and why pruning the leaves of a tree never comes to a halt.

use vstd::prelude::*;
use crate::algorithms::hierholzer::{joins, names};
use crate::algorithms::prufer::{
    adjacent, is_decoding, is_pruned_tree, is_pruning_step, is_tree_pruning,
    lemma_live_degree_two, lemma_live_degree_witness, lemma_pruned_round_trip, live_degree,
    prunable, pruning_stuck,
};
use crate::storage::graph_definition::EdgeRecord;
use crate::counting::{lemma_distinct_numbers, lemma_remove_value};
use crate::storage::scan::lemma_push_contains;
use crate::traits::{GraphBase, OrderedNodes};

verus! {

/// The walk goes on from its item `i` to the next along a record.
pub open spec fn is_step<G: GraphBase>(g: &G, walk: Seq<int>, i: int) -> bool {
    adjacent(g, walk[i], walk[i + 1])
}

/// `walk` leads from node to node along records of the graph, in either
/// direction, and stays clear of the nodes in `taken`.
pub open spec fn is_live_walk<G: GraphBase>(g: &G, taken: Seq<int>, walk: Seq<int>) -> bool {
    &&& walk.len() >= 1
    &&& forall|i: int|
        0 <= i < walk.len() ==> 0 <= #[trigger] walk[i] < g.keys().len() && !taken.contains(walk[i])
    &&& forall|i: int| 0 <= i < walk.len() - 1 ==> #[trigger] is_step(g, walk, i)
}

/// A walk from `x` to `y` stays clear of the nodes in `taken`.
pub open spec fn reaches<G: GraphBase>(g: &G, taken: Seq<int>, x: int, y: int) -> bool {
    exists|walk: Seq<int>| #[trigger] is_live_walk(g, taken, walk) && walk[0] == x && walk.last() == y
}

/// `walk` is a cycle: three or more different nodes, each joined to the
/// next and the last to the first.
pub open spec fn is_cycle<G: GraphBase>(g: &G, walk: Seq<int>) -> bool {
    &&& walk.len() >= 3
    &&& walk.no_duplicates()
    &&& forall|i: int| 0 <= i < walk.len() ==> 0 <= #[trigger] walk[i] < g.keys().len()
    &&& forall|i: int| 0 <= i < walk.len() - 1 ==> #[trigger] is_step(g, walk, i)
    &&& adjacent(g, walk.last(), walk[0])
}

/// No node of the graph is joined to itself.
pub open spec fn is_loop_free<G: GraphBase>(g: &G) -> bool {
    forall|x: int| 0 <= x < g.keys().len() ==> !#[trigger] adjacent(g, x, x)
}

/// The graph has no cycle.
pub open spec fn is_acyclic<G: GraphBase>(g: &G) -> bool {
    forall|walk: Seq<int>| !#[trigger] is_cycle(g, walk)
}

/// The graph is a tree: no node is joined to itself, a walk leads from
/// every node to every other, and there is no cycle. Records that join
/// the same two nodes count as one.
pub open spec fn is_tree<G: GraphBase>(g: &G) -> bool {
    &&& is_loop_free(g)
    &&& is_acyclic(g)
    &&& forall|x: int, y: int|
        0 <= x < g.keys().len() && 0 <= y < g.keys().len() ==> #[trigger] reaches(
            g,
            Seq::<int>::empty(),
            x,
            y,
        )
}

/// Fewer than `n` different numbers below `n` leave one of them out.
pub proof fn lemma_missing(s: Seq<int>, n: int)
    requires
        s.no_duplicates(),
        forall|i: int| 0 <= i < s.len() ==> 0 <= #[trigger] s[i] < n,
        s.len() < n,
    ensures
        exists|v: int| 0 <= v < n && !#[trigger] s.contains(v),
    decreases n,
{
    let top = n - 1;
    if s.contains(top) {
        lemma_remove_value(s, top);
        let rest = s.remove_value(top);
        assert forall|i: int| 0 <= i < rest.len() implies 0 <= #[trigger] rest[i] < top by {
            assert(rest.contains(rest[i]));
            assert(s.contains(rest[i]));
        }
        lemma_missing(rest, top);
        let v = choose|v: int| 0 <= v < top && !#[trigger] rest.contains(v);
        assert(!s.contains(v));
    } else {
        assert(0 <= top < n && !s.contains(top));
    }
}

/// Without loops and cycles, a path that cannot be turned back ends in a
/// leaf sooner or later: some node that is not taken has exactly one
/// neighbour left.
pub proof fn lemma_path_ends_in_leaf<G: GraphBase>(g: &G, taken: Seq<int>, path: Seq<int>)
    requires
        is_loop_free(g),
        is_acyclic(g),
        is_live_walk(g, taken, path),
        path.no_duplicates(),
        path.len() >= 2,
    ensures
        exists|u: int|
            0 <= u < g.keys().len() && !taken.contains(u) && #[trigger] live_degree(
                g,
                taken,
                u,
                g.keys().len() as int,
            ) == 1,
    decreases g.keys().len() - path.len(),
{
    let n = g.keys().len() as int;
    let len = path.len() as int;
    lemma_distinct_numbers(path, n);
    let end = path[len - 1];
    let before = path[len - 2];
    assert(is_step(g, path, len - 2));
    lemma_live_degree_witness(g, taken, end, n, before, before);
    if live_degree(g, taken, end, n) == 1 {
        assert(0 <= end < n && !taken.contains(end));
    } else {
        lemma_live_degree_two(g, taken, end, n);
        let (a, b) = choose|a: int, b: int|
            0 <= a < b < n && #[trigger] adjacent(g, end, a) && !taken.contains(a)
                && #[trigger] adjacent(g, end, b) && !taken.contains(b);
        let w = if a != before {
            a
        } else {
            b
        };
        assert(w != before && adjacent(g, end, w) && !taken.contains(w) && 0 <= w < n);
        if path.contains(w) {
            let i = choose|i: int| 0 <= i < len && path[i] == w;
            assert(i != len - 1) by {
                assert(!adjacent(g, end, end));
            }
            let round = path.skip(i);
            assert forall|j: int| 0 <= j < round.len() - 1 implies #[trigger] is_step(g, round, j) by {
                assert(is_step(g, path, i + j));
            }
            assert forall|j: int| 0 <= j < round.len() implies 0 <= #[trigger] round[j] < n by {
                assert(round[j] == path[i + j]);
            }
            assert forall|j: int, k: int|
                0 <= j < round.len() && 0 <= k < round.len() && j != k implies round[j] != round[k] by {
                assert(round[j] == path[i + j]);
                assert(round[k] == path[i + k]);
            }
            assert(round.last() == end);
            assert(round[0] == w);
            assert(is_cycle(g, round));
        } else {
            let longer = path.push(w);
            assert forall|j: int| 0 <= j < longer.len() implies 0 <= #[trigger] longer[j] < n
                && !taken.contains(longer[j]) by {
                if j < len {
                    assert(longer[j] == path[j]);
                }
            }
            assert forall|j: int| 0 <= j < longer.len() - 1 implies #[trigger] is_step(g, longer, j) by {
                if j < len - 1 {
                    assert(is_step(g, path, j));
                }
            }
            assert forall|j: int, k: int|
                0 <= j < longer.len() && 0 <= k < longer.len() && j != k implies longer[j]
                != longer[k] by {
                if j < len {
                    assert(path.contains(path[j]));
                }
                if k < len {
                    assert(path.contains(path[k]));
                }
            }
            lemma_distinct_numbers(longer, n);
            lemma_path_ends_in_leaf(g, taken, longer);
        }
    }
}

/// A walk between two other nodes need not pass through a node with at
/// most one neighbour left.
pub proof fn lemma_walk_around<G: GraphBase>(g: &G, taken: Seq<int>, leaf: int, walk: Seq<int>)
    requires
        is_loop_free(g),
        is_live_walk(g, taken, walk),
        0 <= leaf < g.keys().len(),
        live_degree(g, taken, leaf, g.keys().len() as int) <= 1,
        walk[0] != leaf,
        walk.last() != leaf,
    ensures
        reaches(g, taken.push(leaf), walk[0], walk.last()),
    decreases walk.len(),
{
    let n = g.keys().len() as int;
    let len = walk.len() as int;
    let more = taken.push(leaf);
    if walk.contains(leaf) {
        let i = choose|i: int| 0 <= i < len && walk[i] == leaf;
        let a = walk[i - 1];
        let b = walk[i + 1];
        assert(is_step(g, walk, i - 1));
        assert(is_step(g, walk, i));
        assert(!adjacent(g, leaf, leaf));
        lemma_live_degree_witness(g, taken, leaf, n, a, b);
        assert(a == b);
        let shorter = walk.take(i) + walk.skip(i + 2);
        assert forall|j: int| 0 <= j < shorter.len() implies 0 <= #[trigger] shorter[j] < n
            && !taken.contains(shorter[j]) by {
            if j < i {
                assert(shorter[j] == walk[j]);
            } else {
                assert(shorter[j] == walk[j + 2]);
            }
        }
        assert forall|j: int| 0 <= j < shorter.len() - 1 implies #[trigger] is_step(g, shorter, j) by {
            if j < i - 1 {
                assert(is_step(g, walk, j));
            } else if j == i - 1 {
                assert(is_step(g, walk, i + 1));
                assert(shorter[j] == walk[i - 1]);
                assert(shorter[j + 1] == walk[i + 2]);
            } else {
                assert(is_step(g, walk, j + 2));
                assert(shorter[j] == walk[j + 2]);
                assert(shorter[j + 1] == walk[j + 3]);
            }
        }
        assert(shorter[0] == walk[0]);
        assert(shorter.last() == walk.last()) by {
            if i + 2 < len {
                assert(shorter[shorter.len() - 1] == walk[len - 1]);
            } else {
                assert(shorter[shorter.len() - 1] == walk[i - 1]);
            }
        }
        lemma_walk_around(g, taken, leaf, shorter);
    } else {
        assert forall|j: int| 0 <= j < len implies !more.contains(#[trigger] walk[j]) by {
            lemma_push_contains(taken, leaf, walk[j]);
            assert(walk.contains(walk[j]));
        }
        assert forall|j: int| 0 <= j < len - 1 implies #[trigger] is_step(g, walk, j) by {}
        assert(is_live_walk(g, more, walk));
    }
}

/// Pruning takes every node once, and only nodes of the graph.
pub proof fn lemma_pruning_takes_once<G: GraphBase>(g: &G, taken: Seq<int>, noted: Seq<int>)
    where G::Key: OrderedNodes
    requires
        is_tree_pruning(g, taken, noted),
    ensures
        taken.no_duplicates(),
        forall|i: int| 0 <= i < taken.len() ==> 0 <= #[trigger] taken[i] < g.keys().len(),
        taken.len() <= g.keys().len(),
{
    let n = g.keys().len() as int;
    assert forall|i: int| 0 <= i < taken.len() implies 0 <= #[trigger] taken[i] < n by {
        assert(is_pruning_step(g, taken.take(i), taken[i], noted[i]));
    }
    assert forall|i: int, j: int| 0 <= i < taken.len() && 0 <= j < taken.len() && i != j implies taken[i]
        != taken[j] by {
        let (lo, hi) = if i < j {
            (i, j)
        } else {
            (j, i)
        };
        assert(is_pruning_step(g, taken.take(hi), taken[hi], noted[hi]));
        assert(taken.take(hi)[lo] == taken[lo]);
    }
    lemma_distinct_numbers(taken, n);
}

/// The first steps of a pruning are a pruning.
pub proof fn lemma_pruning_prefix<G: GraphBase>(g: &G, taken: Seq<int>, noted: Seq<int>, k: int)
    where G::Key: OrderedNodes
    requires
        is_tree_pruning(g, taken, noted),
        0 <= k <= taken.len(),
    ensures
        is_tree_pruning(g, taken.take(k), noted.take(k)),
{
    let front = taken.take(k);
    assert forall|i: int| 0 <= i < front.len() implies is_pruning_step(
        g,
        front.take(i),
        #[trigger] front[i],
        noted.take(k)[i],
    ) by {
        assert(front.take(i) == taken.take(i));
        assert(is_pruning_step(g, taken.take(i), taken[i], noted[i]));
    }
}

/// While a tree is pruned, what is left of it stays in one piece.
pub proof fn lemma_pruning_connected<G: GraphBase>(
    g: &G,
    taken: Seq<int>,
    noted: Seq<int>,
    x: int,
    y: int,
)
    where G::Key: OrderedNodes
    requires
        is_tree(g),
        is_tree_pruning(g, taken, noted),
        0 <= x < g.keys().len(),
        0 <= y < g.keys().len(),
        !taken.contains(x),
        !taken.contains(y),
    ensures
        reaches(g, taken, x, y),
    decreases taken.len(),
{
    let n = g.keys().len() as int;
    if taken.len() == 0 {
        assert(taken == Seq::<int>::empty());
        assert(reaches(g, Seq::<int>::empty(), x, y));
    } else {
        let k = taken.len() - 1;
        let prev = taken.take(k);
        let leaf = taken[k];
        assert(taken == prev.push(leaf));
        lemma_pruning_prefix(g, taken, noted, k);
        lemma_push_contains(prev, leaf, x);
        lemma_push_contains(prev, leaf, y);
        lemma_pruning_connected(g, prev, noted.take(k), x, y);
        let walk = choose|walk: Seq<int>| #[trigger]
            is_live_walk(g, prev, walk) && walk[0] == x && walk.last() == y;
        assert(is_pruning_step(g, prev, leaf, noted[k]));
        lemma_walk_around(g, prev, leaf, walk);
    }
}

/// Among the prunable nodes below `upto`, if there is any, one has the
/// least key.
pub proof fn lemma_least_prunable<G: GraphBase>(g: &G, taken: Seq<int>, upto: int)
    where G::Key: OrderedNodes
    requires
        0 <= upto <= g.keys().len(),
        exists|x: int| 0 <= x < upto && #[trigger] prunable(g, taken, x),
    ensures
        exists|m: int|
            0 <= m < upto && #[trigger] prunable(g, taken, m) && forall|x: int|
                0 <= x < upto && #[trigger] prunable(g, taken, x) ==> <G::Key as OrderedNodes>::rank(
                    g.keys()[m],
                ) <= <G::Key as OrderedNodes>::rank(g.keys()[x]),
    decreases upto,
{
    let top = upto - 1;
    if exists|x: int| 0 <= x < top && #[trigger] prunable(g, taken, x) {
        lemma_least_prunable(g, taken, top);
        let m = choose|m: int|
            0 <= m < top && #[trigger] prunable(g, taken, m) && forall|x: int|
                0 <= x < top && #[trigger] prunable(g, taken, x) ==> <G::Key as OrderedNodes>::rank(
                    g.keys()[m],
                ) <= <G::Key as OrderedNodes>::rank(g.keys()[x]);
        let best = if prunable(g, taken, top) && <G::Key as OrderedNodes>::rank(g.keys()[top])
            < <G::Key as OrderedNodes>::rank(g.keys()[m]) {
            top
        } else {
            m
        };
        assert(0 <= best < upto && prunable(g, taken, best));
        assert forall|x: int| 0 <= x < upto && #[trigger] prunable(g, taken, x) implies <G::Key as OrderedNodes>::rank(
            g.keys()[best],
        ) <= <G::Key as OrderedNodes>::rank(g.keys()[x]) by {
            if x < top {
                assert(<G::Key as OrderedNodes>::rank(g.keys()[m]) <= <G::Key as OrderedNodes>::rank(
                    g.keys()[x],
                ));
            }
        }
    } else {
        assert(prunable(g, taken, top));
        assert forall|x: int| 0 <= x < upto && #[trigger] prunable(g, taken, x) implies <G::Key as OrderedNodes>::rank(
            g.keys()[top],
        ) <= <G::Key as OrderedNodes>::rank(g.keys()[x]) by {}
    }
}

/// While a tree is pruned and two nodes or more are left, every node
/// that is left has a neighbour that is left.
pub proof fn lemma_live_neighbour<G: GraphBase>(
    g: &G,
    taken: Seq<int>,
    noted: Seq<int>,
    x: int,
    other: int,
) -> (next: int)
    where G::Key: OrderedNodes
    requires
        is_tree(g),
        is_tree_pruning(g, taken, noted),
        0 <= x < g.keys().len(),
        0 <= other < g.keys().len(),
        !taken.contains(x),
        !taken.contains(other),
        x != other,
    ensures
        0 <= next < g.keys().len(),
        next != x,
        !taken.contains(next),
        adjacent(g, x, next),
{
    lemma_pruning_connected(g, taken, noted, x, other);
    let walk = choose|walk: Seq<int>| #[trigger]
        is_live_walk(g, taken, walk) && walk[0] == x && walk.last() == other;
    assert(is_step(g, walk, 0));
    assert(!adjacent(g, x, x));
    walk[1]
}

/// As long as two nodes of a tree are left, pruning can go on.
pub proof fn lemma_tree_not_stuck<G: GraphBase>(g: &G, taken: Seq<int>, noted: Seq<int>)
    where G::Key: OrderedNodes
    requires
        is_tree(g),
        is_tree_pruning(g, taken, noted),
        taken.len() + 2 <= g.keys().len(),
    ensures
        !pruning_stuck(g, taken),
{
    let n = g.keys().len() as int;
    lemma_pruning_takes_once(g, taken, noted);
    lemma_missing(taken, n);
    let x = choose|v: int| 0 <= v < n && !#[trigger] taken.contains(v);
    let wider = taken.push(x);
    assert forall|i: int, j: int| 0 <= i < wider.len() && 0 <= j < wider.len() && i != j implies wider[i]
        != wider[j] by {
        if i < taken.len() {
            assert(taken.contains(taken[i]));
        }
        if j < taken.len() {
            assert(taken.contains(taken[j]));
        }
    }
    lemma_missing(wider, n);
    let y = choose|v: int| 0 <= v < n && !#[trigger] wider.contains(v);
    lemma_push_contains(taken, x, y);
    let near = lemma_live_neighbour(g, taken, noted, x, y);
    let path = seq![x, near];
    assert forall|j: int| 0 <= j < path.len() - 1 implies #[trigger] is_step(g, path, j) by {}
    assert(is_live_walk(g, taken, path));
    lemma_path_ends_in_leaf(g, taken, path);
    let u = choose|u: int|
        0 <= u < n && !taken.contains(u) && #[trigger] live_degree(g, taken, u, n) == 1;
    lemma_live_degree_witness(g, taken, u, n, 0, 0);
    let v = choose|v: int| 0 <= v < n && #[trigger] adjacent(g, u, v) && !taken.contains(v);
    assert(!Seq::<int>::empty().contains(v));
    lemma_live_degree_witness(g, Seq::<int>::empty(), u, n, v, v);
    assert(prunable(g, taken, u));
    lemma_least_prunable(g, taken, n);
    let m = choose|m: int|
        0 <= m < n && #[trigger] prunable(g, taken, m) && forall|x: int|
            0 <= x < n && #[trigger] prunable(g, taken, x) ==> <G::Key as OrderedNodes>::rank(
                g.keys()[m],
            ) <= <G::Key as OrderedNodes>::rank(g.keys()[x]);
    let other = if m == x {
        y
    } else {
        x
    };
    let next = lemma_live_neighbour(g, taken, noted, m, other);
    assert(is_pruning_step(g, taken, m, next));
}

/// When pruning has left two nodes of a tree, they are joined to each
/// other.
pub proof fn lemma_tree_pruned<G: GraphBase<Key = usize>>(g: &G, taken: Seq<int>, noted: Seq<int>) -> (rest:
    (int, int))
    requires
        g.wf(),
        is_tree(g),
        forall|x: int| 0 <= x < g.keys().len() ==> 1 <= #[trigger] g.keys()[x] <= g.keys().len(),
        is_tree_pruning(g, taken, noted),
        taken.len() + 2 == g.keys().len(),
    ensures
        is_pruned_tree(g, taken, noted, rest),
{
    let n = g.keys().len() as int;
    lemma_pruning_takes_once(g, taken, noted);
    lemma_missing(taken, n);
    let x = choose|v: int| 0 <= v < n && !#[trigger] taken.contains(v);
    let wider = taken.push(x);
    assert forall|i: int, j: int| 0 <= i < wider.len() && 0 <= j < wider.len() && i != j implies wider[i]
        != wider[j] by {
        if i < taken.len() {
            assert(taken.contains(taken[i]));
        }
        if j < taken.len() {
            assert(taken.contains(taken[j]));
        }
    }
    lemma_missing(wider, n);
    let y = choose|v: int| 0 <= v < n && !#[trigger] wider.contains(v);
    lemma_push_contains(taken, x, y);
    let near = lemma_live_neighbour(g, taken, noted, x, y);
    if near != y {
        let all = wider.push(y).push(near);
        assert forall|i: int, j: int| 0 <= i < all.len() && 0 <= j < all.len() && i != j implies all[i]
            != all[j] by {
            if i < taken.len() {
                assert(taken.contains(taken[i]));
            }
            if j < taken.len() {
                assert(taken.contains(taken[j]));
            }
        }
        lemma_distinct_numbers(all, n);
    }
    assert(!adjacent(g, x, x));
    assert(!adjacent(g, y, y));
    (x, y)
}

/// Decoding the Prüfer sequence of a tree gives the tree back.
///
/// Let the graph be a tree with two nodes or more whose keys are the
/// labels from 1 to the number of nodes, let `sequence` hold the keys
/// that pruning notes, and let `decoded` be the records that decoding
/// the sequence gives. Then the decoded tree joins the nodes with the
/// keys `p` and `q` exactly if the graph joins the nodes with these keys.
pub proof fn lemma_prufer_round_trip<G: GraphBase<Key = usize>>(
    g: &G,
    taken: Seq<int>,
    noted: Seq<int>,
    sequence: Seq<usize>,
    leaves: Seq<usize>,
    decoded: Seq<EdgeRecord<(), ()>>,
    x: int,
    y: int,
)
    requires
        g.wf(),
        is_tree(g),
        g.keys().len() >= 2,
        forall|v: int| 0 <= v < g.keys().len() ==> 1 <= #[trigger] g.keys()[v] <= g.keys().len(),
        is_tree_pruning(g, taken, noted),
        taken.len() + 2 == g.keys().len(),
        names(sequence, g.keys(), noted),
        is_decoding(sequence, g.keys().len() as int, leaves, decoded),
        0 <= x < g.keys().len(),
        0 <= y < g.keys().len(),
    ensures
        adjacent(g, x, y) <==> exists|e: int|
            0 <= e < decoded.len() && joins(#[trigger] decoded[e], g.keys()[x] - 1, g.keys()[y] - 1),
{
    let rest = lemma_tree_pruned(g, taken, noted);
    lemma_pruned_round_trip(g, taken, noted, rest, sequence, leaves, decoded, x, y);
}

} // verus!
