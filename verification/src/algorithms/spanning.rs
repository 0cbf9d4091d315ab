//! Why the forest of Kruskal's algorithm is a lightest spanning forest.

use vstd::prelude::*;
use crate::algorithms::kruskal::{
    ends_below, is_link_walk, is_weight_order, lemma_kruskal_count, lemma_linked_more,
    lemma_selection, linked_by, links, selection, stands_for_itself, total_weight,
};
use crate::algorithms::hierholzer::joins;
use crate::base::Weight;
use crate::counting::{count_in_row, flagged, lemma_flagged, lemma_flagged_most};
use crate::storage::graph_definition::EdgeRecord;

verus! {

/// Every node has a label below `n`, and the label of a node is the
/// label of that label.
pub open spec fn is_labelling(labels: Seq<int>, n: int) -> bool {
    &&& labels.len() == n
    &&& forall|x: int| 0 <= x < n ==> 0 <= #[trigger] labels[x] < n && labels[labels[x]] == labels[x]
}

/// A labelling that tells more nodes apart has at least as many labels:
/// if nodes with the same label in `fine` have the same label in `coarse`,
/// then `coarse` has at most as many nodes that stand for themselves.
pub proof fn lemma_finer_has_more(fine: Seq<int>, coarse: Seq<int>, n: int)
    requires
        0 <= n,
        is_labelling(fine, n),
        is_labelling(coarse, n),
        forall|x: int, y: int|
            0 <= x < n && 0 <= y < n && #[trigger] fine[x] == #[trigger] fine[y] ==> coarse[x]
                == coarse[y],
    ensures
        count_in_row(stands_for_itself(coarse), true) <= count_in_row(stands_for_itself(fine), true),
{
    let heads = flagged(stands_for_itself(coarse));
    lemma_flagged(stands_for_itself(coarse));
    let images = Seq::new(heads.len(), |i: int| fine[heads[i]]);
    assert forall|i: int| 0 <= i < heads.len() implies 0 <= #[trigger] heads[i] < n
        && coarse[heads[i]] == heads[i] by {
        assert(heads.contains(heads[i]));
    }
    assert forall|i: int, j: int| 0 <= i < images.len() && 0 <= j < images.len() && i != j implies images[i]
        != images[j] by {
        if images[i] == images[j] {
            assert(fine[heads[i]] == fine[heads[j]]);
            assert(coarse[heads[i]] == coarse[heads[j]]);
        }
    }
    assert forall|i: int| 0 <= i < images.len() implies 0 <= #[trigger] images[i]
        < stands_for_itself(fine).len() && stands_for_itself(fine)[images[i]] by {
        assert(0 <= fine[heads[i]] < n);
    }
    lemma_flagged_most(stands_for_itself(fine), images);
}

/// A walk over the first `k` records of `order` does not leave the
/// component of the forest accepted among them.
pub proof fn lemma_prefix_walk<E, W>(
    edges: Seq<EdgeRecord<E, W>>,
    n: int,
    order: Seq<int>,
    k: int,
    walk: Seq<int>,
    upto: int,
)
    requires
        0 <= k <= order.len(),
        0 <= n,
        ends_below(edges, order, n),
        is_link_walk(edges, order.take(k), walk),
        0 <= walk[0] < n,
        0 <= upto < walk.len(),
    ensures
        0 <= walk[upto] < n,
        selection(edges, n, order, k).1[walk[0]] == selection(edges, n, order, k).1[walk[upto]],
    decreases upto,
{
    lemma_selection(edges, n, order, k);
    if upto > 0 {
        lemma_prefix_walk(edges, n, order, k, walk, upto - 1);
        let prefix = order.take(k);
        assert(links(edges, prefix, walk[upto - 1], walk[upto]));
        let i = choose|i: int|
            0 <= i < prefix.len() && joins(edges[#[trigger] prefix[i]], walk[upto - 1], walk[upto]);
        assert(prefix[i] == order[i]);
    }
}

/// The records at the positions `picks` of `order`.
pub open spec fn picked(order: Seq<int>, picks: Seq<int>) -> Seq<int> {
    Seq::new(picks.len(), |j: int| order[picks[j]])
}

/// `picks` lists positions of `order` in ascending order.
pub open spec fn is_choice(order: Seq<int>, picks: Seq<int>) -> bool {
    &&& forall|j: int| 0 <= j < picks.len() ==> 0 <= #[trigger] picks[j] < order.len()
    &&& forall|i: int, j: int| 0 <= i < j < picks.len() ==> picks[i] < picks[j]
}

/// No record of `forest` closes a cycle with the records before it.
pub open spec fn is_forest<E, W>(edges: Seq<EdgeRecord<E, W>>, forest: Seq<int>) -> bool {
    forall|j: int|
        0 <= j < forest.len() ==> !linked_by(
            edges,
            forest.take(j),
            edges[#[trigger] forest[j]].from.0 as int,
            edges[forest[j]].to.0 as int,
        )
}

/// How many of the positions `picks` are below `k`.
pub open spec fn chosen_before(picks: Seq<int>, k: int) -> int
    decreases k,
{
    if k <= 0 {
        0
    } else {
        let c = chosen_before(picks, k - 1);
        if c < picks.len() && picks[c] == k - 1 {
            c + 1
        } else {
            c
        }
    }
}

/// The positions below `k` are the first `chosen_before(picks, k)`.
pub proof fn lemma_chosen_before(order: Seq<int>, picks: Seq<int>, k: int)
    requires
        is_choice(order, picks),
        0 <= k,
    ensures
        0 <= chosen_before(picks, k) <= picks.len(),
        forall|j: int| 0 <= j < chosen_before(picks, k) ==> #[trigger] picks[j] < k,
        forall|j: int| chosen_before(picks, k) <= j < picks.len() ==> #[trigger] picks[j] >= k,
        k >= order.len() ==> chosen_before(picks, k) == picks.len(),
    decreases k,
{
    if k > 0 {
        lemma_chosen_before(order, picks, k - 1);
        let c = chosen_before(picks, k - 1);
        if c < picks.len() && picks[c] == k - 1 {
            assert forall|j: int| c + 1 <= j < picks.len() implies #[trigger] picks[j] >= k by {
                assert(picks[c] < picks[j]);
            }
        } else {
            assert forall|j: int| c <= j < picks.len() implies #[trigger] picks[j] >= k by {
                if j == c {
                } else {
                    assert(picks[c] < picks[j]);
                }
            }
        }
    }
    if k >= order.len() {
        let c = chosen_before(picks, k);
        if c < picks.len() {
            assert(picks[c] >= k);
        }
    }
}

/// Kruskal's algorithm accepts every record of a forest.
pub proof fn lemma_forest_accepted<E, W>(edges: Seq<EdgeRecord<E, W>>, n: int, forest: Seq<int>, j: int)
    requires
        0 <= n,
        ends_below(edges, forest, n),
        is_forest(edges, forest),
        0 <= j <= forest.len(),
    ensures
        selection(edges, n, forest, j).0 == forest.take(j),
    decreases j,
{
    if j == 0 {
        assert(forest.take(0) =~= Seq::<int>::empty());
    } else {
        lemma_forest_accepted(edges, n, forest, j - 1);
        lemma_selection(edges, n, forest, j - 1);
        let before = selection(edges, n, forest, j - 1);
        let e = forest[j - 1];
        let a = edges[e].from.0 as int;
        let b = edges[e].to.0 as int;
        assert((before.1[a] == before.1[b]) <==> linked_by(edges, before.0, a, b));
        assert(!linked_by(edges, forest.take(j - 1), a, b));
        assert(forest.take(j - 1).push(e) =~= forest.take(j));
    }
}

/// Among the first `k` records of `order`, a forest has at most as many
/// records as Kruskal's algorithm accepts.
pub proof fn lemma_stays_ahead<E, W>(
    edges: Seq<EdgeRecord<E, W>>,
    n: int,
    order: Seq<int>,
    picks: Seq<int>,
    k: int,
)
    requires
        0 <= n,
        ends_below(edges, order, n),
        is_choice(order, picks),
        is_forest(edges, picked(order, picks)),
        0 <= k <= order.len(),
    ensures
        chosen_before(picks, k) <= selection(edges, n, order, k).0.len(),
{
    let forest = picked(order, picks);
    let c = chosen_before(picks, k);
    lemma_chosen_before(order, picks, k);
    assert(ends_below(edges, forest, n)) by {
        assert forall|i: int| 0 <= i < forest.len() implies 0 <= #[trigger] forest[i] < edges.len()
            && edges[forest[i]].from.0 < n && edges[forest[i]].to.0 < n by {
            assert(forest[i] == order[picks[i]]);
        }
    }
    lemma_forest_accepted(edges, n, forest, c);
    lemma_kruskal_count(edges, n, forest, c);
    lemma_kruskal_count(edges, n, order, k);
    lemma_selection(edges, n, forest, c);
    lemma_selection(edges, n, order, k);
    let fine = selection(edges, n, forest, c).1;
    let coarse = selection(edges, n, order, k).1;
    assert forall|x: int, y: int|
        0 <= x < n && 0 <= y < n && #[trigger] fine[x] == #[trigger] fine[y] implies coarse[x]
        == coarse[y] by {
        assert(linked_by(edges, forest.take(c), x, y));
        assert forall|i: int| 0 <= i < forest.take(c).len() implies order.take(k).contains(
            #[trigger] forest.take(c)[i],
        ) by {
            assert(picks[i] < k);
            assert(order.take(k)[picks[i]] == forest[i]);
        }
        lemma_linked_more(edges, forest.take(c), order.take(k), x, y);
        let walk = choose|walk: Seq<int>|
            #[trigger] is_link_walk(edges, order.take(k), walk) && walk[0] == x && walk.last() == y;
        lemma_prefix_walk(edges, n, order, k, walk, walk.len() - 1);
    }
    lemma_finer_has_more(fine, coarse, n);
}

/// The value of the weight of the record at the position `k` of `order`.
pub open spec fn weight_at<E, W: Weight>(edges: Seq<EdgeRecord<E, W>>, order: Seq<int>, k: int) -> int {
    edges[order[k]].weight->Some_0.value()
}

/// Among the first `k` records of `order`, what Kruskal's algorithm
/// accepts weighs at most as much as the records of any forest and, for
/// every record that it has accepted more, the weight of the last of the
/// `k` records.
pub proof fn lemma_weighs_less<E, W: Weight>(
    edges: Seq<EdgeRecord<E, W>>,
    n: int,
    order: Seq<int>,
    picks: Seq<int>,
    k: int,
)
    requires
        0 <= n,
        ends_below(edges, order, n),
        is_weight_order(edges, order),
        is_choice(order, picks),
        is_forest(edges, picked(order, picks)),
        0 <= k <= order.len(),
    ensures
        k == 0 ==> total_weight(edges, selection(edges, n, order, k).0) == total_weight(
            edges,
            picked(order, picks).take(chosen_before(picks, k)),
        ),
        k >= 1 ==> total_weight(edges, selection(edges, n, order, k).0) - total_weight(
            edges,
            picked(order, picks).take(chosen_before(picks, k)),
        ) <= (selection(edges, n, order, k).0.len() - chosen_before(picks, k)) * weight_at(
            edges,
            order,
            k - 1,
        ),
    decreases k,
{
    let forest = picked(order, picks);
    if k == 0 {
        assert(forest.take(0) =~= Seq::<int>::empty());
    } else {
        lemma_weighs_less(edges, n, order, picks, k - 1);
        lemma_stays_ahead(edges, n, order, picks, k - 1);
        lemma_stays_ahead(edges, n, order, picks, k);
        lemma_chosen_before(order, picks, k - 1);
        lemma_chosen_before(order, picks, k);
        let w = weight_at(edges, order, k - 1);
        let before = selection(edges, n, order, k - 1);
        let now = selection(edges, n, order, k);
        let c0 = chosen_before(picks, k - 1);
        let c1 = chosen_before(picks, k);
        let e = order[k - 1];
        // what the algorithm adds
        let a: int = if now.0.len() > before.0.len() { 1 } else { 0 };
        assert(total_weight(edges, now.0) == total_weight(edges, before.0) + a * w) by {
            if a == 1 {
                assert(now.0 == before.0.push(e));
                assert(now.0.drop_last() =~= before.0);
                assert(now.0.last() == e);
            } else {
                assert(now.0 == before.0);
            }
        }
        assert(now.0.len() == before.0.len() + a);
        // what the forest adds
        let f: int = c1 - c0;
        assert(total_weight(edges, forest.take(c1)) == total_weight(edges, forest.take(c0)) + f * w) by {
            assert(f == 0 || f == 1);
            if f == 1 {
                assert(c0 < picks.len() && picks[c0] == k - 1);
                assert(forest[c0] == e);
                assert(forest.take(c1).len() == c0 + 1);
                assert(forest.take(c1).drop_last() =~= forest.take(c0));
                assert(forest.take(c1).last() == forest[c0]);
                assert(f * w == w) by (nonlinear_arith)
                    requires
                        f == 1,
                ;
            } else {
                assert(c1 == c0);
                assert(f * w == 0) by (nonlinear_arith)
                    requires
                        f == 0,
                ;
            }
        }
        let ahead = before.0.len() - c0;
        if k == 1 {
            assert(before.0.len() == 0 && c0 == 0);
            assert((a - f) * w == a * w - f * w) by (nonlinear_arith);
        } else {
            let w0 = weight_at(edges, order, k - 2);
            assert(w0 <= w);
            assert(ahead * w0 <= ahead * w) by (nonlinear_arith)
                requires
                    ahead >= 0,
                    w0 <= w,
            ;
            assert((ahead + a - f) * w == ahead * w + a * w - f * w) by (nonlinear_arith);
        }
    }
}

/// The forest of Kruskal's algorithm is a lightest spanning forest.
///
/// Take any forest of weighted records, given by the positions of its
/// records in `order`, that links whatever the weighted records link.
/// Then the records that Kruskal's algorithm accepts weigh no more than
/// that forest.
pub proof fn lemma_kruskal_lightest<E, W: Weight>(
    edges: Seq<EdgeRecord<E, W>>,
    n: int,
    order: Seq<int>,
    picks: Seq<int>,
)
    requires
        0 <= n,
        ends_below(edges, order, n),
        is_weight_order(edges, order),
        is_choice(order, picks),
        is_forest(edges, picked(order, picks)),
        forall|x: int, y: int|
            0 <= x < n && 0 <= y < n && #[trigger] linked_by(edges, order, x, y) ==> linked_by(
                edges,
                picked(order, picks),
                x,
                y,
            ),
    ensures
        total_weight(edges, selection(edges, n, order, order.len() as int).0) <= total_weight(
            edges,
            picked(order, picks),
        ),
{
    let m = order.len() as int;
    let forest = picked(order, picks);
    let last = selection(edges, n, order, m);
    lemma_weighs_less(edges, n, order, picks, m);
    lemma_stays_ahead(edges, n, order, picks, m);
    lemma_chosen_before(order, picks, m);
    assert(forest.take(forest.len() as int) =~= forest);
    // the forest has as many records as the algorithm accepts
    assert(ends_below(edges, forest, n)) by {
        assert forall|i: int| 0 <= i < forest.len() implies 0 <= #[trigger] forest[i] < edges.len()
            && edges[forest[i]].from.0 < n && edges[forest[i]].to.0 < n by {
            assert(forest[i] == order[picks[i]]);
        }
    }
    let c = forest.len() as int;
    lemma_forest_accepted(edges, n, forest, c);
    lemma_kruskal_count(edges, n, forest, c);
    lemma_kruskal_count(edges, n, order, m);
    lemma_selection(edges, n, forest, c);
    lemma_selection(edges, n, order, m);
    let fine = last.1;
    let coarse = selection(edges, n, forest, c).1;
    assert forall|x: int, y: int|
        0 <= x < n && 0 <= y < n && #[trigger] fine[x] == #[trigger] fine[y] implies coarse[x]
        == coarse[y] by {
        assert(linked_by(edges, last.0, x, y));
        assert forall|i: int| 0 <= i < last.0.len() implies order.contains(#[trigger] last.0[i]) by {
            assert(order.take(m).contains(last.0[i]));
            assert(order.take(m) =~= order);
        }
        lemma_linked_more(edges, last.0, order, x, y);
        assert(linked_by(edges, forest, x, y));
    }
    lemma_finer_has_more(fine, coarse, n);
    assert(last.0.len() == forest.len());
    if m >= 1 {
        assert((last.0.len() - c) * weight_at(edges, order, m - 1) == 0) by (nonlinear_arith)
            requires
                last.0.len() - c == 0,
        ;
    }
}

} // verus!
