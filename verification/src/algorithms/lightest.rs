//! Why the last matrix of lightest paths holds the least weights.

use vstd::prelude::*;
use crate::algorithms::warshall::{
    direct_table, empty_table, lightest_table, relax_cell, relax_row, relax_rows, PathTable,
};
use crate::base::Weight;
use crate::storage::graph_definition::{endpoints_below, EdgeRecord};

verus! {

/// The value of the weight of the record `e`.
pub open spec fn weight_value<E, W: Weight>(edges: Seq<EdgeRecord<E, W>>, e: int) -> int {
    edges[e].weight->Some_0.value()
}

/// The records `p` form a walk from the node `a` to the node `b`: there
/// is at least one, each carries a weight, and each begins where the one
/// before ends.
pub open spec fn is_weighted_walk<E, W: Weight>(
    edges: Seq<EdgeRecord<E, W>>,
    p: Seq<int>,
    a: int,
    b: int,
) -> bool {
    &&& p.len() >= 1
    &&& forall|i: int|
        0 <= i < p.len() ==> 0 <= #[trigger] p[i] < edges.len() && edges[p[i]].weight is Some
    &&& edges[p[0]].from.0 == a
    &&& edges[p.last()].to.0 == b
    &&& forall|i: int| 1 <= i < p.len() ==> #[trigger] is_linked(edges, p, i)
}

/// The record at the place `i` of `p` begins where the one before ends.
pub open spec fn is_linked<E, W: Weight>(edges: Seq<EdgeRecord<E, W>>, p: Seq<int>, i: int) -> bool {
    edges[p[i]].from == edges[p[i - 1]].to
}

/// The sum of the weights of the records `p`.
pub open spec fn walk_weight<E, W: Weight>(edges: Seq<EdgeRecord<E, W>>, p: Seq<int>) -> int
    decreases p.len(),
{
    if p.len() == 0 {
        0
    } else {
        walk_weight(edges, p.drop_last()) + weight_value(edges, p.last())
    }
}

/// Every node at which the walk `p` arrives before its end is below `k`.
pub open spec fn inner_below<E, W: Weight>(edges: Seq<EdgeRecord<E, W>>, p: Seq<int>, k: int) -> bool {
    forall|i: int| 0 <= i < p.len() - 1 ==> edges[#[trigger] p[i]].to.0 < k
}

/// No weight is negative.
pub open spec fn weights_nonnegative<E, W: Weight>(edges: Seq<EdgeRecord<E, W>>) -> bool {
    forall|e: int|
        0 <= e < edges.len() && (#[trigger] edges[e]).weight is Some ==> 0 <= weight_value(edges, e)
}

/// Of the weighted records of an ordered pair, none is lighter than the
/// last.
pub open spec fn last_is_lightest<E, W: Weight>(edges: Seq<EdgeRecord<E, W>>) -> bool {
    forall|a: int, b: int|
        0 <= a < b < edges.len() && (#[trigger] edges[a]).weight is Some && (
        #[trigger] edges[b]).weight is Some && edges[a].from == edges[b].from && edges[a].to
            == edges[b].to ==> weight_value(edges, b) <= weight_value(edges, a)
}

/// The table has `n` rows of `n` cells.
pub open spec fn is_shaped(t: PathTable, n: int) -> bool {
    t.len() == n && forall|i: int| 0 <= i < n ==> (#[trigger] t[i]).len() == n
}

/// Every weight of the table is the weight of a walk between the two
/// nodes of its cell.
pub open spec fn is_sound<E, W: Weight>(edges: Seq<EdgeRecord<E, W>>, t: PathTable, n: int) -> bool {
    forall|i: int, j: int|
        0 <= i < n && 0 <= j < n && (#[trigger] t[i][j]) is Some ==> exists|p: Seq<int>|
            #[trigger] is_weighted_walk(edges, p, i, j) && walk_weight(edges, p) == t[i][j]->Some_0.1
}

/// No walk whose inner nodes are below `k` is lighter than the weight of
/// the cell of its two ends, and the cell of such a walk is not empty.
pub open spec fn is_complete<E, W: Weight>(
    edges: Seq<EdgeRecord<E, W>>,
    t: PathTable,
    n: int,
    k: int,
) -> bool {
    forall|i: int, j: int, p: Seq<int>|
        0 <= i < n && 0 <= j < n && #[trigger] is_weighted_walk(edges, p, i, j) && inner_below(
            edges,
            p,
            k,
        ) ==> t[i][j] is Some && t[i][j]->Some_0.1 <= walk_weight(edges, p)
}

/// Every cell that `a` fills is filled in `b`, with a weight that is no
/// greater.
pub open spec fn no_worse(a: PathTable, b: PathTable, n: int) -> bool {
    forall|i: int, j: int|
        0 <= i < n && 0 <= j < n && (#[trigger] a[i][j]) is Some ==> b[i][j] is Some
            && b[i][j]->Some_0.1 <= a[i][j]->Some_0.1
}

/// Where `a` knows a way from `i` to `k` and one from `k` to `j`, `b`
/// knows a way from `i` to `j` that is no heavier than the two together.
pub open spec fn goes_over(a: PathTable, b: PathTable, k: int, i: int, j: int) -> bool {
    a[i][k] is Some && a[k][j] is Some ==> b[i][j] is Some && b[i][j]->Some_0.1 <= a[i][k]->Some_0.1
        + a[k][j]->Some_0.1
}

/// One walk after another is a walk, and weighs what the two weigh
/// together.
pub proof fn lemma_walk_joined<E, W: Weight>(
    edges: Seq<EdgeRecord<E, W>>,
    p: Seq<int>,
    q: Seq<int>,
    a: int,
    m: int,
    b: int,
)
    requires
        is_weighted_walk(edges, p, a, m),
        is_weighted_walk(edges, q, m, b),
    ensures
        is_weighted_walk(edges, p + q, a, b),
        walk_weight(edges, p + q) == walk_weight(edges, p) + walk_weight(edges, q),
    decreases q.len(),
{
    let whole = p + q;
    assert forall|i: int| 0 <= i < whole.len() implies 0 <= #[trigger] whole[i] < edges.len()
        && edges[whole[i]].weight is Some by {
        if i < p.len() {
            assert(whole[i] == p[i]);
        } else {
            assert(whole[i] == q[i - p.len()]);
        }
    }
    assert(whole[0] == p[0]);
    assert(whole.last() == q.last());
    assert forall|i: int| 1 <= i < whole.len() implies #[trigger] is_linked(edges, whole, i) by {
        if i < p.len() {
            assert(whole[i] == p[i] && whole[i - 1] == p[i - 1]);
            assert(is_linked(edges, p, i));
        } else if i == p.len() {
            assert(whole[i] == q[0] && whole[i - 1] == p.last());
        } else {
            assert(whole[i] == q[i - p.len()] && whole[i - 1] == q[i - 1 - p.len()]);
            assert(is_linked(edges, q, i - p.len()));
        }
    }
    assert(whole.drop_last() =~= p + q.drop_last());
    if q.len() == 1 {
        assert(q.drop_last() =~= Seq::<int>::empty());
        assert(p + q.drop_last() =~= p);
        assert(walk_weight(edges, q.drop_last()) == 0);
    } else {
        let front = q.drop_last();
        assert(is_weighted_walk(edges, front, m, edges[front.last()].to.0 as int)) by {
            assert forall|i: int| 0 <= i < front.len() implies 0 <= #[trigger] front[i] < edges.len()
                && edges[front[i]].weight is Some by {
                assert(front[i] == q[i]);
            }
            assert forall|i: int| 1 <= i < front.len() implies #[trigger] is_linked(edges, front, i) by {
                assert(front[i] == q[i] && front[i - 1] == q[i - 1]);
                assert(is_linked(edges, q, i));
            }
            assert(front[0] == q[0]);
        }
        lemma_walk_joined(edges, p, front, a, m, edges[front.last()].to.0 as int);
    }
}

/// Where no weight is negative, no walk has a negative weight.
pub proof fn lemma_walk_nonnegative<E, W: Weight>(edges: Seq<EdgeRecord<E, W>>, p: Seq<int>)
    requires
        weights_nonnegative(edges),
        forall|i: int|
            0 <= i < p.len() ==> 0 <= #[trigger] p[i] < edges.len() && edges[p[i]].weight is Some,
    ensures
        0 <= walk_weight(edges, p),
    decreases p.len(),
{
    if p.len() > 0 {
        assert forall|i: int| 0 <= i < p.drop_last().len() implies 0 <= #[trigger] p.drop_last()[i]
            < edges.len() && edges[p.drop_last()[i]].weight is Some by {
            assert(p.drop_last()[i] == p[i]);
        }
        lemma_walk_nonnegative(edges, p.drop_last());
        assert(0 <= p[p.len() - 1] < edges.len());
    }
}

/// A walk without its last record is a walk to the node where that
/// record begins.
pub proof fn lemma_walk_front<E, W: Weight>(edges: Seq<EdgeRecord<E, W>>, p: Seq<int>, a: int, b: int)
    requires
        is_weighted_walk(edges, p, a, b),
        p.len() >= 2,
    ensures
        is_weighted_walk(edges, p.drop_last(), a, edges[p.last()].from.0 as int),
{
    let front = p.drop_last();
    assert forall|i: int| 0 <= i < front.len() implies 0 <= #[trigger] front[i] < edges.len()
        && edges[front[i]].weight is Some by {
        assert(front[i] == p[i]);
    }
    assert forall|i: int| 1 <= i < front.len() implies #[trigger] is_linked(edges, front, i) by {
        assert(front[i] == p[i] && front[i - 1] == p[i - 1]);
        assert(is_linked(edges, p, i));
    }
    assert(front[0] == p[0]);
    assert(front.last() == p[p.len() - 2]);
    assert(is_linked(edges, p, p.len() - 1));
}

/// A walk whose inner nodes are at most `k` either keeps below `k`, or
/// comes to `k`: then a walk to `k` and a walk from `k`, both with inner
/// nodes below `k`, weigh no more than it does.
pub proof fn lemma_walk_parts<E, W: Weight>(
    edges: Seq<EdgeRecord<E, W>>,
    p: Seq<int>,
    a: int,
    b: int,
    k: int,
)
    requires
        weights_nonnegative(edges),
        is_weighted_walk(edges, p, a, b),
        inner_below(edges, p, k + 1),
    ensures
        inner_below(edges, p, k) || exists|first: Seq<int>, last: Seq<int>|
            #[trigger] is_weighted_walk(edges, first, a, k) && inner_below(edges, first, k)
                && #[trigger] is_weighted_walk(edges, last, k, b) && inner_below(edges, last, k)
                && walk_weight(edges, first) + walk_weight(edges, last) <= walk_weight(edges, p),
    decreases p.len(),
{
    if p.len() >= 2 {
        let front = p.drop_last();
        let e = p.last();
        let m = edges[e].from.0 as int;
        lemma_walk_front(edges, p, a, b);
        assert forall|i: int| 0 <= i < front.len() - 1 implies edges[#[trigger] front[i]].to.0 < k + 1 by {
            assert(front[i] == p[i]);
            assert(edges[p[i]].to.0 < k + 1);
        }
        lemma_walk_parts(edges, front, a, m, k);
        let single = seq![e];
        assert(is_weighted_walk(edges, single, m, b)) by {
            assert(single[0] == e);
            assert(0 <= p[p.len() - 1] < edges.len());
        }
        assert(single.drop_last() =~= Seq::<int>::empty());
        assert(walk_weight(edges, single.drop_last()) == 0);
        assert(single.last() == e);
        assert(walk_weight(edges, single) == weight_value(edges, e));
        assert(walk_weight(edges, p) == walk_weight(edges, front) + weight_value(edges, e));
        assert(edges[p[p.len() - 2]].to.0 < k + 1);
        assert(is_linked(edges, p, p.len() - 1));
        assert(m <= k);
        if inner_below(edges, front, k) {
            if m < k {
                assert forall|i: int| 0 <= i < p.len() - 1 implies edges[#[trigger] p[i]].to.0 < k by {
                    if i < front.len() - 1 {
                        assert(front[i] == p[i]);
                        assert(edges[front[i]].to.0 < k);
                    }
                }
            } else {
                assert(is_weighted_walk(edges, front, a, k) && inner_below(edges, front, k)
                    && is_weighted_walk(edges, single, k, b) && inner_below(edges, single, k)
                    && walk_weight(edges, front) + walk_weight(edges, single) <= walk_weight(
                    edges,
                    p,
                ));
            }
        } else {
            let (first, last) = choose|first: Seq<int>, last: Seq<int>|
                #[trigger] is_weighted_walk(edges, first, a, k) && inner_below(edges, first, k)
                    && #[trigger] is_weighted_walk(edges, last, k, m) && inner_below(edges, last, k)
                    && walk_weight(edges, first) + walk_weight(edges, last) <= walk_weight(
                    edges,
                    front,
                );
            if m < k {
                let longer = last + single;
                lemma_walk_joined(edges, last, single, k, m, b);
                assert forall|i: int| 0 <= i < longer.len() - 1 implies edges[#[trigger] longer[i]].to.0
                    < k by {
                    if i < last.len() - 1 {
                        assert(longer[i] == last[i]);
                        assert(edges[last[i]].to.0 < k);
                    } else {
                        assert(longer[i] == last.last());
                    }
                }
                assert(is_weighted_walk(edges, first, a, k) && inner_below(edges, first, k)
                    && is_weighted_walk(edges, longer, k, b) && inner_below(edges, longer, k)
                    && walk_weight(edges, first) + walk_weight(edges, longer) <= walk_weight(
                    edges,
                    p,
                ));
            } else {
                lemma_walk_nonnegative(edges, last);
                assert(is_weighted_walk(edges, first, a, k) && inner_below(edges, first, k)
                    && is_weighted_walk(edges, single, k, b) && inner_below(edges, single, k)
                    && walk_weight(edges, first) + walk_weight(edges, single) <= walk_weight(
                    edges,
                    p,
                ));
            }
        }
    }
}

/// Trying one cell over `k` keeps the table sound, changes no other
/// cell, makes no cell worse and leaves the cell no heavier than the way
/// over `k`.
pub proof fn lemma_relax_cell<E, W: Weight>(
    edges: Seq<EdgeRecord<E, W>>,
    t: PathTable,
    n: int,
    lowest: int,
    highest: int,
    k: int,
    i: int,
    j: int,
)
    requires
        is_shaped(t, n),
        is_sound(edges, t, n),
        0 <= k < n,
        0 <= i < n,
        0 <= j < n,
        relax_cell(Some(t), lowest, highest, k, i, j) is Some,
    ensures
        is_shaped(relax_cell(Some(t), lowest, highest, k, i, j)->Some_0, n),
        is_sound(edges, relax_cell(Some(t), lowest, highest, k, i, j)->Some_0, n),
        no_worse(t, relax_cell(Some(t), lowest, highest, k, i, j)->Some_0, n),
        goes_over(t, relax_cell(Some(t), lowest, highest, k, i, j)->Some_0, k, i, j),
{
    let r = relax_cell(Some(t), lowest, highest, k, i, j)->Some_0;
    if t[i][k] is Some && t[k][j] is Some {
        let w1 = t[i][k]->Some_0.1;
        let w2 = t[k][j]->Some_0.1;
        let better = match t[i][j] {
            Some((_, w)) => w1 + w2 < w,
            None => true,
        };
        if better {
            assert(r[i][j] is Some && r[i][j]->Some_0.1 == w1 + w2) by {
                assert(t[i].len() == n);
            }
            assert forall|a: int| 0 <= a < n implies (#[trigger] r[a]).len() == n by {
                assert(t[a].len() == n);
            }
            assert forall|a: int, b: int| 0 <= a < n && 0 <= b < n && !(a == i && b == j) implies r[a][b]
                == t[a][b] by {
                assert(t[a].len() == n);
            }
            assert forall|a: int, b: int| 0 <= a < n && 0 <= b < n && (#[trigger] r[a][b]) is Some implies exists|
                p: Seq<int>,
            | #[trigger] is_weighted_walk(edges, p, a, b) && walk_weight(edges, p) == r[a][b]->Some_0.1 by {
                if a == i && b == j {
                    let left = choose|p: Seq<int>|
                        #[trigger] is_weighted_walk(edges, p, i, k) && walk_weight(edges, p) == w1;
                    let right = choose|p: Seq<int>|
                        #[trigger] is_weighted_walk(edges, p, k, j) && walk_weight(edges, p) == w2;
                    lemma_walk_joined(edges, left, right, i, k, j);
                    assert(is_weighted_walk(edges, left + right, a, b) && walk_weight(edges, left + right)
                        == r[a][b]->Some_0.1);
                } else {
                    assert(r[a][b] == t[a][b]);
                    assert(t[a][b] is Some);
                }
            }
            assert forall|a: int, b: int| 0 <= a < n && 0 <= b < n && (#[trigger] t[a][b]) is Some implies r[a][b] is Some
                && r[a][b]->Some_0.1 <= t[a][b]->Some_0.1 by {
                if !(a == i && b == j) {
                    assert(r[a][b] == t[a][b]);
                }
            }
        } else {
            assert(r == t);
        }
    } else {
        assert(r == t);
    }
}

/// Trying the first cells of a row over `k` keeps the table sound, makes
/// no cell worse and leaves each of these cells no heavier than the way
/// over `k` was before.
pub proof fn lemma_relax_row<E, W: Weight>(
    edges: Seq<EdgeRecord<E, W>>,
    t: PathTable,
    n: int,
    lowest: int,
    highest: int,
    k: int,
    i: int,
    upto: int,
)
    requires
        is_shaped(t, n),
        is_sound(edges, t, n),
        0 <= k < n,
        0 <= i < n,
        0 <= upto <= n,
        relax_row(Some(t), lowest, highest, k, i, upto) is Some,
    ensures
        is_shaped(relax_row(Some(t), lowest, highest, k, i, upto)->Some_0, n),
        is_sound(edges, relax_row(Some(t), lowest, highest, k, i, upto)->Some_0, n),
        no_worse(t, relax_row(Some(t), lowest, highest, k, i, upto)->Some_0, n),
        forall|j: int|
            0 <= j < upto ==> #[trigger] goes_over(
                t,
                relax_row(Some(t), lowest, highest, k, i, upto)->Some_0,
                k,
                i,
                j,
            ),
    decreases upto,
{
    if upto > 0 {
        let before = relax_row(Some(t), lowest, highest, k, i, upto - 1);
        assert(before is Some);
        let m = before->Some_0;
        lemma_relax_row(edges, t, n, lowest, highest, k, i, upto - 1);
        lemma_relax_cell(edges, m, n, lowest, highest, k, i, upto - 1);
        let r = relax_row(Some(t), lowest, highest, k, i, upto)->Some_0;
        lemma_no_worse_twice(t, m, r, n);
        assert forall|j: int| 0 <= j < upto implies #[trigger] goes_over(t, r, k, i, j) by {
            if t[i][k] is Some && t[k][j] is Some {
                if j < upto - 1 {
                    assert(goes_over(t, m, k, i, j));
                    assert(m[i][j] is Some);
                } else {
                    assert(m[i][k] is Some && m[k][j] is Some);
                    assert(goes_over(m, r, k, i, j));
                }
            }
        }
    } else {
        assert forall|a: int, b: int| 0 <= a < n && 0 <= b < n && (#[trigger] t[a][b]) is Some implies t[a][b] is Some
            && t[a][b]->Some_0.1 <= t[a][b]->Some_0.1 by {}
    }
}

/// What is no worse than something that is no worse is no worse.
pub proof fn lemma_no_worse_twice(a: PathTable, b: PathTable, c: PathTable, n: int)
    requires
        no_worse(a, b, n),
        no_worse(b, c, n),
    ensures
        no_worse(a, c, n),
{
    assert forall|i: int, j: int| 0 <= i < n && 0 <= j < n && (#[trigger] a[i][j]) is Some implies c[i][j] is Some
        && c[i][j]->Some_0.1 <= a[i][j]->Some_0.1 by {
        assert(b[i][j] is Some);
    }
}

/// After the round over `k` through the first rows, the table is sound,
/// no cell is worse, and each cell of these rows is no heavier than the
/// way over `k` was before the round.
pub proof fn lemma_relax_rows<E, W: Weight>(
    edges: Seq<EdgeRecord<E, W>>,
    t: PathTable,
    n: int,
    lowest: int,
    highest: int,
    k: int,
    upto: int,
)
    requires
        is_shaped(t, n),
        is_sound(edges, t, n),
        0 <= k < n,
        0 <= upto <= n,
        relax_rows(Some(t), lowest, highest, n, k, upto) is Some,
    ensures
        is_shaped(relax_rows(Some(t), lowest, highest, n, k, upto)->Some_0, n),
        is_sound(edges, relax_rows(Some(t), lowest, highest, n, k, upto)->Some_0, n),
        no_worse(t, relax_rows(Some(t), lowest, highest, n, k, upto)->Some_0, n),
        forall|i: int, j: int|
            0 <= i < upto && 0 <= j < n ==> #[trigger] goes_over(
                t,
                relax_rows(Some(t), lowest, highest, n, k, upto)->Some_0,
                k,
                i,
                j,
            ),
    decreases upto,
{
    if upto > 0 {
        let before = relax_rows(Some(t), lowest, highest, n, k, upto - 1);
        if before is None {
            crate::algorithms::warshall::lemma_row_none(lowest, highest, k, upto - 1, n);
        }
        let m = before->Some_0;
        lemma_relax_rows(edges, t, n, lowest, highest, k, upto - 1);
        lemma_relax_row(edges, m, n, lowest, highest, k, upto - 1, n);
        let r = relax_rows(Some(t), lowest, highest, n, k, upto)->Some_0;
        lemma_no_worse_twice(t, m, r, n);
        assert forall|i: int, j: int| 0 <= i < upto && 0 <= j < n implies #[trigger] goes_over(
            t,
            r,
            k,
            i,
            j,
        ) by {
            if t[i][k] is Some && t[k][j] is Some {
                if i < upto - 1 {
                    assert(goes_over(t, m, k, i, j));
                    assert(m[i][j] is Some);
                } else {
                    assert(m[i][k] is Some && m[k][j] is Some);
                    assert(goes_over(m, r, k, i, j));
                }
            }
        }
    } else {
        assert forall|a: int, b: int| 0 <= a < n && 0 <= b < n && (#[trigger] t[a][b]) is Some implies t[a][b] is Some
            && t[a][b]->Some_0.1 <= t[a][b]->Some_0.1 by {}
    }
}

/// The first table is sound, and holds for every ordered pair the weight
/// of the last of its weighted records.
pub proof fn lemma_direct_table<E, W: Weight>(edges: Seq<EdgeRecord<E, W>>, n: int, upto: int)
    requires
        0 <= n,
        0 <= upto <= edges.len(),
        endpoints_below(edges, n),
    ensures
        is_shaped(direct_table(edges, n, upto), n),
        forall|i: int, j: int|
            0 <= i < n && 0 <= j < n && (#[trigger] direct_table(edges, n, upto)[i][j]) is Some
                ==> exists|e: int|
                0 <= e < upto && (#[trigger] edges[e]).weight is Some && edges[e].from.0 == i
                    && edges[e].to.0 == j && weight_value(edges, e) == direct_table(
                    edges,
                    n,
                    upto,
                )[i][j]->Some_0.1 && forall|later: int|
                    e < later < upto && (#[trigger] edges[later]).weight is Some ==> !(edges[later].from.0
                        == i && edges[later].to.0 == j),
        forall|e: int|
            0 <= e < upto && (#[trigger] edges[e]).weight is Some ==> direct_table(
                edges,
                n,
                upto,
            )[edges[e].from.0 as int][edges[e].to.0 as int] is Some,
    decreases upto,
{
    let t = direct_table(edges, n, upto);
    if upto > 0 {
        lemma_direct_table(edges, n, upto - 1);
        let before = direct_table(edges, n, upto - 1);
        let r = edges[upto - 1];
        assert(r.from.0 < n && r.to.0 < n);
        if r.weight is Some {
            let a = r.from.0 as int;
            let b = r.to.0 as int;
            assert(before[a].len() == n);
            assert forall|i: int| 0 <= i < n implies (#[trigger] t[i]).len() == n by {
                assert(before[i].len() == n);
            }
            assert forall|i: int, j: int| 0 <= i < n && 0 <= j < n && (#[trigger] t[i][j]) is Some implies exists|
                e: int,
            |
                0 <= e < upto && (#[trigger] edges[e]).weight is Some && edges[e].from.0 == i
                    && edges[e].to.0 == j && weight_value(edges, e) == t[i][j]->Some_0.1 && forall|
                    later: int,
                |
                    e < later < upto && (#[trigger] edges[later]).weight is Some ==> !(edges[later].from.0
                        == i && edges[later].to.0 == j) by {
                if i == a && j == b {
                    let e = upto - 1;
                    assert(edges[e].weight is Some && weight_value(edges, e) == t[i][j]->Some_0.1);
                } else {
                    assert(t[i][j] == before[i][j]);
                    let e = choose|e: int|
                        0 <= e < upto - 1 && (#[trigger] edges[e]).weight is Some && edges[e].from.0 == i
                            && edges[e].to.0 == j && weight_value(edges, e) == before[i][j]->Some_0.1
                            && forall|later: int|
                            e < later < upto - 1 && (#[trigger] edges[later]).weight is Some ==> !(
                            edges[later].from.0 == i && edges[later].to.0 == j);
                    assert(0 <= e < upto);
                }
            }
            assert forall|e: int| 0 <= e < upto && (#[trigger] edges[e]).weight is Some implies t[edges[e].from.0 as int][edges[e].to.0 as int] is Some by {
                let i = edges[e].from.0 as int;
                let j = edges[e].to.0 as int;
                assert(i < n && j < n);
                if !(i == a && j == b) {
                    assert(t[i][j] == before[i][j]);
                }
            }
        } else {
            assert forall|i: int, j: int| 0 <= i < n && 0 <= j < n && (#[trigger] t[i][j]) is Some implies exists|
                e: int,
            |
                0 <= e < upto && (#[trigger] edges[e]).weight is Some && edges[e].from.0 == i
                    && edges[e].to.0 == j && weight_value(edges, e) == t[i][j]->Some_0.1 && forall|
                    later: int,
                |
                    e < later < upto && (#[trigger] edges[later]).weight is Some ==> !(edges[later].from.0
                        == i && edges[later].to.0 == j) by {
                let e = choose|e: int|
                    0 <= e < upto - 1 && (#[trigger] edges[e]).weight is Some && edges[e].from.0 == i
                        && edges[e].to.0 == j && weight_value(edges, e) == before[i][j]->Some_0.1
                        && forall|later: int|
                        e < later < upto - 1 && (#[trigger] edges[later]).weight is Some ==> !(
                        edges[later].from.0 == i && edges[later].to.0 == j);
                assert(0 <= e < upto);
            }
        }
    } else {
        assert(t == empty_table(n));
    }
}

/// The first table is sound, and no single record is lighter than the
/// cell of its two ends.
pub proof fn lemma_first_table<E, W: Weight>(edges: Seq<EdgeRecord<E, W>>, n: int)
    requires
        0 <= n,
        endpoints_below(edges, n),
        last_is_lightest(edges),
    ensures
        is_shaped(direct_table(edges, n, edges.len() as int), n),
        is_sound(edges, direct_table(edges, n, edges.len() as int), n),
        is_complete(edges, direct_table(edges, n, edges.len() as int), n, 0),
{
    let t = direct_table(edges, n, edges.len() as int);
    lemma_direct_table(edges, n, edges.len() as int);
    assert forall|i: int, j: int| 0 <= i < n && 0 <= j < n && (#[trigger] t[i][j]) is Some implies exists|
        p: Seq<int>,
    | #[trigger] is_weighted_walk(edges, p, i, j) && walk_weight(edges, p) == t[i][j]->Some_0.1 by {
        let e = choose|e: int|
            0 <= e < edges.len() && (#[trigger] edges[e]).weight is Some && edges[e].from.0 == i
                && edges[e].to.0 == j && weight_value(edges, e) == t[i][j]->Some_0.1;
        let p = seq![e];
        assert(p.drop_last() =~= Seq::<int>::empty());
        assert(walk_weight(edges, p.drop_last()) == 0);
        assert(p.last() == e);
        assert(is_weighted_walk(edges, p, i, j) && walk_weight(edges, p) == t[i][j]->Some_0.1);
    }
    assert forall|i: int, j: int, p: Seq<int>|
        0 <= i < n && 0 <= j < n && #[trigger] is_weighted_walk(edges, p, i, j) && inner_below(
            edges,
            p,
            0,
        ) implies t[i][j] is Some && t[i][j]->Some_0.1 <= walk_weight(edges, p) by {
        lemma_single_record(edges, t, n, p, i, j);
    }
}

/// A walk without inner nodes is one record, and no lighter than the
/// last weighted record of its pair.
pub proof fn lemma_single_record<E, W: Weight>(
    edges: Seq<EdgeRecord<E, W>>,
    t: PathTable,
    n: int,
    p: Seq<int>,
    i: int,
    j: int,
)
    requires
        0 <= i < n,
        0 <= j < n,
        last_is_lightest(edges),
        is_weighted_walk(edges, p, i, j),
        inner_below(edges, p, 0),
        forall|a: int, b: int|
            0 <= a < n && 0 <= b < n && (#[trigger] t[a][b]) is Some ==> exists|e: int|
                0 <= e < edges.len() && (#[trigger] edges[e]).weight is Some && edges[e].from.0 == a
                    && edges[e].to.0 == b && weight_value(edges, e) == t[a][b]->Some_0.1 && forall|
                    later: int,
                |
                    e < later < edges.len() && (#[trigger] edges[later]).weight is Some ==> !(
                    edges[later].from.0 == a && edges[later].to.0 == b),
        forall|e: int|
            0 <= e < edges.len() && (#[trigger] edges[e]).weight is Some
                ==> t[edges[e].from.0 as int][edges[e].to.0 as int] is Some,
    ensures
        t[i][j] is Some,
        t[i][j]->Some_0.1 <= walk_weight(edges, p),
{
    if p.len() >= 2 {
        assert(edges[p[0]].to.0 < 0);
    }
    let r = p[0];
    assert(p.last() == r);
    assert(p.drop_last() =~= Seq::<int>::empty());
    assert(walk_weight(edges, p.drop_last()) == 0);
    assert(walk_weight(edges, p) == weight_value(edges, r));
    assert(0 <= r < edges.len() && edges[r].weight is Some);
    assert(t[edges[r].from.0 as int][edges[r].to.0 as int] is Some);
    assert(t[i][j] is Some);
    let e = choose|e: int|
        0 <= e < edges.len() && (#[trigger] edges[e]).weight is Some && edges[e].from.0 == i
            && edges[e].to.0 == j && weight_value(edges, e) == t[i][j]->Some_0.1 && forall|later: int|
            e < later < edges.len() && (#[trigger] edges[later]).weight is Some ==> !(edges[later].from.0
                == i && edges[later].to.0 == j);
    if e < r {
        assert(edges[r].weight is Some);
    } else if r < e {
        assert(edges[r].from == edges[e].from && edges[r].to == edges[e].to);
        assert(weight_value(edges, e) <= weight_value(edges, r));
    }
}

/// After the round over `k` no walk whose inner nodes are at most `k` is
/// lighter than its cell, if that held before the round of the walks
/// whose inner nodes are below `k`.
pub proof fn lemma_round_complete<E, W: Weight>(
    edges: Seq<EdgeRecord<E, W>>,
    m: PathTable,
    t: PathTable,
    n: int,
    k: int,
)
    requires
        0 <= k < n,
        weights_nonnegative(edges),
        is_complete(edges, m, n, k),
        no_worse(m, t, n),
        forall|i: int, j: int| 0 <= i < n && 0 <= j < n ==> #[trigger] goes_over(m, t, k, i, j),
    ensures
        is_complete(edges, t, n, k + 1),
{
    assert forall|i: int, j: int, p: Seq<int>|
        0 <= i < n && 0 <= j < n && #[trigger] is_weighted_walk(edges, p, i, j) && inner_below(
            edges,
            p,
            k + 1,
        ) implies t[i][j] is Some && t[i][j]->Some_0.1 <= walk_weight(edges, p) by {
        lemma_walk_parts(edges, p, i, j, k);
        if inner_below(edges, p, k) {
            assert(m[i][j] is Some && m[i][j]->Some_0.1 <= walk_weight(edges, p));
        } else {
            let (first, last) = choose|first: Seq<int>, last: Seq<int>|
                #[trigger] is_weighted_walk(edges, first, i, k) && inner_below(edges, first, k)
                    && #[trigger] is_weighted_walk(edges, last, k, j) && inner_below(edges, last, k)
                    && walk_weight(edges, first) + walk_weight(edges, last) <= walk_weight(edges, p);
            assert(m[i][k] is Some && m[i][k]->Some_0.1 <= walk_weight(edges, first));
            assert(m[k][j] is Some && m[k][j]->Some_0.1 <= walk_weight(edges, last));
            assert(goes_over(m, t, k, i, j));
        }
    }
}

/// After the rounds over the nodes below `k` the table is sound, and no
/// walk whose inner nodes are below `k` is lighter than its cell.
pub proof fn lemma_lightest_rounds<E, W: Weight>(edges: Seq<EdgeRecord<E, W>>, n: int, k: int)
    requires
        0 <= k <= n,
        endpoints_below(edges, n),
        weights_nonnegative(edges),
        last_is_lightest(edges),
        lightest_table(edges, n, k) is Some,
    ensures
        is_shaped(lightest_table(edges, n, k)->Some_0, n),
        is_sound(edges, lightest_table(edges, n, k)->Some_0, n),
        is_complete(edges, lightest_table(edges, n, k)->Some_0, n, k),
    decreases k,
{
    if k == 0 {
        lemma_first_table(edges, n);
    } else {
        let before = lightest_table(edges, n, k - 1);
        if before is None {
            crate::algorithms::warshall::lemma_rows_none(W::lowest(), W::highest(), n, k - 1, n);
        }
        let m = before->Some_0;
        lemma_lightest_rounds(edges, n, k - 1);
        lemma_relax_rows(edges, m, n, W::lowest(), W::highest(), k - 1, n);
        lemma_round_complete(edges, m, lightest_table(edges, n, k)->Some_0, n, k - 1);
    }
}

/// The last matrix of lightest paths holds the least weights.
///
/// Let no weight be negative, and let none of the weighted records of an
/// ordered pair be lighter than the last of them. Then the weight that
/// the table after all rounds holds for a pair of nodes is the weight of
/// a walk from the first node to the second, no walk between the two is
/// lighter, and the cell of a pair is empty only if no walk leads from
/// the first node to the second.
pub proof fn lemma_lightest_weights<E, W: Weight>(edges: Seq<EdgeRecord<E, W>>, n: int)
    requires
        0 <= n,
        endpoints_below(edges, n),
        weights_nonnegative(edges),
        last_is_lightest(edges),
        lightest_table(edges, n, n) is Some,
    ensures
        is_sound(edges, lightest_table(edges, n, n)->Some_0, n),
        forall|i: int, j: int, p: Seq<int>|
            0 <= i < n && 0 <= j < n && #[trigger] is_weighted_walk(edges, p, i, j)
                ==> lightest_table(edges, n, n)->Some_0[i][j] is Some && lightest_table(
                edges,
                n,
                n,
            )->Some_0[i][j]->Some_0.1 <= walk_weight(edges, p),
{
    let t = lightest_table(edges, n, n)->Some_0;
    lemma_lightest_rounds(edges, n, n);
    assert forall|i: int, j: int, p: Seq<int>|
        0 <= i < n && 0 <= j < n && #[trigger] is_weighted_walk(edges, p, i, j) implies t[i][j] is Some
        && t[i][j]->Some_0.1 <= walk_weight(edges, p) by {
        assert forall|x: int| 0 <= x < p.len() - 1 implies edges[#[trigger] p[x]].to.0 < n by {
            assert(0 <= p[x] < edges.len());
        }
        assert(inner_below(edges, p, n));
    }
}

} // verus!
