//! Reflexive-transitive closure, lightest-path matrices and the distance
//! figures derived from them.

use vstd::prelude::*;
use crate::algorithms::dijkstra::node_keys;
use crate::base::{EdgeId, NodeId, NodeKey, Weight};
use crate::storage::graph_definition::EdgeRecord;
use crate::traits::{has_edge, EdgeWeights, GraphBase};
use crate::wrappers::Graph;

verus! {

/// `route` lists nodes of which each has a record to the next.
pub open spec fn is_record_route<E, W>(edges: Seq<EdgeRecord<E, W>>, route: Seq<NodeId>) -> bool {
    &&& route.len() >= 1
    &&& forall|i: int| 0 <= i < route.len() - 1 ==> has_edge(edges, #[trigger] route[i], route[i + 1])
}

/// Records lead from node `i` to node `j` over any number of steps,
/// possibly none.
pub open spec fn connected<E, W>(edges: Seq<EdgeRecord<E, W>>, i: int, j: int) -> bool {
    exists|route: Seq<NodeId>|
        #[trigger] is_record_route(edges, route) && route[0].0 == i && route.last().0 == j
}

/// Routes can be put end to end.
pub proof fn lemma_connected_transitive<E, W>(edges: Seq<EdgeRecord<E, W>>, i: int, k: int, j: int)
    requires
        connected(edges, i, k),
        connected(edges, k, j),
    ensures
        connected(edges, i, j),
{
    let a = choose|route: Seq<NodeId>|
        #[trigger] is_record_route(edges, route) && route[0].0 == i && route.last().0 == k;
    let b = choose|route: Seq<NodeId>|
        #[trigger] is_record_route(edges, route) && route[0].0 == k && route.last().0 == j;
    let whole = a + b.drop_first();
    assert(a.last() == b[0]);
    assert forall|p: int| 0 <= p < whole.len() - 1 implies has_edge(
        edges,
        #[trigger] whole[p],
        whole[p + 1],
    ) by {
        if p < a.len() - 1 {
            assert(whole[p] == a[p] && whole[p + 1] == a[p + 1]);
        } else if p == a.len() - 1 {
            assert(whole[p] == a[p]);
            assert(whole[p + 1] == b[1]);
            assert(has_edge(edges, b[0], b[1]));
        } else {
            let q = p - a.len() + 1;
            assert(whole[p] == b[q] && whole[p + 1] == b[q + 1]);
        }
    }
    assert(is_record_route(edges, whole));
    if b.len() == 1 {
        assert(whole.last() == a.last());
    } else {
        assert(whole.last() == b.last());
    }
    assert(whole[0] == a[0]);
}

/// A node is connected to itself, and to every node it has a record to.
pub proof fn lemma_connected_base<E, W>(edges: Seq<EdgeRecord<E, W>>, i: NodeId, j: NodeId)
    ensures
        connected(edges, i.0 as int, i.0 as int),
        has_edge(edges, i, j) ==> connected(edges, i.0 as int, j.0 as int),
{
    let one = seq![i];
    assert(is_record_route(edges, one) && one[0] == i && one.last() == i);
    if has_edge(edges, i, j) {
        let two = seq![i, j];
        assert(is_record_route(edges, two) && two[0] == i && two.last() == j);
    }
}

/// The matrix is square with side `n`.
pub open spec fn is_square<T>(matrix: Seq<Vec<T>>, n: int) -> bool {
    &&& matrix.len() == n
    &&& forall|i: int| 0 <= i < n ==> (#[trigger] matrix[i])@.len() == n
}

/// A relation that is reflexive, holds every record and is transitive
/// holds every pair of connected nodes.
pub proof fn lemma_closure_complete<E, W>(
    edges: Seq<EdgeRecord<E, W>>,
    closure: Seq<Vec<bool>>,
    n: int,
    route: Seq<NodeId>,
    upto: int,
)
    requires
        is_square(closure, n),
        is_record_route(edges, route),
        0 <= upto < route.len(),
        route[0].0 < n,
        forall|e: int|
            0 <= e < edges.len() ==> (#[trigger] edges[e]).from.0 < n && edges[e].to.0 < n
                && closure[edges[e].from.0 as int]@[edges[e].to.0 as int],
        forall|i: int| 0 <= i < n ==> (#[trigger] closure[i])@[i],
        forall|i: int, k: int, j: int|
            0 <= i < n && 0 <= k < n && 0 <= j < n && #[trigger] closure[i]@[k]
                && #[trigger] closure[k]@[j] ==> closure[i]@[j],
    ensures
        route[upto].0 < n,
        closure[route[0].0 as int]@[route[upto].0 as int],
    decreases upto,
{
    if upto > 0 {
        lemma_closure_complete(edges, closure, n, route, upto - 1);
        let a = route[upto - 1];
        let b = route[upto];
        assert(has_edge(edges, a, b));
        let e = choose|e: int|
            0 <= e < edges.len() && (#[trigger] edges[e]).from == a && edges[e].to == b;
        assert(edges[e].to.0 < n);
        assert(closure[a.0 as int]@[b.0 as int]);
    }
}

/// The keys of the nodes and the matrix of their reflexive-transitive
/// closure.
pub struct WarshallClosureResult<K> {
    pub nodes: Vec<K>,
    pub closure: Vec<Vec<bool>>,
}

/// A square matrix with `value` in every cell.
pub fn filled_matrix(n: usize, value: bool) -> (matrix: Vec<Vec<bool>>)
    ensures
        is_square(matrix@, n as int),
        forall|i: int, j: int| 0 <= i < n && 0 <= j < n ==> (#[trigger] matrix@[i]@[j]) == value,
{
    let mut matrix: Vec<Vec<bool>> = Vec::new();
    let mut i: usize = 0;
    while i < n
        invariant
            i <= n,
            matrix@.len() == i,
            forall|a: int| 0 <= a < i ==> (#[trigger] matrix@[a])@.len() == n,
            forall|a: int, b: int| 0 <= a < i && 0 <= b < n ==> (#[trigger] matrix@[a]@[b]) == value,
        decreases n - i,
    {
        let mut row: Vec<bool> = Vec::new();
        let mut j: usize = 0;
        while j < n
            invariant
                j <= n,
                row@.len() == j,
                forall|b: int| 0 <= b < j ==> (#[trigger] row@[b]) == value,
            decreases n - j,
        {
            row.push(value);
            j += 1;
        }
        matrix.push(row);
        i += 1;
    }
    matrix
}

/// The reflexive-transitive closure of the records of `graph`.
///
/// Cell `(i, j)` of the matrix is true exactly if records lead from node
/// `i` to node `j` over any number of steps. The matrix is therefore
/// reflexive and transitive.
pub fn warshall_closure<G: Graph>(graph: &G) -> (result: WarshallClosureResult<G::Key>)
    requires
        graph.wf(),
    ensures
        result.nodes@.len() == graph.keys().len(),
        forall|i: int| 0 <= i < result.nodes@.len() ==> (#[trigger] result.nodes@[i])@ == graph.keys()[i],
        is_square(result.closure@, graph.keys().len() as int),
        forall|i: int, j: int|
            0 <= i < graph.keys().len() && 0 <= j < graph.keys().len() ==> (
            #[trigger] result.closure@[i]@[j]) == connected(graph.edges(), i, j),
        forall|i: int| 0 <= i < graph.keys().len() ==> (#[trigger] result.closure@[i])@[i],
        forall|i: int, k: int, j: int|
            0 <= i < graph.keys().len() && 0 <= k < graph.keys().len() && 0 <= j
                < graph.keys().len() && #[trigger] result.closure@[i]@[k]
                && #[trigger] result.closure@[k]@[j] ==> result.closure@[i]@[j],
{
    let n = graph.order();
    let m = graph.size();
    let ghost edges = graph.edges();
    let mut closure = filled_matrix(n, false);
    let mut d: usize = 0;
    while d < n
        invariant
            d <= n,
            is_square(closure@, n as int),
            forall|i: int, j: int|
                0 <= i < n && 0 <= j < n ==> (#[trigger] closure@[i]@[j]) == (i == j && i < d),
        decreases n - d,
    {
        closure[d][d] = true;
        d += 1;
    }
    proof {
        assert forall|i: int, j: int|
            0 <= i < n && 0 <= j < n && #[trigger] closure@[i]@[j] implies connected(edges, i, j) by {
            lemma_connected_base(edges, NodeId(i as usize), NodeId(j as usize));
        }
    }
    let mut e: usize = 0;
    while e < m
        invariant
            graph.wf(),
            edges == graph.edges(),
            n == graph.keys().len(),
            m == edges.len(),
            e <= m,
            is_square(closure@, n as int),
            forall|i: int| 0 <= i < n ==> (#[trigger] closure@[i])@[i],
            forall|i: int, j: int|
                0 <= i < n && 0 <= j < n && #[trigger] closure@[i]@[j] ==> connected(edges, i, j),
            forall|k: int|
                0 <= k < e ==> (#[trigger] edges[k]).from.0 < n && edges[k].to.0 < n
                    && closure@[edges[k].from.0 as int]@[edges[k].to.0 as int],
        decreases m - e,
    {
        proof {
            graph.lemma_wf();
        }
        let (src, dst) = graph.endpoints(EdgeId(e));
        let ghost before = closure@;
        closure[src.0][dst.0] = true;
        proof {
            assert forall|i: int, j: int|
                0 <= i < n && 0 <= j < n && #[trigger] closure@[i]@[j] implies connected(
                edges,
                i,
                j,
            ) by {
                if i == src.0 && j == dst.0 {
                    assert(edges[e as int].from == src);
                    assert(has_edge(edges, src, dst));
                    lemma_connected_base(edges, src, dst);
                } else {
                    assert(before[i]@[j]);
                }
            }
            assert forall|k: int| 0 <= k < e + 1 implies (#[trigger] edges[k]).from.0 < n
                && edges[k].to.0 < n && closure@[edges[k].from.0 as int]@[edges[k].to.0 as int] by {
                if k < e {
                    assert(before[edges[k].from.0 as int]@[edges[k].to.0 as int]);
                }
            }
        }
        e += 1;
    }
    let mut k: usize = 0;
    while k < n
        invariant
            graph.wf(),
            edges == graph.edges(),
            n == graph.keys().len(),
            m == edges.len(),
            k <= n,
            is_square(closure@, n as int),
            forall|i: int| 0 <= i < n ==> (#[trigger] closure@[i])@[i],
            forall|i: int, j: int|
                0 <= i < n && 0 <= j < n && #[trigger] closure@[i]@[j] ==> connected(edges, i, j),
            forall|q: int|
                0 <= q < m ==> (#[trigger] edges[q]).from.0 < n && edges[q].to.0 < n
                    && closure@[edges[q].from.0 as int]@[edges[q].to.0 as int],
            forall|i: int, a: int, j: int|
                0 <= i < n && 0 <= a < k && 0 <= j < n && #[trigger] closure@[i]@[a]
                    && #[trigger] closure@[a]@[j] ==> closure@[i]@[j],
        decreases n - k,
    {
        let ghost start = closure@;
        let mut i: usize = 0;
        while i < n
            invariant
                n == graph.keys().len(),
                k < n,
                i <= n,
                is_square(closure@, n as int),
                is_square(start, n as int),
                forall|a: int, b: int|
                    0 <= a < n && 0 <= b < n && #[trigger] start[a]@[b] ==> connected(edges, a, b),
                forall|a: int, b: int|
                    0 <= a < i && 0 <= b < n ==> (#[trigger] closure@[a]@[b]) == (start[a]@[b] || (
                    start[a]@[k as int] && start[k as int]@[b])),
                forall|a: int, b: int|
                    i <= a < n && 0 <= b < n ==> (#[trigger] closure@[a]@[b]) == start[a]@[b],
                start[k as int]@[k as int],
            decreases n - i,
        {
            let mut j: usize = 0;
            while j < n
                invariant
                    n == graph.keys().len(),
                    k < n,
                    i < n,
                    j <= n,
                    is_square(closure@, n as int),
                    is_square(start, n as int),
                    forall|a: int, b: int|
                        0 <= a < i && 0 <= b < n ==> (#[trigger] closure@[a]@[b]) == (start[a]@[b]
                            || (start[a]@[k as int] && start[k as int]@[b])),
                    forall|a: int, b: int|
                        i < a < n && 0 <= b < n ==> (#[trigger] closure@[a]@[b]) == start[a]@[b],
                    forall|b: int|
                        0 <= b < j ==> (#[trigger] closure@[i as int]@[b]) == (start[i as int]@[b]
                            || (start[i as int]@[k as int] && start[k as int]@[b])),
                    forall|b: int| j <= b < n ==> (#[trigger] closure@[i as int]@[b]) == start[i as int]@[b],
                    start[k as int]@[k as int],
                decreases n - j,
            {
                let ghost before = closure@;
                assert(closure@[i as int]@[k as int] == start[i as int]@[k as int]) by {
                    if k < j {
                        assert(closure@[i as int]@[k as int] == (start[i as int]@[k as int] || (
                        start[i as int]@[k as int] && start[k as int]@[k as int])));
                    }
                }
                assert(closure@[k as int]@[j as int] == start[k as int]@[j as int]) by {
                    if k < i {
                        assert(closure@[k as int]@[j as int] == (start[k as int]@[j as int] || (
                        start[k as int]@[k as int] && start[k as int]@[j as int])));
                    }
                }
                if closure[i][k] && closure[k][j] {
                    closure[i][j] = true;
                }
                j += 1;
            }
            i += 1;
        }
        proof {
            assert forall|a: int, b: int|
                0 <= a < n && 0 <= b < n && #[trigger] closure@[a]@[b] implies connected(
                edges,
                a,
                b,
            ) by {
                if !start[a]@[b] {
                    assert(start[a]@[k as int] && start[k as int]@[b]);
                    lemma_connected_transitive(edges, a, k as int, b);
                }
            }
            assert forall|q: int| 0 <= q < m implies (#[trigger] edges[q]).from.0 < n && edges[q].to.0
                < n && closure@[edges[q].from.0 as int]@[edges[q].to.0 as int] by {
                assert(start[edges[q].from.0 as int]@[edges[q].to.0 as int]);
            }
            assert forall|a: int, x: int, b: int|
                0 <= a < n && 0 <= x < k + 1 && 0 <= b < n && #[trigger] closure@[a]@[x]
                    && #[trigger] closure@[x]@[b] implies closure@[a]@[b] by {
                let kk = k as int;
                assert(closure@[a]@[x] == (start[a]@[x] || (start[a]@[kk] && start[kk]@[x])));
                assert(closure@[x]@[b] == (start[x]@[b] || (start[x]@[kk] && start[kk]@[b])));
                assert(closure@[a]@[b] == (start[a]@[b] || (start[a]@[kk] && start[kk]@[b])));
                if x < k {
                    if start[a]@[x] && start[x]@[b] {
                    } else if start[a]@[x] {
                        assert(start[x]@[kk] && start[kk]@[b]);
                        assert(start[a]@[kk]);
                    } else if start[x]@[b] {
                        assert(start[a]@[kk] && start[kk]@[x]);
                        assert(start[kk]@[b]);
                    }
                }
            }
        }
        k += 1;
    }
    let nodes = node_keys(graph);
    proof {
        assert forall|i: int, j: int| 0 <= i < n && 0 <= j < n implies (#[trigger] closure@[i]@[j])
            == connected(edges, i, j) by {
            if connected(edges, i, j) {
                let route = choose|route: Seq<NodeId>|
                    #[trigger] is_record_route(edges, route) && route[0].0 == i && route.last().0
                        == j;
                lemma_closure_complete(edges, closure@, n as int, route, route.len() - 1);
            }
        }
    }
    WarshallClosureResult { nodes, closure }
}

/// What a path matrix holds, as plain values: for every ordered pair of
/// nodes the node ids along a path and the value of its weight, if a path
/// is known.
pub type PathTable = Seq<Seq<Option<(Seq<usize>, int)>>>;

/// The plain value of one cell.
pub open spec fn cell_view<W: Weight>(cell: Option<(Vec<usize>, W)>) -> Option<(Seq<usize>, int)> {
    match cell {
        Some((path, weight)) => Some((path@, weight.value())),
        None => None,
    }
}

/// The plain value of a matrix.
pub open spec fn table_view<W: Weight>(paths: Seq<Vec<Option<(Vec<usize>, W)>>>) -> PathTable {
    Seq::new(paths.len(), |i: int| Seq::new(paths[i]@.len(), |j: int| cell_view(paths[i]@[j])))
}

/// The table of `n` times `n` cells without any path.
pub open spec fn empty_table(n: int) -> PathTable {
    Seq::new(n as nat, |i: int| Seq::new(n as nat, |j: int| None::<(Seq<usize>, int)>))
}

/// The table that holds, for every ordered pair, the last weighted record
/// among the first `upto` records, as a path of two nodes.
pub open spec fn direct_table<E, W: Weight>(edges: Seq<EdgeRecord<E, W>>, n: int, upto: int) -> PathTable
    decreases upto,
{
    if upto <= 0 {
        empty_table(n)
    } else {
        let before = direct_table(edges, n, upto - 1);
        let r = edges[upto - 1];
        match r.weight {
            Some(w) => before.update(
                r.from.0 as int,
                before[r.from.0 as int].update(
                    r.to.0 as int,
                    Some((seq![r.from.0, r.to.0], w.value())),
                ),
            ),
            None => before,
        }
    }
}

/// The table after trying to improve the cell `(i, j)` by going over the
/// node `k`; `None` if the sum of the two weights cannot be represented
/// between `lowest` and `highest`.
///
/// The cell is replaced if it holds no path yet or if the way over `k` is
/// strictly lighter.
pub open spec fn relax_cell(
    table: Option<PathTable>,
    lowest: int,
    highest: int,
    k: int,
    i: int,
    j: int,
) -> Option<PathTable> {
    match table {
        None => None,
        Some(t) => match (t[i][k], t[k][j]) {
            (Some((first, w1)), Some((second, w2))) => {
                if lowest <= w1 + w2 <= highest {
                    let better = match t[i][j] {
                        Some((_, w)) => w1 + w2 < w,
                        None => true,
                    };
                    if better {
                        Some(t.update(i, t[i].update(j, Some((first.drop_last() + second, w1 + w2)))))
                    } else {
                        Some(t)
                    }
                } else {
                    None
                }
            },
            _ => Some(t),
        },
    }
}

/// The table after trying the cells `(i, 0)` to `(i, upto - 1)` over `k`.
pub open spec fn relax_row(
    table: Option<PathTable>,
    lowest: int,
    highest: int,
    k: int,
    i: int,
    upto: int,
) -> Option<PathTable>
    decreases upto,
{
    if upto <= 0 {
        table
    } else {
        relax_cell(relax_row(table, lowest, highest, k, i, upto - 1), lowest, highest, k, i, upto - 1)
    }
}

/// The table after trying the rows `0` to `upto - 1` of `n` cells over `k`.
pub open spec fn relax_rows(
    table: Option<PathTable>,
    lowest: int,
    highest: int,
    n: int,
    k: int,
    upto: int,
) -> Option<PathTable>
    decreases upto,
{
    if upto <= 0 {
        table
    } else {
        relax_row(relax_rows(table, lowest, highest, n, k, upto - 1), lowest, highest, k, upto - 1, n)
    }
}

/// The table after the rounds over the nodes `0` to `k - 1`.
pub open spec fn lightest_table<E, W: Weight>(edges: Seq<EdgeRecord<E, W>>, n: int, k: int) -> Option<
    PathTable,
>
    decreases k,
{
    if k <= 0 {
        Some(direct_table(edges, n, edges.len() as int))
    } else {
        relax_rows(lightest_table(edges, n, k - 1), W::lowest(), W::highest(), n, k - 1, n)
    }
}

/// Once a sum could not be represented, no later round has a table.
pub proof fn lemma_overflow_stays<E, W: Weight>(edges: Seq<EdgeRecord<E, W>>, n: int, k: int, later: int)
    requires
        0 <= k <= later,
        lightest_table(edges, n, k) is None,
    ensures
        lightest_table(edges, n, later) is None,
    decreases later - k,
{
    if k < later {
        lemma_overflow_stays(edges, n, k, later - 1);
        lemma_rows_none(W::lowest(), W::highest(), n, later - 1, n);
    }
}

/// Rows of a missing table are missing.
pub proof fn lemma_rows_none(lowest: int, highest: int, n: int, k: int, upto: int)
    ensures
        relax_rows(None, lowest, highest, n, k, upto) is None,
        relax_row(None, lowest, highest, k, upto, n) is None,
    decreases upto, n,
{
    if upto > 0 {
        lemma_rows_none(lowest, highest, n, k, upto - 1);
        lemma_row_none(lowest, highest, k, upto - 1, n);
    }
    lemma_row_none(lowest, highest, k, upto, n);
}

/// A row of a missing table is missing.
pub proof fn lemma_row_none(lowest: int, highest: int, k: int, i: int, upto: int)
    ensures
        relax_row(None, lowest, highest, k, i, upto) is None,
    decreases upto,
{
    if upto > 0 {
        lemma_row_none(lowest, highest, k, i, upto - 1);
    }
}

/// One matrix of lightest paths: cell `(i, j)` holds the node ids along a
/// path from node `i` to node `j` and its weight, if a path is known.
pub struct WarshallPathMatrix<K, W> {
    pub nodes: Vec<K>,
    pub paths: Vec<Vec<Option<(Vec<usize>, W)>>>,
}

/// The matrices after each round of the algorithm, the first one before
/// any round.
pub struct WarshallLightestPathResult<K, W> {
    pub nodes: Vec<K>,
    pub matrices: Vec<WarshallPathMatrix<K, W>>,
}

/// A sum of two weights left the range of the weight type.
#[derive(Clone, Copy, Debug, PartialEq, Eq, Structural)]
pub struct WeightOverflow;

/// An independent copy of a list of node ids.
pub fn copy_path(path: &Vec<usize>) -> (copy: Vec<usize>)
    ensures
        copy@ == path@,
{
    let mut copy: Vec<usize> = Vec::new();
    let mut i: usize = 0;
    while i < path.len()
        invariant
            i <= path@.len(),
            copy@ == path@.take(i as int),
        decreases path@.len() - i,
    {
        copy.push(path[i]);
        i += 1;
        assert(copy@ =~= path@.take(i as int));
    }
    assert(path@.take(i as int) =~= path@);
    copy
}

/// The path `first` without its last node, followed by `second`.
pub fn join_paths(first: &Vec<usize>, second: &Vec<usize>) -> (joined: Vec<usize>)
    requires
        first@.len() >= 1,
    ensures
        joined@ == first@.drop_last() + second@,
{
    let mut joined: Vec<usize> = copy_path(first);
    joined.pop();
    assert(joined@ =~= first@.drop_last() + second@.take(0));
    let mut i: usize = 0;
    while i < second.len()
        invariant
            i <= second@.len(),
            joined@ == first@.drop_last() + second@.take(i as int),
        decreases second@.len() - i,
    {
        joined.push(second[i]);
        i += 1;
        assert(joined@ =~= first@.drop_last() + second@.take(i as int));
    }
    assert(second@.take(i as int) =~= second@);
    joined
}

/// An independent copy of a matrix of paths.
pub fn copy_table<W: Weight>(paths: &Vec<Vec<Option<(Vec<usize>, W)>>>) -> (copy: Vec<
    Vec<Option<(Vec<usize>, W)>>,
>)
    ensures
        table_view(copy@) == table_view(paths@),
{
    let mut copy: Vec<Vec<Option<(Vec<usize>, W)>>> = Vec::new();
    let mut i: usize = 0;
    while i < paths.len()
        invariant
            i <= paths@.len(),
            copy@.len() == i,
            forall|a: int|
                0 <= a < i ==> (#[trigger] copy@[a])@.len() == paths@[a]@.len() && forall|b: int|
                    0 <= b < paths@[a]@.len() ==> cell_view(#[trigger] copy@[a]@[b]) == cell_view(
                        paths@[a]@[b],
                    ),
        decreases paths@.len() - i,
    {
        let mut row: Vec<Option<(Vec<usize>, W)>> = Vec::new();
        let mut j: usize = 0;
        while j < paths[i].len()
            invariant
                i < paths@.len(),
                j <= paths@[i as int]@.len(),
                row@.len() == j,
                forall|b: int|
                    0 <= b < j ==> cell_view(#[trigger] row@[b]) == cell_view(paths@[i as int]@[b]),
            decreases paths@[i as int]@.len() - j,
        {
            let cell = match &paths[i][j] {
                Some((path, weight)) => Some((copy_path(path), *weight)),
                None => None,
            };
            row.push(cell);
            j += 1;
        }
        copy.push(row);
        i += 1;
    }
    assert(table_view(copy@) =~~= table_view(paths@));
    copy
}

/// A square matrix without any path.
pub fn empty_paths<W: Weight>(n: usize) -> (paths: Vec<Vec<Option<(Vec<usize>, W)>>>)
    ensures
        is_square(paths@, n as int),
        table_view(paths@) == empty_table(n as int),
        forall|a: int, b: int| 0 <= a < n && 0 <= b < n ==> (#[trigger] paths@[a]@[b]) is None,
{
    let mut paths: Vec<Vec<Option<(Vec<usize>, W)>>> = Vec::new();
    let mut i: usize = 0;
    while i < n
        invariant
            i <= n,
            paths@.len() == i,
            forall|a: int| 0 <= a < i ==> (#[trigger] paths@[a])@.len() == n,
            forall|a: int, b: int| 0 <= a < i && 0 <= b < n ==> (#[trigger] paths@[a]@[b]) is None,
        decreases n - i,
    {
        let mut row: Vec<Option<(Vec<usize>, W)>> = Vec::new();
        let mut j: usize = 0;
        while j < n
            invariant
                j <= n,
                row@.len() == j,
                forall|b: int| 0 <= b < j ==> (#[trigger] row@[b]) is None,
            decreases n - j,
        {
            row.push(None);
            j += 1;
        }
        paths.push(row);
        i += 1;
    }
    assert(table_view(paths@) =~~= empty_table(n as int));
    paths
}

/// A row that has no table at some cell has none at any later cell.
pub proof fn lemma_row_extends(
    table: Option<PathTable>,
    lowest: int,
    highest: int,
    k: int,
    i: int,
    upto: int,
    later: int,
)
    requires
        upto <= later,
        relax_row(table, lowest, highest, k, i, upto) is None,
    ensures
        relax_row(table, lowest, highest, k, i, later) is None,
    decreases later - upto,
{
    if upto < later {
        lemma_row_extends(table, lowest, highest, k, i, upto, later - 1);
    }
}

/// A round that has no table after some row has none after any later row.
pub proof fn lemma_rows_extends(
    table: Option<PathTable>,
    lowest: int,
    highest: int,
    n: int,
    k: int,
    upto: int,
    later: int,
)
    requires
        upto <= later,
        relax_rows(table, lowest, highest, n, k, upto) is None,
    ensures
        relax_rows(table, lowest, highest, n, k, later) is None,
    decreases later - upto,
{
    if upto < later {
        lemma_rows_extends(table, lowest, highest, n, k, upto, later - 1);
        lemma_row_none(lowest, highest, k, later - 1, n);
    }
}

/// Every known path of the matrix has at least one node.
pub open spec fn paths_nonempty<W>(paths: Seq<Vec<Option<(Vec<usize>, W)>>>) -> bool {
    forall|i: int, j: int|
        0 <= i < paths.len() && 0 <= j < paths[i]@.len() && (#[trigger] paths[i]@[j]) is Some
            ==> paths[i]@[j]->Some_0.0@.len() >= 1
}

/// The matrices of lightest paths, one before the first round and one after
/// each round over an intermediate node.
///
/// The first matrix holds, for every ordered pair, the last weighted
/// record of the pair. The round over the node `k` replaces the path of a
/// cell `(i, j)` by the path over `k` if the cell is empty or the path over
/// `k` is strictly lighter, row by row and cell by cell. Fails if a sum of
/// two weights that a round has to form is not representable.
///
/// Where no weight is negative and no weighted record of an ordered pair
/// is lighter than the last of them, the last matrix holds for every pair
/// the least weight of a walk from the first node to the second.
pub fn warshall_lightest_path_matrix<G>(graph: &G) -> (outcome: Result<
    WarshallLightestPathResult<G::Key, G::Weight>,
    WeightOverflow,
>) where G: Graph + EdgeWeights, G::Weight: Weight
    requires
        graph.wf(),
    ensures
        match outcome {
            Ok(result) => {
                &&& result.nodes@.len() == graph.keys().len()
                &&& forall|i: int|
                    0 <= i < result.nodes@.len() ==> (#[trigger] result.nodes@[i])@ == graph.keys()[i]
                &&& result.matrices@.len() == graph.keys().len() + 1
                &&& forall|k: int|
                    0 <= k <= graph.keys().len() ==> {
                        let matrix = #[trigger] result.matrices@[k];
                        &&& lightest_table(graph.edges(), graph.keys().len() as int, k) == Some(
                            table_view(matrix.paths@),
                        )
                        &&& is_square(matrix.paths@, graph.keys().len() as int)
                        &&& matrix.nodes@.len() == graph.keys().len()
                        &&& forall|i: int|
                            0 <= i < matrix.nodes@.len() ==> (#[trigger] matrix.nodes@[i])@
                                == graph.keys()[i]
                    }
            },
            Err(_) => lightest_table(graph.edges(), graph.keys().len() as int, graph.keys().len() as int)
                is None,
        },
{
    let n = graph.order();
    let m = graph.size();
    let ghost edges = graph.edges();
    let ghost lo = G::Weight::lowest();
    let ghost hi = G::Weight::highest();
    let mut paths: Vec<Vec<Option<(Vec<usize>, G::Weight)>>> = empty_paths(n);
    let mut e: usize = 0;
    while e < m
        invariant
            graph.wf(),
            edges == graph.edges(),
            n == graph.keys().len(),
            m == edges.len(),
            e <= m,
            is_square(paths@, n as int),
            paths_nonempty(paths@),
            table_view(paths@) == direct_table(edges, n as int, e as int),
        decreases m - e,
    {
        proof {
            graph.lemma_wf();
        }
        let (src, dst) = graph.endpoints(EdgeId(e));
        let ghost before = paths@;
        match graph.weight_of(EdgeId(e)) {
            Some(weight) => {
                let mut pair: Vec<usize> = Vec::new();
                pair.push(src.0);
                pair.push(dst.0);
                assert(pair@ =~= seq![src.0, dst.0]);
                paths[src.0][dst.0] = Some((pair, weight));
                proof {
                    assert(table_view(paths@) =~~= direct_table(edges, n as int, e + 1));
                    assert forall|i: int, j: int|
                        0 <= i < paths@.len() && 0 <= j < paths@[i]@.len() && (
                        #[trigger] paths@[i]@[j]) is Some implies paths@[i]@[j]->Some_0.0@.len()
                        >= 1 by {
                        if !(i == src.0 && j == dst.0) {
                            assert(paths@[i]@[j] == before[i]@[j]);
                        }
                    }
                }
            },
            None => {},
        }
        e += 1;
    }
    let mut matrices: Vec<WarshallPathMatrix<G::Key, G::Weight>> = Vec::new();
    matrices.push(WarshallPathMatrix { nodes: node_keys(graph), paths: copy_table(&paths) });
    proof {
        lemma_square_view(matrices@[0].paths@, paths@, n as int);
        assert(lightest_table(edges, n as int, 0) == Some(table_view(paths@)));
    }
    let mut k: usize = 0;
    while k < n
        invariant
            graph.wf(),
            edges == graph.edges(),
            n == graph.keys().len(),
            lo == G::Weight::lowest(),
            hi == G::Weight::highest(),
            k <= n,
            is_square(paths@, n as int),
            paths_nonempty(paths@),
            lightest_table(edges, n as int, k as int) == Some(table_view(paths@)),
            matrices@.len() == k + 1,
            forall|q: int|
                0 <= q <= k ==> {
                    let matrix = #[trigger] matrices@[q];
                    &&& lightest_table(edges, n as int, q) == Some(table_view(matrix.paths@))
                    &&& is_square(matrix.paths@, n as int)
                    &&& matrix.nodes@.len() == n
                    &&& forall|i: int|
                        0 <= i < matrix.nodes@.len() ==> (#[trigger] matrix.nodes@[i])@
                            == graph.keys()[i]
                },
        decreases n - k,
    {
        let ghost round_start = lightest_table(edges, n as int, k as int);
        let mut i: usize = 0;
        while i < n
            invariant
                n == graph.keys().len(),
                lo == G::Weight::lowest(),
                hi == G::Weight::highest(),
                k < n,
                i <= n,
                is_square(paths@, n as int),
                paths_nonempty(paths@),
                edges == graph.edges(),
                round_start == lightest_table(edges, n as int, k as int),
                relax_rows(round_start, lo, hi, n as int, k as int, i as int) == Some(
                    table_view(paths@),
                ),
            decreases n - i,
        {
            let ghost row_start = relax_rows(round_start, lo, hi, n as int, k as int, i as int);
            let mut j: usize = 0;
            while j < n
                invariant
                    n == graph.keys().len(),
                    lo == G::Weight::lowest(),
                    hi == G::Weight::highest(),
                    k < n,
                    i < n,
                    j <= n,
                    is_square(paths@, n as int),
                    paths_nonempty(paths@),
                    edges == graph.edges(),
                    round_start == lightest_table(edges, n as int, k as int),
                    row_start == relax_rows(round_start, lo, hi, n as int, k as int, i as int),
                    relax_row(row_start, lo, hi, k as int, i as int, j as int) == Some(
                        table_view(paths@),
                    ),
                decreases n - j,
            {
                let ghost before = paths@;
                let ghost t = table_view(paths@);
                let mut candidate: Option<(Vec<usize>, G::Weight)> = None;
                let mut overflow = false;
                match (&paths[i][k], &paths[k][j]) {
                    (Some((first, w1)), Some((second, w2))) => {
                        assert(t[i as int][k as int] == Some((first@, w1.value())));
                        assert(t[k as int][j as int] == Some((second@, w2.value())));
                        match w1.checked_plus(w2) {
                            Some(sum) => {
                                let better = match &paths[i][j] {
                                    Some((_, w)) => {
                                        assert(t[i as int][j as int]->Some_0.1 == w.value());
                                        sum.less_than(w)
                                    },
                                    None => {
                                        assert(t[i as int][j as int] is None);
                                        true
                                    },
                                };
                                if better {
                                    candidate = Some((join_paths(first, second), sum));
                                }
                                proof {
                                    let next = relax_cell(Some(t), lo, hi, k as int, i as int, j as int);
                                    assert(next is Some);
                                    if !better {
                                        assert(next == Some(t));
                                    } else {
                                        assert(next == Some(
                                            t.update(
                                                i as int,
                                                t[i as int].update(
                                                    j as int,
                                                    Some((first@.drop_last() + second@, sum.value())),
                                                ),
                                            ),
                                        ));
                                    }
                                }
                            },
                            None => {
                                overflow = true;
                                assert(relax_cell(Some(t), lo, hi, k as int, i as int, j as int) is None);
                            },
                        }
                    },
                    _ => {
                        assert(t[i as int][k as int] is None || t[k as int][j as int] is None);
                        assert(relax_cell(Some(t), lo, hi, k as int, i as int, j as int) == Some(t));
                    },
                }
                if overflow {
                    proof {
                        assert(relax_row(row_start, lo, hi, k as int, i as int, j as int) == Some(t));
                        assert(relax_row(row_start, lo, hi, k as int, i as int, j + 1) == relax_cell(
                            relax_row(row_start, lo, hi, k as int, i as int, j as int),
                            lo,
                            hi,
                            k as int,
                            i as int,
                            j as int,
                        ));
                        assert(relax_row(row_start, lo, hi, k as int, i as int, j + 1) is None);
                        lemma_row_extends(row_start, lo, hi, k as int, i as int, j + 1, n as int);
                        assert(relax_rows(round_start, lo, hi, n as int, k as int, i + 1) == relax_row(
                            row_start,
                            lo,
                            hi,
                            k as int,
                            i as int,
                            n as int,
                        ));
                        lemma_rows_extends(round_start, lo, hi, n as int, k as int, i + 1, n as int);
                        assert(lightest_table(edges, n as int, k + 1) == relax_rows(
                            round_start,
                            lo,
                            hi,
                            n as int,
                            k as int,
                            n as int,
                        ));
                        lemma_overflow_stays(edges, n as int, k + 1, n as int);
                    }
                    return Err(WeightOverflow);
                }
                match candidate {
                    Some(cell) => {
                        let ghost new_cell = cell_view(Some(cell));
                        paths[i][j] = Some(cell);
                        proof {
                            assert(table_view(paths@) =~~= t.update(
                                i as int,
                                t[i as int].update(j as int, new_cell),
                            ));
                            assert forall|a: int, b: int|
                                0 <= a < paths@.len() && 0 <= b < paths@[a]@.len() && (
                                #[trigger] paths@[a]@[b]) is Some implies paths@[a]@[b]->Some_0.0@.len()
                                >= 1 by {
                                if !(a == i && b == j) {
                                    assert(paths@[a]@[b] == before[a]@[b]);
                                } else {
                                    assert(before[k as int]@[j as int]->Some_0.0@.len() >= 1);
                                }
                            }
                        }
                    },
                    None => {},
                }
                j += 1;
            }
            i += 1;
        }
        let ghost before = matrices@;
        matrices.push(WarshallPathMatrix { nodes: node_keys(graph), paths: copy_table(&paths) });
        k += 1;
        proof {
            assert forall|q: int| 0 <= q <= k implies {
                let matrix = #[trigger] matrices@[q];
                &&& lightest_table(edges, n as int, q) == Some(table_view(matrix.paths@))
                &&& is_square(matrix.paths@, n as int)
                &&& matrix.nodes@.len() == n
                &&& forall|i: int|
                    0 <= i < matrix.nodes@.len() ==> (#[trigger] matrix.nodes@[i])@ == graph.keys()[i]
            } by {
                if q < k {
                    assert(matrices@[q] == before[q]);
                } else {
                    lemma_square_view(matrices@[q].paths@, paths@, n as int);
                }
            }
        }
    }
    Ok(WarshallLightestPathResult { nodes: node_keys(graph), matrices })
}

/// A matrix with the same plain value as a square matrix is square.
pub proof fn lemma_square_view<W: Weight>(
    copy: Seq<Vec<Option<(Vec<usize>, W)>>>,
    paths: Seq<Vec<Option<(Vec<usize>, W)>>>,
    n: int,
)
    requires
        table_view(copy) == table_view(paths),
        is_square(paths, n),
    ensures
        is_square(copy, n),
{
    assert(table_view(copy).len() == copy.len());
    assert(table_view(paths).len() == paths.len());
    assert forall|i: int| 0 <= i < n implies (#[trigger] copy[i])@.len() == n by {
        assert(table_view(copy)[i].len() == copy[i]@.len());
        assert(table_view(paths)[i].len() == paths[i]@.len());
    }
}

/// `value` is the eccentricity of node `i` in the table: the greatest
/// weight of a lightest path to another node, and undefined if there is no
/// other node or if some other node cannot be reached.
pub open spec fn is_eccentricity(table: PathTable, n: int, i: int, value: Option<usize>) -> bool {
    match value {
        None => n <= 1 || exists|j: int| 0 <= j < n && j != i && (#[trigger] table[i][j]) is None,
        Some(v) => {
            &&& n >= 2
            &&& forall|j: int|
                0 <= j < n && j != i ==> (#[trigger] table[i][j]) is Some && table[i][j]->Some_0.1 <= v
            &&& exists|j: int| 0 <= j < n && j != i && (#[trigger] table[i][j])->Some_0.1 == v
        },
    }
}

/// `value` is the least of the defined entries, and undefined if no entry
/// is defined.
pub open spec fn is_least(entries: Seq<Option<usize>>, value: Option<usize>) -> bool {
    match value {
        None => forall|i: int| 0 <= i < entries.len() ==> (#[trigger] entries[i]) is None,
        Some(v) => {
            &&& exists|i: int| 0 <= i < entries.len() && #[trigger] entries[i] == Some(v)
            &&& forall|i: int|
                0 <= i < entries.len() && (#[trigger] entries[i]) is Some ==> v <= entries[i]->Some_0
        },
    }
}

/// `value` is the greatest of the defined entries, and undefined if no
/// entry is defined.
pub open spec fn is_greatest(entries: Seq<Option<usize>>, value: Option<usize>) -> bool {
    match value {
        None => forall|i: int| 0 <= i < entries.len() ==> (#[trigger] entries[i]) is None,
        Some(v) => {
            &&& exists|i: int| 0 <= i < entries.len() && #[trigger] entries[i] == Some(v)
            &&& forall|i: int|
                0 <= i < entries.len() && (#[trigger] entries[i]) is Some ==> entries[i]->Some_0 <= v
        },
    }
}

/// `picked` lists, in ascending order, the positions of `entries` that
/// hold `value`; none if `value` is undefined.
pub open spec fn picks(entries: Seq<Option<usize>>, value: Option<usize>, picked: Seq<usize>) -> bool {
    &&& forall|a: int, b: int| 0 <= a < b < picked.len() ==> picked[a] < picked[b]
    &&& forall|i: usize|
        picked.contains(i) <==> (value is Some && i < entries.len() && entries[i as int] == value)
}

/// Eccentricity of every node, and radius and diameter of the graph.
pub struct GraphDistances<K> {
    pub nodes: Vec<K>,
    pub eccentricities: Vec<Option<usize>>,
    pub radius: Option<usize>,
    pub diameter: Option<usize>,
}

/// The positions of `entries` that hold `value`, ascending.
pub fn positions_of(entries: &Vec<Option<usize>>, value: Option<usize>) -> (picked: Vec<usize>)
    ensures
        picks(entries@, value, picked@),
{
    let mut picked: Vec<usize> = Vec::new();
    if let Some(v) = value {
        let mut i: usize = 0;
        while i < entries.len()
            invariant
                value == Some(v),
                i <= entries@.len(),
                forall|a: int, b: int| 0 <= a < b < picked@.len() ==> picked@[a] < picked@[b],
                forall|x: usize| picked@.contains(x) <==> (x < i && entries@[x as int] == value),
            decreases entries@.len() - i,
        {
            let ghost before = picked@;
            proof {
                assert forall|a: int| 0 <= a < before.len() implies (#[trigger] before[a]) < i by {
                    assert(before.contains(before[a]));
                }
            }
            if let Some(e) = entries[i] {
                if e == v {
                    picked.push(i);
                }
            }
            proof {
                assert forall|x: usize| picked@.contains(x) <==> (x < i + 1 && entries@[x as int]
                    == value) by {
                    if picked@.len() > before.len() {
                        crate::storage::scan::lemma_push_contains(before, i, x);
                    }
                }
            }
            i += 1;
        }
    }
    picked
}

impl<K> GraphDistances<K> {
    /// The nodes whose eccentricity is the radius, ascending.
    pub fn center_nodes(&self) -> (centers: Vec<usize>)
        ensures
            picks(self.eccentricities@, self.radius, centers@),
    {
        positions_of(&self.eccentricities, self.radius)
    }

    /// The nodes whose eccentricity is the diameter, ascending.
    pub fn periphery_nodes(&self) -> (periphery: Vec<usize>)
        ensures
            picks(self.eccentricities@, self.diameter, periphery@),
    {
        positions_of(&self.eccentricities, self.diameter)
    }
}

/// Independent copies of a list of keys.
pub fn copy_keys<K: NodeKey>(keys: &Vec<K>) -> (copy: Vec<K>)
    ensures
        copy@.len() == keys@.len(),
        forall|i: int| 0 <= i < keys@.len() ==> (#[trigger] copy@[i])@ == keys@[i]@,
{
    let mut copy: Vec<K> = Vec::new();
    let mut i: usize = 0;
    while i < keys.len()
        invariant
            i <= keys@.len(),
            copy@.len() == i,
            forall|j: int| 0 <= j < i ==> (#[trigger] copy@[j])@ == keys@[j]@,
        decreases keys@.len() - i,
    {
        copy.push(keys[i].key_clone());
        i += 1;
    }
    copy
}

/// Eccentricities, radius and diameter from the last matrix of `matrix`.
///
/// The eccentricity of a node is the greatest weight of a lightest path
/// from it to another node; it is undefined if the graph has no other node
/// or if some other node cannot be reached. Radius and diameter are the
/// least and the greatest defined eccentricity.
pub fn compute_graph_distances<K: NodeKey>(matrix: &WarshallLightestPathResult<K, i32>) -> (distances:
    GraphDistances<K>)
    requires
        matrix.matrices@.len() >= 1,
        is_square(matrix.matrices@.last().paths@, matrix.matrices@[0].nodes@.len() as int),
        forall|i: int, j: int|
            0 <= i < matrix.matrices@[0].nodes@.len() && 0 <= j < matrix.matrices@[0].nodes@.len() && (
            #[trigger] matrix.matrices@.last().paths@[i]@[j]) is Some
                ==> matrix.matrices@.last().paths@[i]@[j]->Some_0.1 >= 0,
    ensures
        distances.nodes@.len() == matrix.nodes@.len(),
        forall|i: int|
            0 <= i < matrix.nodes@.len() ==> (#[trigger] distances.nodes@[i])@ == matrix.nodes@[i]@,
        distances.eccentricities@.len() == matrix.matrices@[0].nodes@.len(),
        forall|i: int|
            0 <= i < distances.eccentricities@.len() ==> is_eccentricity(
                table_view(matrix.matrices@.last().paths@),
                distances.eccentricities@.len() as int,
                i,
                #[trigger] distances.eccentricities@[i],
            ),
        is_least(distances.eccentricities@, distances.radius),
        is_greatest(distances.eccentricities@, distances.diameter),
{
    let n = matrix.matrices[0].nodes.len();
    let last = &matrix.matrices[matrix.matrices.len() - 1];
    let ghost table = table_view(last.paths@);
    let mut eccentricities: Vec<Option<usize>> = Vec::new();
    let mut radius: Option<usize> = None;
    let mut diameter: Option<usize> = None;
    let mut i: usize = 0;
    while i < n
        invariant
            i <= n,
            is_square(last.paths@, n as int),
            table == table_view(last.paths@),
            forall|a: int, b: int|
                0 <= a < n && 0 <= b < n && (#[trigger] last.paths@[a]@[b]) is Some
                    ==> last.paths@[a]@[b]->Some_0.1 >= 0,
            eccentricities@.len() == i,
            forall|a: int|
                0 <= a < i ==> is_eccentricity(table, n as int, a, #[trigger] eccentricities@[a]),
            is_least(eccentricities@, radius),
            is_greatest(eccentricities@, diameter),
        decreases n - i,
    {
        let mut farthest: Option<usize> = None;
        let mut reached = true;
        let mut j: usize = 0;
        while j < n
            invariant
                i < n,
                j <= n,
                is_square(last.paths@, n as int),
                table == table_view(last.paths@),
                forall|a: int, b: int|
                    0 <= a < n && 0 <= b < n && (#[trigger] last.paths@[a]@[b]) is Some
                        ==> last.paths@[a]@[b]->Some_0.1 >= 0,
                reached ==> forall|b: int|
                    0 <= b < j && b != i ==> (#[trigger] table[i as int][b]) is Some,
                !reached ==> exists|b: int|
                    0 <= b < j && b != i && (#[trigger] table[i as int][b]) is None,
                reached ==> match farthest {
                    Some(v) => {
                        &&& forall|b: int|
                            0 <= b < j && b != i ==> (#[trigger] table[i as int][b])->Some_0.1 <= v
                        &&& exists|b: int|
                            0 <= b < j && b != i && (#[trigger] table[i as int][b])->Some_0.1 == v
                    },
                    None => j == 0 || (j == 1 && i == 0),
                },
            decreases n - j,
        {
            if i != j {
                match &last.paths[i][j] {
                    Some((_, weight)) => {
                        assert(table[i as int][j as int]->Some_0.1 == *weight);
                        assert(last.paths@[i as int]@[j as int]->Some_0.1 >= 0);
                        let dist = *weight as usize;
                        farthest = match farthest {
                            Some(current) => Some(if current < dist { dist } else { current }),
                            None => Some(dist),
                        };
                    },
                    None => {
                        assert(table[i as int][j as int] is None);
                        reached = false;
                    },
                }
            }
            j += 1;
        }
        let eccentricity = if reached {
            farthest
        } else {
            None
        };
        proof {
            if reached && farthest is None {
                assert(n <= 1) by {
                    if n >= 2 {
                        let b = if i == 0 { 1int } else { 0int };
                        assert(0 <= b < n && b != i);
                    }
                }
            }
            assert(is_eccentricity(table, n as int, i as int, eccentricity));
        }
        let ghost before = eccentricities@;
        eccentricities.push(eccentricity);
        if let Some(e) = eccentricity {
            radius = match radius {
                Some(r) => Some(if e < r { e } else { r }),
                None => Some(e),
            };
            diameter = match diameter {
                Some(d) => Some(if d < e { e } else { d }),
                None => Some(e),
            };
        }
        proof {
            assert forall|a: int| 0 <= a < i + 1 implies is_eccentricity(
                table,
                n as int,
                a,
                #[trigger] eccentricities@[a],
            ) by {
                if a < i {
                    assert(eccentricities@[a] == before[a]);
                }
            }
            lemma_extremes_step(before, eccentricity);
        }
        i += 1;
    }
    GraphDistances { nodes: copy_keys(&matrix.nodes), eccentricities, radius, diameter }
}

/// How the least and the greatest entry change when one entry is added.
pub proof fn lemma_extremes_step(before: Seq<Option<usize>>, added: Option<usize>)
    ensures
        forall|low: Option<usize>|
            #[trigger] is_least(before, low) ==> is_least(
                before.push(added),
                match (added, low) {
                    (Some(e), Some(r)) => Some(if e < r { e } else { r }),
                    (Some(e), None) => Some(e),
                    (None, _) => low,
                },
            ),
        forall|high: Option<usize>|
            #[trigger] is_greatest(before, high) ==> is_greatest(
                before.push(added),
                match (added, high) {
                    (Some(e), Some(d)) => Some(if d < e { e } else { d }),
                    (Some(e), None) => Some(e),
                    (None, _) => high,
                },
            ),
{
    let after = before.push(added);
    assert forall|low: Option<usize>| #[trigger] is_least(before, low) implies is_least(
        after,
        match (added, low) {
            (Some(e), Some(r)) => Some(if e < r { e } else { r }),
            (Some(e), None) => Some(e),
            (None, _) => low,
        },
    ) by {
        assert(after[before.len() as int] == added);
        assert forall|i: int| 0 <= i < before.len() implies after[i] == before[i] by {}
        if let Some(r) = low {
            let w = choose|i: int| 0 <= i < before.len() && #[trigger] before[i] == Some(r);
            assert(after[w] == Some(r));
        }
    }
    assert forall|high: Option<usize>| #[trigger] is_greatest(before, high) implies is_greatest(
        after,
        match (added, high) {
            (Some(e), Some(d)) => Some(if d < e { e } else { d }),
            (Some(e), None) => Some(e),
            (None, _) => high,
        },
    ) by {
        assert(after[before.len() as int] == added);
        assert forall|i: int| 0 <= i < before.len() implies after[i] == before[i] by {}
        if let Some(d) = high {
            let w = choose|i: int| 0 <= i < before.len() && #[trigger] before[i] == Some(d);
            assert(after[w] == Some(d));
        }
    }
}

} // verus!
