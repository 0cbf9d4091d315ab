//! Counting colourings, and why the chromatic polynomial counts them.

use vstd::prelude::*;
use crate::algorithms::colorings::{
    addition_polynomial, chromatic_of, contracted, count_cells, eval_of, falling, graph_table,
    is_chromatic_number, is_flag_table, is_normal, lemma_scan_pair, lemma_with_pair_count,
    old_index, removal_polynomial, scan_pair, with_flag, with_pair, ChromaticPolynomialMethod,
    FlagTable,
};
use crate::algorithms::polynomial_values::{
    lemma_eval_add, lemma_eval_monomial, lemma_eval_sub, lemma_eval_times_linear,
    lemma_same_values, power,
};
use crate::storage::scan::lemma_push_contains;
use crate::traits::GraphBase;

verus! {

/// Every item of `c` is one of the colours from 0 up to, but not
/// including, `k`.
pub open spec fn in_palette(c: Seq<int>, k: int) -> bool {
    forall|i: int| 0 <= i < c.len() ==> 0 <= #[trigger] c[i] < k
}

/// `d` begins with the items of `c`.
pub open spec fn extends(d: Seq<int>, c: Seq<int>) -> bool {
    c.len() <= d.len() && d.take(c.len() as int) == c
}

/// The number of ways to go on from `c`, first with a colour below `a`
/// and then with any of `k` colours for each further node, up to `n`
/// nodes in all, such that `ok` holds of the outcome. Where `c` has `n`
/// items already, this is one if `ok` holds of it and zero if not.
pub open spec fn ways(ok: spec_fn(Seq<int>) -> bool, n: int, k: int, c: Seq<int>, a: int) -> int
    decreases n - c.len(), a,
{
    if c.len() >= n {
        if ok(c) {
            1
        } else {
            0
        }
    } else if a <= 0 {
        0
    } else {
        ways(ok, n, k, c, a - 1) + ways(ok, n, k, c.push(a - 1), k)
    }
}

/// Pushing a colour of the palette keeps a list in the palette, and a
/// list that begins with the longer list begins with the shorter one.
pub proof fn lemma_push_colour(c: Seq<int>, k: int, a: int)
    requires
        in_palette(c, k),
        0 <= a < k,
    ensures
        in_palette(c.push(a), k),
        forall|d: Seq<int>| #[trigger] extends(d, c.push(a)) ==> extends(d, c) && d[c.len() as int] == a,
{
    let longer = c.push(a);
    assert forall|i: int| 0 <= i < longer.len() implies 0 <= #[trigger] longer[i] < k by {
        if i < c.len() {
            assert(longer[i] == c[i]);
        }
    }
    assert forall|d: Seq<int>| #[trigger] extends(d, longer) implies extends(d, c) && d[c.len() as int]
        == a by {
        let front = d.take(longer.len() as int);
        assert(front[c.len() as int] == a);
        assert(d.take(c.len() as int) =~= front.take(c.len() as int));
        assert(longer.take(c.len() as int) =~= c);
    }
}

/// A count of ways is never negative.
pub proof fn lemma_ways_nonnegative(ok: spec_fn(Seq<int>) -> bool, n: int, k: int, c: Seq<int>, a: int)
    ensures
        0 <= ways(ok, n, k, c, a),
    decreases n - c.len(), a,
{
    if c.len() >= n {
    } else if a <= 0 {
    } else {
        lemma_ways_nonnegative(ok, n, k, c, a - 1);
        lemma_ways_nonnegative(ok, n, k, c.push(a - 1), k);
    }
}

/// Where every colouring that meets `ok` meets exactly one of `one` and
/// `two`, and the other way round, the ways to meet `ok` are those to
/// meet `one` and those to meet `two` together.
pub proof fn lemma_ways_split(
    ok: spec_fn(Seq<int>) -> bool,
    one: spec_fn(Seq<int>) -> bool,
    two: spec_fn(Seq<int>) -> bool,
    n: int,
    k: int,
    c: Seq<int>,
    a: int,
)
    requires
        in_palette(c, k),
        c.len() <= n,
        a <= k,
        forall|d: Seq<int>|
            d.len() == n && in_palette(d, k) ==> (#[trigger] ok(d) <==> (one(d) || two(d))) && !(one(d)
                && two(d)),
    ensures
        ways(ok, n, k, c, a) == ways(one, n, k, c, a) + ways(two, n, k, c, a),
    decreases n - c.len(), a,
{
    if c.len() >= n {
        assert(ok(c) <==> (one(c) || two(c)));
    } else if a <= 0 {
    } else {
        lemma_ways_split(ok, one, two, n, k, c, a - 1);
        lemma_push_colour(c, k, a - 1);
        lemma_ways_split(ok, one, two, n, k, c.push(a - 1), k);
    }
}

/// Where no colouring that begins with `c` meets `ok`, there is no way.
pub proof fn lemma_ways_none(ok: spec_fn(Seq<int>) -> bool, n: int, k: int, c: Seq<int>, a: int)
    requires
        in_palette(c, k),
        c.len() <= n,
        a <= k,
        forall|d: Seq<int>| d.len() == n && in_palette(d, k) && extends(d, c) ==> !#[trigger] ok(d),
    ensures
        ways(ok, n, k, c, a) == 0,
    decreases n - c.len(), a,
{
    if c.len() >= n {
        assert(c.take(c.len() as int) =~= c);
        assert(extends(c, c));
    } else if a <= 0 {
    } else {
        lemma_ways_none(ok, n, k, c, a - 1);
        lemma_push_colour(c, k, a - 1);
        lemma_ways_none(ok, n, k, c.push(a - 1), k);
    }
}

/// A colouring that begins with `c`, goes on with a colour below `a` and
/// meets `ok` is a way.
pub proof fn lemma_ways_witness(
    ok: spec_fn(Seq<int>) -> bool,
    n: int,
    k: int,
    c: Seq<int>,
    a: int,
    d: Seq<int>,
)
    requires
        c.len() <= n,
        d.len() == n,
        in_palette(d, k),
        extends(d, c),
        ok(d),
        c.len() < n ==> d[c.len() as int] < a <= k,
    ensures
        ways(ok, n, k, c, a) >= 1,
    decreases n - c.len(), a,
{
    if c.len() >= n {
        assert(d.take(n) =~= d);
    } else {
        let next = d[c.len() as int];
        lemma_ways_nonnegative(ok, n, k, c, a - 1);
        lemma_ways_nonnegative(ok, n, k, c.push(a - 1), k);
        if next == a - 1 {
            let longer = c.push(next);
            assert(d.take(longer.len() as int) =~= longer) by {
                assert forall|i: int| 0 <= i < longer.len() implies d.take(longer.len() as int)[i]
                    == longer[i] by {
                    if i < c.len() {
                        assert(d.take(c.len() as int)[i] == c[i]);
                    }
                }
            }
            lemma_ways_witness(ok, n, k, longer, k, d);
        } else {
            lemma_ways_witness(ok, n, k, c, a - 1, d);
        }
    }
}

/// Where there is a way, there is a colouring that begins with `c` and
/// meets `ok`.
pub proof fn lemma_ways_positive(ok: spec_fn(Seq<int>) -> bool, n: int, k: int, c: Seq<int>, a: int)
    requires
        in_palette(c, k),
        c.len() <= n,
        a <= k,
        ways(ok, n, k, c, a) >= 1,
    ensures
        exists|d: Seq<int>| d.len() == n && in_palette(d, k) && extends(d, c) && #[trigger] ok(d),
    decreases n - c.len(), a,
{
    if c.len() >= n {
        assert(c.take(c.len() as int) =~= c);
        assert(extends(c, c) && ok(c));
    } else if a <= 0 {
    } else {
        if ways(ok, n, k, c, a - 1) >= 1 {
            lemma_ways_positive(ok, n, k, c, a - 1);
        } else {
            lemma_push_colour(c, k, a - 1);
            lemma_ways_positive(ok, n, k, c.push(a - 1), k);
            let d = choose|d: Seq<int>|
                d.len() == n && in_palette(d, k) && extends(d, c.push(a - 1)) && #[trigger] ok(d);
            assert(extends(d, c));
        }
    }
}

/// The table of an undirected graph without loops: the flags of `(i, j)`
/// and `(j, i)` agree, and no flag of the diagonal is set.
pub open spec fn is_graph_table(t: FlagTable, n: int) -> bool {
    &&& is_flag_table(t, n)
    &&& forall|i: int, j: int| 0 <= i < n && 0 <= j < n ==> #[trigger] t[i][j] == t[j][i]
    &&& forall|i: int| 0 <= i < n ==> !#[trigger] t[i][i]
}

/// `c` gives each of the `n` nodes a colour such that no two flagged
/// nodes have the same.
pub open spec fn is_proper(t: FlagTable, n: int, c: Seq<int>) -> bool {
    &&& c.len() == n
    &&& forall|i: int, j: int| 0 <= i < n && 0 <= j < n && #[trigger] t[i][j] ==> c[i] != c[j]
}

/// The condition to be a proper colouring of the table.
pub open spec fn proper(t: FlagTable, n: int) -> spec_fn(Seq<int>) -> bool {
    |c: Seq<int>| is_proper(t, n, c)
}

/// The condition to be a proper colouring of the table that gives `u` and
/// `v` the same colour.
pub open spec fn proper_merged(t: FlagTable, n: int, u: int, v: int) -> spec_fn(Seq<int>) -> bool {
    |c: Seq<int>| is_proper(t, n, c) && c[u] == c[v]
}

/// The number of proper colourings of the table with `k` colours.
pub open spec fn colourings(t: FlagTable, n: int, k: int) -> int {
    ways(proper(t, n), n, k, Seq::<int>::empty(), k)
}

/// The colours of the nodes other than `v`, as far as `c` reaches.
pub open spec fn shrunk(c: Seq<int>, v: int) -> Seq<int> {
    if c.len() <= v {
        c
    } else {
        c.remove(v)
    }
}

/// The flags of a table after both flags of a pair are set or cleared.
pub proof fn lemma_with_pair_cells(t: FlagTable, n: int, u: int, v: int, value: bool)
    requires
        is_flag_table(t, n),
        0 <= u < n,
        0 <= v < n,
    ensures
        is_flag_table(with_pair(t, u, v, value), n),
        forall|i: int, j: int|
            0 <= i < n && 0 <= j < n ==> #[trigger] with_pair(t, u, v, value)[i][j] == if (i == u && j
                == v) || (i == v && j == u) {
                value
            } else {
                t[i][j]
            },
{
    let half = with_flag(t, u, v, value);
    let full = with_pair(t, u, v, value);
    assert forall|i: int| 0 <= i < n implies (#[trigger] half[i]).len() == n by {
        assert(t[i].len() == n);
    }
    assert forall|i: int| 0 <= i < n implies (#[trigger] full[i]).len() == n by {
        assert(half[i].len() == n);
    }
    assert forall|i: int, j: int| 0 <= i < n && 0 <= j < n implies #[trigger] full[i][j] == if (i == u
        && j == v) || (i == v && j == u) {
        value
    } else {
        t[i][j]
    } by {
        assert(t[i].len() == n);
        assert(half[i].len() == n);
    }
}

/// Setting or clearing a pair of different nodes keeps the table that of
/// a graph.
pub proof fn lemma_with_pair_table(t: FlagTable, n: int, u: int, v: int, value: bool)
    requires
        is_graph_table(t, n),
        0 <= u < n,
        0 <= v < n,
        u != v,
    ensures
        is_graph_table(with_pair(t, u, v, value), n),
{
    lemma_with_pair_cells(t, n, u, v, value);
    let full = with_pair(t, u, v, value);
    assert forall|i: int, j: int| 0 <= i < n && 0 <= j < n implies #[trigger] full[i][j] == full[j][i] by {
        assert(t[i][j] == t[j][i]);
    }
    assert forall|i: int| 0 <= i < n implies !#[trigger] full[i][i] by {
        assert(!t[i][i]);
    }
}

/// Merging two different nodes gives the table of a graph with one node
/// less.
pub proof fn lemma_contracted_table(t: FlagTable, n: int, u: int, v: int)
    requires
        is_graph_table(t, n),
        0 <= u < n,
        0 <= v < n,
        u != v,
    ensures
        is_graph_table(contracted(t, n, u, v), n - 1),
{
    let m = contracted(t, n, u, v);
    assert forall|a: int, b: int| 0 <= a < n - 1 && 0 <= b < n - 1 implies #[trigger] m[a][b]
        == m[b][a] by {
        let i = old_index(a, v);
        let j = old_index(b, v);
        assert(t[i][j] == t[j][i]);
        assert(t[v][j] == t[j][v]);
        assert(t[i][v] == t[v][i]);
    }
    assert forall|a: int| 0 <= a < n - 1 implies !#[trigger] m[a][a] by {
        let i = old_index(a, v);
        assert(!t[i][i]);
        assert(t[v][i] == t[i][v]);
    }
}

/// A colouring that gives two unjoined nodes the same colour is proper
/// exactly if it is proper for the graph in which the two are merged.
pub proof fn lemma_merged_proper(t: FlagTable, n: int, u: int, v: int, c: Seq<int>)
    requires
        is_graph_table(t, n),
        0 <= u < n,
        0 <= v < n,
        u != v,
        !t[u][v],
        c.len() == n,
        c[u] == c[v],
    ensures
        is_proper(t, n, c) <==> is_proper(contracted(t, n, u, v), n - 1, c.remove(v)),
{
    let m = contracted(t, n, u, v);
    let s = c.remove(v);
    assert(t[v][u] == t[u][v]);
    if is_proper(t, n, c) {
        assert forall|a: int, b: int| 0 <= a < n - 1 && 0 <= b < n - 1 && #[trigger] m[a][b] implies s[a]
            != s[b] by {
            let i = old_index(a, v);
            let j = old_index(b, v);
            assert(s[a] == c[i] && s[b] == c[j]);
            if t[i][j] {
            } else if i == u && t[v][j] {
            } else {
                assert(j == u && t[i][v]);
            }
        }
    }
    if is_proper(m, n - 1, s) {
        assert forall|i: int, j: int| 0 <= i < n && 0 <= j < n && #[trigger] t[i][j] implies c[i]
            != c[j] by {
            let a = if i < v {
                i
            } else {
                i - 1
            };
            let b = if j < v {
                j
            } else {
                j - 1
            };
            let ua = if u < v {
                u
            } else {
                u - 1
            };
            assert(old_index(ua, v) == u);
            assert(s[ua] == c[u]);
            assert(!t[i][i]);
            assert(!t[u][u]);
            if i != v && j != v {
                assert(old_index(a, v) == i && old_index(b, v) == j);
                assert(m[a][b]);
                assert(s[a] == c[i] && s[b] == c[j]);
            } else if i == v && j != v {
                assert(old_index(b, v) == j);
                assert(j != u);
                assert(m[ua][b]);
                assert(s[b] == c[j]);
            } else if j == v && i != v {
                assert(old_index(a, v) == i);
                assert(i != u);
                assert(m[a][ua]);
                assert(s[a] == c[i]);
            }
        }
    }
}

/// The proper colourings that give two unjoined nodes `u` and `v` the
/// same colour are as many as the proper colourings of the graph in which
/// the two are merged.
pub proof fn lemma_merge_ways(t: FlagTable, n: int, k: int, u: int, v: int, c: Seq<int>, a: int)
    requires
        is_graph_table(t, n),
        0 <= u < v < n,
        !t[u][v],
        in_palette(c, k),
        c.len() <= n,
        c.len() > v ==> c[v] == c[u],
        0 <= a <= k,
    ensures
        c.len() != v ==> ways(proper_merged(t, n, u, v), n, k, c, a) == ways(
            proper(contracted(t, n, u, v), n - 1),
            n - 1,
            k,
            shrunk(c, v),
            a,
        ),
        c.len() == v ==> ways(proper_merged(t, n, u, v), n, k, c, a) == if c[u] < a {
            ways(proper(contracted(t, n, u, v), n - 1), n - 1, k, c, k)
        } else {
            0
        },
    decreases n - c.len(), a,
{
    let merged = proper_merged(t, n, u, v);
    let small = proper(contracted(t, n, u, v), n - 1);
    let len = c.len() as int;
    if len >= n {
        lemma_merged_proper(t, n, u, v, c);
    } else if a <= 0 {
        if len == v {
            assert(0 <= c[u]);
        }
    } else {
        let longer = c.push(a - 1);
        lemma_push_colour(c, k, a - 1);
        lemma_merge_ways(t, n, k, u, v, c, a - 1);
        if len == v {
            assert(0 <= c[u] < k);
            if a - 1 == c[u] {
                assert(longer[v] == longer[u]);
                lemma_merge_ways(t, n, k, u, v, longer, k);
                assert(shrunk(longer, v) =~= c);
            } else {
                assert forall|d: Seq<int>|
                    d.len() == n && in_palette(d, k) && extends(d, longer) implies !#[trigger] merged(
                    d,
                ) by {
                    assert(d[v] == a - 1);
                    assert(d.take(len)[u] == c[u]);
                }
                lemma_ways_none(merged, n, k, longer, k);
            }
        } else {
            if len > v {
                assert(longer[v] == c[v] && longer[u] == c[u]);
            }
            lemma_merge_ways(t, n, k, u, v, longer, k);
            if len + 1 == v {
                assert(0 <= longer[u] < k);
                assert(shrunk(c, v).push(a - 1) == longer);
            } else {
                assert(shrunk(longer, v) =~= shrunk(c, v).push(a - 1));
            }
        }
    }
}

/// The proper colourings of a graph in which `u` and `v` are not joined
/// are those of the graph with the two joined and those of the graph with
/// the two merged, taken together.
pub proof fn lemma_join_or_merge(t: FlagTable, n: int, k: int, u: int, v: int)
    requires
        is_graph_table(t, n),
        0 <= u < v < n,
        !t[u][v],
        0 <= k,
    ensures
        colourings(t, n, k) == colourings(with_pair(t, u, v, true), n, k) + colourings(
            contracted(t, n, u, v),
            n - 1,
            k,
        ),
{
    let joined = with_pair(t, u, v, true);
    let none = Seq::<int>::empty();
    lemma_with_pair_cells(t, n, u, v, true);
    assert forall|d: Seq<int>| d.len() == n && in_palette(d, k) implies (#[trigger] proper(t, n)(d) <==> (
    proper(joined, n)(d) || proper_merged(t, n, u, v)(d))) && !(proper(joined, n)(d) && proper_merged(
        t,
        n,
        u,
        v,
    )(d)) by {
        if is_proper(joined, n, d) {
            assert(joined[u][v]);
            assert(d[u] != d[v]);
            assert forall|i: int, j: int| 0 <= i < n && 0 <= j < n && #[trigger] t[i][j] implies d[i]
                != d[j] by {
                assert(joined[i][j]);
            }
        }
        if is_proper(t, n, d) && d[u] != d[v] {
            assert forall|i: int, j: int| 0 <= i < n && 0 <= j < n && #[trigger] joined[i][j] implies d[i]
                != d[j] by {
                if (i == u && j == v) || (i == v && j == u) {
                } else {
                    assert(t[i][j]);
                }
            }
        }
    }
    lemma_ways_split(proper(t, n), proper(joined, n), proper_merged(t, n, u, v), n, k, none, k);
    lemma_merge_ways(t, n, k, u, v, none, k);
}

/// With no pair flagged, every colouring is proper: each node takes any
/// of the `k` colours.
pub proof fn lemma_free_ways(t: FlagTable, n: int, k: int, c: Seq<int>, a: int)
    requires
        is_flag_table(t, n),
        forall|i: int, j: int| 0 <= i < n && 0 <= j < n ==> !#[trigger] t[i][j],
        c.len() <= n,
        0 <= a <= k,
    ensures
        ways(proper(t, n), n, k, c, a) == if c.len() >= n {
            1
        } else {
            a * power(k, n - c.len() - 1)
        },
    decreases n - c.len(), a,
{
    let len = c.len() as int;
    if len >= n {
        assert(is_proper(t, n, c));
    } else if a <= 0 {
        assert(0 * power(k, n - len - 1) == 0);
    } else {
        lemma_free_ways(t, n, k, c, a - 1);
        lemma_free_ways(t, n, k, c.push(a - 1), k);
        let rest = power(k, n - len - 1);
        assert(ways(proper(t, n), n, k, c.push(a - 1), k) == rest);
        assert((a - 1) * rest + rest == a * rest) by (nonlinear_arith);
    }
}

/// The product of `k - i` over the numbers `i` from `from` up to, but not
/// including, `n`.
pub open spec fn choices(k: int, from: int, n: int) -> int
    decreases n - from,
{
    if from >= n {
        1
    } else {
        (k - from) * choices(k, from + 1, n)
    }
}

/// `k (k - 1) ... (k - n + 1)`.
pub open spec fn falling_value(k: int, n: int) -> int
    decreases n,
{
    if n <= 0 {
        1
    } else {
        falling_value(k, n - 1) * (k - (n - 1))
    }
}

/// The product can be taken from either end.
pub proof fn lemma_choices_last(k: int, from: int, n: int)
    requires
        from < n,
    ensures
        choices(k, from, n) == choices(k, from, n - 1) * (k - (n - 1)),
    decreases n - from,
{
    if from + 1 < n {
        lemma_choices_last(k, from + 1, n);
        let inner = choices(k, from + 1, n - 1);
        let last = k - (n - 1);
        let first = k - from;
        assert(first * (inner * last) == (first * inner) * last) by (nonlinear_arith);
    } else {
        assert(choices(k, from + 1, n) == 1);
        assert(choices(k, from, n - 1) == 1);
        assert((k - from) * 1 == 1 * (k - (n - 1))) by (nonlinear_arith)
            requires
                from == n - 1,
        ;
    }
}

/// The product over all of `0` to `n - 1` is `k (k - 1) ... (k - n + 1)`.
pub proof fn lemma_choices_all(k: int, n: int)
    requires
        0 <= n,
    ensures
        choices(k, 0, n) == falling_value(k, n),
    decreases n,
{
    if n > 0 {
        lemma_choices_all(k, n - 1);
        lemma_choices_last(k, 0, n);
    }
}

/// The number of colours below `a` that do not occur in `c`.
pub open spec fn fresh_below(c: Seq<int>, a: int) -> int
    decreases a,
{
    if a <= 0 {
        0
    } else {
        fresh_below(c, a - 1) + if c.contains(a - 1) {
            0int
        } else {
            1int
        }
    }
}

/// One colour more in the list is one fresh colour less, if it is below
/// `a`.
pub proof fn lemma_fresh_push(c: Seq<int>, x: int, a: int)
    requires
        !c.contains(x),
        0 <= x,
    ensures
        fresh_below(c.push(x), a) == fresh_below(c, a) - if x < a {
            1int
        } else {
            0int
        },
    decreases a,
{
    if a > 0 {
        lemma_fresh_push(c, x, a - 1);
        lemma_push_contains(c, x, a - 1);
    }
}

/// Of `k` colours, those that do not occur among different colours of the
/// palette are `k` less the number of these.
pub proof fn lemma_fresh_count(c: Seq<int>, k: int)
    requires
        c.no_duplicates(),
        in_palette(c, k),
        0 <= k,
    ensures
        fresh_below(c, k) == k - c.len(),
    decreases c.len(),
{
    if c.len() == 0 {
        lemma_fresh_none(c, k);
    } else {
        let front = c.drop_last();
        let x = c.last();
        assert(c == front.push(x));
        assert(!front.contains(x)) by {
            if front.contains(x) {
                let i = choose|i: int| 0 <= i < front.len() && front[i] == x;
                assert(c[i] == c[c.len() - 1]);
            }
        }
        assert forall|i: int| 0 <= i < front.len() implies 0 <= #[trigger] front[i] < k by {
            assert(front[i] == c[i]);
        }
        lemma_fresh_count(front, k);
        lemma_fresh_push(front, x, k);
    }
}

/// With no colour in the list, every colour is fresh.
pub proof fn lemma_fresh_none(c: Seq<int>, a: int)
    requires
        c.len() == 0,
        0 <= a,
    ensures
        fresh_below(c, a) == a,
    decreases a,
{
    if a > 0 {
        lemma_fresh_none(c, a - 1);
    }
}

/// With every pair of different nodes flagged, a colouring is proper if
/// no colour occurs twice: each node takes any colour that is still
/// fresh.
pub proof fn lemma_complete_ways(t: FlagTable, n: int, k: int, c: Seq<int>, a: int)
    requires
        is_graph_table(t, n),
        forall|i: int, j: int| 0 <= i < n && 0 <= j < n && i != j ==> #[trigger] t[i][j],
        in_palette(c, k),
        c.no_duplicates(),
        c.len() <= n,
        0 <= a <= k,
    ensures
        ways(proper(t, n), n, k, c, a) == if c.len() >= n {
            1
        } else {
            fresh_below(c, a) * choices(k, c.len() as int + 1, n)
        },
    decreases n - c.len(), a,
{
    let len = c.len() as int;
    let rest = choices(k, len + 1, n);
    if len >= n {
        assert forall|i: int, j: int| 0 <= i < n && 0 <= j < n && #[trigger] t[i][j] implies c[i]
            != c[j] by {
            assert(!t[i][i]);
        }
    } else if a <= 0 {
        assert(0 * rest == 0);
    } else {
        let longer = c.push(a - 1);
        lemma_complete_ways(t, n, k, c, a - 1);
        lemma_push_colour(c, k, a - 1);
        if c.contains(a - 1) {
            let i = choose|i: int| 0 <= i < len && c[i] == a - 1;
            assert forall|d: Seq<int>|
                d.len() == n && in_palette(d, k) && extends(d, longer) implies !#[trigger] proper(t, n)(
                d,
            ) by {
                assert(d.take(len)[i] == c[i]);
                assert(d[len] == a - 1);
                assert(t[i][len]);
            }
            lemma_ways_none(proper(t, n), n, k, longer, k);
        } else {
            assert forall|i: int, j: int|
                0 <= i < longer.len() && 0 <= j < longer.len() && i != j implies longer[i]
                != longer[j] by {
                if i < len {
                    assert(c.contains(c[i]));
                }
                if j < len {
                    assert(c.contains(c[j]));
                }
            }
            lemma_complete_ways(t, n, k, longer, k);
            lemma_fresh_count(longer, k);
            if len + 1 < n {
                assert(ways(proper(t, n), n, k, longer, k) == rest);
            } else {
                assert(rest == 1);
            }
        }
        let before = fresh_below(c, a - 1);
        assert(before * rest + rest == (before + 1) * rest) by (nonlinear_arith);
    }
}

/// Where the scan from a position on finds no pair, no pair from there
/// on has the wanted flag.
pub proof fn lemma_scan_all(t: FlagTable, n: int, i: int, j: int, wanted: bool)
    requires
        0 <= i < j,
        scan_pair(t, n, i, j, wanted) is None,
    ensures
        forall|p: int, q: int|
            0 <= p < q < n && (p > i || (p == i && q >= j)) ==> #[trigger] t[p][q] != wanted,
    decreases n - i, n - j,
{
    if i >= n {
    } else if j >= n {
        lemma_scan_all(t, n, i + 1, i + 2, wanted);
    } else {
        lemma_scan_all(t, n, i, j + 1, wanted);
    }
}

/// A table that agrees with another in every flag is that table.
pub proof fn lemma_same_table(t: FlagTable, other: FlagTable, n: int)
    requires
        is_flag_table(t, n),
        is_flag_table(other, n),
        forall|i: int, j: int| 0 <= i < n && 0 <= j < n ==> #[trigger] t[i][j] == other[i][j],
    ensures
        t == other,
{
    assert forall|i: int| 0 <= i < n implies #[trigger] t[i] == other[i] by {
        assert(t[i].len() == n && other[i].len() == n);
        assert forall|j: int| 0 <= j < n implies t[i][j] == other[i][j] by {
            assert(t[i][j] == other[i][j]);
        }
        assert(t[i] =~= other[i]);
    }
    assert(t =~= other);
}

/// The polynomial by deleting and contracting edges counts the proper
/// colourings: its value at `k` is their number with `k` colours.
pub proof fn lemma_removal_counts(t: FlagTable, n: int, k: int)
    requires
        is_graph_table(t, n),
        0 <= k,
        removal_polynomial(t, n) is Some,
    ensures
        eval_of(removal_polynomial(t, n)->Some_0, k) == colourings(t, n, k),
        is_normal(removal_polynomial(t, n)->Some_0),
    decreases n, count_cells(t, true),
{
    let none = Seq::<int>::empty();
    match scan_pair(t, n, 0, 1, true) {
        Some((u, v)) => {
            lemma_scan_pair(t, n, 0, 1, true);
            lemma_with_pair_count(t, n, u, v, false);
            let cut = with_pair(t, u, v, false);
            let merged = contracted(t, n, u, v);
            lemma_with_pair_table(t, n, u, v, false);
            lemma_contracted_table(t, n, u, v);
            let a = removal_polynomial(cut, n)->Some_0;
            let b = removal_polynomial(merged, n - 1)->Some_0;
            lemma_removal_counts(cut, n, k);
            lemma_removal_counts(merged, n - 1, k);
            lemma_eval_sub(a, b, k);
            lemma_with_pair_cells(t, n, u, v, false);
            lemma_join_or_merge(cut, n, k, u, v);
            lemma_with_pair_cells(cut, n, u, v, true);
            assert(with_pair(cut, u, v, true) == t) by {
                assert(t[v][u] == t[u][v]);
                lemma_same_table(with_pair(cut, u, v, true), t, n);
            }
            assert(contracted(cut, n, u, v) == merged) by {
                lemma_contracted_table(cut, n, u, v);
                assert forall|x: int, y: int| 0 <= x < n - 1 && 0 <= y < n - 1 implies #[trigger] contracted(
                    cut,
                    n,
                    u,
                    v,
                )[x][y] == merged[x][y] by {
                    let i = old_index(x, v);
                    let j = old_index(y, v);
                    assert(cut[i][j] == t[i][j]);
                    assert(cut[v][j] == if j == u {
                        false
                    } else {
                        t[v][j]
                    });
                    assert(cut[i][v] == if i == u {
                        false
                    } else {
                        t[i][v]
                    });
                }
                lemma_same_table(contracted(cut, n, u, v), merged, n - 1);
            }
        },
        None => {
            lemma_scan_all(t, n, 0, 1, true);
            assert forall|i: int, j: int| 0 <= i < n && 0 <= j < n implies !#[trigger] t[i][j] by {
                assert(t[i][j] == t[j][i]);
                assert(!t[i][i]);
                if i < j {
                    assert(t[i][j] != true);
                } else if j < i {
                    assert(t[j][i] != true);
                }
            }
            lemma_free_ways(t, n, k, none, k);
            lemma_eval_monomial(n, k);
        },
    }
}

/// The value of `x (x - 1) ... (x - n + 1)` at `k`.
pub proof fn lemma_eval_falling(n: int, k: int)
    requires
        falling(n) is Some,
    ensures
        eval_of(falling(n)->Some_0, k) == falling_value(k, if n <= 0 { 0 } else { n }),
        is_normal(falling(n)->Some_0),
    decreases n,
{
    if n <= 0 {
        let one = seq![1int];
        assert(one.drop_first().len() == 0);
        assert(eval_of(one.drop_first(), k) == 0);
        assert(k * 0 == 0);
        assert(eval_of(one, k) == one[0] + k * eval_of(one.drop_first(), k));
    } else {
        let p = falling(n - 1)->Some_0;
        lemma_eval_falling(n - 1, k);
        lemma_eval_times_linear(p, n - 1, k);
    }
}

/// The polynomial by adding and contracting edges counts the proper
/// colourings: its value at `k` is their number with `k` colours.
pub proof fn lemma_addition_counts(t: FlagTable, n: int, k: int)
    requires
        is_graph_table(t, n),
        0 <= k,
        addition_polynomial(t, n) is Some,
    ensures
        eval_of(addition_polynomial(t, n)->Some_0, k) == colourings(t, n, k),
        is_normal(addition_polynomial(t, n)->Some_0),
    decreases n, count_cells(t, false),
{
    let none = Seq::<int>::empty();
    match scan_pair(t, n, 0, 1, false) {
        Some((u, v)) => {
            lemma_scan_pair(t, n, 0, 1, false);
            lemma_with_pair_count(t, n, u, v, true);
            let joined = with_pair(t, u, v, true);
            let merged = contracted(t, n, u, v);
            lemma_with_pair_table(t, n, u, v, true);
            lemma_contracted_table(t, n, u, v);
            let a = addition_polynomial(joined, n)->Some_0;
            let b = addition_polynomial(merged, n - 1)->Some_0;
            lemma_addition_counts(joined, n, k);
            lemma_addition_counts(merged, n - 1, k);
            lemma_eval_add(a, b, k);
            lemma_join_or_merge(t, n, k, u, v);
        },
        None => {
            lemma_scan_all(t, n, 0, 1, false);
            assert forall|i: int, j: int| 0 <= i < n && 0 <= j < n && i != j implies #[trigger] t[i][j] by {
                assert(t[i][j] == t[j][i]);
                if i < j {
                    assert(t[i][j] != false);
                } else {
                    assert(t[j][i] != false);
                }
            }
            lemma_complete_ways(t, n, k, none, k);
            lemma_eval_falling(n, k);
            lemma_choices_all(k, n);
            lemma_fresh_none(none, k);
        },
    }
}

/// The flag table of a graph is the table of an undirected graph
/// without loops.
pub proof fn lemma_graph_table<G: GraphBase>(g: &G)
    ensures
        is_graph_table(graph_table(g), g.keys().len() as int),
{
    let t = graph_table(g);
    let n = g.keys().len() as int;
    assert forall|i: int| 0 <= i < n implies (#[trigger] t[i]).len() == n by {}
    assert forall|i: int, j: int| 0 <= i < n && 0 <= j < n implies #[trigger] t[i][j] == t[j][i] by {}
    assert forall|i: int| 0 <= i < n implies !#[trigger] t[i][i] by {}
}

/// The chromatic polynomial counts the proper colourings: by whatever
/// method it was computed, its value at `k` is the number of ways to give
/// each node one of `k` colours such that no two joined nodes have the
/// same.
pub proof fn lemma_polynomial_counts<G: GraphBase>(g: &G, method: ChromaticPolynomialMethod, k: int)
    requires
        0 <= k,
        chromatic_of(graph_table(g), g.keys().len() as int, method) is Some,
    ensures
        eval_of(chromatic_of(graph_table(g), g.keys().len() as int, method)->Some_0, k) == colourings(
            graph_table(g),
            g.keys().len() as int,
            k,
        ),
        is_normal(chromatic_of(graph_table(g), g.keys().len() as int, method)->Some_0),
{
    let t = graph_table(g);
    let n = g.keys().len() as int;
    lemma_graph_table(g);
    if chromatic_of(t, n, method) == addition_polynomial(t, n) {
        lemma_addition_counts(t, n, k);
    } else {
        lemma_removal_counts(t, n, k);
    }
}

/// Both methods give the same polynomial: whatever two methods are asked
/// for, if neither leaves the range of `i64`, the coefficients agree.
pub proof fn lemma_methods_agree<G: GraphBase>(
    g: &G,
    one: ChromaticPolynomialMethod,
    two: ChromaticPolynomialMethod,
)
    requires
        chromatic_of(graph_table(g), g.keys().len() as int, one) is Some,
        chromatic_of(graph_table(g), g.keys().len() as int, two) is Some,
    ensures
        chromatic_of(graph_table(g), g.keys().len() as int, one) == chromatic_of(
            graph_table(g),
            g.keys().len() as int,
            two,
        ),
{
    let t = graph_table(g);
    let n = g.keys().len() as int;
    let p = chromatic_of(t, n, one)->Some_0;
    let q = chromatic_of(t, n, two)->Some_0;
    lemma_polynomial_counts(g, one, 0);
    lemma_polynomial_counts(g, two, 0);
    assert forall|x: int| 0 <= x implies #[trigger] eval_of(p, x) == eval_of(q, x) by {
        lemma_polynomial_counts(g, one, x);
        lemma_polynomial_counts(g, two, x);
    }
    lemma_same_values(p, q);
}

/// The chromatic number is the least number of colours that admit a
/// proper colouring, and with that many colours or more the chromatic
/// polynomial is positive.
pub proof fn lemma_enough_colours<G: GraphBase>(g: &G, number: int, k: int)
    requires
        chromatic_of(graph_table(g), g.keys().len() as int, ChromaticPolynomialMethod::Auto) is Some,
        is_chromatic_number(
            chromatic_of(
                graph_table(g),
                g.keys().len() as int,
                ChromaticPolynomialMethod::Auto,
            )->Some_0,
            g.keys().len() as int,
            number,
        ),
        number <= k,
    ensures
        eval_of(
            chromatic_of(
                graph_table(g),
                g.keys().len() as int,
                ChromaticPolynomialMethod::Auto,
            )->Some_0,
            k,
        ) > 0,
        colourings(graph_table(g), g.keys().len() as int, number) > 0,
        forall|fewer: int|
            0 <= fewer < number ==> #[trigger] colourings(graph_table(g), g.keys().len() as int, fewer)
                == 0,
{
    let t = graph_table(g);
    let n = g.keys().len() as int;
    let auto = ChromaticPolynomialMethod::Auto;
    let p = chromatic_of(t, n, auto)->Some_0;
    let none = Seq::<int>::empty();
    lemma_graph_table(g);
    if n > 0 {
        let each = Seq::new(n as nat, |i: int| i);
        assert(is_proper(t, n, each)) by {
            assert forall|i: int, j: int| 0 <= i < n && 0 <= j < n && #[trigger] t[i][j] implies each[i]
                != each[j] by {
                assert(!t[i][i]);
            }
        }
        assert(each.take(0) =~= none);
        lemma_ways_witness(proper(t, n), n, n, none, n, each);
        lemma_polynomial_counts(g, auto, n);
        lemma_polynomial_counts(g, auto, number);
        assert(eval_of(p, number) > 0);
    } else {
        lemma_polynomial_counts(g, auto, number);
        assert(is_proper(t, n, none));
    }
    lemma_ways_positive(proper(t, n), n, number, none, number);
    let d = choose|d: Seq<int>|
        d.len() == n && in_palette(d, number) && extends(d, none) && #[trigger] proper(t, n)(d);
    assert(in_palette(d, k));
    lemma_ways_witness(proper(t, n), n, k, none, k, d);
    lemma_polynomial_counts(g, auto, k);
    assert forall|fewer: int| 0 <= fewer < number implies #[trigger] colourings(t, n, fewer) == 0 by {
        lemma_ways_nonnegative(proper(t, n), n, fewer, none, fewer);
        if fewer >= 1 {
            lemma_polynomial_counts(g, auto, fewer);
            assert(eval_of(p, fewer) <= 0);
        }
    }
}

} // verus!
