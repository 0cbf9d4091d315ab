//! Counting facts about sequences without repetitions.

use vstd::prelude::*;

verus! {

/// Taking a present value out of a sequence without repetitions: the length
/// drops by one, no repetition appears, and exactly that value is gone.
pub proof fn lemma_remove_value<T>(s: Seq<T>, x: T)
    requires
        s.no_duplicates(),
        s.contains(x),
    ensures
        s.remove_value(x).len() == s.len() - 1,
        s.remove_value(x).no_duplicates(),
        forall|y: T| s.remove_value(x).contains(y) <==> (s.contains(y) && y != x),
{
    s.index_of_first_ensures(x);
    let i = s.index_of_first(x).unwrap();
    let r = s.remove(i);
    assert(s.remove_value(x) == r);
    assert forall|y: T| r.contains(y) <==> (s.contains(y) && y != x) by {
        if r.contains(y) {
            let j = choose|j: int| 0 <= j < r.len() && r[j] == y;
            if j < i {
                assert(s[j] == y);
            } else {
                assert(s[j + 1] == y);
            }
        }
        if s.contains(y) && y != x {
            let j = choose|j: int| 0 <= j < s.len() && s[j] == y;
            if j < i {
                assert(r[j] == y);
            } else {
                assert(r[j - 1] == y);
            }
        }
    }
    assert forall|a: int, b: int| 0 <= a < r.len() && 0 <= b < r.len() && a != b implies r[a]
        != r[b] by {
        let a2 = if a < i { a } else { a + 1 };
        let b2 = if b < i { b } else { b + 1 };
        assert(r[a] == s[a2]);
        assert(r[b] == s[b2]);
    }
}

/// A sequence of different numbers from zero up to, but not including,
/// `n` has at most `n` items.
pub proof fn lemma_distinct_numbers(s: Seq<int>, n: int)
    requires
        s.no_duplicates(),
        forall|i: int| 0 <= i < s.len() ==> 0 <= #[trigger] s[i] < n,
        0 <= n,
    ensures
        s.len() <= n,
    decreases n,
{
    if n == 0 {
        if s.len() > 0 {
            assert(0 <= s[0] < n);
        }
    } else {
        let top = n - 1;
        if s.contains(top) {
            lemma_remove_value(s, top);
            let rest = s.remove_value(top);
            assert forall|i: int| 0 <= i < rest.len() implies 0 <= #[trigger] rest[i] < n - 1 by {
                assert(rest.contains(rest[i]));
                assert(s.contains(rest[i]));
                let j = choose|j: int| 0 <= j < s.len() && s[j] == rest[i];
                assert(0 <= s[j] < n);
            }
            lemma_distinct_numbers(rest, n - 1);
        } else {
            assert forall|i: int| 0 <= i < s.len() implies 0 <= #[trigger] s[i] < n - 1 by {
                assert(s.contains(s[i]));
            }
            lemma_distinct_numbers(s, n - 1);
        }
    }
}

/// A sequence without repetitions whose items are all below `n` has at
/// most `n` items.
pub proof fn lemma_distinct_bounded(s: Seq<usize>, n: nat)
    requires
        s.no_duplicates(),
        forall|i: int| 0 <= i < s.len() ==> (#[trigger] s[i]) < n,
    ensures
        s.len() <= n,
{
    let t = Seq::new(s.len(), |i: int| s[i] as int);
    assert forall|i: int, j: int| 0 <= i < t.len() && 0 <= j < t.len() && i != j implies t[i]
        != t[j] by {
        assert(s[i] != s[j]);
    }
    assert forall|i: int| 0 <= i < t.len() implies 0 <= #[trigger] t[i] < n by {
        assert(s[i] < n);
    }
    lemma_distinct_numbers(t, n as int);
}

/// A sequence of `n` different numbers from zero up to, but not including,
/// `n` holds each of those numbers.
pub proof fn lemma_distinct_covers(s: Seq<int>, v: int)
    requires
        s.no_duplicates(),
        forall|i: int| 0 <= i < s.len() ==> 0 <= #[trigger] s[i] < s.len(),
        0 <= v < s.len(),
    ensures
        s.contains(v),
{
    if !s.contains(v) {
        let n = s.len() as int;
        let t = Seq::new(s.len(), |i: int| if s[i] == n - 1 { v } else { s[i] });
        assert forall|i: int, j: int| 0 <= i < t.len() && 0 <= j < t.len() && i != j implies t[i]
            != t[j] by {
            assert(s[i] != s[j]);
            assert(s.contains(s[i]) && s.contains(s[j]));
        }
        assert forall|i: int| 0 <= i < t.len() implies 0 <= #[trigger] t[i] < n - 1 by {
            assert(s.contains(s[i]));
            assert(0 <= s[i] < n);
        }
        lemma_distinct_numbers(t, n - 1);
    }
}

/// The number of flags of the row that are equal to `b`.
pub open spec fn count_in_row(row: Seq<bool>, b: bool) -> int
    decreases row.len(),
{
    if row.len() == 0 {
        0
    } else {
        count_in_row(row.drop_last(), b) + if row.last() == b {
            1int
        } else {
            0int
        }
    }
}

/// Setting one flag of a row changes the count of the flags equal to `b`
/// by what the flag was and what it has become.
pub proof fn lemma_count_in_row_update(row: Seq<bool>, v: int, value: bool, b: bool)
    requires
        0 <= v < row.len(),
    ensures
        count_in_row(row.update(v, value), b) == count_in_row(row, b) - (if row[v] == b {
            1int
        } else {
            0int
        }) + (if value == b {
            1int
        } else {
            0int
        }),
        0 <= count_in_row(row, b),
    decreases row.len(),
{
    let changed = row.update(v, value);
    if v == row.len() - 1 {
        assert(changed.drop_last() =~= row.drop_last());
        lemma_count_in_row_nonnegative(row.drop_last(), b);
    } else {
        lemma_count_in_row_update(row.drop_last(), v, value, b);
        assert(changed.drop_last() =~= row.drop_last().update(v, value));
    }
}

/// Counts are never negative.
pub proof fn lemma_count_in_row_nonnegative(row: Seq<bool>, b: bool)
    ensures
        0 <= count_in_row(row, b),
    decreases row.len(),
{
    if row.len() > 0 {
        lemma_count_in_row_nonnegative(row.drop_last(), b);
    }
}

/// The positions of the row whose flag is set, ascending.
pub open spec fn flagged(row: Seq<bool>) -> Seq<int>
    decreases row.len(),
{
    if row.len() == 0 {
        Seq::empty()
    } else if row.last() {
        flagged(row.drop_last()).push(row.len() - 1)
    } else {
        flagged(row.drop_last())
    }
}

/// `flagged` lists exactly the positions whose flag is set, each once, and
/// as many as are counted.
pub proof fn lemma_flagged(row: Seq<bool>)
    ensures
        flagged(row).len() == count_in_row(row, true),
        flagged(row).no_duplicates(),
        forall|i: int| #[trigger] flagged(row).contains(i) <==> 0 <= i < row.len() && row[i],
    decreases row.len(),
{
    let all = flagged(row);
    if row.len() > 0 {
        let front = row.drop_last();
        let rest = flagged(front);
        lemma_flagged(front);
        let last = row.len() - 1;
        assert forall|i: int| #[trigger] all.contains(i) <==> 0 <= i < row.len() && row[i] by {
            if row.last() {
                assert(all == rest.push(last));
                if rest.contains(i) {
                    let q = choose|q: int| 0 <= q < rest.len() && rest[q] == i;
                    assert(all[q] == i);
                }
                if all.contains(i) {
                    let q = choose|q: int| 0 <= q < all.len() && all[q] == i;
                    if q < rest.len() {
                        assert(rest[q] == i);
                    }
                }
                if i == last {
                    assert(all[rest.len() as int] == i);
                }
            }
            if 0 <= i < front.len() {
                assert(front[i] == row[i]);
            }
        }
        if row.last() {
            assert(!rest.contains(last));
            assert forall|a: int, b: int| 0 <= a < all.len() && 0 <= b < all.len() && a != b implies all[a]
                != all[b] by {
                if a < rest.len() {
                    assert(rest.contains(rest[a]));
                }
                if b < rest.len() {
                    assert(rest.contains(rest[b]));
                }
            }
        }
    }
}

/// Different positions whose flags are set are at most as many as the
/// flags that are set.
pub proof fn lemma_flagged_most(row: Seq<bool>, picked: Seq<int>)
    requires
        picked.no_duplicates(),
        forall|i: int| 0 <= i < picked.len() ==> 0 <= #[trigger] picked[i] < row.len() && row[picked[i]],
    ensures
        picked.len() <= count_in_row(row, true),
    decreases row.len(),
{
    if row.len() == 0 {
        if picked.len() > 0 {
            assert(0 <= picked[0] < row.len());
        }
    } else {
        let last = row.len() - 1;
        let front = row.drop_last();
        if picked.contains(last) {
            lemma_remove_value(picked, last);
            let rest = picked.remove_value(last);
            assert forall|i: int| 0 <= i < rest.len() implies 0 <= #[trigger] rest[i] < front.len()
                && front[rest[i]] by {
                assert(rest.contains(rest[i]));
                assert(picked.contains(rest[i]));
                let j = choose|j: int| 0 <= j < picked.len() && picked[j] == rest[i];
                assert(row[picked[j]]);
            }
            lemma_flagged_most(front, rest);
            let j = choose|j: int| 0 <= j < picked.len() && picked[j] == last;
            assert(row[picked[j]]);
        } else {
            assert forall|i: int| 0 <= i < picked.len() implies 0 <= #[trigger] picked[i] < front.len()
                && front[picked[i]] by {
                assert(picked.contains(picked[i]));
                assert(row[picked[i]]);
            }
            lemma_flagged_most(front, picked);
            lemma_count_in_row_nonnegative(front, true);
        }
    }
}

} // verus!
