//! Polynomials with integer coefficients and the chromatic polynomial of
//! a graph by deletion and contraction.

use vstd::prelude::*;
use crate::base::NodeId;
use crate::counting::{count_in_row, lemma_count_in_row_nonnegative, lemma_count_in_row_update};
use crate::algorithms::colour_counts::{colourings, lemma_enough_colours, lemma_polynomial_counts};
use crate::algorithms::prufer::adjacent;
use crate::traits::{has_edge, GraphBase};
use crate::wrappers::Graph;

verus! {

/// The coefficient of `x^i` in the coefficient list `s`.
pub open spec fn coef_of(s: Seq<int>, i: int) -> int {
    if 0 <= i < s.len() {
        s[i]
    } else {
        0
    }
}

/// The list without the zeros at its end, but with at least one item.
pub open spec fn normal(s: Seq<int>) -> Seq<int>
    decreases s.len(),
{
    if s.len() == 0 {
        seq![0int]
    } else if s.len() > 1 && s.last() == 0 {
        normal(s.drop_last())
    } else {
        s
    }
}

/// The list is not empty and does not end in a zero, unless it has one item.
pub open spec fn is_normal(s: Seq<int>) -> bool {
    s.len() >= 1 && (s.len() > 1 ==> s.last() != 0)
}

/// Normalising keeps every coefficient, and gives a normal list.
pub proof fn lemma_normal(s: Seq<int>)
    ensures
        is_normal(normal(s)),
        forall|i: int| coef_of(normal(s), i) == coef_of(s, i),
        normal(s).len() <= if s.len() == 0 { 1 } else { s.len() },
        is_normal(s) ==> normal(s) == s,
    decreases s.len(),
{
    if s.len() == 0 {
    } else if s.len() > 1 && s.last() == 0 {
        lemma_normal(s.drop_last());
        assert forall|i: int| coef_of(normal(s), i) == coef_of(s, i) by {
            assert(coef_of(normal(s.drop_last()), i) == coef_of(s.drop_last(), i));
        }
    }
}

/// The value of the polynomial with the coefficients `s` at `x`.
pub open spec fn eval_of(s: Seq<int>, x: int) -> int
    decreases s.len(),
{
    if s.len() == 0 {
        0
    } else {
        s[0] + x * eval_of(s.drop_first(), x)
    }
}

/// The sum of the products of the coefficients `a[i]` and `b[k - i]` over
/// all `i` below `upto`.
pub open spec fn conv_upto(a: Seq<int>, b: Seq<int>, k: int, upto: int) -> int
    decreases upto,
{
    if upto <= 0 {
        0
    } else {
        conv_upto(a, b, k, upto - 1) + coef_of(a, upto - 1) * coef_of(b, k - (upto - 1))
    }
}

/// The coefficients of the sum of two polynomials.
pub open spec fn poly_add(a: Seq<int>, b: Seq<int>) -> Seq<int> {
    normal(
        Seq::new(
            if a.len() >= b.len() {
                a.len()
            } else {
                b.len()
            },
            |i: int| coef_of(a, i) + coef_of(b, i),
        ),
    )
}

/// The coefficients of the difference of two polynomials.
pub open spec fn poly_sub(a: Seq<int>, b: Seq<int>) -> Seq<int> {
    normal(
        Seq::new(
            if a.len() >= b.len() {
                a.len()
            } else {
                b.len()
            },
            |i: int| coef_of(a, i) - coef_of(b, i),
        ),
    )
}

/// The coefficients of the product of two polynomials.
pub open spec fn poly_mul(a: Seq<int>, b: Seq<int>) -> Seq<int> {
    if a.len() == 0 || b.len() == 0 {
        seq![0int]
    } else {
        normal(Seq::new((a.len() + b.len() - 1) as nat, |k: int| conv_upto(a, b, k, a.len() as int)))
    }
}

/// The number fits into an `i64`.
pub open spec fn fits(v: int) -> bool {
    i64::MIN <= v <= i64::MAX
}

/// Horner's rule stays within `i64` where it takes in the coefficient of
/// `x^k`: the product of `x` with the value of the higher coefficients
/// fits, and so does the sum with the coefficient.
pub open spec fn step_fits(s: Seq<int>, x: int, k: int) -> bool {
    fits(x * eval_of(s.skip(k + 1), x)) && fits(eval_of(s.skip(k), x))
}

/// Horner's rule stays within `i64` at every coefficient.
pub open spec fn horner_fits(s: Seq<int>, x: int) -> bool {
    forall|k: int| 0 <= k < s.len() ==> #[trigger] step_fits(s, x, k)
}

/// Every coefficient of the sum fits into an `i64`.
pub open spec fn add_fits(a: Seq<int>, b: Seq<int>) -> bool {
    forall|i: int| 0 <= i ==> fits(#[trigger] coef_of(a, i) + coef_of(b, i))
}

/// Every coefficient of the difference fits into an `i64`.
pub open spec fn sub_fits(a: Seq<int>, b: Seq<int>) -> bool {
    forall|i: int| 0 <= i ==> fits(#[trigger] coef_of(a, i) - coef_of(b, i))
}

/// Every product of two coefficients fits into an `i64`, and so does
/// every coefficient of the product after each row of the multiplication.
pub open spec fn mul_fits(a: Seq<int>, b: Seq<int>) -> bool {
    forall|i: int, j: int| 0 <= i < a.len() && 0 <= j < b.len() ==> #[trigger] term_fits(a, b, i, j)
}

/// The product of `a[i]` and `b[j]` fits into an `i64`, and so does the
/// coefficient it is added to, once it is added.
pub open spec fn term_fits(a: Seq<int>, b: Seq<int>, i: int, j: int) -> bool {
    fits(a[i] * b[j]) && fits(conv_upto(a, b, i + j, i + 1))
}

/// A polynomial with integer coefficients; `coeffs[i]` is the coefficient
/// of `x^i`.
#[derive(Clone, Debug, PartialEq, Eq)]
pub struct Polynomial {
    pub coeffs: Vec<i64>,
}

impl View for Polynomial {
    type V = Seq<int>;

    open spec fn view(&self) -> Seq<int> {
        Seq::new(self.coeffs@.len(), |i: int| self.coeffs@[i] as int)
    }
}

/// The polynomial with the given coefficients, without the zeros at the
/// end of the list.
pub fn normalized(coeffs: Vec<i64>) -> (p: Polynomial)
    ensures
        p@ == normal(Seq::new(coeffs@.len(), |i: int| coeffs@[i] as int)),
        is_normal(p@),
{
    let ghost start = Seq::new(coeffs@.len(), |i: int| coeffs@[i] as int);
    let mut coeffs = coeffs;
    if coeffs.len() == 0 {
        coeffs.push(0);
        let p = Polynomial { coeffs };
        assert(p@ =~= seq![0int]);
        return p;
    }
    while coeffs.len() > 1 && coeffs[coeffs.len() - 1] == 0
        invariant
            coeffs@.len() >= 1,
            normal(Seq::new(coeffs@.len(), |i: int| coeffs@[i] as int)) == normal(start),
        decreases coeffs@.len(),
    {
        let ghost before = Seq::new(coeffs@.len(), |i: int| coeffs@[i] as int);
        coeffs.pop();
        assert(Seq::new(coeffs@.len(), |i: int| coeffs@[i] as int) =~= before.drop_last());
    }
    let p = Polynomial { coeffs };
    proof {
        lemma_normal(p@);
    }
    p
}

impl Polynomial {
    /// The coefficient list is normal.
    pub open spec fn wf(&self) -> bool {
        is_normal(self@)
    }

    /// The polynomial 0.
    pub fn zero() -> (p: Self)
        ensures
            p@ == seq![0int],
            p.wf(),
    {
        let mut coeffs: Vec<i64> = Vec::new();
        coeffs.push(0);
        let p = Self { coeffs };
        assert(p@ =~= seq![0int]);
        p
    }

    /// The polynomial 1.
    pub fn one() -> (p: Self)
        ensures
            p@ == seq![1int],
            p.wf(),
    {
        let mut coeffs: Vec<i64> = Vec::new();
        coeffs.push(1);
        let p = Self { coeffs };
        assert(p@ =~= seq![1int]);
        p
    }

    /// The polynomial `x`.
    pub fn x() -> (p: Self)
        ensures
            p@ == seq![0int, 1int],
            p.wf(),
    {
        let mut coeffs: Vec<i64> = Vec::new();
        coeffs.push(0);
        coeffs.push(1);
        let p = Self { coeffs };
        assert(p@ =~= seq![0int, 1int]);
        p
    }

    /// The polynomial `coeff * x^power`: `power` zeros and then `coeff`. The
    /// list is normal unless `coeff` is zero and `power` is not.
    pub fn from_monomial(power: usize, coeff: i64) -> (p: Self)
        requires
            power < usize::MAX,
        ensures
            p@ == Seq::new((power + 1) as nat, |i: int| if i == power { coeff as int } else { 0int }),
            coeff != 0 || power == 0 ==> p.wf(),
    {
        let mut coeffs: Vec<i64> = Vec::new();
        let mut i: usize = 0;
        while i < power
            invariant
                i <= power,
                coeffs@.len() == i,
                forall|j: int| 0 <= j < i ==> (#[trigger] coeffs@[j]) == 0,
            decreases power - i,
        {
            coeffs.push(0);
            i += 1;
        }
        coeffs.push(coeff);
        let p = Self { coeffs };
        assert(p@ =~= Seq::new(
            (power + 1) as nat,
            |i: int| if i == power { coeff as int } else { 0int },
        ));
        p
    }

    /// The value of the polynomial at `x`, by Horner's rule from the
    /// highest coefficient down; `None` if a product or a sum of the rule
    /// does not fit into an `i64`.
    pub fn eval(&self, x: i64) -> (value: Option<i64>)
        ensures
            value is Some <==> horner_fits(self@, x as int),
            value is Some ==> value->Some_0 == eval_of(self@, x as int),
    {
        let mut result: i64 = 0;
        let mut k: usize = self.coeffs.len();
        proof {
            assert(self@.skip(k as int) =~= Seq::<int>::empty());
        }
        while k > 0
            invariant
                k <= self.coeffs@.len(),
                result == eval_of(self@.skip(k as int), x as int),
                forall|j: int| k <= j < self@.len() ==> #[trigger] step_fits(self@, x as int, j),
            decreases k,
        {
            k -= 1;
            proof {
                let tail = self@.skip(k as int);
                assert(tail.drop_first() =~= self@.skip(k + 1));
                assert(tail[0] == self.coeffs@[k as int]);
            }
            let scaled = match x.checked_mul(result) {
                Some(s) => s,
                None => {
                    assert(!step_fits(self@, x as int, k as int));
                    return None;
                },
            };
            result = match self.coeffs[k].checked_add(scaled) {
                Some(s) => s,
                None => {
                    assert(!step_fits(self@, x as int, k as int));
                    return None;
                },
            };
            assert(step_fits(self@, x as int, k as int));
        }
        proof {
            assert(self@.skip(0) =~= self@);
        }
        Some(result)
    }
}

impl Polynomial {
    /// The sum of two polynomials; `None` if a coefficient of the sum
    /// does not fit into an `i64`.
    pub fn plus(&self, other: &Polynomial) -> (sum: Option<Polynomial>)
        ensures
            match sum {
                Some(p) => p@ == poly_add(self@, other@) && p.wf(),
                None => true,
            },
            sum is Some <==> add_fits(self@, other@),
    {
        let la = self.coeffs.len();
        let lb = other.coeffs.len();
        let len = if la >= lb {
            la
        } else {
            lb
        };
        let mut coeffs: Vec<i64> = Vec::new();
        let mut i: usize = 0;
        while i < len
            invariant
                la == self.coeffs@.len(),
                lb == other.coeffs@.len(),
                len == if la >= lb { la } else { lb },
                i <= len,
                coeffs@.len() == i,
                forall|k: int|
                    0 <= k < i ==> (#[trigger] coeffs@[k]) == coef_of(self@, k) + coef_of(other@, k),
            decreases len - i,
        {
            let a = if i < la {
                self.coeffs[i]
            } else {
                0
            };
            let b = if i < lb {
                other.coeffs[i]
            } else {
                0
            };
            assert(a == coef_of(self@, i as int) && b == coef_of(other@, i as int));
            match a.checked_add(b) {
                Some(c) => {
                    coeffs.push(c);
                },
                None => {
                    assert(!fits(coef_of(self@, i as int) + coef_of(other@, i as int)));
                    return None;
                },
            }
            i += 1;
        }
        let ghost raw = Seq::new(coeffs@.len(), |i: int| coeffs@[i] as int);
        proof {
            assert forall|k: int| 0 <= k implies fits(
                #[trigger] coef_of(self@, k) + coef_of(other@, k),
            ) by {
                if k < len {
                    assert(coeffs@[k] == coef_of(self@, k) + coef_of(other@, k));
                }
            }
            assert(raw =~= Seq::new(
                if self@.len() >= other@.len() {
                    self@.len()
                } else {
                    other@.len()
                },
                |i: int| coef_of(self@, i) + coef_of(other@, i),
            ));
        }
        Some(normalized(coeffs))
    }

    /// The difference of two polynomials; `None` if a coefficient of the
    /// difference does not fit into an `i64`.
    pub fn minus(&self, other: &Polynomial) -> (difference: Option<Polynomial>)
        ensures
            match difference {
                Some(p) => p@ == poly_sub(self@, other@) && p.wf(),
                None => true,
            },
            difference is Some <==> sub_fits(self@, other@),
    {
        let la = self.coeffs.len();
        let lb = other.coeffs.len();
        let len = if la >= lb {
            la
        } else {
            lb
        };
        let mut coeffs: Vec<i64> = Vec::new();
        let mut i: usize = 0;
        while i < len
            invariant
                la == self.coeffs@.len(),
                lb == other.coeffs@.len(),
                len == if la >= lb { la } else { lb },
                i <= len,
                coeffs@.len() == i,
                forall|k: int|
                    0 <= k < i ==> (#[trigger] coeffs@[k]) == coef_of(self@, k) - coef_of(other@, k),
            decreases len - i,
        {
            let a = if i < la {
                self.coeffs[i]
            } else {
                0
            };
            let b = if i < lb {
                other.coeffs[i]
            } else {
                0
            };
            assert(a == coef_of(self@, i as int) && b == coef_of(other@, i as int));
            match a.checked_sub(b) {
                Some(c) => {
                    coeffs.push(c);
                },
                None => {
                    assert(!fits(coef_of(self@, i as int) - coef_of(other@, i as int)));
                    return None;
                },
            }
            i += 1;
        }
        let ghost raw = Seq::new(coeffs@.len(), |i: int| coeffs@[i] as int);
        proof {
            assert forall|k: int| 0 <= k implies fits(
                #[trigger] coef_of(self@, k) - coef_of(other@, k),
            ) by {
                if k < len {
                    assert(coeffs@[k] == coef_of(self@, k) - coef_of(other@, k));
                }
            }
            assert(raw =~= Seq::new(
                if self@.len() >= other@.len() {
                    self@.len()
                } else {
                    other@.len()
                },
                |i: int| coef_of(self@, i) - coef_of(other@, i),
            ));
        }
        Some(normalized(coeffs))
    }

    /// The product of two polynomials; `None` if a product of two
    /// coefficients, or a sum of such products as the rows of the
    /// multiplication are added up, does not fit into an `i64`.
    pub fn times(&self, other: &Polynomial) -> (product: Option<Polynomial>)
        requires
            self.coeffs@.len() + other.coeffs@.len() <= usize::MAX,
        ensures
            match product {
                Some(p) => p@ == poly_mul(self@, other@) && p.wf(),
                None => true,
            },
            product is Some <==> mul_fits(self@, other@),
    {
        let la = self.coeffs.len();
        let lb = other.coeffs.len();
        if la == 0 || lb == 0 {
            return Some(Polynomial::zero());
        }
        proof {
            assert forall|q: int| #[trigger] conv_upto(self@, other@, q, 0) == 0 by {}
        }
        let len = la + lb - 1;
        let ghost a = self@;
        let ghost b = other@;
        let mut coeffs: Vec<i64> = Vec::new();
        let mut k: usize = 0;
        while k < len
            invariant
                k <= len,
                coeffs@.len() == k,
                forall|q: int| 0 <= q < k ==> (#[trigger] coeffs@[q]) == 0,
            decreases len - k,
        {
            coeffs.push(0);
            k += 1;
        }
        let mut i: usize = 0;
        while i < la
            invariant
                a == self@,
                b == other@,
                la == a.len(),
                lb == b.len(),
                la >= 1,
                lb >= 1,
                len == la + lb - 1,
                i <= la,
                coeffs@.len() == len,
                forall|q: int| 0 <= q < len ==> (#[trigger] coeffs@[q]) == conv_upto(a, b, q, i as int),
                forall|p: int, q: int| 0 <= p < i && 0 <= q < lb ==> #[trigger] term_fits(a, b, p, q),
            decreases la - i,
        {
            let c1 = self.coeffs[i];
            if c1 != 0 {
                let mut j: usize = 0;
                while j < lb
                    invariant
                        a == self@,
                        b == other@,
                        la == a.len(),
                        lb == b.len(),
                        len == la + lb - 1,
                        i < la,
                        j <= lb,
                        c1 == a[i as int],
                        coeffs@.len() == len,
                        forall|q: int|
                            0 <= q < len ==> (#[trigger] coeffs@[q]) == conv_upto(a, b, q, i as int)
                                + if 0 <= q - i < j {
                                a[i as int] * b[q - i]
                            } else {
                                0
                            },
                        forall|q: int| 0 <= q < j ==> #[trigger] term_fits(a, b, i as int, q),
                    decreases lb - j,
                {
                    let c2 = other.coeffs[j];
                    assert(c2 == b[j as int]);
                    let term = match c1.checked_mul(c2) {
                        Some(t) => t,
                        None => {
                            assert(!term_fits(a, b, i as int, j as int));
                            return None;
                        },
                    };
                    proof {
                        assert(conv_upto(a, b, i + j, i + 1) == conv_upto(a, b, i + j, i as int)
                            + coef_of(a, i as int) * coef_of(b, j as int));
                    }
                    let sum = match coeffs[i + j].checked_add(term) {
                        Some(t) => t,
                        None => {
                            assert(!term_fits(a, b, i as int, j as int));
                            return None;
                        },
                    };
                    coeffs[i + j] = sum;
                    assert(term_fits(a, b, i as int, j as int));
                    j += 1;
                }
                proof {
                    assert forall|q: int| 0 <= q < len implies (#[trigger] coeffs@[q]) == conv_upto(
                        a,
                        b,
                        q,
                        i + 1,
                    ) by {
                        assert(conv_upto(a, b, q, i + 1) == conv_upto(a, b, q, i as int) + coef_of(
                            a,
                            i as int,
                        ) * coef_of(b, q - i));
                        if !(0 <= q - i < lb) {
                            assert(coef_of(b, q - i) == 0);
                            assert(coef_of(a, i as int) * 0 == 0) by (nonlinear_arith);
                        }
                    }
                }
            } else {
                proof {
                    assert forall|q: int| 0 <= q < len implies (#[trigger] coeffs@[q]) == conv_upto(
                        a,
                        b,
                        q,
                        i + 1,
                    ) by {
                        assert(conv_upto(a, b, q, i + 1) == conv_upto(a, b, q, i as int) + coef_of(
                            a,
                            i as int,
                        ) * coef_of(b, q - i));
                        assert(0 * coef_of(b, q - i) == 0) by (nonlinear_arith);
                    }
                    assert forall|q: int| 0 <= q < lb implies #[trigger] term_fits(a, b, i as int, q) by {
                        assert(0 * b[q] == 0) by (nonlinear_arith);
                        assert(coeffs@[i + q] == conv_upto(a, b, i + q, i + 1));
                    }
                }
            }
            i += 1;
        }
        let ghost raw = Seq::new(coeffs@.len(), |i: int| coeffs@[i] as int);
        proof {
            assert(raw =~= Seq::new(
                (a.len() + b.len() - 1) as nat,
                |k: int| conv_upto(a, b, k, a.len() as int),
            ));
        }
        Some(normalized(coeffs))
    }
}

/// A table of flags for every ordered pair.
pub type FlagTable = Seq<Seq<bool>>;

/// The table has `n` rows of `n` flags.
pub open spec fn is_flag_table(t: FlagTable, n: int) -> bool {
    &&& 0 <= n
    &&& t.len() == n
    &&& forall|i: int| 0 <= i < n ==> (#[trigger] t[i]).len() == n
}

/// The number of flags of the table that are equal to `b`.
pub open spec fn count_cells(t: FlagTable, b: bool) -> int
    decreases t.len(),
{
    if t.len() == 0 {
        0
    } else {
        count_cells(t.drop_last(), b) + count_in_row(t.last(), b)
    }
}

/// The table with the flag of the pair `(u, v)` set to `value`.
pub open spec fn with_flag(t: FlagTable, u: int, v: int, value: bool) -> FlagTable {
    t.update(u, t[u].update(v, value))
}

/// Counts are never negative.
pub proof fn lemma_count_cells_nonnegative(t: FlagTable, b: bool)
    ensures
        0 <= count_cells(t, b),
    decreases t.len(),
{
    if t.len() > 0 {
        lemma_count_cells_nonnegative(t.drop_last(), b);
        lemma_count_in_row_nonnegative(t.last(), b);
    }
}

/// Setting one flag of a table changes the count of the flags equal to
/// `b` by what the flag was and what it has become.
pub proof fn lemma_count_cells_update(t: FlagTable, u: int, v: int, value: bool, b: bool)
    requires
        0 <= u < t.len(),
        0 <= v < t[u].len(),
    ensures
        count_cells(with_flag(t, u, v, value), b) == count_cells(t, b) - (if t[u][v] == b {
            1int
        } else {
            0int
        }) + (if value == b {
            1int
        } else {
            0int
        }),
    decreases t.len(),
{
    let changed = with_flag(t, u, v, value);
    if u == t.len() - 1 {
        assert(changed.drop_last() =~= t.drop_last());
        lemma_count_in_row_update(t[u], v, value, b);
    } else {
        lemma_count_cells_update(t.drop_last(), u, v, value, b);
        assert(changed.drop_last() =~= with_flag(t.drop_last(), u, v, value));
    }
}

/// The table with both flags of the pair `u`, `v` set to `value`.
pub open spec fn with_pair(t: FlagTable, u: int, v: int, value: bool) -> FlagTable {
    with_flag(with_flag(t, u, v, value), v, u, value)
}

/// The old index of the node that has the index `a` after the node `v`
/// is taken out.
pub open spec fn old_index(a: int, v: int) -> int {
    if a < v {
        a
    } else {
        a + 1
    }
}

/// The table after the node `v` is merged into the node `u`: the merged
/// node is joined to whatever `u` or `v` was joined to, but not to itself.
pub open spec fn contracted(t: FlagTable, n: int, u: int, v: int) -> FlagTable {
    Seq::new(
        (n - 1) as nat,
        |a: int|
            Seq::new(
                (n - 1) as nat,
                |b: int|
                    {
                        let i = old_index(a, v);
                        let j = old_index(b, v);
                        (t[i][j] || (i == u && t[v][j]) || (j == u && t[i][v])) && !(i == u && j == u)
                    },
            ),
    )
}

/// The first pair `(i, j)` with `i < j`, at or after the given position in
/// row order, whose flag is `wanted`.
pub open spec fn scan_pair(t: FlagTable, n: int, i: int, j: int, wanted: bool) -> Option<(int, int)>
    decreases n - i, n - j,
{
    if i >= n || i < 0 || j <= i {
        None
    } else if j >= n {
        scan_pair(t, n, i + 1, i + 2, wanted)
    } else if t[i][j] == wanted {
        Some((i, j))
    } else {
        scan_pair(t, n, i, j + 1, wanted)
    }
}

/// What `scan_pair` finds lies in the table, behind the diagonal, and has
/// the wanted flag.
pub proof fn lemma_scan_pair(t: FlagTable, n: int, i: int, j: int, wanted: bool)
    ensures
        match scan_pair(t, n, i, j, wanted) {
            Some((u, v)) => 0 <= u < v < n && t[u][v] == wanted,
            None => true,
        },
    decreases n - i, n - j,
{
    if i >= n || i < 0 || j <= i {
    } else if j >= n {
        lemma_scan_pair(t, n, i + 1, i + 2, wanted);
    } else if t[i][j] == wanted {
    } else {
        lemma_scan_pair(t, n, i, j + 1, wanted);
    }
}

/// The number of pairs `(i, j)` with `i < j` below `n` whose flag is set,
/// among the rows before `i` and the first `j` flags of the row `i`.
pub open spec fn pairs_set(t: FlagTable, n: int, i: int, j: int) -> int
    decreases i, j,
{
    if i < 0 || (i == 0 && j <= 0) {
        0
    } else if j <= 0 {
        pairs_set(t, n, i - 1, n)
    } else {
        pairs_set(t, n, i, j - 1) + if i < j - 1 && j - 1 < n && t[i][j - 1] {
            1int
        } else {
            0int
        }
    }
}

/// An undirected simple graph as a matrix of flags.
pub struct WorkingGraph {
    pub adj: Vec<Vec<bool>>,
    pub n: usize,
}

impl View for WorkingGraph {
    type V = FlagTable;

    open spec fn view(&self) -> FlagTable {
        Seq::new(self.adj@.len(), |i: int| self.adj@[i]@)
    }
}

/// The flag table of a graph: two different nodes are flagged if a record
/// joins them in either direction.
pub open spec fn graph_table<G: GraphBase>(g: &G) -> FlagTable {
    Seq::new(
        g.keys().len(),
        |i: int| Seq::new(g.keys().len(), |j: int| i != j && adjacent(g, i, j)),
    )
}

impl WorkingGraph {
    /// The matrix has `n` rows of `n` flags, and so few that they can be
    /// counted.
    pub open spec fn wf(&self) -> bool {
        &&& is_flag_table(self@, self.n as int)
        &&& self.n * self.n <= usize::MAX
    }

    /// The matrix of the graph: every pair of different nodes that a
    /// record joins in either direction is flagged.
    pub fn from_graph<G: Graph>(graph: &G) -> (wg: Self)
        requires
            graph.wf(),
            graph.keys().len() * graph.keys().len() <= usize::MAX,
        ensures
            wg.wf(),
            wg.n == graph.keys().len(),
            wg@ == graph_table(graph),
    {
        let n = graph.order();
        let mut adj = crate::algorithms::warshall::filled_matrix(n, false);
        let mut i: usize = 0;
        while i < n
            invariant
                graph.wf(),
                n == graph.keys().len(),
                i <= n,
                crate::algorithms::warshall::is_square(adj@, n as int),
                forall|a: int, b: int|
                    0 <= a < n && 0 <= b < n ==> (#[trigger] adj@[a]@[b]) == (a != b && (a < i || b
                        < i) && adjacent(graph, a, b)),
            decreases n - i,
        {
            let near = graph.neighborhood(NodeId(i));
            proof {
                graph.lemma_wf();
            }
            let mut k: usize = 0;
            while k < near.len()
                invariant
                    graph.wf(),
                    n == graph.keys().len(),
                    n <= usize::MAX,
                    i < n,
                    k <= near@.len(),
                    crate::algorithms::warshall::is_square(adj@, n as int),
                    forall|u: NodeId|
                        near@.contains(u) <==> has_edge(graph.edges(), NodeId(i), u) || has_edge(
                            graph.edges(),
                            u,
                            NodeId(i),
                        ),
                    forall|a: int, b: int|
                        0 <= a < n && 0 <= b < n ==> (#[trigger] adj@[a]@[b]) == (a != b && ((a < i
                            || b < i) && adjacent(graph, a, b) || (a == i && exists|q: int|
                            0 <= q < k && near@[q] == NodeId(b as usize)) || (b == i && exists|q: int|
                            0 <= q < k && near@[q] == NodeId(a as usize)))),
                decreases near@.len() - k,
            {
                let j = near[k].0;
                let ghost before = adj@;
                if j < n && i != j {
                    adj[i][j] = true;
                    adj[j][i] = true;
                }
                proof {
                    assert(near@.contains(near@[k as int]));
                    assert forall|a: int, b: int| 0 <= a < n && 0 <= b < n implies (
                    #[trigger] adj@[a]@[b]) == (a != b && ((a < i || b < i) && adjacent(graph, a, b)
                        || (a == i && exists|q: int| 0 <= q < k + 1 && near@[q] == NodeId(b as usize))
                        || (b == i && exists|q: int|
                        0 <= q < k + 1 && near@[q] == NodeId(a as usize)))) by {
                        let old_a = exists|q: int| 0 <= q < k && near@[q] == NodeId(b as usize);
                        let new_a = exists|q: int| 0 <= q < k + 1 && near@[q] == NodeId(b as usize);
                        let old_b = exists|q: int| 0 <= q < k && near@[q] == NodeId(a as usize);
                        let new_b = exists|q: int| 0 <= q < k + 1 && near@[q] == NodeId(a as usize);
                        if old_a {
                            let q = choose|q: int| 0 <= q < k && near@[q] == NodeId(b as usize);
                            assert(0 <= q < k + 1 && near@[q] == NodeId(b as usize));
                        }
                        if old_b {
                            let q = choose|q: int| 0 <= q < k && near@[q] == NodeId(a as usize);
                            assert(0 <= q < k + 1 && near@[q] == NodeId(a as usize));
                        }
                        if new_a && !old_a {
                            let q = choose|q: int| 0 <= q < k + 1 && near@[q] == NodeId(b as usize);
                            assert(q == k);
                        }
                        if new_b && !old_b {
                            let q = choose|q: int| 0 <= q < k + 1 && near@[q] == NodeId(a as usize);
                            assert(q == k);
                        }
                        if j == b {
                            assert(near@[k as int] == NodeId(b as usize));
                        }
                        if j == a {
                            assert(near@[k as int] == NodeId(a as usize));
                        }
                        if (a < i || b < i) && adjacent(graph, a, b) && a != b {
                            assert(before[a]@[b]);
                        }
                    }
                }
                k += 1;
            }
            proof {
                assert forall|a: int, b: int| 0 <= a < n && 0 <= b < n implies (
                #[trigger] adj@[a]@[b]) == (a != b && (a < i + 1 || b < i + 1) && adjacent(
                    graph,
                    a,
                    b,
                )) by {
                    if a == i {
                        if adjacent(graph, a, b) {
                            assert(near@.contains(NodeId(b as usize)));
                            let q = choose|q: int|
                                0 <= q < near@.len() && near@[q] == NodeId(b as usize);
                        }
                        if exists|q: int| 0 <= q < k && near@[q] == NodeId(b as usize) {
                            let q = choose|q: int| 0 <= q < k && near@[q] == NodeId(b as usize);
                            assert(near@.contains(NodeId(b as usize)));
                        }
                    }
                    if b == i {
                        if adjacent(graph, a, b) {
                            assert(near@.contains(NodeId(a as usize)));
                            let q = choose|q: int|
                                0 <= q < near@.len() && near@[q] == NodeId(a as usize);
                        }
                        if exists|q: int| 0 <= q < k && near@[q] == NodeId(a as usize) {
                            let q = choose|q: int| 0 <= q < k && near@[q] == NodeId(a as usize);
                            assert(near@.contains(NodeId(a as usize)));
                        }
                    }
                }
            }
            i += 1;
        }
        let wg = Self { adj, n };
        assert(wg@ =~~= graph_table(graph));
        wg
    }

    /// An independent copy.
    pub fn duplicate(&self) -> (copy: Self)
        requires
            self.wf(),
        ensures
            copy.wf(),
            copy.n == self.n,
            copy@ == self@,
    {
        let mut adj: Vec<Vec<bool>> = Vec::new();
        let mut i: usize = 0;
        while i < self.n
            invariant
                self.wf(),
                i <= self.n,
                adj@.len() == i,
                forall|a: int| 0 <= a < i ==> (#[trigger] adj@[a])@ == self.adj@[a]@,
            decreases self.n - i,
        {
            let mut row: Vec<bool> = Vec::new();
            let mut j: usize = 0;
            assert(self@[i as int].len() == self.n);
            while j < self.n
                invariant
                    i < self.n,
                    self.adj@.len() == self.n,
                    self.adj@[i as int]@.len() == self.n,
                    j <= self.n,
                    row@ == self.adj@[i as int]@.take(j as int),
                decreases self.n - j,
            {
                row.push(self.adj[i][j]);
                j += 1;
                assert(row@ =~= self.adj@[i as int]@.take(j as int));
            }
            assert(self.adj@[i as int]@.take(self.n as int) =~= self.adj@[i as int]@);
            adj.push(row);
            i += 1;
        }
        let copy = Self { adj, n: self.n };
        assert(copy@ =~~= self@);
        copy
    }

    /// The number of flagged pairs `(i, j)` with `i < j`.
    pub fn edge_count(&self) -> (count: usize)
        requires
            self.wf(),
        ensures
            count == pairs_set(self@, self.n as int, self.n as int, 0),
    {
        let n = self.n;
        let mut count: usize = 0;
        let mut i: usize = 0;
        while i < n
            invariant
                self.wf(),
                n == self.n,
                i <= n,
                count == pairs_set(self@, n as int, i as int, 0),
                count <= i * n,
            decreases n - i,
        {
            let mut j: usize = 0;
            proof {
                assert(i * n + n <= n * n) by (nonlinear_arith)
                    requires
                        i < n,
                ;
            }
            while j < n
                invariant
                    self.wf(),
                    n == self.n,
                    i < n,
                    j <= n,
                    count == pairs_set(self@, n as int, i as int, j as int),
                    count <= i * n + j,
                    i * n + n <= usize::MAX,
                decreases n - j,
            {
                assert(self@[i as int].len() == n);
                if i < j && self.adj[i][j] {
                    count += 1;
                }
                j += 1;
            }
            i += 1;
            proof {
                assert((i - 1) * n + n == i * n) by (nonlinear_arith);
            }
        }
        count
    }

    /// The first flagged pair `(u, v)` with `u < v`, in row order.
    pub fn find_edge(&self) -> (found: Option<(usize, usize)>)
        requires
            self.wf(),
        ensures
            match (found, scan_pair(self@, self.n as int, 0, 1, true)) {
                (Some((u, v)), Some((a, b))) => u == a && v == b && u < v < self.n,
                (None, None) => true,
                _ => false,
            },
    {
        self.find_pair(true)
    }

    /// The first pair `(u, v)` with `u < v`, in row order, that is not
    /// flagged.
    pub fn find_non_edge(&self) -> (found: Option<(usize, usize)>)
        requires
            self.wf(),
        ensures
            match (found, scan_pair(self@, self.n as int, 0, 1, false)) {
                (Some((u, v)), Some((a, b))) => u == a && v == b && u < v < self.n,
                (None, None) => true,
                _ => false,
            },
    {
        self.find_pair(false)
    }

    /// The first pair `(u, v)` with `u < v`, in row order, whose flag is
    /// `wanted`.
    pub fn find_pair(&self, wanted: bool) -> (found: Option<(usize, usize)>)
        requires
            self.wf(),
        ensures
            match (found, scan_pair(self@, self.n as int, 0, 1, wanted)) {
                (Some((u, v)), Some((a, b))) => u == a && v == b && u < v < self.n,
                (None, None) => true,
                _ => false,
            },
    {
        let n = self.n;
        let mut i: usize = 0;
        while i < n
            invariant
                self.wf(),
                n == self.n,
                i <= n,
                scan_pair(self@, n as int, 0, 1, wanted) == scan_pair(
                    self@,
                    n as int,
                    i as int,
                    i + 1,
                    wanted,
                ),
            decreases n - i,
        {
            let mut j: usize = i + 1;
            while j < n
                invariant
                    self.wf(),
                    n == self.n,
                    i < n,
                    i < j <= n,
                    scan_pair(self@, n as int, 0, 1, wanted) == scan_pair(
                        self@,
                        n as int,
                        i as int,
                        j as int,
                        wanted,
                    ),
                decreases n - j,
            {
                assert(self@[i as int].len() == n);
                if self.adj[i][j] == wanted {
                    return Some((i, j));
                }
                j += 1;
            }
            i += 1;
        }
        None
    }

    /// Clears the flags of the pair `u`, `v`.
    pub fn remove_edge(&mut self, u: usize, v: usize)
        requires
            old(self).wf(),
            u < old(self).n,
            v < old(self).n,
        ensures
            final(self).wf(),
            final(self).n == old(self).n,
            final(self)@ == with_pair(old(self)@, u as int, v as int, false),
    {
        assert(self@[u as int].len() == self.n);
        assert(self@[v as int].len() == self.n);
        self.adj[u][v] = false;
        self.adj[v][u] = false;
        assert(self@ =~~= with_pair(old(self)@, u as int, v as int, false));
    }

    /// Sets the flags of the pair `u`, `v`.
    pub fn add_edge(&mut self, u: usize, v: usize)
        requires
            old(self).wf(),
            u < old(self).n,
            v < old(self).n,
        ensures
            final(self).wf(),
            final(self).n == old(self).n,
            final(self)@ == with_pair(old(self)@, u as int, v as int, true),
    {
        assert(self@[u as int].len() == self.n);
        assert(self@[v as int].len() == self.n);
        self.adj[u][v] = true;
        self.adj[v][u] = true;
        assert(self@ =~~= with_pair(old(self)@, u as int, v as int, true));
    }

    /// The graph after the node `v` is merged into the node `u`. The
    /// merged node keeps the index `u`; the nodes behind `v` move one
    /// index down.
    pub fn contract(&self, u: usize, v: usize) -> (merged: Self)
        requires
            self.wf(),
            u < v < self.n,
        ensures
            merged.wf(),
            merged.n == self.n - 1,
            merged@ == contracted(self@, self.n as int, u as int, v as int),
    {
        let n = self.n;
        let mut new_adj: Vec<Vec<bool>> = Vec::new();
        let ghost target = contracted(self@, n as int, u as int, v as int);
        let mut i: usize = 0;
        while i < n
            invariant
                self.wf(),
                n == self.n,
                u < v < n,
                i <= n,
                target == contracted(self@, n as int, u as int, v as int),
                new_adj@.len() == if i <= v { i as int } else { i - 1 },
                forall|a: int| 0 <= a < new_adj@.len() ==> (#[trigger] new_adj@[a])@ == target[a],
            decreases n - i,
        {
            if i != v {
                let mut row: Vec<bool> = Vec::new();
                let ghost a = new_adj@.len() as int;
                assert(old_index(a, v as int) == i);
                let mut j: usize = 0;
                while j < n
                    invariant
                        self.wf(),
                        n == self.n,
                        u < v < n,
                        i < n,
                        i != v,
                        j <= n,
                        0 <= a < n - 1,
                        old_index(a, v as int) == i,
                        target == contracted(self@, n as int, u as int, v as int),
                        row@.len() == if j <= v { j as int } else { j - 1 },
                        forall|b: int| 0 <= b < row@.len() ==> (#[trigger] row@[b]) == target[a][b],
                    decreases n - j,
                {
                    if j != v {
                        assert(self@[i as int].len() == n);
                        assert(self@[v as int].len() == n);
                        let ghost b = row@.len() as int;
                        assert(old_index(b, v as int) == j);
                        let mut connected = self.adj[i][j];
                        if i == u {
                            if self.adj[v][j] {
                                connected = true;
                            }
                        }
                        if j == u {
                            if self.adj[i][v] {
                                connected = true;
                            }
                        }
                        if i == u && j == u {
                            connected = false;
                        }
                        row.push(connected);
                    }
                    j += 1;
                }
                assert(row@ =~= target[a]);
                new_adj.push(row);
            }
            i += 1;
        }
        let merged = Self { adj: new_adj, n: n - 1 };
        proof {
            assert(merged@ =~~= target);
            assert((n - 1) * (n - 1) <= n * n) by (nonlinear_arith)
                requires
                    n >= 1,
            ;
        }
        merged
    }
}

/// The coefficients of `x^n`.
pub open spec fn monomial(n: int) -> Seq<int> {
    Seq::new((n + 1) as nat, |i: int| if i == n { 1int } else { 0int })
}

/// Clearing or setting both flags of a pair whose first flag differs from
/// `value` lowers the number of flags that differ from `value`.
pub proof fn lemma_with_pair_count(t: FlagTable, n: int, u: int, v: int, value: bool)
    requires
        is_flag_table(t, n),
        0 <= u < n,
        0 <= v < n,
        t[u][v] != value,
    ensures
        is_flag_table(with_pair(t, u, v, value), n),
        0 <= count_cells(with_pair(t, u, v, value), !value) < count_cells(t, !value),
{
    let half = with_flag(t, u, v, value);
    lemma_count_cells_update(t, u, v, value, !value);
    assert(is_flag_table(half, n)) by {
        assert forall|i: int| 0 <= i < n implies (#[trigger] half[i]).len() == n by {
            assert(t[i].len() == n);
        }
    }
    lemma_count_cells_update(half, v, u, value, !value);
    let full = with_pair(t, u, v, value);
    assert(is_flag_table(full, n)) by {
        assert forall|i: int| 0 <= i < n implies (#[trigger] full[i]).len() == n by {
            assert(half[i].len() == n);
        }
    }
    lemma_count_cells_nonnegative(full, !value);
}

/// The chromatic polynomial by deleting and contracting edges: for the
/// first edge `e` of the graph it is the polynomial of the graph without
/// `e` minus the polynomial of the graph with `e` contracted, and for a
/// graph without edges it is `x^n`. `None` if a coefficient of a
/// difference does not fit into an `i64`.
pub open spec fn removal_polynomial(t: FlagTable, n: int) -> Option<Seq<int>>
    decreases n, count_cells(t, true),
    when is_flag_table(t, n)
{
    match scan_pair(t, n, 0, 1, true) {
        Some((u, v)) => {
            proof {
                lemma_scan_pair(t, n, 0, 1, true);
                lemma_with_pair_count(t, n, u, v, false);
            }
            match (
                removal_polynomial(with_pair(t, u, v, false), n),
                removal_polynomial(contracted(t, n, u, v), n - 1),
            ) {
                (Some(a), Some(b)) => if sub_fits(a, b) {
                    Some(poly_sub(a, b))
                } else {
                    None
                },
                _ => None,
            }
        },
        None => Some(monomial(n)),
    }
}

/// The coefficients of `x (x - 1) ... (x - n + 1)`; `None` if the
/// multiplication of the factors, one after the other, leaves the range of
/// `i64`.
pub open spec fn falling(n: int) -> Option<Seq<int>>
    decreases n,
{
    if n <= 0 {
        Some(seq![1int])
    } else {
        match falling(n - 1) {
            Some(p) => if mul_fits(p, seq![-(n - 1), 1int]) {
                Some(poly_mul(p, seq![-(n - 1), 1int]))
            } else {
                None
            },
            None => None,
        }
    }
}

/// The chromatic polynomial by adding and contracting edges: for the
/// first pair `e` of nodes that is no edge it is the polynomial of the
/// graph with `e` added plus the polynomial of the graph with `e`
/// contracted, and for a complete graph it is `x (x - 1) ... (x - n + 1)`.
/// `None` if a coefficient does not fit into an `i64`.
pub open spec fn addition_polynomial(t: FlagTable, n: int) -> Option<Seq<int>>
    decreases n, count_cells(t, false),
    when is_flag_table(t, n)
{
    match scan_pair(t, n, 0, 1, false) {
        Some((u, v)) => {
            proof {
                lemma_scan_pair(t, n, 0, 1, false);
                lemma_with_pair_count(t, n, u, v, true);
            }
            match (
                addition_polynomial(with_pair(t, u, v, true), n),
                addition_polynomial(contracted(t, n, u, v), n - 1),
            ) {
                (Some(a), Some(b)) => if add_fits(a, b) {
                    Some(poly_add(a, b))
                } else {
                    None
                },
                _ => None,
            }
        },
        None => falling(n),
    }
}

/// `result` is the polynomial `expected`, or both report an overflow.
pub open spec fn is_polynomial(result: Option<Polynomial>, expected: Option<Seq<int>>) -> bool {
    match (result, expected) {
        (Some(p), Some(s)) => p@ == s && p.wf(),
        (None, None) => true,
        _ => false,
    }
}

/// The chromatic polynomial of `g` by deleting and contracting edges.
pub fn compute_poly_remove(g: WorkingGraph) -> (result: Option<Polynomial>)
    requires
        g.wf(),
    ensures
        is_polynomial(result, removal_polynomial(g@, g.n as int)),
    decreases g.n, count_cells(g@, true),
{
    match g.find_edge() {
        Some((u, v)) => {
            let mut g_minus = g.duplicate();
            g_minus.remove_edge(u, v);
            let g_contract = g.contract(u, v);
            proof {
                lemma_scan_pair(g@, g.n as int, 0, 1, true);
                lemma_with_pair_count(g@, g.n as int, u as int, v as int, false);
            }
            let first = compute_poly_remove(g_minus);
            let second = compute_poly_remove(g_contract);
            match (first, second) {
                (Some(a), Some(b)) => a.minus(&b),
                _ => None,
            }
        },
        None => {
            proof {
                if g.n >= 2 {
                    assert(g.n < g.n * g.n) by (nonlinear_arith)
                        requires
                            g.n >= 2,
                    ;
                }
            }
            let p = Polynomial::from_monomial(g.n, 1);
            assert(p@ =~= monomial(g.n as int)) by {
                assert forall|i: int| 0 <= i < p@.len() implies p@[i] == monomial(g.n as int)[i] by {
                    assert(coef_of(p@, i) == if i == g.n { 1int } else { 0int });
                }
            }
            Some(p)
        },
    }
}

/// The polynomial `x (x - 1) ... (x - n + 1)`.
pub fn falling_factorial(n: usize) -> (result: Option<Polynomial>)
    requires
        n <= i64::MAX,
        n + 2 <= usize::MAX,
    ensures
        is_polynomial(result, falling(n as int)),
{
    let mut poly = Polynomial::one();
    let mut i: usize = 0;
    while i < n
        invariant
            i <= n,
            n <= i64::MAX,
            n + 2 <= usize::MAX,
            poly.wf(),
            falling(i as int) == Some(poly@),
            poly.coeffs@.len() <= i + 1,
        decreases n - i,
    {
        let mut coeffs: Vec<i64> = Vec::new();
        coeffs.push(-(i as i64));
        coeffs.push(1);
        let term = Polynomial { coeffs };
        proof {
            assert(term@ =~= seq![-(i as int), 1int]);
            assert(falling(i + 1) == if mul_fits(poly@, seq![-(i as int), 1int]) {
                Some(poly_mul(poly@, seq![-(i as int), 1int]))
            } else {
                None
            });
        }
        match poly.times(&term) {
            Some(next) => {
                proof {
                    assert(poly@.len() == poly.coeffs@.len());
                    assert(next@.len() == next.coeffs@.len());
                    lemma_normal(
                        Seq::new(
                            (poly@.len() + term@.len() - 1) as nat,
                            |k: int| conv_upto(poly@, term@, k, poly@.len() as int),
                        ),
                    );
                }
                poly = next;
            },
            None => {
                proof {
                    lemma_falling_stays(i + 1, n as int);
                }
                return None;
            },
        }
        i += 1;
    }
    Some(poly)
}

/// Once the product has left the range, it does so for every further
/// factor.
pub proof fn lemma_falling_stays(k: int, later: int)
    requires
        0 <= k <= later,
        falling(k) is None,
    ensures
        falling(later) is None,
    decreases later - k,
{
    if k < later {
        lemma_falling_stays(k, later - 1);
    }
}

/// The chromatic polynomial of `g` by adding and contracting edges.
pub fn compute_poly_add(g: WorkingGraph) -> (result: Option<Polynomial>)
    requires
        g.wf(),
    ensures
        is_polynomial(result, addition_polynomial(g@, g.n as int)),
    decreases g.n, count_cells(g@, false),
{
    match g.find_non_edge() {
        Some((u, v)) => {
            let mut g_plus = g.duplicate();
            g_plus.add_edge(u, v);
            let g_contract = g.contract(u, v);
            proof {
                lemma_scan_pair(g@, g.n as int, 0, 1, false);
                lemma_with_pair_count(g@, g.n as int, u as int, v as int, true);
            }
            let first = compute_poly_add(g_plus);
            let second = compute_poly_add(g_contract);
            match (first, second) {
                (Some(a), Some(b)) => a.plus(&b),
                _ => None,
            }
        },
        None => {
            proof {
                if g.n >= 2 {
                    assert(g.n < g.n * g.n) by (nonlinear_arith)
                        requires
                            g.n >= 2,
                    ;
                }
            }
            proof {
                assert(g.n <= 0xFFFF_FFFF) by (nonlinear_arith)
                    requires
                        g.n * g.n <= usize::MAX,
                        usize::MAX <= 0xFFFF_FFFF_FFFF_FFFF,
                ;
                if g.n >= 3 {
                    assert(g.n + 2 <= g.n * g.n) by (nonlinear_arith)
                        requires
                            g.n >= 3,
                    ;
                }
            }
            falling_factorial(g.n)
        },
    }
}

/// How the chromatic polynomial is computed.
#[derive(Copy, Clone, Debug, PartialEq, Eq, Structural)]
pub enum ChromaticPolynomialMethod {
    /// `P(G) = P(G - e) - P(G / e)`; best for sparse graphs.
    RemoveEdges,
    /// `P(G) = P(G + e) + P(G / e)`; best for dense graphs.
    AddEdges,
    /// The method that suits the density of the graph.
    Auto,
}

/// More than six tenths of the pairs of the `n` nodes are edges; a graph
/// with fewer than two nodes counts as dense.
pub open spec fn is_dense(edges: int, n: int) -> bool {
    n <= 1 || 10 * edges > 3 * (n * (n - 1))
}

/// The method that is used when `method` is asked for.
pub open spec fn resolved_method(
    t: FlagTable,
    n: int,
    method: ChromaticPolynomialMethod,
) -> ChromaticPolynomialMethod {
    match method {
        ChromaticPolynomialMethod::Auto => if is_dense(pairs_set(t, n, n, 0), n) {
            ChromaticPolynomialMethod::AddEdges
        } else {
            ChromaticPolynomialMethod::RemoveEdges
        },
        m => m,
    }
}

/// The chromatic polynomial of a flag table by the given method.
pub open spec fn chromatic_of(t: FlagTable, n: int, method: ChromaticPolynomialMethod) -> Option<
    Seq<int>,
> {
    match resolved_method(t, n, method) {
        ChromaticPolynomialMethod::AddEdges => addition_polynomial(t, n),
        _ => removal_polynomial(t, n),
    }
}

/// Whether more than six tenths of the pairs of `n` nodes are edges.
pub fn dense(edges: usize, n: usize) -> (yes: bool)
    requires
        n * n <= usize::MAX,
    ensures
        yes == is_dense(edges as int, n as int),
{
    if n <= 1 {
        return true;
    }
    proof {
        assert(n * (n - 1) <= n * n) by (nonlinear_arith)
            requires
                n >= 1,
        ;
    }
    let pairs: u128 = (n * (n - 1)) as u128;
    10 * (edges as u128) > 3 * pairs
}

/// The chromatic polynomial of the graph, in which two different nodes
/// count as joined if a record joins them in either direction.
///
/// `RemoveEdges` deletes and contracts the first edge until none is left;
/// `AddEdges` adds and contracts the first missing edge until the graph
/// is complete; `Auto` adds edges if more than six tenths of the pairs of
/// nodes are edges, and removes edges otherwise. `None` if a coefficient
/// that arises on the way does not fit into an `i64`.
pub fn chromatic_polynomial<G: Graph>(graph: &G, method: ChromaticPolynomialMethod) -> (result:
    Option<Polynomial>)
    requires
        graph.wf(),
        graph.keys().len() * graph.keys().len() <= usize::MAX,
    ensures
        is_polynomial(result, chromatic_of(graph_table(graph), graph.keys().len() as int, method)),
{
    let wg = WorkingGraph::from_graph(graph);
    let resolved = match method {
        ChromaticPolynomialMethod::Auto => {
            if dense(wg.edge_count(), wg.n) {
                ChromaticPolynomialMethod::AddEdges
            } else {
                ChromaticPolynomialMethod::RemoveEdges
            }
        },
        m => m,
    };
    match resolved {
        ChromaticPolynomialMethod::AddEdges => compute_poly_add(wg),
        _ => compute_poly_remove(wg),
    }
}

/// The number of ways to colour the graph with `k` colours: the value of
/// its chromatic polynomial at `k`, which for `k` from zero on is the
/// number of ways to give each node one of `k` colours such that no two
/// joined nodes have the same. `None` if the polynomial or its value
/// cannot be computed within `i64`.
pub fn num_k_colorings<G: Graph>(graph: &G, k: i64) -> (count: Option<i64>)
    requires
        graph.wf(),
        graph.keys().len() * graph.keys().len() <= usize::MAX,
    ensures
        match (
            count,
            chromatic_of(
                graph_table(graph),
                graph.keys().len() as int,
                ChromaticPolynomialMethod::Auto,
            ),
        ) {
            (Some(c), Some(p)) => c == eval_of(p, k as int) && horner_fits(p, k as int),
            (None, Some(p)) => !horner_fits(p, k as int),
            (None, None) => true,
            (Some(_), None) => false,
        },
        count is Some && k >= 0 ==> count->Some_0 == colourings(
            graph_table(graph),
            graph.keys().len() as int,
            k as int,
        ),
{
    match chromatic_polynomial(graph, ChromaticPolynomialMethod::Auto) {
        Some(poly) => {
            proof {
                if k >= 0 {
                    lemma_polynomial_counts(graph, ChromaticPolynomialMethod::Auto, k as int);
                }
            }
            poly.eval(k)
        },
        None => None,
    }
}

/// `k` is the chromatic number that the polynomial `p` of a graph with `n`
/// nodes gives: the least number of colours from 1 to `n` for which `p` is
/// positive; 1 if there is none, and 0 if `n` is 0.
pub open spec fn is_chromatic_number(p: Seq<int>, n: int, k: int) -> bool {
    &&& n == 0 ==> k == 0
    &&& n > 0 ==> 1 <= k <= n
    &&& forall|c: int| 1 <= c < k ==> #[trigger] eval_of(p, c) <= 0
    &&& n > 0 ==> eval_of(p, k) > 0 || (k == 1 && forall|c: int|
        1 <= c <= n ==> #[trigger] eval_of(p, c) <= 0)
}

/// The chromatic number of the graph, read off its chromatic polynomial:
/// the least number of colours from 1 to the number of nodes for which the
/// polynomial is positive; 1 if there is none, and 0 for the graph without
/// nodes. This is the least number of colours with which the nodes can be
/// coloured such that no two joined nodes have the same. `None` if the
/// polynomial cannot be computed within `i64`, or one of its values up to
/// the first positive one.
pub fn chromatic_number<G: Graph>(graph: &G) -> (number: Option<usize>)
    requires
        graph.wf(),
        graph.keys().len() * graph.keys().len() <= usize::MAX,
    ensures
        match (
            number,
            chromatic_of(
                graph_table(graph),
                graph.keys().len() as int,
                ChromaticPolynomialMethod::Auto,
            ),
        ) {
            (Some(k), Some(p)) => is_chromatic_number(p, graph.keys().len() as int, k as int),
            (None, Some(p)) => exists|c: int|
                1 <= c <= graph.keys().len() && !#[trigger] horner_fits(p, c) && forall|b: int|
                    1 <= b < c ==> #[trigger] eval_of(p, b) <= 0,
            (None, None) => true,
            (Some(_), None) => false,
        },
        number is Some ==> colourings(
            graph_table(graph),
            graph.keys().len() as int,
            number->Some_0 as int,
        ) > 0 && forall|fewer: int|
            0 <= fewer < number->Some_0 ==> #[trigger] colourings(
                graph_table(graph),
                graph.keys().len() as int,
                fewer,
            ) == 0,
{
    let poly = match chromatic_polynomial(graph, ChromaticPolynomialMethod::Auto) {
        Some(p) => p,
        None => {
            return None;
        },
    };
    let n = graph.order();
    proof {
        assert(n <= 0xFFFF_FFFF) by (nonlinear_arith)
            requires
                n * n <= usize::MAX,
                usize::MAX <= 0xFFFF_FFFF_FFFF_FFFF,
        ;
        if n >= 2 {
            assert(n < n * n) by (nonlinear_arith)
                requires
                    n >= 2,
            ;
        }
    }
    let mut k: usize = 1;
    while k <= n
        invariant
            1 <= k <= n + 1,
            n <= 0xFFFF_FFFF,
            n < usize::MAX,
            n == graph.keys().len(),
            chromatic_of(graph_table(graph), n as int, ChromaticPolynomialMethod::Auto) == Some(
                poly@,
            ),
            forall|c: int| 1 <= c < k ==> #[trigger] eval_of(poly@, c) <= 0,
        decreases n + 1 - k,
    {
        match poly.eval(k as i64) {
            Some(value) => {
                if value > 0 {
                    proof {
                        lemma_enough_colours(graph, k as int, k as int);
                    }
                    return Some(k);
                }
            },
            None => {
                proof {
                    let c = k as int;
                    assert(!horner_fits(poly@, c));
                    assert(1 <= c <= n && !horner_fits(poly@, c) && forall|b: int|
                        1 <= b < c ==> #[trigger] eval_of(poly@, b) <= 0);
                    let expected = chromatic_of(
                        graph_table(graph),
                        graph.keys().len() as int,
                        ChromaticPolynomialMethod::Auto,
                    );
                    assert(expected == Some(poly@));
                    assert(exists|c: int|
                        1 <= c <= graph.keys().len() && !#[trigger] horner_fits(expected->Some_0, c)
                            && forall|b: int|
                            1 <= b < c ==> #[trigger] eval_of(expected->Some_0, b) <= 0) by {
                        assert(1 <= c <= graph.keys().len() && !horner_fits(expected->Some_0, c)
                            && forall|b: int|
                            1 <= b < c ==> #[trigger] eval_of(expected->Some_0, b) <= 0);
                    }
                }
                return None;
            },
        }
        k += 1;
    }
    proof {
        lemma_enough_colours(graph, if n == 0 { 0int } else { 1int }, if n == 0 { 0int } else { 1int });
    }
    if n == 0 {
        Some(0)
    } else {
        Some(1)
    }
}

/// The value of a polynomial at zero is its constant coefficient.
pub proof fn lemma_eval_at_zero(s: Seq<int>)
    ensures
        eval_of(s, 0) == coef_of(s, 0),
{
    if s.len() > 0 {
        assert(0 * eval_of(s.drop_first(), 0) == 0) by (nonlinear_arith);
    }
}

/// The constant coefficient of a product is the product of the constant
/// coefficients.
pub proof fn lemma_conv_constant(a: Seq<int>, b: Seq<int>, upto: int)
    requires
        1 <= upto,
    ensures
        conv_upto(a, b, 0, upto) == coef_of(a, 0) * coef_of(b, 0),
    decreases upto,
{
    if upto > 1 {
        lemma_conv_constant(a, b, upto - 1);
        assert(coef_of(b, 0 - (upto - 1)) == 0);
        assert(coef_of(a, upto - 1) * 0 == 0) by (nonlinear_arith);
    } else {
        assert(conv_upto(a, b, 0, 0) == 0);
    }
}

/// The product of at least one of the factors `x`, `x - 1`, ... has no
/// constant coefficient.
pub proof fn lemma_falling_constant(n: int)
    requires
        n >= 1,
        falling(n) is Some,
    ensures
        coef_of(falling(n)->Some_0, 0) == 0,
    decreases n,
{
    let p = falling(n - 1)->Some_0;
    let f = seq![-(n - 1), 1int];
    if p.len() > 0 {
        let raw = Seq::new((p.len() + f.len() - 1) as nat, |k: int| conv_upto(p, f, k, p.len() as int));
        lemma_normal(raw);
        lemma_conv_constant(p, f, p.len() as int);
        assert(coef_of(raw, 0) == conv_upto(p, f, 0, p.len() as int));
        if n == 1 {
            assert(coef_of(p, 0) * 0 == 0) by (nonlinear_arith);
        } else {
            lemma_falling_constant(n - 1);
            assert(0 * coef_of(f, 0) == 0) by (nonlinear_arith);
        }
    }
}

/// A graph with at least one node cannot be coloured without colours: the
/// chromatic polynomial, by either method, has the value zero at zero.
pub proof fn lemma_no_colours(t: FlagTable, n: int, method: ChromaticPolynomialMethod)
    requires
        is_flag_table(t, n),
        n >= 1,
        chromatic_of(t, n, method) is Some,
    ensures
        eval_of(chromatic_of(t, n, method)->Some_0, 0) == 0,
{
    lemma_eval_at_zero(chromatic_of(t, n, method)->Some_0);
    match resolved_method(t, n, method) {
        ChromaticPolynomialMethod::AddEdges => lemma_addition_constant(t, n),
        _ => lemma_removal_constant(t, n),
    }
}

/// The polynomial by removal has no constant coefficient if the graph has
/// a node.
pub proof fn lemma_removal_constant(t: FlagTable, n: int)
    requires
        is_flag_table(t, n),
        n >= 1,
        removal_polynomial(t, n) is Some,
    ensures
        coef_of(removal_polynomial(t, n)->Some_0, 0) == 0,
    decreases n, count_cells(t, true),
{
    match scan_pair(t, n, 0, 1, true) {
        Some((u, v)) => {
            lemma_scan_pair(t, n, 0, 1, true);
            lemma_with_pair_count(t, n, u, v, false);
            let left = with_pair(t, u, v, false);
            let right = contracted(t, n, u, v);
            assert(is_flag_table(right, n - 1));
            lemma_removal_constant(left, n);
            lemma_removal_constant(right, n - 1);
            let a = removal_polynomial(left, n)->Some_0;
            let b = removal_polynomial(right, n - 1)->Some_0;
            let raw = Seq::new(
                if a.len() >= b.len() {
                    a.len()
                } else {
                    b.len()
                },
                |i: int| coef_of(a, i) - coef_of(b, i),
            );
            lemma_normal(raw);
            assert(coef_of(poly_sub(a, b), 0) == coef_of(raw, 0));
        },
        None => {},
    }
}

/// The polynomial by addition has no constant coefficient if the graph
/// has a node.
pub proof fn lemma_addition_constant(t: FlagTable, n: int)
    requires
        is_flag_table(t, n),
        n >= 1,
        addition_polynomial(t, n) is Some,
    ensures
        coef_of(addition_polynomial(t, n)->Some_0, 0) == 0,
    decreases n, count_cells(t, false),
{
    match scan_pair(t, n, 0, 1, false) {
        Some((u, v)) => {
            lemma_scan_pair(t, n, 0, 1, false);
            lemma_with_pair_count(t, n, u, v, true);
            let left = with_pair(t, u, v, true);
            let right = contracted(t, n, u, v);
            assert(is_flag_table(right, n - 1));
            lemma_addition_constant(left, n);
            lemma_addition_constant(right, n - 1);
            let a = addition_polynomial(left, n)->Some_0;
            let b = addition_polynomial(right, n - 1)->Some_0;
            let raw = Seq::new(
                if a.len() >= b.len() {
                    a.len()
                } else {
                    b.len()
                },
                |i: int| coef_of(a, i) + coef_of(b, i),
            );
            lemma_normal(raw);
            assert(coef_of(poly_add(a, b), 0) == coef_of(raw, 0));
        },
        None => {
            lemma_falling_constant(n);
        },
    }
}

} // verus!
