//! What the values of a polynomial say about its coefficients.

use vstd::prelude::*;
use crate::algorithms::colorings::{
    coef_of, conv_upto, eval_of, is_normal, lemma_normal, monomial, normal, poly_add, poly_mul,
    poly_sub,
};

verus! {

/// The list without its first item; the empty list stays empty.
pub open spec fn tail(s: Seq<int>) -> Seq<int> {
    if s.len() == 0 {
        s
    } else {
        s.drop_first()
    }
}

/// Horner's rule, one step: the value is the lowest coefficient plus `x`
/// times the value of the rest, whose coefficients are those of the list
/// moved down by one.
pub proof fn lemma_eval_step(s: Seq<int>, x: int)
    ensures
        eval_of(s, x) == coef_of(s, 0) + x * eval_of(tail(s), x),
        forall|i: int| 0 <= i ==> #[trigger] coef_of(tail(s), i) == coef_of(s, i + 1),
{
    if s.len() == 0 {
        assert(eval_of(s, x) == 0);
        assert(x * 0 == 0);
    }
}

/// Where every coefficient of `s` is that of `a` plus `f` times that of
/// `b`, so is every value.
pub proof fn lemma_eval_combination(a: Seq<int>, b: Seq<int>, s: Seq<int>, f: int, x: int)
    requires
        forall|i: int| 0 <= i ==> #[trigger] coef_of(s, i) == coef_of(a, i) + f * coef_of(b, i),
    ensures
        eval_of(s, x) == eval_of(a, x) + f * eval_of(b, x),
    decreases a.len() + b.len() + s.len(),
{
    if a.len() == 0 && b.len() == 0 && s.len() == 0 {
        assert(f * 0 == 0);
    } else {
        lemma_eval_step(a, x);
        lemma_eval_step(b, x);
        lemma_eval_step(s, x);
        assert forall|i: int| 0 <= i implies #[trigger] coef_of(tail(s), i) == coef_of(tail(a), i) + f
            * coef_of(tail(b), i) by {
            assert(coef_of(s, i + 1) == coef_of(a, i + 1) + f * coef_of(b, i + 1));
        }
        lemma_eval_combination(tail(a), tail(b), tail(s), f, x);
        let ea = eval_of(tail(a), x);
        let eb = eval_of(tail(b), x);
        let es = eval_of(tail(s), x);
        let a0 = coef_of(a, 0);
        let b0 = coef_of(b, 0);
        let s0 = coef_of(s, 0);
        assert(s0 == a0 + f * b0);
        assert(s0 + x * es == (a0 + x * ea) + f * (b0 + x * eb)) by (nonlinear_arith)
            requires
                s0 == a0 + f * b0,
                es == ea + f * eb,
        ;
    }
}

/// The value of a sum is the sum of the values.
pub proof fn lemma_eval_add(a: Seq<int>, b: Seq<int>, x: int)
    ensures
        eval_of(poly_add(a, b), x) == eval_of(a, x) + eval_of(b, x),
        is_normal(poly_add(a, b)),
{
    let len = if a.len() >= b.len() {
        a.len()
    } else {
        b.len()
    };
    let raw = Seq::new(len, |i: int| coef_of(a, i) + coef_of(b, i));
    lemma_normal(raw);
    assert forall|i: int| 0 <= i implies #[trigger] coef_of(poly_add(a, b), i) == coef_of(a, i) + 1
        * coef_of(b, i) by {
        assert(coef_of(normal(raw), i) == coef_of(raw, i));
    }
    lemma_eval_combination(a, b, poly_add(a, b), 1, x);
}

/// The value of a difference is the difference of the values.
pub proof fn lemma_eval_sub(a: Seq<int>, b: Seq<int>, x: int)
    ensures
        eval_of(poly_sub(a, b), x) == eval_of(a, x) - eval_of(b, x),
        is_normal(poly_sub(a, b)),
{
    let len = if a.len() >= b.len() {
        a.len()
    } else {
        b.len()
    };
    let raw = Seq::new(len, |i: int| coef_of(a, i) - coef_of(b, i));
    lemma_normal(raw);
    assert forall|i: int| 0 <= i implies #[trigger] coef_of(poly_sub(a, b), i) == coef_of(a, i) + (-1)
        * coef_of(b, i) by {
        assert(coef_of(normal(raw), i) == coef_of(raw, i));
    }
    lemma_eval_combination(a, b, poly_sub(a, b), -1, x);
}

/// `x` to the power `n`.
pub open spec fn power(x: int, n: int) -> int
    decreases n,
{
    if n <= 0 {
        1
    } else {
        x * power(x, n - 1)
    }
}

/// The value of `x^n`.
pub proof fn lemma_eval_monomial(n: int, x: int)
    requires
        0 <= n,
    ensures
        eval_of(monomial(n), x) == power(x, n),
        is_normal(monomial(n)),
    decreases n,
{
    let m = monomial(n);
    if n == 0 {
        assert(m.drop_first().len() == 0);
        assert(eval_of(m.drop_first(), x) == 0);
        assert(x * 0 == 0);
    } else {
        assert(m.drop_first() =~= monomial(n - 1));
        lemma_eval_monomial(n - 1, x);
    }
}

/// The coefficients of the product with a polynomial of two
/// coefficients, as far as the sum has come.
pub proof fn lemma_conv_linear(p: Seq<int>, b0: int, b1: int, k: int, upto: int)
    requires
        0 <= upto <= p.len(),
        0 <= k,
    ensures
        conv_upto(p, seq![b0, b1], k, upto) == (if k < upto {
            p[k] * b0
        } else {
            0
        }) + (if 1 <= k && k - 1 < upto {
            p[k - 1] * b1
        } else {
            0
        }),
    decreases upto,
{
    if upto > 0 {
        lemma_conv_linear(p, b0, b1, k, upto - 1);
        let i = upto - 1;
        let b = seq![b0, b1];
        if k - i == 0 {
            assert(coef_of(b, k - i) == b0);
        } else if k - i == 1 {
            assert(coef_of(b, k - i) == b1);
        } else {
            assert(coef_of(b, k - i) == 0);
            assert(coef_of(p, i) * 0 == 0);
        }
    }
}

/// The value of the product with `x - m` is the value times `x - m`.
pub proof fn lemma_eval_times_linear(p: Seq<int>, m: int, x: int)
    requires
        p.len() >= 1,
    ensures
        eval_of(poly_mul(p, seq![-m, 1int]), x) == eval_of(p, x) * (x - m),
        is_normal(poly_mul(p, seq![-m, 1int])),
{
    let b = seq![-m, 1int];
    let raw = Seq::new((p.len() + b.len() - 1) as nat, |k: int| conv_upto(p, b, k, p.len() as int));
    let shifted = seq![0int] + p;
    let product = poly_mul(p, b);
    assert(product == normal(raw));
    lemma_normal(raw);
    assert forall|i: int| 0 <= i implies #[trigger] coef_of(product, i) == coef_of(shifted, i) + (-m)
        * coef_of(p, i) by {
        assert(coef_of(normal(raw), i) == coef_of(raw, i));
        if i < raw.len() {
            lemma_conv_linear(p, -m, 1, i, p.len() as int);
            if i >= 1 {
                assert(shifted[i] == p[i - 1]);
                assert(p[i - 1] * 1 == p[i - 1]);
            }
            if i < p.len() {
                assert(p[i] * (-m) == (-m) * p[i]) by (nonlinear_arith);
            } else {
                assert((-m) * 0 == 0);
            }
        } else {
            assert((-m) * 0 == 0);
        }
    }
    lemma_eval_combination(shifted, p, product, -m, x);
    assert(shifted.drop_first() =~= p);
    let e = eval_of(p, x);
    assert(eval_of(shifted, x) == 0 + x * e);
    assert(x * e + (-m) * e == e * (x - m)) by (nonlinear_arith);
}

/// The sum of the absolute values of the coefficients.
pub open spec fn magnitude(s: Seq<int>) -> int
    decreases s.len(),
{
    if s.len() == 0 {
        0
    } else {
        (if s[0] < 0 {
            -s[0]
        } else {
            s[0]
        }) + magnitude(s.drop_first())
    }
}

/// Beyond the sum of the absolute values of its coefficients, a
/// polynomial whose highest coefficient is not zero has no zero.
pub proof fn lemma_large_value(s: Seq<int>, x: int)
    requires
        s.len() >= 1,
        s.last() != 0,
        x > magnitude(s),
    ensures
        eval_of(s, x) != 0,
        0 <= magnitude(s),
    decreases s.len(),
{
    let rest = s.drop_first();
    if s.len() == 1 {
        assert(rest.len() == 0);
        assert(eval_of(rest, x) == 0);
        assert(magnitude(rest) == 0);
        assert(x * 0 == 0);
    } else {
        assert(rest.last() == s.last());
        lemma_large_value(rest, x);
        let e = eval_of(rest, x);
        let s0 = s[0];
        assert(s0 + x * e != 0) by (nonlinear_arith)
            requires
                e != 0,
                x > s0,
                x > -s0,
        ;
    }
}

/// Two normal coefficient lists with the same value at every number from
/// zero on are the same list.
pub proof fn lemma_same_values(p: Seq<int>, q: Seq<int>)
    requires
        is_normal(p),
        is_normal(q),
        forall|x: int| 0 <= x ==> #[trigger] eval_of(p, x) == eval_of(q, x),
    ensures
        p == q,
{
    let d = poly_sub(p, q);
    let len = if p.len() >= q.len() {
        p.len()
    } else {
        q.len()
    };
    let raw = Seq::new(len, |i: int| coef_of(p, i) - coef_of(q, i));
    lemma_normal(raw);
    if d.last() != 0 {
        lemma_large_value(d, magnitude(d) + 1);
        lemma_eval_sub(p, q, magnitude(d) + 1);
        assert(eval_of(p, magnitude(d) + 1) == eval_of(q, magnitude(d) + 1));
    }
    assert(d.len() == 1 && d[0] == 0);
    assert forall|i: int| 0 <= i implies coef_of(p, i) == coef_of(q, i) by {
        assert(coef_of(normal(raw), i) == coef_of(raw, i));
        if i < len {
            assert(raw[i] == coef_of(p, i) - coef_of(q, i));
        }
    }
    if p.len() > q.len() {
        assert(coef_of(p, p.len() - 1) == coef_of(q, p.len() - 1));
    }
    if q.len() > p.len() {
        assert(coef_of(p, q.len() - 1) == coef_of(q, q.len() - 1));
    }
    assert forall|i: int| 0 <= i < p.len() implies p[i] == q[i] by {
        assert(coef_of(p, i) == coef_of(q, i));
    }
    assert(p =~= q);
}

} // verus!
