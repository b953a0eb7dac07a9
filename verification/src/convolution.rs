//! The product of two polynomials, coefficient by coefficient, and its value:
//! the value of a product is the product of the values.
use crate::field::{
    fr_add, fr_mul, is_fr, lemma_add_c, lemma_cong_eq, lemma_fr_add_zero, lemma_fr_mul_zero,
    lemma_mul_c, lemma_reduce_small, modulus,
};
use crate::polymath::{
    all_fr, conv_coeff, conv_range, conv_term, lemma_conv_range_is_fr, lemma_conv_range_split,
    lemma_conv_range_zero, lemma_poly_eval_is_fr, poly_eval, poly_product, poly_sum,
};
use crate::transform::{lemma_eval_concat, lemma_eval_sum};
use vstd::prelude::*;

verus! {

/// The polynomial of `n` zero coefficients.
pub open spec fn poly_zero(n: nat) -> Seq<nat> {
    Seq::new(n, |i: int| 0nat)
}

/// The polynomial `p` with every coefficient multiplied by `c`.
pub open spec fn poly_times(c: nat, p: Seq<nat>) -> Seq<nat> {
    Seq::new(p.len(), |i: int| fr_mul(c, p[i]))
}

/// The zero polynomial is zero everywhere.
pub proof fn lemma_eval_zero(n: nat, x: nat)
    ensures
        poly_eval(poly_zero(n), x) == 0,
    decreases n,
{
    lemma_reduce_small(0);
    if n > 0 {
        assert(poly_zero(n).skip(1) =~= poly_zero((n - 1) as nat));
        lemma_eval_zero((n - 1) as nat, x);
        lemma_fr_mul_zero(x);
    }
}

/// Zero coefficients on top do not change the value.
pub proof fn lemma_eval_pad(p: Seq<nat>, m: nat, x: nat)
    ensures
        poly_eval(p + poly_zero(m), x) == poly_eval(p, x),
{
    lemma_eval_concat(p, poly_zero(m), x);
    lemma_eval_zero(m, x);
    lemma_fr_mul_zero(crate::field::fr_pow(x, p.len()));
    lemma_poly_eval_is_fr(p, x);
    lemma_fr_add_zero(poly_eval(p, x));
}

/// The value of a multiple of a polynomial is the multiple of its value.
pub proof fn lemma_eval_times(c: nat, p: Seq<nat>, x: nat)
    ensures
        poly_eval(poly_times(c, p), x) == fr_mul(c, poly_eval(p, x)),
    decreases p.len(),
{
    lemma_reduce_small(0);
    let cp = poly_times(c, p);
    if p.len() == 0 {
        lemma_fr_mul_zero(c);
    } else {
        let p1 = p.skip(1);
        assert(cp.skip(1) =~= poly_times(c, p1));
        lemma_eval_times(c, p1, x);
        let ci = c as int;
        let a = p[0] as int;
        let xi = x as int;
        let e = poly_eval(p1, x);
        let ei = e as int;
        lemma_mul_c(c, p[0], ci, a);
        lemma_mul_c(c, e, ci, ei);
        lemma_mul_c(x, fr_mul(c, e), xi, ci * ei);
        lemma_add_c(cp[0], fr_mul(x, poly_eval(cp.skip(1), x)), ci * a, xi * (ci * ei));
        lemma_mul_c(x, e, xi, ei);
        lemma_add_c(p[0], fr_mul(x, e), a, xi * ei);
        lemma_mul_c(c, poly_eval(p, x), ci, a + xi * ei);
        assert(ci * a + xi * (ci * ei) == ci * (a + xi * ei) + 0 * modulus()) by (nonlinear_arith);
        lemma_cong_eq(
            poly_eval(cp, x),
            fr_mul(c, poly_eval(p, x)),
            ci * a + xi * (ci * ei),
            ci * (a + xi * ei),
            0,
        );
    }
}

/// Two ranges of terms that agree term by term, one shifted by `d` against
/// the other, have the same sum.
pub proof fn lemma_conv_range_terms(
    a: Seq<nat>,
    b: Seq<nat>,
    k: int,
    a2: Seq<nat>,
    b2: Seq<nat>,
    k2: int,
    lo: int,
    hi: int,
    d: int,
)
    requires
        forall|i: int|
            lo <= i < hi ==> #[trigger] conv_term(a, b, k, i) == conv_term(a2, b2, k2, i + d),
    ensures
        conv_range(a, b, k, lo, hi) == conv_range(a2, b2, k2, lo + d, hi + d),
    decreases hi - lo,
{
    if lo < hi {
        assert(conv_term(a, b, k, lo) == conv_term(a2, b2, k2, lo + d));
        lemma_conv_range_terms(a, b, k, a2, b2, k2, lo + 1, hi, d);
    }
}

/// A coefficient of a product, split into the term of the constant
/// coefficient of `a` and the coefficient one lower of the product with the
/// rest of `a`.
pub proof fn lemma_conv_coeff_step(a: Seq<nat>, b: Seq<nat>, k: int)
    requires
        a.len() >= 1,
        k >= 0,
    ensures
        conv_coeff(a, b, k) == fr_add(
            conv_term(a, b, k, 0),
            if k >= 1 {
                conv_coeff(a.skip(1), b, k - 1)
            } else {
                0
            },
        ),
{
    let a1 = a.skip(1);
    let n1 = a1.len();
    if k >= 1 {
        assert forall|i: int| 1 <= i < a.len() implies #[trigger] conv_term(a, b, k, i)
            == conv_term(a1, b, k - 1, i + (-1)) by {}
        lemma_conv_range_terms(a, b, k, a1, b, k - 1, 1, a.len() as int, -1);
    } else {
        assert forall|i: int| 1 <= i < a.len() implies conv_term(a, b, k, i) == 0 by {}
        lemma_conv_range_zero(a, b, k, 1, a.len() as int);
    }
}

/// A coefficient of a product beyond its degree is zero.
pub proof fn lemma_conv_coeff_high(a: Seq<nat>, b: Seq<nat>, k: int)
    requires
        k + 1 >= a.len() + b.len() || a.len() == 0 || b.len() == 0,
    ensures
        conv_coeff(a, b, k) == 0,
{
    assert forall|i: int| 0 <= i < a.len() implies conv_term(a, b, k, i) == 0 by {}
    lemma_conv_range_zero(a, b, k, 0, a.len() as int);
}

/// A coefficient of a product below `len` reads only the first `len`
/// coefficients of both factors.
pub proof fn lemma_conv_coeff_take(a: Seq<nat>, b: Seq<nat>, k: int, la: int, lb: int)
    requires
        0 <= k,
        0 <= la <= a.len(),
        0 <= lb <= b.len(),
        la == a.len() || k < la,
        lb == b.len() || k < lb,
    ensures
        conv_coeff(a, b, k) == conv_coeff(a.take(la), b.take(lb), k),
{
    let a2 = a.take(la);
    let b2 = b.take(lb);
    assert forall|i: int| 0 <= i < la implies #[trigger] conv_term(a, b, k, i) == conv_term(
        a2,
        b2,
        k,
        i + 0,
    ) by {}
    lemma_conv_range_terms(a, b, k, a2, b2, k, 0, la, 0);
    lemma_conv_range_split(a, b, k, 0, la, a.len() as int);
    assert forall|i: int| la <= i < a.len() implies conv_term(a, b, k, i) == 0 by {}
    lemma_conv_range_zero(a, b, k, la, a.len() as int);
    lemma_conv_range_is_fr(a, b, k, 0, la);
    lemma_fr_add_zero(conv_range(a, b, k, 0, la));
}

/// The coefficients of a product are canonical residues.
pub proof fn lemma_product_is_fr(a: Seq<nat>, b: Seq<nat>, len: nat)
    ensures
        all_fr(poly_product(a, b, len)),
{
    assert forall|k: int| 0 <= k < len implies is_fr(#[trigger] poly_product(a, b, len)[k]) by {
        lemma_conv_range_is_fr(a, b, k, 0, a.len() as int);
    }
}

/// The value of a product is the product of the values, for a product taken
/// to its full length.
pub proof fn lemma_eval_product(a: Seq<nat>, b: Seq<nat>, len: nat, x: nat)
    requires
        a.len() == 0 || b.len() == 0 || len + 1 >= a.len() + b.len(),
    ensures
        poly_eval(poly_product(a, b, len), x) == fr_mul(poly_eval(a, x), poly_eval(b, x)),
    decreases a.len(),
{
    let prod = poly_product(a, b, len);
    lemma_reduce_small(0);
    lemma_poly_eval_is_fr(b, x);
    lemma_poly_eval_is_fr(a, x);
    if a.len() == 0 || b.len() == 0 {
        assert forall|k: int| 0 <= k < len implies #[trigger] prod[k] == 0 by {
            lemma_conv_coeff_high(a, b, k);
        }
        assert(prod =~= poly_zero(len));
        lemma_eval_zero(len, x);
        lemma_fr_mul_zero(poly_eval(a, x));
        lemma_fr_mul_zero(poly_eval(b, x));
    } else {
        let a1 = a.skip(1);
        let a0 = a[0];
        let l1 = (len - 1) as nat;
        let bpad = b + poly_zero((len - b.len()) as nat);
        let s = poly_times(a0, bpad);
        let t = seq![0nat] + poly_product(a1, b, l1);
        assert forall|k: int| 0 <= k < len implies #[trigger] prod[k] == poly_sum(s, t)[k] by {
            lemma_conv_coeff_step(a, b, k);
            lemma_fr_mul_zero(a0);
        }
        assert(prod =~= poly_sum(s, t));
        lemma_eval_sum(s, t, x);
        lemma_eval_times(a0, bpad, x);
        lemma_eval_pad(b, (len - b.len()) as nat, x);
        lemma_eval_product(a1, b, l1, x);
        assert(t.skip(1) =~= poly_product(a1, b, l1));
        let bx = poly_eval(b, x);
        let ax1 = poly_eval(a1, x);
        let bi = bx as int;
        let ai = ax1 as int;
        let xi = x as int;
        let a0i = a0 as int;
        let tv = poly_eval(t, x);
        // left: a0 * b(x) + (0 + x * (a1(x) * b(x)))
        lemma_mul_c(a0, bx, a0i, bi);
        lemma_mul_c(ax1, bx, ai, bi);
        lemma_mul_c(x, fr_mul(ax1, bx), xi, ai * bi);
        lemma_add_c(0, fr_mul(x, fr_mul(ax1, bx)), 0, xi * (ai * bi));
        lemma_add_c(fr_mul(a0, bx), tv, a0i * bi, 0 + xi * (ai * bi));
        // right: (a0 + x * a1(x)) * b(x)
        lemma_mul_c(x, ax1, xi, ai);
        lemma_add_c(a0, fr_mul(x, ax1), a0i, xi * ai);
        lemma_mul_c(poly_eval(a, x), bx, a0i + xi * ai, bi);
        assert(a0i * bi + (0 + xi * (ai * bi)) == (a0i + xi * ai) * bi + 0 * modulus())
            by (nonlinear_arith);
        lemma_cong_eq(
            poly_eval(prod, x),
            fr_mul(poly_eval(a, x), bx),
            a0i * bi + (0 + xi * (ai * bi)),
            (a0i + xi * ai) * bi,
            0,
        );
    }
}

} // verus!
