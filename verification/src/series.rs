//! Products of polynomials cut to a length, as products of power series:
//! they are linear and associative, and a quotient can be had from the
//! series `1 / divisor`.
use crate::convolution::{
    lemma_conv_coeff_step, lemma_conv_coeff_take, lemma_conv_range_terms, poly_times, poly_zero,
};
use crate::field::{
    fr_add, fr_mul, fr_reduce, fr_sub, is_fr, lemma_fr_mul_comm, lemma_mul_c, lemma_sub_c, lemma_add_c, lemma_cong_eq, lemma_fr_add_comm,
    lemma_fr_add_zero, lemma_fr_distrib, lemma_fr_mul_assoc, lemma_fr_mul_one, lemma_fr_mul_zero,
    lemma_ops_are_fr, lemma_reduce_small, modulus,
};
use crate::polymath::{
    all_fr, conv_coeff, conv_range, conv_term, is_quotient, is_series_inverse,
    lemma_conv_range_is_fr, lemma_conv_range_split, lemma_conv_range_zero, poly_product, poly_sum,
};
use vstd::prelude::*;

verus! {

/// The coefficients from the last to the first.
pub open spec fn flipped(s: Seq<nat>) -> Seq<nat> {
    Seq::new(s.len(), |i: int| s[s.len() - 1 - i])
}

/// The polynomial `a` cut or padded with zeros to `len` coefficients.
pub open spec fn resized(a: Seq<nat>, len: nat) -> Seq<nat> {
    Seq::new(
        len,
        |i: int|
            if i < a.len() {
                a[i]
            } else {
                0nat
            },
    )
}

/// A range of terms with one more term at its end.
pub proof fn lemma_conv_range_last(a: Seq<nat>, b: Seq<nat>, k: int, lo: int, hi: int)
    requires
        lo <= hi,
    ensures
        conv_range(a, b, k, lo, hi + 1) == fr_add(
            conv_range(a, b, k, lo, hi),
            conv_term(a, b, k, hi),
        ),
{
    lemma_conv_range_split(a, b, k, lo, hi, hi + 1);
    assert(conv_range(a, b, k, hi + 1, hi + 1) == 0);
    assert(is_fr(conv_term(a, b, k, hi))) by {
        if 0 <= hi < a.len() && 0 <= k - hi < b.len() {
            lemma_ops_are_fr(a[hi], b[k - hi]);
        }
    }
    lemma_fr_add_zero(conv_term(a, b, k, hi));
}

/// A range of terms that is followed by zero terms only.
pub proof fn lemma_conv_range_extend(a: Seq<nat>, b: Seq<nat>, k: int, lo: int, hi: int, hi2: int)
    requires
        lo <= hi <= hi2,
        forall|i: int| hi <= i < hi2 ==> conv_term(a, b, k, i) == 0,
    ensures
        conv_range(a, b, k, lo, hi) == conv_range(a, b, k, lo, hi2),
{
    lemma_conv_range_split(a, b, k, lo, hi, hi2);
    lemma_conv_range_zero(a, b, k, hi, hi2);
    lemma_conv_range_is_fr(a, b, k, lo, hi);
    lemma_fr_add_zero(conv_range(a, b, k, lo, hi));
}

/// Coefficient `k` of a product is the sum of its first `k + 1` terms.
pub proof fn lemma_conv_coeff_prefix(a: Seq<nat>, b: Seq<nat>, k: int)
    requires
        k >= 0,
    ensures
        conv_coeff(a, b, k) == conv_range(a, b, k, 0, k + 1),
{
    let n = a.len() as int;
    if n <= k + 1 {
        assert forall|i: int| n <= i < k + 1 implies conv_term(a, b, k, i) == 0 by {}
        lemma_conv_range_extend(a, b, k, 0, n, k + 1);
    } else {
        assert forall|i: int| k + 1 <= i < n implies conv_term(a, b, k, i) == 0 by {}
        lemma_conv_range_extend(a, b, k, 0, k + 1, n);
    }
}

/// `(t1 + t2) + (r1 + r2) == (t1 + r1) + (t2 + r2)`.
proof fn lemma_add_interchange(t1: nat, t2: nat, r1: nat, r2: nat)
    ensures
        fr_add(fr_add(t1, t2), fr_add(r1, r2)) == fr_add(fr_add(t1, r1), fr_add(t2, r2)),
{
    let a = t1 as int;
    let b = t2 as int;
    let c = r1 as int;
    let d = r2 as int;
    lemma_add_c(t1, t2, a, b);
    lemma_add_c(r1, r2, c, d);
    lemma_add_c(fr_add(t1, t2), fr_add(r1, r2), a + b, c + d);
    lemma_add_c(t1, r1, a, c);
    lemma_add_c(t2, r2, b, d);
    lemma_add_c(fr_add(t1, r1), fr_add(t2, r2), a + c, b + d);
    lemma_cong_eq(
        fr_add(fr_add(t1, t2), fr_add(r1, r2)),
        fr_add(fr_add(t1, r1), fr_add(t2, r2)),
        (a + b) + (c + d),
        (a + c) + (b + d),
        0,
    );
}

/// A range of terms of a product is additive in the first factor.
pub proof fn lemma_conv_range_sum(a: Seq<nat>, a2: Seq<nat>, b: Seq<nat>, k: int, lo: int, hi: int)
    requires
        a.len() == a2.len(),
    ensures
        conv_range(poly_sum(a, a2), b, k, lo, hi) == fr_add(
            conv_range(a, b, k, lo, hi),
            conv_range(a2, b, k, lo, hi),
        ),
    decreases hi - lo,
{
    lemma_reduce_small(0);
    if lo < hi {
        lemma_conv_range_sum(a, a2, b, k, lo + 1, hi);
        let s = poly_sum(a, a2);
        if 0 <= lo < a.len() && 0 <= k - lo < b.len() {
            lemma_fr_distrib(b[k - lo], a[lo], a2[lo]);
        }
        assert(conv_term(s, b, k, lo) == fr_add(conv_term(a, b, k, lo), conv_term(a2, b, k, lo)));
        lemma_add_interchange(
            conv_term(a, b, k, lo),
            conv_term(a2, b, k, lo),
            conv_range(a, b, k, lo + 1, hi),
            conv_range(a2, b, k, lo + 1, hi),
        );
    }
}

/// A range of terms of a product is homogeneous in the first factor.
pub proof fn lemma_conv_range_times(c: nat, a: Seq<nat>, b: Seq<nat>, k: int, lo: int, hi: int)
    ensures
        conv_range(poly_times(c, a), b, k, lo, hi) == fr_mul(c, conv_range(a, b, k, lo, hi)),
    decreases hi - lo,
{
    lemma_reduce_small(0);
    lemma_fr_mul_zero(c);
    if lo < hi {
        lemma_conv_range_times(c, a, b, k, lo + 1, hi);
        let ca = poly_times(c, a);
        if 0 <= lo < a.len() && 0 <= k - lo < b.len() {
            lemma_fr_mul_assoc(c, a[lo], b[k - lo]);
        }
        assert(conv_term(ca, b, k, lo) == fr_mul(c, conv_term(a, b, k, lo)));
        lemma_fr_distrib(c, conv_term(a, b, k, lo), conv_range(a, b, k, lo + 1, hi));
    }
}

/// A product with the zero polynomial is zero.
pub proof fn lemma_conv_coeff_zero(n: nat, b: Seq<nat>, k: int)
    ensures
        conv_coeff(poly_zero(n), b, k) == 0,
        conv_coeff(b, poly_zero(n), k) == 0,
{
    let z = poly_zero(n);
    assert forall|i: int| 0 <= i < n implies conv_term(z, b, k, i) == 0 by {
        if 0 <= k - i < b.len() {
            lemma_fr_mul_zero(b[k - i]);
        }
    }
    lemma_conv_range_zero(z, b, k, 0, n as int);
    assert forall|i: int| 0 <= i < b.len() implies conv_term(b, z, k, i) == 0 by {
        lemma_fr_mul_zero(b[i]);
    }
    lemma_conv_range_zero(b, z, k, 0, b.len() as int);
}

/// A product with a polynomial shifted up by one is the product shifted up by one.
pub proof fn lemma_conv_coeff_shift(t: Seq<nat>, b: Seq<nat>, k: int)
    requires
        k >= 0,
    ensures
        conv_coeff(seq![0nat] + t, b, k) == if k >= 1 {
            conv_coeff(t, b, k - 1)
        } else {
            0
        },
{
    let a = seq![0nat] + t;
    assert(a.skip(1) =~= t);
    lemma_conv_coeff_step(a, b, k);
    lemma_reduce_small(0);
    if 0 <= k < b.len() {
        lemma_fr_mul_zero(b[k]);
    }
    assert(conv_term(a, b, k, 0) == 0);
    if k >= 1 {
        lemma_conv_range_is_fr(t, b, k - 1, 0, t.len() as int);
        lemma_fr_add_zero(conv_coeff(t, b, k - 1));
    }
}

/// Below `len`, a product reads only the first `len` coefficients of its
/// first factor, and zeros on top of it change nothing.
pub proof fn lemma_conv_coeff_resized(a: Seq<nat>, b: Seq<nat>, k: int, len: nat)
    requires
        0 <= k < len,
    ensures
        conv_coeff(resized(a, len), b, k) == conv_coeff(a, b, k),
{
    let r = resized(a, len);
    lemma_conv_coeff_prefix(r, b, k);
    lemma_conv_coeff_prefix(a, b, k);
    assert forall|i: int| 0 <= i < k + 1 implies #[trigger] conv_term(r, b, k, i) == conv_term(
        a,
        b,
        k,
        i + 0,
    ) by {
        if i >= a.len() && 0 <= k - i < b.len() {
            lemma_fr_mul_zero(b[k - i]);
        }
    }
    lemma_conv_range_terms(r, b, k, a, b, k, 0, k + 1, 0);
}

/// Products cut to a length are associative: below `len`, the product of
/// `a * i` cut to `len` with `b` is the product of `a` with `i * b` cut to `len`.
pub proof fn lemma_product_associative(a: Seq<nat>, i: Seq<nat>, b: Seq<nat>, len: nat, k: int)
    requires
        0 <= k < len,
    ensures
        conv_coeff(poly_product(a, i, len), b, k) == conv_coeff(a, poly_product(i, b, len), k),
    decreases a.len(),
{
    let left = poly_product(a, i, len);
    let m = poly_product(i, b, len);
    lemma_reduce_small(0);
    if a.len() == 0 {
        assert forall|j: int| 0 <= j < len implies #[trigger] left[j] == 0 by {
            assert(conv_range(a, i, j, 0, 0) == 0);
        }
        assert(left =~= poly_zero(len));
        lemma_conv_coeff_zero(len, b, k);
        assert(conv_range(a, m, k, 0, 0) == 0);
    } else {
        let a0 = a[0];
        let a1 = a.skip(1);
        let l1 = (len - 1) as nat;
        let s = poly_times(a0, resized(i, len));
        let t = seq![0nat] + poly_product(a1, i, l1);
        assert forall|j: int| 0 <= j < len implies #[trigger] left[j] == poly_sum(s, t)[j] by {
            lemma_conv_coeff_step(a, i, j);
            lemma_fr_mul_zero(a0);
        }
        assert(left =~= poly_sum(s, t));
        // the left side, term by term
        lemma_conv_range_sum(s, t, b, k, 0, len as int);
        lemma_conv_range_times(a0, resized(i, len), b, k, 0, len as int);
        lemma_conv_coeff_resized(i, b, k, len);
        lemma_conv_coeff_shift(poly_product(a1, i, l1), b, k);
        // the right side, term by term
        lemma_conv_coeff_step(a, m, k);
        assert(conv_term(a, m, k, 0) == fr_mul(a0, conv_coeff(i, b, k)));
        if k >= 1 {
            lemma_product_associative(a1, i, b, l1, k - 1);
            lemma_conv_coeff_take(a1, m, k - 1, a1.len() as int, l1 as int);
            assert(a1.take(a1.len() as int) =~= a1);
            assert(m.take(l1 as int) =~= poly_product(i, b, l1));
        }
    }
}

/// The product with a polynomial that is one, up to its length, gives the
/// coefficients back.
pub proof fn lemma_conv_coeff_one(a: Seq<nat>, m: Seq<nat>, k: int)
    requires
        0 <= k < m.len(),
        k < a.len(),
        forall|t: int|
            0 <= t < m.len() ==> #[trigger] m[t] == (if t == 0 {
                1nat
            } else {
                0nat
            }),
    ensures
        conv_coeff(a, m, k) == fr_reduce(a[k] as int),
{
    let n = a.len() as int;
    lemma_reduce_small(0);
    lemma_conv_range_split(a, m, k, 0, k, n);
    assert forall|i: int| 0 <= i < k implies conv_term(a, m, k, i) == 0 by {
        assert(m[k - i] == 0);
        lemma_fr_mul_zero(a[i]);
    }
    lemma_conv_range_zero(a, m, k, 0, k);
    assert forall|i: int| k + 1 <= i < n implies conv_term(a, m, k, i) == 0 by {}
    lemma_conv_range_zero(a, m, k, k + 1, n);
    assert(m[0] == 1);
    assert(conv_term(a, m, k, k) == fr_mul(a[k], 1));
    lemma_fr_mul_one(a[k]);
    lemma_ops_are_fr(a[k], 1);
    lemma_fr_add_zero(fr_mul(a[k], 1));
    lemma_fr_add_zero(conv_range(a, m, k, k, n));
    lemma_conv_range_is_fr(a, m, k, k, n);
}

/// A range of terms summed from the other end: where the terms of one
/// product at `i` are those of another at `c - i`, the sums agree.
pub proof fn lemma_conv_range_mirror(
    a: Seq<nat>,
    b: Seq<nat>,
    k: int,
    a2: Seq<nat>,
    b2: Seq<nat>,
    k2: int,
    lo: int,
    hi: int,
    c: int,
)
    requires
        lo <= hi,
        forall|i: int|
            lo <= i < hi ==> #[trigger] conv_term(a, b, k, i) == conv_term(a2, b2, k2, c - i),
    ensures
        conv_range(a, b, k, lo, hi) == conv_range(a2, b2, k2, c - hi + 1, c - lo + 1),
    decreases hi - lo,
{
    if lo < hi {
        lemma_conv_range_mirror(a, b, k, a2, b2, k2, lo + 1, hi, c);
        assert(conv_term(a, b, k, lo) == conv_term(a2, b2, k2, c - lo));
        lemma_conv_range_last(a2, b2, k2, c - hi + 1, c - lo);
        lemma_fr_add_comm(conv_term(a, b, k, lo), conv_range(a, b, k, lo + 1, hi));
    }
}

/// The product of two flipped polynomials, flipped: coefficient `j` of the
/// product of the flipped `qf` and the flipped `b` is coefficient
/// `n - 1 - j` of the product of `qf` and `b`, where `n` is the sum of their
/// lengths less one.
pub proof fn lemma_conv_coeff_flipped(qf: Seq<nat>, b: Seq<nat>, j: int)
    requires
        b.len() >= 1,
        qf.len() >= 1,
        b.len() - 1 <= j < qf.len() + b.len() - 1,
    ensures
        conv_coeff(flipped(qf), flipped(b), j) == conv_coeff(
            qf,
            b,
            qf.len() + b.len() - 2 - j,
        ),
{
    let q = flipped(qf);
    let d = flipped(b);
    let len = qf.len() as int;
    let m = b.len() - 1;
    let k = len + m - 1 - j;
    assert forall|i: int| 0 <= i < len implies #[trigger] conv_term(q, d, j, i) == conv_term(
        qf,
        b,
        k,
        (len - 1) - i,
    ) by {
        let i2 = (len - 1) - i;
        assert(k - i2 == m - (j - i));
        if 0 <= j - i < d.len() {
            assert(q[i] == qf[i2]);
            assert(d[j - i] == b[m - (j - i)]);
        }
    }
    lemma_conv_range_mirror(q, d, j, qf, b, k, 0, len, len - 1);
}

/// The quotient by way of the power series. With `inv` the first
/// coefficients of the series `1 / d` of the flipped divisor, as many as the
/// quotient has, the flipped product of the flipped dividend with `inv` is
/// the quotient of `p` by `d`.
pub proof fn lemma_series_quotient(p: Seq<nat>, d: Seq<nat>, inv: Seq<nat>)
    requires
        all_fr(p),
        1 <= d.len() <= p.len(),
        inv.len() == p.len() - d.len() + 1,
        is_series_inverse(inv, flipped(d)),
    ensures
        is_quotient(flipped(poly_product(flipped(p), inv, inv.len())), p, d),
{
    let len = inv.len();
    let n = p.len() as int;
    let a = flipped(p);
    let b = flipped(d);
    let qf = poly_product(a, inv, len);
    let q = flipped(qf);
    let unit = poly_product(inv, b, len);
    assert(flipped(b) =~= d);
    assert(all_fr(q)) by {
        assert forall|i: int| 0 <= i < q.len() implies is_fr(#[trigger] q[i]) by {
            lemma_conv_range_is_fr(a, inv, len - 1 - i, 0, a.len() as int);
        }
    }
    assert forall|j: int| d.len() - 1 <= j < p.len() implies #[trigger] conv_coeff(q, d, j)
        == fr_reduce(p[j] as int) by {
        let k = n - 1 - j;
        lemma_conv_coeff_flipped(qf, b, j);
        lemma_product_associative(a, inv, b, len, k);
        assert forall|t: int| 0 <= t < unit.len() implies #[trigger] unit[t] == (if t == 0 {
            1nat
        } else {
            0nat
        }) by {
            assert(unit[t] == conv_coeff(inv, b, t));
        }
        lemma_conv_coeff_one(a, unit, k);
        assert(a[k] == p[j]);
    }
}

/// The product of polynomials commutes, coefficient by coefficient.
pub proof fn lemma_conv_coeff_commutes(a: Seq<nat>, b: Seq<nat>, k: int)
    requires
        k >= 0,
    ensures
        conv_coeff(a, b, k) == conv_coeff(b, a, k),
{
    lemma_conv_coeff_prefix(a, b, k);
    lemma_conv_coeff_prefix(b, a, k);
    assert forall|i: int| 0 <= i < k + 1 implies #[trigger] conv_term(a, b, k, i) == conv_term(
        b,
        a,
        k,
        k - i,
    ) by {
        if 0 <= i < a.len() && 0 <= k - i < b.len() {
            lemma_fr_mul_comm(a[i], b[k - i]);
        }
    }
    lemma_conv_range_mirror(a, b, k, b, a, k, 0, k + 1, k);
}

/// The square of a polynomial that is one up to `c` coefficients: below
/// `2c`, coefficient `k >= 1` is twice that of the polynomial, and the
/// constant coefficient is one.
pub proof fn lemma_conv_coeff_square(e: Seq<nat>, c: nat, k: int)
    requires
        all_fr(e),
        1 <= c <= e.len() <= 2 * c,
        0 <= k < e.len(),
        forall|t: int|
            0 <= t < c ==> #[trigger] e[t] == (if t == 0 {
                1nat
            } else {
                0nat
            }),
    ensures
        conv_coeff(e, e, k) == if k == 0 {
            1nat
        } else {
            fr_add(e[k], e[k])
        },
{
    let len = e.len() as int;
    lemma_reduce_small(0);
    lemma_reduce_small(1);
    assert(e[0] == 1);
    if k == 0 {
        lemma_conv_range_split(e, e, k, 0, 1, len);
        assert forall|i: int| 1 <= i < len implies conv_term(e, e, k, i) == 0 by {}
        lemma_conv_range_zero(e, e, k, 1, len);
        assert(conv_range(e, e, k, 1, 1) == 0);
        assert(conv_term(e, e, k, 0) == fr_mul(1, 1));
        lemma_fr_mul_one(1);
    } else {
        lemma_conv_range_split(e, e, k, 0, 1, len);
        lemma_conv_range_split(e, e, k, 1, k, len);
        assert(conv_range(e, e, k, 1, 1) == 0);
        assert forall|i: int| 1 <= i < k implies conv_term(e, e, k, i) == 0 by {
            if i < c {
                assert(e[i] == 0);
                lemma_fr_mul_zero(e[k - i]);
            } else {
                assert(e[k - i] == 0);
                lemma_fr_mul_zero(e[i]);
            }
        }
        lemma_conv_range_zero(e, e, k, 1, k);
        assert forall|i: int| k + 1 <= i < len implies conv_term(e, e, k, i) == 0 by {}
        lemma_conv_range_zero(e, e, k, k + 1, len);
        assert(conv_term(e, e, k, 0) == fr_mul(1, e[k]));
        assert(conv_term(e, e, k, k) == fr_mul(e[k], 1));
        lemma_fr_mul_one(e[k]);
        assert(is_fr(e[k]));
        lemma_fr_add_zero(e[k]);
        lemma_conv_range_is_fr(e, e, k, k, len);
        lemma_fr_add_zero(conv_range(e, e, k, k, len));
    }
}

/// One step of Newton's iteration for the series `1 / p`: from `r`, the
/// first `len` coefficients of `2r - p r r`.
pub open spec fn newton_step(p: Seq<nat>, r: Seq<nat>, len: nat) -> Seq<nat> {
    Seq::new(
        len,
        |i: int|
            fr_sub(
                fr_mul(resized(r, len)[i], 2),
                poly_product(poly_product(p, r, len), r, len)[i],
            ),
    )
}

/// `2e + (-1)(e + e) == 0`, and `2 * 1 + (-1) * 1 == 1`.
proof fn lemma_newton_cancel(e: nat)
    ensures
        fr_add(fr_mul(2, e), fr_mul((modulus() - 1) as nat, fr_add(e, e))) == 0,
        fr_add(fr_mul(2, 1), fr_mul((modulus() - 1) as nat, 1)) == 1,
{
    let m1 = (modulus() - 1) as nat;
    let r = modulus() as int;
    let ei = e as int;
    lemma_reduce_small(0);
    lemma_reduce_small(1);
    lemma_mul_c(2, e, 2, ei);
    lemma_add_c(e, e, ei, ei);
    lemma_mul_c(m1, fr_add(e, e), r - 1, ei + ei);
    lemma_add_c(fr_mul(2, e), fr_mul(m1, fr_add(e, e)), 2 * ei, (r - 1) * (ei + ei));
    assert(2 * ei + (r - 1) * (ei + ei) == 0 + (2 * ei) * r) by (nonlinear_arith);
    lemma_cong_eq(
        fr_add(fr_mul(2, e), fr_mul(m1, fr_add(e, e))),
        0,
        2 * ei + (r - 1) * (ei + ei),
        0,
        2 * ei,
    );
    let one = 1int;
    lemma_mul_c(2, 1, 2, one);
    lemma_mul_c(m1, 1, r - 1, one);
    lemma_add_c(fr_mul(2, 1), fr_mul(m1, 1), 2 * one, (r - 1) * one);
    assert(2 * one + (r - 1) * one == 1 + 1 * r) by (nonlinear_arith)
        requires
            one == 1,
    ;
    lemma_cong_eq(fr_add(fr_mul(2, 1), fr_mul(m1, 1)), 1, 2 * one + (r - 1) * one, 1, 1);
}

/// `x * 2 - t == 2 * x + (-1) * t`.
proof fn lemma_newton_entry(x: nat, t: nat)
    ensures
        fr_sub(fr_mul(x, 2), t) == fr_add(fr_mul(2, x), fr_mul((modulus() - 1) as nat, t)),
{
    let m1 = (modulus() - 1) as nat;
    let r = modulus() as int;
    let xi = x as int;
    let ti = t as int;
    lemma_mul_c(x, 2, xi, 2);
    lemma_sub_c(fr_mul(x, 2), t, xi * 2, ti);
    lemma_mul_c(2, x, 2, xi);
    lemma_mul_c(m1, t, r - 1, ti);
    lemma_add_c(fr_mul(2, x), fr_mul(m1, t), 2 * xi, (r - 1) * ti);
    assert(2 * xi + (r - 1) * ti == (xi * 2 - ti) + ti * r) by (nonlinear_arith);
    lemma_cong_eq(
        fr_add(fr_mul(2, x), fr_mul(m1, t)),
        fr_sub(fr_mul(x, 2), t),
        2 * xi + (r - 1) * ti,
        xi * 2 - ti,
        ti,
    );
}

/// Newton's iteration doubles the precision: where `r` holds the first `c`
/// coefficients of the series `1 / p`, one step to a length of at most `2c`
/// holds the first coefficients of the series to that length.
pub proof fn lemma_newton_step(p: Seq<nat>, r: Seq<nat>, len: nat)
    requires
        is_series_inverse(r, p),
        1 <= r.len() < len <= 2 * r.len(),
    ensures
        is_series_inverse(newton_step(p, r, len), p),
{
    let c = r.len();
    let m1 = (modulus() - 1) as nat;
    let next = newton_step(p, r, len);
    let rp = resized(r, len);
    let t0 = poly_product(p, r, len);
    let t1 = poly_product(t0, r, len);
    let e = poly_product(r, p, len);
    let two_r = poly_times(2, rp);
    let minus = poly_times(m1, t1);
    assert forall|i: int| 0 <= i < len implies #[trigger] next[i] == poly_sum(two_r, minus)[i] by {
        lemma_newton_entry(rp[i], t1[i]);
    }
    assert(next =~= poly_sum(two_r, minus));
    assert forall|t: int| 0 <= t < len implies #[trigger] t0[t] == e[t] by {
        lemma_conv_coeff_commutes(p, r, t);
    }
    assert(t0 =~= e);
    assert(all_fr(e)) by {
        assert forall|t: int| 0 <= t < e.len() implies is_fr(#[trigger] e[t]) by {
            lemma_conv_range_is_fr(r, p, t, 0, r.len() as int);
        }
    }
    assert forall|t: int| 0 <= t < c implies #[trigger] e[t] == (if t == 0 {
        1nat
    } else {
        0nat
    }) by {
        assert(e[t] == conv_coeff(r, p, t));
    }
    assert forall|k: int| 0 <= k < len implies #[trigger] conv_coeff(next, p, k) == (if k == 0 {
        1nat
    } else {
        0nat
    }) by {
        lemma_conv_range_sum(two_r, minus, p, k, 0, len as int);
        lemma_conv_range_times(2, rp, p, k, 0, len as int);
        lemma_conv_range_times(m1, t1, p, k, 0, len as int);
        lemma_conv_coeff_resized(r, p, k, len);
        lemma_product_associative(t0, r, p, len, k);
        lemma_conv_coeff_square(e, c, k);
        assert(conv_coeff(r, p, k) == e[k]);
        lemma_newton_cancel(e[k]);
    }
    assert(all_fr(next)) by {
        assert forall|i: int| 0 <= i < next.len() implies is_fr(#[trigger] next[i]) by {
            lemma_ops_are_fr(fr_mul(rp[i], 2), t1[i]);
        }
    }
}

/// The inverse of the constant coefficient is the series `1 / p` to one
/// coefficient.
pub proof fn lemma_newton_start(p: Seq<nat>, inv: nat)
    requires
        p.len() >= 1,
        is_fr(inv),
        fr_mul(p[0], inv) == 1,
    ensures
        is_series_inverse(seq![inv], p),
{
    let r = seq![inv];
    assert(conv_range(r, p, 0, 1, 1) == 0);
    assert(conv_term(r, p, 0, 0) == fr_mul(inv, p[0]));
    lemma_fr_mul_comm(inv, p[0]);
    lemma_reduce_small(1);
    assert(conv_coeff(r, p, 0) == 1);
}

} // verus!
