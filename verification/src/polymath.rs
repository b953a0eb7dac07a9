//! Polynomials over the scalar field as sequences of residues, constant term
//! first: evaluation, products, quotients, and what the library proves of them.
use crate::field::{
    fr_add, fr_inv, fr_mul, fr_neg, fr_pow, fr_reduce, fr_sub, invertible, is_fr, lemma_add_c,
    lemma_cong_add, lemma_cong_eq, lemma_cong_sub, lemma_fr_add_assoc, lemma_fr_add_cong,
    lemma_fr_add_zero, lemma_fr_mul_assoc, lemma_fr_mul_comm, lemma_fr_mul_one, lemma_fr_mul_zero,
    lemma_fr_pow_succ, lemma_fr_pow_zero, lemma_fr_sub_cong, lemma_mul_c, lemma_neg_c,
    lemma_ops_are_fr, lemma_reduce_cong, lemma_reduce_small, lemma_sub_c, modulus,
};
use vstd::prelude::*;

verus! {

/// Every coefficient is a canonical residue.
pub open spec fn all_fr(p: Seq<nat>) -> bool {
    forall|i: int| 0 <= i < p.len() ==> is_fr(#[trigger] p[i])
}

/// The value of the polynomial at `x`: `p[0] + x * (p[1] + x * (p[2] + ...))`.
/// The empty polynomial is zero everywhere.
pub open spec fn poly_eval(p: Seq<nat>, x: nat) -> nat
    decreases p.len(),
{
    if p.len() == 0 {
        0
    } else {
        fr_add(p[0], fr_mul(x, poly_eval(p.skip(1), x)))
    }
}

/// The coefficient-wise sum of two polynomials of one length.
pub open spec fn poly_sum(p: Seq<nat>, q: Seq<nat>) -> Seq<nat> {
    Seq::new(p.len(), |i: int| fr_add(p[i], q[i]))
}

/// Coefficient `i` multiplied by the `i`-th power of `factor`.
pub open spec fn poly_scaled(p: Seq<nat>, factor: nat) -> Seq<nat> {
    Seq::new(p.len(), |i: int| fr_mul(p[i], fr_pow(factor, i as nat)))
}

/// The term that index `i` of `a` gives to coefficient `k` of the product
/// of `a` and `b`.
pub open spec fn conv_term(a: Seq<nat>, b: Seq<nat>, k: int, i: int) -> nat {
    if 0 <= i < a.len() && 0 <= k - i < b.len() {
        fr_mul(a[i], b[k - i])
    } else {
        0
    }
}

/// The sum of the terms of indices `lo <= i < hi` of `a` to coefficient `k`
/// of the product of `a` and `b`.
pub open spec fn conv_range(a: Seq<nat>, b: Seq<nat>, k: int, lo: int, hi: int) -> nat
    decreases hi - lo,
{
    if lo >= hi {
        0
    } else {
        fr_add(conv_term(a, b, k, lo), conv_range(a, b, k, lo + 1, hi))
    }
}

/// Coefficient `k` of the product of `a` and `b`: the sum of `a[i] * b[j]`
/// over `i + j == k`.
pub open spec fn conv_coeff(a: Seq<nat>, b: Seq<nat>, k: int) -> nat {
    conv_range(a, b, k, 0, a.len() as int)
}

/// The first `len` coefficients of the product of `a` and `b`.
pub open spec fn poly_product(a: Seq<nat>, b: Seq<nat>, len: nat) -> Seq<nat> {
    Seq::new(len, |k: int| conv_coeff(a, b, k))
}

/// `q` is the quotient of `p` by `d`: it has the length of a quotient, and
/// the product `q * d` agrees with `p` in every coefficient from the degree
/// of `d` up, so that what is left of `p` has a lower degree than `d`.
pub open spec fn is_quotient(q: Seq<nat>, p: Seq<nat>, d: Seq<nat>) -> bool {
    &&& d.len() >= 1
    &&& p.len() >= d.len()
    &&& q.len() == p.len() - d.len() + 1
    &&& all_fr(q)
    &&& forall|j: int|
        d.len() - 1 <= j < p.len() ==> #[trigger] conv_coeff(q, d, j) == fr_reduce(p[j] as int)
}

/// `r` holds the first coefficients of the power series `1 / p`: the product
/// `r * p` is `1` up to the length of `r`.
pub open spec fn is_series_inverse(r: Seq<nat>, p: Seq<nat>) -> bool {
    &&& all_fr(r)
    &&& forall|k: int|
        0 <= k < r.len() ==> #[trigger] conv_coeff(r, p, k) == (if k == 0 {
            1nat
        } else {
            0nat
        })
}

/// A sum of terms of a product is a canonical residue.
pub proof fn lemma_conv_range_is_fr(a: Seq<nat>, b: Seq<nat>, k: int, lo: int, hi: int)
    ensures
        is_fr(conv_range(a, b, k, lo, hi)),
    decreases hi - lo,
{
    if lo < hi {
        lemma_ops_are_fr(conv_term(a, b, k, lo), conv_range(a, b, k, lo + 1, hi));
    }
}

/// A range of terms depends only on the coefficients of `a` inside it.
pub proof fn lemma_conv_range_frame(a: Seq<nat>, a2: Seq<nat>, b: Seq<nat>, k: int, lo: int, hi: int)
    requires
        a.len() == a2.len(),
        forall|i: int| lo <= i < hi && 0 <= i < a.len() ==> a[i] == a2[i],
    ensures
        conv_range(a, b, k, lo, hi) == conv_range(a2, b, k, lo, hi),
    decreases hi - lo,
{
    if lo < hi {
        lemma_conv_range_frame(a, a2, b, k, lo + 1, hi);
    }
}

/// A range in which no index meets `b` sums to zero.
pub proof fn lemma_conv_range_zero(a: Seq<nat>, b: Seq<nat>, k: int, lo: int, hi: int)
    requires
        forall|i: int| lo <= i < hi ==> conv_term(a, b, k, i) == 0,
    ensures
        conv_range(a, b, k, lo, hi) == 0,
    decreases hi - lo,
{
    if lo < hi {
        lemma_conv_range_zero(a, b, k, lo + 1, hi);
        lemma_reduce_small(0);
    }
}

/// A range taken in two parts.
pub proof fn lemma_conv_range_split(a: Seq<nat>, b: Seq<nat>, k: int, lo: int, mid: int, hi: int)
    requires
        lo <= mid <= hi,
    ensures
        conv_range(a, b, k, lo, hi) == fr_add(
            conv_range(a, b, k, lo, mid),
            conv_range(a, b, k, mid, hi),
        ),
    decreases mid - lo,
{
    lemma_conv_range_is_fr(a, b, k, mid, hi);
    if lo == mid {
        lemma_fr_add_zero(conv_range(a, b, k, mid, hi));
    } else {
        lemma_conv_range_split(a, b, k, lo + 1, mid, hi);
        lemma_fr_add_assoc(
            conv_term(a, b, k, lo),
            conv_range(a, b, k, lo + 1, mid),
            conv_range(a, b, k, mid, hi),
        );
    }
}

/// The value of a polynomial is a canonical residue.
pub proof fn lemma_poly_eval_is_fr(p: Seq<nat>, x: nat)
    ensures
        is_fr(poly_eval(p, x)),
{
    if p.len() > 0 {
        lemma_ops_are_fr(p[0], fr_mul(x, poly_eval(p.skip(1), x)));
    } else {
    }
}

/// `fr_sub(fr_sub(p, c), t) == fr_sub(p, fr_add(t, c))`.
pub proof fn lemma_fr_sub_sub(p: nat, c: nat, t: nat)
    ensures
        fr_sub(fr_sub(p, c), t) == fr_sub(p, fr_add(t, c)),
{
    lemma_fr_sub_cong(p, c);
    lemma_fr_add_cong(t, c);
    lemma_cong_sub(fr_sub(p, c) as int, p - c, t as int, t as int);
    lemma_cong_sub(p as int, p as int, fr_add(t, c) as int, t as int + c as int);
}

/// `fr_add(t, fr_sub(p, t)) == p` for a canonical `p`.
pub proof fn lemma_fr_add_sub_cancel(p: nat, t: nat)
    ensures
        fr_add(t, fr_sub(p, t)) == fr_reduce(p as int),
{
    lemma_fr_sub_cong(p, t);
    lemma_cong_add(t as int, t as int, fr_sub(p, t) as int, p - t);
}

/// The coefficients of even index.
pub open spec fn evens(p: Seq<nat>) -> Seq<nat> {
    Seq::new(((p.len() + 1) / 2) as nat, |j: int| p[2 * j])
}

/// The coefficients of odd index.
pub open spec fn odds(p: Seq<nat>) -> Seq<nat> {
    Seq::new((p.len() / 2) as nat, |j: int| p[2 * j + 1])
}

/// The `n` entries of `data` from `offset` on, `stride` apart.
pub open spec fn strided(data: Seq<nat>, offset: int, stride: int, n: nat) -> Seq<nat> {
    Seq::new(n, |j: int| data[offset + j * stride])
}

/// The values of the polynomial `a` at the powers `w^0, ..., w^(n-1)`, with
/// `n` the length of `a`: the discrete Fourier transform of `a`.
pub open spec fn dft(a: Seq<nat>, w: nat) -> Seq<nat> {
    Seq::new(a.len(), |k: int| poly_eval(a, fr_pow(w, k as nat)))
}

/// The inverse transform: the values of `a` at the powers of the inverse of
/// `w`, each divided by the length.
pub open spec fn idft(a: Seq<nat>, w: nat) -> Seq<nat> {
    Seq::new(
        a.len(),
        |k: int| fr_mul(poly_eval(a, fr_pow(fr_inv(w), k as nat)), fr_inv(a.len())),
    )
}

/// A polynomial is its even part at the square plus `x` times its odd part
/// at the square.
pub proof fn lemma_eval_even_odd(p: Seq<nat>, x: nat)
    ensures
        poly_eval(p, x) == fr_add(
            poly_eval(evens(p), fr_mul(x, x)),
            fr_mul(x, poly_eval(odds(p), fr_mul(x, x))),
        ),
    decreases p.len(),
{
    let x2 = fr_mul(x, x);
    lemma_reduce_small(0);
    lemma_fr_mul_zero(x);
    lemma_fr_mul_zero(x2);
    if p.len() == 0 {
        assert(evens(p).len() == 0);
        assert(odds(p).len() == 0);
    } else if p.len() == 1 {
        assert(odds(p).len() == 0);
        assert(evens(p).len() == 1);
        assert(evens(p).skip(1).len() == 0);
        assert(p.skip(1).len() == 0);
        assert(poly_eval(p.skip(1), x) == 0);
        assert(poly_eval(evens(p).skip(1), x2) == 0);
        assert(evens(p)[0] == p[0]);
        lemma_fr_add_zero(p[0]);
        lemma_fr_add_zero(fr_add(p[0], 0));
        lemma_ops_are_fr(p[0], 0);
    } else {
        let p1 = p.skip(1);
        let p2 = p.skip(2);
        assert(p1.skip(1) =~= p2);
        lemma_eval_even_odd(p2, x);
        assert(evens(p).skip(1) =~= evens(p2));
        assert(odds(p).skip(1) =~= odds(p2));
        let e2 = poly_eval(evens(p2), x2);
        let o2 = poly_eval(odds(p2), x2);
        let a0 = p[0];
        let a1 = p[1];
        assert(evens(p)[0] == a0);
        assert(odds(p)[0] == a1);
        assert(p1[0] == a1);
        let xi = x as int;
        let ei = e2 as int;
        let oi = o2 as int;
        // left side
        lemma_mul_c(x, o2, xi, oi);
        lemma_add_c(e2, fr_mul(x, o2), ei, xi * oi);
        let v2 = poly_eval(p2, x);
        lemma_mul_c(x, v2, xi, ei + xi * oi);
        lemma_add_c(a1, fr_mul(x, v2), a1 as int, xi * (ei + xi * oi));
        let v1 = poly_eval(p1, x);
        lemma_mul_c(x, v1, xi, a1 + xi * (ei + xi * oi));
        lemma_add_c(a0, fr_mul(x, v1), a0 as int, xi * (a1 + xi * (ei + xi * oi)));
        // right side
        lemma_mul_c(x, x, xi, xi);
        lemma_mul_c(x2, e2, xi * xi, ei);
        lemma_add_c(a0, fr_mul(x2, e2), a0 as int, (xi * xi) * ei);
        lemma_mul_c(x2, o2, xi * xi, oi);
        lemma_add_c(a1, fr_mul(x2, o2), a1 as int, (xi * xi) * oi);
        let ev = poly_eval(evens(p), x2);
        let od = poly_eval(odds(p), x2);
        lemma_mul_c(x, od, xi, a1 + (xi * xi) * oi);
        lemma_add_c(ev, fr_mul(x, od), a0 + (xi * xi) * ei, xi * (a1 + (xi * xi) * oi));
        let li = a0 + xi * (a1 + xi * (ei + xi * oi));
        let ri = (a0 + (xi * xi) * ei) + xi * (a1 + (xi * xi) * oi);
        assert(li == ri + 0 * modulus()) by (nonlinear_arith)
            requires
                li == a0 + xi * (a1 + xi * (ei + xi * oi)),
                ri == (a0 + (xi * xi) * ei) + xi * (a1 + (xi * xi) * oi),
        ;
        lemma_cong_eq(poly_eval(p, x), fr_add(ev, fr_mul(x, od)), li, ri, 0);
    }
}

/// The two halves of one step of the fast transform: from the values `e` and
/// `o` of the even and the odd part at `x^2`, the values of the polynomial at
/// `x` and at `-x`.
pub proof fn lemma_butterfly(p: Seq<nat>, x: nat, e: nat, o: nat)
    requires
        e == poly_eval(evens(p), fr_mul(x, x)),
        o == poly_eval(odds(p), fr_mul(x, x)),
    ensures
        poly_eval(p, x) == fr_add(e, fr_mul(o, x)),
        poly_eval(p, fr_mul(x, (modulus() - 1) as nat)) == fr_sub(e, fr_mul(o, x)),
{
    let m1 = (modulus() - 1) as nat;
    let xm = fr_mul(x, m1);
    let x2 = fr_mul(x, x);
    let xi = x as int;
    let r = modulus() as int;
    lemma_eval_even_odd(p, x);
    lemma_fr_mul_comm(x, o);
    lemma_eval_even_odd(p, xm);
    // the square of -x is the square of x
    lemma_mul_c(x, m1, xi, r - 1);
    lemma_mul_c(xm, xm, xi * (r - 1), xi * (r - 1));
    lemma_mul_c(x, x, xi, xi);
    assert((xi * (r - 1)) * (xi * (r - 1)) == xi * xi + (xi * xi * (r - 2)) * r)
        by (nonlinear_arith);
    lemma_cong_eq(fr_mul(xm, xm), x2, (xi * (r - 1)) * (xi * (r - 1)), xi * xi, xi * xi * (r - 2));
    // e + (-x) o == e - o x
    let ei = e as int;
    let oi = o as int;
    lemma_mul_c(xm, o, xi * (r - 1), oi);
    lemma_add_c(e, fr_mul(xm, o), ei, (xi * (r - 1)) * oi);
    lemma_mul_c(o, x, oi, xi);
    lemma_sub_c(e, fr_mul(o, x), ei, oi * xi);
    assert(ei + (xi * (r - 1)) * oi == (ei - oi * xi) + (xi * oi) * r) by (nonlinear_arith);
    lemma_cong_eq(
        fr_add(e, fr_mul(xm, o)),
        fr_sub(e, fr_mul(o, x)),
        ei + (xi * (r - 1)) * oi,
        ei - oi * xi,
        xi * oi,
    );
}

/// Unfolds the value of a polynomial from coefficient `i` on.
pub proof fn lemma_eval_skip(p: Seq<nat>, x: nat, i: int)
    requires
        0 <= i < p.len(),
    ensures
        poly_eval(p.skip(i), x) == fr_add(p[i], fr_mul(x, poly_eval(p.skip(i + 1), x))),
{
    let s = p.skip(i);
    assert(s.skip(1) =~= p.skip(i + 1));
    assert(s[0] == p[i]);
}

/// One step of synthetic division: `a - b * (-x) == a + x * b`.
pub proof fn lemma_synthetic_step(a: nat, b: nat, x: nat)
    ensures
        fr_sub(a, fr_mul(b, fr_neg(x))) == fr_add(a, fr_mul(x, b)),
{
    let ai = a as int;
    let bi = b as int;
    let xi = x as int;
    lemma_neg_c(x, xi);
    lemma_mul_c(b, fr_neg(x), bi, -xi);
    lemma_sub_c(a, fr_mul(b, fr_neg(x)), ai, bi * (-xi));
    lemma_mul_c(x, b, xi, bi);
    lemma_add_c(a, fr_mul(x, b), ai, xi * bi);
    assert(ai - bi * (-xi) == ai + xi * bi + 0 * modulus()) by (nonlinear_arith);
    lemma_cong_eq(
        fr_sub(a, fr_mul(b, fr_neg(x))),
        fr_add(a, fr_mul(x, b)),
        ai - bi * (-xi),
        ai + xi * bi,
        0,
    );
}

/// The value of a polynomial with one more coefficient at the top.
pub proof fn lemma_eval_push(t: Seq<nat>, a: nat, s: nat)
    ensures
        poly_eval(t.push(a), s) == fr_add(poly_eval(t, s), fr_mul(fr_pow(s, t.len()), a)),
    decreases t.len(),
{
    let ta = t.push(a);
    lemma_reduce_small(0);
    if t.len() == 0 {
        assert(ta.skip(1).len() == 0);
        assert(ta[0] == a);
        assert(poly_eval(ta.skip(1), s) == 0);
        assert(poly_eval(t, s) == 0);
        assert(poly_eval(ta, s) == fr_add(a, fr_mul(s, 0)));
        lemma_fr_mul_zero(s);
        lemma_fr_pow_zero(s);
        lemma_fr_add_zero(a);
        lemma_fr_mul_one(a);
        lemma_fr_add_zero(fr_mul(1, a));
        lemma_reduce_cong(a as int);
    } else {
        let t1 = t.skip(1);
        assert(ta.skip(1) =~= t1.push(a));
        assert(ta[0] == t[0]);
        lemma_eval_push(t1, a, s);
        let n1 = t1.len();
        lemma_fr_pow_succ(s, n1);
        let t0 = t[0] as int;
        let si = s as int;
        let e1 = poly_eval(t1, s);
        let pw = fr_pow(s, n1);
        let ai = a as int;
        // left: t0 + s * (e1 + pw * a)
        lemma_mul_c(pw, a, pw as int, ai);
        lemma_add_c(e1, fr_mul(pw, a), e1 as int, pw * ai);
        lemma_mul_c(s, poly_eval(t1.push(a), s), si, e1 + pw * ai);
        lemma_add_c(t[0], fr_mul(s, poly_eval(t1.push(a), s)), t0, si * (e1 + pw * ai));
        // right: (t0 + s * e1) + (s * pw) * a
        lemma_mul_c(s, e1, si, e1 as int);
        lemma_add_c(t[0], fr_mul(s, e1), t0, si * e1);
        lemma_mul_c(s, pw, si, pw as int);
        lemma_mul_c(fr_pow(s, t.len()), a, si * pw, ai);
        lemma_add_c(poly_eval(t, s), fr_mul(fr_pow(s, t.len()), a), t0 + si * e1, (si * pw) * ai);
        assert(t0 + si * (e1 + pw * ai) == (t0 + si * e1) + (si * pw) * ai + 0 * modulus())
            by (nonlinear_arith);
        lemma_cong_eq(
            poly_eval(ta, s),
            fr_add(poly_eval(t, s), fr_mul(fr_pow(s, t.len()), a)),
            t0 + si * (e1 + pw * ai),
            (t0 + si * e1) + (si * pw) * ai,
            0,
        );
    }
}

/// Subtraction from one residue is injective on canonical residues.
pub proof fn lemma_fr_sub_injective(c: nat, a: nat, b: nat)
    requires
        is_fr(a),
        is_fr(b),
        fr_sub(c, a) == fr_sub(c, b),
    ensures
        a == b,
{
    let ci = c as int;
    lemma_sub_c(c, a, ci, a as int);
    lemma_sub_c(c, b, ci, b as int);
    lemma_cong_sub(ci, ci, ci - a, ci - b);
    assert(ci - (ci - a) == a);
    assert(ci - (ci - b) == b);
    lemma_reduce_small(a as int);
    lemma_reduce_small(b as int);
}

/// Addition of one residue is injective on canonical residues.
pub proof fn lemma_fr_add_cancel(a: nat, b: nat, t: nat)
    requires
        is_fr(a),
        is_fr(b),
        fr_add(a, t) == fr_add(b, t),
    ensures
        a == b,
{
    let ti = t as int;
    lemma_add_c(a, t, a as int, ti);
    lemma_add_c(b, t, b as int, ti);
    lemma_cong_sub(a + ti, b + ti, ti, ti);
    assert(a + ti - ti == a);
    assert(b + ti - ti == b);
    lemma_reduce_small(a as int);
    lemma_reduce_small(b as int);
}

/// Multiplication by a residue that has an inverse is injective on
/// canonical residues.
pub proof fn lemma_fr_mul_cancel(a: nat, b: nat, c: nat)
    requires
        is_fr(a),
        is_fr(b),
        invertible(c),
        fr_mul(a, c) == fr_mul(b, c),
    ensures
        a == b,
{
    let ci = fr_inv(c);
    lemma_fr_mul_assoc(a, c, ci);
    lemma_fr_mul_assoc(b, c, ci);
    lemma_fr_mul_one(a);
    lemma_fr_mul_one(b);
}

/// Two quotients of one division agree from coefficient `k` up.
pub proof fn lemma_quotient_agree(q1: Seq<nat>, q2: Seq<nat>, p: Seq<nat>, d: Seq<nat>, k: nat)
    requires
        is_quotient(q1, p, d),
        is_quotient(q2, p, d),
        invertible(d.last()),
    ensures
        forall|i: int| k <= i < q1.len() ==> q1[i] == q2[i],
    decreases q1.len() - k,
{
    let qlen = q1.len() as int;
    if k < qlen {
        lemma_quotient_agree(q1, q2, p, d, k + 1);
        let m = d.len() - 1;
        let j = k + m;
        let ki = k as int;
        assert(conv_coeff(q1, d, j) == fr_reduce(p[j] as int));
        assert(conv_coeff(q2, d, j) == fr_reduce(p[j] as int));
        lemma_conv_range_split(q1, d, j, 0, ki, qlen);
        lemma_conv_range_split(q2, d, j, 0, ki, qlen);
        assert forall|i: int| 0 <= i < ki implies conv_term(q1, d, j, i) == 0 by {}
        assert forall|i: int| 0 <= i < ki implies conv_term(q2, d, j, i) == 0 by {}
        lemma_conv_range_zero(q1, d, j, 0, ki);
        lemma_conv_range_zero(q2, d, j, 0, ki);
        lemma_conv_range_frame(q1, q2, d, j, ki + 1, qlen);
        let t = conv_range(q1, d, j, ki + 1, qlen);
        let a = fr_mul(q1[ki], d[m]);
        let b = fr_mul(q2[ki], d[m]);
        assert(conv_term(q1, d, j, ki) == a);
        assert(conv_term(q2, d, j, ki) == b);
        lemma_conv_range_is_fr(q1, d, j, ki, qlen);
        lemma_conv_range_is_fr(q2, d, j, ki, qlen);
        lemma_fr_add_zero(conv_range(q1, d, j, ki, qlen));
        lemma_fr_add_zero(conv_range(q2, d, j, ki, qlen));
        lemma_ops_are_fr(q1[ki], d[m]);
        lemma_ops_are_fr(q2[ki], d[m]);
        lemma_fr_add_cancel(a, b, t);
        assert(d.last() == d[m]);
        lemma_fr_mul_cancel(q1[ki], q2[ki], d[m]);
    }
}

/// The quotient of a division is unique: whatever computes a quotient of `p`
/// by `d`, by long division or through the transform, computes the same.
pub proof fn lemma_quotient_unique(q1: Seq<nat>, q2: Seq<nat>, p: Seq<nat>, d: Seq<nat>)
    requires
        is_quotient(q1, p, d),
        is_quotient(q2, p, d),
        invertible(d.last()),
    ensures
        q1 == q2,
{
    lemma_quotient_agree(q1, q2, p, d, 0);
    assert(q1 =~= q2);
}

/// The quotient of `p` by `d`.
pub open spec fn quotient_of(p: Seq<nat>, d: Seq<nat>) -> Seq<nat> {
    choose|q: Seq<nat>| is_quotient(q, p, d)
}

} // verus!
