//! What the Fourier transform over a root of unity of a power-of-two order
//! does to a polynomial, and why the inverse transform undoes it.
use crate::fft::is_power_of_two;
use crate::field::{
    cong, fr_add, fr_inv, fr_mul, fr_pow, fr_sub, invertible, is_fr, is_inverse_of, lemma_add_c,
    lemma_cong_add, lemma_cong_eq, lemma_cong_mul, lemma_fr_add_zero, lemma_fr_inv_is,
    lemma_fr_mul_assoc, lemma_fr_mul_comm, lemma_fr_mul_one, lemma_fr_mul_zero, lemma_fr_pow_add,
    lemma_fr_pow_cong, lemma_fr_pow_mul, lemma_fr_pow_of_mul, lemma_fr_pow_of_one,
    lemma_fr_pow_one, lemma_fr_pow_succ, lemma_fr_pow_zero, lemma_inverse_unique, lemma_mul_c,
    lemma_ops_are_fr, lemma_reduce_cong, lemma_reduce_small, lemma_sub_c, modulus,
};
use crate::polymath::{
    all_fr, dft, evens, idft, lemma_eval_even_odd, lemma_eval_push, lemma_poly_eval_is_fr, odds,
    poly_eval, poly_scaled, poly_sum,
};
use crate::convolution::{lemma_eval_pad, lemma_eval_product, lemma_product_is_fr, poly_zero};
use crate::polymath::poly_product;
use vstd::prelude::*;

verus! {

/// The coefficient-wise difference of two polynomials of one length.
pub open spec fn poly_diff(p: Seq<nat>, q: Seq<nat>) -> Seq<nat> {
    Seq::new(p.len(), |i: int| fr_sub(p[i], q[i]))
}

/// `w` is a root of unity fit for a transform of length `n`: `n` is a power
/// of two, the `n`-th power of `w` is one, and for `n >= 2` the power half
/// way is minus one.
pub open spec fn is_dft_root(w: nat, n: nat) -> bool {
    &&& is_power_of_two(n)
    &&& is_fr(w)
    &&& fr_pow(w, n) == 1
    &&& (n >= 2 ==> fr_pow(w, n / 2) == modulus() - 1)
}

/// The value of two polynomials written one after the other.
pub proof fn lemma_eval_concat(lo: Seq<nat>, hi: Seq<nat>, z: nat)
    ensures
        poly_eval(lo + hi, z) == fr_add(
            poly_eval(lo, z),
            fr_mul(fr_pow(z, lo.len()), poly_eval(hi, z)),
        ),
    decreases hi.len(),
{
    lemma_reduce_small(0);
    lemma_poly_eval_is_fr(lo, z);
    if hi.len() == 0 {
        assert(lo + hi =~= lo);
        lemma_fr_mul_zero(fr_pow(z, lo.len()));
        lemma_fr_add_zero(poly_eval(lo, z));
    } else {
        let h1 = hi.drop_last();
        let a = hi.last();
        assert(hi =~= h1.push(a));
        assert(lo + hi =~= (lo + h1).push(a));
        lemma_eval_concat(lo, h1, z);
        lemma_eval_push(lo + h1, a, z);
        lemma_eval_push(h1, a, z);
        lemma_fr_pow_add(z, lo.len(), h1.len());
        let l = poly_eval(lo, z);
        let e = poly_eval(h1, z);
        let pl = fr_pow(z, lo.len());
        let ph = fr_pow(z, h1.len());
        let li = l as int;
        let ei = e as int;
        let pli = pl as int;
        let phi = ph as int;
        let ai = a as int;
        // left: (l + pl * e) + (pl * ph) * a
        lemma_mul_c(pl, e, pli, ei);
        lemma_add_c(l, fr_mul(pl, e), li, pli * ei);
        lemma_mul_c(pl, ph, pli, phi);
        lemma_mul_c(fr_pow(z, (lo + h1).len()), a, pli * phi, ai);
        lemma_add_c(
            poly_eval(lo + h1, z),
            fr_mul(fr_pow(z, (lo + h1).len()), a),
            li + pli * ei,
            (pli * phi) * ai,
        );
        // right: l + pl * (e + ph * a)
        lemma_mul_c(ph, a, phi, ai);
        lemma_add_c(e, fr_mul(ph, a), ei, phi * ai);
        lemma_mul_c(pl, poly_eval(hi, z), pli, ei + phi * ai);
        lemma_add_c(l, fr_mul(pl, poly_eval(hi, z)), li, pli * (ei + phi * ai));
        assert((li + pli * ei) + (pli * phi) * ai == li + pli * (ei + phi * ai) + 0 * modulus())
            by (nonlinear_arith);
        lemma_cong_eq(
            poly_eval(lo + hi, z),
            fr_add(l, fr_mul(pl, poly_eval(hi, z))),
            (li + pli * ei) + (pli * phi) * ai,
            li + pli * (ei + phi * ai),
            0,
        );
    }
}

/// The value of a sum of polynomials is the sum of their values.
pub proof fn lemma_eval_sum(p: Seq<nat>, q: Seq<nat>, z: nat)
    requires
        p.len() == q.len(),
    ensures
        poly_eval(poly_sum(p, q), z) == fr_add(poly_eval(p, z), poly_eval(q, z)),
    decreases p.len(),
{
    lemma_reduce_small(0);
    let s = poly_sum(p, q);
    if p.len() == 0 {
    } else {
        let p1 = p.skip(1);
        let q1 = q.skip(1);
        assert(s.skip(1) =~= poly_sum(p1, q1));
        lemma_eval_sum(p1, q1, z);
        let a = p[0] as int;
        let b = q[0] as int;
        let zi = z as int;
        let x = poly_eval(p1, z);
        let y = poly_eval(q1, z);
        let xi = x as int;
        let yi = y as int;
        lemma_add_c(p[0], q[0], a, b);
        lemma_add_c(x, y, xi, yi);
        lemma_mul_c(z, poly_eval(s.skip(1), z), zi, xi + yi);
        lemma_add_c(s[0], fr_mul(z, poly_eval(s.skip(1), z)), a + b, zi * (xi + yi));
        lemma_mul_c(z, x, zi, xi);
        lemma_mul_c(z, y, zi, yi);
        lemma_add_c(p[0], fr_mul(z, x), a, zi * xi);
        lemma_add_c(q[0], fr_mul(z, y), b, zi * yi);
        lemma_add_c(poly_eval(p, z), poly_eval(q, z), a + zi * xi, b + zi * yi);
        assert((a + b) + zi * (xi + yi) == (a + zi * xi) + (b + zi * yi) + 0 * modulus())
            by (nonlinear_arith);
        lemma_cong_eq(
            poly_eval(s, z),
            fr_add(poly_eval(p, z), poly_eval(q, z)),
            (a + b) + zi * (xi + yi),
            (a + zi * xi) + (b + zi * yi),
            0,
        );
    }
}

/// The value of a difference of polynomials is the difference of their values.
pub proof fn lemma_eval_diff(p: Seq<nat>, q: Seq<nat>, z: nat)
    requires
        p.len() == q.len(),
    ensures
        poly_eval(poly_diff(p, q), z) == fr_sub(poly_eval(p, z), poly_eval(q, z)),
    decreases p.len(),
{
    lemma_reduce_small(0);
    let s = poly_diff(p, q);
    if p.len() == 0 {
    } else {
        let p1 = p.skip(1);
        let q1 = q.skip(1);
        assert(s.skip(1) =~= poly_diff(p1, q1));
        lemma_eval_diff(p1, q1, z);
        let a = p[0] as int;
        let b = q[0] as int;
        let zi = z as int;
        let x = poly_eval(p1, z);
        let y = poly_eval(q1, z);
        let xi = x as int;
        let yi = y as int;
        lemma_sub_c(p[0], q[0], a, b);
        lemma_sub_c(x, y, xi, yi);
        lemma_mul_c(z, poly_eval(s.skip(1), z), zi, xi - yi);
        lemma_add_c(s[0], fr_mul(z, poly_eval(s.skip(1), z)), a - b, zi * (xi - yi));
        lemma_mul_c(z, x, zi, xi);
        lemma_mul_c(z, y, zi, yi);
        lemma_add_c(p[0], fr_mul(z, x), a, zi * xi);
        lemma_add_c(q[0], fr_mul(z, y), b, zi * yi);
        lemma_sub_c(poly_eval(p, z), poly_eval(q, z), a + zi * xi, b + zi * yi);
        assert((a - b) + zi * (xi - yi) == (a + zi * xi) - (b + zi * yi) + 0 * modulus())
            by (nonlinear_arith);
        lemma_cong_eq(
            poly_eval(s, z),
            fr_sub(poly_eval(p, z), poly_eval(q, z)),
            (a - b) + zi * (xi - yi),
            (a + zi * xi) - (b + zi * yi),
            0,
        );
    }
}

/// The value at `w * u` is the value at `u` of the polynomial scaled by `w`.
pub proof fn lemma_eval_scaled(p: Seq<nat>, w: nat, u: nat)
    ensures
        poly_eval(p, fr_mul(w, u)) == poly_eval(poly_scaled(p, w), u),
    decreases p.len(),
{
    let wu = fr_mul(w, u);
    let sp = poly_scaled(p, w);
    if p.len() == 0 {
    } else {
        let t = p.drop_last();
        let a = p.last();
        let n = t.len();
        assert(p =~= t.push(a));
        assert(sp =~= poly_scaled(t, w).push(fr_mul(a, fr_pow(w, n))));
        lemma_eval_scaled(t, w, u);
        lemma_eval_push(t, a, wu);
        lemma_eval_push(poly_scaled(t, w), fr_mul(a, fr_pow(w, n)), u);
        lemma_fr_pow_of_mul(w, u, n);
        let e = poly_eval(t, wu);
        let ei = e as int;
        let pw = fr_pow(w, n);
        let pu = fr_pow(u, n);
        let pwi = pw as int;
        let pui = pu as int;
        let ai = a as int;
        // left: e + (pw * pu) * a
        lemma_mul_c(pw, pu, pwi, pui);
        lemma_mul_c(fr_pow(wu, n), a, pwi * pui, ai);
        lemma_add_c(e, fr_mul(fr_pow(wu, n), a), ei, (pwi * pui) * ai);
        // right: e + pu * (a * pw)
        lemma_mul_c(a, pw, ai, pwi);
        lemma_mul_c(pu, fr_mul(a, pw), pui, ai * pwi);
        lemma_add_c(e, fr_mul(pu, fr_mul(a, pw)), ei, pui * (ai * pwi));
        assert(ei + (pwi * pui) * ai == ei + pui * (ai * pwi) + 0 * modulus())
            by (nonlinear_arith);
        lemma_cong_eq(
            poly_eval(p, wu),
            poly_eval(sp, u),
            ei + (pwi * pui) * ai,
            ei + pui * (ai * pwi),
            0,
        );
    }
}

/// The square of a residue is its second power.
pub proof fn lemma_fr_square_is_pow(w: nat)
    ensures
        fr_mul(w, w) == fr_pow(w, 2),
{
    lemma_fr_pow_zero(w);
    lemma_fr_pow_succ(w, 0);
    lemma_fr_pow_succ(w, 1);
    lemma_fr_pow_cong(w, 1);
    lemma_mul_c(fr_pow(w, 1), w, w as int, w as int);
    lemma_mul_c(w, w, w as int, w as int);
    lemma_fr_pow_one(w);
    lemma_reduce_cong(w as int);
    lemma_cong_eq(fr_pow(w, 2), fr_mul(w, w), w as int * w as int, w as int * w as int, 0);
}

/// The square of a root for length `n` is a root for length `n / 2`.
pub proof fn lemma_dft_root_square(w: nat, n: nat)
    requires
        is_dft_root(w, n),
        n >= 2,
    ensures
        is_dft_root(fr_mul(w, w), n / 2),
{
    let h = n / 2;
    let w2 = fr_mul(w, w);
    lemma_fr_square_is_pow(w);
    lemma_ops_are_fr(w, w);
    lemma_fr_pow_mul(w, 2, h);
    assert(is_power_of_two(h));
    if h >= 2 {
        lemma_fr_pow_mul(w, 2, h / 2);
        assert(h % 2 == 0);
        assert(2 * (h / 2) == h);
    }
}

/// The inverse of a root of unity, squared, is the inverse of its square.
pub proof fn lemma_inverse_square(w: nat, winv: nat)
    requires
        is_inverse_of(winv, w),
    ensures
        is_inverse_of(fr_mul(winv, winv), fr_mul(w, w)),
{
    let wi = w as int;
    let vi = winv as int;
    lemma_ops_are_fr(winv, winv);
    lemma_mul_c(w, w, wi, wi);
    lemma_mul_c(winv, winv, vi, vi);
    lemma_mul_c(fr_mul(w, w), fr_mul(winv, winv), wi * wi, vi * vi);
    lemma_mul_c(w, winv, wi, vi);
    lemma_cong_mul(wi * vi, 1, wi * vi, 1);
    assert((wi * wi) * (vi * vi) == (wi * vi) * (wi * vi)) by (nonlinear_arith);
    lemma_reduce_small(1);
    lemma_cong_eq(fr_mul(fr_mul(w, w), fr_mul(winv, winv)), 1, (wi * wi) * (vi * vi), (wi * vi) * (wi * vi), 0);
}

/// The powers of a residue and of its inverse are inverse to each other.
pub proof fn lemma_inverse_pow(w: nat, winv: nat, k: nat)
    requires
        is_inverse_of(winv, w),
    ensures
        fr_mul(fr_pow(w, k), fr_pow(winv, k)) == 1,
        is_inverse_of(fr_pow(winv, k), fr_pow(w, k)),
{
    lemma_fr_pow_of_mul(w, winv, k);
    lemma_fr_pow_of_one(k);
    lemma_fr_pow_cong(winv, k);
}

/// Minus one is its own inverse.
pub proof fn lemma_minus_one_inverse()
    ensures
        is_inverse_of((modulus() - 1) as nat, (modulus() - 1) as nat),
{
    let m1 = (modulus() - 1) as nat;
    let r = modulus() as int;
    lemma_mul_c(m1, m1, r - 1, r - 1);
    assert((r - 1) * (r - 1) == 1 + (r - 2) * r) by (nonlinear_arith);
    lemma_reduce_small(1);
    lemma_cong_eq(fr_mul(m1, m1), 1, (r - 1) * (r - 1), 1, r - 2);
}

/// At a point whose `h`-th power is one, a polynomial of length `2h` has the
/// value of the sum of its two halves.
pub proof fn lemma_eval_fold(a: Seq<nat>, h: nat, u: nat)
    requires
        a.len() == 2 * h,
        fr_pow(u, h) == 1,
    ensures
        poly_eval(a, u) == poly_eval(poly_sum(a.take(h as int), a.skip(h as int)), u),
{
    let lo = a.take(h as int);
    let hi = a.skip(h as int);
    assert(a =~= lo + hi);
    lemma_eval_concat(lo, hi, u);
    lemma_eval_sum(lo, hi, u);
    lemma_poly_eval_is_fr(hi, u);
    lemma_fr_mul_one(poly_eval(hi, u));
}

/// At a point whose `h`-th power is minus one, a polynomial of length `2h`
/// has the value of the difference of its two halves.
pub proof fn lemma_eval_twist(a: Seq<nat>, h: nat, v: nat)
    requires
        a.len() == 2 * h,
        fr_pow(v, h) == modulus() - 1,
    ensures
        poly_eval(a, v) == poly_eval(poly_diff(a.take(h as int), a.skip(h as int)), v),
{
    let lo = a.take(h as int);
    let hi = a.skip(h as int);
    assert(a =~= lo + hi);
    lemma_eval_concat(lo, hi, v);
    lemma_eval_diff(lo, hi, v);
    let l = poly_eval(lo, v);
    let e = poly_eval(hi, v);
    let li = l as int;
    let ei = e as int;
    let r = modulus() as int;
    let m1 = (modulus() - 1) as nat;
    lemma_mul_c(m1, e, r - 1, ei);
    lemma_add_c(l, fr_mul(m1, e), li, (r - 1) * ei);
    lemma_sub_c(l, e, li, ei);
    assert(li + (r - 1) * ei == (li - ei) + ei * r) by (nonlinear_arith);
    lemma_cong_eq(fr_add(l, fr_mul(m1, e)), fr_sub(l, e), li + (r - 1) * ei, li - ei, ei);
}

/// The last step of the inversion: from the inverse transforms of the even
/// and the odd entries to `n` times the coefficient.
proof fn lemma_inversion_combine(h: nat, a0: nat, a1: nat, z: nat, pw: nat, sign: int)
    requires
        sign == 1 || sign == -1,
        cong(z as int * pw as int, sign),
    ensures
        fr_add(fr_mul(h, fr_add(a0, a1)), fr_mul(z, fr_mul(h, fr_mul(fr_sub(a0, a1), pw))))
            == fr_mul(2 * h, if sign == 1 {
            a0
        } else {
            a1
        }),
{
    let hi = h as int;
    let x = a0 as int;
    let y = a1 as int;
    let zi = z as int;
    let pi = pw as int;
    lemma_add_c(a0, a1, x, y);
    lemma_mul_c(h, fr_add(a0, a1), hi, x + y);
    lemma_sub_c(a0, a1, x, y);
    lemma_mul_c(fr_sub(a0, a1), pw, x - y, pi);
    lemma_mul_c(h, fr_mul(fr_sub(a0, a1), pw), hi, (x - y) * pi);
    lemma_mul_c(z, fr_mul(h, fr_mul(fr_sub(a0, a1), pw)), zi, hi * ((x - y) * pi));
    let lhs = fr_add(fr_mul(h, fr_add(a0, a1)), fr_mul(z, fr_mul(h, fr_mul(fr_sub(a0, a1), pw))));
    lemma_add_c(
        fr_mul(h, fr_add(a0, a1)),
        fr_mul(z, fr_mul(h, fr_mul(fr_sub(a0, a1), pw))),
        hi * (x + y),
        zi * (hi * ((x - y) * pi)),
    );
    assert(zi * (hi * ((x - y) * pi)) == (hi * (x - y)) * (zi * pi)) by (nonlinear_arith);
    lemma_cong_mul(hi * (x - y), hi * (x - y), zi * pi, sign);
    lemma_cong_add(hi * (x + y), hi * (x + y), (hi * (x - y)) * (zi * pi), (hi * (x - y)) * sign);
    let t = if sign == 1 {
        a0
    } else {
        a1
    };
    lemma_mul_c(2 * h, t, 2 * hi, t as int);
    assert(hi * (x + y) + (hi * (x - y)) * sign == (2 * hi) * (t as int)) by (nonlinear_arith)
        requires
            sign == 1 || sign == -1,
            t as int == (if sign == 1 {
                x
            } else {
                y
            }),
    ;
    lemma_cong_eq(
        lhs,
        fr_mul(2 * h, t),
        hi * (x + y) + (hi * (x - y)) * sign,
        (2 * hi) * (t as int),
        0,
    );
}

/// The heart of the inversion: the transform of `a`, read as a polynomial
/// and taken at the `k`-th power of the inverse root, is `n` times
/// coefficient `k` of `a`.
pub proof fn lemma_dft_inversion(a: Seq<nat>, w: nat, winv: nat, k: nat)
    requires
        is_dft_root(w, a.len()),
        is_inverse_of(winv, w),
        all_fr(a),
        k < a.len(),
    ensures
        poly_eval(dft(a, w), fr_pow(winv, k)) == fr_mul(a.len(), a[k as int]),
    decreases a.len(),
{
    let n = a.len();
    let b = dft(a, w);
    let z = fr_pow(winv, k);
    lemma_reduce_small(0);
    lemma_reduce_small(1);
    if n == 1 {
        lemma_fr_pow_zero(w);
        assert(a.skip(1).len() == 0);
        assert(poly_eval(a.skip(1), 1) == 0);
        lemma_fr_mul_zero(1);
        lemma_fr_add_zero(a[0]);
        assert(b[0] == a[0]);
        assert(b.skip(1).len() == 0);
        assert(poly_eval(b.skip(1), z) == 0);
        lemma_fr_mul_zero(z);
        lemma_fr_mul_one(a[0]);
    } else {
        let h = n / 2;
        assert(n == 2 * h);
        let lo = a.take(h as int);
        let hi = a.skip(h as int);
        let f = poly_sum(lo, hi);
        let d = poly_diff(lo, hi);
        let c = poly_scaled(d, w);
        let w2 = fr_mul(w, w);
        let winv2 = fr_mul(winv, winv);
        lemma_dft_root_square(w, n);
        lemma_inverse_square(w, winv);
        lemma_fr_square_is_pow(w);
        // the even entries of the transform are the transform of the folded halves
        assert forall|j: int| 0 <= j < h implies #[trigger] evens(b)[j] == dft(f, w2)[j] by {
            let u = fr_pow(w2, j as nat);
            lemma_fr_pow_mul(w, 2, j as nat);
            lemma_fr_pow_mul(w2, j as nat, h);
            lemma_fr_pow_mul(w2, h, j as nat);
            assert(j * h == h * j) by (nonlinear_arith);
            lemma_fr_pow_of_one(j as nat);
            lemma_eval_fold(a, h, u);
        }
        assert(evens(b) =~= dft(f, w2));
        // the odd entries are the transform of the twisted difference
        assert forall|j: int| 0 <= j < h implies #[trigger] odds(b)[j] == dft(c, w2)[j] by {
            let u = fr_pow(w2, j as nat);
            lemma_fr_pow_mul(w, 2, j as nat);
            lemma_fr_pow_succ(w, (2 * j) as nat);
            let v = fr_mul(w, u);
            assert(fr_pow(w, (2 * j + 1) as nat) == v);
            lemma_fr_pow_of_mul(w, u, h);
            lemma_fr_pow_mul(w2, j as nat, h);
            lemma_fr_pow_mul(w2, h, j as nat);
            assert(j * h == h * j) by (nonlinear_arith);
            lemma_fr_pow_of_one(j as nat);
            lemma_reduce_small(modulus() - 1);
            assert(fr_pow(v, h) == fr_mul((modulus() - 1) as nat, 1));
            lemma_fr_mul_one((modulus() - 1) as nat);
            lemma_eval_twist(a, h, v);
            lemma_eval_scaled(d, w, u);
        }
        assert(odds(b) =~= dft(c, w2));
        assert(all_fr(f)) by {
            assert forall|i: int| 0 <= i < f.len() implies is_fr(#[trigger] f[i]) by {
                lemma_ops_are_fr(lo[i], hi[i]);
            }
        }
        assert(all_fr(c)) by {
            assert forall|i: int| 0 <= i < c.len() implies is_fr(#[trigger] c[i]) by {
                lemma_ops_are_fr(d[i], fr_pow(w, i as nat));
            }
        }
        let kk: nat = if k < h {
            k
        } else {
            (k - h) as nat
        };
        lemma_dft_inversion(f, w2, winv2, kk);
        lemma_dft_inversion(c, w2, winv2, kk);
        // the square of the point is the point of the half-size problem
        lemma_fr_pow_of_mul(winv, winv, k);
        let z2 = fr_mul(z, z);
        assert(z2 == fr_pow(winv2, k));
        lemma_inverse_pow(w2, winv2, h);
        lemma_fr_mul_one(fr_pow(winv2, h));
        lemma_fr_pow_cong(winv2, h);
        lemma_fr_mul_comm(fr_pow(w2, h), fr_pow(winv2, h));
        assert(fr_pow(winv2, h) == 1);
        if k >= h {
            lemma_fr_pow_add(winv2, kk, h);
            lemma_fr_pow_cong(winv2, kk);
            lemma_fr_mul_one(fr_pow(winv2, kk));
        }
        assert(z2 == fr_pow(winv2, kk));
        lemma_eval_even_odd(b, z);
        let a0 = a[kk as int];
        let a1 = a[(kk + h) as int];
        let pw = fr_pow(w, kk);
        assert(f[kk as int] == fr_add(a0, a1));
        assert(c[kk as int] == fr_mul(fr_sub(a0, a1), pw));
        // the point times the twist is one or minus one
        let zi = z as int;
        let pi = pw as int;
        lemma_inverse_pow(w, winv, kk);
        lemma_fr_mul_comm(pw, fr_pow(winv, kk));
        let sign: int = if k < h {
            1
        } else {
            -1
        };
        if k < h {
            lemma_mul_c(z, pw, zi, pi);
        } else {
            lemma_fr_pow_add(winv, kk, h);
            lemma_inverse_pow(w, winv, h);
            lemma_minus_one_inverse();
            lemma_inverse_unique(
                (modulus() - 1) as nat,
                fr_pow(winv, h),
                (modulus() - 1) as nat,
            );
            let vk = fr_pow(winv, kk);
            let r = modulus() as int;
            lemma_mul_c(vk, (modulus() - 1) as nat, vk as int, r - 1);
            lemma_mul_c(vk, pw, vk as int, pi);
            vstd::arithmetic::div_mod::lemma_mod_add_multiples_vanish(-1, r);
            lemma_cong_mul(vk * pi, 1, r - 1, -1);
            assert((vk * (r - 1)) * pi == (vk * pi) * (r - 1)) by (nonlinear_arith);
            lemma_cong_mul(zi, vk * (r - 1), pi, pi);
        }
        lemma_inversion_combine(h, a0, a1, z, pw, sign);
    }
}

/// A power of two has an inverse in the field.
pub proof fn lemma_power_of_two_invertible(n: nat)
    requires
        is_power_of_two(n),
    ensures
        invertible(n),
        is_inverse_of(fr_inv(n), n),
    decreases n,
{
    lemma_reduce_small(1);
    if n == 1 {
        lemma_fr_mul_one(1);
        lemma_fr_inv_is(1, 1);
    } else {
        let h = n / 2;
        lemma_power_of_two_invertible(h);
        let ih = fr_inv(h);
        let half = 0x39f6d3a994cebea4199cec0404d0ec02a9ded2017fff2dff7fffffff80000001nat;
        let r = modulus() as int;
        assert(2 * half == 1 + 1 * r);
        let v = fr_mul(ih, half);
        lemma_mul_c(ih, half, ih as int, half as int);
        lemma_mul_c(n, v, 2 * h as int, ih as int * half as int);
        lemma_mul_c(h, ih, h as int, ih as int);
        vstd::arithmetic::div_mod::lemma_mod_add_multiples_vanish(1, r);
        lemma_cong_mul(2 * half as int, 1, h as int * ih as int, 1);
        assert((2 * h) * (ih * half) == (2 * half) * (h * ih)) by (nonlinear_arith);
        lemma_cong_eq(fr_mul(n, v), 1, (2 * h) * (ih * half) as int, (2 * half) * (h * ih) as int, 0);
        lemma_fr_inv_is(n, v);
    }
}

/// A root of unity has an inverse: the power one below its order.
pub proof fn lemma_dft_root_invertible(w: nat, n: nat)
    requires
        is_dft_root(w, n),
    ensures
        invertible(w),
        is_inverse_of(fr_inv(w), w),
        fr_inv(w) == fr_pow(w, (n - 1) as nat),
{
    lemma_fr_pow_succ(w, (n - 1) as nat);
    lemma_fr_pow_cong(w, (n - 1) as nat);
    lemma_fr_inv_is(w, fr_pow(w, (n - 1) as nat));
}

/// The inverse transform undoes the transform: for a polynomial `a` of
/// canonical coefficients whose length is a power of two, and a root of unity
/// `w` for that length, `idft(dft(a, w), w) == a`.
pub proof fn lemma_idft_dft(a: Seq<nat>, w: nat)
    requires
        is_dft_root(w, a.len()),
        all_fr(a),
    ensures
        idft(dft(a, w), w) == a,
{
    let n = a.len();
    let b = dft(a, w);
    lemma_dft_root_invertible(w, n);
    lemma_power_of_two_invertible(n);
    let winv = fr_inv(w);
    let ninv = fr_inv(n);
    assert forall|k: int| 0 <= k < n implies #[trigger] idft(b, w)[k] == a[k] by {
        lemma_dft_inversion(a, w, winv, k as nat);
        let ak = a[k];
        // (n * a[k]) * n^-1 == a[k]
        lemma_mul_c(n, ak, n as int, ak as int);
        lemma_mul_c(fr_mul(n, ak), ninv, n as int * ak as int, ninv as int);
        lemma_mul_c(n, ninv, n as int, ninv as int);
        lemma_cong_mul(ak as int, ak as int, n as int * ninv as int, 1);
        assert((n * ak) * ninv == ak * (n * ninv)) by (nonlinear_arith);
        lemma_reduce_small(ak as int);
        lemma_ops_are_fr(fr_mul(n, ak), ninv);
        crate::field::lemma_cong_canonical(fr_mul(fr_mul(n, ak), ninv), ak);
    }
    assert(idft(b, w) =~= a);
}

/// The entry-wise product of two sequences of one length.
pub open spec fn pointwise_product(u: Seq<nat>, v: Seq<nat>) -> Seq<nat> {
    Seq::new(u.len(), |j: int| fr_mul(u[j], v[j]))
}

/// Multiplication through the transform is multiplication: the inverse
/// transform of the entry-wise product of the transforms of two polynomials,
/// each padded with zeros to the length of the transform, is their product.
pub proof fn lemma_transform_product(a: Seq<nat>, b: Seq<nat>, w: nat, len: nat)
    requires
        is_dft_root(w, len),
        a.len() <= len,
        b.len() <= len,
        a.len() == 0 || b.len() == 0 || len + 1 >= a.len() + b.len(),
    ensures
        idft(
            pointwise_product(
                dft(a + poly_zero((len - a.len()) as nat), w),
                dft(b + poly_zero((len - b.len()) as nat), w),
            ),
            w,
        ) == poly_product(a, b, len),
{
    let ap = a + poly_zero((len - a.len()) as nat);
    let bp = b + poly_zero((len - b.len()) as nat);
    let prod = poly_product(a, b, len);
    let pw = pointwise_product(dft(ap, w), dft(bp, w));
    assert forall|j: int| 0 <= j < len implies #[trigger] pw[j] == dft(prod, w)[j] by {
        let x = fr_pow(w, j as nat);
        lemma_eval_product(a, b, len, x);
        lemma_eval_pad(a, (len - a.len()) as nat, x);
        lemma_eval_pad(b, (len - b.len()) as nat, x);
    }
    assert(pw =~= dft(prod, w));
    lemma_product_is_fr(a, b, len);
    lemma_idft_dft(prod, w);
}

/// Scaling by a factor and then by its inverse gives the polynomial back,
/// in either order, for canonical coefficients.
pub proof fn lemma_unscale_scale(p: Seq<nat>, f: nat)
    requires
        all_fr(p),
        invertible(f),
    ensures
        poly_scaled(poly_scaled(p, f), fr_inv(f)) == p,
        poly_scaled(poly_scaled(p, fr_inv(f)), f) == p,
{
    let g = fr_inv(f);
    assert forall|i: int| 0 <= i < p.len() implies #[trigger] poly_scaled(poly_scaled(p, f), g)[i]
        == p[i] && poly_scaled(poly_scaled(p, g), f)[i] == p[i] by {
        let a = fr_pow(f, i as nat);
        let b = fr_pow(g, i as nat);
        lemma_inverse_pow(f, g, i as nat);
        lemma_fr_mul_comm(a, b);
        lemma_fr_mul_assoc(p[i], a, b);
        lemma_fr_mul_assoc(p[i], b, a);
        lemma_fr_mul_one(p[i]);
    }
    assert(poly_scaled(poly_scaled(p, f), g) =~= p);
    assert(poly_scaled(poly_scaled(p, g), f) =~= p);
}

/// The scale factor of `scale` and `unscale`, five, has an inverse.
pub proof fn lemma_five_invertible()
    ensures
        invertible(5),
{
    let inv = 0x458e97984c2b4b2b51ef819e6c2de803323e959b66656a65cccccccc33333334nat;
    let r = modulus() as int;
    assert(5 * inv == 1 + 3 * r);
    lemma_mul_c(5, inv, 5, inv as int);
    lemma_reduce_small(1);
    lemma_cong_eq(fr_mul(5, inv), 1, 5 * (inv as int), 1, 3);
    lemma_fr_inv_is(5, inv);
}

} // verus!
