//! Why the check of a proof for a coset rejects a value that is not the
//! polynomial's: the polynomial that interpolates the values changes by a
//! geometric progression, whose value at the secret does not vanish.
use crate::convolution::{
    lemma_eval_pad, lemma_eval_times, lemma_eval_zero, poly_times, poly_zero,
};
use crate::fft::{is_power_of_two, lemma_domain_root};
use crate::field::{
    cong, fr_add, fr_inv, fr_mul, fr_pow, fr_sub, invertible, is_fr, is_inverse_of, lemma_add_c,
    lemma_cong_add, lemma_cong_canonical, lemma_cong_eq, lemma_cong_mul, lemma_fr_add_comm,
    lemma_fr_add_zero, lemma_fr_inv_is, lemma_fr_mul_assoc, lemma_fr_mul_comm, lemma_fr_mul_one,
    lemma_fr_mul_zero, lemma_fr_pow_cong, lemma_fr_pow_mul, lemma_fr_pow_of_mul,
    lemma_fr_pow_of_one, lemma_fr_pow_succ, lemma_fr_pow_zero, lemma_mul_c, lemma_ops_are_fr,
    lemma_reduce_small, lemma_sub_c, modulus,
};
use crate::kzg::{
    check_multi, commitment, coset_divisor, coset_interpolation, lemma_coset_interpolation,
    lemma_multi_proof_exact, KZGSettings,
};
use crate::polymath::{
    all_fr, idft, is_quotient, lemma_eval_push, lemma_fr_add_cancel, lemma_fr_add_sub_cancel,
    lemma_fr_mul_cancel, lemma_fr_sub_injective, lemma_poly_eval_is_fr, poly_eval, poly_scaled,
    poly_sum,
};
use crate::transform::{
    is_dft_root, lemma_dft_root_invertible, lemma_eval_scaled, lemma_eval_sum, lemma_inverse_pow,
    lemma_power_of_two_invertible,
};
use vstd::prelude::*;

verus! {

/// The polynomial of `n` coefficients that are zero but for `d` at index `i`.
pub open spec fn poly_unit(n: nat, i: nat, d: nat) -> Seq<nat> {
    Seq::new(
        n,
        |k: int|
            if k == i {
                d
            } else {
                0nat
            },
    )
}

/// The polynomial of `n` coefficients one.
pub open spec fn poly_ones(n: nat) -> Seq<nat> {
    Seq::new(n, |k: int| 1nat)
}

/// The value of a polynomial with one coefficient that is not zero.
pub proof fn lemma_eval_unit(n: nat, i: nat, d: nat, z: nat)
    requires
        i < n,
    ensures
        poly_eval(poly_unit(n, i, d), z) == fr_mul(fr_pow(z, i), d),
{
    let head = poly_zero(i).push(d);
    assert(poly_unit(n, i, d) =~= head + poly_zero((n - i - 1) as nat));
    lemma_eval_pad(head, (n - i - 1) as nat, z);
    lemma_eval_push(poly_zero(i), d, z);
    lemma_eval_zero(i, z);
    lemma_ops_are_fr(fr_pow(z, i), d);
    lemma_fr_add_zero(fr_mul(fr_pow(z, i), d));
}

/// The geometric sum: `(u - 1) (1 + u + ... + u^(n-1)) == u^n - 1`.
pub proof fn lemma_geometric_sum(u: nat, n: nat)
    ensures
        fr_mul(fr_sub(u, 1), poly_eval(poly_ones(n), u)) == fr_sub(fr_pow(u, n), 1),
    decreases n,
{
    lemma_reduce_small(0);
    lemma_reduce_small(1);
    if n == 0 {
        lemma_fr_mul_zero(fr_sub(u, 1));
        lemma_fr_pow_zero(u);
    } else {
        let m = (n - 1) as nat;
        assert(poly_ones(n) =~= poly_ones(m).push(1));
        lemma_eval_push(poly_ones(m), 1, u);
        lemma_geometric_sum(u, m);
        lemma_fr_pow_succ(u, m);
        let g = poly_eval(poly_ones(m), u);
        let pw = fr_pow(u, m);
        let ui = u as int;
        let gi = g as int;
        let pi = pw as int;
        let d = fr_sub(u, 1);
        lemma_sub_c(u, 1, ui, 1);
        lemma_mul_c(pw, 1, pi, 1);
        lemma_add_c(g, fr_mul(pw, 1), gi, pi * 1);
        let gn = poly_eval(poly_ones(n), u);
        lemma_mul_c(d, gn, ui - 1, gi + pi * 1);
        // the induction hypothesis as a congruence of integers
        lemma_mul_c(d, g, ui - 1, gi);
        lemma_sub_c(pw, 1, pi, 1);
        assert(cong((ui - 1) * gi, pi - 1));
        assert((ui - 1) * (gi + pi * 1) == (ui - 1) * gi + (ui - 1) * pi) by (nonlinear_arith);
        lemma_cong_add((ui - 1) * gi, pi - 1, (ui - 1) * pi, (ui - 1) * pi);
        lemma_mul_c(u, pw, ui, pi);
        lemma_sub_c(fr_pow(u, n), 1, ui * pi, 1);
        assert(pi - 1 + (ui - 1) * pi == ui * pi - 1) by (nonlinear_arith);
        lemma_cong_canonical(fr_mul(d, gn), fr_sub(fr_pow(u, n), 1));
    }
}

/// The interpolation on a coset is additive in the values.
pub proof fn lemma_interpolation_additive(a: Seq<nat>, b: Seq<nat>, x: nat, w: nat)
    requires
        a.len() == b.len(),
    ensures
        coset_interpolation(poly_sum(a, b), x, w) == poly_sum(
            coset_interpolation(a, x, w),
            coset_interpolation(b, x, w),
        ),
{
    let n = a.len();
    let ninv = fr_inv(n);
    let s = poly_sum(a, b);
    assert forall|k: int| 0 <= k < n implies #[trigger] coset_interpolation(s, x, w)[k]
        == poly_sum(coset_interpolation(a, x, w), coset_interpolation(b, x, w))[k] by {
        let z = fr_pow(fr_inv(w), k as nat);
        let xk = fr_pow(fr_inv(x), k as nat);
        lemma_eval_sum(a, b, z);
        let va = poly_eval(a, z);
        let vb = poly_eval(b, z);
        let ai = va as int;
        let bi = vb as int;
        let ni = ninv as int;
        let xi = xk as int;
        lemma_add_c(va, vb, ai, bi);
        lemma_mul_c(fr_add(va, vb), ninv, ai + bi, ni);
        lemma_mul_c(fr_mul(fr_add(va, vb), ninv), xk, (ai + bi) * ni, xi);
        lemma_mul_c(va, ninv, ai, ni);
        lemma_mul_c(fr_mul(va, ninv), xk, ai * ni, xi);
        lemma_mul_c(vb, ninv, bi, ni);
        lemma_mul_c(fr_mul(vb, ninv), xk, bi * ni, xi);
        lemma_add_c(
            fr_mul(fr_mul(va, ninv), xk),
            fr_mul(fr_mul(vb, ninv), xk),
            (ai * ni) * xi,
            (bi * ni) * xi,
        );
        assert(((ai + bi) * ni) * xi == (ai * ni) * xi + (bi * ni) * xi + 0 * modulus())
            by (nonlinear_arith);
        lemma_cong_eq(
            fr_mul(fr_mul(fr_add(va, vb), ninv), xk),
            fr_add(fr_mul(fr_mul(va, ninv), xk), fr_mul(fr_mul(vb, ninv), xk)),
            ((ai + bi) * ni) * xi,
            (ai * ni) * xi + (bi * ni) * xi,
            0,
        );
    }
    assert(coset_interpolation(s, x, w) =~= poly_sum(
        coset_interpolation(a, x, w),
        coset_interpolation(b, x, w),
    ));
}

/// The interpolation of values that are zero but for `d` at index `i` is a
/// geometric progression: coefficient `k` is `(d / n) t^k` with
/// `t = w^(-i) / x`.
pub proof fn lemma_interpolation_unit(n: nat, i: nat, d: nat, x: nat, w: nat)
    requires
        i < n,
    ensures
        coset_interpolation(poly_unit(n, i, d), x, w) == poly_times(
            fr_mul(d, fr_inv(n)),
            poly_scaled(poly_ones(n), fr_mul(fr_pow(fr_inv(w), i), fr_inv(x))),
        ),
{
    let winv = fr_inv(w);
    let xinv = fr_inv(x);
    let ninv = fr_inv(n);
    let wi = fr_pow(winv, i);
    let t = fr_mul(wi, xinv);
    let c = fr_mul(d, ninv);
    let unit = poly_unit(n, i, d);
    let lhs = coset_interpolation(unit, x, w);
    let rhs = poly_times(c, poly_scaled(poly_ones(n), t));
    assert forall|k: int| 0 <= k < n implies #[trigger] lhs[k] == rhs[k] by {
        let kn = k as nat;
        let z = fr_pow(winv, kn);
        let xk = fr_pow(xinv, kn);
        lemma_eval_unit(n, i, d, z);
        lemma_fr_pow_mul(winv, kn, i);
        lemma_fr_pow_mul(winv, i, kn);
        assert(kn * i == i * kn) by (nonlinear_arith);
        let wk = fr_pow(wi, kn);
        assert(fr_pow(z, i) == wk);
        lemma_fr_pow_of_mul(wi, xinv, kn);
        let tk = fr_pow(t, kn);
        lemma_fr_pow_cong(t, kn);
        lemma_fr_mul_one(tk);
        assert(poly_scaled(poly_ones(n), t)[k] == tk);
        let wki = wk as int;
        let di = d as int;
        let ni = ninv as int;
        let xi = xk as int;
        lemma_mul_c(wk, d, wki, di);
        lemma_mul_c(fr_mul(wk, d), ninv, wki * di, ni);
        lemma_mul_c(fr_mul(fr_mul(wk, d), ninv), xk, (wki * di) * ni, xi);
        lemma_mul_c(d, ninv, di, ni);
        lemma_mul_c(wk, xk, wki, xi);
        lemma_mul_c(c, tk, di * ni, wki * xi);
        assert(((wki * di) * ni) * xi == (di * ni) * (wki * xi) + 0 * modulus())
            by (nonlinear_arith);
        lemma_cong_eq(lhs[k], rhs[k], ((wki * di) * ni) * xi, (di * ni) * (wki * xi), 0);
    }
    assert(lhs =~= rhs);
}

/// A proof for a coset is sound against one wrong value. With the reference
/// string of a secret `s`, the commitment to `p` and to its quotient `q` by
/// `X^n - x^n`, and the values of `p` on the coset of `x` but for one, which
/// is `v` instead, the check rejects: provided that the coset is not that of
/// the secret itself, `s^n != x^n`, and that the difference of the wrong
/// value and the right one has an inverse, as every residue but zero has in
/// a prime field.
pub proof fn lemma_multi_proof_rejects(
    ks: KZGSettings,
    s: nat,
    p: Seq<nat>,
    q: Seq<nat>,
    x: nat,
    n: nat,
    ys: Seq<nat>,
    i: nat,
    v: nat,
)
    requires
        ks.fs.wf(),
        ks.is_srs_of(s),
        is_power_of_two(n),
        n <= ks.fs.max_width,
        n < ks.secret_g2@.len(),
        all_fr(p),
        n < p.len() <= ks.secret_g1@.len(),
        invertible(x),
        is_quotient(q, p, coset_divisor(x, n)),
        ys.len() == n,
        forall|j: int|
            0 <= j < n ==> #[trigger] ys[j] == poly_eval(
                p,
                fr_mul(x, fr_pow(ks.fs.domain_root(n), j as nat)),
            ),
        i < n,
        is_fr(v),
        invertible(fr_sub(v, ys[i as int])),
        fr_pow(s, n) != fr_pow(x, n),
    ensures
        !check_multi(
            commitment(ks.g1_powers(), p),
            commitment(ks.g1_powers(), q),
            ks.g2_powers()[n as int],
            x,
            n,
            commitment(
                ks.g1_powers(),
                coset_interpolation(ys.update(i as int, v), x, ks.fs.domain_root(n)),
            ),
        ),
{
    let w = ks.fs.domain_root(n);
    let ys2 = ys.update(i as int, v);
    let d = fr_sub(v, ys[i as int]);
    let unit = poly_unit(n, i, d);
    let interp = coset_interpolation(ys, x, w);
    let interp2 = coset_interpolation(ys2, x, w);
    let delta = coset_interpolation(unit, x, w);
    lemma_reduce_small(0);
    lemma_reduce_small(1);
    lemma_domain_root(&ks.fs, n);
    lemma_coset_interpolation(p, q, x, w, n, ys);
    lemma_multi_proof_exact(ks, s, p, q, x, n, ys2);
    // the wrong values are the right ones plus one difference
    assert forall|k: int| 0 <= k < n implies #[trigger] ys2[k] == poly_sum(ys, unit)[k] by {
        lemma_poly_eval_is_fr(p, fr_mul(x, fr_pow(w, k as nat)));
        if k == i {
            lemma_fr_add_sub_cancel(v, ys[k]);
            lemma_reduce_small(v as int);
        } else {
            lemma_fr_add_zero(ys[k]);
        }
    }
    assert(ys2 =~= poly_sum(ys, unit));
    lemma_interpolation_additive(ys, unit, x, w);
    lemma_eval_sum(interp, delta, s);
    // the change of the interpolation is a geometric progression
    let winv = fr_inv(w);
    let xinv = fr_inv(x);
    let ninv = fr_inv(n);
    let wi = fr_pow(winv, i);
    let t = fr_mul(wi, xinv);
    let c = fr_mul(d, ninv);
    lemma_interpolation_unit(n, i, d, x, w);
    lemma_eval_times(c, poly_scaled(poly_ones(n), t), s);
    lemma_eval_scaled(poly_ones(n), t, s);
    let u = fr_mul(t, s);
    let g = poly_eval(poly_ones(n), u);
    lemma_geometric_sum(u, n);
    lemma_poly_eval_is_fr(poly_ones(n), u);
    // the n-th power of u is not one, since s^n is not x^n
    let sn = fr_pow(s, n);
    let xn = fr_pow(x, n);
    let xinvn = fr_pow(xinv, n);
    lemma_dft_root_invertible(w, n);
    lemma_inverse_pow(w, winv, n);
    lemma_fr_pow_cong(winv, n);
    lemma_fr_mul_one(fr_pow(winv, n));
    assert(fr_pow(winv, n) == 1);
    lemma_fr_pow_mul(winv, i, n);
    lemma_fr_pow_mul(winv, n, i);
    assert(i * n == n * i) by (nonlinear_arith);
    lemma_fr_pow_of_one(i);
    assert(fr_pow(wi, n) == 1);
    lemma_fr_pow_of_mul(wi, xinv, n);
    lemma_fr_pow_cong(xinv, n);
    lemma_fr_mul_one(xinvn);
    assert(fr_pow(t, n) == xinvn);
    lemma_fr_pow_of_mul(t, s, n);
    lemma_fr_pow_cong(s, n);
    lemma_fr_pow_cong(x, n);
    if fr_pow(u, n) == 1 {
        lemma_inverse_pow(x, xinv, n);
        lemma_fr_mul_assoc(xn, xinvn, sn);
        lemma_fr_mul_one(sn);
        lemma_fr_mul_one(xn);
        assert(false);
    }
    if fr_sub(fr_pow(u, n), 1) == 0 {
        lemma_fr_pow_cong(u, n);
        assert(fr_sub(fr_pow(u, n), fr_pow(u, n)) == 0);
        lemma_fr_sub_injective(fr_pow(u, n), 1, fr_pow(u, n));
    }
    if g == 0 {
        lemma_fr_mul_zero(fr_sub(u, 1));
    }
    // the factor d / n has an inverse, so the change at s is not zero
    lemma_power_of_two_invertible(n);
    let dinv = fr_inv(d);
    let cinv = fr_mul(dinv, n);
    let di = d as int;
    let ni = ninv as int;
    let ei = dinv as int;
    let mi = n as int;
    lemma_mul_c(d, ninv, di, ni);
    lemma_mul_c(dinv, n, ei, mi);
    lemma_mul_c(c, cinv, di * ni, ei * mi);
    lemma_mul_c(d, dinv, di, ei);
    lemma_mul_c(n, ninv, mi, ni);
    lemma_cong_mul(di * ei, 1, mi * ni, 1);
    assert((di * ni) * (ei * mi) == (di * ei) * (mi * ni)) by (nonlinear_arith);
    lemma_cong_canonical(fr_mul(c, cinv), 1);
    lemma_fr_inv_is(c, cinv);
    let change = poly_eval(delta, s);
    assert(change == fr_mul(c, g));
    if change == 0 {
        lemma_fr_mul_comm(c, g);
        lemma_fr_mul_zero(c);
        lemma_fr_mul_cancel(g, 0, c);
    }
    // so the interpolation of the wrong values differs at s
    let is = poly_eval(interp, s);
    lemma_poly_eval_is_fr(interp, s);
    lemma_poly_eval_is_fr(delta, s);
    if poly_eval(interp2, s) == is {
        lemma_fr_add_comm(is, change);
        lemma_fr_add_zero(is);
        lemma_fr_add_cancel(change, 0, is);
    }
}

} // verus!
