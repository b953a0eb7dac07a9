//! The commitment scheme: commitments to polynomials against a structured
//! reference string, proofs of their values at one point or at a coset of
//! points, and the pairing checks of such proofs.
use crate::convolution::{lemma_eval_pad, lemma_eval_product, poly_zero};
use crate::error::KzgError;
use crate::fft::{is_power_of_two, is_power_of_two_usize, lemma_domain_root, FFTSettings};
use crate::field::{
    cong, fr_add, fr_inv, fr_mul, fr_neg, fr_pow, fr_reduce, fr_sub, invertible, is_fr,
    lemma_add_c, lemma_cong_add, lemma_cong_eq, lemma_cong_mul, lemma_fr_add_zero, lemma_fr_inv_is,
    lemma_fr_mul_comm, lemma_fr_mul_one, lemma_fr_mul_zero, lemma_fr_pow_one, lemma_fr_pow_succ,
    lemma_invertible_nonzero, lemma_mul_c, lemma_neg_c, lemma_ops_are_fr, lemma_reduce_cong,
    lemma_reduce_small, lemma_sub_c, modulus,
};
use crate::group::{ArkG1, ArkG2, g1_scalars, g2_scalars, lincomb, pairings_verify};
use crate::poly::Poly;
use crate::polymath::{
    all_fr, conv_coeff, dft, idft, is_quotient, lemma_conv_range_is_fr, lemma_eval_push,
    lemma_eval_skip, lemma_fr_add_sub_cancel, lemma_fr_sub_injective, lemma_poly_eval_is_fr,
    lemma_quotient_unique, lemma_synthetic_step, poly_eval, poly_product, poly_scaled, poly_sum,
    quotient_of,
};
use crate::scalar::{all_wf, ArkFr, copy_of, fr_values};
use crate::transform::{
    is_dft_root, lemma_eval_scaled, lemma_eval_sum, lemma_idft_dft, lemma_inverse_pow,
    lemma_unscale_scale,
};
use vstd::prelude::*;

verus! {

/// The quotient of `p(X) - p(x)` by `X - x`: coefficient `k` is the value at
/// `x` of `p` without its first `k + 1` coefficients.
pub open spec fn quotient_single(p: Seq<nat>, x: nat) -> Seq<nat> {
    Seq::new((p.len() - 1) as nat, |k: int| poly_eval(p.skip(k + 1), x))
}

/// The commitment to `p` against the points of scalars `g`.
pub open spec fn commitment(g: Seq<nat>, p: Seq<nat>) -> nat {
    lincomb(g, p, p.len())
}

/// The pairing check of a proof for one point: with `s` the scalar of the
/// second point of the reference string in G2, whether
/// `(com - y) * 1 == proof * (s - x)`.
pub open spec fn check_single(com: nat, proof: nat, s: nat, x: nat, y: nat) -> bool {
    fr_mul(fr_sub(com, fr_mul(1, y)), 1) == fr_mul(proof, fr_sub(s, fr_mul(1, x)))
}

/// The polynomial `X^n - x^n`, which vanishes on the coset of `x` by the
/// roots of unity of order `n`.
pub open spec fn coset_divisor(x: nat, n: nat) -> Seq<nat> {
    Seq::new(
        n + 1,
        |i: int|
            if i == 0 {
                fr_neg(fr_pow(x, n))
            } else if i == n {
                1nat
            } else {
                0nat
            },
    )
}

/// The polynomial of degree below `n` that takes the values `ys` on the
/// coset of `x` by the powers of the root of unity `w`: the inverse transform
/// of `ys`, with coefficient `i` divided by the `i`-th power of `x`.
pub open spec fn coset_interpolation(ys: Seq<nat>, x: nat, w: nat) -> Seq<nat> {
    poly_scaled(idft(ys, w), fr_inv(x))
}

/// The pairing check of a proof for a coset: with `sn` the scalar of point
/// `n` of the reference string in G2 and `interp` the commitment to the
/// interpolation polynomial, whether
/// `(com - interp) * 1 == proof * (sn - x^n)`.
pub open spec fn check_multi(com: nat, proof: nat, sn: nat, x: nat, n: nat, interp: nat) -> bool {
    fr_mul(fr_sub(com, interp), 1) == fr_mul(proof, fr_sub(sn, fr_mul(1, fr_pow(x, n))))
}

/// The settings of the scheme: the reference string in both groups, and a
/// domain of roots of unity for the proofs at a coset.
#[derive(Clone, Debug, PartialEq, Eq)]
pub struct KZGSettings {
    pub fs: FFTSettings,
    pub secret_g1: Vec<ArkG1>,
    pub secret_g2: Vec<ArkG2>,
}

impl KZGSettings {
    /// The scalars of the reference string in G1.
    pub open spec fn g1_powers(&self) -> Seq<nat> {
        g1_scalars(self.secret_g1@)
    }

    /// The scalars of the reference string in G2.
    pub open spec fn g2_powers(&self) -> Seq<nat> {
        g2_scalars(self.secret_g2@)
    }

    /// The reference string is that of the secret `s`: its points are the
    /// multiples of the generators by the powers of `s`.
    pub open spec fn is_srs_of(&self, s: nat) -> bool {
        &&& forall|i: int|
            0 <= i < self.secret_g1@.len() ==> #[trigger] self.g1_powers()[i] == fr_pow(s, i as nat)
        &&& forall|i: int|
            0 <= i < self.secret_g2@.len() ==> #[trigger] self.g2_powers()[i] == fr_pow(s, i as nat)
    }

    /// The settings of a reference string and a domain. Both are copied.
    pub fn new(
        secret_g1: &[ArkG1],
        secret_g2: &[ArkG2],
        _length: usize,
        fft_settings: &FFTSettings,
    ) -> (r: Result<KZGSettings, KzgError>)
        ensures
            r is Ok,
            r->Ok_0.secret_g1@ == secret_g1@,
            r->Ok_0.secret_g2@ == secret_g2@,
            r->Ok_0.fs.wf() == fft_settings.wf(),
            r->Ok_0.fs.max_width == fft_settings.max_width,
            r->Ok_0.fs.root_of_unity == fft_settings.root_of_unity,
            r->Ok_0.fs.expanded_roots_of_unity@ == fft_settings.expanded_roots_of_unity@,
            r->Ok_0.fs.reverse_roots_of_unity@ == fft_settings.reverse_roots_of_unity@,
            r->Ok_0.fs.roots_of_unity@ == fft_settings.roots_of_unity@,
    {
        let mut g1: Vec<ArkG1> = Vec::new();
        let mut i: usize = 0;
        while i < secret_g1.len()
            invariant
                i <= secret_g1@.len(),
                g1@ == secret_g1@.take(i as int),
            decreases secret_g1@.len() - i,
        {
            g1.push(secret_g1[i]);
            assert(g1@ =~= secret_g1@.take(i + 1));
            i += 1;
        }
        assert(secret_g1@.take(secret_g1@.len() as int) =~= secret_g1@);
        let mut g2: Vec<ArkG2> = Vec::new();
        let mut j: usize = 0;
        while j < secret_g2.len()
            invariant
                j <= secret_g2@.len(),
                g2@ == secret_g2@.take(j as int),
            decreases secret_g2@.len() - j,
        {
            g2.push(secret_g2[j]);
            assert(g2@ =~= secret_g2@.take(j + 1));
            j += 1;
        }
        assert(secret_g2@.take(secret_g2@.len() as int) =~= secret_g2@);
        Ok(KZGSettings { fs: fft_settings.copy(), secret_g1: g1, secret_g2: g2 })
    }

    /// The commitment to `p`: the sum of the multiples of the points of the
    /// reference string by the coefficients. A polynomial with more
    /// coefficients than the string has points in G1 is refused.
    pub fn commit_to_poly(&self, p: &Poly) -> (r: Result<ArkG1, KzgError>)
        ensures
            match r {
                Ok(c) => p@.len() <= self.secret_g1@.len() && c.scalar() == commitment(
                    self.g1_powers(),
                    p@,
                ),
                Err(e) => e == KzgError::LengthError && p@.len() > self.secret_g1@.len(),
            },
    {
        if p.coeffs.len() > self.secret_g1.len() {
            return Err(KzgError::LengthError);
        }
        let out = ArkG1::g1_lincomb(
            self.secret_g1.as_slice(),
            p.coeffs.as_slice(),
            p.coeffs.len(),
        );
        Ok(out)
    }

    /// The proof that `p` has its value at `x`: the commitment to the
    /// quotient of `p(X) - p(x)` by `X - x`, which is computed by synthetic
    /// division from the highest coefficient down. An empty polynomial is
    /// refused.
    pub fn compute_proof_single(&self, p: &Poly, x: &ArkFr) -> (r: Result<ArkG1, KzgError>)
        requires
            p.wf(),
        ensures
            match r {
                Ok(c) => p@.len() >= 1 && p@.len() - 1 <= self.secret_g1@.len() && c.scalar()
                    == commitment(self.g1_powers(), quotient_single(p@, x@)),
                Err(e) => if p@.len() == 0 {
                    e == KzgError::EmptyInputError
                } else {
                    e == KzgError::LengthError && p@.len() - 1 > self.secret_g1@.len()
                },
            },
    {
        if p.coeffs.len() == 0 {
            return Err(KzgError::EmptyInputError);
        }
        let q = Self::quotient_by_linear(p, x);
        self.commit_to_poly(&q)
    }

    /// The quotient of `p(X) - p(x)` by `X - x`.
    pub fn quotient_by_linear(p: &Poly, x: &ArkFr) -> (q: Poly)
        requires
            p.wf(),
            p@.len() >= 1,
        ensures
            q@ == quotient_single(p@, x@),
            q.wf(),
    {
        let divisor_0 = x.negate();
        let n = p.coeffs.len() - 1;
        let mut out_coeffs = copy_of(vstd::slice::slice_subrange(p.coeffs.as_slice(), 1, n + 1));
        let mut i: usize = n;
        proof {
            if n > 0 {
                lemma_eval_skip(p@, x@, n as int);
                assert(p@.skip(n + 1).len() == 0);
                assert(p.coeffs@[n as int].wf());
                lemma_fr_mul_zero(x@);
                lemma_fr_add_zero(p@[n as int]);
            }
        }
        while i > 1
            invariant
                i <= n,
                n + 1 == p.coeffs@.len(),
                out_coeffs@.len() == n,
                p.wf(),
                divisor_0@ == fr_neg(x@),
                all_wf(out_coeffs@),
                forall|j: int| 0 <= j < i - 1 ==> #[trigger] out_coeffs@[j] == p.coeffs@[j + 1],
                forall|j: int|
                    0 <= j < n && i - 1 <= j ==> (#[trigger] out_coeffs@[j])@ == poly_eval(
                        p@.skip(j + 1),
                        x@,
                    ),
            decreases i,
        {
            i -= 1;
            let tmp = out_coeffs[i].mul(&divisor_0);
            let v = out_coeffs[i - 1].sub(&tmp);
            proof {
                assert(out_coeffs@[i as int]@ == poly_eval(p@.skip(i + 1), x@));
                assert(out_coeffs@[i - 1] == p.coeffs@[i as int]);
                lemma_eval_skip(p@, x@, i as int);
                lemma_synthetic_step(p@[i as int], poly_eval(p@.skip(i + 1), x@), x@);
            }
            out_coeffs.set(i - 1, v);
        }
        let q = Poly { coeffs: out_coeffs };
        assert(q@ =~= quotient_single(p@, x@));
        q
    }

    /// Checks a proof that the polynomial of the commitment `com` has the
    /// value `y` at `x`: whether `e(com - [y], [1]) == e(proof, [s] - [x])`.
    /// A proof that does not verify gives `false`, which is no failure.
    pub fn check_proof_single(&self, com: &ArkG1, proof: &ArkG1, x: &ArkFr, y: &ArkFr) -> (r:
        Result<bool, KzgError>)
        requires
            self.secret_g2@.len() >= 2,
        ensures
            r is Ok,
            r->Ok_0 == check_single(com.scalar(), proof.scalar(), self.g2_powers()[1], x@, y@),
    {
        let g2 = ArkG2::generator();
        let x_g2 = g2.mul(x);
        let s_minus_x = self.secret_g2[1].sub(&x_g2);
        let y_g1 = ArkG1::generator().mul(y);
        let commitment_minus_y = com.sub(&y_g1);
        Ok(pairings_verify(&commitment_minus_y, &g2, proof, &s_minus_x))
    }

    /// The proof that `p` has its values on the coset of `x` by the roots of
    /// unity of order `n`: the commitment to the quotient of `p` by
    /// `X^n - x^n`. An empty polynomial is refused, and so is an `n` that is
    /// no power of two.
    pub fn compute_proof_multi(&self, p: &Poly, x: &ArkFr, n: usize) -> (r: Result<ArkG1, KzgError>)
        requires
            p.wf(),
        ensures
            match r {
                Ok(c) => {
                    &&& p@.len() >= 1
                    &&& is_power_of_two(n as nat)
                    &&& p@.len() > n
                    &&& p@.len() - n <= self.secret_g1@.len()
                    &&& is_quotient(
                        quotient_of(p@, coset_divisor(x@, n as nat)),
                        p@,
                        coset_divisor(x@, n as nat),
                    )
                    &&& c.scalar() == commitment(
                        self.g1_powers(),
                        quotient_of(p@, coset_divisor(x@, n as nat)),
                    )
                },
                Err(e) => if p@.len() == 0 {
                    e == KzgError::EmptyInputError
                } else if !is_power_of_two(n as nat) {
                    e == KzgError::DomainError
                } else if p@.len() <= n {
                    e == KzgError::DivisionError
                } else {
                    e == KzgError::LengthError && p@.len() - n > self.secret_g1@.len()
                },
            },
    {
        if p.coeffs.len() == 0 {
            return Err(KzgError::EmptyInputError);
        }
        if !is_power_of_two_usize(n) {
            return Err(KzgError::DomainError);
        }
        if p.coeffs.len() <= n {
            return Err(KzgError::DivisionError);
        }
        let divisor = Self::coset_divisor_poly(x, n);
        let q = match p.div(&divisor) {
            Ok(q) => q,
            Err(e) => {
                return Err(e);
            },
        };
        proof {
            let d = coset_divisor(x@, n as nat);
            lemma_reduce_small(1);
            lemma_fr_mul_one(1);
            lemma_fr_inv_is(1, 1);
            assert(d.last() == 1);
            assert(is_quotient(q@, p@, d));
            lemma_quotient_unique(q@, quotient_of(p@, d), p@, d);
        }
        self.commit_to_poly(&q)
    }

    /// The polynomial `X^n - x^n`: the constant coefficient `-(x^n)`, the
    /// coefficient one at `n`, and zeros between.
    pub fn coset_divisor_poly(x: &ArkFr, n: usize) -> (d: Poly)
        requires
            1 <= n < usize::MAX,
        ensures
            d@ == coset_divisor(x@, n as nat),
            d.coeffs@.len() == n + 1,
            d.wf(),
    {
        let mut coeffs: Vec<ArkFr> = Vec::new();
        let x_pow_n = x.pow(n);
        coeffs.push(x_pow_n.negate());
        let zero = ArkFr::zero();
        let mut i: usize = 1;
        while i < n
            invariant
                1 <= i <= n,
                coeffs@.len() == i,
                zero@ == 0,
                all_wf(coeffs@),
                coeffs@[0]@ == fr_neg(fr_pow(x@, n as nat)),
                forall|j: int| 1 <= j < i ==> (#[trigger] coeffs@[j])@ == 0,
            decreases n - i,
        {
            coeffs.push(zero);
            i += 1;
        }
        coeffs.push(ArkFr::one());
        let d = Poly { coeffs };
        assert(d@ =~= coset_divisor(x@, n as nat));
        d
    }

    /// Checks a proof that the polynomial of the commitment `com` has the
    /// values `ys` on the coset of `x` by the roots of unity of order `n`.
    /// The values are interpolated on the coset, the interpolation
    /// polynomial is committed to, and the check is whether
    /// `e(com - [interp(s)], [1]) == e(proof, [s^n] - [x^n])`. A proof that
    /// does not verify gives `false`. An `n` that is no power of two, that is
    /// not the number of values, or that is beyond the domain is refused,
    /// and so is one beyond the reference string.
    pub fn check_proof_multi(
        &self,
        com: &ArkG1,
        proof: &ArkG1,
        x: &ArkFr,
        ys: &[ArkFr],
        n: usize,
    ) -> (r: Result<bool, KzgError>)
        requires
            self.fs.wf(),
            all_wf(ys@),
            fr_reduce(x@ as int) != 0,
        ensures
            match r {
                Ok(b) => {
                    &&& is_power_of_two(n as nat)
                    &&& ys@.len() == n
                    &&& n <= self.fs.max_width
                    &&& n < self.secret_g2@.len()
                    &&& n <= self.secret_g1@.len()
                    &&& b == check_multi(
                        com.scalar(),
                        proof.scalar(),
                        self.g2_powers()[n as int],
                        x@,
                        n as nat,
                        commitment(
                            self.g1_powers(),
                            coset_interpolation(
                                fr_values(ys@),
                                x@,
                                self.fs.domain_root(n as nat),
                            ),
                        ),
                    )
                },
                Err(e) => if !is_power_of_two(n as nat) || ys@.len() != n || n
                    > self.fs.max_width {
                    e == KzgError::DomainError
                } else {
                    e == KzgError::LengthError && (n >= self.secret_g2@.len() || n
                        > self.secret_g1@.len())
                },
            },
    {
        if !is_power_of_two_usize(n) {
            return Err(KzgError::DomainError);
        }
        if ys.len() != n {
            return Err(KzgError::DomainError);
        }
        let raw = match self.fs.fft_fr(ys, true) {
            Ok(v) => v,
            Err(e) => {
                return Err(e);
            },
        };
        if n >= self.secret_g2.len() {
            return Err(KzgError::LengthError);
        }
        let inv_x = x.inverse();
        let interp = Self::unshifted(raw, &inv_x);
        let mut inv_x_pow = inv_x;
        let mut i: usize = 1;
        proof {
            crate::field::lemma_fr_pow_one(inv_x@);
            lemma_reduce_small(inv_x@ as int);
        }
        while i < n
            invariant
                1 <= i <= n,
                inv_x_pow@ == fr_pow(inv_x@, i as nat),
            decreases n - i,
        {
            proof {
                lemma_fr_pow_succ(inv_x@, i as nat);
            }
            inv_x_pow = inv_x_pow.mul(&inv_x);
            i += 1;
        }
        proof {
            // the inverse of the n-th power of the inverse of x is the n-th power of x
            lemma_inverse_pow(x@, inv_x@, n as nat);
            lemma_fr_mul_comm(fr_pow(x@, n as nat), fr_pow(inv_x@, n as nat));
            crate::field::lemma_fr_pow_cong(x@, n as nat);
            lemma_fr_inv_is(fr_pow(inv_x@, n as nat), fr_pow(x@, n as nat));
            lemma_invertible_nonzero(fr_pow(inv_x@, n as nat));
        }
        let x_pow = inv_x_pow.inverse();
        let g2 = ArkG2::generator();
        let xn2 = g2.mul(&x_pow);
        let xn_minus_yn = self.secret_g2[n].sub(&xn2);
        let is1 = match self.commit_to_poly(&interp) {
            Ok(c) => c,
            Err(e) => {
                return Err(e);
            },
        };
        let commit_minus_interp = com.sub(&is1);
        Ok(pairings_verify(&commit_minus_interp, &g2, proof, &xn_minus_yn))
    }

    /// Coefficient `i` of `raw` multiplied by the `i`-th power of `inv_x`:
    /// the polynomial that interpolates on the coset, from the one that
    /// interpolates on the roots of unity.
    pub fn unshifted(raw: Vec<ArkFr>, inv_x: &ArkFr) -> (r: Poly)
        requires
            all_wf(raw@),
        ensures
            r@ == poly_scaled(fr_values(raw@), inv_x@),
            r.coeffs@.len() == raw@.len(),
            r.wf(),
    {
        let mut interp = Poly { coeffs: raw };
        interp.scale_by(inv_x);
        interp
    }

    /// The `i`-th power of the root of the domain.
    pub fn get_expanded_roots_of_unity_at(&self, i: usize) -> (r: ArkFr)
        requires
            i < self.fs.expanded_roots_of_unity@.len(),
        ensures
            r == self.fs.expanded_roots_of_unity@[i as int],
    {
        self.fs.get_expanded_roots_of_unity_at(i)
    }

    /// The `i`-th entry of the powers of the root in bit-reversed order.
    pub fn get_roots_of_unity_at(&self, i: usize) -> (r: ArkFr)
        requires
            i < self.fs.roots_of_unity@.len(),
        ensures
            r == self.fs.roots_of_unity@[i as int],
    {
        self.fs.get_roots_of_unity_at(i)
    }

    /// The domain of roots of unity.
    pub fn get_fft_settings(&self) -> (r: &FFTSettings)
        ensures
            r == &self.fs,
    {
        &self.fs
    }

    /// The reference string in G1.
    pub fn get_g1_secret(&self) -> (r: &[ArkG1])
        ensures
            r@ == self.secret_g1@,
    {
        self.secret_g1.as_slice()
    }

    /// The reference string in G2.
    pub fn get_g2_secret(&self) -> (r: &[ArkG2])
        ensures
            r@ == self.secret_g2@,
    {
        self.secret_g2.as_slice()
    }
}

/// The linear combination of two sums of coefficients is the sum of the two
/// linear combinations.
pub proof fn lemma_lincomb_additive(g: Seq<nat>, p: Seq<nat>, q: Seq<nat>, n: nat)
    requires
        p.len() == q.len(),
        n <= p.len(),
    ensures
        lincomb(g, poly_sum(p, q), n) == fr_add(lincomb(g, p, n), lincomb(g, q, n)),
    decreases n,
{
    lemma_reduce_small(0);
    if n > 0 {
        let m = (n - 1) as nat;
        lemma_lincomb_additive(g, p, q, m);
        let a = lincomb(g, p, m);
        let b = lincomb(g, q, m);
        let ai = a as int;
        let bi = b as int;
        let gi = g[n - 1] as int;
        let pi = p[n - 1] as int;
        let qi = q[n - 1] as int;
        // left: (a + b) + g * (p + q)
        lemma_add_c(a, b, ai, bi);
        lemma_add_c(p[n - 1], q[n - 1], pi, qi);
        lemma_mul_c(g[n - 1], fr_add(p[n - 1], q[n - 1]), gi, pi + qi);
        lemma_add_c(
            fr_add(a, b),
            fr_mul(g[n - 1], fr_add(p[n - 1], q[n - 1])),
            ai + bi,
            gi * (pi + qi),
        );
        // right: (a + g * p) + (b + g * q)
        lemma_mul_c(g[n - 1], p[n - 1], gi, pi);
        lemma_mul_c(g[n - 1], q[n - 1], gi, qi);
        lemma_add_c(a, fr_mul(g[n - 1], p[n - 1]), ai, gi * pi);
        lemma_add_c(b, fr_mul(g[n - 1], q[n - 1]), bi, gi * qi);
        lemma_add_c(lincomb(g, p, n), lincomb(g, q, n), ai + gi * pi, bi + gi * qi);
        assert((ai + bi) + gi * (pi + qi) == (ai + gi * pi) + (bi + gi * qi) + 0 * modulus())
            by (nonlinear_arith);
        lemma_cong_eq(
            lincomb(g, poly_sum(p, q), n),
            fr_add(lincomb(g, p, n), lincomb(g, q, n)),
            (ai + bi) + gi * (pi + qi),
            (ai + gi * pi) + (bi + gi * qi),
            0,
        );
    }
}

/// The commitment is additive: the commitment to the sum of two polynomials
/// of one length is the sum of their commitments.
pub proof fn lemma_commitment_additive(g: Seq<nat>, p: Seq<nat>, q: Seq<nat>)
    requires
        p.len() == q.len(),
        p.len() <= g.len(),
    ensures
        commitment(g, poly_sum(p, q)) == fr_add(commitment(g, p), commitment(g, q)),
{
    lemma_lincomb_additive(g, p, q, p.len());
}

/// Against the powers of a secret `s`, the linear combination with the first
/// `n` coefficients of `p` is the value at `s` of the polynomial of those
/// coefficients.
pub proof fn lemma_lincomb_is_eval(g: Seq<nat>, s: nat, p: Seq<nat>, n: nat)
    requires
        n <= p.len(),
        n <= g.len(),
        forall|i: int| 0 <= i < n ==> g[i] == fr_pow(s, i as nat),
    ensures
        lincomb(g, p, n) == poly_eval(p.take(n as int), s),
    decreases n,
{
    if n == 0 {
        assert(p.take(0).len() == 0);
    } else {
        let m = (n - 1) as nat;
        lemma_lincomb_is_eval(g, s, p, m);
        assert(p.take(n as int) =~= p.take(m as int).push(p[m as int]));
        lemma_eval_push(p.take(m as int), p[m as int], s);
    }
}

/// Against the reference string of a secret `s`, the commitment to `p` is
/// the value of `p` at `s`, in the exponent.
pub proof fn lemma_commitment_is_eval(g: Seq<nat>, s: nat, p: Seq<nat>)
    requires
        p.len() <= g.len(),
        forall|i: int| 0 <= i < p.len() ==> g[i] == fr_pow(s, i as nat),
    ensures
        commitment(g, p) == poly_eval(p, s),
{
    lemma_lincomb_is_eval(g, s, p, p.len());
    assert(p.take(p.len() as int) =~= p);
}

/// The quotient by `X - x` times `s - x` is `p(s) - p(x)`, at every `s`.
pub proof fn lemma_quotient_single(p: Seq<nat>, x: nat, s: nat)
    requires
        p.len() >= 1,
    ensures
        fr_mul(poly_eval(quotient_single(p, x), s), fr_sub(s, x)) == fr_sub(
            poly_eval(p, s),
            poly_eval(p, x),
        ),
    decreases p.len(),
{
    let q = quotient_single(p, x);
    let p1 = p.skip(1);
    let si = s as int;
    let xi = x as int;
    let p0 = p[0] as int;
    lemma_reduce_small(0);
    lemma_sub_c(s, x, si, xi);
    if p.len() == 1 {
        assert(q.len() == 0);
        assert(p1.len() == 0);
        lemma_fr_mul_zero(fr_sub(s, x));
        lemma_fr_mul_zero(s);
        lemma_fr_mul_zero(x);
        assert(poly_eval(p1, s) == 0);
        assert(poly_eval(p1, x) == 0);
        assert(poly_eval(p, s) == poly_eval(p, x));
    } else {
        let q1 = quotient_single(p1, x);
        lemma_quotient_single(p1, x, s);
        assert(q.skip(1) =~= q1) by {
            assert forall|k: int| 0 <= k < q1.len() implies q.skip(1)[k] == q1[k] by {
                assert(p.skip(k + 2) =~= p1.skip(k + 1));
            }
        }
        let vx = poly_eval(p1, x);
        let vs = poly_eval(p1, s);
        assert(q[0] == vx);
        let qs = poly_eval(q1, s);
        let vxi = vx as int;
        let vsi = vs as int;
        let qi = qs as int;
        // the induction hypothesis as a congruence of integers
        lemma_mul_c(qs, fr_sub(s, x), qi, si - xi);
        lemma_sub_c(vs, vx, vsi, vxi);
        assert(cong(qi * (si - xi), vsi - vxi));
        // left: (vx + s * qs) * (s - x)
        lemma_mul_c(s, qs, si, qi);
        lemma_add_c(vx, fr_mul(s, qs), vxi, si * qi);
        lemma_mul_c(poly_eval(q, s), fr_sub(s, x), vxi + si * qi, si - xi);
        assert((vxi + si * qi) * (si - xi) == vxi * (si - xi) + si * (qi * (si - xi)))
            by (nonlinear_arith);
        lemma_cong_mul(si, si, qi * (si - xi), vsi - vxi);
        lemma_cong_add(vxi * (si - xi), vxi * (si - xi), si * (qi * (si - xi)), si * (vsi - vxi));
        // right: (p0 + s * vs) - (p0 + x * vx)
        lemma_mul_c(s, vs, si, vsi);
        lemma_add_c(p[0], fr_mul(s, vs), p0, si * vsi);
        lemma_mul_c(x, vx, xi, vxi);
        lemma_add_c(p[0], fr_mul(x, vx), p0, xi * vxi);
        lemma_sub_c(poly_eval(p, s), poly_eval(p, x), p0 + si * vsi, p0 + xi * vxi);
        assert(vxi * (si - xi) + si * (vsi - vxi) == (p0 + si * vsi) - (p0 + xi * vxi) + 0
            * modulus()) by (nonlinear_arith);
        lemma_cong_eq(
            fr_mul(poly_eval(q, s), fr_sub(s, x)),
            fr_sub(poly_eval(p, s), poly_eval(p, x)),
            vxi * (si - xi) + si * (vsi - vxi),
            (p0 + si * vsi) - (p0 + xi * vxi),
            0,
        );
    }
}

/// A proof for one point is sound and complete. With the reference string of
/// a secret `s`, the commitment to a polynomial `p` and the proof computed
/// for the point `x`, the check accepts a canonical value `y` exactly when
/// `y` is the value of `p` at `x`.
pub proof fn lemma_single_proof_verifies(ks: KZGSettings, s: nat, p: Seq<nat>, x: nat, y: nat)
    requires
        ks.is_srs_of(s),
        ks.secret_g2@.len() >= 2,
        1 <= p.len() <= ks.secret_g1@.len(),
        is_fr(y),
    ensures
        check_single(
            commitment(ks.g1_powers(), p),
            commitment(ks.g1_powers(), quotient_single(p, x)),
            ks.g2_powers()[1],
            x,
            y,
        ) == (y == poly_eval(p, x)),
{
    let g = ks.g1_powers();
    let q = quotient_single(p, x);
    let c = commitment(g, p);
    let pr = commitment(g, q);
    let s1 = ks.g2_powers()[1];
    assert forall|i: int| 0 <= i < p.len() implies g[i] == fr_pow(s, i as nat) by {
        assert(ks.g1_powers()[i] == fr_pow(s, i as nat));
    }
    lemma_commitment_is_eval(g, s, p);
    lemma_commitment_is_eval(g, s, q);
    lemma_quotient_single(p, x, s);
    lemma_poly_eval_is_fr(p, s);
    lemma_poly_eval_is_fr(p, x);
    lemma_poly_eval_is_fr(q, s);
    let px = poly_eval(p, x);
    // the left side of the check is c - y
    lemma_fr_mul_one(y);
    lemma_ops_are_fr(c, y);
    lemma_fr_mul_one(fr_sub(c, y));
    // the right side is pr * (s - x)
    assert(s1 == fr_pow(s, 1));
    lemma_fr_pow_one(s);
    lemma_fr_mul_one(x);
    let si = s as int;
    let xi = x as int;
    lemma_reduce_cong(si);
    lemma_reduce_cong(xi);
    lemma_sub_c(s1, fr_mul(1, x), si, xi);
    lemma_sub_c(s, x, si, xi);
    lemma_cong_eq(fr_sub(s1, fr_mul(1, x)), fr_sub(s, x), si - xi, si - xi, 0);
    if fr_sub(c, y) == fr_sub(c, px) {
        lemma_fr_sub_injective(c, y, px);
    }
}

/// What a division leaves: the coefficients of `p - q * d` below the degree
/// of `d`.
pub open spec fn remainder_of(p: Seq<nat>, q: Seq<nat>, d: Seq<nat>) -> Seq<nat> {
    Seq::new((d.len() - 1) as nat, |i: int| fr_sub(p[i], conv_coeff(q, d, i)))
}

/// A polynomial is its quotient times the divisor plus what is left, at
/// every point.
pub proof fn lemma_division_identity(p: Seq<nat>, q: Seq<nat>, d: Seq<nat>, z: nat)
    requires
        is_quotient(q, p, d),
        all_fr(p),
    ensures
        poly_eval(p, z) == fr_add(
            fr_mul(poly_eval(q, z), poly_eval(d, z)),
            poly_eval(remainder_of(p, q, d), z),
        ),
{
    let len = p.len();
    let m = (d.len() - 1) as nat;
    let prod = poly_product(q, d, len);
    let rem = remainder_of(p, q, d);
    let rp = rem + poly_zero((len - m) as nat);
    lemma_reduce_small(0);
    assert forall|j: int| 0 <= j < len implies #[trigger] p[j] == poly_sum(prod, rp)[j] by {
        lemma_reduce_small(p[j] as int);
        lemma_conv_range_is_fr(q, d, j, 0, q.len() as int);
        if j < m {
            lemma_fr_add_sub_cancel(p[j], prod[j]);
        } else {
            assert(conv_coeff(q, d, j) == fr_reduce(p[j] as int));
            lemma_fr_add_zero(prod[j]);
        }
    }
    assert(p =~= poly_sum(prod, rp));
    lemma_eval_sum(prod, rp, z);
    lemma_eval_product(q, d, len, z);
    lemma_eval_pad(rem, (len - m) as nat, z);
}

/// The value of `X^n - x^n` at `z` is `z^n - x^n`.
pub proof fn lemma_coset_divisor_eval(x: nat, n: nat, z: nat)
    requires
        n >= 1,
    ensures
        poly_eval(coset_divisor(x, n), z) == fr_sub(fr_pow(z, n), fr_pow(x, n)),
{
    let c = fr_neg(fr_pow(x, n));
    let d = coset_divisor(x, n);
    let t = seq![c] + poly_zero((n - 1) as nat);
    assert(d =~= t.push(1));
    lemma_eval_push(t, 1, z);
    lemma_eval_pad(seq![c], (n - 1) as nat, z);
    lemma_reduce_small(0);
    lemma_ops_are_fr(fr_pow(x, n), 0);
    assert(seq![c].skip(1).len() == 0);
    assert(poly_eval(seq![c].skip(1), z) == 0);
    lemma_fr_mul_zero(z);
    lemma_fr_add_zero(c);
    assert(poly_eval(seq![c], z) == c);
    let zn = fr_pow(z, n);
    let xn = fr_pow(x, n);
    let zi = zn as int;
    let xi = xn as int;
    lemma_neg_c(xn, xi);
    lemma_mul_c(zn, 1, zi, 1);
    lemma_add_c(c, fr_mul(zn, 1), -xi, zi * 1);
    lemma_sub_c(zn, xn, zi, xi);
    lemma_cong_eq(fr_add(c, fr_mul(zn, 1)), fr_sub(zn, xn), -xi + zi * 1, zi - xi, 0);
}

/// On the coset of `x` by the powers of a root of unity of order `n`, the
/// `n`-th power is that of `x`.
pub proof fn lemma_coset_power(x: nat, w: nat, n: nat, i: nat)
    requires
        fr_pow(w, n) == 1,
    ensures
        fr_pow(fr_mul(x, fr_pow(w, i)), n) == fr_pow(x, n),
{
    let u = fr_pow(w, i);
    crate::field::lemma_fr_pow_of_mul(x, u, n);
    crate::field::lemma_fr_pow_mul(w, i, n);
    crate::field::lemma_fr_pow_mul(w, n, i);
    assert(i * n == n * i) by (nonlinear_arith);
    crate::field::lemma_fr_pow_of_one(i);
    crate::field::lemma_fr_pow_cong(x, n);
    lemma_fr_mul_one(fr_pow(x, n));
}

/// The polynomial that is left of `p` after the division by `X^n - x^n` is
/// the one that interpolates the values of `p` on the coset of `x`.
pub proof fn lemma_coset_interpolation(
    p: Seq<nat>,
    q: Seq<nat>,
    x: nat,
    w: nat,
    n: nat,
    ys: Seq<nat>,
)
    requires
        is_dft_root(w, n),
        invertible(x),
        all_fr(p),
        is_quotient(q, p, coset_divisor(x, n)),
        ys.len() == n,
        forall|i: int| 0 <= i < n ==> #[trigger] ys[i] == poly_eval(p, fr_mul(x, fr_pow(w, i as nat))),
    ensures
        coset_interpolation(ys, x, w) == remainder_of(p, q, coset_divisor(x, n)),
{
    let d = coset_divisor(x, n);
    let rem = remainder_of(p, q, d);
    let shifted = poly_scaled(rem, x);
    lemma_reduce_small(0);
    assert(all_fr(rem)) by {
        assert forall|i: int| 0 <= i < rem.len() implies is_fr(#[trigger] rem[i]) by {
            lemma_ops_are_fr(p[i], conv_coeff(q, d, i));
        }
    }
    assert(all_fr(shifted)) by {
        assert forall|i: int| 0 <= i < shifted.len() implies is_fr(#[trigger] shifted[i]) by {
            lemma_ops_are_fr(rem[i], fr_pow(x, i as nat));
        }
    }
    assert forall|i: int| 0 <= i < n implies #[trigger] ys[i] == dft(shifted, w)[i] by {
        let u = fr_pow(w, i as nat);
        let z = fr_mul(x, u);
        lemma_division_identity(p, q, d, z);
        lemma_coset_divisor_eval(x, n, z);
        lemma_coset_power(x, w, n, i as nat);
        let xn = fr_pow(x, n);
        assert(fr_sub(xn, xn) == 0);
        lemma_fr_mul_zero(poly_eval(q, z));
        lemma_poly_eval_is_fr(rem, z);
        lemma_fr_add_zero(poly_eval(rem, z));
        lemma_eval_scaled(rem, x, u);
    }
    assert(ys =~= dft(shifted, w));
    lemma_idft_dft(shifted, w);
    lemma_unscale_scale(rem, x);
}

/// A proof for a coset is complete. With the reference string of a secret
/// `s`, the commitment to a polynomial `p`, the commitment to its quotient
/// `q` by `X^n - x^n`, and the values `ys` of `p` on the coset of `x` by the
/// roots of unity of order `n`, the check accepts.
pub proof fn lemma_multi_proof_verifies(
    ks: KZGSettings,
    s: nat,
    p: Seq<nat>,
    q: Seq<nat>,
    x: nat,
    n: nat,
    ys: Seq<nat>,
)
    requires
        ks.fs.wf(),
        ks.is_srs_of(s),
        is_power_of_two(n),
        n <= ks.fs.max_width,
        n < ks.secret_g2@.len(),
        all_fr(p),
        n < p.len() <= ks.secret_g1@.len(),
        invertible(x),
        is_quotient(q, p, coset_divisor(x, n)),
        ys.len() == n,
        forall|i: int|
            0 <= i < n ==> #[trigger] ys[i] == poly_eval(
                p,
                fr_mul(x, fr_pow(ks.fs.domain_root(n), i as nat)),
            ),
    ensures
        check_multi(
            commitment(ks.g1_powers(), p),
            commitment(ks.g1_powers(), q),
            ks.g2_powers()[n as int],
            x,
            n,
            commitment(ks.g1_powers(), coset_interpolation(ys, x, ks.fs.domain_root(n))),
        ),
{
    let w = ks.fs.domain_root(n);
    lemma_domain_root(&ks.fs, n);
    lemma_coset_interpolation(p, q, x, w, n, ys);
    lemma_multi_proof_exact(ks, s, p, q, x, n, ys);
}

/// A proof for a coset is sound up to the secret. With the reference string
/// of a secret `s`, the commitment to `p` and the commitment to its quotient
/// `q` by `X^n - x^n`, the check accepts values `ys` exactly when the
/// polynomial that interpolates them on the coset has at `s` the value of
/// what the division leaves of `p`: which is the polynomial that
/// interpolates the true values.
pub proof fn lemma_multi_proof_exact(
    ks: KZGSettings,
    s: nat,
    p: Seq<nat>,
    q: Seq<nat>,
    x: nat,
    n: nat,
    ys: Seq<nat>,
)
    requires
        ks.is_srs_of(s),
        n >= 1,
        n < ks.secret_g2@.len(),
        all_fr(p),
        n < p.len() <= ks.secret_g1@.len(),
        is_quotient(q, p, coset_divisor(x, n)),
        ys.len() == n,
    ensures
        check_multi(
            commitment(ks.g1_powers(), p),
            commitment(ks.g1_powers(), q),
            ks.g2_powers()[n as int],
            x,
            n,
            commitment(ks.g1_powers(), coset_interpolation(ys, x, ks.fs.domain_root(n))),
        ) == (poly_eval(coset_interpolation(ys, x, ks.fs.domain_root(n)), s) == poly_eval(
            remainder_of(p, q, coset_divisor(x, n)),
            s,
        )),
{
    let g = ks.g1_powers();
    let d = coset_divisor(x, n);
    let rem = remainder_of(p, q, d);
    let interp = coset_interpolation(ys, x, ks.fs.domain_root(n));
    assert forall|i: int| 0 <= i < p.len() implies g[i] == fr_pow(s, i as nat) by {
        assert(ks.g1_powers()[i] == fr_pow(s, i as nat));
    }
    lemma_commitment_is_eval(g, s, p);
    lemma_commitment_is_eval(g, s, q);
    lemma_commitment_is_eval(g, s, interp);
    lemma_division_identity(p, q, d, s);
    lemma_coset_divisor_eval(x, n, s);
    let ps = poly_eval(p, s);
    let qs = poly_eval(q, s);
    let rs = poly_eval(rem, s);
    let is = poly_eval(interp, s);
    let sn = fr_pow(s, n);
    let xn = fr_pow(x, n);
    lemma_poly_eval_is_fr(p, s);
    lemma_poly_eval_is_fr(q, s);
    lemma_poly_eval_is_fr(rem, s);
    lemma_poly_eval_is_fr(interp, s);
    assert(ks.g2_powers()[n as int] == sn);
    // the right side of the check is q(s) (s^n - x^n) = p(s) - rem(s)
    crate::field::lemma_fr_pow_cong(x, n);
    lemma_fr_mul_one(xn);
    let dz = fr_sub(sn, xn);
    let qi = qs as int;
    let di = dz as int;
    let ri = rs as int;
    lemma_mul_c(qs, dz, qi, di);
    lemma_add_c(fr_mul(qs, dz), rs, qi * di, ri);
    lemma_sub_c(ps, rs, qi * di + ri, ri);
    lemma_cong_eq(fr_sub(ps, rs), fr_mul(qs, dz), qi * di + ri - ri, qi * di, 0);
    // the left side is p(s) - interp(s)
    lemma_ops_are_fr(ps, is);
    lemma_fr_mul_one(fr_sub(ps, is));
    if fr_sub(ps, is) == fr_sub(ps, rs) {
        lemma_fr_sub_injective(ps, is, rs);
    }
}

} // verus!
