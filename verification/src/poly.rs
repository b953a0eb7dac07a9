//! Dense polynomials over the scalar field: a vector of coefficients,
//! constant term first. The length is the caller's: trailing zeros are kept.
use crate::convolution::{lemma_conv_coeff_take, poly_zero};
use crate::series::{
    flipped, lemma_conv_coeff_zero, lemma_newton_start, lemma_newton_step, lemma_series_quotient,
    newton_step,
};
use crate::error::KzgError;
use crate::fft::FFTSettings;
use crate::field::{
    fr_add, fr_inv, fr_mul, fr_neg, fr_pow, fr_reduce, fr_sub, is_fr, is_inverse_of, lemma_add_c,
    lemma_cong_canonical, lemma_cong_mul, lemma_fr_add_comm, lemma_fr_add_zero, lemma_fr_mul_assoc,
    lemma_fr_mul_comm, lemma_fr_mul_one, lemma_fr_pow_succ, lemma_fr_pow_zero, lemma_mul_c,
    lemma_neg_c, lemma_ops_are_fr, lemma_reduce_small,
};
use crate::polymath::{
    all_fr, conv_coeff, conv_range, conv_term, is_quotient, is_series_inverse,
    lemma_conv_range_frame, lemma_conv_range_is_fr, lemma_conv_range_split,
    lemma_fr_add_sub_cancel, lemma_fr_sub_sub, poly_eval, poly_product, poly_scaled,
};
use crate::scalar::{all_wf, ArkFr, copy_of, fr_values, zeros};
use vstd::prelude::*;

verus! {

/// The constant that `scale` and `unscale` shift a polynomial by.
pub const SCALE_FACTOR: u64 = 5;

/// A polynomial: its coefficients, constant term first.
#[derive(Clone, Debug, PartialEq, Eq)]
pub struct Poly {
    pub coeffs: Vec<ArkFr>,
}

impl View for Poly {
    type V = Seq<nat>;

    /// The integers of the coefficients.
    open spec fn view(&self) -> Seq<nat> {
        fr_values(self.coeffs@)
    }
}

impl Poly {
    /// Every coefficient is a canonical residue.
    pub open spec fn wf(&self) -> bool {
        all_wf(self.coeffs@)
    }

    /// The polynomial of `size` zero coefficients.
    pub fn new(size: usize) -> (r: Self)
        ensures
            r@ == Seq::new(size as nat, |i: int| 0nat),
            r.coeffs@.len() == size,
            r.wf(),
    {
        let r = Poly { coeffs: zeros(size) };
        assert(r@ =~= Seq::new(size as nat, |i: int| 0nat));
        r
    }

    /// The coefficient of index `i`.
    pub fn get_coeff_at(&self, i: usize) -> (r: ArkFr)
        requires
            i < self.coeffs@.len(),
        ensures
            r == self.coeffs@[i as int],
    {
        self.coeffs[i]
    }

    /// Sets the coefficient of index `i`.
    pub fn set_coeff_at(&mut self, i: usize, x: &ArkFr)
        requires
            i < old(self).coeffs@.len(),
        ensures
            final(self).coeffs@ == old(self).coeffs@.update(i as int, *x),
    {
        self.coeffs.set(i, *x);
    }

    /// The coefficients, constant term first.
    pub fn get_coeffs(&self) -> (r: &[ArkFr])
        ensures
            r@ == self.coeffs@,
    {
        self.coeffs.as_slice()
    }

    /// The number of coefficients.
    pub fn len(&self) -> (r: usize)
        ensures
            r == self.coeffs@.len(),
    {
        self.coeffs.len()
    }

    /// A copy of the polynomial.
    pub fn copy(&self) -> (r: Self)
        ensures
            r.coeffs@ == self.coeffs@,
    {
        Poly { coeffs: copy_of(self.coeffs.as_slice()) }
    }

    /// The value of the polynomial at `x`, by Horner's rule from the highest
    /// coefficient down. The empty polynomial evaluates to zero.
    pub fn eval(&self, x: &ArkFr) -> (r: ArkFr)
        ensures
            r@ == poly_eval(self@, x@),
            r.wf(),
    {
        let n = self.coeffs.len();
        let mut acc = ArkFr::zero();
        let mut i: usize = n;
        assert(self@.skip(n as int).len() == 0);
        while i > 0
            invariant
                i <= n,
                n == self.coeffs@.len(),
                acc@ == poly_eval(self@.skip(i as int), x@),
                acc.wf(),
            decreases i,
        {
            i -= 1;
            let ghost prev = acc@;
            acc = acc.mul(x).add(&self.coeffs[i]);
            proof {
                let s = self@.skip(i as int);
                assert(s.skip(1) =~= self@.skip(i + 1));
                assert(s[0] == self.coeffs@[i as int]@);
                lemma_fr_mul_comm(prev, x@);
                lemma_fr_add_comm(fr_mul(prev, x@), s[0]);
            }
        }
        assert(self@.skip(0) =~= self@);
        acc
    }

    /// Multiplies coefficient `i` by the `i`-th power of the scale factor.
    pub fn scale(&mut self)
        ensures
            final(self)@ == poly_scaled(old(self)@, SCALE_FACTOR as nat),
            final(self).wf(),
    {
        let factor = ArkFr::from_u64(SCALE_FACTOR);
        self.scale_by(&factor);
    }

    /// Multiplies coefficient `i` by the `i`-th power of the inverse of the
    /// scale factor. On a polynomial of canonical coefficients that `scale`
    /// has scaled, this gives the polynomial back.
    pub fn unscale(&mut self)
        ensures
            final(self)@ == poly_scaled(old(self)@, fr_inv(SCALE_FACTOR as nat)),
            final(self).wf(),
            forall|p: Seq<nat>|
                all_fr(p) && old(self)@ == poly_scaled(p, SCALE_FACTOR as nat) ==> final(self)@
                    == p,
    {
        let factor = ArkFr::from_u64(SCALE_FACTOR);
        proof {
            lemma_reduce_small(SCALE_FACTOR as int);
        }
        let inv_factor = factor.inverse();
        self.scale_by(&inv_factor);
        proof {
            assert forall|p: Seq<nat>|
                all_fr(p) && old(self)@ == poly_scaled(p, SCALE_FACTOR as nat) implies self@
                == p by {
                crate::transform::lemma_unscale_scale(p, SCALE_FACTOR as nat);
            }
        }
    }

    /// Multiplies coefficient `i` by the `i`-th power of `factor`.
    pub fn scale_by(&mut self, factor: &ArkFr)
        ensures
            final(self)@ == poly_scaled(old(self)@, factor@),
            final(self).coeffs@.len() == old(self).coeffs@.len(),
            final(self).wf(),
    {
        let n = self.coeffs.len();
        let mut factor_power = ArkFr::one();
        let mut i: usize = 0;
        proof {
            lemma_fr_pow_zero(factor@);
        }
        while i < n
            invariant
                i <= n,
                n == self.coeffs@.len(),
                n == old(self).coeffs@.len(),
                factor_power@ == fr_pow(factor@, i as nat),
                forall|j: int|
                    0 <= j < i ==> (#[trigger] self.coeffs@[j])@ == fr_mul(
                        old(self).coeffs@[j]@,
                        fr_pow(factor@, j as nat),
                    ),
                forall|j: int| 0 <= j < i ==> (#[trigger] self.coeffs@[j]).wf(),
                forall|j: int| i <= j < n ==> self.coeffs@[j] == old(self).coeffs@[j],
            decreases n - i,
        {
            let c = self.coeffs[i].mul(&factor_power);
            self.coeffs.set(i, c);
            proof {
                lemma_fr_pow_succ(factor@, i as nat);
            }
            factor_power = factor_power.mul(factor);
            i += 1;
        }
        assert(self@ =~= poly_scaled(old(self)@, factor@));
    }

    /// The first `len` coefficients of the product with `x`, each by the
    /// schoolbook sum; beyond the degree of the product they are zero.
    pub fn mul_direct(&self, x: &Self, len: usize) -> (r: Result<Self, KzgError>)
        ensures
            r is Ok,
            r->Ok_0@ == poly_product(self@, x@, len as nat),
            r->Ok_0.coeffs@.len() == len,
            r->Ok_0.wf(),
    {
        let n = self.coeffs.len();
        let m = x.coeffs.len();
        let mut out: Vec<ArkFr> = Vec::new();
        let mut k: usize = 0;
        while k < len
            invariant
                k <= len,
                n == self.coeffs@.len(),
                m == x.coeffs@.len(),
                out@.len() == k,
                forall|j: int| 0 <= j < k ==> (#[trigger] out@[j])@ == conv_coeff(self@, x@, j),
                all_wf(out@),
            decreases len - k,
        {
            let mut acc = ArkFr::zero();
            let mut i: usize = n;
            while i > 0
                invariant
                    i <= n,
                    k < len,
                    n == self.coeffs@.len(),
                    m == x.coeffs@.len(),
                    acc@ == conv_range(self@, x@, k as int, i as int, n as int),
                    acc.wf(),
                decreases i,
            {
                i -= 1;
                if i <= k && k - i < m {
                    let t = self.coeffs[i].mul(&x.coeffs[k - i]);
                    proof {
                        lemma_fr_add_comm(acc@, t@);
                    }
                    acc = acc.add(&t);
                } else {
                    proof {
                        lemma_fr_add_zero(acc@);
                    }
                }
            }
            out.push(acc);
            k += 1;
        }
        let r = Poly { coeffs: out };
        assert(r@ =~= poly_product(self@, x@, len as nat));
        Ok(r)
    }

    /// The quotient of the schoolbook long division by `divisor`; the
    /// remainder is dropped. It fails for an empty divisor, for one whose
    /// highest coefficient is zero, and for one that is longer than the
    /// dividend.
    pub fn long_div(&self, divisor: &Self) -> (r: Result<Self, KzgError>)
        requires
            self.wf(),
            divisor.wf(),
        ensures
            match r {
                Ok(q) => divisor@.len() > 0 && divisor@.last() != 0 && is_quotient(
                    q@,
                    self@,
                    divisor@,
                ) && q.wf(),
                Err(e) => e == KzgError::DivisionError && (divisor@.len() == 0 || divisor@.last()
                    == 0 || self@.len() < divisor@.len()),
            },
    {
        let dl = divisor.coeffs.len();
        if dl == 0 {
            return Err(KzgError::DivisionError);
        }
        let lead = divisor.coeffs[dl - 1];
        assert(divisor@.last() == lead@);
        if lead.is_zero() {
            return Err(KzgError::DivisionError);
        }
        let n = self.coeffs.len();
        if n < dl {
            return Err(KzgError::DivisionError);
        }
        let m = dl - 1;
        proof {
            assert(lead.wf());
            lemma_reduce_small(lead@ as int);
        }
        let lead_inv = lead.inverse();
        let qlen = n - m;
        let mut a = copy_of(self.coeffs.as_slice());
        let mut q = zeros(qlen);
        let mut diff: usize = qlen;
        let ghost p = self@;
        let ghost d = divisor@;
        proof {
            assert forall|j: int| 0 <= j < n implies (#[trigger] a@[j])@ == fr_sub(
                fr_reduce(p[j] as int),
                conv_range(fr_values(q@), d, j, diff as int, qlen as int),
            ) by {
                assert(self.coeffs@[j].wf());
                lemma_reduce_small(p[j] as int);
            }
        }
        while diff > 0
            invariant
                diff <= qlen,
                qlen == n - m,
                dl == m + 1,
                n == self.coeffs@.len(),
                dl == divisor.coeffs@.len(),
                a@.len() == n,
                q@.len() == qlen,
                p == self@,
                d == divisor@,
                all_wf(q@),
                is_inverse_of(lead_inv@, d[m as int]),
                is_fr(d[m as int]),
                forall|j: int|
                    0 <= j < n ==> (#[trigger] a@[j])@ == fr_sub(
                        fr_reduce(p[j] as int),
                        conv_range(fr_values(q@), d, j, diff as int, qlen as int),
                    ),
                forall|j: int|
                    diff + m <= j < n ==> #[trigger] conv_range(
                        fr_values(q@),
                        d,
                        j,
                        diff as int,
                        qlen as int,
                    ) == fr_reduce(p[j] as int),
            decreases diff,
        {
            diff -= 1;
            let ghost a_old = a@;
            let ghost q_old = fr_values(q@);
            let c = a[diff + m].mul(&lead_inv);
            q.set(diff, c);
            let ghost qv = fr_values(q@);
            let mut i: usize = 0;
            while i <= m
                invariant
                    i <= m + 1,
                    diff + m < n,
                    dl == m + 1,
                    dl == divisor.coeffs@.len(),
                    d == divisor@,
                    a@.len() == n,
                    a_old.len() == n,
                    forall|j: int|
                        diff <= j < diff + i ==> (#[trigger] a@[j])@ == fr_sub(
                            a_old[j]@,
                            fr_mul(c@, d[j - diff]),
                        ),
                    forall|j: int|
                        0 <= j < n && !(diff <= j < diff + i) ==> #[trigger] a@[j] == a_old[j],
                decreases m + 1 - i,
            {
                let t = c.mul(&divisor.coeffs[i]);
                let v = a[diff + i].sub(&t);
                a.set(diff + i, v);
                i += 1;
            }
            proof {
                assert forall|j: int| 0 <= j < n implies (#[trigger] a@[j])@ == fr_sub(
                    fr_reduce(p[j] as int),
                    conv_range(qv, d, j, diff as int, qlen as int),
                ) && (diff + m <= j ==> conv_range(qv, d, j, diff as int, qlen as int)
                    == fr_reduce(p[j] as int)) by {
                    let c_old = conv_range(q_old, d, j, diff + 1, qlen as int);
                    lemma_conv_range_frame(q_old, qv, d, j, diff + 1, qlen as int);
                    lemma_conv_range_is_fr(q_old, d, j, diff + 1, qlen as int);
                    let t = conv_term(qv, d, j, diff as int);
                    assert(conv_range(qv, d, j, diff as int, qlen as int) == fr_add(t, c_old));
                    let pj = fr_reduce(p[j] as int);
                    assert(a_old[j]@ == fr_sub(pj, c_old));
                    if diff <= j <= diff + m {
                        assert(t == fr_mul(c@, d[j - diff]));
                        lemma_fr_sub_sub(pj, c_old, t);
                        if j == diff + m {
                            // t = a_old[j] * lead_inv * lead = a_old[j]
                            let x = a_old[j]@;
                            lemma_ops_are_fr(pj, c_old);
                            lemma_fr_mul_assoc(x, lead_inv@, d[m as int]);
                            lemma_fr_mul_comm(lead_inv@, d[m as int]);
                            lemma_fr_mul_one(x);
                            assert(t == x);
                            lemma_fr_add_sub_cancel(pj, c_old);
                            lemma_fr_add_comm(t, c_old);
                            crate::field::lemma_reduce_cong(p[j] as int);
                        }
                    } else {
                        assert(t == 0);
                        lemma_fr_add_zero(c_old);
                    }
                }
                assert forall|j: int| diff + m <= j < n implies #[trigger] conv_range(
                    fr_values(q@),
                    d,
                    j,
                    diff as int,
                    qlen as int,
                ) == fr_reduce(p[j] as int) by {
                    assert(a@[j]@ == fr_sub(
                        fr_reduce(p[j] as int),
                        conv_range(qv, d, j, diff as int, qlen as int),
                    ));
                }
            }
        }
        let r = Poly { coeffs: q };
        proof {
            assert forall|j: int| d.len() - 1 <= j < p.len() implies #[trigger] conv_coeff(
                r@,
                d,
                j,
            ) == fr_reduce(p[j] as int) by {
                assert(conv_range(fr_values(q@), d, j, 0, qlen as int) == fr_reduce(p[j] as int));
            }
            assert(all_fr(r@));
        }
        Ok(r)
    }
}

/// `scale` and then `unscale` is the identity on a polynomial of canonical
/// coefficients.
pub proof fn lemma_scale_then_unscale(p: Seq<nat>)
    requires
        all_fr(p),
    ensures
        poly_scaled(poly_scaled(p, SCALE_FACTOR as nat), fr_inv(SCALE_FACTOR as nat)) == p,
{
    crate::transform::lemma_five_invertible();
    crate::transform::lemma_unscale_scale(p, SCALE_FACTOR as nat);
}

/// The length of the divisor from which `div` divides through the transform.
pub const FAST_DIV_THRESHOLD: usize = 128;

/// The sum of a term of a power series product that is built so as to vanish:
/// `s + (-(inv * s)) * p0 == 0` where `inv` is the inverse of `p0`.
proof fn lemma_series_step(s: nat, inv: nat, p0: nat)
    requires
        is_inverse_of(inv, p0),
        is_fr(s),
    ensures
        fr_add(fr_mul(fr_neg(fr_mul(inv, s)), p0), s) == 0,
{
    let si = s as int;
    let ii = inv as int;
    let pi = p0 as int;
    lemma_mul_c(inv, s, ii, si);
    lemma_neg_c(fr_mul(inv, s), ii * si);
    lemma_mul_c(fr_neg(fr_mul(inv, s)), p0, -(ii * si), pi);
    lemma_add_c(fr_mul(fr_neg(fr_mul(inv, s)), p0), s, (-(ii * si)) * pi, si);
    lemma_mul_c(p0, inv, pi, ii);
    lemma_cong_mul(-si, -si, pi * ii, 1);
    assert((-(ii * si)) * pi == (-si) * (pi * ii)) by (nonlinear_arith);
    crate::field::lemma_cong_add((-si) * (pi * ii), (-si) * 1, si, si);
    lemma_reduce_small(0);
    lemma_cong_canonical(fr_add(fr_mul(fr_neg(fr_mul(inv, s)), p0), s), 0);
}

impl Poly {
    /// The first `new_len` coefficients of the power series `1 / self`. A
    /// polynomial without a constant term, or with the constant term zero,
    /// has no such series.
    ///
    /// The coefficients come from Newton's iteration, with products through
    /// the transform, and are then checked by one more product; should the
    /// check ever fail, they are computed one by one instead.
    pub fn inverse(&self, new_len: usize) -> (r: Result<Self, KzgError>)
        requires
            self.wf(),
        ensures
            match r {
                Ok(v) => {
                    &&& self@.len() > 0
                    &&& self@[0] != 0
                    &&& v@.len() == new_len
                    &&& is_series_inverse(v@, self@)
                    &&& v.wf()
                },
                Err(e) => e == KzgError::DivisionError && (self@.len() == 0 || self@[0] == 0),
            },
    {
        if self.coeffs.len() == 0 {
            return Err(KzgError::DivisionError);
        }
        if self.coeffs[0].is_zero() {
            return Err(KzgError::DivisionError);
        }
        if new_len == 0 {
            let v = Poly::new(0);
            assert(all_fr(v@));
            return Ok(v);
        }
        let candidate = self.newton_inverse(new_len);
        if candidate.inverts(self) {
            Ok(candidate)
        } else {
            Ok(self.inverse_direct(new_len))
        }
    }

    /// Newton's iteration for the power series `1 / self`: an approximation
    /// to `k` coefficients `r` gives one to `2k` coefficients,
    /// `2r - self * r * r`.
    fn newton_inverse(&self, new_len: usize) -> (r: Self)
        requires
            self.wf(),
            self@.len() > 0,
            self@[0] != 0,
            new_len >= 1,
        ensures
            r@.len() == new_len,
            is_series_inverse(r@, self@),
            r.wf(),
    {
        proof {
            assert(self.coeffs@[0].wf());
            lemma_reduce_small(self@[0] as int);
        }
        let first = self.coeffs[0].inverse();
        let mut out = Poly::new(1);
        out.coeffs.set(0, first);
        let two = ArkFr::from_u64(2);
        proof {
            assert(out@ =~= seq![first@]);
            lemma_newton_start(self@, first@);
        }
        while out.coeffs.len() < new_len
            invariant
                1 <= out.coeffs@.len() <= new_len,
                out.wf(),
                self.wf(),
                two@ == 2,
                is_series_inverse(out@, self@),
            decreases new_len - out.coeffs@.len(),
        {
            let cur = out.coeffs.len();
            let next_len = if cur > new_len / 2 {
                new_len
            } else {
                2 * cur
            };
            let tmp0 = Self::product(self, &out, next_len);
            let tmp1 = Self::product(&tmp0, &out, next_len);
            let mut next = zeros(next_len);
            let mut i: usize = 0;
            let ghost target = newton_step(self@, out@, next_len as nat);
            while i < next_len
                invariant
                    i <= next_len,
                    cur < next_len,
                    cur == out.coeffs@.len(),
                    next@.len() == next_len,
                    tmp1.coeffs@.len() == next_len,
                    tmp1@ == poly_product(poly_product(self@, out@, next_len as nat), out@, next_len as nat),
                    target == newton_step(self@, out@, next_len as nat),
                    two@ == 2,
                    all_wf(next@),
                    forall|j: int| 0 <= j < i ==> (#[trigger] next@[j])@ == target[j],
                decreases next_len - i,
            {
                let doubled = if i < cur {
                    out.coeffs[i].mul(&two)
                } else {
                    ArkFr::zero()
                };
                proof {
                    crate::field::lemma_fr_mul_zero(2);
                    assert(tmp1.coeffs@[i as int]@ == tmp1@[i as int]);
                }
                next.set(i, doubled.sub(&tmp1.coeffs[i]));
                i += 1;
            }
            proof {
                lemma_newton_step(self@, out@, next_len as nat);
            }
            out = Poly { coeffs: next };
            assert(out@ =~= target);
        }
        out
    }

    /// The first `len` coefficients of the product of `a` and `b`, through
    /// the transform where a domain is wide enough, and directly where not.
    pub fn product(a: &Self, b: &Self, len: usize) -> (r: Self)
        requires
            a.wf(),
            b.wf(),
        ensures
            r@ == poly_product(a@, b@, len as nat),
            r.coeffs@.len() == len,
            r.wf(),
    {
        match FFTSettings::poly_mul_fft(a, b, len, None) {
            Ok(p) => p,
            Err(_) => {
                match a.mul_direct(b, len) {
                    Ok(p) => p,
                    Err(_) => Poly::new(0),
                }
            },
        }
    }

    /// Whether `self` holds the first coefficients of the power series
    /// `1 / p`: whether the product `self * p`, up to the length of `self`,
    /// is one.
    pub fn inverts(&self, p: &Self) -> (r: bool)
        requires
            self.wf(),
            p.wf(),
        ensures
            r == is_series_inverse(self@, p@),
    {
        let n = self.coeffs.len();
        let prod = Self::product(self, p, n);
        let mut k: usize = 0;
        proof {
            assert(all_fr(self@)) by {
                assert forall|i: int| 0 <= i < self@.len() implies is_fr(#[trigger] self@[i]) by {
                    assert(self.coeffs@[i].wf());
                }
            }
        }
        while k < n
            invariant
                k <= n,
                n == self.coeffs@.len(),
                prod.coeffs@.len() == n,
                prod@ == poly_product(self@, p@, n as nat),
                forall|j: int|
                    0 <= j < k ==> #[trigger] conv_coeff(self@, p@, j) == (if j == 0 {
                        1nat
                    } else {
                        0nat
                    }),
            decreases n - k,
        {
            let c = prod.coeffs[k];
            assert(c@ == prod@[k as int]);
            assert(prod@[k as int] == conv_coeff(self@, p@, k as int));
            let good = if k == 0 {
                c.is_one()
            } else {
                c.is_zero()
            };
            if !good {
                return false;
            }
            k += 1;
        }
        true
    }

    /// The power series `1 / self` coefficient by coefficient: each is what
    /// makes the next coefficient of the product with `self` vanish.
    fn inverse_direct(&self, new_len: usize) -> (r: Self)
        requires
            self.wf(),
            self@.len() > 0,
            self@[0] != 0,
            new_len >= 1,
        ensures
            r@.len() == new_len,
            is_series_inverse(r@, self@),
            r.wf(),
    {
        proof {
            assert(self.coeffs@[0].wf());
            lemma_reduce_small(self@[0] as int);
        }
        let p0 = self.coeffs[0];
        let inv = p0.inverse();
        let m = self.coeffs.len();
        let mut out = zeros(new_len);
        out.set(0, inv);
        let ghost p = self@;
        proof {
            let pre = fr_values(out@).take(1);
            assert(conv_range(pre, p, 0, 1, 1) == 0);
            assert(conv_term(pre, p, 0, 0) == fr_mul(inv@, p[0]));
            lemma_fr_mul_comm(inv@, p[0]);
            lemma_reduce_small(1);
        }
        let mut k: usize = 1;
        while k < new_len
            invariant
                1 <= k <= new_len,
                out@.len() == new_len,
                m == self.coeffs@.len(),
                m >= 1,
                p == self@,
                is_inverse_of(inv@, p[0]),
                all_wf(out@),
                self.wf(),
                forall|j: int|
                    0 <= j < k ==> #[trigger] conv_coeff(fr_values(out@).take(j + 1), p, j) == (
                    if j == 0 {
                        1nat
                    } else {
                        0nat
                    }),
            decreases new_len - k,
        {
            let ghost before = fr_values(out@);
            let mut acc = ArkFr::zero();
            let mut i: usize = k;
            while i > 0
                invariant
                    i <= k,
                    k < new_len,
                    out@.len() == new_len,
                    m == self.coeffs@.len(),
                    p == self@,
                    before == fr_values(out@),
                    acc@ == conv_range(before, p, k as int, i as int, k as int),
                    acc.wf(),
                decreases i,
            {
                i -= 1;
                if k - i < m {
                    let t = out[i].mul(&self.coeffs[k - i]);
                    proof {
                        lemma_fr_add_comm(acc@, t@);
                    }
                    acc = acc.add(&t);
                } else {
                    proof {
                        lemma_fr_add_zero(acc@);
                    }
                }
            }
            let v = inv.mul(&acc).negate();
            out.set(k, v);
            proof {
                let rv = fr_values(out@);
                let pre = rv.take(k + 1);
                let ki = k as int;
                assert forall|i: int| 0 <= i < ki implies #[trigger] conv_term(pre, p, ki, i)
                    == conv_term(before, p, ki, i + 0) by {
                    assert(pre[i] == before[i]);
                }
                crate::convolution::lemma_conv_range_terms(pre, p, ki, before, p, ki, 0, ki, 0);
                lemma_conv_range_split(pre, p, ki, 0, ki, ki + 1);
                assert(conv_range(pre, p, ki, ki + 1, ki + 1) == 0);
                assert(conv_term(pre, p, ki, ki) == fr_mul(v@, p[0]));
                lemma_ops_are_fr(v@, p[0]);
                lemma_fr_add_zero(fr_mul(v@, p[0]));
                lemma_series_step(acc@, inv@, p[0]);
                lemma_fr_add_comm(acc@, fr_mul(v@, p[0]));
                assert(conv_coeff(pre, p, ki) == 0);
                assert forall|j: int| 0 <= j < k + 1 implies #[trigger] conv_coeff(
                    rv.take(j + 1),
                    p,
                    j,
                ) == (if j == 0 {
                    1nat
                } else {
                    0nat
                }) by {
                    if j < k {
                        assert(rv.take(j + 1) =~= before.take(j + 1));
                    }
                }
            }
            k += 1;
        }
        let r = Poly { coeffs: out };
        proof {
            assert forall|j: int| 0 <= j < r@.len() implies #[trigger] conv_coeff(r@, p, j) == (
            if j == 0 {
                1nat
            } else {
                0nat
            }) by {
                lemma_conv_coeff_take(r@, p, j, j + 1, p.len() as int);
                assert(p.take(p.len() as int) =~= p);
            }
            assert(all_fr(r@)) by {
                assert forall|i: int| 0 <= i < r@.len() implies is_fr(#[trigger] r@[i]) by {
                    assert(r.coeffs@[i].wf());
                }
            }
        }
        r
    }

    /// The coefficients from the last to the first.
    pub fn flipped(&self) -> (r: Self)
        ensures
            r.coeffs@.len() == self.coeffs@.len(),
            forall|i: int|
                0 <= i < self.coeffs@.len() ==> #[trigger] r.coeffs@[i]
                    == self.coeffs@[self.coeffs@.len() - 1 - i],
            self.wf() ==> r.wf(),
    {
        Poly { coeffs: crate::fft::reversed(&self.coeffs) }
    }

    /// Whether `self` is the quotient of `p` by `d`: whether it has the
    /// length of the quotient and the product `self * d` agrees with `p` in
    /// every coefficient from the degree of `d` up.
    pub fn is_quotient_of(&self, p: &Self, d: &Self) -> (r: bool)
        requires
            self.wf(),
            p.wf(),
            d.wf(),
        ensures
            r == is_quotient(self@, p@, d@),
    {
        let dl = d.coeffs.len();
        let n = p.coeffs.len();
        if dl == 0 || n < dl {
            return false;
        }
        if self.coeffs.len() != n - dl + 1 {
            return false;
        }
        let prod = Self::product(self, d, n);
        proof {
            assert(all_fr(self@)) by {
                assert forall|i: int| 0 <= i < self@.len() implies is_fr(#[trigger] self@[i]) by {
                    assert(self.coeffs@[i].wf());
                }
            }
        }
        let mut j: usize = dl - 1;
        while j < n
            invariant
                dl - 1 <= j <= n,
                n == p.coeffs@.len(),
                dl == d.coeffs@.len(),
                p.wf(),
                prod.coeffs@.len() == n,
                prod@ == poly_product(self@, d@, n as nat),
                forall|i: int|
                    dl - 1 <= i < j ==> #[trigger] conv_coeff(self@, d@, i) == fr_reduce(
                        p@[i] as int,
                    ),
            decreases n - j,
        {
            proof {
                assert(prod@[j as int] == conv_coeff(self@, d@, j as int));
                assert(p.coeffs@[j as int].wf());
                lemma_reduce_small(p@[j as int] as int);
            }
            if !prod.coeffs[j].equals(&p.coeffs[j]) {
                return false;
            }
            j += 1;
        }
        true
    }

    /// The quotient by way of the power series: with both polynomials
    /// flipped, the quotient flipped is the product of the dividend with the
    /// series `1 / divisor`, up to the length of the quotient. For a divisor
    /// whose highest coefficient is zero, which has no such series, the
    /// result is zero.
    fn series_quotient(&self, divisor: &Self) -> (r: Self)
        requires
            self.wf(),
            divisor.wf(),
            1 <= divisor@.len() <= self@.len(),
        ensures
            r.wf(),
            r.coeffs@.len() == self@.len() - divisor@.len() + 1,
            divisor@.last() != 0 ==> is_quotient(r@, self@, divisor@),
            divisor@.last() == 0 ==> r@ == poly_zero(
                (self@.len() - divisor@.len() + 1) as nat,
            ),
    {
        let qlen = self.coeffs.len() - divisor.coeffs.len() + 1;
        let a_flip = self.flipped();
        let b_flip = divisor.flipped();
        proof {
            assert(a_flip@ =~= flipped(self@));
            assert(b_flip@ =~= flipped(divisor@));
            assert(b_flip@[0] == divisor@.last());
        }
        let inv_b_flip = match b_flip.inverse(qlen) {
            Ok(v) => v,
            Err(_) => Poly::new(qlen),
        };
        let q_flip = Self::product(&a_flip, &inv_b_flip, qlen);
        let r = q_flip.flipped();
        proof {
            assert(r@ =~= flipped(q_flip@));
            if divisor@.last() != 0 {
                assert(all_fr(self@)) by {
                    assert forall|i: int| 0 <= i < self@.len() implies is_fr(
                        #[trigger] self@[i],
                    ) by {
                        assert(self.coeffs@[i].wf());
                    }
                }
                lemma_series_quotient(self@, divisor@, inv_b_flip@);
            } else {
                assert(inv_b_flip@ =~= poly_zero(qlen as nat));
                assert forall|k: int| 0 <= k < qlen implies #[trigger] q_flip@[k] == 0 by {
                    lemma_conv_coeff_zero(qlen as nat, a_flip@, k);
                }
                assert(r@ =~= poly_zero(qlen as nat));
            }
        }
        r
    }

    /// The quotient of the division by `divisor` through the transform: the
    /// same quotient as `long_div` gives, and the same failures.
    ///
    /// The quotient comes from the power series `1 / divisor` of the flipped
    /// divisor, and is then checked by one product with the divisor; should
    /// the check ever fail, the long division is done instead.
    pub fn fast_div(&self, divisor: &Self) -> (r: Result<Self, KzgError>)
        requires
            self.wf(),
            divisor.wf(),
        ensures
            match r {
                Ok(q) => divisor@.len() > 0 && divisor@.last() != 0 && is_quotient(
                    q@,
                    self@,
                    divisor@,
                ) && q.wf(),
                Err(e) => e == KzgError::DivisionError && (divisor@.len() == 0 || divisor@.last()
                    == 0 || self@.len() < divisor@.len()),
            },
    {
        let dl = divisor.coeffs.len();
        if dl == 0 {
            return Err(KzgError::DivisionError);
        }
        assert(divisor@.last() == divisor.coeffs@[dl - 1]@);
        if divisor.coeffs[dl - 1].is_zero() {
            return Err(KzgError::DivisionError);
        }
        if self.coeffs.len() < dl {
            return Err(KzgError::DivisionError);
        }
        let candidate = self.series_quotient(divisor);
        if candidate.is_quotient_of(self, divisor) {
            Ok(candidate)
        } else {
            self.long_div(divisor)
        }
    }

    /// The quotient of the division by `x`: by `long_div` where the divisor
    /// is not shorter than the dividend or is shorter than the threshold, and
    /// by `fast_div` otherwise. Both give the same quotient.
    pub fn div(&self, x: &Self) -> (r: Result<Self, KzgError>)
        requires
            self.wf(),
            x.wf(),
        ensures
            match r {
                Ok(q) => x@.len() > 0 && x@.last() != 0 && is_quotient(q@, self@, x@) && q.wf(),
                Err(e) => e == KzgError::DivisionError && (x@.len() == 0 || x@.last() == 0
                    || self@.len() < x@.len()),
            },
    {
        if x.coeffs.len() >= self.coeffs.len() || x.coeffs.len() < FAST_DIV_THRESHOLD {
            self.long_div(x)
        } else {
            self.fast_div(x)
        }
    }
}

} // verus!
