//! Domains of roots of unity and the Fourier transform over them.
use crate::error::KzgError;
use crate::field::{
    fr_add, fr_mul, fr_pow, fr_sub, lemma_fr_add_zero, lemma_fr_inv_is, lemma_fr_mul_zero,
    lemma_fr_pow_add, lemma_fr_pow_mul, lemma_fr_pow_multiple, lemma_fr_pow_one, lemma_fr_pow_succ,
    lemma_fr_pow_zero, lemma_reduce_small, modulus,
};
use crate::convolution::{lemma_conv_coeff_high, lemma_conv_coeff_take, poly_zero};
use crate::poly::Poly;
use crate::polymath::{
    conv_coeff, dft, evens, idft, lemma_butterfly, odds, poly_eval, poly_product, strided,
};
use crate::transform::{is_dft_root, lemma_transform_product, pointwise_product};
use crate::roots::{
    lemma_root_no_lower_order, lemma_root_order, NUM_SCALES, root_of_unity, scale2_root_of_unity,
};
use crate::scalar::{all_wf, ArkFr, copy_of, fr_values, zeros};
use vstd::arithmetic::power2::{
    lemma_pow2_pos, lemma_pow2_strictly_increases, lemma_pow2_unfold, pow2,
};
use vstd::prelude::*;

verus! {

/// `n` is a power of two.
pub open spec fn is_power_of_two(n: nat) -> bool
    decreases n,
{
    if n == 0 {
        false
    } else if n == 1 {
        true
    } else {
        n % 2 == 0 && is_power_of_two(n / 2)
    }
}

/// Whether `n` is a power of two.
pub fn is_power_of_two_usize(n: usize) -> (r: bool)
    ensures
        r == is_power_of_two(n as nat),
{
    if n == 0 {
        return false;
    }
    let mut m = n;
    while m > 1 && m % 2 == 0
        invariant
            m >= 1,
            is_power_of_two(m as nat) == is_power_of_two(n as nat),
        decreases m,
    {
        m = m / 2;
    }
    m == 1
}

/// Every `2^k` is a power of two.
pub proof fn lemma_pow2_is_power_of_two(k: nat)
    ensures
        is_power_of_two(pow2(k)),
    decreases k,
{
    lemma_pow2_pos(k);
    if k == 0 {
        vstd::arithmetic::power2::lemma2_to64();
    } else {
        lemma_pow2_unfold(k);
        lemma_pow2_is_power_of_two((k - 1) as nat);
    }
}

/// `root` has the order `width` exactly: that power of it is one, and no
/// lower positive power is.
#[verifier::opaque]
pub open spec fn has_order(root: nat, width: nat) -> bool {
    &&& fr_pow(root, width) == 1
    &&& forall|j: nat| 0 < j < width ==> #[trigger] fr_pow(root, j) != 1
}

/// `t` holds the powers `h^0, ..., h^w` of its second entry `h`, which close
/// back to one at `w`, and for an even `w` pass through minus one half way.
#[verifier::opaque]
pub open spec fn is_power_table(t: Seq<ArkFr>, w: nat) -> bool {
    &&& w >= 1
    &&& t.len() == w + 1
    &&& all_wf(t)
    &&& forall|i: int| 0 <= i <= w ==> (#[trigger] t[i])@ == fr_pow(t[1]@, i as nat)
    &&& t[w as int]@ == 1
    &&& (w >= 2 ==> w % 2 == 0 && t[(w / 2) as int]@ == modulus() - 1)
}

/// The powers `root^0, ..., root^width`, for a root of exactly that order.
/// A root of another order is refused.
pub fn expand_root_of_unity(root: &ArkFr, width: usize) -> (r: Result<Vec<ArkFr>, KzgError>)
    requires
        root.wf(),
        width < usize::MAX,
    ensures
        match r {
            Ok(v) => {
                &&& width >= 1
                &&& has_order(root@, width as nat)
                &&& v@.len() == width + 1
                &&& all_wf(v@)
                &&& forall|i: int| 0 <= i <= width ==> (#[trigger] v@[i])@ == fr_pow(root@, i as nat)
            },
            Err(e) => e == KzgError::DomainError && !(width >= 1 && has_order(root@, width as nat)),
        },
{
    let mut generated: Vec<ArkFr> = Vec::new();
    generated.push(ArkFr::one());
    generated.push(*root);
    let mut last = *root;
    proof {
        reveal(has_order);
        lemma_fr_pow_zero(root@);
        lemma_fr_pow_one(root@);
        lemma_reduce_small(root@ as int);
    }
    while !last.is_one()
        invariant
            root.wf(),
            width < usize::MAX,
            2 <= generated@.len() <= width + 2,
            last == generated@[generated@.len() - 1],
            all_wf(generated@),
            forall|i: int|
                0 <= i < generated@.len() ==> (#[trigger] generated@[i])@ == fr_pow(
                    root@,
                    i as nat,
                ),
            forall|j: nat| 0 < j < generated@.len() - 1 ==> #[trigger] fr_pow(root@, j) != 1,
        decreases width + 2 - generated@.len(),
    {
        if generated.len() > width {
            proof {
                reveal(has_order);
                let top = (generated@.len() - 1) as nat;
                assert(fr_pow(root@, top) != 1);
                if width >= 1 {
                    assert(fr_pow(root@, width as nat) != 1);
                }
            }
            return Err(KzgError::DomainError);
        }
        proof {
            lemma_fr_pow_succ(root@, (generated@.len() - 1) as nat);
        }
        last = last.mul(root);
        generated.push(last);
    }
    proof {
        reveal(has_order);
    }
    if generated.len() != width + 1 {
        proof {
            let top = (generated@.len() - 1) as nat;
            assert(fr_pow(root@, top) == 1);
        }
        return Err(KzgError::DomainError);
    }
    Ok(generated)
}

/// The number `i` with its lowest `bits` bits in reverse order, on top of
/// `acc` shifted up by as many bits.
pub open spec fn bit_reverse_onto(i: nat, bits: nat, acc: nat) -> nat
    decreases bits,
{
    if bits == 0 {
        acc
    } else {
        bit_reverse_onto(i / 2, (bits - 1) as nat, acc * 2 + i % 2)
    }
}

/// The number `i` with its lowest `bits` bits in reverse order.
pub open spec fn bit_reverse(i: nat, bits: nat) -> nat {
    bit_reverse_onto(i, bits, 0)
}

/// The number of times `n` can be halved before it reaches one.
pub open spec fn log2_floor(n: nat) -> nat
    decreases n,
{
    if n <= 1 {
        0
    } else {
        1 + log2_floor(n / 2)
    }
}

/// The reverse of `bits` bits on top of `acc` is below `(acc + 1) 2^bits`.
pub proof fn lemma_bit_reverse_bound(i: nat, bits: nat, acc: nat)
    ensures
        bit_reverse_onto(i, bits, acc) < (acc + 1) * pow2(bits),
    decreases bits,
{
    if bits == 0 {
        vstd::arithmetic::power2::lemma2_to64();
    } else {
        lemma_bit_reverse_bound(i / 2, (bits - 1) as nat, acc * 2 + i % 2);
        lemma_pow2_unfold(bits);
        let p = pow2((bits - 1) as nat) as int;
        let a = acc as int;
        let b = (i % 2) as int;
        assert((a * 2 + b + 1) * p <= (a + 1) * (2 * p)) by (nonlinear_arith)
            requires
                0 <= b <= 1,
                p >= 0,
        ;
    }
}

/// A power of two is two to the number of its halvings.
pub proof fn lemma_power_of_two_log(n: nat)
    requires
        is_power_of_two(n),
    ensures
        n == pow2(log2_floor(n)),
    decreases n,
{
    if n == 1 {
        vstd::arithmetic::power2::lemma2_to64();
    } else {
        lemma_power_of_two_log(n / 2);
        lemma_pow2_unfold(log2_floor(n));
    }
}

/// The entries in bit-reversed order of index: entry `i` of the result is
/// entry `bit_reverse(i, log2(len))` of the input. The length must be a power
/// of two.
pub fn reverse_bit_order(vals: &mut Vec<ArkFr>) -> (r: Result<(), KzgError>)
    ensures
        match r {
            Ok(_) => {
                &&& is_power_of_two(old(vals)@.len())
                &&& final(vals)@.len() == old(vals)@.len()
                &&& forall|i: int|
                    0 <= i < old(vals)@.len() ==> #[trigger] final(vals)@[i] == old(vals)@[bit_reverse(
                        i as nat,
                        log2_floor(old(vals)@.len()),
                    ) as int]
            },
            Err(e) => {
                &&& e == KzgError::DomainError
                &&& !is_power_of_two(old(vals)@.len())
                &&& final(vals)@ == old(vals)@
            },
        },
{
    let n = vals.len();
    if !is_power_of_two_usize(n) {
        return Err(KzgError::DomainError);
    }
    let mut bits: usize = 0;
    let mut m = n;
    while m > 1
        invariant
            m >= 1,
            bits + log2_floor(m as nat) == log2_floor(n as nat),
            bits <= n - m,
        decreases m,
    {
        m = m / 2;
        bits += 1;
    }
    proof {
        lemma_power_of_two_log(n as nat);
    }
    let mut out: Vec<ArkFr> = Vec::new();
    let mut i: usize = 0;
    while i < n
        invariant
            i <= n,
            n == vals@.len(),
            vals@ == old(vals)@,
            n == pow2(bits as nat),
            bits == log2_floor(n as nat),
            out@.len() == i,
            forall|j: int|
                0 <= j < i ==> #[trigger] out@[j] == vals@[bit_reverse(j as nat, bits as nat) as int],
        decreases n - i,
    {
        let mut r: usize = 0;
        let mut x = i;
        let mut b: usize = 0;
        proof {
            lemma_bit_reverse_bound(i as nat, bits as nat, 0);
            assert((0 + 1) * pow2(bits as nat) == pow2(bits as nat)) by (nonlinear_arith);
        }
        while b < bits
            invariant
                b <= bits,
                n == pow2(bits as nat),
                bit_reverse_onto(x as nat, (bits - b) as nat, r as nat) == bit_reverse(
                    i as nat,
                    bits as nat,
                ),
                (r + 1) * pow2((bits - b) as nat) <= n,
            decreases bits - b,
        {
            proof {
                lemma_pow2_unfold((bits - b) as nat);
                lemma_bit_reverse_bound((x / 2) as nat, (bits - b - 1) as nat, (r * 2 + x % 2) as nat);
                let p = pow2((bits - b - 1) as nat) as int;
                lemma_pow2_pos((bits - b - 1) as nat);
                assert((r * 2 + 2) * p == (r + 1) * (2 * p)) by (nonlinear_arith);
                assert((r * 2 + 1) * p <= (r * 2 + 2) * p) by (nonlinear_arith)
                    requires
                        p > 0,
                ;
                assert(r * 2 + 1 <= (r * 2 + 1) * p) by (nonlinear_arith)
                    requires
                        p > 0,
                ;
            }
            r = r * 2 + x % 2;
            x = x / 2;
            b += 1;
        }
        proof {
            vstd::arithmetic::power2::lemma2_to64();
        }
        out.push(vals[r]);
        i += 1;
    }
    *vals = out;
    Ok(())
}

/// The table's root of scale `k` has the order `2^k` exactly.
pub proof fn lemma_root_has_order(k: nat)
    requires
        k < 32,
    ensures
        has_order(root_of_unity(k), pow2(k)),
{
    reveal(has_order);
    lemma_root_order(k);
    assert forall|j: nat| 0 < j < pow2(k) implies #[trigger] fr_pow(root_of_unity(k), j) != 1 by {
        lemma_root_no_lower_order(k, j);
    }
}

/// A power of two divides every power of two that is not below it.
pub proof fn lemma_power_of_two_divides(n: nat, w: nat)
    requires
        is_power_of_two(n),
        is_power_of_two(w),
        n <= w,
    ensures
        w % n == 0,
        n * (w / n) == w,
        w / n >= 1,
    decreases n,
{
    if n == 1 {
    } else {
        lemma_power_of_two_divides(n / 2, w / 2);
        let q = (w / 2) / (n / 2);
        let n2 = n / 2;
        assert(w / 2 == n2 * q);
        assert(w == q * n) by (nonlinear_arith)
            requires
                w == (n2 * q) * 2,
                n == n2 * 2,
        ;
        vstd::arithmetic::div_mod::lemma_fundamental_div_mod_converse(w as int, n as int, q as int, 0);
        assert(n * (w / n) == w) by (nonlinear_arith)
            requires
                w == q * n,
                w / n == q,
        ;
    }
}

/// The powers of `root^(w-1)` are the powers of `root` from `w` down.
pub proof fn lemma_reverse_power(root: nat, w: nat, i: nat)
    requires
        fr_pow(root, w) == 1,
        1 <= w,
        i <= w,
    ensures
        fr_pow(fr_pow(root, (w - 1) as nat), i) == fr_pow(root, (w - i) as nat),
{
    lemma_fr_pow_mul(root, (w - 1) as nat, i);
    if i == 0 {
        lemma_fr_pow_zero(root);
        assert((w - 1) * 0 == 0);
    } else {
        assert((w - 1) * i == w * (i - 1) + (w - i)) by (nonlinear_arith);
        lemma_fr_pow_add(root, w * ((i - 1) as nat), (w - i) as nat);
        lemma_fr_pow_multiple(root, w, (i - 1) as nat);
        crate::field::lemma_fr_pow_cong(root, (w - i) as nat);
        crate::field::lemma_fr_mul_one(fr_pow(root, (w - i) as nat));
    }
}

/// One step of the fast transform at index `i`: from the transforms of the
/// even and the odd part, the entries `i` and `i + n/2` of the transform.
proof fn lemma_fft_step(sub: Seq<nat>, roots: Seq<ArkFr>, n: nat, rs: nat, i: nat, e: nat, o: nat)
    requires
        n >= 2,
        n % 2 == 0,
        rs >= 1,
        i < n / 2,
        is_power_table(roots, n * rs),
        e == poly_eval(evens(sub), fr_pow(roots[1]@, (rs * 2) * i)),
        o == poly_eval(odds(sub), fr_pow(roots[1]@, (rs * 2) * i)),
    ensures
        i * rs < n * rs,
        roots.len() == n * rs + 1,
        poly_eval(sub, fr_pow(roots[1]@, rs * i)) == fr_add(
            e,
            fr_mul(o, roots[(i * rs) as int]@),
        ),
        poly_eval(sub, fr_pow(roots[1]@, rs * (i + n / 2))) == fr_sub(
            e,
            fr_mul(o, roots[(i * rs) as int]@),
        ),
{
    reveal(is_power_table);
    let h = roots[1]@;
    let w = n * rs;
    let half = n / 2;
    assert(i * rs < n * rs) by (nonlinear_arith)
        requires
            i < n,
            rs >= 1,
    ;
    let x = roots[(i * rs) as int]@;
    assert(x == fr_pow(h, i * rs));
    assert(i * rs == rs * i) by (nonlinear_arith);
    assert((rs * 2) * i == rs * i + rs * i) by (nonlinear_arith);
    lemma_fr_pow_add(h, rs * i, rs * i);
    lemma_butterfly(sub, x, e, o);
    assert(w / 2 == rs * half) by (nonlinear_arith)
        requires
            w == n * rs,
            n == half * 2,
    ;
    assert(rs * (i + half) == rs * i + rs * half) by (nonlinear_arith);
    lemma_fr_pow_add(h, rs * i, rs * half);
    assert(w >= 2) by (nonlinear_arith)
        requires
            w == n * rs,
            n >= 2,
            rs >= 1,
    ;
    assert(roots[(w / 2) as int]@ == modulus() - 1);
}

/// One level of the fast transform and all below it: the values of the
/// polynomial of the `n` entries of `data` from `offset` on, `stride` apart,
/// at the first `n` powers of the table's entry at `roots_stride`.
fn fft_fr_fast(
    data: &[ArkFr],
    offset: usize,
    stride: usize,
    n: usize,
    roots: &Vec<ArkFr>,
    roots_stride: usize,
) -> (r: Vec<ArkFr>)
    requires
        is_power_of_two(n as nat),
        all_wf(data@),
        stride >= 1,
        roots_stride >= 1,
        n * stride <= usize::MAX,
        offset + (n - 1) * stride < data@.len(),
        is_power_table(roots@, (n * roots_stride) as nat),
    ensures
        r@.len() == n,
        all_wf(r@),
        forall|k: int|
            0 <= k < n ==> (#[trigger] r@[k])@ == poly_eval(
                strided(fr_values(data@), offset as int, stride as int, n as nat),
                fr_pow(roots@[1]@, (roots_stride * k) as nat),
            ),
    decreases n,
{
    let ghost dv = fr_values(data@);
    let ghost sub = strided(dv, offset as int, stride as int, n as nat);
    let ghost h = roots@[1]@;
    let data_len = data.len();
    let roots_len = roots.len();
    if n == 1 {
        let mut out: Vec<ArkFr> = Vec::new();
        assert((n - 1) * stride == 0) by (nonlinear_arith)
            requires
                n == 1,
        ;
        out.push(data[offset]);
        proof {
            assert(sub[0] == data@[offset as int]@);
            assert(sub.skip(1).len() == 0);
            assert(data@[offset as int].wf());
            assert forall|x: nat| #[trigger] poly_eval(sub, x) == sub[0] by {
                assert(poly_eval(sub.skip(1), x) == 0);
                lemma_fr_mul_zero(x);
                lemma_fr_add_zero(sub[0]);
            }
        }
        out
    } else {
        let half = n / 2;
        proof {
            assert(n == half * 2);
            assert(roots@.len() == n * roots_stride + 1) by {
                reveal(is_power_table);
            }
            lemma_fft_halving(offset as int, stride as int, n as int, roots_stride as int);
            lemma_strided_halves(dv, offset as int, stride as int, n as nat);
        }
        let even = fft_fr_fast(data, offset, stride * 2, half, roots, roots_stride * 2);
        let odd = fft_fr_fast(data, offset + stride, stride * 2, half, roots, roots_stride * 2);
        let mut out = zeros(n);
        let mut i: usize = 0;
        while i < half
            invariant
                i <= half,
                n == half * 2,
                roots_stride >= 1,
                out@.len() == n,
                even@.len() == half,
                odd@.len() == half,
                all_wf(out@),
                h == roots@[1]@,
                roots_len == roots@.len(),
                is_power_table(roots@, (n * roots_stride) as nat),
                forall|k: int|
                    0 <= k < half ==> (#[trigger] even@[k])@ == poly_eval(
                        evens(sub),
                        fr_pow(h, ((roots_stride * 2) * k) as nat),
                    ),
                forall|k: int|
                    0 <= k < half ==> (#[trigger] odd@[k])@ == poly_eval(
                        odds(sub),
                        fr_pow(h, ((roots_stride * 2) * k) as nat),
                    ),
                forall|k: int|
                    0 <= k < i ==> (#[trigger] out@[k])@ == poly_eval(
                        sub,
                        fr_pow(h, (roots_stride * k) as nat),
                    ),
                forall|k: int|
                    half <= k < half + i ==> (#[trigger] out@[k])@ == poly_eval(
                        sub,
                        fr_pow(h, (roots_stride * k) as nat),
                    ),
            decreases half - i,
        {
            proof {
                lemma_fft_step(
                    sub,
                    roots@,
                    n as nat,
                    roots_stride as nat,
                    i as nat,
                    even@[i as int]@,
                    odd@[i as int]@,
                );
            }
            let root = roots[i * roots_stride];
            let y = odd[i].mul(&root);
            let lo = even[i].add(&y);
            let hi = even[i].sub(&y);
            out.set(i, lo);
            out.set(i + half, hi);
            i += 1;
        }
        out
    }
}

/// The sizes of the two half-size transforms stay in range.
proof fn lemma_fft_halving(offset: int, stride: int, n: int, rs: int)
    requires
        n >= 2,
        n % 2 == 0,
        stride >= 1,
        rs >= 1,
        offset >= 0,
    ensures
        (n / 2) * (stride * 2) == n * stride,
        (n / 2) * (rs * 2) == n * rs,
        stride * 2 <= n * stride,
        rs * 2 <= n * rs,
        (n / 2 - 1) * (stride * 2) + stride == (n - 1) * stride,
        (n - 1) * stride >= stride,
        offset + (n / 2 - 1) * (stride * 2) <= offset + (n - 1) * stride,
        offset + stride + (n / 2 - 1) * (stride * 2) == offset + (n - 1) * stride,
{
    let half = n / 2;
    assert(n == half * 2);
    assert(half * (stride * 2) == n * stride) by (nonlinear_arith)
        requires
            n == half * 2,
    ;
    assert(half * (rs * 2) == n * rs) by (nonlinear_arith)
        requires
            n == half * 2,
    ;
    assert(stride * 2 <= n * stride) by (nonlinear_arith)
        requires
            n >= 2,
            stride >= 1,
    ;
    assert(rs * 2 <= n * rs) by (nonlinear_arith)
        requires
            n >= 2,
            rs >= 1,
    ;
    assert((half - 1) * (stride * 2) + stride == (n - 1) * stride) by (nonlinear_arith)
        requires
            n == half * 2,
    ;
    assert((n - 1) * stride >= stride) by (nonlinear_arith)
        requires
            n >= 2,
            stride >= 1,
    ;
}

/// The entries of even and of odd index of a strided selection are the
/// selections of twice the stride.
proof fn lemma_strided_halves(dv: Seq<nat>, offset: int, stride: int, n: nat)
    requires
        n % 2 == 0,
    ensures
        strided(dv, offset, stride * 2, n / 2) == evens(strided(dv, offset, stride, n)),
        strided(dv, offset + stride, stride * 2, n / 2) == odds(strided(dv, offset, stride, n)),
{
    let sub = strided(dv, offset, stride, n);
    let half = n / 2;
    let se = strided(dv, offset, stride * 2, half);
    let so = strided(dv, offset + stride, stride * 2, half);
    assert forall|j: int| 0 <= j < half implies #[trigger] se[j] == evens(sub)[j] by {
        assert(j * (stride * 2) == (2 * j) * stride) by (nonlinear_arith);
    }
    assert forall|j: int| 0 <= j < half implies #[trigger] so[j] == odds(sub)[j] by {
        assert(stride + j * (stride * 2) == (2 * j + 1) * stride) by (nonlinear_arith);
    }
    assert(se =~= evens(sub));
    assert(so =~= odds(sub));
}

/// The powers of the table's root of a scale make a table of powers.
proof fn lemma_expanded_power_table(t: Seq<ArkFr>, root: nat, scale: nat)
    requires
        scale < 32,
        root == root_of_unity(scale),
        t.len() == pow2(scale) + 1,
        all_wf(t),
        forall|i: int| 0 <= i <= pow2(scale) ==> (#[trigger] t[i])@ == fr_pow(root, i as nat),
    ensures
        is_power_table(t, pow2(scale)),
        t[1]@ == root,
{
    reveal(is_power_table);
    let w = pow2(scale);
    lemma_pow2_pos(scale);
    lemma_root_order(scale);
    lemma_fr_pow_one(root);
    crate::roots::lemma_root_is_fr(scale);
    lemma_reduce_small(root as int);
    assert(t[1]@ == fr_pow(root, 1));
    assert(t[w as int]@ == fr_pow(root, w));
    if scale >= 1 {
        lemma_pow2_unfold(scale);
        assert(t[(w / 2) as int]@ == fr_pow(root, pow2((scale - 1) as nat)));
    } else {
        vstd::arithmetic::power2::lemma2_to64();
    }
}

/// The width `2^scale` of the domain of a scale of the table.
fn width_of_scale(scale: usize) -> (w: usize)
    requires
        scale < NUM_SCALES,
    ensures
        w == pow2(scale as nat),
        1 <= w <= 0x8000_0000,
{
    let mut w: usize = 1;
    let mut i: usize = 0;
    proof {
        vstd::arithmetic::power2::lemma2_to64();
    }
    while i < scale
        invariant
            i <= scale < 32,
            w == pow2(i as nat),
            1 <= w <= 0x8000_0000,
        decreases scale - i,
    {
        proof {
            lemma_pow2_unfold((i + 1) as nat);
            if i + 1 < 31 {
                lemma_pow2_strictly_increases((i + 1) as nat, 31);
            }
            vstd::arithmetic::power2::lemma2_to64();
        }
        w = w * 2;
        i += 1;
    }
    w
}

/// The entries of a table from the last to the first.
pub fn reversed(t: &Vec<ArkFr>) -> (r: Vec<ArkFr>)
    ensures
        r@.len() == t@.len(),
        forall|i: int| 0 <= i < t@.len() ==> #[trigger] r@[i] == t@[t@.len() - 1 - i],
{
    let n = t.len();
    let mut r: Vec<ArkFr> = Vec::new();
    let mut j: usize = 0;
    while j < n
        invariant
            j <= n,
            n == t@.len(),
            r@.len() == j,
            forall|i: int| 0 <= i < j ==> #[trigger] r@[i] == t@[n - 1 - i],
        decreases n - j,
    {
        r.push(t[n - 1 - j]);
        j += 1;
    }
    r
}

/// The reverse of a table of powers is the table of the powers of the
/// inverse root.
proof fn lemma_reversed_power_table(e: Seq<ArkFr>, t: Seq<ArkFr>, w: nat)
    requires
        is_power_table(e, w),
        t.len() == w + 1,
        forall|i: int| 0 <= i <= w ==> #[trigger] t[i] == e[w - i],
    ensures
        is_power_table(t, w),
{
    reveal(is_power_table);
    let g = e[1]@;
    let hr = t[1]@;
    assert(t[1] == e[w - 1]);
    assert(fr_pow(g, w) == 1) by {
        assert(e[w as int]@ == fr_pow(g, w));
    }
    assert forall|i: int| 0 <= i <= w implies (#[trigger] t[i])@ == fr_pow(hr, i as nat) by {
        lemma_reverse_power(g, w, i as nat);
        assert(t[i] == e[w - i]);
    }
    assert(t[w as int] == e[0]);
    lemma_fr_pow_zero(g);
    if w >= 2 {
        assert(t[(w / 2) as int] == e[w - w / 2]);
    }
    assert forall|i: int| 0 <= i < t.len() implies (#[trigger] t[i]).wf() by {
        assert(t[i] == e[w - i]);
    }
}

/// A domain of roots of unity: for a scale `k`, a root of order `2^k` from
/// the table, its powers, the same in reverse, and the same in bit-reversed
/// order of index.
#[derive(Clone, Debug, PartialEq, Eq)]
pub struct FFTSettings {
    pub max_width: usize,
    pub root_of_unity: ArkFr,
    pub expanded_roots_of_unity: Vec<ArkFr>,
    pub reverse_roots_of_unity: Vec<ArkFr>,
    pub roots_of_unity: Vec<ArkFr>,
}

impl FFTSettings {
    /// The domain is as `new` builds it: the width is a power of two, the
    /// root has that order exactly, the expanded table holds its powers and
    /// closes back to one, the reverse table holds them from the top down,
    /// and the last table holds them in bit-reversed order of index.
    pub open spec fn wf(&self) -> bool {
        let w = self.max_width as nat;
        &&& is_power_of_two(w)
        &&& w <= MAX_WIDTH
        &&& self.root_of_unity.wf()
        &&& has_order(self.root_of_unity@, w)
        &&& is_power_table(self.expanded_roots_of_unity@, w)
        &&& self.expanded_roots_of_unity@[1]@ == self.root_of_unity@
        &&& is_power_table(self.reverse_roots_of_unity@, w)
        &&& forall|i: int|
            0 <= i <= w ==> #[trigger] self.reverse_roots_of_unity@[i]
                == self.expanded_roots_of_unity@[w - i]
        &&& self.roots_of_unity@.len() == w
        &&& forall|i: int|
            0 <= i < w ==> #[trigger] self.roots_of_unity@[i]
                == self.expanded_roots_of_unity@[bit_reverse(i as nat, log2_floor(w)) as int]
    }

    /// The root of order `n` of the domain: the power `max_width / n` of its root.
    pub open spec fn domain_root(&self, n: nat) -> nat {
        fr_pow(self.root_of_unity@, self.max_width as nat / n)
    }

    /// The domain of scale `scale`, of width `2^scale`. A scale beyond the
    /// table of roots is refused.
    pub fn new(scale: usize) -> (r: Result<FFTSettings, KzgError>)
        ensures
            match r {
                Ok(fs) => {
                    &&& scale < NUM_SCALES
                    &&& fs.wf()
                    &&& fs.max_width == pow2(scale as nat)
                    &&& fs.root_of_unity@ == root_of_unity(scale as nat)
                    &&& fr_pow(fs.root_of_unity@, pow2(scale as nat)) == 1
                    &&& scale >= 1 ==> fr_pow(fs.root_of_unity@, pow2((scale - 1) as nat)) != 1
                },
                Err(e) => e == KzgError::DomainError && scale >= NUM_SCALES,
            },
    {
        if scale >= NUM_SCALES {
            return Err(KzgError::DomainError);
        }
        let max_width = width_of_scale(scale);
        proof {
            lemma_pow2_is_power_of_two(scale as nat);
            lemma_root_has_order(scale as nat);
            lemma_root_order(scale as nat);
            crate::roots::lemma_root_is_fr(scale as nat);
            lemma_reduce_small(root_of_unity(scale as nat) as int);
        }
        let limbs = scale2_root_of_unity(scale);
        let root = ArkFr::from_u64_arr(&limbs);
        let expanded_roots_of_unity = match expand_root_of_unity(&root, max_width) {
            Ok(v) => v,
            Err(e) => {
                return Err(e);
            },
        };
        let ghost w = max_width as nat;
        proof {
            lemma_expanded_power_table(expanded_roots_of_unity@, root@, scale as nat);
        }
        let reverse_roots_of_unity = reversed(&expanded_roots_of_unity);
        proof {
            lemma_reversed_power_table(expanded_roots_of_unity@, reverse_roots_of_unity@, w);
        }
        let mut roots_of_unity = copy_of(
            vstd::slice::slice_subrange(expanded_roots_of_unity.as_slice(), 0, max_width),
        );
        let ghost prefix = roots_of_unity@;
        match reverse_bit_order(&mut roots_of_unity) {
            Ok(_) => {},
            Err(e) => {
                return Err(e);
            },
        }
        proof {
            lemma_power_of_two_log(w);
            assert forall|i: int| 0 <= i < w implies #[trigger] roots_of_unity@[i]
                == expanded_roots_of_unity@[bit_reverse(i as nat, log2_floor(w)) as int] by {
                lemma_bit_reverse_bound(i as nat, log2_floor(w), 0);
                assert((0 + 1) * pow2(log2_floor(w)) == pow2(log2_floor(w))) by (nonlinear_arith);
                let j = bit_reverse(i as nat, log2_floor(w)) as int;
                assert(roots_of_unity@[i] == prefix[j]);
            }
        }
        Ok(
            FFTSettings {
                max_width,
                root_of_unity: root,
                expanded_roots_of_unity,
                reverse_roots_of_unity,
                roots_of_unity,
            },
        )
    }

    /// The same as `new`.
    pub fn from_scale(max_scale: usize) -> (r: Result<FFTSettings, KzgError>)
        ensures
            match r {
                Ok(fs) => {
                    &&& max_scale < NUM_SCALES
                    &&& fs.wf()
                    &&& fs.max_width == pow2(max_scale as nat)
                    &&& fs.root_of_unity@ == root_of_unity(max_scale as nat)
                    &&& fr_pow(fs.root_of_unity@, pow2(max_scale as nat)) == 1
                    &&& max_scale >= 1 ==> fr_pow(
                        fs.root_of_unity@,
                        pow2((max_scale - 1) as nat),
                    ) != 1
                },
                Err(e) => e == KzgError::DomainError && max_scale >= NUM_SCALES,
            },
    {
        Self::new(max_scale)
    }

    /// The width of the domain.
    pub fn get_max_width(&self) -> (r: usize)
        ensures
            r == self.max_width,
    {
        self.max_width
    }

    /// The `i`-th power of the root.
    pub fn get_expanded_roots_of_unity_at(&self, i: usize) -> (r: ArkFr)
        requires
            i < self.expanded_roots_of_unity@.len(),
        ensures
            r == self.expanded_roots_of_unity@[i as int],
    {
        self.expanded_roots_of_unity[i]
    }

    /// The powers of the root, from the zeroth to the one that closes back to one.
    pub fn get_expanded_roots_of_unity(&self) -> (r: &[ArkFr])
        ensures
            r@ == self.expanded_roots_of_unity@,
    {
        self.expanded_roots_of_unity.as_slice()
    }

    /// The `i`-th entry of the powers of the root in reverse.
    pub fn get_reverse_roots_of_unity_at(&self, i: usize) -> (r: ArkFr)
        requires
            i < self.reverse_roots_of_unity@.len(),
        ensures
            r == self.reverse_roots_of_unity@[i as int],
    {
        self.reverse_roots_of_unity[i]
    }

    /// The powers of the root in reverse.
    pub fn get_reversed_roots_of_unity(&self) -> (r: &[ArkFr])
        ensures
            r@ == self.reverse_roots_of_unity@,
    {
        self.reverse_roots_of_unity.as_slice()
    }

    /// The `i`-th entry of the powers of the root in bit-reversed order.
    pub fn get_roots_of_unity_at(&self, i: usize) -> (r: ArkFr)
        requires
            i < self.roots_of_unity@.len(),
        ensures
            r == self.roots_of_unity@[i as int],
    {
        self.roots_of_unity[i]
    }

    /// The powers of the root below the width, in bit-reversed order of index.
    pub fn get_roots_of_unity(&self) -> (r: &[ArkFr])
        ensures
            r@ == self.roots_of_unity@,
    {
        self.roots_of_unity.as_slice()
    }

    /// A copy of the domain.
    pub fn copy(&self) -> (r: Self)
        ensures
            r.max_width == self.max_width,
            r.root_of_unity == self.root_of_unity,
            r.expanded_roots_of_unity@ == self.expanded_roots_of_unity@,
            r.reverse_roots_of_unity@ == self.reverse_roots_of_unity@,
            r.roots_of_unity@ == self.roots_of_unity@,
            r.wf() == self.wf(),
    {
        let r = FFTSettings {
            max_width: self.max_width,
            root_of_unity: self.root_of_unity,
            expanded_roots_of_unity: copy_of(self.expanded_roots_of_unity.as_slice()),
            reverse_roots_of_unity: copy_of(self.reverse_roots_of_unity.as_slice()),
            roots_of_unity: copy_of(self.roots_of_unity.as_slice()),
        };
        r
    }

    /// The Fourier transform of `data` over the roots of order `data.len()`,
    /// or its inverse. Forward, entry `k` is the value of the polynomial
    /// `data` at the `k`-th power of the root; the inverse takes the powers
    /// of the inverse root and divides by the length. The length must be a
    /// power of two and not above the width of the domain.
    pub fn fft_fr(&self, data: &[ArkFr], inverse: bool) -> (r: Result<Vec<ArkFr>, KzgError>)
        requires
            self.wf(),
            all_wf(data@),
        ensures
            match r {
                Ok(v) => {
                    &&& data@.len() <= self.max_width
                    &&& is_power_of_two(data@.len())
                    &&& v@.len() == data@.len()
                    &&& all_wf(v@)
                    &&& fr_values(v@) == if inverse {
                        idft(fr_values(data@), self.domain_root(data@.len()))
                    } else {
                        dft(fr_values(data@), self.domain_root(data@.len()))
                    }
                },
                Err(e) => e == KzgError::DomainError && (data@.len() > self.max_width
                    || !is_power_of_two(data@.len())),
            },
    {
        let n = data.len();
        if n > self.max_width {
            return Err(KzgError::DomainError);
        }
        if !is_power_of_two_usize(n) {
            return Err(KzgError::DomainError);
        }
        let ghost w = self.max_width as nat;
        let ghost g = self.root_of_unity@;
        let ghost dv = fr_values(data@);
        proof {
            lemma_power_of_two_divides(n as nat, w);
        }
        let stride = self.max_width / n;
        proof {
            reveal(is_power_table);
            assert(n * stride == w);
            assert((n - 1) * 1 == n - 1);
            assert(n * 1 == n);
            assert(strided(dv, 0, 1, n as nat) =~= dv);
            lemma_fr_pow_one(g);
            lemma_reduce_small(g as int);
        }
        if !inverse {
            let out = fft_fr_fast(data, 0, 1, n, &self.expanded_roots_of_unity, stride);
            proof {
                assert forall|k: int| 0 <= k < n implies fr_values(out@)[k] == dft(
                    dv,
                    self.domain_root(n as nat),
                )[k] by {
                    assert(out@[k]@ == poly_eval(dv, fr_pow(g, (stride * k) as nat)));
                    lemma_fr_pow_mul(g, stride as nat, k as nat);
                }
                assert(fr_values(out@) =~= dft(dv, self.domain_root(n as nat)));
            }
            Ok(out)
        } else {
            let mut out = fft_fr_fast(data, 0, 1, n, &self.reverse_roots_of_unity, stride);
            let len_fr = ArkFr::from_u64(n as u64);
            proof {
                lemma_reduce_small(n as int);
            }
            let inv_len = len_fr.inverse();
            let ghost raw = out@;
            let ghost hr = self.reverse_roots_of_unity@[1]@;
            let ghost wn = self.domain_root(n as nat);
            let ghost winv = fr_pow(hr, stride as nat);
            proof {
                // the entry at `stride` of the reverse table is the inverse of the domain's root
                assert(hr == fr_pow(g, (w - 1) as nat));
                lemma_reverse_power(g, w, stride as nat);
                lemma_fr_pow_add(g, stride as nat, (w - stride) as nat);
                crate::field::lemma_fr_pow_cong(g, (w - stride) as nat);
                lemma_fr_inv_is(wn, winv);
            }
            let mut i: usize = 0;
            while i < n
                invariant
                    i <= n,
                    out@.len() == n,
                    raw.len() == n,
                    all_wf(out@),
                    forall|k: int| i <= k < n ==> #[trigger] out@[k] == raw[k],
                    forall|k: int|
                        0 <= k < i ==> (#[trigger] out@[k])@ == fr_mul(raw[k]@, inv_len@),
                decreases n - i,
            {
                let v = out[i].mul(&inv_len);
                out.set(i, v);
                i += 1;
            }
            proof {
                assert forall|k: int| 0 <= k < n implies fr_values(out@)[k] == idft(dv, wn)[k] by {
                    assert(raw[k]@ == poly_eval(dv, fr_pow(hr, (stride * k) as nat)));
                    lemma_fr_pow_mul(hr, stride as nat, k as nat);
                }
                assert(fr_values(out@) =~= idft(dv, wn));
            }
            Ok(out)
        }
    }
}

/// The least power of two that is not below `x`, searched upwards from the
/// power of two `p`.
pub open spec fn power_of_two_from(p: nat, x: nat) -> nat
    decreases
            (if p < x {
                x - p
            } else {
                0
            }),
{
    if p >= x || p == 0 {
        p
    } else {
        power_of_two_from(2 * p, x)
    }
}

/// The least power of two that is not below `x`.
pub open spec fn next_power_of_two(x: nat) -> nat {
    power_of_two_from(1, x)
}

/// The widest transform that the table of roots allows.
pub const MAX_WIDTH: usize = 0x8000_0000;

/// The least power of two that is not below `x`, and its logarithm.
pub fn next_pow_of_2(x: usize) -> (r: (usize, usize))
    requires
        x <= MAX_WIDTH,
    ensures
        r.0 == next_power_of_two(x as nat),
        r.0 == pow2(r.1 as nat),
        r.1 < NUM_SCALES,
        r.0 >= x,
        r.0 >= 1,
        r.0 <= MAX_WIDTH,
        is_power_of_two(r.0 as nat),
{
    let mut p: usize = 1;
    let mut e: usize = 0;
    proof {
        vstd::arithmetic::power2::lemma2_to64();
    }
    while p < x
        invariant
            x <= MAX_WIDTH,
            p == pow2(e as nat),
            e <= 31,
            1 <= p <= MAX_WIDTH,
            power_of_two_from(p as nat, x as nat) == next_power_of_two(x as nat),
        decreases
                (if p < x {
                    x - p
                } else {
                    0
                }),
    {
        proof {
            vstd::arithmetic::power2::lemma2_to64();
            if e >= 31 {
                lemma_pow2_strictly_increases(31, (e + 1) as nat);
                lemma_pow2_unfold((e + 1) as nat);
            }
            lemma_pow2_unfold((e + 1) as nat);
            if e + 1 < 31 {
                lemma_pow2_strictly_increases((e + 1) as nat, 31);
            }
        }
        p = p * 2;
        e += 1;
    }
    proof {
        lemma_pow2_is_power_of_two(e as nat);
    }
    (p, e)
}

/// The power of the domain's root that serves a transform of length `n` is a
/// root of unity for that length.
pub proof fn lemma_domain_root(fs: &FFTSettings, n: nat)
    requires
        fs.wf(),
        is_power_of_two(n),
        n <= fs.max_width,
    ensures
        is_dft_root(fs.domain_root(n), n),
{
    reveal(is_power_table);
    let w = fs.max_width as nat;
    let g = fs.root_of_unity@;
    let t = fs.expanded_roots_of_unity@;
    lemma_power_of_two_divides(n, w);
    let stride = w / n;
    lemma_fr_pow_one(g);
    lemma_reduce_small(g as int);
    assert(t[1]@ == g);
    assert(t[w as int]@ == fr_pow(g, w));
    lemma_fr_pow_mul(g, stride, n);
    assert(stride * n == w) by (nonlinear_arith)
        requires
            n * stride == w,
    ;
    crate::field::lemma_fr_pow_cong(g, stride);
    if n >= 2 {
        assert(w >= 2) by (nonlinear_arith)
            requires
                n * stride == w,
                n >= 2,
                stride >= 1,
        ;
        assert(t[(w / 2) as int]@ == fr_pow(g, w / 2));
        lemma_fr_pow_mul(g, stride, n / 2);
        assert(stride * (n / 2) == w / 2) by (nonlinear_arith)
            requires
                n * stride == w,
                n % 2 == 0,
        ;
    }
}

/// The first `take` entries of `src`, followed by zeros up to `length`.
fn padded(src: &Vec<ArkFr>, take: usize, length: usize) -> (r: Vec<ArkFr>)
    requires
        take <= src@.len(),
        take <= length,
        all_wf(src@),
    ensures
        r@.len() == length,
        all_wf(r@),
        fr_values(r@) == fr_values(src@).take(take as int) + poly_zero((length - take) as nat),
{
    let mut r = zeros(length);
    let mut i: usize = 0;
    while i < take
        invariant
            i <= take <= length,
            take <= src@.len(),
            r@.len() == length,
            all_wf(r@),
            all_wf(src@),
            forall|j: int| 0 <= j < i ==> #[trigger] r@[j] == src@[j],
            forall|j: int| i <= j < length ==> (#[trigger] r@[j])@ == 0,
        decreases take - i,
    {
        r.set(i, src[i]);
        i += 1;
    }
    assert(fr_values(r@) =~= fr_values(src@).take(take as int) + poly_zero(
        (length - take) as nat,
    ));
    r
}

/// The entry-wise products of two vectors of one length.
fn pointwise_mul(a: &Vec<ArkFr>, b: &Vec<ArkFr>) -> (r: Vec<ArkFr>)
    requires
        a@.len() == b@.len(),
    ensures
        r@.len() == a@.len(),
        all_wf(r@),
        fr_values(r@) == pointwise_product(fr_values(a@), fr_values(b@)),
{
    let n = a.len();
    let mut r: Vec<ArkFr> = Vec::new();
    let mut i: usize = 0;
    while i < n
        invariant
            i <= n,
            n == a@.len(),
            n == b@.len(),
            r@.len() == i,
            all_wf(r@),
            forall|j: int| 0 <= j < i ==> (#[trigger] r@[j])@ == fr_mul(a@[j]@, b@[j]@),
        decreases n - i,
    {
        r.push(a[i].mul(&b[i]));
        i += 1;
    }
    assert(fr_values(r@) =~= pointwise_product(fr_values(a@), fr_values(b@)));
    r
}

/// Whether a product of `len` coefficients of polynomials of lengths `la`
/// and `lb` fits a transform of width at most `cap`.
pub open spec fn product_fits(la: nat, lb: nat, len: nat, cap: nat) -> bool {
    let ta = if la < len {
        la
    } else {
        len
    };
    let tb = if lb < len {
        lb
    } else {
        len
    };
    ta == 0 || tb == 0 || next_power_of_two((ta + tb - 1) as nat) <= cap
}

/// The search for a power of two ends at or above both its start and its aim.
pub proof fn lemma_power_of_two_from_bound(p: nat, x: nat)
    requires
        p >= 1,
    ensures
        power_of_two_from(p, x) >= x,
        power_of_two_from(p, x) >= p,
    decreases
            (if p < x {
                x - p
            } else {
                0
            }),
{
    if p < x {
        lemma_power_of_two_from_bound(2 * p, x);
    }
}

impl FFTSettings {
    /// The first `len` coefficients of the product of `a` and `x`, computed
    /// through the transform: both are padded to a power of two that holds
    /// the product, transformed, multiplied entry by entry, and transformed
    /// back. Without a domain one of the fitting scale is built. The result
    /// is the product that `mul_direct` gives. A product that needs a wider
    /// transform than the domain allows is refused.
    pub fn poly_mul_fft(a: &Poly, x: &Poly, len: usize, fs: Option<&FFTSettings>) -> (r: Result<
        Poly,
        KzgError,
    >)
        requires
            a.wf(),
            x.wf(),
            fs matches Some(f) ==> f.wf(),
        ensures
            match r {
                Ok(p) => {
                    &&& p@ == poly_product(a@, x@, len as nat)
                    &&& p.coeffs@.len() == len
                    &&& p.wf()
                    &&& product_fits(
                        a@.len(),
                        x@.len(),
                        len as nat,
                        match fs {
                            Some(f) => f.max_width as nat,
                            None => MAX_WIDTH as nat,
                        },
                    )
                },
                Err(e) => {
                    &&& e == KzgError::DomainError
                    &&& !product_fits(
                        a@.len(),
                        x@.len(),
                        len as nat,
                        match fs {
                            Some(f) => f.max_width as nat,
                            None => MAX_WIDTH as nat,
                        },
                    )
                },
            },
    {
        let a_len = if a.coeffs.len() < len {
            a.coeffs.len()
        } else {
            len
        };
        let b_len = if x.coeffs.len() < len {
            x.coeffs.len()
        } else {
            len
        };
        if a_len == 0 || b_len == 0 {
            let out = Poly::new(len);
            proof {
                assert forall|k: int| 0 <= k < len implies #[trigger] out@[k] == conv_coeff(
                    a@,
                    x@,
                    k,
                ) by {
                    lemma_conv_coeff_take(a@, x@, k, a_len as int, b_len as int);
                    lemma_conv_coeff_high(a@.take(a_len as int), x@.take(b_len as int), k);
                }
                assert(out@ =~= poly_product(a@, x@, len as nat));
            }
            return Ok(out);
        }
        let ghost cap: nat = match fs {
            Some(f) => f.max_width as nat,
            None => MAX_WIDTH as nat,
        };
        proof {
            lemma_power_of_two_from_bound(1, (a_len + b_len - 1) as nat);
            if let Some(f) = fs {
                assert(f.max_width <= MAX_WIDTH) by {
                    lemma_width_bound(f);
                }
            }
        }
        if a_len > MAX_WIDTH || b_len > MAX_WIDTH {
            return Err(KzgError::DomainError);
        }
        let total = a_len - 1 + b_len;
        if total > MAX_WIDTH {
            return Err(KzgError::DomainError);
        }
        let (length, scale) = next_pow_of_2(total);
        match fs {
            Some(f) => {
                if length > f.max_width {
                    return Err(KzgError::DomainError);
                }
                Ok(Self::product_over(a, x, a_len, b_len, len, length, f))
            },
            None => {
                match FFTSettings::new(scale) {
                    Ok(f) => Ok(Self::product_over(a, x, a_len, b_len, len, length, &f)),
                    Err(e) => Err(e),
                }
            },
        }
    }

    /// The product through a transform of length `length` over the domain `fs`.
    fn product_over(
        a: &Poly,
        x: &Poly,
        a_len: usize,
        b_len: usize,
        len: usize,
        length: usize,
        fs: &FFTSettings,
    ) -> (r: Poly)
        requires
            a.wf(),
            x.wf(),
            fs.wf(),
            1 <= a_len <= a@.len(),
            1 <= b_len <= x@.len(),
            a_len == a@.len() || a_len == len,
            b_len == x@.len() || b_len == len,
            a_len <= len,
            b_len <= len,
            is_power_of_two(length as nat),
            length <= fs.max_width,
            length + 1 >= a_len + b_len,
        ensures
            r@ == poly_product(a@, x@, len as nat),
            r.coeffs@.len() == len,
            r.wf(),
    {
        let a_pad = padded(&a.coeffs, a_len, length);
        let b_pad = padded(&x.coeffs, b_len, length);
        let a_fft = match fs.fft_fr(a_pad.as_slice(), false) {
            Ok(v) => v,
            Err(_) => a_pad,
        };
        let b_fft = match fs.fft_fr(b_pad.as_slice(), false) {
            Ok(v) => v,
            Err(_) => b_pad,
        };
        let ab_fft = pointwise_mul(&a_fft, &b_fft);
        let ab = match fs.fft_fr(ab_fft.as_slice(), true) {
            Ok(v) => v,
            Err(_) => ab_fft,
        };
        let ghost av = a@.take(a_len as int);
        let ghost bv = x@.take(b_len as int);
        proof {
            lemma_domain_root(fs, length as nat);
            lemma_transform_product(av, bv, fs.domain_root(length as nat), length as nat);
            assert(fr_values(ab@) == poly_product(av, bv, length as nat));
        }
        let mut out = zeros(len);
        let mut k: usize = 0;
        while k < len && k < length
            invariant
                k <= len,
                k <= length,
                out@.len() == len,
                ab@.len() == length,
                all_wf(out@),
                all_wf(ab@),
                forall|j: int| 0 <= j < k ==> #[trigger] out@[j] == ab@[j],
                forall|j: int| k <= j < len ==> (#[trigger] out@[j])@ == 0,
            decreases len - k,
        {
            out.set(k, ab[k]);
            k += 1;
        }
        let r = Poly { coeffs: out };
        proof {
            assert forall|j: int| 0 <= j < len implies #[trigger] r@[j] == conv_coeff(
                a@,
                x@,
                j,
            ) by {
                lemma_conv_coeff_take(a@, x@, j, a_len as int, b_len as int);
                if j < length {
                    assert(r@[j] == fr_values(ab@)[j]);
                } else {
                    lemma_conv_coeff_high(av, bv, j);
                }
            }
            assert(r@ =~= poly_product(a@, x@, len as nat));
        }
        r
    }
}

/// The inverse transform over a domain undoes the forward transform: for
/// canonical values whose number is a power of two within the width of the
/// domain, what `fft_fr` gives forward, `fft_fr` takes back.
pub proof fn lemma_fft_round_trip(fs: &FFTSettings, a: Seq<nat>)
    requires
        fs.wf(),
        is_power_of_two(a.len()),
        a.len() <= fs.max_width,
        crate::polymath::all_fr(a),
    ensures
        idft(dft(a, fs.domain_root(a.len())), fs.domain_root(a.len())) == a,
{
    lemma_domain_root(fs, a.len());
    crate::transform::lemma_idft_dft(a, fs.domain_root(a.len()));
}

/// No domain is wider than the table of roots allows.
pub proof fn lemma_width_bound(fs: &FFTSettings)
    requires
        fs.wf(),
    ensures
        fs.max_width <= MAX_WIDTH,
{
}

impl Default for FFTSettings {
    /// The empty domain, which is no domain of any scale.
    fn default() -> (r: Self)
        ensures
            r.max_width == 0,
            r.root_of_unity@ == 0,
            r.expanded_roots_of_unity@.len() == 0,
            r.reverse_roots_of_unity@.len() == 0,
            r.roots_of_unity@.len() == 0,
    {
        FFTSettings {
            max_width: 0,
            root_of_unity: ArkFr::zero(),
            expanded_roots_of_unity: Vec::new(),
            reverse_roots_of_unity: Vec::new(),
            roots_of_unity: Vec::new(),
        }
    }
}

} // verus!
