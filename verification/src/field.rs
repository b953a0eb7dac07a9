//! The scalar field of BLS12-381 as mathematics: residues modulo the prime
//! group order, written over `nat` and `int`, with the ring lemmas that the
//! proofs of the polynomial and protocol layers rest on.
use vstd::arithmetic::div_mod::*;
use vstd::arithmetic::mul::*;
use vstd::arithmetic::power::*;
use vstd::prelude::*;

verus! {

/// The order `r` of the groups G1 and G2, which is the modulus of the scalar field.
pub open spec fn modulus() -> nat {
    0x73eda753299d7d483339d80809a1d80553bda402fffe5bfeffffffff00000001nat
}

/// The canonical residue of an integer.
pub open spec fn fr_reduce(x: int) -> nat {
    (x % (modulus() as int)) as nat
}

/// `a` is a canonical residue.
pub open spec fn is_fr(a: nat) -> bool {
    a < modulus()
}

/// The sum in the field.
pub open spec fn fr_add(a: nat, b: nat) -> nat {
    fr_reduce(a as int + b as int)
}

/// The difference in the field.
pub open spec fn fr_sub(a: nat, b: nat) -> nat {
    fr_reduce(a as int - b as int)
}

/// The product in the field.
pub open spec fn fr_mul(a: nat, b: nat) -> nat {
    fr_reduce(a as int * b as int)
}

/// The additive inverse in the field.
pub open spec fn fr_neg(a: nat) -> nat {
    fr_reduce(-(a as int))
}

/// The `n`-th power in the field.
pub open spec fn fr_pow(a: nat, n: nat) -> nat {
    fr_reduce(pow(a as int, n))
}

/// `b` is a multiplicative inverse of `a`.
pub open spec fn is_inverse_of(b: nat, a: nat) -> bool {
    is_fr(b) && fr_mul(a, b) == 1
}

/// `a` has a multiplicative inverse.
pub open spec fn invertible(a: nat) -> bool {
    exists|b: nat| is_inverse_of(b, a)
}

/// The multiplicative inverse of `a`, where it has one.
pub open spec fn fr_inv(a: nat) -> nat {
    choose|b: nat| is_inverse_of(b, a)
}

/// Congruence modulo the field order.
pub open spec fn cong(x: int, y: int) -> bool {
    fr_reduce(x) == fr_reduce(y)
}

/// A canonical residue is below the modulus, and is the remainder.
pub proof fn lemma_reduce_range(x: int)
    ensures
        fr_reduce(x) < modulus(),
        fr_reduce(x) as int == x % (modulus() as int),
{
    lemma_mod_bound(x, modulus() as int);
}

/// A number below the modulus is its own residue.
pub proof fn lemma_reduce_small(x: int)
    requires
        0 <= x < modulus(),
    ensures
        fr_reduce(x) == x,
{
    lemma_small_mod(x as nat, modulus());
}

/// An integer is congruent to its residue, and reducing twice is reducing once.
pub proof fn lemma_reduce_cong(x: int)
    ensures
        cong(fr_reduce(x) as int, x),
        fr_reduce(fr_reduce(x) as int) == fr_reduce(x),
{
    lemma_reduce_range(x);
    lemma_mod_twice(x, modulus() as int);
}

/// Congruence is kept by addition.
pub proof fn lemma_cong_add(x: int, x2: int, y: int, y2: int)
    requires
        cong(x, x2),
        cong(y, y2),
    ensures
        cong(x + y, x2 + y2),
{
    let m = modulus() as int;
    lemma_reduce_range(x);
    lemma_reduce_range(x2);
    lemma_reduce_range(y);
    lemma_reduce_range(y2);
    lemma_add_mod_noop(x, y, m);
    lemma_add_mod_noop(x2, y2, m);
}

/// Congruence is kept by subtraction.
pub proof fn lemma_cong_sub(x: int, x2: int, y: int, y2: int)
    requires
        cong(x, x2),
        cong(y, y2),
    ensures
        cong(x - y, x2 - y2),
{
    let m = modulus() as int;
    lemma_reduce_range(x);
    lemma_reduce_range(x2);
    lemma_reduce_range(y);
    lemma_reduce_range(y2);
    lemma_sub_mod_noop(x, y, m);
    lemma_sub_mod_noop(x2, y2, m);
}

/// Congruence is kept by multiplication.
pub proof fn lemma_cong_mul(x: int, x2: int, y: int, y2: int)
    requires
        cong(x, x2),
        cong(y, y2),
    ensures
        cong(x * y, x2 * y2),
{
    let m = modulus() as int;
    lemma_reduce_range(x);
    lemma_reduce_range(x2);
    lemma_reduce_range(y);
    lemma_reduce_range(y2);
    lemma_mul_mod_noop_general(x, y, m);
    lemma_mul_mod_noop_general(x2, y2, m);
}

/// Congruence is kept by powers.
pub proof fn lemma_cong_pow(x: int, x2: int, n: nat)
    requires
        cong(x, x2),
    ensures
        cong(pow(x, n), pow(x2, n)),
    decreases n,
{
    reveal(pow);
    if n > 0 {
        lemma_cong_pow(x, x2, (n - 1) as nat);
        lemma_cong_mul(x, x2, pow(x, (n - 1) as nat), pow(x2, (n - 1) as nat));
    }
}

/// Two canonical residues that are congruent are equal.
pub proof fn lemma_cong_canonical(a: nat, b: nat)
    requires
        is_fr(a),
        is_fr(b),
        cong(a as int, b as int),
    ensures
        a == b,
{
    lemma_reduce_small(a as int);
    lemma_reduce_small(b as int);
}

/// The product in the field is congruent to the product of integers.
pub proof fn lemma_fr_mul_cong(a: nat, b: nat)
    ensures
        cong(fr_mul(a, b) as int, a as int * b as int),
        is_fr(fr_mul(a, b)),
{
    lemma_reduce_cong(a as int * b as int);
    lemma_reduce_range(a as int * b as int);
}

/// The sum in the field is congruent to the sum of integers.
pub proof fn lemma_fr_add_cong(a: nat, b: nat)
    ensures
        cong(fr_add(a, b) as int, a as int + b as int),
        is_fr(fr_add(a, b)),
{
    lemma_reduce_cong(a as int + b as int);
    lemma_reduce_range(a as int + b as int);
}

/// The difference in the field is congruent to the difference of integers.
pub proof fn lemma_fr_sub_cong(a: nat, b: nat)
    ensures
        cong(fr_sub(a, b) as int, a as int - b as int),
        is_fr(fr_sub(a, b)),
{
    lemma_reduce_cong(a as int - b as int);
    lemma_reduce_range(a as int - b as int);
}

/// The negation in the field is congruent to the negation of integers.
pub proof fn lemma_fr_neg_cong(a: nat)
    ensures
        cong(fr_neg(a) as int, -(a as int)),
        is_fr(fr_neg(a)),
{
    lemma_reduce_cong(-(a as int));
    lemma_reduce_range(-(a as int));
}

/// The power in the field is congruent to the power of integers.
pub proof fn lemma_fr_pow_cong(a: nat, n: nat)
    ensures
        cong(fr_pow(a, n) as int, pow(a as int, n)),
        is_fr(fr_pow(a, n)),
{
    lemma_reduce_cong(pow(a as int, n));
    lemma_reduce_range(pow(a as int, n));
}

/// Every operation of the field returns a canonical residue.
pub proof fn lemma_ops_are_fr(a: nat, b: nat)
    ensures
        is_fr(fr_add(a, b)),
        is_fr(fr_sub(a, b)),
        is_fr(fr_mul(a, b)),
        is_fr(fr_neg(a)),
{
    lemma_reduce_range(a as int + b as int);
    lemma_reduce_range(a as int - b as int);
    lemma_reduce_range(a as int * b as int);
    lemma_reduce_range(-(a as int));
}

/// Multiplication commutes.
pub proof fn lemma_fr_mul_comm(a: nat, b: nat)
    ensures
        fr_mul(a, b) == fr_mul(b, a),
{
    lemma_mul_is_commutative(a as int, b as int);
}

/// Multiplication is associative.
pub proof fn lemma_fr_mul_assoc(a: nat, b: nat, c: nat)
    ensures
        fr_mul(fr_mul(a, b), c) == fr_mul(a, fr_mul(b, c)),
{
    lemma_fr_mul_cong(a, b);
    lemma_fr_mul_cong(b, c);
    lemma_cong_mul(fr_mul(a, b) as int, a as int * b as int, c as int, c as int);
    lemma_cong_mul(a as int, a as int, fr_mul(b, c) as int, b as int * c as int);
    lemma_mul_is_associative(a as int, b as int, c as int);
}

/// Addition commutes.
pub proof fn lemma_fr_add_comm(a: nat, b: nat)
    ensures
        fr_add(a, b) == fr_add(b, a),
{
}

/// Addition is associative.
pub proof fn lemma_fr_add_assoc(a: nat, b: nat, c: nat)
    ensures
        fr_add(fr_add(a, b), c) == fr_add(a, fr_add(b, c)),
{
    lemma_fr_add_cong(a, b);
    lemma_fr_add_cong(b, c);
    lemma_cong_add(fr_add(a, b) as int, a as int + b as int, c as int, c as int);
    lemma_cong_add(a as int, a as int, fr_add(b, c) as int, b as int + c as int);
}

/// Multiplication distributes over addition.
pub proof fn lemma_fr_distrib(a: nat, b: nat, c: nat)
    ensures
        fr_mul(a, fr_add(b, c)) == fr_add(fr_mul(a, b), fr_mul(a, c)),
        fr_mul(fr_add(b, c), a) == fr_add(fr_mul(b, a), fr_mul(c, a)),
{
    lemma_fr_add_cong(b, c);
    lemma_fr_mul_cong(a, b);
    lemma_fr_mul_cong(a, c);
    lemma_cong_mul(a as int, a as int, fr_add(b, c) as int, b as int + c as int);
    lemma_cong_add(fr_mul(a, b) as int, a as int * b as int, fr_mul(a, c) as int, a as int * c as int);
    lemma_mul_is_distributive_add(a as int, b as int, c as int);
    lemma_fr_mul_comm(a, fr_add(b, c));
    lemma_fr_mul_comm(a, b);
    lemma_fr_mul_comm(a, c);
}

/// One is neutral for multiplication, up to reduction.
pub proof fn lemma_fr_mul_one(a: nat)
    ensures
        fr_mul(a, 1) == fr_reduce(a as int),
        fr_mul(1, a) == fr_reduce(a as int),
        is_fr(a) ==> fr_mul(a, 1) == a && fr_mul(1, a) == a,
{
    if is_fr(a) {
        lemma_reduce_small(a as int);
    }
}

/// A product with zero is zero.
pub proof fn lemma_fr_mul_zero(a: nat)
    ensures
        fr_mul(a, 0) == 0,
        fr_mul(0, a) == 0,
{
    lemma_reduce_small(0);
}

/// Zero is neutral for addition, up to reduction.
pub proof fn lemma_fr_add_zero(a: nat)
    ensures
        fr_add(a, 0) == fr_reduce(a as int),
        fr_add(0, a) == fr_reduce(a as int),
        is_fr(a) ==> fr_add(a, 0) == a && fr_add(0, a) == a,
{
    if is_fr(a) {
        lemma_reduce_small(a as int);
    }
}

/// An inverse is unique among the canonical residues.
pub proof fn lemma_inverse_unique(a: nat, b: nat, c: nat)
    requires
        is_inverse_of(b, a),
        is_inverse_of(c, a),
    ensures
        b == c,
{
    // b = b * (a * c) = (b * a) * c = c
    lemma_fr_mul_assoc(b, a, c);
    lemma_fr_mul_comm(b, a);
    lemma_fr_mul_one(b);
    lemma_fr_mul_one(c);
}

/// What `fr_inv` is, given any inverse of `a`.
pub proof fn lemma_fr_inv_is(a: nat, b: nat)
    requires
        is_inverse_of(b, a),
    ensures
        invertible(a),
        fr_inv(a) == b,
        is_inverse_of(fr_inv(a), a),
{
    lemma_inverse_unique(a, b, fr_inv(a));
}

/// A residue with an inverse is not zero.
pub proof fn lemma_invertible_nonzero(a: nat)
    requires
        invertible(a),
    ensures
        fr_reduce(a as int) != 0,
{
    let b = fr_inv(a);
    if fr_reduce(a as int) == 0 {
        lemma_reduce_small(0);
        lemma_cong_mul(a as int, 0, b as int, b as int);
        lemma_reduce_small(1);
    }
}

/// The zeroth power is one.
pub proof fn lemma_fr_pow_zero(a: nat)
    ensures
        fr_pow(a, 0) == 1,
{
    lemma_pow0(a as int);
    lemma_reduce_small(1);
}

/// The next power is one more factor.
pub proof fn lemma_fr_pow_succ(a: nat, n: nat)
    ensures
        fr_pow(a, n + 1) == fr_mul(fr_pow(a, n), a),
        fr_pow(a, n + 1) == fr_mul(a, fr_pow(a, n)),
{
    reveal(pow);
    lemma_fr_pow_cong(a, n);
    lemma_cong_mul(a as int, a as int, fr_pow(a, n) as int, pow(a as int, n));
    lemma_fr_mul_comm(a, fr_pow(a, n));
}

/// The first power is the residue.
pub proof fn lemma_fr_pow_one(a: nat)
    ensures
        fr_pow(a, 1) == fr_reduce(a as int),
{
    lemma_pow1(a as int);
}

/// A power at a sum of exponents is the product of the powers.
pub proof fn lemma_fr_pow_add(a: nat, m: nat, n: nat)
    ensures
        fr_pow(a, m + n) == fr_mul(fr_pow(a, m), fr_pow(a, n)),
{
    lemma_pow_adds(a as int, m, n);
    lemma_fr_pow_cong(a, m);
    lemma_fr_pow_cong(a, n);
    lemma_cong_mul(fr_pow(a, m) as int, pow(a as int, m), fr_pow(a, n) as int, pow(a as int, n));
}

/// A power of a power is the power at the product of the exponents.
pub proof fn lemma_fr_pow_mul(a: nat, m: nat, n: nat)
    ensures
        fr_pow(fr_pow(a, m), n) == fr_pow(a, m * n),
{
    lemma_pow_multiplies(a as int, m, n);
    lemma_fr_pow_cong(a, m);
    lemma_cong_pow(fr_pow(a, m) as int, pow(a as int, m), n);
}

/// The power of a product is the product of the powers.
pub proof fn lemma_fr_pow_of_mul(a: nat, b: nat, n: nat)
    ensures
        fr_pow(fr_mul(a, b), n) == fr_mul(fr_pow(a, n), fr_pow(b, n)),
{
    lemma_pow_distributes(a as int, b as int, n);
    lemma_fr_mul_cong(a, b);
    lemma_cong_pow(fr_mul(a, b) as int, a as int * b as int, n);
    lemma_fr_pow_cong(a, n);
    lemma_fr_pow_cong(b, n);
    lemma_cong_mul(fr_pow(a, n) as int, pow(a as int, n), fr_pow(b, n) as int, pow(b as int, n));
}

/// Every power of one is one.
pub proof fn lemma_fr_pow_of_one(n: nat)
    ensures
        fr_pow(1, n) == 1,
{
    lemma1_pow(n);
    lemma_reduce_small(1);
}

/// The sum of two residues is congruent to the sum of what they are congruent to.
pub proof fn lemma_add_c(a: nat, b: nat, ai: int, bi: int)
    requires
        cong(a as int, ai),
        cong(b as int, bi),
    ensures
        cong(fr_add(a, b) as int, ai + bi),
        is_fr(fr_add(a, b)),
{
    lemma_fr_add_cong(a, b);
    lemma_cong_add(a as int, ai, b as int, bi);
}

/// The difference of two residues is congruent to the difference of what
/// they are congruent to.
pub proof fn lemma_sub_c(a: nat, b: nat, ai: int, bi: int)
    requires
        cong(a as int, ai),
        cong(b as int, bi),
    ensures
        cong(fr_sub(a, b) as int, ai - bi),
        is_fr(fr_sub(a, b)),
{
    lemma_fr_sub_cong(a, b);
    lemma_cong_sub(a as int, ai, b as int, bi);
}

/// The product of two residues is congruent to the product of what they are
/// congruent to.
pub proof fn lemma_mul_c(a: nat, b: nat, ai: int, bi: int)
    requires
        cong(a as int, ai),
        cong(b as int, bi),
    ensures
        cong(fr_mul(a, b) as int, ai * bi),
        is_fr(fr_mul(a, b)),
{
    lemma_fr_mul_cong(a, b);
    lemma_cong_mul(a as int, ai, b as int, bi);
}

/// The negation of a residue is congruent to the negation of what it is
/// congruent to.
pub proof fn lemma_neg_c(a: nat, ai: int)
    requires
        cong(a as int, ai),
    ensures
        cong(fr_neg(a) as int, -ai),
        is_fr(fr_neg(a)),
{
    lemma_fr_neg_cong(a);
    lemma_cong_sub(0, 0, a as int, ai);
}

/// Two canonical residues that are congruent to integers that differ by a
/// multiple of the modulus are equal.
pub proof fn lemma_cong_eq(a: nat, b: nat, ai: int, bi: int, k: int)
    requires
        is_fr(a),
        is_fr(b),
        cong(a as int, ai),
        cong(b as int, bi),
        ai == bi + k * modulus(),
    ensures
        a == b,
{
    lemma_mod_multiples_vanish(k, bi, modulus() as int);
    lemma_cong_canonical(a, b);
}

/// A power of a residue whose `w`-th power is one, at a multiple of `w`, is one.
pub proof fn lemma_fr_pow_multiple(a: nat, w: nat, m: nat)
    requires
        fr_pow(a, w) == 1,
    ensures
        fr_pow(a, w * m) == 1,
{
    lemma_fr_pow_mul(a, w, m);
    lemma_fr_pow_of_one(m);
}

} // verus!
