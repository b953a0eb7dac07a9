//! Elements of the scalar field, held as four little-endian 64-bit limbs of
//! the canonical residue. The arithmetic is `ark_ff`'s; what the library adds
//! is the byte codec, the range check, and a contract on every operation.
use crate::error::KzgError;
use crate::hexcode::{decode_prefixed, hex_payload};
use crate::field::{
    fr_add, fr_inv, fr_mul, fr_neg, fr_pow, fr_reduce, fr_sub, invertible, is_fr, is_inverse_of,
    lemma_fr_inv_is, lemma_reduce_range, lemma_reduce_small, modulus,
};
use ark_ff::PrimeField;
use vstd::arithmetic::power::{lemma_pow0, lemma_pow_adds, pow};
use vstd::prelude::*;
use vstd::string::StringSliceAdditionalSpecFns;

verus! {

/// The length of the encoding of a field element.
pub const BYTES_PER_FIELD_ELEMENT: usize = 32;

/// The least significant limb of the field modulus.
pub const MODULUS_LIMB_0: u64 = 0xffffffff00000001;

/// The second limb of the field modulus.
pub const MODULUS_LIMB_1: u64 = 0x53bda402fffe5bfe;

/// The third limb of the field modulus.
pub const MODULUS_LIMB_2: u64 = 0x3339d80809a1d805;

/// The most significant limb of the field modulus.
pub const MODULUS_LIMB_3: u64 = 0x73eda753299d7d48;

/// The integer that a byte string denotes, most significant byte first.
pub open spec fn be_value(s: Seq<u8>) -> nat
    decreases s.len(),
{
    if s.len() == 0 {
        0
    } else {
        be_value(s.drop_last()) * 256 + s.last() as nat
    }
}

/// The integer that four 64-bit limbs denote, least significant limb first.
pub open spec fn limbs_value(l: Seq<u64>) -> nat {
    l[0] as nat + l[1] as nat * 0x1_0000_0000_0000_0000nat
        + l[2] as nat * 0x1_0000_0000_0000_0000_0000_0000_0000_0000nat
        + l[3] as nat * 0x1_0000_0000_0000_0000_0000_0000_0000_0000_0000_0000_0000_0000nat
}

/// The value of two byte strings written one after the other.
pub proof fn lemma_be_value_append(s: Seq<u8>, t: Seq<u8>)
    ensures
        be_value(s + t) == be_value(s) * pow(256, t.len()) + be_value(t),
    decreases t.len(),
{
    if t.len() == 0 {
        assert(s + t =~= s);
        lemma_pow0(256);
    } else {
        let t1 = t.drop_last();
        assert((s + t).drop_last() =~= s + t1);
        lemma_be_value_append(s, t1);
        lemma_pow_adds(256, t1.len(), 1);
        vstd::arithmetic::power::lemma_pow1(256);
        let a = be_value(s) as int;
        let p = pow(256, t1.len());
        let b = be_value(t1) as int;
        assert((a * p + b) * 256 == a * (p * 256) + b * 256) by (nonlinear_arith);
    }
}

/// The value of eight bytes, written out.
pub proof fn lemma_be_value_8(s: Seq<u8>)
    requires
        s.len() == 8,
    ensures
        be_value(s) == s[7] as nat + s[6] as nat * 0x100 + s[5] as nat * 0x1_0000 + s[4] as nat
            * 0x100_0000 + s[3] as nat * 0x1_0000_0000 + s[2] as nat * 0x100_0000_0000
            + s[1] as nat * 0x1_0000_0000_0000 + s[0] as nat * 0x100_0000_0000_0000,
        be_value(s) < 0x1_0000_0000_0000_0000,
{
    let s7 = s.drop_last();
    let s6 = s7.drop_last();
    let s5 = s6.drop_last();
    let s4 = s5.drop_last();
    let s3 = s4.drop_last();
    let s2 = s3.drop_last();
    let s1 = s2.drop_last();
    let s0 = s1.drop_last();
    assert(be_value(s0) == 0);
    assert(be_value(s1) == s[0] as nat);
    assert(be_value(s2) == be_value(s1) * 256 + s[1] as nat);
    assert(be_value(s3) == be_value(s2) * 256 + s[2] as nat);
    assert(be_value(s4) == be_value(s3) * 256 + s[3] as nat);
    assert(be_value(s5) == be_value(s4) * 256 + s[4] as nat);
    assert(be_value(s6) == be_value(s5) * 256 + s[5] as nat);
    assert(be_value(s7) == be_value(s6) * 256 + s[6] as nat);
    assert(be_value(s) == be_value(s7) * 256 + s[7] as nat);
}

/// Eight bytes make one limb: `256^8 == 2^64`.
pub proof fn lemma_pow256_8()
    ensures
        pow(256, 8) == 0x1_0000_0000_0000_0000,
{
    reveal_with_fuel(pow, 9);
}

/// Thirty-two bytes, most significant first, denote the value of their four
/// limbs, least significant first.
pub proof fn lemma_be_value_32(s: Seq<u8>)
    requires
        s.len() == 32,
    ensures
        be_value(s) == limbs_value(
            seq![
                be_value(s.subrange(24, 32)) as u64,
                be_value(s.subrange(16, 24)) as u64,
                be_value(s.subrange(8, 16)) as u64,
                be_value(s.subrange(0, 8)) as u64,
            ],
        ),
        be_value(s.subrange(24, 32)) < 0x1_0000_0000_0000_0000,
        be_value(s.subrange(16, 24)) < 0x1_0000_0000_0000_0000,
        be_value(s.subrange(8, 16)) < 0x1_0000_0000_0000_0000,
        be_value(s.subrange(0, 8)) < 0x1_0000_0000_0000_0000,
{
    let a = s.subrange(0, 8);
    let b = s.subrange(8, 16);
    let c = s.subrange(16, 24);
    let d = s.subrange(24, 32);
    lemma_be_value_8(a);
    lemma_be_value_8(b);
    lemma_be_value_8(c);
    lemma_be_value_8(d);
    lemma_pow256_8();
    assert(s =~= ((a + b) + c) + d);
    lemma_be_value_append(a, b);
    lemma_be_value_append(a + b, c);
    lemma_be_value_append((a + b) + c, d);
}

proof fn lemma_digit_split(x: int, y: int, x2: int, y2: int, b: int)
    requires
        0 <= x < b,
        0 <= x2 < b,
        x + y * b == x2 + y2 * b,
    ensures
        x == x2,
        y == y2,
{
    assert((y - y2) * b == x2 - x) by (nonlinear_arith)
        requires
            x + y * b == x2 + y2 * b,
    ;
    assert(y == y2) by (nonlinear_arith)
        requires
            (y - y2) * b == x2 - x,
            -b < x2 - x < b,
    ;
}

/// Limbs are determined by their value.
pub proof fn lemma_limbs_value_injective(a: Seq<u64>, b: Seq<u64>)
    requires
        a.len() == 4,
        b.len() == 4,
        limbs_value(a) == limbs_value(b),
    ensures
        a =~= b,
{
    let w = 0x1_0000_0000_0000_0000int;
    let a1 = a[1] as int + (a[2] as int + a[3] as int * w) * w;
    let b1 = b[1] as int + (b[2] as int + b[3] as int * w) * w;
    assert(limbs_value(a) == a[0] as int + a1 * w);
    assert(limbs_value(b) == b[0] as int + b1 * w);
    lemma_digit_split(a[0] as int, a1, b[0] as int, b1, w);
    lemma_digit_split(a[1] as int, a[2] as int + a[3] as int * w, b[1] as int, b[2] as int + b[3] as int * w, w);
    lemma_digit_split(a[2] as int, a[3] as int, b[2] as int, b[3] as int, w);
}

/// Reads eight bytes as an integer, most significant byte first.
pub fn bytes_be_to_uint64(inp: &[u8]) -> (r: u64)
    requires
        inp.len() == 8,
    ensures
        r == be_value(inp@),
{
    proof {
        lemma_be_value_8(inp@);
    }
    let b0 = inp[0] as u64;
    let b1 = inp[1] as u64;
    let b2 = inp[2] as u64;
    let b3 = inp[3] as u64;
    let b4 = inp[4] as u64;
    let b5 = inp[5] as u64;
    let b6 = inp[6] as u64;
    let b7 = inp[7] as u64;
    b7 + b6 * 0x100 + b5 * 0x1_0000 + b4 * 0x100_0000 + b3 * 0x1_0000_0000 + b2 * 0x100_0000_0000
        + b1 * 0x1_0000_0000_0000 + b0 * 0x100_0000_0000_0000
}

/// Whether the integer of four limbs is below the field modulus: the borrow
/// that is left when the modulus is subtracted limb by limb.
pub fn bigint_check_mod_256(a: &[u64; 4]) -> (r: bool)
    ensures
        r == (limbs_value(a@) < modulus()),
{
    let overflow: u64 = if a[0] < MODULUS_LIMB_0 { 1 } else { 0 };
    let overflow: u64 = if a[1] < MODULUS_LIMB_1 + overflow { 1 } else { 0 };
    let overflow: u64 = if a[2] < MODULUS_LIMB_2 + overflow { 1 } else { 0 };
    a[3] < MODULUS_LIMB_3 + overflow
}


/// The eight bytes of an integer, most significant first.
pub fn uint64_to_bytes_be(x: u64) -> (r: [u8; 8])
    ensures
        be_value(r@) == x,
{
    let b7 = (x % 256) as u8;
    let x1 = x / 256;
    let b6 = (x1 % 256) as u8;
    let x2 = x1 / 256;
    let b5 = (x2 % 256) as u8;
    let x3 = x2 / 256;
    let b4 = (x3 % 256) as u8;
    let x4 = x3 / 256;
    let b3 = (x4 % 256) as u8;
    let x5 = x4 / 256;
    let b2 = (x5 % 256) as u8;
    let x6 = x5 / 256;
    let b1 = (x6 % 256) as u8;
    let x7 = x6 / 256;
    let b0 = x7 as u8;
    let r = [b0, b1, b2, b3, b4, b5, b6, b7];
    proof {
        lemma_be_value_8(r@);
    }
    r
}

/// The four limbs, least significant first, of thirty-two bytes, most
/// significant first.
pub fn limbs_from_bytes_be(bytes: &[u8]) -> (r: [u64; 4])
    requires
        bytes.len() == 32,
    ensures
        limbs_value(r@) == be_value(bytes@),
{
    proof {
        lemma_be_value_32(bytes@);
    }
    let r = [
        bytes_be_to_uint64(vstd::slice::slice_subrange(bytes, 24, 32)),
        bytes_be_to_uint64(vstd::slice::slice_subrange(bytes, 16, 24)),
        bytes_be_to_uint64(vstd::slice::slice_subrange(bytes, 8, 16)),
        bytes_be_to_uint64(vstd::slice::slice_subrange(bytes, 0, 8)),
    ];
    assert(r@ =~= seq![
        be_value(bytes@.subrange(24, 32)) as u64,
        be_value(bytes@.subrange(16, 24)) as u64,
        be_value(bytes@.subrange(8, 16)) as u64,
        be_value(bytes@.subrange(0, 8)) as u64,
    ]);
    r
}

/// What thirty-two bytes decode to: the integer they denote, if it is a
/// canonical residue.
pub open spec fn fr_decoded(bytes: Seq<u8>) -> Result<nat, KzgError> {
    if bytes.len() != 32 {
        Err(KzgError::InvalidLength)
    } else if be_value(bytes) >= modulus() {
        Err(KzgError::InvalidEncoding)
    } else {
        Ok(be_value(bytes))
    }
}

/// An element of the scalar field: the four limbs of its canonical residue,
/// least significant first. The one value that is no residue is the reserved
/// `null`, all limbs at their maximum, which stands for "absent".
#[derive(Clone, Copy, Debug, PartialEq, Eq)]
pub struct ArkFr {
    pub limbs: [u64; 4],
}

impl View for ArkFr {
    type V = nat;

    /// The integer that the limbs denote.
    open spec fn view(&self) -> nat {
        limbs_value(self.limbs@)
    }
}

/// `ark_ff`'s `Fp::new` on the limbs of an integer below 2^256, read back with
/// `into_bigint`: the residue of that integer.
#[verifier::external_body]
fn fr_new(u: &[u64; 4]) -> (r: ArkFr)
    ensures
        r@ == fr_reduce(limbs_value(u@) as int),
{
    ArkFr { limbs: ark_bls12_381::Fr::new(ark_ff::BigInt::new(*u)).into_bigint().0 }
}

/// `ark_ff`'s `+` on two field elements: the sum of the residues.
#[verifier::external_body]
fn fr_sum(a: &ArkFr, b: &ArkFr) -> (r: ArkFr)
    ensures
        r@ == fr_add(a@, b@),
{
    let x = ark_bls12_381::Fr::new(ark_ff::BigInt::new(a.limbs));
    let y = ark_bls12_381::Fr::new(ark_ff::BigInt::new(b.limbs));
    ArkFr { limbs: (x + y).into_bigint().0 }
}

/// `ark_ff`'s `-` on two field elements: the difference of the residues.
#[verifier::external_body]
fn fr_difference(a: &ArkFr, b: &ArkFr) -> (r: ArkFr)
    ensures
        r@ == fr_sub(a@, b@),
{
    let x = ark_bls12_381::Fr::new(ark_ff::BigInt::new(a.limbs));
    let y = ark_bls12_381::Fr::new(ark_ff::BigInt::new(b.limbs));
    ArkFr { limbs: (x - y).into_bigint().0 }
}

/// `ark_ff`'s `*` on two field elements: the product of the residues.
#[verifier::external_body]
fn fr_product(a: &ArkFr, b: &ArkFr) -> (r: ArkFr)
    ensures
        r@ == fr_mul(a@, b@),
{
    let x = ark_bls12_381::Fr::new(ark_ff::BigInt::new(a.limbs));
    let y = ark_bls12_381::Fr::new(ark_ff::BigInt::new(b.limbs));
    ArkFr { limbs: (x * y).into_bigint().0 }
}

/// `ark_ff`'s `Field::square`: the product of the residue with itself.
#[verifier::external_body]
fn fr_square(a: &ArkFr) -> (r: ArkFr)
    ensures
        r@ == fr_mul(a@, a@),
{
    let x = ark_bls12_381::Fr::new(ark_ff::BigInt::new(a.limbs));
    ArkFr { limbs: ark_ff::Field::square(&x).into_bigint().0 }
}

/// `ark_ff`'s unary `-`: the additive inverse of the residue.
#[verifier::external_body]
fn fr_negation(a: &ArkFr) -> (r: ArkFr)
    ensures
        r@ == fr_neg(a@),
{
    let x = ark_bls12_381::Fr::new(ark_ff::BigInt::new(a.limbs));
    ArkFr { limbs: (-x).into_bigint().0 }
}

/// `ark_ff`'s `Field::inverse`: nothing for the zero residue, and for any
/// other the canonical residue whose product with it is one.
#[verifier::external_body]
fn fr_inverse(a: &ArkFr) -> (r: Option<ArkFr>)
    ensures
        r is None <==> fr_reduce(a@ as int) == 0,
        r is Some ==> is_inverse_of(r->0@, a@),
{
    let x = ark_bls12_381::Fr::new(ark_ff::BigInt::new(a.limbs));
    match ark_ff::Field::inverse(&x) {
        Some(v) => Some(ArkFr { limbs: v.into_bigint().0 }),
        None => None,
    }
}

/// `ark_ff`'s `Field::pow` with a one-limb exponent: the residue of the power.
#[verifier::external_body]
fn fr_power(a: &ArkFr, n: usize) -> (r: ArkFr)
    ensures
        r@ == fr_pow(a@, n as nat),
{
    let x = ark_bls12_381::Fr::new(ark_ff::BigInt::new(a.limbs));
    ArkFr { limbs: ark_ff::Field::pow(&x, [n as u64]).into_bigint().0 }
}

/// `ark_ff`'s `UniformRand::rand` on the thread's generator: some canonical residue.
#[verifier::external_body]
fn fr_random() -> (r: ArkFr)
    ensures
        is_fr(r@),
{
    let x: ark_bls12_381::Fr = ark_std::UniformRand::rand(&mut rand::thread_rng());
    ArkFr { limbs: x.into_bigint().0 }
}

impl ArkFr {
    /// The element is a canonical residue (and so is not `null`).
    pub open spec fn wf(&self) -> bool {
        is_fr(self@)
    }

    /// The reserved value that stands for "absent". It is no residue, differs
    /// from every element that arithmetic returns, and is told apart by `is_null`.
    pub fn null() -> (r: Self)
        ensures
            r.limbs@ == seq![u64::MAX, u64::MAX, u64::MAX, u64::MAX],
            !r.wf(),
    {
        ArkFr { limbs: [u64::MAX;4] }
    }

    /// The zero of the field.
    pub fn zero() -> (r: Self)
        ensures
            r@ == 0,
            r.wf(),
    {
        Self::from_u64(0)
    }

    /// The one of the field.
    pub fn one() -> (r: Self)
        ensures
            r@ == 1,
            r.wf(),
    {
        Self::from_u64(1)
    }

    /// A field element drawn from the thread's random generator.
    pub fn rand() -> (r: Self)
        ensures
            r.wf(),
    {
        fr_random()
    }

    /// The element of four limbs, least significant first: the residue of
    /// their integer.
    pub fn from_u64_arr(u: &[u64; 4]) -> (r: Self)
        ensures
            r@ == fr_reduce(limbs_value(u@) as int),
            r.wf(),
    {
        proof {
            lemma_reduce_range(limbs_value(u@) as int);
        }
        fr_new(u)
    }

    /// The element of a 64-bit integer.
    pub fn from_u64(val: u64) -> (r: Self)
        ensures
            r@ == val,
            r.wf(),
    {
        let u: [u64; 4] = [val, 0, 0, 0];
        proof {
            lemma_reduce_small(val as int);
        }
        Self::from_u64_arr(&u)
    }

    /// Decodes thirty-two bytes, most significant first. An input of another
    /// length is refused, and so is the encoding of an integer that is not
    /// below the field modulus.
    pub fn from_bytes(bytes: &[u8]) -> (r: Result<Self, KzgError>)
        ensures
            match r {
                Ok(v) => fr_decoded(bytes@) == Ok::<nat, KzgError>(v@) && v.wf(),
                Err(e) => fr_decoded(bytes@) == Err::<nat, KzgError>(e),
            },
    {
        if bytes.len() != BYTES_PER_FIELD_ELEMENT {
            return Err(KzgError::InvalidLength);
        }
        let storage = limbs_from_bytes_be(bytes);
        if !bigint_check_mod_256(&storage) {
            return Err(KzgError::InvalidEncoding);
        }
        proof {
            lemma_reduce_small(limbs_value(storage@) as int);
        }
        Ok(Self::from_u64_arr(&storage))
    }

    /// Decodes thirty-two bytes without the range check: the residue of the
    /// integer they denote.
    pub fn from_bytes_unchecked(bytes: &[u8]) -> (r: Result<Self, KzgError>)
        ensures
            match r {
                Ok(v) => bytes@.len() == 32 && v@ == fr_reduce(be_value(bytes@) as int) && v.wf(),
                Err(e) => bytes@.len() != 32 && e == KzgError::InvalidLength,
            },
    {
        if bytes.len() != BYTES_PER_FIELD_ELEMENT {
            return Err(KzgError::InvalidLength);
        }
        let storage = limbs_from_bytes_be(bytes);
        Ok(Self::from_u64_arr(&storage))
    }

    /// Decodes a text of a two-character prefix and hexadecimal digits: the
    /// digits give bytes, and the bytes are decoded as `from_bytes` does.
    pub fn from_hex(hex: &str) -> (r: Result<Self, KzgError>)
        ensures
            match r {
                Ok(v) => hex_payload(hex.spec_bytes()) is Some && fr_decoded(
                    hex_payload(hex.spec_bytes())->0,
                ) == Ok::<nat, KzgError>(v@) && v.wf(),
                Err(e) => match hex_payload(hex.spec_bytes()) {
                    None => e == KzgError::InvalidEncoding,
                    Some(b) => fr_decoded(b) == Err::<nat, KzgError>(e),
                },
            },
    {
        match decode_prefixed(hex) {
            None => Err(KzgError::InvalidEncoding),
            Some(bytes) => Self::from_bytes(bytes.as_slice()),
        }
    }

    /// The thirty-two bytes of the element, most significant first. For a
    /// canonical element they are what `from_bytes` decodes to it again.
    pub fn to_bytes(&self) -> (r: [u8; 32])
        ensures
            be_value(r@) == self@,
            self.wf() ==> fr_decoded(r@) == Ok::<nat, KzgError>(self@),
    {
        let d = uint64_to_bytes_be(self.limbs[0]);
        let c = uint64_to_bytes_be(self.limbs[1]);
        let b = uint64_to_bytes_be(self.limbs[2]);
        let a = uint64_to_bytes_be(self.limbs[3]);
        let r = [
            a[0], a[1], a[2], a[3], a[4], a[5], a[6], a[7],
            b[0], b[1], b[2], b[3], b[4], b[5], b[6], b[7],
            c[0], c[1], c[2], c[3], c[4], c[5], c[6], c[7],
            d[0], d[1], d[2], d[3], d[4], d[5], d[6], d[7],
        ];
        proof {
            assert(r@.subrange(0, 8) =~= a@);
            assert(r@.subrange(8, 16) =~= b@);
            assert(r@.subrange(16, 24) =~= c@);
            assert(r@.subrange(24, 32) =~= d@);
            lemma_be_value_32(r@);
        }
        r
    }

    /// The limbs of the element, least significant first.
    pub fn to_u64_arr(&self) -> (r: [u64; 4])
        ensures
            r == self.limbs,
    {
        self.limbs
    }

    /// Whether the element is one.
    pub fn is_one(&self) -> (r: bool)
        ensures
            r == (self@ == 1),
    {
        self.limbs[0] == 1 && self.limbs[1] == 0 && self.limbs[2] == 0 && self.limbs[3] == 0
    }

    /// Whether the element is zero.
    pub fn is_zero(&self) -> (r: bool)
        ensures
            r == (self@ == 0),
    {
        self.limbs[0] == 0 && self.limbs[1] == 0 && self.limbs[2] == 0 && self.limbs[3] == 0
    }

    /// Whether the element is the reserved `null`.
    pub fn is_null(&self) -> (r: bool)
        ensures
            r == (self.limbs@ == Self::null_limbs()),
            r ==> !self.wf(),
    {
        let r = self.equals(&Self::null());
        r
    }

    /// The limbs of the reserved `null`.
    pub open spec fn null_limbs() -> Seq<u64> {
        seq![u64::MAX, u64::MAX, u64::MAX, u64::MAX]
    }

    /// Equality of field elements: the same limbs, which is the same integer.
    pub fn equals(&self, b: &Self) -> (r: bool)
        ensures
            r == (self@ == b@),
            r == (self.limbs@ == b.limbs@),
            r == (*self == *b),
    {
        proof {
            if self@ == b@ {
                lemma_limbs_value_injective(self.limbs@, b.limbs@);
            }
            if self.limbs@ == b.limbs@ {
                assert(self.limbs == b.limbs);
            }
        }
        self.limbs[0] == b.limbs[0] && self.limbs[1] == b.limbs[1] && self.limbs[2] == b.limbs[2]
            && self.limbs[3] == b.limbs[3]
    }

    /// The square.
    pub fn sqr(&self) -> (r: Self)
        ensures
            r@ == fr_mul(self@, self@),
            r.wf(),
    {
        proof {
            lemma_reduce_range(self@ as int * self@ as int);
        }
        fr_square(self)
    }

    /// The product.
    pub fn mul(&self, b: &Self) -> (r: Self)
        ensures
            r@ == fr_mul(self@, b@),
            r.wf(),
    {
        proof {
            lemma_reduce_range(self@ as int * b@ as int);
        }
        fr_product(self, b)
    }

    /// The sum.
    pub fn add(&self, b: &Self) -> (r: Self)
        ensures
            r@ == fr_add(self@, b@),
            r.wf(),
    {
        proof {
            lemma_reduce_range(self@ as int + b@ as int);
        }
        fr_sum(self, b)
    }

    /// The difference.
    pub fn sub(&self, b: &Self) -> (r: Self)
        ensures
            r@ == fr_sub(self@, b@),
            r.wf(),
    {
        proof {
            lemma_reduce_range(self@ as int - b@ as int);
        }
        fr_difference(self, b)
    }

    /// The additive inverse.
    pub fn negate(&self) -> (r: Self)
        ensures
            r@ == fr_neg(self@),
            r.wf(),
    {
        proof {
            lemma_reduce_range(-(self@ as int));
        }
        fr_negation(self)
    }

    /// The multiplicative inverse. The zero residue has none.
    pub fn inverse(&self) -> (r: Self)
        requires
            fr_reduce(self@ as int) != 0,
        ensures
            is_inverse_of(r@, self@),
            invertible(self@),
            r@ == fr_inv(self@),
            r.wf(),
    {
        let r = fr_inverse(self).unwrap();
        proof {
            lemma_fr_inv_is(self@, r@);
        }
        r
    }

    /// The same inverse as `inverse`.
    pub fn eucl_inverse(&self) -> (r: Self)
        requires
            fr_reduce(self@ as int) != 0,
        ensures
            is_inverse_of(r@, self@),
            invertible(self@),
            r@ == fr_inv(self@),
            r.wf(),
    {
        self.inverse()
    }

    /// The `n`-th power.
    pub fn pow(&self, n: usize) -> (r: Self)
        ensures
            r@ == fr_pow(self@, n as nat),
            r.wf(),
    {
        proof {
            lemma_reduce_range(pow(self@ as int, n as nat));
        }
        fr_power(self, n)
    }

    /// The quotient `self * b.inverse()`. It never fails: for a divisor that
    /// is zero, which has no inverse, the quotient is zero.
    pub fn div(&self, b: &Self) -> (r: Result<Self, KzgError>)
        ensures
            r is Ok,
            r->Ok_0@ == if fr_reduce(b@ as int) == 0 {
                0
            } else {
                fr_mul(self@, fr_inv(b@))
            },
            r->Ok_0.wf(),
    {
        match fr_inverse(b) {
            Some(inv) => {
                proof {
                    lemma_fr_inv_is(b@, inv@);
                }
                Ok(self.mul(&inv))
            },
            None => Ok(Self::zero()),
        }
    }
}

/// The integers of a sequence of field elements.
pub open spec fn fr_values(elems: Seq<ArkFr>) -> Seq<nat> {
    Seq::new(elems.len(), |i: int| elems[i]@)
}

/// Every element of the sequence is a canonical residue.
pub open spec fn all_wf(elems: Seq<ArkFr>) -> bool {
    forall|i: int| 0 <= i < elems.len() ==> (#[trigger] elems[i]).wf()
}

/// A vector of `n` zeros.
pub fn zeros(n: usize) -> (r: Vec<ArkFr>)
    ensures
        r@.len() == n,
        forall|i: int| 0 <= i < n ==> (#[trigger] r@[i])@ == 0,
        all_wf(r@),
{
    let mut r: Vec<ArkFr> = Vec::new();
    let zero = ArkFr::zero();
    let mut i: usize = 0;
    while i < n
        invariant
            i <= n,
            r@.len() == i,
            zero@ == 0,
            forall|j: int| 0 <= j < i ==> (#[trigger] r@[j])@ == 0,
        decreases n - i,
    {
        r.push(zero);
        i += 1;
    }
    r
}

/// A copy of a sequence of field elements.
pub fn copy_of(v: &[ArkFr]) -> (r: Vec<ArkFr>)
    ensures
        r@ == v@,
{
    let mut r: Vec<ArkFr> = Vec::new();
    let mut i: usize = 0;
    while i < v.len()
        invariant
            i <= v@.len(),
            r@ == v@.take(i as int),
        decreases v@.len() - i,
    {
        r.push(v[i]);
        assert(r@ =~= v@.take(i + 1));
        i += 1;
    }
    assert(v@.take(v@.len() as int) =~= v@);
    r
}

impl Default for ArkFr {
    fn default() -> (r: Self)
        ensures
            r@ == 0,
            r.wf(),
    {
        ArkFr::zero()
    }
}

} // verus!
