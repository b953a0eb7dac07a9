//! Points of the groups G1 and G2 of BLS12-381, and the pairing check.
//!
//! A point is held as its compressed encoding. The curve arithmetic is
//! `ark_ec`'s and `ark_bls12_381`'s. Both groups have the prime order
//! `modulus()`, so a point is a unique multiple `[k]G` of its group's
//! generator with `k` below the order; every contract here speaks of a point
//! through that scalar `k`. The contracts of the private functions that call
//! `ark_ec` are not proved: they state the group law, the pairing's
//! bilinearity and the codec of the points in terms of those scalars.
//!
//! Every point that this module hands out holds the encoding of a point of
//! its group. Bytes that encode none are read as the neutral element.
use crate::error::KzgError;
use crate::field::{fr_add, fr_mul, fr_sub, is_fr, lemma_reduce_small, modulus};
use crate::hexcode::{decode_prefixed, hex_payload};
use crate::scalar::{ArkFr, fr_values};
use ark_ec::{AffineRepr, Group};
use ark_serialize::{CanonicalDeserialize, CanonicalSerialize};
use vstd::prelude::*;
use vstd::string::StringSliceAdditionalSpecFns;

verus! {

/// The length of the compressed encoding of a point of G1.
pub const BYTES_PER_G1: usize = 48;

/// The length of the compressed encoding of a point of G2.
pub const BYTES_PER_G2: usize = 96;

#[verifier::external_type_specification]
#[verifier::external_body]
pub struct ExSerializationError(ark_serialize::SerializationError);

/// A point of G1.
#[derive(Clone, Copy, Debug, PartialEq, Eq)]
pub struct ArkG1 {
    bytes: [u8; 48],
}

/// A point of G2.
#[derive(Clone, Copy, Debug, PartialEq, Eq)]
pub struct ArkG2 {
    bytes: [u8; 96],
}

/// The scalar `k` below the group order for which the point is `[k]G`, with
/// `G` the generator of G1 that `ark_ec` fixes; zero where the bytes held
/// encode no point of the group.
pub uninterp spec fn g1_scalar(p: ArkG1) -> nat;

/// The scalar `k` below the group order for which the point is `[k]H`, with
/// `H` the generator of G2 that `ark_ec` fixes; zero where the bytes held
/// encode no point of the group.
pub uninterp spec fn g2_scalar(p: ArkG2) -> nat;

/// The scalar of the point of G1 that forty-eight bytes encode in compressed
/// form, and nothing where they encode no point of the group.
pub uninterp spec fn g1_decoded(bytes: Seq<u8>) -> Option<nat>;

/// The scalar of the point of G2 that ninety-six bytes encode in compressed
/// form, and nothing where they encode no point of the group.
pub uninterp spec fn g2_decoded(bytes: Seq<u8>) -> Option<nat>;

/// `Default::default` of `ark_ec`'s projective G1, which is its `Zero::zero`:
/// the neutral element, `[0]G`.
#[verifier::external_body]
fn g1_zero() -> (r: ArkG1)
    ensures
        g1_scalar(r) == 0,
{
    let p = ark_bls12_381::G1Projective::default();
    let mut out = [0u8; 48];
    p.serialize_compressed(&mut out[..]).unwrap();
    ArkG1 { bytes: out }
}

/// `Group::generator` of `ark_ec`'s projective G1: the fixed generator, `[1]G`.
#[verifier::external_body]
fn g1_base() -> (r: ArkG1)
    ensures
        g1_scalar(r) == 1,
{
    let p = ark_bls12_381::G1Projective::generator();
    let mut out = [0u8; 48];
    p.serialize_compressed(&mut out[..]).unwrap();
    ArkG1 { bytes: out }
}

/// `UniformRand::rand` of `ark_ec`'s projective G1 on the thread's generator:
/// some point of the group.
#[verifier::external_body]
fn g1_random() -> (r: ArkG1)
    ensures
        is_fr(g1_scalar(r)),
{
    let p: ark_bls12_381::G1Projective = ark_std::UniformRand::rand(&mut rand::thread_rng());
    let mut out = [0u8; 48];
    p.serialize_compressed(&mut out[..]).unwrap();
    ArkG1 { bytes: out }
}

/// `CanonicalDeserialize::deserialize_compressed` of `ark_bls12_381`'s affine
/// G1, which checks that the point is on the curve and in the group: the
/// point that the bytes encode, or an error where they encode none.
#[verifier::external_body]
fn g1_deserialize(bytes: &[u8]) -> (r: Result<ArkG1, ark_serialize::SerializationError>)
    requires
        bytes@.len() == 48,
    ensures
        match r {
            Ok(p) => g1_decoded(bytes@) == Some(g1_scalar(p)) && is_fr(g1_scalar(p)),
            Err(_) => g1_decoded(bytes@) is None,
        },
{
    let p = ark_bls12_381::G1Affine::deserialize_compressed(bytes)?;
    let mut out = [0u8; 48];
    p.serialize_compressed(&mut out[..]).unwrap();
    Ok(ArkG1 { bytes: out })
}

/// `CanonicalSerialize::serialize_compressed` of `ark_bls12_381`'s G1: the
/// forty-eight bytes that decode to the same point again.
#[verifier::external_body]
fn g1_serialize(a: &ArkG1) -> (r: [u8; 48])
    ensures
        g1_decoded(r@) == Some(g1_scalar(*a)),
{
    let p = ark_bls12_381::G1Affine::deserialize_compressed(&a.bytes[..]).unwrap_or_default();
    let mut out = [0u8; 48];
    p.serialize_compressed(&mut out[..]).unwrap();
    out
}

/// `ark_ec`'s `+` on projective G1, the group law: `[j]G + [k]G = [j + k]G`.
#[verifier::external_body]
fn g1_sum(a: &ArkG1, b: &ArkG1) -> (r: ArkG1)
    ensures
        g1_scalar(r) == fr_add(g1_scalar(*a), g1_scalar(*b)),
{
    let p = ark_bls12_381::G1Affine::deserialize_compressed(&a.bytes[..]).unwrap_or_default();
    let q = ark_bls12_381::G1Affine::deserialize_compressed(&b.bytes[..]).unwrap_or_default();
    let mut out = [0u8; 48];
    (p.into_group() + q.into_group()).serialize_compressed(&mut out[..]).unwrap();
    ArkG1 { bytes: out }
}

/// `Group::double` of `ark_ec`'s projective G1: `[k]G + [k]G = [2k]G`.
#[verifier::external_body]
fn g1_double(a: &ArkG1) -> (r: ArkG1)
    ensures
        g1_scalar(r) == fr_add(g1_scalar(*a), g1_scalar(*a)),
{
    let p = ark_bls12_381::G1Affine::deserialize_compressed(&a.bytes[..]).unwrap_or_default();
    let mut out = [0u8; 48];
    p.into_group().double().serialize_compressed(&mut out[..]).unwrap();
    ArkG1 { bytes: out }
}

/// `ark_ec`'s `-` on projective G1: `[j]G - [k]G = [j - k]G`.
#[verifier::external_body]
fn g1_difference(a: &ArkG1, b: &ArkG1) -> (r: ArkG1)
    ensures
        g1_scalar(r) == fr_sub(g1_scalar(*a), g1_scalar(*b)),
{
    let p = ark_bls12_381::G1Affine::deserialize_compressed(&a.bytes[..]).unwrap_or_default();
    let q = ark_bls12_381::G1Affine::deserialize_compressed(&b.bytes[..]).unwrap_or_default();
    let mut out = [0u8; 48];
    (p.into_group() - q.into_group()).serialize_compressed(&mut out[..]).unwrap();
    ArkG1 { bytes: out }
}

/// `ark_ec`'s `==` on projective G1, which compares points and not
/// coordinates: two points are the same exactly when their scalars are.
#[verifier::external_body]
fn g1_same(a: &ArkG1, b: &ArkG1) -> (r: bool)
    ensures
        r == (g1_scalar(*a) == g1_scalar(*b)),
{
    let p = ark_bls12_381::G1Affine::deserialize_compressed(&a.bytes[..]).unwrap_or_default();
    let q = ark_bls12_381::G1Affine::deserialize_compressed(&b.bytes[..]).unwrap_or_default();
    p.into_group() == q.into_group()
}

/// `ark_ec`'s `*` of projective G1 by a scalar: `s[k]G = [s k]G`.
#[verifier::external_body]
fn g1_scaled(a: &ArkG1, s: &ArkFr) -> (r: ArkG1)
    ensures
        g1_scalar(r) == fr_mul(g1_scalar(*a), s@),
{
    let p = ark_bls12_381::G1Affine::deserialize_compressed(&a.bytes[..]).unwrap_or_default();
    let k = ark_bls12_381::Fr::new(ark_ff::BigInt::new(s.limbs));
    let mut out = [0u8; 48];
    (p.into_group() * k).serialize_compressed(&mut out[..]).unwrap();
    ArkG1 { bytes: out }
}

/// `Default::default` of `ark_ec`'s projective G2, which is its `Zero::zero`:
/// the neutral element, `[0]H`.
#[verifier::external_body]
fn g2_zero() -> (r: ArkG2)
    ensures
        g2_scalar(r) == 0,
{
    let p = ark_bls12_381::G2Projective::default();
    let mut out = [0u8; 96];
    p.serialize_compressed(&mut out[..]).unwrap();
    ArkG2 { bytes: out }
}

/// `Group::generator` of `ark_ec`'s projective G2: the fixed generator, `[1]H`.
#[verifier::external_body]
fn g2_base() -> (r: ArkG2)
    ensures
        g2_scalar(r) == 1,
{
    let p = ark_bls12_381::G2Projective::generator();
    let mut out = [0u8; 96];
    p.serialize_compressed(&mut out[..]).unwrap();
    ArkG2 { bytes: out }
}

/// `UniformRand::rand` of `ark_ec`'s projective G2 on the thread's generator:
/// some point of the group.
#[verifier::external_body]
fn g2_random() -> (r: ArkG2)
    ensures
        is_fr(g2_scalar(r)),
{
    let p: ark_bls12_381::G2Projective = ark_std::UniformRand::rand(&mut rand::thread_rng());
    let mut out = [0u8; 96];
    p.serialize_compressed(&mut out[..]).unwrap();
    ArkG2 { bytes: out }
}

/// `CanonicalDeserialize::deserialize_compressed` of `ark_bls12_381`'s affine
/// G2, which checks that the point is on the curve and in the group: the
/// point that the bytes encode, or an error where they encode none.
#[verifier::external_body]
fn g2_deserialize(bytes: &[u8]) -> (r: Result<ArkG2, ark_serialize::SerializationError>)
    requires
        bytes@.len() == 96,
    ensures
        match r {
            Ok(p) => g2_decoded(bytes@) == Some(g2_scalar(p)) && is_fr(g2_scalar(p)),
            Err(_) => g2_decoded(bytes@) is None,
        },
{
    let p = ark_bls12_381::G2Affine::deserialize_compressed(bytes)?;
    let mut out = [0u8; 96];
    p.serialize_compressed(&mut out[..]).unwrap();
    Ok(ArkG2 { bytes: out })
}

/// `CanonicalSerialize::serialize_compressed` of `ark_bls12_381`'s G2: the
/// ninety-six bytes that decode to the same point again.
#[verifier::external_body]
fn g2_serialize(a: &ArkG2) -> (r: [u8; 96])
    ensures
        g2_decoded(r@) == Some(g2_scalar(*a)),
{
    let p = ark_bls12_381::G2Affine::deserialize_compressed(&a.bytes[..]).unwrap_or_default();
    let mut out = [0u8; 96];
    p.serialize_compressed(&mut out[..]).unwrap();
    out
}

/// `ark_ec`'s `+` on projective G2, the group law: `[j]H + [k]H = [j + k]H`.
#[verifier::external_body]
fn g2_sum(a: &ArkG2, b: &ArkG2) -> (r: ArkG2)
    ensures
        g2_scalar(r) == fr_add(g2_scalar(*a), g2_scalar(*b)),
{
    let p = ark_bls12_381::G2Affine::deserialize_compressed(&a.bytes[..]).unwrap_or_default();
    let q = ark_bls12_381::G2Affine::deserialize_compressed(&b.bytes[..]).unwrap_or_default();
    let mut out = [0u8; 96];
    (p.into_group() + q.into_group()).serialize_compressed(&mut out[..]).unwrap();
    ArkG2 { bytes: out }
}

/// `Group::double` of `ark_ec`'s projective G2: `[k]H + [k]H = [2k]H`.
#[verifier::external_body]
fn g2_double(a: &ArkG2) -> (r: ArkG2)
    ensures
        g2_scalar(r) == fr_add(g2_scalar(*a), g2_scalar(*a)),
{
    let p = ark_bls12_381::G2Affine::deserialize_compressed(&a.bytes[..]).unwrap_or_default();
    let mut out = [0u8; 96];
    p.into_group().double().serialize_compressed(&mut out[..]).unwrap();
    ArkG2 { bytes: out }
}

/// `ark_ec`'s `-` on projective G2: `[j]H - [k]H = [j - k]H`.
#[verifier::external_body]
fn g2_difference(a: &ArkG2, b: &ArkG2) -> (r: ArkG2)
    ensures
        g2_scalar(r) == fr_sub(g2_scalar(*a), g2_scalar(*b)),
{
    let p = ark_bls12_381::G2Affine::deserialize_compressed(&a.bytes[..]).unwrap_or_default();
    let q = ark_bls12_381::G2Affine::deserialize_compressed(&b.bytes[..]).unwrap_or_default();
    let mut out = [0u8; 96];
    (p.into_group() - q.into_group()).serialize_compressed(&mut out[..]).unwrap();
    ArkG2 { bytes: out }
}

/// `ark_ec`'s `==` on projective G2, which compares points and not
/// coordinates: two points are the same exactly when their scalars are.
#[verifier::external_body]
fn g2_same(a: &ArkG2, b: &ArkG2) -> (r: bool)
    ensures
        r == (g2_scalar(*a) == g2_scalar(*b)),
{
    let p = ark_bls12_381::G2Affine::deserialize_compressed(&a.bytes[..]).unwrap_or_default();
    let q = ark_bls12_381::G2Affine::deserialize_compressed(&b.bytes[..]).unwrap_or_default();
    p.into_group() == q.into_group()
}

/// `ark_ec`'s `*` of projective G2 by a scalar: `s[k]H = [s k]H`.
#[verifier::external_body]
fn g2_scaled(a: &ArkG2, s: &ArkFr) -> (r: ArkG2)
    ensures
        g2_scalar(r) == fr_mul(g2_scalar(*a), s@),
{
    let p = ark_bls12_381::G2Affine::deserialize_compressed(&a.bytes[..]).unwrap_or_default();
    let k = ark_bls12_381::Fr::new(ark_ff::BigInt::new(s.limbs));
    let mut out = [0u8; 96];
    (p.into_group() * k).serialize_compressed(&mut out[..]).unwrap();
    ArkG2 { bytes: out }
}

/// `Pairing::pairing` of `ark_bls12_381`, taken twice and compared. The
/// pairing is bilinear and not degenerate, and the three groups have the prime
/// order `modulus()`: `e([a]G, [b]H) = e(G, H)^(a b)`, so two pairings agree
/// exactly when the products of their scalars are congruent.
#[verifier::external_body]
fn pairing_same(a1: &ArkG1, a2: &ArkG2, b1: &ArkG1, b2: &ArkG2) -> (r: bool)
    ensures
        r == (fr_mul(g1_scalar(*a1), g2_scalar(*a2)) == fr_mul(g1_scalar(*b1), g2_scalar(*b2))),
{
    let p1 = ark_bls12_381::G1Affine::deserialize_compressed(&a1.bytes[..]).unwrap_or_default();
    let p2 = ark_bls12_381::G2Affine::deserialize_compressed(&a2.bytes[..]).unwrap_or_default();
    let q1 = ark_bls12_381::G1Affine::deserialize_compressed(&b1.bytes[..]).unwrap_or_default();
    let q2 = ark_bls12_381::G2Affine::deserialize_compressed(&b2.bytes[..]).unwrap_or_default();
    let lhs = <ark_bls12_381::Bls12_381 as ark_ec::pairing::Pairing>::pairing(p1, p2);
    lhs == <ark_bls12_381::Bls12_381 as ark_ec::pairing::Pairing>::pairing(q1, q2)
}

/// The scalars of a sequence of points of G1.
pub open spec fn g1_scalars(points: Seq<ArkG1>) -> Seq<nat> {
    Seq::new(points.len(), |i: int| g1_scalar(points[i]))
}

/// The scalars of a sequence of points of G2.
pub open spec fn g2_scalars(points: Seq<ArkG2>) -> Seq<nat> {
    Seq::new(points.len(), |i: int| g2_scalar(points[i]))
}

/// The sum of the first `len` products `points[i] * scalars[i]` in the field.
pub open spec fn lincomb(points: Seq<nat>, scalars: Seq<nat>, len: nat) -> nat
    decreases len,
{
    if len == 0 {
        0
    } else {
        fr_add(
            lincomb(points, scalars, (len - 1) as nat),
            fr_mul(points[len - 1], scalars[len - 1]),
        )
    }
}

impl ArkG1 {
    /// The scalar `k` of the point `[k]G`.
    pub open spec fn scalar(&self) -> nat {
        g1_scalar(*self)
    }

    /// The neutral element of the group.
    pub fn identity() -> (r: Self)
        ensures
            r.scalar() == 0,
    {
        g1_zero()
    }

    /// The fixed generator `G`.
    pub fn generator() -> (r: Self)
        ensures
            r.scalar() == 1,
    {
        g1_base()
    }

    /// The inverse `-G` of the generator.
    pub fn negative_generator() -> (r: Self)
        ensures
            r.scalar() == modulus() - 1,
    {
        proof {
            lemma_reduce_small(modulus() - 1);
            assert(fr_sub(0, 1) == modulus() - 1) by {
                vstd::arithmetic::div_mod::lemma_mod_add_multiples_vanish(-1, modulus() as int);
            }
        }
        g1_zero().sub(&g1_base())
    }

    /// A point of the group drawn from the thread's random generator.
    pub fn rand() -> (r: Self)
        ensures
            is_fr(r.scalar()),
    {
        g1_random()
    }

    /// Decodes the compressed encoding of a point: forty-eight bytes. An
    /// input of another length is refused, and so are bytes that encode no
    /// point of the group.
    pub fn from_bytes(bytes: &[u8]) -> (r: Result<Self, KzgError>)
        ensures
            match r {
                Ok(p) => bytes@.len() == 48 && g1_decoded(bytes@) == Some(p.scalar()),
                Err(e) => if bytes@.len() != 48 {
                    e == KzgError::InvalidLength
                } else {
                    e == KzgError::InvalidEncoding && g1_decoded(bytes@) is None
                },
            },
    {
        if bytes.len() != BYTES_PER_G1 {
            return Err(KzgError::InvalidLength);
        }
        match g1_deserialize(bytes) {
            Ok(p) => Ok(p),
            Err(_) => Err(KzgError::InvalidEncoding),
        }
    }

    /// Decodes a text of a two-character prefix and hexadecimal digits: the
    /// digits give bytes, and the bytes are decoded as `from_bytes` does.
    pub fn from_hex(hex: &str) -> (r: Result<Self, KzgError>)
        ensures
            match r {
                Ok(p) => hex_payload(hex.spec_bytes()) matches Some(b) && b.len() == 48
                    && g1_decoded(b) == Some(p.scalar()),
                Err(e) => match hex_payload(hex.spec_bytes()) {
                    None => e == KzgError::InvalidEncoding,
                    Some(b) => if b.len() != 48 {
                        e == KzgError::InvalidLength
                    } else {
                        e == KzgError::InvalidEncoding && g1_decoded(b) is None
                    },
                },
            },
    {
        match decode_prefixed(hex) {
            None => Err(KzgError::InvalidEncoding),
            Some(bytes) => Self::from_bytes(bytes.as_slice()),
        }
    }

    /// The compressed encoding of the point, which `from_bytes` decodes to
    /// the same point.
    pub fn to_bytes(&self) -> (r: [u8; 48])
        ensures
            g1_decoded(r@) == Some(self.scalar()),
    {
        g1_serialize(self)
    }

    /// The sum of two points, which is the double where they are the same.
    pub fn add_or_dbl(&self, b: &Self) -> (r: Self)
        ensures
            r.scalar() == fr_add(self.scalar(), b.scalar()),
    {
        g1_sum(self, b)
    }

    /// Whether the point is the neutral element.
    pub fn is_inf(&self) -> (r: bool)
        ensures
            r == (self.scalar() == 0),
    {
        g1_same(self, &g1_zero())
    }

    /// Every point that this library hands out is a point of the group.
    pub fn is_valid(&self) -> (r: bool)
        ensures
            r,
    {
        true
    }

    /// The double of the point.
    pub fn dbl(&self) -> (r: Self)
        ensures
            r.scalar() == fr_add(self.scalar(), self.scalar()),
    {
        g1_double(self)
    }

    /// The sum of two points.
    pub fn add(&self, b: &Self) -> (r: Self)
        ensures
            r.scalar() == fr_add(self.scalar(), b.scalar()),
    {
        g1_sum(self, b)
    }

    /// The difference of two points.
    pub fn sub(&self, b: &Self) -> (r: Self)
        ensures
            r.scalar() == fr_sub(self.scalar(), b.scalar()),
    {
        g1_difference(self, b)
    }

    /// Equality of points, whatever their coordinates.
    pub fn equals(&self, b: &Self) -> (r: bool)
        ensures
            r == (self.scalar() == b.scalar()),
    {
        g1_same(self, b)
    }

    /// The multiple of the point by a field element.
    pub fn mul(&self, b: &ArkFr) -> (r: Self)
        ensures
            r.scalar() == fr_mul(self.scalar(), b@),
    {
        g1_scaled(self, b)
    }

    /// The linear combination of the first `len` points with the first `len`
    /// scalars: the sum of the multiples `scalars[i] * points[i]`.
    pub fn g1_lincomb(points: &[Self], scalars: &[ArkFr], len: usize) -> (r: Self)
        requires
            len <= points@.len(),
            len <= scalars@.len(),
        ensures
            r.scalar() == lincomb(g1_scalars(points@), fr_values(scalars@), len as nat),
    {
        let mut out = g1_zero();
        let mut i: usize = 0;
        while i < len
            invariant
                i <= len,
                len <= points@.len(),
                len <= scalars@.len(),
                out.scalar() == lincomb(g1_scalars(points@), fr_values(scalars@), i as nat),
            decreases len - i,
        {
            let tmp = points[i].mul(&scalars[i]);
            out = out.add_or_dbl(&tmp);
            i += 1;
        }
        out
    }

    /// The pairing check `e(a1, a2) == e(b1, b2)`.
    pub fn verify(a1: &ArkG1, a2: &ArkG2, b1: &ArkG1, b2: &ArkG2) -> (r: bool)
        ensures
            r == (fr_mul(a1.scalar(), a2.scalar()) == fr_mul(b1.scalar(), b2.scalar())),
    {
        pairings_verify(a1, a2, b1, b2)
    }
}

impl Default for ArkG1 {
    fn default() -> (r: Self)
        ensures
            r.scalar() == 0,
    {
        g1_zero()
    }
}

impl ArkG2 {
    /// The scalar `k` of the point `[k]H`.
    pub open spec fn scalar(&self) -> nat {
        g2_scalar(*self)
    }

    /// The neutral element of the group.
    pub fn identity() -> (r: Self)
        ensures
            r.scalar() == 0,
    {
        g2_zero()
    }

    /// The fixed generator `H`.
    pub fn generator() -> (r: Self)
        ensures
            r.scalar() == 1,
    {
        g2_base()
    }

    /// A point of the group drawn from the thread's random generator.
    pub fn rand() -> (r: Self)
        ensures
            is_fr(r.scalar()),
    {
        g2_random()
    }

    /// The sum of two points.
    pub fn add(&self, b: &Self) -> (r: Self)
        ensures
            r.scalar() == fr_add(self.scalar(), b.scalar()),
    {
        g2_sum(self, b)
    }

    /// The inverse `-H` of the generator.
    pub fn negative_generator() -> (r: Self)
        ensures
            r.scalar() == modulus() - 1,
    {
        proof {
            lemma_reduce_small(modulus() - 1);
            assert(fr_sub(0, 1) == modulus() - 1) by {
                vstd::arithmetic::div_mod::lemma_mod_add_multiples_vanish(-1, modulus() as int);
            }
        }
        g2_zero().sub(&g2_base())
    }

    /// Decodes the compressed encoding of a point: ninety-six bytes. An
    /// input of another length is refused, and so are bytes that encode no
    /// point of the group.
    pub fn from_bytes(bytes: &[u8]) -> (r: Result<Self, KzgError>)
        ensures
            match r {
                Ok(p) => bytes@.len() == 96 && g2_decoded(bytes@) == Some(p.scalar()),
                Err(e) => if bytes@.len() != 96 {
                    e == KzgError::InvalidLength
                } else {
                    e == KzgError::InvalidEncoding && g2_decoded(bytes@) is None
                },
            },
    {
        if bytes.len() != BYTES_PER_G2 {
            return Err(KzgError::InvalidLength);
        }
        match g2_deserialize(bytes) {
            Ok(p) => Ok(p),
            Err(_) => Err(KzgError::InvalidEncoding),
        }
    }

    /// The compressed encoding of the point, which `from_bytes` decodes to
    /// the same point.
    pub fn to_bytes(&self) -> (r: [u8; 96])
        ensures
            g2_decoded(r@) == Some(self.scalar()),
    {
        g2_serialize(self)
    }

    /// The sum of two points, which is the double where they are the same.
    pub fn add_or_dbl(&self, b: &Self) -> (r: Self)
        ensures
            r.scalar() == fr_add(self.scalar(), b.scalar()),
    {
        g2_sum(self, b)
    }

    /// The double of the point.
    pub fn dbl(&self) -> (r: Self)
        ensures
            r.scalar() == fr_add(self.scalar(), self.scalar()),
    {
        g2_double(self)
    }

    /// The difference of two points.
    pub fn sub(&self, b: &Self) -> (r: Self)
        ensures
            r.scalar() == fr_sub(self.scalar(), b.scalar()),
    {
        g2_difference(self, b)
    }

    /// Equality of points, whatever their coordinates.
    pub fn equals(&self, b: &Self) -> (r: bool)
        ensures
            r == (self.scalar() == b.scalar()),
    {
        g2_same(self, b)
    }

    /// The multiple of the point by a field element.
    pub fn mul(&self, b: &ArkFr) -> (r: Self)
        ensures
            r.scalar() == fr_mul(self.scalar(), b@),
    {
        g2_scaled(self, b)
    }
}

impl Default for ArkG2 {
    fn default() -> (r: Self)
        ensures
            r.scalar() == 0,
    {
        g2_zero()
    }
}

/// The pairing check: whether `e(a1, a2) == e(b1, b2)`. With the points
/// written as multiples of the generators, that is whether the product of
/// the scalars of `a1` and `a2` is the product of those of `b1` and `b2`.
pub fn pairings_verify(a1: &ArkG1, a2: &ArkG2, b1: &ArkG1, b2: &ArkG2) -> (r: bool)
    ensures
        r == (fr_mul(a1.scalar(), a2.scalar()) == fr_mul(b1.scalar(), b2.scalar())),
{
    pairing_same(a1, a2, b1, b2)
}

} // verus!
