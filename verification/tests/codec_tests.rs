use kzg_core::error::KzgError;
use kzg_core::group::{ArkG1, ArkG2};
use kzg_core::hexcode::decode_prefixed;
use kzg_core::scalar::{copy_of, limbs_from_bytes_be, uint64_to_bytes_be, zeros, ArkFr};

#[test]
fn hex_payload_is_decoded_after_the_prefix() {
    assert_eq!(decode_prefixed("0x00ff10Ab"), Some(vec![0x00, 0xff, 0x10, 0xab]));
    assert_eq!(decode_prefixed("0x"), Some(vec![]));
    assert_eq!(decode_prefixed("0"), None);
    assert_eq!(decode_prefixed(""), None);
    assert_eq!(decode_prefixed("0xabc"), None);
    assert_eq!(decode_prefixed("0xzz"), None);
}

#[test]
fn field_element_from_hex() {
    let five_inverse =
        ArkFr::from_hex("0x458e97984c2b4b2b51ef819e6c2de803323e959b66656a65cccccccc33333334")
            .unwrap();
    assert_eq!(five_inverse, ArkFr::from_u64(5).inverse());
    assert!(five_inverse.mul(&ArkFr::from_u64(5)).is_one());
    assert_eq!(
        ArkFr::from_hex("0x73eda753299d7d483339d80809a1d80553bda402fffe5bfeffffffff00000001"),
        Err(KzgError::InvalidEncoding)
    );
    assert_eq!(ArkFr::from_hex("0x01"), Err(KzgError::InvalidLength));
    assert_eq!(ArkFr::from_hex("0xgg"), Err(KzgError::InvalidEncoding));
    assert_eq!(ArkFr::from_hex("1"), Err(KzgError::InvalidEncoding));
}

#[test]
fn field_element_bytes_round_trip() {
    for a in [ArkFr::zero(), ArkFr::one(), ArkFr::from_u64(u64::MAX), ArkFr::one().negate(), ArkFr::rand()] {
        let bytes = a.to_bytes();
        assert_eq!(ArkFr::from_bytes(&bytes), Ok(a));
        assert_eq!(ArkFr::from_bytes_unchecked(&bytes), Ok(a));
    }
    let mut bytes = [0u8; 32];
    bytes[31] = 0x2a;
    bytes[0] = 0x01;
    let a = ArkFr::from_bytes(&bytes).unwrap();
    assert_eq!(a.to_u64_arr(), [0x2a, 0, 0, 0x0100000000000000]);
    assert_eq!(a.to_bytes(), bytes);
}

#[test]
fn from_bytes_unchecked_reduces() {
    // the modulus plus two decodes to two
    let bytes = [
        0x73, 0xed, 0xa7, 0x53, 0x29, 0x9d, 0x7d, 0x48, 0x33, 0x39, 0xd8, 0x08, 0x09, 0xa1,
        0xd8, 0x05, 0x53, 0xbd, 0xa4, 0x02, 0xff, 0xfe, 0x5b, 0xfe, 0xff, 0xff, 0xff, 0xff,
        0x00, 0x00, 0x00, 0x03,
    ];
    assert_eq!(ArkFr::from_bytes(&bytes), Err(KzgError::InvalidEncoding));
    assert_eq!(ArkFr::from_bytes_unchecked(&bytes), Ok(ArkFr::from_u64(2)));
    assert_eq!(ArkFr::from_bytes_unchecked(&bytes[1..]), Err(KzgError::InvalidLength));
}

#[test]
fn null_is_no_element() {
    let null = ArkFr::null();
    assert!(null.is_null());
    assert!(!null.is_zero());
    assert!(!null.is_one());
    assert!(!ArkFr::zero().is_null());
    assert!(!ArkFr::one().negate().is_null());
    assert!(!null.equals(&ArkFr::zero()));
    assert!(!ArkFr::default().is_null());
    assert!(ArkFr::default().is_zero());
    // arithmetic never returns it
    assert!(!null.add(&ArkFr::zero()).is_null());
    assert!(!null.mul(&ArkFr::one()).is_null());
}

#[test]
fn limb_helpers() {
    assert_eq!(uint64_to_bytes_be(0x0102030405060708), [1, 2, 3, 4, 5, 6, 7, 8]);
    let mut bytes = [0u8; 32];
    bytes[7] = 4;
    bytes[15] = 3;
    bytes[23] = 2;
    bytes[31] = 1;
    assert_eq!(limbs_from_bytes_be(&bytes), [1, 2, 3, 4]);
    assert_eq!(zeros(3), vec![ArkFr::zero(); 3]);
    let v = vec![ArkFr::from_u64(4), ArkFr::from_u64(9)];
    assert_eq!(copy_of(&v), v);
}

#[test]
fn field_laws_on_random_elements() {
    let a = ArkFr::rand();
    let b = ArkFr::rand();
    let c = ArkFr::rand();
    assert_eq!(a.add(&b), b.add(&a));
    assert_eq!(a.mul(&b).mul(&c), a.mul(&b.mul(&c)));
    assert_eq!(a.mul(&b.add(&c)), a.mul(&b).add(&a.mul(&c)));
    assert_eq!(a.sub(&b).add(&b), a);
    assert_eq!(a.negate().add(&a), ArkFr::zero());
    assert_eq!(a.sqr(), a.mul(&a));
    assert_eq!(a.pow(5), a.sqr().sqr().mul(&a));
    assert_eq!(a.pow(0), ArkFr::one());
    if !b.is_zero() {
        assert_eq!(a.div(&b).unwrap().mul(&b), a);
        assert_eq!(b.inverse(), b.eucl_inverse());
    }
}

const G1_GENERATOR_HEX: &str = "0x97f1d3a73197d7942695638c4fa9ac0fc3688c4f9774b905a14e3a3f171bac586c55e83ff97a1aeffb3af00adb22c6bb";

#[test]
fn g1_compressed_encoding() {
    let g = ArkG1::generator();
    let bytes = g.to_bytes();
    assert_eq!(bytes[0], 0x97);
    assert_eq!(bytes[47], 0xbb);
    assert_eq!(ArkG1::from_hex(G1_GENERATOR_HEX), Ok(g));
    assert_eq!(ArkG1::from_bytes(&bytes), Ok(g));
    let mut infinity = [0u8; 48];
    infinity[0] = 0xc0;
    assert_eq!(ArkG1::identity().to_bytes(), infinity);
    assert_eq!(ArkG1::from_bytes(&infinity), Ok(ArkG1::identity()));
    assert_eq!(ArkG1::default(), ArkG1::identity());
    assert!(ArkG1::identity().is_inf());
    assert!(g.is_valid());
}

#[test]
fn g1_decoding_refuses_what_is_no_point() {
    assert_eq!(ArkG1::from_bytes(&[0u8; 47]), Err(KzgError::InvalidLength));
    assert_eq!(ArkG1::from_bytes(&[0u8; 49]), Err(KzgError::InvalidLength));
    // no compression flag
    assert_eq!(ArkG1::from_bytes(&[0u8; 48]), Err(KzgError::InvalidEncoding));
    // a coordinate that is not below the field modulus
    let mut large = [0xffu8; 48];
    large[0] = 0x9f;
    assert_eq!(ArkG1::from_bytes(&large), Err(KzgError::InvalidEncoding));
    // with the flag of the neutral element, the rest is not read
    assert_eq!(ArkG1::from_bytes(&[0xffu8; 48]), Ok(ArkG1::identity()));
    // on the curve, outside the group
    let mut x = [0u8; 48];
    x[0] = 0x80;
    x[47] = 0x04;
    assert_eq!(ArkG1::from_bytes(&x), Err(KzgError::InvalidEncoding));
    assert_eq!(ArkG1::from_hex("0x97f1"), Err(KzgError::InvalidLength));
    assert_eq!(ArkG1::from_hex("9"), Err(KzgError::InvalidEncoding));
    assert_eq!(ArkG1::from_hex("0x97f"), Err(KzgError::InvalidEncoding));
}

#[test]
fn g2_compressed_encoding() {
    let h = ArkG2::generator();
    let bytes = h.to_bytes();
    assert_eq!(bytes[0], 0x93);
    assert_eq!(ArkG2::from_bytes(&bytes), Ok(h));
    assert_eq!(ArkG2::from_bytes(&bytes[..95]), Err(KzgError::InvalidLength));
    assert_eq!(ArkG2::from_bytes(&[0u8; 96]), Err(KzgError::InvalidEncoding));
    assert!(h.add_or_dbl(&h).equals(&h.dbl()));
    assert!(h.dbl().equals(&h.mul(&ArkFr::from_u64(2))));
    assert!(h.sub(&h).equals(&ArkG2::default()));
    assert!(h.add_or_dbl(&ArkG2::negative_generator()).equals(&ArkG2::default()));
    assert!(!h.equals(&ArkG2::negative_generator()));
    assert!(h.add(&h).equals(&h.dbl()));
    assert!(h.add(&ArkG2::identity()).equals(&h));
    assert_eq!(ArkG2::identity(), ArkG2::default());
    let q = ArkG2::rand();
    assert_eq!(ArkG2::from_bytes(&q.to_bytes()), Ok(q));
    assert!(q.add(&h).sub(&h).equals(&q));
}

#[test]
fn random_points_are_in_the_group() {
    let p = ArkG1::rand();
    assert_eq!(ArkG1::from_bytes(&p.to_bytes()), Ok(p));
    assert!(p.sub(&p).is_inf());
    assert!(p.add(&p).equals(&p.dbl()));
    assert!(ArkG1::verify(&p, &ArkG2::generator(), &p, &ArkG2::generator()));
    assert!(!ArkG1::verify(&p.dbl(), &ArkG2::generator(), &p, &ArkG2::generator()) || p.is_inf());
}
