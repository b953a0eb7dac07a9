use kzg_core::error::KzgError;
use kzg_core::group::{pairings_verify, ArkG1, ArkG2};
use kzg_core::scalar::{bigint_check_mod_256, bytes_be_to_uint64, ArkFr};

const MODULUS: [u64; 4] = [
    0xffffffff00000001,
    0x53bda402fffe5bfe,
    0x3339d80809a1d805,
    0x73eda753299d7d48,
];

#[test]
fn bytes_be_to_uint64_reads_most_significant_first() {
    assert_eq!(bytes_be_to_uint64(&[1, 2, 3, 4, 5, 6, 7, 8]), 0x0102030405060708);
    assert_eq!(bytes_be_to_uint64(&[0xff; 8]), u64::MAX);
}

#[test]
fn bigint_check_mod_256_is_strictly_below_modulus() {
    assert!(bigint_check_mod_256(&[0, 0, 0, 0]));
    assert!(bigint_check_mod_256(&[MODULUS[0] - 1, MODULUS[1], MODULUS[2], MODULUS[3]]));
    assert!(!bigint_check_mod_256(&MODULUS));
    assert!(!bigint_check_mod_256(&[u64::MAX; 4]));
}

#[test]
fn from_u64_arr_reduces() {
    let a = ArkFr::from_u64_arr(&MODULUS);
    assert!(a.is_zero());
    let b = ArkFr::from_u64_arr(&[MODULUS[0] + 5, MODULUS[1], MODULUS[2], MODULUS[3]]);
    assert!(b.equals(&ArkFr::from_u64(5)));
    // 2^256 - 1 is twice the modulus and this much more
    let c = ArkFr::from_u64_arr(&[u64::MAX; 4]);
    assert_eq!(c.to_u64_arr(), [0x1fffffffd, 0x5884b7fa00034802, 0x998c4fefecbc4ff5, 0x1824b159acc5056f]);
    assert_eq!(c, ArkFr::null().add(&ArkFr::zero()));
}

#[test]
fn field_arithmetic_small_values() {
    let a = ArkFr::from_u64(7);
    let b = ArkFr::from_u64(5);
    assert_eq!(a.add(&b), ArkFr::from_u64(12));
    assert_eq!(a.sub(&b), ArkFr::from_u64(2));
    assert_eq!(a.mul(&b), ArkFr::from_u64(35));
    assert_eq!(a.sqr(), ArkFr::from_u64(49));
    assert_eq!(a.pow(3), ArkFr::from_u64(343));
    assert_eq!(b.sub(&a), ArkFr::from_u64(2).negate());
    assert_eq!(
        b.sub(&a).to_u64_arr(),
        [MODULUS[0] - 2, MODULUS[1], MODULUS[2], MODULUS[3]]
    );
    assert!(a.mul(&a.inverse()).is_one());
    assert!(a.mul(&a.eucl_inverse()).is_one());
    assert_eq!(a.div(&a), Ok(ArkFr::one()));
    assert_eq!(a.div(&b), Ok(a.mul(&b.inverse())));
    // a zero divisor gives zero, and no failure
    assert_eq!(a.div(&ArkFr::zero()), Ok(ArkFr::zero()));
}

#[test]
fn from_bytes_rejects_modulus_and_wrong_length() {
    let mut bytes = [0u8; 32];
    for i in 0..4 {
        bytes[i * 8..i * 8 + 8].copy_from_slice(&MODULUS[3 - i].to_be_bytes());
    }
    assert_eq!(ArkFr::from_bytes(&bytes), Err(KzgError::InvalidEncoding));
    bytes[31] = 0;
    let below = ArkFr::from_bytes(&bytes).unwrap();
    assert_eq!(below.to_bytes(), bytes);
    assert!(below.add(&ArkFr::one()).is_zero());
    assert_eq!(ArkFr::from_bytes(&bytes[..31]), Err(KzgError::InvalidLength));
    assert_eq!(ArkFr::from_bytes(&[0u8; 33]), Err(KzgError::InvalidLength));
    assert_eq!(ArkFr::from_bytes(&[0xff; 32]), Err(KzgError::InvalidEncoding));
    assert!(ArkFr::from_bytes(&[0u8; 32]).unwrap().is_zero());
}

#[test]
fn group_scalars_add_up() {
    let g = ArkG1::generator();
    let a = ArkFr::from_u64(11);
    let b = ArkFr::from_u64(31);
    assert!(g.mul(&a).add(&g.mul(&b)).equals(&g.mul(&a.add(&b))));
    assert!(g.add(&g).equals(&g.dbl()));
    assert!(g.add(&ArkG1::negative_generator()).is_inf());
    assert!(!g.is_inf());
    let h = ArkG2::generator();
    assert!(h.mul(&a).sub(&h.mul(&b)).equals(&h.mul(&a.sub(&b))));
    assert_eq!(ArkG1::from_bytes(&g.to_bytes()), Ok(g));
    assert_eq!(ArkG2::from_bytes(&h.to_bytes()), Ok(h));
}

#[test]
fn group_laws_on_random_points() {
    let p = ArkG1::rand();
    let q = ArkG1::rand();
    let r = ArkG1::rand();
    let a = ArkFr::rand();
    let b = ArkFr::rand();
    assert!(p.add(&q).equals(&q.add(&p)));
    assert!(p.add(&q).add(&r).equals(&p.add(&q.add(&r))));
    assert!(p.add(&q).sub(&q).equals(&p));
    assert!(p.add(&ArkG1::identity()).equals(&p));
    assert!(p.mul(&a).mul(&b).equals(&p.mul(&a.mul(&b))));
    assert!(p.mul(&a.add(&b)).equals(&p.mul(&a).add(&p.mul(&b))));
    assert!(p.add(&q).mul(&a).equals(&p.mul(&a).add(&q.mul(&a))));
    assert!(p.mul(&ArkFr::zero()).is_inf());
    assert!(p.mul(&ArkFr::one()).equals(&p));
}

#[test]
fn pairing_is_bilinear() {
    let g = ArkG1::generator();
    let h = ArkG2::generator();
    let a = ArkFr::from_u64(6);
    let b = ArkFr::from_u64(35);
    let c = ArkFr::from_u64(14);
    let d = ArkFr::from_u64(15);
    assert!(pairings_verify(&g.mul(&a), &h.mul(&b), &g.mul(&c), &h.mul(&d)));
    assert!(!pairings_verify(&g.mul(&a), &h.mul(&b), &g.mul(&c), &h.mul(&c)));
}
