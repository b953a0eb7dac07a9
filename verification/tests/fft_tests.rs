use kzg_core::error::KzgError;
use kzg_core::fft::{
    expand_root_of_unity, is_power_of_two_usize, next_pow_of_2, reverse_bit_order, FFTSettings,
};
use kzg_core::roots::scale2_root_of_unity;
use kzg_core::scalar::ArkFr;

fn elems(values: &[u64]) -> Vec<ArkFr> {
    values.iter().map(|v| ArkFr::from_u64(*v)).collect()
}

#[test]
fn settings_refuse_a_scale_past_the_table() {
    assert_eq!(FFTSettings::new(32), Err(KzgError::DomainError));
    assert_eq!(FFTSettings::from_scale(32), Err(KzgError::DomainError));
    assert_eq!(FFTSettings::new(usize::MAX), Err(KzgError::DomainError));
    assert!(FFTSettings::new(0).is_ok());
}

#[test]
fn roots_of_the_table_have_their_order() {
    for scale in 1..32usize {
        let root = ArkFr::from_u64_arr(&scale2_root_of_unity(scale));
        assert!(root.pow(1usize << scale).is_one());
        assert!(!root.pow(1usize << (scale - 1)).is_one());
        let below = ArkFr::from_u64_arr(&scale2_root_of_unity(scale - 1));
        assert_eq!(root.sqr(), below);
    }
    assert!(ArkFr::from_u64_arr(&scale2_root_of_unity(0)).is_one());
}

#[test]
fn settings_hold_the_powers_of_the_root() {
    let fs = FFTSettings::new(4).unwrap();
    assert_eq!(fs.get_max_width(), 16);
    assert_eq!(fs.get_expanded_roots_of_unity().len(), 17);
    assert_eq!(fs.get_reversed_roots_of_unity().len(), 17);
    assert_eq!(fs.get_roots_of_unity().len(), 16);
    assert_eq!(fs.root_of_unity, ArkFr::from_u64_arr(&scale2_root_of_unity(4)));
    assert!(fs.get_expanded_roots_of_unity_at(0).is_one());
    assert!(fs.get_expanded_roots_of_unity_at(16).is_one());
    assert_eq!(fs.get_expanded_roots_of_unity_at(1), fs.root_of_unity);
    assert_eq!(fs.get_expanded_roots_of_unity_at(8), ArkFr::one().negate());
    for i in 0..17 {
        assert_eq!(fs.get_expanded_roots_of_unity_at(i), fs.root_of_unity.pow(i));
        assert_eq!(
            fs.get_reverse_roots_of_unity_at(i),
            fs.get_expanded_roots_of_unity_at(16 - i)
        );
    }
    // bit reversal of four bits: 1 <-> 8, 3 <-> 12, 6 stays
    assert_eq!(fs.get_roots_of_unity_at(1), fs.get_expanded_roots_of_unity_at(8));
    assert_eq!(fs.get_roots_of_unity_at(3), fs.get_expanded_roots_of_unity_at(12));
    assert_eq!(fs.get_roots_of_unity_at(6), fs.get_expanded_roots_of_unity_at(6));
    assert_eq!(fs.copy(), fs);
    assert_eq!(FFTSettings::default().get_max_width(), 0);
}

#[test]
fn expand_root_of_unity_checks_the_order() {
    let root = ArkFr::from_u64_arr(&scale2_root_of_unity(3));
    assert_eq!(expand_root_of_unity(&root, 8).unwrap().len(), 9);
    assert_eq!(expand_root_of_unity(&root, 4), Err(KzgError::DomainError));
    assert_eq!(expand_root_of_unity(&root, 16), Err(KzgError::DomainError));
    assert_eq!(expand_root_of_unity(&ArkFr::from_u64(3), 8), Err(KzgError::DomainError));
    assert_eq!(expand_root_of_unity(&ArkFr::one(), 1), Ok(elems(&[1, 1])));
    assert_eq!(expand_root_of_unity(&ArkFr::one(), 0), Err(KzgError::DomainError));
}

#[test]
fn reverse_bit_order_permutes() {
    let mut v = elems(&[0, 1, 2, 3, 4, 5, 6, 7]);
    assert_eq!(reverse_bit_order(&mut v), Ok(()));
    assert_eq!(v, elems(&[0, 4, 2, 6, 1, 5, 3, 7]));
    let mut w = elems(&[0, 1, 2]);
    assert_eq!(reverse_bit_order(&mut w), Err(KzgError::DomainError));
    assert_eq!(w, elems(&[0, 1, 2]));
    let mut e: Vec<ArkFr> = Vec::new();
    assert_eq!(reverse_bit_order(&mut e), Err(KzgError::DomainError));
}

#[test]
fn powers_of_two() {
    assert!(is_power_of_two_usize(1));
    assert!(is_power_of_two_usize(64));
    assert!(!is_power_of_two_usize(0));
    assert!(!is_power_of_two_usize(3));
    assert!(!is_power_of_two_usize(96));
    assert_eq!(next_pow_of_2(0), (1, 0));
    assert_eq!(next_pow_of_2(1), (1, 0));
    assert_eq!(next_pow_of_2(5), (8, 3));
    assert_eq!(next_pow_of_2(8), (8, 3));
    assert_eq!(next_pow_of_2(9), (16, 4));
}

#[test]
fn forward_transform_evaluates_at_the_roots() {
    let fs = FFTSettings::new(4).unwrap();
    let data = elems(&[5, 0, 1, 7]);
    let out = fs.fft_fr(&data, false).unwrap();
    let p = kzg_core::poly::Poly { coeffs: data.clone() };
    let w = fs.get_expanded_roots_of_unity_at(4);
    for k in 0..4 {
        assert_eq!(out[k], p.eval(&w.pow(k)));
    }
    assert_eq!(fs.fft_fr(&elems(&[9]), false), Ok(elems(&[9])));
    // the transform of a constant polynomial is constant
    assert_eq!(fs.fft_fr(&elems(&[3, 0]), false), Ok(elems(&[3, 3])));
}

#[test]
fn inverse_transform_undoes_the_forward_transform() {
    let fs = FFTSettings::new(5).unwrap();
    for n in [1usize, 2, 4, 8, 16, 32] {
        let data: Vec<ArkFr> = (0..n as u64).map(|i| ArkFr::from_u64(i * i + 17)).collect();
        let forward = fs.fft_fr(&data, false).unwrap();
        assert_eq!(fs.fft_fr(&forward, true), Ok(data.clone()));
        let backward = fs.fft_fr(&data, true).unwrap();
        assert_eq!(fs.fft_fr(&backward, false), Ok(data));
    }
}

#[test]
fn transform_refuses_bad_lengths() {
    let fs = FFTSettings::new(2).unwrap();
    assert_eq!(fs.fft_fr(&elems(&[1, 2, 3]), false), Err(KzgError::DomainError));
    assert_eq!(fs.fft_fr(&elems(&[1, 2, 3, 4, 5, 6, 7, 8]), true), Err(KzgError::DomainError));
    assert_eq!(fs.fft_fr(&[], false), Err(KzgError::DomainError));
}
