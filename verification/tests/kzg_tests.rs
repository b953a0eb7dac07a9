use kzg_core::error::KzgError;
use kzg_core::fft::FFTSettings;
use kzg_core::group::{ArkG1, ArkG2};
use kzg_core::kzg::KZGSettings;
use kzg_core::poly::Poly;
use kzg_core::scalar::ArkFr;

fn poly_of(values: &[u64]) -> Poly {
    Poly { coeffs: values.iter().map(|v| ArkFr::from_u64(*v)).collect() }
}

/// The reference string of a fixed secret, `m` points in G1 and `k` in G2.
fn settings(m: usize, k: usize, scale: usize) -> KZGSettings {
    let secret = ArkFr::from_u64_arr(&[0xa473319920eb2cb5, 0x1953, 0x77, 0]);
    let mut g1 = Vec::new();
    let mut g2 = Vec::new();
    let mut power = ArkFr::one();
    for i in 0..m.max(k) {
        if i < m {
            g1.push(ArkG1::generator().mul(&power));
        }
        if i < k {
            g2.push(ArkG2::generator().mul(&power));
        }
        power = power.mul(&secret);
    }
    let fs = FFTSettings::new(scale).unwrap();
    KZGSettings::new(&g1, &g2, m, &fs).unwrap()
}

#[test]
fn settings_keep_what_they_are_given() {
    let ks = settings(4, 3, 2);
    assert_eq!(ks.get_g1_secret().len(), 4);
    assert_eq!(ks.get_g2_secret().len(), 3);
    assert_eq!(ks.get_g1_secret()[0], ArkG1::generator());
    assert_eq!(ks.get_g2_secret()[0], ArkG2::generator());
    assert_eq!(ks.get_fft_settings().get_max_width(), 4);
    assert_eq!(
        ks.get_expanded_roots_of_unity_at(1),
        ks.get_fft_settings().get_expanded_roots_of_unity_at(1)
    );
    assert_eq!(ks.get_roots_of_unity_at(1), ks.get_fft_settings().get_roots_of_unity_at(1));
}

#[test]
fn commitment_is_the_linear_combination() {
    let ks = settings(4, 2, 2);
    let g = ks.get_g1_secret();
    let p = poly_of(&[3, 0, 5]);
    let expected = g[0].mul(&ArkFr::from_u64(3)).add(&g[2].mul(&ArkFr::from_u64(5)));
    assert!(ks.commit_to_poly(&p).unwrap().equals(&expected));
    assert!(ks.commit_to_poly(&Poly::new(0)).unwrap().is_inf());
    assert!(ArkG1::g1_lincomb(g, &p.coeffs, 1).equals(&g[0].mul(&ArkFr::from_u64(3))));
}

#[test]
fn commitment_refuses_a_polynomial_longer_than_the_string() {
    let ks = settings(4, 2, 2);
    assert_eq!(ks.commit_to_poly(&poly_of(&[1, 2, 3, 4, 5])), Err(KzgError::LengthError));
    assert!(ks.commit_to_poly(&poly_of(&[1, 2, 3, 4])).is_ok());
}

#[test]
fn commitment_is_additive() {
    let ks = settings(6, 2, 2);
    let p = poly_of(&[1, 2, 3, 4, 5, 6]);
    let q = poly_of(&[9, 0, 7, 0, 5, 1]);
    let sum = poly_of(&[10, 2, 10, 4, 10, 7]);
    let cp = ks.commit_to_poly(&p).unwrap();
    let cq = ks.commit_to_poly(&q).unwrap();
    assert!(cp.add(&cq).equals(&ks.commit_to_poly(&sum).unwrap()));
    assert!(cp.add_or_dbl(&cp).equals(&ks.commit_to_poly(&poly_of(&[2, 4, 6, 8, 10, 12])).unwrap()));
}

#[test]
fn quotient_by_linear_is_synthetic_division() {
    // x^2 - 1 over x - 1 is x + 1; x^3 over x - 2 is x^2 + 2x + 4
    let p = Poly { coeffs: vec![ArkFr::one().negate(), ArkFr::zero(), ArkFr::one()] };
    assert_eq!(KZGSettings::quotient_by_linear(&p, &ArkFr::one()), poly_of(&[1, 1]));
    assert_eq!(
        KZGSettings::quotient_by_linear(&poly_of(&[0, 0, 0, 1]), &ArkFr::from_u64(2)),
        poly_of(&[4, 2, 1])
    );
    assert_eq!(KZGSettings::quotient_by_linear(&poly_of(&[5]), &ArkFr::from_u64(2)).len(), 0);
}

#[test]
fn proof_single_verifies_and_rejects_other_values() {
    let ks = settings(16, 2, 4);
    let p = poly_of(&[1, 2, 3, 4, 7, 7, 7, 7, 13, 13, 13, 13, 13, 13, 13, 13]);
    let x = ArkFr::from_u64(25);
    let y = p.eval(&x);
    let com = ks.commit_to_poly(&p).unwrap();
    let proof = ks.compute_proof_single(&p, &x).unwrap();
    assert_eq!(ks.check_proof_single(&com, &proof, &x, &y), Ok(true));
    let other = y.add(&ArkFr::one());
    assert_eq!(ks.check_proof_single(&com, &proof, &x, &other), Ok(false));
    assert_eq!(ks.check_proof_single(&com, &proof, &ArkFr::from_u64(26), &y), Ok(false));
}

#[test]
fn proof_single_with_random_inputs() {
    let ks = settings(8, 2, 3);
    let p = Poly { coeffs: (0..8).map(|_| ArkFr::rand()).collect() };
    let x = ArkFr::rand();
    let y = p.eval(&x);
    let com = ks.commit_to_poly(&p).unwrap();
    let proof = ks.compute_proof_single(&p, &x).unwrap();
    assert_eq!(ks.check_proof_single(&com, &proof, &x, &y), Ok(true));
    let shift = ArkFr::rand();
    assert_eq!(ks.check_proof_single(&com, &proof, &x, &y.add(&shift)), Ok(shift.is_zero()));
}

#[test]
fn proof_single_refuses_an_empty_polynomial() {
    let ks = settings(4, 2, 2);
    assert_eq!(
        ks.compute_proof_single(&Poly::new(0), &ArkFr::one()),
        Err(KzgError::EmptyInputError)
    );
    assert_eq!(
        ks.compute_proof_single(&poly_of(&[1, 2, 3, 4, 5, 6]), &ArkFr::one()),
        Err(KzgError::LengthError)
    );
    assert!(ks.compute_proof_single(&poly_of(&[1, 2, 3, 4, 5]), &ArkFr::one()).is_ok());
}

fn coset_values(ks: &KZGSettings, p: &Poly, x: &ArkFr, n: usize) -> Vec<ArkFr> {
    let fs = ks.get_fft_settings();
    let stride = fs.get_max_width() / n;
    (0..n).map(|i| p.eval(&x.mul(&fs.get_expanded_roots_of_unity_at(i * stride)))).collect()
}

#[test]
fn proof_multi_verifies_and_rejects_other_values() {
    let n = 4;
    let ks = settings(16, n + 1, 2);
    let p = poly_of(&[1, 2, 3, 4, 7, 7, 7, 7, 13, 13, 13, 13, 13, 13, 13, 13]);
    let x = ArkFr::from_u64(5431);
    let com = ks.commit_to_poly(&p).unwrap();
    let proof = ks.compute_proof_multi(&p, &x, n).unwrap();
    let ys = coset_values(&ks, &p, &x, n);
    assert_eq!(ks.check_proof_multi(&com, &proof, &x, &ys, n), Ok(true));
    for i in 0..n {
        let mut wrong = ys.clone();
        wrong[i] = wrong[i].add(&ArkFr::one());
        assert_eq!(ks.check_proof_multi(&com, &proof, &x, &wrong, n), Ok(false));
    }
}

#[test]
fn proof_multi_on_a_smaller_coset_of_a_wider_domain() {
    let n = 2;
    let ks = settings(8, 5, 3);
    let p = poly_of(&[3, 1, 4, 1, 5, 9, 2, 6]);
    let x = ArkFr::from_u64(77);
    let com = ks.commit_to_poly(&p).unwrap();
    let proof = ks.compute_proof_multi(&p, &x, n).unwrap();
    let ys = coset_values(&ks, &p, &x, n);
    assert_eq!(ys[1], p.eval(&x.negate()));
    assert_eq!(ks.check_proof_multi(&com, &proof, &x, &ys, n), Ok(true));
    // a coset of one point is a single point
    let single = ks.compute_proof_single(&p, &x).unwrap();
    assert!(ks.compute_proof_multi(&p, &x, 1).unwrap().equals(&single));
    assert_eq!(ks.check_proof_multi(&com, &single, &x, &[p.eval(&x)], 1), Ok(true));
}

#[test]
fn proof_multi_on_a_coset_wide_enough_for_the_fast_division() {
    let n = 128;
    let ks = settings(200, n + 1, 7);
    let p = Poly { coeffs: (0..200u64).map(|i| ArkFr::from_u64(i * i * i + 7 * i + 1)).collect() };
    let x = ArkFr::from_u64(987654321);
    let com = ks.commit_to_poly(&p).unwrap();
    let proof = ks.compute_proof_multi(&p, &x, n).unwrap();
    let divisor = KZGSettings::coset_divisor_poly(&x, n);
    let quotient = p.long_div(&divisor).unwrap();
    assert_eq!(p.fast_div(&divisor), Ok(quotient.copy()));
    assert!(proof.equals(&ks.commit_to_poly(&quotient).unwrap()));
    let mut ys = coset_values(&ks, &p, &x, n);
    assert_eq!(ks.check_proof_multi(&com, &proof, &x, &ys, n), Ok(true));
    ys[77] = ys[77].add(&ArkFr::one());
    assert_eq!(ks.check_proof_multi(&com, &proof, &x, &ys, n), Ok(false));
}

#[test]
fn proof_multi_refuses_sizes_that_are_no_power_of_two() {
    let ks = settings(16, 5, 2);
    let p = poly_of(&[1, 2, 3, 4, 7, 7, 7, 7]);
    let x = ArkFr::from_u64(5431);
    let g = ArkG1::generator();
    let ys = vec![ArkFr::one(); 3];
    assert_eq!(ks.compute_proof_multi(&p, &x, 3), Err(KzgError::DomainError));
    assert_eq!(ks.compute_proof_multi(&p, &x, 0), Err(KzgError::DomainError));
    assert_eq!(ks.check_proof_multi(&g, &g, &x, &ys, 3), Err(KzgError::DomainError));
    assert_eq!(ks.check_proof_multi(&g, &g, &x, &[], 0), Err(KzgError::DomainError));
    // a power of two that is not the number of values, or is beyond the domain
    assert_eq!(ks.check_proof_multi(&g, &g, &x, &ys, 4), Err(KzgError::DomainError));
    assert_eq!(
        ks.check_proof_multi(&g, &g, &x, &vec![ArkFr::one(); 8], 8),
        Err(KzgError::DomainError)
    );
}

#[test]
fn proof_multi_reports_the_other_failures() {
    let ks = settings(4, 3, 2);
    let x = ArkFr::from_u64(5431);
    let g = ArkG1::generator();
    assert_eq!(ks.compute_proof_multi(&Poly::new(0), &x, 4), Err(KzgError::EmptyInputError));
    assert_eq!(ks.compute_proof_multi(&Poly::new(0), &x, 3), Err(KzgError::EmptyInputError));
    assert_eq!(ks.compute_proof_multi(&poly_of(&[1, 2, 3, 4]), &x, 4), Err(KzgError::DivisionError));
    assert_eq!(
        ks.compute_proof_multi(&poly_of(&[1, 2, 3, 4, 5, 6, 7]), &x, 2),
        Err(KzgError::LengthError)
    );
    // the reference string has no point of index 4 in G2
    assert_eq!(
        ks.check_proof_multi(&g, &g, &x, &vec![ArkFr::one(); 4], 4),
        Err(KzgError::LengthError)
    );
}

#[test]
fn coset_divisor_is_sparse() {
    let d = KZGSettings::coset_divisor_poly(&ArkFr::from_u64(3), 4);
    assert_eq!(
        d,
        Poly {
            coeffs: vec![
                ArkFr::from_u64(81).negate(),
                ArkFr::zero(),
                ArkFr::zero(),
                ArkFr::zero(),
                ArkFr::one(),
            ]
        }
    );
}
