use kzg_core::error::KzgError;
use kzg_core::fft::FFTSettings;
use kzg_core::poly::Poly;
use kzg_core::scalar::ArkFr;

fn poly_of(values: &[u64]) -> Poly {
    Poly { coeffs: values.iter().map(|v| ArkFr::from_u64(*v)).collect() }
}

fn neg(v: u64) -> ArkFr {
    ArkFr::from_u64(v).negate()
}

#[test]
fn new_poly_is_all_zero() {
    let p = Poly::new(4);
    assert_eq!(p.len(), 4);
    assert!(p.get_coeffs().iter().all(|c| c.is_zero()));
    assert_eq!(Poly::new(0).len(), 0);
}

#[test]
fn set_and_get_coefficient() {
    let mut p = Poly::new(3);
    p.set_coeff_at(1, &ArkFr::from_u64(9));
    assert_eq!(p.get_coeff_at(1), ArkFr::from_u64(9));
    assert!(p.get_coeff_at(0).is_zero());
    assert_eq!(p.copy(), p);
}

#[test]
fn eval_is_horner() {
    // 3 + 2 x + x^2 at 5 is 38
    let p = poly_of(&[3, 2, 1]);
    assert_eq!(p.eval(&ArkFr::from_u64(5)), ArkFr::from_u64(38));
    assert_eq!(p.eval(&ArkFr::zero()), ArkFr::from_u64(3));
    assert_eq!(poly_of(&[7]).eval(&ArkFr::from_u64(12)), ArkFr::from_u64(7));
    assert!(Poly::new(0).eval(&ArkFr::from_u64(12)).is_zero());
}

#[test]
fn scale_multiplies_by_powers_of_the_factor() {
    let mut p = poly_of(&[1, 1, 1, 2]);
    p.scale();
    assert_eq!(p, poly_of(&[1, 5, 25, 250]));
}

#[test]
fn unscale_undoes_scale() {
    let before = poly_of(&[11, 22, 33, 44, 55]);
    let mut p = before.copy();
    p.scale();
    assert_ne!(p, before);
    p.unscale();
    assert_eq!(p, before);
    let mut q = poly_of(&[1, 5, 25]);
    q.unscale();
    assert_eq!(q, poly_of(&[1, 1, 1]));
}

#[test]
fn mul_direct_is_the_schoolbook_product() {
    // (1 + 2x)(3 + x + x^2) = 3 + 7x + 3x^2 + 2x^3
    let a = poly_of(&[1, 2]);
    let b = poly_of(&[3, 1, 1]);
    assert_eq!(a.mul_direct(&b, 4), Ok(poly_of(&[3, 7, 3, 2])));
    assert_eq!(a.mul_direct(&b, 2), Ok(poly_of(&[3, 7])));
    assert_eq!(a.mul_direct(&b, 6), Ok(poly_of(&[3, 7, 3, 2, 0, 0])));
    assert_eq!(a.mul_direct(&Poly::new(0), 3), Ok(poly_of(&[0, 0, 0])));
}

#[test]
fn mul_fft_agrees_with_mul_direct() {
    let a = poly_of(&[1, 2, 3, 4, 5, 6, 7]);
    let b = poly_of(&[9, 8, 7, 6, 5]);
    for len in [0usize, 1, 3, 11, 16, 20] {
        let direct = a.mul_direct(&b, len).unwrap();
        assert_eq!(FFTSettings::poly_mul_fft(&a, &b, len, None), Ok(direct.copy()));
        let fs = FFTSettings::new(5).unwrap();
        assert_eq!(FFTSettings::poly_mul_fft(&a, &b, len, Some(&fs)), Ok(direct.copy()));
        assert_eq!(Poly::product(&a, &b, len), direct);
    }
    assert_eq!(
        FFTSettings::poly_mul_fft(&a, &Poly::new(0), 4, None),
        Ok(poly_of(&[0, 0, 0, 0]))
    );
}

#[test]
fn mul_fft_refuses_a_domain_that_is_too_narrow() {
    let a = poly_of(&[1, 2, 3, 4, 5, 6, 7]);
    let b = poly_of(&[9, 8, 7, 6, 5]);
    let fs = FFTSettings::new(3).unwrap();
    assert_eq!(FFTSettings::poly_mul_fft(&a, &b, 11, Some(&fs)), Err(KzgError::DomainError));
    assert!(FFTSettings::poly_mul_fft(&a, &b, 4, Some(&fs)).is_ok());
}

#[test]
fn long_div_gives_the_quotient() {
    // x^2 - 1 = (x - 1)(x + 1)
    let p = Poly { coeffs: vec![neg(1), ArkFr::zero(), ArkFr::one()] };
    let d = Poly { coeffs: vec![neg(1), ArkFr::one()] };
    assert_eq!(p.long_div(&d), Ok(poly_of(&[1, 1])));
    // 2x^3 + 3x^2 + 7x + 3 = (x^2 + x + 3)(2x + 1), and with remainder
    let p = poly_of(&[3, 7, 3, 2]);
    assert_eq!(p.long_div(&poly_of(&[3, 1, 1])), Ok(poly_of(&[1, 2])));
    assert_eq!(poly_of(&[4, 7, 3, 2]).long_div(&poly_of(&[3, 1, 1])), Ok(poly_of(&[1, 2])));
    assert_eq!(poly_of(&[6, 4, 2]).long_div(&poly_of(&[2])), Ok(poly_of(&[3, 2, 1])));
}

#[test]
fn division_refuses_degenerate_divisors() {
    let p = poly_of(&[3, 7, 3, 2]);
    for result in [
        p.long_div(&Poly::new(0)),
        p.long_div(&poly_of(&[1, 0])),
        poly_of(&[1, 2]).long_div(&poly_of(&[1, 2, 3])),
        p.fast_div(&Poly::new(0)),
        p.fast_div(&poly_of(&[1, 0])),
        poly_of(&[1, 2]).fast_div(&poly_of(&[1, 2, 3])),
        p.div(&Poly::new(0)),
        p.div(&poly_of(&[1, 0])),
        poly_of(&[1, 2]).div(&poly_of(&[1, 2, 3])),
    ] {
        assert_eq!(result, Err(KzgError::DivisionError));
    }
}

#[test]
fn fast_div_agrees_with_long_div() {
    let p = poly_of(&[3, 7, 3, 2, 9, 1, 4, 4, 8, 15, 16, 23, 42]);
    let d = poly_of(&[5, 1, 1, 3]);
    let q = p.long_div(&d).unwrap();
    assert_eq!(q.len(), 10);
    assert_eq!(p.fast_div(&d), Ok(q.copy()));
    assert_eq!(p.div(&d), Ok(q.copy()));
    assert!(q.is_quotient_of(&p, &d));
    assert!(!poly_of(&[1; 10]).is_quotient_of(&p, &d));
}

#[test]
fn div_uses_the_transform_above_the_threshold() {
    let dividend: Vec<u64> = (0..300u64).map(|i| i * i + 3).collect();
    let divisor: Vec<u64> = (0..130u64).map(|i| 7 * i + 1).collect();
    let p = poly_of(&dividend);
    let d = poly_of(&divisor);
    let q = p.long_div(&d).unwrap();
    assert_eq!(q.len(), 171);
    assert_eq!(p.div(&d), Ok(q.copy()));
    assert_eq!(p.fast_div(&d), Ok(q));
}

#[test]
fn inverse_is_the_power_series() {
    // 1 / (1 + x) = 1 - x + x^2 - x^3 + ...
    let p = poly_of(&[1, 1]);
    let r = p.inverse(5).unwrap();
    assert_eq!(
        r,
        Poly { coeffs: vec![ArkFr::one(), neg(1), ArkFr::one(), neg(1), ArkFr::one()] }
    );
    assert!(r.inverts(&p));
    assert!(!poly_of(&[1, 1, 1]).inverts(&p));
    // 1 / (2 + x), two coefficients: 1/2 - x/4
    let half = ArkFr::from_u64(2).inverse();
    let r = poly_of(&[2, 1]).inverse(2).unwrap();
    assert_eq!(r, Poly { coeffs: vec![half, half.mul(&half).negate()] });
    assert_eq!(poly_of(&[3]).inverse(0), Ok(Poly::new(0)));
    let r = poly_of(&[4, 3, 2, 1, 7, 7, 7]).inverse(33).unwrap();
    assert_eq!(r.len(), 33);
    assert!(r.inverts(&poly_of(&[4, 3, 2, 1, 7, 7, 7])));
}

#[test]
fn inverse_refuses_a_zero_constant_term() {
    assert_eq!(poly_of(&[0, 1]).inverse(3), Err(KzgError::DivisionError));
    assert_eq!(Poly::new(0).inverse(3), Err(KzgError::DivisionError));
}
