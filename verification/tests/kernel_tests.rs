use ark_poly::DenseUVPolynomial;
use ark_serialize::CanonicalSerialize;

use poly_multiproof::curve::Fr;
use poly_multiproof::kernel::{
    evaluate, fr_zero, gen_powers, linear_combination, poly_div_q_r, vanishing_polynomial,
};
use poly_multiproof::Error;

fn to_ark(x: &Fr) -> ark_bls12_381::Fr {
    ark_ff::PrimeField::from_le_bytes_mod_order(&x.to_bytes())
}

fn to_lib(x: &ark_bls12_381::Fr) -> Fr {
    let mut b = Vec::new();
    x.serialize_compressed(&mut b).unwrap();
    Fr::from_le_bytes(&b)
}

fn rand_poly(len: usize) -> Vec<Fr> {
    (0..len).map(|_| Fr::rand()).collect()
}

#[test]
fn test_gen_powers_values() {
    let two = Fr::from_u64(2);
    let p = gen_powers(&two, 5);
    assert_eq!(p.len(), 5);
    let expected = [1u64, 2, 4, 8, 16];
    for (i, e) in expected.iter().enumerate() {
        assert!(p[i].equals(&Fr::from_u64(*e)));
    }
    assert_eq!(gen_powers(&two, 0).len(), 0);
}

#[test]
fn test_evaluate_exact() {
    // 1 + 2x + 3x^2 at x = 2 is 17
    let poly = vec![Fr::from_u64(1), Fr::from_u64(2), Fr::from_u64(3)];
    let v = evaluate(&poly, &Fr::from_u64(2));
    assert!(v.equals(&Fr::from_u64(17)));
}

#[test]
fn test_poly_div_round_trip() {
    let a = rand_poly(8);
    let b = rand_poly(4);
    let (q, r) = poly_div_q_r(&a, &b).expect("division failed");
    assert!(r.len() < b.len());
    // a == q * b + r over the ark polynomial ring
    let ap = ark_poly::univariate::DensePolynomial::from_coefficients_vec(
        a.iter().map(to_ark).collect(),
    );
    let bp = ark_poly::univariate::DensePolynomial::from_coefficients_vec(
        b.iter().map(to_ark).collect(),
    );
    let qp = ark_poly::univariate::DensePolynomial::from_coefficients_vec(
        q.iter().map(to_ark).collect(),
    );
    let rp = ark_poly::univariate::DensePolynomial::from_coefficients_vec(
        r.iter().map(to_ark).collect(),
    );
    assert_eq!(ap, &(&qp * &bp) + &rp);
}

#[test]
fn test_poly_div_divisor_zero() {
    let a = rand_poly(4);
    let b = vec![fr_zero(), fr_zero()];
    assert!(matches!(poly_div_q_r(&a, &b), Err(Error::DivisorIsZero)));
}

#[test]
fn test_vanishing_evaluates_to_zero_at_points() {
    let points = rand_poly(6);
    let vp = vanishing_polynomial(&points);
    assert_eq!(vp.len(), points.len() + 1);
    assert!(vp[points.len()].equals(&Fr::from_u64(1)));
    let z = fr_zero();
    for s in points.iter() {
        assert!(evaluate(&vp, s).equals(&z));
    }
}

#[test]
fn test_linear_combination_first_polynomial() {
    let polys = vec![rand_poly(5), rand_poly(3), rand_poly(7)];
    let mut scalars = vec![Fr::from_u64(1), fr_zero(), fr_zero()];
    scalars.push(fr_zero());
    let out = linear_combination(&polys, &scalars).expect("combination failed");
    assert_eq!(out.len(), 7);
    // the first polynomial comes back unchanged, up to trailing zeros
    for k in 0..out.len() {
        if k < polys[0].len() {
            assert!(out[k].equals(&polys[0][k]));
        } else {
            assert!(out[k].equals(&fr_zero()));
        }
    }
}

#[test]
fn test_linear_combination_empty() {
    let polys: Vec<Vec<Fr>> = Vec::new();
    let scalars = vec![Fr::from_u64(1)];
    assert!(matches!(linear_combination(&polys, &scalars), Err(Error::NoPolynomialsGiven)));
}

#[test]
fn test_scalar_byte_round_trip() {
    let x = Fr::rand();
    let y = Fr::from_le_bytes(&x.to_bytes());
    assert!(x.equals(&y));
    assert!(to_lib(&to_ark(&x)).equals(&x));
}
