use merlin::Transcript;

use poly_multiproof::curve::Fr;
use poly_multiproof::kernel::evaluate;
use poly_multiproof::method1::M1NoPrecomp;
use poly_multiproof::method2::{Proof, Setup};
use poly_multiproof::Error;

fn rand_poly(len: usize) -> Vec<Fr> {
    (0..len).map(|_| Fr::rand()).collect()
}

fn eval_table(polys: &[Vec<Fr>], points: &[Fr]) -> Vec<Vec<Fr>> {
    polys
        .iter()
        .map(|p| points.iter().map(|x| evaluate(p, x)).collect())
        .collect()
}

fn standard_setup() -> (Setup, Vec<Fr>, Vec<Vec<Fr>>, Vec<Vec<Fr>>) {
    let s = Setup::new(256);
    let points: Vec<Fr> = (0..30).map(|_| Fr::rand()).collect();
    let polys: Vec<Vec<Fr>> = (0..20).map(|_| rand_poly(51)).collect();
    let evals = eval_table(&polys, &points);
    (s, points, polys, evals)
}

#[test]
fn mod_test_basic_open_works() {
    let (s, points, polys, evals) = standard_setup();
    let commits: Vec<_> = polys.iter().map(|p| s.commit(p).expect("Commit failed")).collect();
    let mut open_transcript = Transcript::new(b"testing");
    let open = s
        .open(&mut open_transcript, &evals, &polys, &points)
        .expect("Open failed");
    let mut verify_transcript = Transcript::new(b"testing");
    assert_eq!(
        Ok(true),
        s.verify(&mut verify_transcript, &commits, &points, &evals, &open)
    );
}

#[test]
fn test_m2_verify_rejects_tampered_eval() {
    let (s, points, polys, mut evals) = standard_setup();
    let commits: Vec<_> = polys.iter().map(|p| s.commit(p).expect("Commit failed")).collect();
    let mut transcript = Transcript::new(b"testing");
    let open = s
        .open(&mut transcript, &evals, &polys, &points)
        .expect("Open failed");
    let mut bytes = evals[3][0].to_bytes();
    bytes[0] ^= 1;
    evals[3][0] = Fr::from_le_bytes(&bytes);
    let mut transcript = Transcript::new(b"testing");
    assert_eq!(Ok(false), s.verify(&mut transcript, &commits, &points, &evals, &open));
}

#[test]
fn test_m2_open_deterministic() {
    let (s, points, polys, evals) = standard_setup();
    let mut t1 = Transcript::new(b"same");
    let p1 = s.open(&mut t1, &evals, &polys, &points).expect("Open failed");
    let mut t2 = Transcript::new(b"same");
    let p2 = s.open(&mut t2, &evals, &polys, &points).expect("Open failed");
    assert_eq!(p1.0.to_bytes(), p2.0.to_bytes());
    assert_eq!(p1.1.to_bytes(), p2.1.to_bytes());
}

#[test]
fn test_try_from_not_enough_g2_powers() {
    let m1 = M1NoPrecomp::new(8, Some(0)).unwrap();
    assert!(matches!(Setup::try_from(&m1), Err(Error::NotEnoughG2Powers)));
}

#[test]
fn test_methods_are_not_interchangeable() {
    // one shared setup for both schemes
    let m1 = M1NoPrecomp::new(64, Some(32)).unwrap();
    let m2 = Setup::try_from(&m1).expect("adapt failed");
    let points: Vec<Fr> = (0..10).map(|_| Fr::rand()).collect();
    let polys: Vec<Vec<Fr>> = (0..4).map(|_| rand_poly(20)).collect();
    let evals = eval_table(&polys, &points);
    let commits: Vec<_> = polys.iter().map(|p| m1.commit(p).expect("Commit failed")).collect();

    let mut t = Transcript::new(b"testing");
    let m1_proof = m1.open(&mut t, &evals, &polys, &points).expect("Open failed");
    let mut t = Transcript::new(b"testing");
    let m2_proof = m2.open(&mut t, &evals, &polys, &points).expect("Open failed");

    // a Method-1 proof does not verify under Method-2
    let fake_m2 = Proof(m1_proof.0, m1_proof.0);
    let mut t = Transcript::new(b"testing");
    assert_eq!(Ok(false), m2.verify(&mut t, &commits, &points, &evals, &fake_m2));

    // a Method-2 second point does not verify under Method-1
    // (the first point coincides with the Method-1 quotient commitment)
    let fake_m1 = poly_multiproof::method1::Proof(m2_proof.1);
    let mut t = Transcript::new(b"testing");
    assert_eq!(Ok(false), m1.verify(&mut t, &commits, &points, &evals, &fake_m1));

    // while each verifies under its own scheme
    let mut t = Transcript::new(b"testing");
    assert_eq!(Ok(true), m1.verify(&mut t, &commits, &points, &evals, &m1_proof));
    let mut t = Transcript::new(b"testing");
    assert_eq!(Ok(true), m2.verify(&mut t, &commits, &points, &evals, &m2_proof));
}
