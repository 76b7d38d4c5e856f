use merlin::Transcript;

use poly_multiproof::curve::Fr;
use poly_multiproof::kernel::evaluate;
use poly_multiproof::method1::{M1NoPrecomp, Proof};
use poly_multiproof::Error;

fn rand_poly(len: usize) -> Vec<Fr> {
    (0..len).map(|_| Fr::rand()).collect()
}

fn eval_table(polys: &[Vec<Fr>], points: &[Fr]) -> Vec<Vec<Fr>> {
    polys
        .iter()
        .map(|p| points.iter().map(|x| evaluate(p, x)).collect())
        .collect()
}

fn standard_setup() -> (M1NoPrecomp, Vec<Fr>, Vec<Vec<Fr>>, Vec<Vec<Fr>>) {
    let s = M1NoPrecomp::new(256, Some(32)).unwrap();
    let points: Vec<Fr> = (0..30).map(|_| Fr::rand()).collect();
    let polys: Vec<Vec<Fr>> = (0..20).map(|_| rand_poly(51)).collect();
    let evals = eval_table(&polys, &points);
    (s, points, polys, evals)
}

#[test]
fn test_basic_open_works() {
    let (s, points, polys, evals) = standard_setup();
    let commits: Vec<_> = polys.iter().map(|p| s.commit(p).expect("Commit failed")).collect();
    let mut transcript = Transcript::new(b"testing");
    let open = s
        .open(&mut transcript, &evals, &polys, &points)
        .expect("Open failed");
    let mut transcript = Transcript::new(b"testing");
    assert_eq!(Ok(true), s.verify(&mut transcript, &commits, &points, &evals, &open));
}

#[test]
fn test_verify_rejects_tampered_eval() {
    let (s, points, polys, mut evals) = standard_setup();
    let commits: Vec<_> = polys.iter().map(|p| s.commit(p).expect("Commit failed")).collect();
    let mut transcript = Transcript::new(b"testing");
    let open = s
        .open(&mut transcript, &evals, &polys, &points)
        .expect("Open failed");
    // flip one byte of one entry in the fourth row
    let mut bytes = evals[3][0].to_bytes();
    bytes[0] ^= 1;
    evals[3][0] = Fr::from_le_bytes(&bytes);
    let mut transcript = Transcript::new(b"testing");
    assert_eq!(Ok(false), s.verify(&mut transcript, &commits, &points, &evals, &open));
}

#[test]
fn test_verify_rejects_swapped_commits() {
    let (s, points, polys, evals) = standard_setup();
    let mut commits: Vec<_> =
        polys.iter().map(|p| s.commit(p).expect("Commit failed")).collect();
    let mut transcript = Transcript::new(b"testing");
    let open = s
        .open(&mut transcript, &evals, &polys, &points)
        .expect("Open failed");
    commits.swap(0, 1);
    let mut transcript = Transcript::new(b"testing");
    assert_eq!(Ok(false), s.verify(&mut transcript, &commits, &points, &evals, &open));
}

#[test]
fn test_verify_rejects_wrong_proof_point() {
    let (s, points, polys, evals) = standard_setup();
    let commits: Vec<_> = polys.iter().map(|p| s.commit(p).expect("Commit failed")).collect();
    let mut transcript = Transcript::new(b"testing");
    let _open = s
        .open(&mut transcript, &evals, &polys, &points)
        .expect("Open failed");
    // an unrelated G1 point instead of the real proof
    let bogus = Proof(commits[0].0);
    let mut transcript = Transcript::new(b"testing");
    assert_eq!(Ok(false), s.verify(&mut transcript, &commits, &points, &evals, &bogus));
}

#[test]
fn test_verify_rejects_reordered_points() {
    let (s, points, polys, evals) = standard_setup();
    let commits: Vec<_> = polys.iter().map(|p| s.commit(p).expect("Commit failed")).collect();
    let mut transcript = Transcript::new(b"testing");
    let open = s
        .open(&mut transcript, &evals, &polys, &points)
        .expect("Open failed");
    let mut reordered = points.clone();
    reordered.reverse();
    let mut transcript = Transcript::new(b"testing");
    assert_eq!(
        Ok(false),
        s.verify(&mut transcript, &commits, &reordered, &evals, &open)
    );
}

#[test]
fn test_open_deterministic() {
    let (s, points, polys, evals) = standard_setup();
    let mut t1 = Transcript::new(b"same");
    let p1 = s.open(&mut t1, &evals, &polys, &points).expect("Open failed");
    let mut t2 = Transcript::new(b"same");
    let p2 = s.open(&mut t2, &evals, &polys, &points).expect("Open failed");
    assert_eq!(p1.0.to_bytes(), p2.0.to_bytes());
}

#[test]
fn test_open_no_polynomials() {
    let s = M1NoPrecomp::new(16, Some(4)).unwrap();
    let points: Vec<Fr> = (0..3).map(|_| Fr::rand()).collect();
    let polys: Vec<Vec<Fr>> = Vec::new();
    let evals: Vec<Vec<Fr>> = Vec::new();
    let mut transcript = Transcript::new(b"testing");
    assert!(matches!(
        s.open(&mut transcript, &evals, &polys, &points),
        Err(Error::NoPolynomialsGiven)
    ));
}

#[test]
fn test_open_wrong_eval_row_size() {
    let s = M1NoPrecomp::new(16, Some(8)).unwrap();
    let points: Vec<Fr> = (0..5).map(|_| Fr::rand()).collect();
    let polys = vec![rand_poly(6)];
    // a row of length four against five points
    let evals = vec![rand_poly(4)];
    let mut transcript = Transcript::new(b"testing");
    assert!(matches!(
        s.open(&mut transcript, &evals, &polys, &points),
        Err(Error::EvalsIncorrectSize { expected: 5, got: 4 })
    ));
}

#[test]
fn test_commit_too_large() {
    let s = M1NoPrecomp::new(8, Some(4)).unwrap();
    let poly = rand_poly(9);
    assert!(matches!(
        s.commit(&poly),
        Err(Error::PolynomialTooLarge { n_coeffs: 9, expected_max: 8 })
    ));
}
