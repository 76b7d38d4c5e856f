use ark_poly::EvaluationDomain;
use ark_serialize::CanonicalSerialize;
use merlin::Transcript;

use poly_multiproof::curve::Fr;
use poly_multiproof::precompute::M1Precomp;
use poly_multiproof::traits::{Committer, PolyMultiProof};
use poly_multiproof::Error;

const GRID_WIDTH: usize = 256;
const N_CHUNKS_W: usize = 4;
const CHUNK_W: usize = GRID_WIDTH / N_CHUNKS_W;

fn to_lib(x: &ark_bls12_381::Fr) -> Fr {
    let mut b = Vec::new();
    x.serialize_compressed(&mut b).unwrap();
    Fr::from_le_bytes(&b)
}

fn to_ark(x: &Fr) -> ark_bls12_381::Fr {
    ark_ff::PrimeField::from_le_bytes_mod_order(&x.to_bytes())
}

/// Registers the grid-width evaluation domain in four consecutive
/// chunks and interpolates each row into coefficient form.
fn grid_setup(n_rows: usize) -> (M1Precomp, Vec<Vec<Fr>>, Vec<Vec<Fr>>) {
    let domain = ark_poly::Radix2EvaluationDomain::<ark_bls12_381::Fr>::new(GRID_WIDTH)
        .expect("Failed to make grid width eval domain");
    let mut point_sets = vec![Vec::new(); N_CHUNKS_W];
    for (i, p) in domain.elements().enumerate() {
        point_sets[i / CHUNK_W].push(to_lib(&p));
    }
    let pmp = M1Precomp::new(GRID_WIDTH, point_sets).expect("Failed to make pmp");

    let mut rows: Vec<Vec<Fr>> = Vec::new();
    let mut polys: Vec<Vec<Fr>> = Vec::new();
    for _ in 0..n_rows {
        let row: Vec<Fr> = (0..GRID_WIDTH).map(|_| Fr::rand()).collect();
        let row_ark: Vec<ark_bls12_381::Fr> = row.iter().map(to_ark).collect();
        let coeffs = domain.ifft(&row_ark);
        polys.push(coeffs.iter().map(to_lib).collect());
        rows.push(row);
    }
    (pmp, rows, polys)
}

#[test]
fn test_grid_chunk_open_works() {
    let (pmp, rows, polys) = grid_setup(1);
    let commits: Vec<_> = polys.iter().map(|p| pmp.commit(p).expect("Commit failed")).collect();
    // open chunk (i, j) == (0, 2)
    let j = 2;
    let chunk_evals: Vec<Vec<Fr>> =
        rows.iter().map(|r| r[j * CHUNK_W..(j + 1) * CHUNK_W].to_vec()).collect();
    let mut t = Transcript::new(b"example open");
    let open = pmp.open(&mut t, &chunk_evals, &polys, j).expect("Failed to open");
    let mut t = Transcript::new(b"example open");
    assert_eq!(Ok(true), pmp.verify(&mut t, &commits, j, &chunk_evals, &open));
}

#[test]
fn test_grid_swapped_commits_rejected() {
    let (pmp, rows, polys) = grid_setup(2);
    let mut commits: Vec<_> =
        polys.iter().map(|p| pmp.commit(p).expect("Commit failed")).collect();
    let j = 2;
    let chunk_evals: Vec<Vec<Fr>> =
        rows.iter().map(|r| r[j * CHUNK_W..(j + 1) * CHUNK_W].to_vec()).collect();
    let mut t = Transcript::new(b"example open");
    let open = pmp.open(&mut t, &chunk_evals, &polys, j).expect("Failed to open");
    commits.swap(0, 1);
    let mut t = Transcript::new(b"example open");
    assert_eq!(Ok(false), pmp.verify(&mut t, &commits, j, &chunk_evals, &open));
}

#[test]
fn test_precompute_matches_plain_open() {
    let (pmp, rows, polys) = grid_setup(1);
    let j = 1;
    let chunk_evals: Vec<Vec<Fr>> =
        rows.iter().map(|r| r[j * CHUNK_W..(j + 1) * CHUNK_W].to_vec()).collect();
    let mut t = Transcript::new(b"example open");
    let pre = pmp.open(&mut t, &chunk_evals, &polys, j).expect("Failed to open");
    // the plain opener over the same setup produces the identical proof
    let mut t = Transcript::new(b"example open");
    let plain = pmp
        .inner
        .open(&mut t, &chunk_evals, &polys, &pmp.point_sets[j])
        .expect("Failed to open");
    assert_eq!(pre.0.to_bytes(), plain.0.to_bytes());
    let commits: Vec<_> = polys.iter().map(|p| pmp.commit(p).expect("Commit failed")).collect();
    let mut t = Transcript::new(b"example open");
    assert_eq!(Ok(true), pmp.verify(&mut t, &commits, j, &chunk_evals, &plain));
}

#[test]
fn test_no_such_point_set() {
    let (pmp, rows, polys) = grid_setup(1);
    let chunk_evals: Vec<Vec<Fr>> = rows.iter().map(|r| r[0..CHUNK_W].to_vec()).collect();
    let mut t = Transcript::new(b"example open");
    assert!(matches!(
        pmp.open(&mut t, &chunk_evals, &polys, 7),
        Err(Error::NoSuchPointSet(7))
    ));
}
