//! The scheme traits: committing, opening and verifying, with and
//! without precomputed point sets.

use vstd::prelude::*;

use crate::curve::Fr;
use crate::method1::M1NoPrecomp;
use crate::method2::Setup;
use crate::precompute::M1Precomp;
use crate::{Commitment, Error};

verus! {

/// A scheme that can commit to a polynomial given as coefficients.
pub trait Committer {
    fn commit(&self, poly: &Vec<Fr>) -> Result<Commitment, Error>;
}

/// A multi-proof scheme over a registered family of point sets, indexed
/// at opening time.
pub trait PolyMultiProof: Sized {
    type Proof;

    spec fn wf(&self) -> bool;

    spec fn poly_capacity(&self) -> int;

    fn new(max_coeffs: usize, point_sets: Vec<Vec<Fr>>) -> Result<Self, Error>
        requires
            max_coeffs < usize::MAX,
            forall|k: int|
                0 <= k < point_sets@.len() ==> (#[trigger] point_sets@[k]@).len() < usize::MAX,
    ;

    fn open(
        &self,
        transcript: &mut merlin::Transcript,
        evals: &Vec<Vec<Fr>>,
        polys: &Vec<Vec<Fr>>,
        point_set_index: usize,
    ) -> Result<Self::Proof, Error>
        requires
            self.wf(),
            polys@.len() <= self.poly_capacity(),
    ;

    fn verify(
        &self,
        transcript: &mut merlin::Transcript,
        commits: &Vec<Commitment>,
        point_set_index: usize,
        evals: &Vec<Vec<Fr>>,
        proof: &Self::Proof,
    ) -> Result<bool, Error>
        requires
            self.wf(),
    ;
}

/// A multi-proof scheme over caller-chosen point sets.
pub trait PolyMultiProofNoPrecomp: Sized {
    type Proof;

    spec fn wf(&self) -> bool;

    spec fn poly_capacity(&self) -> int;

    fn new(max_coeffs: usize, max_pts: Option<usize>) -> Result<Self, Error>
        requires
            max_coeffs < usize::MAX,
            max_pts matches Some(p) ==> p < usize::MAX,
    ;

    fn open(
        &self,
        transcript: &mut merlin::Transcript,
        evals: &Vec<Vec<Fr>>,
        polys: &Vec<Vec<Fr>>,
        points: &Vec<Fr>,
    ) -> Result<Self::Proof, Error>
        requires
            self.wf(),
            polys@.len() <= self.poly_capacity(),
            points@.len() < usize::MAX,
    ;

    fn verify(
        &self,
        transcript: &mut merlin::Transcript,
        commits: &Vec<Commitment>,
        points: &Vec<Fr>,
        evals: &Vec<Vec<Fr>>,
        proof: &Self::Proof,
    ) -> Result<bool, Error>
        requires
            self.wf(),
            points@.len() < usize::MAX,
    ;
}

impl Committer for M1NoPrecomp {
    fn commit(&self, poly: &Vec<Fr>) -> Result<Commitment, Error> {
        M1NoPrecomp::commit(self, poly)
    }
}

impl Committer for M1Precomp {
    fn commit(&self, poly: &Vec<Fr>) -> Result<Commitment, Error> {
        M1NoPrecomp::commit(&self.inner, poly)
    }
}

impl Committer for Setup {
    fn commit(&self, poly: &Vec<Fr>) -> Result<Commitment, Error> {
        Setup::commit(self, poly)
    }
}

impl PolyMultiProofNoPrecomp for M1NoPrecomp {
    type Proof = crate::method1::Proof;

    open spec fn wf(&self) -> bool {
        true
    }

    open spec fn poly_capacity(&self) -> int {
        self.powers_of_g1@.len() as int
    }

    fn new(max_coeffs: usize, max_pts: Option<usize>) -> Result<Self, Error> {
        M1NoPrecomp::new(max_coeffs, max_pts)
    }

    fn open(
        &self,
        transcript: &mut merlin::Transcript,
        evals: &Vec<Vec<Fr>>,
        polys: &Vec<Vec<Fr>>,
        points: &Vec<Fr>,
    ) -> Result<crate::method1::Proof, Error> {
        M1NoPrecomp::open(self, transcript, evals, polys, points)
    }

    fn verify(
        &self,
        transcript: &mut merlin::Transcript,
        commits: &Vec<Commitment>,
        points: &Vec<Fr>,
        evals: &Vec<Vec<Fr>>,
        proof: &crate::method1::Proof,
    ) -> Result<bool, Error> {
        M1NoPrecomp::verify(self, transcript, commits, points, evals, proof)
    }
}

impl PolyMultiProof for M1Precomp {
    type Proof = crate::method1::Proof;

    open spec fn wf(&self) -> bool {
        M1Precomp::wf(self)
    }

    open spec fn poly_capacity(&self) -> int {
        self.inner.powers_of_g1@.len() as int
    }

    fn new(max_coeffs: usize, point_sets: Vec<Vec<Fr>>) -> Result<Self, Error> {
        M1Precomp::new(max_coeffs, point_sets)
    }

    fn open(
        &self,
        transcript: &mut merlin::Transcript,
        evals: &Vec<Vec<Fr>>,
        polys: &Vec<Vec<Fr>>,
        point_set_index: usize,
    ) -> Result<crate::method1::Proof, Error> {
        M1Precomp::open(self, transcript, evals, polys, point_set_index)
    }

    fn verify(
        &self,
        transcript: &mut merlin::Transcript,
        commits: &Vec<Commitment>,
        point_set_index: usize,
        evals: &Vec<Vec<Fr>>,
        proof: &crate::method1::Proof,
    ) -> Result<bool, Error> {
        M1Precomp::verify(self, transcript, commits, point_set_index, evals, proof)
    }
}

} // verus!
