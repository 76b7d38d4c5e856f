//! A polynomial multi-proof engine over the BLS12-381 pairing curve.
//!
//! A prover commits to many univariate polynomials over the scalar field,
//! opens them all at a shared set of evaluation points, and produces one
//! short proof that a verifier checks with a constant number of pairings.
//! Two proof schemes share a KZG-style setup: `method1` (one-point proofs,
//! with a precomputed variant in `precompute`) and `method2` (two-point
//! proofs with an extra transcript challenge).

use vstd::prelude::*;

pub mod curve;
pub mod kernel;
pub mod lagrange;
pub mod method1;
pub mod method2;
pub mod model;
pub mod precompute;
pub mod traits;
pub mod transcript;

use crate::curve::G1Affine;

verus! {

/// A terminal outcome of one call into the engine.
///
/// Input-validation failures are returned as errors; a cryptographic
/// mismatch during verification is a successful return of `false`.
#[derive(Clone, Copy, Debug, PartialEq, Eq, Structural)]
pub enum Error {
    /// A polynomial has more coefficients than the setup supports.
    PolynomialTooLarge { n_coeffs: usize, expected_max: usize },
    /// An evaluation row whose length differs from the point-set size.
    EvalsIncorrectSize { expected: usize, got: usize },
    /// An empty polynomial or evaluation list was supplied.
    NoPolynomialsGiven,
    /// The divisor handed to polynomial division is the zero polynomial.
    DivisorIsZero,
    /// Adapting a setup into `method2` form with fewer than two G2 powers.
    NotEnoughG2Powers,
    /// A precompute point-set index out of range.
    NoSuchPointSet(usize),
    /// The underlying transcript sponge signalled an error on append.
    TranscriptError,
    /// Canonical encoding of a field or group element failed.
    SerializationError,
}

/// A KZG-style commitment: a single affine G1 point equal to the
/// multi-scalar multiplication of the setup powers by the coefficients.
pub struct Commitment(pub G1Affine);

impl Clone for Commitment {
    fn clone(&self) -> (r: Self)
        ensures
            r == *self,
    {
        *self
    }
}

impl Copy for Commitment {

}

} // verus!
