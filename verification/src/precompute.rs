//! The precomputed Method-1 variant: a fixed family of point sets, each
//! with its interpolation context and the G2 image of its vanishing
//! polynomial, so that repeated openings and verifications skip the
//! expensive per-set work.

use vstd::prelude::*;

use crate::curve::{
    fr_ord, g1a_dlog, g2_dlog, g2_dot, g2_msm, vals, vals2, Fr, G2Affine, G2Projective,
};
use crate::kernel::vanishing_polynomial;
use crate::lagrange::LagrangeInterpContext;
use crate::method1::{
    m1_open_conforms, m1_verify_conforms, commit_points, M1NoPrecomp, Proof,
};
use crate::model::{is_vanishing_of, max_poly_len, prod_eval};
use crate::{Commitment, Error};

verus! {

/// The cached G2 point is the image of a vanishing polynomial of the
/// point set under the setup's G2 powers.
pub open spec fn g2z_matches(g2s: Seq<G2Affine>, pts: Seq<int>, gz: G2Projective) -> bool {
    exists|zv: Seq<int>| #[trigger] is_vanishing_of(zv, pts) && g2_dlog(gz) == g2_dot(g2s, zv)
}

/// Method-1 with per-point-set precomputation.
pub struct M1Precomp {
    pub inner: M1NoPrecomp,
    pub point_sets: Vec<Vec<Fr>>,
    pub lag_ctxs: Vec<LagrangeInterpContext>,
    pub g2_zeros: Vec<G2Projective>,
}

impl M1Precomp {
    /// The cached tables match the registered point sets.
    pub open spec fn wf(&self) -> bool {
        &&& self.lag_ctxs@.len() == self.point_sets@.len()
        &&& self.g2_zeros@.len() == self.point_sets@.len()
        &&& self.inner.powers_of_g2@.len() > 0
        &&& forall|k: int|
            0 <= k < self.point_sets@.len() ==> (#[trigger] self.lag_ctxs@[k]).wf()
                && self.lag_ctxs@[k].points@ == self.point_sets@[k]@
        &&& forall|k: int|
            0 <= k < self.point_sets@.len() ==> (#[trigger] self.point_sets@[k]@).len()
                < usize::MAX
        &&& forall|k: int|
            0 <= k < self.point_sets@.len() ==> g2z_matches(
                self.inner.powers_of_g2@,
                vals(self.point_sets@[k]@),
                #[trigger] self.g2_zeros@[k],
            )
    }

    /// Builds the precompute table over a base setup sized to the
    /// largest registered point set.
    pub fn new(max_coeffs: usize, point_sets: Vec<Vec<Fr>>) -> (res: Result<M1Precomp, Error>)
        requires
            max_coeffs < usize::MAX,
            forall|k: int|
                0 <= k < point_sets@.len() ==> (#[trigger] point_sets@[k]@).len() < usize::MAX,
        ensures
            res matches Ok(s) ==> s.wf() && s.point_sets@ == point_sets@
                && s.inner.powers_of_g1@.len() == max_coeffs,
            res matches Err(e) ==> e == Error::DivisorIsZero || (e matches
                Error::PolynomialTooLarge { n_coeffs, expected_max }),
    {
        let mut max_pts: usize = 0;
        let mut i: usize = 0;
        while i < point_sets.len()
            invariant
                i <= point_sets@.len(),
                forall|k: int|
                    0 <= k < point_sets@.len() ==> (#[trigger] point_sets@[k]@).len()
                        < usize::MAX,
                max_pts < usize::MAX,
            decreases point_sets@.len() - i,
        {
            if point_sets[i].len() > max_pts {
                max_pts = point_sets[i].len();
            }
            i = i + 1;
        }
        let inner = match M1NoPrecomp::new(max_coeffs, Some(max_pts)) {
            Ok(s) => s,
            Err(e) => {
                return Err(e);
            },
        };
        let mut lag_ctxs: Vec<LagrangeInterpContext> = Vec::new();
        let mut g2_zeros: Vec<G2Projective> = Vec::new();
        let mut k: usize = 0;
        while k < point_sets.len()
            invariant
                k <= point_sets@.len(),
                lag_ctxs@.len() == k,
                g2_zeros@.len() == k,
                inner.powers_of_g2@.len() > 0,
                forall|j: int|
                    0 <= j < point_sets@.len() ==> (#[trigger] point_sets@[j]@).len()
                        < usize::MAX,
                forall|j: int|
                    0 <= j < k ==> (#[trigger] lag_ctxs@[j]).wf() && lag_ctxs@[j].points@
                        == point_sets@[j]@,
                forall|j: int|
                    0 <= j < k ==> g2z_matches(
                        inner.powers_of_g2@,
                        vals(point_sets@[j]@),
                        #[trigger] g2_zeros@[j],
                    ),
            decreases point_sets@.len() - k,
        {
            let ctx = match LagrangeInterpContext::new_from_points(&point_sets[k]) {
                Ok(c) => c,
                Err(e) => {
                    return Err(e);
                },
            };
            let vp = vanishing_polynomial(&point_sets[k]);
            if vp.len() > inner.powers_of_g2.len() {
                return Err(Error::PolynomialTooLarge {
                    n_coeffs: vp.len(),
                    expected_max: inner.powers_of_g2.len(),
                });
            }
            let gz = g2_msm(&inner.powers_of_g2, &vp);
            proof {
                assert(is_vanishing_of(vals(vp@), vals(point_sets@[k as int]@)) && g2_dlog(gz)
                    == g2_dot(inner.powers_of_g2@, vals(vp@)));
            }
            let ghost lags_pre = lag_ctxs@;
            let ghost gzs_pre = g2_zeros@;
            lag_ctxs.push(ctx);
            g2_zeros.push(gz);
            proof {
                assert forall|j: int| 0 <= j < k + 1 implies (#[trigger] lag_ctxs@[j]).wf()
                    && lag_ctxs@[j].points@ == point_sets@[j]@ by {
                    if j < k {
                        assert(lag_ctxs@[j] == lags_pre[j]);
                    } else {
                        assert(lag_ctxs@[j] == ctx);
                    }
                }
                assert forall|j: int| 0 <= j < k + 1 implies g2z_matches(
                    inner.powers_of_g2@,
                    vals(point_sets@[j]@),
                    #[trigger] g2_zeros@[j],
                ) by {
                    if j < k {
                        assert(g2_zeros@[j] == gzs_pre[j]);
                    } else {
                        assert(g2_zeros@[j] == gz);
                        assert(g2z_matches(inner.powers_of_g2@, vals(point_sets@[j]@), gz));
                    }
                }
            }
            k = k + 1;
        }
        proof {
            assert(lag_ctxs@.len() == point_sets@.len());
        }
        Ok(M1Precomp { inner, point_sets, lag_ctxs, g2_zeros })
    }

    /// Opens at the registered point set with the given index.  Fails
    /// with `NoSuchPointSet` exactly when the index is out of range.
    pub fn open(
        &self,
        transcript: &mut merlin::Transcript,
        evals: &Vec<Vec<Fr>>,
        polys: &Vec<Vec<Fr>>,
        point_set_index: usize,
    ) -> (res: Result<Proof, Error>)
        requires
            self.wf(),
            polys@.len() <= self.inner.powers_of_g1@.len(),
        ensures
            point_set_index >= self.point_sets@.len() ==> res == Result::<Proof, Error>::Err(
                Error::NoSuchPointSet(point_set_index),
            ),
            res matches Ok(pf) ==> point_set_index < self.point_sets@.len()
                && m1_open_conforms(
                self.inner.powers_of_g1@,
                vals2(polys@),
                vals(self.point_sets@[point_set_index as int]@),
                g1a_dlog(pf.0),
            ),
            point_set_index < self.point_sets@.len() ==> (res.is_ok() <==> ((forall|i: int|
                0 <= i < evals@.len() ==> (#[trigger] evals@[i]@).len()
                    == self.point_sets@[point_set_index as int]@.len()) && polys@.len() > 0 && (
            if max_poly_len(vals2(polys@)) > self.point_sets@[point_set_index as int]@.len() {
                max_poly_len(vals2(polys@)) - self.point_sets@[point_set_index as int]@.len()
            } else {
                0
            }) <= self.inner.powers_of_g1@.len())),
    {
        if point_set_index >= self.point_sets.len() {
            return Err(Error::NoSuchPointSet(point_set_index));
        }
        let points = &self.point_sets[point_set_index];
        let vp = vanishing_polynomial(points);
        self.inner.open_with_vanishing_poly(transcript, evals, polys, points, &vp)
    }

    /// Verifies against the cached context and G2 image for the point
    /// set with the given index.
    pub fn verify(
        &self,
        transcript: &mut merlin::Transcript,
        commits: &Vec<Commitment>,
        point_set_index: usize,
        evals: &Vec<Vec<Fr>>,
        proof: &Proof,
    ) -> (res: Result<bool, Error>)
        requires
            self.wf(),
        ensures
            point_set_index >= self.point_sets@.len() ==> res == Result::<bool, Error>::Err(
                Error::NoSuchPointSet(point_set_index),
            ),
            res matches Ok(b) ==> point_set_index < self.point_sets@.len()
                && m1_verify_conforms(
                self.inner.powers_of_g1@,
                self.inner.powers_of_g2@,
                commit_points(commits@),
                vals(self.point_sets@[point_set_index as int]@),
                vals2(evals@),
                g1a_dlog(proof.0),
                b,
            ),
            point_set_index < self.point_sets@.len() ==> (res.is_ok() <==> ((forall|i: int|
                0 <= i < evals@.len() ==> (#[trigger] evals@[i]@).len()
                    == self.point_sets@[point_set_index as int]@.len()) && evals@.len() > 0
                && self.point_sets@[point_set_index as int]@.len()
                <= self.inner.powers_of_g1@.len() && evals@.len() <= commits@.len())),
    {
        if point_set_index >= self.point_sets.len() {
            return Err(Error::NoSuchPointSet(point_set_index));
        }
        let points = &self.point_sets[point_set_index];
        self.inner.verify_with_lag_ctx_g2_zeros(
            transcript,
            commits,
            points,
            evals,
            proof,
            &self.lag_ctxs[point_set_index],
            &self.g2_zeros[point_set_index],
        )
    }
}

} // verus!
