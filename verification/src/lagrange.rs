//! The Lagrange interpolation context: per-point numerator polynomials
//! and inverse denominators, precomputed from a point set, and the
//! combined interpolation of many evaluation rows under one set of
//! scalars.

use vstd::prelude::*;

use crate::curve::{
    fr_add, fr_inverse, fr_mul, fr_ord, fr_sub, fr_val, lemma_vals2_push, lemma_vals_push,
    lemma_vals_update, vals, vals2, Fr,
};
use crate::kernel::{fr_zero, vanishing_polynomial};
use crate::model::{
    at0, cong, eval_at, in_range, lc_coeff, lemma_cong_add, lemma_cong_eq, lemma_cong_mod,
    lemma_cong_mod_eq, lemma_cong_mul, lemma_cong_refl, lemma_cong_sym, lemma_cong_trans,
    lemma_eval_affine, prod_eval,
};
use crate::Error;

verus! {

/// Well-formedness of the cached tables: each numerator evaluates as the
/// product of `(z - s_j)` over the other points, and each stored scalar
/// is the inverse of that product taken at the point itself.
pub open spec fn lag_wf(pts: Seq<int>, nums: Seq<Seq<int>>, ds: Seq<int>) -> bool {
    &&& nums.len() == pts.len()
    &&& ds.len() == pts.len()
    &&& forall|k: int| 0 <= k < pts.len() ==> (#[trigger] nums[k]).len() == pts.len()
    &&& forall|k: int| 0 <= k < pts.len() ==> in_range(#[trigger] nums[k])
    &&& forall|k: int, z: int|
        0 <= k < pts.len() ==> cong(#[trigger] eval_at(nums[k], z), prod_eval(pts.remove(k), z))
    &&& forall|k: int| 0 <= k < pts.len() ==> 0 <= #[trigger] ds[k] < fr_ord()
    &&& forall|k: int|
        0 <= k < pts.len() ==> (#[trigger] ds[k] * prod_eval(pts.remove(k), pts[k])) % fr_ord()
            == 1
}

/// The exact value at `z` of `sum_{j < k} (col_j * d_j) * N_j`, where
/// `col_j` is the scalar combination of column `j` of the evaluation
/// rows and `N_j` the numerator product over the other points.
pub open spec fn interp_sum(
    pts: Seq<int>,
    ds: Seq<int>,
    evs: Seq<Seq<int>>,
    ss: Seq<int>,
    k: int,
    z: int,
) -> int
    decreases k,
{
    if k <= 0 {
        0
    } else {
        interp_sum(pts, ds, evs, ss, k - 1, z) + (lc_coeff(evs, ss, evs.len() as int, k - 1)
            * ds[k - 1]) * prod_eval(pts.remove(k - 1), z)
    }
}

/// Precomputed barycentric data over a fixed point set.
pub struct LagrangeInterpContext {
    pub points: Vec<Fr>,
    pub numerators: Vec<Vec<Fr>>,
    pub inv_denoms: Vec<Fr>,
}

impl LagrangeInterpContext {
    pub open spec fn wf(&self) -> bool {
        lag_wf(vals(self.points@), vals2(self.numerators@), vals(self.inv_denoms@))
    }

    /// Builds the context.  Fails with `DivisorIsZero` exactly when some
    /// denominator product vanishes (which cannot happen for distinct
    /// points).
    #[verifier::rlimit(100)]
    pub fn new_from_points(points: &Vec<Fr>) -> (res: Result<LagrangeInterpContext, Error>)
        requires
            points@.len() < usize::MAX,
        ensures
            res matches Ok(ctx) ==> ctx.points@ == points@ && ctx.wf(),
            res matches Err(e) ==> e == Error::DivisorIsZero,
            res.is_ok() <==> (forall|k: int|
                0 <= k < points@.len() ==> prod_eval(
                    vals(points@).remove(k),
                    #[trigger] vals(points@)[k],
                ) % fr_ord() != 0),
    {
        let m = points.len();
        let mut numerators: Vec<Vec<Fr>> = Vec::new();
        let mut inv_denoms: Vec<Fr> = Vec::new();
        let ghost ptsv = vals(points@);
        let mut k: usize = 0;
        while k < m
            invariant
                k <= m,
                m == points@.len(),
                m < usize::MAX,
                ptsv == vals(points@),
                numerators@.len() == k,
                inv_denoms@.len() == k,
                forall|j: int|
                    0 <= j < k ==> (#[trigger] vals2(numerators@)[j]).len() == m,
                forall|j: int| 0 <= j < k ==> in_range(#[trigger] vals2(numerators@)[j]),
                forall|j: int, z: int|
                    0 <= j < k ==> cong(
                        #[trigger] eval_at(vals2(numerators@)[j], z),
                        prod_eval(ptsv.remove(j), z),
                    ),
                forall|j: int|
                    0 <= j < k ==> 0 <= #[trigger] vals(inv_denoms@)[j] < fr_ord(),
                forall|j: int|
                    0 <= j < k ==> (#[trigger] vals(inv_denoms@)[j] * prod_eval(
                        ptsv.remove(j),
                        ptsv[j],
                    )) % fr_ord() == 1,
                forall|j: int|
                    0 <= j < k ==> prod_eval(ptsv.remove(j), #[trigger] ptsv[j]) % fr_ord() != 0,
            decreases m - k,
        {
            // the other points, in order
            let mut pw: Vec<Fr> = Vec::new();
            let mut j: usize = 0;
            while j < m
                invariant
                    j <= m,
                    k < m,
                    m == points@.len(),
                    ptsv == vals(points@),
                    j <= k ==> vals(pw@) == ptsv.take(j as int),
                    j > k ==> vals(pw@) == ptsv.take(j as int).remove(k as int),
                decreases m - j,
            {
                if j != k {
                    let ghost pre = pw@;
                    let pj = points[j];
                    pw.push(pj);
                    proof {
                        lemma_vals_push(pre, pj);
                        if j < k {
                            assert(vals(pw@) =~= ptsv.take(j as int + 1));
                        } else {
                            assert(vals(pw@) =~= ptsv.take(j as int + 1).remove(k as int));
                        }
                    }
                } else {
                    proof {
                        assert(ptsv.take(k as int + 1).remove(k as int) =~= ptsv.take(k as int));
                    }
                }
                j = j + 1;
            }
            proof {
                assert(ptsv.take(m as int) =~= ptsv);
                assert(vals(pw@) == ptsv.remove(k as int));
            }
            let num = vanishing_polynomial(&pw);
            // the denominator: the numerator product taken at the point
            let mut acc = Fr::from_u64(1);
            let sk = points[k];
            proof {
                assert(vals(pw@).take(0) =~= Seq::<int>::empty());
                lemma_cong_refl(1);
            }
            let mut t: usize = 0;
            while t < pw.len()
                invariant
                    t <= pw@.len(),
                    k < m,
                    m == points@.len(),
                    ptsv == vals(points@),
                    sk == points@[k as int],
                    0 <= fr_val(acc) < fr_ord(),
                    cong(fr_val(acc), prod_eval(vals(pw@).take(t as int), fr_val(sk))),
                decreases pw@.len() - t,
            {
                let diff = fr_sub(&sk, &pw[t]);
                let nacc = fr_mul(&acc, &diff);
                proof {
                    let skv = fr_val(sk);
                    let root = vals(pw@)[t as int];
                    let p = prod_eval(vals(pw@).take(t as int), skv);
                    assert(vals(pw@).take(t as int + 1).drop_last() =~= vals(pw@).take(t as int));
                    assert(vals(pw@).take(t as int + 1).last() == root);
                    lemma_cong_mod(skv - root);
                    lemma_cong_mul(fr_val(acc), p, fr_val(diff), skv - root);
                    lemma_cong_mod(fr_val(acc) * fr_val(diff));
                    lemma_cong_trans(
                        fr_val(nacc),
                        fr_val(acc) * fr_val(diff),
                        p * (skv - root),
                    );
                    lemma_cong_eq(
                        fr_val(nacc),
                        p * (skv - root),
                        prod_eval(vals(pw@).take(t as int + 1), skv),
                    );
                }
                acc = nacc;
                t = t + 1;
            }
            proof {
                assert(vals(pw@).take(pw@.len() as int) =~= vals(pw@));
            }
            let d = match fr_inverse(&acc) {
                Some(v) => v,
                None => {
                    proof {
                        let kk = k as int;
                        assert(cong(0, prod_eval(ptsv.remove(kk), ptsv[kk])));
                        lemma_cong_mod_eq(0, prod_eval(ptsv.remove(kk), ptsv[kk]));
                        vstd::arithmetic::div_mod::lemma_small_mod(0nat, fr_ord() as nat);
                        assert(prod_eval(ptsv.remove(kk), ptsv[kk]) % fr_ord() == 0);
                    }
                    return Err(Error::DivisorIsZero);
                },
            };
            proof {
                // the stored scalar inverts the exact denominator product
                let kk = k as int;
                let pr = prod_eval(ptsv.remove(kk), ptsv[kk]);
                lemma_cong_refl(fr_val(d));
                lemma_cong_mul(fr_val(d), fr_val(d), fr_val(acc), pr);
                lemma_cong_mod_eq(fr_val(d) * fr_val(acc), fr_val(d) * pr);
                assert((fr_val(d) * fr_val(acc)) % fr_ord() == 1) by {
                    assert((fr_val(d) * fr_val(acc)) == (fr_val(d) * fr_val(acc)));
                };
                assert((fr_val(d) * pr) % fr_ord() == 1);
                // and that product is non-zero modulo the order
                assert(pr % fr_ord() != 0) by {
                    if pr % fr_ord() == 0 {
                        lemma_cong_mod(pr);
                        lemma_cong_sym(pr % fr_ord(), pr);
                        lemma_cong_mod_eq(fr_val(acc), pr);
                        vstd::arithmetic::div_mod::lemma_small_mod(
                            fr_val(acc) as nat,
                            fr_ord() as nat,
                        );
                        vstd::arithmetic::div_mod::lemma_small_mod(0nat, fr_ord() as nat);
                        assert(fr_val(acc) == 0);
                        assert(false);
                    }
                };
            }
            let ghost nums_pre = numerators@;
            let ghost ds_pre = inv_denoms@;
            numerators.push(num);
            inv_denoms.push(d);
            proof {
                lemma_vals2_push(nums_pre, num);
                lemma_vals_push(ds_pre, d);
            }
            k = k + 1;
        }
        proof {
            assert(lag_wf(ptsv, vals2(numerators@), vals(inv_denoms@)));
        }
        Ok(LagrangeInterpContext { points: clone_points(points), numerators, inv_denoms })
    }

    /// Interpolates `sum_j ss[j] * r_j(X)` from the evaluation rows in
    /// one pass over the point set.  Fails with `NoPolynomialsGiven` for
    /// an empty table and `EvalsIncorrectSize` for a row whose length is
    /// not the point-set size.
    #[verifier::rlimit(100)]
    pub fn lagrange_interp_linear_combo(
        &self,
        evals: &Vec<Vec<Fr>>,
        scalars: &Vec<Fr>,
    ) -> (res: Result<Vec<Fr>, Error>)
        requires
            self.wf(),
            evals@.len() <= scalars@.len(),
        ensures
            res.is_ok() <==> (evals@.len() > 0 && forall|i: int|
                0 <= i < evals@.len() ==> (#[trigger] evals@[i]@).len() == self.points@.len()),
            res matches Err(e) ==> (e == Error::NoPolynomialsGiven && evals@.len() == 0) || (
            exists|i: int|
                0 <= i < evals@.len() && e == (Error::EvalsIncorrectSize {
                    expected: self.points@.len() as usize,
                    got: (#[trigger] evals@[i]@).len() as usize,
                }) && evals@[i]@.len() != self.points@.len()),
            res matches Ok(out) ==> {
                &&& out@.len() == self.points@.len()
                &&& in_range(vals(out@))
                &&& forall|z: int|
                    cong(
                        #[trigger] eval_at(vals(out@), z),
                        interp_sum(
                            vals(self.points@),
                            vals(self.inv_denoms@),
                            vals2(evals@),
                            vals(scalars@),
                            self.points@.len() as int,
                            z,
                        ),
                    )
            },
    {
        if evals.len() == 0 {
            return Err(Error::NoPolynomialsGiven);
        }
        let m = self.points.len();
        let mut i: usize = 0;
        while i < evals.len()
            invariant
                i <= evals@.len(),
                m == self.points@.len(),
                forall|j: int| 0 <= j < i ==> (#[trigger] evals@[j]@).len() == m,
            decreases evals@.len() - i,
        {
            if evals[i].len() != m {
                return Err(Error::EvalsIncorrectSize { expected: m, got: evals[i].len() });
            }
            i = i + 1;
        }
        let ghost ptsv = vals(self.points@);
        let ghost dsv = vals(self.inv_denoms@);
        let ghost evs = vals2(evals@);
        let ghost sv = vals(scalars@);
        let mut out: Vec<Fr> = Vec::new();
        let mut u: usize = 0;
        while u < m
            invariant
                u as int == out@.len(),
                u <= m,
                forall|t: int| 0 <= t < u ==> vals(out@)[t] == 0,
            decreases m - u,
        {
            let ghost pre = out@;
            let z0 = fr_zero();
            out.push(z0);
            proof {
                lemma_vals_push(pre, z0);
            }
            u = u + 1;
        }
        proof {
            assert forall|z: int| cong(
                #[trigger] eval_at(vals(out@), z),
                interp_sum(ptsv, dsv, evs, sv, 0, z),
            ) by {
                crate::model::lemma_eval_trailing_zeros(vals(out@), 0, z);
                assert(vals(out@).take(0) =~= Seq::<int>::empty());
                lemma_cong_refl(0);
            }
        }
        let t = evals.len();
        let mut k: usize = 0;
        while k < m
            invariant
                k <= m,
                m == self.points@.len(),
                t == evals@.len(),
                t <= scalars@.len(),
                t > 0,
                self.wf(),
                ptsv == vals(self.points@),
                dsv == vals(self.inv_denoms@),
                evs == vals2(evals@),
                sv == vals(scalars@),
                forall|j: int| 0 <= j < t ==> (#[trigger] evals@[j]@).len() == m,
                out@.len() == m,
                in_range(vals(out@)),
                forall|z: int|
                    cong(
                        #[trigger] eval_at(vals(out@), z),
                        interp_sum(ptsv, dsv, evs, sv, k as int, z),
                    ),
            decreases m - k,
        {
            // scalar combination of column k of the rows
            let mut ck = fr_zero();
            proof {
                lemma_cong_refl(0);
            }
            let mut i2: usize = 0;
            while i2 < t
                invariant
                    i2 <= t,
                    t == evals@.len(),
                    t <= scalars@.len(),
                    k < m,
                    evs == vals2(evals@),
                    sv == vals(scalars@),
                    forall|j: int| 0 <= j < t ==> (#[trigger] evals@[j]@).len() == m,
                    0 <= fr_val(ck) < fr_ord(),
                    cong(fr_val(ck), lc_coeff(evs, sv, i2 as int, k as int)),
                decreases t - i2,
            {
                let term = fr_mul(&scalars[i2], &evals[i2][k]);
                let nck = fr_add(&ck, &term);
                proof {
                    let sc = sv[i2 as int];
                    let pc = evs[i2 as int][k as int];
                    assert(sc == fr_val(scalars@[i2 as int]));
                    assert(pc == fr_val(evals@[i2 as int]@[k as int]));
                    assert(at0(evs[i2 as int], k as int) == pc);
                    lemma_cong_mod(sc * pc);
                    lemma_cong_add(fr_val(ck), lc_coeff(evs, sv, i2 as int, k as int),
                        fr_val(term), sc * pc);
                    lemma_cong_mod(fr_val(ck) + fr_val(term));
                    lemma_cong_trans(
                        fr_val(nck),
                        fr_val(ck) + fr_val(term),
                        lc_coeff(evs, sv, i2 as int, k as int) + sc * pc,
                    );
                    lemma_cong_eq(
                        fr_val(nck),
                        lc_coeff(evs, sv, i2 as int, k as int) + sc * pc,
                        lc_coeff(evs, sv, i2 as int + 1, k as int),
                    );
                }
                ck = nck;
                i2 = i2 + 1;
            }
            let tk = fr_mul(&ck, &self.inv_denoms[k]);
            // add tk times the numerator into the accumulator
            let ghost out_entry = vals(out@);
            let ghost numk = vals2(self.numerators@)[k as int];
            let ghost tkv = fr_val(tk);
            let mut p: usize = 0;
            while p < m
                invariant
                    p <= m,
                    k < m,
                    m == self.points@.len(),
                    self.wf(),
                    out@.len() == m,
                    out_entry.len() == m,
                    numk == vals2(self.numerators@)[k as int],
                    numk.len() == m,
                    tkv == fr_val(tk),
                    forall|q: int| p <= q < m ==> vals(out@)[q] == out_entry[q],
                    forall|q: int|
                        0 <= q < p ==> 0 <= #[trigger] vals(out@)[q] < fr_ord() && cong(
                            vals(out@)[q],
                            out_entry[q] + tkv * numk[q],
                        ),
                    forall|q: int| 0 <= q < m ==> 0 <= #[trigger] out_entry[q] < fr_ord(),
                decreases m - p,
            {
                let add_term = fr_mul(&tk, &self.numerators[k][p]);
                let ghost oldout = vals(out@);
                let ghost oldout_f = out@;
                let nv = fr_add(&out[p], &add_term);
                out[p] = nv;
                proof {
                    lemma_vals_update(oldout_f, p as int, nv);
                    assert(vals(out@) == oldout.update(p as int, fr_val(nv)));
                    let ov = oldout[p as int];
                    assert(ov == out_entry[p as int]);
                    let nk = numk[p as int];
                    assert(nk == fr_val(self.numerators@[k as int]@[p as int]));
                    lemma_cong_mod(tkv * nk);
                    lemma_cong_refl(ov);
                    lemma_cong_add(ov, ov, fr_val(add_term), tkv * nk);
                    lemma_cong_mod(ov + fr_val(add_term));
                    lemma_cong_trans(fr_val(nv), ov + fr_val(add_term), ov + tkv * nk);
                }
                p = p + 1;
            }
            proof {
                let kk = k as int;
                assert forall|z: int| cong(
                    #[trigger] eval_at(vals(out@), z),
                    interp_sum(ptsv, dsv, evs, sv, kk + 1, z),
                ) by {
                    lemma_eval_affine(vals(out@), out_entry, numk, tkv, z);
                    // tk is congruent to the column sum times the inverse
                    // denominator, and the numerator evaluates to the
                    // product over the other points.
                    let col = lc_coeff(evs, sv, t as int, kk);
                    let pr = prod_eval(ptsv.remove(kk), z);
                    assert(cong(fr_val(ck), col));
                    lemma_cong_mod(fr_val(ck) * fr_val(self.inv_denoms@[kk]));
                    lemma_cong_refl(dsv[kk]);
                    assert(dsv[kk] == fr_val(self.inv_denoms@[kk]));
                    lemma_cong_mul(fr_val(ck), col, dsv[kk], dsv[kk]);
                    lemma_cong_trans(
                        tkv,
                        fr_val(ck) * dsv[kk],
                        col * dsv[kk],
                    );
                    assert(cong(eval_at(numk, z), pr));
                    lemma_cong_mul(tkv, col * dsv[kk], eval_at(numk, z), pr);
                    let e_old = eval_at(out_entry, z);
                    lemma_cong_refl(e_old);
                    lemma_cong_add(
                        e_old,
                        e_old,
                        tkv * eval_at(numk, z),
                        (col * dsv[kk]) * pr,
                    );
                    lemma_cong_trans(
                        eval_at(vals(out@), z),
                        e_old + tkv * eval_at(numk, z),
                        e_old + (col * dsv[kk]) * pr,
                    );
                    assert(cong(e_old, interp_sum(ptsv, dsv, evs, sv, kk, z)));
                    lemma_cong_refl((col * dsv[kk]) * pr);
                    lemma_cong_add(
                        e_old,
                        interp_sum(ptsv, dsv, evs, sv, kk, z),
                        (col * dsv[kk]) * pr,
                        (col * dsv[kk]) * pr,
                    );
                    lemma_cong_trans(
                        eval_at(vals(out@), z),
                        e_old + (col * dsv[kk]) * pr,
                        interp_sum(ptsv, dsv, evs, sv, kk, z) + (col * dsv[kk]) * pr,
                    );
                    lemma_cong_eq(
                        eval_at(vals(out@), z),
                        interp_sum(ptsv, dsv, evs, sv, kk, z) + (col * dsv[kk]) * pr,
                        interp_sum(ptsv, dsv, evs, sv, kk + 1, z),
                    );
                }
            }
            k = k + 1;
        }
        Ok(out)
    }
}

/// An element-by-element copy of a point vector.
fn clone_points(points: &Vec<Fr>) -> (r: Vec<Fr>)
    ensures
        r@ == points@,
{
    let mut out: Vec<Fr> = Vec::new();
    let mut i: usize = 0;
    while i < points.len()
        invariant
            i as int == out@.len(),
            i <= points@.len(),
            forall|j: int| 0 <= j < i ==> out@[j] == points@[j],
        decreases points@.len() - i,
    {
        out.push(points[i]);
        i = i + 1;
    }
    proof {
        assert(out@ =~= points@);
    }
    out
}

} // verus!
