//! The single-pairing scheme: a proof is one G1 element, the commitment
//! to the quotient of the gamma-combination of the polynomials by the
//! vanishing polynomial of the point set.

use vstd::prelude::*;

use vstd::arithmetic::power::pow;

use crate::curve::{
    fr_ord, fr_val, g1_dot, g1_from_affine, g1_generator, g1_msm, g1_sub, g1_to_affine,
    g1a_dlog, g2_affine_mul, g2_dot, g2_from_affine, g2_generator, g2_msm, g2_to_affine,
    g2a_dlog, g2_dlog, g1_affine_mul, pairing_eq, vals, vals2, Fr, G1Affine, G2Affine,
    G2Projective,
};
use crate::kernel::{gen_powers, linear_combination, poly_div_q_r, vanishing_polynomial};
use crate::lagrange::{interp_sum, LagrangeInterpContext};
use crate::model::lemma_max_poly_len_ge;
use crate::model::{
    cong, eval_at, is_vanishing_of, lc_coeff, lemma_cong_refl, lemma_cong_trans,
    lemma_lc_coeff_prefix, lemma_poly_deg_char, max_poly_len, prod_eval,
};
use crate::transcript::{get_challenge, transcribe_points_and_evals};
use crate::{Commitment, Error};

verus! {

/// The sequence `[1, gamma, gamma^2, ...]` of length `n`, reduced.
pub open spec fn gamma_powers(gamma: int, n: nat) -> Seq<int> {
    Seq::new(n, |i: int| pow(gamma, i as nat) % fr_ord())
}

/// Both power tables are generated from one secret scalar.
pub open spec fn powers_of(x: int, g1s: Seq<G1Affine>, g2s: Seq<G2Affine>) -> bool {
    &&& forall|i: int|
        0 <= i < g1s.len() ==> g1a_dlog(#[trigger] g1s[i]) == pow(x, i as nat) % fr_ord()
    &&& forall|i: int|
        0 <= i < g2s.len() ==> g2a_dlog(#[trigger] g2s[i]) == pow(x, i as nat) % fr_ord()
}

/// The setup invariant: some secret scalar generated both tables.
pub open spec fn powers_wf(g1s: Seq<G1Affine>, g2s: Seq<G2Affine>) -> bool {
    exists|x: int| 0 <= x < fr_ord() && #[trigger] powers_of(x, g1s, g2s)
}

/// The coefficient vector is, entry by entry, congruent to the
/// gamma-power combination of the polynomials.
pub open spec fn is_gamma_combo(polys: Seq<Seq<int>>, gamma: int, fv: Seq<int>) -> bool {
    &&& fv.len() == max_poly_len(polys)
    &&& forall|k: int|
        0 <= k < fv.len() ==> cong(
            #[trigger] fv[k],
            lc_coeff(polys, gamma_powers(gamma, polys.len() as nat), polys.len() as int, k),
        )
}

/// The pair `(qv, rv)` witnesses Euclidean division of `fv` by `zv`.
pub open spec fn is_quotient_rem(fv: Seq<int>, zv: Seq<int>, qv: Seq<int>, rv: Seq<int>) -> bool {
    &&& rv.len() < zv.len()
    &&& forall|z: int|
        cong(#[trigger] eval_at(fv, z), eval_at(qv, z) * eval_at(zv, z) + eval_at(rv, z))
}

/// What a Method-1 opening proof is: for some transcript challenge, the
/// multi-scalar combination of the setup powers with the quotient of the
/// gamma-combination by the vanishing polynomial.
pub open spec fn m1_open_witness(
    g1s: Seq<G1Affine>,
    polys: Seq<Seq<int>>,
    points: Seq<int>,
    gamma: int,
    fv: Seq<int>,
    zv: Seq<int>,
    qv: Seq<int>,
    rv: Seq<int>,
    w: int,
) -> bool {
    &&& 0 <= gamma < fr_ord()
    &&& is_gamma_combo(polys, gamma, fv)
    &&& is_vanishing_of(zv, points)
    &&& is_quotient_rem(fv, zv, qv, rv)
    &&& w == g1_dot(g1s, qv)
}

pub open spec fn m1_open_conforms(
    g1s: Seq<G1Affine>,
    polys: Seq<Seq<int>>,
    points: Seq<int>,
    w: int,
) -> bool {
    exists|gamma: int, fv: Seq<int>, zv: Seq<int>, qv: Seq<int>, rv: Seq<int>|
        #[trigger] m1_open_witness(g1s, polys, points, gamma, fv, zv, qv, rv, w)
}

/// What the Method-1 verdict is: the single pairing equation over the
/// discrete logarithms, for some transcript challenge, interpolation
/// result and vanishing polynomial.
pub open spec fn m1_verify_witness(
    g1s: Seq<G1Affine>,
    g2s: Seq<G2Affine>,
    cms: Seq<G1Affine>,
    points: Seq<int>,
    evalsv: Seq<Seq<int>>,
    pf: int,
    gamma: int,
    ds: Seq<int>,
    rv: Seq<int>,
    zv: Seq<int>,
    b: bool,
) -> bool {
    &&& 0 <= gamma < fr_ord()
    &&& ds.len() == points.len()
    &&& forall|k: int|
        0 <= k < points.len() ==> (#[trigger] ds[k] * prod_eval(points.remove(k), points[k]))
            % fr_ord() == 1
    &&& rv.len() == points.len()
    &&& forall|z: int|
        cong(
            #[trigger] eval_at(rv, z),
            interp_sum(
                points,
                ds,
                evalsv,
                gamma_powers(gamma, evalsv.len() as nat),
                points.len() as int,
                z,
            ),
        )
    &&& is_vanishing_of(zv, points)
    &&& g2s.len() > 0
    &&& b == {
        let lhs = (g1_dot(cms, gamma_powers(gamma, evalsv.len() as nat)) - g1_dot(g1s, rv))
            % fr_ord();
        (lhs * g2a_dlog(g2s[0])) % fr_ord() == (pf * g2_dot(g2s, zv)) % fr_ord()
    }
}

pub open spec fn m1_verify_conforms(
    g1s: Seq<G1Affine>,
    g2s: Seq<G2Affine>,
    cms: Seq<G1Affine>,
    points: Seq<int>,
    evalsv: Seq<Seq<int>>,
    pf: int,
    b: bool,
) -> bool {
    exists|gamma: int, ds: Seq<int>, rv: Seq<int>, zv: Seq<int>|
        #[trigger] m1_verify_witness(g1s, g2s, cms, points, evalsv, pf, gamma, ds, rv, zv, b)
}

/// The points committed to, one per commitment.
pub open spec fn commit_points(cms: Seq<Commitment>) -> Seq<G1Affine> {
    cms.map_values(|c: Commitment| c.0)
}

/// Against a well-formed power table, a multi-scalar combination is the
/// committed polynomial's value at the secret scalar: commitments are
/// evaluations in the exponent.
pub proof fn lemma_g1_dot_powers(x: int, g1s: Seq<G1Affine>, g2s: Seq<G2Affine>, svals: Seq<int>)
    requires
        powers_of(x, g1s, g2s),
        svals.len() <= g1s.len(),
    ensures
        cong(g1_dot(g1s, svals), eval_at(svals, x)),
    decreases svals.len(),
{
    if svals.len() == 0 {
        lemma_cong_refl(0);
    } else {
        let n = svals.len() - 1;
        lemma_g1_dot_powers(x, g1s, g2s, svals.drop_last());
        assert(svals =~= svals.drop_last().push(svals.last()));
        crate::model::lemma_eval_snoc(svals.drop_last(), svals.last(), x);
        let dlast = g1a_dlog(g1s[n as int]);
        crate::model::lemma_cong_mod(pow(x, n as nat));
        lemma_cong_refl(svals.last());
        crate::model::lemma_cong_mul(svals.last(), svals.last(), dlast, pow(x, n as nat));
        crate::model::lemma_cong_add(
            g1_dot(g1s, svals.drop_last()),
            eval_at(svals.drop_last(), x),
            svals.last() * dlast,
            svals.last() * pow(x, n as nat),
        );
        crate::model::lemma_cong_mod(g1_dot(g1s, svals.drop_last()) + svals.last() * dlast);
        lemma_cong_trans(
            g1_dot(g1s, svals),
            g1_dot(g1s, svals.drop_last()) + svals.last() * dlast,
            eval_at(svals.drop_last(), x) + svals.last() * pow(x, n as nat),
        );
    }
}

/// The same law on the G2 side: the cached image of a vanishing
/// polynomial is its value at the secret scalar in the exponent.
pub proof fn lemma_g2_dot_powers(x: int, g1s: Seq<G1Affine>, g2s: Seq<G2Affine>, svals: Seq<int>)
    requires
        powers_of(x, g1s, g2s),
        svals.len() <= g2s.len(),
    ensures
        cong(g2_dot(g2s, svals), eval_at(svals, x)),
    decreases svals.len(),
{
    if svals.len() == 0 {
        lemma_cong_refl(0);
    } else {
        let n = svals.len() - 1;
        lemma_g2_dot_powers(x, g1s, g2s, svals.drop_last());
        assert(svals =~= svals.drop_last().push(svals.last()));
        crate::model::lemma_eval_snoc(svals.drop_last(), svals.last(), x);
        let dlast = g2a_dlog(g2s[n as int]);
        crate::model::lemma_cong_mod(pow(x, n as nat));
        lemma_cong_refl(svals.last());
        crate::model::lemma_cong_mul(svals.last(), svals.last(), dlast, pow(x, n as nat));
        crate::model::lemma_cong_add(
            g2_dot(g2s, svals.drop_last()),
            eval_at(svals.drop_last(), x),
            svals.last() * dlast,
            svals.last() * pow(x, n as nat),
        );
        crate::model::lemma_cong_mod(g2_dot(g2s, svals.drop_last()) + svals.last() * dlast);
        lemma_cong_trans(
            g2_dot(g2s, svals),
            g2_dot(g2s, svals.drop_last()) + svals.last() * dlast,
            eval_at(svals.drop_last(), x) + svals.last() * pow(x, n as nat),
        );
    }
}

/// The exact value of `sum_{i < n} ss[i] * (value of ps[i] at x)`.
pub open spec fn sum_evals(ps: Seq<Seq<int>>, ss: Seq<int>, n: int, x: int) -> int
    decreases n,
{
    if n <= 0 {
        0
    } else {
        sum_evals(ps, ss, n - 1, x) + ss[n - 1] * eval_at(ps[n - 1], x)
    }
}

/// A combination of commitments is the combination of the committed
/// polynomials' values at the secret scalar, in the exponent.
pub proof fn lemma_cms_dot_evals(
    x: int,
    g1s: Seq<G1Affine>,
    g2s: Seq<G2Affine>,
    cms: Seq<G1Affine>,
    ps: Seq<Seq<int>>,
    ss: Seq<int>,
)
    requires
        powers_of(x, g1s, g2s),
        ss.len() <= cms.len(),
        cms.len() == ps.len(),
        forall|i: int| 0 <= i < cms.len() ==> g1a_dlog(#[trigger] cms[i]) == g1_dot(g1s, ps[i]),
        forall|i: int| 0 <= i < ps.len() ==> (#[trigger] ps[i]).len() <= g1s.len(),
    ensures
        cong(g1_dot(cms, ss), sum_evals(ps, ss, ss.len() as int, x)),
    decreases ss.len(),
{
    if ss.len() == 0 {
        lemma_cong_refl(0);
    } else {
        let n = ss.len() - 1;
        lemma_cms_dot_evals(x, g1s, g2s, cms, ps, ss.drop_last());
        lemma_g1_dot_powers(x, g1s, g2s, ps[n as int]);
        let dlast = g1a_dlog(cms[n as int]);
        // the last commitment is the last polynomial at the secret
        lemma_cong_refl(ss.last());
        crate::model::lemma_cong_mul(ss.last(), ss.last(), dlast, eval_at(ps[n as int], x));
        crate::model::lemma_cong_add(
            g1_dot(cms, ss.drop_last()),
            sum_evals(ps, ss.drop_last(), n as int, x),
            ss.last() * dlast,
            ss.last() * eval_at(ps[n as int], x),
        );
        crate::model::lemma_cong_mod(g1_dot(cms, ss.drop_last()) + ss.last() * dlast);
        assert(sum_evals(ps, ss.drop_last(), n as int, x) == sum_evals(ps, ss, n as int, x)) by {
            lemma_sum_evals_prefix(ps, ss.drop_last(), ss, n as int, x);
        };
        lemma_cong_trans(
            g1_dot(cms, ss),
            g1_dot(cms, ss.drop_last()) + ss.last() * dlast,
            sum_evals(ps, ss, n as int, x) + ss.last() * eval_at(ps[n as int], x),
        );
    }
}

/// The scaled-evaluation sum reads only the first `n` scalars.
pub proof fn lemma_sum_evals_prefix(ps: Seq<Seq<int>>, ss1: Seq<int>, ss2: Seq<int>, n: int, x: int)
    requires
        forall|i: int| 0 <= i < n ==> ss1[i] == ss2[i],
    ensures
        sum_evals(ps, ss1, n, x) == sum_evals(ps, ss2, n, x),
    decreases n,
{
    if n > 0 {
        lemma_sum_evals_prefix(ps, ss1, ss2, n - 1, x);
    }
}

/// The coefficient table of a partial scalar combination.
pub open spec fn lc_seq(ps: Seq<Seq<int>>, ss: Seq<int>, n: int, len: nat) -> Seq<int> {
    Seq::new(len, |k: int| lc_coeff(ps, ss, n, k))
}

/// Evaluating the combination's coefficients is combining the
/// polynomials' values.
pub proof fn lemma_lc_seq_eval(ps: Seq<Seq<int>>, ss: Seq<int>, n: int, len: nat, x: int)
    requires
        n >= 0,
        forall|i: int| 0 <= i < n ==> (#[trigger] ps[i]).len() <= len,
    ensures
        cong(eval_at(lc_seq(ps, ss, n, len), x), sum_evals(ps, ss, n, x)),
    decreases n,
{
    if n == 0 {
        crate::model::lemma_eval_trailing_zeros(lc_seq(ps, ss, 0, len), 0, x);
        assert(lc_seq(ps, ss, 0, len).take(0) =~= Seq::<int>::empty());
        lemma_cong_refl(0);
    } else {
        lemma_lc_seq_eval(ps, ss, n - 1, len, x);
        let c2 = lc_seq(ps, ss, n, len);
        let c1 = lc_seq(ps, ss, n - 1, len);
        let d = Seq::new(len, |k: int| crate::model::at0(ps[n - 1], k));
        assert forall|k: int| 0 <= k < len implies cong(
            #[trigger] c2[k],
            c1[k] + ss[n - 1] * d[k],
        ) by {
            assert(c2[k] == lc_coeff(ps, ss, n, k));
            assert(lc_coeff(ps, ss, n, k) == lc_coeff(ps, ss, n - 1, k) + ss[n - 1]
                * crate::model::at0(ps[n - 1], k));
            lemma_cong_refl(c2[k]);
        }
        crate::model::lemma_eval_affine(c2, c1, d, ss[n - 1], x);
        // the padded row evaluates as the row itself
        assert(d.take(ps[n - 1].len() as int) =~= ps[n - 1]);
        crate::model::lemma_eval_trailing_zeros(d, ps[n - 1].len() as int, x);
        let ep = eval_at(ps[n - 1], x);
        lemma_cong_refl(ss[n - 1] * ep);
        crate::model::lemma_cong_add(
            eval_at(c1, x),
            sum_evals(ps, ss, n - 1, x),
            ss[n - 1] * ep,
            ss[n - 1] * ep,
        );
        lemma_cong_trans(
            eval_at(c2, x),
            eval_at(c1, x) + ss[n - 1] * ep,
            sum_evals(ps, ss, n - 1, x) + ss[n - 1] * ep,
        );
    }
}

/// The gamma-combination's value at the secret scalar is the
/// gamma-weighted sum of the polynomials' values there.
pub proof fn lemma_gamma_combo_eval(polys: Seq<Seq<int>>, gamma: int, fv: Seq<int>, x: int)
    requires
        is_gamma_combo(polys, gamma, fv),
    ensures
        cong(
            eval_at(fv, x),
            sum_evals(polys, gamma_powers(gamma, polys.len() as nat), polys.len() as int, x),
        ),
{
    let n = polys.len() as int;
    let ss = gamma_powers(gamma, polys.len() as nat);
    let len = fv.len() as nat;
    let c1 = lc_seq(polys, ss, n, len);
    assert forall|i: int| 0 <= i < n implies (#[trigger] polys[i]).len() <= len by {
        crate::model::lemma_max_poly_len_ge(polys, i);
    }
    lemma_lc_seq_eval(polys, ss, n, len, x);
    assert forall|k: int| 0 <= k < len implies cong(#[trigger] fv[k], c1[k] + 0 * c1[k]) by {
        assert(c1[k] == lc_coeff(polys, ss, n, k));
        assert(0 * c1[k] == 0) by (nonlinear_arith);
    }
    crate::model::lemma_eval_affine(fv, c1, c1, 0, x);
    assert(0 * eval_at(c1, x) == 0) by (nonlinear_arith);
    lemma_cong_trans(eval_at(fv, x), eval_at(c1, x), sum_evals(polys, ss, n, x));
}

/// The heart of completeness and of algebraic soundness for Method-1:
/// for a well-formed setup, honest commitments, and a proof built as
/// `m1_open_witness` describes, the verifier's pairing equation accepts
/// exactly when the interpolated polynomial `iv` agrees with the
/// prover's division remainder at the secret scalar.  With honest
/// evaluation tables the remainder interpolates the tables, so the
/// verdict is `true`; a table that disagrees at the secret is rejected.
#[verifier::rlimit(100)]
pub proof fn lemma_m1_verdict(
    x: int,
    g1s: Seq<G1Affine>,
    g2s: Seq<G2Affine>,
    cms: Seq<G1Affine>,
    polys: Seq<Seq<int>>,
    points: Seq<int>,
    gamma: int,
    fv: Seq<int>,
    zv: Seq<int>,
    qv: Seq<int>,
    rv: Seq<int>,
    iv: Seq<int>,
    zv2: Seq<int>,
    w: int,
    b: bool,
)
    requires
        0 <= x < fr_ord(),
        powers_of(x, g1s, g2s),
        g2s.len() > 0,
        m1_open_witness(g1s, polys, points, gamma, fv, zv, qv, rv, w),
        qv.len() <= g1s.len(),
        iv.len() <= g1s.len(),
        zv2.len() <= g2s.len(),
        is_vanishing_of(zv2, points),
        cms.len() == polys.len(),
        forall|i: int| 0 <= i < cms.len() ==> g1a_dlog(#[trigger] cms[i]) == g1_dot(g1s, polys[i]),
        forall|i: int| 0 <= i < polys.len() ==> (#[trigger] polys[i]).len() <= g1s.len(),
        b == ({
            let lhs = (g1_dot(cms, gamma_powers(gamma, cms.len() as nat)) - g1_dot(g1s, iv))
                % fr_ord();
            (lhs * g2a_dlog(g2s[0])) % fr_ord() == (w * g2_dot(g2s, zv2)) % fr_ord()
        }),
    ensures
        b <==> cong(eval_at(iv, x), eval_at(rv, x)),
{
    let m = fr_ord();
    let t = cms.len() as int;
    let ss = gamma_powers(gamma, cms.len() as nat);
    let cc = g1_dot(cms, ss);
    let r1 = g1_dot(g1s, iv);
    let g2z = g2_dot(g2s, zv2);
    let sx = sum_evals(polys, ss, t, x);
    let fx = eval_at(fv, x);
    let qx = eval_at(qv, x);
    let zx = eval_at(zv, x);
    let z2x = eval_at(zv2, x);
    let ix = eval_at(iv, x);
    let rx = eval_at(rv, x);
    let px = prod_eval(points, x);
    let lhs = (cc - r1) % m;
    // the first G2 power is the generator
    reveal(pow);
    vstd::arithmetic::div_mod::lemma_small_mod(1nat, m as nat);
    assert(g2a_dlog(g2s[0]) == 1);
    assert(lhs * g2a_dlog(g2s[0]) == lhs) by (nonlinear_arith)
        requires
            g2a_dlog(g2s[0]) == 1,
    ;
    crate::model::lemma_cong_mod(cc - r1);
    vstd::arithmetic::div_mod::lemma_small_mod(lhs as nat, m as nat);
    assert(b == (lhs == (w * g2z) % m));
    // the combinations are evaluations at the secret, in the exponent
    lemma_cms_dot_evals(x, g1s, g2s, cms, polys, ss);
    lemma_g1_dot_powers(x, g1s, g2s, iv);
    lemma_g1_dot_powers(x, g1s, g2s, qv);
    lemma_g2_dot_powers(x, g1s, g2s, zv2);
    // both vanishing polynomials take the same value at the secret
    assert(cong(z2x, px));
    assert(cong(zx, px));
    crate::model::lemma_cong_sym(zx, px);
    lemma_cong_trans(g2z, z2x, px);
    lemma_cong_trans(g2z, px, zx);
    // the combined polynomial splits through the division identity
    lemma_gamma_combo_eval(polys, gamma, fv, x);
    assert(polys.len() as nat == cms.len() as nat);
    crate::model::lemma_cong_sym(fx, sx);
    assert(cong(fx, qx * zx + rx));
    lemma_cong_trans(sx, fx, qx * zx + rx);
    // assemble the fixed congruences
    crate::model::lemma_cong_sub(cc, sx, r1, ix);
    crate::model::lemma_cong_refl(ix);
    crate::model::lemma_cong_sub(sx, qx * zx + rx, ix, ix);
    lemma_cong_trans(cc - r1, sx - ix, qx * zx + rx - ix);
    crate::model::lemma_cong_mul(w, qx, g2z, zx);
    if b {
        // accept: the remainder and the interpolation agree at x
        crate::model::lemma_cong_of_mod_eq(cc - r1, w * g2z);
        crate::model::lemma_cong_sym(cc - r1, qx * zx + rx - ix);
        lemma_cong_trans(qx * zx + rx - ix, cc - r1, w * g2z);
        lemma_cong_trans(qx * zx + rx - ix, w * g2z, qx * zx);
        assert(cong(qx * zx + (rx - ix), qx * zx + 0));
        crate::model::lemma_cong_cancel_left(qx * zx, rx - ix, 0);
        let k = crate::model::lemma_cong_elim(rx - ix, 0);
        assert(m * (-k) == -(m * k)) by (nonlinear_arith);
        crate::model::lemma_cong_intro(ix, rx, -k);
    }
    if cong(ix, rx) {
        // agreement: the pairing equation holds
        let k = crate::model::lemma_cong_elim(ix, rx);
        assert(m * (-k) == -(m * k)) by (nonlinear_arith);
        crate::model::lemma_cong_intro(rx - ix, 0, -k);
        crate::model::lemma_cong_refl(qx * zx);
        crate::model::lemma_cong_add(qx * zx, qx * zx, rx - ix, 0);
        assert(cong(qx * zx + rx - ix, qx * zx));
        crate::model::lemma_cong_sym(w * g2z, qx * zx);
        lemma_cong_trans(cc - r1, qx * zx + rx - ix, qx * zx);
        lemma_cong_trans(cc - r1, qx * zx, w * g2z);
        crate::model::lemma_cong_mod_eq(cc - r1, w * g2z);
        assert(b);
    }
}

/// A KZG setup together with the Method-1 prover and verifier.
pub struct M1NoPrecomp {
    pub powers_of_g1: Vec<G1Affine>,
    pub powers_of_g2: Vec<G2Affine>,
}

/// A Method-1 opening proof: one affine G1 point.
pub struct Proof(pub G1Affine);

impl Clone for Proof {
    fn clone(&self) -> (r: Self)
        ensures
            r == *self,
    {
        Proof(self.0)
    }
}

impl M1NoPrecomp {
    /// Generates the powers of a freshly sampled secret scalar in both
    /// groups; the scalar itself is dropped on return.
    pub fn new(max_coeffs: usize, max_pts: Option<usize>) -> (res: Result<M1NoPrecomp, Error>)
        requires
            max_coeffs < usize::MAX,
            max_pts matches Some(p) ==> p < usize::MAX,
        ensures
            res.is_ok(),
            res matches Ok(s) ==> {
                &&& s.powers_of_g1@.len() == max_coeffs
                &&& s.powers_of_g2@.len() as int == (match max_pts {
                    Some(p) => p as int + 1,
                    None => max_coeffs as int + 1,
                })
                &&& powers_wf(s.powers_of_g1@, s.powers_of_g2@)
            },
    {
        let x = Fr::rand();
        let p = match max_pts {
            Some(p) => p,
            None => max_coeffs,
        };
        let np = if p + 1 > max_coeffs {
            p + 1
        } else {
            max_coeffs
        };
        let xp = gen_powers(&x, np);
        let g1gen = g1_generator();
        let g2gen = g2_generator();
        let mut powers_of_g1: Vec<G1Affine> = Vec::new();
        let mut i: usize = 0;
        while i < max_coeffs
            invariant
                i as int == powers_of_g1@.len(),
                i <= max_coeffs,
                max_coeffs <= xp@.len(),
                g1a_dlog(g1gen) == 1,
                forall|j: int|
                    0 <= j < xp@.len() ==> vals(xp@)[j] == pow(fr_val(x), j as nat) % fr_ord(),
                forall|j: int|
                    0 <= j < i ==> g1a_dlog(#[trigger] powers_of_g1@[j]) == pow(fr_val(x), j as nat)
                        % fr_ord(),
            decreases max_coeffs - i,
        {
            let pt = g1_to_affine(&g1_affine_mul(&g1gen, &xp[i]));
            powers_of_g1.push(pt);
            proof {
                let v = vals(xp@)[i as int];
                vstd::arithmetic::div_mod::lemma_small_mod(v as nat, fr_ord() as nat);
                assert(g1a_dlog(pt) == (1 * v) % fr_ord());
            }
            i = i + 1;
        }
        let g2count = p + 1;
        let mut powers_of_g2: Vec<G2Affine> = Vec::new();
        let mut i2: usize = 0;
        while i2 < g2count
            invariant
                i2 as int == powers_of_g2@.len(),
                i2 <= g2count,
                g2count <= xp@.len(),
                g2a_dlog(g2gen) == 1,
                forall|j: int|
                    0 <= j < xp@.len() ==> vals(xp@)[j] == pow(fr_val(x), j as nat) % fr_ord(),
                forall|j: int|
                    0 <= j < i2 ==> g2a_dlog(#[trigger] powers_of_g2@[j]) == pow(fr_val(x), j as nat)
                        % fr_ord(),
            decreases g2count - i2,
        {
            let pt = g2_to_affine(&g2_affine_mul(&g2gen, &xp[i2]));
            powers_of_g2.push(pt);
            proof {
                let v = vals(xp@)[i2 as int];
                vstd::arithmetic::div_mod::lemma_small_mod(v as nat, fr_ord() as nat);
                assert(g2a_dlog(pt) == (1 * v) % fr_ord());
            }
            i2 = i2 + 1;
        }
        proof {
            assert(powers_of(fr_val(x), powers_of_g1@, powers_of_g2@));
        }
        Ok(M1NoPrecomp { powers_of_g1, powers_of_g2 })
    }

    /// Commits to a polynomial: the multi-scalar combination of the G1
    /// powers with the coefficients.
    pub fn commit(&self, poly: &Vec<Fr>) -> (res: Result<Commitment, Error>)
        ensures
            res.is_ok() <==> poly@.len() <= self.powers_of_g1@.len(),
            res matches Err(e) ==> e == (Error::PolynomialTooLarge {
                n_coeffs: poly@.len() as usize,
                expected_max: self.powers_of_g1@.len() as usize,
            }),
            res matches Ok(c) ==> g1a_dlog(c.0) == g1_dot(self.powers_of_g1@, vals(poly@)),
    {
        if poly.len() > self.powers_of_g1.len() {
            return Err(Error::PolynomialTooLarge {
                n_coeffs: poly.len(),
                expected_max: self.powers_of_g1.len(),
            });
        }
        let pt = g1_msm(&self.powers_of_g1, poly);
        Ok(Commitment(g1_to_affine(&pt)))
    }

    /// The Method-1 opening against a precomputed vanishing polynomial.
    #[verifier::rlimit(100)]
    pub(crate) fn open_with_vanishing_poly(
        &self,
        transcript: &mut merlin::Transcript,
        evals: &Vec<Vec<Fr>>,
        polys: &Vec<Vec<Fr>>,
        points: &Vec<Fr>,
        vp: &Vec<Fr>,
    ) -> (res: Result<Proof, Error>)
        requires
            polys@.len() <= self.powers_of_g1@.len(),
            is_vanishing_of(vals(vp@), vals(points@)),
        ensures
            res.is_ok() <==> ((forall|i: int|
                0 <= i < evals@.len() ==> (#[trigger] evals@[i]@).len() == points@.len())
                && polys@.len() > 0 && (if max_poly_len(vals2(polys@)) > points@.len() {
                max_poly_len(vals2(polys@)) - points@.len()
            } else {
                0
            }) <= self.powers_of_g1@.len()),
            res matches Ok(pf) ==> m1_open_conforms(
                self.powers_of_g1@,
                vals2(polys@),
                vals(points@),
                g1a_dlog(pf.0),
            ),
            res matches Err(e) ==> ((exists|i: int|
                0 <= i < evals@.len() && e == (Error::EvalsIncorrectSize {
                    expected: points@.len() as usize,
                    got: (#[trigger] evals@[i]@).len() as usize,
                })) || e == Error::NoPolynomialsGiven || (e matches Error::PolynomialTooLarge {
                n_coeffs,
                expected_max,
            } && expected_max == self.powers_of_g1@.len())),
    {
        match transcribe_points_and_evals(transcript, points, evals) {
            Ok(u) => u,
            Err(e) => {
                return Err(e);
            },
        };
        let gamma = get_challenge(transcript, "open gamma");
        let gammas = gen_powers(&gamma, self.powers_of_g1.len());
        let fsum = match linear_combination(polys, &gammas) {
            Ok(f) => f,
            Err(e) => {
                return Err(e);
            },
        };
        let (q, rem) = match poly_div_q_r(&fsum, vp) {
            Ok(qr) => qr,
            Err(_) => {
                // unreachable: the vanishing polynomial is monic
                proof {
                    assert(vals(vp@)[points@.len() as int] == 1);
                    assert(false);
                }
                return Err(Error::DivisorIsZero);
            },
        };
        proof {
            lemma_poly_deg_char(vals(vp@), points@.len() as int);
        }
        if q.len() > self.powers_of_g1.len() {
            return Err(Error::PolynomialTooLarge {
                n_coeffs: q.len(),
                expected_max: self.powers_of_g1.len(),
            });
        }
        let pt = g1_msm(&self.powers_of_g1, &q);
        let pf = Proof(g1_to_affine(&pt));
        proof {
            let gv = fr_val(gamma);
            let pv = vals2(polys@);
            let t = polys@.len() as int;
            assert forall|k: int| 0 <= k < vals(fsum@).len() implies cong(
                #[trigger] vals(fsum@)[k],
                lc_coeff(pv, gamma_powers(gv, polys@.len() as nat), t, k),
            ) by {
                lemma_lc_coeff_prefix(
                    pv,
                    vals(gammas@),
                    gamma_powers(gv, polys@.len() as nat),
                    t,
                    k,
                );
            }
            assert(m1_open_witness(
                self.powers_of_g1@,
                pv,
                vals(points@),
                gv,
                vals(fsum@),
                vals(vp@),
                vals(q@),
                vals(rem@),
                g1a_dlog(pf.0),
            ));
        }
        Ok(pf)
    }

    /// Opens the polynomials at the point set: derives the vanishing
    /// polynomial and produces the quotient commitment.
    pub fn open(
        &self,
        transcript: &mut merlin::Transcript,
        evals: &Vec<Vec<Fr>>,
        polys: &Vec<Vec<Fr>>,
        points: &Vec<Fr>,
    ) -> (res: Result<Proof, Error>)
        requires
            polys@.len() <= self.powers_of_g1@.len(),
            points@.len() < usize::MAX,
        ensures
            res.is_ok() <==> ((forall|i: int|
                0 <= i < evals@.len() ==> (#[trigger] evals@[i]@).len() == points@.len())
                && polys@.len() > 0 && (if max_poly_len(vals2(polys@)) > points@.len() {
                max_poly_len(vals2(polys@)) - points@.len()
            } else {
                0
            }) <= self.powers_of_g1@.len()),
            res matches Ok(pf) ==> m1_open_conforms(
                self.powers_of_g1@,
                vals2(polys@),
                vals(points@),
                g1a_dlog(pf.0),
            ),
            res matches Err(e) ==> ((exists|i: int|
                0 <= i < evals@.len() && e == (Error::EvalsIncorrectSize {
                    expected: points@.len() as usize,
                    got: (#[trigger] evals@[i]@).len() as usize,
                })) || e == Error::NoPolynomialsGiven || (e matches Error::PolynomialTooLarge {
                n_coeffs,
                expected_max,
            } && expected_max == self.powers_of_g1@.len())),
    {
        let vp = vanishing_polynomial(points);
        self.open_with_vanishing_poly(transcript, evals, polys, points, &vp)
    }

    /// The Method-1 check against a prebuilt interpolation context and a
    /// cached G2 image of the vanishing polynomial.
    #[verifier::rlimit(100)]
    pub(crate) fn verify_with_lag_ctx_g2_zeros(
        &self,
        transcript: &mut merlin::Transcript,
        commits: &Vec<Commitment>,
        points: &Vec<Fr>,
        evals: &Vec<Vec<Fr>>,
        proof: &Proof,
        lag_ctx: &LagrangeInterpContext,
        g2_zeros: &G2Projective,
    ) -> (res: Result<bool, Error>)
        requires
            lag_ctx.wf(),
            lag_ctx.points@ == points@,
            self.powers_of_g2@.len() > 0,
            exists|zv: Seq<int>|
                #[trigger] is_vanishing_of(zv, vals(points@)) && g2_dlog(*g2_zeros) == g2_dot(
                    self.powers_of_g2@,
                    zv,
                ),
        ensures
            res.is_ok() <==> ((forall|i: int|
                0 <= i < evals@.len() ==> (#[trigger] evals@[i]@).len() == points@.len())
                && evals@.len() > 0 && points@.len() <= self.powers_of_g1@.len()
                && evals@.len() <= commits@.len()),
            res matches Ok(b) ==> m1_verify_conforms(
                self.powers_of_g1@,
                self.powers_of_g2@,
                commit_points(commits@),
                vals(points@),
                vals2(evals@),
                g1a_dlog(proof.0),
                b,
            ),
            res matches Err(e) ==> ((exists|i: int|
                0 <= i < evals@.len() && e == (Error::EvalsIncorrectSize {
                    expected: points@.len() as usize,
                    got: (#[trigger] evals@[i]@).len() as usize,
                })) || e == Error::NoPolynomialsGiven || (e matches Error::PolynomialTooLarge {
                n_coeffs,
                expected_max,
            })),
    {
        match transcribe_points_and_evals(transcript, points, evals) {
            Ok(u) => u,
            Err(e) => {
                return Err(e);
            },
        };
        let gamma = get_challenge(transcript, "open gamma");
        let gammas = gen_powers(&gamma, evals.len());
        let gamma_ris = match lag_ctx.lagrange_interp_linear_combo(evals, &gammas) {
            Ok(v) => v,
            Err(e) => {
                return Err(e);
            },
        };
        if gamma_ris.len() > self.powers_of_g1.len() {
            return Err(Error::PolynomialTooLarge {
                n_coeffs: gamma_ris.len(),
                expected_max: self.powers_of_g1.len(),
            });
        }
        let gamma_ris_pt = g1_msm(&self.powers_of_g1, &gamma_ris);
        let mut cms: Vec<G1Affine> = Vec::new();
        let mut i: usize = 0;
        while i < commits.len()
            invariant
                i as int == cms@.len(),
                i <= commits@.len(),
                forall|j: int| 0 <= j < i ==> cms@[j] == commit_points(commits@)[j],
            decreases commits@.len() - i,
        {
            let pt = commits[i].0;
            cms.push(pt);
            i = i + 1;
        }
        proof {
            assert(cms@ =~= commit_points(commits@));
        }
        if gammas.len() > cms.len() {
            return Err(Error::PolynomialTooLarge {
                n_coeffs: gammas.len(),
                expected_max: cms.len(),
            });
        }
        let gamma_cm_pt = g1_msm(&cms, &gammas);
        let lhs = g1_sub(&gamma_cm_pt, &gamma_ris_pt);
        let pf_proj = g1_from_affine(&proof.0);
        let g2_0 = g2_from_affine(&self.powers_of_g2[0]);
        let b = pairing_eq(&lhs, &g2_0, &pf_proj, g2_zeros);
        proof {
            let gv = fr_val(gamma);
            let t = evals@.len() as nat;
            assert(vals(gammas@) =~= gamma_powers(gv, t));
            let ghost zv = choose|zv: Seq<int>|
                #[trigger] is_vanishing_of(zv, vals(points@)) && g2_dlog(*g2_zeros) == g2_dot(
                    self.powers_of_g2@,
                    zv,
                );
            assert(m1_verify_witness(
                self.powers_of_g1@,
                self.powers_of_g2@,
                commit_points(commits@),
                vals(points@),
                vals2(evals@),
                g1a_dlog(proof.0),
                gv,
                vals(lag_ctx.inv_denoms@),
                vals(gamma_ris@),
                zv,
                b,
            ));
        }
        Ok(b)
    }

    /// Verifies a Method-1 proof against the commitments: rebuilds the
    /// interpolation context and the G2 image of the vanishing
    /// polynomial, then checks one pairing equation.
    pub fn verify(
        &self,
        transcript: &mut merlin::Transcript,
        commits: &Vec<Commitment>,
        points: &Vec<Fr>,
        evals: &Vec<Vec<Fr>>,
        proof: &Proof,
    ) -> (res: Result<bool, Error>)
        requires
            points@.len() < usize::MAX,
        ensures
            res matches Ok(b) ==> m1_verify_conforms(
                self.powers_of_g1@,
                self.powers_of_g2@,
                commit_points(commits@),
                vals(points@),
                vals2(evals@),
                g1a_dlog(proof.0),
                b,
            ),
            res.is_ok() <==> (points@.len() + 1 <= self.powers_of_g2@.len() && (forall|k: int|
                0 <= k < points@.len() ==> prod_eval(
                    vals(points@).remove(k),
                    #[trigger] vals(points@)[k],
                ) % fr_ord() != 0) && (forall|i: int|
                0 <= i < evals@.len() ==> (#[trigger] evals@[i]@).len() == points@.len())
                && evals@.len() > 0 && points@.len() <= self.powers_of_g1@.len()
                && evals@.len() <= commits@.len()),
            res matches Err(e) ==> ((exists|i: int|
                0 <= i < evals@.len() && e == (Error::EvalsIncorrectSize {
                    expected: points@.len() as usize,
                    got: (#[trigger] evals@[i]@).len() as usize,
                })) || e == Error::NoPolynomialsGiven || e == Error::DivisorIsZero || (
            e matches Error::PolynomialTooLarge { n_coeffs, expected_max })),
    {
        let vp = vanishing_polynomial(points);
        if vp.len() > self.powers_of_g2.len() {
            return Err(Error::PolynomialTooLarge {
                n_coeffs: vp.len(),
                expected_max: self.powers_of_g2.len(),
            });
        }
        let g2_zeros = g2_msm(&self.powers_of_g2, &vp);
        let lag_ctx = match LagrangeInterpContext::new_from_points(points) {
            Ok(c) => c,
            Err(e) => {
                return Err(e);
            },
        };
        proof {
            assert(is_vanishing_of(vals(vp@), vals(points@)) && g2_dlog(g2_zeros) == g2_dot(
                self.powers_of_g2@,
                vals(vp@),
            ));
        }
        self.verify_with_lag_ctx_g2_zeros(
            transcript,
            commits,
            points,
            evals,
            proof,
            &lag_ctx,
            &g2_zeros,
        )
    }
}

} // verus!
