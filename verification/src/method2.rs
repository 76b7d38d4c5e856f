//! The two-point scheme: a proof is a pair of G1 elements, committing to
//! the quotient by the vanishing polynomial and to the quotient of the
//! linearization at an extra transcript challenge.  Verification needs
//! only the first two G2 powers of the setup.

use vstd::prelude::*;

use vstd::arithmetic::power::pow;

use crate::curve::{
    fr_ord, fr_sub, fr_val, g1_dot, g1_from_affine, g1_generator, g1_msm, g1_sub, g1_to_affine,
    g1_affine_mul, g1a_dlog, g2_affine_mul, g2_from_affine, g2_generator, g2_sub, g2_to_affine,
    g2a_dlog, fr_mul, pairing_eq, vals, vals2, Fr, G1Affine, G2Affine,
};
use crate::kernel::{evaluate, fr_zero, gen_powers, linear_combination, poly_div_q_r,
    vanishing_polynomial};
use crate::lagrange::{interp_sum, LagrangeInterpContext};
use crate::method1::{
    commit_points, gamma_powers, is_gamma_combo, is_quotient_rem, powers_of, powers_wf,
    M1NoPrecomp,
};
use crate::model::{
    at0, cong, eval_at, in_range, is_vanishing_of, lc_coeff, lemma_cong_add, lemma_cong_eq,
    lemma_cong_mod, lemma_cong_mul, lemma_cong_refl, lemma_cong_sub, lemma_cong_sym,
    lemma_cong_trans,
    lemma_lc_coeff_prefix, lemma_poly_deg_char, max_poly_len, prod_eval,
};
use crate::transcript::{get_challenge, transcribe_g1, transcribe_points_and_evals};
use crate::{Commitment, Error};

verus! {

/// The Method-2 setup invariant: the G1 powers and the second G2 point
/// come from one secret scalar over the generator pair.
pub open spec fn m2_powers_of(x: int, g1s: Seq<G1Affine>, g2: G2Affine, g2x: G2Affine) -> bool {
    &&& forall|i: int|
        0 <= i < g1s.len() ==> g1a_dlog(#[trigger] g1s[i]) == pow(x, i as nat) % fr_ord()
    &&& g2a_dlog(g2) == 1
    &&& g2a_dlog(g2x) == (g2a_dlog(g2) * x) % fr_ord()
}

pub open spec fn m2_wf(g1s: Seq<G1Affine>, g2: G2Affine, g2x: G2Affine) -> bool {
    exists|x: int| 0 <= x < fr_ord() && #[trigger] m2_powers_of(x, g1s, g2, g2x)
}

/// What a Method-2 proof pair is, for some pair of challenges: `w1`
/// commits to the quotient by the vanishing polynomial, and `w2` to the
/// quotient of the linearization at the second challenge by `X - z`.
pub open spec fn m2_open_witness(
    g1s: Seq<G1Affine>,
    polys: Seq<Seq<int>>,
    points: Seq<int>,
    gamma: int,
    zc: int,
    fv: Seq<int>,
    zv: Seq<int>,
    hv: Seq<int>,
    rv: Seq<int>,
    grzv: int,
    zszv: int,
    lv: Seq<int>,
    xmzv: Seq<int>,
    lqv: Seq<int>,
    lrv: Seq<int>,
    w1: int,
    w2: int,
) -> bool {
    &&& 0 <= gamma < fr_ord()
    &&& 0 <= zc < fr_ord()
    &&& is_gamma_combo(polys, gamma, fv)
    &&& is_vanishing_of(zv, points)
    &&& is_quotient_rem(fv, zv, hv, rv)
    &&& w1 == g1_dot(g1s, hv)
    &&& 0 <= grzv < fr_ord() && cong(grzv, eval_at(rv, zc) * eval_at(zv, zc))
    &&& 0 <= zszv < fr_ord() && cong(zszv, eval_at(zv, zc))
    &&& forall|k: int|
        0 <= k < lv.len() ==> cong(
            #[trigger] lv[k],
            at0(fv, k) - zszv * at0(hv, k) - (if k == 0 {
                grzv
            } else {
                0
            }),
        )
    &&& lv.len() == (if fv.len() >= 1 {
        fv.len() as int
    } else {
        1
    })
    &&& hv.len() <= lv.len()
    &&& xmzv.len() == 2 && xmzv[1] == 1 && cong(xmzv[0], -zc) && in_range(xmzv)
    &&& is_quotient_rem(lv, xmzv, lqv, lrv)
    &&& w2 == g1_dot(g1s, lqv)
}

pub open spec fn m2_open_conforms(
    g1s: Seq<G1Affine>,
    polys: Seq<Seq<int>>,
    points: Seq<int>,
    w1: int,
    w2: int,
) -> bool {
    exists|
        gamma: int,
        zc: int,
        fv: Seq<int>,
        zv: Seq<int>,
        hv: Seq<int>,
        rv: Seq<int>,
        grzv: int,
        zszv: int,
        lv: Seq<int>,
        xmzv: Seq<int>,
        lqv: Seq<int>,
        lrv: Seq<int>,
    |
        #[trigger] m2_open_witness(
            g1s,
            polys,
            points,
            gamma,
            zc,
            fv,
            zv,
            hv,
            rv,
            grzv,
            zszv,
            lv,
            xmzv,
            lqv,
            lrv,
            w1,
            w2,
        )
}

/// What the Method-2 verdict is: the pairing equation at the challenge
/// point, over the discrete logarithms.
pub open spec fn m2_verify_witness(
    g1s: Seq<G1Affine>,
    g2: G2Affine,
    g2x: G2Affine,
    cms: Seq<G1Affine>,
    points: Seq<int>,
    evalsv: Seq<Seq<int>>,
    pf1: int,
    pf2: int,
    gamma: int,
    zc: int,
    ds: Seq<int>,
    rv: Seq<int>,
    zv: Seq<int>,
    rzv: int,
    zszv: int,
    b: bool,
) -> bool {
    &&& 0 <= gamma < fr_ord()
    &&& 0 <= zc < fr_ord()
    &&& ds.len() == points.len()
    &&& forall|k: int|
        0 <= k < points.len() ==> (#[trigger] ds[k] * prod_eval(points.remove(k), points[k]))
            % fr_ord() == 1
    &&& rv.len() == points.len()
    &&& forall|z: int|
        cong(
            #[trigger] eval_at(rv, z),
            interp_sum(
                points,
                ds,
                evalsv,
                gamma_powers(gamma, evalsv.len() as nat),
                points.len() as int,
                z,
            ),
        )
    &&& is_vanishing_of(zv, points)
    &&& 0 <= rzv < fr_ord() && cong(rzv, eval_at(rv, zc))
    &&& 0 <= zszv < fr_ord() && cong(zszv, eval_at(zv, zc))
    &&& g1s.len() > 0
    &&& b == {
        let lhs1 = (g1_dot(cms, gamma_powers(gamma, evalsv.len() as nat)) - (g1a_dlog(g1s[0])
            * rzv) % fr_ord()) % fr_ord();
        let fd = (lhs1 - (pf1 * zszv) % fr_ord()) % fr_ord();
        let xmzd = (g2a_dlog(g2x) - (g2a_dlog(g2) * zc) % fr_ord()) % fr_ord();
        (fd * g2a_dlog(g2)) % fr_ord() == (pf2 * xmzd) % fr_ord()
    }
}

pub open spec fn m2_verify_conforms(
    g1s: Seq<G1Affine>,
    g2: G2Affine,
    g2x: G2Affine,
    cms: Seq<G1Affine>,
    points: Seq<int>,
    evalsv: Seq<Seq<int>>,
    pf1: int,
    pf2: int,
    b: bool,
) -> bool {
    exists|gamma: int, zc: int, ds: Seq<int>, rv: Seq<int>, zv: Seq<int>, rzv: int, zszv: int|
        #[trigger] m2_verify_witness(
            g1s,
            g2,
            g2x,
            cms,
            points,
            evalsv,
            pf1,
            pf2,
            gamma,
            zc,
            ds,
            rv,
            zv,
            rzv,
            zszv,
            b,
        )
}

/// The linearization's remainder recovers the division remainder at the
/// challenge point: `Lr + gamma_r_z` is `r~(z)` modulo the order.
#[verifier::rlimit(100)]
pub proof fn lemma_m2_rem_at_challenge(
    points: Seq<int>,
    zc: int,
    fv: Seq<int>,
    zv: Seq<int>,
    hv: Seq<int>,
    rv: Seq<int>,
    grzv: int,
    zszv: int,
    lv: Seq<int>,
    xmzv: Seq<int>,
    lqv: Seq<int>,
    lrv: Seq<int>,
)
    requires
        is_vanishing_of(zv, points),
        is_quotient_rem(fv, zv, hv, rv),
        cong(zszv, eval_at(zv, zc)),
        forall|k: int|
            0 <= k < lv.len() ==> cong(
                #[trigger] lv[k],
                at0(fv, k) - zszv * at0(hv, k) - (if k == 0 {
                    grzv
                } else {
                    0
                }),
            ),
        lv.len() == (if fv.len() >= 1 {
            fv.len() as int
        } else {
            1
        }),
        hv.len() <= lv.len(),
        xmzv.len() == 2 && xmzv[1] == 1 && cong(xmzv[0], -zc),
        is_quotient_rem(lv, xmzv, lqv, lrv),
    ensures
        cong(eval_at(lrv, zc) + grzv, eval_at(rv, zc)),
{
    let fzc = eval_at(fv, zc);
    let hzc = eval_at(hv, zc);
    let zzc = eval_at(zv, zc);
    let rzc = eval_at(rv, zc);
    let lzc = eval_at(lv, zc);
    let lqzc = eval_at(lqv, zc);
    let lrzc = eval_at(lrv, zc);
    let llen = lv.len() as nat;
    // the divisor X - z vanishes at the challenge, so L there is its
    // own remainder
    let c0 = xmzv[0];
    assert(xmzv.drop_first() =~= seq![1int]);
    assert(seq![1int].drop_first() =~= Seq::<int>::empty());
    assert(eval_at(Seq::<int>::empty(), zc) == 0);
    assert(eval_at(seq![1int], zc) == seq![1int][0] + zc * eval_at(seq![1int].drop_first(), zc));
    assert(eval_at(seq![1int], zc) == 1);
    assert(eval_at(xmzv, zc) == xmzv[0] + zc * eval_at(xmzv.drop_first(), zc));
    assert(eval_at(xmzv, zc) == c0 + zc * 1);
    lemma_cong_refl(zc);
    lemma_cong_add(c0, -zc, zc, zc);
    assert(cong(lzc, lqzc * eval_at(xmzv, zc) + lrzc));
    lemma_cong_refl(lqzc);
    lemma_cong_mul(lqzc, lqzc, c0 + zc, 0);
    assert(lqzc * 0 == 0) by (nonlinear_arith);
    assert(zc * 1 == zc);
    lemma_cong_refl(lrzc);
    lemma_cong_add(lqzc * (c0 + zc), 0, lrzc, lrzc);
    lemma_cong_trans(lzc, lqzc * (c0 + zc) + lrzc, 0 + lrzc);
    // the linearization's value from its coefficients
    let fvp = Seq::new(llen, |k: int| at0(fv, k));
    let hvp = Seq::new(llen, |k: int| at0(hv, k));
    let e0 = Seq::new(llen, |k: int| if k == 0 { grzv } else { 0 });
    let mid = Seq::new(llen, |k: int| fvp[k] + (-zszv) * hvp[k]);
    assert forall|k: int| 0 <= k < llen implies cong(#[trigger] lv[k], mid[k] + (-1) * e0[k]) by {
        assert(mid[k] == at0(fv, k) + (-zszv) * at0(hv, k));
        assert(at0(fv, k) + (-zszv) * at0(hv, k) + (-1) * e0[k] == at0(fv, k) - zszv * at0(
            hv,
            k,
        ) - (if k == 0 {
            grzv
        } else {
            0
        })) by (nonlinear_arith)
            requires
                e0[k] == (if k == 0 {
                    grzv
                } else {
                    0
                }),
        ;
        lemma_cong_refl(lv[k]);
        assert(cong(lv[k], at0(fv, k) - zszv * at0(hv, k) - (if k == 0 {
            grzv
        } else {
            0
        })));
    }
    crate::model::lemma_eval_affine(lv, mid, e0, -1, zc);
    assert forall|k: int| 0 <= k < llen implies cong(#[trigger] mid[k], fvp[k] + (-zszv)
        * hvp[k]) by {
        lemma_cong_refl(mid[k]);
    }
    crate::model::lemma_eval_affine(mid, fvp, hvp, -zszv, zc);
    // the padded copies evaluate as the originals
    assert(fvp.take(fv.len() as int) =~= fv);
    crate::model::lemma_eval_trailing_zeros(fvp, fv.len() as int, zc);
    assert(hvp.take(hv.len() as int) =~= hv);
    crate::model::lemma_eval_trailing_zeros(hvp, hv.len() as int, zc);
    assert(e0.take(1) =~= seq![grzv]);
    assert(seq![grzv].drop_first() =~= Seq::<int>::empty());
    assert(eval_at(seq![grzv], zc) == seq![grzv][0] + zc * eval_at(
        seq![grzv].drop_first(),
        zc,
    ));
    assert(eval_at(seq![grzv], zc) == grzv + zc * 0);
    crate::model::lemma_eval_trailing_zeros(e0, 1, zc);
    // chain: L(zc) is F(zc) - zsz*H(zc) - grz
    lemma_cong_refl(-1);
    lemma_cong_mul(-1, -1, eval_at(e0, zc), grzv);
    lemma_cong_refl(eval_at(mid, zc));
    lemma_cong_add(
        eval_at(mid, zc),
        eval_at(mid, zc),
        (-1) * eval_at(e0, zc),
        (-1) * grzv,
    );
    lemma_cong_trans(lzc, eval_at(mid, zc) + (-1) * eval_at(e0, zc), eval_at(mid, zc) + (-1)
        * grzv);
    lemma_cong_refl((-1) * grzv);
    lemma_cong_add(
        eval_at(mid, zc),
        fzc + (-zszv) * hzc,
        (-1) * grzv,
        (-1) * grzv,
    );
    lemma_cong_trans(lzc, eval_at(mid, zc) + (-1) * grzv, fzc + (-zszv) * hzc + (-1) * grzv);
    // substitute the division of F by the vanishing polynomial at zc
    assert(cong(fzc, hzc * zzc + rzc));
    // and zsz is Z(zc)
    lemma_cong_sym(zszv, zzc);
    lemma_cong_refl(hzc);
    lemma_cong_mul(zszv, zzc, hzc, hzc);
    assert(fzc + (-zszv) * hzc + (-1) * grzv == fzc - zszv * hzc - grzv) by (nonlinear_arith);
    lemma_cong_refl(fzc);
    // build: lzc is congruent to rzc - grzv
    lemma_cong_sub(fzc, hzc * zzc + rzc, zszv * hzc, zzc * hzc);
    lemma_cong_refl(grzv);
    lemma_cong_sub(
        fzc - zszv * hzc,
        (hzc * zzc + rzc) - zzc * hzc,
        grzv,
        grzv,
    );
    assert((hzc * zzc + rzc) - zzc * hzc - grzv == rzc - grzv) by (nonlinear_arith);
    lemma_cong_eq(
        fzc - zszv * hzc - grzv,
        (hzc * zzc + rzc) - zzc * hzc - grzv,
        rzc - grzv,
    );
    lemma_cong_eq(lzc, fzc + (-zszv) * hzc + (-1) * grzv, fzc - zszv * hzc - grzv);
    lemma_cong_trans(lzc, fzc - zszv * hzc - grzv, rzc - grzv);
    // combine with L(zc) being the remainder
    lemma_cong_sym(lzc, 0 + lrzc);
    lemma_cong_trans(0 + lrzc, lzc, rzc - grzv);
    lemma_cong_refl(grzv);
    lemma_cong_add(lrzc, rzc - grzv, grzv, grzv);
}

/// The heart of completeness and of algebraic soundness for Method-2:
/// for a well-formed setup, honest commitments, and a proof pair built
/// as `m2_open_witness` describes, the verifier's pairing equation
/// accepts exactly when its interpolated value at the second challenge
/// agrees with the prover's division remainder there.
#[verifier::rlimit(100)]
pub proof fn lemma_m2_verdict(
    x: int,
    g1s: Seq<G1Affine>,
    g2: G2Affine,
    g2x: G2Affine,
    cms: Seq<G1Affine>,
    polys: Seq<Seq<int>>,
    points: Seq<int>,
    gamma: int,
    zc: int,
    fv: Seq<int>,
    zv: Seq<int>,
    hv: Seq<int>,
    rv: Seq<int>,
    grzv: int,
    zszv: int,
    lv: Seq<int>,
    xmzv: Seq<int>,
    lqv: Seq<int>,
    lrv: Seq<int>,
    w1: int,
    w2: int,
    zv2: Seq<int>,
    rzv2: int,
    zszv2: int,
    b: bool,
)
    requires
        0 <= x < fr_ord(),
        0 <= zc < fr_ord(),
        m2_powers_of(x, g1s, g2, g2x),
        g1s.len() > 0,
        m2_open_witness(
            g1s,
            polys,
            points,
            gamma,
            zc,
            fv,
            zv,
            hv,
            rv,
            grzv,
            zszv,
            lv,
            xmzv,
            lqv,
            lrv,
            w1,
            w2,
        ),
        hv.len() <= g1s.len(),
        lqv.len() <= g1s.len(),
        cms.len() == polys.len(),
        forall|i: int| 0 <= i < cms.len() ==> g1a_dlog(#[trigger] cms[i]) == g1_dot(g1s, polys[i]),
        forall|i: int| 0 <= i < polys.len() ==> (#[trigger] polys[i]).len() <= g1s.len(),
        is_vanishing_of(zv2, points),
        0 <= rzv2 < fr_ord(),
        0 <= zszv2 < fr_ord(),
        cong(zszv2, eval_at(zv2, zc)),
        b == ({
            let lhs1 = (g1_dot(cms, gamma_powers(gamma, cms.len() as nat)) - (g1a_dlog(g1s[0])
                * rzv2) % fr_ord()) % fr_ord();
            let fd = (lhs1 - (w1 * zszv2) % fr_ord()) % fr_ord();
            let xmzd = (g2a_dlog(g2x) - (g2a_dlog(g2) * zc) % fr_ord()) % fr_ord();
            (fd * g2a_dlog(g2)) % fr_ord() == (w2 * xmzd) % fr_ord()
        }),
    ensures
        b <==> cong(rzv2, eval_at(rv, zc)),
{
    let m = fr_ord();
    let ss = gamma_powers(gamma, cms.len() as nat);
    let cc = g1_dot(cms, ss);
    let sx = crate::method1::sum_evals(polys, ss, cms.len() as int, x);
    let fx = eval_at(fv, x);
    let hx = eval_at(hv, x);
    let lx = eval_at(lv, x);
    let lqx = eval_at(lqv, x);
    let lrzc = eval_at(lrv, zc);
    let zzc = eval_at(zv, zc);
    let rzc = eval_at(rv, zc);
    let llen = lv.len() as nat;
    let lhs1 = (cc - (g1a_dlog(g1s[0]) * rzv2) % m) % m;
    let fd = (lhs1 - (w1 * zszv2) % m) % m;
    let xmzd = (g2a_dlog(g2x) - (g2a_dlog(g2) * zc) % m) % m;
    // the base points have logarithm one and x
    reveal(pow);
    vstd::arithmetic::div_mod::lemma_small_mod(1nat, m as nat);
    vstd::arithmetic::div_mod::lemma_small_mod(x as nat, m as nat);
    vstd::arithmetic::div_mod::lemma_small_mod(zc as nat, m as nat);
    vstd::arithmetic::div_mod::lemma_small_mod(rzv2 as nat, m as nat);
    assert(g1a_dlog(g1s[0]) == 1);
    assert(g1a_dlog(g1s[0]) * rzv2 == rzv2) by (nonlinear_arith)
        requires
            g1a_dlog(g1s[0]) == 1,
    ;
    assert(g2a_dlog(g2) * zc == zc) by (nonlinear_arith)
        requires
            g2a_dlog(g2) == 1,
    ;
    assert(g2a_dlog(g2x) == (g2a_dlog(g2) * x) % m);
    assert(g2a_dlog(g2) * x == x) by (nonlinear_arith)
        requires
            g2a_dlog(g2) == 1,
    ;
    assert(g2a_dlog(g2x) == x);
    assert(fd * g2a_dlog(g2) == fd) by (nonlinear_arith)
        requires
            g2a_dlog(g2) == 1,
    ;
    crate::model::lemma_cong_mod(lhs1 - (w1 * zszv2) % m);
    vstd::arithmetic::div_mod::lemma_small_mod(fd as nat, m as nat);
    assert(b == (fd == (w2 * xmzd) % m));
    // xmzd is x - zc modulo the order
    crate::model::lemma_cong_mod(x - zc);
    assert(cong(xmzd, x - zc));
    // fd is C - rzv2 - w1*zszv2 modulo the order
    crate::model::lemma_cong_mod(cc - rzv2);
    crate::model::lemma_cong_mod(w1 * zszv2);
    crate::model::lemma_cong_sub(lhs1, cc - rzv2, (w1 * zszv2) % m, w1 * zszv2);
    lemma_cong_trans(fd, lhs1 - (w1 * zszv2) % m, (cc - rzv2) - w1 * zszv2);
    // the combinations are evaluations at the secret
    assert(crate::method1::powers_of(x, g1s, Seq::<crate::curve::G2Affine>::empty()));
    crate::method1::lemma_cms_dot_evals(
        x,
        g1s,
        Seq::<crate::curve::G2Affine>::empty(),
        cms,
        polys,
        ss,
    );
    crate::method1::lemma_g1_dot_powers(x, g1s, Seq::<crate::curve::G2Affine>::empty(), hv);
    crate::method1::lemma_g1_dot_powers(x, g1s, Seq::<crate::curve::G2Affine>::empty(), lqv);
    crate::method1::lemma_gamma_combo_eval(polys, gamma, fv, x);
    lemma_cong_sym(fx, sx);
    lemma_cong_trans(cc, sx, fx);
    // both computed vanishing values agree at the challenge
    assert(cong(eval_at(zv2, zc), prod_eval(points, zc)));
    assert(cong(zzc, prod_eval(points, zc)));
    crate::model::lemma_cong_sym(zzc, prod_eval(points, zc));
    lemma_cong_trans(zszv2, eval_at(zv2, zc), prod_eval(points, zc));
    lemma_cong_trans(zszv2, prod_eval(points, zc), zzc);
    // the linearization at the secret
    let fvp = Seq::new(llen, |k: int| at0(fv, k));
    let hvp = Seq::new(llen, |k: int| at0(hv, k));
    let e0 = Seq::new(llen, |k: int| if k == 0 { grzv } else { 0 });
    let mid = Seq::new(llen, |k: int| fvp[k] + (-zszv) * hvp[k]);
    assert forall|k: int| 0 <= k < llen implies cong(#[trigger] lv[k], mid[k] + (-1) * e0[k]) by {
        assert(mid[k] == at0(fv, k) + (-zszv) * at0(hv, k));
        assert(at0(fv, k) + (-zszv) * at0(hv, k) + (-1) * e0[k] == at0(fv, k) - zszv * at0(
            hv,
            k,
        ) - (if k == 0 {
            grzv
        } else {
            0
        })) by (nonlinear_arith)
            requires
                e0[k] == (if k == 0 {
                    grzv
                } else {
                    0
                }),
        ;
        lemma_cong_refl(lv[k]);
    }
    crate::model::lemma_eval_affine(lv, mid, e0, -1, x);
    assert forall|k: int| 0 <= k < llen implies cong(#[trigger] mid[k], fvp[k] + (-zszv)
        * hvp[k]) by {
        lemma_cong_refl(mid[k]);
    }
    crate::model::lemma_eval_affine(mid, fvp, hvp, -zszv, x);
    assert(fvp.take(fv.len() as int) =~= fv);
    crate::model::lemma_eval_trailing_zeros(fvp, fv.len() as int, x);
    assert(hvp.take(hv.len() as int) =~= hv);
    crate::model::lemma_eval_trailing_zeros(hvp, hv.len() as int, x);
    assert(e0.take(1) =~= seq![grzv]);
    assert(seq![grzv].drop_first() =~= Seq::<int>::empty());
    assert(eval_at(seq![grzv], x) == seq![grzv][0] + x * eval_at(seq![grzv].drop_first(), x));
    crate::model::lemma_eval_trailing_zeros(e0, 1, x);
    assert(eval_at(e0, x) == grzv);
    lemma_cong_refl(-1);
    lemma_cong_mul(-1, -1, eval_at(e0, x), grzv);
    lemma_cong_refl(eval_at(mid, x));
    lemma_cong_add(eval_at(mid, x), eval_at(mid, x), (-1) * eval_at(e0, x), (-1) * grzv);
    lemma_cong_trans(lx, eval_at(mid, x) + (-1) * eval_at(e0, x), eval_at(mid, x) + (-1) * grzv);
    lemma_cong_refl((-1) * grzv);
    lemma_cong_add(eval_at(mid, x), fx + (-zszv) * hx, (-1) * grzv, (-1) * grzv);
    lemma_cong_trans(lx, eval_at(mid, x) + (-1) * grzv, fx + (-zszv) * hx + (-1) * grzv);
    // the division of L by X - zc at the secret
    let c0 = xmzv[0];
    assert(xmzv.drop_first() =~= seq![1int]);
    assert(seq![1int].drop_first() =~= Seq::<int>::empty());
    assert(eval_at(Seq::<int>::empty(), x) == 0);
    assert(eval_at(seq![1int], x) == seq![1int][0] + x * eval_at(seq![1int].drop_first(), x));
    assert(eval_at(xmzv, x) == xmzv[0] + x * eval_at(xmzv.drop_first(), x));
    assert(eval_at(xmzv, x) == c0 + x * 1);
    lemma_cong_refl(x);
    lemma_cong_add(c0, -zc, x, x);
    assert(cong(lx, lqx * eval_at(xmzv, x) + eval_at(lrv, x)));
    // the constant remainder takes the same value everywhere
    assert(lrv.len() < 2);
    assert(eval_at(lrv, x) == eval_at(lrv, zc)) by {
        if lrv.len() == 1 {
            assert(lrv.drop_first() =~= Seq::<int>::empty());
            assert(eval_at(lrv, x) == lrv[0] + x * eval_at(lrv.drop_first(), x));
            assert(eval_at(lrv, zc) == lrv[0] + zc * eval_at(lrv.drop_first(), zc));
        }
    };
    lemma_cong_refl(lqx);
    lemma_cong_mul(lqx, lqx, c0 + x, x - zc);
    lemma_cong_refl(lrzc);
    lemma_cong_add(lqx * (c0 + x), lqx * (x - zc), lrzc, lrzc);
    lemma_cong_trans(lx, lqx * (c0 + x) + lrzc, lqx * (x - zc) + lrzc);
    // what the prover's remainder recovers at the challenge
    lemma_m2_rem_at_challenge(
        points,
        zc,
        fv,
        zv,
        hv,
        rv,
        grzv,
        zszv,
        lv,
        xmzv,
        lqv,
        lrv,
    );
    // assemble: C - rzv2 - w1*zszv2 is Lq(x)(x - zc) + (rzc - rzv2)
    lemma_cong_refl(w1);
    lemma_cong_mul(w1, hx, zszv2, zzc);
    crate::model::lemma_cong_sub(cc, fx, rzv2, rzv2);
    crate::model::lemma_cong_sub(cc - rzv2, fx - rzv2, w1 * zszv2, hx * zzc);
    lemma_cong_trans(fd, (cc - rzv2) - w1 * zszv2, (fx - rzv2) - hx * zzc);
    // F(x) is L(x) + grz + zsz*H(x), and zsz agrees with Z(zc)
    lemma_cong_sym(lx, fx + (-zszv) * hx + (-1) * grzv);
    // rewrite F(x) - rzv2 - H(x)Z(zc) through the linearization
    let k1 = crate::model::lemma_cong_elim(lx, fx + (-zszv) * hx + (-1) * grzv);
    let k2 = crate::model::lemma_cong_elim(lx, lqx * (x - zc) + lrzc);
    let k3 = crate::model::lemma_cong_elim(zszv, zzc);
    let k4 = crate::model::lemma_cong_elim(lrzc + grzv, rzc);
    assert((fx - rzv2) - hx * zzc - (lqx * (x - zc) + (rzc - rzv2)) == m * (k2 - k1 + hx * k3
        + k4)) by (nonlinear_arith)
        requires
            lx - (fx + (-zszv) * hx + (-1) * grzv) == m * k1,
            lx - (lqx * (x - zc) + lrzc) == m * k2,
            zszv - zzc == m * k3,
            lrzc + grzv - rzc == m * k4,
    ;
    crate::model::lemma_cong_intro(
        (fx - rzv2) - hx * zzc,
        lqx * (x - zc) + (rzc - rzv2),
        k2 - k1 + hx * k3 + k4,
    );
    lemma_cong_trans(fd, (fx - rzv2) - hx * zzc, lqx * (x - zc) + (rzc - rzv2));
    // the right side of the equation
    lemma_cong_refl(w2);
    lemma_cong_mul(w2, lqx, xmzd, x - zc);
    if b {
        crate::model::lemma_cong_of_mod_eq(fd, w2 * xmzd);
        lemma_cong_sym(fd, lqx * (x - zc) + (rzc - rzv2));
        lemma_cong_trans(lqx * (x - zc) + (rzc - rzv2), fd, w2 * xmzd);
        lemma_cong_trans(lqx * (x - zc) + (rzc - rzv2), w2 * xmzd, lqx * (x - zc));
        assert(cong(lqx * (x - zc) + (rzc - rzv2), lqx * (x - zc) + 0));
        crate::model::lemma_cong_cancel_left(lqx * (x - zc), rzc - rzv2, 0);
        let k = crate::model::lemma_cong_elim(rzc - rzv2, 0);
        assert(m * (-k) == -(m * k)) by (nonlinear_arith);
        crate::model::lemma_cong_intro(rzv2, rzc, -k);
    }
    if cong(rzv2, rzc) {
        let k = crate::model::lemma_cong_elim(rzv2, rzc);
        assert(m * (-k) == -(m * k)) by (nonlinear_arith);
        crate::model::lemma_cong_intro(rzc - rzv2, 0, -k);
        lemma_cong_refl(lqx * (x - zc));
        lemma_cong_add(lqx * (x - zc), lqx * (x - zc), rzc - rzv2, 0);
        lemma_cong_sym(w2 * xmzd, lqx * (x - zc));
        lemma_cong_trans(fd, lqx * (x - zc) + (rzc - rzv2), lqx * (x - zc) + 0);
        assert(cong(fd, lqx * (x - zc)));
        lemma_cong_trans(fd, lqx * (x - zc), w2 * xmzd);
        crate::model::lemma_cong_mod_eq(fd, w2 * xmzd);
        assert(b);
    }
}

/// A Method-2 setup: the G1 power table and the first two G2 powers.
pub struct Setup {
    pub powers_of_g1: Vec<G1Affine>,
    pub g2: G2Affine,
    pub g2x: G2Affine,
}

/// A Method-2 opening proof: the pair `(W1, W2)` of affine G1 points.
pub struct Proof(pub G1Affine, pub G1Affine);

impl Clone for Proof {
    fn clone(&self) -> (r: Self)
        ensures
            r == *self,
    {
        Proof(self.0, self.1)
    }
}

impl Setup {
    /// Adapts a Method-1 setup, keeping its G1 powers and the first two
    /// G2 powers.  Fails with `NotEnoughG2Powers` exactly when fewer
    /// than two are present.
    pub fn try_from(value: &M1NoPrecomp) -> (res: Result<Setup, Error>)
        ensures
            res.is_ok() <==> value.powers_of_g2@.len() >= 2,
            res matches Err(e) ==> e == Error::NotEnoughG2Powers,
            res matches Ok(s) ==> s.powers_of_g1@ == value.powers_of_g1@ && s.g2
                == value.powers_of_g2@[0] && s.g2x == value.powers_of_g2@[1] && (powers_wf(
                value.powers_of_g1@,
                value.powers_of_g2@,
            ) ==> m2_wf(s.powers_of_g1@, s.g2, s.g2x)),
    {
        if value.powers_of_g2.len() < 2 {
            return Err(Error::NotEnoughG2Powers);
        }
        let mut g1s: Vec<G1Affine> = Vec::new();
        let mut i: usize = 0;
        while i < value.powers_of_g1.len()
            invariant
                i as int == g1s@.len(),
                i <= value.powers_of_g1@.len(),
                forall|j: int| 0 <= j < i ==> g1s@[j] == value.powers_of_g1@[j],
            decreases value.powers_of_g1@.len() - i,
        {
            let pt = value.powers_of_g1[i];
            g1s.push(pt);
            i = i + 1;
        }
        proof {
            assert(g1s@ =~= value.powers_of_g1@);
        }
        let s = Setup { powers_of_g1: g1s, g2: value.powers_of_g2[0], g2x: value.powers_of_g2[1] };
        proof {
            reveal(pow);
            if powers_wf(value.powers_of_g1@, value.powers_of_g2@) {
                let x = choose|x: int|
                    0 <= x < fr_ord() && #[trigger] powers_of(
                        x,
                        value.powers_of_g1@,
                        value.powers_of_g2@,
                    );
                vstd::arithmetic::div_mod::lemma_small_mod(1nat, fr_ord() as nat);
                vstd::arithmetic::div_mod::lemma_small_mod(x as nat, fr_ord() as nat);
                assert(g2a_dlog(value.powers_of_g2@[0]) == 1);
                assert(g2a_dlog(value.powers_of_g2@[1]) == x % fr_ord());
                assert forall|i: int| 0 <= i < s.powers_of_g1@.len() implies g1a_dlog(
                    #[trigger] s.powers_of_g1@[i],
                ) == pow(x, i as nat) % fr_ord() by {
                    assert(s.powers_of_g1@[i] == value.powers_of_g1@[i]);
                }
                assert(g2a_dlog(s.g2) * x == x) by (nonlinear_arith)
                    requires
                        g2a_dlog(s.g2) == 1,
                ;
                assert((g2a_dlog(s.g2) * x) % fr_ord() == x % fr_ord());
                assert(m2_powers_of(x, s.powers_of_g1@, s.g2, s.g2x));
            }
        }
        Ok(s)
    }

    /// Generates a fresh setup of the given degree bound from a random
    /// secret scalar over the standard generators.
    pub fn new(max_degree: usize) -> (s: Setup)
        requires
            max_degree < usize::MAX,
        ensures
            s.powers_of_g1@.len() == max_degree + 1,
            m2_wf(s.powers_of_g1@, s.g2, s.g2x),
    {
        let x = Fr::rand();
        let n = max_degree + 1;
        let xp = gen_powers(&x, n);
        let g1gen = g1_generator();
        let mut powers_of_g1: Vec<G1Affine> = Vec::new();
        let mut i: usize = 0;
        while i < n
            invariant
                i as int == powers_of_g1@.len(),
                i <= n,
                n == xp@.len(),
                g1a_dlog(g1gen) == 1,
                forall|j: int|
                    0 <= j < xp@.len() ==> vals(xp@)[j] == pow(fr_val(x), j as nat) % fr_ord(),
                forall|j: int|
                    0 <= j < i ==> g1a_dlog(#[trigger] powers_of_g1@[j]) == pow(fr_val(x), j as nat)
                        % fr_ord(),
            decreases n - i,
        {
            let pt = g1_to_affine(&g1_affine_mul(&g1gen, &xp[i]));
            powers_of_g1.push(pt);
            proof {
                let v = vals(xp@)[i as int];
                vstd::arithmetic::div_mod::lemma_small_mod(v as nat, fr_ord() as nat);
                assert(g1a_dlog(pt) == (1 * v) % fr_ord());
            }
            i = i + 1;
        }
        let g2 = g2_generator();
        let g2x = g2_to_affine(&g2_affine_mul(&g2, &x));
        let s = Setup { powers_of_g1, g2, g2x };
        proof {
            assert(m2_powers_of(fr_val(x), s.powers_of_g1@, s.g2, s.g2x));
        }
        s
    }

    /// Commits to a polynomial: the multi-scalar combination of the G1
    /// powers with the coefficients.
    pub fn commit(&self, poly: &Vec<Fr>) -> (res: Result<Commitment, Error>)
        ensures
            res.is_ok() <==> poly@.len() <= self.powers_of_g1@.len(),
            res matches Err(e) ==> e == (Error::PolynomialTooLarge {
                n_coeffs: poly@.len() as usize,
                expected_max: self.powers_of_g1@.len() as usize,
            }),
            res matches Ok(c) ==> g1a_dlog(c.0) == g1_dot(self.powers_of_g1@, vals(poly@)),
    {
        if poly.len() > self.powers_of_g1.len() {
            return Err(Error::PolynomialTooLarge {
                n_coeffs: poly.len(),
                expected_max: self.powers_of_g1.len(),
            });
        }
        let pt = g1_msm(&self.powers_of_g1, poly);
        Ok(Commitment(g1_to_affine(&pt)))
    }

    /// The Method-2 opening: commits to the quotient by the vanishing
    /// polynomial, derives the second challenge, and commits to the
    /// quotient of the linearization there by `X - z`.
    #[verifier::rlimit(100)]
    pub fn open(
        &self,
        transcript: &mut merlin::Transcript,
        evals: &Vec<Vec<Fr>>,
        polys: &Vec<Vec<Fr>>,
        points: &Vec<Fr>,
    ) -> (res: Result<Proof, Error>)
        requires
            polys@.len() <= self.powers_of_g1@.len(),
            points@.len() < usize::MAX,
        ensures
            res matches Ok(pf) ==> m2_open_conforms(
                self.powers_of_g1@,
                vals2(polys@),
                vals(points@),
                g1a_dlog(pf.0),
                g1a_dlog(pf.1),
            ),
            res matches Err(e) ==> ((exists|i: int|
                0 <= i < evals@.len() && e == (Error::EvalsIncorrectSize {
                    expected: points@.len() as usize,
                    got: (#[trigger] evals@[i]@).len() as usize,
                })) || e == Error::NoPolynomialsGiven || (e matches Error::PolynomialTooLarge {
                n_coeffs,
                expected_max,
            } && expected_max == self.powers_of_g1@.len())),
            res.is_err() ==> ((exists|i: int|
                0 <= i < evals@.len() && (#[trigger] evals@[i]@).len() != points@.len())
                || polys@.len() == 0 || max_poly_len(vals2(polys@)) > points@.len()
                + self.powers_of_g1@.len() || max_poly_len(vals2(polys@)) > 1
                + self.powers_of_g1@.len()),
    {
        match transcribe_points_and_evals(transcript, points, evals) {
            Ok(u) => u,
            Err(e) => {
                return Err(e);
            },
        };
        let gamma = get_challenge(transcript, "open gamma");
        let gammas = gen_powers(&gamma, self.powers_of_g1.len());
        let fsum = match linear_combination(polys, &gammas) {
            Ok(f) => f,
            Err(e) => {
                return Err(e);
            },
        };
        let z_s = vanishing_polynomial(points);
        let (h, rem) = match poly_div_q_r(&fsum, &z_s) {
            Ok(qr) => qr,
            Err(_) => {
                proof {
                    assert(vals(z_s@)[points@.len() as int] == 1);
                    assert(false);
                }
                return Err(Error::DivisorIsZero);
            },
        };
        proof {
            lemma_poly_deg_char(vals(z_s@), points@.len() as int);
        }
        if h.len() > self.powers_of_g1.len() {
            return Err(Error::PolynomialTooLarge {
                n_coeffs: h.len(),
                expected_max: self.powers_of_g1.len(),
            });
        }
        let w1 = g1_to_affine(&g1_msm(&self.powers_of_g1, &h));
        transcribe_g1(transcript, "open W", &w1);
        let chal_z = get_challenge(transcript, "open z");
        let rem_z = evaluate(&rem, &chal_z);
        let zs_z = evaluate(&z_s, &chal_z);
        let gamma_r_z = fr_mul(&rem_z, &zs_z);
        // linearization: L = F - gamma_r_z - h * zs_z
        let llen = if fsum.len() >= 1 {
            fsum.len()
        } else {
            1
        };
        let z0 = fr_zero();
        let mut l: Vec<Fr> = Vec::new();
        let ghost fv = vals(fsum@);
        let ghost hv = vals(h@);
        let ghost zszv = fr_val(zs_z);
        let ghost grzv = fr_val(gamma_r_z);
        let mut k: usize = 0;
        while k < llen
            invariant
                k as int == l@.len(),
                k <= llen,
                fv == vals(fsum@),
                hv == vals(h@),
                zszv == fr_val(zs_z),
                grzv == fr_val(gamma_r_z),
                fr_val(z0) == 0,
                forall|t: int|
                    0 <= t < k ==> cong(
                        #[trigger] vals(l@)[t],
                        at0(fv, t) - zszv * at0(hv, t) - (if t == 0 {
                            grzv
                        } else {
                            0
                        }),
                    ),
            decreases llen - k,
        {
            let t1 = if k < fsum.len() {
                fsum[k]
            } else {
                z0
            };
            let t2 = if k < h.len() {
                fr_mul(&zs_z, &h[k])
            } else {
                z0
            };
            let mut v = fr_sub(&t1, &t2);
            proof {
                let kk = k as int;
                assert(fr_val(t1) == at0(fv, kk));
                if k < h.len() {
                    lemma_cong_mod(zszv * at0(hv, kk));
                } else {
                    assert(at0(hv, kk) == 0);
                    assert(zszv * 0 == 0) by (nonlinear_arith);
                    lemma_cong_refl(0);
                }
                lemma_cong_refl(fr_val(t1));
                lemma_cong_sub(fr_val(t1), fr_val(t1), fr_val(t2), zszv * at0(hv, kk));
                lemma_cong_mod(fr_val(t1) - fr_val(t2));
                lemma_cong_trans(
                    fr_val(v),
                    fr_val(t1) - fr_val(t2),
                    at0(fv, kk) - zszv * at0(hv, kk),
                );
            }
            if k == 0 {
                let v2 = fr_sub(&v, &gamma_r_z);
                proof {
                    lemma_cong_refl(grzv);
                    lemma_cong_sub(
                        fr_val(v),
                        at0(fv, 0) - zszv * at0(hv, 0),
                        grzv,
                        grzv,
                    );
                    lemma_cong_mod(fr_val(v) - grzv);
                    lemma_cong_trans(
                        fr_val(v2),
                        fr_val(v) - grzv,
                        at0(fv, 0) - zszv * at0(hv, 0) - grzv,
                    );
                }
                v = v2;
            }
            let ghost pre = l@;
            l.push(v);
            proof {
                crate::curve::lemma_vals_push(pre, v);
            }
            k = k + 1;
        }
        // divide by X - z
        let one = Fr::from_u64(1);
        let mut xmz: Vec<Fr> = Vec::new();
        xmz.push(fr_sub(&z0, &chal_z));
        xmz.push(one);
        proof {
            assert(vals(xmz@).len() == 2);
            assert(vals(xmz@)[1] == 1);
            assert(vals(xmz@)[0] == (0 - fr_val(chal_z)) % fr_ord());
            lemma_cong_mod(0 - fr_val(chal_z));
        }
        let (l_q, l_r) = match poly_div_q_r(&l, &xmz) {
            Ok(qr) => qr,
            Err(_) => {
                proof {
                    assert(vals(xmz@)[1] == 1);
                    assert(false);
                }
                return Err(Error::DivisorIsZero);
            },
        };
        if l_q.len() > self.powers_of_g1.len() {
            return Err(Error::PolynomialTooLarge {
                n_coeffs: l_q.len(),
                expected_max: self.powers_of_g1.len(),
            });
        }
        let w2 = g1_to_affine(&g1_msm(&self.powers_of_g1, &l_q));
        let pf = Proof(w1, w2);
        proof {
            lemma_poly_deg_char(vals(xmz@), 1);
            let gv = fr_val(gamma);
            let pv = vals2(polys@);
            let t = polys@.len() as int;
            assert forall|k2: int| 0 <= k2 < vals(fsum@).len() implies cong(
                #[trigger] vals(fsum@)[k2],
                lc_coeff(pv, gamma_powers(gv, polys@.len() as nat), t, k2),
            ) by {
                lemma_lc_coeff_prefix(
                    pv,
                    vals(gammas@),
                    gamma_powers(gv, polys@.len() as nat),
                    t,
                    k2,
                );
            }
            // the evaluation products feeding the linearization
            assert(cong(grzv, eval_at(vals(rem@), fr_val(chal_z)) * eval_at(
                vals(z_s@),
                fr_val(chal_z),
            ))) by {
                lemma_cong_mul(
                    fr_val(rem_z),
                    eval_at(vals(rem@), fr_val(chal_z)),
                    fr_val(zs_z),
                    eval_at(vals(z_s@), fr_val(chal_z)),
                );
                lemma_cong_mod(fr_val(rem_z) * fr_val(zs_z));
                lemma_cong_trans(
                    grzv,
                    fr_val(rem_z) * fr_val(zs_z),
                    eval_at(vals(rem@), fr_val(chal_z)) * eval_at(vals(z_s@), fr_val(chal_z)),
                );
            };
            assert(m2_open_witness(
                self.powers_of_g1@,
                pv,
                vals(points@),
                gv,
                fr_val(chal_z),
                vals(fsum@),
                vals(z_s@),
                vals(h@),
                vals(rem@),
                grzv,
                zszv,
                vals(l@),
                vals(xmz@),
                vals(l_q@),
                vals(l_r@),
                g1a_dlog(pf.0),
                g1a_dlog(pf.1),
            ));
        }
        Ok(pf)
    }

    /// Verifies a Method-2 proof: one pairing equation at the challenge
    /// point, using only the two G2 points of the setup.
    #[verifier::rlimit(100)]
    pub fn verify(
        &self,
        transcript: &mut merlin::Transcript,
        commits: &Vec<Commitment>,
        points: &Vec<Fr>,
        evals: &Vec<Vec<Fr>>,
        proof: &Proof,
    ) -> (res: Result<bool, Error>)
        requires
            points@.len() < usize::MAX,
            self.powers_of_g1@.len() > 0,
        ensures
            res matches Ok(b) ==> m2_verify_conforms(
                self.powers_of_g1@,
                self.g2,
                self.g2x,
                commit_points(commits@),
                vals(points@),
                vals2(evals@),
                g1a_dlog(proof.0),
                g1a_dlog(proof.1),
                b,
            ),
            res matches Err(e) ==> ((exists|i: int|
                0 <= i < evals@.len() && e == (Error::EvalsIncorrectSize {
                    expected: points@.len() as usize,
                    got: (#[trigger] evals@[i]@).len() as usize,
                })) || e == Error::NoPolynomialsGiven || e == Error::DivisorIsZero || (
            e matches Error::PolynomialTooLarge { n_coeffs, expected_max })),
            res.is_ok() <==> ((forall|i: int|
                0 <= i < evals@.len() ==> (#[trigger] evals@[i]@).len() == points@.len())
                && evals@.len() > 0 && evals@.len() <= commits@.len() && (forall|k: int|
                0 <= k < points@.len() ==> prod_eval(
                    vals(points@).remove(k),
                    #[trigger] vals(points@)[k],
                ) % fr_ord() != 0)),
    {
        match transcribe_points_and_evals(transcript, points, evals) {
            Ok(u) => u,
            Err(e) => {
                return Err(e);
            },
        };
        let gamma = get_challenge(transcript, "open gamma");
        transcribe_g1(transcript, "open W", &proof.0);
        let chal_z = get_challenge(transcript, "open z");
        let zeros = vanishing_polynomial(points);
        let zeros_z = evaluate(&zeros, &chal_z);
        let gammas = gen_powers(&gamma, evals.len());
        let lag_ctx = match LagrangeInterpContext::new_from_points(points) {
            Ok(c) => c,
            Err(e) => {
                return Err(e);
            },
        };
        let gamma_ris = match lag_ctx.lagrange_interp_linear_combo(evals, &gammas) {
            Ok(v) => v,
            Err(e) => {
                return Err(e);
            },
        };
        let gamma_ris_z = evaluate(&gamma_ris, &chal_z);
        let gamma_ris_z_pt = g1_affine_mul(&self.powers_of_g1[0], &gamma_ris_z);
        let mut cms: Vec<G1Affine> = Vec::new();
        let mut i: usize = 0;
        while i < commits.len()
            invariant
                i as int == cms@.len(),
                i <= commits@.len(),
                forall|j: int| 0 <= j < i ==> cms@[j] == commit_points(commits@)[j],
            decreases commits@.len() - i,
        {
            let pt = commits[i].0;
            cms.push(pt);
            i = i + 1;
        }
        proof {
            assert(cms@ =~= commit_points(commits@));
        }
        if gammas.len() > cms.len() {
            return Err(Error::PolynomialTooLarge {
                n_coeffs: gammas.len(),
                expected_max: cms.len(),
            });
        }
        let gamma_cm_pt = g1_msm(&cms, &gammas);
        let lhs1 = g1_sub(&gamma_cm_pt, &gamma_ris_z_pt);
        let wz = g1_affine_mul(&proof.0, &zeros_z);
        let f = g1_sub(&lhs1, &wz);
        let g2p = g2_from_affine(&self.g2);
        let g2zc = g2_affine_mul(&self.g2, &chal_z);
        let x_minus_z = g2_sub(&g2_from_affine(&self.g2x), &g2zc);
        let pf2 = g1_from_affine(&proof.1);
        let b = pairing_eq(&f, &g2p, &pf2, &x_minus_z);
        proof {
            let gv = fr_val(gamma);
            let t = evals@.len() as nat;
            assert(vals(gammas@) =~= gamma_powers(gv, t));
            assert(m2_verify_witness(
                self.powers_of_g1@,
                self.g2,
                self.g2x,
                commit_points(commits@),
                vals(points@),
                vals2(evals@),
                g1a_dlog(proof.0),
                g1a_dlog(proof.1),
                gv,
                fr_val(chal_z),
                vals(lag_ctx.inv_denoms@),
                vals(gamma_ris@),
                vals(zeros@),
                fr_val(gamma_ris_z),
                fr_val(zeros_z),
                b,
            ));
        }
        Ok(b)
    }
}

} // verus!
