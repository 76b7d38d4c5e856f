//! The polynomial kernel: power sequences, linear combinations,
//! vanishing polynomials, evaluation, and long division over the scalar
//! field, each verified against the integer model in `model`.

use vstd::prelude::*;

use vstd::arithmetic::power::pow;

use crate::curve::{fr_add, fr_inverse, fr_mul, fr_ord, fr_sub, fr_val, lemma_vals_push,
    lemma_vals_update, vals, vals2, Fr};
use crate::model::{
    at0, cong, eval_at, is_zero_poly, lc_coeff, lemma_cong_add, lemma_cong_eq, lemma_cong_mod, lemma_cong_mul,
    lemma_cong_refl, lemma_cong_small_eq, lemma_cong_sub, lemma_cong_sym, lemma_cong_trans,
    lemma_eval_affine, lemma_eval_prepend_zeros, lemma_eval_snoc, lemma_eval_trailing_zeros,
    lemma_eval_update, lemma_max_poly_len_ge, lemma_poly_deg_char, max_poly_len, poly_deg,
    prod_eval,
};
use crate::Error;

verus! {

/// The scalar zero.
pub fn fr_zero() -> (r: Fr)
    ensures
        fr_val(r) == 0,
{
    Fr::from_u64(0)
}

/// Returns `[1, y, y^2, ..., y^(n-1)]`.  For `n == 0` the result is empty.
#[verifier::rlimit(60)]
pub fn gen_powers(y: &Fr, n: usize) -> (r: Vec<Fr>)
    ensures
        r@.len() == n,
        forall|i: int|
            0 <= i < n ==> vals(r@)[i] == pow(fr_val(*y), i as nat) % fr_ord(),
{
    let mut out: Vec<Fr> = Vec::new();
    let mut cur = Fr::from_u64(1);
    proof {
        reveal(pow);
        vstd::arithmetic::div_mod::lemma_small_mod(1nat, fr_ord() as nat);
    }
    let mut i: usize = 0;
    while i < n
        invariant
            i as int == out@.len(),
            i <= n,
            fr_val(cur) == pow(fr_val(*y), i as nat) % fr_ord(),
            0 <= fr_val(cur) < fr_ord(),
            forall|j: int|
                0 <= j < i ==> vals(out@)[j] == pow(fr_val(*y), j as nat) % fr_ord(),
        decreases n - i,
    {
        let ghost pre = out@;
        out.push(cur);
        let nxt = fr_mul(&cur, y);
        proof {
            lemma_vals_push(pre, cur);
            reveal(pow);
            let yv = fr_val(*y);
            let p = pow(yv, i as nat);
            assert(pow(yv, (i + 1) as nat) == yv * p);
            vstd::arithmetic::div_mod::lemma_mul_mod_noop_left(p, yv, fr_ord());
        }
        cur = nxt;
        i = i + 1;
    }
    out
}

/// Horner evaluation of a coefficient vector at a point; the result is
/// congruent to the exact integer value of the polynomial there.
#[verifier::rlimit(60)]
pub fn evaluate(poly: &Vec<Fr>, x: &Fr) -> (r: Fr)
    ensures
        0 <= fr_val(r) < fr_ord(),
        cong(fr_val(r), eval_at(vals(poly@), fr_val(*x))),
{
    let mut acc = Fr::from_u64(0);
    let mut i: usize = poly.len();
    proof {
        assert(vals(poly@).skip(i as int) =~= Seq::<int>::empty());
        lemma_cong_refl(0);
    }
    while i > 0
        invariant
            i <= poly@.len(),
            0 <= fr_val(acc) < fr_ord(),
            cong(fr_val(acc), eval_at(vals(poly@).skip(i as int), fr_val(*x))),
        decreases i,
    {
        i = i - 1;
        let m = fr_mul(&acc, x);
        let nxt = fr_add(&m, &poly[i]);
        proof {
            let xv = fr_val(*x);
            let w = vals(poly@).skip(i as int);
            let pv = vals(poly@)[i as int];
            let tail = eval_at(vals(poly@).skip(i as int + 1), xv);
            assert(w.len() > 0);
            assert(w[0] == pv);
            assert(w.drop_first() =~= vals(poly@).skip(i as int + 1));
            assert(eval_at(w, xv) == w[0] + xv * eval_at(w.drop_first(), xv));
            assert(eval_at(w, xv) == pv + xv * tail);
            // acc * x stays congruent to tail * x, then adding the
            // coefficient matches the Horner step.
            lemma_cong_mod(fr_val(acc) * xv);
            lemma_cong_refl(xv);
            lemma_cong_mul(fr_val(acc), tail, xv, xv);
            lemma_cong_trans(fr_val(m), fr_val(acc) * xv, tail * xv);
            lemma_cong_mod(fr_val(m) + pv);
            lemma_cong_refl(pv);
            lemma_cong_add(fr_val(m), tail * xv, pv, pv);
            lemma_cong_trans(fr_val(nxt), fr_val(m) + pv, tail * xv + pv);
            assert(tail * xv + pv == pv + xv * tail) by (nonlinear_arith);
            lemma_cong_eq(fr_val(nxt), tail * xv + pv, eval_at(w, xv));
        }
        acc = nxt;
    }
    proof {
        assert(vals(poly@).skip(0) =~= vals(poly@));
    }
    acc
}

/// Returns `sum scalars[i] * polys[i]`, of length `max |polys[i]|`, with
/// trailing zeros kept.  Fails with `NoPolynomialsGiven` exactly when
/// `polys` is empty.
#[verifier::rlimit(60)]
pub fn linear_combination(polys: &Vec<Vec<Fr>>, scalars: &Vec<Fr>) -> (res: Result<Vec<Fr>, Error>)
    requires
        polys@.len() <= scalars@.len(),
    ensures
        res.is_err() <==> polys@.len() == 0,
        res matches Err(e) ==> e == Error::NoPolynomialsGiven,
        res matches Ok(out) ==> {
            &&& out@.len() == max_poly_len(vals2(polys@))
            &&& forall|k: int|
                0 <= k < out@.len() ==> 0 <= #[trigger] vals(out@)[k] < fr_ord() && cong(
                    vals(out@)[k],
                    lc_coeff(vals2(polys@), vals(scalars@), polys@.len() as int, k),
                )
        },
{
    if polys.len() == 0 {
        return Err(Error::NoPolynomialsGiven);
    }
    // Length of the longest polynomial.
    let mut ml: usize = 0;
    let mut i: usize = 0;
    proof {
        assert(vals2(polys@).take(0) =~= Seq::<Seq<int>>::empty());
    }
    while i < polys.len()
        invariant
            i <= polys@.len(),
            ml as int == max_poly_len(vals2(polys@).take(i as int)),
        decreases polys@.len() - i,
    {
        proof {
            assert(vals2(polys@).take(i as int + 1).drop_last() =~= vals2(polys@).take(i as int));
            assert(vals2(polys@).take(i as int + 1).last() == vals2(polys@)[i as int]);
            assert(vals2(polys@)[i as int].len() == polys@[i as int]@.len());
        }
        if polys[i].len() > ml {
            ml = polys[i].len();
        }
        i = i + 1;
    }
    proof {
        assert(vals2(polys@).take(polys@.len() as int) =~= vals2(polys@));
    }
    let mut out: Vec<Fr> = Vec::new();
    let mut k: usize = 0;
    while k < ml
        invariant
            k as int == out@.len(),
            k <= ml,
            forall|t: int| 0 <= t < k ==> vals(out@)[t] == 0,
        decreases ml - k,
    {
        let ghost pre = out@;
        let z0 = fr_zero();
        out.push(z0);
        proof {
            lemma_vals_push(pre, z0);
        }
        k = k + 1;
    }
    let ghost pv = vals2(polys@);
    let ghost sv = vals(scalars@);
    proof {
        assert forall|t: int| 0 <= t < ml implies cong(#[trigger] vals(out@)[t], lc_coeff(pv, sv, 0, t)) by {
            lemma_cong_refl(0);
        }
    }
    let mut i2: usize = 0;
    while i2 < polys.len()
        invariant
            i2 <= polys@.len(),
            polys@.len() <= scalars@.len(),
            out@.len() == ml,
            ml as int == max_poly_len(pv),
            pv == vals2(polys@),
            sv == vals(scalars@),
            forall|t: int|
                0 <= t < ml ==> 0 <= #[trigger] vals(out@)[t] < fr_ord() || vals(out@)[t] == 0,
            forall|t: int|
                0 <= t < ml ==> cong(#[trigger] vals(out@)[t], lc_coeff(pv, sv, i2 as int, t)),
        decreases polys@.len() - i2,
    {
        proof {
            lemma_max_poly_len_ge(pv, i2 as int);
            assert(pv[i2 as int].len() == polys@[i2 as int]@.len());
        }
        let rowlen = polys[i2].len();
        let mut j: usize = 0;
        while j < rowlen
            invariant
                j <= rowlen,
                i2 < polys@.len() <= scalars@.len(),
                rowlen == polys@[i2 as int]@.len(),
                rowlen <= ml,
                out@.len() == ml,
                pv == vals2(polys@),
                sv == vals(scalars@),
                forall|t: int|
                    0 <= t < ml ==> 0 <= #[trigger] vals(out@)[t] < fr_ord() || vals(out@)[t]
                        == 0,
                forall|t: int|
                    0 <= t < j ==> cong(#[trigger] vals(out@)[t], lc_coeff(pv, sv, i2 as int + 1, t)),
                forall|t: int|
                    j <= t < ml ==> cong(#[trigger] vals(out@)[t], lc_coeff(pv, sv, i2 as int, t)),
            decreases rowlen - j,
        {
            let term = fr_mul(&scalars[i2], &polys[i2][j]);
            let nv = fr_add(&out[j], &term);
            let ghost oldout = out@;
            out[j] = nv;
            proof {
                lemma_vals_update(oldout, j as int, nv);
                assert(vals(out@) == vals(oldout).update(j as int, fr_val(nv)));
                let ov = vals(oldout)[j as int];
                let sc = sv[i2 as int];
                let pc = pv[i2 as int][j as int];
                assert(sc == fr_val(scalars@[i2 as int]));
                assert(pc == fr_val(polys@[i2 as int]@[j as int]));
                assert(at0(pv[i2 as int], j as int) == pc);
                // nv == (ov + (sc*pc)%m)%m is congruent to ov + sc*pc.
                lemma_cong_mod(sc * pc);
                lemma_cong_refl(ov);
                lemma_cong_add(ov, ov, fr_val(term), sc * pc);
                lemma_cong_mod(ov + fr_val(term));
                lemma_cong_trans(fr_val(nv), ov + fr_val(term), ov + sc * pc);
                // and ov is congruent to the partial sum, so nv matches
                // the sum over one more polynomial.
                assert(lc_coeff(pv, sv, i2 as int + 1, j as int) == lc_coeff(pv, sv, i2 as int, j as int)
                    + sc * at0(pv[i2 as int], j as int));
                let base = lc_coeff(pv, sv, i2 as int, j as int);
                lemma_cong_refl(sc * pc);
                lemma_cong_add(ov, base, sc * pc, sc * pc);
                lemma_cong_trans(fr_val(nv), ov + sc * pc, base + sc * pc);
            }
            j = j + 1;
        }
        proof {
            assert forall|t: int| j <= t < ml implies cong(
                #[trigger] vals(out@)[t],
                lc_coeff(pv, sv, i2 as int + 1, t),
            ) by {
                assert(at0(pv[i2 as int], t) == 0);
                assert(lc_coeff(pv, sv, i2 as int + 1, t) == lc_coeff(pv, sv, i2 as int, t));
            }
        }
        i2 = i2 + 1;
    }
    proof {
        assert forall|t: int| 0 <= t < ml implies 0 <= #[trigger] vals(out@)[t] < fr_ord() by {
            if vals(out@)[t] == 0 {
            }
        }
    }
    Ok(out)
}

/// The monic vanishing polynomial `prod (X - points[i])`, of length
/// `|points| + 1`.  For an empty point set the result is `[1]`.
#[verifier::rlimit(60)]
pub fn vanishing_polynomial(points: &Vec<Fr>) -> (r: Vec<Fr>)
    requires
        points@.len() < usize::MAX,
    ensures
        r@.len() == points@.len() + 1,
        vals(r@)[points@.len() as int] == 1,
        forall|t: int| 0 <= t < r@.len() ==> 0 <= #[trigger] vals(r@)[t] < fr_ord(),
        forall|z: int|
            cong(#[trigger] eval_at(vals(r@), z), prod_eval(vals(points@), z)),
{
    let mut cur: Vec<Fr> = Vec::new();
    let one = Fr::from_u64(1);
    cur.push(one);
    proof {
        lemma_vals_push(Seq::empty(), one);
        assert(vals(Seq::<Fr>::empty()) =~= Seq::<int>::empty());
        assert(vals(cur@) =~= seq![1int]);
        assert(vals(points@).take(0) =~= Seq::<int>::empty());
        assert forall|z: int| cong(#[trigger] eval_at(vals(cur@), z), prod_eval(vals(points@).take(0), z)) by {
            let w = vals(cur@);
            assert(w.drop_first() =~= Seq::<int>::empty());
            assert(eval_at(w, z) == w[0] + z * eval_at(w.drop_first(), z));
            assert(eval_at(w, z) == 1);
            assert(prod_eval(vals(points@).take(0), z) == 1);
            lemma_cong_refl(1);
        }
    }
    let mut i: usize = 0;
    while i < points.len()
        invariant
            i <= points@.len(),
            points@.len() < usize::MAX,
            cur@.len() == i + 1,
            vals(cur@)[i as int] == 1,
            forall|t: int| 0 <= t < cur@.len() ==> 0 <= #[trigger] vals(cur@)[t] < fr_ord(),
            forall|z: int|
                cong(#[trigger] eval_at(vals(cur@), z), prod_eval(vals(points@).take(i as int), z)),
        decreases points@.len() - i,
    {
        let s = points[i];
        let z0 = fr_zero();
        let mut nxt: Vec<Fr> = Vec::new();
        let mut t: usize = 0;
        let ghost c1 = seq![0int] + vals(cur@);
        let ghost d = vals(cur@).push(0);
        let ghost svv = fr_val(s);
        while t <= cur.len()
            invariant
                t <= cur@.len() + 1,
                nxt@.len() == t,
                cur@.len() == i + 1,
                c1 == seq![0int] + vals(cur@),
                d == vals(cur@).push(0),
                svv == fr_val(s),
                fr_val(z0) == 0,
                cur@.len() < usize::MAX,
                forall|u: int| 0 <= u < cur@.len() ==> 0 <= #[trigger] vals(cur@)[u] < fr_ord(),
                forall|u: int| 0 <= u < t ==> 0 <= #[trigger] vals(nxt@)[u] < fr_ord(),
                forall|u: int|
                    0 <= u < t ==> cong(#[trigger] vals(nxt@)[u], c1[u] + (-svv) * d[u]),
            decreases cur@.len() + 1 - t,
        {
            let lo = if t >= 1 {
                cur[t - 1]
            } else {
                z0
            };
            let hi = if t < cur.len() {
                fr_mul(&s, &cur[t])
            } else {
                z0
            };
            let nv = fr_sub(&lo, &hi);
            let ghost pre = nxt@;
            nxt.push(nv);
            proof {
                lemma_vals_push(pre, nv);
                let u = t as int;
                assert(vals(nxt@)[u] == fr_val(nv));
                if t >= 1 {
                    assert(c1[u] == vals(cur@)[u - 1]);
                    assert(vals(cur@)[u - 1] == fr_val(cur@[u - 1]));
                    assert(lo == cur@[u - 1]);
                } else {
                    assert(c1[0] == 0);
                    assert(lo == z0);
                }
                assert(fr_val(lo) == c1[u]);
                let dv = d[u];
                // hi is congruent to s * d[u] in either branch.
                if t < cur.len() {
                    lemma_cong_mod(svv * dv);
                } else {
                    assert(dv == 0);
                    assert(fr_val(hi) == 0);
                    assert(svv * dv == 0) by (nonlinear_arith)
                        requires
                            dv == 0,
                    ;
                    lemma_cong_refl(0);
                }
                // nv == (lo - hi)%m, congruent to c1[u] - s*d[u].
                lemma_cong_refl(-1);
                lemma_cong_mul(fr_val(hi), svv * dv, -1, -1);
                lemma_cong_refl(c1[u]);
                lemma_cong_add(c1[u], c1[u], fr_val(hi) * -1, (svv * dv) * -1);
                lemma_cong_mod(c1[u] - fr_val(hi));
                assert(c1[u] + fr_val(hi) * -1 == c1[u] - fr_val(hi));
                lemma_cong_trans(fr_val(nv), c1[u] - fr_val(hi), c1[u] + (svv * dv) * -1);
                assert(c1[u] + (svv * dv) * -1 == c1[u] + (-svv) * dv) by (nonlinear_arith);
                lemma_cong_eq(fr_val(nv), c1[u] + (svv * dv) * -1, c1[u] + (-svv) * d[u]);
            }
            t = t + 1;
        }
        proof {
            // the leading coefficient stays exactly one
            let u = cur@.len() as int;
            assert(c1[u] == vals(cur@)[u - 1]);
            assert(d[u] == 0);
            assert(cong(vals(nxt@)[u], c1[u] + (-svv) * d[u]));
            assert((-svv) * 0 == 0) by (nonlinear_arith);
            lemma_cong_eq(vals(nxt@)[u], c1[u] + (-svv) * d[u], 1);
            lemma_cong_small_eq(vals(nxt@)[u], 1);
            assert forall|z: int| cong(
                #[trigger] eval_at(vals(nxt@), z),
                prod_eval(vals(points@).take(i as int + 1), z),
            ) by {
                lemma_eval_affine(vals(nxt@), c1, d, -svv, z);
                // c1 prepends a zero: its value is z times the old value.
                assert(c1[0] == 0);
                assert(c1.len() == cur@.len() + 1);
                assert(c1.drop_first() =~= vals(cur@));
                assert(eval_at(c1, z) == c1[0] + z * eval_at(c1.drop_first(), z));
                assert(eval_at(c1, z) == z * eval_at(vals(cur@), z));
                // d appends a zero: same value as the old vector.
                lemma_eval_snoc(vals(cur@), 0, z);
                assert(eval_at(d, z) == eval_at(vals(cur@), z));
                let e = eval_at(vals(cur@), z);
                let p = prod_eval(vals(points@).take(i as int), z);
                // eval(nxt) is congruent to eval(c1) - svv*eval(d)
                //   == z*e - svv*e == (z - svv)*e.
                assert(z * e + (-svv) * e == (z - svv) * e) by (nonlinear_arith);
                lemma_cong_eq(
                    eval_at(vals(nxt@), z),
                    eval_at(c1, z) + (-svv) * eval_at(d, z),
                    (z - svv) * e,
                );
                lemma_cong_refl(z - svv);
                lemma_cong_mul(e, p, z - svv, z - svv);
                assert(p * (z - svv) == (z - svv) * p) by (nonlinear_arith);
                lemma_cong_eq(e * (z - svv), p * (z - svv), (z - svv) * p);
                assert(vals(points@).take(i as int + 1).drop_last() =~= vals(points@).take(
                    i as int,
                ));
                assert(vals(points@).take(i as int + 1).last() == svv);
                lemma_cong_eq(
                    e * (z - svv),
                    (z - svv) * p,
                    prod_eval(vals(points@).take(i as int + 1), z),
                );
                assert((z - svv) * e == e * (z - svv)) by (nonlinear_arith);
                lemma_cong_eq(
                    eval_at(vals(nxt@), z),
                    (z - svv) * e,
                    e * (z - svv),
                );
                lemma_cong_trans(
                    eval_at(vals(nxt@), z),
                    e * (z - svv),
                    prod_eval(vals(points@).take(i as int + 1), z),
                );
            }
        }
        cur = nxt;
        i = i + 1;
    }
    proof {
        assert(vals(points@).take(points@.len() as int) =~= vals(points@));
    }
    cur
}

/// The index of the highest non-zero coefficient, if any.
#[verifier::rlimit(60)]
fn last_nonzero(b: &Vec<Fr>) -> (r: Option<usize>)
    ensures
        r matches Some(d) ==> d < b@.len() && vals(b@)[d as int] != 0 && forall|j: int|
            d < j < b@.len() ==> vals(b@)[j] == 0,
        r.is_none() <==> is_zero_poly(vals(b@)),
{
    let z0 = fr_zero();
    let mut i: usize = b.len();
    while i > 0
        invariant
            i <= b@.len(),
            fr_val(z0) == 0,
            forall|j: int| i <= j < b@.len() ==> vals(b@)[j] == 0,
        decreases i,
    {
        i = i - 1;
        if !b[i].equals(&z0) {
            proof {
                assert(!is_zero_poly(vals(b@))) by {
                    assert(vals(b@)[i as int] != 0);
                }
            }
            return Some(i);
        }
    }
    None
}

/// Euclidean division of coefficient vectors: returns `(q, r)` with
/// `a == q * b + r` (as polynomials modulo the field order) and
/// `deg r < deg b`.  Fails with `DivisorIsZero` exactly when `b` is the
/// zero polynomial.
#[verifier::rlimit(60)]
pub fn poly_div_q_r(a: &Vec<Fr>, b: &Vec<Fr>) -> (res: Result<(Vec<Fr>, Vec<Fr>), Error>)
    ensures
        res.is_err() <==> is_zero_poly(vals(b@)),
        res matches Err(e) ==> e == Error::DivisorIsZero,
        res matches Ok(qr) ==> {
            let d = poly_deg(vals(b@));
            &&& qr.0@.len() as int == if a@.len() > d {
                a@.len() - d
            } else {
                0
            }
            &&& qr.1@.len() <= d
            &&& forall|t: int| 0 <= t < qr.0@.len() ==> 0 <= #[trigger] vals(qr.0@)[t] < fr_ord()
            &&& forall|z: int|
                cong(
                    #[trigger] eval_at(vals(a@), z),
                    eval_at(vals(qr.0@), z) * eval_at(vals(b@), z) + eval_at(vals(qr.1@), z),
                )
        },
{
    let db = match last_nonzero(b) {
        Some(d) => d,
        None => {
            return Err(Error::DivisorIsZero);
        },
    };
    proof {
        lemma_poly_deg_char(vals(b@), db as int);
    }
    let binv = match fr_inverse(&b[db]) {
        Some(v) => v,
        None => {
            // unreachable: the scanned coefficient is non-zero
            proof {
                assert(false);
            }
            return Err(Error::DivisorIsZero);
        },
    };
    // Copy the dividend into the working remainder.
    let mut r: Vec<Fr> = Vec::new();
    let mut ci: usize = 0;
    while ci < a.len()
        invariant
            ci as int == r@.len(),
            ci <= a@.len(),
            forall|j: int| 0 <= j < ci ==> vals(r@)[j] == vals(a@)[j],
        decreases a@.len() - ci,
    {
        let ghost pre = r@;
        let cval = a[ci];
        r.push(cval);
        proof {
            lemma_vals_push(pre, cval);
        }
        ci = ci + 1;
    }
    proof {
        assert(vals(r@) =~= vals(a@));
    }
    if a.len() <= db {
        let q: Vec<Fr> = Vec::new();
        proof {
            assert forall|z: int| cong(
                #[trigger] eval_at(vals(a@), z),
                eval_at(vals(q@), z) * eval_at(vals(b@), z) + eval_at(vals(r@), z),
            ) by {
                assert(vals(q@) =~= Seq::<int>::empty());
                assert(eval_at(vals(q@), z) == 0);
                assert(0 * eval_at(vals(b@), z) == 0) by (nonlinear_arith);
                lemma_cong_refl(eval_at(vals(a@), z));
            }
        }
        return Ok((q, r));
    }
    let n = a.len();
    let qlen = n - db;
    let mut q: Vec<Fr> = Vec::new();
    let mut ci2: usize = 0;
    while ci2 < qlen
        invariant
            ci2 as int == q@.len(),
            ci2 <= qlen,
            forall|j: int| 0 <= j < ci2 ==> vals(q@)[j] == 0,
        decreases qlen - ci2,
    {
        let ghost pre = q@;
        let z0 = fr_zero();
        q.push(z0);
        proof {
            lemma_vals_push(pre, z0);
        }
        ci2 = ci2 + 1;
    }
    let ghost av = vals(a@);
    let ghost bv = vals(b@);
    proof {
        assert forall|z: int| cong(
            #[trigger] eval_at(av, z),
            eval_at(vals(q@), z) * eval_at(bv, z) + eval_at(vals(r@), z),
        ) by {
            lemma_eval_trailing_zeros(vals(q@), 0, z);
            assert(vals(q@).take(0) =~= Seq::<int>::empty());
            assert(eval_at(vals(q@), z) == 0);
            assert(0 * eval_at(bv, z) == 0) by (nonlinear_arith);
            lemma_cong_refl(eval_at(av, z));
        }
    }
    let mut k: usize = n;
    while k > db
        invariant
            db <= k <= n,
            n == a@.len(),
            db < n,
            r@.len() == n,
            q@.len() == qlen,
            qlen == n - db,
            av == vals(a@),
            bv == vals(b@),
            db < b@.len(),
            bv[db as int] != 0,
            forall|j: int| db < j < bv.len() ==> bv[j] == 0,
            (fr_val(binv) * bv[db as int]) % fr_ord() == 1,
            forall|j: int| k <= j < n ==> vals(r@)[j] == 0,
            forall|j: int| 0 <= j < k - db ==> vals(q@)[j] == 0,
            forall|t: int| 0 <= t < qlen ==> 0 <= #[trigger] vals(q@)[t] < fr_ord(),
            forall|z: int|
                cong(
                    #[trigger] eval_at(av, z),
                    eval_at(vals(q@), z) * eval_at(bv, z) + eval_at(vals(r@), z),
                ),
        decreases k,
    {
        let idx = k - 1;
        let off = idx - db;
        let c = fr_mul(&r[idx], &binv);
        let ghost cv = fr_val(c);
        let ghost r_entry = vals(r@);
        let ghost dseq = Seq::new(
            n as nat,
            |u: int|
                if off as int <= u <= idx as int {
                    bv[u - off as int]
                } else {
                    0
                },
        );
        let mut j: usize = 0;
        while j <= db
            invariant
                j <= db + 1,
                db < b@.len(),
                r@.len() == n,
                off + db == idx,
                idx < n,
                n == a@.len(),
                bv == vals(b@),
                cv == fr_val(c),
                r_entry.len() == n,
                forall|u: int|
                    0 <= u < n && !(off <= u < off + j) ==> vals(r@)[u] == r_entry[u],
                forall|u: int|
                    off <= u < off + j ==> 0 <= #[trigger] vals(r@)[u] < fr_ord() && cong(
                        vals(r@)[u],
                        r_entry[u] - cv * bv[u - off],
                    ),
            decreases db + 1 - j,
        {
            let p = off + j;
            let sub_term = fr_mul(&c, &b[j]);
            let ghost oldr = vals(r@);
            let ghost oldr_f = r@;
            let nv = fr_sub(&r[p], &sub_term);
            r[p] = nv;
            proof {
                lemma_vals_update(oldr_f, p as int, nv);
                assert(vals(r@) == oldr.update(p as int, fr_val(nv)));
                let ov = oldr[p as int];
                assert(ov == r_entry[p as int]);
                let bj = bv[j as int];
                assert(fr_val(b@[j as int]) == bj);
                lemma_cong_mod(cv * bj);
                lemma_cong_refl(ov);
                lemma_cong_sub(ov, ov, fr_val(sub_term), cv * bj);
                lemma_cong_mod(ov - fr_val(sub_term));
                lemma_cong_trans(fr_val(nv), ov - fr_val(sub_term), ov - cv * bj);
            }
            j = j + 1;
        }
        let ghost q_old = vals(q@);
        let ghost q_old_f = q@;
        q[off] = c;
        proof {
            lemma_vals_update(q_old_f, off as int, c);
            assert(vals(q@) == q_old.update(off as int, cv));
            assert(q_old[off as int] == 0);
            let r_now = vals(r@);
            assert forall|z: int| cong(
                #[trigger] eval_at(av, z),
                eval_at(vals(q@), z) * eval_at(bv, z) + eval_at(r_now, z),
            ) by {
                // the shifted divisor evaluates to z^off times b
                let btrim = bv.take(db as int + 1);
                assert(dseq.take(idx as int + 1) =~= Seq::new(off as nat, |u: int| 0).add(
                    btrim,
                ));
                lemma_eval_prepend_zeros(off as nat, btrim, z);
                lemma_eval_trailing_zeros(dseq, idx as int + 1, z);
                lemma_eval_trailing_zeros(bv, db as int + 1, z);
                let powoff = pow(z, off as nat);
                let eb = eval_at(bv, z);
                assert(eval_at(dseq, z) == powoff * eb);
                // the inner loop lowered the remainder by c * X^off * b
                assert forall|u: int| 0 <= u < n implies cong(
                    #[trigger] r_now[u],
                    r_entry[u] + (-cv) * dseq[u],
                ) by {
                    if off as int <= u <= idx as int {
                        assert(dseq[u] == bv[u - off as int]);
                        assert(cong(r_now[u], r_entry[u] - cv * bv[u - off as int]));
                        assert(r_entry[u] - cv * bv[u - off as int] == r_entry[u] + (-cv)
                            * dseq[u]) by (nonlinear_arith)
                            requires
                                dseq[u] == bv[u - off as int],
                        ;
                    } else {
                        assert(dseq[u] == 0);
                        assert((-cv) * 0 == 0) by (nonlinear_arith);
                        lemma_cong_refl(r_now[u]);
                    }
                }
                lemma_eval_affine(r_now, r_entry, dseq, -cv, z);
                lemma_eval_update(q_old, off as int, cv, z);
                let eq_old = eval_at(q_old, z);
                let eq_new = eval_at(vals(q@), z);
                assert(eq_new == eq_old + cv * powoff);
                let er_entry = eval_at(r_entry, z);
                lemma_cong_refl(eq_new * eb);
                lemma_cong_add(
                    eq_new * eb,
                    eq_new * eb,
                    eval_at(r_now, z),
                    er_entry + (-cv) * (powoff * eb),
                );
                assert(eq_new * eb + (er_entry + (-cv) * (powoff * eb)) == eq_old * eb
                    + er_entry) by (nonlinear_arith)
                    requires
                        eq_new == eq_old + cv * powoff,
                ;
                lemma_cong_trans(
                    eq_new * eb + eval_at(r_now, z),
                    eq_new * eb + (er_entry + (-cv) * (powoff * eb)),
                    eq_old * eb + er_entry,
                );
                lemma_cong_sym(eval_at(av, z), eq_old * eb + er_entry);
                lemma_cong_trans(
                    eq_new * eb + eval_at(r_now, z),
                    eq_old * eb + er_entry,
                    eval_at(av, z),
                );
                lemma_cong_sym(eq_new * eb + eval_at(r_now, z), eval_at(av, z));
            }
            // the processed coefficient of the remainder became zero
            let here = vals(r@)[idx as int];
            let rv = r_entry[idx as int];
            let bd = bv[db as int];
            assert(cong(here, rv - cv * bd));
            lemma_cong_mod(rv * fr_val(binv));
            lemma_cong_refl(bd);
            lemma_cong_mul(cv, rv * fr_val(binv), bd, bd);
            assert((rv * fr_val(binv)) * bd == (fr_val(binv) * bd) * rv) by (nonlinear_arith);
            lemma_cong_mod(fr_val(binv) * bd);
            lemma_cong_sym((fr_val(binv) * bd) % fr_ord(), fr_val(binv) * bd);
            lemma_cong_refl(rv);
            lemma_cong_mul(fr_val(binv) * bd, 1, rv, rv);
            lemma_cong_trans(cv * bd, (fr_val(binv) * bd) * rv, 1 * rv);
            assert(1 * rv == rv);
            lemma_cong_sub(rv, rv, cv * bd, rv);
            lemma_cong_trans(here, rv - cv * bd, rv - rv);
            lemma_cong_small_eq(here, 0);
            assert forall|j2: int| idx <= j2 < n implies vals(r@)[j2] == 0 by {
                if j2 > idx {
                    assert(vals(r@)[j2] == r_entry[j2]);
                }
            }
        }
        k = idx;
    }
    let ghost rfull = vals(r@);
    r.truncate(db);
    proof {
        assert(vals(r@) =~= rfull.take(db as int));
        assert forall|z: int| cong(
            #[trigger] eval_at(av, z),
            eval_at(vals(q@), z) * eval_at(bv, z) + eval_at(vals(r@), z),
        ) by {
            lemma_eval_trailing_zeros(rfull, db as int, z);
        }
    }
    Ok((q, r))
}

} // verus!
