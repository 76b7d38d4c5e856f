//! The mathematical model of polynomials over the scalar field.
//!
//! A coefficient vector is modelled as a `Seq<int>` of canonical scalar
//! values, low degree first.  Specifications relate executable results to
//! exact integer polynomial arithmetic through the congruence `cong`
//! modulo the field order, so that every statement is ordinary integer
//! arithmetic.

use vstd::prelude::*;

use vstd::arithmetic::div_mod::{
    lemma_fundamental_div_mod, lemma_mod_multiples_basic, lemma_small_mod,
};
use vstd::arithmetic::power::pow;

use crate::curve::fr_ord;

verus! {

/// Congruence modulo the scalar field order.
pub open spec fn cong(a: int, b: int) -> bool {
    (a - b) % fr_ord() == 0
}

/// The value of the polynomial with coefficients `c` (low degree first)
/// at the point `z`, as an exact integer.
pub open spec fn eval_at(c: Seq<int>, z: int) -> int
    decreases c.len(),
{
    if c.len() == 0 {
        0
    } else {
        c[0] + z * eval_at(c.drop_first(), z)
    }
}

/// The exact integer value of `prod (z - roots[i])`.
pub open spec fn prod_eval(roots: Seq<int>, z: int) -> int
    decreases roots.len(),
{
    if roots.len() == 0 {
        1
    } else {
        prod_eval(roots.drop_last(), z) * (z - roots.last())
    }
}

/// The coefficient at index `k`, with zero beyond the length.
pub open spec fn at0(s: Seq<int>, k: int) -> int {
    if 0 <= k < s.len() {
        s[k]
    } else {
        0
    }
}

/// The exact coefficient at index `k` of `sum_{i < n} ss[i] * ps[i]`.
pub open spec fn lc_coeff(ps: Seq<Seq<int>>, ss: Seq<int>, n: int, k: int) -> int
    decreases n,
{
    if n <= 0 {
        0
    } else {
        lc_coeff(ps, ss, n - 1, k) + ss[n - 1] * at0(ps[n - 1], k)
    }
}

/// The greatest length among the coefficient vectors.
pub open spec fn max_poly_len(ps: Seq<Seq<int>>) -> int
    decreases ps.len(),
{
    if ps.len() == 0 {
        0
    } else if max_poly_len(ps.drop_last()) >= ps.last().len() {
        max_poly_len(ps.drop_last())
    } else {
        ps.last().len() as int
    }
}

/// The degree of the polynomial: the greatest index holding a non-zero
/// coefficient, or `-1` for the zero polynomial.
pub open spec fn poly_deg(s: Seq<int>) -> int
    decreases s.len(),
{
    if s.len() == 0 {
        -1
    } else if s.last() != 0 {
        s.len() - 1
    } else {
        poly_deg(s.drop_last())
    }
}

/// Whether every coefficient is zero.
pub open spec fn is_zero_poly(s: Seq<int>) -> bool {
    forall|i: int| 0 <= i < s.len() ==> s[i] == 0
}

/// Whether every entry is a canonical value, in `[0, fr_ord())`.
pub open spec fn in_range(s: Seq<int>) -> bool {
    forall|i: int| 0 <= i < s.len() ==> 0 <= #[trigger] s[i] < fr_ord()
}

/// What it is to be the vanishing polynomial of a point set: monic of
/// length one more than the set, evaluating as `prod (z - s_i)`.
pub open spec fn is_vanishing_of(zv: Seq<int>, pts: Seq<int>) -> bool {
    &&& zv.len() == pts.len() + 1
    &&& zv[pts.len() as int] == 1
    &&& in_range(zv)
    &&& forall|z: int| cong(#[trigger] eval_at(zv, z), prod_eval(pts, z))
}

/// A multiple of the field order is congruent to zero.
pub proof fn lemma_cong_intro(a: int, b: int, k: int)
    requires
        a - b == fr_ord() * k,
    ensures
        cong(a, b),
{
    lemma_mod_multiples_basic(k, fr_ord());
}

/// A congruence exhibits the multiple of the field order that it hides.
pub proof fn lemma_cong_elim(a: int, b: int) -> (k: int)
    requires
        cong(a, b),
    ensures
        a - b == fr_ord() * k,
{
    lemma_fundamental_div_mod(a - b, fr_ord());
    (a - b) / fr_ord()
}

pub proof fn lemma_cong_refl(a: int)
    ensures
        cong(a, a),
{
    lemma_cong_intro(a, a, 0);
}

pub proof fn lemma_cong_sym(a: int, b: int)
    requires
        cong(a, b),
    ensures
        cong(b, a),
{
    let k = lemma_cong_elim(a, b);
    assert(fr_ord() * (-k) == -(fr_ord() * k)) by (nonlinear_arith);
    lemma_cong_intro(b, a, -k);
}

pub proof fn lemma_cong_trans(a: int, b: int, c: int)
    requires
        cong(a, b),
        cong(b, c),
    ensures
        cong(a, c),
{
    let k1 = lemma_cong_elim(a, b);
    let k2 = lemma_cong_elim(b, c);
    assert(fr_ord() * (k1 + k2) == fr_ord() * k1 + fr_ord() * k2) by (nonlinear_arith);
    lemma_cong_intro(a, c, k1 + k2);
}

pub proof fn lemma_cong_add(a: int, b: int, c: int, d: int)
    requires
        cong(a, b),
        cong(c, d),
    ensures
        cong(a + c, b + d),
{
    let k1 = lemma_cong_elim(a, b);
    let k2 = lemma_cong_elim(c, d);
    assert(fr_ord() * (k1 + k2) == fr_ord() * k1 + fr_ord() * k2) by (nonlinear_arith);
    lemma_cong_intro(a + c, b + d, k1 + k2);
}

pub proof fn lemma_cong_mul(a: int, b: int, c: int, d: int)
    requires
        cong(a, b),
        cong(c, d),
    ensures
        cong(a * c, b * d),
{
    let k1 = lemma_cong_elim(a, b);
    let k2 = lemma_cong_elim(c, d);
    assert(a * c - b * d == fr_ord() * (k1 * c + b * k2)) by (nonlinear_arith)
        requires
            a - b == fr_ord() * k1,
            c - d == fr_ord() * k2,
    ;
    lemma_cong_intro(a * c, b * d, k1 * c + b * k2);
}

/// Substituting an equal integer on the right of a congruence.
pub proof fn lemma_cong_eq(a: int, b: int, c: int)
    requires
        cong(a, b),
        b == c,
    ensures
        cong(a, c),
{
    let k = lemma_cong_elim(a, b);
    lemma_cong_intro(a, c, k);
}

pub proof fn lemma_cong_sub(a: int, b: int, c: int, d: int)
    requires
        cong(a, b),
        cong(c, d),
    ensures
        cong(a - c, b - d),
{
    let k1 = lemma_cong_elim(a, b);
    let k2 = lemma_cong_elim(c, d);
    assert(fr_ord() * (k1 - k2) == fr_ord() * k1 - fr_ord() * k2) by (nonlinear_arith);
    lemma_cong_intro(a - c, b - d, k1 - k2);
}

/// Reducing modulo the field order preserves congruence.
pub proof fn lemma_cong_mod(a: int)
    ensures
        cong(a % fr_ord(), a),
        0 <= a % fr_ord() < fr_ord(),
{
    lemma_fundamental_div_mod(a, fr_ord());
    assert(fr_ord() * (-(a / fr_ord())) == -(fr_ord() * (a / fr_ord()))) by (nonlinear_arith);
    lemma_cong_intro(a % fr_ord(), a, -(a / fr_ord()));
}

/// Congruent integers have equal remainders.
pub proof fn lemma_cong_mod_eq(a: int, b: int)
    requires
        cong(a, b),
    ensures
        a % fr_ord() == b % fr_ord(),
{
    lemma_cong_mod(a);
    lemma_cong_mod(b);
    lemma_cong_trans(a % fr_ord(), a, b);
    lemma_cong_sym(b % fr_ord(), b);
    lemma_cong_trans(a % fr_ord(), b, b % fr_ord());
    lemma_cong_small_eq(a % fr_ord(), b % fr_ord());
}

/// Equal remainders give a congruence.
pub proof fn lemma_cong_of_mod_eq(a: int, b: int)
    requires
        a % fr_ord() == b % fr_ord(),
    ensures
        cong(a, b),
{
    lemma_cong_mod(a);
    lemma_cong_mod(b);
    lemma_cong_sym(a % fr_ord(), a);
    lemma_cong_trans(a, b % fr_ord(), b);
}

/// A common summand cancels from a congruence.
pub proof fn lemma_cong_cancel_left(a: int, c: int, d: int)
    requires
        cong(a + c, a + d),
    ensures
        cong(c, d),
{
    let k = lemma_cong_elim(a + c, a + d);
    lemma_cong_intro(c, d, k);
}

/// Congruent canonical values are equal.
pub proof fn lemma_cong_small_eq(a: int, b: int)
    requires
        cong(a, b),
        0 <= a < fr_ord(),
        0 <= b < fr_ord(),
    ensures
        a == b,
{
    let k = lemma_cong_elim(a, b);
    assert(k == 0) by (nonlinear_arith)
        requires
            a - b == fr_ord() * k,
            -fr_ord() < a - b < fr_ord(),
            fr_ord() > 0,
    ;
}

/// The combination coefficient reads only the first `n` scalars.
pub proof fn lemma_lc_coeff_prefix(ps: Seq<Seq<int>>, ss1: Seq<int>, ss2: Seq<int>, n: int, k: int)
    requires
        forall|i: int| 0 <= i < n ==> ss1[i] == ss2[i],
    ensures
        lc_coeff(ps, ss1, n, k) == lc_coeff(ps, ss2, n, k),
    decreases n,
{
    if n > 0 {
        lemma_lc_coeff_prefix(ps, ss1, ss2, n - 1, k);
    }
}

/// The degree is the index of the last non-zero coefficient.
pub proof fn lemma_poly_deg_char(s: Seq<int>, d: int)
    requires
        0 <= d < s.len(),
        s[d] != 0,
        forall|j: int| d < j < s.len() ==> s[j] == 0,
    ensures
        poly_deg(s) == d,
    decreases s.len(),
{
    if d == s.len() - 1 {
    } else {
        assert(s.last() == 0);
        assert(forall|j: int| d < j < s.len() - 1 ==> s.drop_last()[j] == s[j]);
        lemma_poly_deg_char(s.drop_last(), d);
    }
}

/// Every coefficient vector is at most as long as the greatest length.
pub proof fn lemma_max_poly_len_ge(ps: Seq<Seq<int>>, i: int)
    requires
        0 <= i < ps.len(),
    ensures
        ps[i].len() <= max_poly_len(ps),
    decreases ps.len(),
{
    if i == ps.len() - 1 {
    } else {
        assert(ps.drop_last()[i] == ps[i]);
        lemma_max_poly_len_ge(ps.drop_last(), i);
    }
}

/// Appending a coefficient adds its monomial to the evaluation.
pub proof fn lemma_eval_snoc(c: Seq<int>, v: int, z: int)
    ensures
        eval_at(c.push(v), z) == eval_at(c, z) + v * pow(z, c.len()),
    decreases c.len(),
{
    reveal(pow);
    if c.len() == 0 {
        let s = c.push(v);
        assert(s.len() == 1);
        assert(s[0] == v);
        assert(s.drop_first() =~= Seq::<int>::empty());
        assert(eval_at(s.drop_first(), z) == 0);
        assert(eval_at(s, z) == s[0] + z * eval_at(s.drop_first(), z));
        assert(pow(z, 0) == 1);
    } else {
        assert(c.push(v).drop_first() =~= c.drop_first().push(v));
        lemma_eval_snoc(c.drop_first(), v, z);
        assert(pow(z, c.len()) == z * pow(z, (c.len() - 1) as nat));
        assert(c[0] + z * (eval_at(c.drop_first(), z) + v * pow(z, (c.len() - 1) as nat)) == c[0]
            + z * eval_at(c.drop_first(), z) + v * (z * pow(z, (c.len() - 1) as nat)))
            by (nonlinear_arith);
    }
}

/// Trailing zero coefficients do not change the evaluation.
pub proof fn lemma_eval_trailing_zeros(c: Seq<int>, n: int, z: int)
    requires
        0 <= n <= c.len(),
        forall|i: int| n <= i < c.len() ==> c[i] == 0,
    ensures
        eval_at(c.take(n), z) == eval_at(c, z),
    decreases c.len() - n,
{
    if n == c.len() {
        assert(c.take(n) =~= c);
    } else {
        let m = c.len() - 1;
        assert(c =~= c.take(m).push(c[m]));
        lemma_eval_snoc(c.take(m), c[m], z);
        assert(eval_at(c, z) == eval_at(c.take(m), z));
        assert(c.take(m).take(n) =~= c.take(n));
        lemma_eval_trailing_zeros(c.take(m), n, z);
    }
}

/// Replacing one coefficient shifts the evaluation by the coefficient
/// difference times the monomial value.
pub proof fn lemma_eval_update(c: Seq<int>, i: int, v: int, z: int)
    requires
        0 <= i < c.len(),
    ensures
        eval_at(c.update(i, v), z) == eval_at(c, z) + (v - c[i]) * pow(z, i as nat),
    decreases i,
{
    reveal(pow);
    if i == 0 {
        assert(c.update(0, v).drop_first() =~= c.drop_first());
        assert(pow(z, 0) == 1);
    } else {
        assert(c.update(i, v).drop_first() =~= c.drop_first().update(i - 1, v));
        lemma_eval_update(c.drop_first(), i - 1, v, z);
        assert(c.drop_first()[i - 1] == c[i]);
        assert(pow(z, i as nat) == z * pow(z, (i - 1) as nat));
        let d = v - c[i];
        assert(c[0] + z * (eval_at(c.drop_first(), z) + d * pow(z, (i - 1) as nat)) == c[0] + z
            * eval_at(c.drop_first(), z) + d * (z * pow(z, (i - 1) as nat))) by (nonlinear_arith);
    }
}

/// Prepending zero coefficients multiplies the evaluation by the
/// corresponding power of the point.
pub proof fn lemma_eval_prepend_zeros(m: nat, w: Seq<int>, z: int)
    ensures
        eval_at(Seq::new(m, |i: int| 0).add(w), z) == pow(z, m) * eval_at(w, z),
    decreases m,
{
    reveal(pow);
    let s = Seq::new(m, |i: int| 0).add(w);
    if m == 0 {
        assert(s =~= w);
        assert(1 * eval_at(w, z) == eval_at(w, z));
    } else {
        assert(s.len() == m + w.len());
        assert(s[0] == 0);
        assert(s.drop_first() =~= Seq::new((m - 1) as nat, |i: int| 0).add(w));
        lemma_eval_prepend_zeros((m - 1) as nat, w, z);
        assert(eval_at(s, z) == 0 + z * (pow(z, (m - 1) as nat) * eval_at(w, z)));
        assert(z * (pow(z, (m - 1) as nat) * eval_at(w, z)) == (z * pow(z, (m - 1) as nat))
            * eval_at(w, z)) by (nonlinear_arith);
    }
}

/// A pointwise affine congruence of coefficients carries over to the
/// evaluations: if `c2 == c1 + s * d` coefficientwise modulo the order,
/// then the same holds of the values at any point.
pub proof fn lemma_eval_affine(c2: Seq<int>, c1: Seq<int>, d: Seq<int>, s: int, z: int)
    requires
        c2.len() == c1.len(),
        d.len() == c1.len(),
        forall|t: int| 0 <= t < c1.len() ==> cong(#[trigger] c2[t], c1[t] + s * d[t]),
    ensures
        cong(eval_at(c2, z), eval_at(c1, z) + s * eval_at(d, z)),
    decreases c1.len(),
{
    if c1.len() == 0 {
        lemma_cong_refl(0);
    } else {
        assert(forall|t: int|
            0 <= t < c1.len() - 1 ==> cong(
                #[trigger] c2.drop_first()[t],
                c1.drop_first()[t] + s * d.drop_first()[t],
            )) by {
            assert(forall|t: int|
                0 <= t < c1.len() - 1 ==> c2.drop_first()[t] == c2[t + 1]
                    && c1.drop_first()[t] == c1[t + 1] && d.drop_first()[t] == d[t + 1]);
        }
        lemma_eval_affine(c2.drop_first(), c1.drop_first(), d.drop_first(), s, z);
        let e2 = eval_at(c2.drop_first(), z);
        let e1 = eval_at(c1.drop_first(), z);
        let ed = eval_at(d.drop_first(), z);
        lemma_cong_refl(z);
        lemma_cong_mul(z, z, e2, e1 + s * ed);
        lemma_cong_add(c2[0], c1[0] + s * d[0], z * e2, z * (e1 + s * ed));
        assert(c1[0] + s * d[0] + z * (e1 + s * ed) == (c1[0] + z * e1) + s * (d[0] + z * ed))
            by (nonlinear_arith);
    }
}

/// A vanishing product is zero at each of its roots.
pub proof fn lemma_prod_eval_root(roots: Seq<int>, i: int)
    requires
        0 <= i < roots.len(),
    ensures
        prod_eval(roots, roots[i]) == 0,
    decreases roots.len(),
{
    let z = roots[i];
    if i == roots.len() - 1 {
        assert(prod_eval(roots, z) == prod_eval(roots.drop_last(), z) * (z - z));
        assert(prod_eval(roots.drop_last(), z) * 0 == 0) by (nonlinear_arith);
    } else {
        assert(roots.drop_last()[i] == roots[i]);
        lemma_prod_eval_root(roots.drop_last(), i);
        assert(0 * (z - roots.last()) == 0) by (nonlinear_arith);
    }
}

/// A scalar combination whose scalars are one followed by zeros returns
/// the first polynomial's coefficients unchanged.
pub proof fn lemma_lc_first_poly(ps: Seq<Seq<int>>, ss: Seq<int>, n: int, k: int)
    requires
        n >= 1,
        ss[0] == 1,
        forall|i: int| 1 <= i < n ==> ss[i] == 0,
    ensures
        lc_coeff(ps, ss, n, k) == at0(ps[0], k),
    decreases n,
{
    assert(lc_coeff(ps, ss, n, k) == lc_coeff(ps, ss, n - 1, k) + ss[n - 1] * at0(ps[n - 1], k));
    if n == 1 {
        assert(lc_coeff(ps, ss, 0, k) == 0);
        assert(ss[0] * at0(ps[0], k) == at0(ps[0], k)) by (nonlinear_arith)
            requires
                ss[0] == 1,
        ;
    } else {
        lemma_lc_first_poly(ps, ss, n - 1, k);
        assert(ss[n - 1] * at0(ps[n - 1], k) == 0) by (nonlinear_arith)
            requires
                ss[n - 1] == 0,
        ;
    }
}

/// A vanishing polynomial evaluates to zero at each of its points.
pub proof fn lemma_vanishing_root(zv: Seq<int>, pts: Seq<int>, i: int)
    requires
        is_vanishing_of(zv, pts),
        0 <= i < pts.len(),
    ensures
        cong(eval_at(zv, pts[i]), 0),
{
    lemma_prod_eval_root(pts, i);
    assert(cong(eval_at(zv, pts[i]), prod_eval(pts, pts[i])));
    lemma_cong_eq(eval_at(zv, pts[i]), prod_eval(pts, pts[i]), 0);
}

} // verus!
