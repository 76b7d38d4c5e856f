//! Adapter to the external curve library.
//!
//! The engine never reasons about curve points or field elements bit by
//! bit.  Each scalar is held opaquely and abstracted by its canonical
//! integer value `fr_val`; each group element by its discrete logarithm
//! with respect to the library's standard generator (`g1_dlog`, …).  Every
//! operation the engine needs is a thin trusted wrapper whose contract
//! states what the external library computes in terms of those
//! abstractions, modulo the prime order of the scalar field.

use vstd::prelude::*;

use ark_ec::pairing::Pairing;
use ark_ec::{AffineRepr, CurveGroup, VariableBaseMSM};
use ark_ff::{Field, PrimeField};
use ark_serialize::CanonicalSerialize;
use ark_std::UniformRand;

verus! {

/// An element of the BLS12-381 scalar field, held opaquely.
#[verifier::external_body]
pub struct Fr {
    inner: ark_bls12_381::Fr,
}

/// An affine point of the first pairing source group, held opaquely.
#[verifier::external_body]
pub struct G1Affine {
    inner: ark_bls12_381::G1Affine,
}

/// A projective point of the first pairing source group, held opaquely.
#[verifier::external_body]
pub struct G1Projective {
    inner: ark_bls12_381::G1Projective,
}

/// An affine point of the second pairing source group, held opaquely.
#[verifier::external_body]
pub struct G2Affine {
    inner: ark_bls12_381::G2Affine,
}

/// A projective point of the second pairing source group, held opaquely.
#[verifier::external_body]
pub struct G2Projective {
    inner: ark_bls12_381::G2Projective,
}

impl Clone for Fr {
    fn clone(&self) -> (r: Self)
        ensures
            r == *self,
    {
        *self
    }
}

impl Copy for Fr {

}

impl Clone for G1Affine {
    fn clone(&self) -> (r: Self)
        ensures
            r == *self,
    {
        *self
    }
}

impl Copy for G1Affine {

}

impl Clone for G1Projective {
    fn clone(&self) -> (r: Self)
        ensures
            r == *self,
    {
        *self
    }
}

impl Copy for G1Projective {

}

impl Clone for G2Affine {
    fn clone(&self) -> (r: Self)
        ensures
            r == *self,
    {
        *self
    }
}

impl Copy for G2Affine {

}

impl Clone for G2Projective {
    fn clone(&self) -> (r: Self)
        ensures
            r == *self,
    {
        *self
    }
}

impl Copy for G2Projective {

}

/// The prime order of the BLS12-381 scalar field (and of both pairing
/// source groups), composed from 64-bit limbs since the value exceeds
/// the range of any literal.
pub open spec fn fr_ord() -> int {
    (((0x73eda753299d7d48 * 0x10000000000000000 + 0x3339d80809a1d805) * 0x10000000000000000
        + 0x53bde402fffe5bfe) * 0x10000000000000000 + 0xffffffff00000001) as int
}

/// The canonical integer value of a scalar field element, in `[0, fr_ord())`.
pub uninterp spec fn fr_val(x: Fr) -> int;

/// The discrete logarithm of a projective G1 point with respect to the
/// standard G1 generator, in `[0, fr_ord())`.
pub uninterp spec fn g1_dlog(p: G1Projective) -> int;

/// The discrete logarithm of an affine G1 point with respect to the
/// standard G1 generator, in `[0, fr_ord())`.
pub uninterp spec fn g1a_dlog(p: G1Affine) -> int;

/// The discrete logarithm of a projective G2 point with respect to the
/// standard G2 generator, in `[0, fr_ord())`.
pub uninterp spec fn g2_dlog(p: G2Projective) -> int;

/// The discrete logarithm of an affine G2 point with respect to the
/// standard G2 generator, in `[0, fr_ord())`.
pub uninterp spec fn g2a_dlog(p: G2Affine) -> int;

/// The canonical values of a sequence of scalars.
pub open spec fn vals(s: Seq<Fr>) -> Seq<int> {
    s.map_values(|x: Fr| fr_val(x))
}

/// The canonical values of a sequence of coefficient vectors.
pub open spec fn vals2(s: Seq<Vec<Fr>>) -> Seq<Seq<int>> {
    s.map_values(|v: Vec<Fr>| vals(v@))
}

/// The integer a little-endian byte sequence denotes.
pub open spec fn le_val(s: Seq<u8>) -> int
    decreases s.len(),
{
    if s.len() == 0 {
        0
    } else {
        s[0] + 256 * le_val(s.drop_first())
    }
}

/// The multi-scalar product `sum svals[i] * dlog(bases[i])` over the first
/// `svals.len()` bases, reduced modulo the group order.
pub open spec fn g1_dot(bases: Seq<G1Affine>, svals: Seq<int>) -> int
    decreases svals.len(),
{
    if svals.len() == 0 {
        0
    } else {
        (g1_dot(bases, svals.drop_last()) + svals.last() * g1a_dlog(bases[svals.len() - 1]))
            % fr_ord()
    }
}

/// The multi-scalar product in G2, as `g1_dot`.
pub open spec fn g2_dot(bases: Seq<G2Affine>, svals: Seq<int>) -> int
    decreases svals.len(),
{
    if svals.len() == 0 {
        0
    } else {
        (g2_dot(bases, svals.drop_last()) + svals.last() * g2a_dlog(bases[svals.len() - 1]))
            % fr_ord()
    }
}

impl Fr {
    /// Relies on `ark_ff`'s `From<u64>` conversion: a 64-bit integer maps
    /// to the scalar with that canonical value (the order exceeds `2^64`).
    #[verifier::external_body]
    pub fn from_u64(v: u64) -> (r: Fr)
        ensures
            fr_val(r) == v as int,
            0 <= fr_val(r) < fr_ord(),
    {
        Fr { inner: ark_bls12_381::Fr::from(v) }
    }

    /// Relies on `ark_ff::PrimeField::from_le_bytes_mod_order`: the bytes
    /// are read as a little-endian integer and reduced modulo the order.
    #[verifier::external_body]
    pub fn from_le_bytes(bytes: &Vec<u8>) -> (r: Fr)
        ensures
            fr_val(r) == le_val(bytes@) % fr_ord(),
            0 <= fr_val(r) < fr_ord(),
    {
        Fr { inner: ark_bls12_381::Fr::from_le_bytes_mod_order(bytes.as_slice()) }
    }

    /// Relies on `ark_serialize::CanonicalSerialize` for scalars: the
    /// canonical compressed form is the 32-byte little-endian encoding of
    /// the canonical value, and writing to a byte vector cannot fail.
    #[verifier::external_body]
    pub fn to_bytes(&self) -> (r: Vec<u8>)
        ensures
            r@.len() == 32,
            le_val(r@) == fr_val(*self),
    {
        let mut v = Vec::new();
        let _ = self.inner.serialize_compressed(&mut v);
        v
    }

    /// Relies on the derived equality of `ark_ff` field elements, which
    /// compares canonical representations.
    #[verifier::external_body]
    pub fn equals(&self, other: &Fr) -> (r: bool)
        ensures
            r <==> fr_val(*self) == fr_val(*other),
    {
        self.inner == other.inner
    }

    /// Relies on `ark_std::UniformRand` with a fresh thread-local
    /// generator; nothing is assumed of the outcome beyond canonicity.
    #[verifier::external_body]
    pub fn rand() -> (r: Fr)
        ensures
            0 <= fr_val(r) < fr_ord(),
    {
        Fr { inner: ark_bls12_381::Fr::rand(&mut rand::thread_rng()) }
    }
}

impl G1Affine {
    /// Relies on `ark_serialize::CanonicalSerialize` for affine G1
    /// points: the compressed encoding is 48 bytes and writing to a byte
    /// vector cannot fail.
    #[verifier::external_body]
    pub fn to_bytes(&self) -> (r: Vec<u8>)
        ensures
            r@.len() == 48,
    {
        let mut v = Vec::new();
        let _ = self.inner.serialize_compressed(&mut v);
        v
    }
}

/// Pushing a scalar appends its value to the value sequence.
pub proof fn lemma_vals_push(s: Seq<Fr>, v: Fr)
    ensures
        vals(s.push(v)) == vals(s).push(fr_val(v)),
{
    assert(vals(s.push(v)) =~= vals(s).push(fr_val(v)));
}

/// Updating a scalar updates its value in the value sequence.
pub proof fn lemma_vals_update(s: Seq<Fr>, i: int, v: Fr)
    requires
        0 <= i < s.len(),
    ensures
        vals(s.update(i, v)) == vals(s).update(i, fr_val(v)),
{
    assert(vals(s.update(i, v)) =~= vals(s).update(i, fr_val(v)));
}

/// Pushing a coefficient vector appends its values to the value table.
pub proof fn lemma_vals2_push(s: Seq<Vec<Fr>>, v: Vec<Fr>)
    ensures
        vals2(s.push(v)) == vals2(s).push(vals(v@)),
{
    assert(vals2(s.push(v)) =~= vals2(s).push(vals(v@)));
}

/// Relies on `ark_ff` field addition: canonical scalar values add modulo
/// the field order.
#[verifier::external_body]
pub(crate) fn fr_add(a: &Fr, b: &Fr) -> (r: Fr)
    ensures
        fr_val(r) == (fr_val(*a) + fr_val(*b)) % fr_ord(),
        0 <= fr_val(r) < fr_ord(),
{
    Fr { inner: a.inner + b.inner }
}

/// Relies on `ark_ff` field subtraction: canonical scalar values subtract
/// modulo the field order.
#[verifier::external_body]
pub(crate) fn fr_sub(a: &Fr, b: &Fr) -> (r: Fr)
    ensures
        fr_val(r) == (fr_val(*a) - fr_val(*b)) % fr_ord(),
        0 <= fr_val(r) < fr_ord(),
{
    Fr { inner: a.inner - b.inner }
}

/// Relies on `ark_ff` field multiplication: canonical scalar values
/// multiply modulo the field order.
#[verifier::external_body]
pub(crate) fn fr_mul(a: &Fr, b: &Fr) -> (r: Fr)
    ensures
        fr_val(r) == (fr_val(*a) * fr_val(*b)) % fr_ord(),
        0 <= fr_val(r) < fr_ord(),
{
    Fr { inner: a.inner * b.inner }
}

/// Relies on `ark_ff::Field::inverse`: defined exactly on the non-zero
/// elements, where it returns the multiplicative inverse.
#[verifier::external_body]
pub(crate) fn fr_inverse(a: &Fr) -> (r: Option<Fr>)
    ensures
        r.is_some() <==> fr_val(*a) != 0,
        r matches Some(i) ==> (fr_val(i) * fr_val(*a)) % fr_ord() == 1 && 0 <= fr_val(i)
            < fr_ord(),
{
    a.inner.inverse().map(|i| Fr { inner: i })
}

/// Relies on `ark_ec::AffineRepr::generator`: the standard G1 generator,
/// of discrete logarithm one by definition.
#[verifier::external_body]
pub(crate) fn g1_generator() -> (r: G1Affine)
    ensures
        g1a_dlog(r) == 1,
{
    G1Affine { inner: ark_bls12_381::G1Affine::generator() }
}

/// Relies on `ark_ec::AffineRepr::generator`: the standard G2 generator,
/// of discrete logarithm one by definition.
#[verifier::external_body]
pub(crate) fn g2_generator() -> (r: G2Affine)
    ensures
        g2a_dlog(r) == 1,
{
    G2Affine { inner: ark_bls12_381::G2Affine::generator() }
}

/// Relies on `ark_ec::VariableBaseMSM::msm_unchecked`, which sums
/// `scalars[i] * bases[i]` over the shorter of the two lengths.
#[verifier::external_body]
pub(crate) fn g1_msm(bases: &Vec<G1Affine>, scalars: &Vec<Fr>) -> (r: G1Projective)
    requires
        scalars@.len() <= bases@.len(),
    ensures
        g1_dlog(r) == g1_dot(bases@, vals(scalars@)),
{
    let bs: Vec<ark_bls12_381::G1Affine> = bases.iter().map(|p| p.inner).collect();
    let ss: Vec<ark_bls12_381::Fr> = scalars.iter().map(|s| s.inner).collect();
    G1Projective { inner: ark_bls12_381::G1Projective::msm_unchecked(&bs, &ss) }
}

/// Relies on `ark_ec::VariableBaseMSM::msm_unchecked` in G2, as `g1_msm`.
#[verifier::external_body]
pub(crate) fn g2_msm(bases: &Vec<G2Affine>, scalars: &Vec<Fr>) -> (r: G2Projective)
    requires
        scalars@.len() <= bases@.len(),
    ensures
        g2_dlog(r) == g2_dot(bases@, vals(scalars@)),
{
    let bs: Vec<ark_bls12_381::G2Affine> = bases.iter().map(|p| p.inner).collect();
    let ss: Vec<ark_bls12_381::Fr> = scalars.iter().map(|s| s.inner).collect();
    G2Projective { inner: ark_bls12_381::G2Projective::msm_unchecked(&bs, &ss) }
}

/// Relies on `ark_ec` scalar multiplication of an affine G1 point: the
/// discrete logarithm multiplies by the canonical scalar value.
#[verifier::external_body]
pub(crate) fn g1_affine_mul(p: &G1Affine, s: &Fr) -> (r: G1Projective)
    ensures
        g1_dlog(r) == (g1a_dlog(*p) * fr_val(*s)) % fr_ord(),
{
    G1Projective { inner: p.inner * s.inner }
}

/// Relies on `ark_ec` scalar multiplication of an affine G2 point, as
/// `g1_affine_mul`.
#[verifier::external_body]
pub(crate) fn g2_affine_mul(p: &G2Affine, s: &Fr) -> (r: G2Projective)
    ensures
        g2_dlog(r) == (g2a_dlog(*p) * fr_val(*s)) % fr_ord(),
{
    G2Projective { inner: p.inner * s.inner }
}

/// Relies on `ark_ec` group subtraction in G1: discrete logarithms
/// subtract modulo the group order.
#[verifier::external_body]
pub(crate) fn g1_sub(a: &G1Projective, b: &G1Projective) -> (r: G1Projective)
    ensures
        g1_dlog(r) == (g1_dlog(*a) - g1_dlog(*b)) % fr_ord(),
{
    G1Projective { inner: a.inner - b.inner }
}

/// Relies on `ark_ec` group subtraction in G2, as `g1_sub`.
#[verifier::external_body]
pub(crate) fn g2_sub(a: &G2Projective, b: &G2Projective) -> (r: G2Projective)
    ensures
        g2_dlog(r) == (g2_dlog(*a) - g2_dlog(*b)) % fr_ord(),
{
    G2Projective { inner: a.inner - b.inner }
}

/// Relies on `ark_ec::CurveGroup::into_affine`: a change of coordinates
/// that leaves the group element unchanged.
#[verifier::external_body]
pub(crate) fn g1_to_affine(p: &G1Projective) -> (r: G1Affine)
    ensures
        g1a_dlog(r) == g1_dlog(*p),
{
    G1Affine { inner: p.inner.into_affine() }
}

/// Relies on `ark_ec::AffineRepr::into_group`: a change of coordinates
/// that leaves the group element unchanged.
#[verifier::external_body]
pub(crate) fn g1_from_affine(p: &G1Affine) -> (r: G1Projective)
    ensures
        g1_dlog(r) == g1a_dlog(*p),
{
    G1Projective { inner: p.inner.into_group() }
}

/// Relies on `ark_ec::CurveGroup::into_affine` in G2, as `g1_to_affine`.
#[verifier::external_body]
pub(crate) fn g2_to_affine(p: &G2Projective) -> (r: G2Affine)
    ensures
        g2a_dlog(r) == g2_dlog(*p),
{
    G2Affine { inner: p.inner.into_affine() }
}

/// Relies on `ark_ec::AffineRepr::into_group` in G2, as `g1_from_affine`.
#[verifier::external_body]
pub(crate) fn g2_from_affine(p: &G2Affine) -> (r: G2Projective)
    ensures
        g2_dlog(r) == g2a_dlog(*p),
{
    G2Projective { inner: p.inner.into_group() }
}

/// Relies on `ark_ec::pairing::Pairing::pairing` for BLS12-381: the
/// pairing is bilinear and non-degenerate on the prime-order source
/// groups, so two pairings agree exactly when the products of the
/// discrete logarithms agree modulo the group order.
#[verifier::external_body]
pub(crate) fn pairing_eq(
    a: &G1Projective,
    b: &G2Projective,
    c: &G1Projective,
    d: &G2Projective,
) -> (r: bool)
    ensures
        r <==> ((g1_dlog(*a) * g2_dlog(*b)) % fr_ord() == (g1_dlog(*c) * g2_dlog(*d))
            % fr_ord()),
{
    ark_bls12_381::Bls12_381::pairing(a.inner, b.inner)
        == ark_bls12_381::Bls12_381::pairing(c.inner, d.inner)
}

} // verus!
