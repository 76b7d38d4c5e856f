//! Adapter to the Fiat–Shamir transcript: a byte-absorbing sponge with
//! labelled appends and field-element challenges, together with the
//! fixed byte layout used by every opening and verification.

use vstd::prelude::*;

use crate::curve::{fr_ord, fr_val, Fr, G1Affine};
use crate::Error;

verus! {

#[verifier::external_type_specification]
#[verifier::external_body]
pub struct ExTranscript(merlin::Transcript);

/// Relies on merlin's `Transcript::append_message`: absorbs the labelled
/// bytes into the sponge state; it cannot fail.
#[verifier::external_body]
pub(crate) fn transcript_append(t: &mut merlin::Transcript, label: &'static str, msg: &Vec<u8>) {
    t.append_message(label.as_bytes(), msg.as_slice());
}

/// Relies on merlin's `Transcript::challenge_bytes`: fills the buffer
/// with 32 bytes squeezed from the sponge state.
#[verifier::external_body]
pub(crate) fn challenge_bytes32(t: &mut merlin::Transcript, label: &'static str) -> (r: Vec<u8>)
    ensures
        r@.len() == 32,
{
    let mut buf = [0u8; 32];
    t.challenge_bytes(label.as_bytes(), &mut buf);
    buf.to_vec()
}

/// Derives a field challenge: 32 squeezed bytes read little-endian and
/// reduced modulo the field order.  The value depends on the sponge
/// state, so nothing more is promised of it.
pub fn get_challenge(t: &mut merlin::Transcript, label: &'static str) -> (r: Fr)
    ensures
        0 <= fr_val(r) < fr_ord(),
{
    let buf = challenge_bytes32(t, label);
    Fr::from_le_bytes(&buf)
}

/// Appends every point and then every evaluation, each as its canonical
/// 32-byte encoding, after checking that every row matches the point
/// count.  Fails with `EvalsIncorrectSize` exactly when a row has the
/// wrong length; on failure nothing has been appended.
pub fn transcribe_points_and_evals(
    t: &mut merlin::Transcript,
    points: &Vec<Fr>,
    evals: &Vec<Vec<Fr>>,
) -> (res: Result<(), Error>)
    ensures
        res.is_ok() <==> (forall|i: int|
            0 <= i < evals@.len() ==> (#[trigger] evals@[i]@).len() == points@.len()),
        res matches Err(e) ==> exists|i: int|
            0 <= i < evals@.len() && e == (Error::EvalsIncorrectSize {
                expected: points@.len() as usize,
                got: (#[trigger] evals@[i]@).len() as usize,
            }) && evals@[i]@.len() != points@.len(),
{
    let m = points.len();
    let mut i: usize = 0;
    while i < evals.len()
        invariant
            i <= evals@.len(),
            m == points@.len(),
            forall|j: int| 0 <= j < i ==> (#[trigger] evals@[j]@).len() == m,
        decreases evals@.len() - i,
    {
        if evals[i].len() != m {
            proof {
                assert(evals@[i as int]@.len() != m);
            }
            return Err(Error::EvalsIncorrectSize { expected: m, got: evals[i].len() });
        }
        i = i + 1;
    }
    let mut k: usize = 0;
    while k < points.len()
        invariant
            k <= points@.len(),
        decreases points@.len() - k,
    {
        let bts = points[k].to_bytes();
        transcript_append(t, "append_point", &bts);
        k = k + 1;
    }
    let mut r: usize = 0;
    while r < evals.len()
        invariant
            r <= evals@.len(),
        decreases evals@.len() - r,
    {
        let mut c: usize = 0;
        while c < evals[r].len()
            invariant
                r < evals@.len(),
                c <= evals@[r as int]@.len(),
            decreases evals@[r as int]@.len() - c,
        {
            let bts = evals[r][c].to_bytes();
            transcript_append(t, "append_eval", &bts);
            c = c + 1;
        }
        r = r + 1;
    }
    Ok(())
}

/// Appends a G1 point under the given label in compressed form.
pub fn transcribe_g1(t: &mut merlin::Transcript, label: &'static str, p: &G1Affine) {
    let bts = p.to_bytes();
    transcript_append(t, label, &bts);
}

} // verus!
