//! The two signature algorithms a doughnut may carry, consumed as trusted
//! primitives from outside crates.  Verification of either algorithm is a
//! deterministic function of the issuer key bytes, the message bytes and the
//! signature bytes, and that is all the library assumes of them.

use vstd::prelude::*;

verus! {

pub uninterp spec fn sr25519_valid(issuer: Seq<u8>, msg: Seq<u8>, sig: Seq<u8>) -> bool;

pub uninterp spec fn ed25519_valid(issuer: Seq<u8>, msg: Seq<u8>, sig: Seq<u8>) -> bool;

/// Relies on schnorrkel's `PublicKey::from_bytes`, `Signature::from_bytes` and
/// `PublicKey::verify_simple` under the signing context `substrate`: whether
/// `sig` is a valid sr25519 signature by `issuer` over `msg` is a function of
/// the three byte strings alone; bytes that parse as no key or no signature
/// verify nothing.  The transcript behind `verify_simple` frames each
/// appended message with a 32-bit length and panics beyond it, so messages
/// of 2^32 bytes or more are excluded here.
#[verifier::external_body]
pub(crate) fn sr25519_verify(issuer: &Vec<u8>, msg: &Vec<u8>, sig: &Vec<u8>) -> (r: bool)
    requires
        msg@.len() < 0x100000000,
    ensures
        r == sr25519_valid(issuer@, msg@, sig@),
{
    let public = match schnorrkel::PublicKey::from_bytes(issuer) {
        Ok(p) => p,
        Err(_) => return false,
    };
    let signature = match schnorrkel::Signature::from_bytes(sig) {
        Ok(s) => s,
        Err(_) => return false,
    };
    public.verify_simple("substrate".as_bytes(), msg, &signature).is_ok()
}

/// Relies on ed25519-dalek's `VerifyingKey::from_bytes`,
/// `Signature::from_slice` and `Verifier::verify`: whether `sig` is a valid
/// ed25519 signature by `issuer` over `msg` is a function of the three byte
/// strings alone; bytes that parse as no key or no signature verify nothing.
#[verifier::external_body]
pub(crate) fn ed25519_verify(issuer: &Vec<u8>, msg: &Vec<u8>, sig: &Vec<u8>) -> (r: bool)
    ensures
        r == ed25519_valid(issuer@, msg@, sig@),
{
    let key_bytes: [u8; 32] = match issuer.as_slice().try_into() {
        Ok(b) => b,
        Err(_) => return false,
    };
    let key = match ed25519_dalek::VerifyingKey::from_bytes(&key_bytes) {
        Ok(k) => k,
        Err(_) => return false,
    };
    let signature = match ed25519_dalek::Signature::from_slice(sig) {
        Ok(s) => s,
        Err(_) => return false,
    };
    ed25519_dalek::Verifier::verify(&key, msg, &signature).is_ok()
}

} // verus!
