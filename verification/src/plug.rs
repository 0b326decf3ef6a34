//! The transport-facing doughnut: the version-0 token together with the
//! signature check and the pre-dispatch validation that the surrounding
//! pipeline runs before acting on a presented token.

use vstd::prelude::*;

use crate::codec::{encodable, payload_enc};
use crate::crypto::{ed25519_valid, ed25519_verify, sr25519_valid, sr25519_verify};
use crate::doughnut::{spec_validate, DoughnutData, DoughnutV0, ValidationError};

verus! {

/// A doughnut wrapped for the transport layer: it rides inside an envelope of
/// length-prefixed byte vectors and carries the algorithm-versioned signature
/// check.
#[derive(Clone, PartialEq, Eq, Debug)]
pub struct PlugDoughnut(pub DoughnutV0);

impl View for PlugDoughnut {
    type V = DoughnutData;

    open spec fn view(&self) -> DoughnutData {
        self.0@
    }
}

/// Why a presented doughnut was rejected before dispatch.
#[derive(Clone, Copy, PartialEq, Eq, Debug)]
pub enum DispatchError {
    /// The signature check failed, or the signature version is unsupported.
    BadSignature,
    /// The holder/time validation failed.
    NoPermission,
}

/// The algorithm-versioned signature check: version 0 reads the issuer and
/// signature bytes as sr25519 material, version 1 as ed25519 material, and
/// either verifies them over the signing payload; every other version is
/// unsupported and verifies as false.
pub open spec fn spec_verify(d: DoughnutData) -> bool {
    if d.signature_version == 0 {
        sr25519_valid(d.issuer, payload_enc(d), d.signature)
    } else if d.signature_version == 1 {
        ed25519_valid(d.issuer, payload_enc(d), d.signature)
    } else {
        false
    }
}

/// The pre-dispatch check, in pipeline order: a bad or unsupported signature
/// rejects first; then a holder or time failure; only then is the token
/// accepted.
pub open spec fn spec_validate_dispatch(d: DoughnutData, who: Seq<u8>, now: u32) -> Result<
    (),
    DispatchError,
> {
    if !spec_verify(d) {
        Err(DispatchError::BadSignature)
    } else if spec_validate(d, who, now) is Err {
        Err(DispatchError::NoPermission)
    } else {
        Ok(())
    }
}

/// Why a presented doughnut was rejected before dispatch, with the
/// validator's distinct reason carried through for diagnosis.
#[derive(Clone, Copy, PartialEq, Eq, Debug)]
pub enum PresentationError {
    /// The signature check failed, or the signature version is unsupported.
    BadSignature,
    /// The holder/time validation failed, for this reason.
    Validation(ValidationError),
}

/// The pre-dispatch check with the validator's verdict kept whole: a bad or
/// unsupported signature rejects first; a holder or time failure rejects
/// with its own reason; only then is the token accepted.
pub open spec fn spec_validate_presentation(d: DoughnutData, who: Seq<u8>, now: u32) -> Result<
    (),
    PresentationError,
> {
    if !spec_verify(d) {
        Err(PresentationError::BadSignature)
    } else {
        match spec_validate(d, who, now) {
            Ok(u) => Ok(u),
            Err(e) => Err(PresentationError::Validation(e)),
        }
    }
}

impl PlugDoughnut {
    /// Wrap a version-0 doughnut.
    pub fn new(doughnut: DoughnutV0) -> (r: Self)
        ensures
            r@ == doughnut@,
    {
        PlugDoughnut(doughnut)
    }

    /// The doughnut holder.
    pub fn holder(&self) -> (r: Vec<u8>)
        ensures
            r@ == self@.holder,
    {
        crate::clone_bytes(&self.0.holder)
    }

    /// The doughnut issuer.
    pub fn issuer(&self) -> (r: Vec<u8>)
        ensures
            r@ == self@.issuer,
    {
        crate::clone_bytes(&self.0.issuer)
    }

    /// The expiry timestamp: the first instant at which the token is stale.
    pub fn expiry(&self) -> (r: u32)
        ensures
            r == self@.expiry,
    {
        self.0.expiry
    }

    /// The `not before` timestamp: the first instant at which the token works.
    pub fn not_before(&self) -> (r: u32)
        ensures
            r == self@.not_before,
    {
        self.0.not_before
    }

    /// The signature bytes.
    pub fn signature(&self) -> (r: Vec<u8>)
        ensures
            r@ == self@.signature,
    {
        crate::clone_bytes(&self.0.signature)
    }

    /// The tag naming the signature algorithm.
    pub fn signature_version(&self) -> (r: u8)
        ensures
            r == self@.signature_version,
    {
        self.0.signature_version
    }

    /// The signing payload of the wrapped doughnut.
    pub fn payload(&self) -> (r: Vec<u8>)
        requires
            encodable(self@),
        ensures
            r@ == payload_enc(self@),
    {
        self.0.payload()
    }

    /// The payload bytes of the first domain entry named `name`, if any.
    pub fn get_domain<'a>(&'a self, name: &Vec<u8>) -> (r: Option<&'a Vec<u8>>)
        ensures
            match r {
                Some(p) => crate::doughnut::find_domain(self@.domains, name@) == Some(p@),
                None => crate::doughnut::find_domain(self@.domains, name@) is None,
            },
    {
        self.0.get_domain(name)
    }

    /// Check the doughnut signature over the signing payload under the
    /// algorithm its `signature_version` names.  Never panics: malformed key
    /// or signature bytes and unsupported versions all come back `false`.
    pub fn verify(&self) -> (r: bool)
        requires
            encodable(self@),
        ensures
            r == spec_verify(self@),
    {
        if self.0.signature_version == 0 {
            let message = self.0.payload();
            proof {
                assert(payload_enc(self@).len() + 64 == crate::codec::body_enc(self@).len());
            }
            sr25519_verify(&self.0.issuer, &message, &self.0.signature)
        } else if self.0.signature_version == 1 {
            let message = self.0.payload();
            ed25519_verify(&self.0.issuer, &message, &self.0.signature)
        } else {
            false
        }
    }

    /// The holder/time check of the wrapped doughnut; independent of the
    /// signature check.
    pub fn validate(&self, who: &Vec<u8>, when: u32) -> (r: Result<(), ValidationError>)
        ensures
            r == spec_validate(self@, who@, when),
    {
        self.0.validate(who, when)
    }

    /// The full pre-dispatch check a pipeline runs on a presented doughnut:
    /// signature first, then holder and time window against the caller's
    /// clock.  Passing one check says nothing about the other.
    pub fn validate_dispatch(&self, who: &Vec<u8>, now: u32) -> (r: Result<(), DispatchError>)
        requires
            encodable(self@),
        ensures
            r == spec_validate_dispatch(self@, who@, now),
    {
        if !self.verify() {
            return Err(DispatchError::BadSignature);
        }
        if self.0.validate(who, now).is_err() {
            return Err(DispatchError::NoPermission);
        }
        Ok(())
    }

    /// The pre-dispatch check with the rejection reason surfaced whole, so
    /// that a caller can report to the presenter exactly why a token was
    /// turned away rather than one generic denial.
    pub fn validate_presentation(&self, who: &Vec<u8>, now: u32) -> (r: Result<
        (),
        PresentationError,
    >)
        requires
            encodable(self@),
        ensures
            r == spec_validate_presentation(self@, who@, now),
    {
        if !self.verify() {
            return Err(PresentationError::BadSignature);
        }
        match self.0.validate(who, now) {
            Ok(u) => Ok(u),
            Err(e) => Err(PresentationError::Validation(e)),
        }
    }
}

/// The two pre-dispatch checks agree: they accept the same presentations,
/// report bad signatures alike, and where the coarse check says only that
/// permission was denied, the reason-carrying one holds the validator's
/// verdict on the same presentation.
pub proof fn lemma_presentation_refines_dispatch(d: DoughnutData, who: Seq<u8>, now: u32)
    ensures
        (spec_validate_presentation(d, who, now) is Ok) == (spec_validate_dispatch(d, who, now)
            is Ok),
        (spec_validate_presentation(d, who, now) == Err::<(), PresentationError>(
            PresentationError::BadSignature,
        )) == (spec_validate_dispatch(d, who, now) == Err::<(), DispatchError>(
            DispatchError::BadSignature,
        )),
        spec_validate_dispatch(d, who, now) == Err::<(), DispatchError>(DispatchError::NoPermission)
            ==> spec_validate_presentation(d, who, now) == Err::<(), PresentationError>(
            PresentationError::Validation(spec_validate(d, who, now).unwrap_err()),
        ),
{
}

/// Signature verification is a pure function of a token's fields: two
/// tokens that agree field by field verify equally.  The check reads the
/// token by shared reference, writes no state and consults no cached
/// configuration, so any number of concurrent calls on the same token
/// return this one value.
pub proof fn lemma_verify_deterministic(d1: DoughnutData, d2: DoughnutData)
    requires
        d1.issuer == d2.issuer,
        d1.holder == d2.holder,
        d1.not_before == d2.not_before,
        d1.expiry == d2.expiry,
        d1.payload_version == d2.payload_version,
        d1.signature == d2.signature,
        d1.signature_version == d2.signature_version,
        d1.domains == d2.domains,
    ensures
        spec_verify(d1) == spec_verify(d2),
{
    assert(d1 =~= d2);
}

/// A signature version other than the two supported algorithms never
/// verifies, however well-formed the rest of the token is.
pub proof fn lemma_verify_unsupported_version(d: DoughnutData)
    requires
        d.signature_version != 0,
        d.signature_version != 1,
    ensures
        !spec_verify(d),
{
}

/// Decides whether a doughnut authorizes a module/method dispatch for this
/// permission domain.
pub struct PlugDoughnutDispatcher;

impl PlugDoughnutDispatcher {
    /// Verify that a doughnut proof authorizes a method dispatch.  No domain
    /// schema is defined for this dispatcher, so every dispatch is refused.
    pub fn verify(_doughnut: &PlugDoughnut, _module: &str, _method: &str) -> (r: Result<
        (),
        &'static str,
    >)
        ensures
            r matches Err(m) && m@ == "Doughnut dispatch verification is not implemented for this domain"@,
    {
        Err("Doughnut dispatch verification is not implemented for this domain")
    }
}

} // verus!
