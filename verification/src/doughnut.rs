//! The doughnut data model and its holder/time validation.
//!
//! A doughnut certifies that `issuer` grants `holder` a set of named
//! permission domains over the half-open time window
//! `[not_before, expiry)`.  The payload bytes of each domain are opaque
//! here: interpreting them is the calling system's business.

use vstd::prelude::*;

verus! {

/// The mathematical content of a doughnut: every field as a plain value.
#[verifier::ext_equal]
pub struct DoughnutData {
    pub issuer: Seq<u8>,
    pub holder: Seq<u8>,
    pub not_before: u32,
    pub expiry: u32,
    pub payload_version: u16,
    pub signature: Seq<u8>,
    pub signature_version: u8,
    pub domains: Seq<(Seq<u8>, Seq<u8>)>,
}

/// A version-0 doughnut.
///
/// `issuer` and `holder` are 32-byte public-key identifiers; `signature` is a
/// 64-byte signature over the signing payload; `domains` is an ordered list of
/// (name, payload) pairs, the name kept as its UTF-8 bytes and compared
/// byte-for-byte.
#[derive(Clone, PartialEq, Eq, Debug)]
pub struct DoughnutV0 {
    pub issuer: Vec<u8>,
    pub holder: Vec<u8>,
    pub not_before: u32,
    pub expiry: u32,
    pub payload_version: u16,
    pub signature: Vec<u8>,
    pub signature_version: u8,
    pub domains: Vec<(Vec<u8>, Vec<u8>)>,
}

/// The plain-value view of a list of owned (name, payload) pairs.
pub open spec fn domains_view(ds: Seq<(Vec<u8>, Vec<u8>)>) -> Seq<(Seq<u8>, Seq<u8>)> {
    ds.map_values(|p: (Vec<u8>, Vec<u8>)| (p.0@, p.1@))
}

impl View for DoughnutV0 {
    type V = DoughnutData;

    open spec fn view(&self) -> DoughnutData {
        DoughnutData {
            issuer: self.issuer@,
            holder: self.holder@,
            not_before: self.not_before,
            expiry: self.expiry,
            payload_version: self.payload_version,
            signature: self.signature@,
            signature_version: self.signature_version,
            domains: domains_view(self.domains@),
        }
    }
}

impl DoughnutData {
    /// The identifier and signature fields have their fixed widths.
    pub open spec fn dims_ok(self) -> bool {
        &&& self.issuer.len() == 32
        &&& self.holder.len() == 32
        &&& self.signature.len() == 64
    }
}

/// Why a presentation was rejected by the holder/time check.
#[derive(Clone, Copy, PartialEq, Eq, Debug)]
pub enum ValidationError {
    /// The presented identity is not the doughnut's holder.
    HolderMismatch,
    /// The clock has not yet reached `not_before`.
    Premature,
    /// The clock has reached `expiry`.
    Expired,
}

/// The holder/time check: the presenting identity must be the holder, and the
/// clock must lie in the half-open window `[not_before, expiry)`.  The checks
/// run in that order and stop at the first failure.
pub open spec fn spec_validate(d: DoughnutData, who: Seq<u8>, when: u32) -> Result<
    (),
    ValidationError,
> {
    if who != d.holder {
        Err(ValidationError::HolderMismatch)
    } else if when < d.not_before {
        Err(ValidationError::Premature)
    } else if when >= d.expiry {
        Err(ValidationError::Expired)
    } else {
        Ok(())
    }
}

/// The payload of the first domain entry whose name equals `name`, in stored
/// order, if any entry matches.
pub open spec fn find_domain(ds: Seq<(Seq<u8>, Seq<u8>)>, name: Seq<u8>) -> Option<Seq<u8>>
    decreases ds.len(),
{
    if ds.len() == 0 {
        None
    } else if ds[0].0 == name {
        Some(ds[0].1)
    } else {
        find_domain(ds.drop_first(), name)
    }
}

impl DoughnutV0 {
    /// Check a presentation by `who` at clock value `when` against this
    /// doughnut's holder and validity window.  Independent of signature
    /// verification.
    pub fn validate(&self, who: &Vec<u8>, when: u32) -> (r: Result<(), ValidationError>)
        ensures
            r == spec_validate(self@, who@, when),
    {
        if !crate::eq_bytes(who, &self.holder) {
            return Err(ValidationError::HolderMismatch);
        }
        if when < self.not_before {
            return Err(ValidationError::Premature);
        }
        if when >= self.expiry {
            return Err(ValidationError::Expired);
        }
        Ok(())
    }

    /// The payload bytes of the first domain entry named `name`, borrowed from
    /// this doughnut, or `None` if no entry matches.
    pub fn get_domain<'a>(&'a self, name: &Vec<u8>) -> (r: Option<&'a Vec<u8>>)
        ensures
            match r {
                Some(p) => find_domain(self@.domains, name@) == Some(p@),
                None => find_domain(self@.domains, name@) is None,
            },
    {
        let n = self.domains.len();
        let mut i: usize = 0;
        assert(self@.domains.skip(0) =~= self@.domains);
        while i < n
            invariant
                n == self.domains@.len(),
                0 <= i <= n,
                find_domain(self@.domains, name@) == find_domain(
                    self@.domains.skip(i as int),
                    name@,
                ),
            decreases n - i,
        {
            let pair = &self.domains[i];
            proof {
                lemma_find_domain_skip_step(self@.domains, name@, i as int);
            }
            if crate::eq_bytes(&pair.0, name) {
                return Some(&pair.1);
            }
            i += 1;
        }
        None
    }
}

/// Unfolding step for the scan in `get_domain`: dropping a non-matching head
/// entry leaves the lookup result unchanged.
proof fn lemma_find_domain_skip_step(ds: Seq<(Seq<u8>, Seq<u8>)>, name: Seq<u8>, i: int)
    requires
        0 <= i < ds.len(),
    ensures
        ds[i].0 == name ==> find_domain(ds.skip(i), name) == Some(ds[i].1),
        ds[i].0 != name ==> find_domain(ds.skip(i), name) == find_domain(ds.skip(i + 1), name),
{
    assert(ds.skip(i)[0] == ds[i]);
    assert(ds.skip(i).drop_first() =~= ds.skip(i + 1));
}

/// Domain lookup returns the first match: if entry `i` is named `name` and no
/// earlier entry is, the lookup yields exactly entry `i`'s payload.
pub proof fn lemma_find_domain_first_match(ds: Seq<(Seq<u8>, Seq<u8>)>, name: Seq<u8>, i: int)
    requires
        0 <= i < ds.len(),
        ds[i].0 == name,
        forall|j: int| 0 <= j < i ==> ds[j].0 != name,
    ensures
        find_domain(ds, name) == Some(ds[i].1),
    decreases i,
{
    if i == 0 {
    } else {
        assert(ds[0].0 != name);
        assert(forall|j: int| 0 <= j < i - 1 ==> ds.drop_first()[j] == ds[j + 1]);
        lemma_find_domain_first_match(ds.drop_first(), name, i - 1);
    }
}

/// Domain lookup misses exactly when no entry carries the name, however many
/// entries the list holds.
pub proof fn lemma_find_domain_absent(ds: Seq<(Seq<u8>, Seq<u8>)>, name: Seq<u8>)
    requires
        forall|j: int| 0 <= j < ds.len() ==> ds[j].0 != name,
    ensures
        find_domain(ds, name) is None,
    decreases ds.len(),
{
    if ds.len() > 0 {
        assert(forall|j: int| 0 <= j < ds.len() - 1 ==> ds.drop_first()[j] == ds[j + 1]);
        lemma_find_domain_absent(ds.drop_first(), name);
    }
}

/// Presented by its true holder, a doughnut whose window is well-ordered is
/// accepted exactly on `not_before <= when < expiry`; it is premature exactly
/// below the window and expired exactly at or past its end.
pub proof fn lemma_validate_window(d: DoughnutData, when: u32)
    requires
        d.not_before <= d.expiry,
    ensures
        (spec_validate(d, d.holder, when) is Ok) <==> (d.not_before <= when < d.expiry),
        (spec_validate(d, d.holder, when) == Err::<(), ValidationError>(ValidationError::Premature))
            <==> when < d.not_before,
        (spec_validate(d, d.holder, when) == Err::<(), ValidationError>(ValidationError::Expired))
            <==> when >= d.expiry,
{
}

/// Presented by anyone but its holder, a doughnut is rejected with
/// `HolderMismatch`, whatever the clock says.
pub proof fn lemma_validate_holder_mismatch(d: DoughnutData, who: Seq<u8>, when: u32)
    requires
        who != d.holder,
    ensures
        spec_validate(d, who, when) == Err::<(), ValidationError>(ValidationError::HolderMismatch),
{
}

} // verus!
