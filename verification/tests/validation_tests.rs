use doughnut::doughnut::{DoughnutV0, ValidationError};
use doughnut::plug::{DispatchError, PlugDoughnut, PresentationError};
use ed25519_dalek::Signer;

fn token(holder: &[u8; 32], not_before: u32, expiry: u32) -> DoughnutV0 {
    DoughnutV0 {
        issuer: vec![0u8; 32],
        holder: holder.to_vec(),
        not_before,
        expiry,
        payload_version: 0,
        signature: vec![1u8; 64],
        signature_version: 0,
        domains: vec![("test".as_bytes().to_vec(), vec![0u8])],
    }
}

#[test]
fn validate_accepts_holder_inside_window() {
    let holder = [2u8; 32];
    let d = token(&holder, 0, 3000);
    assert_eq!(d.validate(&holder.to_vec(), 100), Ok(()));
}

#[test]
fn validate_reports_expired_at_and_after_expiry() {
    let holder = [2u8; 32];
    let d = token(&holder, 0, 3000);
    assert_eq!(
        d.validate(&holder.to_vec(), 3001),
        Err(ValidationError::Expired)
    );
    assert_eq!(
        d.validate(&holder.to_vec(), 3000),
        Err(ValidationError::Expired)
    );
}

#[test]
fn validate_reports_premature_below_not_before() {
    let holder = [2u8; 32];
    let d = token(&holder, 1000, 3000);
    assert_eq!(
        d.validate(&holder.to_vec(), 999),
        Err(ValidationError::Premature)
    );
    assert_eq!(d.validate(&holder.to_vec(), 1000), Ok(()));
}

#[test]
fn validate_reports_holder_mismatch_whatever_the_clock_says() {
    let holder = [2u8; 32];
    let d = token(&holder, 1000, 3000);
    for now in [0, 999, 1000, 2000, 3000, 4000] {
        assert_eq!(
            d.validate(&[3u8; 32].to_vec(), now),
            Err(ValidationError::HolderMismatch)
        );
    }
}

#[test]
fn verify_is_deterministic_over_equal_tokens() {
    let issuer = ed25519_dalek::SigningKey::from_bytes(&[5u8; 32]);
    let mut d = token(&[2u8; 32], 0, 3000);
    d.issuer = issuer.verifying_key().to_bytes().to_vec();
    d.signature_version = 1;
    d.signature = issuer.sign(&d.payload()).to_bytes().to_vec();
    let one = PlugDoughnut::new(d.clone());
    let two = PlugDoughnut::new(d);
    assert_eq!(one.verify(), two.verify());
    assert!(one.verify());
}

#[test]
fn stored_signature_over_own_payload_must_match() {
    // a mismatched signature fails verification regardless of an
    // otherwise-valid window and holder
    let issuer = ed25519_dalek::SigningKey::from_bytes(&[5u8; 32]);
    let holder = [2u8; 32];
    let mut d = token(&holder, 0, 3000);
    d.issuer = issuer.verifying_key().to_bytes().to_vec();
    d.signature_version = 1;
    d.signature = issuer.sign(b"something else entirely").to_bytes().to_vec();
    let plug = PlugDoughnut::new(d);
    assert!(plug.validate(&holder.to_vec(), 100).is_ok());
    assert_eq!(plug.verify(), false);
}

#[test]
fn validate_dispatch_orders_signature_before_window() {
    let issuer = ed25519_dalek::SigningKey::from_bytes(&[5u8; 32]);
    let holder = [2u8; 32];
    let mut d = token(&holder, 0, 3000);
    d.issuer = issuer.verifying_key().to_bytes().to_vec();
    d.signature_version = 1;
    let unsigned = PlugDoughnut::new(d.clone());
    assert_eq!(
        unsigned.validate_dispatch(&holder.to_vec(), 100),
        Err(DispatchError::BadSignature)
    );
    d.signature = issuer.sign(&d.payload()).to_bytes().to_vec();
    let signed = PlugDoughnut::new(d);
    assert_eq!(signed.validate_dispatch(&holder.to_vec(), 100), Ok(()));
    assert_eq!(
        signed.validate_dispatch(&holder.to_vec(), 3001),
        Err(DispatchError::NoPermission)
    );
    assert_eq!(
        signed.validate_dispatch(&[3u8; 32].to_vec(), 100),
        Err(DispatchError::NoPermission)
    );
}

#[test]
fn validate_presentation_surfaces_the_distinct_reason() {
    let issuer = ed25519_dalek::SigningKey::from_bytes(&[5u8; 32]);
    let holder = [2u8; 32];
    let mut d = token(&holder, 1000, 3000);
    d.issuer = issuer.verifying_key().to_bytes().to_vec();
    d.signature_version = 1;
    let unsigned = PlugDoughnut::new(d.clone());
    assert_eq!(
        unsigned.validate_presentation(&holder.to_vec(), 2000),
        Err(PresentationError::BadSignature)
    );
    d.signature = issuer.sign(&d.payload()).to_bytes().to_vec();
    let signed = PlugDoughnut::new(d);
    assert_eq!(signed.validate_presentation(&holder.to_vec(), 2000), Ok(()));
    assert_eq!(
        signed.validate_presentation(&holder.to_vec(), 999),
        Err(PresentationError::Validation(ValidationError::Premature))
    );
    assert_eq!(
        signed.validate_presentation(&holder.to_vec(), 3000),
        Err(PresentationError::Validation(ValidationError::Expired))
    );
    assert_eq!(
        signed.validate_presentation(&[3u8; 32].to_vec(), 2000),
        Err(PresentationError::Validation(ValidationError::HolderMismatch))
    );
}

#[test]
fn get_domain_returns_first_match_in_order() {
    let mut d = token(&[2u8; 32], 0, 3000);
    d.domains = vec![
        ("a".as_bytes().to_vec(), vec![1]),
        ("b".as_bytes().to_vec(), vec![2]),
        ("a".as_bytes().to_vec(), vec![3]),
    ];
    assert_eq!(d.get_domain(&"a".as_bytes().to_vec()), Some(&vec![1u8]));
    assert_eq!(d.get_domain(&"b".as_bytes().to_vec()), Some(&vec![2u8]));
}

#[test]
fn get_domain_misses_on_absent_name_even_with_entries() {
    let d = token(&[2u8; 32], 0, 3000);
    assert_eq!(d.get_domain(&"absent".as_bytes().to_vec()), None);
    let plug = PlugDoughnut::new(d);
    assert_eq!(plug.get_domain(&"test".as_bytes().to_vec()), Some(&vec![0u8]));
}

#[test]
fn dispatcher_refuses_every_dispatch() {
    let plug = PlugDoughnut::new(token(&[2u8; 32], 0, 3000));
    assert!(doughnut::plug::PlugDoughnutDispatcher::verify(&plug, "module", "method").is_err());
}
