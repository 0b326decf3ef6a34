use doughnut::doughnut::DoughnutV0;
use doughnut::plug::PlugDoughnut;
use ed25519_dalek::Signer;

fn sr25519_pair(seed: u8) -> schnorrkel::Keypair {
    schnorrkel::MiniSecretKey::from_bytes(&[seed; 32])
        .unwrap()
        .expand_to_keypair(schnorrkel::ExpansionMode::Ed25519)
}

fn sr25519_sign(pair: &schnorrkel::Keypair, msg: &[u8]) -> Vec<u8> {
    pair.sign_simple(b"substrate", msg).to_bytes().to_vec()
}

fn ed25519_pair(seed: u8) -> ed25519_dalek::SigningKey {
    ed25519_dalek::SigningKey::from_bytes(&[seed; 32])
}

#[test]
fn plug_doughnut_validates() {
    let issuer = sr25519_pair(1);
    let holder = sr25519_pair(2);
    let doughnut = DoughnutV0 {
        issuer: issuer.public.to_bytes().to_vec(),
        holder: holder.public.to_bytes().to_vec(),
        expiry: 3000,
        not_before: 0,
        payload_version: 0,
        signature: vec![1u8; 64],
        signature_version: 0,
        domains: vec![("test".as_bytes().to_vec(), vec![0u8])],
    };
    let plug_doughnut = PlugDoughnut::new(doughnut);
    assert!(plug_doughnut
        .validate(&holder.public.to_bytes().to_vec(), 100)
        .is_ok());
}

#[test]
fn plug_doughnut_does_not_validate() {
    let issuer = sr25519_pair(1);
    let holder = sr25519_pair(2);
    let signer = sr25519_pair(3);
    let doughnut = DoughnutV0 {
        issuer: issuer.public.to_bytes().to_vec(),
        holder: holder.public.to_bytes().to_vec(),
        expiry: 3000,
        not_before: 1000,
        payload_version: 0,
        signature: vec![1u8; 64],
        signature_version: 0,
        domains: vec![("test".as_bytes().to_vec(), vec![0u8])],
    };
    let plug_doughnut = PlugDoughnut::new(doughnut);
    // premature
    assert!(plug_doughnut
        .validate(&holder.public.to_bytes().to_vec(), 999)
        .is_err());
    // expired
    assert!(plug_doughnut
        .validate(&holder.public.to_bytes().to_vec(), 3001)
        .is_err());
    // signer is not holder
    assert!(plug_doughnut
        .validate(&signer.public.to_bytes().to_vec(), 100)
        .is_err());
}

#[test]
fn plug_doughnut_verifies_sr25519_signature() {
    let issuer = sr25519_pair(1);
    let holder = sr25519_pair(2);
    let mut doughnut = DoughnutV0 {
        issuer: issuer.public.to_bytes().to_vec(),
        holder: holder.public.to_bytes().to_vec(),
        expiry: 0,
        not_before: 0,
        payload_version: 0,
        signature: vec![1u8; 64],
        signature_version: 0,
        domains: vec![("test".as_bytes().to_vec(), vec![0u8])],
    };
    doughnut.signature = sr25519_sign(&issuer, &doughnut.payload());
    let plug_doughnut = PlugDoughnut::new(doughnut);
    assert!(plug_doughnut.verify());
}

#[test]
fn plug_doughnut_does_not_verify_sr25519_signature() {
    let issuer = sr25519_pair(1);
    let holder = sr25519_pair(2);
    let mut doughnut = DoughnutV0 {
        issuer: issuer.public.to_bytes().to_vec(),
        holder: holder.public.to_bytes().to_vec(),
        expiry: 0,
        not_before: 0,
        payload_version: 0,
        signature: vec![1u8; 64],
        signature_version: 0,
        domains: vec![("test".as_bytes().to_vec(), vec![0u8])],
    };
    // !issuer signs the doughnut
    doughnut.signature = sr25519_sign(&holder, &doughnut.payload());
    let plug_doughnut = PlugDoughnut::new(doughnut);
    assert_eq!(plug_doughnut.verify(), false);
}

#[test]
fn plug_doughnut_verifies_ed25519_signature() {
    let issuer = ed25519_pair(1);
    let holder = ed25519_pair(2);
    let mut doughnut = DoughnutV0 {
        issuer: issuer.verifying_key().to_bytes().to_vec(),
        holder: holder.verifying_key().to_bytes().to_vec(),
        expiry: 0,
        not_before: 0,
        payload_version: 0,
        signature: vec![1u8; 64],
        signature_version: 1,
        domains: vec![("test".as_bytes().to_vec(), vec![0u8])],
    };
    doughnut.signature = issuer.sign(&doughnut.payload()).to_bytes().to_vec();
    let plug_doughnut = PlugDoughnut::new(doughnut);
    assert!(plug_doughnut.verify());
}

#[test]
fn plug_doughnut_does_not_verify_ed25519_signature() {
    let issuer = ed25519_pair(1);
    let holder = ed25519_pair(2);
    let mut doughnut = DoughnutV0 {
        issuer: issuer.verifying_key().to_bytes().to_vec(),
        holder: holder.verifying_key().to_bytes().to_vec(),
        expiry: 0,
        not_before: 0,
        payload_version: 0,
        signature: vec![1u8; 64],
        signature_version: 1,
        domains: vec![("test".as_bytes().to_vec(), vec![0u8])],
    };
    // !holder signs the doughnuts
    doughnut.signature = holder.sign(&doughnut.payload()).to_bytes().to_vec();
    let plug_doughnut = PlugDoughnut::new(doughnut);
    assert_eq!(plug_doughnut.verify(), false);
}

#[test]
fn plug_doughnut_does_not_verify_unknown_signature_version() {
    let issuer = ed25519_pair(1);
    let holder = ed25519_pair(2);
    let mut doughnut = DoughnutV0 {
        issuer: issuer.verifying_key().to_bytes().to_vec(),
        holder: holder.verifying_key().to_bytes().to_vec(),
        expiry: 0,
        not_before: 0,
        payload_version: 0,
        signature: vec![1u8; 64],
        signature_version: 200,
        domains: vec![("test".as_bytes().to_vec(), vec![0u8])],
    };
    doughnut.signature = issuer.sign(&doughnut.payload()).to_bytes().to_vec();
    let plug_doughnut = PlugDoughnut::new(doughnut);
    assert_eq!(plug_doughnut.verify(), false);
}

#[test]
fn plug_doughnut_proxies_to_inner_doughnut() {
    let issuer = [0u8; 32];
    let holder = [1u8; 32];
    let expiry = 55555;
    let not_before = 123;
    let signature = [1u8; 64];
    let signature_version = 1;

    let doughnut = PlugDoughnut::new(DoughnutV0 {
        issuer: issuer.to_vec(),
        holder: holder.to_vec(),
        expiry,
        not_before,
        payload_version: 0,
        signature: signature.to_vec(),
        signature_version,
        domains: vec![("test".as_bytes().to_vec(), vec![0u8])],
    });

    assert_eq!(doughnut.issuer(), issuer.to_vec());
    assert_eq!(doughnut.holder(), holder.to_vec());
    assert_eq!(doughnut.expiry(), expiry);
    assert_eq!(doughnut.not_before(), not_before);
    assert_eq!(doughnut.signature_version(), signature_version);
    assert_eq!(&doughnut.signature()[..], &signature[..]);
    assert_eq!(doughnut.payload(), doughnut.0.payload());
}
