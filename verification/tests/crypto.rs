use signet::cert::{Cert, Role};
use signet::crypto::{
    verify, verify_cert, DomainContext, Error, KeyPair, DOMAIN_CERT, DOMAIN_MESSAGE, SIGN_KEY_LEN,
    SIG_LEN, VRFY_KEY_LEN,
};

#[test]
fn published_sizes_match_the_spec() {
    assert_eq!(VRFY_KEY_LEN, 897);
    assert_eq!(SIG_LEN, 666);
}

#[test]
fn sign_and_verify_roundtrip() {
    let k = KeyPair::generate();
    let sig = k.sign(&DOMAIN_MESSAGE, b"evacuate north of 5th");
    assert!(verify(
        k.verifying_key(),
        &DOMAIN_MESSAGE,
        b"evacuate north of 5th",
        &sig
    ));
}

#[test]
fn tampered_message_rejected() {
    let k = KeyPair::generate();
    let sig = k.sign(&DOMAIN_MESSAGE, b"evacuate north of 5th");
    assert!(!verify(
        k.verifying_key(),
        &DOMAIN_MESSAGE,
        b"evacuate south of 5th",
        &sig
    ));
}

#[test]
fn wrong_key_rejected() {
    let (a, b) = (KeyPair::generate(), KeyPair::generate());
    let sig = a.sign(&DOMAIN_MESSAGE, b"x");
    assert!(!verify(b.verifying_key(), &DOMAIN_MESSAGE, b"x", &sig));
}

#[test]
fn domains_do_not_cross() {
    let k = KeyPair::generate();
    let sig = k.sign(&DOMAIN_CERT, b"payload");
    assert!(verify(k.verifying_key(), &DOMAIN_CERT, b"payload", &sig));
    assert!(!verify(
        k.verifying_key(),
        &DOMAIN_MESSAGE,
        b"payload",
        &sig
    ));
}

#[test]
fn issued_cert_verifies_against_its_root() {
    let (root, holder) = (KeyPair::generate(), KeyPair::generate());
    let cert = root.issue(&holder, [7; 32], Role::Eoc, 1000);
    assert!(verify_cert(&cert, root.verifying_key()).unwrap());
    assert_eq!(cert.sign_pubkey, holder.verifying_key());
    assert_eq!(cert.issuer, root.id());
}

#[test]
fn cert_survives_a_wire_roundtrip() {
    let (root, holder) = (KeyPair::generate(), KeyPair::generate());
    let cert = root.issue(&holder, [7; 32], Role::Responder, 1000);
    let decoded = Cert::decode(&cert.encode()).unwrap();
    assert!(verify_cert(&decoded, root.verifying_key()).unwrap());
    assert_eq!(decoded.fingerprint(), cert.fingerprint());
}

#[test]
fn cert_from_another_root_rejected() {
    let (root, evil, holder) = (
        KeyPair::generate(),
        KeyPair::generate(),
        KeyPair::generate(),
    );
    let cert = evil.issue(&holder, [7; 32], Role::Eoc, 1000);
    assert!(!verify_cert(&cert, root.verifying_key()).unwrap());
}

#[test]
fn tampering_with_a_signed_field_invalidates_the_cert() {
    let (root, holder) = (KeyPair::generate(), KeyPair::generate());
    let cert = root.issue(&holder, [7; 32], Role::Civilian, 1000);

    let promoted = Cert {
        role: Role::Eoc,
        ..cert.clone()
    };
    assert!(!verify_cert(&promoted, root.verifying_key()).unwrap());

    let extended = Cert {
        valid_until: u32::MAX,
        ..cert.clone()
    };
    assert!(!verify_cert(&extended, root.verifying_key()).unwrap());

    let swapped = Cert {
        tesla_root: [9; 32],
        ..cert.clone()
    };
    assert!(!verify_cert(&swapped, root.verifying_key()).unwrap());

    let rekeyed = Cert {
        sign_pubkey: KeyPair::generate().verifying_key().to_vec(),
        ..cert
    };
    assert!(!verify_cert(&rekeyed, root.verifying_key()).unwrap());
}

#[test]
fn relabelled_issuer_rejected() {
    let (root, other, holder) = (
        KeyPair::generate(),
        KeyPair::generate(),
        KeyPair::generate(),
    );
    let mut cert = root.issue(&holder, [7; 32], Role::Eoc, 1000);
    cert.issuer = other.id();
    assert!(!verify_cert(&cert, other.verifying_key()).unwrap());
    assert!(!verify_cert(&cert, root.verifying_key()).unwrap());
}

#[test]
fn malformed_keys_rejected_rather_than_panicking() {
    assert!(!verify(&[0u8; 10], &DOMAIN_MESSAGE, b"x", &[0u8; SIG_LEN]));
    assert!(KeyPair::from_parts(vec![0; 10], vec![0; 10]).is_err());
}

#[test]
fn generated_keys_have_the_published_sizes_and_reload() {
    let k = KeyPair::generate();
    assert_eq!(k.signing_key().len(), SIGN_KEY_LEN);
    assert_eq!(k.verifying_key().len(), VRFY_KEY_LEN);
    let again = KeyPair::from_parts(k.signing_key().to_vec(), k.verifying_key().to_vec()).unwrap();
    assert_eq!(again.id(), k.id());
    let sig = again.sign(&DOMAIN_MESSAGE, b"reloaded");
    assert_eq!(sig.len(), SIG_LEN);
    assert!(verify(k.verifying_key(), &DOMAIN_MESSAGE, b"reloaded", &sig));
}

#[test]
fn one_bad_half_is_enough_to_refuse_a_key_pair() {
    let k = KeyPair::generate();
    assert_eq!(
        KeyPair::from_parts(k.signing_key().to_vec(), vec![0; VRFY_KEY_LEN]).err(),
        Some(Error::BadKey)
    );
    assert_eq!(
        KeyPair::from_parts(vec![0; SIGN_KEY_LEN], k.verifying_key().to_vec()).err(),
        Some(Error::BadKey)
    );
}

#[test]
fn issue_fills_every_field() {
    let (root, holder) = (KeyPair::generate(), KeyPair::generate());
    let cert = root.issue(&holder, [3; 32], Role::Responder, 77);
    assert_eq!(cert.role, Role::Responder);
    assert_eq!(cert.valid_until, 77);
    assert_eq!(cert.tesla_root, [3; 32]);
    assert!(cert.kem_pubkey.is_empty());
    assert_eq!(cert.sig.len(), SIG_LEN);
    assert!(verify(root.verifying_key(), &DOMAIN_CERT, &cert.tbs(), &cert.sig));
}

#[test]
fn domain_contexts_are_the_published_strings() {
    assert_eq!(DOMAIN_CERT.bytes(), b"signet/v1/cert".to_vec());
    assert_eq!(DOMAIN_MESSAGE.bytes(), b"signet/v1/msg".to_vec());
}

#[test]
fn a_cloned_key_pair_is_the_same_identity() {
    let k = KeyPair::generate();
    let c = k.clone();
    assert_eq!(c.signing_key(), k.signing_key());
    assert_eq!(c.verifying_key(), k.verifying_key());
}

#[test]
fn an_issued_cert_signs_its_own_tbs_in_the_cert_domain() {
    let (root, holder) = (KeyPair::generate(), KeyPair::generate());
    let cert = root.issue(&holder, [1; 32], Role::Eoc, 5);
    assert!(verify(root.verifying_key(), &DOMAIN_CERT, &cert.tbs(), &cert.sig));
    assert!(!verify(root.verifying_key(), &DOMAIN_MESSAGE, &cert.tbs(), &cert.sig));
}

#[test]
fn a_custom_domain_separates_like_the_built_in_ones() {
    let k = KeyPair::generate();
    let ops = DomainContext::Other(b"ops/drill".to_vec());
    assert_eq!(ops.bytes(), b"ops/drill".to_vec());
    let sig = k.sign(&ops, b"muster at the school");
    assert!(verify(k.verifying_key(), &ops, b"muster at the school", &sig));
    assert!(!verify(k.verifying_key(), &DOMAIN_MESSAGE, b"muster at the school", &sig));
    let other = DomainContext::Other(b"ops/drill2".to_vec());
    assert!(!verify(k.verifying_key(), &other, b"muster at the school", &sig));
}

#[test]
fn key_halves_of_the_wrong_shape_are_refused() {
    let k = KeyPair::generate();
    assert_eq!(k.signing_key()[0], 0x59);
    assert_eq!(k.verifying_key()[0], 0x09);
    let mut sk = k.signing_key().to_vec();
    sk[0] = 0x5A;
    assert_eq!(
        KeyPair::from_parts(sk, k.verifying_key().to_vec()).err(),
        Some(Error::BadKey)
    );
    let mut vk = k.verifying_key().to_vec();
    vk.push(0);
    assert_eq!(
        KeyPair::from_parts(k.signing_key().to_vec(), vk).err(),
        Some(Error::BadKey)
    );
}
