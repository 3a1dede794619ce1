use signet::cert::{key_id, Alg, Cert, Role, CERT_VERSION, FIXED_LEN};
use signet::chain::KEY_LEN;
use signet::Error;

fn cert() -> Cert {
    Cert {
        alg: Alg::FnDsa512,
        issuer: [9; 8],
        role: Role::Eoc,
        valid_until: 1234,
        tesla_root: [7; KEY_LEN],
        sign_pubkey: vec![1; 897],
        kem_pubkey: vec![2; 1184],
        sig: vec![3; 666],
    }
}

#[test]
fn cert_roundtrip_preserves_every_field() {
    let c = cert();
    assert_eq!(Cert::decode(&c.encode()).unwrap(), c);
}

#[test]
fn absent_kem_key_roundtrips() {
    let c = Cert {
        kem_pubkey: Vec::new(),
        ..cert()
    };
    let decoded = Cert::decode(&c.encode()).unwrap();
    assert!(decoded.kem_pubkey.is_empty());
    assert_eq!(decoded, c);
}

#[test]
fn tbs_is_a_prefix_of_encode_and_excludes_the_signature() {
    let c = cert();
    let (tbs, enc) = (c.tbs(), c.encode());
    assert!(enc.starts_with(&tbs));
    assert_eq!(enc.len(), tbs.len() + 2 + c.sig.len());
    let other = Cert {
        sig: vec![0; 666],
        ..c.clone()
    };
    assert_eq!(other.tbs(), tbs);
}

#[test]
fn fingerprint_covers_the_signature() {
    let c = cert();
    let resigned = Cert {
        sig: vec![4; 666],
        ..c.clone()
    };
    assert_ne!(c.fingerprint(), resigned.fingerprint());
}

#[test]
fn fingerprint_is_stable() {
    assert_eq!(cert().fingerprint(), cert().fingerprint());
}

#[test]
fn truncated_buffers_rejected_at_every_stage() {
    let enc = cert().encode();
    for cut in [0, 10, 47, FIXED_LEN, FIXED_LEN + 1, enc.len() - 1] {
        assert!(
            Cert::decode(&enc[..cut]).is_err(),
            "accepted a {cut}-byte cert"
        );
    }
}

#[test]
fn trailing_bytes_rejected() {
    let mut enc = cert().encode();
    enc.push(0);
    assert!(matches!(Cert::decode(&enc), Err(Error::TrailingBytes(1))));
}

#[test]
fn unknown_version_and_alg_rejected() {
    let mut enc = cert().encode();
    enc[0] = 9;
    assert!(matches!(Cert::decode(&enc), Err(Error::UnknownVersion(9))));

    let mut enc = cert().encode();
    enc[1] = 200;
    assert!(matches!(Cert::decode(&enc), Err(Error::UnknownAlg(200))));
}

#[test]
fn oversized_length_prefix_rejected() {
    let mut enc = cert().encode();
    enc[FIXED_LEN] = 0xEA;
    enc[FIXED_LEN + 1] = 0x60;
    assert!(Cert::decode(&enc).is_err());
}

#[test]
fn unknown_roles_degrade_to_civilian() {
    assert_eq!(Role::from_u16(999), Role::Civilian);
    assert_eq!(Role::from_u16(2), Role::Eoc);
}

#[test]
fn expiry_is_inclusive_of_the_final_round() {
    let c = cert();
    assert!(c.is_valid_at(1234));
    assert!(!c.is_valid_at(1235));
}

#[test]
fn key_id_matches_issuer_derivation() {
    assert_eq!(
        key_id(b"a root verifying key"),
        key_id(b"a root verifying key")
    );
    assert_ne!(key_id(b"root a"), key_id(b"root b"));
}

#[test]
fn key_id_is_the_leading_bytes_of_sha256() {
    // SHA-256("abc") = ba7816bf 8f01cfea 414140de ...
    assert_eq!(key_id(b"abc"), [0xba, 0x78, 0x16, 0xbf, 0x8f, 0x01, 0xcf, 0xea]);
    // SHA-256("") = e3b0c442 98fc1c14 ...
    assert_eq!(key_id(b""), [0xe3, 0xb0, 0xc4, 0x42, 0x98, 0xfc, 0x1c, 0x14]);
}

#[test]
fn encoding_lays_out_the_fixed_fields() {
    let enc = cert().encode();
    assert_eq!(enc[0], CERT_VERSION);
    assert_eq!(enc[1], 1);
    assert_eq!(&enc[2..10], &[9u8; 8]);
    assert_eq!(&enc[10..12], &[0, 2]);
    assert_eq!(&enc[12..16], &1234u32.to_be_bytes());
    assert_eq!(&enc[16..48], &[7u8; 32]);
    assert_eq!(&enc[48..50], &897u16.to_be_bytes());
    assert_eq!(enc.len(), FIXED_LEN + 2 + 897 + 2 + 1184 + 2 + 666);
}

#[test]
fn codes_map_both_ways() {
    for r in [Role::Civilian, Role::Responder, Role::Eoc] {
        assert_eq!(Role::from_u16(r.code()), r);
    }
    assert_eq!(Alg::from_u8(1), Ok(Alg::FnDsa512));
    assert_eq!(Alg::from_u8(2), Err(Error::UnknownAlg(2)));
    assert_eq!(Alg::FnDsa512.code(), 1);
    assert!(Role::Civilian < Role::Responder && Role::Responder < Role::Eoc);
}

#[test]
fn a_length_prefix_shorter_than_its_field_leaves_trailing_bytes() {
    let c = cert();
    let mut enc = c.encode();
    // Shrink the claimed signature length by one: the last byte is left over.
    let n = enc.len();
    let sig_len_at = n - 666 - 2;
    enc[sig_len_at + 1] -= 1;
    assert!(matches!(Cert::decode(&enc), Err(Error::TrailingBytes(1))));
}
