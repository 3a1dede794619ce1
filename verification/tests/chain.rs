use signet::chain::{
    derive_mac_key, key_from_anchor, mac, verify_disclosure, verify_mac, Chain, KEY_LEN, MAC_LEN,
};
use signet::Error;

fn chain() -> Chain {
    Chain::from_seed(b"test seed, not a real one", 64)
}

fn hex(s: &str) -> Vec<u8> {
    (0..s.len())
        .step_by(2)
        .map(|i| u8::from_str_radix(&s[i..i + 2], 16).unwrap())
        .collect()
}

#[test]
fn keys_recover_backwards_from_an_anchor() {
    let c = chain();
    let anchor = c.key(9).unwrap();
    assert_eq!(key_from_anchor(&anchor, 9, 9).unwrap(), c.key(9).unwrap());
    assert_eq!(key_from_anchor(&anchor, 9, 4).unwrap(), c.key(4).unwrap());
    assert_eq!(key_from_anchor(&anchor, 9, 0).unwrap(), c.commitment());
}

#[test]
fn future_keys_are_not_derivable() {
    let c = chain();
    assert!(key_from_anchor(&c.key(9).unwrap(), 9, 10).is_none());
}

#[test]
fn disclosure_verifies_against_commitment() {
    let c = chain();
    let k5 = c.key(5).unwrap();
    assert!(verify_disclosure(&c.commitment(), 0, 5, &k5));
}

#[test]
fn gap_recovery_works() {
    let c = chain();
    let anchor = c.key(3).unwrap();
    let k7 = c.key(7).unwrap();
    assert!(verify_disclosure(&anchor, 3, 7, &k7));
}

#[test]
fn replay_and_rollback_rejected() {
    let c = chain();
    let anchor = c.key(9).unwrap();
    assert!(!verify_disclosure(&anchor, 9, 9, &anchor));
    let k4 = c.key(4).unwrap();
    assert!(!verify_disclosure(&anchor, 9, 4, &k4));
}

#[test]
fn forged_key_rejected() {
    let c = chain();
    assert!(!verify_disclosure(&c.commitment(), 0, 5, &[0xAA; KEY_LEN]));
}

#[test]
fn keys_from_different_seeds_do_not_cross_verify() {
    let a = chain();
    let b = Chain::from_seed(b"a completely different seed", 64);
    assert!(!verify_disclosure(
        &a.commitment(),
        0,
        5,
        &b.key(5).unwrap()
    ));
}

#[test]
fn mac_key_is_not_the_disclosed_key() {
    let c = chain();
    assert_ne!(c.key(1).unwrap(), c.mac_key(1).unwrap());
}

#[test]
fn mac_roundtrip_and_tamper_detection() {
    let c = chain();
    let mk = c.mac_key(2).unwrap();
    let tag = mac(&mk, b"bridge out at 5th st");
    assert!(verify_mac(&mk, b"bridge out at 5th st", &tag));
    assert!(!verify_mac(&mk, b"bridge open at 5th st", &tag));
    assert!(!verify_mac(
        &c.mac_key(3).unwrap(),
        b"bridge out at 5th st",
        &tag
    ));
}

#[test]
fn interval_beyond_chain_is_an_error() {
    let c = chain();
    assert!(matches!(
        c.key(65),
        Err(Error::IntervalOutOfRange {
            interval: 65,
            max: 64
        })
    ));
}

#[test]
fn chain_keys_are_iterated_sha256_of_the_seed() {
    let c = chain();
    assert_eq!(c.max_interval(), 64);
    assert_eq!(
        c.key(64).unwrap().to_vec(),
        hex("018fb724a34478884a0cae381114f62771ee9a3b40abb58d2f87f41289f482e8")
    );
    assert_eq!(
        c.commitment().to_vec(),
        hex("45e533c2aba75a5223844de5bbde7934dc1eb25170f294bf428ac22f2fa6ee25")
    );
}

#[test]
fn mac_key_and_tag_match_known_values() {
    let c = chain();
    let mk = c.mac_key(2).unwrap();
    assert_eq!(
        mk.to_vec(),
        hex("3bb92673c2c2aa9780980fd7fd348b3ec57d9a5014e1f9516f108ef8b2fda70f")
    );
    assert_eq!(derive_mac_key(&c.key(2).unwrap()), mk);
    let tag = mac(&mk, b"bridge out at 5th st");
    assert_eq!(tag.len(), MAC_LEN);
    assert_eq!(tag.to_vec(), hex("a842be7752573f9c0cfba670b21b8e79"));
}

#[test]
fn mac_key_beyond_chain_is_an_error() {
    let c = Chain::from_seed(b"short", 3);
    assert!(c.mac_key(3).is_ok());
    assert_eq!(
        c.mac_key(4),
        Err(Error::IntervalOutOfRange {
            interval: 4,
            max: 3
        })
    );
}

#[test]
fn every_key_hashes_forward_onto_the_commitment() {
    let c = chain();
    for i in 1..=64u32 {
        assert!(verify_disclosure(&c.commitment(), 0, i, &c.key(i).unwrap()));
        assert_eq!(key_from_anchor(&c.key(i).unwrap(), i, 0).unwrap(), c.commitment());
    }
}
