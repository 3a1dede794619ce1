use signet::cert::{Cert, Role};
use signet::chain::Chain;
use signet::channel::Channel;
use signet::crypto::{verify_cert, KeyPair};
use signet::frag::{split, Reassembler, FRAG_HEADER_LEN};
use signet::session::{Outcome, Receiver, Reject, Sender};
use signet::store::FactKind;
use signet::time::{Schedule, TimeBound};
use signet::wire::HEADER_LEN;

const STATUS: FactKind = 0;
const EPOCH: u64 = 1_700_000_000_000;
const MTU: usize = 237;

fn schedule() -> Schedule {
    Schedule::default_at(EPOCH)
}

fn at(interval: u32) -> u64 {
    schedule().interval_start_ms(interval) + 100
}

struct Node {
    root: KeyPair,
    cert: Cert,
    sender: Sender,
}

impl Node {
    fn new(seed: &[u8], role: Role) -> Self {
        let root = KeyPair::generate();
        let operational = KeyPair::generate();
        let chain = Chain::from_seed(seed, 256);
        let cert = root.issue(&operational, chain.commitment(), role, 9_999);
        let sender = Sender::new(cert.fingerprint(), chain, schedule());
        Self { root, cert, sender }
    }
}

fn pin(receiver: &mut Receiver, cert_bytes: &[u8], trusted_root: &KeyPair) -> bool {
    let Ok(cert) = Cert::decode(cert_bytes) else {
        return false;
    };
    if !verify_cert(&cert, trusted_root.verifying_key()).unwrap_or(false) {
        return false;
    }
    receiver.add_peer(cert.fingerprint(), cert.tesla_root);
    true
}

#[test]
fn full_flow_from_cert_issuance_to_verified_store() {
    let mut alice = Node::new(b"alice chain seed", Role::Eoc);
    let mut bob = Receiver::new(schedule());

    assert!(pin(&mut bob, &alice.cert.encode(), &alice.root));

    let f2 = alice.sender.beacon(STATUS, b"need water", at(2)).unwrap();
    let out = bob.recv(&f2, TimeBound::exact(at(2))).unwrap();
    assert!(
        matches!(out, Outcome::Accepted { merged: 0, .. }),
        "{out:?}"
    );
    assert!(bob.store().is_empty());

    let f4 = alice.sender.beacon(STATUS, b"ok", at(4)).unwrap();
    let out = bob.recv(&f4, TimeBound::exact(at(4))).unwrap();
    assert!(
        matches!(
            out,
            Outcome::Accepted {
                merged: 1,
                failed_mac: 0,
                ..
            }
        ),
        "{out:?}"
    );

    let fact = bob.store().get(&alice.cert.fingerprint(), STATUS).unwrap();
    assert_eq!(fact.payload, b"need water");
}

#[test]
fn store_converges_across_a_lossy_channel() {
    let mut alice = Node::new(b"alice chain seed", Role::Civilian);
    let mut bob = Receiver::new(schedule());
    assert!(pin(&mut bob, &alice.cert.encode(), &alice.root));

    let mut channel = Channel::new(0xC0FFEE, 30);
    let mut last_delivered: Option<Vec<u8>> = None;

    for interval in 2..40u32 {
        let payload = format!("status {interval}").into_bytes();
        let frame = alice.sender.beacon(STATUS, &payload, at(interval)).unwrap();
        if channel.delivers() {
            let out = bob.recv(&frame, TimeBound::exact(at(interval))).unwrap();
            assert!(
                !matches!(out, Outcome::Rejected(_)),
                "interval {interval}: {out:?}"
            );
            last_delivered = Some(payload);
        }
    }

    let fact = bob
        .store()
        .get(&alice.cert.fingerprint(), STATUS)
        .expect("30% loss over 38 intervals should still deliver something");
    let last = last_delivered.unwrap();
    assert!(
        fact.payload.starts_with(b"status "),
        "store holds garbage: {:?}",
        fact.payload
    );
    assert!(
        fact.payload <= last,
        "store ran ahead of what was delivered"
    );
}

#[test]
fn a_cert_from_an_unpinned_root_never_joins() {
    let mut mallory = Node::new(b"mallory chain seed", Role::Eoc);
    let alice = Node::new(b"alice chain seed", Role::Eoc);

    let mut bob = Receiver::new(schedule());
    assert!(pin(&mut bob, &alice.cert.encode(), &alice.root));

    assert!(verify_cert(&mallory.cert, mallory.root.verifying_key()).unwrap());
    assert!(!pin(&mut bob, &mallory.cert.encode(), &alice.root));

    let forged = mallory
        .sender
        .beacon(STATUS, b"EVACUATE NORTH IMMEDIATELY", at(4))
        .unwrap();
    assert_eq!(
        bob.recv(&forged, TimeBound::exact(at(4))).unwrap(),
        Outcome::Rejected(Reject::UnknownSender)
    );
    assert!(bob.store().is_empty());
}

#[test]
fn stealing_a_fingerprint_does_not_steal_the_identity() {
    let alice = Node::new(b"alice chain seed", Role::Eoc);
    let mut bob = Receiver::new(schedule());
    assert!(pin(&mut bob, &alice.cert.encode(), &alice.root));

    let mut mallory = Sender::new(
        alice.cert.fingerprint(),
        Chain::from_seed(b"mallory chain seed", 256),
        schedule(),
    );
    let forged = mallory
        .beacon(STATUS, b"EVACUATE NORTH IMMEDIATELY", at(4))
        .unwrap();
    assert_eq!(
        bob.recv(&forged, TimeBound::exact(at(4))).unwrap(),
        Outcome::Rejected(Reject::BadDisclosure)
    );
    assert!(bob.store().is_empty());
}

#[test]
fn replaying_a_frame_after_disclosure_is_refused() {
    let mut alice = Node::new(b"alice chain seed", Role::Eoc);
    let mut bob = Receiver::new(schedule());
    assert!(pin(&mut bob, &alice.cert.encode(), &alice.root));

    let captured = alice.sender.beacon(STATUS, b"all clear", at(2)).unwrap();
    let too_late = TimeBound::exact(schedule().disclosure_ms(2));
    assert_eq!(
        bob.recv(&captured, too_late).unwrap(),
        Outcome::Rejected(Reject::TooLate)
    );
    assert!(bob.store().is_empty());
}

#[test]
fn an_over_confident_clock_is_the_dangerous_case() {
    let mut alice = Node::new(b"alice chain seed", Role::Eoc);
    let mut bob = Receiver::new(schedule());
    assert!(pin(&mut bob, &alice.cert.encode(), &alice.root));

    let frame = alice.sender.beacon(STATUS, b"all clear", at(2)).unwrap();
    let arrival = schedule().disclosure_ms(2) - 1_000;

    let mut honest = Receiver::new(schedule());
    assert!(pin(&mut honest, &alice.cert.encode(), &alice.root));
    assert_eq!(
        honest.recv(&frame, TimeBound::new(arrival, 5_000)).unwrap(),
        Outcome::Rejected(Reject::TooLate)
    );

    assert!(matches!(
        bob.recv(&frame, TimeBound::exact(arrival)).unwrap(),
        Outcome::Accepted { .. }
    ));
}

#[test]
fn a_cert_fragments_over_the_link_and_reassembles() {
    let alice = Node::new(b"alice chain seed", Role::Responder);
    let encoded = alice.cert.encode();
    assert!(encoded.len() > MTU * 4, "cert unexpectedly small");

    let shard_len = MTU - HEADER_LEN - FRAG_HEADER_LEN;
    let fragments = split(1, &encoded, shard_len, 30).unwrap();

    let mut reassembler = Reassembler::new();
    let mut recovered = None;
    for f in fragments.iter().skip(2) {
        if let Some(obj) = reassembler.push(f).unwrap() {
            recovered = Some(obj);
            break;
        }
    }

    let cert = Cert::decode(&recovered.expect("reassembly failed")).unwrap();
    assert!(verify_cert(&cert, alice.root.verifying_key()).unwrap());
    assert_eq!(cert.fingerprint(), alice.cert.fingerprint());
    assert_eq!(cert.role, Role::Responder);
}

#[test]
fn a_corrupted_fragment_yields_an_unverifiable_cert_not_a_trusted_one() {
    let alice = Node::new(b"alice chain seed", Role::Eoc);
    let encoded = alice.cert.encode();
    let shard_len = MTU - HEADER_LEN - FRAG_HEADER_LEN;
    let mut fragments = split(1, &encoded, shard_len, 30).unwrap();
    fragments[0][FRAG_HEADER_LEN + 5] ^= 0xFF;

    let mut reassembler = Reassembler::new();
    let mut recovered = None;
    for f in &fragments {
        if let Some(obj) = reassembler.push(f).unwrap() {
            recovered = Some(obj);
            break;
        }
    }

    let bytes = recovered.expect("reassembly failed");
    assert_ne!(bytes, encoded);
    let verified = Cert::decode(&bytes)
        .ok()
        .and_then(|c| verify_cert(&c, alice.root.verifying_key()).ok())
        .unwrap_or(false);
    assert!(!verified, "a corrupted cert verified");
}

#[test]
fn two_peers_do_not_interfere() {
    let mut alice = Node::new(b"alice chain seed", Role::Eoc);
    let mut carol = Node::new(b"carol chain seed", Role::Civilian);
    let mut bob = Receiver::new(schedule());
    assert!(pin(&mut bob, &alice.cert.encode(), &alice.root));
    assert!(pin(&mut bob, &carol.cert.encode(), &carol.root));

    for interval in 2..8u32 {
        let a = alice
            .sender
            .beacon(STATUS, b"alice ok", at(interval))
            .unwrap();
        let c = carol
            .sender
            .beacon(STATUS, b"carol hurt", at(interval))
            .unwrap();
        bob.recv(&a, TimeBound::exact(at(interval))).unwrap();
        bob.recv(&c, TimeBound::exact(at(interval))).unwrap();
    }

    let store = bob.store();
    assert_eq!(
        store
            .get(&alice.cert.fingerprint(), STATUS)
            .unwrap()
            .payload,
        b"alice ok"
    );
    assert_eq!(
        store
            .get(&carol.cert.fingerprint(), STATUS)
            .unwrap()
            .payload,
        b"carol hurt"
    );
    assert_eq!(store.by_kind(STATUS).len(), 2);
}
