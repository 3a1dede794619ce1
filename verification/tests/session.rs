use signet::chain::{Chain, KEY_LEN, MAC_LEN};
use signet::session::{
    Outcome, Receiver, Reject, Sender, BODY_LEN, FLAG_DISCLOSURE, MAX_PENDING, TRAILER_MAC,
    TRAILER_MAC_DISCLOSURE,
};
use signet::store::{AuthorId, FactKind};
use signet::time::{Schedule, TimeBound};
use signet::wire::{Class, Header, HEADER_LEN};
use signet::Error;

const ALICE: AuthorId = [0xA1; 8];
const STATUS: FactKind = 0;
const EPOCH: u64 = 1_000_000;

fn schedule() -> Schedule {
    Schedule::default_at(EPOCH)
}

fn at(interval: u32) -> u64 {
    schedule().interval_start_ms(interval) + 100
}

fn pair() -> (Sender, Receiver) {
    let chain = Chain::from_seed(b"alice seed", 128);
    let commitment = chain.commitment();
    let sender = Sender::new(ALICE, chain, schedule());
    let mut receiver = Receiver::new(schedule());
    receiver.add_peer(ALICE, commitment);
    (sender, receiver)
}

#[test]
fn beacon_fits_in_one_frame() {
    let (mut s, _) = pair();
    let with_key = s.beacon(STATUS, &[0u8; 30], at(4)).unwrap();
    let mac_only = s.beacon(STATUS, &[0u8; 30], at(4)).unwrap();
    assert_eq!(with_key.len(), 98);
    assert_eq!(mac_only.len(), 66);
    assert!(
        with_key.len() <= 237,
        "a beacon no longer fits in one frame"
    );
}

#[test]
fn disclosure_attaches_once_per_interval() {
    let (mut s, _) = pair();
    let a = s.beacon(STATUS, b"x", at(3)).unwrap();
    let b = s.beacon(STATUS, b"x", at(3)).unwrap();
    let c = s.beacon(STATUS, b"x", at(4)).unwrap();
    assert_eq!(a.len() - b.len(), KEY_LEN);
    assert_eq!(a.len(), c.len());
}

#[test]
fn full_path_buffers_then_verifies() {
    let (mut s, mut r) = pair();

    let f2 = s.beacon(STATUS, b"need water", at(2)).unwrap();
    let out = r.recv(&f2, TimeBound::exact(at(2))).unwrap();
    assert!(matches!(
        out,
        Outcome::Accepted {
            buffered: true,
            merged: 0,
            ..
        }
    ));
    assert!(r.store().is_empty());

    let f4 = s.beacon(STATUS, b"still here", at(4)).unwrap();
    let out = r.recv(&f4, TimeBound::exact(at(4))).unwrap();
    assert!(
        matches!(
            out,
            Outcome::Accepted {
                merged: 1,
                failed_mac: 0,
                ..
            }
        ),
        "{out:?}"
    );
    assert_eq!(
        r.store().get(&ALICE, STATUS).unwrap().payload,
        b"need water"
    );
}

#[test]
fn tampered_payload_fails_the_mac() {
    let (mut s, mut r) = pair();
    let mut f2 = s.beacon(STATUS, b"need water", at(2)).unwrap();
    f2[HEADER_LEN + BODY_LEN] ^= 0xFF;
    r.recv(&f2, TimeBound::exact(at(2))).unwrap();

    let f4 = s.beacon(STATUS, b"ok", at(4)).unwrap();
    let out = r.recv(&f4, TimeBound::exact(at(4))).unwrap();
    assert!(
        matches!(out, Outcome::Accepted { failed_mac: 1, .. }),
        "{out:?}"
    );
    assert!(r.store().get(&ALICE, STATUS).is_none());
}

#[test]
fn rewriting_the_header_fails_the_mac() {
    let (mut s, mut r) = pair();
    let mut f = s.beacon(STATUS, b"need water", at(2)).unwrap();
    f[12] = 3;
    r.recv(&f, TimeBound::exact(at(3))).unwrap();
    let f5 = s.beacon(STATUS, b"ok", at(5)).unwrap();
    let out = r.recv(&f5, TimeBound::exact(at(5))).unwrap();
    assert!(
        matches!(out, Outcome::Accepted { failed_mac: 1, .. }),
        "{out:?}"
    );
}

#[test]
fn stripping_the_disclosure_flag_fails_the_mac() {
    let (mut s, mut r) = pair();
    let f2 = s.beacon(STATUS, b"need water", at(2)).unwrap();
    r.recv(&f2, TimeBound::exact(at(2))).unwrap();

    let mut f4 = s.beacon(STATUS, b"ok", at(4)).unwrap();
    f4[HEADER_LEN] &= !FLAG_DISCLOSURE;
    let out = r.recv(&f4, TimeBound::exact(at(4))).unwrap();
    assert!(
        matches!(out, Outcome::Accepted { merged: 0, .. }),
        "{out:?}"
    );
    assert!(r.store().is_empty());
}

#[test]
fn frame_arriving_after_disclosure_is_refused() {
    let (mut s, mut r) = pair();
    let f2 = s.beacon(STATUS, b"evacuate", at(2)).unwrap();
    let late = TimeBound::exact(schedule().disclosure_ms(2));
    assert_eq!(
        r.recv(&f2, late).unwrap(),
        Outcome::Rejected(Reject::TooLate)
    );
    assert_eq!(r.pending(&ALICE), 0);
}

#[test]
fn unknown_sender_refused() {
    let (mut s, _) = pair();
    let mut r = Receiver::new(schedule());
    let f = s.beacon(STATUS, b"x", at(2)).unwrap();
    assert_eq!(
        r.recv(&f, TimeBound::exact(at(2))).unwrap(),
        Outcome::Rejected(Reject::UnknownSender)
    );
}

#[test]
fn forged_disclosure_refused() {
    let (mut s, mut r) = pair();
    let mut f = s.beacon(STATUS, b"x", at(4)).unwrap();
    let n = f.len();
    f[n - KEY_LEN..].copy_from_slice(&[0xEE; KEY_LEN]);
    assert_eq!(
        r.recv(&f, TimeBound::exact(at(4))).unwrap(),
        Outcome::Rejected(Reject::BadDisclosure)
    );
}

#[test]
fn a_different_chain_cannot_impersonate() {
    let (_, mut r) = pair();
    let evil = Chain::from_seed(b"mallory seed", 128);
    let mut s = Sender::new(ALICE, evil, schedule());
    let f = s.beacon(STATUS, b"evacuate north", at(4)).unwrap();
    assert_eq!(
        r.recv(&f, TimeBound::exact(at(4))).unwrap(),
        Outcome::Rejected(Reject::BadDisclosure)
    );
    assert!(r.store().is_empty());
}

#[test]
fn lost_disclosures_recover_from_a_later_one() {
    let (mut s, mut r) = pair();
    let f2 = s.beacon(STATUS, b"need water", at(2)).unwrap();
    for i in 3..=6 {
        let _ = s.beacon(STATUS, b"lost", at(i)).unwrap();
    }
    let f7 = s.beacon(STATUS, b"final", at(7)).unwrap();

    r.recv(&f2, TimeBound::exact(at(2))).unwrap();
    assert_eq!(r.pending(&ALICE), 1);

    let out = r.recv(&f7, TimeBound::exact(at(7))).unwrap();
    assert!(
        matches!(
            out,
            Outcome::Accepted {
                merged: 1,
                failed_mac: 0,
                ..
            }
        ),
        "{out:?}"
    );
    assert_eq!(
        r.store().get(&ALICE, STATUS).unwrap().payload,
        b"need water"
    );
    assert_eq!(r.pending(&ALICE), 1);
}

#[test]
fn out_of_order_frames_converge_on_the_newest() {
    let (mut s, mut r) = pair();
    let old = s.beacon(STATUS, b"ok", at(2)).unwrap();
    let new = s.beacon(STATUS, b"need help", at(3)).unwrap();
    let release = s.beacon(STATUS, b"x", at(6)).unwrap();

    r.recv(&new, TimeBound::exact(at(3))).unwrap();
    r.recv(&old, TimeBound::exact(at(3))).unwrap();
    r.recv(&release, TimeBound::exact(at(6))).unwrap();

    assert_eq!(r.store().get(&ALICE, STATUS).unwrap().payload, b"need help");
    assert_eq!(r.pending(&ALICE), 1);
}

#[test]
fn interval_zero_is_never_disclosed() {
    let (mut s, mut r) = pair();
    for i in 0..=2 {
        let f = s.beacon(STATUS, b"x", at(i)).unwrap();
        assert_eq!(f.len(), HEADER_LEN + BODY_LEN + 1 + TRAILER_MAC);
        let out = r.recv(&f, TimeBound::exact(at(i))).unwrap();
        assert!(
            matches!(out, Outcome::Accepted { merged: 0, .. }),
            "{out:?}"
        );
    }
    let f3 = s.beacon(STATUS, b"x", at(3)).unwrap();
    assert_eq!(f3.len(), HEADER_LEN + BODY_LEN + 1 + TRAILER_MAC_DISCLOSURE);
}

#[test]
fn pending_buffer_is_bounded() {
    let (mut s, mut r) = pair();
    for _ in 0..MAX_PENDING * 3 {
        let f = s.beacon(STATUS, b"x", at(2)).unwrap();
        r.recv(&f, TimeBound::exact(at(2))).unwrap();
    }
    assert_eq!(r.pending(&ALICE), MAX_PENDING);
}

#[test]
fn structurally_truncated_frames_rejected() {
    let (mut s, mut r) = pair();
    let f = s.beacon(STATUS, b"x", at(4)).unwrap();
    for cut in [0, 5, HEADER_LEN, HEADER_LEN + 1, HEADER_LEN + BODY_LEN] {
        assert!(
            r.recv(&f[..cut], TimeBound::exact(at(4))).is_err(),
            "accepted a {cut}-byte frame"
        );
    }
}

#[test]
fn a_one_byte_truncation_fails_authentication() {
    let (mut s, mut r) = pair();
    let f2 = s.beacon(STATUS, b"need water", at(2)).unwrap();
    r.recv(&f2, TimeBound::exact(at(2))).unwrap();

    let f4 = s.beacon(STATUS, b"ok", at(4)).unwrap();
    let out = r
        .recv(&f4[..f4.len() - 1], TimeBound::exact(at(4)))
        .unwrap();
    assert_eq!(out, Outcome::Rejected(Reject::BadDisclosure));
    assert!(r.store().is_empty());
}

#[test]
fn wrong_class_rejected() {
    let (_, mut r) = pair();
    let mut frame = Header::new(Class::Signed, ALICE, 2).encode().to_vec();
    frame.extend_from_slice(&[0u8; BODY_LEN + MAC_LEN]);
    assert_eq!(
        r.recv(&frame, TimeBound::exact(at(2))).unwrap(),
        Outcome::Rejected(Reject::WrongClass)
    );
}

#[test]
fn beacon_layout_is_header_body_payload_trailer() {
    let (mut s, _) = pair();
    let f = s.beacon(7, b"hi", at(5)).unwrap();
    assert_eq!(s.seq(), 1);
    let (h, _) = Header::decode(&f).unwrap();
    assert_eq!(h, Header::new(Class::Tesla, ALICE, 5));
    assert_eq!(f[HEADER_LEN], FLAG_DISCLOSURE);
    assert_eq!(&f[HEADER_LEN + 1..HEADER_LEN + 5], &[0, 0, 0, 1]);
    assert_eq!(&f[HEADER_LEN + 5..HEADER_LEN + 7], &[0, 7]);
    assert_eq!(&f[HEADER_LEN + 7..HEADER_LEN + 9], b"hi");
    // The disclosed key is K[3], the last 32 bytes.
    let chain = Chain::from_seed(b"alice seed", 128);
    assert_eq!(&f[f.len() - KEY_LEN..], &chain.key(3).unwrap());
    assert_eq!(s.commitment(), chain.commitment());
}

#[test]
fn sequence_numbers_advance_per_beacon() {
    let (mut s, _) = pair();
    assert_eq!(s.seq(), 0);
    for expected in 1..=5u32 {
        s.beacon(STATUS, b"x", at(2)).unwrap();
        assert_eq!(s.seq(), expected);
    }
}

#[test]
fn a_beacon_past_the_chain_is_an_error_but_still_consumes_a_sequence_number() {
    let chain = Chain::from_seed(b"short chain", 4);
    let mut s = Sender::new(ALICE, chain, schedule());
    assert_eq!(
        s.beacon(STATUS, b"x", at(5)),
        Err(Error::IntervalOutOfRange {
            interval: 5,
            max: 4
        })
    );
    assert_eq!(s.seq(), 1);
    assert!(s.beacon(STATUS, b"x", at(4)).is_ok());
}

#[test]
fn a_refused_frame_changes_nothing() {
    let (mut s, mut r) = pair();
    let f2 = s.beacon(STATUS, b"need water", at(2)).unwrap();
    r.recv(&f2, TimeBound::exact(at(2))).unwrap();
    let mut forged = s.beacon(STATUS, b"x", at(4)).unwrap();
    let n = forged.len();
    forged[n - 1] ^= 1;
    assert_eq!(
        r.recv(&forged, TimeBound::exact(at(4))).unwrap(),
        Outcome::Rejected(Reject::BadDisclosure)
    );
    assert_eq!(r.pending(&ALICE), 1);
    assert!(r.store().is_empty());
}

#[test]
fn pinning_again_starts_the_peer_afresh() {
    let (mut s, mut r) = pair();
    let f2 = s.beacon(STATUS, b"x", at(2)).unwrap();
    r.recv(&f2, TimeBound::exact(at(2))).unwrap();
    assert_eq!(r.pending(&ALICE), 1);
    r.add_peer(ALICE, Chain::from_seed(b"alice seed", 128).commitment());
    assert_eq!(r.pending(&ALICE), 0);
    assert_eq!(r.pending(&[0; 8]), 0);
}

#[test]
fn trailer_shorter_than_the_flag_announces_is_truncated() {
    let (mut s, mut r) = pair();
    let f = s.beacon(STATUS, b"", at(4)).unwrap();
    // Body: flags, seq, kind; then a trailer that should be 48 bytes.
    let cut = HEADER_LEN + BODY_LEN + 40;
    assert_eq!(
        r.recv(&f[..cut], TimeBound::exact(at(4))),
        Err(Error::Truncated {
            need: BODY_LEN + TRAILER_MAC_DISCLOSURE,
            got: 47
        })
    );
}

#[test]
fn an_old_disclosure_never_moves_the_anchor_back() {
    let (mut s, mut r) = pair();
    let f4 = s.beacon(STATUS, b"four", at(4)).unwrap(); // discloses K[2]
    let f6 = s.beacon(STATUS, b"six", at(6)).unwrap(); // discloses K[4]
    r.recv(&f6, TimeBound::exact(at(6))).unwrap();
    // Replaying the frame that disclosed K[2], even with a clock that lets it
    // pass the security condition, must not re-anchor the peer at K[2].
    assert_eq!(
        r.recv(&f4, TimeBound::exact(at(4))).unwrap(),
        Outcome::Rejected(Reject::BadDisclosure)
    );
    assert_eq!(r.pending(&ALICE), 1);
}

#[test]
fn receiver_decode_errors_are_reported_not_buffered() {
    let (mut s, mut r) = pair();
    let mut f = s.beacon(STATUS, b"x", at(2)).unwrap();
    f[0] = (9 << 4) | 0;
    assert_eq!(
        r.recv(&f, TimeBound::exact(at(2))),
        Err(Error::UnknownVersion(9))
    );
    f[0] = (1 << 4) | 7;
    assert_eq!(
        r.recv(&f, TimeBound::exact(at(2))),
        Err(Error::UnknownClass(7))
    );
    assert_eq!(r.pending(&ALICE), 0);
}

#[test]
fn a_late_header_only_frame_is_truncated_before_the_clock_is_checked() {
    let (_, mut r) = pair();
    let frame = Header::new(Class::Tesla, ALICE, 2).encode().to_vec();
    let late = TimeBound::exact(schedule().disclosure_ms(2));
    assert_eq!(
        r.recv(&frame, late),
        Err(Error::Truncated { need: 23, got: 0 })
    );
}

#[test]
fn the_sender_is_looked_up_before_the_class_is_dispatched() {
    let mut r = Receiver::new(schedule());
    let mut frame = Header::new(Class::Signed, [0x5A; 8], 2).encode().to_vec();
    frame.extend_from_slice(&[0u8; BODY_LEN + MAC_LEN]);
    assert_eq!(
        r.recv(&frame, TimeBound::exact(at(2))).unwrap(),
        Outcome::Rejected(Reject::UnknownSender)
    );
}
