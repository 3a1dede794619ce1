use signet::store::{AuthorId, Fact, FactKind, Store};

const ALICE: AuthorId = [1; 8];
const BOB: AuthorId = [2; 8];
const STATUS: FactKind = 0;
const POSITION: FactKind = 1;

#[test]
fn first_write_applies() {
    let mut s = Store::new();
    assert!(s.merge(ALICE, STATUS, 1, b"ok"));
    assert_eq!(s.get(&ALICE, STATUS).unwrap().payload, b"ok");
}

#[test]
fn newer_sequence_wins() {
    let mut s = Store::new();
    s.merge(ALICE, STATUS, 1, b"ok");
    assert!(s.merge(ALICE, STATUS, 2, b"need help"));
    assert_eq!(s.get(&ALICE, STATUS).unwrap().payload, b"need help");
}

#[test]
fn older_sequence_never_overwrites() {
    let mut s = Store::new();
    s.merge(ALICE, STATUS, 5, b"need help");
    assert!(!s.merge(ALICE, STATUS, 3, b"ok"));
    assert_eq!(s.get(&ALICE, STATUS).unwrap().payload, b"need help");
}

#[test]
fn replay_of_same_sequence_rejected() {
    let mut s = Store::new();
    s.merge(ALICE, STATUS, 7, b"need help");
    assert!(!s.merge(ALICE, STATUS, 7, b"ok"));
    assert_eq!(s.get(&ALICE, STATUS).unwrap().payload, b"need help");
}

#[test]
fn merge_is_idempotent_across_paths() {
    let mut a = Store::new();
    let mut b = Store::new();
    for seq in [1, 3, 2] {
        a.merge(ALICE, STATUS, seq, b"x");
    }
    for seq in [3, 2, 1] {
        b.merge(ALICE, STATUS, seq, b"x");
    }
    assert_eq!(a.get(&ALICE, STATUS), b.get(&ALICE, STATUS));
}

#[test]
fn authors_do_not_collide() {
    let mut s = Store::new();
    s.merge(ALICE, STATUS, 1, b"ok");
    s.merge(BOB, STATUS, 1, b"injured");
    assert_eq!(s.get(&ALICE, STATUS).unwrap().payload, b"ok");
    assert_eq!(s.get(&BOB, STATUS).unwrap().payload, b"injured");
    assert_eq!(s.len(), 2);
}

#[test]
fn kinds_do_not_collide() {
    let mut s = Store::new();
    s.merge(ALICE, STATUS, 1, b"ok");
    s.merge(ALICE, POSITION, 1, b"51.5,-0.1");
    assert_eq!(s.len(), 2);
}

#[test]
fn by_kind_preserves_independent_claims() {
    let mut s = Store::new();
    s.merge(ALICE, STATUS, 1, b"bridge out");
    s.merge(BOB, STATUS, 1, b"bridge out");
    assert_eq!(s.by_kind(STATUS).len(), 2);
    assert_eq!(s.by_kind(POSITION).len(), 0);
}

#[test]
fn empty_store_holds_nothing() {
    let s = Store::new();
    assert!(s.is_empty());
    assert_eq!(s.len(), 0);
    assert!(s.get(&ALICE, STATUS).is_none());
}

#[test]
fn merging_the_same_fact_twice_changes_nothing() {
    let mut s = Store::new();
    assert!(s.merge(ALICE, STATUS, 4, b"ok"));
    assert!(!s.merge(ALICE, STATUS, 4, b"ok"));
    assert_eq!(s.len(), 1);
    assert_eq!(
        s.get(&ALICE, STATUS),
        Some(&Fact {
            seq: 4,
            payload: b"ok".to_vec()
        })
    );
}

#[test]
fn merge_order_does_not_matter_across_keys() {
    let mut a = Store::new();
    let mut b = Store::new();
    a.merge(ALICE, STATUS, 2, b"a2");
    a.merge(BOB, STATUS, 9, b"b9");
    a.merge(ALICE, STATUS, 1, b"a1");
    b.merge(ALICE, STATUS, 1, b"a1");
    b.merge(ALICE, STATUS, 2, b"a2");
    b.merge(BOB, STATUS, 9, b"b9");
    assert_eq!(a.get(&ALICE, STATUS), b.get(&ALICE, STATUS));
    assert_eq!(a.get(&BOB, STATUS), b.get(&BOB, STATUS));
    assert_eq!(a.len(), b.len());
}

#[test]
fn by_kind_lists_authors_in_ascending_order() {
    let mut s = Store::new();
    s.merge([9; 8], STATUS, 1, b"nine");
    s.merge([1; 8], STATUS, 1, b"one");
    s.merge([5; 8], STATUS, 1, b"five");
    s.merge([5; 8], POSITION, 1, b"elsewhere");
    let listed: Vec<AuthorId> = s.by_kind(STATUS).iter().map(|(a, _)| **a).collect();
    assert_eq!(listed, vec![[1; 8], [5; 8], [9; 8]]);
    assert_eq!(s.by_kind(STATUS)[1].1.payload, b"five");
}

#[test]
fn the_highest_sequence_number_wins_whatever_the_order() {
    let mut s = Store::new();
    for seq in [3u64, 10, 7, 1, 10, 9] {
        s.merge(ALICE, STATUS, seq, format!("v{seq}").as_bytes());
    }
    let f = s.get(&ALICE, STATUS).unwrap();
    assert_eq!(f.seq, 10);
    assert_eq!(f.payload, b"v10");
}

#[test]
fn a_new_key_grows_the_store_by_one() {
    let mut s = Store::new();
    s.merge(ALICE, STATUS, 1, b"a");
    assert_eq!(s.len(), 1);
    s.merge(ALICE, STATUS, 2, b"b");
    assert_eq!(s.len(), 1);
    s.merge(BOB, STATUS, 1, b"c");
    assert_eq!(s.len(), 2);
    s.merge(BOB, STATUS, 1, b"d");
    assert_eq!(s.len(), 2);
}
