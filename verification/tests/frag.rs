use signet::frag::{split, Reassembler, FRAG_HEADER_LEN, MAX_OBJECTS_IN_FLIGHT};
use signet::Error;

fn object(n: usize) -> Vec<u8> {
    (0..n).map(|i| (i % 251) as u8).collect()
}

#[test]
fn roundtrip_with_no_loss() {
    let obj = object(666);
    let frags = split(1, &obj, 200, 30).unwrap();
    let mut r = Reassembler::new();
    let mut out = None;
    for f in &frags {
        if let Some(o) = r.push(f).unwrap() {
            out = Some(o);
            break;
        }
    }
    assert_eq!(out.unwrap(), obj);
}

#[test]
fn recovers_from_dropped_shards() {
    let obj = object(666);
    let frags = split(1, &obj, 200, 30).unwrap();
    assert_eq!(frags.len(), 6);

    for (a, b) in [(0, 1), (0, 5), (2, 3), (4, 5)] {
        let mut r = Reassembler::new();
        let mut out = None;
        for (i, f) in frags.iter().enumerate() {
            if i == a || i == b {
                continue;
            }
            if let Some(o) = r.push(f).unwrap() {
                out = Some(o);
            }
        }
        assert_eq!(out.expect("dropped {a},{b}"), obj, "dropping {a} and {b}");
    }
}

#[test]
fn parity_only_is_enough() {
    let obj = object(600);
    let frags = split(7, &obj, 200, 100).unwrap();
    let mut r = Reassembler::new();
    let mut out = None;
    for f in frags.iter().skip(3) {
        if let Some(o) = r.push(f).unwrap() {
            out = Some(o);
        }
    }
    assert_eq!(out.unwrap(), obj);
}

#[test]
fn too_much_loss_yields_nothing_rather_than_garbage() {
    let obj = object(666);
    let frags = split(1, &obj, 200, 30).unwrap();
    let mut r = Reassembler::new();
    for f in frags.iter().take(3) {
        assert!(r.push(f).unwrap().is_none());
    }
    assert_eq!(r.in_flight(), 1);
}

#[test]
fn objects_smaller_than_one_shard_still_work() {
    let obj = object(10);
    let frags = split(1, &obj, 200, 30).unwrap();
    assert_eq!(frags.len(), 2);
    let mut r = Reassembler::new();
    assert_eq!(r.push(&frags[1]).unwrap().unwrap(), obj);
}

#[test]
fn interleaved_objects_do_not_mix() {
    let (a, b) = (object(500), object(700));
    let (fa, fb) = (
        split(1, &a, 200, 30).unwrap(),
        split(2, &b, 200, 30).unwrap(),
    );
    let mut r = Reassembler::new();
    let (mut got_a, mut got_b) = (None, None);
    for i in 0..fa.len().max(fb.len()) {
        if let Some(f) = fa.get(i) {
            got_a = r.push(f).unwrap().or(got_a);
        }
        if let Some(f) = fb.get(i) {
            got_b = r.push(f).unwrap().or(got_b);
        }
    }
    assert_eq!(got_a.unwrap(), a);
    assert_eq!(got_b.unwrap(), b);
}

#[test]
fn in_flight_map_is_bounded() {
    let mut r = Reassembler::new();
    for id in 0..1000u16 {
        let frags = split(id, &object(600), 200, 30).unwrap();
        r.push(&frags[0]).unwrap();
    }
    assert!(r.in_flight() <= MAX_OBJECTS_IN_FLIGHT);
}

#[test]
fn inconsistent_headers_for_one_object_rejected() {
    let a = split(1, &object(600), 200, 30).unwrap();
    let b = split(1, &object(1200), 200, 30).unwrap();
    let mut r = Reassembler::new();
    r.push(&a[0]).unwrap();
    assert!(matches!(r.push(&b[0]), Err(Error::BadFragment)));
}

#[test]
fn malformed_headers_rejected() {
    let mut f = split(1, &object(600), 200, 30).unwrap()[0].clone();
    assert!(Reassembler::new().push(&f[..FRAG_HEADER_LEN]).is_err());

    f[3] = 0;
    assert!(matches!(
        Reassembler::new().push(&f),
        Err(Error::BadFragment)
    ));

    let mut f = split(1, &object(600), 200, 30).unwrap()[0].clone();
    f[2] = 250;
    assert!(matches!(
        Reassembler::new().push(&f),
        Err(Error::BadFragment)
    ));

    let mut f = split(1, &object(600), 200, 30).unwrap()[0].clone();
    f[3] = 200;
    assert!(matches!(
        Reassembler::new().push(&f),
        Err(Error::BadFragment)
    ));
}

#[test]
fn oversized_objects_rejected() {
    let huge = vec![0u8; u16::MAX as usize + 1];
    assert!(matches!(
        split(1, &huge, 200, 30),
        Err(Error::ObjectTooLarge(_))
    ));
}

#[test]
fn duplicate_shards_are_idempotent() {
    let obj = object(600);
    let frags = split(1, &obj, 200, 30).unwrap();
    let mut r = Reassembler::new();
    assert!(r.push(&frags[0]).unwrap().is_none());
    assert!(r.push(&frags[0]).unwrap().is_none());
    assert!(r.push(&frags[1]).unwrap().is_none());
    assert_eq!(r.push(&frags[2]).unwrap().unwrap(), obj);
}

#[test]
fn split_writes_headers_and_systematic_data_shards() {
    let obj = object(450);
    let frags = split(0x1234, &obj, 200, 30).unwrap();
    // 3 data shards, ceil(0.9) = 1 parity shard.
    assert_eq!(frags.len(), 4);
    for (i, f) in frags.iter().enumerate() {
        assert_eq!(f.len(), FRAG_HEADER_LEN + 200);
        assert_eq!(&f[..FRAG_HEADER_LEN], &[0x12, 0x34, i as u8, 3, 4, 0x01, 0xC2]);
    }
    assert_eq!(&frags[0][FRAG_HEADER_LEN..], &obj[0..200]);
    assert_eq!(&frags[1][FRAG_HEADER_LEN..], &obj[200..400]);
    assert_eq!(&frags[2][FRAG_HEADER_LEN..FRAG_HEADER_LEN + 50], &obj[400..450]);
    assert!(frags[2][FRAG_HEADER_LEN + 50..].iter().all(|&b| b == 0));
    // Parity is not a copy of any data shard.
    assert_ne!(&frags[3][FRAG_HEADER_LEN..], &frags[0][FRAG_HEADER_LEN..]);
}

#[test]
fn split_rejects_zero_shards_and_too_many_shards() {
    assert_eq!(split(1, &object(10), 0, 30), Err(Error::BadFragment));
    // 300 one-byte shards exceed the 255-shard limit.
    assert_eq!(split(1, &object(300), 1, 0), Err(Error::BadFragment));
    // 199 data + 56 parity is exactly the limit.
    assert_eq!(split(1, &object(199), 1, 28).unwrap().len(), 255);
}

#[test]
fn a_fragment_without_shard_bytes_is_truncated() {
    let f = split(1, &object(10), 200, 30).unwrap()[0].clone();
    assert_eq!(
        Reassembler::new().push(&f[..FRAG_HEADER_LEN]),
        Err(Error::Truncated { need: 8, got: 7 })
    );
}

#[test]
fn an_empty_object_splits_but_cannot_be_reassembled() {
    // A zero object length is self-inconsistent to the receiver.
    let frags = split(3, &[], 16, 30).unwrap();
    assert_eq!(frags.len(), 2);
    assert_eq!(Reassembler::new().push(&frags[0]), Err(Error::BadFragment));
}

#[test]
fn eviction_drops_the_lowest_object_id() {
    let mut r = Reassembler::new();
    let obj = object(600);
    let mut kept = Vec::new();
    for id in 10..=(10 + MAX_OBJECTS_IN_FLIGHT as u16) {
        let frags = split(id, &obj, 200, 30).unwrap();
        r.push(&frags[0]).unwrap();
        r.push(&frags[1]).unwrap();
        kept.push(frags);
    }
    assert_eq!(r.in_flight(), MAX_OBJECTS_IN_FLIGHT);
    // Object 10 was evicted: one more shard of it starts a fresh partial.
    assert!(r.push(&kept[0][2]).unwrap().is_none());
    // Object 18 survived the evictions, so its third shard completes it.
    assert_eq!(r.push(&kept[8][2]).unwrap().unwrap(), obj);
}

#[test]
fn a_completed_object_leaves_the_reassembler() {
    let obj = object(300);
    let frags = split(5, &obj, 200, 50).unwrap();
    let mut r = Reassembler::new();
    assert!(r.push(&frags[0]).unwrap().is_none());
    assert_eq!(r.in_flight(), 1);
    assert_eq!(r.push(&frags[1]).unwrap().unwrap(), obj);
    assert_eq!(r.in_flight(), 0);
}

#[test]
fn no_redundancy_still_gets_one_parity_shard() {
    let frags = split(1, &object(1000), 250, 0).unwrap();
    assert_eq!(frags.len(), 5);
    assert_eq!(frags[0][3], 4);
    assert_eq!(frags[0][4], 5);
}

#[test]
fn any_data_shard_count_rebuilds_among_fragments_of_other_objects() {
    // Object 7 (600 bytes, 200-byte shards) has 3 data and 3 parity shards;
    // its three parity fragments arrive, in reverse order, among fragments
    // of two other objects, which complete too.
    let obj = object(600);
    let frags = split(7, &obj, 200, 100).unwrap();
    assert_eq!(frags.len(), 6);
    let a: Vec<u8> = (0..300).map(|i| (i % 7) as u8).collect();
    let b: Vec<u8> = (0..150).map(|i| (i % 13) as u8 + 1).collect();
    let fa = split(3, &a, 100, 50).unwrap();
    let fb = split(9, &b, 100, 50).unwrap();
    let mut r = Reassembler::new();
    assert_eq!(r.push(&fa[0]).unwrap(), None);
    assert_eq!(r.push(&frags[5]).unwrap(), None);
    assert_eq!(r.push(&fb[1]).unwrap(), None);
    assert_eq!(r.push(&fa[3]).unwrap(), None);
    assert_eq!(r.push(&frags[4]).unwrap(), None);
    assert_eq!(r.push(&fb[2]).unwrap(), Some(b));
    assert_eq!(r.in_flight(), 2);
    assert_eq!(r.push(&frags[3]).unwrap(), Some(obj));
    assert_eq!(r.in_flight(), 1);
    assert_eq!(r.push(&fa[1]).unwrap(), Some(a));
    assert_eq!(r.in_flight(), 0);
}
