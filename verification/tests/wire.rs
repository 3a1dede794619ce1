use signet::wire::{Class, Header, HEADER_LEN, VERSION};
use signet::Error;

fn header() -> Header {
    Header::new(Class::Tesla, [1, 2, 3, 4, 5, 6, 7, 8], 0x0DEF_ACED)
}

#[test]
fn wire_roundtrip_preserves_every_field() {
    let h = header();
    let raw = h.encode();
    let (decoded, rest) = Header::decode(&raw).unwrap();
    assert_eq!(decoded, h);
    assert!(rest.is_empty());
}

#[test]
fn payload_survives_decode() {
    let mut frame: Vec<u8> = header().encode().to_vec();
    frame.extend_from_slice(b"need water");
    let (_, payload) = Header::decode(&frame).unwrap();
    assert_eq!(payload, b"need water");
}

#[test]
fn header_is_thirteen_bytes() {
    assert_eq!(header().encode().len(), 13);
    assert_eq!(HEADER_LEN, 13);
}

#[test]
fn short_buffer_rejected() {
    assert!(matches!(
        Header::decode(&[0u8; 5]),
        Err(Error::Truncated { need: 13, got: 5 })
    ));
}

#[test]
fn future_version_rejected() {
    let mut raw = header().encode();
    raw[0] = (9 << 4) | (Class::Tesla as u8);
    assert!(matches!(
        Header::decode(&raw),
        Err(Error::UnknownVersion(9))
    ));
}

#[test]
fn unknown_class_rejected() {
    let mut raw = header().encode();
    raw[0] = (VERSION << 4) | 0x0F;
    assert!(matches!(Header::decode(&raw), Err(Error::UnknownClass(15))));
}

#[test]
fn all_classes_roundtrip() {
    for class in [Class::Tesla, Class::Signed, Class::Fragment] {
        let h = Header::new(class, [0; 8], 1);
        assert_eq!(Header::decode(&h.encode()).unwrap().0.class, class);
    }
}

#[test]
fn header_bytes_are_big_endian_with_version_nibble() {
    let raw = Header::new(Class::Fragment, [9; 8], 0x0102_0304).encode();
    assert_eq!(raw[0], (VERSION << 4) | 2);
    assert_eq!(&raw[1..9], &[9u8; 8]);
    assert_eq!(&raw[9..13], &[1, 2, 3, 4]);
}

#[test]
fn class_codes_map_both_ways() {
    assert_eq!(Class::from_u8(0), Ok(Class::Tesla));
    assert_eq!(Class::from_u8(1), Ok(Class::Signed));
    assert_eq!(Class::from_u8(2), Ok(Class::Fragment));
    assert_eq!(Class::from_u8(3), Err(Error::UnknownClass(3)));
}
