//! The Signet frame header.
//!
//! 13 bytes, fixed, no options, no TLVs:
//!
//! ```text
//! byte 0      version (high nibble) | class (low nibble)
//! bytes 1..9  sender fingerprint (truncated operational cert hash)
//! bytes 9..13 interval index, big-endian u32
//! bytes 13..  body, then the class-specific trailer
//! ```

use vstd::prelude::*;
use crate::bytes::{be32, read_be32, u32_to_be, u32_from_be, lemma_be32_roundtrip};
use crate::Error;

verus! {

/// Protocol version encoded in the high nibble of byte 0.
pub const VERSION: u8 = 1;

/// Fixed header length in bytes.
pub const HEADER_LEN: usize = 13;

/// Length of the truncated cert fingerprint that identifies a sender.
pub const SENDER_LEN: usize = 8;

/// What kind of authentication trailer follows the payload.
#[derive(Debug, Clone, Copy, PartialEq, Eq, Structural)]
pub enum Class {
    /// Routine traffic: a 16-byte MAC, plus a 32-byte disclosed key on the
    /// first frame of each interval.
    Tesla,
    /// Authoritative traffic: a post-quantum signature.
    Signed,
    /// One erasure-coded piece of a larger object.
    Fragment,
}

/// The wire value of a class.
pub open spec fn class_code(c: Class) -> u8 {
    match c {
        Class::Tesla => 0,
        Class::Signed => 1,
        Class::Fragment => 2,
    }
}

/// The class a wire value names, if any.
pub open spec fn class_of_code(v: u8) -> Option<Class> {
    if v == 0 {
        Some(Class::Tesla)
    } else if v == 1 {
        Some(Class::Signed)
    } else if v == 2 {
        Some(Class::Fragment)
    } else {
        None
    }
}

impl Class {
    /// Map the low nibble of byte 0 to a class.
    pub fn from_u8(v: u8) -> (res: Result<Self, Error>)
        ensures
            res matches Ok(c) ==> class_of_code(v) == Some(c),
            res matches Err(e) ==> class_of_code(v) is None && e == Error::UnknownClass(v),
    {
        match v {
            0 => Ok(Class::Tesla),
            1 => Ok(Class::Signed),
            2 => Ok(Class::Fragment),
            other => Err(Error::UnknownClass(other)),
        }
    }

    /// The wire value of this class.
    pub fn code(&self) -> (v: u8)
        ensures
            v == class_code(*self),
    {
        match self {
            Class::Tesla => 0,
            Class::Signed => 1,
            Class::Fragment => 2,
        }
    }
}

/// A decoded Signet frame header.
#[derive(Debug, Clone, Copy, PartialEq, Eq)]
pub struct Header {
    /// Authentication class of this frame.
    pub class: Class,
    /// Truncated fingerprint of the sender's operational cert.
    pub sender: [u8; 8],
    /// TESLA interval index this frame belongs to.
    pub interval: u32,
}

/// The 13 on-air bytes of a header.
pub open spec fn header_bytes(h: Header) -> Seq<u8> {
    seq![((VERSION as u8) << 4u8) | class_code(h.class)] + h.sender@ + be32(h.interval)
}

/// What decoding the first 13 bytes of `buf` yields, given `buf` is long
/// enough: the version and class checks, then the fields.
pub open spec fn decode_header_spec(buf: Seq<u8>) -> Result<Header, Error> {
    if buf.len() < HEADER_LEN {
        Err(Error::Truncated { need: HEADER_LEN, got: buf.len() as usize })
    } else if buf[0] >> 4u8 != VERSION {
        Err(Error::UnknownVersion(buf[0] >> 4u8))
    } else {
        match class_of_code(buf[0] & 0x0Fu8) {
            None => Err(Error::UnknownClass(buf[0] & 0x0Fu8)),
            Some(class) => Ok(
                Header {
                    class,
                    sender: sender_of(buf.subrange(1, 9)),
                    interval: read_be32(buf, 9),
                },
            ),
        }
    }
}

/// The 8-byte array holding the bytes of `s`.
pub open spec fn sender_of(s: Seq<u8>) -> [u8; 8] {
    [s[0], s[1], s[2], s[3], s[4], s[5], s[6], s[7]]
}

impl Header {
    /// Build a header at the current protocol version.
    pub fn new(class: Class, sender: [u8; 8], interval: u32) -> (h: Self)
        ensures
            h == (Header { class, sender, interval }),
    {
        Self { class, sender, interval }
    }

    /// Serialise to the fixed 13-byte on-air form.
    pub fn encode(&self) -> (out: [u8; 13])
        ensures
            out@ == header_bytes(*self),
    {
        let iv = u32_to_be(self.interval);
        let s = self.sender;
        let out: [u8; 13] = [
            (VERSION << 4u8) | self.class.code(),
            s[0], s[1], s[2], s[3], s[4], s[5], s[6], s[7],
            iv[0], iv[1], iv[2], iv[3],
        ];
        assert(out@ =~= header_bytes(*self));
        out
    }

    /// Parse a header off untrusted bytes, returning it and the remaining slice.
    ///
    /// Every failure mode is reachable from the radio, so all of them are
    /// errors rather than panics or silent truncation.
    pub fn decode(buf: &[u8]) -> (res: Result<(Self, &[u8]), Error>)
        ensures
            match res {
                Ok((h, rest)) => decode_header_spec(buf@) == Ok::<Header, Error>(h)
                    && rest@ == buf@.skip(HEADER_LEN as int),
                Err(e) => decode_header_spec(buf@) == Err::<Header, Error>(e),
            },
    {
        if buf.len() < HEADER_LEN {
            return Err(Error::Truncated { need: HEADER_LEN, got: buf.len() });
        }
        let version = buf[0] >> 4u8;
        if version != VERSION {
            return Err(Error::UnknownVersion(version));
        }
        let class = match Class::from_u8(buf[0] & 0x0Fu8) {
            Ok(c) => c,
            Err(e) => return Err(e),
        };
        let sender: [u8; 8] = [buf[1], buf[2], buf[3], buf[4], buf[5], buf[6], buf[7], buf[8]];
        let interval = u32_from_be(buf[9], buf[10], buf[11], buf[12]);
        assert(sender@ =~= buf@.subrange(1, 9));
        proof {
            lemma_sender_of(sender);
        }
        Ok((Self { class, sender, interval }, &buf[HEADER_LEN..buf.len()]))
    }
}

/// An array is the one `sender_of` picks for its own bytes.
pub proof fn lemma_sender_of(a: [u8; 8])
    ensures
        sender_of(a@) == a,
{
    broadcast use vstd::array::group_array_axioms;
    let b = sender_of(a@);
    assert forall|i: int| 0 <= i < 8 implies b[i] == a[i] by {
        assert(b@[i] == a@[i]);
    }
    assert(b =~= a);
}

/// Decoding an encoded header gives the header back, with nothing left over.
pub proof fn lemma_header_roundtrip(h: Header)
    ensures
        decode_header_spec(header_bytes(h)) == Ok::<Header, Error>(h),
{
    let b = header_bytes(h);
    let c = class_code(h.class);
    assert((((1u8 << 4u8) | c) >> 4u8) == 1u8) by (bit_vector)
        requires c <= 2;
    assert((((1u8 << 4u8) | c) & 0x0Fu8) == c) by (bit_vector)
        requires c <= 2;
    assert(b.subrange(1, 9) =~= h.sender@);
    lemma_sender_of(h.sender);
    lemma_be32_roundtrip(h.interval);
}

} // verus!
