//! SHA-256 and HMAC-SHA256, from the `sha2` and `hmac` crates.
//!
//! These are the only primitives the cheap authentication path needs. Their
//! outputs are named, not described: each is a fixed function of its inputs,
//! and nothing in this library depends on more than that.

use vstd::prelude::*;
use sha2::{Digest, Sha256};
use hmac::{Hmac, Mac};

verus! {

/// The SHA-256 digest of `data`, as computed by `sha2::Sha256`.
pub uninterp spec fn sha256_spec(data: Seq<u8>) -> Seq<u8>;

/// The (untruncated) HMAC-SHA256 tag of `msg` under `key`, as computed by
/// `hmac::Hmac<sha2::Sha256>`.
pub uninterp spec fn hmac_sha256_spec(key: Seq<u8>, msg: Seq<u8>) -> Seq<u8>;

/// Calls `<sha2::Sha256 as Digest>::digest` on `data`.
///
/// Trusted: the result is the 32-byte SHA-256 digest of `data`, named
/// `sha256_spec(data)`; nothing else about it is claimed.
#[verifier::external_body]
pub(crate) fn sha256(data: &[u8]) -> (out: [u8; 32])
    ensures
        out@ == sha256_spec(data@),
{
    Sha256::digest(data).into()
}

/// Computes HMAC-SHA256 with `hmac::Hmac::<Sha256>::new_from_slice`,
/// `update` and `finalize`.
///
/// Trusted: the result is the 32-byte tag named `hmac_sha256_spec(key, msg)`.
/// `new_from_slice` accepts keys of every length for HMAC, so the `expect`
/// in the body never fires.
#[verifier::external_body]
pub(crate) fn hmac_sha256(key: &[u8], msg: &[u8]) -> (out: [u8; 32])
    ensures
        out@ == hmac_sha256_spec(key@, msg@),
{
    let mut m = <Hmac<Sha256> as Mac>::new_from_slice(key).expect("HMAC accepts keys of any length");
    m.update(msg);
    m.finalize().into_bytes().into()
}

/// Checks a truncated tag with `hmac::Mac::verify_truncated_left`, in
/// constant time.
///
/// Trusted: the source (`digest::Mac::verify_truncated_left`) accepts exactly
/// when the tag is 1 to 32 bytes long and equals that many leading bytes of
/// the full tag.
#[verifier::external_body]
pub(crate) fn hmac_sha256_verify_truncated(key: &[u8], msg: &[u8], tag: &[u8]) -> (ok: bool)
    ensures
        ok == (0 < tag@.len() <= 32 && tag@ == hmac_sha256_spec(key@, msg@).take(tag@.len() as int)),
{
    let mut m = <Hmac<Sha256> as Mac>::new_from_slice(key).expect("HMAC accepts keys of any length");
    m.update(msg);
    m.verify_truncated_left(tag).is_ok()
}

} // verus!
