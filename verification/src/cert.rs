//! Operational certificates.
//!
//! Root keys are cold and sign short-lived operational certs; operational
//! keys are hot and expire. This module handles *encoding* only: it produces
//! the to-be-signed bytes via [`Cert::tbs`] and carries an opaque signature;
//! [`crate::crypto`] signs and verifies.
//!
//! Layout (all integers big-endian):
//!
//! ```text
//! 0   version      1 B   (1)
//! 1   alg          1 B
//! 2   issuer_id    8 B
//! 10  role_bits    2 B
//! 12  valid_until  4 B
//! 16  tesla_root  32 B
//! 48  sign_pubkey  2 + n B
//! …   kem_pubkey   2 + n B   (0 = absent)
//! …   sig          2 + n B
//! ```
//!
//! There is no revocation: short expiry substitutes for it.

use vstd::prelude::*;
use crate::bytes::{be16, be32, read_be16, read_be32, from_be16, push_all, to_vec, u16_to_be, u32_to_be,
    u16_from_be, u32_from_be, lemma_be16_roundtrip, lemma_be32_roundtrip, lemma_from_be16_bytes, lemma_from_be32_bytes};
use crate::chain::ChainKey;
use crate::hash::{sha256, sha256_spec};
use crate::Error;

verus! {

/// Certificate format version.
pub const CERT_VERSION: u8 = 1;

/// Bytes of fixed-position header before the first length-prefixed field.
pub const FIXED_LEN: usize = 48;

/// Signature suite identifier.
///
/// One byte wide because the choice is not settled; algorithm agility here
/// costs one byte and saves a wire-format break later.
#[derive(Debug, Clone, Copy, PartialEq, Eq, Structural)]
pub enum Alg {
    /// FN-DSA-512 (Falcon-512), wire value 1. 897-byte public key, 666-byte signature.
    FnDsa512,
}

/// The wire value of a suite.
pub open spec fn alg_code(a: Alg) -> u8 {
    match a {
        Alg::FnDsa512 => 1,
    }
}

impl Alg {
    /// Map a wire byte to a suite.
    pub fn from_u8(v: u8) -> (res: Result<Self, Error>)
        ensures
            res matches Ok(a) ==> v == 1 && a == Alg::FnDsa512,
            res matches Err(e) ==> v != 1 && e == Error::UnknownAlg(v),
    {
        if v == 1 {
            Ok(Alg::FnDsa512)
        } else {
            Err(Error::UnknownAlg(v))
        }
    }

    /// The wire value of this suite.
    pub fn code(&self) -> (v: u8)
        ensures
            v == alg_code(*self),
    {
        match self {
            Alg::FnDsa512 => 1,
        }
    }
}

/// What a holder is claiming to be.
#[derive(Debug, Clone, Copy, PartialEq, Eq, PartialOrd, Ord, Structural)]
pub enum Role {
    /// No claim of authority (wire value 0).
    Civilian,
    /// Verified responder (wire value 1).
    Responder,
    /// Emergency operations centre (wire value 2). May issue authoritative broadcasts.
    Eoc,
}

/// The wire value of a role.
pub open spec fn role_code(r: Role) -> u16 {
    match r {
        Role::Civilian => 0,
        Role::Responder => 1,
        Role::Eoc => 2,
    }
}

/// The role wire bits name; unknown values degrade to `Civilian`.
pub open spec fn role_of_code(v: u16) -> Role {
    if v == 1 {
        Role::Responder
    } else if v == 2 {
        Role::Eoc
    } else {
        Role::Civilian
    }
}

impl Role {
    /// Map wire role bits to a role.
    ///
    /// Unknown values degrade to `Civilian` rather than erroring: a future
    /// role must not make an old node reject an otherwise valid cert, it must
    /// only fail to grant privilege.
    pub fn from_u16(v: u16) -> (r: Self)
        ensures
            r == role_of_code(v),
    {
        if v == 1 {
            Role::Responder
        } else if v == 2 {
            Role::Eoc
        } else {
            Role::Civilian
        }
    }

    /// The wire value of this role.
    pub fn code(&self) -> (v: u16)
        ensures
            v == role_code(*self),
    {
        match self {
            Role::Civilian => 0,
            Role::Responder => 1,
            Role::Eoc => 2,
        }
    }
}

/// A signed operational certificate.
#[derive(Debug, Clone, PartialEq, Eq)]
pub struct Cert {
    /// Signature suite for `sign_pubkey` and `sig`.
    pub alg: Alg,
    /// Truncated SHA-256 of the issuing root's verifying key.
    pub issuer: [u8; 8],
    /// Claimed role.
    pub role: Role,
    /// Expiry, as a beacon round number rather than wall-clock time.
    pub valid_until: u32,
    /// TESLA chain commitment, `K[0]`.
    pub tesla_root: ChainKey,
    /// Public key that verifies this holder's `Signed` frames.
    pub sign_pubkey: Vec<u8>,
    /// KEM public key. Empty when the holder does not accept private messages.
    pub kem_pubkey: Vec<u8>,
    /// Root signature over [`Cert::tbs`].
    pub sig: Vec<u8>,
}

/// The mathematical content of a cert: its fields, byte fields as sequences.
pub struct CertModel {
    pub alg: Alg,
    pub issuer: [u8; 8],
    pub role: Role,
    pub valid_until: u32,
    pub tesla_root: [u8; 32],
    pub sign_pubkey: Seq<u8>,
    pub kem_pubkey: Seq<u8>,
    pub sig: Seq<u8>,
}

/// The content of `c`.
pub open spec fn cert_model(c: Cert) -> CertModel {
    CertModel {
        alg: c.alg,
        issuer: c.issuer,
        role: c.role,
        valid_until: c.valid_until,
        tesla_root: c.tesla_root,
        sign_pubkey: c.sign_pubkey@,
        kem_pubkey: c.kem_pubkey@,
        sig: c.sig@,
    }
}

/// A length-prefixed field: its length (saturated at 65535) as two bytes,
/// then its bytes.
pub open spec fn field_bytes(f: Seq<u8>) -> Seq<u8> {
    be16(if f.len() <= 0xFFFF { f.len() as u16 } else { 0xFFFFu16 }) + f
}

/// The to-be-signed bytes: everything except the signature.
pub open spec fn tbs_spec(m: CertModel) -> Seq<u8> {
    seq![CERT_VERSION, alg_code(m.alg)] + m.issuer@ + be16(role_code(m.role)) + be32(m.valid_until)
        + m.tesla_root@ + field_bytes(m.sign_pubkey) + field_bytes(m.kem_pubkey)
}

/// The full encoding: the to-be-signed bytes, then the signature field.
pub open spec fn encode_spec(m: CertModel) -> Seq<u8> {
    tbs_spec(m) + field_bytes(m.sig)
}

/// Splitting one length-prefixed field off the front of `rest`: the field
/// and what follows it.
pub open spec fn take_field_spec(rest: Seq<u8>) -> Result<(Seq<u8>, Seq<u8>), Error> {
    if rest.len() < 2 {
        Err(Error::Truncated { need: 2, got: rest.len() as usize })
    } else {
        let len = read_be16(rest, 0) as int;
        if rest.len() < 2 + len {
            Err(Error::Truncated { need: (2 + len) as usize, got: rest.len() as usize })
        } else {
            Ok((rest.subrange(2, 2 + len), rest.skip(2 + len)))
        }
    }
}

/// The array holding the eight bytes of `s` from `at`.
pub open spec fn array8_at(s: Seq<u8>, at: int) -> [u8; 8] {
    [s[at], s[at + 1], s[at + 2], s[at + 3], s[at + 4], s[at + 5], s[at + 6], s[at + 7]]
}

/// The array holding the thirty-two bytes of `s` from `at`.
pub open spec fn array32_at(s: Seq<u8>, at: int) -> [u8; 32] {
    [
        s[at], s[at + 1], s[at + 2], s[at + 3], s[at + 4], s[at + 5], s[at + 6], s[at + 7],
        s[at + 8], s[at + 9], s[at + 10], s[at + 11], s[at + 12], s[at + 13], s[at + 14], s[at + 15],
        s[at + 16], s[at + 17], s[at + 18], s[at + 19], s[at + 20], s[at + 21], s[at + 22], s[at + 23],
        s[at + 24], s[at + 25], s[at + 26], s[at + 27], s[at + 28], s[at + 29], s[at + 30], s[at + 31],
    ]
}

/// What decoding a cert from `buf` gives.
pub open spec fn decode_spec(buf: Seq<u8>) -> Result<CertModel, Error> {
    if buf.len() < FIXED_LEN {
        Err(Error::Truncated { need: FIXED_LEN, got: buf.len() as usize })
    } else if buf[0] != CERT_VERSION {
        Err(Error::UnknownVersion(buf[0]))
    } else if buf[1] != 1 {
        Err(Error::UnknownAlg(buf[1]))
    } else {
        match take_field_spec(buf.skip(FIXED_LEN as int)) {
            Err(e) => Err(e),
            Ok((sign_pubkey, r1)) => match take_field_spec(r1) {
                Err(e) => Err(e),
                Ok((kem_pubkey, r2)) => match take_field_spec(r2) {
                    Err(e) => Err(e),
                    Ok((sig, r3)) => if r3.len() != 0 {
                        Err(Error::TrailingBytes(r3.len() as usize))
                    } else {
                        Ok(
                            CertModel {
                                alg: Alg::FnDsa512,
                                issuer: array8_at(buf, 2),
                                role: role_of_code(read_be16(buf, 10)),
                                valid_until: read_be32(buf, 12),
                                tesla_root: array32_at(buf, 16),
                                sign_pubkey,
                                kem_pubkey,
                                sig,
                            },
                        )
                    },
                },
            },
        }
    }
}

/// The first eight bytes of the SHA-256 digest of `data`.
pub open spec fn key_id_spec(data: Seq<u8>) -> Seq<u8> {
    sha256_spec(data).take(8)
}

fn push_field(out: &mut Vec<u8>, field: &[u8])
    ensures
        final(out)@ == old(out)@ + field_bytes(field@),
{
    let len: u16 = if field.len() <= 0xFFFF { field.len() as u16 } else { 0xFFFF };
    let lb = u16_to_be(len);
    push_all(out, &lb);
    push_all(out, field);
    assert(final(out)@ =~= old(out)@ + field_bytes(field@));
}

fn take_field(rest: &[u8]) -> (res: Result<(Vec<u8>, &[u8]), Error>)
    ensures
        match res {
            Ok((f, r)) => take_field_spec(rest@) == Ok::<(Seq<u8>, Seq<u8>), Error>((f@, r@)),
            Err(e) => take_field_spec(rest@) == Err::<(Seq<u8>, Seq<u8>), Error>(e),
        },
{
    if rest.len() < 2 {
        return Err(Error::Truncated { need: 2, got: rest.len() });
    }
    let len = u16_from_be(rest[0], rest[1]) as usize;
    if rest.len() < 2 + len {
        return Err(Error::Truncated { need: 2 + len, got: rest.len() });
    }
    let field = to_vec(&rest[2..2 + len]);
    Ok((field, &rest[2 + len..rest.len()]))
}

impl Cert {
    /// The to-be-signed bytes: everything except the signature itself.
    pub fn tbs(&self) -> (out: Vec<u8>)
        ensures
            out@ == tbs_spec(cert_model(*self)),
    {
        let mut out: Vec<u8> = Vec::new();
        out.push(CERT_VERSION);
        out.push(self.alg.code());
        push_all(&mut out, &self.issuer);
        push_all(&mut out, &u16_to_be(self.role.code()));
        push_all(&mut out, &u32_to_be(self.valid_until));
        push_all(&mut out, &self.tesla_root);
        push_field(&mut out, self.sign_pubkey.as_slice());
        push_field(&mut out, self.kem_pubkey.as_slice());
        assert(out@ =~= tbs_spec(cert_model(*self)));
        out
    }

    /// Full encoding: `tbs || len(sig) || sig`.
    pub fn encode(&self) -> (out: Vec<u8>)
        ensures
            out@ == encode_spec(cert_model(*self)),
    {
        let mut out = self.tbs();
        push_field(&mut out, self.sig.as_slice());
        out
    }

    /// Parse a cert from untrusted bytes.
    ///
    /// Structural validity only. A decoded cert is **not** a trusted cert —
    /// [`crate::crypto::verify_cert`] must check the signature against a root
    /// the receiver already pinned. Trailing bytes are refused: junk after a
    /// cert would let an attacker vary its fingerprint without touching what
    /// the signature covers.
    pub fn decode(buf: &[u8]) -> (res: Result<Self, Error>)
        ensures
            match res {
                Ok(c) => decode_spec(buf@) == Ok::<CertModel, Error>(cert_model(c)),
                Err(e) => decode_spec(buf@) == Err::<CertModel, Error>(e),
            },
    {
        if buf.len() < FIXED_LEN {
            return Err(Error::Truncated { need: FIXED_LEN, got: buf.len() });
        }
        if buf[0] != CERT_VERSION {
            return Err(Error::UnknownVersion(buf[0]));
        }
        let alg = match Alg::from_u8(buf[1]) {
            Ok(a) => a,
            Err(e) => return Err(e),
        };
        let issuer: [u8; 8] = [buf[2], buf[3], buf[4], buf[5], buf[6], buf[7], buf[8], buf[9]];
        let role = Role::from_u16(u16_from_be(buf[10], buf[11]));
        let valid_until = u32_from_be(buf[12], buf[13], buf[14], buf[15]);
        let tesla_root: [u8; 32] = [
            buf[16], buf[17], buf[18], buf[19], buf[20], buf[21], buf[22], buf[23],
            buf[24], buf[25], buf[26], buf[27], buf[28], buf[29], buf[30], buf[31],
            buf[32], buf[33], buf[34], buf[35], buf[36], buf[37], buf[38], buf[39],
            buf[40], buf[41], buf[42], buf[43], buf[44], buf[45], buf[46], buf[47],
        ];
        let rest = &buf[FIXED_LEN..buf.len()];
        assert(rest@ =~= buf@.skip(FIXED_LEN as int));
        let (sign_pubkey, rest) = match take_field(rest) {
            Ok(x) => x,
            Err(e) => return Err(e),
        };
        let (kem_pubkey, rest) = match take_field(rest) {
            Ok(x) => x,
            Err(e) => return Err(e),
        };
        let (sig, rest) = match take_field(rest) {
            Ok(x) => x,
            Err(e) => return Err(e),
        };
        if rest.len() != 0 {
            return Err(Error::TrailingBytes(rest.len()));
        }
        proof {
            broadcast use vstd::array::group_array_axioms;
            assert(issuer =~= array8_at(buf@, 2));
            assert(tesla_root =~= array32_at(buf@, 16));
        }
        Ok(Self { alg, issuer, role, valid_until, tesla_root, sign_pubkey, kem_pubkey, sig })
    }

    /// The 8-byte sender identifier carried in frame headers: SHA-256 over
    /// the full encoding, truncated.
    ///
    /// Covers the signature, so a re-issued cert is a new fingerprint.
    pub fn fingerprint(&self) -> (out: [u8; 8])
        ensures
            out@ == key_id_spec(encode_spec(cert_model(*self))),
    {
        let enc = self.encode();
        key_id(enc.as_slice())
    }

    /// Whether the cert is still valid as of beacon round `round`.
    pub fn is_valid_at(&self, round: u32) -> (ok: bool)
        ensures
            ok == (round <= self.valid_until),
    {
        round <= self.valid_until
    }
}

/// Truncated SHA-256 of a public key — the form used for `issuer`.
pub fn key_id(public_key: &[u8]) -> (out: [u8; 8])
    ensures
        out@ == key_id_spec(public_key@),
{
    let d = sha256(public_key);
    let out: [u8; 8] = [d[0], d[1], d[2], d[3], d[4], d[5], d[6], d[7]];
    assert(out@ =~= d@.take(8));
    out
}

proof fn lemma_take_field_of(f: Seq<u8>, rest: Seq<u8>)
    requires
        f.len() <= 0xFFFF,
    ensures
        take_field_spec(field_bytes(f) + rest) == Ok::<(Seq<u8>, Seq<u8>), Error>((f, rest)),
{
    let b = field_bytes(f) + rest;
    lemma_be16_roundtrip(f.len() as u16);
    assert(read_be16(b, 0) == f.len());
    assert(b.subrange(2, 2 + f.len() as int) =~= f);
    assert(b.skip(2 + f.len() as int) =~= rest);
}

spec fn head_spec(m: CertModel) -> Seq<u8> {
    seq![CERT_VERSION, alg_code(m.alg)] + m.issuer@ + be16(role_code(m.role)) + be32(m.valid_until)
        + m.tesla_root@
}

proof fn lemma_head(m: CertModel, r: Seq<u8>)
    ensures
        (head_spec(m) + r).len() >= FIXED_LEN,
        (head_spec(m) + r)[0] == CERT_VERSION,
        (head_spec(m) + r)[1] == alg_code(m.alg),
        read_be16(head_spec(m) + r, 10) == role_code(m.role),
        read_be32(head_spec(m) + r, 12) == m.valid_until,
        array8_at(head_spec(m) + r, 2) == m.issuer,
        array32_at(head_spec(m) + r, 16) == m.tesla_root,
        (head_spec(m) + r).skip(FIXED_LEN as int) == r,
{
    broadcast use vstd::array::group_array_axioms;
    let b = head_spec(m) + r;
    assert(head_spec(m).len() == FIXED_LEN);
    lemma_be16_roundtrip(role_code(m.role));
    lemma_be32_roundtrip(m.valid_until);
    assert(array8_at(b, 2) =~= m.issuer);
    assert(array32_at(b, 16) =~= m.tesla_root);
    assert(b.skip(FIXED_LEN as int) =~= r);
}

proof fn lemma_fields(m: CertModel)
    requires
        m.sign_pubkey.len() <= 0xFFFF,
        m.kem_pubkey.len() <= 0xFFFF,
        m.sig.len() <= 0xFFFF,
    ensures
        ({
            let r0 = field_bytes(m.sign_pubkey) + field_bytes(m.kem_pubkey) + field_bytes(m.sig);
            let r1 = field_bytes(m.kem_pubkey) + field_bytes(m.sig);
            let r2 = field_bytes(m.sig);
            &&& take_field_spec(r0) == Ok::<(Seq<u8>, Seq<u8>), Error>((m.sign_pubkey, r1))
            &&& take_field_spec(r1) == Ok::<(Seq<u8>, Seq<u8>), Error>((m.kem_pubkey, r2))
            &&& take_field_spec(r2) == Ok::<(Seq<u8>, Seq<u8>), Error>((m.sig, Seq::<u8>::empty()))
        }),
{
    let r1 = field_bytes(m.kem_pubkey) + field_bytes(m.sig);
    let r2 = field_bytes(m.sig);
    assert(field_bytes(m.sign_pubkey) + field_bytes(m.kem_pubkey) + field_bytes(m.sig) =~= field_bytes(
        m.sign_pubkey,
    ) + r1);
    lemma_take_field_of(m.sign_pubkey, r1);
    lemma_take_field_of(m.kem_pubkey, r2);
    assert(r2 =~= field_bytes(m.sig) + Seq::<u8>::empty());
    lemma_take_field_of(m.sig, Seq::<u8>::empty());
}

/// A cert whose byte fields each fit the 16-bit length prefix decodes from
/// its own encoding to exactly itself; the to-be-signed bytes are a prefix
/// of the encoding and exclude the signature.
pub proof fn lemma_cert_roundtrip(m: CertModel)
    requires
        m.sign_pubkey.len() <= 0xFFFF,
        m.kem_pubkey.len() <= 0xFFFF,
        m.sig.len() <= 0xFFFF,
    ensures
        decode_spec(encode_spec(m)) == Ok::<CertModel, Error>(m),
        encode_spec(m) == tbs_spec(m) + field_bytes(m.sig),
        encode_spec(m).len() == tbs_spec(m).len() + 2 + m.sig.len(),
{
    let r0 = field_bytes(m.sign_pubkey) + field_bytes(m.kem_pubkey) + field_bytes(m.sig);
    let b = encode_spec(m);
    assert(b =~= head_spec(m) + r0);
    lemma_head(m, r0);
    lemma_fields(m);
    assert(m.alg == Alg::FnDsa512);
    assert(decode_spec(b) == Ok::<CertModel, Error>(m));
}

/// The to-be-signed bytes do not depend on the signature, so a signature
/// can never cover itself: re-signing a cert leaves what was signed as it
/// was.
pub proof fn lemma_tbs_ignores_signature(m: CertModel, sig: Seq<u8>)
    ensures
        tbs_spec(CertModel { sig, ..m }) == tbs_spec(m),
{
}

proof fn lemma_take_field_inverse(rest: Seq<u8>)
    requires
        take_field_spec(rest) is Ok,
    ensures
        ({
            let (f, r) = take_field_spec(rest)->Ok_0;
            &&& f.len() <= 0xFFFF
            &&& rest == field_bytes(f) + r
        }),
{
    let (f, r) = take_field_spec(rest)->Ok_0;
    let len = read_be16(rest, 0);
    lemma_from_be16_bytes(rest[0], rest[1]);
    assert(f.len() == len);
    assert(rest =~= seq![rest[0], rest[1]] + f + r);
    assert(field_bytes(f) =~= seq![rest[0], rest[1]] + f);
}

/// Only the canonical encoding of a cert decodes: bytes that decode, and
/// whose role bits name a known role, are exactly the encoding of what they
/// decode to. (Unknown role bits decode to `Civilian` and so re-encode
/// differently; they are left out.)
pub proof fn lemma_decode_is_canonical(buf: Seq<u8>)
    requires
        decode_spec(buf) is Ok,
        read_be16(buf, 10) <= 2,
    ensures
        encode_spec(decode_spec(buf)->Ok_0) == buf,
{
    broadcast use vstd::array::group_array_axioms;
    let m = decode_spec(buf)->Ok_0;
    let rest = buf.skip(FIXED_LEN as int);
    lemma_take_field_inverse(rest);
    let (sp, r1) = take_field_spec(rest)->Ok_0;
    lemma_take_field_inverse(r1);
    let (kem, r2) = take_field_spec(r1)->Ok_0;
    lemma_take_field_inverse(r2);
    let (sig, r3) = take_field_spec(r2)->Ok_0;
    assert(r3.len() == 0);
    assert(r2 =~= field_bytes(sig));
    lemma_from_be16_bytes(buf[10], buf[11]);
    lemma_from_be32_bytes(buf[12], buf[13], buf[14], buf[15]);
    assert(role_code(m.role) == read_be16(buf, 10));
    assert(m.issuer@ =~= buf.subrange(2, 10));
    assert(m.tesla_root@ =~= buf.subrange(16, 48));
    assert(head_spec(m) =~= buf.take(FIXED_LEN as int));
    assert(buf =~= buf.take(FIXED_LEN as int) + rest);
    assert(encode_spec(m) =~= head_spec(m) + field_bytes(sp) + field_bytes(kem) + field_bytes(sig));
}

} // verus!
