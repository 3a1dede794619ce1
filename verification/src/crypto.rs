//! Post-quantum signatures and certificate issue and verification.
//!
//! Everything that needs a primitive larger than a hash function lives
//! here: FN-DSA-512 (Falcon) keys, signatures over a domain separator, and
//! the root signature that makes an operational certificate.
//!
//! The primitives come from the `fn-dsa` crate and are not described, only
//! named: whether a key encoding decodes, and whether a signature verifies,
//! are fixed functions of their byte inputs. Signing is randomised (hedged
//! nonces), so nothing is claimed of a signature's bytes beyond its length.
//! What this module does prove is everything around the primitives: which
//! bytes are signed, in which domain, under which key, and that a cert is
//! only ever checked against the key it names.

use vstd::prelude::*;
use fn_dsa::{KeyPairGenerator, KeyPairGeneratorStandard, SigningKey, SigningKeyStandard, VerifyingKey,
    VerifyingKeyStandard};
use crate::bytes::{eq8, to_vec};
use crate::cert::{key_id, key_id_spec, tbs_spec, cert_model, lemma_tbs_ignores_signature, Alg, Cert, CertModel, Role};
use crate::chain::ChainKey;

verus! {

/// Public key length for the implemented suite, in bytes.
pub const VRFY_KEY_LEN: usize = 897;

/// Private key length for the implemented suite, in bytes.
pub const SIGN_KEY_LEN: usize = 1345;

/// Signature length for the implemented suite, in bytes.
pub const SIG_LEN: usize = 666;

/// Signature length for a degree-1024 key, which a stored key pair may hold.
pub const SIG_LEN_1024: usize = 1280;

/// Private key length for a degree-1024 key, in bytes.
pub const SIGN_KEY_LEN_1024: usize = 2369;

/// Public key length for a degree-1024 key, in bytes.
pub const VRFY_KEY_LEN_1024: usize = 1793;

/// Longest context string a signature domain may have, in bytes.
pub const MAX_DOMAIN_LEN: usize = 255;

/// A signature domain: the context string mixed into every signature, so a
/// signature made in one domain never verifies in another. Signing and
/// verifying take contexts of at most [`MAX_DOMAIN_LEN`] bytes.
#[derive(Debug, Clone, PartialEq, Eq)]
pub enum DomainContext {
    /// `signet/v1/cert`: root signatures over operational certificates.
    Cert,
    /// `signet/v1/msg`: signatures over `Signed`-class frames.
    Message,
    /// Any other context string.
    Other(Vec<u8>),
}

/// Domain separator for root signatures over operational certificates.
///
/// Distinct from [`DOMAIN_MESSAGE`] so a certificate signature can never be
/// replayed as a message signature, or the reverse.
pub const DOMAIN_CERT: DomainContext = DomainContext::Cert;

/// Domain separator for signatures over `Signed`-class frames.
pub const DOMAIN_MESSAGE: DomainContext = DomainContext::Message;

/// The ASCII context string of a domain.
pub open spec fn domain_bytes(d: DomainContext) -> Seq<u8> {
    match d {
        DomainContext::Cert => seq![115u8, 105, 103, 110, 101, 116, 47, 118, 49, 47, 99, 101, 114, 116],
        DomainContext::Other(v) => v@,
        DomainContext::Message => seq![115u8, 105, 103, 110, 101, 116, 47, 118, 49, 47, 109, 115, 103],
    }
}

impl DomainContext {
    /// The ASCII context string of this domain.
    pub fn bytes(&self) -> (out: Vec<u8>)
        ensures
            out@ == domain_bytes(*self),
    {
        match self {
            DomainContext::Cert => {
                let v: Vec<u8> = vec![115u8, 105, 103, 110, 101, 116, 47, 118, 49, 47, 99, 101, 114, 116];
                assert(v@ =~= domain_bytes(*self));
                v
            },
            DomainContext::Message => {
                let v: Vec<u8> = vec![115u8, 105, 103, 110, 101, 116, 47, 118, 49, 47, 109, 115, 103];
                assert(v@ =~= domain_bytes(*self));
                v
            },
            DomainContext::Other(v) => to_vec(v.as_slice()),
        }
    }
}

/// The shape `fn_dsa` requires of an encoded signing key: a head byte of
/// `0x50` plus the base-2 logarithm of the degree, 9 (degree 512) or 10
/// (degree 1024), and the length of a key of that degree.
pub open spec fn sign_key_shape(signing_key: Seq<u8>) -> bool {
    ||| signing_key.len() == SIGN_KEY_LEN && signing_key[0] == 0x59u8
    ||| signing_key.len() == SIGN_KEY_LEN_1024 && signing_key[0] == 0x5Au8
}

/// The shape `fn_dsa` requires of an encoded verifying key: a head byte of
/// the base-2 logarithm of the degree, 9 or 10, and the length of a key of
/// that degree.
pub open spec fn vrfy_key_shape(verifying_key: Seq<u8>) -> bool {
    ||| verifying_key.len() == VRFY_KEY_LEN && verifying_key[0] == 0x09u8
    ||| verifying_key.len() == VRFY_KEY_LEN_1024 && verifying_key[0] == 0x0Au8
}

/// Whether `fn_dsa::SigningKeyStandard::decode` accepts these bytes.
pub uninterp spec fn fndsa_sign_key_ok(signing_key: Seq<u8>) -> bool;

/// Whether `fn_dsa::VerifyingKeyStandard::decode` accepts these bytes.
pub uninterp spec fn fndsa_vrfy_key_ok(verifying_key: Seq<u8>) -> bool;

/// Whether `sig` is a valid FN-DSA signature over `msg` (raw, not
/// pre-hashed) in the context `domain` under the encoded verifying key.
pub uninterp spec fn fndsa_verify_spec(verifying_key: Seq<u8>, domain: Seq<u8>, msg: Seq<u8>, sig: Seq<u8>) -> bool;

/// Whether `signing_key` and `verifying_key` are the two halves that one run
/// of `fn_dsa::KeyPairGenerator::keygen` wrote: the verifying key is the one
/// the signing key's polynomials determine, and the hash of it embedded in
/// the signing key is its hash.
pub uninterp spec fn fndsa_pair(signing_key: Seq<u8>, verifying_key: Seq<u8>) -> bool;

/// Calls `fn_dsa::SigningKeyStandard::decode` and reports whether it gave a key.
///
/// Trusted: the answer is a fixed function of the bytes, named
/// `fndsa_sign_key_ok`, and it is `true` only for bytes of the shape that
/// the decoder checks first (head byte, degree 512 or 1024, length).
/// Decoding never panics.
#[verifier::external_body]
fn sign_key_decodes(signing_key: &[u8]) -> (ok: bool)
    ensures
        ok == fndsa_sign_key_ok(signing_key@),
        ok ==> sign_key_shape(signing_key@),
{
    SigningKeyStandard::decode(signing_key).is_some()
}

/// Calls `fn_dsa::VerifyingKeyStandard::decode` and reports whether it gave a key.
///
/// Trusted: the answer is a fixed function of the bytes, named
/// `fndsa_vrfy_key_ok`, and it is `true` only for bytes of the shape that
/// the decoder checks first (head byte, degree 512 or 1024, length).
/// Decoding never panics.
#[verifier::external_body]
fn vrfy_key_decodes(verifying_key: &[u8]) -> (ok: bool)
    ensures
        ok == fndsa_vrfy_key_ok(verifying_key@),
        ok ==> vrfy_key_shape(verifying_key@),
{
    VerifyingKeyStandard::decode(verifying_key).is_some()
}

/// Generates a degree-512 key pair with
/// `fn_dsa::KeyPairGeneratorStandard::keygen`, seeded from OS entropy
/// (`rand_core::OsRng`), into the two buffers.
///
/// Trusted: given buffers of exactly the encoded sizes (which `keygen`
/// asserts), both keep their length, hold encodings that the crate's own
/// decoders accept, and are the two halves of one key pair. The keys
/// themselves are random and not described. A failure of the OS entropy
/// source panics inside `OsRng`; that is not excluded here.
#[verifier::external_body]
fn fndsa_keygen(signing_key: &mut Vec<u8>, verifying_key: &mut Vec<u8>)
    requires
        old(signing_key)@.len() == SIGN_KEY_LEN,
        old(verifying_key)@.len() == VRFY_KEY_LEN,
    ensures
        final(signing_key)@.len() == SIGN_KEY_LEN,
        final(verifying_key)@.len() == VRFY_KEY_LEN,
        fndsa_sign_key_ok(final(signing_key)@),
        fndsa_vrfy_key_ok(final(verifying_key)@),
        fndsa_pair(final(signing_key)@, final(verifying_key)@),
{
    KeyPairGeneratorStandard::default().keygen(
        fn_dsa::FN_DSA_LOGN_512,
        &mut rand_core::OsRng,
        signing_key,
        verifying_key,
    );
}

/// Signs `msg` in the context `domain`: decodes the key with
/// `fn_dsa::SigningKeyStandard::decode`, sizes the output with
/// `fn_dsa::signature_size`, and calls `fn_dsa::SigningKey::sign` with OS
/// entropy and `HASH_ID_RAW`.
///
/// Trusted: for a key that decodes and a context of at most 255 bytes (the
/// crate asserts that bound) nothing panics, and the signature is 666 bytes
/// under a 1345-byte (degree-512) key and 1280 bytes otherwise. Made with
/// the signing half of a generated pair, it verifies under the verifying
/// half for this context and message: the crate documents that `sign`
/// fails only for an invalid private key (it retries 27 times, each failing
/// with probability about 1/2450 for a genuine key). Its bytes are random
/// and not otherwise claimed. A failure of the OS entropy source panics
/// inside `OsRng`.
#[verifier::external_body]
fn fndsa_sign(signing_key: &[u8], domain: &[u8], msg: &[u8]) -> (sig: Vec<u8>)
    requires
        fndsa_sign_key_ok(signing_key@),
        domain@.len() <= MAX_DOMAIN_LEN,
    ensures
        sig@.len() == signature_len(signing_key@),
        forall|vk: Seq<u8>| #[trigger] fndsa_pair(signing_key@, vk) ==> fndsa_verify_spec(vk, domain@, msg@, sig@),
{
    let mut sk = SigningKeyStandard::decode(signing_key).expect("the key decodes");
    let mut sig = vec![0u8; fn_dsa::signature_size(sk.get_logn())];
    let _ = sk.sign(&mut rand_core::OsRng, &fn_dsa::DomainContext(domain), &fn_dsa::HASH_ID_RAW, msg, &mut sig);
    sig
}

/// Checks a signature: decodes the key with
/// `fn_dsa::VerifyingKeyStandard::decode` and, when it decodes, calls
/// `fn_dsa::VerifyingKey::verify` with `HASH_ID_RAW`.
///
/// Trusted: for a context of at most 255 bytes (asserted by the crate)
/// nothing panics; the answer is the fixed function `fndsa_verify_spec` of
/// the four byte strings, and a key that does not decode, or lacks the shape
/// the decoder checks first, verifies nothing.
#[verifier::external_body]
fn fndsa_verify(verifying_key: &[u8], domain: &[u8], msg: &[u8], sig: &[u8]) -> (ok: bool)
    requires
        domain@.len() <= MAX_DOMAIN_LEN,
    ensures
        ok == fndsa_verify_spec(verifying_key@, domain@, msg@, sig@),
        !fndsa_vrfy_key_ok(verifying_key@) ==> !ok,
        ok ==> vrfy_key_shape(verifying_key@),
{
    match VerifyingKeyStandard::decode(verifying_key) {
        Some(vk) => vk.verify(sig, &fn_dsa::DomainContext(domain), &fn_dsa::HASH_ID_RAW, msg),
        None => false,
    }
}

/// The length of a signature made with an encoded signing key.
pub open spec fn signature_len(signing_key: Seq<u8>) -> nat {
    if signing_key.len() == SIGN_KEY_LEN { SIG_LEN as nat } else { SIG_LEN_1024 as nat }
}

/// Something a key operation refused to do.
#[derive(Debug, Clone, Copy, PartialEq, Eq, Structural)]
pub enum Error {
    /// Key bytes were the wrong length or failed to decode.
    BadKey,
    /// Certificate names a signature suite this build does not implement.
    UnsupportedAlg(Alg),
}

/// An FN-DSA key pair. Both halves always decode.
pub struct KeyPair {
    signing: Vec<u8>,
    verifying: Vec<u8>,
}

impl View for KeyPair {
    /// The signing half, then the verifying half.
    type V = (Seq<u8>, Seq<u8>);

    closed spec fn view(&self) -> (Seq<u8>, Seq<u8>) {
        (self.signing@, self.verifying@)
    }
}

/// Both halves of a key pair decode.
pub open spec fn key_pair_ok(k: (Seq<u8>, Seq<u8>)) -> bool {
    fndsa_sign_key_ok(k.0) && fndsa_vrfy_key_ok(k.1)
}

impl Clone for KeyPair {
    fn clone(&self) -> (r: Self)
        ensures
            r@ == self@,
    {
        proof {
            use_type_invariant(self);
        }
        KeyPair { signing: to_vec(self.signing.as_slice()), verifying: to_vec(self.verifying.as_slice()) }
    }
}

impl KeyPair {
    #[verifier::type_invariant]
    spec fn inv(&self) -> bool {
        key_pair_ok(self@)
    }

    /// Generate a fresh degree-512 key pair from OS entropy.
    pub fn generate() -> (k: Self)
        ensures
            k@.0.len() == SIGN_KEY_LEN,
            k@.1.len() == VRFY_KEY_LEN,
            key_pair_ok(k@),
            fndsa_pair(k@.0, k@.1),
    {
        let mut signing: Vec<u8> = vec![0u8; SIGN_KEY_LEN];
        let mut verifying: Vec<u8> = vec![0u8; VRFY_KEY_LEN];
        fndsa_keygen(&mut signing, &mut verifying);
        KeyPair { signing, verifying }
    }

    /// Reconstruct from stored halves, checking both decode.
    pub fn from_parts(signing: Vec<u8>, verifying: Vec<u8>) -> (res: Result<Self, Error>)
        ensures
            res is Ok <==> fndsa_sign_key_ok(signing@) && fndsa_vrfy_key_ok(verifying@),
            res is Ok ==> sign_key_shape(signing@) && vrfy_key_shape(verifying@),
            res matches Ok(k) ==> k@ == (signing@, verifying@),
            res matches Err(e) ==> e == Error::BadKey,
    {
        if !sign_key_decodes(signing.as_slice()) {
            return Err(Error::BadKey);
        }
        if !vrfy_key_decodes(verifying.as_slice()) {
            return Err(Error::BadKey);
        }
        Ok(KeyPair { signing, verifying })
    }

    /// The public half, published in certs.
    pub fn verifying_key(&self) -> (out: &[u8])
        ensures
            out@ == self@.1,
    {
        self.verifying.as_slice()
    }

    /// The private half. Back this up cold; it is the identity.
    pub fn signing_key(&self) -> (out: &[u8])
        ensures
            out@ == self@.0,
    {
        self.signing.as_slice()
    }

    /// Truncated SHA-256 of the public half: the `issuer` field in certs.
    pub fn id(&self) -> (out: [u8; 8])
        ensures
            out@ == key_id_spec(self@.1),
    {
        key_id(self.verifying.as_slice())
    }

    /// Sign a message in the given domain.
    ///
    /// The signing key is decoded per call so this can take `&self`.
    pub fn sign(&self, domain: &DomainContext, msg: &[u8]) -> (sig: Vec<u8>)
        requires
            domain_bytes(*domain).len() <= MAX_DOMAIN_LEN,
        ensures
            sig@.len() == signature_len(self@.0),
            fndsa_pair(self@.0, self@.1) ==> fndsa_verify_spec(self@.1, domain_bytes(*domain), msg@, sig@),
    {
        proof {
            use_type_invariant(self);
        }
        let ctx = domain.bytes();
        fndsa_sign(self.signing.as_slice(), ctx.as_slice(), msg)
    }

    /// Issue an operational certificate for `holder`.
    ///
    /// `self` is the root; keep it cold. `valid_until` is a beacon round
    /// number, not wall-clock time: expiry substitutes for revocation.
    pub fn issue(&self, holder: &KeyPair, tesla_root: ChainKey, role: Role, valid_until: u32) -> (cert: Cert)
        ensures
            cert.alg == Alg::FnDsa512,
            cert.issuer@ == key_id_spec(self@.1),
            cert.role == role,
            cert.valid_until == valid_until,
            cert.tesla_root == tesla_root,
            cert.sign_pubkey@ == holder@.1,
            cert.kem_pubkey@.len() == 0,
            cert.sig@.len() == signature_len(self@.0),
            fndsa_pair(self@.0, self@.1) ==> fndsa_verify_spec(
                self@.1,
                domain_bytes(DomainContext::Cert),
                tbs_spec(cert_model(cert)),
                cert.sig@,
            ),
            fndsa_pair(self@.0, self@.1) ==> verify_cert_spec(cert_model(cert), self@.1) == Ok::<bool, Error>(true),
    {
        let mut cert = Cert {
            alg: Alg::FnDsa512,
            issuer: self.id(),
            role,
            valid_until,
            tesla_root,
            sign_pubkey: to_vec(holder.verifying_key()),
            kem_pubkey: Vec::new(),
            sig: Vec::new(),
        };
        let tbs = cert.tbs();
        let ghost unsigned = cert_model(cert);
        cert.sig = self.sign(&DOMAIN_CERT, tbs.as_slice());
        proof {
            lemma_tbs_ignores_signature(unsigned, cert.sig@);
            assert(cert_model(cert) == (CertModel { sig: cert.sig@, ..unsigned }));
        }
        cert
    }
}

/// Check a detached signature.
pub fn verify(verifying_key: &[u8], domain: &DomainContext, msg: &[u8], sig: &[u8]) -> (ok: bool)
    requires
        domain_bytes(*domain).len() <= MAX_DOMAIN_LEN,
    ensures
        ok == fndsa_verify_spec(verifying_key@, domain_bytes(*domain), msg@, sig@),
        !fndsa_vrfy_key_ok(verifying_key@) ==> !ok,
        ok ==> vrfy_key_shape(verifying_key@),
{
    let ctx = domain.bytes();
    fndsa_verify(verifying_key, ctx.as_slice(), msg, sig)
}

/// What checking a cert against an issuer key gives: `false` when the cert
/// names another issuer, else whether its signature verifies over its
/// to-be-signed bytes in the cert domain.
pub open spec fn verify_cert_spec(c: CertModel, issuer_verifying_key: Seq<u8>) -> Result<bool, Error> {
    match c.alg {
        Alg::FnDsa512 => if c.issuer@ != key_id_spec(issuer_verifying_key) {
            Ok(false)
        } else {
            Ok(fndsa_verify_spec(issuer_verifying_key, domain_bytes(DomainContext::Cert), tbs_spec(c), c.sig))
        },
    }
}

/// Check that a certificate was issued by the holder of `issuer_verifying_key`.
///
/// Both halves matter. The signature proves the issuer signed these bytes;
/// the `issuer` field check proves the cert *claims* the key being tested.
/// This says nothing about whether to trust the issuer, nor about expiry.
pub fn verify_cert(cert: &Cert, issuer_verifying_key: &[u8]) -> (res: Result<bool, Error>)
    ensures
        res == verify_cert_spec(cert_model(*cert), issuer_verifying_key@),
{
    match cert.alg {
        Alg::FnDsa512 => {},
    }
    let id = key_id(issuer_verifying_key);
    if !eq8(&cert.issuer, &id) {
        proof {
            broadcast use vstd::array::group_array_axioms;
            if cert.issuer@ == id@ {
                assert(cert.issuer =~= id);
            }
        }
        return Ok(false);
    }
    let tbs = cert.tbs();
    Ok(verify(issuer_verifying_key, &DOMAIN_CERT, tbs.as_slice(), cert.sig.as_slice()))
}

/// A cert made by `issue` names its issuer's key, so checking it against
/// that key comes down to its signature alone; checked against any key
/// whose id it does not carry, it is refused.
pub proof fn lemma_issued_cert_checks_signature(c: CertModel, root: (Seq<u8>, Seq<u8>), other: Seq<u8>)
    requires
        c.alg == Alg::FnDsa512,
        c.issuer@ == key_id_spec(root.1),
    ensures
        verify_cert_spec(c, root.1) == Ok::<bool, Error>(
            fndsa_verify_spec(root.1, domain_bytes(DomainContext::Cert), tbs_spec(c), c.sig),
        ),
        key_id_spec(other) != key_id_spec(root.1) ==> verify_cert_spec(c, other) == Ok::<bool, Error>(false),
{
}

} // verus!
