//! Digests and signatures computed by outside crates.
use sha2::Digest;
use vstd::prelude::*;
use vstd::string::*;

verus! {

/// The SHA-256 digest of a byte string.
pub uninterp spec fn sha256_of(data: Seq<u8>) -> Seq<u8>;

/// The SHA-1 digest of a byte string.
pub uninterp spec fn sha1_of(data: Seq<u8>) -> Seq<u8>;

/// The RIPEMD-160 digest of a byte string.
pub uninterp spec fn ripemd160_of(data: Seq<u8>) -> Seq<u8>;

/// Why a signature is not accepted.
#[derive(Debug, Clone, Copy, PartialEq, Eq, Structural)]
pub enum SignatureFault {
    /// The bytes are not a DER signature.
    Encoding,
    /// The bytes are not a public key.
    PublicKey,
    /// The signature is of another message or by another key.
    Mismatch,
}

/// What checking an ECDSA signature in DER form over a 32-byte digest gives.
pub uninterp spec fn ecdsa_check(digest: Seq<u8>, der: Seq<u8>, key: Seq<u8>) -> Result<
    (),
    SignatureFault,
>;

/// `sha2::Sha256::digest`: 32 bytes that depend on the data alone.
#[verifier::external_body]
pub(crate) fn sha256(data: &[u8]) -> (digest: [u8; 32])
    ensures
        digest@ == sha256_of(data@),
{
    sha2::Sha256::digest(data).into()
}

/// `sha1::Sha1::digest`: 20 bytes that depend on the data alone.
#[verifier::external_body]
pub(crate) fn sha1(data: &[u8]) -> (digest: [u8; 20])
    ensures
        digest@ == sha1_of(data@),
{
    sha1::Sha1::digest(data).into()
}

/// `ripemd::Ripemd160::digest`: 20 bytes that depend on the data alone.
#[verifier::external_body]
pub(crate) fn ripemd160(data: &[u8]) -> (digest: [u8; 20])
    ensures
        digest@ == ripemd160_of(data@),
{
    ripemd::Ripemd160::digest(data).into()
}

/// `secp256k1`'s `Signature::from_der`, `PublicKey::from_slice` and `verify_ecdsa`, in this
/// order: the first that refuses decides the fault, and the outcome depends on the three byte
/// strings alone.
#[verifier::external_body]
pub(crate) fn verify_ecdsa(digest: &[u8; 32], der: &[u8], key: &[u8]) -> (r: Result<
    (),
    SignatureFault,
>)
    ensures
        r == ecdsa_check(digest@, der@, key@),
{
    let sig = secp256k1::ecdsa::Signature::from_der(der).map_err(|_| SignatureFault::Encoding)?;
    let key = secp256k1::PublicKey::from_slice(key).map_err(|_| SignatureFault::PublicKey)?;
    let msg = secp256k1::Message::from_digest(*digest);
    secp256k1::Secp256k1::verification_only().verify_ecdsa(&msg, &sig, &key).map_err(
        |_| SignatureFault::Mismatch,
    )
}

/// The SHA-512 digest of a byte string.
pub uninterp spec fn sha512_of(data: Seq<u8>) -> Seq<u8>;

/// `sha2::Sha512::digest`: 64 bytes that depend on the data alone.
#[verifier::external_body]
pub(crate) fn sha512(data: &[u8]) -> (digest: [u8; 64])
    ensures
        digest@ == sha512_of(data@),
{
    sha2::Sha512::digest(data).into()
}

/// Whether bytes are a secret key.
pub uninterp spec fn is_secret_key(secret: Seq<u8>) -> bool;

/// The public key of a secret key, compressed and uncompressed.
pub uninterp spec fn public_keys_of(secret: Seq<u8>) -> (Seq<u8>, Seq<u8>);

/// The signature over a digest by a secret key from which the public key can be recovered, and the
/// number that tells which key it is.
pub uninterp spec fn recoverable_signature(secret: Seq<u8>, digest: Seq<u8>) -> (u8, Seq<u8>);

/// `secp256k1`'s `SecretKey::from_slice` and `PublicKey::from_secret_key`: the public key in its
/// compressed and its uncompressed form, or the text of the error where the bytes are no secret
/// key. Only 32 bytes can be one.
#[verifier::external_body]
pub(crate) fn derive_public_keys(secret: &[u8]) -> (r: Result<([u8; 33], [u8; 65]), String>)
    ensures
        match r {
            Ok(p) => {
                &&& is_secret_key(secret@)
                &&& secret@.len() == 32
                &&& (p.0@, p.1@) == public_keys_of(secret@)
            },
            Err(t) => !is_secret_key(secret@) && t@ == "malformed or out-of-range secret key"@,
        },
{
    let key = secp256k1::SecretKey::from_slice(secret).map_err(|e| e.to_string())?;
    let public = secp256k1::PublicKey::from_secret_key(&secp256k1::Secp256k1::new(), &key);
    Ok((public.serialize(), public.serialize_uncompressed()))
}

/// `secp256k1`'s `SecretKey::from_slice` and `sign_ecdsa_recoverable`: a number up to three and 64
/// bytes that depend on the key and the digest alone, or the text of the error where the bytes are
/// no secret key.
#[verifier::external_body]
pub(crate) fn sign_recoverable(secret: &[u8], digest: &[u8; 32]) -> (r: Result<
    (u8, [u8; 64]),
    String,
>)
    ensures
        match r {
            Ok(s) => {
                &&& is_secret_key(secret@)
                &&& s.0 <= 3
                &&& (s.0, s.1@) == recoverable_signature(secret@, digest@)
            },
            Err(t) => !is_secret_key(secret@) && t@ == "malformed or out-of-range secret key"@,
        },
{
    let key = secp256k1::SecretKey::from_slice(secret).map_err(|e| e.to_string())?;
    let message = secp256k1::Message::from_digest(*digest);
    let signature = secp256k1::Secp256k1::new().sign_ecdsa_recoverable(&message, &key);
    let (id, bytes) = signature.serialize_compact();
    Ok((id.to_i32() as u8, bytes))
}

/// SHA-256 twice.
pub open spec fn sha256d_of(data: Seq<u8>) -> Seq<u8> {
    sha256_of(sha256_of(data))
}

/// RIPEMD-160 of SHA-256.
pub open spec fn hash160_of(data: Seq<u8>) -> Seq<u8> {
    ripemd160_of(sha256_of(data))
}

/// SHA-256 twice.
pub fn sha256d(data: &[u8]) -> (digest: [u8; 32])
    ensures
        digest@ == sha256d_of(data@),
{
    let inner: [u8; 32] = sha256(data);
    sha256(inner.as_slice())
}

/// RIPEMD-160 of SHA-256.
pub fn hash160(data: &[u8]) -> (digest: [u8; 20])
    ensures
        digest@ == hash160_of(data@),
{
    let inner: [u8; 32] = sha256(data);
    ripemd160(inner.as_slice())
}

} // verus!
