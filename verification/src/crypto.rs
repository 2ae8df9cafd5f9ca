//! The calls into `ring`: the operating system's CSPRNG, HMAC-SHA256 and ECDSA-P256 verification.
//!
//! Each function here is trusted: Verus believes its contract and does not read its body. The
//! contracts say no more than `ring`'s documentation does.
use vstd::prelude::*;

use ring::rand::SecureRandom;

verus! {

/// HMAC-SHA256 (RFC 2104) of `data` under `key`, as computed by `ring::hmac::sign`. A function
/// of its two arguments alone.
pub uninterp spec fn hmac_sha256_tag(key: Seq<u8>, data: Seq<u8>) -> Seq<u8>;

/// Whether `ring::signature::ECDSA_P256_SHA256_ASN1` accepts `signature` (ASN.1 DER) as a
/// signature of `message` by the P-256 public key whose uncompressed SEC1 point is
/// `public_point`. A function of its three arguments alone.
pub uninterp spec fn ecdsa_p256_sha256_accepts(
    public_point: Seq<u8>,
    message: Seq<u8>,
    signature: Seq<u8>,
) -> bool;

/// Fills `dest` from the operating system's CSPRNG (`ring::rand::SystemRandom::fill`) and says
/// whether it could: `fill` fails only when the OS offers no entropy source. Nothing is promised
/// of the bytes beyond how many there are: they are random, and meaningless after a failure.
#[verifier::external_body]
pub(crate) fn system_random_fill(dest: &mut [u8]) -> (ok: bool)
    ensures
        final(dest)@.len() == old(dest)@.len(),
{
    ring::rand::SystemRandom::new().fill(dest).is_ok()
}

/// The 32-byte HMAC-SHA256 tag of `data` under the 32-byte `key` (`ring::hmac::sign` with a
/// `ring::hmac::Key` for `HMAC_SHA256`). `ring` refuses (panics on) only inputs of more than
/// 2^61 bytes, far beyond the bound required here.
#[verifier::external_body]
pub(crate) fn hmac_sha256(key: &[u8; 32], data: &[u8]) -> (tag: [u8; 32])
    requires
        data@.len() <= 0xffff_ffff,
    ensures
        tag@ == hmac_sha256_tag(key@, data@),
{
    let full = ring::hmac::sign(&ring::hmac::Key::new(ring::hmac::HMAC_SHA256, key), data);
    let mut tag = [0u8; 32];
    tag.copy_from_slice(full.as_ref());
    tag
}

/// Whether `signature` verifies over `message` under the P-256 public key with uncompressed
/// point `public_point` (`ring::signature::UnparsedPublicKey::verify` with
/// `ECDSA_P256_SHA256_ASN1`). A malformed point or signature is simply not accepted.
#[verifier::external_body]
pub(crate) fn ecdsa_p256_sha256_verify(public_point: &[u8], message: &[u8], signature: &[u8]) -> (ok:
    bool)
    ensures
        ok == ecdsa_p256_sha256_accepts(public_point@, message@, signature@),
{
    ring::signature::UnparsedPublicKey::new(
        &ring::signature::ECDSA_P256_SHA256_ASN1,
        public_point,
    ).verify(message, signature).is_ok()
}

} // verus!
