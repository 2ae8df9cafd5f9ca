//! The signature: preimage, verifier, and the signer trait. No private key is ever held here:
//! [`StunSigner`] is implemented by the consumer over the key it already has.
use vstd::prelude::*;

use crate::codec::{u16_bytes, push_u16, TransactionId};
use crate::credential::request::{RequestKind, RequestShape};
use crate::credential::wire::{
    is_valid_spki_der, push_bytes, spec_valid_spki, CredentialError, CREDENTIAL_VERSION,
    P256_SPKI_LEN,
};
use crate::crypto::{ecdsa_p256_sha256_accepts, ecdsa_p256_sha256_verify};

verus! {

/// `dig:stun:v1`: separates a signature made for this purpose from every other message the same
/// TLS-leaf key signs (a TLS `CertificateVerify`, a `dig:holdings:v1` record), in both
/// directions.
pub const SIG_DOMAIN_TAG: [u8; 11] = [
    0x64,
    0x69,
    0x67,
    0x3a,
    0x73,
    0x74,
    0x75,
    0x6e,
    0x3a,
    0x76,
    0x31,
];

/// The signed preimage:
/// `SIG_DOMAIN_TAG ‖ 0x01 ‖ transaction_id(12) ‖ nonce_len(2) ‖ nonce_attr_value ‖ spki_der`.
pub open spec fn spec_signing_message(txid: Seq<u8>, nonce: Seq<u8>, spki: Seq<u8>) -> Seq<u8> {
    SIG_DOMAIN_TAG@ + seq![CREDENTIAL_VERSION] + txid + u16_bytes(nonce.len() as u16) + nonce
        + spki
}

/// What verifying a classified request yields: the SPKI of a `Signed` request whose SPKI has the
/// right shape and whose signature ECDSA-P256-SHA256 accepts over the preimage under the point
/// at `spki[26..91]`; `BadSignature` when it does not; `Malformed` for anything else.
pub open spec fn spec_verify_signed_request(txid: Seq<u8>, kind: RequestShape) -> Result<
    Seq<u8>,
    CredentialError,
> {
    match kind {
        RequestShape::Signed { spki, nonce, signature } => if !spec_valid_spki(spki) {
            Err(CredentialError::Malformed)
        } else if ecdsa_p256_sha256_accepts(
            spki.subrange(26, P256_SPKI_LEN as int),
            spec_signing_message(txid, nonce, spki),
            signature,
        ) {
            Ok(spki)
        } else {
            Err(CredentialError::BadSignature)
        },
        _ => Err(CredentialError::Malformed),
    }
}

/// Build the exact bytes a signed request's signature covers. `nonce_attr_value` is the `NONCE`
/// value exactly as carried on the wire (the base64url text), never the decoded bytes; the
/// signer and the verifier must agree on that. Binding the transaction id fixes which response
/// the requester accepts; the nonce fixes the server, the source and the time bucket; the SPKI
/// stops the identity being swapped under a valid signature.
pub fn signing_message(txid: &TransactionId, nonce_attr_value: &[u8], spki_der: &[u8]) -> (m: Vec<
    u8,
>)
    ensures
        m@ == spec_signing_message(txid@, nonce_attr_value@, spki_der@),
{
    let mut message: Vec<u8> = Vec::new();
    push_bytes(&mut message, &SIG_DOMAIN_TAG);
    message.push(CREDENTIAL_VERSION);
    push_bytes(&mut message, txid);
    #[verifier::truncate]
    let nonce_len = nonce_attr_value.len() as u16;
    push_u16(&mut message, nonce_len);
    push_bytes(&mut message, nonce_attr_value);
    push_bytes(&mut message, spki_der);
    assert(message@ =~= spec_signing_message(txid@, nonce_attr_value@, spki_der@));
    message
}

/// A signature-verified requester identity: only the SPKI. It proves key possession, freshness
/// and return-routability, and nothing about network membership.
#[derive(Debug, Clone, Copy, PartialEq, Eq)]
pub struct VerifiedIdentity {
    spki: [u8; 91],
}

impl View for VerifiedIdentity {
    type V = Seq<u8>;

    /// The verified SPKI DER.
    closed spec fn view(&self) -> Seq<u8> {
        self.spki@
    }
}

impl VerifiedIdentity {
    /// The verified 91-byte SPKI DER (no version byte).
    pub fn spki_der(&self) -> (r: &[u8; 91])
        ensures
            r@ == self@,
    {
        &self.spki
    }
}

/// Verify a [`RequestKind::Signed`]'s signature against its own carried SPKI over
/// [`signing_message`]: ECDSA, P-256, SHA-256, ASN.1 DER.
///
/// A `kind` that is not `Signed`, or whose SPKI does not have the 91-byte shape (its fields are
/// public, so one need not have come through `classify_request`), is
/// [`CredentialError::Malformed`] rather than a panic. A signature that does not verify is
/// [`CredentialError::BadSignature`].
pub fn verify_signed_request(txid: &TransactionId, kind: &RequestKind<'_>) -> (r: Result<
    VerifiedIdentity,
    CredentialError,
>)
    ensures
        match spec_verify_signed_request(txid@, kind@) {
            Ok(spki) => r is Ok && r->Ok_0@ == spki,
            Err(e) => r == Err::<VerifiedIdentity, CredentialError>(e),
        },
{
    let (spki, nonce, signature) = match kind {
        RequestKind::Signed { spki, nonce, signature } => (*spki, *nonce, *signature),
        _ => {
            return Err(CredentialError::Malformed);
        },
    };
    if !is_valid_spki_der(spki) {
        return Err(CredentialError::Malformed);
    }
    let message = signing_message(txid, nonce, spki);
    let point = &spki[26..P256_SPKI_LEN];
    if !ecdsa_p256_sha256_verify(point, message.as_slice(), signature) {
        return Err(CredentialError::BadSignature);
    }
    let mut out = [0u8; 91];
    let mut i: usize = 0;
    while i < 91
        invariant
            0 <= i <= 91,
            spki@.len() == 91,
            forall|j: int| 0 <= j < i ==> out@[j] == spki@[j],
        decreases 91 - i,
    {
        out[i] = spki[i];
        i = i + 1;
    }
    assert(out@ =~= spki@);
    Ok(VerifiedIdentity { spki: out })
}

/// Implemented by the consumer over the P-256 private key it already holds for its TLS leaf. No
/// private key is constructed or stored here.
pub trait StunSigner {
    /// Exactly the 91 bytes of the SPKI DER, no version byte.
    fn spki_der(&self) -> &[u8];

    /// Sign `message` (always the output of [`signing_message`]) with the leaf's private key:
    /// an ECDSA-P256-SHA256 signature in ASN.1 DER form.
    fn sign(&self, message: &[u8]) -> Vec<u8>;
}

} // verus!
