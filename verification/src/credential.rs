//! The signed-Binding credential: how a DIG-operated UDP STUN server tells a DIG node's ask from
//! anyone else's.
//!
//! A **signed Binding** is an RFC 5389 Binding request carrying the requester's TLS-leaf
//! `SubjectPublicKeyInfo` and an ECDSA-P256 signature, by that leaf's key, over a server-issued
//! nonce. It proves three things and only three: the sender holds the private key of the SPKI it
//! carries; it received the server's challenge at the address it sends from; the request is
//! fresh (at most 120 s) and bound to this server. It proves nothing about network membership:
//! anyone can mint a P-256 key. No private key is held here.
pub mod decide;
pub mod nonce;
pub mod request;
pub mod response;
pub mod signature;
pub mod signed_client;
pub mod wire;

pub use wire::{
    CredentialError, ATTR_DIG_IDENTITY, ATTR_DIG_SIGNATURE, ATTR_ERROR_CODE, ATTR_NONCE,
    ATTR_REALM, BINDING_ERROR, CREDENTIAL_VERSION, ERR_BAD_REQUEST, ERR_STALE_NONCE,
    ERR_UNAUTHENTICATED, MAX_SIGNATURE_LEN, P256_SPKI_LEN, P256_SPKI_PREFIX, REALM,
};
pub use nonce::{NonceCheck, NonceIssuer, NONCE_BUCKET_SECS, NONCE_LEN};
pub use request::{
    classify_request, encode_identity_request, encode_signed_request, encode_signed_request_parts,
    RequestKind,
};
pub use signature::{signing_message, verify_signed_request, StunSigner, VerifiedIdentity, SIG_DOMAIN_TAG};
pub use response::{encode_challenge, parse_challenge, Challenge};
pub use decide::{decide, CredentialMode, ServerDecision};
pub use signed_client::{SignedQuery, SignedQueryError, SignedStage, SignedStep};
