//! The server decision table: a pure function from what a request classified as, plus the nonce
//! and signature results its caller already has, to what the server does.
//!
//! `decide` never parses and never verifies; it only combines. That the expensive verification is
//! reached only for a `Signed` request with a `Fresh` nonce is therefore a fact about the caller's
//! control flow, and every other row is decided without a verification result at all.
use vstd::prelude::*;

use crate::credential::nonce::NonceCheck;
use crate::credential::request::RequestKind;
use crate::credential::signature::VerifiedIdentity;
use crate::credential::wire::{CredentialError, ERR_STALE_NONCE, ERR_UNAUTHENTICATED};

verus! {

/// A server deployment's credential requirement, set once, never negotiated on the wire. The two
/// modes differ in exactly one row: what a bare request gets.
#[derive(Debug, Clone, Copy, PartialEq, Eq, Structural)]
pub enum CredentialMode {
    /// Bare requests are answered as before; identity and signed requests are also handled.
    Advisory,
    /// Bare requests are refused with `401` and no nonce.
    Required,
}

/// What the server does with one classified request.
#[derive(Debug, Clone, PartialEq, Eq)]
pub enum ServerDecision {
    /// Send the ordinary success response, byte-identical whether or not a credential was
    /// presented. `identity` is `Some` only when a signature verified.
    Answer {
        /// The verified requester, when the request carried and passed a signature.
        identity: Option<VerifiedIdentity>,
    },
    /// Send an error response with a freshly issued nonce: the requester has more work to do.
    Challenge {
        /// `401` (needs to sign, or signed wrong) or `438` (nonce aged out).
        code: u16,
    },
    /// Send an error response without a nonce: this datagram will not be answered.
    Refuse {
        /// `401` (bare request, `Required` mode); a malformed request's `400` is decided by the
        /// caller from `classify_request`'s error, never here.
        code: u16,
    },
}

/// The decision table, rows 1-7 (row 8, a malformed request, has no `RequestKind` and never
/// reaches `decide`):
///
/// | kind | mode | nonce | signature | decision |
/// |---|---|---|---|---|
/// | `Bare` | `Advisory` | – | – | `Answer { identity: None }` |
/// | `Bare` | `Required` | – | – | `Refuse { 401 }` |
/// | `Identity` | either | – | – | `Challenge { 401 }` |
/// | `Signed` | either | `Invalid` (or none given) | – | `Challenge { 401 }` |
/// | `Signed` | either | `Stale` | – | `Challenge { 438 }` |
/// | `Signed` | either | `Fresh` | not `Ok` | `Challenge { 401 }` |
/// | `Signed` | either | `Fresh` | `Ok(id)` | `Answer { identity: Some(id) }` |
pub open spec fn spec_decide(
    mode: CredentialMode,
    kind: RequestKind,
    nonce: Option<NonceCheck>,
    verified: Option<Result<VerifiedIdentity, CredentialError>>,
) -> ServerDecision {
    match kind {
        RequestKind::Bare => match mode {
            CredentialMode::Advisory => ServerDecision::Answer { identity: None },
            CredentialMode::Required => ServerDecision::Refuse { code: ERR_UNAUTHENTICATED },
        },
        RequestKind::Identity { .. } => ServerDecision::Challenge { code: ERR_UNAUTHENTICATED },
        RequestKind::Signed { .. } => match nonce {
            Some(NonceCheck::Fresh) => match verified {
                Some(Ok(identity)) => ServerDecision::Answer { identity: Some(identity) },
                _ => ServerDecision::Challenge { code: ERR_UNAUTHENTICATED },
            },
            Some(NonceCheck::Stale) => ServerDecision::Challenge { code: ERR_STALE_NONCE },
            _ => ServerDecision::Challenge { code: ERR_UNAUTHENTICATED },
        },
    }
}

/// Decide what to do with one classified request (see [`spec_decide`] for the table).
///
/// `nonce` and `verified` are `None` whenever they do not apply: a bare or identity request has
/// no nonce to check and no signature to verify. An identity request is challenged in BOTH
/// modes; a signed request is answered only with a fresh nonce and a verified signature.
pub fn decide(
    mode: CredentialMode,
    kind: &RequestKind<'_>,
    nonce: Option<NonceCheck>,
    verified: Option<Result<VerifiedIdentity, CredentialError>>,
) -> (d: ServerDecision)
    ensures
        d == spec_decide(mode, *kind, nonce, verified),
{
    match kind {
        RequestKind::Bare => match mode {
            CredentialMode::Advisory => ServerDecision::Answer { identity: None },
            CredentialMode::Required => ServerDecision::Refuse { code: ERR_UNAUTHENTICATED },
        },
        RequestKind::Identity { .. } => ServerDecision::Challenge { code: ERR_UNAUTHENTICATED },
        RequestKind::Signed { .. } => match nonce {
            Some(NonceCheck::Fresh) => match verified {
                Some(Ok(identity)) => ServerDecision::Answer { identity: Some(identity) },
                _ => ServerDecision::Challenge { code: ERR_UNAUTHENTICATED },
            },
            Some(NonceCheck::Stale) => ServerDecision::Challenge { code: ERR_STALE_NONCE },
            _ => ServerDecision::Challenge { code: ERR_UNAUTHENTICATED },
        },
    }
}

/// The two modes differ only on bare requests; every identity and signed request is decided the
/// same way in both.
pub proof fn lemma_modes_differ_only_on_bare(
    kind: RequestKind,
    nonce: Option<NonceCheck>,
    verified: Option<Result<VerifiedIdentity, CredentialError>>,
)
    ensures
        !(kind is Bare) ==> spec_decide(CredentialMode::Advisory, kind, nonce, verified)
            == spec_decide(CredentialMode::Required, kind, nonce, verified),
{
}

/// A request is answered only when it is bare in `Advisory` mode, or signed with a fresh nonce
/// and a signature that verified; an answer to a signed request always names the verified
/// identity.
pub proof fn lemma_answer_requires_proof(
    mode: CredentialMode,
    kind: RequestKind,
    nonce: Option<NonceCheck>,
    verified: Option<Result<VerifiedIdentity, CredentialError>>,
)
    ensures
        spec_decide(mode, kind, nonce, verified) is Answer ==> (kind is Bare && mode
            == CredentialMode::Advisory) || (kind is Signed && nonce == Some(NonceCheck::Fresh)
            && verified matches Some(Ok(_))),
        kind is Signed && spec_decide(mode, kind, nonce, verified) is Answer ==> spec_decide(
            mode,
            kind,
            nonce,
            verified,
        ) == (ServerDecision::Answer { identity: Some(verified->0->Ok_0) }),
{
}

/// What the error codes mean to the requester: a `438` challenge comes exactly for a signed
/// request whose nonce aged out, in either mode and whatever its signature; every other request
/// that is not answered gets `401`; and only a bare request in `Required` mode is refused
/// outright, with no nonce to retry on.
pub proof fn lemma_what_each_code_means(
    mode: CredentialMode,
    kind: RequestKind,
    nonce: Option<NonceCheck>,
    verified: Option<Result<VerifiedIdentity, CredentialError>>,
)
    ensures
        spec_decide(mode, kind, nonce, verified) == (ServerDecision::Challenge {
            code: ERR_STALE_NONCE,
        }) <==> (kind is Signed && nonce == Some(NonceCheck::Stale)),
        spec_decide(mode, kind, nonce, verified) is Refuse <==> (kind is Bare && mode
            == CredentialMode::Required),
        spec_decide(mode, kind, nonce, verified) matches ServerDecision::Refuse { code } ==> code
            == 401,
        spec_decide(mode, kind, nonce, verified) matches ServerDecision::Challenge { code } ==> (
        code == 401 || code == 438),
        !(kind is Signed && nonce == Some(NonceCheck::Stale)) ==> (spec_decide(
            mode,
            kind,
            nonce,
            verified,
        ) matches ServerDecision::Challenge { code } ==> code == 401),
{
}

} // verus!
