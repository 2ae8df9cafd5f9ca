//! The decisions of the signed client: one signed Binding exchange, at most three datagrams
//! (identity, signed, re-signed after one stale nonce). The socket, the clock and the ONE
//! deadline for the whole exchange belong to the caller, who sends what [`SignedQuery::start`]
//! and [`SignedQuery::on_datagram`] hand back and feeds every received datagram to the latter.
use vstd::prelude::*;

use crate::addr::SocketAddr;
use crate::client::socket_addr_eq;
use crate::codec::{
    be16, be32, parse_binding_response, read_u16, read_u32, spec_parse_binding_response,
    StunError, TransactionId, BINDING_SUCCESS, MAGIC_COOKIE,
};
use crate::credential::nonce::{
    lemma_issue_then_check, prev_bucket, spec_bucket, spec_check, spec_issue, NonceCheck,
    NonceIssuer, NONCE_LEN,
};
use crate::credential::request::{
    encode_identity_request, encode_signed_request_parts, lemma_signed_request_classifies,
    spec_classify_request, spec_encode_identity_request, spec_encode_signed_request, RequestShape,
};
use crate::credential::response::{
    challenge_is, lemma_challenge_round_trip, parse_challenge, spec_encode_challenge,
    spec_parse_challenge, Challenge,
};
use crate::credential::signature::{signing_message, StunSigner};
use crate::credential::wire::{
    lemma_b64_encode_len, spec_b64_encode, spec_valid_signature_len, CredentialError,
    is_valid_spki_der, spec_valid_spki, BINDING_ERROR, ERR_STALE_NONCE, ERR_UNAUTHENTICATED,
    REALM_BYTES,
};
use crate::scope::{scope_of, spec_scope_of, Scope};

verus! {

/// Why a signed query produced no reflexive address.
#[derive(Debug, Clone, PartialEq, Eq)]
pub enum SignedQueryError {
    /// An ordinary STUN failure: timeout, I/O, a malformed success, or a response of a type the
    /// exchange does not expect.
    Stun(StunError),
    /// The server declined with this code: a `401` without the DIG realm or without a nonce, a
    /// second stale-nonce reply, or any other code the exchange cannot satisfy.
    Refused {
        /// The `ERROR-CODE` the server sent.
        code: u16,
    },
    /// The credential exchange cannot proceed: the signer's own SPKI does not have the required
    /// shape, so no request is sent at all.
    BadChallenge,
}

/// Which datagram of the exchange was sent last.
#[derive(Debug, Clone, Copy, PartialEq, Eq, Structural)]
pub enum SignedStage {
    /// The identity request; awaiting the server's first reply.
    Initial,
    /// A signed request, answering a `401` challenge.
    AfterFirstChallenge,
    /// A re-signed request, answering one stale-nonce reply: the last datagram ever sent.
    AfterReSign,
}

/// The state of one signed exchange: the transaction id of the outstanding request, the stage,
/// and the SPKI the exchange identifies with.
pub struct SignedQuery {
    expected_txid: TransactionId,
    stage: SignedStage,
    spki: Vec<u8>,
}

impl View for SignedQuery {
    type V = (TransactionId, SignedStage, Seq<u8>);

    closed spec fn view(&self) -> (TransactionId, SignedStage, Seq<u8>) {
        (self.expected_txid, self.stage, self.spki@)
    }
}

/// What to do after one datagram.
#[derive(Debug)]
pub enum SignedStep {
    /// Discard it and keep waiting within the same deadline.
    Wait,
    /// Send these bytes to the server, then keep waiting within the same deadline.
    Send(Vec<u8>),
    /// The exchange is over.
    Done(Result<SocketAddr, SignedQueryError>),
}

/// What a challenge reply leads to at each stage: the `Some(nonce)` to sign next, or the refusal
/// code. At the first reply only a `401` carrying the DIG realm and a nonce is satisfiable; after
/// a signed request only a `438` carrying a nonce; after a re-signed request nothing is.
pub open spec fn spec_next_nonce(
    stage: SignedStage,
    code: u16,
    realm: Option<Seq<u8>>,
    nonce: Option<Seq<u8>>,
) -> Option<Seq<u8>> {
    match stage {
        SignedStage::Initial => if code == ERR_UNAUTHENTICATED && realm == Some(REALM_BYTES@)
            && nonce is Some {
            nonce
        } else {
            None
        },
        SignedStage::AfterFirstChallenge => if code == ERR_STALE_NONCE && nonce is Some {
            nonce
        } else {
            None
        },
        SignedStage::AfterReSign => None,
    }
}

/// The stage after signing at `stage`.
pub open spec fn spec_next_stage(stage: SignedStage) -> SignedStage {
    match stage {
        SignedStage::Initial => SignedStage::AfterFirstChallenge,
        _ => SignedStage::AfterReSign,
    }
}

/// The outcome of a success response from the server: its address, guarded exactly as the bare
/// client guards it; a response to some other (earlier) request of this exchange is `None`,
/// ignored.
pub open spec fn spec_success_outcome(msg: Seq<u8>, txid: Seq<u8>) -> Option<
    Result<SocketAddr, SignedQueryError>,
> {
    match spec_parse_binding_response(msg, Some(txid)) {
        Ok(a) => Some(
            if spec_scope_of(a) == Scope::NeverDialable {
                Err(SignedQueryError::Stun(StunError::NoMappedAddress))
            } else {
                Ok(a)
            },
        ),
        Err(StunError::TransactionIdMismatch) => None,
        Err(e) => Some(Err(SignedQueryError::Stun(e))),
    }
}

impl SignedQuery {
    /// Begin an exchange under `txid` as the holder of `spki`: refuse an SPKI without the P-256
    /// shape before anything is sent ([`SignedQueryError::BadChallenge`]); otherwise return the
    /// state and the identity request carrying `spki`, to send.
    pub fn start_with_spki(spki: &[u8], txid: &TransactionId) -> (r: Result<
        (SignedQuery, Vec<u8>),
        SignedQueryError,
    >)
        ensures
            r is Err <==> !spec_valid_spki(spki@),
            match r {
                Ok((q, datagram)) => q@ == (*txid, SignedStage::Initial, spki@) && datagram@
                    == spec_encode_identity_request(txid@, spki@),
                Err(e) => e == SignedQueryError::BadChallenge,
            },
    {
        if !is_valid_spki_der(spki) {
            return Err(SignedQueryError::BadChallenge);
        }
        let datagram = encode_identity_request(txid, spki);
        let held = vstd::slice::slice_to_vec(spki);
        Ok((SignedQuery { expected_txid: *txid, stage: SignedStage::Initial, spki: held }, datagram))
    }

    /// Begin an exchange under `txid` (fresh from [`new_transaction_id`](crate::new_transaction_id))
    /// as the holder of `signer`'s SPKI: [`SignedQuery::start_with_spki`] on what
    /// [`StunSigner::spki_der`] returns. A malformed identity never reaches the wire.
    pub fn start(signer: &dyn StunSigner, txid: &TransactionId) -> (r: Result<
        (SignedQuery, Vec<u8>),
        SignedQueryError,
    >)
        ensures
            match r {
                Ok((q, datagram)) => q@.0 == *txid && q@.1 == SignedStage::Initial
                    && spec_valid_spki(q@.2) && datagram@ == spec_encode_identity_request(
                    txid@,
                    q@.2,
                ),
                Err(e) => e == SignedQueryError::BadChallenge,
            },
    {
        Self::start_with_spki(signer.spki_der(), txid)
    }

    /// Decide on one datagram received during the exchange with `server`. `next_txid` (fresh
    /// from [`new_transaction_id`](crate::new_transaction_id)) is the transaction id of the
    /// signed request this datagram may call for.
    ///
    /// A datagram not from `server`, or a reply whose transaction id is not the outstanding
    /// request's, is discarded ([`SignedStep::Wait`]). A success response is parsed and guarded
    /// exactly as by the bare client and ends the exchange (an old server, or one that ignored
    /// the attributes). An error response is a challenge: a satisfiable one (see
    /// [`spec_next_nonce`]) is answered with a request signed by `signer` over its nonce under
    /// `next_txid`; any other ends the exchange as `Refused { code }` with nothing more sent.
    /// Any other datagram ends it with the ordinary response check's error: `Truncated` when
    /// shorter than a header, `BadMagicCookie` when the cookie is wrong, else `UnexpectedType`.
    pub fn on_datagram(
        &mut self,
        server: &SocketAddr,
        from: &SocketAddr,
        msg: &[u8],
        signer: &dyn StunSigner,
        next_txid: &TransactionId,
    ) -> (step: SignedStep)
        ensures
            *from != *server ==> step is Wait && final(self)@ == old(self)@,
            *from == *server && msg@.len() >= 2 && be16(msg@, 0) == BINDING_SUCCESS ==> final(self)@ == old(self)@ && match spec_success_outcome(msg@, old(self)@.0@) {
                Some(outcome) => step == SignedStep::Done(outcome),
                None => step is Wait,
            },
            *from == *server && msg@.len() >= 2 && be16(msg@, 0) == BINDING_ERROR ==> match spec_parse_challenge(msg@, old(self)@.0@) {
                Err(StunError::TransactionIdMismatch) => step is Wait && final(self)@ == old(self)@,
                Err(e) => step == SignedStep::Done(Err(SignedQueryError::Stun(e))) && final(self)@ == old(self)@,
                Ok((code, realm, nonce)) => match spec_next_nonce(
                    old(self)@.1,
                    code,
                    realm,
                    nonce,
                ) {
                    Some(n) => final(self)@ == (
                        *next_txid,
                        spec_next_stage(old(self)@.1),
                        old(self)@.2,
                    ) && (step matches SignedStep::Send(d) && exists|sig: Seq<u8>|
                        d@ == spec_encode_signed_request(next_txid@, n, old(self)@.2, sig)),
                    None => step == SignedStep::Done(Err(SignedQueryError::Refused { code }))
                        && final(self)@ == old(self)@,
                },
            },
            *from == *server && !(msg@.len() >= 2 && (be16(msg@, 0) == BINDING_SUCCESS || be16(
                msg@,
                0,
            ) == BINDING_ERROR)) ==> final(self)@ == old(self)@ && step == SignedStep::Done(
                Err(
                    SignedQueryError::Stun(
                        if msg@.len() < 20 {
                            StunError::Truncated
                        } else if be32(msg@, 4) != MAGIC_COOKIE {
                            StunError::BadMagicCookie
                        } else {
                            StunError::UnexpectedType(be16(msg@, 0) as u16)
                        },
                    ),
                ),
            ),
    {
        if !socket_addr_eq(from, server) {
            return SignedStep::Wait;
        }
        if msg.len() < 20 {
            if msg.len() >= 2 {
                let t = read_u16(msg, 0);
                if t == BINDING_SUCCESS || t == BINDING_ERROR {
                    // The response parsers themselves say `Truncated`.
                    return self.on_response(msg, signer, next_txid);
                }
            }
            return SignedStep::Done(Err(SignedQueryError::Stun(StunError::Truncated)));
        }
        let msg_type = read_u16(msg, 0);
        if msg_type == BINDING_SUCCESS || msg_type == BINDING_ERROR {
            return self.on_response(msg, signer, next_txid);
        }
        if read_u32(msg, 4) != MAGIC_COOKIE {
            return SignedStep::Done(Err(SignedQueryError::Stun(StunError::BadMagicCookie)));
        }
        SignedStep::Done(Err(SignedQueryError::Stun(StunError::UnexpectedType(msg_type))))
    }

    /// A Binding success or error response from the server, as [`SignedQuery::on_datagram`]
    /// decides on it.
    fn on_response(
        &mut self,
        msg: &[u8],
        signer: &dyn StunSigner,
        next_txid: &TransactionId,
    ) -> (step: SignedStep)
        requires
            msg@.len() >= 2,
            be16(msg@, 0) == BINDING_SUCCESS || be16(msg@, 0) == BINDING_ERROR,
        ensures
            be16(msg@, 0) == BINDING_SUCCESS ==> final(self)@ == old(self)@ && match spec_success_outcome(msg@, old(self)@.0@) {
                Some(outcome) => step == SignedStep::Done(outcome),
                None => step is Wait,
            },
            be16(msg@, 0) == BINDING_ERROR ==> match spec_parse_challenge(msg@, old(self)@.0@) {
                Err(StunError::TransactionIdMismatch) => step is Wait && final(self)@ == old(self)@,
                Err(e) => step == SignedStep::Done(Err(SignedQueryError::Stun(e))) && final(self)@ == old(self)@,
                Ok((code, realm, nonce)) => match spec_next_nonce(
                    old(self)@.1,
                    code,
                    realm,
                    nonce,
                ) {
                    Some(n) => final(self)@ == (
                        *next_txid,
                        spec_next_stage(old(self)@.1),
                        old(self)@.2,
                    ) && (step matches SignedStep::Send(d) && exists|sig: Seq<u8>|
                        d@ == spec_encode_signed_request(next_txid@, n, old(self)@.2, sig)),
                    None => step == SignedStep::Done(Err(SignedQueryError::Refused { code }))
                        && final(self)@ == old(self)@,
                },
            },
    {
        let msg_type = read_u16(msg, 0);
        if msg_type == BINDING_SUCCESS {
            match parse_binding_response(msg, Some(&self.expected_txid)) {
                Ok(addr) => {
                    if scope_of(addr) == Scope::NeverDialable {
                        SignedStep::Done(Err(SignedQueryError::Stun(StunError::NoMappedAddress)))
                    } else {
                        SignedStep::Done(Ok(addr))
                    }
                },
                Err(StunError::TransactionIdMismatch) => SignedStep::Wait,
                Err(e) => SignedStep::Done(Err(SignedQueryError::Stun(e))),
            }
        } else {
            let challenge = match parse_challenge(msg, &self.expected_txid) {
                Ok(c) => c,
                Err(StunError::TransactionIdMismatch) => {
                    return SignedStep::Wait;
                },
                Err(e) => {
                    return SignedStep::Done(Err(SignedQueryError::Stun(e)));
                },
            };
            let ghost parsed = spec_parse_challenge(msg@, self.expected_txid@)->Ok_0;
            let satisfiable = match self.stage {
                SignedStage::Initial => challenge.code == ERR_UNAUTHENTICATED && realm_is_dig(
                    &challenge,
                ) && challenge.nonce.is_some(),
                SignedStage::AfterFirstChallenge => challenge.code == ERR_STALE_NONCE
                    && challenge.nonce.is_some(),
                SignedStage::AfterReSign => false,
            };
            proof {
                assert(challenge_is(challenge, parsed.0, parsed.1, parsed.2));
            }
            if !satisfiable {
                return SignedStep::Done(Err(SignedQueryError::Refused { code: challenge.code }));
            }
            let nonce = match challenge.nonce {
                Some(n) => n,
                None => {
                    return SignedStep::Done(
                        Err(SignedQueryError::Refused { code: challenge.code }),
                    );
                },
            };
            let ghost old_stage = self.stage;
            assert(spec_next_nonce(old_stage, parsed.0, parsed.1, parsed.2) == Some(nonce@));
            let nonce_bytes = nonce.as_slice();
            let message = signing_message(next_txid, nonce_bytes, self.spki.as_slice());
            let signature = signer.sign(message.as_slice());
            let request = encode_signed_request_parts(
                next_txid,
                nonce_bytes,
                self.spki.as_slice(),
                signature.as_slice(),
            );
            let ghost sig = signature@;
            self.expected_txid = *next_txid;
            self.stage =
            match self.stage {
                SignedStage::Initial => SignedStage::AfterFirstChallenge,
                _ => SignedStage::AfterReSign,
            };
            assert(self@.1 == spec_next_stage(old_stage));
            assert(request@ == spec_encode_signed_request(next_txid@, nonce@, self@.2, sig));
            SignedStep::Send(request)
        }
    }
}

/// Whether a challenge's realm is the DIG realm, `dig-stun`, compared as UTF-8 bytes.
fn realm_is_dig(c: &Challenge) -> (r: bool)
    ensures
        r == match c.realm {
            Some(s) => vstd::utf8::encode_utf8(s@) == REALM_BYTES@,
            None => false,
        },
{
    match &c.realm {
        Some(s) => {
            let b = s.as_str().as_bytes();
            if b.len() != 8 {
                return false;
            }
            let mut i: usize = 0;
            #[verifier::loop_isolation(false)]
            while i < 8
                invariant
                    0 <= i <= 8,
                    b@.len() == 8,
                    forall|j: int| 0 <= j < i ==> b@[j] == REALM_BYTES@[j],
                decreases 8 - i,
            {
                if b[i] != REALM_BYTES[i] {
                    assert(b@[i as int] != REALM_BYTES@[i as int]);
                    return false;
                }
                i = i + 1;
            }
            assert(b@ =~= REALM_BYTES@);
            true
        },
        None => false,
    }
}

/// No exchange sends more than three datagrams: each satisfiable challenge moves the stage
/// strictly forward, and at the last stage no challenge is satisfiable.
pub proof fn lemma_at_most_three_datagrams(
    code: u16,
    realm: Option<Seq<u8>>,
    nonce: Option<Seq<u8>>,
)
    ensures
        spec_next_nonce(SignedStage::AfterReSign, code, realm, nonce) is None,
        spec_next_stage(SignedStage::Initial) == SignedStage::AfterFirstChallenge,
        spec_next_stage(SignedStage::AfterFirstChallenge) == SignedStage::AfterReSign,
{
}

/// The nonce survives the whole exchange: what an issuer mints for a source, carried in its
/// challenge (`401` or `438`), is parsed by the client as that code, the DIG realm and the nonce's
/// text; the client's signed request echoing that text is classified by the server as a signed
/// request carrying it, under the new transaction id; and the text checks `Fresh` for that source
/// in the bucket it was minted in and the next.
pub proof fn lemma_challenge_nonce_round_trip(
    issuer: NonceIssuer,
    source: SocketAddr,
    issued_at: u64,
    checked_at: u64,
    nonce: [u8; NONCE_LEN],
    code: u16,
    challenge_txid: TransactionId,
    request_txid: TransactionId,
    spki: Seq<u8>,
    signature: Seq<u8>,
)
    requires
        nonce@ == spec_issue(issuer@, source, issued_at),
        code == ERR_UNAUTHENTICATED || code == ERR_STALE_NONCE,
        spec_valid_spki(spki),
        spec_valid_signature_len(signature),
        spec_bucket(issued_at) == spec_bucket(checked_at) || spec_bucket(issued_at) == prev_bucket(
            spec_bucket(checked_at),
        ),
    ensures
        ({
            let text = spec_b64_encode(nonce@);
            &&& spec_parse_challenge(
                spec_encode_challenge(challenge_txid@, code, Some(nonce@)),
                challenge_txid@,
            ) == Ok::<(u16, Option<Seq<u8>>, Option<Seq<u8>>), StunError>(
                (code, Some(REALM_BYTES@), Some(text)),
            )
            &&& spec_classify_request(
                spec_encode_signed_request(request_txid@, text, spki, signature),
            ) == Ok::<(TransactionId, RequestShape), CredentialError>(
                (request_txid, RequestShape::Signed { spki, nonce: text, signature }),
            )
            &&& spec_check(issuer@, text, source, checked_at) == NonceCheck::Fresh
        }),
{
    let text = spec_b64_encode(nonce@);
    lemma_challenge_round_trip(challenge_txid, code, Some(nonce@));
    lemma_b64_encode_len(nonce@);
    assert(text.len() == 27);
    lemma_signed_request_classifies(request_txid, text, spki, signature);
    lemma_issue_then_check(issuer, source, issued_at, checked_at, nonce);
}

/// Which challenges are answered: at the first reply only a `401` carrying the DIG realm and a
/// nonce; after the signed request only a `438` carrying a nonce, so a repeated `401`, whatever
/// its realm and nonce, ends the exchange; after the re-signed request none. What is signed next
/// is always the nonce the challenge carried.
pub proof fn lemma_which_challenges_are_answered(
    stage: SignedStage,
    code: u16,
    realm: Option<Seq<u8>>,
    nonce: Option<Seq<u8>>,
)
    ensures
        spec_next_nonce(SignedStage::Initial, code, realm, nonce) is Some <==> (code == 401
            && realm == Some(seq![0x64u8, 0x69u8, 0x67u8, 0x2du8, 0x73u8, 0x74u8, 0x75u8, 0x6eu8])
            && nonce is Some),
        spec_next_nonce(SignedStage::AfterFirstChallenge, code, realm, nonce) is Some <==> (code
            == 438 && nonce is Some),
        spec_next_nonce(SignedStage::AfterReSign, code, realm, nonce) is None,
        spec_next_nonce(stage, code, realm, nonce) matches Some(n) ==> nonce == Some(n),
{
    assert(REALM_BYTES@ =~= seq![0x64u8, 0x69u8, 0x67u8, 0x2du8, 0x73u8, 0x74u8, 0x75u8, 0x6eu8]);
}

/// A second `401` challenge, as a server encodes it (realm, fresh nonce and all), is refused
/// after the signed request: it parses as a `401`, and no nonce is taken from it.
pub proof fn lemma_repeated_unauthenticated_is_refused(txid: TransactionId, nonce: Seq<u8>)
    requires
        nonce.len() == NONCE_LEN,
    ensures
        spec_parse_challenge(spec_encode_challenge(txid@, 401, Some(nonce)), txid@) matches Ok(
            (code, realm, n),
        ) && code == 401 && spec_next_nonce(SignedStage::AfterFirstChallenge, code, realm, n) is None,
{
    lemma_challenge_round_trip(txid, 401, Some(nonce));
}

} // verus!
