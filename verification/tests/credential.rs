//! The signed-Binding credential, end to end: wire shapes, nonces, the decision table, and the
//! client's exchange against a server assembled from the library's own parts.

use dig_stun::addr::{IpAddr, Ipv4Addr, Ipv6Addr, SocketAddr};
use dig_stun::credential::{
    classify_request, decide, encode_challenge, encode_identity_request, encode_signed_request,
    encode_signed_request_parts, parse_challenge, signing_message, verify_signed_request,
    CredentialError, CredentialMode, NonceCheck, NonceIssuer, RequestKind, ServerDecision,
    SignedQuery, SignedQueryError, SignedStep, StunSigner, ATTR_DIG_IDENTITY, ATTR_NONCE,
    BINDING_ERROR, ERR_BAD_REQUEST, ERR_STALE_NONCE, ERR_UNAUTHENTICATED, NONCE_BUCKET_SECS,
    NONCE_LEN, P256_SPKI_LEN, P256_SPKI_PREFIX, REALM, SIG_DOMAIN_TAG,
};
use dig_stun::{
    encode_binding_request, encode_binding_success, new_transaction_id, parse_binding_request,
    StunError, TransactionId,
};
use ring::rand::SystemRandom;
use ring::signature::{EcdsaKeyPair, KeyPair, ECDSA_P256_SHA256_ASN1_SIGNING};

const TXID: TransactionId = [0, 1, 2, 3, 4, 5, 6, 7, 8, 9, 10, 11];

/// A fresh transaction id for an exchange's first request.
fn txid_a() -> TransactionId {
    new_transaction_id().expect("OS entropy")
}

/// A fresh transaction id for a request a reply may call for.
fn txid_b() -> TransactionId {
    new_transaction_id().expect("OS entropy")
}

fn parse_v4(s: &str) -> [u8; 4] {
    let parts: Vec<u8> = s.split('.').map(|p| p.parse::<u8>().expect("octet")).collect();
    assert_eq!(parts.len(), 4, "four octets in {s}");
    [parts[0], parts[1], parts[2], parts[3]]
}

fn v6_groups(part: &str) -> Vec<u16> {
    let mut out = Vec::new();
    if part.is_empty() {
        return out;
    }
    for g in part.split(':') {
        if g.contains('.') {
            let o = parse_v4(g);
            out.push(u16::from_be_bytes([o[0], o[1]]));
            out.push(u16::from_be_bytes([o[2], o[3]]));
        } else {
            out.push(u16::from_str_radix(g, 16).expect("hex group"));
        }
    }
    out
}

fn parse_v6(s: &str) -> [u8; 16] {
    let groups: Vec<u16> = match s.find("::") {
        Some(i) => {
            let head = v6_groups(&s[..i]);
            let tail = v6_groups(&s[i + 2..]);
            let mut g = head.clone();
            g.extend(std::iter::repeat(0u16).take(8 - head.len() - tail.len()));
            g.extend(tail);
            g
        }
        None => v6_groups(s),
    };
    assert_eq!(groups.len(), 8, "eight groups in {s}");
    let mut o = [0u8; 16];
    for (i, g) in groups.iter().enumerate() {
        o[2 * i..2 * i + 2].copy_from_slice(&g.to_be_bytes());
    }
    o
}

fn ip(s: &str) -> IpAddr {
    if s.contains(':') {
        IpAddr::V6(Ipv6Addr { octets: parse_v6(s) })
    } else {
        IpAddr::V4(Ipv4Addr { octets: parse_v4(s) })
    }
}

fn addr(s: &str) -> SocketAddr {
    if let Some(rest) = s.strip_prefix('[') {
        let (host, port) = rest.split_once("]:").expect("[v6]:port");
        SocketAddr { ip: ip(host), port: port.parse().expect("port") }
    } else {
        let (host, port) = s.rsplit_once(':').expect("v4:port");
        SocketAddr { ip: ip(host), port: port.parse().expect("port") }
    }
}

/// A signer over a freshly generated P-256 key.
struct TestSigner {
    pair: EcdsaKeyPair,
    spki: Vec<u8>,
    rng: SystemRandom,
}

impl TestSigner {
    fn new() -> Self {
        let rng = SystemRandom::new();
        let pkcs8 = EcdsaKeyPair::generate_pkcs8(&ECDSA_P256_SHA256_ASN1_SIGNING, &rng).unwrap();
        let pair =
            EcdsaKeyPair::from_pkcs8(&ECDSA_P256_SHA256_ASN1_SIGNING, pkcs8.as_ref(), &rng).unwrap();
        let mut spki = P256_SPKI_PREFIX.to_vec();
        spki.extend_from_slice(pair.public_key().as_ref());
        TestSigner { pair, spki, rng }
    }
}

impl StunSigner for TestSigner {
    fn spki_der(&self) -> &[u8] {
        &self.spki
    }

    fn sign(&self, message: &[u8]) -> Vec<u8> {
        self.pair.sign(&self.rng, message).unwrap().as_ref().to_vec()
    }
}

/// A signer whose SPKI is not the P-256 shape.
struct BrokenSigner;

impl StunSigner for BrokenSigner {
    fn spki_der(&self) -> &[u8] {
        &[0u8; 10]
    }

    fn sign(&self, _message: &[u8]) -> Vec<u8> {
        vec![0u8; 70]
    }
}

/// A server assembled from the library's parts: classify, check the nonce, verify only a signed
/// request with a fresh nonce, decide, and encode the reply. `issue_at` is the clock the nonces
/// it hands out are minted with, `check_at` the clock it checks them against.
fn serve(
    issuer: &NonceIssuer,
    mode: CredentialMode,
    from: SocketAddr,
    datagram: &[u8],
    issue_at: u64,
    check_at: u64,
) -> Vec<u8> {
    match classify_request(datagram) {
        Err(CredentialError::Malformed) => {
            let txid = parse_binding_request(datagram).unwrap();
            encode_challenge(&txid, ERR_BAD_REQUEST, None)
        }
        Err(e) => panic!("not a Binding request: {e:?}"),
        Ok((txid, kind)) => {
            let nonce = match kind {
                RequestKind::Signed { nonce, .. } => Some(issuer.check(nonce, from, check_at)),
                _ => None,
            };
            let verified = if nonce == Some(NonceCheck::Fresh) {
                Some(verify_signed_request(&txid, &kind))
            } else {
                None
            };
            match decide(mode, &kind, nonce, verified) {
                ServerDecision::Answer { .. } => encode_binding_success(&txid, from),
                ServerDecision::Challenge { code } => {
                    encode_challenge(&txid, code, Some(&issuer.issue(from, issue_at)))
                }
                ServerDecision::Refuse { code } => encode_challenge(&txid, code, None),
            }
        }
    }
}

fn v4(a: u8, b: u8, c: u8, d: u8, port: u16) -> SocketAddr {
    SocketAddr { ip: IpAddr::V4(Ipv4Addr { octets: [a, b, c, d] }), port }
}

// ---- wire shapes ----

#[test]
fn an_identity_request_is_116_bytes_with_one_identity_attribute() {
    let signer = TestSigner::new();
    let msg = encode_identity_request(&TXID, signer.spki_der());
    assert_eq!(msg.len(), 116);
    assert_eq!(&msg[..8], &[0x00, 0x01, 0x00, 0x60, 0x21, 0x12, 0xa4, 0x42]);
    assert_eq!(&msg[8..20], &TXID);
    assert_eq!(&msg[20..25], &[0xd1, 0x60, 0x00, 0x5c, 0x01]);
    assert_eq!(&msg[25..], signer.spki_der());
    assert_eq!(signer.spki_der().len(), P256_SPKI_LEN);
}

#[test]
fn an_identity_request_classifies_as_that_identity() {
    let signer = TestSigner::new();
    let msg = encode_identity_request(&TXID, signer.spki_der());
    match classify_request(&msg) {
        Ok((txid, RequestKind::Identity { spki })) => {
            assert_eq!(txid, TXID);
            assert_eq!(spki, signer.spki_der());
        }
        other => panic!("unexpected {other:?}"),
    }
}

#[test]
fn a_bare_request_classifies_as_bare() {
    let msg = encode_binding_request(&TXID);
    assert!(matches!(classify_request(&msg), Ok((t, RequestKind::Bare)) if t == TXID));
}

#[test]
fn a_signed_request_classifies_and_verifies() {
    let signer = TestSigner::new();
    let nonce = b"AAAAAAAAAAAAAAAAAAAAAAAAAAA";
    let msg = encode_signed_request(&TXID, nonce, &signer);
    let (txid, kind) = classify_request(&msg).unwrap();
    assert_eq!(txid, TXID);
    match kind {
        RequestKind::Signed { spki, nonce: n, signature } => {
            assert_eq!(spki, signer.spki_der());
            assert_eq!(n, nonce);
            assert!(signature.len() >= 8 && signature.len() <= 72);
        }
        other => panic!("unexpected {other:?}"),
    }
    let identity = verify_signed_request(&txid, &kind).unwrap();
    assert_eq!(&identity.spki_der()[..], signer.spki_der());
}

#[test]
fn a_signature_over_another_transaction_id_does_not_verify() {
    let signer = TestSigner::new();
    let nonce = b"nonce-text";
    let message = signing_message(&[9u8; 12], nonce, signer.spki_der());
    let signature = signer.sign(&message);
    let msg = encode_signed_request_parts(&TXID, nonce, signer.spki_der(), &signature);
    let (txid, kind) = classify_request(&msg).unwrap();
    assert_eq!(verify_signed_request(&txid, &kind), Err(CredentialError::BadSignature));
}

#[test]
fn verifying_a_request_that_is_not_signed_is_malformed() {
    assert_eq!(verify_signed_request(&TXID, &RequestKind::Bare), Err(CredentialError::Malformed));
    let short = [4u8; 10];
    let kind = RequestKind::Signed { spki: &short, nonce: b"n", signature: &[0u8; 70] };
    assert_eq!(verify_signed_request(&TXID, &kind), Err(CredentialError::Malformed));
}

#[test]
fn the_signing_message_is_tag_version_txid_nonce_and_spki() {
    let m = signing_message(&TXID, b"abc", &[7u8; 3]);
    let mut want = SIG_DOMAIN_TAG.to_vec();
    want.push(0x01);
    want.extend_from_slice(&TXID);
    want.extend_from_slice(&[0x00, 0x03]);
    want.extend_from_slice(b"abc");
    want.extend_from_slice(&[7u8; 3]);
    assert_eq!(m, want);
    assert_eq!(&SIG_DOMAIN_TAG, b"dig:stun:v1");
}

#[test]
fn a_too_short_signature_is_malformed() {
    let signer = TestSigner::new();
    let msg = encode_signed_request_parts(&TXID, b"n", signer.spki_der(), &[0u8; 7]);
    assert!(matches!(classify_request(&msg), Err(CredentialError::Malformed)));
}

#[test]
fn a_nonce_without_a_signature_is_malformed() {
    let signer = TestSigner::new();
    let mut msg = encode_identity_request(&TXID, signer.spki_der());
    append_attr(&mut msg, ATTR_NONCE, b"abcd");
    assert!(matches!(classify_request(&msg), Err(CredentialError::Malformed)));
}

#[test]
fn an_attribute_after_the_signature_is_malformed() {
    let signer = TestSigner::new();
    let mut msg = encode_signed_request(&TXID, b"abcd", &signer);
    append_attr(&mut msg, 0x8022, b"soft");
    assert!(matches!(classify_request(&msg), Err(CredentialError::Malformed)));
}

#[test]
fn a_duplicated_identity_is_malformed() {
    let signer = TestSigner::new();
    let mut msg = encode_identity_request(&TXID, signer.spki_der());
    let mut value = vec![0x01];
    value.extend_from_slice(signer.spki_der());
    append_attr(&mut msg, ATTR_DIG_IDENTITY, &value);
    assert!(matches!(classify_request(&msg), Err(CredentialError::Malformed)));
}

#[test]
fn an_unknown_attribute_before_the_identity_is_ignored() {
    let signer = TestSigner::new();
    let mut msg = encode_binding_request(&TXID);
    append_attr(&mut msg, 0x8022, b"soft");
    let mut value = vec![0x01];
    value.extend_from_slice(signer.spki_der());
    append_attr(&mut msg, ATTR_DIG_IDENTITY, &value);
    assert!(matches!(classify_request(&msg), Ok((_, RequestKind::Identity { .. }))));
}

#[test]
fn a_datagram_that_is_not_a_binding_request_is_a_stun_error() {
    assert_eq!(classify_request(&[0u8; 4]), Err(CredentialError::Stun(StunError::Truncated)));
}

/// Append one attribute and fix the header's length field.
fn append_attr(msg: &mut Vec<u8>, attr_type: u16, value: &[u8]) {
    msg.extend_from_slice(&attr_type.to_be_bytes());
    msg.extend_from_slice(&(value.len() as u16).to_be_bytes());
    msg.extend_from_slice(value);
    while msg.len() % 4 != 0 {
        msg.push(0);
    }
    let len = (msg.len() - 20) as u16;
    msg[2..4].copy_from_slice(&len.to_be_bytes());
}

// ---- error responses ----

#[test]
fn error_responses_have_their_four_sizes() {
    let nonce = [7u8; NONCE_LEN];
    assert_eq!(encode_challenge(&TXID, ERR_UNAUTHENTICATED, None).len(), 44);
    assert_eq!(encode_challenge(&TXID, ERR_BAD_REQUEST, None).len(), 40);
    assert_eq!(encode_challenge(&TXID, ERR_UNAUTHENTICATED, Some(&nonce)).len(), 88);
    assert_eq!(encode_challenge(&TXID, ERR_STALE_NONCE, Some(&nonce)).len(), 84);
}

#[test]
fn a_challenge_parses_back_with_realm_and_nonce_text() {
    let nonce = [0xffu8; NONCE_LEN];
    let msg = encode_challenge(&TXID, ERR_UNAUTHENTICATED, Some(&nonce));
    assert_eq!(u16::from_be_bytes([msg[0], msg[1]]), BINDING_ERROR);
    let c = parse_challenge(&msg, &TXID).unwrap();
    assert_eq!(c.code, ERR_UNAUTHENTICATED);
    assert_eq!(c.realm.as_deref(), Some(REALM));
    let mut want = vec![b'_'; 26];
    want.push(b'8');
    assert_eq!(c.nonce, Some(want));
}

#[test]
fn a_bare_refusal_parses_back_without_realm_or_nonce() {
    let msg = encode_challenge(&TXID, ERR_BAD_REQUEST, None);
    let c = parse_challenge(&msg, &TXID).unwrap();
    assert_eq!(c.code, ERR_BAD_REQUEST);
    assert_eq!(c.realm, None);
    assert_eq!(c.nonce, None);
}

#[test]
fn a_challenge_for_another_transaction_is_a_mismatch() {
    let msg = encode_challenge(&TXID, ERR_STALE_NONCE, Some(&[1u8; NONCE_LEN]));
    assert_eq!(parse_challenge(&msg, &[3u8; 12]), Err(StunError::TransactionIdMismatch));
    assert_eq!(parse_challenge(&msg[..10], &TXID), Err(StunError::Truncated));
}

// ---- nonces ----

#[test]
fn a_nonce_is_fresh_in_its_bucket_and_the_next_then_stale() {
    let issuer = NonceIssuer::from_secret([42u8; 32]);
    let source = v4(1, 2, 3, 4, 5000);
    let t0 = 1_000 * NONCE_BUCKET_SECS;
    let raw = issuer.issue(source, t0);
    let text = challenge_nonce_text(&raw);
    assert_eq!(issuer.check(&text, source, t0), NonceCheck::Fresh);
    assert_eq!(issuer.check(&text, source, t0 + NONCE_BUCKET_SECS), NonceCheck::Fresh);
    assert_eq!(issuer.check(&text, source, t0 + 2 * NONCE_BUCKET_SECS), NonceCheck::Stale);
}

#[test]
fn a_nonce_for_another_source_or_secret_is_invalid() {
    let issuer = NonceIssuer::from_secret([42u8; 32]);
    let source = v4(1, 2, 3, 4, 5000);
    let text = challenge_nonce_text(&issuer.issue(source, 0));
    assert_eq!(issuer.check(&text, v4(1, 2, 3, 4, 5001), 0), NonceCheck::Invalid);
    assert_eq!(NonceIssuer::from_secret([43u8; 32]).check(&text, source, 0), NonceCheck::Invalid);
    assert_eq!(issuer.check(b"not base64url!", source, 0), NonceCheck::Invalid);
    assert_eq!(issuer.check(b"", source, 0), NonceCheck::Invalid);
}

#[test]
fn a_mapped_source_is_the_same_source_for_its_nonce() {
    let issuer = NonceIssuer::from_secret([1u8; 32]);
    let text = challenge_nonce_text(&issuer.issue(addr("9.8.7.6:1"), 0));
    assert_eq!(issuer.check(&text, addr("[::ffff:9.8.7.6]:1"), 0), NonceCheck::Fresh);
}

#[test]
fn two_random_issuers_do_not_accept_each_others_nonces() {
    let a = NonceIssuer::new_random().expect("OS entropy");
    let b = NonceIssuer::new_random().expect("OS entropy");
    let source = v4(5, 6, 7, 8, 9);
    let text = challenge_nonce_text(&a.issue(source, 0));
    assert_eq!(a.check(&text, source, 0), NonceCheck::Fresh);
    assert_eq!(b.check(&text, source, 0), NonceCheck::Invalid);
}

/// The `NONCE` text a challenge carries for `raw`.
fn challenge_nonce_text(raw: &[u8; NONCE_LEN]) -> Vec<u8> {
    let msg = encode_challenge(&TXID, ERR_UNAUTHENTICATED, Some(raw));
    parse_challenge(&msg, &TXID).unwrap().nonce.unwrap()
}

// ---- the decision table ----

#[test]
fn the_decision_table_row_by_row() {
    let signer = TestSigner::new();
    let spki = signer.spki_der();
    let identity = RequestKind::Identity { spki };
    let msg = encode_signed_request(&TXID, b"n", &signer);
    let (txid, signed) = classify_request(&msg).unwrap();
    let verified = verify_signed_request(&txid, &signed).unwrap();

    assert_eq!(
        decide(CredentialMode::Advisory, &RequestKind::Bare, None, None),
        ServerDecision::Answer { identity: None }
    );
    assert_eq!(
        decide(CredentialMode::Required, &RequestKind::Bare, None, None),
        ServerDecision::Refuse { code: ERR_UNAUTHENTICATED }
    );
    for mode in [CredentialMode::Advisory, CredentialMode::Required] {
        assert_eq!(decide(mode, &identity, None, None), ServerDecision::Challenge { code: 401 });
        assert_eq!(
            decide(mode, &signed, Some(NonceCheck::Invalid), None),
            ServerDecision::Challenge { code: 401 }
        );
        assert_eq!(decide(mode, &signed, None, None), ServerDecision::Challenge { code: 401 });
        assert_eq!(
            decide(mode, &signed, Some(NonceCheck::Stale), None),
            ServerDecision::Challenge { code: 438 }
        );
        assert_eq!(
            decide(mode, &signed, Some(NonceCheck::Fresh), Some(Err(CredentialError::BadSignature))),
            ServerDecision::Challenge { code: 401 }
        );
        assert_eq!(
            decide(mode, &signed, Some(NonceCheck::Fresh), Some(Ok(verified))),
            ServerDecision::Answer { identity: Some(verified) }
        );
    }
}

// ---- the client's exchange ----

fn run_exchange(
    issuer: &NonceIssuer,
    mode: CredentialMode,
    me: SocketAddr,
    clocks: &[(u64, u64)],
) -> Result<SocketAddr, SignedQueryError> {
    let signer = TestSigner::new();
    let server = v4(198, 51, 100, 7, 3478);
    let (mut query, mut datagram) = SignedQuery::start(&signer, &txid_a()).unwrap();
    for &(issue_at, check_at) in clocks {
        let reply = serve(issuer, mode, me, &datagram, issue_at, check_at);
        match query.on_datagram(&server, &server, &reply, &signer, &txid_b()) {
            SignedStep::Send(next) => datagram = next,
            SignedStep::Done(r) => return r,
            SignedStep::Wait => panic!("the server's own reply was discarded"),
        }
    }
    panic!("the exchange did not end")
}

#[test]
fn a_signed_exchange_ends_with_the_reflexive_address() {
    let issuer = NonceIssuer::from_secret([9u8; 32]);
    let me = v4(1, 2, 3, 4, 40000);
    let got = run_exchange(&issuer, CredentialMode::Required, me, &[(0, 0), (0, 0)]);
    assert_eq!(got, Ok(me));
}

#[test]
fn one_stale_nonce_is_re_signed_and_answered() {
    let issuer = NonceIssuer::from_secret([9u8; 32]);
    let me = v4(1, 2, 3, 4, 40000);
    let late = 10 * NONCE_BUCKET_SECS;
    let got = run_exchange(&issuer, CredentialMode::Advisory, me, &[(0, 0), (late, late), (late, late)]);
    assert_eq!(got, Ok(me));
}

#[test]
fn a_second_stale_nonce_is_refused() {
    let issuer = NonceIssuer::from_secret([9u8; 32]);
    let me = v4(1, 2, 3, 4, 40000);
    let late = 10 * NONCE_BUCKET_SECS;
    let got = run_exchange(&issuer, CredentialMode::Advisory, me, &[(0, 0), (0, late), (0, late)]);
    assert_eq!(got, Err(SignedQueryError::Refused { code: ERR_STALE_NONCE }));
}

#[test]
fn a_never_dialable_answer_is_no_mapped_address() {
    let issuer = NonceIssuer::from_secret([9u8; 32]);
    let me = v4(127, 0, 0, 1, 40000);
    let got = run_exchange(&issuer, CredentialMode::Required, me, &[(0, 0), (0, 0)]);
    assert_eq!(got, Err(SignedQueryError::Stun(StunError::NoMappedAddress)));
}

#[test]
fn a_datagram_from_another_address_is_discarded() {
    let signer = TestSigner::new();
    let (mut query, _) = SignedQuery::start(&signer, &txid_a()).unwrap();
    let server = v4(198, 51, 100, 7, 3478);
    let stranger = v4(198, 51, 100, 8, 3478);
    let reply = encode_binding_success(&TXID, v4(1, 1, 1, 1, 1));
    assert!(matches!(query.on_datagram(&server, &stranger, &reply, &signer, &txid_b()), SignedStep::Wait));
}

#[test]
fn a_challenge_without_the_dig_realm_is_refused() {
    let signer = TestSigner::new();
    let server = v4(198, 51, 100, 7, 3478);
    let (mut query, first) = SignedQuery::start(&signer, &txid_a()).unwrap();
    let txid = parse_binding_request(&first).unwrap();
    // A bare 401 carries neither realm nor nonce.
    let reply = encode_challenge(&txid, ERR_UNAUTHENTICATED, None);
    assert!(matches!(
        query.on_datagram(&server, &server, &reply, &signer, &txid_b()),
        SignedStep::Done(Err(SignedQueryError::Refused { code: 401 }))
    ));
}

#[test]
fn a_reply_to_another_transaction_is_discarded() {
    let signer = TestSigner::new();
    let server = v4(198, 51, 100, 7, 3478);
    let (mut query, _) = SignedQuery::start(&signer, &txid_a()).unwrap();
    let reply = encode_binding_success(&[0xee; 12], v4(1, 1, 1, 1, 1));
    assert!(matches!(query.on_datagram(&server, &server, &reply, &signer, &txid_b()), SignedStep::Wait));
}

#[test]
fn an_unexpected_message_type_ends_the_exchange() {
    let signer = TestSigner::new();
    let server = v4(198, 51, 100, 7, 3478);
    let (mut query, first) = SignedQuery::start(&signer, &txid_a()).unwrap();
    assert!(matches!(
        query.on_datagram(&server, &server, &first, &signer, &txid_b()),
        SignedStep::Done(Err(SignedQueryError::Stun(StunError::UnexpectedType(1))))
    ));
    assert!(matches!(
        query.on_datagram(&server, &server, &[0u8], &signer, &txid_b()),
        SignedStep::Done(Err(SignedQueryError::Stun(StunError::Truncated)))
    ));
}

#[test]
fn a_signer_with_a_malformed_spki_sends_nothing() {
    assert!(matches!(SignedQuery::start(&BrokenSigner, &txid_a()), Err(SignedQueryError::BadChallenge)));
}

#[test]
fn the_identity_request_the_exchange_starts_with_carries_the_signer() {
    let signer = TestSigner::new();
    let (_, first) = SignedQuery::start(&signer, &txid_a()).unwrap();
    assert_eq!(first.len(), 116);
    assert_eq!(&first[25..], signer.spki_der());
}

#[test]
fn start_sends_the_identity_request_under_the_given_id() {
    let signer = TestSigner::new();
    let (_, first) = SignedQuery::start(&signer, &TXID).unwrap();
    assert_eq!(first, encode_identity_request(&TXID, signer.spki_der()));
}

#[test]
fn a_signed_request_is_sent_under_the_given_next_id() {
    let signer = TestSigner::new();
    let server = v4(198, 51, 100, 7, 3478);
    let (mut query, _) = SignedQuery::start(&signer, &TXID).unwrap();
    let reply = encode_challenge(&TXID, ERR_UNAUTHENTICATED, Some(&[3u8; NONCE_LEN]));
    let next = [0x42u8; 12];
    match query.on_datagram(&server, &server, &reply, &signer, &next) {
        SignedStep::Send(d) => {
            let (txid, kind) = classify_request(&d).unwrap();
            assert_eq!(txid, next);
            assert!(matches!(kind, RequestKind::Signed { spki, .. } if spki == signer.spki_der()));
            assert!(verify_signed_request(&txid, &kind).is_ok());
        }
        other => panic!("unexpected {other:?}"),
    }
}

/// Any other message goes through the ordinary response checks: length, then cookie, then type.
#[test]
fn an_unknown_message_gets_the_ordinary_response_error() {
    let signer = TestSigner::new();
    let server = v4(198, 51, 100, 7, 3478);
    let (mut query, _) = SignedQuery::start(&signer, &TXID).unwrap();
    let mut msg = vec![0xffu8, 0xff, 0, 0, 0, 0, 0, 0];
    msg.extend_from_slice(&TXID);
    assert!(matches!(
        query.on_datagram(&server, &server, &msg, &signer, &txid_b()),
        SignedStep::Done(Err(SignedQueryError::Stun(StunError::BadMagicCookie)))
    ));
    assert!(matches!(
        query.on_datagram(&server, &server, &msg[..10], &signer, &txid_b()),
        SignedStep::Done(Err(SignedQueryError::Stun(StunError::Truncated)))
    ));
    msg[4..8].copy_from_slice(&[0x21, 0x12, 0xa4, 0x42]);
    assert!(matches!(
        query.on_datagram(&server, &server, &msg, &signer, &txid_b()),
        SignedStep::Done(Err(SignedQueryError::Stun(StunError::UnexpectedType(0xffff))))
    ));
}

#[test]
fn start_with_spki_refuses_exactly_a_malformed_spki() {
    let signer = TestSigner::new();
    let (_, first) = SignedQuery::start_with_spki(signer.spki_der(), &TXID).unwrap();
    assert_eq!(first, encode_identity_request(&TXID, signer.spki_der()));
    let mut bad = signer.spki_der().to_vec();
    bad[26] = 0x02;
    assert!(matches!(SignedQuery::start_with_spki(&bad, &TXID), Err(SignedQueryError::BadChallenge)));
    assert!(matches!(SignedQuery::start_with_spki(&bad[..90], &TXID), Err(SignedQueryError::BadChallenge)));
}
