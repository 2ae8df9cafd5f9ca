//! The error-response shape, both directions: how a server encodes the four DIG error shapes
//! (bare refusal, challenge, stale, malformed), and how a client parses one back into a
//! [`Challenge`] it can act on.
use vstd::prelude::*;
use vstd::utf8::{
    encode_utf8, encode_utf8_valid_utf8, is_ascii_chars, is_ascii_chars_encode_utf8, valid_utf8,
};
use vstd::string::StringSliceAdditionalSpecFns;

use crate::codec::{
    attr, be16, be32, header, lemma_attr_at, lemma_header_layout, pad4, read_txid, read_u16,
    read_u32, txid_eq, write_header, zeros, StunError, TransactionId, MAGIC_COOKIE,
};
use crate::credential::nonce::NONCE_LEN;
use crate::credential::wire::{
    base64url_encode, lemma_b64_encode_len, push_bytes, spec_b64_encode, write_attr, ATTR_ERROR_CODE, ATTR_NONCE,
    ATTR_REALM, BINDING_ERROR, ERR_BAD_REQUEST, ERR_STALE_NONCE, ERR_UNAUTHENTICATED,
    REALM_BYTES,
};

verus! {

/// A parsed Binding Error Response. `realm` and `nonce` are `None` when the response did not
/// carry that attribute (or, for `realm`, carried one that is not UTF-8).
#[derive(Debug, Clone, PartialEq, Eq)]
pub struct Challenge {
    /// The `ERROR-CODE` class and number (400, 401, 438, …), or 0 if none was carried.
    pub code: u16,
    /// The `REALM` attribute's text.
    pub realm: Option<String>,
    /// The `NONCE` attribute value exactly as carried (base64url text).
    pub nonce: Option<Vec<u8>>,
}

/// "Unauthenticated".
pub const REASON_UNAUTHENTICATED: [u8; 15] = [
    0x55,
    0x6e,
    0x61,
    0x75,
    0x74,
    0x68,
    0x65,
    0x6e,
    0x74,
    0x69,
    0x63,
    0x61,
    0x74,
    0x65,
    0x64,
];

/// "Stale Nonce".
pub const REASON_STALE_NONCE: [u8; 11] = [
    0x53,
    0x74,
    0x61,
    0x6c,
    0x65,
    0x20,
    0x4e,
    0x6f,
    0x6e,
    0x63,
    0x65,
];

/// "Bad Request".
pub const REASON_BAD_REQUEST: [u8; 11] = [
    0x42,
    0x61,
    0x64,
    0x20,
    0x52,
    0x65,
    0x71,
    0x75,
    0x65,
    0x73,
    0x74,
];

/// The three error codes a DIG server emits.
pub open spec fn is_emitted_code(code: u16) -> bool {
    code == ERR_BAD_REQUEST || code == ERR_UNAUTHENTICATED || code == ERR_STALE_NONCE
}

/// The reason phrase RFC 5389 §15.6 pairs with each emitted code.
pub open spec fn spec_reason_phrase(code: u16) -> Seq<u8> {
    if code == ERR_UNAUTHENTICATED {
        REASON_UNAUTHENTICATED@
    } else if code == ERR_STALE_NONCE {
        REASON_STALE_NONCE@
    } else {
        REASON_BAD_REQUEST@
    }
}

/// The `ERROR-CODE` value: two zero bytes, the class, the number, then the reason phrase.
pub open spec fn error_code_value(code: u16) -> Seq<u8> {
    seq![0u8, 0u8, (code / 100) as u8, (code % 100) as u8] + spec_reason_phrase(code)
}

/// The bytes of a DIG error response: the header (type `0x0111`, the request's transaction
/// id), `ERROR-CODE`, and, when a nonce is given, `REALM "dig-stun"` and `NONCE` carrying its
/// base64url text.
pub open spec fn spec_encode_challenge(txid: Seq<u8>, code: u16, nonce: Option<Seq<u8>>) -> Seq<u8> {
    let tail = match nonce {
        Some(n) => attr(ATTR_REALM, REALM_BYTES@) + attr(ATTR_NONCE, spec_b64_encode(n)),
        None => Seq::<u8>::empty(),
    };
    let attrs = attr(ATTR_ERROR_CODE, error_code_value(code)) + tail;
    header(BINDING_ERROR, attrs.len() as u16, txid) + attrs
}

/// The walk over an error response's attribute area from `off`, carrying the code, realm bytes
/// and nonce seen so far: a later attribute of a kind replaces an earlier one; a `REALM` that is
/// not UTF-8 is skipped; an `ERROR-CODE` shorter than 4 bytes is ignored; a value overrunning the
/// area ends the walk without discarding what was read.
pub open spec fn spec_challenge_walk(
    area: Seq<u8>,
    off: int,
    code: u16,
    realm: Option<Seq<u8>>,
    nonce: Option<Seq<u8>>,
) -> (u16, Option<Seq<u8>>, Option<Seq<u8>>)
    decreases area.len() + 4 - off,
{
    if off + 4 > area.len() {
        (code, realm, nonce)
    } else {
        let attr_type = be16(area, off);
        let attr_len = be16(area, off + 2);
        let val_end = off + 4 + attr_len;
        if val_end > area.len() {
            (code, realm, nonce)
        } else {
            let value = area.subrange(off + 4, val_end);
            let next = val_end + pad4(attr_len);
            if attr_type == ATTR_ERROR_CODE && value.len() >= 4 {
                spec_challenge_walk(
                    area,
                    next,
                    (100 * value[2] + value[3]) as u16,
                    realm,
                    nonce,
                )
            } else if attr_type == ATTR_REALM {
                spec_challenge_walk(
                    area,
                    next,
                    code,
                    if valid_utf8(value) {
                        Some(value)
                    } else {
                        realm
                    },
                    nonce,
                )
            } else if attr_type == ATTR_NONCE {
                spec_challenge_walk(area, next, code, realm, Some(value))
            } else {
                spec_challenge_walk(area, next, code, realm, nonce)
            }
        }
    }
}

/// What a Binding Error Response says: checked for length, cookie, type `0x0111`, the expected
/// transaction id and the declared length, then walked.
pub open spec fn spec_parse_challenge(msg: Seq<u8>, expected: Seq<u8>) -> Result<
    (u16, Option<Seq<u8>>, Option<Seq<u8>>),
    StunError,
> {
    if msg.len() < 20 {
        Err(StunError::Truncated)
    } else if be32(msg, 4) != MAGIC_COOKIE {
        Err(StunError::BadMagicCookie)
    } else if be16(msg, 0) != BINDING_ERROR {
        Err(StunError::UnexpectedType(be16(msg, 0) as u16))
    } else if msg.subrange(8, 20) != expected {
        Err(StunError::TransactionIdMismatch)
    } else if msg.len() < 20 + be16(msg, 2) {
        Err(StunError::Truncated)
    } else {
        Ok(spec_challenge_walk(msg.subrange(20, 20 + be16(msg, 2)), 0, 0, None, None))
    }
}

/// Whether `c` holds `code`, a realm whose UTF-8 bytes are `realm`, and `nonce`.
pub open spec fn challenge_is(
    c: Challenge,
    code: u16,
    realm: Option<Seq<u8>>,
    nonce: Option<Seq<u8>>,
) -> bool {
    &&& c.code == code
    &&& match (c.realm, realm) {
        (Some(r), Some(b)) => encode_utf8(r@) == b,
        (None, None) => true,
        _ => false,
    }
    &&& match (c.nonce, nonce) {
        (Some(n), Some(b)) => n@ == b,
        (None, None) => true,
        _ => false,
    }
}

/// The text of `bytes` when they are UTF-8 (`std::str::from_utf8`), else `None`.
#[verifier::external_body]
fn str_from_utf8(bytes: &[u8]) -> (r: Option<&str>)
    ensures
        r is Some <==> valid_utf8(bytes@),
        r matches Some(s) ==> s.spec_bytes() == bytes@,
{
    std::str::from_utf8(bytes).ok()
}

fn reason_phrase(code: u16) -> (r: &'static [u8])
    requires
        is_emitted_code(code),
    ensures
        r@ == spec_reason_phrase(code),
{
    if code == ERR_UNAUTHENTICATED {
        &REASON_UNAUTHENTICATED
    } else if code == ERR_STALE_NONCE {
        &REASON_STALE_NONCE
    } else {
        &REASON_BAD_REQUEST
    }
}

/// Encode one of the four DIG error shapes: `nonce = None` for a bare refusal (`401`, 44 bytes)
/// or a malformed refusal (`400`, 40 bytes); `nonce = Some(..)` for a challenge (`401`, 88
/// bytes) or a stale-nonce response (`438`, 84 bytes), both carrying [`REALM_BYTES`] and the
/// nonce's base64url text. None carries `XOR-MAPPED-ADDRESS`: the answer is what the credential
/// withholds until the requester has proven something.
pub fn encode_challenge(txid: &TransactionId, code: u16, nonce: Option<&[u8; NONCE_LEN]>) -> (msg:
    Vec<u8>)
    requires
        is_emitted_code(code),
    ensures
        msg@ == spec_encode_challenge(
            txid@,
            code,
            match nonce {
                Some(n) => Some(n@),
                None => None,
            },
        ),
{
    let reason = reason_phrase(code);
    let mut code_value: Vec<u8> = Vec::new();
    code_value.push(0);
    code_value.push(0);
    code_value.push((code / 100) as u8);
    code_value.push((code % 100) as u8);
    push_bytes(&mut code_value, reason);
    assert(code_value@ =~= error_code_value(code));
    let mut attrs: Vec<u8> = Vec::new();
    write_attr(&mut attrs, ATTR_ERROR_CODE, code_value.as_slice());
    let ghost first = attrs@;
    if let Some(raw_nonce) = nonce {
        write_attr(&mut attrs, ATTR_REALM, &REALM_BYTES);
        let encoded = base64url_encode(raw_nonce);
        proof {
            lemma_b64_encode_len(raw_nonce@);
        }
        write_attr(&mut attrs, ATTR_NONCE, encoded.as_slice());
    }
    let ghost want = spec_encode_challenge(
        txid@,
        code,
        match nonce {
            Some(n) => Some(n@),
            None => None,
        },
    );
    assert(attrs@.len() <= 88);
    let mut msg: Vec<u8> = Vec::new();
    write_header(&mut msg, BINDING_ERROR, attrs.len() as u16, txid);
    push_bytes(&mut msg, attrs.as_slice());
    assert(msg@ =~= want);
    msg
}

/// Parse a Binding Error Response: the only parser here that interprets message type `0x0111`.
///
/// Checks length, cookie, type `0x0111`, the expected transaction id and the declared length. A
/// message that passes those checks always parses: a missing or non-UTF-8 `REALM`, or a missing
/// `NONCE`, leaves that field `None`, and a truncated trailing attribute ends the walk without
/// discarding an `ERROR-CODE` already read. The client decides what an incomplete challenge
/// means.
pub fn parse_challenge(msg: &[u8], expected_txid: &TransactionId) -> (r: Result<Challenge, StunError>)
    ensures
        match spec_parse_challenge(msg@, expected_txid@) {
            Ok((code, realm, nonce)) => r is Ok && challenge_is(r->Ok_0, code, realm, nonce),
            Err(e) => r == Err::<Challenge, StunError>(e),
        },
{
    if msg.len() < 20 {
        return Err(StunError::Truncated);
    }
    let msg_type = read_u16(msg, 0);
    let msg_len = read_u16(msg, 2) as usize;
    let cookie = read_u32(msg, 4);
    if cookie != MAGIC_COOKIE {
        return Err(StunError::BadMagicCookie);
    }
    if msg_type != BINDING_ERROR {
        return Err(StunError::UnexpectedType(msg_type));
    }
    let txid = read_txid(msg);
    if !txid_eq(&txid, expected_txid) {
        return Err(StunError::TransactionIdMismatch);
    }
    if msg.len() < 20 + msg_len {
        return Err(StunError::Truncated);
    }
    let area = &msg[20..20 + msg_len];
    let ghost want = spec_challenge_walk(area@, 0, 0, None, None);
    let mut code: u16 = 0;
    let mut realm: Option<String> = None;
    let mut nonce: Option<Vec<u8>> = None;
    let ghost mut realm_bytes: Option<Seq<u8>> = None;
    let mut off: usize = 0;
    while off + 4 <= area.len()
        invariant
            area@.len() <= 0xffff,
            off <= area@.len() + 3,
            want == spec_challenge_walk(
                area@,
                off as int,
                code,
                realm_bytes,
                match nonce {
                    Some(n) => Some(n@),
                    None => None,
                },
            ),
            match (realm, realm_bytes) {
                (Some(r), Some(b)) => encode_utf8(r@) == b,
                (None, None) => true,
                _ => false,
            },
        decreases area@.len() + 4 - off,
    {
        let attr_type = read_u16(area, off);
        let attr_len = read_u16(area, off + 2) as usize;
        let val_start = off + 4;
        let val_end = val_start + attr_len;
        if val_end > area.len() {
            off = area.len();
            continue;
        }
        let value = &area[val_start..val_end];
        if attr_type == ATTR_ERROR_CODE && attr_len >= 4 {
            code = 100 * (value[2] as u16) + (value[3] as u16);
        } else if attr_type == ATTR_REALM {
            if let Some(s) = str_from_utf8(value) {
                realm = Some(s.to_owned());
                proof {
                    realm_bytes = Some(value@);
                }
            }
        } else if attr_type == ATTR_NONCE {
            nonce = Some(vstd::slice::slice_to_vec(value));
        }
        off = val_end + ((4 - (attr_len % 4)) % 4);
    }
    Ok(Challenge { code, realm, nonce })
}

/// The realm bytes are UTF-8 text.
proof fn lemma_realm_is_utf8()
    ensures
        valid_utf8(REALM_BYTES@),
{
    let chars = seq!['d', 'i', 'g', '-', 's', 't', 'u', 'n'];
    assert(is_ascii_chars(chars));
    is_ascii_chars_encode_utf8(chars);
    encode_utf8_valid_utf8(chars);
    assert(encode_utf8(chars) =~= REALM_BYTES@);
}

/// The `ERROR-CODE` attribute a DIG server emits: 24 bytes for `401`, 20 for the others, and
/// its class and number read back as the code.
proof fn lemma_error_code_attr(code: u16)
    requires
        is_emitted_code(code),
    ensures
        error_code_value(code).len() >= 4,
        (100 * error_code_value(code)[2] + error_code_value(code)[3]) as u16 == code,
        attr(ATTR_ERROR_CODE, error_code_value(code)).len() == 4 + error_code_value(code).len()
            + pad4(error_code_value(code).len() as int),
        attr(ATTR_ERROR_CODE, error_code_value(code)).len() <= 24,
{
    let v = error_code_value(code);
    assert(v[2] == (code / 100) as u8);
    assert(v[3] == (code % 100) as u8);
}

/// The walk over an error response whose area ends right after the given steps: an
/// `ERROR-CODE` at `off` sets the code.
proof fn lemma_walk_code(
    area: Seq<u8>,
    code: u16,
    realm: Option<Seq<u8>>,
    nonce: Option<Seq<u8>>,
    want: (u16, Option<Seq<u8>>, Option<Seq<u8>>),
)
    requires
        is_emitted_code(code),
        attr(ATTR_ERROR_CODE, error_code_value(code)).len() <= area.len(),
        area.subrange(0, attr(ATTR_ERROR_CODE, error_code_value(code)).len() as int) == attr(
            ATTR_ERROR_CODE,
            error_code_value(code),
        ),
        spec_challenge_walk(
            area,
            attr(ATTR_ERROR_CODE, error_code_value(code)).len() as int,
            code,
            realm,
            nonce,
        ) == want,
    ensures
        spec_challenge_walk(area, 0, 0, realm, nonce) == want,
{
    let v = error_code_value(code);
    lemma_error_code_attr(code);
    lemma_attr_at(area, 0, ATTR_ERROR_CODE, v);
    let value = area.subrange(4, 4 + v.len() as int);
    assert(value[2] == v[2] && value[3] == v[3]);
}

/// A `REALM` carrying the realm bytes, at `off`, is taken.
proof fn lemma_walk_realm(
    area: Seq<u8>,
    off: int,
    code: u16,
    nonce: Option<Seq<u8>>,
    want: (u16, Option<Seq<u8>>, Option<Seq<u8>>),
)
    requires
        0 <= off,
        off + 12 <= area.len(),
        area.subrange(off, off + 12) == attr(ATTR_REALM, REALM_BYTES@),
        spec_challenge_walk(area, off + 12, code, Some(REALM_BYTES@), nonce) == want,
    ensures
        spec_challenge_walk(area, off, code, None, nonce) == want,
{
    lemma_realm_is_utf8();
    assert(zeros(pad4(8)) =~= Seq::<u8>::empty());
    lemma_attr_at(area, off, ATTR_REALM, REALM_BYTES@);
}

/// A `NONCE` carrying `b`, at `off`, is taken.
proof fn lemma_walk_nonce(
    area: Seq<u8>,
    off: int,
    code: u16,
    realm: Option<Seq<u8>>,
    b: Seq<u8>,
    want: (u16, Option<Seq<u8>>, Option<Seq<u8>>),
)
    requires
        0 <= off,
        b.len() <= 0xffff,
        off + attr(ATTR_NONCE, b).len() <= area.len(),
        area.subrange(off, off + attr(ATTR_NONCE, b).len()) == attr(ATTR_NONCE, b),
        spec_challenge_walk(area, off + attr(ATTR_NONCE, b).len(), code, realm, Some(b)) == want,
    ensures
        spec_challenge_walk(area, off, code, realm, None) == want,
{
    lemma_attr_at(area, off, ATTR_NONCE, b);
}

/// What a server encodes as one of its error responses, a client parses back: the same code,
/// and, for a challenge or stale-nonce response, the realm and the nonce's base64url text; for
/// a bare or malformed refusal, neither.
pub proof fn lemma_challenge_round_trip(txid: TransactionId, code: u16, nonce: Option<Seq<u8>>)
    requires
        is_emitted_code(code),
        nonce matches Some(n) ==> n.len() == NONCE_LEN,
    ensures
        spec_parse_challenge(spec_encode_challenge(txid@, code, nonce), txid@) == Ok::<
            (u16, Option<Seq<u8>>, Option<Seq<u8>>),
            StunError,
        >(
            (
                code,
                match nonce {
                    Some(_) => Some(REALM_BYTES@),
                    None => None,
                },
                match nonce {
                    Some(n) => Some(spec_b64_encode(n)),
                    None => None,
                },
            ),
        ),
{
    let a1 = attr(ATTR_ERROR_CODE, error_code_value(code));
    lemma_error_code_attr(code);
    match nonce {
        Some(n) => {
            let b = spec_b64_encode(n);
            lemma_b64_encode_len(n);
            assert(b.len() == 27);
            let a2 = attr(ATTR_REALM, REALM_BYTES@);
            let a3 = attr(ATTR_NONCE, b);
            assert(a2.len() == 12);
            assert(a3.len() == 32);
            let area = a1 + (a2 + a3);
            let m = header(BINDING_ERROR, area.len() as u16, txid@) + area;
            assert(m == spec_encode_challenge(txid@, code, nonce));
            lemma_header_layout(BINDING_ERROR, area.len() as u16, txid@, area);
            let o2 = a1.len() as int;
            let o3 = o2 + 12;
            let want = (code, Some(REALM_BYTES@), Some(b));
            assert(area.subrange(0, o2) =~= a1);
            assert(area.subrange(o2, o3) =~= a2);
            assert(area.subrange(o3, o3 + 32) =~= a3);
            assert(spec_challenge_walk(area, o3 + 32, code, Some(REALM_BYTES@), Some(b)) == want);
            lemma_walk_nonce(area, o3, code, Some(REALM_BYTES@), b, want);
            lemma_walk_realm(area, o2, code, None, want);
            lemma_walk_code(area, code, None, None, want);
            assert(m.subrange(20, 20 + be16(m, 2)) == area);
        },
        None => {
            let area = a1 + Seq::<u8>::empty();
            assert(area =~= a1);
            let m = header(BINDING_ERROR, area.len() as u16, txid@) + area;
            assert(m == spec_encode_challenge(txid@, code, nonce));
            lemma_header_layout(BINDING_ERROR, area.len() as u16, txid@, area);
            let want = (code, None::<Seq<u8>>, None::<Seq<u8>>);
            assert(area.subrange(0, a1.len() as int) =~= a1);
            assert(spec_challenge_walk(area, a1.len() as int, code, None, None) == want);
            lemma_walk_code(area, code, None, None, want);
            assert(m.subrange(20, 20 + be16(m, 2)) == area);
        },
    }
}

} // verus!
