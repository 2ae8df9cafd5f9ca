//! Wire-level plumbing shared by the rest of the credential: the DIG attribute constants, the
//! SPKI and signature shape checks, the TLV attribute writer, and the RFC 4648 §5 base64url
//! (no padding) codec the `NONCE` attribute uses.
use vstd::prelude::*;

use crate::codec::{attr, push_u16, StunError};

verus! {

/// The requester's TLS-leaf SPKI.
pub const ATTR_DIG_IDENTITY: u16 = 0xD160;

/// The requester's signature over the server's nonce.
pub const ATTR_DIG_SIGNATURE: u16 = 0xD161;

/// RFC 5389 §15.6 `ERROR-CODE`.
pub const ATTR_ERROR_CODE: u16 = 0x0009;

/// RFC 5389 §15.7 `REALM`; a DIG server always carries [`REALM`] as its value.
pub const ATTR_REALM: u16 = 0x0014;

/// RFC 5389 §15.8 `NONCE`.
pub const ATTR_NONCE: u16 = 0x0015;

/// Method Binding, class Error Response (RFC 5389 §6).
pub const BINDING_ERROR: u16 = 0x0111;

/// The realm every DIG credential challenge carries: the mechanism discriminator a client checks
/// before treating a `401` as one it can satisfy.
pub const REALM: &'static str = "dig-stun";

/// The bytes of [`REALM`].
pub const REALM_BYTES: [u8; 8] = [0x64, 0x69, 0x67, 0x2d, 0x73, 0x74, 0x75, 0x6e];

/// The only credential version; a receiver answers `400` to any other.
pub const CREDENTIAL_VERSION: u8 = 0x01;

/// Byte length of a P-256 `SubjectPublicKeyInfo` DER with an uncompressed point.
pub const P256_SPKI_LEN: usize = 91;

/// The constant first 26 bytes of every such SPKI: the `AlgorithmIdentifier` for
/// id-ecPublicKey / prime256v1. Byte 26 is always `0x04`, the uncompressed SEC1 point marker.
pub const P256_SPKI_PREFIX: [u8; 26] = [
    0x30,
    0x59,
    0x30,
    0x13,
    0x06,
    0x07,
    0x2a,
    0x86,
    0x48,
    0xce,
    0x3d,
    0x02,
    0x01,
    0x06,
    0x08,
    0x2a,
    0x86,
    0x48,
    0xce,
    0x3d,
    0x03,
    0x01,
    0x07,
    0x03,
    0x42,
    0x00,
];

/// Upper bound on the DER ECDSA signature carried by `DIG-SIGNATURE`, after its version byte.
pub const MAX_SIGNATURE_LEN: usize = 72;

/// Lower bound on a whole `DIG-SIGNATURE` value (version byte included).
pub const MIN_SIGNATURE_ATTR_LEN: usize = 9;

/// "Bad Request".
pub const ERR_BAD_REQUEST: u16 = 400;

/// "Unauthenticated" (RFC 8489's spelling of `401`).
pub const ERR_UNAUTHENTICATED: u16 = 401;

/// "Stale Nonce".
pub const ERR_STALE_NONCE: u16 = 438;

/// Errors classifying or verifying a DIG credential.
#[derive(Debug, Clone, PartialEq, Eq)]
pub enum CredentialError {
    /// The datagram failed the ordinary Binding-request checks before any DIG attribute was
    /// looked at.
    Stun(StunError),
    /// A DIG credential attribute violated its wire shape, appeared out of order, was duplicated,
    /// or appeared without its companion attribute. Answered with `400`.
    Malformed,
    /// The signature did not verify against the carried SPKI. Answered with a `401` challenge.
    BadSignature,
}

/// Whether `s` is exactly the SPKI shape `dig-tls` mints: 91 bytes, the constant prefix, then
/// the uncompressed-point marker.
pub open spec fn spec_valid_spki(s: Seq<u8>) -> bool {
    &&& s.len() == P256_SPKI_LEN
    &&& s.subrange(0, 26) == P256_SPKI_PREFIX@
    &&& s[26] == 0x04
}

/// Whether a DER signature (version byte excluded) has an admissible length: 8 to 72 bytes.
pub open spec fn spec_valid_signature_len(sig: Seq<u8>) -> bool {
    MIN_SIGNATURE_ATTR_LEN <= sig.len() + 1 <= 1 + MAX_SIGNATURE_LEN
}

/// Whether `spki` (the SPKI DER without the version byte) has the P-256 SPKI shape: 91 bytes, the
/// constant prefix, then the uncompressed-point marker.
pub(crate) fn is_valid_spki_der(spki: &[u8]) -> (r: bool)
    ensures
        r == spec_valid_spki(spki@),
{
    if spki.len() != P256_SPKI_LEN {
        return false;
    }
    let mut i: usize = 0;
    while i < 26
        invariant
            0 <= i <= 26,
            spki@.len() == P256_SPKI_LEN,
            forall|j: int| 0 <= j < i ==> spki@[j] == P256_SPKI_PREFIX@[j],
        decreases 26 - i,
    {
        if spki[i] != P256_SPKI_PREFIX[i] {
            assert(spki@.subrange(0, 26)[i as int] != P256_SPKI_PREFIX@[i as int]);
            return false;
        }
        i = i + 1;
    }
    assert(spki@.subrange(0, 26) =~= P256_SPKI_PREFIX@);
    spki[26] == 0x04
}

/// Whether a DER signature (version byte excluded) is 8 to [`MAX_SIGNATURE_LEN`] bytes long.
pub(crate) fn is_valid_signature_der_len(sig_der: &[u8]) -> (r: bool)
    ensures
        r == spec_valid_signature_len(sig_der@),
{
    MIN_SIGNATURE_ATTR_LEN - 1 <= sig_der.len() && sig_der.len() <= MAX_SIGNATURE_LEN
}

/// Append `bytes` to `out`.
pub(crate) fn push_bytes(out: &mut Vec<u8>, bytes: &[u8])
    ensures
        final(out)@ == old(out)@ + bytes@,
{
    let ghost before = out@;
    let mut i: usize = 0;
    while i < bytes.len()
        invariant
            0 <= i <= bytes@.len(),
            out@ == before + bytes@.subrange(0, i as int),
        decreases bytes@.len() - i,
    {
        out.push(bytes[i]);
        assert(bytes@.subrange(0, i + 1) =~= bytes@.subrange(0, i as int).push(bytes@[i as int]));
        i = i + 1;
    }
    assert(bytes@.subrange(0, bytes@.len() as int) =~= bytes@);
}

/// Append one TLV attribute — `[type:2][length:2][value][pad to 4 bytes]` — to `msg`.
pub(crate) fn write_attr(msg: &mut Vec<u8>, attr_type: u16, value: &[u8])
    ensures
        final(msg)@ == old(msg)@ + attr(attr_type, value@),
{
    push_u16(msg, attr_type);
    #[verifier::truncate]
    let len = value.len() as u16;
    push_u16(msg, len);
    push_bytes(msg, value);
    let pad = (4 - (value.len() % 4)) % 4;
    let ghost before = msg@;
    let mut i: usize = 0;
    while i < pad
        invariant
            0 <= i <= pad,
            pad < 4,
            msg@ == before + Seq::new(i as nat, |j: int| 0u8),
        decreases pad - i,
    {
        msg.push(0);
        assert(msg@ =~= before + Seq::new((i + 1) as nat, |j: int| 0u8));
        i = i + 1;
    }
    assert(msg@ =~= old(msg)@ + attr(attr_type, value@));
}

// ---------------------------------------------------------------------------------------------
// base64url without padding (RFC 4648 §5).
// ---------------------------------------------------------------------------------------------
/// The base64url alphabet: `A`–`Z` for 0–25, `a`–`z` for 26–51, `0`–`9` for 52–61, then `-`
/// and `_`.
pub open spec fn spec_b64_char(v: int) -> u8 {
    if v < 26 {
        (65 + v) as u8
    } else if v < 52 {
        (97 + v - 26) as u8
    } else if v < 62 {
        (48 + v - 52) as u8
    } else if v == 62 {
        45u8
    } else {
        95u8
    }
}

/// The 6-bit value of a base64url character, or `None` for a byte outside the alphabet.
pub open spec fn spec_b64_value(c: u8) -> Option<int> {
    if 65 <= c <= 90 {
        Some(c - 65)
    } else if 97 <= c <= 122 {
        Some(c - 97 + 26)
    } else if 48 <= c <= 57 {
        Some(c - 48 + 52)
    } else if c == 45 {
        Some(62)
    } else if c == 95 {
        Some(63)
    } else {
        None
    }
}

/// The characters encoding one group of up to three bytes: two for one byte, three for two,
/// four for three.
pub open spec fn spec_b64_group(g: Seq<u8>) -> Seq<u8> {
    let b1: int = if g.len() > 1 {
        g[1] as int
    } else {
        0
    };
    let b2: int = if g.len() > 2 {
        g[2] as int
    } else {
        0
    };
    let n = g[0] as int * 0x1_0000 + b1 * 0x100 + b2;
    let c0 = spec_b64_char(n / 0x4_0000);
    let c1 = spec_b64_char((n / 0x1000) % 64);
    let c2 = spec_b64_char((n / 0x40) % 64);
    let c3 = spec_b64_char(n % 64);
    if g.len() == 1 {
        seq![c0, c1]
    } else if g.len() == 2 {
        seq![c0, c1, c2]
    } else {
        seq![c0, c1, c2, c3]
    }
}

/// base64url of `s`, no padding.
pub open spec fn spec_b64_encode(s: Seq<u8>) -> Seq<u8>
    decreases s.len(),
{
    if s.len() == 0 {
        seq![]
    } else if s.len() <= 3 {
        spec_b64_group(s)
    } else {
        spec_b64_group(s.subrange(0, 3)) + spec_b64_encode(s.subrange(3, s.len() as int))
    }
}

/// The bytes one group of two to four characters decodes to, or `None` when a character is
/// outside the alphabet or the group is a lone character. Bits left over below the last whole
/// byte are dropped.
pub open spec fn spec_b64_decode_group(g: Seq<u8>) -> Option<Seq<u8>> {
    if g.len() < 2 || exists|i: int| 0 <= i < g.len() && spec_b64_value(#[trigger] g[i]) is None {
        None
    } else {
        let v0 = spec_b64_value(g[0])->0;
        let v1 = spec_b64_value(g[1])->0;
        let v2 = if g.len() > 2 {
            spec_b64_value(g[2])->0
        } else {
            0
        };
        let v3 = if g.len() > 3 {
            spec_b64_value(g[3])->0
        } else {
            0
        };
        let n = v0 * 0x4_0000 + v1 * 0x1000 + v2 * 0x40 + v3;
        let b0 = (n / 0x1_0000) as u8;
        let b1 = ((n / 0x100) % 0x100) as u8;
        let b2 = (n % 0x100) as u8;
        if g.len() == 2 {
            Some(seq![b0])
        } else if g.len() == 3 {
            Some(seq![b0, b1])
        } else {
            Some(seq![b0, b1, b2])
        }
    }
}

/// The bytes base64url text (no padding) decodes to, or `None` when it is not such text.
pub open spec fn spec_b64_decode(s: Seq<u8>) -> Option<Seq<u8>>
    decreases s.len(),
{
    if s.len() == 0 {
        Some(seq![])
    } else if s.len() <= 4 {
        spec_b64_decode_group(s)
    } else {
        match (spec_b64_decode_group(s.subrange(0, 4)), spec_b64_decode(s.subrange(4, s.len() as int))) {
            (Some(a), Some(b)) => Some(a + b),
            _ => None,
        }
    }
}

fn b64_char(v: u32) -> (c: u8)
    requires
        v < 64,
    ensures
        c == spec_b64_char(v as int),
{
    if v < 26 {
        (65 + v) as u8
    } else if v < 52 {
        (97 + v - 26) as u8
    } else if v < 62 {
        (48 + v - 52) as u8
    } else if v == 62 {
        45
    } else {
        95
    }
}

fn b64_value(c: u8) -> (r: Option<u32>)
    ensures
        match spec_b64_value(c) {
            Some(v) => r == Some(v as u32) && v < 64,
            None => r is None,
        },
{
    if 65 <= c && c <= 90 {
        Some((c - 65) as u32)
    } else if 97 <= c && c <= 122 {
        Some((c - 97 + 26) as u32)
    } else if 48 <= c && c <= 57 {
        Some((c - 48 + 52) as u32)
    } else if c == 45 {
        Some(62)
    } else if c == 95 {
        Some(63)
    } else {
        None
    }
}

/// Encode `input` as base64url without padding: the `NONCE` attribute's wire form of the raw
/// nonce bytes.
pub(crate) fn base64url_encode(input: &[u8]) -> (out: Vec<u8>)
    ensures
        out@ == spec_b64_encode(input@),
{
    let mut out: Vec<u8> = Vec::new();
    let mut i: usize = 0;
    assert(input@.subrange(0, input@.len() as int) =~= input@);
    assert(out@ + spec_b64_encode(input@) =~= spec_b64_encode(input@));
    while i < input.len()
        invariant
            0 <= i <= input@.len(),
            spec_b64_encode(input@) == out@ + spec_b64_encode(input@.subrange(i as int, input@.len() as int)),
        decreases input@.len() - i,
    {
        let ghost rest = input@.subrange(i as int, input@.len() as int);
        let left = input.len() - i;
        let b0 = input[i] as u32;
        let b1: u32 = if left > 1 {
            input[i + 1] as u32
        } else {
            0
        };
        let b2: u32 = if left > 2 {
            input[i + 2] as u32
        } else {
            0
        };
        let n = b0 * 0x1_0000 + b1 * 0x100 + b2;
        out.push(b64_char(n / 0x4_0000));
        out.push(b64_char((n / 0x1000) % 64));
        if left > 1 {
            out.push(b64_char((n / 0x40) % 64));
        }
        if left > 2 {
            out.push(b64_char(n % 64));
        }
        let step: usize = if left > 3 {
            3
        } else {
            left
        };
        proof {
            let g = rest.subrange(0, step as int);
            assert(g =~= if left <= 3 { rest } else { rest.subrange(0, 3) });
            assert(rest.subrange(step as int, rest.len() as int) =~= input@.subrange(
                i + step,
                input@.len() as int,
            ));
            if left <= 3 {
                assert(rest.subrange(step as int, rest.len() as int) =~= Seq::<u8>::empty());
            }
        }
        i = i + step;
    }
    assert(input@.subrange(input@.len() as int, input@.len() as int) =~= Seq::<u8>::empty());
    out
}

/// Decode the group of two to four characters at `input[at..at + len]`.
fn decode_group(input: &[u8], at: usize, len: usize) -> (r: Option<Vec<u8>>)
    requires
        2 <= len <= 4,
        at + len <= input@.len(),
    ensures
        match spec_b64_decode_group(input@.subrange(at as int, at + len)) {
            Some(d) => r is Some && r->0@ == d,
            None => r is None,
        },
{
    let ghost g = input@.subrange(at as int, at + len);
    let mut vals: [u32; 4] = [0, 0, 0, 0];
    let mut k: usize = 0;
    while k < len
        invariant
            0 <= k <= len,
            2 <= len <= 4,
            at + len <= input.len(),
            g == input@.subrange(at as int, at + len),
            forall|j: int| 0 <= j < k ==> spec_b64_value(#[trigger] g[j]) is Some,
            forall|j: int|
                0 <= j < k ==> vals@[j] as int == spec_b64_value(#[trigger] g[j])->0 && vals@[j] < 64,
            forall|j: int| k <= j < 4 ==> vals@[j] == 0,
        decreases len - k,
    {
        match b64_value(input[at + k]) {
            Some(v) => {
                vals[k] = v;
            },
            None => {
                assert(spec_b64_value(g[k as int]) is None);
                return None;
            },
        }
        k = k + 1;
    }
    assert(!exists|j: int| 0 <= j < g.len() && spec_b64_value(#[trigger] g[j]) is None);
    let n: u32 = vals[0] * 0x4_0000 + vals[1] * 0x1000 + vals[2] * 0x40 + vals[3];
    let mut out: Vec<u8> = Vec::new();
    out.push((n / 0x1_0000) as u8);
    if len > 2 {
        out.push(((n / 0x100) % 0x100) as u8);
    }
    if len > 3 {
        out.push((n % 0x100) as u8);
    }
    Some(out)
}

/// Decode base64url text without padding; `None` for a byte outside the alphabet or a final
/// group of a lone character. Fed attacker-controlled bytes, so it never panics.
pub(crate) fn base64url_decode(input: &[u8]) -> (r: Option<Vec<u8>>)
    ensures
        match spec_b64_decode(input@) {
            Some(d) => r is Some && r->0@ == d,
            None => r is None,
        },
{
    let mut out: Vec<u8> = Vec::new();
    let mut i: usize = 0;
    assert(input@.subrange(0, input@.len() as int) =~= input@);
    proof {
        match spec_b64_decode(input@) {
            Some(d) => {
                assert(out@ + d =~= d);
            },
            None => {},
        }
    }
    while i < input.len()
        invariant
            0 <= i <= input@.len(),
            spec_b64_decode(input@) == match spec_b64_decode(
                input@.subrange(i as int, input@.len() as int),
            ) {
                Some(rest) => Some(out@ + rest),
                None => None::<Seq<u8>>,
            },
        decreases input@.len() - i,
    {
        let ghost rest = input@.subrange(i as int, input@.len() as int);
        let left = input.len() - i;
        let step: usize = if left > 4 {
            4
        } else {
            left
        };
        if step < 2 {
            return None;
        }
        let ghost out_before = out@;
        let ghost next = input@.subrange(i + step, input@.len() as int);
        proof {
            if left > 4 {
                assert(rest.subrange(0, 4) =~= input@.subrange(i as int, i + step));
                assert(rest.subrange(4, rest.len() as int) =~= next);
            } else {
                assert(rest =~= input@.subrange(i as int, i + step));
                assert(next =~= Seq::<u8>::empty());
            }
        }
        match decode_group(input, i, step) {
            Some(bytes) => {
                let mut j: usize = 0;
                while j < bytes.len()
                    invariant
                        0 <= j <= bytes@.len(),
                        out@ == out_before + bytes@.subrange(0, j as int),
                    decreases bytes@.len() - j,
                {
                    out.push(bytes[j]);
                    assert(bytes@.subrange(0, j + 1) =~= bytes@.subrange(0, j as int).push(
                        bytes@[j as int],
                    ));
                    j = j + 1;
                }
                proof {
                    assert(bytes@.subrange(0, bytes@.len() as int) =~= bytes@);
                    match spec_b64_decode(next) {
                        Some(r) => {
                            assert(out_before + (bytes@ + r) =~= out@ + r);
                        },
                        None => {},
                    }
                }
            },
            None => {
                return None;
            },
        }
        i = i + step;
    }
    assert(input@.subrange(input@.len() as int, input@.len() as int) =~= Seq::<u8>::empty());
    Some(out)
}

proof fn lemma_b64_char_value(v: int)
    requires
        0 <= v < 64,
    ensures
        spec_b64_value(spec_b64_char(v)) == Some(v),
{
}

proof fn lemma_sextets(n: int)
    requires
        0 <= n < 0x100_0000,
    ensures
        n == (n / 0x4_0000) * 0x4_0000 + ((n / 0x1000) % 64) * 0x1000 + ((n / 0x40) % 64) * 0x40
            + n % 64,
        0 <= n / 0x4_0000 < 64,
{
    assert(n == (n / 0x4_0000) * 0x4_0000 + ((n / 0x1000) % 64) * 0x1000 + ((n / 0x40) % 64) * 0x40
        + n % 64) by (nonlinear_arith)
        requires
            0 <= n < 0x100_0000,
    ;
    assert(0 <= n / 0x4_0000 < 64) by (nonlinear_arith)
        requires
            0 <= n < 0x100_0000,
    ;
}

proof fn lemma_octets(b0: int, b1: int, b2: int)
    requires
        0 <= b0 < 256,
        0 <= b1 < 256,
        0 <= b2 < 256,
    ensures
        ({
            let n = b0 * 0x1_0000 + b1 * 0x100 + b2;
            &&& n / 0x1_0000 == b0
            &&& (n / 0x100) % 0x100 == b1
            &&& n % 0x100 == b2
            &&& b2 == 0 ==> n % 64 == 0
            &&& b1 == 0 && b2 == 0 ==> n % 0x1000 == 0 && (n / 0x40) % 64 == 0
        }),
{
    let n = b0 * 0x1_0000 + b1 * 0x100 + b2;
    assert(n / 0x1_0000 == b0 && (n / 0x100) % 0x100 == b1 && n % 0x100 == b2) by (nonlinear_arith)
        requires
            0 <= b0 < 256,
            0 <= b1 < 256,
            0 <= b2 < 256,
            n == b0 * 0x1_0000 + b1 * 0x100 + b2,
    ;
    assert(b2 == 0 ==> n % 64 == 0) by (nonlinear_arith)
        requires
            0 <= b0 < 256,
            0 <= b1 < 256,
            n == b0 * 0x1_0000 + b1 * 0x100 + b2,
    ;
    assert(b1 == 0 && b2 == 0 ==> n % 0x1000 == 0 && (n / 0x40) % 64 == 0) by (nonlinear_arith)
        requires
            0 <= b0 < 256,
            n == b0 * 0x1_0000 + b1 * 0x100 + b2,
    ;
}

proof fn lemma_group_round_trip(g: Seq<u8>)
    requires
        1 <= g.len() <= 3,
    ensures
        spec_b64_decode_group(spec_b64_group(g)) == Some(g),
{
    let b1: int = if g.len() > 1 {
        g[1] as int
    } else {
        0
    };
    let b2: int = if g.len() > 2 {
        g[2] as int
    } else {
        0
    };
    let n = g[0] as int * 0x1_0000 + b1 * 0x100 + b2;
    lemma_sextets(n);
    lemma_octets(g[0] as int, b1, b2);
    let c = spec_b64_group(g);
    lemma_b64_char_value(n / 0x4_0000);
    lemma_b64_char_value((n / 0x1000) % 64);
    lemma_b64_char_value((n / 0x40) % 64);
    lemma_b64_char_value(n % 64);
    assert(forall|i: int| 0 <= i < c.len() ==> spec_b64_value(#[trigger] c[i]) is Some);
    let d = spec_b64_decode_group(c)->0;
    assert(d =~= g);
}

/// base64url decoding undoes base64url encoding: the `NONCE` text a challenge carries decodes
/// back to exactly the raw nonce bytes it was made from.
pub proof fn lemma_b64_round_trip(s: Seq<u8>)
    ensures
        spec_b64_decode(spec_b64_encode(s)) == Some(s),
    decreases s.len(),
{
    if s.len() == 0 {
    } else if s.len() <= 3 {
        lemma_group_round_trip(s);
    } else {
        let head = s.subrange(0, 3);
        let tail = s.subrange(3, s.len() as int);
        lemma_b64_round_trip(tail);
        lemma_b64_encode_nonempty(tail);
        let eh = spec_b64_group(head);
        let et = spec_b64_encode(tail);
        let e = spec_b64_encode(s);
        assert(eh.len() == 4);
        assert(e == eh + et);
        assert(e.subrange(0, 4) =~= eh);
        assert(e.subrange(4, e.len() as int) =~= et);
        assert(spec_b64_decode_group(eh) == Some(head)) by {
            lemma_group_round_trip(head);
        }
        assert(head + tail =~= s);
    }
}

proof fn lemma_b64_encode_nonempty(s: Seq<u8>)
    requires
        s.len() > 0,
    ensures
        spec_b64_encode(s).len() >= 2,
    decreases s.len(),
{
    if s.len() > 3 {
        lemma_b64_encode_nonempty(s.subrange(3, s.len() as int));
    }
}

/// base64url without padding turns `n` bytes into `(4n + 2) / 3` characters: 27 for a nonce.
pub proof fn lemma_b64_encode_len(s: Seq<u8>)
    ensures
        spec_b64_encode(s).len() == (4 * s.len() + 2) / 3,
    decreases s.len(),
{
    if s.len() > 3 {
        lemma_b64_encode_len(s.subrange(3, s.len() as int));
    }
}

} // verus!
