//! The RFC 5389 Binding message wire format, both directions.
//!
//! A Binding message is a fixed 20-byte header followed by TLV attributes:
//!
//! ```text
//! offset  len  field
//! 0       2    message type, big-endian
//! 2       2    message length: byte count of the attributes after the header
//! 4       4    MAGIC_COOKIE, big-endian
//! 8       12   transaction id
//! 20      n    attributes, each [type:2][length:2][value:length][pad to 4 bytes]
//! ```
//!
//! Nothing here does I/O: [`encode_binding_request`] / [`parse_binding_response`] are the client
//! halves, [`parse_binding_request`] / [`encode_binding_success`] the server halves.
use vstd::prelude::*;

use crate::addr::{fold_ip, spec_fold_ip, IpAddr, Ipv4Addr, Ipv6Addr, SocketAddr};

verus! {

/// STUN magic cookie (RFC 5389 §6): bytes 4..8 of every message.
pub const MAGIC_COOKIE: u32 = 0x2112_A442;

/// Binding request message type (method Binding, class Request).
pub const BINDING_REQUEST: u16 = 0x0001;

/// Binding success response message type (method Binding, class Success).
pub const BINDING_SUCCESS: u16 = 0x0101;

/// `XOR-MAPPED-ADDRESS` attribute type (RFC 5389 §15.2).
pub const ATTR_XOR_MAPPED_ADDRESS: u16 = 0x0020;

/// Legacy `MAPPED-ADDRESS` attribute type (RFC 5389 §15.1); some servers still emit it.
pub const ATTR_MAPPED_ADDRESS: u16 = 0x0001;

/// The top 16 bits of the magic cookie, which key the XOR of a mapped port.
pub const COOKIE_HIGH: u16 = 0x2112;

/// Address family marker of an IPv4 (XOR-)MAPPED-ADDRESS value.
pub const FAMILY_IPV4: u8 = 0x01;

/// Address family marker of an IPv6 (XOR-)MAPPED-ADDRESS value.
pub const FAMILY_IPV6: u8 = 0x02;

/// The 96-bit STUN transaction id: a plain twelve-byte array.
pub type TransactionId = [u8; 12];

/// Errors decoding a STUN message or performing a Binding transaction.
#[derive(Debug, Clone, PartialEq, Eq)]
pub enum StunError {
    /// The datagram was shorter than a valid STUN message or attribute.
    Truncated,
    /// The magic cookie did not match: not an RFC 5389 message.
    BadMagicCookie,
    /// The response's transaction id did not match the request's.
    TransactionIdMismatch,
    /// No usable mapped address: no (XOR-)MAPPED-ADDRESS attribute at all, or (for a client
    /// transaction) a parsed address that failed the reflexive-usability guard.
    NoMappedAddress,
    /// The message type was not the one expected, or an address family byte was neither IPv4
    /// nor IPv6.
    UnexpectedType(u16),
    /// Underlying socket I/O error, as text.
    Io(String),
    /// The transaction did not complete within the deadline.
    Timeout,
}

// ---------------------------------------------------------------------------------------------
// The byte layout, as spec functions.
// ---------------------------------------------------------------------------------------------
/// The big-endian 16-bit value at `b[i..i + 2]`.
pub open spec fn be16(b: Seq<u8>, i: int) -> int {
    b[i] as int * 0x100 + b[i + 1] as int
}

/// The big-endian 32-bit value at `b[i..i + 4]`.
pub open spec fn be32(b: Seq<u8>, i: int) -> int {
    b[i] as int * 0x100_0000 + b[i + 1] as int * 0x1_0000 + b[i + 2] as int * 0x100 + b[i
        + 3] as int
}

/// The two big-endian bytes of `v`.
pub open spec fn u16_bytes(v: u16) -> Seq<u8> {
    seq![(v / 0x100) as u8, (v % 0x100) as u8]
}

/// The four bytes of the magic cookie, in network order.
pub open spec fn cookie_bytes() -> Seq<u8> {
    seq![0x21u8, 0x12u8, 0xa4u8, 0x42u8]
}

/// The padding that brings an attribute value of `len` bytes to a 4-byte boundary.
pub open spec fn pad4(len: int) -> int {
    (4 - len % 4) % 4
}

/// `n` zero bytes.
pub open spec fn zeros(n: int) -> Seq<u8> {
    Seq::new(n as nat, |i: int| 0u8)
}

/// The 20-byte message header.
pub open spec fn header(msg_type: u16, attrs_len: u16, txid: Seq<u8>) -> Seq<u8> {
    u16_bytes(msg_type) + u16_bytes(attrs_len) + cookie_bytes() + txid
}

/// One TLV attribute: type, value length, value, padding to a 4-byte boundary.
pub open spec fn attr(attr_type: u16, value: Seq<u8>) -> Seq<u8> {
    u16_bytes(attr_type) + u16_bytes(value.len() as u16) + value + zeros(pad4(value.len() as int))
}

/// A twelve-byte array holding `s[at..at + 12]`.
pub open spec fn arr12(s: Seq<u8>, at: int) -> [u8; 12] {
    [
        s[at],
        s[at + 1],
        s[at + 2],
        s[at + 3],
        s[at + 4],
        s[at + 5],
        s[at + 6],
        s[at + 7],
        s[at + 8],
        s[at + 9],
        s[at + 10],
        s[at + 11],
    ]
}

/// A sixteen-byte array holding `s[0..16]`.
pub open spec fn arr16(s: Seq<u8>) -> [u8; 16] {
    [
        s[0],
        s[1],
        s[2],
        s[3],
        s[4],
        s[5],
        s[6],
        s[7],
        s[8],
        s[9],
        s[10],
        s[11],
        s[12],
        s[13],
        s[14],
        s[15],
    ]
}

/// The XOR key of an IPv6 mapped address: the cookie followed by the transaction id.
pub open spec fn v6_key(txid: Seq<u8>) -> Seq<u8> {
    cookie_bytes() + txid
}

/// The address in a (XOR-)MAPPED-ADDRESS value
/// `[reserved:1][family:1][port:2][address:4 | 16]`. With `xor`, the port is XORed with the
/// top 16 bits of the cookie, an IPv4 address with the cookie, and an IPv6 address with the
/// cookie followed by the transaction id.
pub open spec fn spec_decode_mapped_address(value: Seq<u8>, txid: Seq<u8>, xor: bool) -> Result<
    SocketAddr,
    StunError,
> {
    if value.len() < 4 {
        Err(StunError::Truncated)
    } else {
        let raw_port = be16(value, 2) as u16;
        let port = if xor {
            raw_port ^ COOKIE_HIGH
        } else {
            raw_port
        };
        if value[1] == FAMILY_IPV4 {
            if value.len() < 8 {
                Err(StunError::Truncated)
            } else {
                let k = if xor {
                    cookie_bytes()
                } else {
                    seq![0u8, 0u8, 0u8, 0u8]
                };
                Ok(
                    SocketAddr {
                        ip: IpAddr::V4(
                            Ipv4Addr {
                                octets: [
                                    value[4] ^ k[0],
                                    value[5] ^ k[1],
                                    value[6] ^ k[2],
                                    value[7] ^ k[3],
                                ],
                            },
                        ),
                        port,
                    },
                )
            }
        } else if value[1] == FAMILY_IPV6 {
            if value.len() < 20 {
                Err(StunError::Truncated)
            } else {
                let octets = Seq::new(
                    16,
                    |i: int|
                        if xor {
                            value[4 + i] ^ v6_key(txid)[i]
                        } else {
                            value[4 + i]
                        },
                );
                Ok(SocketAddr { ip: IpAddr::V6(Ipv6Addr { octets: arr16(octets) }), port })
            }
        } else {
            Err(StunError::UnexpectedType(value[1] as u16))
        }
    }
}

/// The attribute walk of a success response over `msg[off..end]`: the first XOR-MAPPED-ADDRESS
/// decides as soon as it is seen; otherwise the first MAPPED-ADDRESS that decodes; otherwise
/// `NoMappedAddress`. An attribute whose value overruns `end` is `Truncated`.
pub open spec fn spec_walk_response(
    msg: Seq<u8>,
    txid: Seq<u8>,
    off: int,
    end: int,
    fallback: Option<SocketAddr>,
) -> Result<SocketAddr, StunError>
    decreases end + 4 - off,
{
    if off + 4 > end {
        match fallback {
            Some(a) => Ok(a),
            None => Err(StunError::NoMappedAddress),
        }
    } else {
        let attr_type = be16(msg, off);
        let attr_len = be16(msg, off + 2);
        let val_end = off + 4 + attr_len;
        if val_end > end {
            Err(StunError::Truncated)
        } else {
            let value = msg.subrange(off + 4, val_end);
            if attr_type == ATTR_XOR_MAPPED_ADDRESS {
                spec_decode_mapped_address(value, txid, true)
            } else {
                let next_fallback = if attr_type == ATTR_MAPPED_ADDRESS && fallback is None {
                    match spec_decode_mapped_address(value, txid, false) {
                        Ok(a) => Some(a),
                        Err(_) => None,
                    }
                } else {
                    fallback
                };
                spec_walk_response(msg, txid, val_end + pad4(attr_len), end, next_fallback)
            }
        }
    }
}

/// What a Binding success response says, checked in this order: length, cookie, type,
/// transaction id (when one is expected), declared length, then the attribute walk.
pub open spec fn spec_parse_binding_response(msg: Seq<u8>, expected: Option<Seq<u8>>) -> Result<
    SocketAddr,
    StunError,
> {
    if msg.len() < 20 {
        Err(StunError::Truncated)
    } else if be32(msg, 4) != MAGIC_COOKIE {
        Err(StunError::BadMagicCookie)
    } else if be16(msg, 0) != BINDING_SUCCESS {
        Err(StunError::UnexpectedType(be16(msg, 0) as u16))
    } else if expected is Some && msg.subrange(8, 20) != expected->0 {
        Err(StunError::TransactionIdMismatch)
    } else if msg.len() < 20 + be16(msg, 2) {
        Err(StunError::Truncated)
    } else {
        spec_walk_response(msg, msg.subrange(8, 20), 20, 20 + be16(msg, 2), None)
    }
}

/// What a Binding request datagram says: its transaction id, after the length, cookie, type and
/// declared-length checks. Attributes are not looked at.
pub open spec fn spec_parse_binding_request(d: Seq<u8>) -> Result<TransactionId, StunError> {
    if d.len() < 20 {
        Err(StunError::Truncated)
    } else if be32(d, 4) != MAGIC_COOKIE {
        Err(StunError::BadMagicCookie)
    } else if be16(d, 0) != BINDING_REQUEST {
        Err(StunError::UnexpectedType(be16(d, 0) as u16))
    } else if d.len() < 20 + be16(d, 2) {
        Err(StunError::Truncated)
    } else {
        Ok(arr12(d, 8))
    }
}

/// The bytes of a Binding request: the header with no attributes.
pub open spec fn spec_encode_binding_request(txid: Seq<u8>) -> Seq<u8> {
    header(BINDING_REQUEST, 0, txid)
}

/// The octets of an address, in network order.
pub open spec fn ip_octets(ip: IpAddr) -> Seq<u8> {
    match ip {
        IpAddr::V4(v4) => v4.octets@,
        IpAddr::V6(v6) => v6.octets@,
    }
}

/// The value of the one XOR-MAPPED-ADDRESS attribute a success response carries for `a`: the IP
/// is folded first, so an IPv4-mapped IPv6 address goes out as family `0x01`.
pub open spec fn spec_xor_mapped_value(txid: Seq<u8>, a: SocketAddr) -> Seq<u8> {
    let ip = spec_fold_ip(a.ip);
    let key = match ip {
        IpAddr::V4(_) => cookie_bytes(),
        IpAddr::V6(_) => v6_key(txid),
    };
    let family = if ip is V4 {
        FAMILY_IPV4
    } else {
        FAMILY_IPV6
    };
    let octets = ip_octets(ip);
    seq![0u8, family] + u16_bytes(a.port ^ COOKIE_HIGH) + Seq::new(
        octets.len(),
        |i: int| octets[i] ^ key[i],
    )
}

/// The bytes of a Binding success response carrying `a`: the header, then one
/// XOR-MAPPED-ADDRESS attribute and nothing else.
pub open spec fn spec_encode_binding_success(txid: Seq<u8>, a: SocketAddr) -> Seq<u8> {
    let value = spec_xor_mapped_value(txid, a);
    header(BINDING_SUCCESS, (4 + value.len()) as u16, txid) + attr(ATTR_XOR_MAPPED_ADDRESS, value)
}

// ---------------------------------------------------------------------------------------------
// Executable helpers.
// ---------------------------------------------------------------------------------------------
/// Append the two big-endian bytes of `x`.
pub(crate) fn push_u16(out: &mut Vec<u8>, x: u16)
    ensures
        final(out)@ == old(out)@ + u16_bytes(x),
{
    let hi = (x >> 8u16) as u8;
    let lo = (x & 0xffu16) as u8;
    assert(hi == (x / 0x100) as u8 && lo == (x % 0x100) as u8) by (bit_vector)
        requires
            hi == (x >> 8u16) as u8,
            lo == (x & 0xffu16) as u8,
    ;
    out.push(hi);
    out.push(lo);
    assert(final(out)@ =~= old(out)@ + u16_bytes(x));
}

/// Append a STUN header.
pub(crate) fn write_header(out: &mut Vec<u8>, msg_type: u16, attrs_len: u16, txid: &TransactionId)
    ensures
        final(out)@ == old(out)@ + header(msg_type, attrs_len, txid@),
{
    push_u16(out, msg_type);
    push_u16(out, attrs_len);
    out.push(0x21);
    out.push(0x12);
    out.push(0xa4);
    out.push(0x42);
    let mut i: usize = 0;
    let ghost before = out@;
    while i < 12
        invariant
            0 <= i <= 12,
            out@ == before + txid@.subrange(0, i as int),
        decreases 12 - i,
    {
        out.push(txid[i]);
        assert(txid@.subrange(0, i + 1) =~= txid@.subrange(0, i as int).push(txid@[i as int]));
        i = i + 1;
    }
    assert(txid@.subrange(0, 12) =~= txid@);
    assert(final(out)@ =~= old(out)@ + header(msg_type, attrs_len, txid@));
}

/// The big-endian 16-bit value at `b[i..i + 2]`.
pub(crate) fn read_u16(b: &[u8], i: usize) -> (r: u16)
    requires
        i + 2 <= b@.len(),
    ensures
        r as int == be16(b@, i as int),
{
    (b[i] as u16) * 256 + (b[i + 1] as u16)
}

/// The big-endian 32-bit value at `b[i..i + 4]`.
pub(crate) fn read_u32(b: &[u8], i: usize) -> (r: u32)
    requires
        i + 4 <= b@.len(),
    ensures
        r as int == be32(b@, i as int),
{
    (b[i] as u32) * 0x100_0000 + (b[i + 1] as u32) * 0x1_0000 + (b[i + 2] as u32) * 0x100 + (b[i
        + 3] as u32)
}

/// The transaction id at `b[8..20]`.
pub(crate) fn read_txid(b: &[u8]) -> (r: TransactionId)
    requires
        20 <= b@.len(),
    ensures
        r == arr12(b@, 8),
        r@ == b@.subrange(8, 20),
{
    let r = [b[8], b[9], b[10], b[11], b[12], b[13], b[14], b[15], b[16], b[17], b[18], b[19]];
    assert(r@ =~= b@.subrange(8, 20));
    r
}

/// Whether two transaction ids are equal.
pub(crate) fn txid_eq(a: &TransactionId, b: &TransactionId) -> (r: bool)
    ensures
        r == (a@ == b@),
{
    let mut i: usize = 0;
    while i < 12
        invariant
            0 <= i <= 12,
            forall|j: int| 0 <= j < i ==> a@[j] == b@[j],
        decreases 12 - i,
    {
        if a[i] != b[i] {
            assert(a@[i as int] != b@[i as int]);
            return false;
        }
        i = i + 1;
    }
    assert(a@ =~= b@);
    true
}

// ---------------------------------------------------------------------------------------------
// The four public codec functions.
// ---------------------------------------------------------------------------------------------
/// Encode a STUN Binding request: the 20-byte header (type, length 0, cookie, the transaction
/// id) and no attributes.
pub fn encode_binding_request(transaction_id: &TransactionId) -> (msg: Vec<u8>)
    ensures
        msg@ == spec_encode_binding_request(transaction_id@),
        msg@.len() == 20,
{
    let mut msg = Vec::new();
    write_header(&mut msg, BINDING_REQUEST, 0, transaction_id);
    msg
}

/// Decode the (XOR-)MAPPED-ADDRESS value held in `msg[start..end]`.
fn decode_mapped_address(msg: &[u8], start: usize, end: usize, txid: &TransactionId, xor: bool) -> (r:
    Result<SocketAddr, StunError>)
    requires
        start <= end <= msg@.len(),
    ensures
        r == spec_decode_mapped_address(msg@.subrange(start as int, end as int), txid@, xor),
{
    let ghost value = msg@.subrange(start as int, end as int);
    if end - start < 4 {
        return Err(StunError::Truncated);
    }
    let family = msg[start + 1];
    let raw_port = read_u16(msg, start + 2);
    assert(raw_port as int == be16(value, 2));
    let port = if xor {
        raw_port ^ COOKIE_HIGH
    } else {
        raw_port
    };
    if family == FAMILY_IPV4 {
        if end - start < 8 {
            return Err(StunError::Truncated);
        }
        let (k0, k1, k2, k3): (u8, u8, u8, u8) = if xor {
            (0x21, 0x12, 0xa4, 0x42)
        } else {
            (0, 0, 0, 0)
        };
        let octets = [
            msg[start + 4] ^ k0,
            msg[start + 5] ^ k1,
            msg[start + 6] ^ k2,
            msg[start + 7] ^ k3,
        ];
        Ok(SocketAddr { ip: IpAddr::V4(Ipv4Addr { octets }), port })
    } else if family == FAMILY_IPV6 {
        if end - start < 20 {
            return Err(StunError::Truncated);
        }
        let mut key = [0u8; 16];
        if xor {
            key = [
                0x21,
                0x12,
                0xa4,
                0x42,
                txid[0],
                txid[1],
                txid[2],
                txid[3],
                txid[4],
                txid[5],
                txid[6],
                txid[7],
                txid[8],
                txid[9],
                txid[10],
                txid[11],
            ];
            assert(key@ =~= v6_key(txid@));
        }
        let ghost want = Seq::new(
            16,
            |i: int|
                if xor {
                    value[4 + i] ^ v6_key(txid@)[i]
                } else {
                    value[4 + i]
                },
        );
        let mut octets = [0u8; 16];
        let mut i: usize = 0;
        while i < 16
            invariant
                0 <= i <= 16,
                start + 20 <= end <= msg@.len(),
                value == msg@.subrange(start as int, end as int),
                xor ==> key@ == v6_key(txid@),
                !xor ==> forall|j: int| 0 <= j < 16 ==> key@[j] == 0,
                want == Seq::new(
                    16,
                    |i: int|
                        if xor {
                            value[4 + i] ^ v6_key(txid@)[i]
                        } else {
                            value[4 + i]
                        },
                ),
                forall|j: int| 0 <= j < i ==> octets@[j] == want[j],
            decreases 16 - i,
        {
            let b = msg[start + 4 + i];
            let k = key[i];
            proof {
                if !xor {
                    assert(k == 0);
                    assert(b ^ 0u8 == b) by (bit_vector);
                }
            }
            octets[i] = b ^ k;
            i = i + 1;
        }
        assert(octets@ =~= want);
        assert(octets =~= arr16(want));
        Ok(SocketAddr { ip: IpAddr::V6(Ipv6Addr { octets }), port })
    } else {
        Err(StunError::UnexpectedType(family as u16))
    }
}

/// Parse a STUN Binding success response, returning the reflexive address from its
/// `XOR-MAPPED-ADDRESS` (preferred) or legacy `MAPPED-ADDRESS` attribute.
///
/// A PURE parser: it does not apply the address-usability guard (that is the client's job) and
/// verifies no `FINGERPRINT` or `MESSAGE-INTEGRITY`. The cookie is checked before the type, so a
/// non-STUN datagram is never reported as an unexpected STUN type; a Binding Error Response
/// (`0x0111`) comes back as `UnexpectedType(0x0111)`.
pub fn parse_binding_response(msg: &[u8], expected_txid: Option<&TransactionId>) -> (r: Result<
    SocketAddr,
    StunError,
>)
    ensures
        r == spec_parse_binding_response(
            msg@,
            match expected_txid {
                Some(t) => Some(t@),
                None => None,
            },
        ),
{
    if msg.len() < 20 {
        return Err(StunError::Truncated);
    }
    let msg_type = read_u16(msg, 0);
    let msg_len = read_u16(msg, 2) as usize;
    let cookie = read_u32(msg, 4);
    if cookie != MAGIC_COOKIE {
        return Err(StunError::BadMagicCookie);
    }
    if msg_type != BINDING_SUCCESS {
        return Err(StunError::UnexpectedType(msg_type));
    }
    let txid = read_txid(msg);
    if let Some(expected) = expected_txid {
        if !txid_eq(&txid, expected) {
            return Err(StunError::TransactionIdMismatch);
        }
    }
    if msg.len() < 20 + msg_len {
        return Err(StunError::Truncated);
    }
    let mut fallback: Option<SocketAddr> = None;
    let mut off: usize = 20;
    let end: usize = 20 + msg_len;
    let ghost want = spec_parse_binding_response(
        msg@,
        match expected_txid {
            Some(t) => Some(t@),
            None => None,
        },
    );
    assert(want == spec_walk_response(msg@, txid@, 20, end as int, None));
    while off + 4 <= end
        invariant
            want == spec_parse_binding_response(
                msg@,
                match expected_txid {
                    Some(t) => Some(t@),
                    None => None,
                },
            ),
            want == spec_walk_response(msg@, txid@, 20, end as int, None),
            20 <= end <= msg@.len(),
            end <= 20 + 0xffff,
            20 <= off <= end + 3,
            txid@ == msg@.subrange(8, 20),
            spec_walk_response(msg@, txid@, 20, end as int, None) == spec_walk_response(
                msg@,
                txid@,
                off as int,
                end as int,
                fallback,
            ),
        decreases end + 4 - off,
    {
        let attr_type = read_u16(msg, off);
        let attr_len = read_u16(msg, off + 2) as usize;
        let val_start = off + 4;
        let val_end = val_start + attr_len;
        if val_end > end {
            return Err(StunError::Truncated);
        }
        if attr_type == ATTR_XOR_MAPPED_ADDRESS {
            return decode_mapped_address(msg, val_start, val_end, &txid, true);
        }
        if attr_type == ATTR_MAPPED_ADDRESS && fallback.is_none() {
            fallback =
            match decode_mapped_address(msg, val_start, val_end, &txid, false) {
                Ok(a) => Some(a),
                Err(_) => None,
            };
        }
        off = val_end + ((4 - (attr_len % 4)) % 4);
    }
    match fallback {
        Some(a) => Ok(a),
        None => Err(StunError::NoMappedAddress),
    }
}

/// Parse a STUN Binding request, returning its transaction id: the server-side counterpart of
/// [`parse_binding_response`].
///
/// Checks, in order: length, cookie, that the type is exactly [`BINDING_REQUEST`] (which also
/// refuses a type with its top two bits set, and every other method and class), and that the
/// declared length fits. Attributes on the request (e.g. `SOFTWARE`) are accepted and ignored.
pub fn parse_binding_request(datagram: &[u8]) -> (r: Result<TransactionId, StunError>)
    ensures
        r == spec_parse_binding_request(datagram@),
{
    if datagram.len() < 20 {
        return Err(StunError::Truncated);
    }
    let msg_type = read_u16(datagram, 0);
    let msg_len = read_u16(datagram, 2) as usize;
    let cookie = read_u32(datagram, 4);
    if cookie != MAGIC_COOKIE {
        return Err(StunError::BadMagicCookie);
    }
    if msg_type != BINDING_REQUEST {
        return Err(StunError::UnexpectedType(msg_type));
    }
    if datagram.len() < 20 + msg_len {
        return Err(StunError::Truncated);
    }
    Ok(read_txid(datagram))
}

/// Encode a STUN Binding success response carrying `reflexive` in one `XOR-MAPPED-ADDRESS`
/// attribute and nothing else: no `MAPPED-ADDRESS`, no `SOFTWARE`, no `FINGERPRINT`.
///
/// The IP is folded first, so an IPv4-mapped IPv6 address is encoded as family `0x01` with the
/// embedded IPv4 address, never as a 16-byte family `0x02` value. The port is carried unchanged.
pub fn encode_binding_success(transaction_id: &TransactionId, reflexive: SocketAddr) -> (msg: Vec<
    u8,
>)
    ensures
        msg@ == spec_encode_binding_success(transaction_id@, reflexive),
{
    let ip = fold_ip(reflexive.ip);
    let xor_port = reflexive.port ^ COOKIE_HIGH;
    let mut value: Vec<u8> = Vec::new();
    value.push(0);
    let ghost octets = ip_octets(ip);
    match ip {
        IpAddr::V4(v4) => {
            value.push(FAMILY_IPV4);
            push_u16(&mut value, xor_port);
            let o = v4.octets;
            value.push(o[0] ^ 0x21);
            value.push(o[1] ^ 0x12);
            value.push(o[2] ^ 0xa4);
            value.push(o[3] ^ 0x42);
            assert(value@ =~= spec_xor_mapped_value(transaction_id@, reflexive));
        },
        IpAddr::V6(v6) => {
            value.push(FAMILY_IPV6);
            push_u16(&mut value, xor_port);
            let key: [u8; 16] = [
                0x21,
                0x12,
                0xa4,
                0x42,
                transaction_id[0],
                transaction_id[1],
                transaction_id[2],
                transaction_id[3],
                transaction_id[4],
                transaction_id[5],
                transaction_id[6],
                transaction_id[7],
                transaction_id[8],
                transaction_id[9],
                transaction_id[10],
                transaction_id[11],
            ];
            assert(key@ =~= v6_key(transaction_id@));
            let ghost head = value@;
            let mut i: usize = 0;
            while i < 16
                invariant
                    0 <= i <= 16,
                    key@ == v6_key(transaction_id@),
                    octets == v6.octets@,
                    value@ == head + Seq::new(i as nat, |j: int| octets[j] ^ key@[j]),
                decreases 16 - i,
            {
                value.push(v6.octets[i] ^ key[i]);
                assert(value@ =~= head + Seq::new((i + 1) as nat, |j: int| octets[j] ^ key@[j]));
                i = i + 1;
            }
            assert(value@ =~= spec_xor_mapped_value(transaction_id@, reflexive));
        },
    }
    let vlen = value.len() as u16;
    let mut msg: Vec<u8> = Vec::new();
    write_header(&mut msg, BINDING_SUCCESS, 4 + vlen, transaction_id);
    push_u16(&mut msg, ATTR_XOR_MAPPED_ADDRESS);
    push_u16(&mut msg, vlen);
    let ghost before = msg@;
    let mut i: usize = 0;
    while i < value.len()
        invariant
            0 <= i <= value@.len(),
            msg@ == before + value@.subrange(0, i as int),
        decreases value@.len() - i,
    {
        msg.push(value[i]);
        assert(value@.subrange(0, i + 1) =~= value@.subrange(0, i as int).push(value@[i as int]));
        i = i + 1;
    }
    assert(value@.subrange(0, value@.len() as int) =~= value@);
    assert(zeros(pad4(value@.len() as int)) =~= Seq::<u8>::empty());
    assert(msg@ =~= spec_encode_binding_success(transaction_id@, reflexive));
    msg
}

// ---------------------------------------------------------------------------------------------
// Laws.
// ---------------------------------------------------------------------------------------------
/// Two big-endian bytes read back as the value they were written from.
pub(crate) proof fn lemma_u16_bytes(v: u16)
    ensures
        be16(u16_bytes(v), 0) == v as int,
        u16_bytes(v).len() == 2,
{
}

/// XOR with the same key twice is the identity.
proof fn lemma_xor_twice(x: u8, k: u8)
    ensures
        (x ^ k) ^ k == x,
{
    assert((x ^ k) ^ k == x) by (bit_vector);
}

/// XOR with the same 16-bit key twice is the identity.
proof fn lemma_xor_twice_u16(x: u16, k: u16)
    ensures
        (x ^ k) ^ k == x,
{
    assert((x ^ k) ^ k == x) by (bit_vector);
}

/// The fields of a message built as a header followed by `rest`.
pub(crate) proof fn lemma_header_layout(msg_type: u16, attrs_len: u16, txid: Seq<u8>, rest: Seq<u8>)
    requires
        txid.len() == 12,
    ensures
        ({
            let m = header(msg_type, attrs_len, txid) + rest;
            &&& m.len() == 20 + rest.len()
            &&& be16(m, 0) == msg_type
            &&& be16(m, 2) == attrs_len
            &&& be32(m, 4) == MAGIC_COOKIE
            &&& m.subrange(8, 20) == txid
            &&& m.subrange(20, m.len() as int) == rest
        }),
{
    let h = header(msg_type, attrs_len, txid);
    let m = h + rest;
    lemma_u16_bytes(msg_type);
    lemma_u16_bytes(attrs_len);
    assert(h.len() == 20);
    assert(m[0] == h[0] && m[1] == h[1] && m[2] == h[2] && m[3] == h[3]);
    assert(m[4] == 0x21 && m[5] == 0x12 && m[6] == 0xa4 && m[7] == 0x42);
    assert(m.subrange(8, 20) =~= txid);
    assert(m.subrange(20, m.len() as int) =~= rest);
}

/// The twelve bytes at `m[8..20]`, as an array, are the transaction id they hold.
pub(crate) proof fn lemma_arr12_txid(m: Seq<u8>, txid: TransactionId)
    requires
        m.len() >= 20,
        m.subrange(8, 20) == txid@,
    ensures
        arr12(m, 8) == txid,
{
    assert forall|k: int| 0 <= k < 12 implies m[8 + k] == txid@[k] by {
        assert(m.subrange(8, 20)[k] == m[8 + k]);
    }
    assert(arr12(m, 8) =~= txid);
}

/// The fields of one attribute found at `off` in `area`.
pub(crate) proof fn lemma_attr_at(area: Seq<u8>, off: int, t: u16, v: Seq<u8>)
    requires
        0 <= off,
        v.len() <= 0xffff,
        off + attr(t, v).len() <= area.len(),
        area.subrange(off, off + attr(t, v).len()) == attr(t, v),
    ensures
        attr(t, v).len() == 4 + v.len() + pad4(v.len() as int),
        be16(area, off) == t,
        be16(area, off + 2) == v.len(),
        area.subrange(off + 4, off + 4 + v.len()) == v,
{
    let a = attr(t, v);
    lemma_u16_bytes(t);
    lemma_u16_bytes(v.len() as u16);
    let w = area.subrange(off, off + a.len());
    assert(area[off] == w[0] && area[off + 1] == w[1]);
    assert(area[off + 2] == w[2] && area[off + 3] == w[3]);
    assert(a[0] == u16_bytes(t)[0] && a[1] == u16_bytes(t)[1]);
    assert(a[2] == u16_bytes(v.len() as u16)[0] && a[3] == u16_bytes(v.len() as u16)[1]);
    assert forall|k: int| 0 <= k < v.len() implies area.subrange(off + 4, off + 4 + v.len())[k]
        == v[k] by {
        assert(area[off + 4 + k] == w[4 + k]);
        assert(a[4 + k] == v[k]);
    }
    assert(area.subrange(off + 4, off + 4 + v.len()) =~= v);
}

/// A Binding request parses back to the transaction id it was encoded with.
pub proof fn lemma_request_round_trip(txid: TransactionId)
    ensures
        spec_parse_binding_request(spec_encode_binding_request(txid@)) == Ok::<
            TransactionId,
            StunError,
        >(txid),
{
    let m = spec_encode_binding_request(txid@);
    lemma_u16_bytes(BINDING_REQUEST);
    lemma_u16_bytes(0);
    assert(m.len() == 20);
    assert(be16(m, 0) == BINDING_REQUEST);
    assert(be16(m, 2) == 0);
    assert(be32(m, 4) == MAGIC_COOKIE);
    assert(arr12(m, 8) =~= txid);
}

proof fn lemma_success_layout(txid: TransactionId, a: SocketAddr)
    ensures
        ({
            let value = spec_xor_mapped_value(txid@, a);
            let m = spec_encode_binding_success(txid@, a);
            &&& value.len() == 8 || value.len() == 20
            &&& m.len() == 24 + value.len()
            &&& be16(m, 0) == BINDING_SUCCESS
            &&& be16(m, 2) == 4 + value.len()
            &&& be32(m, 4) == MAGIC_COOKIE
            &&& m.subrange(8, 20) == txid@
            &&& be16(m, 20) == ATTR_XOR_MAPPED_ADDRESS
            &&& be16(m, 22) == value.len()
            &&& m.subrange(24, 24 + value.len() as int) == value
        }),
{
    let value = spec_xor_mapped_value(txid@, a);
    let m = spec_encode_binding_success(txid@, a);
    let vlen = value.len();
    lemma_u16_bytes(BINDING_SUCCESS);
    lemma_u16_bytes((4 + vlen) as u16);
    lemma_u16_bytes(ATTR_XOR_MAPPED_ADDRESS);
    lemma_u16_bytes(vlen as u16);
    assert(zeros(pad4(vlen as int)) =~= Seq::<u8>::empty());
    assert(m.subrange(8, 20) =~= txid@);
    assert(m.subrange(24, 24 + vlen as int) =~= value);
}

proof fn lemma_success_value_decodes(txid: TransactionId, a: SocketAddr)
    ensures
        spec_decode_mapped_address(spec_xor_mapped_value(txid@, a), txid@, true) == Ok::<
            SocketAddr,
            StunError,
        >(SocketAddr { ip: spec_fold_ip(a.ip), port: a.port }),
{
    let value = spec_xor_mapped_value(txid@, a);
    let ip = spec_fold_ip(a.ip);
    lemma_u16_bytes(a.port ^ COOKIE_HIGH);
    assert(value.subrange(2, 4) =~= u16_bytes(a.port ^ COOKIE_HIGH));
    assert(be16(value, 2) == (a.port ^ COOKIE_HIGH) as int);
    lemma_xor_twice_u16(a.port, COOKIE_HIGH);
    match ip {
        IpAddr::V4(v4) => {
            let o = v4.octets;
            lemma_xor_twice(o[0], 0x21);
            lemma_xor_twice(o[1], 0x12);
            lemma_xor_twice(o[2], 0xa4);
            lemma_xor_twice(o[3], 0x42);
            let got = [value[4] ^ 0x21u8, value[5] ^ 0x12u8, value[6] ^ 0xa4u8, value[7] ^ 0x42u8];
            assert(got =~= o);
        },
        IpAddr::V6(v6) => {
            let o = v6.octets;
            let key = v6_key(txid@);
            let got = Seq::new(16, |i: int| value[4 + i] ^ key[i]);
            assert forall|i: int| 0 <= i < 16 implies got[i] == o[i] by {
                lemma_xor_twice(o[i], key[i]);
            }
            assert(arr16(got) =~= o);
        },
    }
}

/// Round-trip law of the success codec: parsing what [`encode_binding_success`] produced, with
/// the same transaction id expected, yields the address it was given, its IP folded. For an
/// address whose IP is native IPv4 or native IPv6 (folding leaves it unchanged) that is the
/// address itself.
pub proof fn lemma_success_round_trip(txid: TransactionId, a: SocketAddr)
    ensures
        spec_parse_binding_response(spec_encode_binding_success(txid@, a), Some(txid@)) == Ok::<
            SocketAddr,
            StunError,
        >(SocketAddr { ip: spec_fold_ip(a.ip), port: a.port }),
        spec_fold_ip(a.ip) == a.ip ==> spec_parse_binding_response(
            spec_encode_binding_success(txid@, a),
            Some(txid@),
        ) == Ok::<SocketAddr, StunError>(a),
{
    let value = spec_xor_mapped_value(txid@, a);
    let m = spec_encode_binding_success(txid@, a);
    lemma_success_layout(txid, a);
    lemma_success_value_decodes(txid, a);
    assert(spec_walk_response(m, m.subrange(8, 20), 20, 24 + value.len() as int, None)
        == spec_decode_mapped_address(value, txid@, true));
}

/// Once the walk reaches an XOR-MAPPED-ADDRESS that fits, what it found before no longer counts.
proof fn lemma_walk_stops_at_xor(msg: Seq<u8>, txid: Seq<u8>, off: int, end: int)
    requires
        off + 4 <= end,
        be16(msg, off) == ATTR_XOR_MAPPED_ADDRESS,
        off + 4 + be16(msg, off + 2) <= end,
    ensures
        forall|f: Option<SocketAddr>| #[trigger] spec_walk_response(msg, txid, off, end, f)
            == spec_decode_mapped_address(
            msg.subrange(off + 4, off + 4 + be16(msg, off + 2)),
            txid,
            true,
        ),
{
}

/// The walk steps over an attribute other than XOR-MAPPED-ADDRESS to the next 4-byte boundary,
/// carrying some fallback along.
proof fn lemma_walk_skips(
    msg: Seq<u8>,
    txid: Seq<u8>,
    off: int,
    end: int,
    f: Option<SocketAddr>,
) -> (nf: Option<SocketAddr>)
    requires
        off + 4 <= end,
        be16(msg, off) != ATTR_XOR_MAPPED_ADDRESS,
        off + 4 + be16(msg, off + 2) <= end,
    ensures
        spec_walk_response(msg, txid, off, end, f) == spec_walk_response(
            msg,
            txid,
            off + 4 + be16(msg, off + 2) + (4 - be16(msg, off + 2) % 4) % 4,
            end,
            nf,
        ),
{
    let attr_type = be16(msg, off);
    let attr_len = be16(msg, off + 2);
    let value = msg.subrange(off + 4, off + 4 + attr_len);
    if attr_type == ATTR_MAPPED_ADDRESS && f is None {
        match spec_decode_mapped_address(value, txid, false) {
            Ok(a) => Some(a),
            Err(_) => None,
        }
    } else {
        f
    }
}

/// What the walk carries past an attribute other than XOR-MAPPED-ADDRESS: the first readable
/// MAPPED-ADDRESS, once found, is kept.
proof fn lemma_walk_skips_keeping(
    msg: Seq<u8>,
    txid: Seq<u8>,
    off: int,
    end: int,
    f: Option<SocketAddr>,
)
    requires
        off + 4 <= end,
        be16(msg, off) != ATTR_XOR_MAPPED_ADDRESS,
        off + 4 + be16(msg, off + 2) <= end,
    ensures
        spec_walk_response(msg, txid, off, end, f) == spec_walk_response(
            msg,
            txid,
            off + 4 + be16(msg, off + 2) + (4 - be16(msg, off + 2) % 4) % 4,
            end,
            if be16(msg, off) == ATTR_MAPPED_ADDRESS && f is None {
                match spec_decode_mapped_address(
                    msg.subrange(off + 4, off + 4 + be16(msg, off + 2)),
                    txid,
                    false,
                ) {
                    Ok(a) => Some(a),
                    Err(_) => None,
                }
            } else {
                f
            },
        ),
{
}

/// A success response stays readable when another attribute of any length comes first: the walk
/// steps over that attribute's value and its padding to the next 4-byte boundary, so inserting
/// any attribute other than XOR-MAPPED-ADDRESS (an unknown one, `SOFTWARE`, or a MAPPED-ADDRESS,
/// which the XOR-MAPPED-ADDRESS after it overrides) ahead of what [`encode_binding_success`]
/// produced still parses to the encoded address, its IP folded.
#[verifier::spinoff_prover]
#[verifier::rlimit(40)]
pub proof fn lemma_unknown_attribute_is_skipped(txid: TransactionId, a: SocketAddr, t: u16, v: Seq<u8>)
    requires
        t != ATTR_XOR_MAPPED_ADDRESS,
        v.len() + 31 <= 0xffff,
    ensures
        ({
            let m = spec_encode_binding_success(txid@, a);
            let body = m.subrange(20, m.len() as int);
            let extra = u16_bytes(t) + u16_bytes(v.len() as u16) + v + Seq::new(
                ((4 - v.len() % 4) % 4) as nat,
                |i: int| 0u8,
            );
            let m2 = header(BINDING_SUCCESS, (extra.len() + body.len()) as u16, txid@) + extra
                + body;
            &&& spec_parse_binding_response(m2, Some(txid@)) == Ok::<SocketAddr, StunError>(
                SocketAddr { ip: spec_fold_ip(a.ip), port: a.port },
            )
            &&& spec_parse_binding_response(m2, None) == Ok::<SocketAddr, StunError>(
                SocketAddr { ip: spec_fold_ip(a.ip), port: a.port },
            )
        }),
{
    let m = spec_encode_binding_success(txid@, a);
    let value = spec_xor_mapped_value(txid@, a);
    lemma_success_layout(txid, a);
    lemma_success_value_decodes(txid, a);
    let body = m.subrange(20, m.len() as int);
    let extra = u16_bytes(t) + u16_bytes(v.len() as u16) + v + Seq::new(
        ((4 - v.len() % 4) % 4) as nat,
        |i: int| 0u8,
    );
    assert(extra =~= attr(t, v));
    let e = extra.len() as int;
    let b = body.len() as int;
    let rest = extra + body;
    let m2 = header(BINDING_SUCCESS, (e + b) as u16, txid@) + rest;
    assert(m2 == header(BINDING_SUCCESS, (extra.len() + body.len()) as u16, txid@) + extra + body);
    lemma_header_layout(BINDING_SUCCESS, (e + b) as u16, txid@, rest);
    let end = 20 + e + b;
    assert(m2.len() == end);
    assert(m2.subrange(20, 20 + e) =~= attr(t, v));
    lemma_attr_at(m2, 20, t, v);
    // The success payload, shifted by the inserted attribute.
    assert forall|k: int| 0 <= k < b implies m2[20 + e + k] == #[trigger] m[20 + k] by {
        assert(m2[20 + e + k] == rest[e + k]);
    }
    let vl = value.len() as int;
    assert(be16(m2, 20 + e) == be16(m, 20)) by {
        assert(m2[20 + e] == m[20]);
        assert(m2[20 + e + 1] == m[21]);
    }
    assert(be16(m2, 20 + e + 2) == be16(m, 22)) by {
        assert(m2[20 + e + 2] == m[22]);
        assert(m2[20 + e + 3] == m[23]);
    }
    assert(m2.subrange(24 + e, 24 + e + vl) =~= m.subrange(24, 24 + vl)) by {
        assert forall|k: int| 0 <= k < vl implies #[trigger] m2.subrange(24 + e, 24 + e + vl)[k]
            == m.subrange(24, 24 + vl)[k] by {
            assert(m2[24 + e + k] == m[24 + k]);
        }
    }
    let tx = m2.subrange(8, 20);
    assert(tx == txid@);
    let want = Ok::<SocketAddr, StunError>(SocketAddr { ip: spec_fold_ip(a.ip), port: a.port });
    lemma_walk_stops_at_xor(m2, tx, 20 + e, end);
    assert(be16(m2, 20) == t && be16(m2, 22) == v.len());
    let nf = lemma_walk_skips(m2, tx, 20, end, None);
    assert(spec_walk_response(m2, tx, 20 + e, end, nf) == want);
}

/// The legacy fallback is the FIRST MAPPED-ADDRESS: a success response whose first attribute is
/// a readable MAPPED-ADDRESS, followed by any attribute other than XOR-MAPPED-ADDRESS (a second
/// MAPPED-ADDRESS included), parses to the address the first one carries.
pub proof fn lemma_first_mapped_address_is_the_fallback(
    txid: TransactionId,
    v1: Seq<u8>,
    t2: u16,
    v2: Seq<u8>,
)
    requires
        t2 != ATTR_XOR_MAPPED_ADDRESS,
        v1.len() <= 0x100,
        v2.len() <= 0x100,
        spec_decode_mapped_address(v1, txid@, false) is Ok,
    ensures
        ({
            let body = attr(ATTR_MAPPED_ADDRESS, v1) + attr(t2, v2);
            let m = header(BINDING_SUCCESS, body.len() as u16, txid@) + body;
            spec_parse_binding_response(m, Some(txid@)) == spec_decode_mapped_address(
                v1,
                txid@,
                false,
            )
        }),
{
    let a1 = attr(ATTR_MAPPED_ADDRESS, v1);
    let a2 = attr(t2, v2);
    let body = a1 + a2;
    let m = header(BINDING_SUCCESS, body.len() as u16, txid@) + body;
    lemma_header_layout(BINDING_SUCCESS, body.len() as u16, txid@, body);
    let l1 = a1.len() as int;
    let l2 = a2.len() as int;
    assert(m.subrange(20, 20 + l1) =~= a1);
    lemma_attr_at(m, 20, ATTR_MAPPED_ADDRESS, v1);
    assert(m.subrange(20 + l1, 20 + l1 + l2) =~= a2);
    lemma_attr_at(m, 20 + l1, t2, v2);
    let end = 20 + l1 + l2;
    assert(be16(m, 2) == body.len());
    let tx = m.subrange(8, 20);
    assert(tx == txid@);
    let first = spec_decode_mapped_address(v1, txid@, false);
    let nf1 = Some(first->Ok_0);
    lemma_walk_skips_keeping(m, tx, 20, end, None);
    lemma_walk_skips_keeping(m, tx, 20 + l1, end, nf1);
}

} // verus!
