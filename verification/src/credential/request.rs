//! The request shape, both directions: how a server classifies an incoming Binding request's DIG
//! attributes, and how a client encodes its identity and signed asks.
use vstd::prelude::*;

use crate::codec::{
    arr12, attr, be16, header, lemma_arr12_txid, lemma_attr_at, lemma_header_layout, pad4, parse_binding_request,
    read_u16, spec_parse_binding_request, write_header, zeros, StunError, TransactionId,
    BINDING_REQUEST,
};
use crate::credential::signature::{signing_message, StunSigner};
use crate::credential::wire::{
    is_valid_signature_der_len, is_valid_spki_der, spec_valid_signature_len, spec_valid_spki,
    write_attr, CredentialError, ATTR_DIG_IDENTITY, ATTR_DIG_SIGNATURE, ATTR_NONCE,
    CREDENTIAL_VERSION, P256_SPKI_LEN,
};

verus! {

/// A classified incoming Binding request. Every variant borrows from the datagram it was
/// classified from.
#[derive(Debug, Clone, Copy, PartialEq, Eq)]
pub enum RequestKind<'a> {
    /// No DIG attribute at all: an ordinary Binding request.
    Bare,
    /// A `DIG-IDENTITY` alone: the first datagram of the client's exchange.
    Identity {
        /// The 91-byte SPKI DER, version byte removed, already shape-checked.
        spki: &'a [u8],
    },
    /// `DIG-IDENTITY`, `NONCE` and `DIG-SIGNATURE`, the signature last.
    Signed {
        /// The 91-byte SPKI DER, version byte removed, already shape-checked.
        spki: &'a [u8],
        /// The `NONCE` value exactly as carried (base64url text).
        nonce: &'a [u8],
        /// The DER ECDSA signature, version byte removed, already length-checked.
        signature: &'a [u8],
    },
}

/// What a [`RequestKind`] holds, as byte sequences.
pub enum RequestShape {
    Bare,
    Identity { spki: Seq<u8> },
    Signed { spki: Seq<u8>, nonce: Seq<u8>, signature: Seq<u8> },
}

impl<'a> View for RequestKind<'a> {
    type V = RequestShape;

    open spec fn view(&self) -> RequestShape {
        match *self {
            RequestKind::Bare => RequestShape::Bare,
            RequestKind::Identity { spki } => RequestShape::Identity { spki: spki@ },
            RequestKind::Signed { spki, nonce, signature } => RequestShape::Signed {
                spki: spki@,
                nonce: nonce@,
                signature: signature@,
            },
        }
    }
}

/// The shape the DIG attributes seen so far add up to, once the walk is over: none, an identity
/// alone, or all three; anything else is malformed.
pub open spec fn spec_request_shape(
    identity: Option<Seq<u8>>,
    nonce: Option<Seq<u8>>,
    signature: Option<Seq<u8>>,
) -> Result<RequestShape, CredentialError> {
    match (identity, nonce, signature) {
        (None, None, None) => Ok(RequestShape::Bare),
        (Some(spki), None, None) => Ok(RequestShape::Identity { spki }),
        (Some(spki), Some(nonce), Some(signature)) => Ok(
            RequestShape::Signed { spki, nonce, signature },
        ),
        _ => Err(CredentialError::Malformed),
    }
}

/// The walk over a request's attribute area from `off`, carrying what has been seen. Unknown
/// attributes are ignored; any attribute after `DIG-SIGNATURE`, a duplicated DIG attribute, a
/// value overrunning the area, or a `DIG-IDENTITY` / `DIG-SIGNATURE` of the wrong shape is
/// malformed.
pub open spec fn spec_classify_attrs(
    area: Seq<u8>,
    off: int,
    identity: Option<Seq<u8>>,
    nonce: Option<Seq<u8>>,
    signature: Option<Seq<u8>>,
) -> Result<RequestShape, CredentialError>
    decreases area.len() + 4 - off,
{
    if off + 4 > area.len() {
        spec_request_shape(identity, nonce, signature)
    } else if signature is Some {
        Err(CredentialError::Malformed)
    } else {
        let attr_type = be16(area, off);
        let attr_len = be16(area, off + 2);
        let val_end = off + 4 + attr_len;
        if val_end > area.len() {
            Err(CredentialError::Malformed)
        } else {
            let value = area.subrange(off + 4, val_end);
            let next = val_end + pad4(attr_len);
            if attr_type == ATTR_DIG_IDENTITY {
                if identity is Some || value.len() != 1 + P256_SPKI_LEN || value[0]
                    != CREDENTIAL_VERSION || !spec_valid_spki(value.subrange(1, value.len() as int)) {
                    Err(CredentialError::Malformed)
                } else {
                    spec_classify_attrs(
                        area,
                        next,
                        Some(value.subrange(1, value.len() as int)),
                        nonce,
                        signature,
                    )
                }
            } else if attr_type == ATTR_NONCE {
                if nonce is Some {
                    Err(CredentialError::Malformed)
                } else {
                    spec_classify_attrs(area, next, identity, Some(value), signature)
                }
            } else if attr_type == ATTR_DIG_SIGNATURE {
                if value.len() == 0 || value[0] != CREDENTIAL_VERSION || !spec_valid_signature_len(
                    value.subrange(1, value.len() as int),
                ) {
                    Err(CredentialError::Malformed)
                } else {
                    spec_classify_attrs(
                        area,
                        next,
                        identity,
                        nonce,
                        Some(value.subrange(1, value.len() as int)),
                    )
                }
            } else {
                spec_classify_attrs(area, next, identity, nonce, signature)
            }
        }
    }
}

/// The classification of a datagram: the ordinary Binding-request checks first (their error
/// wrapped), then the attribute walk over the declared attribute area.
pub open spec fn spec_classify_request(d: Seq<u8>) -> Result<
    (TransactionId, RequestShape),
    CredentialError,
> {
    match spec_parse_binding_request(d) {
        Err(e) => Err(CredentialError::Stun(e)),
        Ok(txid) => match spec_classify_attrs(
            d.subrange(20, 20 + be16(d, 2)),
            0,
            None,
            None,
            None,
        ) {
            Ok(shape) => Ok((txid, shape)),
            Err(e) => Err(e),
        },
    }
}

/// Whether an exec classification result is the spec one.
pub open spec fn classified_as(
    r: Result<(TransactionId, RequestKind), CredentialError>,
    want: Result<(TransactionId, RequestShape), CredentialError>,
) -> bool {
    match (r, want) {
        (Ok((t, k)), Ok((wt, ws))) => t == wt && k@ == ws,
        (Err(e), Err(we)) => e == we,
        _ => false,
    }
}

/// The bytes of an identity request: the header and one `DIG-IDENTITY` attribute.
pub open spec fn spec_encode_identity_request(txid: Seq<u8>, spki: Seq<u8>) -> Seq<u8> {
    let attrs = attr(ATTR_DIG_IDENTITY, seq![CREDENTIAL_VERSION] + spki);
    header(BINDING_REQUEST, attrs.len() as u16, txid) + attrs
}

/// The bytes of a signed request: the header, then `DIG-IDENTITY`, `NONCE`, `DIG-SIGNATURE`.
pub open spec fn spec_encode_signed_request(
    txid: Seq<u8>,
    nonce: Seq<u8>,
    spki: Seq<u8>,
    signature: Seq<u8>,
) -> Seq<u8> {
    let attrs = attr(ATTR_DIG_IDENTITY, seq![CREDENTIAL_VERSION] + spki) + attr(ATTR_NONCE, nonce)
        + attr(ATTR_DIG_SIGNATURE, seq![CREDENTIAL_VERSION] + signature);
    header(BINDING_REQUEST, attrs.len() as u16, txid) + attrs
}

fn classify_attrs<'a>(area: &'a [u8]) -> (r: Result<RequestKind<'a>, CredentialError>)
    ensures
        match (r, spec_classify_attrs(area@, 0, None, None, None)) {
            (Ok(k), Ok(s)) => k@ == s,
            (Err(e), Err(se)) => e == se,
            _ => false,
        },
{
    let mut identity: Option<&'a [u8]> = None;
    let mut nonce: Option<&'a [u8]> = None;
    let mut signature: Option<&'a [u8]> = None;
    let ghost want = spec_classify_attrs(area@, 0, None, None, None);
    let n = area.len();
    let mut off: usize = 0;
    while n >= 4 && off <= n - 4
        invariant
            n == area@.len(),
            off <= n,
            want == spec_classify_attrs(area@, 0, None, None, None),
            want == spec_classify_attrs(
                area@,
                off as int,
                match identity {
                    Some(s) => Some(s@),
                    None => None,
                },
                match nonce {
                    Some(s) => Some(s@),
                    None => None,
                },
                match signature {
                    Some(s) => Some(s@),
                    None => None,
                },
            ),
        decreases area@.len() + 4 - off,
    {
        if signature.is_some() {
            return Err(CredentialError::Malformed);
        }
        let attr_type = read_u16(area, off);
        let attr_len = read_u16(area, off + 2) as usize;
        let val_start = off + 4;
        if attr_len > n - val_start {
            return Err(CredentialError::Malformed);
        }
        let val_end = val_start + attr_len;
        let ghost value = area@.subrange(val_start as int, val_end as int);
        if attr_type == ATTR_DIG_IDENTITY {
            if identity.is_some() || attr_len != 1 + P256_SPKI_LEN || area[val_start]
                != CREDENTIAL_VERSION {
                return Err(CredentialError::Malformed);
            }
            let spki = &area[val_start + 1..val_end];
            assert(spki@ =~= value.subrange(1, value.len() as int));
            if !is_valid_spki_der(spki) {
                return Err(CredentialError::Malformed);
            }
            identity = Some(spki);
        } else if attr_type == ATTR_NONCE {
            if nonce.is_some() {
                return Err(CredentialError::Malformed);
            }
            let n = &area[val_start..val_end];
            nonce = Some(n);
        } else if attr_type == ATTR_DIG_SIGNATURE {
            if attr_len == 0 || area[val_start] != CREDENTIAL_VERSION {
                return Err(CredentialError::Malformed);
            }
            let sig = &area[val_start + 1..val_end];
            assert(sig@ =~= value.subrange(1, value.len() as int));
            if !is_valid_signature_der_len(sig) {
                return Err(CredentialError::Malformed);
            }
            signature = Some(sig);
        }
        let pad = (4 - (attr_len % 4)) % 4;
        if pad > n - val_end {
            proof {
                let next = val_end + pad;
                let i = match identity {
                    Some(s) => Some(s@),
                    None => None,
                };
                let o = match nonce {
                    Some(s) => Some(s@),
                    None => None,
                };
                let g = match signature {
                    Some(s) => Some(s@),
                    None => None,
                };
                assert(spec_classify_attrs(area@, next as int, i, o, g) == spec_request_shape(i, o, g));
                assert(spec_classify_attrs(area@, n as int, i, o, g) == spec_request_shape(i, o, g));
            }
            off = n;
        } else {
            off = val_end + pad;
        }
    }
    match (identity, nonce, signature) {
        (None, None, None) => Ok(RequestKind::Bare),
        (Some(spki), None, None) => Ok(RequestKind::Identity { spki }),
        (Some(spki), Some(nonce), Some(signature)) => Ok(
            RequestKind::Signed { spki, nonce, signature },
        ),
        _ => Err(CredentialError::Malformed),
    }
}

/// Classify an incoming Binding request's DIG attributes.
///
/// The ordinary Binding-request checks come first ([`parse_binding_request`]); a datagram they
/// refuse is refused here with the same [`StunError`], wrapped in [`CredentialError::Stun`].
/// Then one walk over the attribute area: an unknown attribute is ignored; a `DIG-IDENTITY` or
/// `DIG-SIGNATURE` of the wrong shape, a duplicated DIG attribute, any attribute after
/// `DIG-SIGNATURE`, or any combination other than the three [`RequestKind`]s is
/// [`CredentialError::Malformed`]. Nothing is allocated and nothing verified.
pub fn classify_request(datagram: &[u8]) -> (r: Result<(TransactionId, RequestKind<'_>), CredentialError>)
    ensures
        classified_as(r, spec_classify_request(datagram@)),
{
    let txid = match parse_binding_request(datagram) {
        Ok(t) => t,
        Err(e) => {
            return Err(CredentialError::Stun(e));
        },
    };
    let msg_len = read_u16(datagram, 2) as usize;
    let area = &datagram[20..20 + msg_len];
    match classify_attrs(area) {
        Ok(kind) => Ok((txid, kind)),
        Err(e) => Err(e),
    }
}

/// Encode an identity request: the 20-byte header and one 96-byte `DIG-IDENTITY` attribute, 116
/// bytes. `spki_der` is exactly the 91 bytes a [`StunSigner`] returns.
pub fn encode_identity_request(txid: &TransactionId, spki_der: &[u8]) -> (msg: Vec<u8>)
    requires
        spec_valid_spki(spki_der@),
    ensures
        msg@ == spec_encode_identity_request(txid@, spki_der@),
        msg@.len() == 116,
{
    let mut identity_value: Vec<u8> = Vec::new();
    identity_value.push(CREDENTIAL_VERSION);
    crate::credential::wire::push_bytes(&mut identity_value, spki_der);
    let mut attrs: Vec<u8> = Vec::new();
    write_attr(&mut attrs, ATTR_DIG_IDENTITY, identity_value.as_slice());
    assert(identity_value@ =~= seq![CREDENTIAL_VERSION] + spki_der@);
    let mut msg: Vec<u8> = Vec::new();
    write_header(&mut msg, BINDING_REQUEST, attrs.len() as u16, txid);
    crate::credential::wire::push_bytes(&mut msg, attrs.as_slice());
    msg
}

/// Encode a signed request from its parts: `DIG-IDENTITY` carrying `spki_der`, `NONCE` carrying
/// `nonce_attr_value` exactly as received, and `DIG-SIGNATURE` carrying `signature_der`, in that
/// order, after the header. At most 228 bytes for a well-formed credential.
pub fn encode_signed_request_parts(
    txid: &TransactionId,
    nonce_attr_value: &[u8],
    spki_der: &[u8],
    signature_der: &[u8],
) -> (msg: Vec<u8>)
    ensures
        msg@ == spec_encode_signed_request(txid@, nonce_attr_value@, spki_der@, signature_der@),
{
    let mut identity_value: Vec<u8> = Vec::new();
    identity_value.push(CREDENTIAL_VERSION);
    crate::credential::wire::push_bytes(&mut identity_value, spki_der);
    assert(identity_value@ =~= seq![CREDENTIAL_VERSION] + spki_der@);
    let mut signature_value: Vec<u8> = Vec::new();
    signature_value.push(CREDENTIAL_VERSION);
    crate::credential::wire::push_bytes(&mut signature_value, signature_der);
    assert(signature_value@ =~= seq![CREDENTIAL_VERSION] + signature_der@);
    let mut attrs: Vec<u8> = Vec::new();
    write_attr(&mut attrs, ATTR_DIG_IDENTITY, identity_value.as_slice());
    write_attr(&mut attrs, ATTR_NONCE, nonce_attr_value);
    write_attr(&mut attrs, ATTR_DIG_SIGNATURE, signature_value.as_slice());
    let mut msg: Vec<u8> = Vec::new();
    #[verifier::truncate]
    let attrs_len = attrs.len() as u16;
    write_header(&mut msg, BINDING_REQUEST, attrs_len, txid);
    crate::credential::wire::push_bytes(&mut msg, attrs.as_slice());
    assert(msg@ =~= spec_encode_signed_request(
        txid@,
        nonce_attr_value@,
        spki_der@,
        signature_der@,
    ));
    msg
}

/// Encode a fully signed request: `signer` supplies the SPKI and signs
/// [`signing_message`]`(txid, nonce_attr_value, spki)`; `nonce_attr_value` is echoed exactly as
/// received in a challenge. What the signer returns is its own affair: the request carries the
/// SPKI and signature it returned, nothing else.
pub fn encode_signed_request(
    txid: &TransactionId,
    nonce_attr_value: &[u8],
    signer: &dyn StunSigner,
) -> (msg: Vec<u8>)
    ensures
        exists|spki: Seq<u8>, signature: Seq<u8>|
            msg@ == spec_encode_signed_request(txid@, nonce_attr_value@, spki, signature),
{
    let spki = signer.spki_der();
    let message = signing_message(txid, nonce_attr_value, spki);
    let sig_der = signer.sign(message.as_slice());
    encode_signed_request_parts(txid, nonce_attr_value, spki, sig_der.as_slice())
}

/// The header of a request built from `txid` and `attrs` passes the Binding-request checks and
/// yields `txid`; its attribute area is `attrs`.
proof fn lemma_request_header(txid: TransactionId, attrs: Seq<u8>)
    requires
        attrs.len() <= 0xffff,
    ensures
        ({
            let m = header(BINDING_REQUEST, attrs.len() as u16, txid@) + attrs;
            &&& spec_parse_binding_request(m) == Ok::<TransactionId, StunError>(txid)
            &&& m.subrange(20, 20 + be16(m, 2)) == attrs
        }),
{
    let m = header(BINDING_REQUEST, attrs.len() as u16, txid@) + attrs;
    lemma_header_layout(BINDING_REQUEST, attrs.len() as u16, txid@, attrs);
    lemma_arr12_txid(m, txid);
}

/// Where the one attribute of an identity request sits in its attribute area.
proof fn lemma_identity_area_layout(spki: Seq<u8>)
    requires
        spec_valid_spki(spki),
    ensures
        ({
            let area = attr(ATTR_DIG_IDENTITY, seq![CREDENTIAL_VERSION] + spki);
            &&& area.len() == 96
            &&& be16(area, 0) == ATTR_DIG_IDENTITY
            &&& be16(area, 2) == 92
            &&& area.subrange(4, 96) == seq![CREDENTIAL_VERSION] + spki
        }),
{
    let v = seq![CREDENTIAL_VERSION] + spki;
    let a = attr(ATTR_DIG_IDENTITY, v);
    assert(zeros(pad4(v.len() as int)) =~= Seq::<u8>::empty());
    assert(a.len() == 96);
    assert(a.subrange(0, 96) =~= a);
    lemma_attr_at(a, 0, ATTR_DIG_IDENTITY, v);
}

/// The walk over an identity request's area: its one `DIG-IDENTITY` ends the area and gives
/// the identity shape.
proof fn lemma_walk_identity_alone(area: Seq<u8>, spki: Seq<u8>)
    requires
        spec_valid_spki(spki),
        area.len() == 96,
        be16(area, 0) == ATTR_DIG_IDENTITY,
        be16(area, 2) == 92,
        area.subrange(4, 96) == seq![CREDENTIAL_VERSION] + spki,
    ensures
        spec_classify_attrs(area, 0, None, None, None) == Ok::<RequestShape, CredentialError>(
            RequestShape::Identity { spki },
        ),
{
    let want = Ok::<RequestShape, CredentialError>(RequestShape::Identity { spki });
    assert(spec_classify_attrs(area, 96, Some(spki), None, None) == want);
    let value = area.subrange(4, 96);
    assert(value.subrange(1, 92) =~= spki);
    assert(value[0] == CREDENTIAL_VERSION);
}

/// What a client encodes as its identity request, a server classifies as that identity, under
/// the same transaction id.
pub proof fn lemma_identity_request_classifies(txid: TransactionId, spki: Seq<u8>)
    requires
        spec_valid_spki(spki),
    ensures
        spec_classify_request(spec_encode_identity_request(txid@, spki)) == Ok::<
            (TransactionId, RequestShape),
            CredentialError,
        >((txid, RequestShape::Identity { spki })),
{
    let area = attr(ATTR_DIG_IDENTITY, seq![CREDENTIAL_VERSION] + spki);
    lemma_identity_area_layout(spki);
    lemma_request_header(txid, area);
    lemma_walk_identity_alone(area, spki);
}

/// The last step of the walk over a signed request: a well-formed `DIG-SIGNATURE` ending the
/// area completes the shape.
proof fn lemma_walk_signature(
    area: Seq<u8>,
    off: int,
    spki: Seq<u8>,
    nonce: Seq<u8>,
    signature: Seq<u8>,
)
    requires
        0 <= off,
        spec_valid_signature_len(signature),
        area.len() == off + 4 + (1 + signature.len()) + pad4(1 + signature.len() as int),
        be16(area, off) == ATTR_DIG_SIGNATURE,
        be16(area, off + 2) == 1 + signature.len(),
        area.subrange(off + 4, off + 5 + signature.len()) == seq![CREDENTIAL_VERSION] + signature,
    ensures
        spec_classify_attrs(area, off, Some(spki), Some(nonce), None) == Ok::<
            RequestShape,
            CredentialError,
        >(RequestShape::Signed { spki, nonce, signature }),
{
    let value = area.subrange(off + 4, off + 5 + signature.len());
    assert(value.subrange(1, value.len() as int) =~= signature);
    assert(value[0] == CREDENTIAL_VERSION);
    let next = off + 5 + signature.len() + pad4(1 + signature.len() as int);
    assert(spec_classify_attrs(area, next, Some(spki), Some(nonce), Some(signature)) == Ok::<
        RequestShape,
        CredentialError,
    >(RequestShape::Signed { spki, nonce, signature }));
}

/// The middle step of the walk over a signed request: a `NONCE` after the identity is taken as
/// carried.
proof fn lemma_walk_nonce(
    area: Seq<u8>,
    off: int,
    spki: Seq<u8>,
    nonce: Seq<u8>,
    want: Result<RequestShape, CredentialError>,
)
    requires
        0 <= off,
        off + 4 + nonce.len() + pad4(nonce.len() as int) + 4 <= area.len(),
        be16(area, off) == ATTR_NONCE,
        be16(area, off + 2) == nonce.len(),
        area.subrange(off + 4, off + 4 + nonce.len()) == nonce,
        spec_classify_attrs(
            area,
            off + 4 + nonce.len() + pad4(nonce.len() as int),
            Some(spki),
            Some(nonce),
            None,
        ) == want,
    ensures
        spec_classify_attrs(area, off, Some(spki), None, None) == want,
{
}

/// The first step of the walk over a signed request: the identity attribute at the start.
proof fn lemma_walk_identity(area: Seq<u8>, spki: Seq<u8>, want: Result<RequestShape, CredentialError>)
    requires
        spec_valid_spki(spki),
        96 + 4 <= area.len(),
        be16(area, 0) == ATTR_DIG_IDENTITY,
        be16(area, 2) == 92,
        area.subrange(4, 96) == seq![CREDENTIAL_VERSION] + spki,
        spec_classify_attrs(area, 96, Some(spki), None, None) == want,
    ensures
        spec_classify_attrs(area, 0, None, None, None) == want,
{
    let value = area.subrange(4, 96);
    assert(value.subrange(1, 92) =~= spki);
    assert(value[0] == CREDENTIAL_VERSION);
}

/// Where the three attributes of a signed request sit in its attribute area.
proof fn lemma_signed_area_layout(nonce: Seq<u8>, spki: Seq<u8>, signature: Seq<u8>)
    requires
        spec_valid_spki(spki),
        spec_valid_signature_len(signature),
        96 + 4 + nonce.len() + pad4(nonce.len() as int) + 4 + 1 + signature.len() + pad4(
            1 + signature.len() as int,
        ) <= 0xffff,
    ensures
        ({
            let area = attr(ATTR_DIG_IDENTITY, seq![CREDENTIAL_VERSION] + spki) + attr(
                ATTR_NONCE,
                nonce,
            ) + attr(ATTR_DIG_SIGNATURE, seq![CREDENTIAL_VERSION] + signature);
            let off2 = 100 + nonce.len() + pad4(nonce.len() as int);
            &&& area.len() == off2 + 4 + (1 + signature.len()) + pad4(1 + signature.len() as int)
            &&& area.len() <= 0xffff
            &&& be16(area, 0) == ATTR_DIG_IDENTITY
            &&& be16(area, 2) == 92
            &&& area.subrange(4, 96) == seq![CREDENTIAL_VERSION] + spki
            &&& be16(area, 96) == ATTR_NONCE
            &&& be16(area, 98) == nonce.len()
            &&& area.subrange(100, 100 + nonce.len() as int) == nonce
            &&& be16(area, off2) == ATTR_DIG_SIGNATURE
            &&& be16(area, off2 + 2) == 1 + signature.len()
            &&& area.subrange(off2 + 4, off2 + 5 + signature.len()) == seq![CREDENTIAL_VERSION]
                + signature
        }),
{
    let v1 = seq![CREDENTIAL_VERSION] + spki;
    let v3 = seq![CREDENTIAL_VERSION] + signature;
    let a1 = attr(ATTR_DIG_IDENTITY, v1);
    let a2 = attr(ATTR_NONCE, nonce);
    let a3 = attr(ATTR_DIG_SIGNATURE, v3);
    let area = a1 + a2 + a3;
    assert(zeros(pad4(v1.len() as int)) =~= Seq::<u8>::empty());
    assert(a1.len() == 96);
    assert(a2.len() == 4 + nonce.len() + pad4(nonce.len() as int));
    assert(a3.len() == 4 + v3.len() + pad4(v3.len() as int));
    let off2: int = 96 + a2.len() as int;
    let off3: int = off2 + a3.len() as int;
    assert(area.subrange(0, 96) =~= a1);
    assert(area.subrange(96, off2) =~= a2);
    assert(area.subrange(off2, off3) =~= a3);
    lemma_attr_at(area, 0, ATTR_DIG_IDENTITY, v1);
    lemma_attr_at(area, 96, ATTR_NONCE, nonce);
    lemma_attr_at(area, off2, ATTR_DIG_SIGNATURE, v3);
}

/// What a client encodes as its signed request, a server classifies as that identity, nonce and
/// signature, under the same transaction id, whenever the attributes fit the 16-bit length.
pub proof fn lemma_signed_request_classifies(
    txid: TransactionId,
    nonce: Seq<u8>,
    spki: Seq<u8>,
    signature: Seq<u8>,
)
    requires
        spec_valid_spki(spki),
        spec_valid_signature_len(signature),
        96 + 4 + nonce.len() + pad4(nonce.len() as int) + 4 + 1 + signature.len() + pad4(
            1 + signature.len() as int,
        ) <= 0xffff,
    ensures
        spec_classify_request(spec_encode_signed_request(txid@, nonce, spki, signature)) == Ok::<
            (TransactionId, RequestShape),
            CredentialError,
        >((txid, RequestShape::Signed { spki, nonce, signature })),
{
    let area = attr(ATTR_DIG_IDENTITY, seq![CREDENTIAL_VERSION] + spki) + attr(ATTR_NONCE, nonce)
        + attr(ATTR_DIG_SIGNATURE, seq![CREDENTIAL_VERSION] + signature);
    lemma_signed_area_layout(nonce, spki, signature);
    lemma_request_header(txid, area);
    let off2 = 100 + nonce.len() + pad4(nonce.len() as int);
    let want = Ok::<RequestShape, CredentialError>(RequestShape::Signed { spki, nonce, signature });
    lemma_walk_signature(area, off2, spki, nonce, signature);
    lemma_walk_nonce(area, 96, spki, nonce, want);
    lemma_walk_identity(area, spki, want);
}
} // verus!
