//! The stateless, source-bound, time-bucketed nonce: how a server proves that a signed Binding
//! answers ITS challenge, from the SAME source it challenged, within the last one to two
//! minutes, without keeping any per-client state.
use vstd::prelude::*;

use crate::addr::{fold_ip, spec_fold_ip, IpAddr, SocketAddr};
use crate::codec::{be32, push_u16, read_u32, u16_bytes};
use crate::credential::wire::{
    base64url_decode, lemma_b64_round_trip, push_bytes, spec_b64_decode, spec_b64_encode,
};
use crate::crypto::{hmac_sha256, hmac_sha256_tag, system_random_fill};

verus! {

/// Raw nonce length: a 4-byte bucket and a 16-byte tag. The `NONCE` attribute carries its
/// base64url text without padding, 27 characters.
pub const NONCE_LEN: usize = 20;

/// Width of one nonce time bucket, in seconds. A nonce is valid in the bucket it was issued in
/// and the next, so for 60 to 120 seconds.
pub const NONCE_BUCKET_SECS: u64 = 60;

/// The domain-separated prefix of the tag's HMAC input, `dig:stun:nonce:v1`.
pub const NONCE_DOMAIN_TAG: [u8; 17] = [
    0x64,
    0x69,
    0x67,
    0x3a,
    0x73,
    0x74,
    0x75,
    0x6e,
    0x3a,
    0x6e,
    0x6f,
    0x6e,
    0x63,
    0x65,
    0x3a,
    0x76,
    0x31,
];

/// The result of checking a `NONCE` attribute against the issuer that claims to have minted it.
#[derive(Debug, Clone, Copy, PartialEq, Eq, Structural)]
pub enum NonceCheck {
    /// The tag matches the nonce's own bucket and this source, and that bucket is the current
    /// one or the one before.
    Fresh,
    /// The tag matches, but the bucket is older than that.
    Stale,
    /// The tag does not match (other secret, other source, forged, corrupt), or the value does
    /// not even decode to [`NONCE_LEN`] bytes. Checked before the bucket's age, so a forged nonce
    /// is never reported as merely stale.
    Invalid,
}

/// Issues and checks nonces for one server process. Holds nothing per client: every `issue` and
/// `check` is a function of the secret, the source address and the clock.
pub struct NonceIssuer {
    secret: [u8; 32],
}

impl View for NonceIssuer {
    type V = Seq<u8>;

    /// The issuer's 32-byte secret.
    closed spec fn view(&self) -> Seq<u8> {
        self.secret@
    }
}

/// The time bucket of `now_unix_secs`.
pub open spec fn spec_bucket(now_unix_secs: u64) -> u32 {
    (now_unix_secs / NONCE_BUCKET_SECS) as u32
}

/// The bucket before `b`, wrapping at zero.
pub open spec fn prev_bucket(b: u32) -> u32 {
    if b == 0 {
        u32::MAX
    } else {
        (b - 1) as u32
    }
}

/// The four big-endian bytes of `v`.
pub open spec fn u32_be(v: u32) -> Seq<u8> {
    seq![
        (v / 0x100_0000) as u8,
        ((v / 0x1_0000) % 0x100) as u8,
        ((v / 0x100) % 0x100) as u8,
        (v % 0x100) as u8,
    ]
}

/// The source as the tag binds it: folded first (so `::ffff:a.b.c.d` and `a.b.c.d` are one
/// source), then `0x01` and 4 address bytes or `0x02` and 16, then the port.
pub open spec fn source_bytes(source: SocketAddr) -> Seq<u8> {
    let ip = match spec_fold_ip(source.ip) {
        IpAddr::V4(v4) => seq![0x01u8] + v4.octets@,
        IpAddr::V6(v6) => seq![0x02u8] + v6.octets@,
    };
    ip + u16_bytes(source.port)
}

/// The HMAC input for a bucket and a source.
pub open spec fn nonce_message(bucket: u32, source: SocketAddr) -> Seq<u8> {
    NONCE_DOMAIN_TAG@ + u32_be(bucket) + source_bytes(source)
}

/// `HMAC-SHA256(secret, nonce_message(bucket, source))[..16]`.
pub open spec fn nonce_tag(secret: Seq<u8>, bucket: u32, source: SocketAddr) -> Seq<u8> {
    hmac_sha256_tag(secret, nonce_message(bucket, source)).subrange(0, 16)
}

/// The raw nonce issued for `source` at `now_unix_secs`: the bucket, then the tag.
pub open spec fn spec_issue(secret: Seq<u8>, source: SocketAddr, now_unix_secs: u64) -> Seq<u8> {
    u32_be(spec_bucket(now_unix_secs)) + nonce_tag(secret, spec_bucket(now_unix_secs), source)
}

/// The verdict on a `NONCE` attribute value: `Invalid` unless it base64url-decodes to
/// [`NONCE_LEN`] bytes whose tag matches its own bucket and `source`; then `Fresh` when that
/// bucket is the current or the previous one, else `Stale`.
pub open spec fn spec_check(secret: Seq<u8>, nonce_attr_value: Seq<u8>, source: SocketAddr, now_unix_secs: u64) -> NonceCheck {
    match spec_b64_decode(nonce_attr_value) {
        Some(d) => if d.len() != NONCE_LEN {
            NonceCheck::Invalid
        } else {
            let bucket = be32(d, 0) as u32;
            if d.subrange(4, 20) != nonce_tag(secret, bucket, source) {
                NonceCheck::Invalid
            } else if bucket == spec_bucket(now_unix_secs) || bucket == prev_bucket(
                spec_bucket(now_unix_secs),
            ) {
                NonceCheck::Fresh
            } else {
                NonceCheck::Stale
            }
        },
        None => NonceCheck::Invalid,
    }
}

/// Append the four big-endian bytes of `v`.
fn push_u32(out: &mut Vec<u8>, v: u32)
    ensures
        final(out)@ == old(out)@ + u32_be(v),
{
    let b0 = (v / 0x100_0000) as u8;
    let b1 = ((v / 0x1_0000) % 0x100) as u8;
    let b2 = ((v / 0x100) % 0x100) as u8;
    let b3 = (v % 0x100) as u8;
    out.push(b0);
    out.push(b1);
    out.push(b2);
    out.push(b3);
    assert(final(out)@ =~= old(out)@ + u32_be(v));
}

/// Constant-time byte-slice equality: XOR-accumulate with no early exit, `false` on a length
/// mismatch.
fn constant_time_eq(a: &[u8], b: &[u8]) -> (r: bool)
    ensures
        r == (a@ == b@),
{
    if a.len() != b.len() {
        return false;
    }
    let mut diff: u8 = 0;
    let mut i: usize = 0;
    while i < a.len()
        invariant
            0 <= i <= a@.len(),
            a@.len() == b@.len(),
            (diff == 0) == (forall|j: int| 0 <= j < i ==> a@[j] == b@[j]),
        decreases a@.len() - i,
    {
        let x = a[i];
        let y = b[i];
        let d = diff | (x ^ y);
        assert((d == 0) == (diff == 0 && x == y)) by (bit_vector)
            requires
                d == diff | (x ^ y),
        ;
        diff = d;
        i = i + 1;
    }
    proof {
        if diff == 0 {
            assert(a@ =~= b@);
        }
    }
    diff == 0
}

impl NonceIssuer {
    /// An issuer with a fresh secret from the operating system's CSPRNG: the ordinary choice for
    /// a single-process deployment. `None` only if the OS offers no entropy at all.
    pub fn new_random() -> (r: Option<NonceIssuer>) {
        let mut secret = [0u8; 32];
        if system_random_fill(&mut secret) {
            Some(NonceIssuer { secret })
        } else {
            None
        }
    }

    /// An issuer with an explicitly supplied secret, for replicas behind one address that must
    /// share one issuer. Any 32 bytes are accepted.
    pub fn from_secret(secret: [u8; 32]) -> (r: NonceIssuer)
        ensures
            r@ == secret@,
    {
        NonceIssuer { secret }
    }

    /// `HMAC-SHA256(secret, "dig:stun:nonce:v1" ‖ bucket(4) ‖ family(1) ‖ ip ‖ port(2))[..16]`,
    /// the source folded first.
    fn tag_for(&self, bucket: u32, source: SocketAddr) -> (tag: [u8; 16])
        ensures
            tag@ == nonce_tag(self@, bucket, source),
    {
        let mut message: Vec<u8> = Vec::new();
        push_bytes(&mut message, &NONCE_DOMAIN_TAG);
        push_u32(&mut message, bucket);
        match fold_ip(source.ip) {
            IpAddr::V4(v4) => {
                message.push(0x01);
                push_bytes(&mut message, &v4.octets);
            },
            IpAddr::V6(v6) => {
                message.push(0x02);
                push_bytes(&mut message, &v6.octets);
            },
        }
        push_u16(&mut message, source.port);
        assert(message@ =~= nonce_message(bucket, source));
        let full = hmac_sha256(&self.secret, message.as_slice());
        let tag = [
            full[0],
            full[1],
            full[2],
            full[3],
            full[4],
            full[5],
            full[6],
            full[7],
            full[8],
            full[9],
            full[10],
            full[11],
            full[12],
            full[13],
            full[14],
            full[15],
        ];
        assert(tag@ =~= full@.subrange(0, 16));
        tag
    }

    /// Mint a nonce for `source` at `now_unix_secs`, valid at this issuer, for this source alone,
    /// in the resulting bucket and the next. The raw 20 bytes; the `NONCE` attribute carries
    /// their base64url text.
    pub fn issue(&self, source: SocketAddr, now_unix_secs: u64) -> (nonce: [u8; NONCE_LEN])
        ensures
            nonce@ == spec_issue(self@, source, now_unix_secs),
    {
        #[verifier::truncate]
        let bucket = (now_unix_secs / NONCE_BUCKET_SECS) as u32;
        let tag = self.tag_for(bucket, source);
        let mut bytes: Vec<u8> = Vec::new();
        push_u32(&mut bytes, bucket);
        push_bytes(&mut bytes, &tag);
        let nonce = [
            bytes[0],
            bytes[1],
            bytes[2],
            bytes[3],
            bytes[4],
            bytes[5],
            bytes[6],
            bytes[7],
            bytes[8],
            bytes[9],
            bytes[10],
            bytes[11],
            bytes[12],
            bytes[13],
            bytes[14],
            bytes[15],
            bytes[16],
            bytes[17],
            bytes[18],
            bytes[19],
        ];
        assert(nonce@ =~= bytes@);
        nonce
    }

    /// Check a wire `NONCE` value (the base64url text, exactly as carried) for `source` at
    /// `now_unix_secs`. The tag is recomputed for the nonce's OWN bucket before its age is
    /// looked at, so a forged nonce is `Invalid` whatever bucket it claims.
    pub fn check(&self, nonce_attr_value: &[u8], source: SocketAddr, now_unix_secs: u64) -> (r:
        NonceCheck)
        ensures
            r == spec_check(self@, nonce_attr_value@, source, now_unix_secs),
    {
        let decoded = match base64url_decode(nonce_attr_value) {
            Some(bytes) => bytes,
            None => {
                return NonceCheck::Invalid;
            },
        };
        if decoded.len() != NONCE_LEN {
            return NonceCheck::Invalid;
        }
        let bucket = read_u32(decoded.as_slice(), 0);
        let expected_tag = self.tag_for(bucket, source);
        let carried = &decoded.as_slice()[4..NONCE_LEN];
        if !constant_time_eq(carried, &expected_tag) {
            return NonceCheck::Invalid;
        }
        #[verifier::truncate]
        let now_bucket = (now_unix_secs / NONCE_BUCKET_SECS) as u32;
        if bucket == now_bucket || bucket == now_bucket.wrapping_sub(1) {
            NonceCheck::Fresh
        } else {
            NonceCheck::Stale
        }
    }
}

proof fn lemma_u32_be(v: u32)
    ensures
        be32(u32_be(v), 0) == v as int,
        u32_be(v).len() == 4,
{
    let s = u32_be(v);
    assert(be32(s, 0) == v as int) by (nonlinear_arith)
        requires
            s[0] == (v / 0x100_0000) as u8,
            s[1] == ((v / 0x1_0000) % 0x100) as u8,
            s[2] == ((v / 0x100) % 0x100) as u8,
            s[3] == (v % 0x100) as u8,
            be32(s, 0) == s[0] as int * 0x100_0000 + s[1] as int * 0x1_0000 + s[2] as int * 0x100
                + s[3] as int,
    ;
}

/// A nonce an issuer minted for a source, sent back as the base64url text a challenge carries,
/// checks `Fresh` at that issuer for that source in the bucket it was issued in and the next one,
/// and `Stale` in any other (for example two buckets later). Nothing but the clock decides.
pub proof fn lemma_issue_then_check(
    issuer: NonceIssuer,
    source: SocketAddr,
    issued_at: u64,
    checked_at: u64,
    nonce: [u8; NONCE_LEN],
)
    requires
        nonce@ == spec_issue(issuer@, source, issued_at),
    ensures
        spec_check(issuer@, spec_b64_encode(nonce@), source, checked_at) == if spec_bucket(
            issued_at,
        ) == spec_bucket(checked_at) || spec_bucket(issued_at) == prev_bucket(
            spec_bucket(checked_at),
        ) {
            NonceCheck::Fresh
        } else {
            NonceCheck::Stale
        },
{
    let b = spec_bucket(issued_at);
    lemma_b64_round_trip(nonce@);
    lemma_u32_be(b);
    let d = nonce@;
    assert(d.subrange(0, 4) =~= u32_be(b));
    assert(be32(d, 0) == be32(u32_be(b), 0));
    assert(d.subrange(4, 20) =~= nonce_tag(issuer@, b, source));
}

/// An IPv4-mapped IPv6 source and the plain IPv4 source it embeds are one source: they are
/// issued the same nonce and every nonce checks the same for both.
pub proof fn lemma_folded_sources_are_one_source(
    secret: Seq<u8>,
    a: SocketAddr,
    b: SocketAddr,
    now_unix_secs: u64,
    nonce_attr_value: Seq<u8>,
)
    requires
        spec_fold_ip(a.ip) == spec_fold_ip(b.ip),
        a.port == b.port,
    ensures
        spec_issue(secret, a, now_unix_secs) == spec_issue(secret, b, now_unix_secs),
        spec_check(secret, nonce_attr_value, a, now_unix_secs) == spec_check(
            secret,
            nonce_attr_value,
            b,
            now_unix_secs,
        ),
{
    assert(source_bytes(a) == source_bytes(b));
    assert forall|bucket: u32| nonce_tag(secret, bucket, a) == nonce_tag(secret, bucket, b) by {
        assert(nonce_message(bucket, a) == nonce_message(bucket, b));
    }
}

} // verus!
