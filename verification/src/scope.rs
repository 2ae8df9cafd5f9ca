//! The single address-scope classifier: the one range table every consumer asks "could this
//! address be a legitimate reflexive candidate, and could a stranger route to it?" against.
//!
//! Both derived predicates, [`is_usable_reflexive_addr`] (the dial guard) and
//! [`is_globally_routable`] (the advertisement gate), are read off [`Scope`]; no second table
//! exists. An ambiguous range classifies DOWN: an error toward [`Scope::NeverDialable`] costs a
//! candidate, an error toward [`Scope::GlobalUnicast`] advertises an unreachable address.
use vstd::prelude::*;

use crate::addr::{embeds_ipv4, fold_ip, segment, spec_fold_ip, IpAddr, Ipv4Addr, Ipv6Addr, SocketAddr};

verus! {

/// How dialable an address is, as three tiers.
#[derive(Debug, Clone, Copy, PartialEq, Eq, Structural)]
pub enum Scope {
    /// Never a destination: reserved, documentation, loopback, link-local, multicast,
    /// unspecified, benchmarking, discard-only, IETF assignments, or port `0`.
    NeverDialable,
    /// Dialable only from inside the same site or carrier region: RFC 1918, RFC 6598 CGNAT,
    /// IPv6 ULA.
    PrivateScope,
    /// Everything else: an address a stranger on the open internet could route to.
    GlobalUnicast,
}

/// The IPv4 rows that are never a destination, one CIDR block per line.
pub open spec fn v4_never_dialable(o: [u8; 4]) -> bool {
    ||| o[0] == 0  // 0.0.0.0/8, "this network"; also where `::` and `::1` land after folding
    ||| o[0] == 127  // 127.0.0.0/8, loopback
    ||| o[0] == 169 && o[1] == 254  // 169.254.0.0/16, link-local
    ||| o[0] == 192 && o[1] == 0 && o[2] == 0  // 192.0.0.0/24, IETF protocol assignments
    ||| o[0] == 192 && o[1] == 0 && o[2] == 2  // 192.0.2.0/24, documentation
    ||| o[0] == 198 && o[1] == 51 && o[2] == 100  // 198.51.100.0/24, documentation
    ||| o[0] == 203 && o[1] == 0 && o[2] == 113  // 203.0.113.0/24, documentation
    ||| o[0] == 192 && o[1] == 88 && o[2] == 99  // 192.88.99.0/24, 6to4 relay anycast
    ||| o[0] == 198 && 18 <= o[1] < 20  // 198.18.0.0/15, benchmarking
    ||| 224 <= o[0] < 240  // 224.0.0.0/4, multicast
    ||| 240 <= o[0]  // 240.0.0.0/4, reserved (includes 255.255.255.255)
}

/// The IPv4 rows that are private to a site or carrier region.
pub open spec fn v4_private(o: [u8; 4]) -> bool {
    ||| o[0] == 10  // 10.0.0.0/8
    ||| o[0] == 172 && 16 <= o[1] < 32  // 172.16.0.0/12
    ||| o[0] == 192 && o[1] == 168  // 192.168.0.0/16
    ||| o[0] == 100 && 64 <= o[1] < 128  // 100.64.0.0/10, carrier-grade NAT
}

/// The native-IPv6 rows that are never a destination.
pub open spec fn v6_never_dialable(o: [u8; 16]) -> bool {
    ||| forall|i: int| 0 <= i < 8 ==> #[trigger] segment(o, i) == 0  // ::/128
    ||| (forall|i: int| 0 <= i < 7 ==> #[trigger] segment(o, i) == 0) && segment(o, 7) == 1  // ::1/128
    ||| 0xfe80 <= segment(o, 0) < 0xfec0  // fe80::/10, link-local
    ||| 0xff00 <= segment(o, 0)  // ff00::/8, multicast
    ||| segment(o, 0) == 0x2001 && segment(o, 1) == 0x0db8  // 2001:db8::/32, documentation
    ||| segment(o, 0) == 0x2001 && segment(o, 1) == 0x0002 && segment(o, 2) == 0  // 2001:2::/48
    ||| segment(o, 0) == 0x0100 && segment(o, 1) == 0 && segment(o, 2) == 0 && segment(o, 3)
        == 0  // 100::/64, discard-only
}

/// The native-IPv6 row that is private to a site: `fc00::/7`, unique local.
pub open spec fn v6_private(o: [u8; 16]) -> bool {
    0xfc00 <= segment(o, 0) < 0xfe00
}

/// The scope of an IPv4 address.
pub open spec fn spec_scope_of_v4(o: [u8; 4]) -> Scope {
    if v4_never_dialable(o) {
        Scope::NeverDialable
    } else if v4_private(o) {
        Scope::PrivateScope
    } else {
        Scope::GlobalUnicast
    }
}

/// The scope of a native IPv6 address.
pub open spec fn spec_scope_of_v6(o: [u8; 16]) -> Scope {
    if v6_never_dialable(o) {
        Scope::NeverDialable
    } else if v6_private(o) {
        Scope::PrivateScope
    } else {
        Scope::GlobalUnicast
    }
}

/// The scope of a bare IP, judged after folding IPv4-in-IPv6 to IPv4.
pub open spec fn spec_scope_of_ip(ip: IpAddr) -> Scope {
    match spec_fold_ip(ip) {
        IpAddr::V4(v4) => spec_scope_of_v4(v4.octets),
        IpAddr::V6(v6) => spec_scope_of_v6(v6.octets),
    }
}

/// The scope of a socket address: port `0` is never a destination, whatever the IP.
pub open spec fn spec_scope_of(addr: SocketAddr) -> Scope {
    if addr.port == 0 {
        Scope::NeverDialable
    } else {
        spec_scope_of_ip(addr.ip)
    }
}

/// The IPv4 half of the table.
fn scope_of_v4(o: [u8; 4]) -> (r: Scope)
    ensures
        r == spec_scope_of_v4(o),
{
    let a = o[0];
    let b = o[1];
    let c = o[2];
    let is_this_network = a == 0;
    let is_loopback = a == 127;
    let is_link_local = a == 169 && b == 254;
    let is_ietf_protocol_assignment = a == 192 && b == 0 && c == 0;
    let is_documentation = (a == 192 && b == 0 && c == 2) || (a == 198 && b == 51 && c == 100) || (
    a == 203 && b == 0 && c == 113);
    let is_6to4_relay_anycast = a == 192 && b == 88 && c == 99;
    let is_benchmarking = a == 198 && (b & 0xfe) == 18;
    let is_multicast = (a & 0xf0) == 224;
    let is_reserved_class_e = a >= 240;
    let is_carrier_grade_nat = a == 100 && (b & 0xc0) == 64;
    let is_rfc1918 = a == 10 || (a == 172 && (b & 0xf0) == 16) || (a == 192 && b == 168);
    proof {
        assert(((b & 0xfe) == 18) == (18 <= b < 20)) by (bit_vector);
        assert(((a & 0xf0) == 224) == (224 <= a < 240)) by (bit_vector);
        assert(((b & 0xc0) == 64) == (64 <= b < 128)) by (bit_vector);
        assert(((b & 0xf0) == 16) == (16 <= b < 32)) by (bit_vector);
    }
    if is_this_network || is_loopback || is_link_local || is_ietf_protocol_assignment
        || is_documentation || is_6to4_relay_anycast || is_benchmarking || is_multicast
        || is_reserved_class_e {
        Scope::NeverDialable
    } else if is_rfc1918 || is_carrier_grade_nat {
        Scope::PrivateScope
    } else {
        Scope::GlobalUnicast
    }
}

/// The native-IPv6 half of the table. Only ever reached with an address that does not fold to
/// IPv4, but judged on its own terms all the same.
fn scope_of_v6(o: [u8; 16]) -> (r: Scope)
    ensures
        r == spec_scope_of_v6(o),
{
    let s0: u16 = (o[0] as u16) * 256 + (o[1] as u16);
    let s1: u16 = (o[2] as u16) * 256 + (o[3] as u16);
    let s2: u16 = (o[4] as u16) * 256 + (o[5] as u16);
    let s3: u16 = (o[6] as u16) * 256 + (o[7] as u16);
    let mut low_zero = true;
    let mut i: usize = 2;
    while i < 14
        invariant
            2 <= i <= 14,
            low_zero == (forall|j: int| 2 <= j < i ==> o[j] == 0),
        decreases 14 - i,
    {
        if o[i] != 0 {
            low_zero = false;
        }
        i = i + 1;
    }
    let is_unspecified = o[0] == 0 && o[1] == 0 && low_zero && o[14] == 0 && o[15] == 0;
    let is_loopback = o[0] == 0 && o[1] == 0 && low_zero && o[14] == 0 && o[15] == 1;
    let is_link_local = (s0 & 0xffc0) == 0xfe80;
    let is_multicast = o[0] == 0xff;
    let is_documentation = s0 == 0x2001 && s1 == 0x0db8;
    let is_benchmarking = s0 == 0x2001 && s1 == 0x0002 && s2 == 0;
    let is_discard_only = s0 == 0x0100 && s1 == 0 && s2 == 0 && s3 == 0;
    let is_unique_local = (s0 & 0xfe00) == 0xfc00;
    proof {
        assert(((s0 & 0xffc0) == 0xfe80) == (0xfe80 <= s0 < 0xfec0)) by (bit_vector);
        assert(((s0 & 0xfe00) == 0xfc00) == (0xfc00 <= s0 < 0xfe00)) by (bit_vector);
        assert(s0 == segment(o, 0) && s1 == segment(o, 1) && s2 == segment(o, 2) && s3 == segment(
            o,
            3,
        ));
        assert(is_multicast == (0xff00 <= segment(o, 0)));
        let all_zero = forall|k: int| 0 <= k < 8 ==> #[trigger] segment(o, k) == 0;
        assert(is_unspecified == all_zero) by {
            if is_unspecified {
                assert forall|k: int| 0 <= k < 8 implies #[trigger] segment(o, k) == 0 by {
                    assert(o[2 * k] == 0 && o[2 * k + 1] == 0);
                }
            }
            if all_zero {
                assert forall|j: int| 0 <= j < 16 implies o[j] == 0 by {
                    assert(segment(o, j / 2) == 0);
                }
            }
        }
        let lo_form = (forall|k: int| 0 <= k < 7 ==> #[trigger] segment(o, k) == 0) && segment(o, 7)
            == 1;
        assert(is_loopback == lo_form) by {
            if is_loopback {
                assert forall|k: int| 0 <= k < 7 implies #[trigger] segment(o, k) == 0 by {
                    assert(o[2 * k] == 0 && o[2 * k + 1] == 0);
                }
            }
            if lo_form {
                assert forall|j: int| 0 <= j < 14 implies o[j] == 0 by {
                    assert(segment(o, j / 2) == 0);
                }
                assert(segment(o, 7) == 1);
            }
        }
    }
    if is_unspecified || is_loopback || is_multicast || is_link_local || is_documentation
        || is_benchmarking || is_discard_only {
        Scope::NeverDialable
    } else if is_unique_local {
        Scope::PrivateScope
    } else {
        Scope::GlobalUnicast
    }
}

/// Classify a bare IP. A mapped or compatible IPv6 value is classified as the IPv4 address it
/// embeds. A caller holding only an IP has no port to see: the `port == 0` rule of [`scope_of`]
/// is its own to apply where it matters.
pub fn scope_of_ip(ip: IpAddr) -> (r: Scope)
    ensures
        r == spec_scope_of_ip(ip),
{
    match fold_ip(ip) {
        IpAddr::V4(v4) => scope_of_v4(v4.octets),
        IpAddr::V6(v6) => scope_of_v6(v6.octets),
    }
}

/// Classify a socket address: [`Scope::NeverDialable`] when the port is `0`, whatever the IP,
/// else the scope of the IP.
pub fn scope_of(addr: SocketAddr) -> (r: Scope)
    ensures
        r == spec_scope_of(addr),
{
    if addr.port == 0 {
        return Scope::NeverDialable;
    }
    scope_of_ip(addr.ip)
}

/// Whether `addr` could ever be a legitimate reflexive dial target: true for
/// [`Scope::PrivateScope`] and [`Scope::GlobalUnicast`], false only for [`Scope::NeverDialable`].
/// A LAN or CGNAT address is a valid dial target for a peer on the same site or carrier region.
pub fn is_usable_reflexive_addr(addr: &SocketAddr) -> (r: bool)
    ensures
        r == (spec_scope_of(*addr) != Scope::NeverDialable),
{
    scope_of(*addr) != Scope::NeverDialable
}

/// Whether a stranger on the open internet could route to `addr`: true only for
/// the global-unicast scope. Only such an address may be put in an on-chain advertisement.
pub fn is_globally_routable(addr: &SocketAddr) -> (r: bool)
    ensures
        r == (spec_scope_of(*addr) == Scope::GlobalUnicast),
{
    scope_of(*addr) == Scope::GlobalUnicast
}

/// Every address that a stranger could route to is also a usable dial target, and the two
/// predicates differ exactly on private-scope addresses.
pub proof fn lemma_globally_routable_is_usable(addr: SocketAddr)
    ensures
        spec_scope_of(addr) == Scope::GlobalUnicast ==> spec_scope_of(addr) != Scope::NeverDialable,
        (spec_scope_of(addr) != Scope::NeverDialable && spec_scope_of(addr) != Scope::GlobalUnicast)
            <==> spec_scope_of(addr) == Scope::PrivateScope,
{
}

/// A mapped or compatible IPv6 address is classified exactly as the IPv4 address it embeds, so no
/// IPv4 range can be smuggled past the table inside a 16-byte value.
pub proof fn lemma_fold_first(ip: IpAddr)
    ensures
        spec_scope_of_ip(ip) == spec_scope_of_ip(spec_fold_ip(ip)),
{
}

/// The IPv6 global unicast block `2000::/3` is globally routable, save for the two rows carved
/// out of it: `2001:db8::/32` (documentation) and `2001:2::/48` (benchmarking). With a non-zero
/// port such an address is a global-unicast destination.
pub proof fn lemma_ipv6_global_block_is_routable(o: [u8; 16], port: u16)
    requires
        0x20 <= o[0] < 0x40,
        !(o[0] == 0x20 && o[1] == 0x01 && o[2] == 0x0d && o[3] == 0xb8),
        !(o[0] == 0x20 && o[1] == 0x01 && o[2] == 0x00 && o[3] == 0x02 && o[4] == 0x00 && o[5]
            == 0x00),
    ensures
        spec_scope_of_ip(IpAddr::V6(Ipv6Addr { octets: o })) == Scope::GlobalUnicast,
        port != 0 ==> spec_scope_of(
            SocketAddr { ip: IpAddr::V6(Ipv6Addr { octets: o }), port },
        ) == Scope::GlobalUnicast,
{
    assert(!embeds_ipv4(o));
    assert(0x2000 <= segment(o, 0) < 0x4000);
    assert(segment(o, 0) != 0);
    assert(segment(o, 0) == 0x2001 ==> o[0] == 0x20 && o[1] == 0x01);
    assert(segment(o, 1) == 0x0db8 ==> o[2] == 0x0d && o[3] == 0xb8);
    assert(segment(o, 1) == 0x0002 ==> o[2] == 0x00 && o[3] == 0x02);
    assert(segment(o, 2) == 0 ==> o[4] == 0x00 && o[5] == 0x00);
    assert(!v6_never_dialable(o));
    assert(!v6_private(o));
}

/// Every IPv4 row lies under one of a few first octets (`0`, `10`, `100`, `127`, `169`, `172`,
/// `192`, `198`, `203`, and `224` and up): an IPv4 address under any other first octet is
/// globally routable, and with a non-zero port a global-unicast destination.
pub proof fn lemma_ipv4_unlisted_first_octet_is_routable(o: [u8; 4], port: u16)
    requires
        1 <= o[0] < 224,
        o[0] != 10 && o[0] != 100 && o[0] != 127 && o[0] != 169 && o[0] != 172,
        o[0] != 192 && o[0] != 198 && o[0] != 203,
    ensures
        spec_scope_of_v4(o) == Scope::GlobalUnicast,
        port != 0 ==> spec_scope_of(
            SocketAddr { ip: IpAddr::V4(Ipv4Addr { octets: o }), port },
        ) == Scope::GlobalUnicast,
{
}

/// The private tier is exactly the four CIDR blocks `10.0.0.0/8`, `172.16.0.0/12`,
/// `192.168.0.0/16` (RFC 1918) and `100.64.0.0/10` (RFC 6598): an IPv4 address is
/// [`Scope::PrivateScope`] if and only if its leading bits match one of those prefixes.
pub proof fn lemma_ipv4_private_blocks(o: [u8; 4])
    ensures
        spec_scope_of_v4(o) == Scope::PrivateScope <==> (o[0] == 10 || (o[0] == 172 && o[1] & 0xf0
            == 16) || (o[0] == 192 && o[1] == 168) || (o[0] == 100 && o[1] & 0xc0 == 64)),
{
    let b = o[1];
    assert(((b & 0xc0) == 64) == (64 <= b < 128)) by (bit_vector);
    assert(((b & 0xf0) == 16) == (16 <= b < 32)) by (bit_vector);
}

} // verus!
