//! The address-scope table: every row, both predicates, the reconciled ranges named explicitly,
//! and the IPv4-in-IPv6 fold rule.

use dig_stun::addr::{IpAddr, Ipv4Addr, Ipv6Addr, SocketAddr};
use dig_stun::scope::{is_globally_routable, is_usable_reflexive_addr, scope_of, scope_of_ip, Scope};

fn parse_v4(s: &str) -> [u8; 4] {
    let parts: Vec<u8> = s.split('.').map(|p| p.parse::<u8>().expect("octet")).collect();
    assert_eq!(parts.len(), 4, "four octets in {s}");
    [parts[0], parts[1], parts[2], parts[3]]
}

fn v6_groups(part: &str) -> Vec<u16> {
    let mut out = Vec::new();
    if part.is_empty() {
        return out;
    }
    for g in part.split(':') {
        if g.contains('.') {
            let o = parse_v4(g);
            out.push(u16::from_be_bytes([o[0], o[1]]));
            out.push(u16::from_be_bytes([o[2], o[3]]));
        } else {
            out.push(u16::from_str_radix(g, 16).expect("hex group"));
        }
    }
    out
}

fn parse_v6(s: &str) -> [u8; 16] {
    let groups: Vec<u16> = match s.find("::") {
        Some(i) => {
            let head = v6_groups(&s[..i]);
            let tail = v6_groups(&s[i + 2..]);
            let mut g = head.clone();
            g.extend(std::iter::repeat(0u16).take(8 - head.len() - tail.len()));
            g.extend(tail);
            g
        }
        None => v6_groups(s),
    };
    assert_eq!(groups.len(), 8, "eight groups in {s}");
    let mut o = [0u8; 16];
    for (i, g) in groups.iter().enumerate() {
        o[2 * i..2 * i + 2].copy_from_slice(&g.to_be_bytes());
    }
    o
}

fn ip(s: &str) -> IpAddr {
    if s.contains(':') {
        IpAddr::V6(Ipv6Addr { octets: parse_v6(s) })
    } else {
        IpAddr::V4(Ipv4Addr { octets: parse_v4(s) })
    }
}

fn addr(s: &str) -> SocketAddr {
    if let Some(rest) = s.strip_prefix('[') {
        let (host, port) = rest.split_once("]:").expect("[v6]:port");
        SocketAddr { ip: ip(host), port: port.parse().expect("port") }
    } else {
        let (host, port) = s.rsplit_once(':').expect("v4:port");
        SocketAddr { ip: ip(host), port: port.parse().expect("port") }
    }
}

/// Assert `scope_of` AND both derived predicates agree with `expected` for `addr_str` — so the
/// table is checked through every public surface that reads it, not just the `Scope` enum itself.
fn assert_scope(addr_str: &str, expected: Scope) {
    let a = addr(addr_str);
    assert_eq!(scope_of(a), expected, "scope_of({addr_str})");
    assert_eq!(
        is_usable_reflexive_addr(&a),
        expected != Scope::NeverDialable,
        "is_usable_reflexive_addr({addr_str})"
    );
    assert_eq!(
        is_globally_routable(&a),
        expected == Scope::GlobalUnicast,
        "is_globally_routable({addr_str})"
    );
}

#[test]
fn accepts_genuinely_global_addresses() {
    assert!(is_usable_reflexive_addr(&addr("1.1.1.1:443")));
    assert!(is_usable_reflexive_addr(&addr("8.8.8.8:53")));
    assert!(is_usable_reflexive_addr(&addr(
        "[2606:4700:4700::1111]:443"
    )));
}

#[test]
fn accepts_private_cgnat_and_ula() {
    assert!(is_usable_reflexive_addr(&addr("192.168.1.5:9000")));
    assert!(is_usable_reflexive_addr(&addr("10.0.0.7:9000")));
    assert!(is_usable_reflexive_addr(&addr("172.16.5.5:9000")));
    assert!(is_usable_reflexive_addr(&addr("100.64.0.1:9000")));
    assert!(is_usable_reflexive_addr(&addr("[fd00::1]:9000")));
}

#[test]
fn rejects_port_zero() {
    assert!(!is_usable_reflexive_addr(&addr("1.1.1.1:0")));
    assert!(!is_usable_reflexive_addr(&addr("[2606:4700:4700::1111]:0")));
}

#[test]
fn rejects_reserved_ipv4() {
    assert!(!is_usable_reflexive_addr(&addr("0.0.0.0:1234")));
    assert!(!is_usable_reflexive_addr(&addr("127.0.0.1:1234")));
    assert!(!is_usable_reflexive_addr(&addr("169.254.1.1:1234")));
    assert!(!is_usable_reflexive_addr(&addr("224.0.0.1:1234")));
    assert!(!is_usable_reflexive_addr(&addr("255.255.255.255:1234")));
    assert!(!is_usable_reflexive_addr(&addr("192.0.2.1:1234")));
    assert!(!is_usable_reflexive_addr(&addr("198.51.100.1:1234")));
    assert!(!is_usable_reflexive_addr(&addr("203.0.113.1:1234")));
}

#[test]
fn rejects_reserved_ipv6() {
    assert!(!is_usable_reflexive_addr(&addr("[::]:1234")));
    assert!(!is_usable_reflexive_addr(&addr("[::1]:1234")));
    assert!(!is_usable_reflexive_addr(&addr("[fe80::1]:1234")));
    assert!(!is_usable_reflexive_addr(&addr("[febf::1]:1234")));
    assert!(!is_usable_reflexive_addr(&addr("[ff02::1]:1234")));
    assert!(!is_usable_reflexive_addr(&addr("[2001:db8::1]:1234")));
}

#[test]
fn rejects_never_dialable_ipv4_ranges() {
    assert!(!is_usable_reflexive_addr(&addr("198.18.0.1:1234")));
    assert!(!is_usable_reflexive_addr(&addr("198.19.0.1:1234")));
    assert!(!is_usable_reflexive_addr(&addr("240.0.0.1:1234")));
    assert!(!is_usable_reflexive_addr(&addr("0.1.2.3:1234")));
    assert!(!is_usable_reflexive_addr(&addr("192.88.99.1:1234")));
}

// ---- every row, both predicates ----

#[test]
fn ipv4_never_dialable_rows() {
    assert_scope("0.0.0.0:1234", Scope::NeverDialable); // unspecified, also 0.0.0.0/8
    assert_scope("0.1.2.3:1234", Scope::NeverDialable); // this-network, non-zero host
    assert_scope("127.0.0.1:1234", Scope::NeverDialable); // loopback
    assert_scope("169.254.1.1:1234", Scope::NeverDialable); // link-local
    assert_scope("192.0.0.1:1234", Scope::NeverDialable); // IETF protocol assignments
    assert_scope("192.0.2.1:1234", Scope::NeverDialable); // TEST-NET-1
    assert_scope("198.51.100.1:1234", Scope::NeverDialable); // TEST-NET-2
    assert_scope("203.0.113.1:1234", Scope::NeverDialable); // TEST-NET-3
    assert_scope("192.88.99.1:1234", Scope::NeverDialable); // 6to4 relay anycast
    assert_scope("198.18.0.1:1234", Scope::NeverDialable); // benchmarking, lower half
    assert_scope("198.19.255.255:1234", Scope::NeverDialable); // benchmarking, upper half
    assert_scope("224.0.0.1:1234", Scope::NeverDialable); // multicast
    assert_scope("240.0.0.1:1234", Scope::NeverDialable); // reserved / class E
    assert_scope("255.255.255.255:1234", Scope::NeverDialable); // broadcast, inside class E
}

#[test]
fn ipv4_private_scope_rows() {
    assert_scope("10.0.0.7:9000", Scope::PrivateScope);
    assert_scope("172.16.5.5:9000", Scope::PrivateScope);
    assert_scope("172.31.255.255:9000", Scope::PrivateScope); // upper edge of /12
    assert_scope("192.168.1.5:9000", Scope::PrivateScope);
    assert_scope("100.64.0.1:9000", Scope::PrivateScope); // CGNAT lower edge
    assert_scope("100.127.255.255:9000", Scope::PrivateScope); // CGNAT upper edge (/10)
}

#[test]
fn ipv4_global_unicast_control_addresses() {
    assert_scope("1.1.1.1:443", Scope::GlobalUnicast);
    assert_scope("8.8.8.8:53", Scope::GlobalUnicast);
    // Just outside the CGNAT range on both sides — a boundary must fail from BOTH directions.
    assert_scope("100.63.255.255:1", Scope::GlobalUnicast);
    assert_scope("100.128.0.0:1", Scope::GlobalUnicast);
    // Just outside the benchmarking range on both sides.
    assert_scope("198.17.255.255:1", Scope::GlobalUnicast);
    assert_scope("198.20.0.0:1", Scope::GlobalUnicast);
}

#[test]
fn ipv6_never_dialable_rows() {
    assert_scope("[::]:1234", Scope::NeverDialable); // unspecified
    assert_scope("[::1]:1234", Scope::NeverDialable); // loopback
    assert_scope("[fe80::1]:1234", Scope::NeverDialable); // link-local, lower edge
    assert_scope("[febf::ffff]:1234", Scope::NeverDialable); // link-local, upper edge of /10
    assert_scope("[ff02::1]:1234", Scope::NeverDialable); // multicast
    assert_scope("[2001:db8::1]:1234", Scope::NeverDialable); // documentation
    assert_scope("[2001:2::1]:1234", Scope::NeverDialable); // benchmarking (RECONCILED)
    assert_scope("[100::1]:1234", Scope::NeverDialable); // discard-only (RECONCILED)
}

#[test]
fn ipv6_private_scope_row() {
    assert_scope("[fc00::1]:9000", Scope::PrivateScope); // unique-local, lower edge of /7
    assert_scope("[fd00::1]:9000", Scope::PrivateScope); // unique-local, common form
    assert_scope("[fdff:ffff:ffff:ffff::1]:9000", Scope::PrivateScope); // upper edge of /7
}

#[test]
fn ipv6_global_unicast_control_addresses() {
    assert_scope("[2606:4700:4700::1111]:443", Scope::GlobalUnicast);
    // Just outside fe80::/10 on the upper side.
    assert_scope("[fec0::1]:1", Scope::GlobalUnicast);
    // Just outside fc00::/7 on the upper side.
    assert_scope("[fe00::1]:1", Scope::GlobalUnicast);
}

// ---- the four reconciled ranges, named explicitly ----

/// An on-chain gate once accepted this as globally routable while the dial guard rejected it.
/// Outcome: `NeverDialable`.
#[test]
fn reconciled_6to4_relay_anycast_is_never_dialable() {
    assert_scope("192.88.99.1:1234", Scope::NeverDialable);
}

/// The dial guard once accepted this while the on-chain gate rejected it. Outcome:
/// `NeverDialable`, a range no legitimate reflexive answer can carry.
#[test]
fn reconciled_ietf_protocol_assignment_is_never_dialable() {
    assert_scope("192.0.0.1:1234", Scope::NeverDialable);
}

/// Reconciled in the same direction as the previous case.
#[test]
fn reconciled_ipv6_benchmarking_is_never_dialable() {
    assert_scope("[2001:2::1]:1234", Scope::NeverDialable);
}

/// Reconciled in the same direction as the previous two cases.
#[test]
fn reconciled_ipv6_discard_only_is_never_dialable() {
    assert_scope("[100::1]:1234", Scope::NeverDialable);
}

// ---- fold first: mapped and deprecated-compatible IPv4-in-IPv6 ----

#[test]
fn mapped_ipv4_in_ipv6_folds_before_classifying() {
    assert_scope("[::ffff:127.0.0.1]:1234", Scope::NeverDialable); // mapped loopback
    assert_scope("[::ffff:0.0.0.0]:1234", Scope::NeverDialable); // mapped unspecified
    assert_scope("[::ffff:224.0.0.1]:1234", Scope::NeverDialable); // mapped multicast
    assert_scope("[::ffff:192.0.2.1]:1234", Scope::NeverDialable); // mapped TEST-NET-1
    assert_scope("[::ffff:255.255.255.255]:1234", Scope::NeverDialable); // mapped broadcast
                                                                         // The AWS instance-metadata address (169.254.169.254) — a real-world reason this guard exists:
                                                                         // a lying source that hands this back as "reflexive" is pointing the requester at metadata.
    assert_scope("[::ffff:169.254.169.254]:1234", Scope::NeverDialable);
    // A mapped PRIVATE address survives folding as PrivateScope, not NeverDialable — folding
    // changes the FAMILY judged, never whether private/CGNAT/ULA stays accepted.
    assert_scope("[::ffff:10.0.0.1]:9000", Scope::PrivateScope);
}

/// The deprecated IPv4-*compatible* form (`::a.b.c.d`, distinct from the mapped `::ffff:a.b.c.d`)
/// must fold identically.
#[test]
fn deprecated_compatible_ipv4_in_ipv6_folds_before_classifying() {
    assert_scope("[::7f00:1]:1234", Scope::NeverDialable); // compat form of 127.0.0.1
                                                           // compat form of 169.254.169.254 (a9fe:a9fe = 169.254.169.254 in hex).
    assert_scope("[::a9fe:a9fe]:1234", Scope::NeverDialable);
}

/// `::1` (IPv6 loopback) and `::` (unspecified) both fold to an address inside `0.0.0.0/8`
/// (`0.0.0.1` and `0.0.0.0` respectively): the `0.0.0.0/8` row is therefore load-bearing for IPv6
/// classification, not redundant with a native-v6 loopback/unspecified check.
#[test]
fn ipv6_loopback_and_unspecified_fold_into_the_v4_this_network_row() {
    assert_scope("[::1]:1234", Scope::NeverDialable);
    assert_scope("[::]:1234", Scope::NeverDialable);
}

// ---- port == 0 ----

#[test]
fn port_zero_is_never_dialable_regardless_of_ip() {
    assert_scope("1.1.1.1:0", Scope::NeverDialable);
    assert_scope("[2606:4700:4700::1111]:0", Scope::NeverDialable);
    // A PrivateScope IP with port 0 is also NeverDialable — port 0 overrides every IP judgment.
    assert_scope("10.0.0.1:0", Scope::NeverDialable);
}

// ---- the classifier on bare IPs ----

/// `scope_of_ip` ignores the port and folds first, exactly as `scope_of` does for a non-zero port.
#[test]
fn scope_of_ip_agrees_with_scope_of_on_nonzero_ports() {
    for s in ["1.1.1.1", "10.0.0.1", "127.0.0.1", "::ffff:10.0.0.1", "2606:4700:4700::1111", "fd00::1", "::1"] {
        let i = ip(s);
        assert_eq!(scope_of_ip(i), scope_of(SocketAddr { ip: i, port: 1 }), "{s}");
    }
    assert_eq!(scope_of_ip(ip("1.1.1.1")), Scope::GlobalUnicast);
}

/// Every globally routable address is usable as a reflexive candidate.
#[test]
fn globally_routable_implies_usable() {
    for s in ["1.1.1.1:1", "10.0.0.1:1", "127.0.0.1:1", "[2606:4700:4700::1111]:1", "[fd00::1]:1", "1.1.1.1:0"] {
        let a = addr(s);
        if is_globally_routable(&a) {
            assert!(is_usable_reflexive_addr(&a), "{s}");
        }
    }
}
