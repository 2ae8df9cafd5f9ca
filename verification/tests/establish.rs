//! Agreement: one test per `FamilyVerdict` variant per family, plus the named scenarios.

use dig_stun::addr::{IpAddr, Ipv4Addr, Ipv6Addr, SocketAddr};
use dig_stun::establish::{establish, FamilyVerdict, Reading, SourceClass};
use dig_stun::scope::Scope;

fn parse_v4(s: &str) -> [u8; 4] {
    let parts: Vec<u8> = s.split('.').map(|p| p.parse::<u8>().expect("octet")).collect();
    assert_eq!(parts.len(), 4, "four octets in {s}");
    [parts[0], parts[1], parts[2], parts[3]]
}

fn v6_groups(part: &str) -> Vec<u16> {
    let mut out = Vec::new();
    if part.is_empty() {
        return out;
    }
    for g in part.split(':') {
        if g.contains('.') {
            let o = parse_v4(g);
            out.push(u16::from_be_bytes([o[0], o[1]]));
            out.push(u16::from_be_bytes([o[2], o[3]]));
        } else {
            out.push(u16::from_str_radix(g, 16).expect("hex group"));
        }
    }
    out
}

fn parse_v6(s: &str) -> [u8; 16] {
    let groups: Vec<u16> = match s.find("::") {
        Some(i) => {
            let head = v6_groups(&s[..i]);
            let tail = v6_groups(&s[i + 2..]);
            let mut g = head.clone();
            g.extend(std::iter::repeat(0u16).take(8 - head.len() - tail.len()));
            g.extend(tail);
            g
        }
        None => v6_groups(s),
    };
    assert_eq!(groups.len(), 8, "eight groups in {s}");
    let mut o = [0u8; 16];
    for (i, g) in groups.iter().enumerate() {
        o[2 * i..2 * i + 2].copy_from_slice(&g.to_be_bytes());
    }
    o
}

fn ip(s: &str) -> IpAddr {
    if s.contains(':') {
        IpAddr::V6(Ipv6Addr { octets: parse_v6(s) })
    } else {
        IpAddr::V4(Ipv4Addr { octets: parse_v4(s) })
    }
}

fn addr(s: &str) -> SocketAddr {
    if let Some(rest) = s.strip_prefix('[') {
        let (host, port) = rest.split_once("]:").expect("[v6]:port");
        SocketAddr { ip: ip(host), port: port.parse().expect("port") }
    } else {
        let (host, port) = s.rsplit_once(':').expect("v4:port");
        SocketAddr { ip: ip(host), port: port.parse().expect("port") }
    }
}

fn v4(a: u8, b: u8, c: u8, d: u8, port: u16) -> SocketAddr {
    SocketAddr { ip: IpAddr::V4(Ipv4Addr { octets: [a, b, c, d] }), port }
}

fn v6(s: &str, port: u16) -> SocketAddr {
    SocketAddr { ip: IpAddr::V6(Ipv6Addr { octets: parse_v6(s) }), port }
}

fn global_v4() -> Ipv4Addr {
    Ipv4Addr { octets: [GLOBAL_V4.0, GLOBAL_V4.1, GLOBAL_V4.2, GLOBAL_V4.3] }
}

// This IP's own scope is irrelevant where it is used below: it is the DISSENTING address in a
// Disagreement test, and `establish` returns `Disagreement` at the unanimity check, before scope
// is ever consulted — so a documentation-range address serves just as well as a routable one.
const DISSENTING_V4: (u8, u8, u8, u8) = (203, 0, 113, 7);
const GLOBAL_V4: (u8, u8, u8, u8) = (1, 1, 1, 1);
const GLOBAL_V6: &str = "2606:4700:4700::1111";

// ---- one test per FamilyVerdict variant, IPv4 family ----

#[test]
fn ipv4_no_readings() {
    // Only IPv6 readings present -> the IPv4 family sees none.
    let readings = vec![Reading::new(
        SourceClass::relay("relay.dig.net").to_string(),
        v6(GLOBAL_V6, 9444),
    )];
    assert_eq!(establish(&readings).ipv4, FamilyVerdict::NoReadings);
}

#[test]
fn ipv4_disagreement() {
    let readings = vec![
        Reading::new(
            SourceClass::relay("r1.dig.net").to_string(),
            v4(1, 1, 1, 1, 9444),
        ),
        Reading::new(
            SourceClass::public("stun.l.google.com").to_string(),
            v4(2, 2, 2, 2, 9444),
        ),
    ];
    let got = establish(&readings);
    assert_eq!(
        got.ipv4,
        FamilyVerdict::Disagreement {
            addrs: vec![
                ip("1.1.1.1"),
                ip("2.2.2.2"),
            ]
        }
    );
    assert_eq!(got.ipv4_addr(), None);
}

#[test]
fn ipv4_insufficient_single_class() {
    let readings = vec![Reading::new(
        SourceClass::relay("r1.dig.net").to_string(),
        v4(GLOBAL_V4.0, GLOBAL_V4.1, GLOBAL_V4.2, GLOBAL_V4.3, 9444),
    )];
    assert_eq!(
        establish(&readings).ipv4,
        FamilyVerdict::Insufficient {
            classes: 1,
            peer_only: false,
        }
    );
}

#[test]
fn ipv4_not_global() {
    // Two classes agree unanimously, but the agreed address is PrivateScope, not GlobalUnicast.
    let readings = vec![
        Reading::new(
            SourceClass::relay("r1.dig.net").to_string(),
            v4(10, 0, 0, 5, 9444),
        ),
        Reading::new(
            SourceClass::public("stun.l.google.com").to_string(),
            v4(10, 0, 0, 5, 9444),
        ),
    ];
    assert_eq!(
        establish(&readings).ipv4,
        FamilyVerdict::NotGlobal {
            ip: ip("10.0.0.5"),
            scope: Scope::PrivateScope,
        }
    );
}

#[test]
fn ipv4_established() {
    let readings = vec![
        Reading::new(
            SourceClass::relay("r1.dig.net").to_string(),
            v4(GLOBAL_V4.0, GLOBAL_V4.1, GLOBAL_V4.2, GLOBAL_V4.3, 9444),
        ),
        Reading::new(
            SourceClass::public("stun.l.google.com").to_string(),
            v4(GLOBAL_V4.0, GLOBAL_V4.1, GLOBAL_V4.2, GLOBAL_V4.3, 55000),
        ),
    ];
    let got = establish(&readings);
    assert_eq!(
        got.ipv4,
        FamilyVerdict::Established {
            ip: IpAddr::V4(global_v4()),
            classes: 2,
        }
    );
    assert_eq!(
        got.ipv4_addr(),
        Some(global_v4())
    );
    assert_eq!(got.ipv6_addr(), None);
}

// ---- one test per FamilyVerdict variant, IPv6 family ----

#[test]
fn ipv6_no_readings() {
    let readings = vec![Reading::new(
        SourceClass::relay("relay.dig.net").to_string(),
        v4(GLOBAL_V4.0, GLOBAL_V4.1, GLOBAL_V4.2, GLOBAL_V4.3, 9444),
    )];
    assert_eq!(establish(&readings).ipv6, FamilyVerdict::NoReadings);
}

#[test]
fn ipv6_disagreement() {
    let readings = vec![
        Reading::new(
            SourceClass::relay("r1.dig.net").to_string(),
            v6(GLOBAL_V6, 9444),
        ),
        Reading::new(
            SourceClass::public("stun.cloudflare.com").to_string(),
            v6("2001:4860:4860::8888", 9444),
        ),
    ];
    assert!(matches!(
        establish(&readings).ipv6,
        FamilyVerdict::Disagreement { .. }
    ));
}

#[test]
fn ipv6_insufficient_single_class() {
    let readings = vec![Reading::new(
        SourceClass::relay("r1.dig.net").to_string(),
        v6(GLOBAL_V6, 9444),
    )];
    assert_eq!(
        establish(&readings).ipv6,
        FamilyVerdict::Insufficient {
            classes: 1,
            peer_only: false,
        }
    );
}

#[test]
fn ipv6_not_global() {
    let readings = vec![
        Reading::new(
            SourceClass::relay("r1.dig.net").to_string(),
            v6("fd00::1", 9444),
        ),
        Reading::new(
            SourceClass::public("stun.cloudflare.com").to_string(),
            v6("fd00::1", 9444),
        ),
    ];
    assert_eq!(
        establish(&readings).ipv6,
        FamilyVerdict::NotGlobal {
            ip: ip("fd00::1"),
            scope: Scope::PrivateScope,
        }
    );
}

#[test]
fn ipv6_established() {
    let readings = vec![
        Reading::new(
            SourceClass::relay("r1.dig.net").to_string(),
            v6(GLOBAL_V6, 9444),
        ),
        Reading::new(
            SourceClass::public("stun.cloudflare.com").to_string(),
            v6(GLOBAL_V6, 55000),
        ),
    ];
    let got = establish(&readings);
    let want_ip = Ipv6Addr { octets: parse_v6(GLOBAL_V6) };
    assert_eq!(
        got.ipv6,
        FamilyVerdict::Established {
            ip: IpAddr::V6(want_ip),
            classes: 2,
        }
    );
    assert_eq!(got.ipv6_addr(), Some(want_ip));
}

// ---- named scenarios ----

/// Two peers reporting from the SAME `/16` render the identical class — one class, not two.
#[test]
fn two_peers_in_one_slash16_are_one_class() {
    let readings = vec![
        Reading::new(
            SourceClass::peer(ip("203.0.113.9")).to_string(),
            v4(GLOBAL_V4.0, GLOBAL_V4.1, GLOBAL_V4.2, GLOBAL_V4.3, 51000),
        ),
        Reading::new(
            SourceClass::peer(ip("203.0.113.200")).to_string(),
            v4(GLOBAL_V4.0, GLOBAL_V4.1, GLOBAL_V4.2, GLOBAL_V4.3, 52000),
        ),
    ];
    assert_eq!(
        establish(&readings).ipv4,
        FamilyVerdict::Insufficient {
            classes: 1,
            peer_only: true,
        }
    );
}

/// Three DISTINCT peer `/16` classes establish; two do not (peer-only floor is 3, not 2).
#[test]
fn three_peer_classes_establish_and_two_do_not() {
    let two = vec![
        Reading::new(
            SourceClass::peer(ip("203.0.113.1")).to_string(),
            v4(GLOBAL_V4.0, GLOBAL_V4.1, GLOBAL_V4.2, GLOBAL_V4.3, 1),
        ),
        Reading::new(
            SourceClass::peer(ip("198.51.100.1")).to_string(),
            v4(GLOBAL_V4.0, GLOBAL_V4.1, GLOBAL_V4.2, GLOBAL_V4.3, 2),
        ),
    ];
    assert_eq!(
        establish(&two).ipv4,
        FamilyVerdict::Insufficient {
            classes: 2,
            peer_only: true,
        }
    );

    let mut three = two;
    three.push(Reading::new(
        SourceClass::peer(ip("192.0.2.1")).to_string(),
        v4(GLOBAL_V4.0, GLOBAL_V4.1, GLOBAL_V4.2, GLOBAL_V4.3, 3),
    ));
    assert_eq!(
        establish(&three).ipv4,
        FamilyVerdict::Established {
            ip: IpAddr::V4(global_v4()),
            classes: 3,
        }
    );
}

/// One relay class + one peer class establish with only two total, because NOT every class is
/// `peer:*` — the `MIN_INDEPENDENT_CLASSES` floor of 2 applies, not the peer-only floor of 3.
#[test]
fn one_relay_and_one_peer_establish_with_two() {
    let readings = vec![
        Reading::new(
            SourceClass::relay("relay.dig.net").to_string(),
            v4(GLOBAL_V4.0, GLOBAL_V4.1, GLOBAL_V4.2, GLOBAL_V4.3, 1),
        ),
        Reading::new(
            SourceClass::peer(ip("203.0.113.1")).to_string(),
            v4(GLOBAL_V4.0, GLOBAL_V4.1, GLOBAL_V4.2, GLOBAL_V4.3, 2),
        ),
    ];
    assert_eq!(
        establish(&readings).ipv4,
        FamilyVerdict::Established {
            ip: IpAddr::V4(global_v4()),
            classes: 2,
        }
    );
}

/// A single dissenting PUBLIC reading blocks two otherwise-agreeing peers — unanimity is checked
/// before class-counting, so disagreement wins regardless of how many classes would have sufficed.
#[test]
fn a_single_dissenting_public_reading_blocks_two_agreeing_peers() {
    let readings = vec![
        Reading::new(
            SourceClass::peer(ip("203.0.113.1")).to_string(),
            v4(GLOBAL_V4.0, GLOBAL_V4.1, GLOBAL_V4.2, GLOBAL_V4.3, 1),
        ),
        Reading::new(
            SourceClass::peer(ip("198.51.100.1")).to_string(),
            v4(GLOBAL_V4.0, GLOBAL_V4.1, GLOBAL_V4.2, GLOBAL_V4.3, 2),
        ),
        Reading::new(
            SourceClass::public("stun.l.google.com").to_string(),
            v4(
                DISSENTING_V4.0,
                DISSENTING_V4.1,
                DISSENTING_V4.2,
                DISSENTING_V4.3,
                3,
            ),
        ),
    ];
    assert!(matches!(
        establish(&readings).ipv4,
        FamilyVerdict::Disagreement { .. }
    ));
}

/// A UDP-tier reading and a peer reading with DIFFERENT ports but the SAME IP agree — only the IP
/// is compared, never the port.
#[test]
fn udp_tier_and_peer_readings_with_different_ports_but_the_same_ip_agree() {
    let readings = vec![
        Reading::new(
            SourceClass::operator("stun.example.org", 3478).to_string(),
            v4(GLOBAL_V4.0, GLOBAL_V4.1, GLOBAL_V4.2, GLOBAL_V4.3, 3478), // mapped listen-socket port
        ),
        Reading::new(
            SourceClass::peer(ip("203.0.113.1")).to_string(),
            v4(GLOBAL_V4.0, GLOBAL_V4.1, GLOBAL_V4.2, GLOBAL_V4.3, 61234), // ephemeral port
        ),
    ];
    assert_eq!(
        establish(&readings).ipv4,
        FamilyVerdict::Established {
            ip: IpAddr::V4(global_v4()),
            classes: 2,
        }
    );
}

/// A mapped-IPv6 reading lands in the IPv4 family, not IPv6.
#[test]
fn a_mapped_ipv6_reading_lands_in_the_ipv4_family() {
    let mapped = addr("[::ffff:1.1.1.1]:9444");
    let readings = vec![
        Reading::new(SourceClass::relay("r1.dig.net").to_string(), mapped),
        Reading::new(
            SourceClass::public("stun.l.google.com").to_string(),
            v4(GLOBAL_V4.0, GLOBAL_V4.1, GLOBAL_V4.2, GLOBAL_V4.3, 1),
        ),
    ];
    let got = establish(&readings);
    assert!(matches!(got.ipv4, FamilyVerdict::Established { .. }));
    assert_eq!(got.ipv6, FamilyVerdict::NoReadings);
}

/// A unanimous PrivateScope reading is `NotGlobal`, not `Established` — a true reading of the
/// node's position, and still never something to advertise to strangers.
#[test]
fn a_privatescope_unanimous_reading_is_not_global() {
    let readings = vec![
        Reading::new(
            SourceClass::relay("r1.dig.net").to_string(),
            v4(172, 16, 5, 5, 1),
        ),
        Reading::new(
            SourceClass::public("stun.l.google.com").to_string(),
            v4(172, 16, 5, 5, 2),
        ),
        Reading::new(
            SourceClass::peer(ip("203.0.113.1")).to_string(),
            v4(172, 16, 5, 5, 3),
        ),
    ];
    assert_eq!(
        establish(&readings).ipv4,
        FamilyVerdict::NotGlobal {
            ip: ip("172.16.5.5"),
            scope: Scope::PrivateScope,
        }
    );
}

// ---- non-answers are never passed as readings (a caller-discipline note, tested at the boundary) ----

#[test]
fn empty_readings_yield_no_readings_for_both_families() {
    let got = establish(&[]);
    assert_eq!(got.ipv4, FamilyVerdict::NoReadings);
    assert_eq!(got.ipv6, FamilyVerdict::NoReadings);
    assert_eq!(got.ipv4_addr(), None);
    assert_eq!(got.ipv6_addr(), None);
}

// ---- SourceClass grammar: render + parse round-trip ----

#[test]
fn source_class_round_trips_every_form() {
    let classes = vec![
        SourceClass::operator("stun.example.org", 3478),
        SourceClass::relay("relay.dig.net"),
        SourceClass::public("stun.l.google.com"),
        SourceClass::peer(ip("203.0.113.9")),
        SourceClass::peer(ip(GLOBAL_V6)),
    ];
    for class in classes {
        let rendered = class.to_string();
        assert_eq!(
            SourceClass::parse(&rendered),
            Some(class.clone()),
            "round-trip failed for {rendered}"
        );
    }
}

#[test]
fn source_class_parse_rejects_unknown_forms() {
    assert_eq!(SourceClass::parse("bogus:thing"), None);
    assert_eq!(SourceClass::parse(""), None);
    assert_eq!(SourceClass::parse("peer:v4:not-a-number.5"), None);
}

/// A peer's IPv6 `/32` partition is rendered from the leading two 16-bit groups, zero-padded hex.
#[test]
fn source_class_peer_v6_uses_the_slash32_partition() {
    let a = SourceClass::peer(ip("2606:4700:4700::1111"));
    let b = SourceClass::peer(ip("2606:4700:ffff::2222")); // same /32, different tail
    assert_eq!(a, b, "same IPv6 /32 must render the identical class");
    assert_eq!(a.to_string(), "peer:v6:2606:4700");
}

// ---- further cases ----

/// Each form renders exactly as the grammar writes it.
#[test]
fn source_class_renders_each_form_exactly() {
    assert_eq!(SourceClass::operator("stun.example.org", 3478).to_string(), "operator:stun.example.org:3478");
    assert_eq!(SourceClass::relay("relay.dig.net").to_string(), "relay:relay.dig.net");
    assert_eq!(SourceClass::public("stun.l.google.com").to_string(), "public:stun.l.google.com");
    assert_eq!(SourceClass::peer(ip("203.0.113.9")).to_string(), "peer:v4:203.0");
    assert_eq!(SourceClass::peer(ip("10.255.1.1")).to_string(), "peer:v4:10.255");
    assert_eq!(SourceClass::peer(ip("2001:db8::1")).to_string(), "peer:v6:2001:0db8");
    assert_eq!(SourceClass::operator("h", 0).to_string(), "operator:h:0");
}

/// A mapped IPv6 peer renders the same class as its plain IPv4 twin.
#[test]
fn a_mapped_peer_renders_its_ipv4_class() {
    assert_eq!(SourceClass::peer(ip("::ffff:203.0.113.9")), SourceClass::peer(ip("203.0.113.9")));
    assert_eq!(SourceClass::peer(ip("::ffff:203.0.113.9")).to_string(), "peer:v4:203.0");
}

/// An operator host may itself hold colons: the port is split off at the last one.
#[test]
fn an_operator_host_with_colons_round_trips() {
    let class = SourceClass::operator("[2001:db8::1]", 3478);
    let rendered = class.to_string();
    assert_eq!(rendered, "operator:[2001:db8::1]:3478");
    assert_eq!(SourceClass::parse(&rendered), Some(class));
}

/// Numbers are read as Rust reads them: a leading `+`, leading zeros and either case of hex digit
/// are accepted; a value out of range, an empty field or a lone `+` is not.
#[test]
fn source_class_parse_reads_numbers_as_rust_does() {
    assert_eq!(SourceClass::parse("operator:h:+3478"), Some(SourceClass::operator("h", 3478)));
    assert_eq!(SourceClass::parse("operator:h:03478"), Some(SourceClass::operator("h", 3478)));
    assert_eq!(SourceClass::parse("operator:h:65535"), Some(SourceClass::operator("h", 65535)));
    assert_eq!(SourceClass::parse("operator:h:65536"), None);
    assert_eq!(SourceClass::parse("operator:h:"), None);
    assert_eq!(SourceClass::parse("operator:h:+"), None);
    assert_eq!(SourceClass::parse("operator:h:-1"), None);
    assert_eq!(SourceClass::parse("operator:nocolon"), None);
    assert_eq!(SourceClass::parse("peer:v4:1.2"), Some(SourceClass::PeerV4 { a: 1, b: 2 }));
    assert_eq!(SourceClass::parse("peer:v4:256.2"), None);
    assert_eq!(SourceClass::parse("peer:v4:1.2.3"), None);
    assert_eq!(SourceClass::parse("peer:v4:12"), None);
    assert_eq!(SourceClass::parse("peer:v6:ABCD:ef01"), Some(SourceClass::PeerV6 { h0: 0xabcd, h1: 0xef01 }));
    assert_eq!(SourceClass::parse("peer:v6:1:2"), Some(SourceClass::PeerV6 { h0: 1, h1: 2 }));
    assert_eq!(SourceClass::parse("peer:v6:10000:2"), None);
    assert_eq!(SourceClass::parse("peer:v6:g:2"), None);
    assert_eq!(SourceClass::parse("relay:"), Some(SourceClass::relay("")));
    assert_eq!(SourceClass::parse("public:a:b"), Some(SourceClass::public("a:b")));
    assert_eq!(SourceClass::parse("Relay:x"), None);
}

/// Three distinct IPs in one family, reported out of order and repeated, are listed sorted and
/// once each.
#[test]
fn a_disagreement_lists_every_ip_sorted_once() {
    let readings = vec![
        Reading::new(SourceClass::relay("r1").to_string(), v4(9, 9, 9, 9, 1)),
        Reading::new(SourceClass::relay("r2").to_string(), v4(1, 1, 1, 1, 1)),
        Reading::new(SourceClass::relay("r3").to_string(), v4(9, 9, 9, 9, 2)),
        Reading::new(SourceClass::relay("r4").to_string(), v4(1, 2, 0, 0, 1)),
    ];
    assert_eq!(
        establish(&readings).ipv4,
        FamilyVerdict::Disagreement { addrs: vec![ip("1.1.1.1"), ip("1.2.0.0"), ip("9.9.9.9")] }
    );
}

/// The same source reporting twice is one class, whatever its witnesses.
#[test]
fn one_source_twice_is_one_class() {
    let readings = vec![
        Reading::new(SourceClass::relay("r1").to_string(), v4(1, 1, 1, 1, 1)).with_witness("a"),
        Reading::new(SourceClass::relay("r1").to_string(), v4(1, 1, 1, 1, 2)).with_witness("b"),
    ];
    assert_eq!(
        establish(&readings).ipv4,
        FamilyVerdict::Insufficient { classes: 1, peer_only: false }
    );
}

/// A source string outside the grammar is its own class and never a peer class.
#[test]
fn an_unparsable_source_counts_as_a_non_peer_class() {
    let readings = vec![
        Reading::new("free text".to_string(), v4(1, 1, 1, 1, 1)),
        Reading::new(SourceClass::peer(ip("203.0.113.1")).to_string(), v4(1, 1, 1, 1, 2)),
    ];
    assert_eq!(
        establish(&readings).ipv4,
        FamilyVerdict::Established { ip: ip("1.1.1.1"), classes: 2 }
    );
}

/// Both families are decided independently from one list.
#[test]
fn both_families_are_decided_independently() {
    let readings = vec![
        Reading::new(SourceClass::relay("r1").to_string(), v4(1, 1, 1, 1, 1)),
        Reading::new(SourceClass::public("p1").to_string(), v4(1, 1, 1, 1, 2)),
        Reading::new(SourceClass::relay("r1").to_string(), v6("2606:4700:4700::1111", 1)),
    ];
    let got = establish(&readings);
    assert_eq!(got.ipv4, FamilyVerdict::Established { ip: ip("1.1.1.1"), classes: 2 });
    assert_eq!(got.ipv6, FamilyVerdict::Insufficient { classes: 1, peer_only: false });
    assert_eq!(got.ipv4_addr(), Some(global_v4()));
    assert_eq!(got.ipv6_addr(), None);
}

/// A unanimous never-dialable reading is `NotGlobal` with its scope.
#[test]
fn a_unanimous_loopback_reading_is_not_global() {
    let readings = vec![
        Reading::new(SourceClass::relay("r1").to_string(), v4(127, 0, 0, 1, 1)),
        Reading::new(SourceClass::public("p1").to_string(), v4(127, 0, 0, 1, 2)),
    ];
    assert_eq!(
        establish(&readings).ipv4,
        FamilyVerdict::NotGlobal { ip: ip("127.0.0.1"), scope: Scope::NeverDialable }
    );
}

/// `Reading::new` carries no witness; `with_witness` attaches one and keeps the rest.
#[test]
fn reading_constructors_keep_their_fields() {
    let r = Reading::new("relay:x".to_string(), v4(1, 2, 3, 4, 5));
    assert_eq!(r.source, "relay:x");
    assert_eq!(r.witness, None);
    assert_eq!(r.addr, v4(1, 2, 3, 4, 5));
    let w = r.with_witness("peer-7");
    assert_eq!(w.witness.as_deref(), Some("peer-7"));
    assert_eq!(w.source, "relay:x");
    assert_eq!(w.addr, v4(1, 2, 3, 4, 5));
}
