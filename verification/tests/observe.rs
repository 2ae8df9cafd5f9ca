//! The peer-observation decision and its limiter.
//!
//! `truth_table_*` covers every cell of the `Direction x Path x Scope` matrix (2x2x3 = 12 cells).

use dig_stun::addr::{IpAddr, Ipv4Addr, Ipv6Addr, SocketAddr};
use dig_stun::observe::{
    observe, Direction, ObserveLimiter, Path, Refusal, SessionMeta, MAX_TRACKED_SOURCES,
    OBSERVE_GLOBAL_PER_SECOND, OBSERVE_PER_SESSION_PER_MINUTE,
};

fn parse_v4(s: &str) -> [u8; 4] {
    let parts: Vec<u8> = s.split('.').map(|p| p.parse::<u8>().expect("octet")).collect();
    assert_eq!(parts.len(), 4, "four octets in {s}");
    [parts[0], parts[1], parts[2], parts[3]]
}

fn v6_groups(part: &str) -> Vec<u16> {
    let mut out = Vec::new();
    if part.is_empty() {
        return out;
    }
    for g in part.split(':') {
        if g.contains('.') {
            let o = parse_v4(g);
            out.push(u16::from_be_bytes([o[0], o[1]]));
            out.push(u16::from_be_bytes([o[2], o[3]]));
        } else {
            out.push(u16::from_str_radix(g, 16).expect("hex group"));
        }
    }
    out
}

fn parse_v6(s: &str) -> [u8; 16] {
    let groups: Vec<u16> = match s.find("::") {
        Some(i) => {
            let head = v6_groups(&s[..i]);
            let tail = v6_groups(&s[i + 2..]);
            let mut g = head.clone();
            g.extend(std::iter::repeat(0u16).take(8 - head.len() - tail.len()));
            g.extend(tail);
            g
        }
        None => v6_groups(s),
    };
    assert_eq!(groups.len(), 8, "eight groups in {s}");
    let mut o = [0u8; 16];
    for (i, g) in groups.iter().enumerate() {
        o[2 * i..2 * i + 2].copy_from_slice(&g.to_be_bytes());
    }
    o
}

fn ip(s: &str) -> IpAddr {
    if s.contains(':') {
        IpAddr::V6(Ipv6Addr { octets: parse_v6(s) })
    } else {
        IpAddr::V4(Ipv4Addr { octets: parse_v4(s) })
    }
}

fn addr(s: &str) -> SocketAddr {
    if let Some(rest) = s.strip_prefix('[') {
        let (host, port) = rest.split_once("]:").expect("[v6]:port");
        SocketAddr { ip: ip(host), port: port.parse().expect("port") }
    } else {
        let (host, port) = s.rsplit_once(':').expect("v4:port");
        SocketAddr { ip: ip(host), port: port.parse().expect("port") }
    }
}

// ---- observe(): the full Direction x Path x Scope truth table (12 cells) ----

/// `Direction::Outbound` refuses before `Path` or `Scope` are even consulted — 6 of the 12 cells.
#[test]
fn truth_table_outbound_always_refuses_regardless_of_path_or_scope() {
    for path in [Path::Direct, Path::Relayed] {
        for remote in ["127.0.0.1:1234", "10.0.0.5:1234", "1.1.1.1:1234"] {
            let meta = SessionMeta::new(Direction::Outbound, path, addr(remote));
            assert_eq!(
                observe(&meta),
                Err(Refusal::Outbound),
                "remote={remote} path={path:?}"
            );
        }
    }
}

/// `Direction::Inbound` + `Path::Relayed` refuses before `Scope` is consulted — 3 more cells.
#[test]
fn truth_table_inbound_relayed_always_refuses_regardless_of_scope() {
    for remote in ["127.0.0.1:1234", "10.0.0.5:1234", "1.1.1.1:1234"] {
        let meta = SessionMeta::new(Direction::Inbound, Path::Relayed, addr(remote));
        assert_eq!(observe(&meta), Err(Refusal::Relayed), "remote={remote}");
    }
}

/// The remaining 3 cells: `Inbound` + `Direct`, one per `Scope` variant.
#[test]
fn truth_table_inbound_direct_never_dialable_refuses_unusable() {
    let meta = SessionMeta::new(Direction::Inbound, Path::Direct, addr("127.0.0.1:1234"));
    assert_eq!(observe(&meta), Err(Refusal::Unusable));
}

#[test]
fn truth_table_inbound_direct_private_scope_is_answered() {
    // A PrivateScope remote IS answered: the requester may be a LAN peer, and what it does with a
    // private reading is the requester's own decision under `establish`.
    let meta = SessionMeta::new(Direction::Inbound, Path::Direct, addr("10.0.0.5:1234"));
    assert_eq!(observe(&meta), Ok(addr("10.0.0.5:1234")));
}

#[test]
fn truth_table_inbound_direct_global_unicast_is_answered() {
    let meta = SessionMeta::new(Direction::Inbound, Path::Direct, addr("1.1.1.1:1234"));
    assert_eq!(observe(&meta), Ok(addr("1.1.1.1:1234")));
}

/// The mapped-v6-folds-to-v4 case: an inbound, direct, globally-routable MAPPED remote is answered
/// with its IPv4 form, never the 16-byte mapped form.
#[test]
fn inbound_direct_mapped_ipv6_remote_folds_to_ipv4_in_the_answer() {
    let mapped = addr("[::ffff:8.8.8.8]:5555");
    let meta = SessionMeta::new(Direction::Inbound, Path::Direct, mapped);
    let got = observe(&meta).expect("global unicast, direct, inbound => answered");
    assert_eq!(got, addr("8.8.8.8:5555"));
}

// ---- ObserveLimiter: each budget dimension refuses independently ----

#[test]
fn per_session_budget_refuses_independently_of_source_and_global() {
    // Session budget = 2/min; global budget generous so it can never be the cause of a refusal
    // here. Each call uses a FRESH source IP, so the source dimension never fills either — only
    // the shared SESSION key can be what exhausts.
    let mut limiter = ObserveLimiter::new(2, 1000);
    let now = 0u64;
    assert!(limiter.allow("peer-a", ip("1.1.1.1"), now));
    assert!(limiter.allow("peer-a", ip("2.2.2.2"), now));
    assert!(
        !limiter.allow("peer-a", ip("3.3.3.3"), now),
        "peer-a's session budget of 2/min is exhausted, despite a brand-new source IP"
    );
}

#[test]
fn per_source_budget_refuses_independently_of_session_and_global() {
    // Source budget = 2/min (shares the per-session-per-minute parameter); global budget
    // generous. Each call uses a FRESH session id, so the session dimension never fills — only
    // the shared SOURCE IP can be what exhausts.
    let mut limiter = ObserveLimiter::new(2, 1000);
    let now = 0u64;
    let source = ip("9.9.9.9");
    assert!(limiter.allow("peer-a", source, now));
    assert!(limiter.allow("peer-b", source, now));
    assert!(
        !limiter.allow("peer-c", source, now),
        "the source IP's budget of 2/min is exhausted, despite a brand-new session id"
    );
}

#[test]
fn global_budget_refuses_even_when_session_and_source_have_room() {
    // Session/source budget generous; global budget = 2/sec. Every call uses a distinct
    // session AND source, so only the GLOBAL bucket can be what exhausts.
    let mut limiter = ObserveLimiter::new(1000, 2);
    let now = 0u64;
    assert!(limiter.allow("peer-a", ip("1.1.1.1"), now));
    assert!(limiter.allow("peer-b", ip("2.2.2.2"), now));
    assert!(
        !limiter.allow("peer-c", ip("3.3.3.3"), now),
        "the global budget of 2/sec is exhausted, despite fresh session and source"
    );
}

/// A request refused by a narrower budget spends NOTHING in any dimension — otherwise one abuser
/// hammering an already-exhausted session could still drain tokens meant for everyone else.
#[test]
fn a_request_refused_by_the_narrower_budgets_does_not_spend_a_global_token() {
    let mut limiter = ObserveLimiter::new(1, 2); // session/source = 1/min, global = 2/sec
    let now = 0u64;

    assert!(limiter.allow("peer-a", ip("1.1.1.1"), now)); // succeeds: session=0 left, global=1 left
    assert!(
        !limiter.allow("peer-a", ip("1.1.1.1"), now),
        "peer-a's own session budget is already exhausted"
    );
    // If that refusal had ALSO spent the remaining global token, this would now fail. It must
    // succeed: a refusal spends nothing beyond the dimension that refused it.
    assert!(
        limiter.allow("peer-b", ip("2.2.2.2"), now),
        "the global budget still has its second token — the refused retry above spent nothing"
    );
}

/// A new one-second window refills the global budget; a new one-minute window refills the
/// session/source budgets. Budgets are per-WINDOW, not lifetime totals.
#[test]
fn budgets_refill_in_a_new_window() {
    let mut limiter = ObserveLimiter::new(1, 1);
    assert!(limiter.allow("peer-a", ip("1.1.1.1"), 0));
    assert!(!limiter.allow("peer-a", ip("1.1.1.1"), 0));
    // 61 seconds later: a new one-minute window for session/source, and a new one-second window
    // for global.
    assert!(limiter.allow("peer-a", ip("1.1.1.1"), 61_000));
}

// ---- the LRU bound ----

#[test]
fn per_session_and_per_source_maps_stay_bounded_past_max_tracked_sources() {
    let mut limiter = ObserveLimiter::new(OBSERVE_PER_SESSION_PER_MINUTE, OBSERVE_GLOBAL_PER_SECOND);

    // Feed many more distinct (session, source) pairs than MAX_TRACKED_SOURCES; neither map may
    // exceed that bound no matter how many distinct callers are seen.
    for i in 0..(MAX_TRACKED_SOURCES as u64 + 5000) {
        let src = IpAddr::V4(Ipv4Addr {
            octets: [
                ((i >> 24) & 0xff) as u8,
                ((i >> 16) & 0xff) as u8,
                ((i >> 8) & 0xff) as u8,
                (i & 0xff) as u8,
            ],
        });
        limiter.allow(&format!("peer-{i}"), src, i);
    }

    assert!(
        limiter.tracked_sessions() <= MAX_TRACKED_SOURCES,
        "per-session map must stay bounded"
    );
    assert!(
        limiter.tracked_sources() <= MAX_TRACKED_SOURCES,
        "per-source map must stay bounded"
    );
}

// ---- further cases ----

/// A mapped IPv6 source shares its budget with its plain IPv4 twin: the source key is folded.
#[test]
fn a_mapped_source_shares_the_budget_of_its_ipv4_twin() {
    let mut limiter = ObserveLimiter::new(1, 1000);
    assert!(limiter.allow("peer-a", ip("9.9.9.9"), 0));
    assert!(!limiter.allow("peer-b", ip("::ffff:9.9.9.9"), 0));
    assert_eq!(limiter.tracked_sources(), 1);
}

/// A fresh limiter tracks nothing; one admitted request tracks one session and one source.
#[test]
fn a_fresh_limiter_tracks_nothing_until_asked() {
    let mut limiter = ObserveLimiter::new(6, 64);
    assert_eq!(limiter.tracked_sessions(), 0);
    assert_eq!(limiter.tracked_sources(), 0);
    assert!(limiter.allow("peer-a", ip("1.2.3.4"), 0));
    assert_eq!(limiter.tracked_sessions(), 1);
    assert_eq!(limiter.tracked_sources(), 1);
}

/// Within one window the global budget does not refill; one second later it does.
#[test]
fn the_global_budget_refills_after_one_second() {
    let mut limiter = ObserveLimiter::new(1000, 1);
    assert!(limiter.allow("peer-a", ip("1.1.1.1"), 0));
    assert!(!limiter.allow("peer-b", ip("2.2.2.2"), 999));
    assert!(limiter.allow("peer-c", ip("3.3.3.3"), 1000));
}
