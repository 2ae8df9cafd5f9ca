//! Provenance and agreement: how several untrusted readings of this node's own reflexive address
//! combine into something worth writing into an on-chain advertisement, or, failing that, into
//! nothing at all.
//!
//! Every outcome of [`establish`] but one refuses to name an address: a wrong
//! establishment puts an address into a coin, permanently, with collateral behind it; a wrong
//! non-establishment costs one epoch's rewards and is visible to the operator.
use vstd::prelude::*;

use crate::addr::{fold_ip, ip_eq, segment, spec_fold_ip, IpAddr, Ipv4Addr, Ipv6Addr, SocketAddr};
use crate::scope::{scope_of_ip, spec_scope_of_ip, Scope};

verus! {

/// Floor: an address needs at least this many independent source classes agreeing before it is
/// established. An assumption, not a derived constant.
pub const MIN_INDEPENDENT_CLASSES: usize = 2;

/// Floor when every agreeing class is a `peer:*` class: raised because two peer classes is
/// exactly two cheap VMs in two provider blocks, and three makes a full eclipse of the
/// requester's direct pool the only way to forge agreement.
pub const PEER_ONLY_MIN_CLASSES: usize = 3;

/// The grammar a reading's `source` follows. Each variant is one independence class; two
/// readings whose classes render the same string are the same class and cannot corroborate each
/// other.
#[derive(Debug, Clone, PartialEq, Eq)]
pub enum SourceClass {
    /// A server the operator configured. Each configured endpoint is its own class.
    Operator {
        /// The endpoint host, normalised the same way the operator's config entry was.
        host: String,
        /// The endpoint port.
        port: u16,
    },
    /// The DIG relay's co-located STUN server. One class per relay host.
    Relay {
        /// The relay's host.
        host: String,
    },
    /// A third-party public STUN host. One class per host.
    Public {
        /// The public STUN host.
        host: String,
    },
    /// A DIG peer answering over IPv4. One class per IPv4 `/16`.
    PeerV4 {
        /// The first octet of the peer's transport address.
        a: u8,
        /// The second octet of the peer's transport address.
        b: u8,
    },
    /// A DIG peer answering over IPv6. One class per IPv6 `/32`.
    PeerV6 {
        /// The first 16-bit group of the peer's transport address.
        h0: u16,
        /// The second 16-bit group of the peer's transport address.
        h1: u16,
    },
}

/// What a [`SourceClass`] holds, with each host as its characters.
pub enum ClassView {
    Operator { host: Seq<char>, port: u16 },
    Relay { host: Seq<char> },
    Public { host: Seq<char> },
    PeerV4 { a: u8, b: u8 },
    PeerV6 { h0: u16, h1: u16 },
}

impl View for SourceClass {
    type V = ClassView;

    open spec fn view(&self) -> ClassView {
        match self {
            SourceClass::Operator { host, port } => ClassView::Operator { host: host@, port: *port },
            SourceClass::Relay { host } => ClassView::Relay { host: host@ },
            SourceClass::Public { host } => ClassView::Public { host: host@ },
            SourceClass::PeerV4 { a, b } => ClassView::PeerV4 { a: *a, b: *b },
            SourceClass::PeerV6 { h0, h1 } => ClassView::PeerV6 { h0: *h0, h1: *h1 },
        }
    }
}

/// `operator:`
pub open spec fn operator_tag() -> Seq<char> {
    seq!['o', 'p', 'e', 'r', 'a', 't', 'o', 'r', ':']
}

/// `relay:`
pub open spec fn relay_tag() -> Seq<char> {
    seq!['r', 'e', 'l', 'a', 'y', ':']
}

/// `public:`
pub open spec fn public_tag() -> Seq<char> {
    seq!['p', 'u', 'b', 'l', 'i', 'c', ':']
}

/// `peer:v4:`
pub open spec fn peer_v4_tag() -> Seq<char> {
    seq!['p', 'e', 'e', 'r', ':', 'v', '4', ':']
}

/// `peer:v6:`
pub open spec fn peer_v6_tag() -> Seq<char> {
    seq!['p', 'e', 'e', 'r', ':', 'v', '6', ':']
}

/// The lowercase hexadecimal digit for `d < 16`.
pub open spec fn hex_digit(d: nat) -> char {
    if d == 0 { '0' }
    else if d == 1 { '1' }
    else if d == 2 { '2' }
    else if d == 3 { '3' }
    else if d == 4 { '4' }
    else if d == 5 { '5' }
    else if d == 6 { '6' }
    else if d == 7 { '7' }
    else if d == 8 { '8' }
    else if d == 9 { '9' }
    else if d == 10 { 'a' }
    else if d == 11 { 'b' }
    else if d == 12 { 'c' }
    else if d == 13 { 'd' }
    else if d == 14 { 'e' }
    else { 'f' }
}

/// `n` in decimal, without leading zeros.
pub open spec fn dec_digits(n: nat) -> Seq<char>
    decreases n,
{
    if n < 10 {
        seq![hex_digit(n)]
    } else {
        dec_digits(n / 10) + seq![hex_digit(n % 10)]
    }
}

/// `h` as exactly four lowercase hexadecimal digits, zero-padded.
pub open spec fn hex4(h: u16) -> Seq<char> {
    seq![
        hex_digit((h / 4096) as nat),
        hex_digit(((h / 256) % 16) as nat),
        hex_digit(((h / 16) % 16) as nat),
        hex_digit((h % 16) as nat),
    ]
}

/// The rendered form of a class: `operator:{host}:{port}`, `relay:{host}`, `public:{host}`,
/// `peer:v4:{a}.{b}` in decimal, `peer:v6:{h0}:{h1}` as four-digit lowercase hex.
pub open spec fn spec_render_class(c: ClassView) -> Seq<char> {
    match c {
        ClassView::Operator { host, port } => operator_tag() + host + seq![':'] + dec_digits(
            port as nat,
        ),
        ClassView::Relay { host } => relay_tag() + host,
        ClassView::Public { host } => public_tag() + host,
        ClassView::PeerV4 { a, b } => peer_v4_tag() + dec_digits(a as nat) + seq!['.']
            + dec_digits(b as nat),
        ClassView::PeerV6 { h0, h1 } => peer_v6_tag() + hex4(h0) + seq![':'] + hex4(h1),
    }
}

/// Whether `s` starts with `p`.
pub open spec fn has_prefix(s: Seq<char>, p: Seq<char>) -> bool {
    p.len() <= s.len() && s.subrange(0, p.len() as int) == p
}

/// The value of digit `c` in base 10 (`0`-`9`) or base 16 (`0`-`9`, `a`-`f`, `A`-`F`).
pub open spec fn digit_value(c: char, radix: nat) -> Option<nat> {
    if '0' <= c && c <= '9' {
        Some((c as int - '0' as int) as nat)
    } else if radix == 16 && 'a' <= c && c <= 'f' {
        Some((c as int - 'a' as int + 10) as nat)
    } else if radix == 16 && 'A' <= c && c <= 'F' {
        Some((c as int - 'A' as int + 10) as nat)
    } else {
        None
    }
}

/// Whether every character of `d` is a digit in `radix`.
pub open spec fn all_digits(d: Seq<char>, radix: nat) -> bool {
    forall|i: int| 0 <= i < d.len() ==> (#[trigger] digit_value(d[i], radix)) is Some
}

/// The value of the digit string `d` in `radix`, most significant digit first.
pub open spec fn digits_value(d: Seq<char>, radix: nat) -> nat
    decreases d.len(),
{
    if d.len() == 0 {
        0
    } else {
        digits_value(d.drop_last(), radix) * radix + match digit_value(d.last(), radix) {
            Some(v) => v,
            None => 0,
        }
    }
}

/// An unsigned integer no larger than `max`, as Rust's integer parsing reads it: an optional
/// leading `+`, then at least one digit in `radix`, and nothing else.
pub open spec fn spec_parse_uint(t: Seq<char>, radix: nat, max: nat) -> Option<nat> {
    let d = if t.len() > 0 && t[0] == '+' {
        t.drop_first()
    } else {
        t
    };
    if d.len() > 0 && all_digits(d, radix) && digits_value(d, radix) <= max {
        Some(digits_value(d, radix))
    } else {
        None
    }
}

/// The first index at or after `i` where `s` holds `c`.
pub open spec fn find_from(s: Seq<char>, c: char, i: int) -> Option<int>
    decreases s.len() - i,
{
    if i < 0 || i >= s.len() {
        None
    } else if s[i] == c {
        Some(i)
    } else {
        find_from(s, c, i + 1)
    }
}

/// The last index before `n` where `s` holds `c`.
pub open spec fn rfind_before(s: Seq<char>, c: char, n: int) -> Option<int>
    decreases n,
{
    if n <= 0 || n > s.len() {
        None
    } else if s[n - 1] == c {
        Some(n - 1)
    } else {
        rfind_before(s, c, n - 1)
    }
}

/// `peer:v4:{a}.{b}` from what follows the tag: split at the first `.`.
pub open spec fn spec_parse_peer_v4(rest: Seq<char>) -> Option<ClassView> {
    match find_from(rest, '.', 0) {
        None => None,
        Some(k) => match (
            spec_parse_uint(rest.take(k), 10, 255),
            spec_parse_uint(rest.skip(k + 1), 10, 255),
        ) {
            (Some(a), Some(b)) => Some(ClassView::PeerV4 { a: a as u8, b: b as u8 }),
            _ => None,
        },
    }
}

/// `peer:v6:{h0}:{h1}` from what follows the tag: split at the first `:`.
pub open spec fn spec_parse_peer_v6(rest: Seq<char>) -> Option<ClassView> {
    match find_from(rest, ':', 0) {
        None => None,
        Some(k) => match (
            spec_parse_uint(rest.take(k), 16, 65535),
            spec_parse_uint(rest.skip(k + 1), 16, 65535),
        ) {
            (Some(h0), Some(h1)) => Some(ClassView::PeerV6 { h0: h0 as u16, h1: h1 as u16 }),
            _ => None,
        },
    }
}

/// `operator:{host}:{port}` from what follows the tag: split at the last `:`.
pub open spec fn spec_parse_operator(rest: Seq<char>) -> Option<ClassView> {
    match rfind_before(rest, ':', rest.len() as int) {
        None => None,
        Some(k) => match spec_parse_uint(rest.skip(k + 1), 10, 65535) {
            Some(p) => Some(ClassView::Operator { host: rest.take(k), port: p as u16 }),
            None => None,
        },
    }
}

/// The class a rendered string names, tags tried in the order `operator:`, `relay:`, `public:`,
/// `peer:v4:`, `peer:v6:`; `None` for anything else.
pub open spec fn spec_parse_class(s: Seq<char>) -> Option<ClassView> {
    if has_prefix(s, operator_tag()) {
        spec_parse_operator(s.skip(9))
    } else if has_prefix(s, relay_tag()) {
        Some(ClassView::Relay { host: s.skip(6) })
    } else if has_prefix(s, public_tag()) {
        Some(ClassView::Public { host: s.skip(7) })
    } else if has_prefix(s, peer_v4_tag()) {
        spec_parse_peer_v4(s.skip(8))
    } else if has_prefix(s, peer_v6_tag()) {
        spec_parse_peer_v6(s.skip(8))
    } else {
        None
    }
}

/// The class of a DIG peer at transport address `ip`, taken after folding: the leading two
/// octets of an IPv4 address, the leading two 16-bit groups of an IPv6 one.
pub open spec fn spec_peer_class(ip: IpAddr) -> ClassView {
    match spec_fold_ip(ip) {
        IpAddr::V4(v4) => ClassView::PeerV4 { a: v4.octets[0], b: v4.octets[1] },
        IpAddr::V6(v6) => ClassView::PeerV6 {
            h0: segment(v6.octets, 0) as u16,
            h1: segment(v6.octets, 1) as u16,
        },
    }
}

/// Whether a class is one of the two `peer:*` forms.
pub open spec fn is_peer_view(c: ClassView) -> bool {
    c is PeerV4 || c is PeerV6
}

/// The view of an optional class.
pub open spec fn option_class_view(o: Option<SourceClass>) -> Option<ClassView> {
    match o {
        Some(c) => Some(c@),
        None => None,
    }
}

/// The one-character string for hexadecimal digit `d`.
fn digit_str(d: u32) -> (s: &'static str)
    requires
        d < 16,
    ensures
        s@ == seq![hex_digit(d as nat)],
{
    proof {
        reveal_strlit("0");
        reveal_strlit("1");
        reveal_strlit("2");
        reveal_strlit("3");
        reveal_strlit("4");
        reveal_strlit("5");
        reveal_strlit("6");
        reveal_strlit("7");
        reveal_strlit("8");
        reveal_strlit("9");
        reveal_strlit("a");
        reveal_strlit("b");
        reveal_strlit("c");
        reveal_strlit("d");
        reveal_strlit("e");
        reveal_strlit("f");
    }
    let s = match d {
        0 => "0",
        1 => "1",
        2 => "2",
        3 => "3",
        4 => "4",
        5 => "5",
        6 => "6",
        7 => "7",
        8 => "8",
        9 => "9",
        10 => "a",
        11 => "b",
        12 => "c",
        13 => "d",
        14 => "e",
        _ => "f",
    };
    assert(s@ =~= seq![hex_digit(d as nat)]);
    s
}

/// Append `n` in decimal.
fn push_decimal(out: &mut String, n: u32)
    ensures
        final(out)@ == old(out)@ + dec_digits(n as nat),
    decreases n,
{
    if n >= 10 {
        push_decimal(out, n / 10);
    }
    out.append(digit_str(n % 10));
    proof {
        if n >= 10 {
            assert(dec_digits(n as nat) == dec_digits((n / 10) as nat) + seq![hex_digit((n % 10) as nat)]);
        }
    }
    assert(out@ =~= old(out)@ + dec_digits(n as nat));
}

/// Append `h` as four lowercase hexadecimal digits.
fn push_hex4(out: &mut String, h: u16)
    ensures
        final(out)@ == old(out)@ + hex4(h),
{
    let h32 = h as u32;
    out.append(digit_str(h32 / 4096));
    out.append(digit_str((h32 / 256) % 16));
    out.append(digit_str((h32 / 16) % 16));
    out.append(digit_str(h32 % 16));
    assert(out@ =~= old(out)@ + hex4(h));
}

/// Whether `s` (of `n` characters) starts with `p`.
fn starts_with(s: &str, n: usize, p: &str) -> (r: bool)
    requires
        n == s@.len(),
    ensures
        r == has_prefix(s@, p@),
{
    let m = p.unicode_len();
    if m > n {
        return false;
    }
    let mut i: usize = 0;
    while i < m
        invariant
            m == p@.len(),
            m <= n,
            n == s@.len(),
            i <= m,
            forall|j: int| 0 <= j < i ==> s@[j] == p@[j],
        decreases m - i,
    {
        if s.get_char(i) != p.get_char(i) {
            assert(s@.subrange(0, m as int)[i as int] != p@[i as int]);
            return false;
        }
        i = i + 1;
    }
    assert(s@.subrange(0, m as int) =~= p@);
    true
}

/// The first index of `c` in `s` (of `n` characters).
fn find_char(s: &str, n: usize, c: char) -> (r: Option<usize>)
    requires
        n == s@.len(),
    ensures
        match r {
            Some(k) => k < n && find_from(s@, c, 0) == Some(k as int),
            None => find_from(s@, c, 0) is None,
        },
{
    let mut i: usize = 0;
    while i < n
        invariant
            n == s@.len(),
            i <= n,
            find_from(s@, c, 0) == find_from(s@, c, i as int),
        decreases n - i,
    {
        if s.get_char(i) == c {
            return Some(i);
        }
        i = i + 1;
    }
    None
}

/// The last index of `c` in `s` (of `n` characters).
fn rfind_char(s: &str, n: usize, c: char) -> (r: Option<usize>)
    requires
        n == s@.len(),
    ensures
        match r {
            Some(k) => k < n && rfind_before(s@, c, n as int) == Some(k as int),
            None => rfind_before(s@, c, n as int) is None,
        },
{
    let mut i: usize = n;
    while i > 0
        invariant
            n == s@.len(),
            i <= n,
            rfind_before(s@, c, n as int) == rfind_before(s@, c, i as int),
        decreases i,
    {
        if s.get_char(i - 1) == c {
            return Some(i - 1);
        }
        i = i - 1;
    }
    None
}

/// The value of digit `c` in `radix` (10 or 16).
fn digit_of(c: char, radix: u32) -> (r: Option<u32>)
    requires
        radix == 10 || radix == 16,
    ensures
        match digit_value(c, radix as nat) {
            Some(v) => r == Some(v as u32),
            None => r is None,
        },
{
    if '0' <= c && c <= '9' {
        Some((c as u32) - ('0' as u32))
    } else if radix == 16 && 'a' <= c && c <= 'f' {
        Some((c as u32) - ('a' as u32) + 10)
    } else if radix == 16 && 'A' <= c && c <= 'F' {
        Some((c as u32) - ('A' as u32) + 10)
    } else {
        None
    }
}

/// `v` when it is at most `max`, else `max + 1`.
pub open spec fn clamp(v: nat, max: nat) -> nat {
    if v > max {
        max + 1
    } else {
        v
    }
}

/// An unsigned integer no larger than `max` in `radix`, read as [`spec_parse_uint`] says.
fn parse_uint(t: &str, radix: u32, max: u32) -> (r: Option<u32>)
    requires
        radix == 10 || radix == 16,
        max <= 65535,
    ensures
        match spec_parse_uint(t@, radix as nat, max as nat) {
            Some(v) => r == Some(v as u32),
            None => r is None,
        },
{
    let n = t.unicode_len();
    let mut start: usize = 0;
    if n > 0 && t.get_char(0) == '+' {
        start = 1;
    }
    let ghost d = if t@.len() > 0 && t@[0] == '+' {
        t@.drop_first()
    } else {
        t@
    };
    assert(d =~= t@.subrange(start as int, n as int));
    if start == n {
        return None;
    }
    let mut acc: u32 = 0;
    let mut i: usize = start;
    while i < n
        invariant
            n == t@.len(),
            start <= i <= n,
            radix == 10 || radix == 16,
            max <= 65535,
            d == t@.subrange(start as int, n as int),
            d == (if t@.len() > 0 && t@[0] == '+' { t@.drop_first() } else { t@ }),
            acc as nat == clamp(digits_value(t@.subrange(start as int, i as int), radix as nat), max as nat),
            forall|j: int| start <= j < i ==> (#[trigger] digit_value(t@[j], radix as nat)) is Some,
        decreases n - i,
    {
        let c = t.get_char(i);
        match digit_of(c, radix) {
            None => {
                assert(d[i - start] == c);
                assert(digit_value(d[i - start], radix as nat) is None);
                assert(!all_digits(d, radix as nat));
                return None;
            },
            Some(dv) => {
                let ghost prev = t@.subrange(start as int, i as int);
                let ghost next = t@.subrange(start as int, i + 1);
                assert(next.drop_last() =~= prev);
                assert(digits_value(next, radix as nat) == digits_value(prev, radix as nat) * radix + dv);
                proof {
                    let v = digits_value(prev, radix as nat);
                    if v > max {
                        assert(v * radix >= v) by (nonlinear_arith)
                            requires radix >= 1;
                    }
                }
                if acc > max {
                    acc = max + 1;
                } else {
                    assert(acc * radix + dv <= 65535 * 16 + 15) by (nonlinear_arith)
                        requires acc <= 65535, radix <= 16, dv < 16;
                    let v = acc * radix + dv;
                    if v > max {
                        acc = max + 1;
                    } else {
                        acc = v;
                    }
                }
            },
        }
        i = i + 1;
    }
    assert(t@.subrange(start as int, n as int) == d);
    if acc > max {
        None
    } else {
        Some(acc)
    }
}

/// What follows `operator:`, split at the last `:` into host and decimal port.
fn parse_operator(rest: &str) -> (r: Option<SourceClass>)
    ensures
        option_class_view(r) == spec_parse_operator(rest@),
{
    let m = rest.unicode_len();
    match rfind_char(rest, m, ':') {
        None => None,
        Some(k) => match parse_uint(rest.substring_char(k + 1, m), 10, 65535) {
            Some(port) => {
                let host = rest.substring_char(0, k).to_owned();
                assert(host@ =~= rest@.take(k as int));
                assert(rest@.subrange(k + 1, m as int) =~= rest@.skip(k + 1));
                Some(SourceClass::Operator { host, port: port as u16 })
            },
            None => {
                assert(rest@.subrange(k + 1, m as int) =~= rest@.skip(k + 1));
                None
            },
        },
    }
}

/// What follows `peer:v4:`, split at the first `.` into two decimal octets.
fn parse_peer_v4(rest: &str) -> (r: Option<SourceClass>)
    ensures
        option_class_view(r) == spec_parse_peer_v4(rest@),
{
    let m = rest.unicode_len();
    match find_char(rest, m, '.') {
        None => None,
        Some(k) => {
            let a = parse_uint(rest.substring_char(0, k), 10, 255);
            let b = parse_uint(rest.substring_char(k + 1, m), 10, 255);
            assert(rest@.subrange(0, k as int) =~= rest@.take(k as int));
            assert(rest@.subrange(k + 1, m as int) =~= rest@.skip(k + 1));
            match (a, b) {
                (Some(a), Some(b)) => Some(SourceClass::PeerV4 { a: a as u8, b: b as u8 }),
                _ => None,
            }
        },
    }
}

/// What follows `peer:v6:`, split at the first `:` into two hexadecimal groups.
fn parse_peer_v6(rest: &str) -> (r: Option<SourceClass>)
    ensures
        option_class_view(r) == spec_parse_peer_v6(rest@),
{
    let m = rest.unicode_len();
    match find_char(rest, m, ':') {
        None => None,
        Some(k) => {
            let h0 = parse_uint(rest.substring_char(0, k), 16, 65535);
            let h1 = parse_uint(rest.substring_char(k + 1, m), 16, 65535);
            assert(rest@.subrange(0, k as int) =~= rest@.take(k as int));
            assert(rest@.subrange(k + 1, m as int) =~= rest@.skip(k + 1));
            match (h0, h1) {
                (Some(h0), Some(h1)) => Some(SourceClass::PeerV6 { h0: h0 as u16, h1: h1 as u16 }),
                _ => None,
            }
        },
    }
}

impl SourceClass {
    /// The class for a server the operator configured.
    pub fn operator(host: &str, port: u16) -> (r: SourceClass)
        ensures
            r@ == (ClassView::Operator { host: host@, port }),
    {
        SourceClass::Operator { host: host.to_owned(), port }
    }

    /// The class for the DIG relay's co-located STUN server.
    pub fn relay(host: &str) -> (r: SourceClass)
        ensures
            r@ == (ClassView::Relay { host: host@ }),
    {
        SourceClass::Relay { host: host.to_owned() }
    }

    /// The class for a third-party public STUN host.
    pub fn public(host: &str) -> (r: SourceClass)
        ensures
            r@ == (ClassView::Public { host: host@ }),
    {
        SourceClass::Public { host: host.to_owned() }
    }

    /// The class for a DIG peer, from the peer's transport address `ip`. `ip` is folded before
    /// its leading bytes are taken, so a mapped or compatible IPv6 peer renders the same class as
    /// its plain-IPv4 twin.
    pub fn peer(ip: IpAddr) -> (r: SourceClass)
        ensures
            r@ == spec_peer_class(ip),
    {
        match fold_ip(ip) {
            IpAddr::V4(v4) => SourceClass::PeerV4 { a: v4.octets[0], b: v4.octets[1] },
            IpAddr::V6(v6) => {
                let o = v6.octets;
                SourceClass::PeerV6 {
                    h0: (o[0] as u16) * 256 + (o[1] as u16),
                    h1: (o[2] as u16) * 256 + (o[3] as u16),
                }
            },
        }
    }

    /// Whether this class is one of the two `peer:*` forms.
    fn is_peer(&self) -> (r: bool)
        ensures
            r == is_peer_view(self@),
    {
        match self {
            SourceClass::PeerV4 { .. } => true,
            SourceClass::PeerV6 { .. } => true,
            _ => false,
        }
    }

    /// The rendered form of this class, the string a reading's `source` carries.
    pub fn to_string(&self) -> (r: String)
        ensures
            r@ == spec_render_class(self@),
    {
        proof {
            reveal_strlit("operator:");
            reveal_strlit("relay:");
            reveal_strlit("public:");
            reveal_strlit("peer:v4:");
            reveal_strlit("peer:v6:");
            reveal_strlit(":");
            reveal_strlit(".");
        }
        match self {
            SourceClass::Operator { host, port } => {
                let mut out = "operator:".to_owned();
                assert(out@ =~= operator_tag());
                out.append(host.as_str());
                out.append(":");
                assert(":"@ =~= seq![':']);
                push_decimal(&mut out, *port as u32);
                out
            },
            SourceClass::Relay { host } => {
                let mut out = "relay:".to_owned();
                assert(out@ =~= relay_tag());
                out.append(host.as_str());
                out
            },
            SourceClass::Public { host } => {
                let mut out = "public:".to_owned();
                assert(out@ =~= public_tag());
                out.append(host.as_str());
                out
            },
            SourceClass::PeerV4 { a, b } => {
                let mut out = "peer:v4:".to_owned();
                assert(out@ =~= peer_v4_tag());
                push_decimal(&mut out, *a as u32);
                out.append(".");
                assert("."@ =~= seq!['.']);
                push_decimal(&mut out, *b as u32);
                out
            },
            SourceClass::PeerV6 { h0, h1 } => {
                let mut out = "peer:v6:".to_owned();
                assert(out@ =~= peer_v6_tag());
                push_hex4(&mut out, *h0);
                out.append(":");
                assert(":"@ =~= seq![':']);
                push_hex4(&mut out, *h1);
                out
            },
        }
    }

    /// Parse a rendered class back out of the grammar; `None` for anything that is not one of
    /// its five forms.
    pub fn parse(s: &str) -> (r: Option<SourceClass>)
        ensures
            option_class_view(r) == spec_parse_class(s@),
    {
        proof {
            reveal_strlit("operator:");
            reveal_strlit("relay:");
            reveal_strlit("public:");
            reveal_strlit("peer:v4:");
            reveal_strlit("peer:v6:");
            assert("operator:"@ =~= operator_tag());
            assert("relay:"@ =~= relay_tag());
            assert("public:"@ =~= public_tag());
            assert("peer:v4:"@ =~= peer_v4_tag());
            assert("peer:v6:"@ =~= peer_v6_tag());
        }
        let n = s.unicode_len();
        if starts_with(s, n, "operator:") {
            parse_operator(s.substring_char(9, n))
        } else if starts_with(s, n, "relay:") {
            Some(SourceClass::Relay { host: s.substring_char(6, n).to_owned() })
        } else if starts_with(s, n, "public:") {
            Some(SourceClass::Public { host: s.substring_char(7, n).to_owned() })
        } else if starts_with(s, n, "peer:v4:") {
            parse_peer_v4(s.substring_char(8, n))
        } else if starts_with(s, n, "peer:v6:") {
            parse_peer_v6(s.substring_char(8, n))
        } else {
            None
        }
    }
}

/// A hexadecimal digit reads back as its value, in base 16 and, below ten, in base 10; it is
/// never a sign or a separator.
proof fn lemma_hex_digit(d: nat)
    requires
        d < 16,
    ensures
        digit_value(hex_digit(d), 16) == Some(d),
        d < 10 ==> digit_value(hex_digit(d), 10) == Some(d),
        hex_digit(d) != '+',
        hex_digit(d) != ':',
        hex_digit(d) != '.',
{
}

/// A decimal rendering reads back as the number it renders.
proof fn lemma_dec_digits(n: nat)
    ensures
        dec_digits(n).len() > 0,
        dec_digits(n)[0] != '+',
        all_digits(dec_digits(n), 10),
        digits_value(dec_digits(n), 10) == n,
        forall|i: int|
            0 <= i < dec_digits(n).len() ==> #[trigger] dec_digits(n)[i] != ':' && dec_digits(n)[i]
                != '.',
    decreases n,
{
    if n < 10 {
        lemma_hex_digit(n);
        let s = dec_digits(n);
        assert(s.drop_last() =~= Seq::<char>::empty());
        assert(digits_value(s.drop_last(), 10) == 0);
    } else {
        lemma_dec_digits(n / 10);
        lemma_hex_digit(n % 10);
        let s = dec_digits(n);
        let p = dec_digits(n / 10);
        assert(s.drop_last() =~= p);
        assert(s.last() == hex_digit(n % 10));
        assert(digits_value(s, 10) == digits_value(p, 10) * 10 + n % 10);
        assert forall|i: int| 0 <= i < s.len() implies (#[trigger] digit_value(s[i], 10)) is Some by {
            if i < p.len() {
                assert(s[i] == p[i]);
            }
        }
        assert forall|i: int| 0 <= i < s.len() implies #[trigger] s[i] != ':' && s[i] != '.' by {
            if i < p.len() {
                assert(s[i] == p[i]);
            }
        }
        assert(s[0] == p[0]);
    }
}

/// The arithmetic under a four-digit hexadecimal rendering.
proof fn lemma_hex4_value(h: u16)
    ensures
        (((h / 4096) * 16 + (h / 256) % 16) * 16 + (h / 16) % 16) * 16 + h % 16 == h,
        h / 4096 < 16,
{
    assert((((h / 4096) * 16 + (h / 256) % 16) * 16 + (h / 16) % 16) * 16 + h % 16 == h) by (bit_vector);
    assert(h / 4096 < 16) by (bit_vector);
}

/// A four-digit hexadecimal rendering reads back as the number it renders.
proof fn lemma_hex4(h: u16)
    ensures
        hex4(h).len() == 4,
        hex4(h)[0] != '+',
        all_digits(hex4(h), 16),
        digits_value(hex4(h), 16) == h,
        forall|i: int| 0 <= i < 4 ==> #[trigger] hex4(h)[i] != ':',
{
    let d0 = (h / 4096) as nat;
    let d1 = ((h / 256) % 16) as nat;
    let d2 = ((h / 16) % 16) as nat;
    let d3 = (h % 16) as nat;
    lemma_hex4_value(h);
    lemma_hex_digit(d0);
    lemma_hex_digit(d1);
    lemma_hex_digit(d2);
    lemma_hex_digit(d3);
    let s = hex4(h);
    let s3 = seq![hex_digit(d0), hex_digit(d1), hex_digit(d2)];
    let s2 = seq![hex_digit(d0), hex_digit(d1)];
    let s1 = seq![hex_digit(d0)];
    assert(s.drop_last() =~= s3);
    assert(s3.drop_last() =~= s2);
    assert(s2.drop_last() =~= s1);
    assert(s1.drop_last() =~= Seq::<char>::empty());
    assert(digits_value(Seq::<char>::empty(), 16) == 0);
    assert(digits_value(s1, 16) == d0);
    assert(digits_value(s2, 16) == d0 * 16 + d1);
    assert(digits_value(s3, 16) == (d0 * 16 + d1) * 16 + d2);
    assert(digits_value(s, 16) == ((d0 * 16 + d1) * 16 + d2) * 16 + d3);
    assert forall|i: int| 0 <= i < s.len() implies (#[trigger] digit_value(s[i], 16)) is Some by {
        assert(i == 0 || i == 1 || i == 2 || i == 3);
    }
}

/// The first `c` at or after `i` is at `k` when `s[k]` is `c` and nothing between is.
proof fn lemma_find_at(s: Seq<char>, c: char, i: int, k: int)
    requires
        0 <= i <= k < s.len(),
        s[k] == c,
        forall|j: int| i <= j < k ==> s[j] != c,
    ensures
        find_from(s, c, i) == Some(k),
    decreases k - i,
{
    if i < k {
        lemma_find_at(s, c, i + 1, k);
    }
}

/// The last `c` before `n` is at `k` when `s[k]` is `c` and nothing after it before `n` is.
proof fn lemma_rfind_at(s: Seq<char>, c: char, n: int, k: int)
    requires
        0 <= k < n <= s.len(),
        s[k] == c,
        forall|j: int| k < j < n ==> s[j] != c,
    ensures
        rfind_before(s, c, n) == Some(k),
    decreases n - k,
{
    if n - 1 > k {
        lemma_rfind_at(s, c, n - 1, k);
    }
}

/// A string that differs from `p` at a position both have does not start with `p`.
proof fn lemma_not_prefix(s: Seq<char>, p: Seq<char>, i: int)
    requires
        0 <= i < p.len(),
        i < s.len(),
        s[i] != p[i],
    ensures
        !has_prefix(s, p),
{
    if has_prefix(s, p) {
        assert(s.subrange(0, p.len() as int)[i] == s[i]);
    }
}

/// A string starts with the tag it was built from, and what follows is the rest.
proof fn lemma_tagged(tag: Seq<char>, rest: Seq<char>)
    ensures
        has_prefix(tag + rest, tag),
        (tag + rest).skip(tag.len() as int) == rest,
{
    assert((tag + rest).subrange(0, tag.len() as int) =~= tag);
    assert((tag + rest).skip(tag.len() as int) =~= rest);
}

/// A number in decimal reads back as itself when it is at most `max`.
proof fn lemma_parse_dec(n: nat, max: nat)
    requires
        n <= max,
    ensures
        spec_parse_uint(dec_digits(n), 10, max) == Some(n),
{
    lemma_dec_digits(n);
}

/// A four-digit hexadecimal group reads back as itself.
proof fn lemma_parse_hex4(h: u16)
    ensures
        spec_parse_uint(hex4(h), 16, 65535) == Some(h as nat),
{
    lemma_hex4(h);
}

/// What follows `operator:` in a rendering parses back: the port is split off at the last `:`,
/// and a decimal port holds none.
proof fn lemma_operator_rest(host: Seq<char>, port: u16)
    ensures
        spec_parse_operator(host + seq![':'] + dec_digits(port as nat)) == Some(
            ClassView::Operator { host, port },
        ),
{
    let digits = dec_digits(port as nat);
    let rest = host + seq![':'] + digits;
    lemma_dec_digits(port as nat);
    let k = host.len() as int;
    assert(rest[k] == ':');
    assert forall|j: int| k < j < rest.len() implies rest[j] != ':' by {
        assert(rest[j] == digits[j - k - 1]);
    }
    lemma_rfind_at(rest, ':', rest.len() as int, k);
    assert(rest.skip(k + 1) =~= digits);
    assert(rest.take(k) =~= host);
    lemma_parse_dec(port as nat, 65535);
}

/// `operator:{host}:{port}` parses back, whatever the host holds.
proof fn lemma_operator_round_trip(host: Seq<char>, port: u16)
    ensures
        spec_parse_class(spec_render_class(ClassView::Operator { host, port })) == Some(
            ClassView::Operator { host, port },
        ),
{
    let s = spec_render_class(ClassView::Operator { host, port });
    let rest = host + seq![':'] + dec_digits(port as nat);
    assert(s =~= operator_tag() + rest);
    lemma_tagged(operator_tag(), rest);
    lemma_operator_rest(host, port);
}

/// What follows `peer:v4:` in a rendering parses back: split at the first `.`.
proof fn lemma_peer_v4_rest(a: u8, b: u8)
    ensures
        spec_parse_peer_v4(dec_digits(a as nat) + seq!['.'] + dec_digits(b as nat)) == Some(
            ClassView::PeerV4 { a, b },
        ),
{
    let da = dec_digits(a as nat);
    let db = dec_digits(b as nat);
    let rest = da + seq!['.'] + db;
    lemma_dec_digits(a as nat);
    let k = da.len() as int;
    assert(rest[k] == '.');
    assert forall|j: int| 0 <= j < k implies rest[j] != '.' by {
        assert(rest[j] == da[j]);
    }
    lemma_find_at(rest, '.', 0, k);
    assert(rest.take(k) =~= da);
    assert(rest.skip(k + 1) =~= db);
    lemma_parse_dec(a as nat, 255);
    lemma_parse_dec(b as nat, 255);
}

/// `peer:v4:{a}.{b}` parses back.
proof fn lemma_peer_v4_round_trip(a: u8, b: u8)
    ensures
        spec_parse_class(spec_render_class(ClassView::PeerV4 { a, b })) == Some(
            ClassView::PeerV4 { a, b },
        ),
{
    let s = spec_render_class(ClassView::PeerV4 { a, b });
    let rest = dec_digits(a as nat) + seq!['.'] + dec_digits(b as nat);
    assert(s =~= peer_v4_tag() + rest);
    lemma_tagged(peer_v4_tag(), rest);
    lemma_not_prefix(s, operator_tag(), 0);
    lemma_not_prefix(s, relay_tag(), 0);
    lemma_not_prefix(s, public_tag(), 1);
    lemma_peer_v4_rest(a, b);
}

/// What follows `peer:v6:` in a rendering parses back: split at the first `:`.
proof fn lemma_peer_v6_rest(h0: u16, h1: u16)
    ensures
        spec_parse_peer_v6(hex4(h0) + seq![':'] + hex4(h1)) == Some(ClassView::PeerV6 { h0, h1 }),
{
    let g0 = hex4(h0);
    let g1 = hex4(h1);
    let rest = g0 + seq![':'] + g1;
    lemma_hex4(h0);
    assert(rest[4] == ':');
    assert forall|j: int| 0 <= j < 4 implies rest[j] != ':' by {
        assert(rest[j] == g0[j]);
    }
    lemma_find_at(rest, ':', 0, 4);
    assert(rest.take(4) =~= g0);
    assert(rest.skip(5) =~= g1);
    lemma_parse_hex4(h0);
    lemma_parse_hex4(h1);
}

/// `peer:v6:{h0}:{h1}` parses back.
proof fn lemma_peer_v6_round_trip(h0: u16, h1: u16)
    ensures
        spec_parse_class(spec_render_class(ClassView::PeerV6 { h0, h1 })) == Some(
            ClassView::PeerV6 { h0, h1 },
        ),
{
    let s = spec_render_class(ClassView::PeerV6 { h0, h1 });
    let rest = hex4(h0) + seq![':'] + hex4(h1);
    assert(s =~= peer_v6_tag() + rest);
    lemma_tagged(peer_v6_tag(), rest);
    lemma_not_prefix(s, operator_tag(), 0);
    lemma_not_prefix(s, relay_tag(), 0);
    lemma_not_prefix(s, public_tag(), 1);
    lemma_not_prefix(s, peer_v4_tag(), 6);
    lemma_peer_v6_rest(h0, h1);
}

/// Rendering a class and parsing the result gives the class back, for every class.
pub proof fn lemma_class_round_trip(c: ClassView)
    ensures
        spec_parse_class(spec_render_class(c)) == Some(c),
{
    let s = spec_render_class(c);
    match c {
        ClassView::Operator { host, port } => lemma_operator_round_trip(host, port),
        ClassView::Relay { host } => {
            assert(s =~= relay_tag() + host);
            lemma_tagged(relay_tag(), host);
            lemma_not_prefix(s, operator_tag(), 0);
        },
        ClassView::Public { host } => {
            assert(s =~= public_tag() + host);
            lemma_tagged(public_tag(), host);
            lemma_not_prefix(s, operator_tag(), 0);
            lemma_not_prefix(s, relay_tag(), 0);
        },
        ClassView::PeerV4 { a, b } => lemma_peer_v4_round_trip(a, b),
        ClassView::PeerV6 { h0, h1 } => lemma_peer_v6_round_trip(h0, h1),
    }
}

/// Lexicographic order on byte strings: the first differing byte decides.
pub open spec fn lex_lt(a: Seq<u8>, b: Seq<u8>) -> bool
    decreases a.len(),
{
    if a.len() == 0 || b.len() == 0 {
        false
    } else if a[0] != b[0] {
        a[0] < b[0]
    } else {
        lex_lt(a.drop_first(), b.drop_first())
    }
}

/// The order `std` gives IP addresses: every IPv4 address before every IPv6 one, and within a
/// family by octets, most significant first.
pub open spec fn ip_lt(a: IpAddr, b: IpAddr) -> bool {
    match (a, b) {
        (IpAddr::V4(x), IpAddr::V4(y)) => lex_lt(x.octets@, y.octets@),
        (IpAddr::V4(_), IpAddr::V6(_)) => true,
        (IpAddr::V6(_), IpAddr::V4(_)) => false,
        (IpAddr::V6(x), IpAddr::V6(y)) => lex_lt(x.octets@, y.octets@),
    }
}

/// Whether `q` is in strictly increasing address order (so holds no address twice).
pub open spec fn strictly_sorted(q: Seq<IpAddr>) -> bool {
    forall|i: int, j: int| 0 <= i < j < q.len() ==> ip_lt(#[trigger] q[i], #[trigger] q[j])
}

/// The addresses of `s` in increasing order, each once.
pub open spec fn sorted_ips(s: Set<IpAddr>) -> Seq<IpAddr> {
    choose|q: Seq<IpAddr>| strictly_sorted(q) && q.to_set() == s
}

/// Lexicographic order is irreflexive.
proof fn lemma_lex_irreflexive(a: Seq<u8>)
    ensures
        !lex_lt(a, a),
    decreases a.len(),
{
    if a.len() > 0 {
        lemma_lex_irreflexive(a.drop_first());
    }
}

/// Lexicographic order is transitive.
proof fn lemma_lex_transitive(a: Seq<u8>, b: Seq<u8>, c: Seq<u8>)
    requires
        lex_lt(a, b),
        lex_lt(b, c),
    ensures
        lex_lt(a, c),
    decreases a.len(),
{
    if a[0] == b[0] && b[0] == c[0] {
        lemma_lex_transitive(a.drop_first(), b.drop_first(), c.drop_first());
    }
}

/// Two distinct byte strings of one length are ordered one way or the other.
proof fn lemma_lex_total(a: Seq<u8>, b: Seq<u8>)
    requires
        a.len() == b.len(),
    ensures
        a =~= b || lex_lt(a, b) || lex_lt(b, a),
    decreases a.len(),
{
    if a.len() > 0 && a[0] == b[0] {
        lemma_lex_total(a.drop_first(), b.drop_first());
        if a.drop_first() =~= b.drop_first() {
            assert(a =~= seq![a[0]] + a.drop_first());
            assert(b =~= seq![b[0]] + b.drop_first());
        }
    }
}

/// Address order is a strict total order.
proof fn lemma_ip_order(a: IpAddr, b: IpAddr, c: IpAddr)
    ensures
        !ip_lt(a, a),
        ip_lt(a, b) && ip_lt(b, c) ==> ip_lt(a, c),
        a != b ==> ip_lt(a, b) || ip_lt(b, a),
{
    match a {
        IpAddr::V4(x) => lemma_lex_irreflexive(x.octets@),
        IpAddr::V6(x) => lemma_lex_irreflexive(x.octets@),
    }
    match (a, b, c) {
        (IpAddr::V4(x), IpAddr::V4(y), IpAddr::V4(z)) => {
            if ip_lt(a, b) && ip_lt(b, c) {
                lemma_lex_transitive(x.octets@, y.octets@, z.octets@);
            }
        },
        (IpAddr::V6(x), IpAddr::V6(y), IpAddr::V6(z)) => {
            if ip_lt(a, b) && ip_lt(b, c) {
                lemma_lex_transitive(x.octets@, y.octets@, z.octets@);
            }
        },
        _ => {},
    }
    match (a, b) {
        (IpAddr::V4(x), IpAddr::V4(y)) => {
            lemma_lex_total(x.octets@, y.octets@);
            if x.octets@ =~= y.octets@ {
                assert(x.octets =~= y.octets);
            }
        },
        (IpAddr::V6(x), IpAddr::V6(y)) => {
            lemma_lex_total(x.octets@, y.octets@);
            if x.octets@ =~= y.octets@ {
                assert(x.octets =~= y.octets);
            }
        },
        _ => {},
    }
}

/// Two strictly sorted address sequences holding the same addresses are the same sequence.
proof fn lemma_strictly_sorted_unique(x: Seq<IpAddr>, y: Seq<IpAddr>)
    requires
        strictly_sorted(x),
        strictly_sorted(y),
        x.to_set() == y.to_set(),
    ensures
        x == y,
    decreases x.len(),
{
    if x.len() == 0 {
        if y.len() > 0 {
            assert(y.to_set().contains(y[0]));
        }
        assert(x =~= y);
    } else {
        assert(x.to_set().contains(x[0]));
        assert(y.len() > 0);
        assert(y.to_set().contains(y[0]));
        let j = choose|j: int| 0 <= j < y.len() && y[j] == x[0];
        let i = choose|i: int| 0 <= i < x.len() && x[i] == y[0];
        if j > 0 {
            lemma_ip_order(y[0], y[j], y[0]);
            if i > 0 {
                lemma_ip_order(y[0], x[0], x[i]);
            }
            assert(false);
        }
        let xr = x.drop_first();
        let yr = y.drop_first();
        assert forall|z: IpAddr| xr.to_set().contains(z) implies yr.to_set().contains(z) by {
            let k = choose|k: int| 0 <= k < xr.len() && xr[k] == z;
            assert(x[k + 1] == z);
            assert(ip_lt(x[0], x[k + 1]));
            lemma_ip_order(z, z, z);
            assert(y.to_set().contains(z));
            let m = choose|m: int| 0 <= m < y.len() && y[m] == z;
            assert(m != 0);
            assert(yr[m - 1] == z);
        }
        assert forall|z: IpAddr| yr.to_set().contains(z) implies xr.to_set().contains(z) by {
            let k = choose|k: int| 0 <= k < yr.len() && yr[k] == z;
            assert(y[k + 1] == z);
            assert(ip_lt(y[0], y[k + 1]));
            lemma_ip_order(z, z, z);
            assert(x.to_set().contains(z));
            let m = choose|m: int| 0 <= m < x.len() && x[m] == z;
            assert(m != 0);
            assert(xr[m - 1] == z);
        }
        assert(xr.to_set() =~= yr.to_set());
        lemma_strictly_sorted_unique(xr, yr);
        assert(x =~= seq![x[0]] + xr);
        assert(y =~= seq![y[0]] + yr);
    }
}

/// A strictly sorted sequence of exactly the addresses of `s` is `sorted_ips(s)`.
proof fn lemma_sorted_ips(q: Seq<IpAddr>, s: Set<IpAddr>)
    requires
        strictly_sorted(q),
        q.to_set() == s,
    ensures
        sorted_ips(s) == q,
{
    let c = sorted_ips(s);
    assert(strictly_sorted(c) && c.to_set() == s);
    lemma_strictly_sorted_unique(c, q);
}

/// Lexicographic comparison of two byte strings of one length.
fn lex_less(a: &[u8], b: &[u8]) -> (r: bool)
    requires
        a@.len() == b@.len(),
    ensures
        r == lex_lt(a@, b@),
{
    let n = a.len();
    let mut i: usize = 0;
    assert(a@.skip(0) =~= a@);
    assert(b@.skip(0) =~= b@);
    while i < n
        invariant
            n == a@.len(),
            n == b@.len(),
            i <= n,
            lex_lt(a@, b@) == lex_lt(a@.skip(i as int), b@.skip(i as int)),
        decreases n - i,
    {
        assert(a@.skip(i as int).drop_first() =~= a@.skip(i + 1));
        assert(b@.skip(i as int).drop_first() =~= b@.skip(i + 1));
        if a[i] != b[i] {
            return a[i] < b[i];
        }
        i = i + 1;
    }
    false
}

/// Whether `a` comes before `b` in address order.
fn ip_less(a: &IpAddr, b: &IpAddr) -> (r: bool)
    ensures
        r == ip_lt(*a, *b),
{
    match (a, b) {
        (IpAddr::V4(x), IpAddr::V4(y)) => lex_less(x.octets.as_slice(), y.octets.as_slice()),
        (IpAddr::V4(_), IpAddr::V6(_)) => true,
        (IpAddr::V6(_), IpAddr::V4(_)) => false,
        (IpAddr::V6(x), IpAddr::V6(y)) => lex_less(x.octets.as_slice(), y.octets.as_slice()),
    }
}

/// Insert `ip` into the strictly sorted `v`, unless it is already there.
fn insert_sorted(v: &mut Vec<IpAddr>, ip: IpAddr)
    requires
        strictly_sorted(old(v)@),
    ensures
        strictly_sorted(final(v)@),
        final(v)@.to_set() == old(v)@.to_set().insert(ip),
{
    let n = v.len();
    let mut i: usize = 0;
    while i < n && ip_less(&v[i], &ip)
        invariant
            n == v@.len(),
            i <= n,
            forall|j: int| 0 <= j < i ==> ip_lt(#[trigger] v@[j], ip),
        decreases n - i,
    {
        i = i + 1;
    }
    if i < n && ip_eq(&v[i], &ip) {
        assert(v@.to_set().contains(ip));
        assert(v@.to_set().insert(ip) =~= v@.to_set());
        return;
    }
    let ghost before = v@;
    proof {
        if i < n {
            lemma_ip_order(ip, v@[i as int], ip);
        }
    }
    v.insert(i, ip);
    assert forall|a: int, b: int| 0 <= a < b < v@.len() implies ip_lt(#[trigger] v@[a], #[trigger] v@[b]) by {
        if b < i {
        } else if a < i && b == i {
        } else if a < i {
            lemma_ip_order(before[a], ip, before[b - 1]);
            lemma_ip_order(ip, before[i as int], before[b - 1]);
        } else if a == i {
            if b - 1 > i {
                lemma_ip_order(ip, before[i as int], before[b - 1]);
            }
        } else {
        }
    }
    assert(v@.to_set() =~= before.to_set().insert(ip)) by {
        assert forall|z: IpAddr| v@.to_set().contains(z) implies before.to_set().insert(ip).contains(z) by {
            let k = choose|k: int| 0 <= k < v@.len() && v@[k] == z;
            if k < i {
                assert(before[k] == z);
            } else if k > i {
                assert(before[k - 1] == z);
            }
        }
        assert forall|z: IpAddr| before.to_set().insert(ip).contains(z) implies v@.to_set().contains(z) by {
            if z == ip {
                assert(v@[i as int] == ip);
            } else {
                let k = choose|k: int| 0 <= k < before.len() && before[k] == z;
                if k < i {
                    assert(v@[k] == z);
                } else {
                    assert(v@[k + 1] == z);
                }
            }
        }
    }
}

/// One source's report of this node's reflexive address.
#[non_exhaustive]
#[derive(Debug, Clone)]
pub struct Reading {
    /// The independence class of whoever reported this, in its rendered form
    /// ([`SourceClass::to_string`]). Two readings corroborate each other exactly when their
    /// `source` strings differ and their addresses agree: string inequality is the only
    /// independence comparison this library defines.
    pub source: String,
    /// Optional identity of the individual reporter (a peer id, a resolved server address). For
    /// diagnostics only; never consulted by [`establish`].
    pub witness: Option<String>,
    /// The address the source said this node appears at. The port is carried but never
    /// compared: only the IP participates in agreement.
    pub addr: SocketAddr,
}

impl Reading {
    /// A reading with no witness.
    pub fn new(source: String, addr: SocketAddr) -> (r: Reading)
        ensures
            r.source == source,
            r.witness is None,
            r.addr == addr,
    {
        Reading { source, witness: None, addr }
    }

    /// The same reading with a witness identity attached, for diagnostics.
    pub fn with_witness(self, witness: &str) -> (r: Reading)
        ensures
            r.source == self.source,
            r.addr == self.addr,
            r.witness matches Some(w) && w@ == witness@,
    {
        let mut r = self;
        r.witness = Some(witness.to_owned());
        r
    }
}

/// The outcome for one address family.
#[derive(Debug, Clone, PartialEq, Eq)]
pub enum FamilyVerdict {
    /// No reading named an address in this family at all.
    NoReadings,
    /// More than one distinct IP was reported in this family: nothing is established, however
    /// many readings agree with each other, because a single dissenting source is treated as
    /// proof that something is wrong.
    Disagreement {
        /// The distinct IPs reported, sorted and deduplicated.
        addrs: Vec<IpAddr>,
    },
    /// The readings agree on one IP, but too few independent classes reported it.
    Insufficient {
        /// The number of distinct source classes that reported the agreed IP.
        classes: usize,
        /// Whether every one of those classes was a `peer:*` class; when true the floor is
        /// [`PEER_ONLY_MIN_CLASSES`] rather than [`MIN_INDEPENDENT_CLASSES`].
        peer_only: bool,
    },
    /// Enough independent classes agree, but the agreed IP is not [`Scope::GlobalUnicast`]: a
    /// true reading of the node's position, and still never something to advertise to strangers.
    NotGlobal {
        /// The agreed IP.
        ip: IpAddr,
        /// Its scope.
        scope: Scope,
    },
    /// The agreed IP is established: enough independent classes agree, unanimously, on a
    /// globally routable address.
    Established {
        /// The established IP.
        ip: IpAddr,
        /// How many independent classes agreed on it.
        classes: usize,
    },
}

/// What a [`FamilyVerdict`] holds.
pub enum VerdictView {
    NoReadings,
    Disagreement { addrs: Seq<IpAddr> },
    Insufficient { classes: nat, peer_only: bool },
    NotGlobal { ip: IpAddr, scope: Scope },
    Established { ip: IpAddr, classes: nat },
}

impl View for FamilyVerdict {
    type V = VerdictView;

    open spec fn view(&self) -> VerdictView {
        match self {
            FamilyVerdict::NoReadings => VerdictView::NoReadings,
            FamilyVerdict::Disagreement { addrs } => VerdictView::Disagreement { addrs: addrs@ },
            FamilyVerdict::Insufficient { classes, peer_only } => VerdictView::Insufficient {
                classes: *classes as nat,
                peer_only: *peer_only,
            },
            FamilyVerdict::NotGlobal { ip, scope } => VerdictView::NotGlobal { ip: *ip, scope: *scope },
            FamilyVerdict::Established { ip, classes } => VerdictView::Established {
                ip: *ip,
                classes: *classes as nat,
            },
        }
    }
}

/// The result of [`establish`]: one [`FamilyVerdict`] per address family, evaluated
/// independently.
#[derive(Debug, Clone, PartialEq, Eq)]
pub struct Established {
    /// The IPv6 family's verdict.
    pub ipv6: FamilyVerdict,
    /// The IPv4 family's verdict.
    pub ipv4: FamilyVerdict,
}

/// A reading as the decision sees it: its folded IP and its source string.
pub open spec fn reading_entry(r: Reading) -> (IpAddr, Seq<char>) {
    (spec_fold_ip(r.addr.ip), r.source@)
}

/// The readings of one family, in order: the IPv4 family holds every reading whose address is
/// IPv4 or folds to IPv4, the IPv6 family every other.
pub open spec fn family_entries(readings: Seq<Reading>, v4: bool) -> Seq<(IpAddr, Seq<char>)>
    decreases readings.len(),
{
    if readings.len() == 0 {
        Seq::empty()
    } else {
        let prev = family_entries(readings.drop_last(), v4);
        let r = readings.last();
        if (spec_fold_ip(r.addr.ip) is V4) == v4 {
            prev.push(reading_entry(r))
        } else {
            prev
        }
    }
}

/// The IPs of a family's entries, in order.
pub open spec fn ip_seq(e: Seq<(IpAddr, Seq<char>)>) -> Seq<IpAddr> {
    e.map_values(|x: (IpAddr, Seq<char>)| x.0)
}

/// The source strings of a family's entries, in order.
pub open spec fn source_seq(e: Seq<(IpAddr, Seq<char>)>) -> Seq<Seq<char>> {
    e.map_values(|x: (IpAddr, Seq<char>)| x.1)
}

/// Whether every entry names the same IP as the first.
pub open spec fn unanimous(e: Seq<(IpAddr, Seq<char>)>) -> bool {
    forall|i: int| 0 <= i < e.len() ==> (#[trigger] e[i]).0 == e[0].0
}

/// Whether every entry's source parses as a `peer:*` class.
pub open spec fn all_peer_sources(e: Seq<(IpAddr, Seq<char>)>) -> bool {
    forall|i: int|
        0 <= i < e.len() ==> match spec_parse_class((#[trigger] e[i]).1) {
            Some(c) => is_peer_view(c),
            None => false,
        }
}

/// The decision for one family: no entries; more than one distinct IP (all of them, sorted);
/// too few distinct sources (two, or three when every source is a peer class); an agreed IP
/// that is not globally routable; or the agreed IP, established.
pub open spec fn spec_family_verdict(e: Seq<(IpAddr, Seq<char>)>) -> VerdictView {
    if e.len() == 0 {
        VerdictView::NoReadings
    } else if !unanimous(e) {
        VerdictView::Disagreement { addrs: sorted_ips(ip_seq(e).to_set()) }
    } else {
        let n = source_seq(e).to_set().len();
        let peer_only = all_peer_sources(e);
        let ip = e[0].0;
        if n < MIN_INDEPENDENT_CLASSES {
            VerdictView::Insufficient { classes: n, peer_only }
        } else if peer_only && n < PEER_ONLY_MIN_CLASSES {
            VerdictView::Insufficient { classes: n, peer_only: true }
        } else if spec_scope_of_ip(ip) != Scope::GlobalUnicast {
            VerdictView::NotGlobal { ip, scope: spec_scope_of_ip(ip) }
        } else {
            VerdictView::Established { ip, classes: n }
        }
    }
}

/// The entries an executable family list stands for.
pub open spec fn entries_view(v: Seq<(IpAddr, &String)>) -> Seq<(IpAddr, Seq<char>)> {
    v.map_values(|p: (IpAddr, &String)| (p.0, p.1@))
}

/// The decision for the readings of one family.
fn verdict_for_family(entries: &Vec<(IpAddr, &String)>) -> (r: FamilyVerdict)
    ensures
        r@ == spec_family_verdict(entries_view(entries@)),
{
    let ghost e = entries_view(entries@);
    let n = entries.len();
    if n == 0 {
        return FamilyVerdict::NoReadings;
    }
    let first = entries[0].0;
    let mut agree = true;
    let mut i: usize = 0;
    while i < n
        invariant
            n == entries@.len(),
            e == entries_view(entries@),
            first == e[0].0,
            i <= n,
            agree == (forall|j: int| 0 <= j < i ==> (#[trigger] e[j]).0 == e[0].0),
        decreases n - i,
    {
        assert(e[i as int].0 == entries@[i as int].0);
        if !ip_eq(&entries[i].0, &first) {
            agree = false;
        }
        i = i + 1;
    }
    if !agree {
        let mut addrs: Vec<IpAddr> = Vec::new();
        let mut k: usize = 0;
        while k < n
            invariant
                n == entries@.len(),
                e == entries_view(entries@),
                k <= n,
                strictly_sorted(addrs@),
                addrs@.to_set() == ip_seq(e.take(k as int)).to_set(),
            decreases n - k,
        {
            assert(ip_seq(e.take(k + 1)) =~= ip_seq(e.take(k as int)).push(e[k as int].0));
            proof { ip_seq(e.take(k as int)).lemma_push_to_set_commute(e[k as int].0); }
            insert_sorted(&mut addrs, entries[k].0);
            k = k + 1;
        }
        assert(e.take(n as int) =~= e);
        proof {
            lemma_sorted_ips(addrs@, ip_seq(e).to_set());
        }
        return FamilyVerdict::Disagreement { addrs };
    }
    let mut classes: Vec<&String> = Vec::new();
    let ghost mut cv: Seq<Seq<char>> = Seq::empty();
    let mut k: usize = 0;
    while k < n
        invariant
            n == entries@.len(),
            e == entries_view(entries@),
            k <= n,
            cv.len() == classes@.len(),
            forall|j: int| 0 <= j < cv.len() ==> cv[j] == (#[trigger] classes@[j])@,
            cv.no_duplicates(),
            cv.to_set() == source_seq(e.take(k as int)).to_set(),
        decreases n - k,
    {
        let src: &String = entries[k].1;
        assert(source_seq(e.take(k + 1)) =~= source_seq(e.take(k as int)).push(src@));
        proof { source_seq(e.take(k as int)).lemma_push_to_set_commute(src@); }
        let mut seen = false;
        let mut m: usize = 0;
        while m < classes.len()
            invariant
                cv.len() == classes@.len(),
                forall|j: int| 0 <= j < cv.len() ==> cv[j] == (#[trigger] classes@[j])@,
                m <= classes@.len(),
                seen == (exists|j: int| 0 <= j < m && cv[j] == src@),
            decreases classes@.len() - m,
        {
            let c: &String = classes[m];
            if c.eq(src) {
                seen = true;
            }
            m = m + 1;
        }
        if !seen {
            proof {
                cv.lemma_push_to_set_commute(src@);
                assert forall|a: int, b: int| 0 <= a < b < cv.push(src@).len() implies cv.push(src@)[a] != cv.push(src@)[b] by {
                    if b == cv.len() {
                        assert(cv[a] != src@);
                    }
                }
                cv = cv.push(src@);
            }
            classes.push(src);
        } else {
            proof {
                let j = choose|j: int| 0 <= j < cv.len() && cv[j] == src@;
                assert(cv.to_set().contains(src@));
                assert(cv.to_set().insert(src@) =~= cv.to_set());
            }
        }
        k = k + 1;
    }
    assert(e.take(n as int) =~= e);
    proof {
        cv.unique_seq_to_set();
    }
    let count = classes.len();
    let mut peer_only = true;
    let mut p: usize = 0;
    while p < n
        invariant
            n == entries@.len(),
            e == entries_view(entries@),
            p <= n,
            peer_only == (forall|j: int|
                0 <= j < p ==> match spec_parse_class((#[trigger] e[j]).1) {
                    Some(c) => is_peer_view(c),
                    None => false,
                }),
        decreases n - p,
    {
        assert(e[p as int].1 == entries@[p as int].1@);
        let is_peer = match SourceClass::parse(entries[p].1.as_str()) {
            Some(c) => c.is_peer(),
            None => false,
        };
        if !is_peer {
            peer_only = false;
        }
        p = p + 1;
    }
    if count < MIN_INDEPENDENT_CLASSES {
        return FamilyVerdict::Insufficient { classes: count, peer_only };
    }
    if peer_only && count < PEER_ONLY_MIN_CLASSES {
        return FamilyVerdict::Insufficient { classes: count, peer_only: true };
    }
    let scope = scope_of_ip(first);
    if scope != Scope::GlobalUnicast {
        return FamilyVerdict::NotGlobal { ip: first, scope };
    }
    FamilyVerdict::Established { ip: first, classes: count }
}

/// Combine untrusted `readings` of this node's own reflexive address into a verdict per address
/// family.
///
/// A reading belongs to the IPv4 family when its address is IPv4, or folds to IPv4; otherwise
/// IPv6. Non-answers (a timeout, a refusal, a parse error) are not readings and must not be
/// passed here: they neither agree nor dissent.
pub fn establish(readings: &[Reading]) -> (r: Established)
    ensures
        r.ipv4@ == spec_family_verdict(family_entries(readings@, true)),
        r.ipv6@ == spec_family_verdict(family_entries(readings@, false)),
{
    let mut ipv4: Vec<(IpAddr, &String)> = Vec::new();
    let mut ipv6: Vec<(IpAddr, &String)> = Vec::new();
    let n = readings.len();
    let mut i: usize = 0;
    while i < n
        invariant
            n == readings@.len(),
            i <= n,
            entries_view(ipv4@) == family_entries(readings@.take(i as int), true),
            entries_view(ipv6@) == family_entries(readings@.take(i as int), false),
        decreases n - i,
    {
        let reading = &readings[i];
        let folded = fold_ip(reading.addr.ip);
        assert(readings@.take(i + 1).drop_last() =~= readings@.take(i as int));
        assert(readings@.take(i + 1).last() == readings@[i as int]);
        match folded {
            IpAddr::V4(_) => {
                ipv4.push((folded, &reading.source));
                assert(entries_view(ipv4@) =~= family_entries(readings@.take(i as int), true).push(
                    reading_entry(readings@[i as int]),
                ));
            },
            IpAddr::V6(_) => {
                ipv6.push((folded, &reading.source));
                assert(entries_view(ipv6@) =~= family_entries(readings@.take(i as int), false).push(
                    reading_entry(readings@[i as int]),
                ));
            },
        }
        i = i + 1;
    }
    assert(readings@.take(n as int) =~= readings@);
    Established { ipv4: verdict_for_family(&ipv4), ipv6: verdict_for_family(&ipv6) }
}

impl Established {
    /// The IPv6 address the readings agreed on, when that family's verdict names one; `None`
    /// for every other verdict.
    pub fn ipv6_addr(&self) -> (r: Option<Ipv6Addr>)
        ensures
            r == (match self.ipv6@ {
                VerdictView::Established { ip: IpAddr::V6(v6), .. } => Some(v6),
                _ => None,
            }),
    {
        match &self.ipv6 {
            FamilyVerdict::Established { ip: IpAddr::V6(v6), .. } => Some(*v6),
            _ => None,
        }
    }

    /// The IPv4 address the readings agreed on, when that family's verdict names one; `None`
    /// for every other verdict.
    pub fn ipv4_addr(&self) -> (r: Option<Ipv4Addr>)
        ensures
            r == (match self.ipv4@ {
                VerdictView::Established { ip: IpAddr::V4(v4), .. } => Some(v4),
                _ => None,
            }),
    {
        match &self.ipv4 {
            FamilyVerdict::Established { ip: IpAddr::V4(v4), .. } => Some(*v4),
            _ => None,
        }
    }
}

/// Inserting an address into a strictly sorted sequence that lacks it leaves a strictly sorted
/// sequence of one more address.
proof fn lemma_insert_sorted_exists(q: Seq<IpAddr>, x: IpAddr) -> (r: Seq<IpAddr>)
    requires
        strictly_sorted(q),
        !q.contains(x),
    ensures
        strictly_sorted(r),
        r.to_set() == q.to_set().insert(x),
    decreases q.len(),
{
    broadcast use vstd::seq_lib::group_seq_properties;

    if q.len() == 0 {
        let r = seq![x];
        assert(r.to_set() =~= q.to_set().insert(x)) by {
            assert forall|z: IpAddr| r.to_set().contains(z) implies q.to_set().insert(x).contains(z) by {
                assert(r[0] == z);
            }
            assert(r.contains(x));
        }
        r
    } else {
        lemma_ip_order(x, q[0], x);
        if ip_lt(x, q[0]) {
            let r = seq![x] + q;
            assert forall|a: int, b: int| 0 <= a < b < r.len() implies ip_lt(#[trigger] r[a], #[trigger] r[b]) by {
                if a == 0 && b > 1 {
                    lemma_ip_order(x, q[0], q[b - 1]);
                }
            }
            assert(r.to_set() =~= q.to_set().insert(x)) by {
                assert forall|z: IpAddr| r.to_set().contains(z) implies q.to_set().insert(x).contains(z) by {
                    let k = choose|k: int| 0 <= k < r.len() && r[k] == z;
                    if k > 0 {
                        assert(q[k - 1] == z);
                    }
                }
                assert forall|z: IpAddr| q.to_set().insert(x).contains(z) implies r.to_set().contains(z) by {
                    if z == x {
                        assert(r[0] == x);
                    } else {
                        let k = choose|k: int| 0 <= k < q.len() && q[k] == z;
                        assert(r[k + 1] == z);
                    }
                }
            }
            r
        } else {
            let tail = q.drop_first();
            assert(!tail.contains(x)) by {
                if tail.contains(x) {
                    let k = choose|k: int| 0 <= k < tail.len() && tail[k] == x;
                    assert(q[k + 1] == x);
                }
            }
            let t2 = lemma_insert_sorted_exists(tail, x);
            let r = seq![q[0]] + t2;
            assert forall|k: int| 0 <= k < t2.len() implies ip_lt(q[0], #[trigger] t2[k]) by {
                assert(t2.to_set().contains(t2[k]));
                if t2[k] != x {
                    assert(tail.to_set().contains(t2[k]));
                    let m = choose|m: int| 0 <= m < tail.len() && tail[m] == t2[k];
                    assert(q[m + 1] == t2[k]);
                }
            }
            assert forall|a: int, b: int| 0 <= a < b < r.len() implies ip_lt(#[trigger] r[a], #[trigger] r[b]) by {
                if a == 0 {
                    assert(r[b] == t2[b - 1]);
                } else {
                    assert(r[a] == t2[a - 1]);
                    assert(r[b] == t2[b - 1]);
                }
            }
            assert(r.to_set() =~= q.to_set().insert(x)) by {
                assert forall|z: IpAddr| r.to_set().contains(z) implies q.to_set().insert(x).contains(z) by {
                    let k = choose|k: int| 0 <= k < r.len() && r[k] == z;
                    if k > 0 {
                        assert(t2.to_set().contains(t2[k - 1]));
                        if z != x {
                            assert(tail.to_set().contains(z));
                            let m = choose|m: int| 0 <= m < tail.len() && tail[m] == z;
                            assert(q[m + 1] == z);
                        }
                    } else {
                        assert(q[0] == z);
                    }
                }
                assert forall|z: IpAddr| q.to_set().insert(x).contains(z) implies r.to_set().contains(z) by {
                    if z == q[0] {
                        assert(r[0] == z);
                    } else {
                        if z != x {
                            let k = choose|k: int| 0 <= k < q.len() && q[k] == z;
                            assert(tail[k - 1] == z);
                            assert(tail.to_set().contains(z));
                        }
                        assert(t2.to_set().contains(z));
                        let m = choose|m: int| 0 <= m < t2.len() && t2[m] == z;
                        assert(r[m + 1] == z);
                    }
                }
            }
            r
        }
    }
}

/// Every finite set of addresses has its sorted listing.
proof fn lemma_sorted_ips_exists(s: Set<IpAddr>)
    requires
        s.finite(),
    ensures
        strictly_sorted(sorted_ips(s)),
        sorted_ips(s).to_set() == s,
    decreases s.len(),
{
    if s.len() == 0 {
        let q = Seq::<IpAddr>::empty();
        assert(q.to_set() =~= s);
        lemma_sorted_ips(q, s);
    } else {
        let x = s.choose();
        let rest = s.remove(x);
        lemma_sorted_ips_exists(rest);
        let q = sorted_ips(rest);
        assert(!q.contains(x)) by {
            if q.contains(x) {
                assert(q.to_set().contains(x));
            }
        }
        let r = lemma_insert_sorted_exists(q, x);
        assert(r.to_set() =~= s);
        lemma_sorted_ips(r, s);
    }
}

/// Unanimity: when two readings of one family name different IPs, nothing is established; the
/// verdict is a disagreement listing every IP the family's readings named, sorted, each once,
/// however many sources agreed on any one of them.
pub proof fn lemma_dissent_blocks(readings: Seq<Reading>, v4: bool, i: int, j: int)
    requires
        0 <= i < family_entries(readings, v4).len(),
        0 <= j < family_entries(readings, v4).len(),
        family_entries(readings, v4)[i].0 != family_entries(readings, v4)[j].0,
    ensures
        ({
            let e = family_entries(readings, v4);
            &&& spec_family_verdict(e) matches VerdictView::Disagreement { addrs }
            &&& strictly_sorted(addrs)
            &&& addrs.to_set() == ip_seq(e).to_set()
            &&& addrs.contains(e[i].0)
            &&& addrs.contains(e[j].0)
        }),
{
    let e = family_entries(readings, v4);
    assert(!unanimous(e)) by {
        if unanimous(e) {
            assert(e[i].0 == e[0].0);
            assert(e[j].0 == e[0].0);
        }
    }
    lemma_sorted_ips_exists(ip_seq(e).to_set());
    let addrs = sorted_ips(ip_seq(e).to_set());
    assert(ip_seq(e)[i] == e[i].0);
    assert(ip_seq(e)[j] == e[j].0);
    assert(ip_seq(e).to_set().contains(e[i].0));
    assert(ip_seq(e).to_set().contains(e[j].0));
    assert(addrs.to_set().contains(e[i].0));
    assert(addrs.to_set().contains(e[j].0));
}

/// Fail-closed: a family is established only on a globally routable IP that every reading of
/// the family named, reported by at least [`MIN_INDEPENDENT_CLASSES`] distinct sources, and by
/// at least [`PEER_ONLY_MIN_CLASSES`] when every source is a peer class.
pub proof fn lemma_established_needs_agreement(readings: Seq<Reading>, v4: bool)
    requires
        spec_family_verdict(family_entries(readings, v4)) is Established,
    ensures
        ({
            let e = family_entries(readings, v4);
            let n = source_seq(e).to_set().len();
            &&& spec_family_verdict(e) matches VerdictView::Established { ip, classes }
            &&& e.len() > 0
            &&& (forall|k: int| 0 <= k < e.len() ==> (#[trigger] e[k]).0 == ip)
            &&& spec_scope_of_ip(ip) == Scope::GlobalUnicast
            &&& classes == n
            &&& n >= MIN_INDEPENDENT_CLASSES
            &&& (all_peer_sources(e) ==> n >= PEER_ONLY_MIN_CLASSES)
        }),
{
}

/// A family's verdict depends only on the folded IPs and the source strings of its readings:
/// ports and witnesses are never compared.
pub proof fn lemma_only_ips_and_sources_matter(r1: Seq<Reading>, r2: Seq<Reading>, v4: bool)
    requires
        r1.len() == r2.len(),
        forall|k: int|
            0 <= k < r1.len() ==> (#[trigger] r1[k]).source@ == r2[k].source@ && r1[k].addr.ip
                == r2[k].addr.ip,
    ensures
        family_entries(r1, v4) == family_entries(r2, v4),
        spec_family_verdict(family_entries(r1, v4)) == spec_family_verdict(family_entries(r2, v4)),
    decreases r1.len(),
{
    if r1.len() > 0 {
        let a = r1.drop_last();
        let b = r2.drop_last();
        assert forall|k: int| 0 <= k < a.len() implies (#[trigger] a[k]).source@ == b[k].source@
            && a[k].addr.ip == b[k].addr.ip by {
            assert(a[k] == r1[k]);
            assert(b[k] == r2[k]);
        }
        lemma_only_ips_and_sources_matter(a, b, v4);
        assert(r1.last() == r1[r1.len() - 1]);
        assert(r2.last() == r2[r2.len() - 1]);
    }
}

/// The two families split the readings: every IPv4-family entry is IPv4 (a mapped or
/// compatible IPv6 reading included, folded), every IPv6-family entry is native IPv6, and every
/// reading lands in exactly one of them.
pub proof fn lemma_families_partition(readings: Seq<Reading>)
    ensures
        family_entries(readings, true).len() + family_entries(readings, false).len()
            == readings.len(),
        forall|k: int|
            0 <= k < family_entries(readings, true).len() ==> (#[trigger] family_entries(
                readings,
                true,
            )[k]).0 is V4,
        forall|k: int|
            0 <= k < family_entries(readings, false).len() ==> (#[trigger] family_entries(
                readings,
                false,
            )[k]).0 is V6,
    decreases readings.len(),
{
    if readings.len() > 0 {
        lemma_families_partition(readings.drop_last());
    }
}

/// Two peers share a class exactly when their folded transport addresses share an IPv4 `/16`,
/// or an IPv6 `/32`.
pub proof fn lemma_peer_class_partition(x: IpAddr, y: IpAddr)
    ensures
        spec_peer_class(x) == spec_peer_class(y) <==> match (spec_fold_ip(x), spec_fold_ip(y)) {
            (IpAddr::V4(a), IpAddr::V4(b)) => a.octets[0] == b.octets[0] && a.octets[1]
                == b.octets[1],
            (IpAddr::V6(a), IpAddr::V6(b)) => a.octets[0] == b.octets[0] && a.octets[1]
                == b.octets[1] && a.octets[2] == b.octets[2] && a.octets[3] == b.octets[3],
            _ => false,
        },
{
    match (spec_fold_ip(x), spec_fold_ip(y)) {
        (IpAddr::V6(a), IpAddr::V6(b)) => {
            let (a0, a1, a2, a3) = (a.octets[0], a.octets[1], a.octets[2], a.octets[3]);
            let (b0, b1, b2, b3) = (b.octets[0], b.octets[1], b.octets[2], b.octets[3]);
            assert((a0 as int * 256 + a1 as int) as u16 == (b0 as int * 256 + b1 as int) as u16
                ==> a0 == b0 && a1 == b1) by (nonlinear_arith);
            assert((a2 as int * 256 + a3 as int) as u16 == (b2 as int * 256 + b3 as int) as u16
                ==> a2 == b2 && a3 == b3) by (nonlinear_arith);
        },
        _ => {},
    }
}

/// A family's entries are exactly the entries of the readings in that family.
proof fn lemma_family_entries_contains(r: Seq<Reading>, v4: bool, p: (IpAddr, Seq<char>))
    ensures
        family_entries(r, v4).contains(p) <==> exists|k: int|
            0 <= k < r.len() && (spec_fold_ip(r[k].addr.ip) is V4) == v4 && #[trigger] reading_entry(
                r[k],
            ) == p,
    decreases r.len(),
{
    broadcast use vstd::seq_lib::group_seq_properties;

    if r.len() > 0 {
        let prev = r.drop_last();
        let last = r.last();
        lemma_family_entries_contains(prev, v4, p);
        let e = family_entries(r, v4);
        let pe = family_entries(prev, v4);
        if e.contains(p) {
            if pe.contains(p) {
                let k = choose|k: int|
                    0 <= k < prev.len() && (spec_fold_ip(prev[k].addr.ip) is V4) == v4
                        && #[trigger] reading_entry(prev[k]) == p;
                assert(r[k] == prev[k]);
            } else {
                assert((spec_fold_ip(last.addr.ip) is V4) == v4);
                assert(e == pe.push(reading_entry(last)));
                assert(reading_entry(last) == p);
                assert(r[r.len() - 1] == last);
            }
        }
        if exists|k: int|
            0 <= k < r.len() && (spec_fold_ip(r[k].addr.ip) is V4) == v4 && #[trigger] reading_entry(
                r[k],
            ) == p {
            let k = choose|k: int|
                0 <= k < r.len() && (spec_fold_ip(r[k].addr.ip) is V4) == v4
                    && #[trigger] reading_entry(r[k]) == p;
            if k < r.len() - 1 {
                assert(prev[k] == r[k]);
                assert(pe.contains(p));
            } else {
                assert(r[k] == last);
                assert(e == pe.push(p));
                assert(e[e.len() - 1] == p);
            }
        }
    }
}

/// A family is unanimous exactly when every two of its entries name one IP.
proof fn lemma_unanimous_by_membership(e: Seq<(IpAddr, Seq<char>)>)
    ensures
        unanimous(e) <==> forall|a: (IpAddr, Seq<char>), b: (IpAddr, Seq<char>)|
            e.contains(a) && e.contains(b) ==> a.0 == b.0,
{
    if unanimous(e) {
        assert forall|a: (IpAddr, Seq<char>), b: (IpAddr, Seq<char>)|
            e.contains(a) && e.contains(b) implies a.0 == b.0 by {
            let i = choose|i: int| 0 <= i < e.len() && e[i] == a;
            let j = choose|j: int| 0 <= j < e.len() && e[j] == b;
            assert(e[i].0 == e[0].0);
            assert(e[j].0 == e[0].0);
        }
    }
    if forall|a: (IpAddr, Seq<char>), b: (IpAddr, Seq<char>)|
        e.contains(a) && e.contains(b) ==> a.0 == b.0 {
        assert forall|i: int| 0 <= i < e.len() implies (#[trigger] e[i]).0 == e[0].0 by {
            assert(e.contains(e[i]));
            assert(e.contains(e[0]));
        }
    }
}

/// The decision for one family looks only at which entries it holds: not at their order, and
/// not at how often one is repeated.
proof fn lemma_verdict_by_membership(e1: Seq<(IpAddr, Seq<char>)>, e2: Seq<(IpAddr, Seq<char>)>)
    requires
        forall|p: (IpAddr, Seq<char>)| e1.contains(p) <==> e2.contains(p),
    ensures
        spec_family_verdict(e1) == spec_family_verdict(e2),
{
    if e1.len() > 0 {
        assert(e1.contains(e1[0]));
    }
    if e2.len() > 0 {
        assert(e2.contains(e2[0]));
    }
    lemma_unanimous_by_membership(e1);
    lemma_unanimous_by_membership(e2);
    assert(ip_seq(e1).to_set() =~= ip_seq(e2).to_set()) by {
        assert forall|z: IpAddr| ip_seq(e1).to_set().contains(z) implies ip_seq(e2).to_set().contains(z) by {
            let i = choose|i: int| 0 <= i < ip_seq(e1).len() && ip_seq(e1)[i] == z;
            assert(e1.contains(e1[i]));
            let j = choose|j: int| 0 <= j < e2.len() && e2[j] == e1[i];
            assert(ip_seq(e2)[j] == z);
        }
        assert forall|z: IpAddr| ip_seq(e2).to_set().contains(z) implies ip_seq(e1).to_set().contains(z) by {
            let i = choose|i: int| 0 <= i < ip_seq(e2).len() && ip_seq(e2)[i] == z;
            assert(e2.contains(e2[i]));
            let j = choose|j: int| 0 <= j < e1.len() && e1[j] == e2[i];
            assert(ip_seq(e1)[j] == z);
        }
    }
    assert(source_seq(e1).to_set() =~= source_seq(e2).to_set()) by {
        assert forall|z: Seq<char>| source_seq(e1).to_set().contains(z) implies source_seq(e2).to_set().contains(z) by {
            let i = choose|i: int| 0 <= i < source_seq(e1).len() && source_seq(e1)[i] == z;
            assert(e1.contains(e1[i]));
            let j = choose|j: int| 0 <= j < e2.len() && e2[j] == e1[i];
            assert(source_seq(e2)[j] == z);
        }
        assert forall|z: Seq<char>| source_seq(e2).to_set().contains(z) implies source_seq(e1).to_set().contains(z) by {
            let i = choose|i: int| 0 <= i < source_seq(e2).len() && source_seq(e2)[i] == z;
            assert(e2.contains(e2[i]));
            let j = choose|j: int| 0 <= j < e1.len() && e1[j] == e2[i];
            assert(source_seq(e1)[j] == z);
        }
    }
    assert(all_peer_sources(e1) == all_peer_sources(e2)) by {
        if all_peer_sources(e1) {
            assert forall|i: int| 0 <= i < e2.len() implies match spec_parse_class((#[trigger] e2[i]).1) {
                Some(c) => is_peer_view(c),
                None => false,
            } by {
                assert(e2.contains(e2[i]));
                let j = choose|j: int| 0 <= j < e1.len() && e1[j] == e2[i];
                assert(e1[j] == e2[i]);
            }
        }
        if all_peer_sources(e2) {
            assert forall|i: int| 0 <= i < e1.len() implies match spec_parse_class((#[trigger] e1[i]).1) {
                Some(c) => is_peer_view(c),
                None => false,
            } by {
                assert(e1.contains(e1[i]));
                let j = choose|j: int| 0 <= j < e2.len() && e2[j] == e1[i];
                assert(e2[j] == e1[i]);
            }
        }
    }
    if e1.len() > 0 && unanimous(e1) {
        assert(e2.contains(e1[0]));
        assert(e1[0].0 == e2[0].0);
    }
}

/// The verdict of each family depends only on which readings were given: reordering them, or
/// repeating one, changes nothing.
pub proof fn lemma_verdict_depends_on_readings_given(r1: Seq<Reading>, r2: Seq<Reading>, v4: bool)
    requires
        forall|x: Reading| r1.contains(x) <==> r2.contains(x),
    ensures
        spec_family_verdict(family_entries(r1, v4)) == spec_family_verdict(family_entries(r2, v4)),
{
    let e1 = family_entries(r1, v4);
    let e2 = family_entries(r2, v4);
    assert forall|p: (IpAddr, Seq<char>)| e1.contains(p) implies e2.contains(p) by {
        lemma_family_entries_contains(r1, v4, p);
        lemma_family_entries_contains(r2, v4, p);
        let k = choose|k: int|
            0 <= k < r1.len() && (spec_fold_ip(r1[k].addr.ip) is V4) == v4 && #[trigger] reading_entry(
                r1[k],
            ) == p;
        assert(r1.contains(r1[k]));
        let m = choose|m: int| 0 <= m < r2.len() && r2[m] == r1[k];
        assert(reading_entry(r2[m]) == p);
    }
    assert forall|p: (IpAddr, Seq<char>)| e2.contains(p) implies e1.contains(p) by {
        lemma_family_entries_contains(r1, v4, p);
        lemma_family_entries_contains(r2, v4, p);
        let k = choose|k: int|
            0 <= k < r2.len() && (spec_fold_ip(r2[k].addr.ip) is V4) == v4 && #[trigger] reading_entry(
                r2[k],
            ) == p;
        assert(r2.contains(r2[k]));
        let m = choose|m: int| 0 <= m < r1.len() && r1[m] == r2[k];
        assert(reading_entry(r1[m]) == p);
    }
    lemma_verdict_by_membership(e1, e2);
}

/// Permuting the readings changes neither family's verdict.
pub proof fn lemma_verdict_unchanged_by_permutation(r1: Seq<Reading>, r2: Seq<Reading>, v4: bool)
    requires
        r1.to_multiset() == r2.to_multiset(),
    ensures
        spec_family_verdict(family_entries(r1, v4)) == spec_family_verdict(family_entries(r2, v4)),
{
    assert forall|x: Reading| r1.contains(x) <==> r2.contains(x) by {
        vstd::seq_lib::to_multiset_contains(r1, x);
        vstd::seq_lib::to_multiset_contains(r2, x);
    }
    lemma_verdict_depends_on_readings_given(r1, r2, v4);
}

/// Whether a source string names a `peer:v4:` or `peer:v6:` class.
pub open spec fn names_a_peer(source: Seq<char>) -> bool {
    spec_parse_class(source) matches Some(ClassView::PeerV4 { .. }) || spec_parse_class(
        source,
    ) matches Some(ClassView::PeerV6 { .. })
}

/// The raised floor is for peer classes alone: when a family's readings agree on a globally
/// routable IP, come from at least two ([`MIN_INDEPENDENT_CLASSES`]) distinct sources, and one of
/// those sources is not a `peer:*` class (an operator, relay or public server, or a string
/// outside the grammar), the IP is established.
pub proof fn lemma_a_non_peer_source_lowers_the_floor(readings: Seq<Reading>, v4: bool, k: int)
    requires
        0 <= k < family_entries(readings, v4).len(),
        forall|i: int|
            0 <= i < family_entries(readings, v4).len() ==> (#[trigger] family_entries(
                readings,
                v4,
            )[i]).0 == family_entries(readings, v4)[k].0,
        spec_scope_of_ip(family_entries(readings, v4)[k].0) == Scope::GlobalUnicast,
        source_seq(family_entries(readings, v4)).to_set().len() >= 2,
        !names_a_peer(family_entries(readings, v4)[k].1),
    ensures
        spec_family_verdict(family_entries(readings, v4)) == (VerdictView::Established {
            ip: family_entries(readings, v4)[k].0,
            classes: source_seq(family_entries(readings, v4)).to_set().len(),
        }),
{
    let e = family_entries(readings, v4);
    assert(e[0].0 == e[k].0);
    assert(unanimous(e));
    assert(!all_peer_sources(e)) by {
        if all_peer_sources(e) {
            let c = spec_parse_class(e[k].1);
            assert(match c {
                Some(c) => is_peer_view(c),
                None => false,
            });
        }
    }
}

/// When every source of a unanimous family is a `peer:*` class, two distinct sources are not
/// enough, whatever the IP: the verdict is `Insufficient` with `peer_only`.
pub proof fn lemma_two_peer_classes_are_insufficient(readings: Seq<Reading>, v4: bool)
    requires
        family_entries(readings, v4).len() > 0,
        forall|i: int|
            0 <= i < family_entries(readings, v4).len() ==> (#[trigger] family_entries(
                readings,
                v4,
            )[i]).0 == family_entries(readings, v4)[0].0,
        forall|i: int|
            0 <= i < family_entries(readings, v4).len() ==> names_a_peer(
                (#[trigger] family_entries(readings, v4)[i]).1,
            ),
        source_seq(family_entries(readings, v4)).to_set().len() == 2,
    ensures
        spec_family_verdict(family_entries(readings, v4)) == (VerdictView::Insufficient {
            classes: 2,
            peer_only: true,
        }),
{
    let e = family_entries(readings, v4);
    assert(unanimous(e));
    assert(all_peer_sources(e)) by {
        assert forall|i: int| 0 <= i < e.len() implies match spec_parse_class((#[trigger] e[i]).1) {
            Some(c) => is_peer_view(c),
            None => false,
        } by {
            assert(names_a_peer(e[i].1));
        }
    }
}

/// Three distinct sources are always enough, `peer:*` classes alone included: when a family's
/// readings agree on a globally routable IP and at least three ([`PEER_ONLY_MIN_CLASSES`])
/// distinct sources gave them, the IP is established, whatever kind of class each source is.
pub proof fn lemma_three_sources_establish(readings: Seq<Reading>, v4: bool)
    requires
        family_entries(readings, v4).len() > 0,
        forall|i: int|
            0 <= i < family_entries(readings, v4).len() ==> (#[trigger] family_entries(
                readings,
                v4,
            )[i]).0 == family_entries(readings, v4)[0].0,
        spec_scope_of_ip(family_entries(readings, v4)[0].0) == Scope::GlobalUnicast,
        source_seq(family_entries(readings, v4)).to_set().len() >= 3,
    ensures
        spec_family_verdict(family_entries(readings, v4)) == (VerdictView::Established {
            ip: family_entries(readings, v4)[0].0,
            classes: source_seq(family_entries(readings, v4)).to_set().len(),
        }),
{
    let e = family_entries(readings, v4);
    assert(unanimous(e));
}

/// One source is never enough, however many readings it gave and whatever the IP: a unanimous
/// family whose readings all name the same source is `Insufficient` with one class.
pub proof fn lemma_one_source_is_insufficient(readings: Seq<Reading>, v4: bool)
    requires
        family_entries(readings, v4).len() > 0,
        forall|i: int|
            0 <= i < family_entries(readings, v4).len() ==> (#[trigger] family_entries(
                readings,
                v4,
            )[i]).0 == family_entries(readings, v4)[0].0,
        source_seq(family_entries(readings, v4)).to_set().len() == 1,
    ensures
        spec_family_verdict(family_entries(readings, v4)) matches VerdictView::Insufficient {
            classes,
            ..
        } && classes == 1,
{
    let e = family_entries(readings, v4);
    assert(unanimous(e));
}

} // verus!
