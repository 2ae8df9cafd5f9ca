//! Network addresses as plain bytes, and the IPv4-in-IPv6 fold every classifier applies first.
//!
//! The library keeps its own address types rather than `std::net`'s: an address is exactly its
//! octets in network order and, for a socket address, a port. Callers at the I/O edge convert.
use vstd::prelude::*;

verus! {

/// An IPv4 address, as its four octets in network order.
#[derive(Debug, Clone, Copy, PartialEq, Eq, Hash)]
pub struct Ipv4Addr {
    pub octets: [u8; 4],
}

/// An IPv6 address, as its sixteen octets in network order.
#[derive(Debug, Clone, Copy, PartialEq, Eq, Hash)]
pub struct Ipv6Addr {
    pub octets: [u8; 16],
}

/// An IP address of either family.
#[derive(Debug, Clone, Copy, PartialEq, Eq, Hash)]
pub enum IpAddr {
    V4(Ipv4Addr),
    V6(Ipv6Addr),
}

/// An IP address and a port.
#[derive(Debug, Clone, Copy, PartialEq, Eq, Hash)]
pub struct SocketAddr {
    pub ip: IpAddr,
    pub port: u16,
}

/// The big-endian value of the 16-bit group `i` of an IPv6 address.
pub open spec fn segment(o: [u8; 16], i: int) -> int {
    o[2 * i] as int * 256 + o[2 * i + 1] as int
}

/// Whether `o` is an IPv4-mapped (`::ffff:a.b.c.d`) or IPv4-compatible (`::a.b.c.d`) IPv6
/// address: its first 80 bits are zero and the next 16 are either all zero or all one.
pub open spec fn embeds_ipv4(o: [u8; 16]) -> bool {
    &&& forall|i: int| 0 <= i < 10 ==> o[i] == 0
    &&& (o[10] == 0 && o[11] == 0) || (o[10] == 0xff && o[11] == 0xff)
}

/// An IP address folded to IPv4 when it is an IPv6 address embedding one; otherwise unchanged.
pub open spec fn spec_fold_ip(ip: IpAddr) -> IpAddr {
    match ip {
        IpAddr::V4(_) => ip,
        IpAddr::V6(v6) => if embeds_ipv4(v6.octets) {
            IpAddr::V4(Ipv4Addr { octets: [v6.octets[12], v6.octets[13], v6.octets[14], v6.octets[15]] })
        } else {
            ip
        },
    }
}

/// Fold an IPv4-mapped (`::ffff:a.b.c.d`) OR IPv4-compatible (`::a.b.c.d`) IPv6 address down to
/// the IPv4 address it embeds; any other address is returned unchanged.
///
/// Classifying a 16-byte value as IPv6 without folding it first would let a lying source smuggle a
/// rejected IPv4 range (`::ffff:127.0.0.1`, or the compatible form `::7f00:1`) past an IPv6-only
/// check. Both `::` and `::1` fold into `0.0.0.0/8`.
pub fn fold_ip(ip: IpAddr) -> (r: IpAddr)
    ensures
        r == spec_fold_ip(ip),
{
    match ip {
        IpAddr::V4(_) => ip,
        IpAddr::V6(v6) => {
            let o = v6.octets;
            let zero_prefix = o[0] == 0 && o[1] == 0 && o[2] == 0 && o[3] == 0 && o[4] == 0
                && o[5] == 0 && o[6] == 0 && o[7] == 0 && o[8] == 0 && o[9] == 0;
            let marker = (o[10] == 0 && o[11] == 0) || (o[10] == 0xff && o[11] == 0xff);
            if zero_prefix && marker {
                IpAddr::V4(Ipv4Addr { octets: [o[12], o[13], o[14], o[15]] })
            } else {
                proof {
                    if embeds_ipv4(o) {
                        assert(o[0] == 0 && o[1] == 0 && o[2] == 0 && o[3] == 0 && o[4] == 0);
                        assert(o[5] == 0 && o[6] == 0 && o[7] == 0 && o[8] == 0 && o[9] == 0);
                    }
                }
                ip
            }
        },
    }
}

/// Whether two IP addresses are the same address (same family, same octets).
pub fn ip_eq(a: &IpAddr, b: &IpAddr) -> (r: bool)
    ensures
        r == (*a == *b),
{
    match (a, b) {
        (IpAddr::V4(x), IpAddr::V4(y)) => {
            let r = x.octets[0] == y.octets[0] && x.octets[1] == y.octets[1] && x.octets[2]
                == y.octets[2] && x.octets[3] == y.octets[3];
            proof {
                if r {
                    assert(x.octets =~= y.octets);
                }
            }
            r
        },
        (IpAddr::V6(x), IpAddr::V6(y)) => {
            let mut i: usize = 0;
            while i < 16
                invariant
                    0 <= i <= 16,
                    *a == IpAddr::V6(*x),
                    *b == IpAddr::V6(*y),
                    forall|j: int| 0 <= j < i ==> x.octets[j] == y.octets[j],
                decreases 16 - i,
            {
                if x.octets[i] != y.octets[i] {
                    assert(x.octets@[i as int] != y.octets@[i as int]);
                    return false;
                }
                i = i + 1;
            }
            assert(x.octets =~= y.octets);
            true
        },
        _ => false,
    }
}

} // verus!
