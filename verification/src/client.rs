//! The decisions of the UDP STUN client: one Binding transaction against one server, over one
//! socket. The socket, the clock and the receive loop belong to the caller, who sends
//! [`encode_binding_request`](crate::encode_binding_request) of a fresh
//! [`new_transaction_id`](crate::new_transaction_id) and hands every datagram it receives,
//! until its deadline, to [`on_query_datagram`].
use vstd::prelude::*;

use crate::addr::{ip_eq, SocketAddr};
use crate::codec::{parse_binding_response, spec_parse_binding_response, StunError, TransactionId};
use crate::scope::{scope_of, spec_scope_of, Scope};

verus! {

/// Whether two socket addresses are the same address and port.
pub fn socket_addr_eq(a: &SocketAddr, b: &SocketAddr) -> (r: bool)
    ensures
        r == (*a == *b),
{
    ip_eq(&a.ip, &b.ip) && a.port == b.port
}

/// What one datagram from the queried server says: the address it carries, parsed with the
/// transaction id required to match, unless that address is never a destination (a server's
/// loopback, multicast, documentation or port-0 answer), which is `NoMappedAddress`.
pub open spec fn spec_query_answer(datagram: Seq<u8>, txid: Seq<u8>) -> Result<SocketAddr, StunError> {
    match spec_parse_binding_response(datagram, Some(txid)) {
        Ok(a) => if spec_scope_of(a) == Scope::NeverDialable {
            Err(StunError::NoMappedAddress)
        } else {
            Ok(a)
        },
        Err(e) => Err(e),
    }
}

/// Decide on one datagram received during a Binding transaction with `txid` against `server`.
///
/// `None`: the datagram is not from `server` (a stray reply, a scan, a forged race); discard it
/// and keep waiting, since one such datagram must not fail the transaction while the genuine
/// reply may be in flight. `Some(result)`: the transaction is over. A parse error is returned
/// as-is; an address that is never a destination is `NoMappedAddress`. The result is the
/// address at which the caller's socket's datagrams arrived at `server` and nothing more: it is
/// a dial target only for that very socket, and proves no inbound reachability.
pub fn on_query_datagram(
    server: &SocketAddr,
    txid: &TransactionId,
    from: &SocketAddr,
    datagram: &[u8],
) -> (step: Option<Result<SocketAddr, StunError>>)
    ensures
        *from != *server ==> step is None,
        *from == *server ==> step == Some(spec_query_answer(datagram@, txid@)),
{
    if !socket_addr_eq(from, server) {
        return None;
    }
    match parse_binding_response(datagram, Some(txid)) {
        Ok(addr) => {
            if scope_of(addr) == Scope::NeverDialable {
                Some(Err(StunError::NoMappedAddress))
            } else {
                Some(Ok(addr))
            }
        },
        Err(e) => Some(Err(e)),
    }
}

/// The guard the client applies holds of every answer it accepts: an accepted address is
/// always a usable dial target (never loopback, multicast, documentation, reserved, or port 0).
pub proof fn lemma_accepted_answer_is_usable(datagram: Seq<u8>, txid: Seq<u8>)
    ensures
        spec_query_answer(datagram, txid) matches Ok(a) ==> spec_scope_of(a) != Scope::NeverDialable,
{
}

} // verus!
