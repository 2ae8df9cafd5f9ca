//! `dig-stun`: the DIG ecosystem's home for reflexive-address discovery, how a node learns the
//! public address the outside world sees its traffic arrive from, and how it decides whether to
//! believe what it was told.
//!
//! It owns five things:
//!
//! 1. **The RFC 5389 Binding codec** ([`encode_binding_request`], [`parse_binding_response`],
//!    [`parse_binding_request`], [`encode_binding_success`]): request and success response, both
//!    directions.
//! 2. **The UDP STUN client's decisions** ([`on_query_datagram`]): what one datagram received
//!    during a Binding transaction means. The socket, the deadline and the receive loop belong to
//!    the caller.
//! 3. **The address-scope classifier** ([`scope`]): the single predicate every consumer uses to ask
//!    "could this address be a legitimate reflexive candidate, and could a stranger route to it?".
//! 4. **The peer-observation role** ([`observe`]) and **the agreement rule** ([`establish`]): what
//!    lets every directly reachable DIG node act as a reflexive-address source for its peers, and
//!    lets a requesting node combine what several sources said without trusting any one of them.
//! 5. **The signed-Binding credential** ([`credential`]): the challenge and response that let a
//!    DIG-operated UDP STUN server tell a DIG node's ask from anyone else's, and the exact bytes a
//!    requester signs. No private key is held here.
//!
//! Addresses are the library's own plain types ([`addr`]): octets in network order and a port.
pub mod addr;
pub mod codec;
pub mod credential;
pub mod establish;
pub mod observe;
pub mod scope;

mod client;
mod crypto;
mod transaction_id;

pub use addr::{IpAddr, Ipv4Addr, Ipv6Addr, SocketAddr};
pub use client::{on_query_datagram, socket_addr_eq};
pub use codec::{
    encode_binding_request, encode_binding_success, parse_binding_request, parse_binding_response,
    StunError, TransactionId, ATTR_MAPPED_ADDRESS, ATTR_XOR_MAPPED_ADDRESS, BINDING_REQUEST,
    BINDING_SUCCESS, MAGIC_COOKIE,
};
pub use transaction_id::new_transaction_id;
