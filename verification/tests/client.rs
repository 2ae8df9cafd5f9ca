//! The UDP STUN client's decisions on the datagrams a Binding transaction receives.

use dig_stun::addr::{IpAddr, Ipv4Addr, SocketAddr};
use dig_stun::{
    encode_binding_request, encode_binding_success, new_transaction_id, on_query_datagram,
    parse_binding_request, socket_addr_eq, StunError,
};

fn v4(a: u8, b: u8, c: u8, d: u8, port: u16) -> SocketAddr {
    SocketAddr { ip: IpAddr::V4(Ipv4Addr { octets: [a, b, c, d] }), port }
}

/// A globally routable address for the happy path: not a documentation or private range, since
/// the scope guard would reject those.
fn a_globally_routable_reflexive_addr() -> SocketAddr {
    v4(1, 1, 1, 1, 51000)
}

#[test]
fn returns_the_servers_answer_for_a_usable_reflexive_address() {
    let server = v4(198, 51, 100, 1, 3478);
    let txid = new_transaction_id().expect("OS entropy");
    let request = encode_binding_request(&txid);
    let seen = parse_binding_request(&request).unwrap();
    let reply = encode_binding_success(&seen, a_globally_routable_reflexive_addr());
    assert_eq!(
        on_query_datagram(&server, &txid, &server, &reply),
        Some(Ok(a_globally_routable_reflexive_addr()))
    );
}

/// A server that hands back a never-dialable address (a malicious or misconfigured server fully
/// controls the bytes it returns) is answered `NoMappedAddress`, never surfaced as a candidate.
#[test]
fn rejects_a_server_returning_a_never_dialable_address() {
    let server = v4(198, 51, 100, 1, 3478);
    let txid = new_transaction_id().expect("OS entropy");
    let reply = encode_binding_success(&txid, v4(127, 0, 0, 1, 1234));
    assert_eq!(
        on_query_datagram(&server, &txid, &server, &reply),
        Some(Err(StunError::NoMappedAddress))
    );
}

/// A datagram from anywhere but the server is discarded, so a stray reply cannot fail the
/// transaction; the genuine reply that follows still succeeds.
#[test]
fn ignores_a_stray_datagram_from_the_wrong_source_and_still_succeeds() {
    let server = v4(198, 51, 100, 1, 3478);
    let stranger = v4(198, 51, 100, 2, 3478);
    let txid = new_transaction_id().expect("OS entropy");
    let forged = encode_binding_success(&txid, v4(8, 8, 8, 8, 1));
    assert_eq!(on_query_datagram(&server, &txid, &stranger, &forged), None);
    assert_eq!(on_query_datagram(&server, &txid, &v4(198, 51, 100, 1, 3479), &forged), None);
    let genuine = encode_binding_success(&txid, a_globally_routable_reflexive_addr());
    assert_eq!(
        on_query_datagram(&server, &txid, &server, &genuine),
        Some(Ok(a_globally_routable_reflexive_addr()))
    );
}

/// A reply from the server for another transaction ends the transaction with the mismatch.
#[test]
fn a_reply_for_another_transaction_is_a_mismatch() {
    let server = v4(198, 51, 100, 1, 3478);
    let reply = encode_binding_success(&[1u8; 12], a_globally_routable_reflexive_addr());
    assert_eq!(
        on_query_datagram(&server, &[2u8; 12], &server, &reply),
        Some(Err(StunError::TransactionIdMismatch))
    );
}

/// A private answer is accepted: it is usable, if not globally routable.
#[test]
fn a_private_answer_is_accepted() {
    let server = v4(198, 51, 100, 1, 3478);
    let txid = [5u8; 12];
    let reply = encode_binding_success(&txid, v4(10, 0, 0, 9, 4000));
    assert_eq!(on_query_datagram(&server, &txid, &server, &reply), Some(Ok(v4(10, 0, 0, 9, 4000))));
}

#[test]
fn socket_addresses_are_equal_only_in_ip_and_port() {
    assert!(socket_addr_eq(&v4(1, 2, 3, 4, 5), &v4(1, 2, 3, 4, 5)));
    assert!(!socket_addr_eq(&v4(1, 2, 3, 4, 5), &v4(1, 2, 3, 4, 6)));
    assert!(!socket_addr_eq(&v4(1, 2, 3, 4, 5), &v4(1, 2, 3, 5, 5)));
}
