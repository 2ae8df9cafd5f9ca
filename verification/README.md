# dig-stun

Reflexive-address discovery for DIG nodes, verified with Verus: how a node learns the public
address the outside world sees its traffic arrive from, and how it decides whether to believe
what it was told.

- `src/` is the library. Verus proves every function in it against its contract, except the
  trusted items named below; a function whose result is random (a transaction id, a nonce
  secret) promises nothing of its bytes:
  - `addr`: addresses as octets and a port, and the IPv4-in-IPv6 fold;
  - `codec`: the RFC 5389 Binding request and success response, both directions;
  - `scope`: the one address-scope table and its two predicates;
  - `client`: what each datagram of a Binding transaction means to the client;
  - `observe`: the peer-observation answer and its three-dimensional rate limiter;
  - `establish`: the source-class grammar and the agreement rule over untrusted readings;
  - `credential`: the signed-Binding credential (wire shapes, nonces, the signing preimage,
    verification, the server decision table, and the client's exchange as a state machine);
  - `crypto`: the calls into `ring` (CSPRNG, HMAC-SHA256, ECDSA-P256), trusted.
  The other trusted item is the call into `std::str::from_utf8` in `credential::response`. What
  a consumer's `StunSigner` returns is taken as it comes: the contracts hold whatever it is.
- `app/` is the I/O edge: the tokio UDP clients that drive `client` and the signed exchange
  over one deadline, `std::net` conversions, and the error types with `std::error::Error`.
- `tests/` holds the scenarios: golden vectors, every scope row, every verdict, and a full
  signed exchange against a server assembled from the library's parts.
