//! The STUN transaction id.
use vstd::prelude::*;

use crate::codec::TransactionId;
use crate::crypto::system_random_fill;

verus! {

/// A 96-bit STUN transaction id, every byte from the operating system's CSPRNG (RFC 5389 §10.1).
///
/// The id, with source-address validation, is what stops an off-path attacker forging a Binding
/// success: it is never derived from the clock, a counter, or any other predictable input. If the
/// OS offers no entropy this is `None` rather than a predictable id.
pub fn new_transaction_id() -> (id: Option<TransactionId>) {
    let mut id = [0u8; 12];
    if system_random_fill(&mut id) {
        Some(id)
    } else {
        None
    }
}

} // verus!
