//! Payments that are due for bandwidth.
use vstd::prelude::*;

verus! {

/// A payment that a peer is owed for bandwidth.
#[derive(Debug, Clone)]
pub struct PaymentDue {
    /// Where the peer is paid.
    pub peer_address: String,
    /// The amount in smallest units.
    pub amount_satoshis: u64,
}

} // verus!
