//! Point-in-time voting power: checkpointed balance histories, delegation,
//! and signed delegation requests.

pub mod checkpoints;
pub mod hasher;
pub mod ledger;
pub mod signature;

use vstd::prelude::*;

verus! {

/// A 32-byte account identifier.
pub type AccountId = [u8; 32];

/// Errors reported to callers of the ledger.
#[derive(Clone, Copy, Debug, PartialEq, Eq, Structural)]
pub enum GovernanceError {
    /// A historical query asked about a time after the current one.
    FutureLookup,
    /// A signed delegation arrived after its expiry.
    ExpiredSignature,
    /// A signature does not match the claimed signer and message.
    InvalidSignature,
    /// The nonce is not the account's next expected one.
    InvalidAccountNonce,
    /// A holder was asked to give up more voting units than it has.
    InsufficientBalance,
    /// Minting would take the total supply past the largest representable value.
    Overflow,
}

} // verus!
