use vstd::prelude::*;

verus! {

/// A balance was asked of an address that no account belongs to.
#[derive(Clone, Copy, Debug, PartialEq, Eq, Structural)]
pub struct AccountDNE;

/// Why a transaction could not be signed.
#[derive(Clone, Copy, Debug, PartialEq, Eq, Structural)]
pub enum TransactionError {
    /// The sender has no account.
    AccountNotFound,
    /// The sender's balance less its reservations is below the amount asked.
    InsufficientFunds { balance: u128, reserved: u128 },
}

/// A failure of the miner, with its message.
#[derive(Clone, Copy, Debug)]
pub struct MinerError(pub &'static str);

/// Why a candidate chain was not accepted.
#[derive(Clone, Copy, Debug, PartialEq, Eq, Structural)]
pub enum ChainError {
    /// The candidate's history differs from the local one.
    ChainBroken,
    /// The candidate does not link to the local tip.
    ChainPrevHashMismatch,
}

} // verus!
