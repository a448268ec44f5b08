//! Plain data carried across the venue's interfaces.
//!
//! Accounts, tokens and correlation tokens are opaque, totally-ordered
//! identifiers; the library models them as `u64` values. Balances,
//! reserves and shares are `u128` amounts.

use vstd::prelude::*;

verus! {

/// Fixed share supply granted to a pool's creator, independent of the
/// amounts deposited at creation.
pub const INIT_SHARES_SUPPLY: u128 = 1_000_000_000_000_000;

/// Why a call failed. Every error is fatal to the enclosing call: no
/// partial mutation is committed.
#[derive(Clone, Copy, Debug, PartialEq, Eq)]
pub enum SwapError {
    /// A ledger balance is below the amount an operation needs.
    InsufficientDeposit,
    /// No pool is registered for the canonical key of the pair.
    PoolNotFound,
    /// A pool for the pair already exists; pools are never re-created.
    PoolAlreadyExists,
    /// Only the configured agent account may resolve a swap.
    Unauthorized,
    /// The correlation token is unknown, or its yield point was already
    /// closed by an earlier resolve.
    UnknownOrClosedYieldPoint,
    /// The agent's quoted output is below the slippage floor captured at
    /// suspend time.
    SlippageViolation,
    /// The dispatch message could not be decoded into actions.
    MalformedActionMessage,
}

/// One action of a dispatch message, applied against the transferred
/// `(sender, token_in, amount_in)`.
#[derive(Clone, Copy, Debug, PartialEq, Eq)]
pub enum Action {
    /// Credit the transferred amount to the sender's deposit ledger.
    Deposit,
    /// Credit the transferred amount, then suspend a swap towards
    /// `token_out` with the given slippage floor.
    Swap { token_out: u64, min_amount_out: u128 },
    /// Provide liquidity: the transferred amount on one side, an
    /// already-deposited amount of `token_other` on the other.
    AddLiquidity { token_other: u64, amount_other: u128 },
}

/// A decoded dispatch message from the transfer-notification
/// collaborator.
pub enum TokenReceiverMessage {
    Execute { actions: Vec<Action> },
}

/// The full context of a swap, captured at suspend time.
#[derive(Clone, Copy, Debug, PartialEq, Eq)]
pub struct SwapRequest {
    pub sender_id: u64,
    pub token_in: u64,
    pub token_out: u64,
    pub amount_in: u128,
    pub min_amount_out: u128,
}

/// State of a yield point, keyed by its correlation token.
#[derive(Clone, Copy, Debug, PartialEq, Eq)]
pub enum YieldStatus {
    /// Waiting for the agent; holds the suspended swap's context.
    Suspended(SwapRequest),
    /// Consumed by a resolve; a second resolve must fail.
    Closed,
}

/// Notification published to the agent when a swap suspends.
#[derive(Clone, Copy, Debug, PartialEq, Eq)]
pub struct AgentNotification {
    pub request: SwapRequest,
    pub correlation_token: u64,
}

/// Outbound transfer handed to the external transfer subsystem after a
/// settlement commits. Fire-and-forget: its outcome is not observed.
#[derive(Clone, Copy, Debug, PartialEq, Eq)]
pub struct TransferRequest {
    pub receiver_id: u64,
    pub token: u64,
    pub amount: u128,
}

/// The external fungible-token interface the venue instructs to move
/// funds; implemented by the host, not by any type of this library.
pub trait FungibleToken {
    fn ft_transfer(&mut self, receiver_id: u64, amount: u128, memo: Option<String>);

    fn ft_transfer_call(
        &mut self,
        receiver_id: u64,
        amount: u128,
        memo: Option<String>,
        msg: String,
    ) -> u128;
}

} // verus!
