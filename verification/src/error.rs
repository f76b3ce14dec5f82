//! Error conditions surfaced by the order book, the matching engine and the
//! settlement path. Every operation is atomic: an error means no mutation of
//! book, queue or trade state is visible to the caller.

use vstd::prelude::*;

verus! {

/// Why an operation on the market was refused.
#[derive(Clone, Copy, Debug, PartialEq, Eq, Structural)]
pub enum ErrorCode {
    /// Quantity must be greater than zero.
    InvalidAmount,
    /// Price must be greater than zero.
    InvalidPrice,
    /// No capacity left for a new price level or tree node.
    OrderBookFull,
    /// The order or price level does not exist.
    OrderNotFound,
    /// Only the order's owner may cancel it.
    UnauthorizedCancellation,
    /// The caller is not allowed to perform this action.
    UnauthorizedAction,
    /// A taker may not trade against their own resting order.
    SelfTradeNotAllowed,
    /// A post-only order would have matched immediately.
    PostOnlyWouldMatch,
    /// A fill-or-kill order could not be filled completely.
    FillOrKillNotFilled,
    /// The payment method string exceeds the accepted input length.
    PaymentMethodTooLong,
    /// The settlement cool-down window has not elapsed yet.
    SettlementDelayNotExpired,
    /// The settlement proof is malformed.
    InvalidProof,
    /// The order identifier embedded in the proof's public inputs does not
    /// match the order being settled.
    ProofOrderIdMismatch,
}

} // verus!
