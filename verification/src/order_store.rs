//! Matched-order records: one per accepted trade, carrying the parties,
//! the amount and price, and a settlement status that only moves forward
//! along pending → confirmed → settled, with cancellation possible while
//! still pending.

use vstd::prelude::*;
use crate::order::AccountId;

verus! {

/// Why a record operation was refused.
#[derive(Clone, Copy, Debug, PartialEq, Eq, Structural)]
pub enum ErrorCode {
    /// The record is not in a status this operation accepts.
    InvalidOrderStatus,
}

/// Settlement progress of a matched-order record.
#[derive(Clone, Copy, Debug, PartialEq, Eq, Structural)]
pub enum OrderStatus {
    /// Created, awaiting confirmation.
    Pending,
    /// Confirmed after proof validation.
    Confirmed,
    /// Settled; terminal.
    Settled,
    /// Cancelled before confirmation; terminal.
    Cancelled,
}

/// The transitions a record's status may take: confirmation of a pending
/// record, settlement of a confirmed one, and cancellation while pending.
pub open spec fn order_status_transition_allowed(from: OrderStatus, to: OrderStatus) -> bool {
    ||| (from == OrderStatus::Pending && to == OrderStatus::Confirmed)
    ||| (from == OrderStatus::Confirmed && to == OrderStatus::Settled)
    ||| (from == OrderStatus::Pending && to == OrderStatus::Cancelled)
}

/// Position of a status along the settlement path.
pub open spec fn order_status_rank(s: OrderStatus) -> int {
    match s {
        OrderStatus::Pending => 0,
        OrderStatus::Confirmed => 1,
        OrderStatus::Settled => 2,
        OrderStatus::Cancelled => 3,
    }
}

/// Record statuses only move forward: every allowed transition strictly
/// raises the rank, so no sequence of transitions revisits a status.
pub proof fn lemma_order_status_monotonic(from: OrderStatus, to: OrderStatus)
    ensures
        order_status_transition_allowed(from, to) ==> order_status_rank(to) > order_status_rank(
            from,
        ),
        !order_status_transition_allowed(from, from),
{
}

/// One matched trade awaiting settlement.
#[derive(Clone, Copy, Debug)]
pub struct MatchedOrder {
    /// Identifier of the matched order.
    pub order_id: u64,
    /// The buying principal.
    pub bidder: AccountId,
    /// The selling principal.
    pub seller: AccountId,
    /// Mint of the traded token.
    pub token_mint: AccountId,
    /// Base-token amount of the trade.
    pub amount: u64,
    /// Agreed price.
    pub price: u64,
    /// Settlement progress.
    pub status: OrderStatus,
    /// When the record was created.
    pub created_at: i64,
    /// When the record last changed.
    pub updated_at: i64,
}

/// Creates a pending matched-order record at time `now`.
pub fn create_matched_order(
    order_id: u64,
    bidder: AccountId,
    seller: AccountId,
    token_mint: AccountId,
    amount: u64,
    price: u64,
    now: i64,
) -> (r: MatchedOrder)
    ensures
        r == (MatchedOrder {
            order_id,
            bidder,
            seller,
            token_mint,
            amount,
            price,
            status: OrderStatus::Pending,
            created_at: now,
            updated_at: now,
        }),
{
    MatchedOrder {
        order_id,
        bidder,
        seller,
        token_mint,
        amount,
        price,
        status: OrderStatus::Pending,
        created_at: now,
        updated_at: now,
    }
}

/// Records a confirmation at time `now`. Validation of the proof material
/// is the caller's duty; this store only moves the status.
pub fn confirm_order(matched_order: &mut MatchedOrder, now: i64)
    ensures
        *final(matched_order) == (MatchedOrder {
            status: OrderStatus::Confirmed,
            updated_at: now,
            ..*old(matched_order)
        }),
{
    matched_order.status = OrderStatus::Confirmed;
    matched_order.updated_at = now;
}

/// Records a settlement at time `now`.
pub fn settle_order(matched_order: &mut MatchedOrder, now: i64)
    ensures
        *final(matched_order) == (MatchedOrder {
            status: OrderStatus::Settled,
            updated_at: now,
            ..*old(matched_order)
        }),
{
    matched_order.status = OrderStatus::Settled;
    matched_order.updated_at = now;
}

/// Cancels a record, allowed only while it is still pending; the
/// transition follows the settlement path.
pub fn cancel_order(matched_order: &mut MatchedOrder, now: i64) -> (res: Result<(), ErrorCode>)
    ensures
        old(matched_order).status != OrderStatus::Pending ==> res == Err::<(), ErrorCode>(
            ErrorCode::InvalidOrderStatus,
        ) && *final(matched_order) == *old(matched_order),
        old(matched_order).status == OrderStatus::Pending ==> res is Ok && *final(matched_order)
            == (MatchedOrder {
            status: OrderStatus::Cancelled,
            updated_at: now,
            ..*old(matched_order)
        }) && order_status_transition_allowed(
            old(matched_order).status,
            final(matched_order).status,
        ),
{
    if !matches!(matched_order.status, OrderStatus::Pending) {
        return Err(ErrorCode::InvalidOrderStatus);
    }
    matched_order.status = OrderStatus::Cancelled;
    matched_order.updated_at = now;
    Ok(())
}

} // verus!
