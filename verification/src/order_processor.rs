//! The guarded settlement steps over matched-order records: a trade is
//! finalized only from the pending state and with non-empty proof
//! material, and settled only once confirmed, so the record's status
//! follows the settlement path.

use vstd::prelude::*;
use crate::order_store::MatchedOrder;
use crate::order_store::OrderStatus;
use crate::order_store::order_status_transition_allowed;

verus! {

/// Why a settlement step was refused.
#[derive(Clone, Copy, Debug, PartialEq, Eq, Structural)]
pub enum ErrorCode {
    /// The record is not in the status this step starts from.
    InvalidOrderStatus,
    /// The proof material is missing.
    InvalidProof,
}

/// Confirms a pending trade at time `now`, given non-empty proof material.
/// Errors leave the record untouched.
pub fn finalize_trade(
    matched_order: &mut MatchedOrder,
    proof_data: &Vec<u8>,
    now: i64,
) -> (res: Result<(), ErrorCode>)
    ensures
        old(matched_order).status != OrderStatus::Pending ==> res == Err::<(), ErrorCode>(
            ErrorCode::InvalidOrderStatus,
        ) && *final(matched_order) == *old(matched_order),
        old(matched_order).status == OrderStatus::Pending && proof_data@.len() == 0 ==> res
            == Err::<(), ErrorCode>(ErrorCode::InvalidProof) && *final(matched_order) == *old(
            matched_order,
        ),
        old(matched_order).status == OrderStatus::Pending && proof_data@.len() > 0 ==> res is Ok
            && *final(matched_order) == (MatchedOrder {
            status: OrderStatus::Confirmed,
            updated_at: now,
            ..*old(matched_order)
        }) && order_status_transition_allowed(
            old(matched_order).status,
            final(matched_order).status,
        ),
{
    if !matches!(matched_order.status, OrderStatus::Pending) {
        return Err(ErrorCode::InvalidOrderStatus);
    }
    if proof_data.len() == 0 {
        return Err(ErrorCode::InvalidProof);
    }
    matched_order.status = OrderStatus::Confirmed;
    matched_order.updated_at = now;
    Ok(())
}

/// Settles a confirmed trade at time `now`. Errors leave the record
/// untouched.
pub fn settle_trade(matched_order: &mut MatchedOrder, now: i64) -> (res: Result<(), ErrorCode>)
    ensures
        old(matched_order).status != OrderStatus::Confirmed ==> res == Err::<(), ErrorCode>(
            ErrorCode::InvalidOrderStatus,
        ) && *final(matched_order) == *old(matched_order),
        old(matched_order).status == OrderStatus::Confirmed ==> res is Ok && *final(matched_order)
            == (MatchedOrder {
            status: OrderStatus::Settled,
            updated_at: now,
            ..*old(matched_order)
        }) && order_status_transition_allowed(
            old(matched_order).status,
            final(matched_order).status,
        ),
{
    if !matches!(matched_order.status, OrderStatus::Confirmed) {
        return Err(ErrorCode::InvalidOrderStatus);
    }
    matched_order.status = OrderStatus::Settled;
    matched_order.updated_at = now;
    Ok(())
}

} // verus!
