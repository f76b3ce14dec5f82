//! The listing-and-acceptance trade flow: a seller's listed ask is
//! accepted by a buyer under a solvency attestation, which opens a private
//! trade awaiting the fiat payment; a payment attestation then completes
//! it and authorizes the escrow release.
//!
//! The attestations are stubs matched against fixed witness strings, as
//! the deployed flow validates them; a production deployment substitutes a
//! real verifier behind the same interface.

use vstd::prelude::*;
use vstd::string::StrSliceExecFns;
use crate::order::AccountId;

verus! {

/// Why a trade step was refused.
#[derive(Clone, Copy, Debug, PartialEq, Eq, Structural)]
pub enum ErrorCode {
    /// The solvency attestation was not accepted.
    InvalidSolvencyProof,
    /// The payment attestation was not accepted.
    InvalidPaymentProof,
    /// The trade is not in the state this step starts from.
    InvalidTradeState,
}

/// State of a private trade.
#[derive(Clone, Copy, Debug, PartialEq, Eq, Structural)]
pub enum TradeStatus {
    /// Accepted; the fiat payment is outstanding.
    AwaitingPayment,
    /// Finalized; escrow released.
    Completed,
}

/// One private trade between a buyer and a seller.
#[derive(Clone, Copy, Debug)]
pub struct Trade {
    /// The buying principal.
    pub buyer: AccountId,
    /// The selling principal.
    pub seller: AccountId,
    /// Base-token amount held in escrow for this trade.
    pub amount: u64,
    /// Agreed price.
    pub price: u64,
    /// Progress of the trade.
    pub status: TradeStatus,
    /// Identifier of the accepted order.
    pub order_id: u128,
    /// Derivation bump of the trade's record address.
    pub bump: u8,
}

/// Character-wise string equality.
fn str_equal(a: &str, b: &str) -> (r: bool)
    ensures
        r == (a@ == b@),
{
    let n: usize = a.unicode_len();
    let m: usize = b.unicode_len();
    if n != m {
        proof {
            assert(a@ != b@);
        }
        return false;
    }
    let mut i: usize = 0;
    while i < n
        invariant
            n == a@.len(),
            n == b@.len(),
            i <= n,
            forall|j: int| 0 <= j < i ==> a@[j] == b@[j],
        decreases n - i,
    {
        if a.get_char(i) != b.get_char(i) {
            proof {
                assert(a@[i as int] != b@[i as int]);
            }
            return false;
        }
        i = i + 1;
    }
    proof {
        assert(a@ =~= b@);
    }
    true
}

/// The witness string the solvency attestation must match.
pub open spec fn spec_solvency_witness() -> Seq<char> {
    "valid_solvency_proof_123"@
}

/// The witness string the payment attestation must match.
pub open spec fn spec_payment_witness() -> Seq<char> {
    "valid_payment_proof_xyz"@
}

/// A buyer accepts a listed ask: the solvency attestation is checked and a
/// trade record opens awaiting the fiat payment. The deployed flow fixes
/// the amount and price of the accepted listing.
pub fn accept_ask(
    buyer: AccountId,
    seller: AccountId,
    order_id: u128,
    solvency_proof: &str,
    bump: u8,
) -> (res: Result<Trade, ErrorCode>)
    ensures
        solvency_proof@ != spec_solvency_witness() ==> res == Err::<Trade, ErrorCode>(
            ErrorCode::InvalidSolvencyProof,
        ),
        solvency_proof@ == spec_solvency_witness() ==> res == Ok::<Trade, ErrorCode>(
            Trade {
                buyer,
                seller,
                amount: 100,
                price: 285,
                status: TradeStatus::AwaitingPayment,
                order_id,
                bump,
            },
        ),
{
    if !str_equal(solvency_proof, "valid_solvency_proof_123") {
        return Err(ErrorCode::InvalidSolvencyProof);
    }
    Ok(
        Trade {
            buyer,
            seller,
            amount: 100,
            price: 285,
            status: TradeStatus::AwaitingPayment,
            order_id,
            bump,
        },
    )
}

/// Finalizes a trade awaiting payment: the payment attestation is checked,
/// the trade completes, and the escrowed amount to release is returned.
/// Errors leave the trade untouched.
pub fn finalize_trade(trade: &mut Trade, payment_proof: &str) -> (res: Result<u64, ErrorCode>)
    ensures
        old(trade).status != TradeStatus::AwaitingPayment ==> res == Err::<u64, ErrorCode>(
            ErrorCode::InvalidTradeState,
        ) && *final(trade) == *old(trade),
        old(trade).status == TradeStatus::AwaitingPayment && payment_proof@
            != spec_payment_witness() ==> res == Err::<u64, ErrorCode>(
            ErrorCode::InvalidPaymentProof,
        ) && *final(trade) == *old(trade),
        old(trade).status == TradeStatus::AwaitingPayment && payment_proof@
            == spec_payment_witness() ==> res == Ok::<u64, ErrorCode>(old(trade).amount)
            && *final(trade) == (Trade { status: TradeStatus::Completed, ..*old(trade) }),
{
    if !matches!(trade.status, TradeStatus::AwaitingPayment) {
        return Err(ErrorCode::InvalidTradeState);
    }
    if !str_equal(payment_proof, "valid_payment_proof_xyz") {
        return Err(ErrorCode::InvalidPaymentProof);
    }
    let amount: u64 = trade.amount;
    trade.status = TradeStatus::Completed;
    Ok(amount)
}

} // verus!
