//! Market-level operations: placing, cancelling and matching orders, and
//! the settlement path from a marked fiat payment to a verified release.
//!
//! Each function here is one atomic transaction over the book and market
//! state: every error leaves the state exactly as it was. The host hands in
//! the authenticated caller, the clock reading, and the proof material, and
//! performs the token transfers these functions authorize.

use vstd::prelude::*;
use vstd::string::StrSliceExecFns;
use crate::error::ErrorCode;
use crate::order::AccountId;
use crate::order::Order;
use crate::order::OrderType;
use crate::order::OrderV;
use crate::order::PaymentStatus;
use crate::order::Side;
use crate::order::first_index_of;
use crate::order::generate_order_id;
use crate::order::spec_order_id;
use crate::order::stored_payment_method;
use crate::order::sum_quantities;
use crate::order_book::OrderBook;
use crate::order_book::fills_total;
use crate::order_book::lemma_fills_total_prefix;
use crate::order_book::lemma_match_spec_empty_fills;
use crate::order_book::lemma_match_spec_sound;
use crate::order_book::match_spec;
use crate::settlement;
use crate::settlement::all_digit_chars;
use crate::settlement::dec_value;
use crate::settlement::spec_compose_order_id;

verus! {

/// Seconds between a marked payment and the earliest verification.
pub const SETTLEMENT_DELAY_SECONDS: i64 = 10;

/// Longest accepted payment-method input, in characters; the stored form
/// is truncated further to 32 bytes.
pub const PAYMENT_METHOD_MAX_LEN: usize = 100;

/// Global per-market state: who administers it, which token it trades, and
/// the sequence counter that order identifiers are built from.
pub struct Market {
    /// The market's administrative authority.
    pub authority: AccountId,
    /// Mint of the traded token.
    pub token_mint: AccountId,
    /// Next value of the per-market order sequence.
    pub next_order_sequence: u64,
}

/// Creates the market record with a zeroed order sequence.
pub fn initialize_market(authority: AccountId, token_mint: AccountId) -> (r: Market)
    ensures
        r.authority == authority,
        r.token_mint == token_mint,
        r.next_order_sequence == 0,
{
    Market { authority, token_mint, next_order_sequence: 0 }
}

/// Creates the zeroed order book for a market: empty trees and queues, the
/// token mint on both legs.
pub fn initialize_order_book_v2(market: AccountId, token_mint: AccountId) -> (r: OrderBook)
    ensures
        r.wf(),
        r.market == market,
        r.base_mint == token_mint,
        r.quote_mint == token_mint,
        r.levels(Side::Bid) =~= Map::<u64, Seq<OrderV>>::empty(),
        r.levels(Side::Ask) =~= Map::<u64, Seq<OrderV>>::empty(),
        r.total_orders == 0,
        r.best_bid == 0,
        r.best_ask == u64::MAX,
        r.next_queue_index == 0,
        r.bids.spec_capacity() == crate::order_book::MAX_PRICE_LEVELS as int,
        r.asks.spec_capacity() == crate::order_book::MAX_PRICE_LEVELS as int,
{
    OrderBook::new(market, token_mint, token_mint)
}

/// The order an accepted placement rests in the book.
pub open spec fn spec_placed_order(
    owner: AccountId,
    side: Side,
    price: u64,
    quantity: u64,
    order_type: OrderType,
    client_order_id: u64,
    payment_method: Seq<char>,
    sequence: u64,
    now: i64,
) -> OrderV {
    OrderV {
        order_id: spec_order_id(owner, sequence, now),
        owner,
        quantity,
        original_quantity: quantity,
        price,
        timestamp: now,
        order_type,
        side,
        client_order_id,
        payment_method: stored_payment_method(payment_method),
        payment_status: PaymentStatus::Pending,
        payment_marked_timestamp: 0,
        settlement_timestamp: 0,
    }
}

/// Whether a taker order of `quantity` units at `limit_price` would cross
/// at least one resting order on the opposite side (the test a post-only
/// order must fail to be accepted).
pub open spec fn spec_would_match(
    b: OrderBook,
    taker_owner: AccountId,
    side: Side,
    quantity: u64,
    limit_price: u64,
) -> bool {
    match_spec(
        b.levels(side.spec_opposite()),
        side,
        quantity,
        limit_price,
        taker_owner,
    ).0.len() > 0
}

/// Places a resting limit order: validates the inputs, builds the order
/// under a fresh identifier from the market's sequence and the clock, and
/// rests it at its price level. A post-only order is refused outright when
/// it would cross the opposite side. For an ask the host must escrow
/// `quantity` base units on success. Errors leave market and book
/// untouched.
pub fn place_limit_order_v2(
    market: &mut Market,
    order_book: &mut OrderBook,
    owner: AccountId,
    side: Side,
    price: u64,
    quantity: u64,
    order_type: OrderType,
    client_order_id: u64,
    payment_method: String,
    now: i64,
) -> (res: Result<u128, ErrorCode>)
    requires
        old(order_book).wf(),
        old(market).next_order_sequence < u64::MAX,
        old(order_book).total_orders < u64::MAX,
        old(order_book).side_tree(side).dom().contains(price) ==> sum_quantities(
            old(order_book).levels(side)[price],
        ) + quantity <= u64::MAX,
    ensures
        final(order_book).wf(),
        final(market).authority == old(market).authority,
        final(market).token_mint == old(market).token_mint,
        res is Err ==> *final(market) == *old(market) && *final(order_book) == *old(order_book),
        quantity == 0 ==> res == Err::<u128, ErrorCode>(ErrorCode::InvalidAmount),
        quantity > 0 && price == 0 ==> res == Err::<u128, ErrorCode>(ErrorCode::InvalidPrice),
        quantity > 0 && price > 0 && payment_method@.len() > PAYMENT_METHOD_MAX_LEN ==> res
            == Err::<u128, ErrorCode>(ErrorCode::PaymentMethodTooLong),
        quantity > 0 && price > 0 && payment_method@.len() <= PAYMENT_METHOD_MAX_LEN && order_type
            == OrderType::PostOnly && spec_would_match(
            *old(order_book),
            owner,
            side,
            quantity,
            price,
        ) ==> res == Err::<u128, ErrorCode>(ErrorCode::PostOnlyWouldMatch),
        quantity > 0 && price > 0 && payment_method@.len() <= PAYMENT_METHOD_MAX_LEN && !(
        order_type == OrderType::PostOnly && spec_would_match(
            *old(order_book),
            owner,
            side,
            quantity,
            price,
        )) && !old(order_book).spec_can_insert(side, price) ==> res == Err::<u128, ErrorCode>(
            ErrorCode::OrderBookFull,
        ),
        quantity > 0 && price > 0 && payment_method@.len() <= PAYMENT_METHOD_MAX_LEN && !(
        order_type == OrderType::PostOnly && spec_would_match(
            *old(order_book),
            owner,
            side,
            quantity,
            price,
        )) && old(order_book).spec_can_insert(side, price) ==> ({
            let o = spec_placed_order(
                owner,
                side,
                price,
                quantity,
                order_type,
                client_order_id,
                payment_method@,
                old(market).next_order_sequence,
                now,
            );
            &&& res == Ok::<u128, ErrorCode>(o.order_id)
            &&& final(market).next_order_sequence == old(market).next_order_sequence + 1
            &&& final(order_book).levels(side) =~= old(order_book).levels(side).insert(
                price,
                (if old(order_book).side_tree(side).dom().contains(price) {
                    old(order_book).levels(side)[price]
                } else {
                    Seq::<OrderV>::empty()
                }).push(o),
            )
            &&& final(order_book).levels(side.spec_opposite()) == old(order_book).levels(
                side.spec_opposite(),
            )
            &&& final(order_book).total_orders == old(order_book).total_orders + 1
        }),
{
    if quantity == 0 {
        return Err(ErrorCode::InvalidAmount);
    }
    if price == 0 {
        return Err(ErrorCode::InvalidPrice);
    }
    if payment_method.as_str().unicode_len() > PAYMENT_METHOD_MAX_LEN {
        return Err(ErrorCode::PaymentMethodTooLong);
    }
    if matches!(order_type, OrderType::PostOnly) {
        let mut shadow = order_book.snapshot();
        let planned: Vec<(u64, u64, u128)> = match shadow.match_order(
            side,
            quantity,
            price,
            owner,
        ) {
            Ok(f) => f,
            Err(_) => {
                proof {
                    assert(false);
                }
                return Err(ErrorCode::OrderNotFound);
            },
        };
        if planned.len() > 0 {
            return Err(ErrorCode::PostOnlyWouldMatch);
        }
    }
    let order_id: u128 = generate_order_id(&owner, market.next_order_sequence, now);
    let order = Order::new(
        order_id,
        owner,
        quantity,
        price,
        now,
        order_type,
        side,
        client_order_id,
        payment_method,
    );
    match order_book.insert_order(order) {
        Ok(_) => {
            market.next_order_sequence = market.next_order_sequence + 1;
            Ok(order_id)
        },
        Err(e) => Err(e),
    }
}

/// Cancels a resting order: only its owner may do so, and the removed
/// order is returned so the host can refund the escrowed remainder of an
/// ask. Errors leave the book untouched.
pub fn cancel_order(
    order_book: &mut OrderBook,
    caller: AccountId,
    order_id: u128,
    side: Side,
    price: u64,
) -> (res: Result<Order, ErrorCode>)
    requires
        old(order_book).wf(),
    ensures
        final(order_book).wf(),
        res is Err ==> final(order_book)@ == old(order_book)@,
        ({
            let lv = old(order_book).levels(side);
            if !lv.dom().contains(price) || first_index_of(lv[price], order_id) < 0 {
                res == Err::<Order, ErrorCode>(ErrorCode::OrderNotFound)
            } else {
                let q = lv[price];
                let i = first_index_of(q, order_id);
                if q[i].owner != caller {
                    res == Err::<Order, ErrorCode>(ErrorCode::UnauthorizedCancellation)
                } else {
                    &&& res is Ok
                    &&& res.unwrap()@ == q[i]
                    &&& final(order_book).levels(side) =~= (if q.len() == 1 {
                        lv.remove(price)
                    } else {
                        lv.insert(price, q.remove(i))
                    })
                    &&& final(order_book).levels(side.spec_opposite()) == old(order_book).levels(
                        side.spec_opposite(),
                    )
                    &&& final(order_book).total_orders == old(order_book).total_orders - 1
                }
            }
        }),
{
    let authorized: bool = match order_book.find_order(side, price, order_id) {
        None => {
            return Err(ErrorCode::OrderNotFound);
        },
        Some(o) => o.owner == caller,
    };
    if !authorized {
        return Err(ErrorCode::UnauthorizedCancellation);
    }
    match order_book.remove_order(order_id, side, price) {
        Ok(order) => Ok(order),
        Err(_) => {
            proof {
                assert(false);
            }
            Err(ErrorCode::OrderNotFound)
        },
    }
}

/// No order anywhere in the book carries the identifier.
pub open spec fn book_lacks_order(b: OrderBook, order_id: u128) -> bool {
    forall|sd: Side, pr: u64|
        #![auto]
        b.side_tree(sd).dom().contains(pr) ==> forall|j: int|
            0 <= j < b.levels(sd)[pr].len() ==> b.levels(sd)[pr][j].order_id != order_id
}

/// Every order carrying the identifier belongs to `buyer` and still awaits
/// its payment mark.
pub open spec fn all_holders_markable(b: OrderBook, order_id: u128, buyer: AccountId) -> bool {
    forall|sd: Side, pr: u64, j: int|
        #![auto]
        b.side_tree(sd).dom().contains(pr) && 0 <= j < b.levels(sd)[pr].len() && b.levels(
            sd,
        )[pr][j].order_id == order_id ==> b.levels(sd)[pr][j].owner == buyer && b.levels(
            sd,
        )[pr][j].payment_status == PaymentStatus::Pending
}

/// No order carrying the identifier can be marked: each one either belongs
/// to someone else or has already left the pending state.
pub open spec fn no_holder_markable(b: OrderBook, order_id: u128, buyer: AccountId) -> bool {
    forall|sd: Side, pr: u64, j: int|
        #![auto]
        b.side_tree(sd).dom().contains(pr) && 0 <= j < b.levels(sd)[pr].len() && b.levels(
            sd,
        )[pr][j].order_id == order_id ==> b.levels(sd)[pr][j].owner != buyer || b.levels(
            sd,
        )[pr][j].payment_status != PaymentStatus::Pending
}

/// An order after its fiat payment was marked at `now`: the cool-down ends
/// `SETTLEMENT_DELAY_SECONDS` later.
pub open spec fn spec_marked(o: OrderV, now: i64) -> OrderV {
    OrderV {
        payment_status: PaymentStatus::PaymentMarked,
        payment_marked_timestamp: now,
        settlement_timestamp: (now + SETTLEMENT_DELAY_SECONDS) as i64,
        ..o
    }
}

/// The settlement transitions an order's payment status may take:
/// a pending payment is marked, and a marked payment is verified.
pub open spec fn payment_transition_allowed(from: PaymentStatus, to: PaymentStatus) -> bool {
    ||| (from == PaymentStatus::Pending && to == PaymentStatus::PaymentMarked)
    ||| (from == PaymentStatus::PaymentMarked && to == PaymentStatus::Verified)
}

/// Position of a payment status along the settlement path.
pub open spec fn payment_rank(s: PaymentStatus) -> int {
    match s {
        PaymentStatus::Pending => 0,
        PaymentStatus::PaymentMarked => 1,
        PaymentStatus::SettlementDelay => 2,
        PaymentStatus::Verified => 3,
        PaymentStatus::Disputed => 4,
    }
}

/// Settlement only moves forward: every allowed transition strictly raises
/// the status rank, so no sequence of transitions revisits a status.
pub proof fn lemma_payment_transitions_monotonic(from: PaymentStatus, to: PaymentStatus)
    ensures
        payment_transition_allowed(from, to) ==> payment_rank(to) > payment_rank(from),
        !payment_transition_allowed(from, from),
{
}

/// Marks the fiat payment for an order as made: the buyer who owns the
/// order records it, and the settlement clock starts — verification opens
/// `SETTLEMENT_DELAY_SECONDS` after `now`. Only the order's owner may mark,
/// and only while the payment is still pending. Errors leave the book
/// untouched.
pub fn mark_payment_made(
    order_book: &mut OrderBook,
    buyer: AccountId,
    order_id: u128,
    now: i64,
) -> (res: Result<(), ErrorCode>)
    requires
        old(order_book).wf(),
        now <= i64::MAX - SETTLEMENT_DELAY_SECONDS,
    ensures
        final(order_book).wf(),
        res is Err ==> *final(order_book) == *old(order_book),
        (res == Err::<(), ErrorCode>(ErrorCode::OrderNotFound)) <==> book_lacks_order(
            *old(order_book),
            order_id,
        ),
        res == Err::<(), ErrorCode>(ErrorCode::UnauthorizedAction) ==> !all_holders_markable(
            *old(order_book),
            order_id,
            buyer,
        ),
        !book_lacks_order(*old(order_book), order_id) && no_holder_markable(
            *old(order_book),
            order_id,
            buyer,
        ) ==> res == Err::<(), ErrorCode>(ErrorCode::UnauthorizedAction),
        !book_lacks_order(*old(order_book), order_id) && all_holders_markable(
            *old(order_book),
            order_id,
            buyer,
        ) ==> res is Ok,
        res is Ok ==> exists|sd: Side, pr: u64, j: int|
            #![trigger old(order_book).levels(sd)[pr][j]]
            {
                let o = old(order_book).levels(sd)[pr][j];
                &&& old(order_book).side_tree(sd).dom().contains(pr)
                &&& 0 <= j < old(order_book).levels(sd)[pr].len()
                &&& o.order_id == order_id
                &&& o.owner == buyer
                &&& o.payment_status == PaymentStatus::Pending
                &&& payment_transition_allowed(
                    o.payment_status,
                    spec_marked(o, now).payment_status,
                )
                &&& final(order_book).levels(sd) == old(order_book).levels(sd).insert(
                    pr,
                    old(order_book).levels(sd)[pr].update(j, spec_marked(o, now)),
                )
                &&& final(order_book).levels(sd.spec_opposite()) == old(order_book).levels(
                    sd.spec_opposite(),
                )
                &&& final(order_book).total_orders == old(order_book).total_orders
            },
{
    match order_book.find_order_slot(order_id) {
        None => Err(ErrorCode::OrderNotFound),
        Some((slot, idx)) => {
            let ghost sd = choose|s0: Side, p0: u64|
                #![auto]
                old(order_book).side_tree(s0).dom().contains(p0) && old(order_book).side_tree(
                    s0,
                )[p0] == slot;
            let o_owner: AccountId = order_book.order_queues[slot as usize].orders[idx].owner;
            let o_status: PaymentStatus =
                order_book.order_queues[slot as usize].orders[idx].payment_status;
            proof {
                let (s0, p0) = sd;
                assert(old(order_book).side_tree(s0).dom().contains(p0) && old(
                    order_book,
                ).side_tree(s0)[p0] == slot);
                assert(old(order_book).levels(s0)[p0] == old(order_book).order_queues[slot as int]@);
            }
            if o_owner != buyer {
                proof {
                    let (s0, p0) = sd;
                    assert(old(order_book).levels(s0)[p0][idx as int].owner != buyer);
                    assert(!all_holders_markable(*old(order_book), order_id, buyer));
                    assert(!book_lacks_order(*old(order_book), order_id)) by {
                        let (s0b, p0b) = sd;
                        assert(old(order_book).levels(s0b)[p0b][idx as int].order_id == order_id);
                    }
                }
                return Err(ErrorCode::UnauthorizedAction);
            }
            if !matches!(o_status, PaymentStatus::Pending) {
                proof {
                    let (s0, p0) = sd;
                    assert(old(order_book).levels(s0)[p0][idx as int].payment_status
                        != PaymentStatus::Pending);
                    assert(!all_holders_markable(*old(order_book), order_id, buyer));
                    assert(!book_lacks_order(*old(order_book), order_id)) by {
                        let (s0b, p0b) = sd;
                        assert(old(order_book).levels(s0b)[p0b][idx as int].order_id == order_id);
                    }
                }
                return Err(ErrorCode::UnauthorizedAction);
            }
            order_book.set_payment_fields(
                slot,
                idx,
                PaymentStatus::PaymentMarked,
                now,
                now + SETTLEMENT_DELAY_SECONDS,
            );
            proof {
                let (s0, p0) = sd;
                let o = old(order_book).levels(s0)[p0][idx as int];
                assert(order_book.levels(s0)[p0] == old(order_book).levels(s0)[p0].update(
                    idx as int,
                    spec_marked(o, now),
                ));
                assert(order_book.levels(s0) =~~= old(order_book).levels(s0).insert(
                    p0,
                    old(order_book).levels(s0)[p0].update(idx as int, spec_marked(o, now)),
                ));
                assert(order_book.levels(s0.spec_opposite()) =~~= old(order_book).levels(
                    s0.spec_opposite(),
                ));
                assert(!book_lacks_order(*old(order_book), order_id)) by {
                    assert(old(order_book).levels(s0)[p0][idx as int].order_id == order_id);
                }
                assert(!no_holder_markable(*old(order_book), order_id, buyer)) by {
                    assert(old(order_book).levels(s0)[p0][idx as int].order_id == order_id);
                    assert(old(order_book).levels(s0)[p0][idx as int].owner == buyer);
                    assert(old(order_book).levels(s0)[p0][idx as int].payment_status
                        == PaymentStatus::Pending);
                }
            }
            Ok(())
        },
    }
}

/// The public inputs carry two decimal 64-bit limbs at the order-id
/// positions.
pub open spec fn spec_signals_id_well_formed(signals: Seq<String>) -> bool {
    let lo = signals[settlement::ORDER_ID_LOW_INDEX as int]@;
    let hi = signals[settlement::ORDER_ID_HIGH_INDEX as int]@;
    &&& signals.len() >= settlement::MIN_PUBLIC_INPUTS
    &&& lo.len() > 0 && all_digit_chars(lo) && dec_value(lo) <= u64::MAX
    &&& hi.len() > 0 && all_digit_chars(hi) && dec_value(hi) <= u64::MAX
}

/// The order identifier the public inputs encode.
pub open spec fn spec_signals_order_id(signals: Seq<String>) -> u128 {
    let lo = signals[settlement::ORDER_ID_LOW_INDEX as int]@;
    let hi = signals[settlement::ORDER_ID_HIGH_INDEX as int]@;
    spec_compose_order_id(dec_value(lo) as u64, dec_value(hi) as u64)
}

/// Every order carrying the identifier has its payment marked and its
/// cool-down expired at `now`.
pub open spec fn all_holders_settleable(b: OrderBook, order_id: u128, now: i64) -> bool {
    forall|sd: Side, pr: u64, j: int|
        #![auto]
        b.side_tree(sd).dom().contains(pr) && 0 <= j < b.levels(sd)[pr].len() && b.levels(
            sd,
        )[pr][j].order_id == order_id ==> b.levels(sd)[pr][j].payment_status
            == PaymentStatus::PaymentMarked && now >= b.levels(sd)[pr][j].settlement_timestamp
}

/// No order carrying the identifier is ready to settle: each one is either
/// not yet marked or still inside its cool-down window at `now`.
pub open spec fn no_holder_settleable(b: OrderBook, order_id: u128, now: i64) -> bool {
    forall|sd: Side, pr: u64, j: int|
        #![auto]
        b.side_tree(sd).dom().contains(pr) && 0 <= j < b.levels(sd)[pr].len() && b.levels(
            sd,
        )[pr][j].order_id == order_id ==> b.levels(sd)[pr][j].payment_status
            != PaymentStatus::PaymentMarked || now < b.levels(sd)[pr][j].settlement_timestamp
}

/// An order whose settlement was verified; the timestamps stay as the
/// marking left them.
pub open spec fn spec_verified(o: OrderV) -> OrderV {
    OrderV { payment_status: PaymentStatus::Verified, ..o }
}

/// Verifies the settlement of a marked order: the cool-down must have
/// expired, the proof tuple must have the accepted wire shape, and the
/// order identifier embedded in the public inputs must match. On success
/// the order's status becomes `Verified` and the remaining quantity is
/// returned — the amount of escrow the host releases to the seller.
/// Errors leave the book untouched.
pub fn verify_settlement(
    order_book: &mut OrderBook,
    order_id: u128,
    proof_a: &Vec<u8>,
    proof_b: &Vec<u8>,
    proof_c: &Vec<u8>,
    public_signals: &Vec<String>,
    now: i64,
) -> (res: Result<u64, ErrorCode>)
    requires
        old(order_book).wf(),
    ensures
        final(order_book).wf(),
        res is Err ==> *final(order_book) == *old(order_book),
        (res == Err::<u64, ErrorCode>(ErrorCode::OrderNotFound)) <==> book_lacks_order(
            *old(order_book),
            order_id,
        ),
        res == Err::<u64, ErrorCode>(ErrorCode::SettlementDelayNotExpired)
            ==> !all_holders_settleable(*old(order_book), order_id, now),
        res == Err::<u64, ErrorCode>(ErrorCode::InvalidProof) ==> !spec_signals_id_well_formed(
            public_signals@,
        ) || !(proof_a@.len() == 64 && proof_b@.len() == 128 && proof_c@.len() == 64),
        res == Err::<u64, ErrorCode>(ErrorCode::ProofOrderIdMismatch) ==> spec_signals_id_well_formed(
            public_signals@,
        ) && spec_signals_order_id(public_signals@) != order_id,
        !book_lacks_order(*old(order_book), order_id) && no_holder_settleable(
            *old(order_book),
            order_id,
            now,
        ) ==> res == Err::<u64, ErrorCode>(ErrorCode::SettlementDelayNotExpired),
        !book_lacks_order(*old(order_book), order_id) && all_holders_settleable(
            *old(order_book),
            order_id,
            now,
        ) && !spec_signals_id_well_formed(public_signals@) ==> res == Err::<u64, ErrorCode>(
            ErrorCode::InvalidProof,
        ),
        !book_lacks_order(*old(order_book), order_id) && all_holders_settleable(
            *old(order_book),
            order_id,
            now,
        ) && spec_signals_id_well_formed(public_signals@) && spec_signals_order_id(public_signals@)
            != order_id ==> res == Err::<u64, ErrorCode>(ErrorCode::ProofOrderIdMismatch),
        !book_lacks_order(*old(order_book), order_id) && all_holders_settleable(
            *old(order_book),
            order_id,
            now,
        ) && spec_signals_id_well_formed(public_signals@) && spec_signals_order_id(public_signals@)
            == order_id && !(proof_a@.len() == 64 && proof_b@.len() == 128 && proof_c@.len() == 64)
            ==> res == Err::<u64, ErrorCode>(ErrorCode::InvalidProof),
        !book_lacks_order(*old(order_book), order_id) && all_holders_settleable(
            *old(order_book),
            order_id,
            now,
        ) && spec_signals_id_well_formed(public_signals@) && spec_signals_order_id(public_signals@)
            == order_id && proof_a@.len() == 64 && proof_b@.len() == 128 && proof_c@.len() == 64
            ==> res is Ok,
        res is Ok ==> spec_signals_id_well_formed(public_signals@) && spec_signals_order_id(
            public_signals@,
        ) == order_id && proof_a@.len() == 64 && proof_b@.len() == 128 && proof_c@.len() == 64
            && exists|sd: Side, pr: u64, j: int|
            #![trigger old(order_book).levels(sd)[pr][j]]
            {
                let o = old(order_book).levels(sd)[pr][j];
                &&& old(order_book).side_tree(sd).dom().contains(pr)
                &&& 0 <= j < old(order_book).levels(sd)[pr].len()
                &&& o.order_id == order_id
                &&& o.payment_status == PaymentStatus::PaymentMarked
                &&& now >= o.settlement_timestamp
                &&& payment_transition_allowed(o.payment_status, PaymentStatus::Verified)
                &&& res == Ok::<u64, ErrorCode>(o.quantity)
                &&& final(order_book).levels(sd) == old(order_book).levels(sd).insert(
                    pr,
                    old(order_book).levels(sd)[pr].update(j, spec_verified(o)),
                )
                &&& final(order_book).levels(sd.spec_opposite()) == old(order_book).levels(
                    sd.spec_opposite(),
                )
                &&& final(order_book).total_orders == old(order_book).total_orders
            },
{
    match order_book.find_order_slot(order_id) {
        None => Err(ErrorCode::OrderNotFound),
        Some((slot, idx)) => {
            let ghost sd = choose|s0: Side, p0: u64|
                #![auto]
                old(order_book).side_tree(s0).dom().contains(p0) && old(order_book).side_tree(
                    s0,
                )[p0] == slot;
            proof {
                let (s0, p0) = sd;
                assert(old(order_book).side_tree(s0).dom().contains(p0) && old(
                    order_book,
                ).side_tree(s0)[p0] == slot);
                assert(old(order_book).levels(s0)[p0] == old(order_book).order_queues[slot as int]@);
                assert(!book_lacks_order(*old(order_book), order_id)) by {
                    assert(old(order_book).levels(s0)[p0][idx as int].order_id == order_id);
                }
            }
            let o_status: PaymentStatus =
                order_book.order_queues[slot as usize].orders[idx].payment_status;
            let o_settlement_ts: i64 =
                order_book.order_queues[slot as usize].orders[idx].settlement_timestamp;
            if !matches!(o_status, PaymentStatus::PaymentMarked) || now < o_settlement_ts {
                proof {
                    let (s0, p0) = sd;
                    assert(!all_holders_settleable(*old(order_book), order_id, now));
                }
                return Err(ErrorCode::SettlementDelayNotExpired);
            }
            proof {
                let (s0, p0) = sd;
                assert(!no_holder_settleable(*old(order_book), order_id, now)) by {
                    assert(old(order_book).levels(s0)[p0][idx as int].order_id == order_id);
                    assert(old(order_book).levels(s0)[p0][idx as int].payment_status
                        == PaymentStatus::PaymentMarked);
                    assert(now >= old(order_book).levels(s0)[p0][idx as int].settlement_timestamp);
                }
            }
            if public_signals.len() < settlement::MIN_PUBLIC_INPUTS {
                return Err(ErrorCode::InvalidProof);
            }
            let embedded: u128 = match settlement::extract_order_id(public_signals) {
                Ok(id) => id,
                Err(e) => {
                    return Err(e);
                },
            };
            if embedded != order_id {
                return Err(ErrorCode::ProofOrderIdMismatch);
            }
            if !settlement::proof_shape_ok(proof_a, proof_b, proof_c) {
                return Err(ErrorCode::InvalidProof);
            }
            let o_marked_ts: i64 =
                order_book.order_queues[slot as usize].orders[idx].payment_marked_timestamp;
            let o_quantity: u64 = order_book.order_queues[slot as usize].orders[idx].quantity;
            order_book.set_payment_fields(
                slot,
                idx,
                PaymentStatus::Verified,
                o_marked_ts,
                o_settlement_ts,
            );
            proof {
                let (s0, p0) = sd;
                let o = old(order_book).levels(s0)[p0][idx as int];
                assert(order_book.levels(s0)[p0] == old(order_book).levels(s0)[p0].update(
                    idx as int,
                    spec_verified(o),
                ));
                assert(order_book.levels(s0) =~~= old(order_book).levels(s0).insert(
                    p0,
                    old(order_book).levels(s0)[p0].update(idx as int, spec_verified(o)),
                ));
                assert(order_book.levels(s0.spec_opposite()) =~~= old(order_book).levels(
                    s0.spec_opposite(),
                ));
            }
            Ok(o_quantity)
        },
    }
}

/// Total quantity of a fill list, as executable arithmetic.
pub fn total_filled(fills: &Vec<(u64, u64, u128)>) -> (r: u64)
    requires
        fills_total(fills@) <= u64::MAX,
    ensures
        r == fills_total(fills@),
{
    let mut total: u64 = 0;
    let mut i: usize = 0;
    let n: usize = fills.len();
    while i < n
        invariant
            n == fills@.len(),
            i <= n,
            total == fills_total(fills@.take(i as int)),
            fills_total(fills@) <= u64::MAX,
        decreases n - i,
    {
        proof {
            lemma_fills_total_prefix(fills@, i as int + 1);
            assert(fills@.take(i as int + 1).drop_last() =~= fills@.take(i as int));
            assert(fills@.take(i as int + 1).last() == fills@[i as int]);
        }
        total = total + fills[i].1;
        i = i + 1;
    }
    proof {
        assert(fills@.take(n as int) =~= fills@);
    }
    total
}

/// Matches a taker against the book under its order-type policy, resting
/// what the policy says should rest. The crossing itself follows
/// price-time priority with self-trade prevention; then:
/// market and immediate-or-cancel keep whatever crossed and rest nothing;
/// a limit order rests its unfilled remainder at the limit price;
/// post-only is rejected whole if it would cross at all and otherwise
/// rests untouched; fill-or-kill is rejected whole unless it crosses
/// completely. A rejected operation leaves book and market exactly as they
/// were.
pub fn match_order(
    market: &mut Market,
    order_book: &mut OrderBook,
    taker_owner: AccountId,
    side: Side,
    quantity: u64,
    limit_price: u64,
    order_type: OrderType,
    client_order_id: u64,
    payment_method: String,
    now: i64,
) -> (res: Result<Vec<(u64, u64, u128)>, ErrorCode>)
    requires
        old(order_book).wf(),
        old(market).next_order_sequence < u64::MAX,
        old(order_book).total_orders < u64::MAX,
        old(order_book).side_tree(side).dom().contains(limit_price) ==> sum_quantities(
            old(order_book).levels(side)[limit_price],
        ) + quantity <= u64::MAX,
    ensures
        final(order_book).wf(),
        final(market).authority == old(market).authority,
        final(market).token_mint == old(market).token_mint,
        res is Err ==> *final(market) == *old(market) && *final(order_book) == *old(order_book),
        quantity == 0 ==> res == Err::<Vec<(u64, u64, u128)>, ErrorCode>(ErrorCode::InvalidAmount),
        quantity > 0 && limit_price == 0 ==> res == Err::<Vec<(u64, u64, u128)>, ErrorCode>(
            ErrorCode::InvalidPrice,
        ),
        quantity > 0 && limit_price > 0 && payment_method@.len() > PAYMENT_METHOD_MAX_LEN ==> res
            == Err::<Vec<(u64, u64, u128)>, ErrorCode>(ErrorCode::PaymentMethodTooLong),
        quantity > 0 && limit_price > 0 && payment_method@.len() <= PAYMENT_METHOD_MAX_LEN && old(
            order_book,
        ).spec_would_self_trade(side, taker_owner) ==> res == Err::<
            Vec<(u64, u64, u128)>,
            ErrorCode,
        >(ErrorCode::SelfTradeNotAllowed),
        quantity > 0 && limit_price > 0 && payment_method@.len() <= PAYMENT_METHOD_MAX_LEN && !old(
            order_book,
        ).spec_would_self_trade(side, taker_owner) ==> ({
            let r = match_spec(
                old(order_book).levels(side.spec_opposite()),
                side,
                quantity,
                limit_price,
                taker_owner,
            );
            let filled = fills_total(r.0);
            let resting = spec_placed_order(
                taker_owner,
                side,
                limit_price,
                (quantity - filled) as u64,
                order_type,
                client_order_id,
                payment_method@,
                old(market).next_order_sequence,
                now,
            );
            let rested_level = (if old(order_book).side_tree(side).dom().contains(limit_price) {
                old(order_book).levels(side)[limit_price]
            } else {
                Seq::<OrderV>::empty()
            }).push(resting);
            &&& (order_type == OrderType::PostOnly ==> {
                if r.0.len() > 0 {
                    res == Err::<Vec<(u64, u64, u128)>, ErrorCode>(ErrorCode::PostOnlyWouldMatch)
                } else if !old(order_book).spec_can_insert(side, limit_price) {
                    res == Err::<Vec<(u64, u64, u128)>, ErrorCode>(ErrorCode::OrderBookFull)
                } else {
                    &&& res is Ok
                    &&& res.unwrap()@ == r.0
                    &&& final(market).next_order_sequence == old(market).next_order_sequence + 1
                    &&& final(order_book).levels(side) =~= old(order_book).levels(side).insert(
                        limit_price,
                        rested_level,
                    )
                    &&& final(order_book).levels(side.spec_opposite()) == old(order_book).levels(
                        side.spec_opposite(),
                    )
                }
            })
            &&& (order_type == OrderType::FillOrKill ==> {
                if filled < quantity {
                    res == Err::<Vec<(u64, u64, u128)>, ErrorCode>(ErrorCode::FillOrKillNotFilled)
                } else {
                    &&& res is Ok
                    &&& res.unwrap()@ == r.0
                    &&& final(order_book).levels(side.spec_opposite()) == r.1
                    &&& final(order_book).levels(side) == old(order_book).levels(side)
                    &&& *final(market) == *old(market)
                }
            })
            &&& ((order_type == OrderType::Market || order_type == OrderType::ImmediateOrCancel)
                ==> {
                &&& res is Ok
                &&& res.unwrap()@ == r.0
                &&& final(order_book).levels(side.spec_opposite()) == r.1
                &&& final(order_book).levels(side) == old(order_book).levels(side)
                &&& *final(market) == *old(market)
            })
            &&& (order_type == OrderType::Limit ==> {
                if filled < quantity && !old(order_book).spec_can_insert(side, limit_price) {
                    res == Err::<Vec<(u64, u64, u128)>, ErrorCode>(ErrorCode::OrderBookFull)
                } else if filled < quantity {
                    &&& res is Ok
                    &&& res.unwrap()@ == r.0
                    &&& final(market).next_order_sequence == old(market).next_order_sequence + 1
                    &&& final(order_book).levels(side.spec_opposite()) == r.1
                    &&& final(order_book).levels(side) =~= old(order_book).levels(side).insert(
                        limit_price,
                        rested_level,
                    )
                } else {
                    &&& res is Ok
                    &&& res.unwrap()@ == r.0
                    &&& final(order_book).levels(side.spec_opposite()) == r.1
                    &&& final(order_book).levels(side) == old(order_book).levels(side)
                    &&& *final(market) == *old(market)
                }
            })
        }),
{
    if quantity == 0 {
        return Err(ErrorCode::InvalidAmount);
    }
    if limit_price == 0 {
        return Err(ErrorCode::InvalidPrice);
    }
    if payment_method.as_str().unicode_len() > PAYMENT_METHOD_MAX_LEN {
        return Err(ErrorCode::PaymentMethodTooLong);
    }
    if order_book.would_self_trade(side, &taker_owner) {
        return Err(ErrorCode::SelfTradeNotAllowed);
    }
    let ghost l0 = order_book.levels(side.spec_opposite());
    proof {
        lemma_match_spec_sound(l0, side, quantity, limit_price, taker_owner);
    }
    if matches!(order_type, OrderType::PostOnly) {
        let mut shadow = order_book.snapshot();
        let planned: Vec<(u64, u64, u128)> = match shadow.match_order(
            side,
            quantity,
            limit_price,
            taker_owner,
        ) {
            Ok(f) => f,
            Err(_) => {
                proof {
                    assert(false);
                }
                return Err(ErrorCode::OrderNotFound);
            },
        };
        if planned.len() > 0 {
            return Err(ErrorCode::PostOnlyWouldMatch);
        }
        proof {
            lemma_match_spec_empty_fills(l0, side, quantity, limit_price, taker_owner);
            assert(fills_total(
                match_spec(l0, side, quantity, limit_price, taker_owner).0,
            ) == 0);
        }
        if !order_book.can_insert(side, limit_price) {
            return Err(ErrorCode::OrderBookFull);
        }
        let order_id: u128 = generate_order_id(&taker_owner, market.next_order_sequence, now);
        let order = Order::new(
            order_id,
            taker_owner,
            quantity,
            limit_price,
            now,
            order_type,
            side,
            client_order_id,
            payment_method,
        );
        match order_book.insert_order(order) {
            Ok(_) => {},
            Err(_) => {
                proof {
                    assert(false);
                }
                return Err(ErrorCode::OrderBookFull);
            },
        }
        market.next_order_sequence = market.next_order_sequence + 1;
        return Ok(planned);
    }
    if matches!(order_type, OrderType::FillOrKill) {
        let mut shadow = order_book.snapshot();
        let planned: Vec<(u64, u64, u128)> = match shadow.match_order(
            side,
            quantity,
            limit_price,
            taker_owner,
        ) {
            Ok(f) => f,
            Err(_) => {
                proof {
                    assert(false);
                }
                return Err(ErrorCode::OrderNotFound);
            },
        };
        let filled: u64 = total_filled(&planned);
        if filled < quantity {
            return Err(ErrorCode::FillOrKillNotFilled);
        }
        match order_book.match_order(side, quantity, limit_price, taker_owner) {
            Ok(fills) => {
                return Ok(fills);
            },
            Err(_) => {
                proof {
                    assert(false);
                }
                return Err(ErrorCode::OrderNotFound);
            },
        }
    }
    if matches!(order_type, OrderType::Limit) {
        let mut shadow = order_book.snapshot();
        let planned: Vec<(u64, u64, u128)> = match shadow.match_order(
            side,
            quantity,
            limit_price,
            taker_owner,
        ) {
            Ok(f) => f,
            Err(_) => {
                proof {
                    assert(false);
                }
                return Err(ErrorCode::OrderNotFound);
            },
        };
        let filled: u64 = total_filled(&planned);
        if filled < quantity {
            if !order_book.can_insert(side, limit_price) {
                return Err(ErrorCode::OrderBookFull);
            }
            let fills: Vec<(u64, u64, u128)> = match order_book.match_order(
                side,
                quantity,
                limit_price,
                taker_owner,
            ) {
                Ok(f) => f,
                Err(_) => {
                    proof {
                        assert(false);
                    }
                    return Err(ErrorCode::OrderNotFound);
                },
            };
            proof {
                match side {
                    Side::Bid => {
                        assert(order_book.bids == old(order_book).bids);
                    },
                    Side::Ask => {
                        assert(order_book.asks == old(order_book).asks);
                    },
                }
                assert(order_book.spec_can_insert(side, limit_price) == old(
                    order_book,
                ).spec_can_insert(side, limit_price));
            }
            let rest_qty: u64 = quantity - filled;
            let order_id: u128 = generate_order_id(&taker_owner, market.next_order_sequence, now);
            let order = Order::new(
                order_id,
                taker_owner,
                rest_qty,
                limit_price,
                now,
                order_type,
                side,
                client_order_id,
                payment_method,
            );
            match order_book.insert_order(order) {
                Ok(_) => {},
                Err(_) => {
                    proof {
                        assert(false);
                    }
                    return Err(ErrorCode::OrderBookFull);
                },
            }
            market.next_order_sequence = market.next_order_sequence + 1;
            return Ok(fills);
        }
        match order_book.match_order(side, quantity, limit_price, taker_owner) {
            Ok(fills) => {
                return Ok(fills);
            },
            Err(_) => {
                proof {
                    assert(false);
                }
                return Err(ErrorCode::OrderNotFound);
            },
        }
    }
    match order_book.match_order(side, quantity, limit_price, taker_owner) {
        Ok(fills) => Ok(fills),
        Err(_) => {
            proof {
                assert(false);
            }
            Err(ErrorCode::OrderNotFound)
        },
    }
}

} // verus!
