//! Tests of the settlement path: placing and cancelling through the
//! market operations, marking payments, the cool-down window, proof-shape
//! validation, the order-id limbs, and the record state machines.

use market_core::anomi;
use market_core::error::ErrorCode;
use market_core::market;
use market_core::order::{AccountId, OrderType, PaymentStatus, Side};
use market_core::order_book::OrderBook;
use market_core::order_processor;
use market_core::order_store;
use market_core::settlement;

fn account(w0: u64) -> AccountId {
    AccountId::new(w0, 0, 0, 0)
}

fn new_book() -> OrderBook {
    OrderBook::new(account(1), account(2), account(2))
}

fn place(
    mkt: &mut market::Market,
    book: &mut OrderBook,
    owner: AccountId,
    side: Side,
    price: u64,
    qty: u64,
    now: i64,
) -> u128 {
    market::place_limit_order_v2(
        mkt,
        book,
        owner,
        side,
        price,
        qty,
        OrderType::Limit,
        7,
        "PayPal".to_string(),
        now,
    )
    .unwrap()
}

fn signals_for(order_id: u128) -> Vec<String> {
    let mut signals: Vec<String> = Vec::new();
    for i in 0..16 {
        signals.push(format!("{}", i + 1));
    }
    signals.push(format!("{}", order_id as u64));
    signals.push(format!("{}", (order_id >> 64) as u64));
    signals
}

#[test]
fn test_settlement_delay() {
    let mut book = new_book();
    let mut mkt = market::initialize_market(account(5), account(2));
    let buyer = account(10);
    let order_id = place(&mut mkt, &mut book, buyer, Side::Bid, 100, 4, 999);

    // Mark at t=1000: the window ends at t=1010.
    market::mark_payment_made(&mut book, buyer, order_id, 1000).unwrap();

    let proof_a = vec![0u8; 64];
    let proof_b = vec![0u8; 128];
    let proof_c = vec![0u8; 64];
    let signals = signals_for(order_id);

    let early = market::verify_settlement(
        &mut book, order_id, &proof_a, &proof_b, &proof_c, &signals, 1009,
    );
    assert_eq!(early, Err(ErrorCode::SettlementDelayNotExpired));

    let released = market::verify_settlement(
        &mut book, order_id, &proof_a, &proof_b, &proof_c, &signals, 1010,
    )
    .unwrap();
    assert_eq!(released, 4);
    let head = book.get_best_order(Side::Bid).unwrap();
    assert_eq!(head.payment_status, PaymentStatus::Verified);
    assert_eq!(head.payment_marked_timestamp, 1000);
    assert_eq!(head.settlement_timestamp, 1010);
}

#[test]
fn test_mark_payment_errors() {
    let mut book = new_book();
    let mut mkt = market::initialize_market(account(5), account(2));
    let buyer = account(10);
    let stranger = account(11);
    let order_id = place(&mut mkt, &mut book, buyer, Side::Bid, 100, 4, 999);

    assert_eq!(
        market::mark_payment_made(&mut book, buyer, 12345, 1000),
        Err(ErrorCode::OrderNotFound)
    );
    assert_eq!(
        market::mark_payment_made(&mut book, stranger, order_id, 1000),
        Err(ErrorCode::UnauthorizedAction)
    );
    market::mark_payment_made(&mut book, buyer, order_id, 1000).unwrap();
    // Marking again is refused.
    assert_eq!(
        market::mark_payment_made(&mut book, buyer, order_id, 1001),
        Err(ErrorCode::UnauthorizedAction)
    );
}

#[test]
fn test_verify_settlement_proof_errors() {
    let mut book = new_book();
    let mut mkt = market::initialize_market(account(5), account(2));
    let buyer = account(10);
    let order_id = place(&mut mkt, &mut book, buyer, Side::Bid, 100, 4, 999);
    market::mark_payment_made(&mut book, buyer, order_id, 1000).unwrap();

    let proof_a = vec![0u8; 64];
    let proof_b = vec![0u8; 128];
    let proof_c = vec![0u8; 64];

    // Too few public inputs.
    let short: Vec<String> = vec!["1".to_string(); 17];
    assert_eq!(
        market::verify_settlement(&mut book, order_id, &proof_a, &proof_b, &proof_c, &short, 1010),
        Err(ErrorCode::InvalidProof)
    );

    // A non-numeric limb.
    let mut bad = signals_for(order_id);
    bad[16] = "not-a-number".to_string();
    assert_eq!(
        market::verify_settlement(&mut book, order_id, &proof_a, &proof_b, &proof_c, &bad, 1010),
        Err(ErrorCode::InvalidProof)
    );

    // Limbs that decode to a different identifier.
    let other = signals_for(order_id ^ 1);
    assert_eq!(
        market::verify_settlement(&mut book, order_id, &proof_a, &proof_b, &proof_c, &other, 1010),
        Err(ErrorCode::ProofOrderIdMismatch)
    );

    // A malformed proof point.
    let stubby = vec![0u8; 63];
    let signals = signals_for(order_id);
    assert_eq!(
        market::verify_settlement(&mut book, order_id, &stubby, &proof_b, &proof_c, &signals, 1010),
        Err(ErrorCode::InvalidProof)
    );

    // An unknown order.
    assert_eq!(
        market::verify_settlement(&mut book, 999, &proof_a, &proof_b, &proof_c, &signals, 1010),
        Err(ErrorCode::OrderNotFound)
    );

    // The book is still intact and the order still marked.
    let head = book.get_best_order(Side::Bid).unwrap();
    assert_eq!(head.payment_status, PaymentStatus::PaymentMarked);
}

#[test]
fn test_order_id_limb_round_trip() {
    // Splitting an identifier into low and high limbs and composing them
    // again reconstructs it.
    let x: u128 = 0x0123_4567_89AB_CDEF_1122_3344_5566_7788;
    let low = x as u64;
    let high = (x >> 64) as u64;
    assert_eq!(settlement::compose_order_id(low, high), x);
    assert_eq!(settlement::compose_order_id(u64::MAX, u64::MAX), u128::MAX);
    assert_eq!(settlement::compose_order_id(0, 0), 0);
}

#[test]
fn test_parse_u64() {
    assert_eq!(settlement::parse_u64("0"), Some(0));
    assert_eq!(settlement::parse_u64("12345"), Some(12345));
    assert_eq!(settlement::parse_u64("18446744073709551615"), Some(u64::MAX));
    assert_eq!(settlement::parse_u64("18446744073709551616"), None);
    assert_eq!(settlement::parse_u64(""), None);
    assert_eq!(settlement::parse_u64("12a"), None);
    assert_eq!(settlement::parse_u64("-1"), None);
}

#[test]
fn test_place_and_cancel_errors() {
    let mut book = new_book();
    let mut mkt = market::initialize_market(account(5), account(2));
    let owner = account(10);
    let stranger = account(11);

    let res = market::place_limit_order_v2(
        &mut mkt,
        &mut book,
        owner,
        Side::Ask,
        100,
        0,
        OrderType::Limit,
        1,
        "PayPal".to_string(),
        1000,
    );
    assert_eq!(res, Err(ErrorCode::InvalidAmount));

    let res = market::place_limit_order_v2(
        &mut mkt,
        &mut book,
        owner,
        Side::Ask,
        0,
        5,
        OrderType::Limit,
        1,
        "PayPal".to_string(),
        1000,
    );
    assert_eq!(res, Err(ErrorCode::InvalidPrice));

    let res = market::place_limit_order_v2(
        &mut mkt,
        &mut book,
        owner,
        Side::Ask,
        100,
        5,
        OrderType::Limit,
        1,
        "x".repeat(101),
        1000,
    );
    assert_eq!(res, Err(ErrorCode::PaymentMethodTooLong));

    let order_id = place(&mut mkt, &mut book, owner, Side::Ask, 100, 5, 1000);
    assert_eq!(
        market::cancel_order(&mut book, stranger, order_id, Side::Ask, 100).unwrap_err(),
        ErrorCode::UnauthorizedCancellation
    );
    assert_eq!(
        market::cancel_order(&mut book, owner, order_id, Side::Ask, 101).unwrap_err(),
        ErrorCode::OrderNotFound
    );
    let cancelled = market::cancel_order(&mut book, owner, order_id, Side::Ask, 100).unwrap();
    assert_eq!(cancelled.quantity, 5);
    assert_eq!(book.total_orders, 0);
}

#[test]
fn test_matched_order_lifecycle() {
    let mut record = order_store::create_matched_order(
        9,
        account(20),
        account(21),
        account(2),
        50,
        100,
        1000,
    );
    assert_eq!(record.status, order_store::OrderStatus::Pending);
    assert_eq!(record.created_at, 1000);

    // An empty proof is refused; the record stays pending.
    let empty: Vec<u8> = Vec::new();
    assert_eq!(
        order_processor::finalize_trade(&mut record, &empty, 1001),
        Err(order_processor::ErrorCode::InvalidProof)
    );
    // Settling an unconfirmed record is refused.
    assert_eq!(
        order_processor::settle_trade(&mut record, 1001),
        Err(order_processor::ErrorCode::InvalidOrderStatus)
    );

    let proof = vec![1u8, 2, 3];
    order_processor::finalize_trade(&mut record, &proof, 1002).unwrap();
    assert_eq!(record.status, order_store::OrderStatus::Confirmed);
    assert_eq!(record.updated_at, 1002);

    // Finalizing twice is refused; cancelling after confirmation too.
    assert_eq!(
        order_processor::finalize_trade(&mut record, &proof, 1003),
        Err(order_processor::ErrorCode::InvalidOrderStatus)
    );
    assert_eq!(
        order_store::cancel_order(&mut record, 1003),
        Err(order_store::ErrorCode::InvalidOrderStatus)
    );

    order_processor::settle_trade(&mut record, 1004).unwrap();
    assert_eq!(record.status, order_store::OrderStatus::Settled);

    // A pending record can be cancelled.
    let mut fresh = order_store::create_matched_order(
        10,
        account(20),
        account(21),
        account(2),
        50,
        100,
        1000,
    );
    order_store::cancel_order(&mut fresh, 1001).unwrap();
    assert_eq!(fresh.status, order_store::OrderStatus::Cancelled);
}

#[test]
fn test_matched_order_store_steps() {
    let mut record = order_store::create_matched_order(
        11,
        account(20),
        account(21),
        account(2),
        50,
        100,
        1000,
    );
    order_store::confirm_order(&mut record, 1005);
    assert_eq!(record.status, order_store::OrderStatus::Confirmed);
    assert_eq!(record.updated_at, 1005);
    order_store::settle_order(&mut record, 1006);
    assert_eq!(record.status, order_store::OrderStatus::Settled);
    assert_eq!(record.updated_at, 1006);
}

#[test]
fn test_accept_ask_and_finalize_trade() {
    let buyer = account(30);
    let seller = account(31);

    assert_eq!(
        anomi::accept_ask(buyer, seller, 77, "bogus", 3).unwrap_err(),
        anomi::ErrorCode::InvalidSolvencyProof
    );

    let mut trade = anomi::accept_ask(buyer, seller, 77, "valid_solvency_proof_123", 3).unwrap();
    assert_eq!(trade.status, anomi::TradeStatus::AwaitingPayment);
    assert_eq!(trade.order_id, 77);
    assert_eq!(trade.amount, 100);
    assert_eq!(trade.price, 285);

    assert_eq!(
        anomi::finalize_trade(&mut trade, "bogus"),
        Err(anomi::ErrorCode::InvalidPaymentProof)
    );
    let released = anomi::finalize_trade(&mut trade, "valid_payment_proof_xyz").unwrap();
    assert_eq!(released, 100);
    assert_eq!(trade.status, anomi::TradeStatus::Completed);
    assert_eq!(
        anomi::finalize_trade(&mut trade, "valid_payment_proof_xyz"),
        Err(anomi::ErrorCode::InvalidTradeState)
    );
}

#[test]
fn test_market_initialization() {
    let mkt = market::initialize_market(account(5), account(2));
    assert_eq!(mkt.authority, account(5));
    assert_eq!(mkt.token_mint, account(2));
    assert_eq!(mkt.next_order_sequence, 0);

    let book = market::initialize_order_book_v2(account(1), account(2));
    assert_eq!(book.market, account(1));
    assert_eq!(book.base_mint, account(2));
    assert_eq!(book.quote_mint, account(2));
    assert_eq!(book.total_orders, 0);
}
