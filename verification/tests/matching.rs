//! Tests of the matching engine: price priority, time priority, self-trade
//! prevention, partial fills, and the order-type policies.

use market_core::error::ErrorCode;
use market_core::market;
use market_core::order::{generate_order_id, AccountId, Order, OrderType, Side};
use market_core::order_book::OrderBook;

fn account(w0: u64) -> AccountId {
    AccountId::new(w0, 0, 0, 0)
}

fn new_book() -> OrderBook {
    OrderBook::new(account(1), account(2), account(2))
}

fn submit(
    mkt: &mut market::Market,
    book: &mut OrderBook,
    taker: AccountId,
    side: Side,
    qty: u64,
    limit: u64,
    order_type: OrderType,
) -> Result<Vec<(u64, u64, u128)>, ErrorCode> {
    market::match_order(
        mkt,
        book,
        taker,
        side,
        qty,
        limit,
        order_type,
        9,
        "PayPal".to_string(),
        2000,
    )
}

fn rest(book: &mut OrderBook, owner: AccountId, seq: u64, qty: u64, price: u64, side: Side) -> u128 {
    let order = Order::new(
        generate_order_id(&owner, seq, 1000 + seq as i64),
        owner,
        qty,
        price,
        1000 + seq as i64,
        OrderType::Limit,
        side,
        seq,
        "PayPal".to_string(),
    );
    let id = order.order_id;
    book.insert_order(order).unwrap();
    id
}

#[test]
fn test_price_priority() {
    let mut book = new_book();
    let owner_a = account(10);
    let owner_b = account(11);
    let owner_c = account(12);
    let owner_d = account(13);
    let id_a = rest(&mut book, owner_a, 1, 5, 110, Side::Ask);
    let id_b = rest(&mut book, owner_b, 2, 3, 105, Side::Ask);
    rest(&mut book, owner_c, 3, 10, 115, Side::Ask);

    let fills = book.match_order(Side::Bid, 6, 120, owner_d).unwrap();
    assert_eq!(fills, vec![(105, 3, id_b), (110, 3, id_a)]);

    // Remaining asks: 110 with quantity 2, 115 with quantity 10.
    assert_eq!(book.best_ask, 110);
    assert_eq!(book.get_depth(Side::Ask, 1), vec![(110, 2)]);
    assert_eq!(book.total_orders, 2);
}

#[test]
fn test_time_priority() {
    let mut book = new_book();
    let owner_a = account(20);
    let owner_b = account(21);
    let owner_c = account(22);
    let id_a = rest(&mut book, owner_a, 1, 4, 100, Side::Ask);
    let id_b = rest(&mut book, owner_b, 2, 4, 100, Side::Ask);

    let fills = book.match_order(Side::Bid, 6, 100, owner_c).unwrap();
    assert_eq!(fills, vec![(100, 4, id_a), (100, 2, id_b)]);

    // The queue at 100 still holds the later order with quantity 2.
    let head = book.get_best_order(Side::Ask).unwrap();
    assert_eq!(head.order_id, id_b);
    assert_eq!(head.quantity, 2);
    assert_eq!(book.get_depth(Side::Ask, 1), vec![(100, 2)]);
}

#[test]
fn test_self_trade_halts() {
    let mut book = new_book();
    let owner_x = account(30);
    rest(&mut book, owner_x, 1, 5, 100, Side::Ask);
    let before_total = book.total_orders;
    let before_ask = book.best_ask;

    let fills = book.match_order(Side::Bid, 3, 100, owner_x).unwrap();
    assert_eq!(fills, vec![]);
    assert_eq!(book.total_orders, before_total);
    assert_eq!(book.best_ask, before_ask);
}

#[test]
fn test_match_stops_at_limit() {
    let mut book = new_book();
    let maker = account(40);
    let taker = account(41);
    rest(&mut book, maker, 1, 5, 100, Side::Ask);
    rest(&mut book, maker, 2, 5, 130, Side::Ask);
    // Only the level within the limit crosses.
    let fills = book.match_order(Side::Bid, 10, 110, taker).unwrap();
    assert_eq!(fills.len(), 1);
    assert_eq!((fills[0].0, fills[0].1), (100, 5));
    assert_eq!(book.best_ask, 130);
}

#[test]
fn test_ask_taker_crosses_bids() {
    let mut book = new_book();
    let maker = account(50);
    let taker = account(51);
    let id_hi = rest(&mut book, maker, 1, 4, 90, Side::Bid);
    rest(&mut book, maker, 2, 4, 80, Side::Bid);
    // A seller accepts bids at or above the limit, highest first.
    let fills = book.match_order(Side::Ask, 6, 80, taker).unwrap();
    assert_eq!(fills[0], (90, 4, id_hi));
    assert_eq!(fills[1].0, 80);
    assert_eq!(fills[1].1, 2);
    assert_eq!(book.best_bid, 80);
}

#[test]
fn test_fok_rejection() {
    let mut book = new_book();
    let mut mkt = market::initialize_market(account(5), account(2));
    let maker = account(60);
    let taker = account(61);
    rest(&mut book, maker, 1, 2, 95, Side::Ask);
    rest(&mut book, maker, 2, 3, 100, Side::Ask);
    let before_total = book.total_orders;
    let before_depth = book.get_depth(Side::Ask, 1);

    let res = submit(&mut mkt, &mut book, taker, Side::Bid, 10, 100, OrderType::FillOrKill);
    assert_eq!(res, Err(ErrorCode::FillOrKillNotFilled));
    // The rejected fill-or-kill left the book untouched.
    assert_eq!(book.total_orders, before_total);
    assert_eq!(book.get_depth(Side::Ask, 1), before_depth);
    assert_eq!(book.best_ask, 95);
}

#[test]
fn test_fok_complete_fill() {
    let mut book = new_book();
    let mut mkt = market::initialize_market(account(5), account(2));
    let maker = account(62);
    let taker = account(63);
    rest(&mut book, maker, 1, 2, 95, Side::Ask);
    rest(&mut book, maker, 2, 3, 100, Side::Ask);
    let fills =
        submit(&mut mkt, &mut book, taker, Side::Bid, 5, 100, OrderType::FillOrKill).unwrap();
    assert_eq!(fills.len(), 2);
    assert_eq!(fills[0].1 + fills[1].1, 5);
    assert_eq!(book.total_orders, 0);
}

#[test]
fn test_post_only_acceptance_and_rejection() {
    // Resting a post-only bid on an empty ask side succeeds.
    let mut book = new_book();
    let mut mkt = market::initialize_market(account(5), account(2));
    let buyer = account(70);
    let placed = market::place_limit_order_v2(
        &mut mkt,
        &mut book,
        buyer,
        Side::Bid,
        100,
        1,
        OrderType::PostOnly,
        1,
        "PayPal".to_string(),
        1000,
    );
    assert!(placed.is_ok());
    assert_eq!(book.best_bid, 100);

    // Against a crossing ask, the post-only taker is rejected whole,
    // whether it is placed or submitted for matching.
    let mut book2 = new_book();
    let mut mkt2 = market::initialize_market(account(5), account(2));
    let maker = account(71);
    rest(&mut book2, maker, 1, 1, 90, Side::Ask);
    let before_total = book2.total_orders;
    let placed2 = market::place_limit_order_v2(
        &mut mkt2,
        &mut book2,
        buyer,
        Side::Bid,
        100,
        1,
        OrderType::PostOnly,
        1,
        "PayPal".to_string(),
        1000,
    );
    assert_eq!(placed2, Err(ErrorCode::PostOnlyWouldMatch));
    let res = submit(&mut mkt2, &mut book2, buyer, Side::Bid, 1, 100, OrderType::PostOnly);
    assert_eq!(res, Err(ErrorCode::PostOnlyWouldMatch));
    assert_eq!(book2.total_orders, before_total);
    assert_eq!(book2.best_ask, 90);
    assert_eq!(book2.best_bid, 0);
}

#[test]
fn test_post_only_no_cross_rests() {
    let mut book = new_book();
    let mut mkt = market::initialize_market(account(5), account(2));
    let maker = account(72);
    let taker = account(73);
    rest(&mut book, maker, 1, 1, 120, Side::Ask);
    // The ask is above the limit, so nothing would cross: the post-only
    // order makes no fills and rests as a bid at its limit price.
    let fills =
        submit(&mut mkt, &mut book, taker, Side::Bid, 1, 100, OrderType::PostOnly).unwrap();
    assert_eq!(fills, vec![]);
    assert_eq!(book.total_orders, 2);
    assert_eq!(book.best_bid, 100);
    assert_eq!(book.get_depth(Side::Bid, 1), vec![(100, 1)]);
}

#[test]
fn test_limit_remainder_rests() {
    let mut book = new_book();
    let mut mkt = market::initialize_market(account(5), account(2));
    let maker = account(74);
    let taker = account(75);
    rest(&mut book, maker, 1, 3, 100, Side::Ask);
    // The taker crosses 3 units; the remaining 7 rest as a bid at the
    // limit price.
    let fills = submit(&mut mkt, &mut book, taker, Side::Bid, 10, 100, OrderType::Limit).unwrap();
    assert_eq!(fills.len(), 1);
    assert_eq!(fills[0].1, 3);
    assert_eq!(book.total_orders, 1);
    assert_eq!(book.best_bid, 100);
    assert_eq!(book.get_depth(Side::Bid, 1), vec![(100, 7)]);
    let head = book.get_best_order(Side::Bid).unwrap();
    assert_eq!(head.owner, taker);
    assert_eq!(head.quantity, 7);
    assert_eq!(head.original_quantity, 7);
}

#[test]
fn test_match_order_validation_errors() {
    let mut book = new_book();
    let mut mkt = market::initialize_market(account(5), account(2));
    let maker = account(80);
    let taker = account(81);
    rest(&mut book, maker, 1, 5, 100, Side::Ask);

    let res = submit(&mut mkt, &mut book, taker, Side::Bid, 0, 100, OrderType::Market);
    assert_eq!(res, Err(ErrorCode::InvalidAmount));
    let res = submit(&mut mkt, &mut book, taker, Side::Bid, 5, 0, OrderType::Market);
    assert_eq!(res, Err(ErrorCode::InvalidPrice));
    let res = market::match_order(
        &mut mkt,
        &mut book,
        taker,
        Side::Bid,
        5,
        100,
        OrderType::Market,
        9,
        "x".repeat(101),
        2000,
    );
    assert_eq!(res, Err(ErrorCode::PaymentMethodTooLong));
    let res = submit(&mut mkt, &mut book, maker, Side::Bid, 5, 100, OrderType::Market);
    assert_eq!(res, Err(ErrorCode::SelfTradeNotAllowed));
    assert_eq!(book.total_orders, 1);
}

#[test]
fn test_market_and_ioc_keep_partial_fills() {
    let mut book = new_book();
    let mut mkt = market::initialize_market(account(5), account(2));
    let maker = account(90);
    let taker = account(91);
    rest(&mut book, maker, 1, 3, 100, Side::Ask);
    let fills =
        submit(&mut mkt, &mut book, taker, Side::Bid, 10, 100, OrderType::Market).unwrap();
    assert_eq!(fills.len(), 1);
    assert_eq!(fills[0].1, 3);
    assert_eq!(book.total_orders, 0);

    let mut book2 = new_book();
    rest(&mut book2, maker, 2, 3, 100, Side::Ask);
    let fills2 = submit(
        &mut mkt,
        &mut book2,
        taker,
        Side::Bid,
        10,
        100,
        OrderType::ImmediateOrCancel,
    )
    .unwrap();
    assert_eq!(fills2.len(), 1);
    assert_eq!(fills2[0].1, 3);
    // The remainder is discarded: nothing rests.
    assert_eq!(book2.total_orders, 0);
}

#[test]
fn test_fills_never_exceed_taker_quantity() {
    let mut book = new_book();
    let maker = account(95);
    let taker = account(96);
    rest(&mut book, maker, 1, 4, 100, Side::Ask);
    rest(&mut book, maker, 2, 4, 101, Side::Ask);
    rest(&mut book, maker, 3, 4, 102, Side::Ask);
    let fills = book.match_order(Side::Bid, 7, 200, taker).unwrap();
    let total: u64 = fills.iter().map(|f| f.1).sum();
    assert_eq!(total, 7);
    assert!(fills.iter().all(|f| f.0 <= 200));
}
