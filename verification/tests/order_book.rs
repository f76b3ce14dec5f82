//! Tests of the order book: resting, cancelling, best prices, depth and
//! the round trip that restores the book.

use market_core::error::ErrorCode;
use market_core::order::{generate_order_id, AccountId, Order, OrderType, Side};
use market_core::order_book::OrderBook;

fn account(w0: u64) -> AccountId {
    AccountId::new(w0, 0, 0, 0)
}

fn limit_order(owner: AccountId, seq: u64, qty: u64, price: u64, side: Side) -> Order {
    Order::new(
        generate_order_id(&owner, seq, 1000),
        owner,
        qty,
        price,
        1000,
        OrderType::Limit,
        side,
        seq,
        "PayPal".to_string(),
    )
}

#[test]
fn test_order_book_insert() {
    let market = account(1);
    let base_mint = account(2);
    let quote_mint = account(3);
    let mut book = OrderBook::new(market, base_mint, quote_mint);

    let owner = account(4);
    let order = Order::new(
        generate_order_id(&owner, 1, 1000),
        owner,
        100,
        50,
        1000,
        OrderType::Limit,
        Side::Bid,
        1,
        "PayPal".to_string(),
    );

    book.insert_order(order).unwrap();
    assert_eq!(book.total_orders, 1);
    assert_eq!(book.best_bid, 50);
}

#[test]
fn test_order_book_best_price() {
    let market = account(1);
    let base_mint = account(2);
    let quote_mint = account(3);
    let mut book = OrderBook::new(market, base_mint, quote_mint);

    let owner = account(4);

    for price in [40u64, 50, 45] {
        let order = Order::new(
            generate_order_id(&owner, price, 1000),
            owner,
            100,
            price,
            1000,
            OrderType::Limit,
            Side::Bid,
            price,
            "PayPal".to_string(),
        );
        book.insert_order(order).unwrap();
    }

    assert_eq!(book.best_bid, 50);

    for price in [60u64, 55, 65] {
        let order = Order::new(
            generate_order_id(&owner, price, 1000),
            owner,
            100,
            price,
            1000,
            OrderType::Limit,
            Side::Ask,
            price,
            "PayPal".to_string(),
        );
        book.insert_order(order).unwrap();
    }

    assert_eq!(book.best_ask, 55);

    assert_eq!(book.get_spread(), Some(5));

    assert_eq!(book.get_mid_price(), Some(52));
}

#[test]
fn test_order_book_remove() {
    let market = account(1);
    let base_mint = account(2);
    let quote_mint = account(3);
    let mut book = OrderBook::new(market, base_mint, quote_mint);

    let owner = account(4);
    let order_id = generate_order_id(&owner, 1, 1000);
    let order = Order::new(
        order_id,
        owner,
        100,
        50,
        1000,
        OrderType::Limit,
        Side::Bid,
        1,
        "PayPal".to_string(),
    );

    book.insert_order(order).unwrap();
    assert_eq!(book.total_orders, 1);

    let removed = book.remove_order(order_id, Side::Bid, 50).unwrap();
    assert_eq!(removed.order_id, order_id);
    assert_eq!(book.total_orders, 0);
    assert_eq!(book.best_bid, 0);
}

#[test]
fn test_order_book_empty_caches() {
    let mut book = OrderBook::new(account(1), account(2), account(3));
    assert_eq!(book.best_bid, 0);
    assert_eq!(book.best_ask, u64::MAX);
    assert_eq!(book.get_spread(), None);
    assert_eq!(book.get_mid_price(), None);
    assert!(book.get_best_order(Side::Bid).is_none());
    assert!(book.get_best_order_mut(Side::Ask).is_none());
    assert_eq!(book.get_depth(Side::Bid, 5).len(), 0);
    assert_eq!(
        book.remove_order(7, Side::Bid, 50).unwrap_err(),
        ErrorCode::OrderNotFound
    );
}

#[test]
fn test_order_book_depth_and_best() {
    let mut book = OrderBook::new(account(1), account(2), account(3));
    let a = account(10);
    let b = account(11);
    let first = limit_order(a, 1, 4, 100, Side::Ask);
    let first_id = first.order_id;
    book.insert_order(first).unwrap();
    book.insert_order(limit_order(b, 2, 6, 100, Side::Ask)).unwrap();
    book.insert_order(limit_order(b, 3, 9, 120, Side::Ask)).unwrap();
    // Depth reports the best level with its total quantity.
    let depth = book.get_depth(Side::Ask, 10);
    assert_eq!(depth, vec![(100u64, 10u64)]);
    // The best order is the oldest at the best price.
    let best = book.get_best_order(Side::Ask).unwrap();
    assert_eq!(best.order_id, first_id);
    assert_eq!(best.quantity, 4);
}

#[test]
fn test_would_self_trade() {
    let mut book = OrderBook::new(account(1), account(2), account(3));
    let maker = account(10);
    let other = account(11);
    book.insert_order(limit_order(maker, 1, 5, 100, Side::Ask)).unwrap();
    assert!(book.would_self_trade(Side::Bid, &maker));
    assert!(!book.would_self_trade(Side::Bid, &other));
    // No bids rest, so an ask taker cannot self-trade.
    assert!(!book.would_self_trade(Side::Ask, &maker));
}

#[test]
fn test_insert_cancel_round_trip_restores_book() {
    let mut book = OrderBook::new(account(1), account(2), account(3));
    let maker = account(10);
    book.insert_order(limit_order(maker, 1, 5, 100, Side::Ask)).unwrap();
    book.insert_order(limit_order(maker, 2, 3, 90, Side::Bid)).unwrap();

    let before_total = book.total_orders;
    let before_bid = book.best_bid;
    let before_ask = book.best_ask;
    let before_depth_ask = book.get_depth(Side::Ask, 1);
    let before_depth_bid = book.get_depth(Side::Bid, 1);

    // Rest a fresh order at a fresh price, then cancel it.
    let extra = limit_order(maker, 3, 7, 95, Side::Ask);
    let extra_id = extra.order_id;
    book.insert_order(extra).unwrap();
    assert_eq!(book.best_ask, 95);
    let removed = book.remove_order(extra_id, Side::Ask, 95).unwrap();
    assert_eq!(removed.order_id, extra_id);

    assert_eq!(book.total_orders, before_total);
    assert_eq!(book.best_bid, before_bid);
    assert_eq!(book.best_ask, before_ask);
    assert_eq!(book.get_depth(Side::Ask, 1), before_depth_ask);
    assert_eq!(book.get_depth(Side::Bid, 1), before_depth_bid);
}

#[test]
fn test_order_book_full() {
    let mut book = OrderBook::new(account(1), account(2), account(3));
    let maker = account(10);
    // The shared tree budget admits 25 price levels per side; the 26th
    // distinct ask price must be refused and leave the book unchanged.
    for i in 0..25u64 {
        book.insert_order(limit_order(maker, i, 1, 1000 + i, Side::Ask)).unwrap();
    }
    let total = book.total_orders;
    let overflow = limit_order(maker, 99, 1, 2000, Side::Ask);
    assert_eq!(book.insert_order(overflow), Err(ErrorCode::OrderBookFull));
    assert_eq!(book.total_orders, total);
    // An existing level still accepts more orders.
    book.insert_order(limit_order(maker, 100, 1, 1000, Side::Ask)).unwrap();
}

#[test]
fn test_get_best_order_mut_fills_in_place() {
    let mut book = OrderBook::new(account(1), account(2), account(3));
    let maker = account(10);
    book.insert_order(limit_order(maker, 1, 8, 70, Side::Bid)).unwrap();
    {
        let head = book.get_best_order_mut(Side::Bid).unwrap();
        head.fill(3);
    }
    let head = book.get_best_order(Side::Bid).unwrap();
    assert_eq!(head.quantity, 5);
}
