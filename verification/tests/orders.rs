//! Tests of orders, order identifiers and price-level queues.

use market_core::order::{
    generate_order_id, AccountId, Order, OrderQueue, OrderType, PaymentStatus, Side,
};

fn account(w0: u64) -> AccountId {
    AccountId::new(w0, 0, 0, 0)
}

#[test]
fn test_order_creation() {
    let owner = account(11);
    let order_id = generate_order_id(&owner, 1, 1000);

    let order = Order::new(
        order_id,
        owner,
        100,
        50,
        1000,
        OrderType::Limit,
        Side::Bid,
        123,
        "PayPal".to_string(),
    );

    assert_eq!(order.quantity, 100);
    assert_eq!(order.price, 50);
    assert!(!order.is_filled());
}

#[test]
fn test_order_fill() {
    let owner = account(12);
    let order_id = generate_order_id(&owner, 1, 1000);

    let mut order = Order::new(
        order_id,
        owner,
        100,
        50,
        1000,
        OrderType::Limit,
        Side::Bid,
        123,
        "PayPal".to_string(),
    );

    order.fill(30);
    assert_eq!(order.quantity, 70);
    assert_eq!(order.fill_percentage(), 30);
    assert!(!order.is_filled());

    order.fill(70);
    assert_eq!(order.quantity, 0);
    assert!(order.is_filled());
    assert_eq!(order.fill_percentage(), 100);
}

#[test]
fn test_order_queue() {
    let owner = account(13);
    let mut queue = OrderQueue::new();

    let order1 = Order::new(
        generate_order_id(&owner, 1, 1000),
        owner,
        100,
        50,
        1000,
        OrderType::Limit,
        Side::Bid,
        1,
        "PayPal".to_string(),
    );

    let order2 = Order::new(
        generate_order_id(&owner, 2, 1001),
        owner,
        50,
        50,
        1001,
        OrderType::Limit,
        Side::Bid,
        2,
        "PayPal".to_string(),
    );

    let order1_id = order1.order_id;
    queue.push(order1);
    queue.push(order2);

    assert_eq!(queue.total_quantity, 150);
    assert!(!queue.is_empty());

    let removed = queue.remove(order1_id).unwrap();
    assert_eq!(removed.order_id, order1_id);
    assert_eq!(queue.total_quantity, 50);
}

#[test]
fn test_unique_order_ids() {
    let owner1 = account(21);
    let owner2 = account(22);

    let id1 = generate_order_id(&owner1, 1, 1000);
    let id2 = generate_order_id(&owner1, 2, 1000);
    let id3 = generate_order_id(&owner2, 1, 1000);

    assert_ne!(id1, id2);
    assert_ne!(id1, id3);
    assert_ne!(id2, id3);
}

#[test]
fn test_order_id_layout() {
    // Upper 32 bits: low timestamp bits; next 32: sequence; low 64: owner key.
    let owner = AccountId::new(0xDEAD_BEEF, 7, 7, 7);
    let id = generate_order_id(&owner, 3, 5);
    let high = (id >> 64) as u64;
    let low = id as u64;
    assert_eq!(low, 0xDEAD_BEEF);
    assert_eq!(high, (5u64 << 32) | 3);
}

#[test]
fn test_payment_method_truncated() {
    let owner = account(31);
    let long_method = "x".repeat(40);
    let order = Order::new(
        generate_order_id(&owner, 1, 1),
        owner,
        1,
        1,
        1,
        OrderType::Limit,
        Side::Ask,
        0,
        long_method,
    );
    assert_eq!(order.payment_method.len(), 32);
    let short = Order::new(
        generate_order_id(&owner, 2, 1),
        owner,
        1,
        1,
        1,
        OrderType::Limit,
        Side::Ask,
        0,
        "bank".to_string(),
    );
    assert_eq!(short.payment_method, b"bank".to_vec());
    assert_eq!(short.payment_status, PaymentStatus::Pending);
}

#[test]
fn test_queue_peek_and_pop_if_filled() {
    let owner = account(41);
    let mut queue = OrderQueue::new();
    let mut first = Order::new(
        generate_order_id(&owner, 1, 1),
        owner,
        5,
        10,
        1,
        OrderType::Limit,
        Side::Ask,
        0,
        "m".to_string(),
    );
    first.fill(5);
    let first_id = first.order_id;
    let second = Order::new(
        generate_order_id(&owner, 2, 1),
        owner,
        7,
        10,
        1,
        OrderType::Limit,
        Side::Ask,
        0,
        "m".to_string(),
    );
    let second_id = second.order_id;
    queue.push(first);
    queue.push(second);
    // The head is fully filled, so it pops; the next head is not.
    assert_eq!(queue.peek().unwrap().order_id, first_id);
    let popped = queue.pop_if_filled().unwrap();
    assert_eq!(popped.order_id, first_id);
    assert_eq!(queue.peek().unwrap().order_id, second_id);
    assert!(queue.pop_if_filled().is_none());
    assert_eq!(queue.total_quantity, 7);
}

#[test]
fn test_queue_update_quantity() {
    let mut queue = OrderQueue::new();
    queue.update_quantity(25);
    assert_eq!(queue.total_quantity, 25);
    queue.update_quantity(-10);
    assert_eq!(queue.total_quantity, 15);
    // Saturates at zero on the way down.
    queue.update_quantity(-100);
    assert_eq!(queue.total_quantity, 0);
}

#[test]
fn test_queue_remove_missing() {
    let mut queue = OrderQueue::new();
    assert!(queue.remove(99).is_none());
    assert!(queue.is_empty());
}
