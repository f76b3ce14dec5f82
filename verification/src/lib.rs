//! Core of a peer-to-peer fiat-to-crypto exchange: a price-indexed order book
//! (crit-bit trees over FIFO price-level queues), a price-time-priority
//! matching engine with order-type policies and self-trade prevention, and the
//! settlement state machines that gate escrow release on a payment attestation
//! and a cool-down window.
//!
//! Token custody, signatures and the host runtime live outside this crate; the
//! library works on plain values (prices, quantities, identifiers, clock
//! readings) handed in by the host.

pub mod anomi;
pub mod critbit;
pub mod market;
pub mod order_book;
pub mod error;
pub mod order;
pub mod order_processor;
pub mod order_store;
pub mod settlement;
