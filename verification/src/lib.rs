//! A local replica of an exchange's limit order book, kept in sync from a
//! periodic full-snapshot feed and a continuous incremental-diff feed.
//!
//! The heart of the crate is [`order_book::OrderBook`]: two sorted sides of
//! price levels plus a sequencing cursor, with snapshot-apply and diff-apply
//! operations that decide whether an incoming event is stale, applicable, or
//! evidence of a gap that requires a fresh snapshot.

pub mod console_arguments;
pub mod decimal;
pub mod messages;
pub mod order_book;
pub mod price_level;
