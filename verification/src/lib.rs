//! A single-symbol, in-memory limit-order-book matching engine.
//!
//! Orders rest in per-price FIFO queues on two sides of a book; an arena
//! store owns the order records and the queues hold slot indices into it.
//! Limit, market, modify and cancel operations are applied through
//! [`orderbook::OrderBook::execute`]; read-side quotes and depth come from
//! [`orderbook::OrderBook::request_for_quote`] and
//! [`orderbook::OrderBook::depth`].

pub mod book;
pub mod config;
pub mod executor;
pub mod manager;
pub mod models;
pub mod orderbook;
pub mod orderrequest;
pub mod pricebook;
pub mod protobuf;
pub mod store;
pub mod utils;
