//! A per-symbol limit order book with price-time priority matching.
//!
//! Orders and price levels live in pool-backed boxes inside bounded tables;
//! the book links them into FIFO queues and price-ordered chains by stable
//! keys. Every operation is specified against a mathematical model of the
//! book (`matching_engine::book_model`) and proved to refine it.

pub mod common;
pub mod text;
pub mod market_data;
pub mod order_server;
pub mod matching_engine;
