//! The matching core: storage, the order book and the engine that routes
//! requests to one book per symbol.

pub mod pool;
pub mod order;
pub mod arena;
pub mod book_model;
pub mod book_proofs;
pub mod book_mirror;
pub mod book_laws;
pub mod orderbook;
pub mod matching_engine;
