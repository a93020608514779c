//! Identifier types, their "unset" sentinels and the capacity bounds.

use vstd::prelude::*;

verus! {

/// The side of the book an order belongs to.
#[derive(Clone, Copy, Debug, PartialEq, Eq, Structural)]
pub enum Side {
    /// Placeholder found only in default and rejected records.
    Invalid,
    Buy,
    Sell,
}

impl Side {
    /// The text this side is shown as.
    pub open spec fn spec_label(self) -> Seq<char> {
        match self {
            Side::Buy => "BUY"@,
            Side::Sell => "SELL"@,
            Side::Invalid => "INVALID"@,
        }
    }

    /// Returns the text this side is shown as.
    pub fn label(&self) -> (s: &'static str)
        ensures
            s@ == self.spec_label(),
    {
        match self {
            Side::Buy => "BUY",
            Side::Sell => "SELL",
            Side::Invalid => "INVALID",
        }
    }

    /// The side an order of this side trades against.
    pub open spec fn spec_opposite(self) -> Side {
        match self {
            Side::Buy => Side::Sell,
            Side::Sell => Side::Buy,
            Side::Invalid => Side::Invalid,
        }
    }

    /// Returns the side an order of this side trades against.
    pub fn opposite(&self) -> (s: Side)
        ensures
            s == self.spec_opposite(),
    {
        match self {
            Side::Buy => Side::Sell,
            Side::Sell => Side::Buy,
            Side::Invalid => Side::Invalid,
        }
    }
}

pub type OrderId = u64;

pub const INVALID_ORDER_ID: u64 = u64::MAX;

pub type SymbolId = u32;

pub const INVALID_SYMBOL_ID: u32 = u32::MAX;

pub type ParticipantId = u32;

pub const INVALID_PARTICIPANT_ID: u32 = u32::MAX;

pub type Price = u64;

pub const INVALID_PRICE: u64 = u64::MAX;

pub type Quantity = u32;

pub const INVALID_QUANTITY: u32 = u32::MAX;

pub type Priority = u64;

pub const INVALID_PRIORITY: u64 = u64::MAX;

/// Number of symbols an engine trades.
pub const MAX_SYMBOL: usize = 8;

pub const MAX_PARTICIPANTS_UPDATES: usize = 256 * 1024;

pub const MAX_MARKET_UPDATES: usize = 256 * 1024;

/// Participant ids in use are below this bound.
pub const MAX_PARTICIPANTS_NUMBER: usize = 256;

/// Participant-supplied order ids in use are below this bound.
pub const MAX_ORDER_IDS: usize = 1024 * 1024;

/// Number of slots in a book's price-level table.
pub const MAX_PRICE_LEVELS: usize = 256;

} // verus!
