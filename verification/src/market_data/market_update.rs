//! The record published for every change of resting liquidity.

use vstd::prelude::*;
use crate::common::{OrderId, SymbolId, Side, Price, Quantity, Priority};
use crate::common::{INVALID_ORDER_ID, INVALID_SYMBOL_ID, INVALID_PRICE, INVALID_QUANTITY, INVALID_PRIORITY};
use crate::text::{decimal, push_decimal, push_text};

verus! {

/// What happened to the order a market update speaks of.
#[derive(Clone, Copy, Debug, PartialEq, Eq, Structural)]
pub enum MarketUpdateType {
    Invalid,
    /// An order came to rest in the book.
    Add,
    /// Reserved for quantity amendments; no book operation emits it.
    Modify,
    /// A resting order was withdrawn by its owner.
    Cancel,
    /// A resting order traded against an incoming one.
    Trade,
}

impl MarketUpdateType {
    /// The text this kind is shown as.
    pub open spec fn spec_label(self) -> Seq<char> {
        match self {
            MarketUpdateType::Add => "ADD"@,
            MarketUpdateType::Modify => "MODIFY"@,
            MarketUpdateType::Cancel => "CANCEL"@,
            MarketUpdateType::Trade => "TRADE"@,
            MarketUpdateType::Invalid => "INVALID"@,
        }
    }

    /// Returns the text this kind is shown as.
    pub fn label(&self) -> (s: &'static str)
        ensures
            s@ == self.spec_label(),
    {
        match self {
            MarketUpdateType::Add => "ADD",
            MarketUpdateType::Modify => "MODIFY",
            MarketUpdateType::Cancel => "CANCEL",
            MarketUpdateType::Trade => "TRADE",
            MarketUpdateType::Invalid => "INVALID",
        }
    }
}

/// One public market-data event.
#[derive(Clone, Copy, Debug, PartialEq, Eq, Structural)]
pub struct MarketUpdate {
    pub update_type: MarketUpdateType,
    /// The engine-assigned id of the order concerned.
    pub order_id: OrderId,
    pub symbol_id: SymbolId,
    pub side: Side,
    pub price: Price,
    pub qty: Quantity,
    pub priority: Priority,
}

impl MarketUpdate {
    /// The record in which every field is unset.
    pub open spec fn spec_default() -> MarketUpdate {
        MarketUpdate {
            update_type: MarketUpdateType::Invalid,
            order_id: INVALID_ORDER_ID,
            symbol_id: INVALID_SYMBOL_ID,
            side: Side::Invalid,
            price: INVALID_PRICE,
            qty: INVALID_QUANTITY,
            priority: INVALID_PRIORITY,
        }
    }
}

impl Default for MarketUpdate {
    fn default() -> (r: Self)
        ensures
            r == MarketUpdate::spec_default(),
    {
        MarketUpdate {
            update_type: MarketUpdateType::Invalid,
            order_id: INVALID_ORDER_ID,
            symbol_id: INVALID_SYMBOL_ID,
            side: Side::Invalid,
            price: INVALID_PRICE,
            qty: INVALID_QUANTITY,
            priority: INVALID_PRIORITY,
        }
    }
}

impl MarketUpdate {
    /// The one-line text of this record.
    pub open spec fn spec_line(self) -> Seq<char> {
        "MarketUpdate [type: "@
            + self.update_type.spec_label()
            + ", order:"@
            + decimal(self.order_id as nat)
            + ", symb:"@
            + decimal(self.symbol_id as nat)
            + ", side:"@
            + self.side.spec_label()
            + ", price:"@
            + decimal(self.price as nat)
            + ", qty:"@
            + decimal(self.qty as nat)
            + ", prio:"@
            + decimal(self.priority as nat)
            + "]"@
    }

    /// Returns the one-line text of this record.
    pub fn to_line(&self) -> (line: String)
        ensures
            line@ == self.spec_line(),
    {
        let mut line = String::new();
        push_text(&mut line, "MarketUpdate [type: ");
        push_text(&mut line, self.update_type.label());
        push_text(&mut line, ", order:");
        push_decimal(&mut line, self.order_id);
        push_text(&mut line, ", symb:");
        push_decimal(&mut line, self.symbol_id as u64);
        push_text(&mut line, ", side:");
        push_text(&mut line, self.side.label());
        push_text(&mut line, ", price:");
        push_decimal(&mut line, self.price);
        push_text(&mut line, ", qty:");
        push_decimal(&mut line, self.qty as u64);
        push_text(&mut line, ", prio:");
        push_decimal(&mut line, self.priority);
        push_text(&mut line, "]");
        proof {
            assert(line@ =~= self.spec_line());
        }
        line
    }
}

} // verus!
