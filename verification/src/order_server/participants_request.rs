//! What a participant asks of the engine.

use vstd::prelude::*;
use crate::common::{OrderId, SymbolId, ParticipantId, Side, Price};
use crate::common::{INVALID_ORDER_ID, INVALID_SYMBOL_ID, INVALID_PARTICIPANT_ID, INVALID_PRICE};
use crate::text::{decimal, push_decimal, push_text};

verus! {

/// The kind of a participant request.
#[derive(Clone, Copy, Debug, PartialEq, Eq, Structural)]
pub enum ParticipantRequestType {
    Invalid,
    /// Place a new limit order.
    New,
    /// Withdraw a resting order.
    Cancel,
}

impl ParticipantRequestType {
    /// The text this kind is shown as.
    pub open spec fn spec_label(self) -> Seq<char> {
        match self {
            ParticipantRequestType::New => "NEW"@,
            ParticipantRequestType::Cancel => "CANCEL"@,
            ParticipantRequestType::Invalid => "INVALID"@,
        }
    }

    /// Returns the text this kind is shown as.
    pub fn label(&self) -> (s: &'static str)
        ensures
            s@ == self.spec_label(),
    {
        match self {
            ParticipantRequestType::New => "NEW",
            ParticipantRequestType::Cancel => "CANCEL",
            ParticipantRequestType::Invalid => "INVALID",
        }
    }
}

/// One inbound request. The quantity of a new order travels beside it.
#[derive(Clone, Copy, Debug, PartialEq, Eq, Structural)]
pub struct ParticipantRequest {
    pub request_type: ParticipantRequestType,
    pub participant_id: ParticipantId,
    pub symbol_id: SymbolId,
    /// The id the participant gave the order.
    pub order_id: OrderId,
    pub side: Side,
    pub price: Price,
}

impl ParticipantRequest {
    /// The record in which every field is unset.
    pub open spec fn spec_default() -> ParticipantRequest {
        ParticipantRequest {
            request_type: ParticipantRequestType::Invalid,
            participant_id: INVALID_PARTICIPANT_ID,
            symbol_id: INVALID_SYMBOL_ID,
            order_id: INVALID_ORDER_ID,
            side: Side::Invalid,
            price: INVALID_PRICE,
        }
    }
}

impl Default for ParticipantRequest {
    fn default() -> (r: Self)
        ensures
            r == ParticipantRequest::spec_default(),
    {
        ParticipantRequest {
            request_type: ParticipantRequestType::Invalid,
            participant_id: INVALID_PARTICIPANT_ID,
            symbol_id: INVALID_SYMBOL_ID,
            order_id: INVALID_ORDER_ID,
            side: Side::Invalid,
            price: INVALID_PRICE,
        }
    }
}

impl ParticipantRequest {
    /// The one-line text of this record.
    pub open spec fn spec_line(self) -> Seq<char> {
        "ParticipantRequest [type: "@
            + self.request_type.spec_label()
            + ", ptid:"@
            + decimal(self.participant_id as nat)
            + ", symb:"@
            + decimal(self.symbol_id as nat)
            + ", order:"@
            + decimal(self.order_id as nat)
            + ", side:"@
            + self.side.spec_label()
            + ", price:"@
            + decimal(self.price as nat)
            + "]"@
    }

    /// Returns the one-line text of this record.
    pub fn to_line(&self) -> (line: String)
        ensures
            line@ == self.spec_line(),
    {
        let mut line = String::new();
        push_text(&mut line, "ParticipantRequest [type: ");
        push_text(&mut line, self.request_type.label());
        push_text(&mut line, ", ptid:");
        push_decimal(&mut line, self.participant_id as u64);
        push_text(&mut line, ", symb:");
        push_decimal(&mut line, self.symbol_id as u64);
        push_text(&mut line, ", order:");
        push_decimal(&mut line, self.order_id);
        push_text(&mut line, ", side:");
        push_text(&mut line, self.side.label());
        push_text(&mut line, ", price:");
        push_decimal(&mut line, self.price);
        push_text(&mut line, "]");
        proof {
            assert(line@ =~= self.spec_line());
        }
        line
    }
}

} // verus!
