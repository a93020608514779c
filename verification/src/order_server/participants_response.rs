//! What the engine tells a participant about one of their orders.

use vstd::prelude::*;
use crate::common::{OrderId, SymbolId, ParticipantId, Side, Price, Quantity};
use crate::common::{INVALID_ORDER_ID, INVALID_SYMBOL_ID, INVALID_PARTICIPANT_ID, INVALID_PRICE, INVALID_QUANTITY};
use crate::text::{decimal, push_decimal, push_text};

verus! {

/// The kind of a participant response.
#[derive(Clone, Copy, Debug, PartialEq, Eq, Structural)]
pub enum ParticipantResponseType {
    Invalid,
    /// A new order was taken in.
    Accepted,
    /// A resting order was withdrawn.
    Cancelled,
    /// An order traded, in part or in full.
    Filled,
    /// A cancel named no live order.
    CancelRejected,
    /// A new order was refused.
    Rejected,
}

impl ParticipantResponseType {
    /// The text this kind is shown as.
    pub open spec fn spec_label(self) -> Seq<char> {
        match self {
            ParticipantResponseType::Accepted => "NEW"@,
            ParticipantResponseType::Cancelled => "CANCELLED"@,
            ParticipantResponseType::Filled => "FILLED"@,
            ParticipantResponseType::CancelRejected => "CANCEL-REJECTED"@,
            ParticipantResponseType::Rejected => "REJECTED"@,
            ParticipantResponseType::Invalid => "INVALID"@,
        }
    }

    /// Returns the text this kind is shown as.
    pub fn label(&self) -> (s: &'static str)
        ensures
            s@ == self.spec_label(),
    {
        match self {
            ParticipantResponseType::Accepted => "NEW",
            ParticipantResponseType::Cancelled => "CANCELLED",
            ParticipantResponseType::Filled => "FILLED",
            ParticipantResponseType::CancelRejected => "CANCEL-REJECTED",
            ParticipantResponseType::Rejected => "REJECTED",
            ParticipantResponseType::Invalid => "INVALID",
        }
    }
}

/// One outbound acknowledgement.
#[derive(Clone, Copy, Debug, PartialEq, Eq, Structural)]
pub struct ParticipantResponse {
    pub response_type: ParticipantResponseType,
    pub participant_id: ParticipantId,
    pub symbol_id: SymbolId,
    /// The id the participant gave the order.
    pub participant_order_id: OrderId,
    /// The id the engine gave the order.
    pub internal_order_id: OrderId,
    pub side: Side,
    pub price: Price,
    /// Quantity traded by the event this response reports.
    pub exec_qty: Quantity,
    /// Quantity of the order still open after the event.
    pub leaves_qty: Quantity,
}

impl ParticipantResponse {
    /// The record in which every field is unset.
    pub open spec fn spec_default() -> ParticipantResponse {
        ParticipantResponse {
            response_type: ParticipantResponseType::Invalid,
            participant_id: INVALID_PARTICIPANT_ID,
            symbol_id: INVALID_SYMBOL_ID,
            participant_order_id: INVALID_ORDER_ID,
            internal_order_id: INVALID_ORDER_ID,
            side: Side::Invalid,
            price: INVALID_PRICE,
            exec_qty: INVALID_QUANTITY,
            leaves_qty: INVALID_QUANTITY,
        }
    }
}

impl Default for ParticipantResponse {
    fn default() -> (r: Self)
        ensures
            r == ParticipantResponse::spec_default(),
    {
        ParticipantResponse {
            response_type: ParticipantResponseType::Invalid,
            participant_id: INVALID_PARTICIPANT_ID,
            symbol_id: INVALID_SYMBOL_ID,
            participant_order_id: INVALID_ORDER_ID,
            internal_order_id: INVALID_ORDER_ID,
            side: Side::Invalid,
            price: INVALID_PRICE,
            exec_qty: INVALID_QUANTITY,
            leaves_qty: INVALID_QUANTITY,
        }
    }
}

impl ParticipantResponse {
    /// The one-line text of this record.
    pub open spec fn spec_line(self) -> Seq<char> {
        "ParticipantResponse [type: "@
            + self.response_type.spec_label()
            + ", ptid: "@
            + decimal(self.participant_id as nat)
            + ", symb: "@
            + decimal(self.symbol_id as nat)
            + ", poid: "@
            + decimal(self.participant_order_id as nat)
            + ", ioid: "@
            + decimal(self.internal_order_id as nat)
            + ", side: "@
            + self.side.spec_label()
            + ", exec_qty: "@
            + decimal(self.exec_qty as nat)
            + ", leaves_qty: "@
            + decimal(self.leaves_qty as nat)
            + ", price: "@
            + decimal(self.price as nat)
            + "]"@
    }

    /// Returns the one-line text of this record.
    pub fn to_line(&self) -> (line: String)
        ensures
            line@ == self.spec_line(),
    {
        let mut line = String::new();
        push_text(&mut line, "ParticipantResponse [type: ");
        push_text(&mut line, self.response_type.label());
        push_text(&mut line, ", ptid: ");
        push_decimal(&mut line, self.participant_id as u64);
        push_text(&mut line, ", symb: ");
        push_decimal(&mut line, self.symbol_id as u64);
        push_text(&mut line, ", poid: ");
        push_decimal(&mut line, self.participant_order_id);
        push_text(&mut line, ", ioid: ");
        push_decimal(&mut line, self.internal_order_id);
        push_text(&mut line, ", side: ");
        push_text(&mut line, self.side.label());
        push_text(&mut line, ", exec_qty: ");
        push_decimal(&mut line, self.exec_qty as u64);
        push_text(&mut line, ", leaves_qty: ");
        push_decimal(&mut line, self.leaves_qty as u64);
        push_text(&mut line, ", price: ");
        push_decimal(&mut line, self.price);
        push_text(&mut line, "]");
        proof {
            assert(line@ =~= self.spec_line());
        }
        line
    }
}

} // verus!
