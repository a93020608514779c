//! Messages exchanged with participants.

pub mod participants_request;
pub mod participants_response;
