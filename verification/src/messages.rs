//! Message-type definitions shared by the participants: plain tagged
//! data with no control flow, exchanged around the routing and
//! transport engines.

pub mod browser_messages;
pub mod chat_messages;
pub mod commander_messages;
pub mod general_messages;
