//! Console-client core: a framed binary envelope codec and the
//! connection/correlation engine that enforces handshake-then-alternate
//! turn discipline between an interactive caller and a transport session.

pub mod codec;
pub mod engine;
pub mod messages;
pub mod session;
