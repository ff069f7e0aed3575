//! The protocol layer of a peer-to-peer chat room: invitation tickets, the
//! wire messages, the nickname directory, and the decisions a session makes
//! around a publish/subscribe transport that lives outside this crate.
pub mod wire;
pub mod ident;
pub mod message;
pub mod ticket;
pub mod directory;
pub mod session;
