//! Client-side codec for the Minecraft server-list-ping exchange.
//!
//! The crate holds the variable-length integer encoding, the string and
//! envelope framing built on it, the three packets of a status query, and the
//! decisions of one request/response exchange.  Every function is verified
//! against a contract stated over sequences of bytes.

pub mod connection;
pub mod error;
pub mod exchange;
pub mod frame;
pub mod groups;
pub mod mc_string;
pub mod mc_text;
pub mod packets;
pub mod varint;
