//! A small line-oriented relay: clients connect, send newline-delimited
//! text, and every line is fanned out to all other connected clients while
//! the sender gets an acknowledgement.
//!
//! This crate holds the verified core: the wire-message codec, the client
//! registry, and the broadcast planning logic. The surrounding network
//! event loop performs the actual socket I/O and feeds plain values
//! (client ids and text lines) into these functions.

pub mod broadcaster;
pub mod codec;
pub mod registry;
