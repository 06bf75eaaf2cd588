//! Call correlation for one connection of a binary RPC client.
//!
//! Callers issue calls concurrently and replies come back in any order. This
//! crate holds the rules that pair them up: the sequence numbers, the table of
//! calls in flight, the checks on incoming frames and the life cycle of the
//! connection. It performs no I/O and starts no threads; the program around it
//! reads and writes the transport and hands each event to a [`client::Client`].

pub mod client;
pub mod codec;
pub mod connection;
pub mod error;
pub mod frame;
pub mod message;
pub mod pending;
pub mod sequence;
