//! A single-process TCP line relay: newline-framed text lines broadcast
//! between concurrently connected peers, each line tagged with the sender's
//! self-declared name.
//!
//! The crate holds the relay's logic — line framing, the shared peer
//! registry, and the per-connection session state machine — as verified
//! code over plain values. A host program owns the sockets and the
//! scheduling; it feeds bytes and connection events in and carries the
//! produced bytes out.

pub mod buffer;
pub mod codec;
pub mod registry;
pub mod session;

pub mod collatz;
pub mod wordutils;
