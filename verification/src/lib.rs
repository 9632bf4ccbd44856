//! Consensus core of a multi-thread, slot-based, proof-of-stake block graph.
//!
//! The crate is free of I/O: every entry point maps plain values to plain
//! values, and each one carries a contract that Verus proves.

pub mod block;
pub mod block_graph;
pub mod config;
pub mod endorsement;
pub mod error;
pub mod hash;
pub mod selector;
pub mod signature;
pub mod slot;
pub mod text;
pub mod timeslots;
pub mod varint;
pub mod wire;
pub mod worker;
