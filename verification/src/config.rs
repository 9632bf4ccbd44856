//! The configuration of the consensus core.

use crate::signature::{PrivateKey, PublicKey};
use vstd::prelude::*;

verus! {

/// What the block graph and the worker are configured with.
#[derive(Clone, Debug)]
pub struct ConsensusConfig {
    /// Number of threads.
    pub thread_count: u8,
    /// Duration of a period, in milliseconds.
    pub t0: u64,
    /// Instant of slot `(0, 0)`, in milliseconds.
    pub genesis_timestamp: u64,
    /// The key that signs the genesis blocks.
    pub genesis_key: PrivateKey,
    /// The nodes that may be drawn, by public and private key.
    pub nodes: Vec<(PublicKey, PrivateKey)>,
    /// The index of this node in `nodes`.
    pub current_node_index: u32,
    /// The fitness by which the descendants of a block must lead for the
    /// block to become final.
    pub delta_f0: u64,
    /// Largest number of endorsements in a block.
    pub endorsement_count: u32,
    /// Largest number of operations in a block.
    pub max_operations_per_block: u32,
    /// Largest size of a block, in bytes.
    pub max_block_size: u32,
    /// Whether this node never creates blocks.
    pub disable_block_creation: bool,
    /// For how many periods behind the latest final block of its thread a
    /// final block is kept in memory.
    pub force_keep_final_periods: u64,
    /// For how many periods a discarded hash is remembered.
    pub discard_ttl: u64,
}

} // verus!
