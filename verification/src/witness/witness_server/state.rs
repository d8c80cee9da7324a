//! What a server holds while it serves.

use crate::pir_types::{PirEngine, ServerPhase, YpirScenario};
use crate::witness::commitment_tree_db::{CommitmentTreeDb, TreeState};
use crate::witness::witness_types::{
    spans, BroadcastData, L0_DB_ROWS, SHARD_LEAVES, SUBSHARD_ROW_BYTES,
};
use vstd::prelude::*;

verus! {

/// Most shards of the window that a server starts with, the frontier among
/// them: those that the PIR database has rows for.
pub const DEFAULT_WINDOW_SHARD_LIMIT: usize = 32;

/// What the server reports of the tree that it serves.
#[derive(Debug, Clone, Copy, PartialEq, Eq, Structural)]
pub struct WitnessMetadata {
    pub anchor_height: u64,
    pub tree_size: u64,
    pub window_start_shard: u32,
    pub window_shard_count: u32,
    pub populated_shards: u32,
    pub phase: ServerPhase,
}

/// What the server reports of a tree.
pub open spec fn metadata_for(tree: TreeState, anchor_height: u64) -> WitnessMetadata {
    WitnessMetadata {
        anchor_height,
        tree_size: tree.tree_size() as u64,
        window_start_shard: tree.window_start() as u32,
        window_shard_count: tree.window_count() as u32,
        populated_shards: spans(tree.tree_size(), SHARD_LEAVES as int) as u32,
        phase: ServerPhase::Serving,
    }
}

/// What the server reports of a tree.
pub fn metadata_of(tree: &CommitmentTreeDb, anchor_height: u64) -> (metadata: WitnessMetadata)
    requires
        tree.shaped(),
    ensures
        metadata == metadata_for(tree@, anchor_height),
{
    WitnessMetadata {
        anchor_height,
        tree_size: tree.tree_size(),
        window_start_shard: tree.window_start_shard(),
        window_shard_count: tree.window_shard_count(),
        populated_shards: tree.populated_shards(),
        phase: ServerPhase::Serving,
    }
}

/// Live PIR state: engine state, broadcast data and metadata, swapped
/// together.
pub struct PirState<P: PirEngine> {
    pub engine_state: P::ServerState,
    pub broadcast: BroadcastData,
    pub metadata: WitnessMetadata,
}

/// The geometry of the database.
pub fn scenario() -> (scenario: YpirScenario)
    ensures
        scenario.num_items == L0_DB_ROWS,
        scenario.item_size_bits == SUBSHARD_ROW_BYTES * 8,
{
    YpirScenario { num_items: L0_DB_ROWS as u64, item_size_bits: SUBSHARD_ROW_BYTES as u64 * 8 }
}

} // verus!
