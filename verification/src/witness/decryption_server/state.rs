//! What a server holds while it serves.

use crate::pir_types::{PirEngine, ServerPhase, YpirScenario};
use crate::witness::decryption_db::{DecryptionDb, DecryptionState};
use crate::witness::decryption_types::{DECRYPT_DB_ROWS, DECRYPT_ROW_BYTES};
use crate::witness::witness_types::{spans, SHARD_LEAVES};
use vstd::prelude::*;

verus! {

/// What the server reports of the store that it serves.
#[derive(Debug, Clone, Copy, PartialEq, Eq, Structural)]
pub struct DecryptionMetadata {
    pub anchor_height: u64,
    pub tree_size: u64,
    pub window_start_shard: u32,
    pub window_shard_count: u32,
    pub populated_shards: u32,
    pub phase: ServerPhase,
}

/// What the server reports of a store.
pub open spec fn metadata_for(db: DecryptionState, anchor_height: u64) -> DecryptionMetadata {
    DecryptionMetadata {
        anchor_height,
        tree_size: db.tree_size() as u64,
        window_start_shard: db.window_start() as u32,
        window_shard_count: db.window_count() as u32,
        populated_shards: spans(db.tree_size(), SHARD_LEAVES as int) as u32,
        phase: ServerPhase::Serving,
    }
}

/// What the server reports of a store.
pub fn metadata_of(db: &DecryptionDb, anchor_height: u64) -> (metadata: DecryptionMetadata)
    requires
        db.wf(),
    ensures
        metadata == metadata_for(db@, anchor_height),
{
    DecryptionMetadata {
        anchor_height,
        tree_size: db.tree_size(),
        window_start_shard: db.window_start_shard(),
        window_shard_count: db.window_shard_count(),
        populated_shards: db.populated_shards(),
        phase: ServerPhase::Serving,
    }
}

/// Live PIR state: engine state and metadata, swapped together.
pub struct PirState<P: PirEngine> {
    pub engine_state: P::ServerState,
    pub metadata: DecryptionMetadata,
}

/// The geometry of the database.
pub fn scenario() -> (scenario: YpirScenario)
    ensures
        scenario.num_items == DECRYPT_DB_ROWS,
        scenario.item_size_bits == DECRYPT_ROW_BYTES * 8,
{
    YpirScenario { num_items: DECRYPT_DB_ROWS as u64, item_size_bits: DECRYPT_ROW_BYTES as u64 * 8 }
}

} // verus!
