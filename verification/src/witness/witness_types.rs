//! Types and constants for the witness PIR subsystem.
//!
//! Defines the geometry of the Orchard note commitment tree, the
//! [`PirWitness`] that a client obtains, and the broadcast structures. Nodes
//! are raw byte arrays ([`Hash`]).

use vstd::prelude::*;

verus! {

/// Orchard note commitment tree depth (32 levels, 2^32 leaf positions).
pub const TREE_DEPTH: usize = 32;

/// Number of levels per shard. Each shard covers 65,536 leaves.
pub const SHARD_HEIGHT: usize = 16;

/// Number of levels per sub-shard. Each sub-shard covers 256 leaves.
pub const SUBSHARD_HEIGHT: usize = 8;

/// Number of leaves in a single sub-shard.
pub const SUBSHARD_LEAVES: usize = 256;

/// Number of sub-shards per shard.
pub const SUBSHARDS_PER_SHARD: usize = 256;

/// Number of leaves per shard.
pub const SHARD_LEAVES: usize = 65_536;

/// Number of bytes per sub-shard PIR row (256 leaves of 32 bytes).
pub const SUBSHARD_ROW_BYTES: usize = 8_192;

/// Padded PIR database row count (32 shards of 256 sub-shards).
pub const L0_DB_ROWS: usize = 8_192;

/// PIR database size in bytes (64 MB).
pub const L0_DB_BYTES: usize = 67_108_864;

/// Maximum number of shards in the PIR database.
pub const L0_MAX_SHARDS: usize = 32;

/// A 32-byte tree node in serialized form.
pub type Hash = [u8; 32];

/// Complete witness bundle for a note at a specific tree position.
#[derive(Debug, Clone, PartialEq, Eq)]
pub struct PirWitness {
    /// Leaf position in the commitment tree (0-indexed).
    pub position: u64,
    /// Authentication path siblings, ordered leaf-to-root (level 0 first).
    pub siblings: [[u8; 32]; 32],
    /// Block height at which this witness is anchored.
    pub anchor_height: u64,
    /// Expected tree root at `anchor_height` (for self-verification).
    pub anchor_root: [u8; 32],
}

/// Cap tree data: all populated shard roots, from which a client rebuilds the
/// top 16 levels of the authentication path.
#[derive(Debug, Clone)]
pub struct CapData {
    /// Shard roots indexed by shard number.
    pub shard_roots: Vec<[u8; 32]>,
}

/// Sub-shard roots for a single shard (256 roots, one per sub-shard).
#[derive(Debug, Clone)]
pub struct ShardSubRoots {
    pub roots: Vec<[u8; 32]>,
}

/// Full broadcast payload downloaded periodically by the client.
#[derive(Debug, Clone)]
pub struct BroadcastData {
    /// All populated shard roots for the cap tree.
    pub cap: CapData,
    /// Sub-shard roots for each shard in the PIR window, indexed by
    /// `shard_index - window_start_shard`.
    pub subshard_roots: Vec<ShardSubRoots>,
    /// First shard index in the PIR database window.
    pub window_start_shard: u32,
    /// Number of shards in the PIR database window.
    pub window_shard_count: u32,
    /// Block height at which this broadcast is anchored.
    pub anchor_height: u64,
}

/// Chain event of the witness ingest pipeline.
#[derive(Debug, Clone)]
pub enum WitnessChainEvent {
    /// A new block with note commitments was ingested.
    NewBlock {
        height: u64,
        hash: [u8; 32],
        prev_hash: [u8; 32],
        /// Orchard note commitments (`cmx`) of this block, in order.
        commitments: Vec<[u8; 32]>,
        /// Orchard commitment tree size at the start of this block, or `None`
        /// for the first block or when metadata is unavailable.
        prior_tree_size: Option<u32>,
    },
    /// A reorg was detected; blocks above the given height are rolled back.
    Reorg { rollback_to: u64 },
}

/// The number of spans of `size` that `count` items reach into.
pub open spec fn spans(count: int, size: int) -> int {
    if count == 0 {
        0
    } else {
        (count - 1) / size + 1
    }
}

/// The position of a leaf from its shard, its sub-shard within the shard and
/// its place within the sub-shard.
pub open spec fn position_of(shard_index: int, subshard_index: int, leaf_index: int) -> int {
    shard_index * SHARD_LEAVES + subshard_index * SUBSHARD_LEAVES + leaf_index
}

/// The parts that a position consists of.
pub open spec fn shard_of(position: u64) -> u32 {
    (position / 0x1_0000) as u32
}

pub open spec fn subshard_of(position: u64) -> u8 {
    (position / 0x100 % 0x100) as u8
}

pub open spec fn leaf_of(position: u64) -> u8 {
    (position % 0x100) as u8
}

impl PirWitness {
    /// Shard index for this witness's position.
    pub fn shard_index(&self) -> (shard: u32)
        ensures
            shard == shard_of(self.position),
    {
        (self.position / 0x1_0000) as u32
    }

    /// Sub-shard index within the shard.
    pub fn subshard_index(&self) -> (subshard: u8)
        ensures
            subshard == subshard_of(self.position),
    {
        (self.position / 0x100 % 0x100) as u8
    }

    /// Leaf index within the sub-shard.
    pub fn leaf_index(&self) -> (leaf: u8)
        ensures
            leaf == leaf_of(self.position),
    {
        (self.position % 0x100) as u8
    }
}

/// Splits a tree position into shard index, sub-shard index and leaf index.
pub fn decompose_position(position: u64) -> (parts: (u32, u8, u8))
    ensures
        parts == (shard_of(position), subshard_of(position), leaf_of(position)),
{
    ((position / 0x1_0000) as u32, (position / 0x100 % 0x100) as u8, (position % 0x100) as u8)
}

/// Row of the PIR database that holds a sub-shard, given the window's start.
pub fn physical_row_index(
    shard_index: u32,
    subshard_index: u8,
    window_start_shard: u32,
) -> (row: usize)
    requires
        window_start_shard <= shard_index,
        (shard_index - window_start_shard) * SUBSHARDS_PER_SHARD + subshard_index <= usize::MAX,
    ensures
        row == (shard_index - window_start_shard) * SUBSHARDS_PER_SHARD + subshard_index,
{
    (shard_index - window_start_shard) as usize * SUBSHARDS_PER_SHARD + subshard_index as usize
}

/// Taking a position apart and putting it together again changes nothing, for
/// every position of a tree with up to 2^32 shards.
pub proof fn law_position_roundtrip(position: u64)
    requires
        position < 0x1_0000_0000_0000,
    ensures
        position_of(
            shard_of(position) as int,
            subshard_of(position) as int,
            leaf_of(position) as int,
        ) == position,
{
}

/// Different sub-shards of one window have different rows.
pub proof fn law_rows_are_distinct(
    window_start: int,
    shard_a: int,
    subshard_a: int,
    shard_b: int,
    subshard_b: int,
)
    requires
        0 <= subshard_a < SUBSHARDS_PER_SHARD,
        0 <= subshard_b < SUBSHARDS_PER_SHARD,
        (shard_a - window_start) * SUBSHARDS_PER_SHARD + subshard_a == (shard_b - window_start)
            * SUBSHARDS_PER_SHARD + subshard_b,
    ensures
        shard_a == shard_b,
        subshard_a == subshard_b,
{
}

} // verus!
