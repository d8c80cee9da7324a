//! Shared PIR types: the engine abstraction, the database geometry, the
//! lifecycle phases and the chain constants of all services.

use vstd::prelude::*;

verus! {

/// Depth below the tip at which a block counts as confirmed.
pub const CONFIRMATION_DEPTH: u64 = 10;

/// Mainnet activation height for NU5 (Orchard). No Orchard data exists below
/// this height.
pub const NU5_MAINNET_ACTIVATION: u64 = 1_687_104;

/// Server lifecycle phase.
#[derive(Debug, Clone, Copy, PartialEq, Eq, Structural)]
pub enum ServerPhase {
    /// Catching up to the chain tip during initial sync.
    Syncing { current_height: u64, target_height: u64 },
    /// Fully synced and serving PIR queries.
    Serving,
}

/// Scenario parameters describing the database geometry.
#[derive(Debug, Clone, Copy, PartialEq, Eq, Structural)]
pub struct YpirScenario {
    /// Number of rows in the PIR database.
    pub num_items: u64,
    /// Size of each row in bits.
    pub item_size_bits: u64,
}

/// Abstraction over the PIR engine.
pub trait PirEngine: Sized + Send + Sync {
    type ServerState: Send + Sync;

    type Error: Send + Sync;

    /// Offline precomputation: builds server state from the raw database bytes
    /// and the scenario.
    fn setup(&self, db_bytes: &[u8], scenario: &YpirScenario) -> Result<
        Self::ServerState,
        Self::Error,
    >;

    /// Online computation: answers a single client query.
    fn answer_query(&self, state: &Self::ServerState, query_bytes: &[u8]) -> Result<
        Vec<u8>,
        Self::Error,
    >;

    /// The text of an error.
    fn error_text(error: &Self::Error) -> String;
}

} // verus!
