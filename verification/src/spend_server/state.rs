//! What a server holds while it serves.

use crate::spend_types::{PirEngine, SpendabilityMetadata, YpirScenario, BUCKET_BYTES, NUM_BUCKETS};
use vstd::prelude::*;

verus! {

/// Live PIR state: engine state and metadata, swapped together.
pub struct PirState<P: PirEngine> {
    pub engine_state: P::ServerState,
    pub metadata: SpendabilityMetadata,
}

/// The geometry of the database.
pub fn scenario() -> (scenario: YpirScenario)
    ensures
        scenario.num_items == NUM_BUCKETS,
        scenario.item_size_bits == BUCKET_BYTES * 8,
{
    YpirScenario { num_items: NUM_BUCKETS as u64, item_size_bits: BUCKET_BYTES as u64 * 8 }
}

} // verus!
