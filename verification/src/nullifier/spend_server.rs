//! Server side of the nullifier table with spend metadata: builds what is
//! served.

use crate::block_table::TableState;
use crate::nullifier::hashtable_pir::HashTableDb;
use crate::nullifier::spend_types::{
    NullifierEntry, PirEngine, ServerPhase, SpendabilityMetadata, YpirScenario, BUCKET_BYTES,
    NUM_BUCKETS,
};
use crate::spend_server::server::ServerError;
use crate::spend_server::state::PirState;
use vstd::prelude::*;

verus! {

/// What the server reports of a table that it serves.
pub open spec fn metadata_for(table: TableState<NullifierEntry>) -> SpendabilityMetadata {
    SpendabilityMetadata {
        earliest_height: if table.index.len() == 0 {
            0
        } else {
            table.index[0].height
        },
        latest_height: if table.index.len() == 0 {
            0
        } else {
            table.index.last().height
        },
        num_nullifiers: table.count as u64,
        num_buckets: NUM_BUCKETS as u64,
        phase: ServerPhase::Serving,
    }
}

/// The geometry of the database.
pub fn scenario() -> (scenario: YpirScenario)
    ensures
        scenario.num_items == NUM_BUCKETS,
        scenario.item_size_bits == BUCKET_BYTES * 8,
{
    YpirScenario { num_items: NUM_BUCKETS as u64, item_size_bits: BUCKET_BYTES as u64 * 8 }
}

/// What the server serves after a rebuild, given what the engine made of the
/// table's bytes.
pub fn finish_rebuild<P: PirEngine>(
    setup: Result<P::ServerState, String>,
    hashtable: &HashTableDb,
) -> (state: Result<PirState<P>, ServerError>)
    ensures
        match setup {
            Ok(engine_state) => state == Ok::<PirState<P>, ServerError>(
                PirState { engine_state, metadata: metadata_for(hashtable@) },
            ),
            Err(reason) => state == Err::<PirState<P>, ServerError>(ServerError::PirSetup(reason)),
        },
{
    match setup {
        Ok(engine_state) => {
            let metadata = SpendabilityMetadata {
                earliest_height: match hashtable.earliest_height() {
                    Some(height) => height,
                    None => 0,
                },
                latest_height: match hashtable.latest_height() {
                    Some(height) => height,
                    None => 0,
                },
                num_nullifiers: hashtable.len() as u64,
                num_buckets: NUM_BUCKETS as u64,
                phase: ServerPhase::Serving,
            };
            Ok(PirState { engine_state, metadata })
        },
        Err(reason) => Err(ServerError::PirSetup(reason)),
    }
}

/// Builds what is served from a table: the engine sets up on its rows.
pub fn rebuild_pir<P: PirEngine>(
    engine: &P,
    hashtable: &HashTableDb,
    scenario: &YpirScenario,
) -> (state: Result<PirState<P>, ServerError>)
    requires
        hashtable.shaped(),
    ensures
        exists|bytes: &[u8], setup: Result<P::ServerState, P::Error>|
            {
                &&& bytes@ == hashtable@.rows()
                &&& #[trigger] call_ensures(P::setup, (engine, bytes, scenario), setup)
                &&& match setup {
                    Ok(engine_state) => state == Ok::<PirState<P>, ServerError>(
                        PirState { engine_state, metadata: metadata_for(hashtable@) },
                    ),
                    Err(error) => state matches Err(ServerError::PirSetup(reason)) && call_ensures(
                        P::error_text,
                        (&error,),
                        reason,
                    ),
                }
            },
{
    let db_bytes = hashtable.to_pir_bytes();
    match engine.setup(db_bytes.as_slice(), scenario) {
        Ok(engine_state) => finish_rebuild::<P>(Ok(engine_state), hashtable),
        Err(error) => finish_rebuild::<P>(Err(P::error_text(&error)), hashtable),
    }
}

} // verus!
