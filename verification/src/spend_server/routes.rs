//! What the HTTP routes answer.

use super::state::PirState;
use crate::query::{answer, QueryReply};
use crate::spend_types::{PirEngine, ServerPhase, SpendabilityMetadata, YpirScenario};
use vstd::prelude::*;

verus! {

/// Body of the health route.
#[derive(Debug, Clone, Copy, PartialEq, Eq, Structural)]
pub struct HealthResponse {
    pub phase: ServerPhase,
    pub height: Option<u64>,
    pub nullifier_count: u64,
    pub num_blocks: u64,
}

/// The health of a server in the given phase, with the metadata of what it
/// serves, if anything. The number of buckets stands for the number of blocks.
pub fn health(phase: ServerPhase, live: Option<SpendabilityMetadata>) -> (response: HealthResponse)
    ensures
        response == (match live {
            Some(metadata) => HealthResponse {
                phase,
                height: Some(metadata.latest_height),
                nullifier_count: metadata.num_nullifiers,
                num_blocks: metadata.num_buckets,
            },
            None => HealthResponse { phase, height: None, nullifier_count: 0, num_blocks: 0 },
        }),
{
    match live {
        Some(metadata) => HealthResponse {
            phase,
            height: Some(metadata.latest_height),
            nullifier_count: metadata.num_nullifiers,
            num_blocks: metadata.num_buckets,
        },
        None => HealthResponse { phase, height: None, nullifier_count: 0, num_blocks: 0 },
    }
}

/// The metadata of what is served; nothing while the service is unavailable.
pub fn metadata<P: PirEngine>(live: Option<&PirState<P>>) -> (metadata: Option<
    SpendabilityMetadata,
>)
    ensures
        metadata == (match live {
            Some(state) => Some(state.metadata),
            None => None,
        }),
{
    match live {
        Some(state) => Some(state.metadata),
        None => None,
    }
}

/// The geometry of the database.
pub fn params() -> (scenario: YpirScenario)
    ensures
        scenario.num_items == crate::spend_types::NUM_BUCKETS,
        scenario.item_size_bits == crate::spend_types::BUCKET_BYTES * 8,
{
    super::state::scenario()
}

/// Answers a query from what is served.
pub fn query<P: PirEngine>(engine: &P, live: Option<&PirState<P>>, body: &[u8]) -> (reply:
    QueryReply)
    ensures
        match live {
            None => reply == QueryReply::Unavailable,
            Some(state) => exists|answer: Result<Vec<u8>, P::Error>|
                {
                    &&& #[trigger] call_ensures(
                        P::answer_query,
                        (engine, &state.engine_state, body),
                        answer,
                    )
                    &&& match answer {
                        Ok(bytes) => reply == QueryReply::Answered(bytes),
                        Err(error) => reply matches QueryReply::Failed(reason) && call_ensures(
                            P::error_text,
                            (&error,),
                            reason,
                        ),
                    }
                },
        },
{
    match live {
        Some(state) => answer(engine, Some(&state.engine_state), body),
        None => answer(engine, None, body),
    }
}

} // verus!
