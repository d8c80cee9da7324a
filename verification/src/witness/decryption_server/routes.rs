//! What the HTTP routes answer.

use super::state::{DecryptionMetadata, PirState};
use crate::pir_types::{PirEngine, ServerPhase};
use crate::query::{answer, QueryReply};
use vstd::prelude::*;

verus! {

/// Body of the health route.
#[derive(Debug, Clone, Copy, PartialEq, Eq, Structural)]
pub struct HealthResponse {
    pub phase: ServerPhase,
    pub anchor_height: Option<u64>,
    pub tree_size: u64,
    pub populated_shards: u32,
}

/// The health of a server in the given phase, with the metadata of what it
/// serves, if anything.
pub fn health(phase: ServerPhase, live: Option<DecryptionMetadata>) -> (response: HealthResponse)
    ensures
        response == (match live {
            Some(metadata) => HealthResponse {
                phase,
                anchor_height: Some(metadata.anchor_height),
                tree_size: metadata.tree_size,
                populated_shards: metadata.populated_shards,
            },
            None => HealthResponse {
                phase,
                anchor_height: None,
                tree_size: 0,
                populated_shards: 0,
            },
        }),
{
    match live {
        Some(metadata) => HealthResponse {
            phase,
            anchor_height: Some(metadata.anchor_height),
            tree_size: metadata.tree_size,
            populated_shards: metadata.populated_shards,
        },
        None => HealthResponse { phase, anchor_height: None, tree_size: 0, populated_shards: 0 },
    }
}

/// The metadata of what is served; nothing while the service is unavailable.
pub fn metadata<P: PirEngine>(live: Option<&PirState<P>>) -> (metadata: Option<DecryptionMetadata>)
    ensures
        metadata == (match live {
            Some(state) => Some(state.metadata),
            None => None,
        }),
{
    match live {
        Some(state) => Some(state.metadata),
        None => None,
    }
}

/// Answers a query from what is served.
pub fn query<P: PirEngine>(engine: &P, live: Option<&PirState<P>>, body: &[u8]) -> (reply:
    QueryReply)
    ensures
        match live {
            None => reply == QueryReply::Unavailable,
            Some(state) => exists|answer: Result<Vec<u8>, P::Error>|
                {
                    &&& #[trigger] call_ensures(
                        P::answer_query,
                        (engine, &state.engine_state, body),
                        answer,
                    )
                    &&& match answer {
                        Ok(bytes) => reply == QueryReply::Answered(bytes),
                        Err(error) => reply matches QueryReply::Failed(reason) && call_ensures(
                            P::error_text,
                            (&error,),
                            reason,
                        ),
                    }
                },
        },
{
    match live {
        Some(state) => answer(engine, Some(&state.engine_state), body),
        None => answer(engine, None, body),
    }
}

} // verus!
