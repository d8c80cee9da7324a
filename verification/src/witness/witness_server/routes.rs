//! What the HTTP routes answer.

use super::state::{PirState, WitnessMetadata};
use crate::pir_types::PirEngine;
use crate::query::{answer, QueryReply};
use crate::witness::witness_types::BroadcastData;
use vstd::prelude::*;

verus! {

/// The metadata of what is served; nothing while the service is unavailable.
pub fn metadata<P: PirEngine>(live: Option<&PirState<P>>) -> (metadata: Option<WitnessMetadata>)
    ensures
        metadata == (match live {
            Some(state) => Some(state.metadata),
            None => None,
        }),
{
    match live {
        Some(state) => Some(state.metadata),
        None => None,
    }
}

/// The broadcast payload; nothing while the service is unavailable.
pub fn broadcast<P: PirEngine>(live: Option<&PirState<P>>) -> (broadcast: Option<&BroadcastData>)
    ensures
        broadcast == (match live {
            Some(state) => Some(&state.broadcast),
            None => None,
        }),
{
    match live {
        Some(state) => Some(&state.broadcast),
        None => None,
    }
}

/// Answers a query from what is served.
pub fn query<P: PirEngine>(engine: &P, live: Option<&PirState<P>>, body: &[u8]) -> (reply:
    QueryReply)
    ensures
        match live {
            None => reply == QueryReply::Unavailable,
            Some(state) => exists|answer: Result<Vec<u8>, P::Error>|
                {
                    &&& #[trigger] call_ensures(
                        P::answer_query,
                        (engine, &state.engine_state, body),
                        answer,
                    )
                    &&& match answer {
                        Ok(bytes) => reply == QueryReply::Answered(bytes),
                        Err(error) => reply matches QueryReply::Failed(reason) && call_ensures(
                            P::error_text,
                            (&error,),
                            reason,
                        ),
                    }
                },
        },
{
    match live {
        Some(state) => answer(engine, Some(&state.engine_state), body),
        None => answer(engine, None, body),
    }
}

} // verus!
