//! What a server answers to a query.

use crate::pir_types::PirEngine;
use vstd::prelude::*;

verus! {

/// The answer to a query.
#[derive(Debug)]
pub enum QueryReply {
    /// No database has been built yet: service unavailable.
    Unavailable,
    /// The engine could not answer: internal error, with the engine's reason.
    Failed(String),
    /// The engine's answer.
    Answered(Vec<u8>),
}

/// The reply for what the engine made of a query, or for its absence.
pub fn reply_for(answer: Option<Result<Vec<u8>, String>>) -> (reply: QueryReply)
    ensures
        reply == (match answer {
            None => QueryReply::Unavailable,
            Some(Ok(bytes)) => QueryReply::Answered(bytes),
            Some(Err(reason)) => QueryReply::Failed(reason),
        }),
{
    match answer {
        None => QueryReply::Unavailable,
        Some(Ok(bytes)) => QueryReply::Answered(bytes),
        Some(Err(reason)) => QueryReply::Failed(reason),
    }
}

/// Answers a query from the live engine state, if there is one.
pub fn answer<P: PirEngine>(engine: &P, live: Option<&P::ServerState>, query: &[u8]) -> (reply:
    QueryReply)
    ensures
        match live {
            None => reply == QueryReply::Unavailable,
            Some(state) => exists|answer: Result<Vec<u8>, P::Error>|
                {
                    &&& #[trigger] call_ensures(P::answer_query, (engine, state, query), answer)
                    &&& match answer {
                        Ok(bytes) => reply == QueryReply::Answered(bytes),
                        Err(error) => reply matches QueryReply::Failed(reason) && call_ensures(
                            P::error_text,
                            (&error,),
                            reason,
                        ),
                    }
                },
        },
{
    match live {
        None => reply_for(None),
        Some(state) => match engine.answer_query(state, query) {
            Ok(bytes) => reply_for(Some(Ok(bytes))),
            Err(error) => reply_for(Some(Err(P::error_text(&error)))),
        },
    }
}

} // verus!
