//! Client side of a witness query: which row to ask for, and the
//! authentication path that the row and the broadcast give.

pub mod path_laws;
pub mod reconstruct;

use crate::text::{decimal, push_decimal};
use crate::witness::witness_types::{
    decompose_position, physical_row_index, shard_of, subshard_of, BroadcastData,
    SUBSHARDS_PER_SHARD,
};
use vstd::prelude::*;
use vstd::string::StringExecFns;

verus! {

/// What can go wrong with a query.
#[derive(Debug)]
pub enum WitnessClientError {
    Http(String),
    ServerUnavailable,
    InvalidParams(String),
    QueryFailed(String),
    /// The position, the first shard of the window and the one behind its
    /// last.
    PositionOutsideWindow(u64, u32, u32),
    VerificationFailed(u64),
}

impl WitnessClientError {
    /// The text of the error.
    pub open spec fn text(self) -> Seq<char> {
        match self {
            WitnessClientError::Http(reason) => "HTTP error: "@ + reason@,
            WitnessClientError::ServerUnavailable => "server unavailable (503)"@,
            WitnessClientError::InvalidParams(reason) => "invalid params from server: "@ + reason@,
            WitnessClientError::QueryFailed(reason) => "query failed: "@ + reason@,
            WitnessClientError::PositionOutsideWindow(position, start, end) => "position "@
                + decimal(position as int) + " is outside the server's PIR window (shards "@
                + decimal(start as int) + ".."@ + decimal(end as int) + ")"@,
            WitnessClientError::VerificationFailed(position) =>
                "witness verification failed for position "@ + decimal(position as int)
                + ": computed root does not match anchor"@,
        }
    }

    /// The text of the error.
    pub fn message(&self) -> (message: String)
        ensures
            message@ == self.text(),
    {
        match self {
            WitnessClientError::Http(reason) => {
                let mut message = String::from_str("HTTP error: ");
                message.append(reason.as_str());
                message
            },
            WitnessClientError::ServerUnavailable => String::from_str("server unavailable (503)"),
            WitnessClientError::InvalidParams(reason) => {
                let mut message = String::from_str("invalid params from server: ");
                message.append(reason.as_str());
                message
            },
            WitnessClientError::QueryFailed(reason) => {
                let mut message = String::from_str("query failed: ");
                message.append(reason.as_str());
                message
            },
            WitnessClientError::PositionOutsideWindow(position, start, end) => {
                let mut message = String::from_str("position ");
                push_decimal(&mut message, *position as u128);
                message.append(" is outside the server's PIR window (shards ");
                push_decimal(&mut message, *start as u128);
                message.append("..");
                push_decimal(&mut message, *end as u128);
                message.append(")");
                message
            },
            WitnessClientError::VerificationFailed(position) => {
                let mut message = String::from_str("witness verification failed for position ");
                push_decimal(&mut message, *position as u128);
                message.append(": computed root does not match anchor");
                message
            },
        }
    }
}

/// Whether a position's shard is in the window of a broadcast.
pub open spec fn in_window(position: u64, broadcast: BroadcastData) -> bool {
    broadcast.window_start_shard <= shard_of(position) < broadcast.window_start_shard
        + broadcast.window_shard_count
}

/// The row of the PIR database that holds a position in the window.
pub fn query_row(position: u64, broadcast: &BroadcastData) -> (row: Result<
    usize,
    WitnessClientError,
>)
    requires
        broadcast.window_start_shard + broadcast.window_shard_count <= u32::MAX,
        broadcast.window_shard_count * SUBSHARDS_PER_SHARD <= usize::MAX,
    ensures
        if in_window(position, *broadcast) {
            row == Ok::<usize, WitnessClientError>(
                ((shard_of(position) - broadcast.window_start_shard) * SUBSHARDS_PER_SHARD
                    + subshard_of(position)) as usize,
            )
        } else {
            row == Err::<usize, WitnessClientError>(
                WitnessClientError::PositionOutsideWindow(
                    position,
                    broadcast.window_start_shard,
                    (broadcast.window_start_shard + broadcast.window_shard_count) as u32,
                ),
            )
        },
{
    let (shard, subshard, _) = decompose_position(position);
    let start: u32 = broadcast.window_start_shard;
    let end: u32 = start + broadcast.window_shard_count;
    if shard < start || shard >= end {
        return Err(WitnessClientError::PositionOutsideWindow(position, start, end));
    }
    Ok(physical_row_index(shard, subshard, start))
}

} // verus!
