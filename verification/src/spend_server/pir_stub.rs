//! A PIR engine without privacy: a query is a bucket index.

use crate::bytes::copy_of;
use crate::pir_rows::{read_row, row_for, RowError};
use crate::spend_types::{PirEngine, YpirScenario, BUCKET_BYTES};
use crate::text::{decimal, push_decimal};
use vstd::prelude::*;
use vstd::string::StringExecFns;

verus! {

/// What can be wrong with a query.
#[derive(Debug, Clone, Copy, PartialEq, Eq, Structural)]
pub enum StubPirError {
    InvalidQuery(usize),
    OutOfRange(u32),
}

impl StubPirError {
    /// The text of the error.
    pub open spec fn text(self) -> Seq<char> {
        match self {
            StubPirError::InvalidQuery(len) => "invalid query: expected 4 bytes, got "@ + decimal(
                len as int,
            ),
            StubPirError::OutOfRange(index) => "bucket index "@ + decimal(index as int)
                + " out of range"@,
        }
    }

    /// The error for a row that cannot be read.
    pub open spec fn of(error: RowError) -> StubPirError {
        match error {
            RowError::ShortQuery { len } => StubPirError::InvalidQuery(len),
            RowError::OutOfRange { index } => StubPirError::OutOfRange(index),
        }
    }
}

pub struct StubPirEngine;

pub struct StubServerState {
    buckets: Vec<u8>,
    num_items: u64,
}

impl StubServerState {
    /// The bytes of all buckets.
    pub closed spec fn rows(self) -> Seq<u8> {
        self.buckets@
    }

    /// The number of buckets that may be asked for.
    pub closed spec fn items(self) -> u64 {
        self.num_items
    }
}

impl PirEngine for StubPirEngine {
    type ServerState = StubServerState;

    type Error = StubPirError;

    /// Keeps the rows.
    fn setup(&self, db_bytes: &[u8], scenario: &YpirScenario) -> (state: Result<
        StubServerState,
        StubPirError,
    >)
        ensures
            state matches Ok(state) && state.rows() == db_bytes@ && state.items()
                == scenario.num_items,
    {
        Ok(StubServerState { buckets: copy_of(db_bytes), num_items: scenario.num_items })
    }

    /// Answers with the bucket whose index the query holds.
    fn answer_query(&self, state: &StubServerState, query_bytes: &[u8]) -> (answer: Result<
        Vec<u8>,
        StubPirError,
    >)
        ensures
            match row_for(state.rows(), state.items(), BUCKET_BYTES as int, query_bytes@) {
                Ok(row) => answer matches Ok(answer) && answer@ == row,
                Err(error) => answer == Err::<Vec<u8>, StubPirError>(StubPirError::of(error)),
            },
    {
        match read_row(&state.buckets, state.num_items, BUCKET_BYTES as u32, query_bytes) {
            Ok(row) => Ok(row),
            Err(RowError::ShortQuery { len }) => Err(StubPirError::InvalidQuery(len)),
            Err(RowError::OutOfRange { index }) => Err(StubPirError::OutOfRange(index)),
        }
    }

    fn error_text(error: &StubPirError) -> (text: String)
        ensures
            text@ == error.text(),
    {
        match error {
            StubPirError::InvalidQuery(len) => {
                let mut text = String::from_str("invalid query: expected 4 bytes, got ");
                push_decimal(&mut text, *len as u128);
                text
            },
            StubPirError::OutOfRange(index) => {
                let mut text = String::from_str("bucket index ");
                push_decimal(&mut text, *index as u128);
                text.append(" out of range");
                text
            },
        }
    }
}

} // verus!
