//! Errors of reading and writing snapshot files.

use crate::nullifier::hashtable_pir::HashTableError;
use crate::nullifier::spend_types::BUCKET_CAPACITY;
use vstd::prelude::*;
use vstd::string::StringExecFns;

verus! {

/// What can go wrong with a snapshot file.
#[derive(Debug)]
pub enum SnapshotIoError {
    Io(String),
    Decode(HashTableError),
}

impl SnapshotIoError {
    /// The text of the error.
    pub open spec fn text(self) -> Seq<char> {
        match self {
            SnapshotIoError::Io(reason) => "io error: "@ + reason@,
            SnapshotIoError::Decode(error) => "snapshot decode: "@ + error.text(
                BUCKET_CAPACITY as int,
            ),
        }
    }

    /// The text of the error.
    pub fn message(&self) -> (message: String)
        ensures
            message@ == self.text(),
    {
        match self {
            SnapshotIoError::Io(reason) => {
                let mut message = String::from_str("io error: ");
                message.append(reason.as_str());
                message
            },
            SnapshotIoError::Decode(error) => {
                let mut message = String::from_str("snapshot decode: ");
                message.append(error.message(BUCKET_CAPACITY).as_str());
                message
            },
        }
    }
}

} // verus!
