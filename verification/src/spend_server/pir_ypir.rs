//! Errors of the YPIR engine.

use vstd::prelude::*;
use vstd::string::StringExecFns;

verus! {

/// What can go wrong in the engine.
#[derive(Debug)]
pub enum YpirError {
    Setup(String),
    Query(String),
}

impl YpirError {
    /// The text of the error.
    pub open spec fn text(self) -> Seq<char> {
        match self {
            YpirError::Setup(reason) => "YPIR setup failed: "@ + reason@,
            YpirError::Query(reason) => "YPIR query failed: "@ + reason@,
        }
    }

    /// The text of the error.
    pub fn message(&self) -> (message: String)
        ensures
            message@ == self.text(),
    {
        match self {
            YpirError::Setup(reason) => {
                let mut message = String::from_str("YPIR setup failed: ");
                message.append(reason.as_str());
                message
            },
            YpirError::Query(reason) => {
                let mut message = String::from_str("YPIR query failed: ");
                message.append(reason.as_str());
                message
            },
        }
    }
}

} // verus!
