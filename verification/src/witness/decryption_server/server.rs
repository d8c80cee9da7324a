//! Builds what the server serves.

use super::state::{metadata_for, metadata_of, PirState};
use crate::pir_types::{PirEngine, YpirScenario};
use crate::witness::decryption_db::DecryptionDb;
use vstd::prelude::*;
use vstd::string::StringExecFns;

verus! {

/// What can go wrong in the server.
#[derive(Debug)]
pub enum ServerError {
    PirSetup(String),
    SnapshotIo(String),
    Io(String),
}

impl ServerError {
    /// The text of the error.
    pub open spec fn text(self) -> Seq<char> {
        match self {
            ServerError::PirSetup(reason) => "pir setup failed: "@ + reason@,
            ServerError::SnapshotIo(reason) => "snapshot io error: "@ + reason@,
            ServerError::Io(reason) => "io error: "@ + reason@,
        }
    }

    /// The text of the error.
    pub fn message(&self) -> (message: String)
        ensures
            message@ == self.text(),
    {
        match self {
            ServerError::PirSetup(reason) => {
                let mut message = String::from_str("pir setup failed: ");
                message.append(reason.as_str());
                message
            },
            ServerError::SnapshotIo(reason) => {
                let mut message = String::from_str("snapshot io error: ");
                message.append(reason.as_str());
                message
            },
            ServerError::Io(reason) => {
                let mut message = String::from_str("io error: ");
                message.append(reason.as_str());
                message
            },
        }
    }
}

/// What the server serves after a rebuild, given what the engine made of the
/// database.
pub fn finish_rebuild<P: PirEngine>(
    setup: Result<P::ServerState, String>,
    db: &DecryptionDb,
    anchor_height: u64,
) -> (state: Result<PirState<P>, ServerError>)
    requires
        db.wf(),
    ensures
        match setup {
            Ok(engine_state) => state == Ok::<PirState<P>, ServerError>(
                PirState { engine_state, metadata: metadata_for(db@, anchor_height) },
            ),
            Err(reason) => state == Err::<PirState<P>, ServerError>(ServerError::PirSetup(reason)),
        },
{
    match setup {
        Ok(engine_state) => Ok(PirState { engine_state, metadata: metadata_of(db, anchor_height) }),
        Err(reason) => Err(ServerError::PirSetup(reason)),
    }
}

/// Builds what is served from a store: the engine sets up on the PIR database.
pub fn rebuild_pir<P: PirEngine>(
    engine: &P,
    db: &DecryptionDb,
    scenario: &YpirScenario,
    anchor_height: u64,
) -> (state: Result<PirState<P>, ServerError>)
    requires
        db.wf(),
        db@.in_capacity(),
    ensures
        exists|bytes: &[u8], setup: Result<P::ServerState, P::Error>|
            {
                &&& bytes@ == db@.pir_db()
                &&& #[trigger] call_ensures(P::setup, (engine, bytes, scenario), setup)
                &&& match setup {
                    Ok(engine_state) => state == Ok::<PirState<P>, ServerError>(
                        PirState { engine_state, metadata: metadata_for(db@, anchor_height) },
                    ),
                    Err(error) => state matches Err(ServerError::PirSetup(reason)) && call_ensures(
                        P::error_text,
                        (&error,),
                        reason,
                    ),
                }
            },
{
    let db_bytes = db.build_pir_db();
    match engine.setup(db_bytes.as_slice(), scenario) {
        Ok(engine_state) => finish_rebuild::<P>(Ok(engine_state), db, anchor_height),
        Err(error) => finish_rebuild::<P>(Err(P::error_text(&error)), db, anchor_height),
    }
}

} // verus!
