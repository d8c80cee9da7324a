//! The nullifier PIR system: which notes are spent, and where.

pub mod hashtable_pir;
pub mod nf_ingest;
pub mod snapshot_io;
pub mod spend_client;
pub mod spend_server;
pub mod spend_types;
