//! The witness subsystem: the note commitment tree, its PIR database and the
//! authentication paths that clients rebuild from it.

pub mod block_records;
pub mod commitment_ingest;
pub mod commitment_tree_db;
pub mod decryption_db;
pub mod decryption_server;
pub mod decryption_types;
pub mod merkle;
pub mod merkle_laws;
pub mod sinsemilla;
pub mod store_laws;
pub mod tree_laws;
pub mod tree_result_laws;
pub mod witness_client;
pub mod witness_server;
pub mod witness_types;
