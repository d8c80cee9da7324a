//! Verified core of the spendability PIR services.

pub mod block_table;
pub mod bytes;
pub mod chain_ingest;
pub mod checksum;
pub mod combined_server;
pub mod hash_index;
pub mod hashtable_pir;
pub mod laws;
pub mod nullifier;
pub mod pir_rows;
pub mod pir_types;
pub mod query;
pub mod snapshot_clock;
pub mod spend_server;
pub mod spend_types;
pub mod table_history;
pub mod table_laws;
pub mod table_snapshot;
pub mod text;
pub mod witness;
