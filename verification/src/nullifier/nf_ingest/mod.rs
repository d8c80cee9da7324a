//! Nullifier ingest: from compact blocks to chain events.

pub mod block_laws;
pub mod follow_laws;
pub mod ingest;
pub mod parser;

pub use crate::chain_ingest::{proto, ChainAction};
pub use parser::extract_nullifiers;
