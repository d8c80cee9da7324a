//! Witness ingest: note commitments and decryption data of compact blocks, and
//! the chain events that carry them.

pub mod block_laws;
pub mod follow_laws;
pub mod ingest;
pub mod parser;

pub use parser::{
    extract_block_commitments, extract_commitments, extract_commitments_and_decryption,
    extract_decryption_leaves, orchard_tree_size, BlockCommitments,
};
