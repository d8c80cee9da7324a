//! What the ingest pipelines share: the compact block messages, a chain tracker
//! that detects reorgs, and the ranges in which blocks are fetched.

pub mod chain_tracker;
pub mod proto;
pub mod ranges;
pub mod tracker_laws;

pub use chain_tracker::{ChainAction, ChainTracker};
