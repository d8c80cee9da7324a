//! Types and constants for a table of bare nullifiers.

use crate::block_table::{bucket_of, SlotEntry};
use crate::bytes::{
    all_zero, hash_from, lemma_array_bytes, lemma_array_eq, push_bytes, read_u32_at, zero_hash,
    zeros,
};
use vstd::prelude::*;

pub use crate::pir_types::{PirEngine, ServerPhase, YpirScenario, CONFIRMATION_DEPTH};

verus! {

pub const TARGET_SIZE: usize = 1_000_000;

pub const NUM_BUCKETS: usize = 131_072;

pub const BUCKET_CAPACITY: usize = 16;

pub const ENTRY_BYTES: usize = 32;

pub const BUCKET_BYTES: usize = 512;

pub const DB_BYTES: usize = 67_108_864;

/// Maps a nullifier to its bucket. Nullifiers are cryptographically random, so
/// their first 4 bytes give a uniform distribution.
pub fn hash_to_bucket(nf: &[u8; 32]) -> (bucket: u32)
    ensures
        bucket == bucket_of(nf@, NUM_BUCKETS as int),
        bucket < NUM_BUCKETS,
{
    read_u32_at(nf.as_slice(), 0) % (NUM_BUCKETS as u32)
}

/// An event of the chain as the ingest loop reports it.
#[derive(Debug, Clone)]
pub enum ChainEvent {
    NewBlock {
        height: u64,
        hash: [u8; 32],
        prev_hash: [u8; 32],
        nullifiers: Vec<[u8; 32]>,
    },
    Reorg { orphaned: Vec<OrphanedBlock>, new_blocks: Vec<NewBlock> },
}

#[derive(Debug, Clone, Copy)]
pub struct OrphanedBlock {
    pub height: u64,
    pub hash: [u8; 32],
}

#[derive(Debug, Clone)]
pub struct NewBlock {
    pub height: u64,
    pub hash: [u8; 32],
    pub prev_hash: [u8; 32],
    pub nullifiers: Vec<[u8; 32]>,
}

/// What a spend server reports of its table.
#[derive(Debug, Clone, Copy, PartialEq, Eq, Structural)]
pub struct SpendabilityMetadata {
    pub earliest_height: u64,
    pub latest_height: u64,
    pub num_nullifiers: u64,
    pub num_buckets: u64,
    pub phase: ServerPhase,
}

/// A bare nullifier fills a slot; the all-zero one marks it free.
impl SlotEntry for [u8; 32] {
    open spec fn nf(self) -> Seq<u8> {
        self@
    }

    open spec fn encoding(self) -> Seq<u8> {
        self@
    }

    open spec fn encoded_len() -> nat {
        32
    }

    open spec fn is_zero(self) -> bool {
        self@ == zeros(32)
    }

    proof fn entry_laws(self, other: Self) {
        lemma_array_bytes::<32>(zeros(32));
        assert(hash_from(zeros(32)).is_zero());
        assert(self.encoding().take(32) =~= self.nf());
        if self.is_zero() && other.is_zero() {
            lemma_array_eq(self, other);
        }
    }

    fn zero() -> (entry: Self) {
        zero_hash()
    }

    fn is_empty(&self) -> (empty: bool) {
        all_zero(self)
    }

    fn nf_bytes(&self) -> (nf: &[u8; 32]) {
        self
    }

    fn push_encoding(&self, buf: &mut Vec<u8>) {
        push_bytes(buf, self.as_slice());
    }
}

} // verus!
