//! Types and constants for a table of nullifiers with spend metadata.

use crate::block_table::{bucket_of, SlotEntry};
use crate::bytes::{
    all_zero, hash_from, lemma_array_bytes, lemma_array_eq, lemma_array_from, lemma_u32_at_le,
    lemma_u32_le_at, push_bytes, push_u32, read_array_at, read_u32_at, u32_at, u32_le, zero_hash,
    zeros,
};
use vstd::prelude::*;

pub use crate::pir_types::{PirEngine, ServerPhase, YpirScenario, CONFIRMATION_DEPTH};
pub use crate::spend_types::{OrphanedBlock, SpendabilityMetadata};

verus! {

/// Max nullifiers before the oldest blocks are evicted.
pub const TARGET_SIZE: usize = 1_000_000;

/// Hash table rows, which are PIR database rows.
pub const NUM_BUCKETS: usize = 16_384;

/// Max entries per bucket.
pub const BUCKET_CAPACITY: usize = 112;

/// 32-byte nullifier and 9 bytes of spend metadata.
pub const ENTRY_BYTES: usize = 41;

/// Row size.
pub const BUCKET_BYTES: usize = 4_592;

/// Total PIR database size.
pub const DB_BYTES: usize = 75_235_328;

/// Maps a nullifier to its bucket: its first 4 bytes as a little-endian
/// integer, modulo [`NUM_BUCKETS`].
pub fn hash_to_bucket(nf: &[u8; 32]) -> (bucket: u32)
    ensures
        bucket == bucket_of(nf@, NUM_BUCKETS as int),
        bucket < NUM_BUCKETS,
{
    read_u32_at(nf.as_slice(), 0) % (NUM_BUCKETS as u32)
}

/// A nullifier with where its spending transaction's outputs stand.
#[derive(Debug, Clone, Copy)]
pub struct NullifierWithMeta {
    pub nullifier: [u8; 32],
    /// Tree position of the transaction's first output.
    pub first_output_position: u32,
    /// Number of the transaction's actions.
    pub action_count: u8,
}

/// What a slot of the table holds.
#[derive(Debug, Clone, Copy)]
pub struct NullifierEntry {
    pub nullifier: [u8; 32],
    /// Height of the block that spent the note.
    pub spend_height: u32,
    pub first_output_position: u32,
    pub action_count: u8,
}

/// Where a note was spent.
#[derive(Debug, Clone, Copy, PartialEq, Eq, Structural)]
pub struct SpendMetadata {
    pub spend_height: u32,
    pub first_output_position: u32,
    pub action_count: u8,
}

/// An event of the chain as the ingest loop reports it.
#[derive(Debug, Clone)]
pub enum ChainEvent {
    NewBlock {
        height: u64,
        hash: [u8; 32],
        prev_hash: [u8; 32],
        nullifiers: Vec<NullifierWithMeta>,
    },
    Reorg { orphaned: Vec<OrphanedBlock>, new_blocks: Vec<NewBlock> },
}

#[derive(Debug, Clone)]
pub struct NewBlock {
    pub height: u64,
    pub hash: [u8; 32],
    pub prev_hash: [u8; 32],
    pub nullifiers: Vec<NullifierWithMeta>,
}

impl NullifierEntry {
    /// The bytes of an entry: nullifier, spend height, first output position
    /// and action count.
    pub open spec fn bytes(self) -> Seq<u8> {
        self.nullifier@ + u32_le(self.spend_height) + u32_le(self.first_output_position)
            + seq![self.action_count]
    }

    /// The spend metadata of an entry.
    pub open spec fn metadata(self) -> SpendMetadata {
        SpendMetadata {
            spend_height: self.spend_height,
            first_output_position: self.first_output_position,
            action_count: self.action_count,
        }
    }

    /// The entry with the given bytes.
    pub open spec fn parsed(bytes: Seq<u8>) -> NullifierEntry {
        NullifierEntry {
            nullifier: hash_from(bytes.subrange(0, 32)),
            spend_height: u32_at(bytes, 32),
            first_output_position: u32_at(bytes, 36),
            action_count: bytes[40],
        }
    }

    /// Serializes the entry.
    pub fn to_bytes(&self) -> (bytes: [u8; 41])
        ensures
            bytes@ == self.bytes(),
    {
        let mut bytes: [u8; 41] = [0u8; 41];
        let mut i: usize = 0;
        while i < 32
            invariant
                i <= 32,
                forall|k: int| 0 <= k < i ==> bytes@[k] == self.nullifier@[k],
            decreases 32 - i,
        {
            bytes[i] = self.nullifier[i];
            i += 1;
        }
        let mut tail: Vec<u8> = Vec::with_capacity(9);
        push_u32(&mut tail, self.spend_height);
        push_u32(&mut tail, self.first_output_position);
        tail.push(self.action_count);
        let ghost end = tail@;
        assert(end =~= u32_le(self.spend_height) + u32_le(self.first_output_position)
            + seq![self.action_count]);
        let mut j: usize = 0;
        while j < 9
            invariant
                j <= 9,
                tail@ == end,
                end.len() == 9,
                forall|k: int| 0 <= k < 32 ==> bytes@[k] == self.nullifier@[k],
                forall|k: int| 0 <= k < j ==> bytes@[32 + k] == end[k],
            decreases 9 - j,
        {
            bytes[32 + j] = tail[j];
            j += 1;
        }
        assert forall|k: int| 0 <= k < 41 implies bytes@[k] == self.bytes()[k] by {
            if k >= 32 {
                assert(bytes@[32 + (k - 32)] == end[k - 32]);
            }
        }
        assert(bytes@ =~= self.bytes());
        bytes
    }

    /// Deserializes an entry.
    pub fn from_bytes(bytes: [u8; 41]) -> (entry: NullifierEntry)
        ensures
            entry == NullifierEntry::parsed(bytes@),
            entry.bytes() == bytes@,
    {
        assert(bytes@.subrange(0, 41) =~= bytes@);
        Self::read_at(bytes.as_slice(), 0)
    }

    /// Deserializes the entry at `pos`.
    pub fn read_at(data: &[u8], pos: usize) -> (entry: NullifierEntry)
        requires
            pos + ENTRY_BYTES <= data.len(),
        ensures
            entry == NullifierEntry::parsed(data@.subrange(pos as int, pos + ENTRY_BYTES)),
            entry.bytes() == data@.subrange(pos as int, pos + ENTRY_BYTES),
    {
        let entry = NullifierEntry {
            nullifier: read_array_at::<32>(data, pos),
            spend_height: read_u32_at(data, pos + 32),
            first_output_position: read_u32_at(data, pos + 36),
            action_count: data[pos + 40],
        };
        proof {
            let field = data@.subrange(pos as int, pos + 41);
            lemma_u32_at_le(data@, pos + 32);
            lemma_u32_at_le(data@, pos + 36);
            assert(entry.bytes() =~= field);
            assert(field.subrange(0, 32) =~= entry.nullifier@);
            lemma_array_from(entry.nullifier);
        }
        entry
    }
}

impl SpendMetadata {
    /// The metadata that the last nine bytes of an entry hold.
    pub fn from_entry_tail(tail: [u8; 9]) -> (metadata: SpendMetadata)
        ensures
            metadata.spend_height == u32_at(tail@, 0),
            metadata.first_output_position == u32_at(tail@, 4),
            metadata.action_count == tail@[8],
    {
        SpendMetadata {
            spend_height: read_u32_at(tail.as_slice(), 0),
            first_output_position: read_u32_at(tail.as_slice(), 4),
            action_count: tail[8],
        }
    }
}

/// An entry is determined by its bytes.
pub proof fn law_entry_bytes_decide(a: NullifierEntry, b: NullifierEntry)
    requires
        a.bytes() == b.bytes(),
    ensures
        a == b,
{
    law_entry_roundtrip(a);
    law_entry_roundtrip(b);
}

/// An entry that was written can be read back.
pub proof fn law_entry_roundtrip(entry: NullifierEntry)
    ensures
        entry.bytes().len() == ENTRY_BYTES,
        NullifierEntry::parsed(entry.bytes()) == entry,
{
    let s = entry.bytes();
    assert(s.subrange(0, 32) =~= entry.nullifier@);
    lemma_array_from(entry.nullifier);
    assert(s.subrange(32, 36) =~= u32_le(entry.spend_height));
    assert(s.subrange(36, 40) =~= u32_le(entry.first_output_position));
    lemma_u32_le_at(s, 32, entry.spend_height);
    lemma_u32_le_at(s, 36, entry.first_output_position);
}

/// The entry of zero bytes marks a free slot.
impl SlotEntry for NullifierEntry {
    open spec fn nf(self) -> Seq<u8> {
        self.nullifier@
    }

    open spec fn encoding(self) -> Seq<u8> {
        self.bytes()
    }

    open spec fn encoded_len() -> nat {
        41
    }

    open spec fn is_zero(self) -> bool {
        &&& self.nullifier@ == zeros(32)
        &&& self.spend_height == 0
        &&& self.first_output_position == 0
        &&& self.action_count == 0
    }

    proof fn entry_laws(self, other: Self) {
        lemma_array_bytes::<32>(zeros(32));
        let zero = NullifierEntry {
            nullifier: hash_from(zeros(32)),
            spend_height: 0,
            first_output_position: 0,
            action_count: 0,
        };
        assert(zero.is_zero());
        assert(self.encoding().take(32) =~= self.nf());
        if self.is_zero() && other.is_zero() {
            lemma_array_eq(self.nullifier, other.nullifier);
        }
    }

    fn zero() -> (entry: Self) {
        let nullifier = zero_hash();
        NullifierEntry { nullifier, spend_height: 0, first_output_position: 0, action_count: 0 }
    }

    fn is_empty(&self) -> (empty: bool) {
        self.spend_height == 0 && self.first_output_position == 0 && self.action_count == 0
            && all_zero(&self.nullifier)
    }

    fn nf_bytes(&self) -> (nf: &[u8; 32]) {
        &self.nullifier
    }

    fn push_encoding(&self, buf: &mut Vec<u8>) {
        let bytes = self.to_bytes();
        push_bytes(buf, bytes.as_slice());
    }
}

} // verus!
