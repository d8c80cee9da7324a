//! Bucketed hash table of nullifiers with spend metadata: per-block tracking,
//! eviction by height and crash-safe snapshots.

pub mod snapshot;

use crate::block_table::{BlockTable, TableState};
use crate::nullifier::spend_types::{
    NullifierEntry, NullifierWithMeta, BUCKET_CAPACITY, DB_BYTES, NUM_BUCKETS, TARGET_SIZE,
};
use vstd::prelude::*;

pub use crate::hashtable_pir::HashTableError;

verus! {

/// The entries that a block at `height` brings.
pub open spec fn entries_of(height: u64, nullifiers: Seq<NullifierWithMeta>) -> Seq<
    NullifierEntry,
> {
    Seq::new(
        nullifiers.len(),
        |i: int|
            NullifierEntry {
                nullifier: nullifiers[i].nullifier,
                spend_height: height as u32,
                first_output_position: nullifiers[i].first_output_position,
                action_count: nullifiers[i].action_count,
            },
    )
}

/// Bucketed hash table for nullifier storage.
pub struct HashTableDb {
    table: BlockTable<NullifierEntry, 16_384, 112>,
}

impl View for HashTableDb {
    type V = TableState<NullifierEntry>;

    closed spec fn view(&self) -> TableState<NullifierEntry> {
        self.table@
    }
}

impl HashTableDb {
    /// The table has [`NUM_BUCKETS`] buckets of [`BUCKET_CAPACITY`] slots.
    pub open spec fn shaped(&self) -> bool {
        self@.shaped(NUM_BUCKETS as int, BUCKET_CAPACITY as int)
    }

    /// The table has its shape and its blocks can be removed.
    pub open spec fn wf(&self) -> bool {
        self.shaped() && self@.sound()
    }

    /// An empty table.
    pub fn new() -> (db: Self)
        ensures
            db.wf(),
            db@ == TableState::<NullifierEntry>::empty(NUM_BUCKETS as int, BUCKET_CAPACITY as int),
    {
        HashTableDb { table: BlockTable::new() }
    }

    /// Inserts all nullifiers of a single block, or none of them where a
    /// bucket overflows.
    pub fn insert_block(
        &mut self,
        height: u64,
        block_hash: [u8; 32],
        nullifiers: &[NullifierWithMeta],
    ) -> (result: Result<(), HashTableError>)
        requires
            old(self).shaped(),
            old(self)@.count + nullifiers@.len() <= usize::MAX,
        ensures
            final(self).shaped(),
            old(self).wf() ==> final(self).wf(),
            match old(self)@.inserted(height, block_hash, entries_of(height, nullifiers@)) {
                Ok(table) => result == Ok::<(), HashTableError>(()) && final(self)@ == table,
                Err(bucket) => result == Err::<(), HashTableError>(
                    HashTableError::BucketOverflow { bucket_idx: bucket },
                ) && final(self)@ == old(self)@,
            },
    {
        let mut entries: Vec<NullifierEntry> = Vec::with_capacity(nullifiers.len());
        let mut i: usize = 0;
        while i < nullifiers.len()
            invariant
                i <= nullifiers@.len(),
                entries@ == entries_of(height, nullifiers@.take(i as int)),
            decreases nullifiers@.len() - i,
        {
            let nwm = nullifiers[i];
            entries.push(
                NullifierEntry {
                    nullifier: nwm.nullifier,
                    spend_height: height as u32,
                    first_output_position: nwm.first_output_position,
                    action_count: nwm.action_count,
                },
            );
            i += 1;
            assert(entries@ =~= entries_of(height, nullifiers@.take(i as int)));
        }
        assert(nullifiers@.take(i as int) =~= nullifiers@);
        match self.table.insert_entries(height, block_hash, &entries) {
            None => Ok(()),
            Some(bucket_idx) => Err(HashTableError::BucketOverflow { bucket_idx }),
        }
    }

    /// Removes all nullifiers inserted by the block with the given hash.
    pub fn rollback_block(&mut self, block_hash: &[u8; 32]) -> (result: Result<
        (),
        HashTableError,
    >)
        requires
            old(self).wf(),
        ensures
            final(self).wf(),
            final(self)@ == old(self)@.rolled_back(block_hash@),
            result == (if old(self)@.has_block(block_hash@) {
                Ok::<(), HashTableError>(())
            } else {
                Err::<(), HashTableError>(HashTableError::BlockNotFound)
            }),
    {
        if self.table.rollback_block(block_hash) {
            Ok(())
        } else {
            Err(HashTableError::BlockNotFound)
        }
    }

    /// Evicts the lowest block. Returns its height.
    pub fn evict_oldest_block(&mut self) -> (height: Option<u64>)
        requires
            old(self).wf(),
        ensures
            final(self).wf(),
            final(self)@ == old(self)@.evicted(),
            height == (if old(self)@.index.len() == 0 {
                None
            } else {
                Some(old(self)@.index[0].height)
            }),
    {
        self.table.evict_oldest_block()
    }

    /// Evicts lowest blocks until there are at most [`TARGET_SIZE`] nullifiers.
    pub fn evict_to_target(&mut self)
        requires
            old(self).wf(),
        ensures
            final(self).wf(),
            final(self)@ == old(self)@.evicted_to(TARGET_SIZE as int),
    {
        self.table.evict_to(TARGET_SIZE)
    }

    /// Whether the table holds a nullifier.
    pub fn contains(&self, nf: &[u8; 32]) -> (found: bool)
        requires
            self.shaped(),
        ensures
            found == self@.holds(nf@),
    {
        self.table.contains(nf)
    }

    /// Whether the blocks of the table can be removed. A table that was
    /// restored from a snapshot is only known to have its shape.
    pub fn is_sound(&self) -> (sound: bool)
        requires
            self.shaped(),
        ensures
            sound == self.wf(),
    {
        self.table.is_sound()
    }

    /// The buckets row by row.
    pub fn to_pir_bytes(&self) -> (bytes: Vec<u8>)
        requires
            self.shaped(),
        ensures
            bytes@ == self@.rows(),
    {
        let mut bytes: Vec<u8> = Vec::with_capacity(DB_BYTES);
        self.table.push_rows(&mut bytes);
        assert(bytes@ =~= self@.rows());
        bytes
    }

    /// Number of nullifiers.
    pub fn len(&self) -> (len: usize)
        ensures
            len == self@.count,
    {
        self.table.len()
    }

    /// Whether there is no nullifier.
    pub fn is_empty(&self) -> (empty: bool)
        ensures
            empty == (self@.count == 0),
    {
        self.table.len() == 0
    }

    /// Height of the lowest block.
    pub fn earliest_height(&self) -> (height: Option<u64>)
        ensures
            height == (if self@.index.len() == 0 {
                None
            } else {
                Some(self@.index[0].height)
            }),
    {
        if self.table.num_blocks() == 0 {
            None
        } else {
            Some(self.table.block_at(0).0)
        }
    }

    /// Height of the highest block.
    pub fn latest_height(&self) -> (height: Option<u64>)
        ensures
            height == (if self@.index.len() == 0 {
                None
            } else {
                Some(self@.index.last().height)
            }),
    {
        let n: usize = self.table.num_blocks();
        if n == 0 {
            None
        } else {
            Some(self.table.block_at(n - 1).0)
        }
    }

    /// Hash of the highest block.
    pub fn latest_block_hash(&self) -> (hash: Option<[u8; 32]>)
        ensures
            hash == (if self@.index.len() == 0 {
                None
            } else {
                Some(self@.index.last().hash)
            }),
    {
        let n: usize = self.table.num_blocks();
        if n == 0 {
            None
        } else {
            Some(self.table.block_at(n - 1).1)
        }
    }

    /// Number of blocks.
    pub fn num_blocks(&self) -> (blocks: usize)
        ensures
            blocks == self@.index.len(),
    {
        self.table.num_blocks()
    }
}

impl Default for HashTableDb {
    fn default() -> (db: Self)
        ensures
            db.wf(),
            db@ == TableState::<NullifierEntry>::empty(NUM_BUCKETS as int, BUCKET_CAPACITY as int),
    {
        HashTableDb::new()
    }
}

} // verus!
