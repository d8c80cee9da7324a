//! Snapshots of a [`HashTableDb`]: version 1 of the table snapshots, with
//! bare nullifiers, 32 bytes each.

use super::{HashTableDb, HashTableError};
use crate::block_table::{heights_of, index_of, BlockTable, Bucket, TableState};
use crate::bytes::{hash_from, lemma_array_from, read_array_at};
use crate::spend_types::{BUCKET_BYTES, BUCKET_CAPACITY, DB_BYTES, ENTRY_BYTES, NUM_BUCKETS};
use crate::table_laws::{law_rows_hold_entries, lemma_index_of_sorted, lemma_remembered_heights};
use crate::table_snapshot::{
    count_in, frame_fault, front_of, lemma_frame_roundtrip, payload_of, payload_part, read_frame,
    records_in, with_checksum, write_table,
};
use vstd::prelude::*;
use vstd::slice::slice_subrange;

verus! {

pub const SNAPSHOT_VERSION: u32 = 1;

/// The entry that stands in a slot of the bucket data.
pub open spec fn entry_in(data: Seq<u8>, start: int, b: int, s: int) -> [u8; 32] {
    let at = start + b * BUCKET_BYTES + s * ENTRY_BYTES;
    hash_from(data.subrange(at, at + ENTRY_BYTES))
}

/// The bucket data that starts at `start`.
pub open spec fn buckets_in(data: Seq<u8>, start: int) -> Seq<Seq<[u8; 32]>> {
    Seq::new(
        NUM_BUCKETS as nat,
        |b: int| Seq::new(BUCKET_CAPACITY as nat, |s: int| entry_in(data, start, b, s)),
    )
}

/// Why `data` is no snapshot, if it is none.
pub open spec fn snapshot_fault(data: Seq<u8>) -> Option<Seq<char>> {
    frame_fault(data, SNAPSHOT_VERSION, DB_BYTES as int)
}

/// What the snapshot `data` holds. Of block records with one height or one
/// hash, the last counts.
pub open spec fn restored(data: Seq<u8>) -> TableState<[u8; 32]> {
    let payload = payload_part(data);
    let (blocks, end) = records_in(payload)->0;
    TableState {
        buckets: buckets_in(payload, end),
        index: index_of(blocks),
        heights: heights_of(blocks),
        count: count_in(payload),
    }
}

/// The snapshot of a table.
pub open spec fn snapshot_of(table: TableState<[u8; 32]>) -> Seq<u8> {
    with_checksum(payload_of(table, SNAPSHOT_VERSION))
}

/// Reads the bucket data that starts at `start`.
fn read_buckets(data: &[u8], start: usize) -> (buckets: Vec<Bucket<[u8; 32]>>)
    requires
        start + DB_BYTES <= data.len(),
    ensures
        buckets@.len() == NUM_BUCKETS,
        forall|b: int|
            0 <= b < NUM_BUCKETS ==> (#[trigger] buckets@[b])@ == buckets_in(
                data@,
                start as int,
            )[b],
{
    let ghost all = buckets_in(data@, start as int);
    let mut buckets: Vec<Bucket<[u8; 32]>> = Vec::with_capacity(NUM_BUCKETS);
    let mut b: usize = 0;
    while b < NUM_BUCKETS
        invariant
            b <= NUM_BUCKETS,
            start + DB_BYTES <= data.len(),
            all == buckets_in(data@, start as int),
            buckets@.len() == b,
            forall|k: int| 0 <= k < b ==> (#[trigger] buckets@[k])@ == all[k],
        decreases NUM_BUCKETS - b,
    {
        let mut entries: Vec<[u8; 32]> = Vec::with_capacity(BUCKET_CAPACITY);
        let mut s: usize = 0;
        while s < BUCKET_CAPACITY
            invariant
                s <= BUCKET_CAPACITY,
                b < NUM_BUCKETS,
                start + DB_BYTES <= data.len(),
                entries@.len() == s,
                forall|k: int|
                    0 <= k < s ==> #[trigger] entries@[k] == entry_in(
                        data@,
                        start as int,
                        b as int,
                        k,
                    ),
            decreases BUCKET_CAPACITY - s,
        {
            let entry: [u8; 32] = read_array_at::<32>(
                data,
                start + b * BUCKET_BYTES + s * ENTRY_BYTES,
            );
            proof {
                lemma_array_from(entry);
            }
            entries.push(entry);
            s += 1;
        }
        assert(entries@ =~= all[b as int]);
        buckets.push(Bucket::from_entries(entries));
        b += 1;
    }
    buckets
}

impl HashTableDb {
    /// Serializes the table with a checksum.
    pub fn to_snapshot(&self) -> (data: Vec<u8>)
        requires
            self.shaped(),
        ensures
            data@ == snapshot_of(self@),
    {
        write_table(&self.table, SNAPSHOT_VERSION)
    }

    /// Restores a table from a snapshot.
    pub fn from_snapshot(data: &[u8]) -> (result: Result<Self, HashTableError>)
        ensures
            match snapshot_fault(data@) {
                Some(reason) => result matches Err(HashTableError::Snapshot(r)) && r@ == reason,
                None => result matches Ok(db) && db.shaped() && db@ == restored(data@),
            },
    {
        match read_frame(data, SNAPSHOT_VERSION, DB_BYTES) {
            Err(reason) => Err(HashTableError::Snapshot(reason)),
            Ok(frame) => {
                let payload = slice_subrange(data, 0, data.len() - 8);
                assert(payload@ =~= payload_part(data@));
                let buckets = read_buckets(payload, frame.buckets_at);
                let ghost start = frame.buckets_at as int;
                let db = HashTableDb {
                    table: BlockTable::from_parts(buckets, frame.blocks, frame.num_entries),
                };
                assert(db@.buckets =~= buckets_in(payload@, start));
                Ok(db)
            },
        }
    }
}

/// Bucket data that was written can be read back.
proof fn lemma_buckets_roundtrip(
    data: Seq<u8>,
    front: Seq<u8>,
    table: TableState<[u8; 32]>,
)
    requires
        data == front + table.rows(),
        table.shaped(NUM_BUCKETS as int, BUCKET_CAPACITY as int),
    ensures
        table.rows().len() == DB_BYTES,
        buckets_in(data, front.len() as int) == table.buckets,
{
    let start = front.len() as int;
    let read = buckets_in(data, start);
    law_rows_hold_entries(table, NUM_BUCKETS as int, BUCKET_CAPACITY as int, 0, 0);
    assert forall|b: int| 0 <= b < NUM_BUCKETS implies #[trigger] read[b] == table.buckets[b] by {
        assert forall|s: int| 0 <= s < BUCKET_CAPACITY implies #[trigger] read[b][s]
            == table.buckets[b][s] by {
            law_rows_hold_entries(table, NUM_BUCKETS as int, BUCKET_CAPACITY as int, b, s);
            let at = b * BUCKET_BYTES + s * ENTRY_BYTES;
            assert(data.subrange(start + at, start + at + ENTRY_BYTES) =~= table.rows().subrange(
                at,
                at + ENTRY_BYTES,
            ));
            lemma_array_from(table.buckets[b][s]);
        }
        assert(read[b] =~= table.buckets[b]);
    }
    assert(read =~= table.buckets);
}

/// A table that was written to a snapshot is restored from it. The heights of
/// the block hashes are not written: they are restored where they are those
/// that the blocks give.
pub proof fn law_snapshot_roundtrip(table: TableState<[u8; 32]>)
    requires
        table.shaped(NUM_BUCKETS as int, BUCKET_CAPACITY as int),
        table.heights == heights_of(table.index),
        table.count <= usize::MAX,
        table.index.len() <= u64::MAX,
        forall|i: int|
            0 <= i < table.index.len() ==> (#[trigger] table.index[i]).slots.len() <= u32::MAX,
    ensures
        snapshot_fault(snapshot_of(table)) is None,
        restored(snapshot_of(table)) == table,
{
    let front = front_of(table, SNAPSHOT_VERSION);
    lemma_buckets_roundtrip(front + table.rows(), front, table);
    lemma_frame_roundtrip(table, SNAPSHOT_VERSION, DB_BYTES as int);
    lemma_index_of_sorted(table.index);
}

/// A table that remembers its blocks by their hashes is restored from its
/// snapshot.
pub proof fn law_remembered_snapshot_roundtrip(table: TableState<[u8; 32]>)
    requires
        table.shaped(NUM_BUCKETS as int, BUCKET_CAPACITY as int),
        table.remembered(),
        table.count <= usize::MAX,
        table.index.len() <= u64::MAX,
        forall|i: int|
            0 <= i < table.index.len() ==> (#[trigger] table.index[i]).slots.len() <= u32::MAX,
    ensures
        snapshot_fault(snapshot_of(table)) is None,
        restored(snapshot_of(table)) == table,
{
    lemma_remembered_heights(table);
    law_snapshot_roundtrip(table);
}

} // verus!
