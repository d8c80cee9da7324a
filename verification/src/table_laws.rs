//! Laws of block tables.

use crate::block_table::{
    bucket_of, first_free, heights_of, index_of, is_listed, is_sorted, knows, lemma_cleared_placed,
    lemma_first_free, lemma_placed, lemma_rank, lemma_rank_splits, lemma_total_insert,
    lemma_total_remove, lemma_with_block, lemma_zero_entry, placed, rank, row_bytes, total_slots,
    with_block, IndexedBlock, SlotEntry, TableState,
};
use crate::bytes::{lemma_joined_at, lemma_joined_len};
use vstd::prelude::*;

verus! {

/// Whether none of the entries is the one that marks a free slot.
pub open spec fn none_zero<E: SlotEntry>(entries: Seq<E>) -> bool {
    forall|i: int| 0 <= i < entries.len() ==> !(#[trigger] entries[i]).is_zero()
}

impl<E: SlotEntry> TableState<E> {
    /// Whether an entry stands in its bucket.
    pub open spec fn stores(self, entry: E) -> bool {
        self.buckets[bucket_of(entry.nf(), self.buckets.len() as int)].contains(entry)
    }

    /// Whether the blocks account for the entries: each slot that a block
    /// lists is filled, no slot is listed twice, and each filled slot is
    /// listed and in the bucket of its nullifier.
    pub open spec fn accounted(self) -> bool {
        &&& self.sound()
        &&& self.count == total_slots(self.index)
        &&& forall|i: int, j: int|
            0 <= i < self.index.len() && 0 <= j < self.index[i].slots.len() ==> {
                let slot = #[trigger] self.index[i].slots[j];
                !self.buckets[slot.0 as int][slot.1 as int].is_zero()
            }
        &&& forall|i: int, j: int, k: int, l: int|
            0 <= i < self.index.len() && 0 <= j < self.index[i].slots.len() && 0 <= k
                < self.index.len() && 0 <= l < self.index[k].slots.len() && (i != k || j != l)
                ==> #[trigger] self.index[i].slots[j] != #[trigger] self.index[k].slots[l]
        &&& forall|b: int, s: int|
            0 <= b < self.buckets.len() && 0 <= s < self.buckets[b].len()
                && !(#[trigger] self.buckets[b][s]).is_zero() ==> bucket_of(
                self.buckets[b][s].nf(),
                self.buckets.len() as int,
            ) == b && exists|i: int|
                0 <= i < self.index.len() && is_listed((#[trigger] self.index[i]).slots, b, s)
    }

    /// Whether the hashes of the known blocks, and no others, are remembered,
    /// each with its height.
    pub open spec fn remembered(self) -> bool {
        &&& forall|i: int|
            0 <= i < self.index.len() ==> {
                let block = #[trigger] self.index[i];
                self.heights.contains_key(block.hash@) && self.heights[block.hash@] == block.height
            }
        &&& forall|hash: Seq<u8>|
            self.heights.contains_key(hash) ==> exists|i: int|
                0 <= i < self.index.len() && (#[trigger] self.index[i]).hash@ == hash
    }
}

/// Each entry that is placed stands in the slot that is listed for it.
proof fn lemma_placed_entries<E: SlotEntry>(buckets: Seq<Seq<E>>, entries: Seq<E>, capacity: int)
    requires
        0 < buckets.len() <= u32::MAX,
        capacity <= 256,
        forall|b: int| 0 <= b < buckets.len() ==> (#[trigger] buckets[b]).len() == capacity,
        none_zero(entries),
    ensures
        placed(buckets, entries) matches Ok((after, slots)) ==> {
            &&& forall|j: int|
                0 <= j < slots.len() ==> {
                    let slot = #[trigger] slots[j];
                    slot.0 == bucket_of(entries[j].nf(), buckets.len() as int)
                        && after[slot.0 as int][slot.1 as int] == entries[j]
                }
            &&& forall|j: int, k: int|
                0 <= j < k < slots.len() ==> #[trigger] slots[j] != #[trigger] slots[k]
        },
    decreases entries.len(),
{
    if entries.len() > 0 {
        let front = entries.drop_last();
        assert forall|i: int| 0 <= i < front.len() implies !(#[trigger] front[i]).is_zero() by {
            assert(front[i] == entries[i]);
        }
        lemma_placed_entries(buckets, front, capacity);
        lemma_placed(buckets, front, capacity);
        if let Ok((before, slots)) = placed(buckets, front) {
            let entry = entries.last();
            entry.entry_laws(entry);
            let bucket = bucket_of(entry.nf(), buckets.len() as int);
            lemma_first_free(before[bucket], 0);
            if let Some(slot) = first_free(before[bucket], 0) {
                let all = slots.push((bucket as u32, slot as u8));
                assert forall|j: int| 0 <= j < slots.len() implies #[trigger] all[j]
                    != all[slots.len() as int] && all[j] == slots[j] by {
                    assert(before[slots[j].0 as int][slots[j].1 as int] == front[j]);
                    assert(!front[j].is_zero());
                }
            }
        }
    }
}

/// A block's entries are found in the table that they were inserted into.
pub proof fn law_inserted_entries_are_held<E: SlotEntry>(
    table: TableState<E>,
    buckets: int,
    capacity: int,
    height: u64,
    hash: [u8; 32],
    entries: Seq<E>,
    i: int,
)
    requires
        table.shaped(buckets, capacity),
        0 < buckets <= u32::MAX,
        capacity <= 256,
        none_zero(entries),
        0 <= i < entries.len(),
    ensures
        table.inserted(height, hash, entries) matches Ok(after) ==> after.stores(entries[i])
            && after.holds(entries[i].nf()),
{
    lemma_placed_entries(table.buckets, entries, capacity);
    lemma_placed(table.buckets, entries, capacity);
    if let Ok((after, slots)) = placed(table.buckets, entries) {
        let slot = slots[i];
        let bucket = after[slot.0 as int];
        assert(bucket[slot.1 as int] == entries[i]);
        assert(bucket.contains(entries[i]));
    }
}

/// Inserting a block keeps every entry that the table stored.
pub proof fn law_insert_keeps_entries<E: SlotEntry>(
    table: TableState<E>,
    buckets: int,
    capacity: int,
    height: u64,
    hash: [u8; 32],
    entries: Seq<E>,
    entry: E,
)
    requires
        table.shaped(buckets, capacity),
        0 < buckets <= u32::MAX,
        capacity <= 256,
        table.stores(entry),
        !entry.is_zero(),
    ensures
        table.inserted(height, hash, entries) matches Ok(after) ==> after.stores(entry),
{
    lemma_placed(table.buckets, entries, capacity);
    if let Ok((after, slots)) = placed(table.buckets, entries) {
        let b = bucket_of(entry.nf(), buckets);
        entry.entry_laws(entry);
        let s = choose|s: int| 0 <= s < table.buckets[b].len() && table.buckets[b][s] == entry;
        if is_listed(slots, b, s) {
            let j = choose|j: int|
                0 <= j < slots.len() && (#[trigger] slots[j]).0 == b && slots[j].1 == s;
            assert(table.buckets[slots[j].0 as int][slots[j].1 as int].is_zero());
        }
        assert(after[b][s] == entry);
    }
}

/// Placing entries brings no nullifier but theirs.
proof fn lemma_placed_only<E: SlotEntry>(
    buckets: Seq<Seq<E>>,
    entries: Seq<E>,
    capacity: int,
    b: int,
    s: int,
)
    requires
        0 < buckets.len() <= u32::MAX,
        capacity <= 256,
        forall|b: int| 0 <= b < buckets.len() ==> (#[trigger] buckets[b]).len() == capacity,
        0 <= b < buckets.len(),
        0 <= s < capacity,
    ensures
        placed(buckets, entries) matches Ok((after, _)) ==> after[b][s] == buckets[b][s]
            || entries.contains(after[b][s]),
    decreases entries.len(),
{
    if entries.len() > 0 {
        let front = entries.drop_last();
        lemma_placed_only(buckets, front, capacity, b, s);
        lemma_placed(buckets, front, capacity);
        if let Ok((before, _)) = placed(buckets, front) {
            let entry = entries.last();
            entry.entry_laws(entry);
            let bucket = bucket_of(entry.nf(), buckets.len() as int);
            lemma_first_free(before[bucket], 0);
            assert(entries[entries.len() - 1] == entry);
            if front.contains(before[b][s]) {
                let i = choose|i: int| 0 <= i < front.len() && front[i] == before[b][s];
                assert(entries[i] == before[b][s]);
            }
        }
    }
}

/// A nullifier that the table holds after a block was inserted was there
/// before, or the block brought it.
pub proof fn law_no_other_nullifiers<E: SlotEntry>(
    table: TableState<E>,
    buckets: int,
    capacity: int,
    height: u64,
    hash: [u8; 32],
    entries: Seq<E>,
    nf: Seq<u8>,
)
    requires
        table.shaped(buckets, capacity),
        0 < buckets <= u32::MAX,
        capacity <= 256,
        nf.len() == 32,
    ensures
        table.inserted(height, hash, entries) matches Ok(after) ==> after.holds(nf) ==> (table.holds(
            nf,
        ) || exists|i: int| 0 <= i < entries.len() && (#[trigger] entries[i]).nf() == nf),
{
    lemma_placed(table.buckets, entries, capacity);
    if let Ok(after) = table.inserted(height, hash, entries) {
        if after.holds(nf) {
            let b = bucket_of(nf, buckets);
            let bucket = after.buckets[b];
            let s = choose|s: int| 0 <= s < bucket.len() && (#[trigger] bucket[s]).nf() == nf;
            lemma_placed_only(table.buckets, entries, capacity, b, s);
            if entries.contains(bucket[s]) {
                let i = choose|i: int| 0 <= i < entries.len() && entries[i] == bucket[s];
                assert(entries[i].nf() == nf);
            } else {
                assert(table.buckets[b][s].nf() == nf);
            }
        }
    }
}

/// Rolling back a block that was just inserted at a new height, under a new
/// hash, gives the table before.
pub proof fn law_rollback_undoes_insert<E: SlotEntry>(
    table: TableState<E>,
    buckets: int,
    capacity: int,
    height: u64,
    hash: [u8; 32],
    entries: Seq<E>,
)
    requires
        table.shaped(buckets, capacity),
        0 < buckets <= u32::MAX,
        capacity <= 256,
        !knows(table.index, height),
        !table.heights.contains_key(hash@),
    ensures
        table.inserted(height, hash, entries) matches Ok(after) ==> after.has_block(hash@)
            && after.rolled_back(hash@) == table,
{
    lemma_cleared_placed(table.buckets, entries, capacity);
    lemma_placed(table.buckets, entries, capacity);
    if let Ok(after) = table.inserted(height, hash, entries) {
        let (_, slots) = placed(table.buckets, entries)->Ok_0;
        let block = IndexedBlock { height, hash, slots };
        lemma_rank_splits(table.index, height);
        lemma_with_block(table.index, block);
        let at = rank(table.index, height);
        assert(after.index == table.index.insert(at, block));
        assert(after.index[at] == block);
        lemma_rank(after.index, height, at);
        assert(after.index.remove(at) =~= table.index);
        assert(after.heights.remove(hash@) =~= table.heights);
        assert(after.rolled_back(hash@) =~= table);
    }
}

/// Where the block at `i` stands after one was added at `at`.
spec fn shifted(i: int, at: int) -> int {
    if i < at {
        i
    } else {
        i + 1
    }
}

/// A table whose blocks account for its entries stays so when a block is
/// inserted at a new height.
pub proof fn law_insert_keeps_account<E: SlotEntry>(
    table: TableState<E>,
    buckets: int,
    capacity: int,
    height: u64,
    hash: [u8; 32],
    entries: Seq<E>,
)
    requires
        table.shaped(buckets, capacity),
        table.accounted(),
        0 < buckets <= u32::MAX,
        capacity <= 256,
        none_zero(entries),
        !knows(table.index, height),
    ensures
        table.inserted(height, hash, entries) matches Ok(after) ==> after.shaped(buckets, capacity)
            && after.accounted(),
{
    lemma_placed(table.buckets, entries, capacity);
    lemma_placed_entries(table.buckets, entries, capacity);
    if let Ok(after) = table.inserted(height, hash, entries) {
        let (_, slots) = placed(table.buckets, entries)->Ok_0;
        let block = IndexedBlock { height, hash, slots };
        lemma_rank_splits(table.index, height);
        lemma_with_block(table.index, block);
        let at = rank(table.index, height);
        assert(after.index == table.index.insert(at, block));
        lemma_total_insert(table.index, at, block);
        assert forall|i: int|
            0 <= i < after.index.len() implies #[trigger] after.index[i] == block || exists|k: int|
            0 <= k < table.index.len() && i == shifted(k, at) && after.index[i]
                == #[trigger] table.index[k] by {
            if i < at {
                assert(after.index[i] == table.index[i]);
            } else if i > at {
                assert(after.index[i] == table.index[i - 1]);
            }
        }
        assert forall|i: int, j: int|
            0 <= i < table.index.len() && 0 <= j < table.index[i].slots.len() implies ({
            let slot = #[trigger] table.index[i].slots[j];
            &&& !is_listed(slots, slot.0 as int, slot.1 as int)
            &&& after.buckets[slot.0 as int][slot.1 as int]
                == table.buckets[slot.0 as int][slot.1 as int]
        }) by {
            let slot = table.index[i].slots[j];
            if is_listed(slots, slot.0 as int, slot.1 as int) {
                let k = choose|k: int|
                    0 <= k < slots.len() && (#[trigger] slots[k]).0 == slot.0 && slots[k].1
                        == slot.1;
                assert(table.buckets[slots[k].0 as int][slots[k].1 as int].is_zero());
            }
        }
        assert forall|i: int, j: int|
            0 <= i < after.index.len() && 0 <= j < after.index[i].slots.len() implies ({
            let slot = #[trigger] after.index[i].slots[j];
            &&& slot.0 < after.buckets.len()
            &&& slot.1 < after.buckets[slot.0 as int].len()
            &&& !after.buckets[slot.0 as int][slot.1 as int].is_zero()
        }) by {
            if i == at {
                assert(slots[j] == after.index[i].slots[j]);
            } else {
                let k = if i < at { i } else { i - 1 };
                assert(table.index[k].slots[j] == after.index[i].slots[j]);
            }
        }
        assert forall|i: int, j: int, k: int, l: int|
            0 <= i < after.index.len() && 0 <= j < after.index[i].slots.len() && 0 <= k
                < after.index.len() && 0 <= l < after.index[k].slots.len() && (i != k || j
                != l) implies #[trigger] after.index[i].slots[j]
            != #[trigger] after.index[k].slots[l] by {
            let i0 = if i < at { i } else { i - 1 };
            let k0 = if k < at { k } else { k - 1 };
            if i == at {
                assert(slots[j] == after.index[i].slots[j]);
            } else {
                assert(table.index[i0].slots[j] == after.index[i].slots[j]);
            }
            if k == at {
                assert(slots[l] == after.index[k].slots[l]);
            } else {
                assert(table.index[k0].slots[l] == after.index[k].slots[l]);
            }
        }
        assert forall|b: int, s: int|
            0 <= b < after.buckets.len() && 0 <= s < after.buckets[b].len()
                && !(#[trigger] after.buckets[b][s]).is_zero() implies bucket_of(
            after.buckets[b][s].nf(),
            after.buckets.len() as int,
        ) == b && exists|i: int|
            0 <= i < after.index.len() && is_listed((#[trigger] after.index[i]).slots, b, s) by {
            if is_listed(slots, b, s) {
                let j = choose|j: int|
                    0 <= j < slots.len() && (#[trigger] slots[j]).0 == b && slots[j].1 == s;
                assert(after.buckets[slots[j].0 as int][slots[j].1 as int] == entries[j]);
                assert(is_listed(after.index[at].slots, b, s));
            } else {
                assert(after.buckets[b][s] == table.buckets[b][s]);
                let i = choose|i: int|
                    0 <= i < table.index.len() && is_listed((#[trigger] table.index[i]).slots, b, s);
                assert(after.index[shifted(i, at)] == table.index[i]);
            }
        }
    }
}

/// Removing a block empties its slots, keeps the entries of all others, and
/// leaves a table whose blocks account for its entries.
pub proof fn law_removal_keeps_others<E: SlotEntry>(
    table: TableState<E>,
    buckets: int,
    capacity: int,
    at: int,
)
    requires
        table.shaped(buckets, capacity),
        table.accounted(),
        0 <= at < table.index.len(),
    ensures
        table.without(at).shaped(buckets, capacity),
        table.without(at).accounted(),
        forall|j: int|
            0 <= j < table.index[at].slots.len() ==> {
                let slot = #[trigger] table.index[at].slots[j];
                table.without(at).buckets[slot.0 as int][slot.1 as int].is_zero()
            },
        forall|i: int, j: int|
            0 <= i < table.index.len() && i != at && 0 <= j < table.index[i].slots.len() ==> {
                let slot = #[trigger] table.index[i].slots[j];
                table.without(at).buckets[slot.0 as int][slot.1 as int]
                    == table.buckets[slot.0 as int][slot.1 as int]
            },
{
    let after = table.without(at);
    let gone = table.index[at].slots;
    lemma_total_remove(table.index, at);
    assert forall|j: int| 0 <= j < gone.len() implies ({
        let slot = #[trigger] gone[j];
        after.buckets[slot.0 as int][slot.1 as int].is_zero()
    }) by {
        let slot = gone[j];
        assert(table.index[at].slots[j] == slot);
        assert(is_listed(gone, slot.0 as int, slot.1 as int));
        lemma_zero_entry(table.buckets[slot.0 as int][slot.1 as int]);
    }
    assert forall|i: int, j: int|
        0 <= i < table.index.len() && i != at && 0 <= j < table.index[i].slots.len() implies ({
        let slot = #[trigger] table.index[i].slots[j];
        after.buckets[slot.0 as int][slot.1 as int] == table.buckets[slot.0 as int][slot.1 as int]
    }) by {
        let slot = table.index[i].slots[j];
        if is_listed(gone, slot.0 as int, slot.1 as int) {
            let k = choose|k: int|
                0 <= k < gone.len() && (#[trigger] gone[k]).0 == slot.0 && gone[k].1 == slot.1;
            assert(table.index[at].slots[k] != table.index[i].slots[j]);
        }
    }
    assert forall|i: int|
        0 <= i < after.index.len() implies #[trigger] after.index[i]
        == table.index[shifted(i, at)] by {}
    assert forall|i: int, j: int|
        0 <= i < after.index.len() && 0 <= j < after.index[i].slots.len() implies ({
        let slot = #[trigger] after.index[i].slots[j];
        &&& slot.0 < after.buckets.len()
        &&& slot.1 < after.buckets[slot.0 as int].len()
        &&& !after.buckets[slot.0 as int][slot.1 as int].is_zero()
    }) by {
        assert(table.index[shifted(i, at)].slots[j] == after.index[i].slots[j]);
    }
    assert forall|i: int, j: int, k: int, l: int|
        0 <= i < after.index.len() && 0 <= j < after.index[i].slots.len() && 0 <= k
            < after.index.len() && 0 <= l < after.index[k].slots.len() && (i != k || j
            != l) implies #[trigger] after.index[i].slots[j]
        != #[trigger] after.index[k].slots[l] by {
        assert(table.index[shifted(i, at)].slots[j] == after.index[i].slots[j]);
        assert(table.index[shifted(k, at)].slots[l] == after.index[k].slots[l]);
    }
    assert forall|b: int, s: int|
        0 <= b < after.buckets.len() && 0 <= s < after.buckets[b].len()
            && !(#[trigger] after.buckets[b][s]).is_zero() implies bucket_of(
        after.buckets[b][s].nf(),
        after.buckets.len() as int,
    ) == b && exists|i: int|
        0 <= i < after.index.len() && is_listed((#[trigger] after.index[i]).slots, b, s) by {
        lemma_zero_entry(table.buckets[b][s]);
        assert(!is_listed(gone, b, s));
        assert(after.buckets[b][s] == table.buckets[b][s]);
        let i = choose|i: int|
            0 <= i < table.index.len() && is_listed((#[trigger] table.index[i]).slots, b, s);
        let k = if i < at { i } else { i - 1 };
        assert(after.index[k] == table.index[i]);
    }
}

/// An empty table has nothing to account for or to remember.
pub proof fn law_empty_table<E: SlotEntry>(buckets: int, capacity: int)
    requires
        0 <= buckets,
        0 <= capacity,
    ensures
        TableState::<E>::empty(buckets, capacity).shaped(buckets, capacity),
        TableState::<E>::empty(buckets, capacity).accounted(),
        TableState::<E>::empty(buckets, capacity).remembered(),
{
    let table = TableState::<E>::empty(buckets, capacity);
    assert forall|b: int, s: int| 0 <= b < buckets && 0 <= s < capacity implies (
    #[trigger] table.buckets[b][s]).is_zero() by {
        lemma_zero_entry(table.buckets[b][s]);
    }
}

/// A table that remembers its blocks by their hashes stays so when a block is
/// inserted at a new height, under a new hash.
pub proof fn law_insert_remembers<E: SlotEntry>(
    table: TableState<E>,
    height: u64,
    hash: [u8; 32],
    entries: Seq<E>,
)
    requires
        is_sorted(table.index),
        table.remembered(),
        !knows(table.index, height),
        !table.heights.contains_key(hash@),
    ensures
        table.inserted(height, hash, entries) matches Ok(after) ==> after.remembered(),
{
    if let Ok(after) = table.inserted(height, hash, entries) {
        let (_, slots) = placed(table.buckets, entries)->Ok_0;
        let block = IndexedBlock { height, hash, slots };
        lemma_rank_splits(table.index, height);
        let at = rank(table.index, height);
        assert(after.index == table.index.insert(at, block));
        assert(after.index[at] == block);
        assert forall|i: int| 0 <= i < after.index.len() implies ({
            let block = #[trigger] after.index[i];
            after.heights.contains_key(block.hash@) && after.heights[block.hash@] == block.height
        }) by {
            if i != at {
                let k = if i < at { i } else { i - 1 };
                assert(after.index[i] == table.index[k]);
            }
        }
        assert forall|other: Seq<u8>| after.heights.contains_key(other) implies exists|i: int|
            0 <= i < after.index.len() && (#[trigger] after.index[i]).hash@ == other by {
            if other != hash@ {
                let i = choose|i: int|
                    0 <= i < table.index.len() && (#[trigger] table.index[i]).hash@ == other;
                assert(after.index[shifted(i, at)] == table.index[i]);
            }
        }
    }
}

/// Forgetting a block together with its hash leaves a table that remembers
/// the others.
proof fn lemma_removal_remembers<E: SlotEntry>(table: TableState<E>, at: int)
    requires
        is_sorted(table.index),
        table.remembered(),
        0 <= at < table.index.len(),
    ensures
        (TableState {
            heights: table.heights.remove(table.index[at].hash@),
            ..table
        }).without(at).remembered(),
{
    let hash = table.index[at].hash@;
    let after = (TableState { heights: table.heights.remove(hash), ..table }).without(at);
    assert forall|i: int| 0 <= i < after.index.len() implies ({
        let block = #[trigger] after.index[i];
        after.heights.contains_key(block.hash@) && after.heights[block.hash@] == block.height
    }) by {
        let k = shifted(i, at);
        assert(after.index[i] == table.index[k]);
        assert(table.index[k].height != table.index[at].height);
    }
    assert forall|other: Seq<u8>| after.heights.contains_key(other) implies exists|i: int|
        0 <= i < after.index.len() && (#[trigger] after.index[i]).hash@ == other by {
        let i = choose|i: int|
            0 <= i < table.index.len() && (#[trigger] table.index[i]).hash@ == other;
        let k = if i < at { i } else { i - 1 };
        assert(after.index[k] == table.index[i]);
    }
}

/// A table that remembers its blocks finds each of them by its hash and no
/// other, and rolling one back removes it and leaves a table that remembers
/// the rest.
pub proof fn law_rollback_finds_block<E: SlotEntry>(table: TableState<E>, hash: Seq<u8>)
    requires
        is_sorted(table.index),
        table.remembered(),
    ensures
        table.has_block(hash) <==> exists|i: int|
            0 <= i < table.index.len() && (#[trigger] table.index[i]).hash@ == hash,
        table.has_block(hash) ==> table.index[rank(table.index, table.heights[hash])].hash@ == hash,
        table.rolled_back(hash).remembered(),
{
    if table.heights.contains_key(hash) {
        let i = choose|i: int|
            0 <= i < table.index.len() && (#[trigger] table.index[i]).hash@ == hash;
        let height = table.heights[hash];
        lemma_rank_splits(table.index, height);
        let at = rank(table.index, height);
        assert(table.index[i].height == height);
        assert(at <= i);
        assert(at == i) by {
            if at < i {
                assert(table.index[at].height < table.index[i].height);
            }
        }
        lemma_removal_remembers(table, at);
    } else {
        assert(table.rolled_back(hash).heights =~= table.heights);
    }
}

/// Rolling back never adds entries.
pub(crate) proof fn lemma_rolled_back_count<E: SlotEntry>(table: TableState<E>, hash: Seq<u8>)
    requires
        is_sorted(table.index),
        table.sound(),
    ensures
        table.rolled_back(hash).count <= table.count,
{
    if table.has_block(hash) {
        lemma_rank_splits(table.index, table.heights[hash]);
        lemma_total_remove(table.index, rank(table.index, table.heights[hash]));
    }
}

/// Evicting the oldest block leaves a table that remembers the rest.
pub proof fn law_eviction_remembers<E: SlotEntry>(table: TableState<E>)
    requires
        is_sorted(table.index),
        table.remembered(),
    ensures
        table.evicted().remembered(),
{
    if table.index.len() > 0 {
        lemma_removal_remembers(table, 0);
    }
}

/// Eviction to a target drops the fewest lowest blocks that bring the number
/// of entries to the target, or all blocks.
pub proof fn law_evicts_oldest_first<E: SlotEntry>(table: TableState<E>, target: int)
    requires
        table.sound(),
    ensures
        ({
            let after = table.evicted_to(target);
            let dropped = table.index.len() - after.index.len();
            &&& 0 <= dropped
            &&& after.index == table.index.skip(dropped)
            &&& after.count == table.count - total_slots(table.index.take(dropped))
            &&& after.count <= target || after.index.len() == 0
            &&& dropped > 0 ==> table.count - total_slots(table.index.take(dropped - 1)) > target
        }),
    decreases table.index.len(),
{
    let after = table.evicted_to(target);
    if table.count <= target || table.index.len() == 0 {
        assert(table.index.skip(0) =~= table.index);
        assert(table.index.take(0) =~= Seq::empty());
    } else {
        let next = table.evicted();
        lemma_total_remove(table.index, 0);
        assert(table.index.remove(0) =~= table.index.skip(1));
        assert forall|i: int, j: int|
            0 <= i < next.index.len() && 0 <= j < next.index[i].slots.len() implies ({
            let slot = #[trigger] next.index[i].slots[j];
            slot.0 < next.buckets.len() && slot.1 < next.buckets[slot.0 as int].len()
        }) by {
            assert(table.index[i + 1].slots[j] == next.index[i].slots[j]);
        }
        law_evicts_oldest_first(next, target);
        let rest = next.index.len() - after.index.len();
        assert(next.index.skip(rest) =~= table.index.skip(rest + 1));
        lemma_total_front(table.index, rest + 1);
        assert(table.index.skip(1).take(rest) =~= next.index.take(rest));
        if rest > 0 {
            lemma_total_front(table.index, rest);
            assert(table.index.skip(1).take(rest - 1) =~= next.index.take(rest - 1));
        } else {
            assert(table.index.take(0) =~= Seq::empty());
        }
    }
}

/// The first blocks list the slots of the very first and of those behind it.
proof fn lemma_total_front(index: Seq<IndexedBlock>, n: int)
    requires
        0 < n <= index.len(),
    ensures
        total_slots(index.take(n)) == index[0].slots.len() + total_slots(
            index.skip(1).take(n - 1),
        ),
{
    lemma_total_remove(index.take(n), 0);
    assert(index.take(n).remove(0) =~= index.skip(1).take(n - 1));
}

/// Every row has the same width, and the entry in each slot stands in its
/// place in the bytes of the table.
pub proof fn law_rows_hold_entries<E: SlotEntry>(
    table: TableState<E>,
    buckets: int,
    capacity: int,
    b: int,
    s: int,
)
    requires
        table.shaped(buckets, capacity),
        0 <= b < buckets,
        0 <= s < capacity,
    ensures
        ({
            let width = E::encoded_len() as int;
            let row = capacity * width;
            &&& table.rows().len() == buckets * row
            &&& 0 <= b * row && b * row + row <= table.rows().len()
            &&& table.rows().subrange(b * row, b * row + row) == row_bytes(table.buckets[b])
            &&& 0 <= s * width && s * width + width <= row
            &&& row_bytes(table.buckets[b]).subrange(s * width, s * width + width)
                == table.buckets[b][s].encoding()
            &&& table.rows().subrange(
                b * row + s * width,
                b * row + s * width + width,
            ) == table.buckets[b][s].encoding()
        }),
{
    let width = E::encoded_len();
    let row = (capacity * width) as nat;
    assert(capacity * width >= 0) by (nonlinear_arith)
        requires
            capacity >= 0,
    ;
    let rows = Seq::new(table.buckets.len(), |b: int| row_bytes(table.buckets[b]));
    assert forall|k: int| 0 <= k < rows.len() implies (#[trigger] rows[k]).len() == row by {
        lemma_row_len(table.buckets[k]);
    }
    lemma_joined_len(rows, row);
    lemma_joined_at(rows, row, b);
    let bucket = table.buckets[b];
    let parts = Seq::new(bucket.len(), |s: int| bucket[s].encoding());
    assert forall|k: int| 0 <= k < parts.len() implies (#[trigger] parts[k]).len() == width by {
        bucket[k].entry_laws(bucket[k]);
    }
    lemma_joined_at(parts, width, s);
    lemma_row_len(bucket);
    assert(table.rows().subrange(b * row + s * width, b * row + s * width + width)
        =~= table.rows().subrange(b * row, b * row + row).subrange(s * width, s * width + width));
}

proof fn lemma_row_len<E: SlotEntry>(bucket: Seq<E>)
    ensures
        row_bytes(bucket).len() == bucket.len() * E::encoded_len(),
{
    let parts = Seq::new(bucket.len(), |s: int| bucket[s].encoding());
    assert forall|k: int| 0 <= k < parts.len() implies (#[trigger] parts[k]).len()
        == E::encoded_len() by {
        bucket[k].entry_laws(bucket[k]);
    }
    lemma_joined_len(parts, E::encoded_len());
}

/// Blocks that come in order are entered in order.
pub(crate) proof fn lemma_index_of_sorted(index: Seq<IndexedBlock>)
    requires
        is_sorted(index),
    ensures
        index_of(index) == index,
    decreases index.len(),
{
    if index.len() > 0 {
        let front = index.drop_last();
        assert forall|i: int, j: int| 0 <= i < j < front.len() implies (#[trigger] front[i]).height
            < (#[trigger] front[j]).height by {
            assert(index[i].height < index[j].height);
        }
        lemma_index_of_sorted(front);
        assert forall|i: int| 0 <= i < front.len() implies (#[trigger] front[i]).height
            < index.last().height by {
            assert(index[i].height < index[index.len() - 1].height);
        }
        lemma_rank(front, index.last().height, front.len() as int);
        assert(with_block(front, index.last()) =~= index);
    } else {
        assert(index_of(index) =~= index);
    }
}

/// The heights that a table remembers are those that its blocks give.
pub(crate) proof fn lemma_remembered_heights<E: SlotEntry>(table: TableState<E>)
    requires
        is_sorted(table.index),
        table.remembered(),
    ensures
        table.heights == heights_of(table.index),
{
    lemma_heights_of(table.index);
    let given = heights_of(table.index);
    assert forall|hash: Seq<u8>| table.heights.contains_key(hash) implies given.contains_key(hash)
        && given[hash] == table.heights[hash] by {
        let i = choose|i: int|
            0 <= i < table.index.len() && (#[trigger] table.index[i]).hash@ == hash;
        assert(given.contains_key(table.index[i].hash@));
    }
    assert forall|hash: Seq<u8>| given.contains_key(hash) implies table.heights.contains_key(
        hash,
    ) by {}
    assert(table.heights =~= given);
}

proof fn lemma_heights_of(index: Seq<IndexedBlock>)
    ensures
        forall|i: int|
            0 <= i < index.len() ==> heights_of(index).contains_key(
                (#[trigger] index[i]).hash@,
            ),
        forall|hash: Seq<u8>| #[trigger]
            heights_of(index).contains_key(hash) ==> exists|i: int|
                0 <= i < index.len() && (#[trigger] index[i]).hash@ == hash
                    && heights_of(index)[hash] == index[i].height,
    decreases index.len(),
{
    if index.len() > 0 {
        let front = index.drop_last();
        lemma_heights_of(front);
        assert forall|i: int| 0 <= i < index.len() implies heights_of(index).contains_key(
            (#[trigger] index[i]).hash@,
        ) by {
            if i < front.len() {
                assert(front[i] == index[i]);
            }
        }
        assert forall|hash: Seq<u8>| #[trigger]
            heights_of(index).contains_key(hash) implies exists|i: int|
            0 <= i < index.len() && (#[trigger] index[i]).hash@ == hash && heights_of(index)[hash]
                == index[i].height by {
            if hash == index.last().hash@ {
                assert(index[index.len() - 1].hash@ == hash);
            } else {
                assert(heights_of(front).contains_key(hash));
                let i = choose|i: int|
                    0 <= i < front.len() && (#[trigger] front[i]).hash@ == hash && heights_of(
                        front,
                    )[hash] == front[i].height;
                assert(index[i] == front[i]);
            }
        }
    }
}

/// What is remembered of the hashes has no part in the account.
pub(crate) proof fn lemma_accounted_ignores_heights<E: SlotEntry>(
    table: TableState<E>,
    heights: Map<Seq<u8>, u64>,
)
    requires
        table.accounted(),
    ensures
        (TableState { heights, ..table }).accounted(),
{
    let other = TableState { heights, ..table };
    assert(other.index == table.index && other.buckets == table.buckets);
    assert forall|i: int, j: int|
        0 <= i < other.index.len() && 0 <= j < other.index[i].slots.len() implies ({
        let slot = #[trigger] other.index[i].slots[j];
        slot.0 < other.buckets.len() && slot.1 < other.buckets[slot.0 as int].len()
            && !other.buckets[slot.0 as int][slot.1 as int].is_zero()
    }) by {
        assert(table.index[i].slots[j] == other.index[i].slots[j]);
    }
}

} // verus!
