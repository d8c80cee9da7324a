//! Which slots the operations of a table fill and empty, one by one.

use crate::block_table::{
    bucket_of, first_free, heights_of, index_of, is_sorted, knows, lemma_rank, lemma_rank_bounds,
    lemma_rank_splits, lemma_with_block, lemma_zero_entry, placed, rank, with_block, IndexedBlock,
    SlotEntry, TableState,
};
use vstd::prelude::*;

verus! {

/// A nullifier belongs to the bucket that its first four bytes, the lowest
/// first, number modulo the number of buckets.
pub proof fn law_bucket_is_low_word(nf: Seq<u8>, buckets: int)
    requires
        buckets > 0,
    ensures
        bucket_of(nf, buckets) == (nf[0] + 256 * nf[1] + 65_536 * nf[2] + 16_777_216 * nf[3])
            % buckets,
        0 <= bucket_of(nf, buckets) < buckets,
{
}

proof fn lemma_lowest_free<E: SlotEntry>(bucket: Seq<E>, from: int, slot: int)
    requires
        0 <= from <= slot < bucket.len(),
        bucket[slot].is_zero(),
        forall|s: int| from <= s < slot ==> !(#[trigger] bucket[s]).is_zero(),
    ensures
        first_free(bucket, from) == Some(slot),
    decreases slot - from,
{
    if from < slot {
        lemma_lowest_free(bucket, from + 1, slot);
    }
}

proof fn lemma_none_free<E: SlotEntry>(bucket: Seq<E>, from: int)
    requires
        0 <= from,
        forall|s: int| from <= s < bucket.len() ==> !(#[trigger] bucket[s]).is_zero(),
    ensures
        first_free(bucket, from) is None,
    decreases bucket.len() - from,
{
    if from < bucket.len() {
        lemma_none_free(bucket, from + 1);
    }
}

/// Entries go, one after the other, to the lowest free slot of their bucket.
///
/// `states` holds the buckets before the first entry and after each entry, and
/// `slots` the slot that each entry takes: in the bucket that the entry's first
/// four bytes number, the lowest one that is free. Then placing the entries
/// succeeds and gives the last state and these slots.
pub proof fn law_entries_take_lowest_free_slots<E: SlotEntry>(
    states: Seq<Seq<Seq<E>>>,
    entries: Seq<E>,
    slots: Seq<(u32, u8)>,
)
    requires
        states.len() == entries.len() + 1,
        slots.len() == entries.len(),
        0 < states[0].len() <= u32::MAX,
        forall|k: int|
            0 <= k < entries.len() ==> {
                let nf = (#[trigger] entries[k]).nf();
                let b = (nf[0] + 256 * nf[1] + 65_536 * nf[2] + 16_777_216 * nf[3])
                    % states[0].len() as int;
                let s = slots[k].1 as int;
                &&& slots[k].0 == b
                &&& s < states[k][b].len()
                &&& states[k][b][s].is_zero()
                &&& forall|q: int| 0 <= q < s ==> !(#[trigger] states[k][b][q]).is_zero()
                &&& states[k + 1] == states[k].update(b, states[k][b].update(s, entries[k]))
            },
    ensures
        placed(states[0], entries) == Ok::<(Seq<Seq<E>>, Seq<(u32, u8)>), u32>(
            (states[entries.len() as int], slots),
        ),
    decreases entries.len(),
{
    if entries.len() == 0 {
        assert(slots =~= Seq::empty());
    } else {
        let n = entries.len() - 1;
        let before = entries.drop_last();
        assert forall|k: int| 0 <= k < before.len() implies ({
            let nf = (#[trigger] before[k]).nf();
            let b = (nf[0] + 256 * nf[1] + 65_536 * nf[2] + 16_777_216 * nf[3])
                % states.drop_last()[0].len() as int;
            let s = slots.drop_last()[k].1 as int;
            &&& slots.drop_last()[k].0 == b
            &&& s < states.drop_last()[k][b].len()
            &&& states.drop_last()[k][b][s].is_zero()
            &&& forall|q: int|
                0 <= q < s ==> !(#[trigger] states.drop_last()[k][b][q]).is_zero()
            &&& states.drop_last()[k + 1] == states.drop_last()[k].update(
                b,
                states.drop_last()[k][b].update(s, before[k]),
            )
        }) by {
            assert(entries[k] == before[k]);
        }
        law_entries_take_lowest_free_slots(states.drop_last(), before, slots.drop_last());
        let entry = entries[n];
        let b = bucket_of(entry.nf(), states[0].len() as int);
        law_bucket_is_low_word(entry.nf(), states[0].len() as int);
        lemma_lowest_free(states[n][b], 0, slots[n].1 as int);
        assert(slots.drop_last().push((b as u32, slots[n].1)) =~= slots);
    }
}

proof fn lemma_overflow_stays<E: SlotEntry>(buckets: Seq<Seq<E>>, entries: Seq<E>, n: int)
    requires
        0 <= n <= entries.len(),
        placed(buckets, entries.take(n)) is Err,
    ensures
        placed(buckets, entries) == placed(buckets, entries.take(n)),
    decreases entries.len(),
{
    if n < entries.len() {
        assert(entries.drop_last().take(n) =~= entries.take(n));
        lemma_overflow_stays(buckets, entries.drop_last(), n);
    } else {
        assert(entries.take(n) =~= entries);
    }
}

/// Placing entries fails only where a bucket is full, and names the bucket of
/// the first entry that finds no free slot. `states` and `slots` are those of
/// the entries before it.
pub proof fn law_full_bucket_is_named<E: SlotEntry>(
    states: Seq<Seq<Seq<E>>>,
    entries: Seq<E>,
    slots: Seq<(u32, u8)>,
)
    requires
        0 < states.len() <= entries.len(),
        slots.len() + 1 == states.len(),
        0 < states[0].len() <= u32::MAX,
        forall|k: int|
            0 <= k < slots.len() ==> {
                let nf = (#[trigger] entries[k]).nf();
                let b = (nf[0] + 256 * nf[1] + 65_536 * nf[2] + 16_777_216 * nf[3])
                    % states[0].len() as int;
                let s = slots[k].1 as int;
                &&& slots[k].0 == b
                &&& s < states[k][b].len()
                &&& states[k][b][s].is_zero()
                &&& forall|q: int| 0 <= q < s ==> !(#[trigger] states[k][b][q]).is_zero()
                &&& states[k + 1] == states[k].update(b, states[k][b].update(s, entries[k]))
            },
        ({
            let nf = entries[slots.len() as int].nf();
            let b = (nf[0] + 256 * nf[1] + 65_536 * nf[2] + 16_777_216 * nf[3])
                % states[0].len() as int;
            let bucket = states[slots.len() as int][b];
            forall|q: int| 0 <= q < bucket.len() ==> !(#[trigger] bucket[q]).is_zero()
        }),
    ensures
        ({
            let nf = entries[slots.len() as int].nf();
            let b = (nf[0] + 256 * nf[1] + 65_536 * nf[2] + 16_777_216 * nf[3])
                % states[0].len() as int;
            placed(states[0], entries) == Err::<(Seq<Seq<E>>, Seq<(u32, u8)>), u32>(b as u32)
        }),
{
    let n = slots.len() as int;
    let front = entries.take(n);
    assert forall|k: int| 0 <= k < front.len() implies ({
        let nf = (#[trigger] front[k]).nf();
        let b = (nf[0] + 256 * nf[1] + 65_536 * nf[2] + 16_777_216 * nf[3])
            % states[0].len() as int;
        let s = slots[k].1 as int;
        &&& slots[k].0 == b
        &&& s < states[k][b].len()
        &&& states[k][b][s].is_zero()
        &&& forall|q: int| 0 <= q < s ==> !(#[trigger] states[k][b][q]).is_zero()
        &&& states[k + 1] == states[k].update(b, states[k][b].update(s, front[k]))
    }) by {
        assert(front[k] == entries[k]);
    }
    law_entries_take_lowest_free_slots(states, front, slots);
    let entry = entries[n];
    let b = bucket_of(entry.nf(), states[0].len() as int);
    law_bucket_is_low_word(entry.nf(), states[0].len() as int);
    lemma_none_free(states[n][b], 0);
    assert(entries.take(n + 1).drop_last() =~= front);
    assert(entries.take(n + 1).last() == entry);
    lemma_overflow_stays(states[0], entries, n + 1);
}

/// A table that took a block has the buckets that placing its entries gives, so
/// many entries more, and the block under its height in place of any other with
/// that height. All other blocks and hashes stay, in order of height.
pub proof fn law_insert_records_block<E: SlotEntry>(
    table: TableState<E>,
    height: u64,
    hash: [u8; 32],
    entries: Seq<E>,
)
    requires
        is_sorted(table.index),
        placed(table.buckets, entries) is Ok,
    ensures
        table.inserted(height, hash, entries) is Ok,
        ({
            let after = table.inserted(height, hash, entries)->Ok_0;
            let (buckets, slots) = placed(table.buckets, entries)->Ok_0;
            &&& after.buckets == buckets
            &&& after.count == table.count + entries.len()
            &&& after.index.contains((IndexedBlock { height, hash, slots }))
            &&& forall|block: IndexedBlock|
                block.height != height ==> (#[trigger] after.index.contains(block)
                    <==> table.index.contains(block))
            &&& forall|i: int, j: int|
                0 <= i < j < after.index.len() ==> (#[trigger] after.index[i]).height < (
                #[trigger] after.index[j]).height
            &&& forall|other: Seq<u8>| #[trigger]
                after.heights.contains_key(other) <==> other == hash@
                    || table.heights.contains_key(other)
            &&& forall|other: Seq<u8>|
                after.heights.contains_key(other) ==> #[trigger] after.heights[other] == (if other
                    == hash@ {
                    height
                } else {
                    table.heights[other]
                })
        }),
{
    let after = table.inserted(height, hash, entries)->Ok_0;
    let slots = placed(table.buckets, entries)->Ok_0.1;
    let block = IndexedBlock { height, hash, slots };
    let at = rank(table.index, height);
    lemma_rank_splits(table.index, height);
    lemma_with_block(table.index, block);
    assert(after.index[at] == block);
    assert forall|other: IndexedBlock| other.height != height implies (
    #[trigger] after.index.contains(other) <==> table.index.contains(other)) by {
        if after.index.contains(other) {
            let i = choose|i: int| 0 <= i < after.index.len() && after.index[i] == other;
            let k = if knows(table.index, height) || i < at { i } else { i - 1 };
            assert(table.index[k] == other);
        }
        if table.index.contains(other) {
            let k = choose|k: int| 0 <= k < table.index.len() && table.index[k] == other;
            let i = if knows(table.index, height) || k < at { k } else { k + 1 };
            assert(after.index[i] == other);
        }
    }
}

/// A table refuses a block with the bucket that placing its entries names.
pub proof fn law_insert_refuses_full_bucket<E: SlotEntry>(
    table: TableState<E>,
    height: u64,
    hash: [u8; 32],
    entries: Seq<E>,
)
    ensures
        table.inserted(height, hash, entries) is Err <==> placed(table.buckets, entries) is Err,
        table.inserted(height, hash, entries) is Err ==> table.inserted(
            height,
            hash,
            entries,
        )->Err_0 == placed(table.buckets, entries)->Err_0,
{
}

/// Rolling back a hash that has a block removes that block alone: its slots are
/// free, all others are as before, and there are so many entries fewer.
pub proof fn law_rollback_frees_its_slots<E: SlotEntry>(
    table: TableState<E>,
    hash: Seq<u8>,
    at: int,
)
    requires
        is_sorted(table.index),
        table.heights.contains_key(hash),
        0 <= at < table.index.len(),
        table.index[at].height == table.heights[hash],
        table.index[at].slots.len() <= table.count,
    ensures
        table.has_block(hash),
        ({
            let after = table.rolled_back(hash);
            let gone = table.index[at];
            &&& after.count == table.count - gone.slots.len()
            &&& after.index.len() == table.index.len() - 1
            &&& forall|i: int| 0 <= i < at ==> #[trigger] after.index[i] == table.index[i]
            &&& forall|i: int|
                at <= i < after.index.len() ==> #[trigger] after.index[i] == table.index[i + 1]
            &&& !after.heights.contains_key(hash)
            &&& forall|other: Seq<u8>|
                other != hash ==> (#[trigger] after.heights.contains_key(other)
                    <==> table.heights.contains_key(other)) && after.heights[other]
                    == table.heights[other]
            &&& after.buckets.len() == table.buckets.len()
            &&& forall|b: int, s: int|
                0 <= b < table.buckets.len() && 0 <= s < table.buckets[b].len() ==> {
                    let freed = exists|j: int|
                        0 <= j < gone.slots.len() && (#[trigger] gone.slots[j]).0 == b
                            && gone.slots[j].1 == s;
                    if freed {
                        (#[trigger] after.buckets[b][s]).is_zero()
                    } else {
                        after.buckets[b][s] == table.buckets[b][s]
                    }
                }
        }),
{
    lemma_rank_splits(table.index, table.heights[hash]);
    lemma_rank(table.index, table.heights[hash], at);
    lemma_zero_entry(table.buckets[0][0]);
}

/// Rolling back a hash that has no block forgets the hash and changes nothing
/// else.
pub proof fn law_rollback_of_unknown_hash<E: SlotEntry>(table: TableState<E>, hash: Seq<u8>)
    requires
        !table.heights.contains_key(hash) || forall|i: int|
            0 <= i < table.index.len() ==> (#[trigger] table.index[i]).height
                != table.heights[hash],
    ensures
        !table.has_block(hash),
        table.rolled_back(hash).buckets == table.buckets,
        table.rolled_back(hash).index == table.index,
        table.rolled_back(hash).count == table.count,
        table.rolled_back(hash).heights == table.heights.remove(hash),
{
    lemma_rank_bounds(table.index, table.heights[hash]);
}

/// Eviction removes the lowest block alone: its slots are free, all others are
/// as before, there are so many entries fewer, and its hash is forgotten. A
/// table without blocks stays as it is.
pub proof fn law_eviction_frees_lowest_block<E: SlotEntry>(table: TableState<E>)
    requires
        table.index.len() > 0 ==> table.index[0].slots.len() <= table.count,
    ensures
        table.index.len() == 0 ==> table.evicted() == table,
        table.index.len() > 0 ==> {
            let after = table.evicted();
            let gone = table.index[0];
            &&& after.count == table.count - gone.slots.len()
            &&& after.index.len() == table.index.len() - 1
            &&& forall|i: int|
                0 <= i < after.index.len() ==> #[trigger] after.index[i] == table.index[i + 1]
            &&& after.heights == table.heights.remove(gone.hash@)
            &&& after.buckets.len() == table.buckets.len()
            &&& forall|b: int, s: int|
                0 <= b < table.buckets.len() && 0 <= s < table.buckets[b].len() ==> {
                    let freed = exists|j: int|
                        0 <= j < gone.slots.len() && (#[trigger] gone.slots[j]).0 == b
                            && gone.slots[j].1 == s;
                    if freed {
                        (#[trigger] after.buckets[b][s]).is_zero()
                    } else {
                        after.buckets[b][s] == table.buckets[b][s]
                    }
                }
        },
{
    lemma_zero_entry(table.buckets[0][0]);
}

/// Eviction to a target evicts one lowest block after the other, until there
/// are no more entries than the target or no more blocks. `states` holds the
/// table after each of them.
pub proof fn law_eviction_goes_on_to_target<E: SlotEntry>(
    states: Seq<TableState<E>>,
    target: int,
)
    requires
        states.len() > 0,
        forall|j: int, k: int|
            0 <= k && j == k + 1 && j < states.len() ==> #[trigger] states[j] == (
            #[trigger] states[k]).evicted(),
        forall|k: int| 0 <= k < states.len() - 1 ==> (#[trigger] states[k]).count > target,
        forall|k: int| 0 <= k < states.len() - 1 ==> (#[trigger] states[k]).index.len() > 0,
        states.last().count <= target || states.last().index.len() == 0,
    ensures
        states[0].evicted_to(target) == states.last(),
    decreases states.len(),
{
    if states.len() > 1 {
        assert(states[1] == states[0].evicted());
        let rest = states.drop_first();
        assert forall|j: int, k: int| 0 <= k && j == k + 1 && j < rest.len() implies #[trigger] rest[
            j
        ] == (#[trigger] rest[k]).evicted() by {
            assert(states[j + 1] == states[k + 1].evicted());
        }
        law_eviction_goes_on_to_target(rest, target);
    }
}

/// A table holds a nullifier if and only if some slot of the bucket that its
/// first four bytes number has it.
pub proof fn law_table_looks_in_one_bucket<E: SlotEntry>(table: TableState<E>, nf: Seq<u8>)
    requires
        table.buckets.len() > 0,
    ensures
        ({
            let b = (nf[0] + 256 * nf[1] + 65_536 * nf[2] + 16_777_216 * nf[3])
                % table.buckets.len() as int;
            table.holds(nf) <==> exists|s: int|
                0 <= s < table.buckets[b].len() && (#[trigger] table.buckets[b][s]).nf() == nf
        }),
{
    law_bucket_is_low_word(nf, table.buckets.len() as int);
    let b = bucket_of(nf, table.buckets.len() as int);
    if table.holds(nf) {
        let bucket = table.buckets[b];
        let s = choose|s: int| 0 <= s < bucket.len() && (#[trigger] bucket[s]).nf() == nf;
        assert(table.buckets[b][s].nf() == nf);
    }
}

/// Of block records with one height the last counts: a restored index has that
/// record for each height, and no other block, by increasing height.
pub proof fn law_last_record_of_a_height_counts(blocks: Seq<IndexedBlock>, block: IndexedBlock)
    ensures
        index_of(blocks).contains(block) <==> exists|i: int|
            {
                &&& 0 <= i < blocks.len()
                &&& #[trigger] blocks[i] == block
                &&& forall|k: int| i < k < blocks.len() ==> (#[trigger] blocks[k]).height
                    != block.height
            },
        is_sorted(index_of(blocks)),
    decreases blocks.len(),
{
    if blocks.len() > 0 {
        let front = blocks.drop_last();
        let last = blocks.last();
        let n = blocks.len() - 1;
        law_last_record_of_a_height_counts(front, block);
        lemma_with_block_contains(index_of(front), last, block);
        lemma_with_block(index_of(front), last);
        if index_of(blocks).contains(block) {
            if block.height == last.height {
                assert(blocks[n] == block);
            } else {
                let i = choose|i: int|
                    {
                        &&& 0 <= i < front.len()
                        &&& #[trigger] front[i] == block
                        &&& forall|k: int| i < k < front.len() ==> (#[trigger] front[k]).height
                            != block.height
                    };
                assert(blocks[i] == block);
                assert forall|k: int| i < k < blocks.len() implies (#[trigger] blocks[k]).height
                    != block.height by {
                    if k < n {
                        assert(front[k] == blocks[k]);
                    }
                }
            }
        }
        if exists|i: int|
            {
                &&& 0 <= i < blocks.len()
                &&& #[trigger] blocks[i] == block
                &&& forall|k: int| i < k < blocks.len() ==> (#[trigger] blocks[k]).height
                    != block.height
            } {
            let i = choose|i: int|
                {
                    &&& 0 <= i < blocks.len()
                    &&& #[trigger] blocks[i] == block
                    &&& forall|k: int| i < k < blocks.len() ==> (#[trigger] blocks[k]).height
                        != block.height
                };
            if i < n {
                assert(blocks[n].height != block.height);
                assert(front[i] == block);
                assert forall|k: int| i < k < front.len() implies (#[trigger] front[k]).height
                    != block.height by {
                    assert(blocks[k].height != block.height);
                }
            }
        }
    }
}

proof fn lemma_with_block_contains(
    index: Seq<IndexedBlock>,
    added: IndexedBlock,
    block: IndexedBlock,
)
    requires
        is_sorted(index),
    ensures
        with_block(index, added).contains(block) <==> if block.height == added.height {
            block == added
        } else {
            index.contains(block)
        },
{
    let after = with_block(index, added);
    let at = rank(index, added.height);
    lemma_rank_splits(index, added.height);
    lemma_with_block(index, added);
    assert(after[at] == added);
    if after.contains(block) {
        let i = choose|i: int| 0 <= i < after.len() && after[i] == block;
        if block.height == added.height {
            assert(i == at) by {
                if i < at {
                    assert(after[i].height < after[at].height);
                } else if i > at {
                    assert(after[at].height < after[i].height);
                }
            }
        } else {
            let k = if knows(index, added.height) || i < at { i } else { i - 1 };
            assert(index[k] == block);
        }
    }
    if block.height != added.height && index.contains(block) {
        let k = choose|k: int| 0 <= k < index.len() && index[k] == block;
        let i = if knows(index, added.height) || k < at { k } else { k + 1 };
        assert(after[i] == block);
    }
}

/// Of block records with one hash the last counts: its height is the one that a
/// restored table knows for the hash, at index `at`.
pub proof fn law_last_record_of_a_hash_counts(blocks: Seq<IndexedBlock>, at: int)
    requires
        0 <= at < blocks.len(),
        forall|k: int| at < k < blocks.len() ==> (#[trigger] blocks[k]).hash@ != blocks[at].hash@,
    ensures
        heights_of(blocks).contains_key(blocks[at].hash@),
        heights_of(blocks)[blocks[at].hash@] == blocks[at].height,
    decreases blocks.len(),
{
    if at < blocks.len() - 1 {
        let front = blocks.drop_last();
        assert(blocks[blocks.len() - 1].hash@ != blocks[at].hash@);
        assert forall|k: int| at < k < front.len() implies (#[trigger] front[k]).hash@
            != front[at].hash@ by {
            assert(blocks[k].hash@ != blocks[at].hash@);
        }
        law_last_record_of_a_hash_counts(front, at);
    }
}

/// A restored table knows no hash that no block record has.
pub proof fn law_no_record_no_hash(blocks: Seq<IndexedBlock>, hash: Seq<u8>)
    requires
        forall|k: int| 0 <= k < blocks.len() ==> (#[trigger] blocks[k]).hash@ != hash,
    ensures
        !heights_of(blocks).contains_key(hash),
    decreases blocks.len(),
{
    if blocks.len() > 0 {
        let front = blocks.drop_last();
        assert(blocks[blocks.len() - 1].hash@ != hash);
        assert forall|k: int| 0 <= k < front.len() implies (#[trigger] front[k]).hash@ != hash by {
            assert(blocks[k].hash@ != hash);
        }
        law_no_record_no_hash(front, hash);
    }
}

} // verus!
