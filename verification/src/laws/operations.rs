//! What the operations on tables, trees, stores and trackers do, and how one
//! call follows another. Each law speaks of any values that the calls may leave
//! and return.

use crate::block_table::{
    bucket_of, knows, lemma_placed, lemma_rank_bounds, lemma_total_take, lemma_zero_entry,
    total_slots, SlotEntry, TableState,
};
use crate::bytes::zeros;
use crate::chain_ingest::chain_tracker::{ChainAction, ChainTracker};
use crate::chain_ingest::tracker_laws::{
    law_reorg_keeps_up_to_the_fork, law_truncation_stops_at_newest_kept,
};
use crate::hashtable_pir::{HashTableDb as BareTable, HashTableError};
use crate::laws::table_slots::{
    law_eviction_frees_lowest_block, law_rollback_frees_its_slots, law_rollback_of_unknown_hash,
};
use crate::nullifier::hashtable_pir::{entries_of, HashTableDb as MetaTable};
use crate::nullifier::spend_types::NullifierWithMeta;
use crate::table_laws::{
    law_evicts_oldest_first, law_insert_keeps_entries, law_inserted_entries_are_held,
    law_no_other_nullifiers, law_rollback_undoes_insert, none_zero,
};
use crate::witness::commitment_tree_db::CommitmentTreeDb;
use crate::witness::decryption_db::DecryptionDb;
use crate::witness::decryption_types::DecryptionLeaf;
use crate::witness::store_laws::{
    law_append_puts_leaves_behind, law_rollback_keeps_low_blocks,
    law_store_append_puts_leaves_behind, law_store_rollback_keeps_low_blocks,
};
use crate::witness::witness_types::BroadcastData;
use vstd::prelude::*;

verus! {

proof fn lemma_held_after_insert<E: SlotEntry>(
    table: TableState<E>,
    buckets: int,
    capacity: int,
    height: u64,
    hash: [u8; 32],
    entries: Seq<E>,
    nf: Seq<u8>,
)
    requires
        table.shaped(buckets, capacity),
        0 < buckets <= u32::MAX,
        0 <= capacity <= 256,
        none_zero(entries),
        nf.len() == 32,
        nf != zeros(32),
        table.inserted(height, hash, entries) is Ok,
    ensures
        table.inserted(height, hash, entries)->Ok_0.holds(nf) <==> table.holds(nf) || exists|i: int|
            0 <= i < entries.len() && (#[trigger] entries[i]).nf() == nf,
{
    law_no_other_nullifiers(table, buckets, capacity, height, hash, entries, nf);
    let after = table.inserted(height, hash, entries)->Ok_0;
    if table.holds(nf) {
        let bucket = table.buckets[bucket_of(nf, buckets)];
        let s = choose|s: int| 0 <= s < bucket.len() && (#[trigger] bucket[s]).nf() == nf;
        let entry = bucket[s];
        entry.entry_laws(entry);
        assert(bucket.contains(entry));
        law_insert_keeps_entries(table, buckets, capacity, height, hash, entries, entry);
        let kept = after.buckets[bucket_of(nf, buckets)];
        lemma_placed(table.buckets, entries, capacity);
        let t = choose|t: int| 0 <= t < kept.len() && kept[t] == entry;
        assert(kept[t].nf() == nf);
    }
    if exists|i: int| 0 <= i < entries.len() && (#[trigger] entries[i]).nf() == nf {
        let i = choose|i: int| 0 <= i < entries.len() && (#[trigger] entries[i]).nf() == nf;
        law_inserted_entries_are_held(table, buckets, capacity, height, hash, entries, i);
    }
}

/// After a block went into a table of bare nullifiers, the table holds what it
/// held and what the block brought, and nothing else. Where a bucket overflows,
/// the table is what it was.
pub proof fn law_bare_insert_brings_its_nullifiers(
    db: &mut BareTable,
    height: u64,
    hash: [u8; 32],
    nullifiers: &[[u8; 32]],
    result: Result<(), HashTableError>,
    nf: [u8; 32],
    before: bool,
    after: bool,
)
    requires
        old(db).shaped(),
        call_ensures(BareTable::insert_block, (db, height, hash, nullifiers), result),
        call_ensures(BareTable::contains, (&*old(db), &nf), before),
        call_ensures(BareTable::contains, (&*final(db), &nf), after),
        nf@ != zeros(32),
        forall|i: int| 0 <= i < nullifiers@.len() ==> (#[trigger] nullifiers@[i])@ != zeros(32),
    ensures
        result is Ok ==> (after <==> before || exists|i: int|
            0 <= i < nullifiers@.len() && (#[trigger] nullifiers@[i])@ == nf@),
        result is Ok ==> final(db)@.count == old(db)@.count + nullifiers@.len(),
        result is Err ==> final(db)@ == old(db)@ && (after <==> before),
{
    let table = old(db)@;
    if result is Ok {
        lemma_held_after_insert(table, 131_072, 16, height, hash, nullifiers@, nf@);
        if exists|i: int| 0 <= i < nullifiers@.len() && (#[trigger] nullifiers@[i]).nf() == nf@ {
            let i = choose|i: int|
                0 <= i < nullifiers@.len() && (#[trigger] nullifiers@[i]).nf() == nf@;
            assert(nullifiers@[i]@ == nf@);
        }
        if exists|i: int| 0 <= i < nullifiers@.len() && (#[trigger] nullifiers@[i])@ == nf@ {
            let i = choose|i: int|
                0 <= i < nullifiers@.len() && (#[trigger] nullifiers@[i])@ == nf@;
            assert(nullifiers@[i].nf() == nf@);
        }
    }
}

/// After a block went into a table of nullifiers with spend metadata, the table
/// holds what it held and what the block brought, and nothing else. Where a
/// bucket overflows, the table is what it was.
pub proof fn law_insert_brings_its_nullifiers(
    db: &mut MetaTable,
    height: u64,
    hash: [u8; 32],
    nullifiers: &[NullifierWithMeta],
    result: Result<(), HashTableError>,
    nf: [u8; 32],
    before: bool,
    after: bool,
)
    requires
        old(db).shaped(),
        call_ensures(MetaTable::insert_block, (db, height, hash, nullifiers), result),
        call_ensures(MetaTable::contains, (&*old(db), &nf), before),
        call_ensures(MetaTable::contains, (&*final(db), &nf), after),
        nf@ != zeros(32),
        forall|i: int|
            0 <= i < nullifiers@.len() ==> (#[trigger] nullifiers@[i]).nullifier@ != zeros(32),
    ensures
        result is Ok ==> (after <==> before || exists|i: int|
            0 <= i < nullifiers@.len() && (#[trigger] nullifiers@[i]).nullifier@ == nf@),
        result is Ok ==> final(db)@.count == old(db)@.count + nullifiers@.len(),
        result is Err ==> final(db)@ == old(db)@ && (after <==> before),
{
    let table = old(db)@;
    let entries = entries_of(height, nullifiers@);
    if result is Ok {
        lemma_held_after_insert(table, 16_384, 112, height, hash, entries, nf@);
        if exists|i: int| 0 <= i < entries.len() && (#[trigger] entries[i]).nf() == nf@ {
            let i = choose|i: int| 0 <= i < entries.len() && (#[trigger] entries[i]).nf() == nf@;
            assert(nullifiers@[i].nullifier@ == nf@);
        }
        if exists|i: int| 0 <= i < nullifiers@.len() && (#[trigger] nullifiers@[i]).nullifier@
            == nf@ {
            let i = choose|i: int|
                0 <= i < nullifiers@.len() && (#[trigger] nullifiers@[i]).nullifier@ == nf@;
            assert(entries[i].nf() == nf@);
        }
    }
}

/// Rolling back the block that was inserted last, at a new height and under a
/// new hash, gives the table before it.
pub proof fn law_bare_rollback_undoes_insert(
    db: &mut BareTable,
    height: u64,
    hash: [u8; 32],
    nullifiers: &[[u8; 32]],
    inserted: Result<(), HashTableError>,
    later: &mut BareTable,
    rolled_back: Result<(), HashTableError>,
)
    requires
        old(db).wf(),
        call_ensures(BareTable::insert_block, (db, height, hash, nullifiers), inserted),
        inserted is Ok,
        *old(later) == *final(db),
        call_ensures(BareTable::rollback_block, (later, &hash), rolled_back),
        forall|i: int| 0 <= i < old(db)@.index.len() ==> (#[trigger] old(db)@.index[i]).height
            != height,
        !old(db)@.heights.contains_key(hash@),
    ensures
        rolled_back is Ok,
        final(later)@ == old(db)@,
{
    lemma_rank_bounds(old(db)@.index, height);
    assert(!knows(old(db)@.index, height));
    law_rollback_undoes_insert(old(db)@, 131_072, 16, height, hash, nullifiers@);
}

/// Rolling back the block that was inserted last, at a new height and under a
/// new hash, gives the table before it.
pub proof fn law_rollback_undoes_last_insert(
    db: &mut MetaTable,
    height: u64,
    hash: [u8; 32],
    nullifiers: &[NullifierWithMeta],
    inserted: Result<(), HashTableError>,
    later: &mut MetaTable,
    rolled_back: Result<(), HashTableError>,
)
    requires
        old(db).wf(),
        call_ensures(MetaTable::insert_block, (db, height, hash, nullifiers), inserted),
        inserted is Ok,
        *old(later) == *final(db),
        call_ensures(MetaTable::rollback_block, (later, &hash), rolled_back),
        forall|i: int| 0 <= i < old(db)@.index.len() ==> (#[trigger] old(db)@.index[i]).height
            != height,
        !old(db)@.heights.contains_key(hash@),
    ensures
        rolled_back is Ok,
        final(later)@ == old(db)@,
{
    lemma_rank_bounds(old(db)@.index, height);
    assert(!knows(old(db)@.index, height));
    let entries = entries_of(height, nullifiers@);
    law_rollback_undoes_insert(old(db)@, 16_384, 112, height, hash, entries);
}

/// Evicting the oldest block takes the lowest block with its entries, and tells
/// its height.
pub proof fn law_bare_eviction_takes_the_lowest(db: &mut BareTable, height: Option<u64>)
    requires
        old(db).wf(),
        call_ensures(BareTable::evict_oldest_block, (db,), height),
    ensures
        old(db)@.index.len() == 0 ==> height is None && final(db)@ == old(db)@,
        old(db)@.index.len() > 0 ==> {
            let gone = old(db)@.index[0];
            &&& height == Some(gone.height)
            &&& final(db)@.index.len() == old(db)@.index.len() - 1
            &&& forall|i: int|
                0 <= i < final(db)@.index.len() ==> #[trigger] final(db)@.index[i] == old(
                    db,
                )@.index[i + 1]
            &&& final(db)@.count == old(db)@.count - gone.slots.len()
        },
{
    if old(db)@.index.len() > 0 {
        lemma_lowest_counts(old(db)@);
    }
    law_eviction_frees_lowest_block(old(db)@);
}

/// Evicting the oldest block takes the lowest block with its entries, and tells
/// its height.
pub proof fn law_eviction_takes_the_lowest(db: &mut MetaTable, height: Option<u64>)
    requires
        old(db).wf(),
        call_ensures(MetaTable::evict_oldest_block, (db,), height),
    ensures
        old(db)@.index.len() == 0 ==> height is None && final(db)@ == old(db)@,
        old(db)@.index.len() > 0 ==> {
            let gone = old(db)@.index[0];
            &&& height == Some(gone.height)
            &&& final(db)@.index.len() == old(db)@.index.len() - 1
            &&& forall|i: int|
                0 <= i < final(db)@.index.len() ==> #[trigger] final(db)@.index[i] == old(
                    db,
                )@.index[i + 1]
            &&& final(db)@.count == old(db)@.count - gone.slots.len()
        },
{
    if old(db)@.index.len() > 0 {
        lemma_lowest_counts(old(db)@);
    }
    law_eviction_frees_lowest_block(old(db)@);
}

proof fn lemma_lowest_counts<E: SlotEntry>(table: TableState<E>)
    requires
        table.sound(),
        table.index.len() > 0,
    ensures
        table.index[0].slots.len() <= table.count,
{
    lemma_total_take(table.index, 1);
    assert(table.index.take(1).drop_last() =~= Seq::empty());
    assert(total_slots(table.index.take(1).drop_last()) == 0);
}

/// Evicting to the target drops lowest blocks alone, until there are at most a
/// million entries or no blocks, and none where there are no more entries.
pub proof fn law_bare_eviction_reaches_the_target(db: &mut BareTable)
    requires
        old(db).wf(),
        call_ensures(BareTable::evict_to_target, (db,), ()),
    ensures
        final(db)@.count <= 1_000_000 || final(db)@.index.len() == 0,
        old(db)@.count <= 1_000_000 ==> final(db)@ == old(db)@,
        ({
            let dropped = old(db)@.index.len() - final(db)@.index.len();
            &&& 0 <= dropped
            &&& forall|i: int|
                0 <= i < final(db)@.index.len() ==> #[trigger] final(db)@.index[i] == old(
                    db,
                )@.index[i + dropped]
        }),
{
    law_evicts_oldest_first(old(db)@, 1_000_000);
}

/// Evicting to the target drops lowest blocks alone, until there are at most a
/// million entries or no blocks, and none where there are no more entries.
pub proof fn law_eviction_reaches_the_target(db: &mut MetaTable)
    requires
        old(db).wf(),
        call_ensures(MetaTable::evict_to_target, (db,), ()),
    ensures
        final(db)@.count <= 1_000_000 || final(db)@.index.len() == 0,
        old(db)@.count <= 1_000_000 ==> final(db)@ == old(db)@,
        ({
            let dropped = old(db)@.index.len() - final(db)@.index.len();
            &&& 0 <= dropped
            &&& forall|i: int|
                0 <= i < final(db)@.index.len() ==> #[trigger] final(db)@.index[i] == old(
                    db,
                )@.index[i + dropped]
        }),
{
    law_evicts_oldest_first(old(db)@, 1_000_000);
}

/// A tracker that takes a block right above its tip keeps its newest blocks and
/// puts the block behind them; where there are then more than allowed, only the
/// oldest one leaves.
pub proof fn law_tracker_grows_by_one(
    tracker: &mut ChainTracker,
    height: u64,
    hash: [u8; 32],
    parent: [u8; 32],
    action: ChainAction,
)
    requires
        call_ensures(ChainTracker::push_block, (tracker, height, hash, parent), action),
        old(tracker)@.len() == 0 || (old(tracker)@[old(tracker)@.len() - 1].1 == parent && height
            == old(tracker)@[old(tracker)@.len() - 1].0 + 1),
    ensures
        action == ChainAction::Extend,
        final(tracker).depth() == old(tracker).depth(),
        ({
            let before = old(tracker)@;
            let after = final(tracker)@;
            let gone: int = if before.len() > 0 && before.len() + 1 > old(tracker).depth() {
                1
            } else {
                0
            };
            &&& after.len() == before.len() + 1 - gone
            &&& after.len() > 0 ==> after[after.len() - 1] == (height, hash)
            &&& forall|k: int| gone <= k < before.len() ==> after[k - gone] == #[trigger] before[k]
        }),
{
}

/// A tracker that takes any other block drops the blocks above the fork point,
/// reports it, and puts the block behind the rest. `at` is the index of the
/// newest block with the parent's hash, or -1, and `kept` is the number of
/// blocks up to the newest one that is not above its height, or above zero.
pub proof fn law_tracker_drops_the_fork(
    tracker: &mut ChainTracker,
    height: u64,
    hash: [u8; 32],
    parent: [u8; 32],
    action: ChainAction,
    at: int,
    kept: int,
)
    requires
        call_ensures(ChainTracker::push_block, (tracker, height, hash, parent), action),
        old(tracker)@.len() > 0,
        old(tracker)@[old(tracker)@.len() - 1].1 != parent || height
            != old(tracker)@[old(tracker)@.len() - 1].0 + 1,
        -1 <= at < old(tracker)@.len(),
        at >= 0 ==> old(tracker)@[at].1 == parent,
        forall|k: int| at < k < old(tracker)@.len() ==> (#[trigger] old(tracker)@[k]).1 != parent,
        0 <= kept <= old(tracker)@.len(),
        ({
            let fork = if at >= 0 {
                old(tracker)@[at].0
            } else {
                0
            };
            &&& kept > 0 ==> old(tracker)@[kept - 1].0 <= fork
            &&& forall|k: int|
                kept <= k < old(tracker)@.len() ==> (#[trigger] old(tracker)@[k]).0 > fork
        }),
    ensures
        action == (ChainAction::Reorg {
            rollback_to: if at >= 0 {
                old(tracker)@[at].0
            } else {
                0
            },
        }),
        final(tracker)@.len() == kept + 1,
        forall|k: int|
            0 <= k < kept ==> final(tracker)@[k] == #[trigger] old(tracker)@[k],
        final(tracker)@[kept] == (height, hash),
        final(tracker).depth() == old(tracker).depth(),
{
    law_reorg_keeps_up_to_the_fork(
        old(tracker)@,
        old(tracker).depth(),
        height,
        hash,
        parent,
        at,
        kept,
    );
}

/// Truncating a tracker keeps its blocks up to the newest one that is not above
/// the height.
pub proof fn law_tracker_truncates(tracker: &mut ChainTracker, height: u64, kept: int)
    requires
        call_ensures(ChainTracker::truncate_to, (tracker, height), ()),
        0 <= kept <= old(tracker)@.len(),
        kept > 0 ==> old(tracker)@[kept - 1].0 <= height,
        forall|k: int|
            kept <= k < old(tracker)@.len() ==> (#[trigger] old(tracker)@[k]).0 > height,
    ensures
        final(tracker)@.len() == kept,
        forall|k: int|
            0 <= k < kept ==> final(tracker)@[k] == #[trigger] old(tracker)@[k],
        final(tracker).depth() == old(tracker).depth(),
{
    law_truncation_stops_at_newest_kept(old(tracker)@, height, kept);
}

/// Appending a block to a tree puts its commitments behind the leaves, in order,
/// under one record.
pub proof fn law_tree_takes_a_block(
    tree: &mut CommitmentTreeDb,
    height: u64,
    hash: [u8; 32],
    commitments: &[[u8; 32]],
)
    requires
        old(tree).shaped(),
        commitments@.len() <= u32::MAX,
        call_ensures(
            CommitmentTreeDb::append_commitments,
            (tree, height, hash, commitments),
            (),
        ),
    ensures
        final(tree)@.leaves == old(tree)@.leaves + commitments@,
        final(tree)@.leaf_offset == old(tree)@.leaf_offset,
        final(tree)@.prefetched_shard_roots == old(tree)@.prefetched_shard_roots,
        final(tree)@.blocks.len() == old(tree)@.blocks.len() + 1,
        forall|i: int|
            0 <= i < old(tree)@.blocks.len() ==> final(tree)@.blocks[i]
                == #[trigger] old(tree)@.blocks[i],
        final(tree)@.blocks[old(tree)@.blocks.len() as int].height == height,
        final(tree)@.blocks[old(tree)@.blocks.len() as int].hash == hash,
        final(tree)@.blocks[old(tree)@.blocks.len() as int].num_commitments == commitments@.len(),
        old(tree).wf() ==> final(tree).wf(),
{
    law_append_puts_leaves_behind(old(tree)@, height, hash, commitments@);
}

/// Rolling a tree back keeps the blocks up to the newest one that is not above
/// the target, with their leaves. `ends` holds the running sums of the blocks'
/// commitments.
pub proof fn law_tree_rolls_back(
    tree: &mut CommitmentTreeDb,
    target_height: u64,
    kept: int,
    ends: Seq<int>,
)
    requires
        old(tree).shaped(),
        call_ensures(CommitmentTreeDb::rollback_to, (tree, target_height), ()),
        ends.len() > old(tree)@.blocks.len(),
        ends[0] == 0,
        forall|k: int|
            0 <= k < old(tree)@.blocks.len() ==> ends[k + 1] == ends[k] + (
            #[trigger] old(tree)@.blocks[k]).num_commitments,
        ends[old(tree)@.blocks.len() as int] == old(tree)@.leaves.len(),
        0 <= kept <= old(tree)@.blocks.len(),
        kept > 0 ==> old(tree)@.blocks[kept - 1].height <= target_height,
        forall|k: int|
            kept <= k < old(tree)@.blocks.len() ==> (#[trigger] old(tree)@.blocks[k]).height
                > target_height,
    ensures
        final(tree)@.blocks.len() == kept,
        forall|i: int|
            0 <= i < kept ==> final(tree)@.blocks[i] == #[trigger] old(tree)@.blocks[i],
        final(tree)@.leaves.len() == ends[kept],
        forall|i: int|
            0 <= i < ends[kept] ==> final(tree)@.leaves[i] == #[trigger] old(tree)@.leaves[i],
        final(tree)@.leaf_offset == old(tree)@.leaf_offset,
        final(tree)@.prefetched_shard_roots == old(tree)@.prefetched_shard_roots,
        old(tree).wf() ==> final(tree).wf(),
{
    law_rollback_keeps_low_blocks(old(tree)@, target_height, kept, ends);
}

/// The database and the broadcast of a tree are those of its leaves, however
/// they are asked for, and making them changes neither leaves nor blocks.
pub proof fn law_tree_builds_its_database(
    tree: &mut CommitmentTreeDb,
    db: Vec<u8>,
    other: &mut CommitmentTreeDb,
    anchor_height: u64,
    broadcast: BroadcastData,
    third: &mut CommitmentTreeDb,
    both: (Vec<u8>, BroadcastData),
)
    requires
        old(tree).wf(),
        *old(other) == *old(tree),
        *old(third) == *old(tree),
        call_ensures(CommitmentTreeDb::build_pir_db, (tree,), db),
        call_ensures(CommitmentTreeDb::broadcast_data, (other, anchor_height), broadcast),
        call_ensures(CommitmentTreeDb::build_pir_db_and_broadcast, (third, anchor_height), both),
    ensures
        db@ == old(tree)@.pir_db(),
        both.0@ == db@,
        old(tree)@.broadcasts(broadcast, anchor_height),
        old(tree)@.broadcasts(both.1, anchor_height),
        final(tree)@.leaves == old(tree)@.leaves,
        final(tree)@.blocks == old(tree)@.blocks,
        final(third)@.leaves == old(tree)@.leaves,
        final(third)@.blocks == old(tree)@.blocks,
        final(third)@.leaf_offset == old(tree)@.leaf_offset,
        final(third)@.prefetched_shard_roots == old(tree)@.prefetched_shard_roots,
{
}

/// Appending a block to a store puts its leaves behind the stored ones, in
/// order, under one record.
pub proof fn law_store_takes_a_block(
    db: &mut DecryptionDb,
    height: u64,
    hash: [u8; 32],
    leaves: &[DecryptionLeaf],
)
    requires
        old(db).wf(),
        leaves@.len() <= u32::MAX,
        call_ensures(DecryptionDb::append_leaves, (db, height, hash, leaves), ()),
    ensures
        final(db)@.leaves == old(db)@.leaves + leaves@,
        final(db)@.leaf_offset == old(db)@.leaf_offset,
        final(db)@.blocks.len() == old(db)@.blocks.len() + 1,
        forall|i: int|
            0 <= i < old(db)@.blocks.len() ==> final(db)@.blocks[i]
                == #[trigger] old(db)@.blocks[i],
        final(db)@.blocks[old(db)@.blocks.len() as int].height == height,
        final(db)@.blocks[old(db)@.blocks.len() as int].hash == hash,
        final(db)@.blocks[old(db)@.blocks.len() as int].num_leaves == leaves@.len(),
{
    law_store_append_puts_leaves_behind(old(db)@, height, hash, leaves@);
}

/// Rolling a store back keeps the blocks up to the newest one that is not above
/// the target, with their leaves. `ends` holds the running sums of the blocks'
/// leaves.
pub proof fn law_store_rolls_back(
    db: &mut DecryptionDb,
    target_height: u64,
    kept: int,
    ends: Seq<int>,
)
    requires
        old(db).wf(),
        call_ensures(DecryptionDb::rollback_to, (db, target_height), ()),
        ends.len() > old(db)@.blocks.len(),
        ends[0] == 0,
        forall|k: int|
            0 <= k < old(db)@.blocks.len() ==> ends[k + 1] == ends[k] + (
            #[trigger] old(db)@.blocks[k]).num_leaves,
        ends[old(db)@.blocks.len() as int] == old(db)@.leaves.len(),
        0 <= kept <= old(db)@.blocks.len(),
        kept > 0 ==> old(db)@.blocks[kept - 1].height <= target_height,
        forall|k: int|
            kept <= k < old(db)@.blocks.len() ==> (#[trigger] old(db)@.blocks[k]).height
                > target_height,
    ensures
        final(db)@.blocks.len() == kept,
        forall|i: int|
            0 <= i < kept ==> final(db)@.blocks[i] == #[trigger] old(db)@.blocks[i],
        final(db)@.leaves.len() == ends[kept],
        forall|i: int|
            0 <= i < ends[kept] ==> final(db)@.leaves[i] == #[trigger] old(db)@.leaves[i],
        final(db)@.leaf_offset == old(db)@.leaf_offset,
{
    law_store_rollback_keeps_low_blocks(old(db)@, target_height, kept, ends);
}

/// The database of a store is that of its leaves.
pub proof fn law_store_builds_its_database(db: DecryptionDb, bytes: Vec<u8>)
    requires
        call_ensures(DecryptionDb::build_pir_db, (&db,), bytes),
    ensures
        bytes@ == db@.pir_db(),
{
}

/// Rolling back a hash takes the block at the height that is known for it, at
/// index `at`: its slots are free, and all other blocks and slots are as they
/// were. Where there is no such block and `at` is -1, it fails and changes
/// neither blocks nor slots.
pub proof fn law_bare_rollback_takes_one_block(
    db: &mut BareTable,
    hash: [u8; 32],
    result: Result<(), HashTableError>,
    at: int,
)
    requires
        old(db).wf(),
        call_ensures(BareTable::rollback_block, (db, &hash), result),
        -1 <= at < old(db)@.index.len(),
        at >= 0 ==> old(db)@.heights.contains_key(hash@) && old(db)@.index[at].height == old(
            db,
        )@.heights[hash@],
        at < 0 ==> !old(db)@.heights.contains_key(hash@) || forall|i: int|
            0 <= i < old(db)@.index.len() ==> (#[trigger] old(db)@.index[i]).height != old(
                db,
            )@.heights[hash@],
    ensures
        result is Ok <==> at >= 0,
        result is Err ==> result->Err_0 == HashTableError::BlockNotFound,
        at < 0 ==> final(db)@.buckets == old(db)@.buckets && final(db)@.index == old(db)@.index
            && final(db)@.count == old(db)@.count,
        at >= 0 ==> {
            let gone = old(db)@.index[at];
            &&& final(db)@.count == old(db)@.count - gone.slots.len()
            &&& final(db)@.index.len() == old(db)@.index.len() - 1
            &&& forall|i: int|
                0 <= i < at ==> #[trigger] final(db)@.index[i] == old(db)@.index[i]
            &&& forall|i: int|
                at <= i < final(db)@.index.len() ==> #[trigger] final(db)@.index[i] == old(
                    db,
                )@.index[i + 1]
            &&& forall|b: int, s: int|
                0 <= b < 131_072 && 0 <= s < 16 ==> {
                    let freed = exists|j: int|
                        0 <= j < gone.slots.len() && (#[trigger] gone.slots[j]).0 == b
                            && gone.slots[j].1 == s;
                    if freed {
                        (#[trigger] final(db)@.buckets[b][s]).is_zero()
                    } else {
                        final(db)@.buckets[b][s] == old(db)@.buckets[b][s]
                    }
                }
        },
{
    if at >= 0 {
        lemma_block_counts(old(db)@, at);
        law_rollback_frees_its_slots(old(db)@, hash@, at);
    } else {
        law_rollback_of_unknown_hash(old(db)@, hash@);
    }
}

/// Rolling back a hash takes the block at the height that is known for it, at
/// index `at`: its slots are free, and all other blocks and slots are as they
/// were. Where there is no such block and `at` is -1, it fails and changes
/// neither blocks nor slots.
pub proof fn law_rollback_takes_one_block(
    db: &mut MetaTable,
    hash: [u8; 32],
    result: Result<(), HashTableError>,
    at: int,
)
    requires
        old(db).wf(),
        call_ensures(MetaTable::rollback_block, (db, &hash), result),
        -1 <= at < old(db)@.index.len(),
        at >= 0 ==> old(db)@.heights.contains_key(hash@) && old(db)@.index[at].height == old(
            db,
        )@.heights[hash@],
        at < 0 ==> !old(db)@.heights.contains_key(hash@) || forall|i: int|
            0 <= i < old(db)@.index.len() ==> (#[trigger] old(db)@.index[i]).height != old(
                db,
            )@.heights[hash@],
    ensures
        result is Ok <==> at >= 0,
        result is Err ==> result->Err_0 == HashTableError::BlockNotFound,
        at < 0 ==> final(db)@.buckets == old(db)@.buckets && final(db)@.index == old(db)@.index
            && final(db)@.count == old(db)@.count,
        at >= 0 ==> {
            let gone = old(db)@.index[at];
            &&& final(db)@.count == old(db)@.count - gone.slots.len()
            &&& final(db)@.index.len() == old(db)@.index.len() - 1
            &&& forall|i: int|
                0 <= i < at ==> #[trigger] final(db)@.index[i] == old(db)@.index[i]
            &&& forall|i: int|
                at <= i < final(db)@.index.len() ==> #[trigger] final(db)@.index[i] == old(
                    db,
                )@.index[i + 1]
            &&& forall|b: int, s: int|
                0 <= b < 16_384 && 0 <= s < 112 ==> {
                    let freed = exists|j: int|
                        0 <= j < gone.slots.len() && (#[trigger] gone.slots[j]).0 == b
                            && gone.slots[j].1 == s;
                    if freed {
                        (#[trigger] final(db)@.buckets[b][s]).is_zero()
                    } else {
                        final(db)@.buckets[b][s] == old(db)@.buckets[b][s]
                    }
                }
        },
{
    if at >= 0 {
        lemma_block_counts(old(db)@, at);
        law_rollback_frees_its_slots(old(db)@, hash@, at);
    } else {
        law_rollback_of_unknown_hash(old(db)@, hash@);
    }
}

proof fn lemma_block_counts<E: SlotEntry>(table: TableState<E>, at: int)
    requires
        table.sound(),
        0 <= at < table.index.len(),
    ensures
        table.index[at].slots.len() <= table.count,
{
    lemma_total_take(table.index, at + 1);
    assert(table.index.take(at + 1).last() == table.index[at]);
}

/// A new tracker tracks nothing, or the tip that it is given; it tells its
/// newest block and how many there are.
pub proof fn law_tracker_tells_its_tip(
    max_depth: usize,
    fresh: ChainTracker,
    height: u64,
    hash: [u8; 32],
    started: ChainTracker,
    any: ChainTracker,
    tip: Option<(u64, [u8; 32])>,
    len: usize,
    empty: bool,
)
    requires
        call_ensures(ChainTracker::new, (max_depth,), fresh),
        call_ensures(ChainTracker::with_tip, (height, hash, max_depth), started),
        call_ensures(ChainTracker::tip, (&any,), tip),
        call_ensures(ChainTracker::len, (&any,), len),
        call_ensures(ChainTracker::is_empty, (&any,), empty),
    ensures
        fresh@.len() == 0,
        fresh.depth() == max_depth,
        started@.len() == 1,
        started@[0] == (height, hash),
        started.depth() == max_depth,
        len == any@.len(),
        empty <==> any@.len() == 0,
        tip is Some <==> any@.len() > 0,
        tip is Some ==> tip->Some_0 == any@[any@.len() - 1],
{
}

/// A new tree or store is empty and starts at its offset, with the roots that it
/// is given.
pub proof fn law_new_stores_are_empty(
    leaf_offset: u64,
    roots: Vec<[u8; 32]>,
    tree: CommitmentTreeDb,
    full: CommitmentTreeDb,
    db: DecryptionDb,
    full_db: DecryptionDb,
)
    requires
        leaf_offset as int % 65_536 == 0,
        call_ensures(CommitmentTreeDb::with_offset, (leaf_offset, roots), tree),
        call_ensures(CommitmentTreeDb::new, (), full),
        call_ensures(DecryptionDb::with_offset, (leaf_offset,), db),
        call_ensures(DecryptionDb::new, (), full_db),
    ensures
        tree@.leaves.len() == 0 && tree@.blocks.len() == 0,
        tree@.leaf_offset == leaf_offset,
        tree@.prefetched_shard_roots == roots@,
        forall|slot: int|
            0 <= slot < 8_192 ==> (#[trigger] tree@.ss_root_cache[slot]) is None,
        full@.leaves.len() == 0 && full@.blocks.len() == 0 && full@.leaf_offset == 0,
        full@.prefetched_shard_roots.len() == 0,
        db@.leaves.len() == 0 && db@.blocks.len() == 0 && db@.leaf_offset == leaf_offset,
        full_db@.leaves.len() == 0 && full_db@.blocks.len() == 0 && full_db@.leaf_offset == 0,
{
}

/// A new table has all slots free and knows no block.
pub proof fn law_new_tables_are_empty(bare: BareTable, meta: MetaTable, b: int, s: int)
    requires
        call_ensures(BareTable::new, (), bare),
        call_ensures(MetaTable::new, (), meta),
    ensures
        bare@.count == 0 && bare@.index.len() == 0 && bare@.buckets.len() == 131_072,
        0 <= b < 131_072 && 0 <= s < 16 ==> bare@.buckets[b].len() == 16
            && bare@.buckets[b][s].is_zero(),
        meta@.count == 0 && meta@.index.len() == 0 && meta@.buckets.len() == 16_384,
        0 <= b < 16_384 && 0 <= s < 112 ==> meta@.buckets[b].len() == 112
            && meta@.buckets[b][s].is_zero(),
{
    lemma_zero_entry(bare@.buckets[b][s]);
    lemma_zero_entry(meta@.buckets[b][s]);
}

} // verus!
