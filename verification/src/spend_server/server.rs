//! The decisions of the server: where to sync from, what to backfill, and what
//! chain events do to the table.

use super::state::PirState;
use crate::block_table::{is_sorted, knows, lemma_rank_splits, rank, IndexedBlock, TableState};
use crate::chain_ingest::ranges::{min_sync_height, sync_floor};
use crate::hashtable_pir::{HashTableDb, HashTableError};
use crate::nullifier::nf_ingest::ingest::IngestError;
use crate::spend_types::{
    ChainEvent, NewBlock, OrphanedBlock, PirEngine, ServerPhase, SpendabilityMetadata, YpirScenario,
    BUCKET_CAPACITY, NUM_BUCKETS, TARGET_SIZE,
};
use crate::table_laws::{
    law_removal_keeps_others, law_rollback_finds_block, law_rollback_undoes_insert,
    lemma_accounted_ignores_heights, lemma_rolled_back_count,
};
use vstd::prelude::*;
use vstd::string::StringExecFns;

verus! {

/// Blocks per backfill step, and how far behind the tip a fresh start syncs
/// from.
pub const BACKFILL_BATCH: u64 = 50_000;

/// What can go wrong in the server.
#[derive(Debug)]
pub enum ServerError {
    Ingest(IngestError),
    HashTable(HashTableError),
    SnapshotIo(String),
    PirSetup(String),
    Io(String),
}

impl ServerError {
    /// The text of the error.
    pub open spec fn text(self) -> Seq<char> {
        match self {
            ServerError::Ingest(error) => "ingest error: "@ + error.text(),
            ServerError::HashTable(error) => "hashtable error: "@ + error.text(
                BUCKET_CAPACITY as int,
            ),
            ServerError::SnapshotIo(reason) => "snapshot io error: "@ + reason@,
            ServerError::PirSetup(reason) => "pir setup failed: "@ + reason@,
            ServerError::Io(reason) => "io error: "@ + reason@,
        }
    }

    /// The text of the error.
    pub fn message(&self) -> (message: String)
        ensures
            message@ == self.text(),
    {
        match self {
            ServerError::Ingest(error) => {
                let mut message = String::from_str("ingest error: ");
                message.append(error.message().as_str());
                message
            },
            ServerError::HashTable(error) => {
                let mut message = String::from_str("hashtable error: ");
                message.append(error.message(BUCKET_CAPACITY).as_str());
                message
            },
            ServerError::SnapshotIo(reason) => {
                let mut message = String::from_str("snapshot io error: ");
                message.append(reason.as_str());
                message
            },
            ServerError::PirSetup(reason) => {
                let mut message = String::from_str("pir setup failed: ");
                message.append(reason.as_str());
                message
            },
            ServerError::Io(reason) => {
                let mut message = String::from_str("io error: ");
                message.append(reason.as_str());
                message
            },
        }
    }
}

/// What the server reports of a table that it serves.
pub open spec fn metadata_for(table: TableState<[u8; 32]>) -> SpendabilityMetadata {
    SpendabilityMetadata {
        earliest_height: if table.index.len() == 0 {
            0
        } else {
            table.index[0].height
        },
        latest_height: if table.index.len() == 0 {
            0
        } else {
            table.index.last().height
        },
        num_nullifiers: table.count as u64,
        num_buckets: NUM_BUCKETS as u64,
        phase: ServerPhase::Serving,
    }
}

/// What the server serves after a rebuild, given what the engine made of the
/// table's bytes.
pub fn finish_rebuild<P: PirEngine>(
    setup: Result<P::ServerState, String>,
    hashtable: &HashTableDb,
) -> (state: Result<PirState<P>, ServerError>)
    ensures
        match setup {
            Ok(engine_state) => state == Ok::<PirState<P>, ServerError>(
                PirState { engine_state, metadata: metadata_for(hashtable@) },
            ),
            Err(reason) => state == Err::<PirState<P>, ServerError>(ServerError::PirSetup(reason)),
        },
{
    match setup {
        Ok(engine_state) => {
            let metadata = SpendabilityMetadata {
                earliest_height: match hashtable.earliest_height() {
                    Some(height) => height,
                    None => 0,
                },
                latest_height: match hashtable.latest_height() {
                    Some(height) => height,
                    None => 0,
                },
                num_nullifiers: hashtable.len() as u64,
                num_buckets: NUM_BUCKETS as u64,
                phase: ServerPhase::Serving,
            };
            Ok(PirState { engine_state, metadata })
        },
        Err(reason) => Err(ServerError::PirSetup(reason)),
    }
}

/// Builds what is served from a table: the engine sets up on its rows.
pub fn rebuild_pir<P: PirEngine>(
    engine: &P,
    hashtable: &HashTableDb,
    scenario: &YpirScenario,
) -> (state: Result<PirState<P>, ServerError>)
    requires
        hashtable.wf(),
    ensures
        exists|bytes: &[u8], setup: Result<P::ServerState, P::Error>|
            {
                &&& bytes@ == hashtable@.rows()
                &&& #[trigger] call_ensures(P::setup, (engine, bytes, scenario), setup)
                &&& match setup {
                    Ok(engine_state) => state == Ok::<PirState<P>, ServerError>(
                        PirState { engine_state, metadata: metadata_for(hashtable@) },
                    ),
                    Err(error) => state matches Err(ServerError::PirSetup(reason)) && call_ensures(
                        P::error_text,
                        (&error,),
                        reason,
                    ),
                }
            },
{
    let db_bytes = hashtable.to_pir_bytes();
    match engine.setup(db_bytes.as_slice(), scenario) {
        Ok(engine_state) => finish_rebuild::<P>(Ok(engine_state), hashtable),
        Err(error) => finish_rebuild::<P>(Err(P::error_text(&error)), hashtable),
    }
}

/// The first height to sync: behind the newest block of a snapshot, or so many
/// blocks behind the tip, but none below the floor.
pub fn forward_start(from_snapshot: bool, latest_height: Option<u64>, tip_height: u64) -> (start:
    u64)
    requires
        latest_height matches Some(height) ==> height < u64::MAX,
    ensures
        start == (if from_snapshot {
            match latest_height {
                Some(height) => height + 1,
                None => tip_height as int,
            }
        } else if tip_height - BACKFILL_BATCH < sync_floor(tip_height) {
            sync_floor(tip_height) as int
        } else {
            tip_height - BACKFILL_BATCH
        }),
{
    let floor: u64 = min_sync_height(tip_height);
    if from_snapshot {
        match latest_height {
            Some(height) => height + 1,
            None => tip_height,
        }
    } else if tip_height < BACKFILL_BATCH || tip_height - BACKFILL_BATCH < floor {
        floor
    } else {
        tip_height - BACKFILL_BATCH
    }
}

/// The last height of the first backfill step.
pub fn backfill_end(forward_start: u64) -> (end: u64)
    ensures
        end == (if forward_start == 0 {
            0
        } else {
            forward_start - 1
        }),
{
    if forward_start == 0 {
        0
    } else {
        forward_start - 1
    }
}

/// The first height of the backfill step that ends at `end`.
pub open spec fn backfill_start(end: u64, floor: u64) -> u64 {
    if end - (BACKFILL_BATCH - 1) < floor {
        floor
    } else {
        (end - (BACKFILL_BATCH - 1)) as u64
    }
}

/// The next backfill step that ends at `end`: none where the table has enough
/// nullifiers or no block from the floor on is left. The step after it ends
/// before its start.
pub fn backfill_range(nullifiers: usize, target_size: usize, end: u64, floor: u64) -> (range:
    Option<(u64, u64)>)
    ensures
        range == (if nullifiers < target_size && end >= floor {
            Some((backfill_start(end, floor), end))
        } else {
            None
        }),
{
    if nullifiers >= target_size || end < floor {
        None
    } else if end - floor < BACKFILL_BATCH - 1 {
        Some((floor, end))
    } else {
        Some((end - (BACKFILL_BATCH - 1), end))
    }
}

/// How many backfill steps, one before the other from `end` down, fetch a
/// height.
pub open spec fn times_backfilled(end: u64, floor: u64, height: u64) -> nat
    decreases end,
{
    if floor == 0 || end < floor {
        0
    } else {
        (if backfill_start(end, floor) <= height <= end {
            1nat
        } else {
            0nat
        }) + times_backfilled((backfill_start(end, floor) - 1) as u64, floor, height)
    }
}

/// Backfilling to the end fetches every height from the floor to `end` once
/// and no other.
pub proof fn law_backfill_covers_history(end: u64, floor: u64, height: u64)
    requires
        floor > 0,
    ensures
        times_backfilled(end, floor, height) == (if floor <= height <= end {
            1nat
        } else {
            0nat
        }),
    decreases end,
{
    if end >= floor {
        law_backfill_covers_history((backfill_start(end, floor) - 1) as u64, floor, height);
    }
}

/// The phase to report after a synced block, every thousand blocks.
pub fn sync_progress(height: u64, target_height: u64) -> (phase: Option<ServerPhase>)
    ensures
        phase == (if height % 1000 == 0 {
            Some(ServerPhase::Syncing { current_height: height, target_height })
        } else {
            None
        }),
{
    if height % 1000 == 0 {
        Some(ServerPhase::Syncing { current_height: height, target_height })
    } else {
        None
    }
}

/// The number of nullifiers of the blocks.
pub open spec fn nullifiers_in(blocks: Seq<NewBlock>) -> nat
    decreases blocks.len(),
{
    if blocks.len() == 0 {
        0
    } else {
        nullifiers_in(blocks.drop_last()) + blocks.last().nullifiers@.len()
    }
}

/// The number of nullifiers that an event brings.
pub open spec fn event_nullifiers(event: ChainEvent) -> nat {
    match event {
        ChainEvent::NewBlock { nullifiers, .. } => nullifiers@.len(),
        ChainEvent::Reorg { new_blocks, .. } => nullifiers_in(new_blocks@),
    }
}

/// The table after rolling back the orphaned blocks, from the last listed to
/// the first.
pub open spec fn without_orphans(
    table: TableState<[u8; 32]>,
    orphaned: Seq<OrphanedBlock>,
) -> TableState<[u8; 32]>
    decreases orphaned.len(),
{
    if orphaned.len() == 0 {
        table
    } else {
        without_orphans(table.rolled_back(orphaned.last().hash@), orphaned.drop_last())
    }
}

/// The table after inserting the blocks in order, up to one that overflows a
/// bucket, and that bucket.
pub open spec fn with_blocks(table: TableState<[u8; 32]>, blocks: Seq<NewBlock>) -> (
    TableState<[u8; 32]>,
    Option<u32>,
)
    decreases blocks.len(),
{
    if blocks.len() == 0 {
        (table, None)
    } else {
        let (before, overflow) = with_blocks(table, blocks.drop_last());
        let block = blocks.last();
        match overflow {
            Some(bucket) => (before, Some(bucket)),
            None => match before.inserted(block.height, block.hash, block.nullifiers@) {
                Ok(after) => (after, None),
                Err(bucket) => (before, Some(bucket)),
            },
        }
    }
}

/// The table after an event in follow mode, and the bucket that overflowed. A
/// table that overflowed is not evicted from.
pub open spec fn after_event(table: TableState<[u8; 32]>, event: ChainEvent) -> (
    TableState<[u8; 32]>,
    Option<u32>,
) {
    match event {
        ChainEvent::NewBlock { height, hash, nullifiers, .. } => match table.inserted(
            height,
            hash,
            nullifiers@,
        ) {
            Ok(after) => (after.evicted_to(TARGET_SIZE as int), None),
            Err(bucket) => (table, Some(bucket)),
        },
        ChainEvent::Reorg { orphaned, new_blocks } => match with_blocks(
            without_orphans(table, orphaned@),
            new_blocks@,
        ) {
            (after, None) => (after.evicted_to(TARGET_SIZE as int), None),
            (after, Some(bucket)) => (after, Some(bucket)),
        },
    }
}

/// Whether a result reports the overflow, and nothing else.
pub open spec fn reports(result: Result<(), ServerError>, overflow: Option<u32>) -> bool {
    match overflow {
        None => result == Ok::<(), ServerError>(()),
        Some(bucket) => result == Err::<(), ServerError>(
            ServerError::HashTable(HashTableError::BucketOverflow { bucket_idx: bucket }),
        ),
    }
}

/// Inserts a block while syncing. Reorgs are not looked at then.
pub fn apply_synced(hashtable: &mut HashTableDb, event: &ChainEvent) -> (result: Result<
    (),
    ServerError,
>)
    requires
        old(hashtable).wf(),
        old(hashtable)@.count + event_nullifiers(*event) <= usize::MAX,
    ensures
        final(hashtable).wf(),
        match *event {
            ChainEvent::NewBlock { height, hash, nullifiers, .. } => match old(
                hashtable,
            )@.inserted(height, hash, nullifiers@) {
                Ok(after) => reports(result, None) && final(hashtable)@ == after,
                Err(bucket) => reports(result, Some(bucket)) && final(hashtable)@ == old(
                    hashtable,
                )@,
            },
            ChainEvent::Reorg { .. } => reports(result, None) && final(hashtable)@ == old(
                hashtable,
            )@,
        },
{
    match event {
        ChainEvent::NewBlock { height, hash, nullifiers, .. } => {
            match hashtable.insert_block(*height, *hash, nullifiers.as_slice()) {
                Ok(_) => Ok(()),
                Err(error) => Err(ServerError::HashTable(error)),
            }
        },
        ChainEvent::Reorg { .. } => Ok(()),
    }
}

fn roll_back_orphans(hashtable: &mut HashTableDb, orphaned: &Vec<OrphanedBlock>)
    requires
        old(hashtable).wf(),
    ensures
        final(hashtable).wf(),
        final(hashtable)@ == without_orphans(old(hashtable)@, orphaned@),
        final(hashtable)@.count <= old(hashtable)@.count,
{
    let mut i: usize = orphaned.len();
    assert(orphaned@.take(i as int) =~= orphaned@);
    while i > 0
        invariant
            i <= orphaned@.len(),
            hashtable.wf(),
            hashtable@.count <= old(hashtable)@.count,
            without_orphans(hashtable@, orphaned@.take(i as int)) == without_orphans(
                old(hashtable)@,
                orphaned@,
            ),
        decreases i,
    {
        assert(orphaned@.take(i as int).drop_last() =~= orphaned@.take(i - 1));
        let hash: [u8; 32] = orphaned[i - 1].hash;
        proof {
            lemma_rolled_back_count(hashtable@, hash@);
        }
        let _ = hashtable.rollback_block(&hash);
        i -= 1;
    }
}

fn insert_blocks(hashtable: &mut HashTableDb, blocks: &Vec<NewBlock>) -> (result: Result<
    (),
    ServerError,
>)
    requires
        old(hashtable).wf(),
        old(hashtable)@.count + nullifiers_in(blocks@) <= usize::MAX,
    ensures
        final(hashtable).wf(),
        final(hashtable)@ == with_blocks(old(hashtable)@, blocks@).0,
        reports(result, with_blocks(old(hashtable)@, blocks@).1),
{
    let ghost start = hashtable@;
    let mut i: usize = 0;
    assert(blocks@.take(0) =~= Seq::empty());
    while i < blocks.len()
        invariant
            i <= blocks@.len(),
            hashtable.wf(),
            start == old(hashtable)@,
            start.count + nullifiers_in(blocks@) <= usize::MAX,
            hashtable@.count == start.count + nullifiers_in(blocks@.take(i as int)),
            with_blocks(start, blocks@.take(i as int)) == (hashtable@, None::<u32>),
        decreases blocks@.len() - i,
    {
        proof {
            assert(blocks@.take(i + 1).drop_last() =~= blocks@.take(i as int));
            lemma_nullifiers_take(blocks@, i + 1);
        }
        let block = &blocks[i];
        match hashtable.insert_block(block.height, block.hash, block.nullifiers.as_slice()) {
            Ok(_) => {},
            Err(error) => {
                proof {
                    lemma_overflow_stays(start, blocks@, i + 1);
                }
                return Err(ServerError::HashTable(error));
            },
        }
        i += 1;
    }
    assert(blocks@.take(i as int) =~= blocks@);
    Ok(())
}

proof fn lemma_nullifiers_take(blocks: Seq<NewBlock>, n: int)
    requires
        0 <= n <= blocks.len(),
    ensures
        nullifiers_in(blocks.take(n)) <= nullifiers_in(blocks),
    decreases blocks.len(),
{
    if n < blocks.len() {
        lemma_nullifiers_take(blocks.drop_last(), n);
        assert(blocks.drop_last().take(n) =~= blocks.take(n));
    } else {
        assert(blocks.take(n) =~= blocks);
    }
}

proof fn lemma_overflow_stays(table: TableState<[u8; 32]>, blocks: Seq<NewBlock>, n: int)
    requires
        0 <= n <= blocks.len(),
        with_blocks(table, blocks.take(n)).1 is Some,
    ensures
        with_blocks(table, blocks) == with_blocks(table, blocks.take(n)),
    decreases blocks.len(),
{
    if n < blocks.len() {
        assert(blocks.drop_last().take(n) =~= blocks.take(n));
        lemma_overflow_stays(table, blocks.drop_last(), n);
    } else {
        assert(blocks.take(n) =~= blocks);
    }
}

/// Takes an event of follow mode into the table: orphaned blocks are rolled
/// back, new blocks inserted, and the oldest evicted. An orphaned block that
/// the table does not have is passed over.
pub fn apply_event(hashtable: &mut HashTableDb, event: &ChainEvent) -> (result: Result<
    (),
    ServerError,
>)
    requires
        old(hashtable).wf(),
        old(hashtable)@.count + event_nullifiers(*event) <= usize::MAX,
    ensures
        final(hashtable).wf(),
        final(hashtable)@ == after_event(old(hashtable)@, *event).0,
        reports(result, after_event(old(hashtable)@, *event).1),
{
    match event {
        ChainEvent::NewBlock { height, hash, nullifiers, .. } => {
            match hashtable.insert_block(*height, *hash, nullifiers.as_slice()) {
                Ok(_) => {
                    hashtable.evict_to_target();
                    Ok(())
                },
                Err(error) => Err(ServerError::HashTable(error)),
            }
        },
        ChainEvent::Reorg { orphaned, new_blocks } => {
            roll_back_orphans(hashtable, orphaned);
            let inserted = insert_blocks(hashtable, new_blocks);
            if inserted.is_ok() {
                hashtable.evict_to_target();
            }
            inserted
        },
    }
}

/// Whether a hash is among those of the orphaned blocks.
pub open spec fn is_orphaned(orphaned: Seq<OrphanedBlock>, hash: Seq<u8>) -> bool {
    exists|k: int| 0 <= k < orphaned.len() && (#[trigger] orphaned[k]).hash@ == hash
}

/// Rolling back orphaned blocks leaves the other blocks with their entries and
/// nothing else: the blocks that stay are those that are not orphaned, they
/// still account for every entry, and their entries are what they were.
pub proof fn law_reorg_leaves_no_stale_entries(
    table: TableState<[u8; 32]>,
    orphaned: Seq<OrphanedBlock>,
)
    requires
        table.shaped(NUM_BUCKETS as int, BUCKET_CAPACITY as int),
        table.accounted(),
        table.remembered(),
    ensures
        ({
            let after = without_orphans(table, orphaned);
            &&& after.shaped(NUM_BUCKETS as int, BUCKET_CAPACITY as int)
            &&& after.accounted()
            &&& after.remembered()
            &&& forall|block: IndexedBlock| #[trigger]
                after.index.contains(block) <==> table.index.contains(block) && !is_orphaned(
                    orphaned,
                    block.hash@,
                )
            &&& forall|i: int, j: int|
                0 <= i < after.index.len() && 0 <= j < after.index[i].slots.len() ==> {
                    let slot = #[trigger] after.index[i].slots[j];
                    after.buckets[slot.0 as int][slot.1 as int]
                        == table.buckets[slot.0 as int][slot.1 as int]
                }
        }),
    decreases orphaned.len(),
{
    if orphaned.len() > 0 {
        let hash = orphaned.last().hash@;
        let front = orphaned.drop_last();
        let next = table.rolled_back(hash);
        let after = without_orphans(next, front);
        lemma_one_orphan(table, hash);
        law_reorg_leaves_no_stale_entries(next, front);
        assert forall|block: IndexedBlock| #[trigger]
            after.index.contains(block) <==> table.index.contains(block) && !is_orphaned(
                orphaned,
                block.hash@,
            ) by {
            lemma_orphans_split(orphaned, block.hash@);
            assert(next.index.contains(block) <==> table.index.contains(block) && block.hash@
                != hash);
        }
        assert forall|i: int, j: int|
            0 <= i < after.index.len() && 0 <= j < after.index[i].slots.len() implies ({
            let slot = #[trigger] after.index[i].slots[j];
            after.buckets[slot.0 as int][slot.1 as int]
                == table.buckets[slot.0 as int][slot.1 as int]
        }) by {
            let block = after.index[i];
            assert(after.index.contains(block));
            assert(next.index.contains(block));
            let k = choose|k: int| 0 <= k < next.index.len() && next.index[k] == block;
            assert(next.index[k].slots[j] == block.slots[j]);
        }
    }
}

/// A hash is among those of the orphaned blocks where it is that of the last
/// one or among those of the others.
proof fn lemma_orphans_split(orphaned: Seq<OrphanedBlock>, hash: Seq<u8>)
    requires
        orphaned.len() > 0,
    ensures
        is_orphaned(orphaned, hash) <==> hash == orphaned.last().hash@ || is_orphaned(
            orphaned.drop_last(),
            hash,
        ),
{
    let front = orphaned.drop_last();
    assert(orphaned[orphaned.len() - 1].hash@ == orphaned.last().hash@);
    if is_orphaned(front, hash) {
        let k = choose|k: int| 0 <= k < front.len() && (#[trigger] front[k]).hash@ == hash;
        assert(orphaned[k] == front[k]);
    }
    if is_orphaned(orphaned, hash) && hash != orphaned.last().hash@ {
        let k = choose|k: int| 0 <= k < orphaned.len() && (#[trigger] orphaned[k]).hash@ == hash;
        assert(front[k] == orphaned[k]);
    }
}

/// Rolling back one hash removes the block that has it, if there is one, and
/// leaves the entries of the others.
proof fn lemma_one_orphan(table: TableState<[u8; 32]>, hash: Seq<u8>)
    requires
        table.shaped(NUM_BUCKETS as int, BUCKET_CAPACITY as int),
        table.accounted(),
        table.remembered(),
    ensures
        ({
            let next = table.rolled_back(hash);
            &&& next.shaped(NUM_BUCKETS as int, BUCKET_CAPACITY as int)
            &&& next.accounted()
            &&& next.remembered()
            &&& forall|block: IndexedBlock| #[trigger]
                next.index.contains(block) <==> table.index.contains(block) && block.hash@ != hash
            &&& forall|i: int, j: int|
                0 <= i < next.index.len() && 0 <= j < next.index[i].slots.len() ==> {
                    let slot = #[trigger] next.index[i].slots[j];
                    next.buckets[slot.0 as int][slot.1 as int]
                        == table.buckets[slot.0 as int][slot.1 as int]
                }
        }),
{
    let next = table.rolled_back(hash);
    law_rollback_finds_block(table, hash);
    if table.has_block(hash) {
        let at = rank(table.index, table.heights[hash]);
        lemma_rank_splits(table.index, table.heights[hash]);
        law_removal_keeps_others(table, NUM_BUCKETS as int, BUCKET_CAPACITY as int, at);
        assert(next == (TableState { heights: table.heights.remove(hash), ..table.without(at) }));
        assert(next.accounted()) by {
            lemma_accounted_ignores_heights(table.without(at), table.heights.remove(hash));
        }
        assert forall|block: IndexedBlock| #[trigger]
            next.index.contains(block) <==> table.index.contains(block) && block.hash@ != hash by {
            lemma_removed_block(table, at, block);
        }
        assert forall|i: int, j: int|
            0 <= i < next.index.len() && 0 <= j < next.index[i].slots.len() implies ({
            let slot = #[trigger] next.index[i].slots[j];
            next.buckets[slot.0 as int][slot.1 as int]
                == table.buckets[slot.0 as int][slot.1 as int]
        }) by {
            let from = if i < at { i } else { i + 1 };
            assert(table.index[from] == next.index[i]);
            assert(table.index[from].slots[j] == next.index[i].slots[j]);
        }
    } else {
        assert(next.heights =~= table.heights);
        assert(next == table);
        assert forall|block: IndexedBlock| #[trigger]
            table.index.contains(block) implies block.hash@ != hash by {
            let k = choose|k: int| 0 <= k < table.index.len() && table.index[k] == block;
            assert(table.index[k].hash@ == block.hash@);
        }
    }
}

/// In a table that remembers its blocks, a block stays when another is
/// removed, and only then.
proof fn lemma_removed_block(table: TableState<[u8; 32]>, at: int, block: IndexedBlock)
    requires
        is_sorted(table.index),
        table.remembered(),
        0 <= at < table.index.len(),
    ensures
        table.index.remove(at).contains(block) <==> table.index.contains(block) && block.hash@
            != table.index[at].hash@,
{
    let rest = table.index.remove(at);
    if rest.contains(block) {
        let k = choose|k: int| 0 <= k < rest.len() && rest[k] == block;
        let from = if k < at { k } else { k + 1 };
        assert(table.index[from] == block);
        assert(table.index[from].height != table.index[at].height);
    }
    if table.index.contains(block) && block.hash@ != table.index[at].hash@ {
        let k = choose|k: int| 0 <= k < table.index.len() && table.index[k] == block;
        let to = if k < at { k } else { k - 1 };
        assert(rest[to] == block);
    }
}

/// A reorg that replaces the newest block gives what inserting the replacement
/// alone would have given.
pub proof fn law_reorg_replaces_block(
    table: TableState<[u8; 32]>,
    replaced: NewBlock,
    orphaned: Vec<OrphanedBlock>,
    new_blocks: Vec<NewBlock>,
)
    requires
        table.shaped(NUM_BUCKETS as int, BUCKET_CAPACITY as int),
        !knows(table.index, replaced.height),
        !table.heights.contains_key(replaced.hash@),
        orphaned@.len() == 1,
        orphaned@[0].hash == replaced.hash,
        new_blocks@.len() == 1,
    ensures
        ({
            let new = new_blocks@[0];
            table.inserted(replaced.height, replaced.hash, replaced.nullifiers@) matches Ok(
                before,
            ) ==> after_event(before, ChainEvent::Reorg { orphaned, new_blocks }) == after_event(
                table,
                ChainEvent::NewBlock {
                    height: new.height,
                    hash: new.hash,
                    prev_hash: new.prev_hash,
                    nullifiers: new.nullifiers,
                },
            )
        }),
{
    law_rollback_undoes_insert(
        table,
        NUM_BUCKETS as int,
        BUCKET_CAPACITY as int,
        replaced.height,
        replaced.hash,
        replaced.nullifiers@,
    );
    if let Ok(before) = table.inserted(replaced.height, replaced.hash, replaced.nullifiers@) {
        assert(orphaned@.drop_last() =~= Seq::empty());
        assert(new_blocks@.drop_last() =~= Seq::empty());
        reveal_with_fuel(without_orphans, 2);
        reveal_with_fuel(with_blocks, 2);
    }
}

} // verus!
