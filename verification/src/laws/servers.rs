//! What servers set up, answer and report. Each law speaks of any values that
//! the calls may return.

use crate::bytes::lemma_padded_hash;
use crate::chain_ingest::proto::{orchard_tree_size, CompactBlock};
use crate::chain_ingest::ranges::min_sync_height;
use crate::combined_server::CombinedFollower;
use crate::hashtable_pir::HashTableDb as BareTable;
use crate::laws::encoding::law_bytes_denote_digits;
use crate::nullifier::hashtable_pir::HashTableDb as MetaTable;
use crate::nullifier::nf_ingest::block_laws::lemma_actions_add_up;
use crate::nullifier::nf_ingest::ingest as spend_ingest;
use crate::nullifier::nf_ingest::parser::{
    block_spends, can_extract_with_meta, positions_fit, size_before,
};
use crate::nullifier::spend_server as meta_server;
use crate::nullifier::spend_types::{ChainEvent as SpendEvent, SpendMetadata};
use crate::pir_types::{PirEngine, YpirScenario};
use crate::query::{reply_for, QueryReply};
use crate::snapshot_clock::SnapshotClock;
use crate::spend_server::following::bare_event;
use crate::spend_server::pir_stub as bare_stub;
use crate::spend_server::schedule::{stepped, SyncSchedule, SyncStep};
use crate::spend_server::state as bare_state;
use crate::spend_types::ChainEvent as BareEvent;
use crate::witness::commitment_ingest::ingest as tree_ingest;
use crate::witness::commitment_ingest::parser::block_commitments;
use crate::witness::commitment_tree_db::CommitmentTreeDb;
use crate::witness::decryption_db::DecryptionDb;
use crate::witness::decryption_server::pir_stub as store_stub;
use crate::witness::decryption_server::state as store_state;
use crate::witness::sinsemilla::{
    hash_combine, is_canonical, is_valid_node, sinsemilla_combine,
};
use crate::witness::witness_server::pir_stub as tree_stub;
use crate::witness::witness_server::server::{bootstrap_window, ServerError, WindowPlan};
use crate::witness::witness_server::state as tree_state;
use crate::witness::witness_server::window_laws::law_bootstrap_holds_the_spillover;
use crate::witness::witness_types::{decompose_position, PirWitness, WitnessChainEvent};
use vstd::prelude::*;

verus! {

/// The geometry of the four databases: rows, and bits to a row.
pub proof fn law_scenarios(
    bare: YpirScenario,
    meta: YpirScenario,
    tree: YpirScenario,
    store: YpirScenario,
)
    requires
        call_ensures(bare_state::scenario, (), bare),
        call_ensures(meta_server::scenario, (), meta),
        call_ensures(tree_state::scenario, (), tree),
        call_ensures(store_state::scenario, (), store),
    ensures
        bare.num_items == 131_072 && bare.item_size_bits == 16 * 32 * 8,
        meta.num_items == 16_384 && meta.item_size_bits == 112 * 41 * 8,
        tree.num_items == 8_192 && tree.item_size_bits == 256 * 32 * 8,
        store.num_items == 8_192 && store.item_size_bits == 256 * 116 * 8,
{
}

/// A stub engine that was set up on the rows of a nullifier table answers the
/// number of a row, in four bytes with the lowest first, with that row.
pub proof fn law_bare_stub_answers_rows(
    engine: bare_stub::StubPirEngine,
    db: &[u8],
    scenario: YpirScenario,
    setup: Result<bare_stub::StubServerState, bare_stub::StubPirError>,
    query: &[u8],
    answer: Result<Vec<u8>, bare_stub::StubPirError>,
    index: int,
    k: int,
)
    requires
        call_ensures(bare_stub::StubPirEngine::setup, (&engine, db, &scenario), setup),
        setup is Ok ==> call_ensures(
            bare_stub::StubPirEngine::answer_query,
            (&engine, &setup->Ok_0, query),
            answer,
        ),
        query@.len() >= 4,
        index == query@[0] + 256 * query@[1] + 65_536 * query@[2] + 16_777_216 * query@[3],
        0 <= k < 512,
    ensures
        setup is Ok,
        answer is Ok <==> index < scenario.num_items && (index + 1) * 512 <= db@.len(),
        answer is Ok ==> answer->Ok_0@.len() == 512,
        answer is Ok ==> answer->Ok_0@[k] == db@[index * 512 + k],
{
}

/// A stub engine that was set up on the rows of a tree answers the number of a
/// row, in four bytes with the lowest first, with that row.
pub proof fn law_tree_stub_answers_rows(
    engine: tree_stub::StubPirEngine,
    db: &[u8],
    scenario: YpirScenario,
    setup: Result<tree_stub::StubServerState, tree_stub::StubPirError>,
    query: &[u8],
    answer: Result<Vec<u8>, tree_stub::StubPirError>,
    index: int,
    k: int,
)
    requires
        call_ensures(tree_stub::StubPirEngine::setup, (&engine, db, &scenario), setup),
        setup is Ok ==> call_ensures(
            tree_stub::StubPirEngine::answer_query,
            (&engine, &setup->Ok_0, query),
            answer,
        ),
        query@.len() >= 4,
        index == query@[0] + 256 * query@[1] + 65_536 * query@[2] + 16_777_216 * query@[3],
        0 <= k < 8_192,
    ensures
        setup is Ok,
        answer is Ok <==> index < scenario.num_items && (index + 1) * 8_192 <= db@.len(),
        answer is Ok ==> answer->Ok_0@.len() == 8_192,
        answer is Ok ==> answer->Ok_0@[k] == db@[index * 8_192 + k],
{
}

/// A stub engine that was set up on the rows of a decryption store answers the
/// number of a row, in four bytes with the lowest first, with that row.
pub proof fn law_store_stub_answers_rows(
    engine: store_stub::StubPirEngine,
    db: &[u8],
    scenario: YpirScenario,
    setup: Result<store_stub::StubServerState, store_stub::StubPirError>,
    query: &[u8],
    answer: Result<Vec<u8>, store_stub::StubPirError>,
    index: int,
    k: int,
)
    requires
        call_ensures(store_stub::StubPirEngine::setup, (&engine, db, &scenario), setup),
        setup is Ok ==> call_ensures(
            store_stub::StubPirEngine::answer_query,
            (&engine, &setup->Ok_0, query),
            answer,
        ),
        query@.len() >= 4,
        index == query@[0] + 256 * query@[1] + 65_536 * query@[2] + 16_777_216 * query@[3],
        0 <= k < 29_696,
    ensures
        setup is Ok,
        answer is Ok <==> index < scenario.num_items && (index + 1) * 29_696 <= db@.len(),
        answer is Ok ==> answer->Ok_0@.len() == 29_696,
        answer is Ok ==> answer->Ok_0@[k] == db@[index * 29_696 + k],
{
}

/// A query is answered with what the engine answers, fails with the engine's
/// reason, and finds no service where nothing is served.
pub proof fn law_reply_is_the_engines(
    answer: Option<Result<Vec<u8>, String>>,
    reply: QueryReply,
)
    requires
        call_ensures(reply_for, (answer,), reply),
    ensures
        reply is Unavailable <==> answer is None,
        reply is Answered <==> answer is Some && answer->Some_0 is Ok,
        reply is Answered ==> reply->Answered_0 == answer->Some_0->Ok_0,
        reply is Failed ==> reply->Failed_0 == answer->Some_0->Err_0,
{
}

/// A position splits into the digits of its shard, sub-shard and leaf.
pub proof fn law_position_splits(position: u64, parts: (u32, u8, u8))
    requires
        call_ensures(decompose_position, (position,), parts),
        position < 0x1_0000_0000_0000,
    ensures
        parts.0 * 65_536 + parts.1 * 256 + parts.2 == position,
{
}

/// What can be hashed are 32 bytes whose number, with the lowest byte first, is
/// below the order of the field. `values` holds the numbers that ever longer
/// ends of the bytes denote.
pub proof fn law_nodes_are_field_elements(node: Seq<u8>, values: Seq<int>)
    requires
        values.len() == node.len() + 1,
        values[node.len() as int] == 0,
        forall|i: int|
            0 <= i < node.len() ==> values[i] == #[trigger] node[i] + 256 * values[i + 1],
    ensures
        is_canonical(node) <==> node.len() == 32 && values[0]
            < 0x40000000000000000000000000000000224698fc094cf91b992d30ed00000001int,
{
    law_bytes_denote_digits(node, values);
}

/// The tree size that a block gives is the Orchard size of its metadata, where
/// that is there and not zero.
pub proof fn law_block_gives_orchard_size(block: CompactBlock, size: Option<u32>)
    requires
        call_ensures(orchard_tree_size, (&block,), size),
    ensures
        size is Some <==> block.chain_metadata is Some
            && block.chain_metadata->Some_0.orchard_commitment_tree_size > 0,
        size is Some ==> size->Some_0 == block.chain_metadata->Some_0.orchard_commitment_tree_size,
{
}

/// Positions can be given if and only if the actions of a block can be counted
/// and all of them fit behind the tree size before the block. `starts` holds the
/// number of actions of all transactions before each.
pub proof fn law_positions_fit_where_they_can_be_counted(
    block: CompactBlock,
    prior_tree_size: Option<u32>,
    fit: bool,
    starts: Seq<int>,
)
    requires
        call_ensures(can_extract_with_meta, (&block, prior_tree_size), fit),
        starts.len() == block.vtx@.len() + 1,
        starts[0] == 0,
        forall|t: int|
            0 <= t < block.vtx@.len() ==> starts[t + 1] == starts[t] + (
            #[trigger] block.vtx@[t]).actions@.len(),
    ensures
        fit == positions_fit(block, prior_tree_size),
        ({
            let size = block.chain_metadata->Some_0.orchard_commitment_tree_size;
            let own = block.chain_metadata is Some && size > 0 && size >= starts.last();
            fit <==> starts.last() <= u32::MAX && (own || prior_tree_size is None
                || prior_tree_size->Some_0 + starts.last() <= u32::MAX)
        }),
{
    lemma_actions_add_up(block.vtx@, starts);
}

/// While syncing, every block is reported as new, with its nullifiers, and gives
/// the tree size after it.
pub proof fn law_synced_spends_tell_the_block(
    block: CompactBlock,
    prior_tree_size: Option<u32>,
    result: (SpendEvent, Option<u32>),
    hash: [u8; 32],
    parent: [u8; 32],
)
    requires
        call_ensures(spend_ingest::sync_block, (&block, prior_tree_size), result),
        forall|k: int|
            0 <= k < 32 ==> #[trigger] hash@[k] == (if k < block.hash@.len() {
                block.hash@[k]
            } else {
                0u8
            }),
        forall|k: int|
            0 <= k < 32 ==> #[trigger] parent@[k] == (if k < block.prev_hash@.len() {
                block.prev_hash@[k]
            } else {
                0u8
            }),
    ensures
        result.0 is NewBlock,
        result.0->NewBlock_height == block.height,
        result.0->NewBlock_hash == hash,
        result.0->NewBlock_prev_hash == parent,
        result.0->NewBlock_nullifiers@ == block_spends(
            block.vtx@,
            size_before(block, prior_tree_size),
        ),
        result.1 is Some <==> block.chain_metadata is Some
            && block.chain_metadata->Some_0.orchard_commitment_tree_size > 0,
        result.1 is Some ==> result.1->Some_0
            == block.chain_metadata->Some_0.orchard_commitment_tree_size,
{
    lemma_padded_hash(block.hash@, hash);
    lemma_padded_hash(block.prev_hash@, parent);
}

/// While syncing, every block is reported as new, with its commitments and the
/// tree size before it, and gives the tree size after it.
pub proof fn law_synced_commitments_tell_the_block(
    block: CompactBlock,
    prior_tree_size: Option<u32>,
    result: (WitnessChainEvent, Option<u32>),
    hash: [u8; 32],
    parent: [u8; 32],
)
    requires
        call_ensures(tree_ingest::sync_block, (&block, prior_tree_size), result),
        forall|k: int|
            0 <= k < 32 ==> #[trigger] hash@[k] == (if k < block.hash@.len() {
                block.hash@[k]
            } else {
                0u8
            }),
        forall|k: int|
            0 <= k < 32 ==> #[trigger] parent@[k] == (if k < block.prev_hash@.len() {
                block.prev_hash@[k]
            } else {
                0u8
            }),
    ensures
        result.0 is NewBlock,
        result.0->height == block.height,
        result.0->hash == hash,
        result.0->prev_hash == parent,
        result.0->commitments@ == block_commitments(block),
        result.0->prior_tree_size == prior_tree_size,
        result.1 is Some ==> result.1->Some_0
            == block.chain_metadata->Some_0.orchard_commitment_tree_size,
        result.1 is None ==> block.chain_metadata is None
            || block.chain_metadata->Some_0.orchard_commitment_tree_size == 0,
{
    lemma_padded_hash(block.hash@, hash);
    lemma_padded_hash(block.prev_hash@, parent);
}

/// Dropping the metadata of an event keeps everything else: heights, hashes,
/// orphaned blocks, and each nullifier in its place.
pub proof fn law_bare_event_keeps_the_nullifiers(event: SpendEvent, bare: BareEvent, i: int, j: int)
    requires
        call_ensures(bare_event, (event,), bare),
    ensures
        event is NewBlock <==> bare is NewBlock,
        event is NewBlock ==> {
            &&& bare->NewBlock_height == event->NewBlock_height
            &&& bare->NewBlock_hash == event->NewBlock_hash
            &&& bare->NewBlock_prev_hash == event->NewBlock_prev_hash
            &&& bare->NewBlock_nullifiers@.len() == event->NewBlock_nullifiers@.len()
            &&& 0 <= i < event->NewBlock_nullifiers@.len() ==> bare->NewBlock_nullifiers@[i]
                == event->NewBlock_nullifiers@[i].nullifier
        },
        event is Reorg ==> {
            &&& bare->orphaned@ == event->orphaned@
            &&& bare->new_blocks@.len() == event->new_blocks@.len()
            &&& 0 <= j < event->new_blocks@.len() ==> {
                let kept = bare->new_blocks@[j];
                let block = event->new_blocks@[j];
                &&& kept.height == block.height
                &&& kept.hash == block.hash
                &&& kept.prev_hash == block.prev_hash
                &&& kept.nullifiers@.len() == block.nullifiers@.len()
                &&& 0 <= i < block.nullifiers@.len() ==> kept.nullifiers@[i]
                    == block.nullifiers@[i].nullifier
            }
        },
{
}

/// A bootstrap without the completing block fails with the height that is
/// missing. With it, the tree starts at the offset of the plan with its roots,
/// holds the last commitments of the block that lie in the window, and syncing
/// goes on behind the block with the number of leaves.
pub proof fn law_bootstrap_starts_the_window(
    plan: WindowPlan,
    completing_block: Option<&CompactBlock>,
    result: Result<(CommitmentTreeDb, u64, Option<u32>), ServerError>,
    count: int,
)
    requires
        call_ensures(bootstrap_window, (plan, completing_block), result),
        plan.completing_block_height < u64::MAX,
        completing_block is Some ==> {
            let block = completing_block->Some_0;
            let all = block_commitments(*block);
            let size = block.chain_metadata->Some_0.orchard_commitment_tree_size as int;
            &&& block.chain_metadata is Some
            &&& all.len() <= u32::MAX
            &&& count == (if size <= plan.leaf_offset {
                0
            } else if all.len() <= size - plan.leaf_offset {
                all.len() as int
            } else {
                size - plan.leaf_offset
            })
        },
        plan.leaf_offset + count <= u32::MAX,
    ensures
        completing_block is None ==> result is Err && result->Err_0
            == (ServerError::MissingCompletingBlock { height: plan.completing_block_height }),
        completing_block is Some ==> {
            let all = block_commitments(*completing_block->Some_0);
            let (db, sync_from, size) = result->Ok_0;
            &&& result is Ok
            &&& db@.leaf_offset == plan.leaf_offset
            &&& db@.prefetched_shard_roots == plan.prefetched@
            &&& db@.leaves.len() == count
            &&& forall|i: int|
                0 <= i < count ==> #[trigger] db@.leaves[i] == all[all.len() - count + i]
            &&& sync_from == plan.completing_block_height + 1
            &&& size == Some((plan.leaf_offset + count) as u32)
        },
{
    if completing_block is Some {
        law_bootstrap_holds_the_spillover(
            plan.leaf_offset,
            plan.prefetched@,
            plan.completing_block_height,
            *completing_block->Some_0,
        );
    }
}

/// What a tree tells of itself: its size, the newest of its blocks, its window
/// of at most 32 shards and the number of all shards.
pub proof fn law_tree_tells_of_itself(
    tree: CommitmentTreeDb,
    size: u64,
    height: Option<u64>,
    hash: Option<[u8; 32]>,
    start: u32,
    count: u32,
    populated: u32,
    shards: int,
)
    requires
        tree.shaped(),
        tree@.in_capacity(),
        call_ensures(CommitmentTreeDb::tree_size, (&tree,), size),
        call_ensures(CommitmentTreeDb::latest_height, (&tree,), height),
        call_ensures(CommitmentTreeDb::latest_block_hash, (&tree,), hash),
        call_ensures(CommitmentTreeDb::window_start_shard, (&tree,), start),
        call_ensures(CommitmentTreeDb::window_shard_count, (&tree,), count),
        call_ensures(CommitmentTreeDb::populated_shards, (&tree,), populated),
        0 <= shards,
        shards * 65_536 >= tree@.leaf_offset + tree@.leaves.len(),
        (shards - 1) * 65_536 < tree@.leaf_offset + tree@.leaves.len(),
    ensures
        size == tree@.leaf_offset + tree@.leaves.len(),
        tree@.blocks.len() == 0 ==> height is None && hash is None,
        tree@.blocks.len() > 0 ==> height == Some(tree@.blocks[tree@.blocks.len() - 1].height)
            && hash == Some(tree@.blocks[tree@.blocks.len() - 1].hash),
        populated == shards,
        start + count == shards,
        start == (if shards - tree@.leaf_offset as int / 65_536 > 32 {
            shards - 32
        } else {
            tree@.leaf_offset as int / 65_536
        }),
{
    tree.lemma_shaped();
}

/// What a store tells of itself: its size, the newest of its blocks, its window
/// of at most 32 shards and the number of all shards.
pub proof fn law_store_tells_of_itself(
    db: DecryptionDb,
    size: u64,
    height: Option<u64>,
    hash: Option<[u8; 32]>,
    start: u32,
    count: u32,
    populated: u32,
    shards: int,
)
    requires
        db.wf(),
        db@.in_capacity(),
        db@.leaves.len() > 0,
        call_ensures(DecryptionDb::tree_size, (&db,), size),
        call_ensures(DecryptionDb::latest_height, (&db,), height),
        call_ensures(DecryptionDb::latest_block_hash, (&db,), hash),
        call_ensures(DecryptionDb::window_start_shard, (&db,), start),
        call_ensures(DecryptionDb::window_shard_count, (&db,), count),
        call_ensures(DecryptionDb::populated_shards, (&db,), populated),
        0 <= shards,
        shards * 65_536 >= db@.leaf_offset + db@.leaves.len(),
        (shards - 1) * 65_536 < db@.leaf_offset + db@.leaves.len(),
    ensures
        size == db@.leaf_offset + db@.leaves.len(),
        db@.blocks.len() == 0 ==> height is None && hash is None,
        db@.blocks.len() > 0 ==> height == Some(db@.blocks[db@.blocks.len() - 1].height) && hash
            == Some(db@.blocks[db@.blocks.len() - 1].hash),
        populated == shards,
        start + count == shards,
        start == (if shards - db@.leaf_offset as int / 65_536 > 32 {
            shards - 32
        } else {
            db@.leaf_offset as int / 65_536
        }),
{
}

/// What the tables tell of themselves: the numbers of their entries and blocks,
/// and the hash of the highest block.
pub proof fn law_tables_tell_of_themselves(
    bare: BareTable,
    bare_len: usize,
    bare_blocks: usize,
    bare_hash: Option<[u8; 32]>,
    meta: MetaTable,
    meta_len: usize,
    meta_blocks: usize,
    meta_hash: Option<[u8; 32]>,
)
    requires
        call_ensures(BareTable::len, (&bare,), bare_len),
        call_ensures(BareTable::num_blocks, (&bare,), bare_blocks),
        call_ensures(BareTable::latest_block_hash, (&bare,), bare_hash),
        call_ensures(MetaTable::len, (&meta,), meta_len),
        call_ensures(MetaTable::num_blocks, (&meta,), meta_blocks),
        call_ensures(MetaTable::latest_block_hash, (&meta,), meta_hash),
    ensures
        bare_len == bare@.count,
        bare_blocks == bare@.index.len(),
        bare@.index.len() == 0 <==> bare_hash is None,
        bare@.index.len() > 0 ==> bare_hash == Some(bare@.index[bare@.index.len() - 1].hash),
        meta_len == meta@.count,
        meta_blocks == meta@.index.len(),
        meta@.index.len() == 0 <==> meta_hash is None,
        meta@.index.len() > 0 ==> meta_hash == Some(meta@.index[meta@.index.len() - 1].hash),
{
}

/// A schedule does what its stage says, with its own tip and target, and starts
/// with the forward sync.
pub proof fn law_schedule_follows_its_stage(
    schedule: &mut SyncSchedule,
    nullifiers: usize,
    step: SyncStep,
)
    requires
        call_ensures(SyncSchedule::next, (schedule, nullifiers), step),
    ensures
        final(schedule).tip() == old(schedule).tip(),
        final(schedule).target_size() == old(schedule).target_size(),
        (final(schedule).stage(), step) == stepped(
            old(schedule).stage(),
            old(schedule).tip(),
            nullifiers,
            old(schedule).target_size(),
        ),
{
}

/// A schedule starts behind the newest block of a snapshot, without history, or
/// fresh, with history, fifty thousand blocks below the tip or at the floor.
pub proof fn law_schedule_starts_forward(
    from_snapshot: bool,
    latest_height: Option<u64>,
    tip_height: u64,
    target_size: usize,
    schedule: SyncSchedule,
    floor: u64,
)
    requires
        call_ensures(
            SyncSchedule::new,
            (from_snapshot, latest_height, tip_height, target_size),
            schedule,
        ),
        latest_height is Some ==> latest_height->Some_0 < u64::MAX,
        call_ensures(min_sync_height, (tip_height,), floor),
    ensures
        schedule.tip() == tip_height,
        schedule.target_size() == target_size,
        schedule.stage() is Forward,
        schedule.stage()->backfill == !from_snapshot,
        from_snapshot && latest_height is Some ==> schedule.stage()->start
            == latest_height->Some_0 + 1,
        from_snapshot && latest_height is None ==> schedule.stage()->start == tip_height,
        !from_snapshot ==> schedule.stage()->start >= floor && schedule.stage()->start
            >= tip_height - 50_000 && (schedule.stage()->start == floor || schedule.stage()->start
            == tip_height - 50_000),
{
}

/// A clock counts each block once, is due when it has counted the interval, and
/// then counts from zero.
pub proof fn law_clock_counts_to_the_interval(
    clock: &mut SnapshotClock,
    later: &mut SnapshotClock,
    due: bool,
)
    requires
        old(clock).blocks() < u64::MAX,
        call_ensures(SnapshotClock::tick, (clock,), ()),
        *old(later) == *final(clock),
        call_ensures(SnapshotClock::take_due, (later,), due),
    ensures
        final(clock).blocks() == old(clock).blocks() + 1,
        due <==> old(clock).blocks() + 1 >= old(clock).interval(),
        due ==> final(later).blocks() == 0,
        !due ==> final(later).blocks() == old(clock).blocks() + 1,
        final(later).interval() == old(clock).interval(),
{
}

/// A parent is the combination, for the level of its children, of the left one
/// and the right one, in this order.
pub proof fn law_nodes_are_combined_in_order(
    level: u8,
    left: [u8; 32],
    right: [u8; 32],
    parent: [u8; 32],
)
    requires
        is_canonical(left@),
        is_canonical(right@),
        call_ensures(hash_combine, (level, &left, &right), parent),
    ensures
        parent@ == sinsemilla_combine(level, left@, right@),
{
}

/// Whether a node can be hashed is decided by its number.
pub proof fn law_valid_nodes_are_field_elements(node: [u8; 32], valid: bool)
    requires
        call_ensures(is_valid_node, (&node,), valid),
    ensures
        valid == is_canonical(node@),
{
}

/// A witness tells the shard, the sub-shard and the leaf of its position.
pub proof fn law_witness_tells_its_place(
    witness: PirWitness,
    shard: u32,
    subshard: u8,
    leaf: u8,
)
    requires
        witness.position < 0x1_0000_0000_0000,
        call_ensures(PirWitness::shard_index, (&witness,), shard),
        call_ensures(PirWitness::subshard_index, (&witness,), subshard),
        call_ensures(PirWitness::leaf_index, (&witness,), leaf),
    ensures
        shard * 65_536 + subshard * 256 + leaf == witness.position,
{
}

/// The last nine bytes of an entry hold the height of the spend, the position of
/// the first output and the number of actions, numbers with the lowest byte
/// first.
pub proof fn law_entry_tail_is_read(tail: [u8; 9], metadata: SpendMetadata)
    requires
        call_ensures(SpendMetadata::from_entry_tail, (tail,), metadata),
    ensures
        metadata.spend_height == tail@[0] + 256 * tail@[1] + 65_536 * tail@[2] + 16_777_216
            * tail@[3],
        metadata.first_output_position == tail@[4] + 256 * tail@[5] + 65_536 * tail@[6] + 16_777_216
            * tail@[7],
        metadata.action_count == tail@[8],
{
}

/// Followers start at the block that they are given and fetch exactly the blocks
/// behind the one they stand at, up to the tip.
pub proof fn law_followers_fetch_what_is_new(
    spend: spend_ingest::Follower,
    spend_range: Option<(u64, u64)>,
    tree: tree_ingest::Follower,
    tree_range: Option<(u64, u64)>,
    combined: CombinedFollower,
    combined_range: Option<(u64, u64)>,
    tip: u64,
    height: u64,
)
    requires
        call_ensures(spend_ingest::Follower::next_range, (&spend, tip), spend_range),
        call_ensures(tree_ingest::Follower::next_range, (&tree, tip), tree_range),
        call_ensures(CombinedFollower::next_range, (&combined, tip), combined_range),
    ensures
        (spend_range is Some && spend_range->Some_0.0 <= height <= spend_range->Some_0.1)
            <==> spend@.current_height < height <= tip,
        (tree_range is Some && tree_range->Some_0.0 <= height <= tree_range->Some_0.1)
            <==> tree@.current_height < height <= tip,
        (combined_range is Some && combined_range->Some_0.0 <= height
            <= combined_range->Some_0.1) <==> combined@.current_height < height <= tip,
{
}

/// Followers start at the block that they are given, with its tree size.
pub proof fn law_followers_start_at_their_block(
    height: u64,
    hash: [u8; 32],
    size: Option<u32>,
    spend: spend_ingest::Follower,
    tree: tree_ingest::Follower,
)
    requires
        call_ensures(spend_ingest::Follower::new, (height, hash, size), spend),
        call_ensures(tree_ingest::Follower::new, (height, hash, size), tree),
    ensures
        spend@.chain.len() == 1 && spend@.chain[0] == (height, hash),
        spend@.current_height == height && spend@.tree_size == size,
        tree@.chain.len() == 1 && tree@.chain[0] == (height, hash),
        tree@.current_height == height && tree@.tree_size == size,
{
}

/// The combined server starts to follow at the highest block of its nullifier
/// table, with what it was given.
pub proof fn law_combined_follower_starts_at_the_table(
    hashtable: MetaTable,
    tree: CommitmentTreeDb,
    decryption: DecryptionDb,
    follower: CombinedFollower,
)
    requires
        call_ensures(CombinedFollower::new, (hashtable, tree, decryption), follower),
        hashtable@.index.len() > 0,
    ensures
        ({
            let newest = hashtable@.index[hashtable@.index.len() - 1];
            &&& follower@.chain.len() == 1
            &&& follower@.chain[0] == (newest.height, newest.hash)
            &&& follower@.current_height == newest.height
            &&& follower@.tree_size is None
            &&& follower@.nullifiers == hashtable@
            &&& follower@.tree == tree@
            &&& follower@.decryption == decryption@
        }),
{
}

} // verus!
