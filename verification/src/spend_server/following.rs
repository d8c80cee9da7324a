//! The follower of the chain and the table of bare nullifiers together: what a
//! followed block makes of the table.

use super::server::{
    after_event, is_orphaned, law_reorg_leaves_no_stale_entries, with_blocks, without_orphans,
};
use crate::block_table::{
    knows, lemma_rank_splits, placed, rank, IndexedBlock, TableState,
};
use crate::bytes::{hash_from, lemma_array_bytes, lemma_array_eq, padded, zeros};
use crate::chain_ingest::chain_tracker::{
    extends, fork_point, is_ascending, law_truncation_keeps_oldest, newest_at, newest_with_hash,
    truncated, FOLLOW_WINDOW,
};
use crate::chain_ingest::proto::CompactBlock;
use crate::nullifier::nf_ingest::ingest::{
    law_orphans_have_their_hashes, orphans, says, BlockSpends, EventContents, FollowState,
};
use crate::nullifier::spend_types as meta;
use crate::nullifier::spend_types::NullifierWithMeta;
use crate::spend_types::{
    ChainEvent, NewBlock, OrphanedBlock, BUCKET_CAPACITY, NUM_BUCKETS, TARGET_SIZE,
};
use crate::table_history::{all_named, law_step_keeps_order, TableStep};
use crate::table_laws::law_evicts_oldest_first;
use vstd::prelude::*;

verus! {

/// Nullifiers without their metadata.
pub open spec fn bare_nullifiers(nullifiers: Seq<NullifierWithMeta>) -> Seq<[u8; 32]> {
    Seq::new(nullifiers.len(), |i: int| nullifiers[i].nullifier)
}

/// Whether `bare` is the block without the metadata of its nullifiers.
pub open spec fn is_bare_block(bare: NewBlock, block: meta::NewBlock) -> bool {
    &&& bare.height == block.height
    &&& bare.hash == block.hash
    &&& bare.prev_hash == block.prev_hash
    &&& bare.nullifiers@ == bare_nullifiers(block.nullifiers@)
}

/// Whether `bare` is the event without the metadata of its nullifiers.
pub open spec fn is_bare_event(bare: ChainEvent, event: meta::ChainEvent) -> bool {
    match (bare, event) {
        (
            ChainEvent::NewBlock { height, hash, prev_hash, nullifiers },
            meta::ChainEvent::NewBlock { height: h, hash: own, prev_hash: parent, nullifiers: all },
        ) => height == h && hash == own && prev_hash == parent && nullifiers@ == bare_nullifiers(
            all@,
        ),
        (
            ChainEvent::Reorg { orphaned, new_blocks },
            meta::ChainEvent::Reorg { orphaned: gone, new_blocks: blocks },
        ) => orphaned@ == gone@ && new_blocks@.len() == blocks@.len() && forall|i: int|
            0 <= i < blocks@.len() ==> is_bare_block(#[trigger] new_blocks@[i], blocks@[i]),
        _ => false,
    }
}

fn bare(nullifiers: &Vec<NullifierWithMeta>) -> (bare: Vec<[u8; 32]>)
    ensures
        bare@ == bare_nullifiers(nullifiers@),
{
    let mut bare: Vec<[u8; 32]> = Vec::with_capacity(nullifiers.len());
    let mut i: usize = 0;
    while i < nullifiers.len()
        invariant
            i <= nullifiers@.len(),
            bare@ == bare_nullifiers(nullifiers@).take(i as int),
        decreases nullifiers@.len() - i,
    {
        bare.push(nullifiers[i].nullifier);
        i += 1;
        assert(bare@ =~= bare_nullifiers(nullifiers@).take(i as int));
    }
    assert(bare@ =~= bare_nullifiers(nullifiers@));
    bare
}

/// The event without the metadata of its nullifiers.
pub fn bare_event(event: meta::ChainEvent) -> (bare: ChainEvent)
    ensures
        is_bare_event(bare, event),
{
    match event {
        meta::ChainEvent::NewBlock { height, hash, prev_hash, nullifiers } => {
            ChainEvent::NewBlock { height, hash, prev_hash, nullifiers: self::bare(&nullifiers) }
        },
        meta::ChainEvent::Reorg { orphaned, new_blocks } => {
            let mut blocks: Vec<NewBlock> = Vec::with_capacity(new_blocks.len());
            let mut i: usize = 0;
            while i < new_blocks.len()
                invariant
                    i <= new_blocks@.len(),
                    blocks@.len() == i,
                    forall|k: int|
                        0 <= k < i ==> is_bare_block(#[trigger] blocks@[k], new_blocks@[k]),
                decreases new_blocks@.len() - i,
            {
                let block = &new_blocks[i];
                blocks.push(
                    NewBlock {
                        height: block.height,
                        hash: block.hash,
                        prev_hash: block.prev_hash,
                        nullifiers: self::bare(&block.nullifiers),
                    },
                );
                i += 1;
            }
            ChainEvent::Reorg { orphaned, new_blocks: blocks }
        },
    }
}

/// Whether an event of bare nullifiers says `contents`.
pub open spec fn says_bare(event: ChainEvent, contents: EventContents) -> bool {
    match (event, contents) {
        (
            ChainEvent::NewBlock { height, hash, prev_hash, nullifiers },
            EventContents::NewBlock(block),
        ) => height == block.height && hash == block.hash && prev_hash == block.prev_hash
            && nullifiers@ == bare_nullifiers(block.nullifiers),
        (
            ChainEvent::Reorg { orphaned, new_blocks },
            EventContents::Reorg { orphaned: gone, new_block },
        ) => orphaned@ == gone && new_blocks@.len() == 1 && new_blocks@[0].height
            == new_block.height && new_blocks@[0].hash == new_block.hash
            && new_blocks@[0].prev_hash == new_block.prev_hash && new_blocks@[0].nullifiers@
            == bare_nullifiers(new_block.nullifiers),
        _ => false,
    }
}

/// Without its metadata a follower's event says what it said.
pub proof fn law_bare_event_says_the_same(
    event: meta::ChainEvent,
    bare: ChainEvent,
    contents: EventContents,
)
    requires
        says(event, contents),
        is_bare_event(bare, event),
    ensures
        says_bare(bare, contents),
{
    if let (ChainEvent::Reorg { new_blocks, .. }, meta::ChainEvent::Reorg { new_blocks: all, .. })
        = (bare, event) {
        assert(is_bare_block(new_blocks@[0], all@[0]));
    }
}

/// Whether a block of the table is tracked, under its height and hash.
pub open spec fn is_tracked(chain: Seq<(u64, [u8; 32])>, block: IndexedBlock) -> bool {
    exists|k: int|
        0 <= k < chain.len() && (#[trigger] chain[k]).0 == block.height && chain[k].1 == block.hash
}

/// Whether the table's blocks above `fork` are tracked.
pub open spec fn tracked_above(
    chain: Seq<(u64, [u8; 32])>,
    table: TableState<[u8; 32]>,
    fork: u64,
) -> bool {
    forall|i: int|
        0 <= i < table.index.len() && (#[trigger] table.index[i]).height > fork ==> is_tracked(
            chain,
            table.index[i],
        )
}

/// Whether hashes tell the blocks apart: no block of the table has a hash of
/// zero bytes, or that of a block tracked at another height.
pub open spec fn told_apart(chain: Seq<(u64, [u8; 32])>, table: TableState<[u8; 32]>) -> bool {
    &&& forall|i: int|
        0 <= i < table.index.len() ==> (#[trigger] table.index[i]).hash@ != zeros(32)
    &&& forall|i: int, k: int|
        0 <= i < table.index.len() && 0 <= k < chain.len() && (#[trigger] chain[k]).1 == (
        #[trigger] table.index[i]).hash ==> chain[k].0 == table.index[i].height
}

/// The height up to which blocks stay when a block arrives.
pub open spec fn kept_height(state: FollowState, block: CompactBlock) -> u64 {
    let parent = hash_from(padded(block.prev_hash@));
    if extends(state.chain, block.height, parent) {
        state.current_height
    } else {
        fork_point(state.chain, parent)
    }
}

/// What the table learns of a block.
pub open spec fn spends(state: FollowState, block: CompactBlock) -> BlockSpends {
    match state.event(block) {
        EventContents::NewBlock(spends) => spends,
        EventContents::Reorg { new_block, .. } => new_block,
    }
}

/// Whether a block is new: it stands above the blocks that stay, under a hash
/// that none of them has, and none of its nullifiers is all zero bytes.
pub open spec fn is_new(
    state: FollowState,
    table: TableState<[u8; 32]>,
    block: CompactBlock,
) -> bool {
    let hash = hash_from(padded(block.hash@));
    let kept = kept_height(state, block);
    &&& kept < block.height
    &&& hash@ != zeros(32)
    &&& all_named(bare_nullifiers(spends(state, block).nullifiers))
    &&& forall|i: int|
        0 <= i < table.index.len() && (#[trigger] table.index[i]).height <= kept
            ==> table.index[i].hash != hash
    &&& forall|k: int|
        0 <= k < state.chain.len() && (#[trigger] state.chain[k]).0 <= kept ==> state.chain[k].1
            != hash
}

/// Whether the tracked blocks are in order and end at the current one.
pub open spec fn chain_in_order(state: FollowState) -> bool {
    &&& is_ascending(state.chain)
    &&& state.chain.len() > 0
    &&& state.chain.last().0 == state.current_height
}

/// Whether a table is in step with a follower: from the oldest tracked block
/// on, every block of the table is tracked.
pub open spec fn in_step(state: FollowState, table: TableState<[u8; 32]>) -> bool {
    &&& chain_in_order(state)
    &&& table.in_order(NUM_BUCKETS as int, BUCKET_CAPACITY as int)
    &&& told_apart(state.chain, table)
    &&& forall|i: int|
        0 <= i < table.index.len() && (#[trigger] table.index[i]).height >= state.chain[0].0
            ==> is_tracked(state.chain, table.index[i])
}

proof fn lemma_newest_at_tracked(chain: Seq<(u64, [u8; 32])>, height: u64)
    ensures
        newest_at(chain, height) matches Some(hash) ==> exists|k: int|
            0 <= k < chain.len() && (#[trigger] chain[k]).0 == height && chain[k].1 == hash,
    decreases chain.len(),
{
    if chain.len() > 0 {
        let front = chain.drop_last();
        lemma_newest_at_tracked(front, height);
        let last = chain.len() - 1;
        if chain[last].0 == height {
            assert(chain[last].1 == chain.last().1);
        } else if let Some(hash) = newest_at(front, height) {
            let k = choose|k: int|
                0 <= k < front.len() && (#[trigger] front[k]).0 == height && front[k].1 == hash;
            assert(chain[k] == front[k]);
        }
    }
}

proof fn lemma_newest_with_hash_tracked(chain: Seq<(u64, [u8; 32])>, hash: [u8; 32])
    ensures
        newest_with_hash(chain, hash) matches Some(height) ==> exists|k: int|
            0 <= k < chain.len() && (#[trigger] chain[k]).0 == height && chain[k].1 == hash,
    decreases chain.len(),
{
    if chain.len() > 0 {
        let front = chain.drop_last();
        lemma_newest_with_hash_tracked(front, hash);
        let last = chain.len() - 1;
        if chain[last].1 == hash {
            assert(chain[last].0 == chain.last().0);
        } else if let Some(height) = newest_with_hash(front, hash) {
            let k = choose|k: int|
                0 <= k < front.len() && (#[trigger] front[k]).0 == height && front[k].1 == hash;
            assert(chain[k] == front[k]);
        }
    }
}

/// A block of the table is among the orphans exactly where it stands above the
/// fork point.
proof fn lemma_orphaned_above(
    chain: Seq<(u64, [u8; 32])>,
    table: TableState<[u8; 32]>,
    fork: u64,
    current_height: u64,
    i: int,
)
    requires
        is_ascending(chain),
        chain.len() > 0,
        chain.last().0 == current_height,
        tracked_above(chain, table, fork),
        told_apart(chain, table),
        0 <= i < table.index.len(),
    ensures
        is_orphaned(orphans(chain, fork, current_height), table.index[i].hash@) <==> table.index[i].height
            > fork,
{
    let gone = orphans(chain, fork, current_height);
    let block = table.index[i];
    if block.height > fork {
        let k = choose|k: int|
            0 <= k < chain.len() && (#[trigger] chain[k]).0 == block.height && chain[k].1
                == block.hash;
        if k < chain.len() - 1 {
            assert(chain[k].0 < chain[chain.len() - 1].0);
        }
        law_orphans_have_their_hashes(chain, fork, current_height, k);
        let orphan = OrphanedBlock { height: chain[k].0, hash: chain[k].1 };
        let j = choose|j: int| 0 <= j < gone.len() && gone[j] == orphan;
        assert(gone[j].hash@ == block.hash@);
    } else if is_orphaned(gone, block.hash@) {
        let j = choose|j: int| 0 <= j < gone.len() && (#[trigger] gone[j]).hash@ == block.hash@;
        let height = (current_height - j) as u64;
        lemma_newest_at_tracked(chain, height);
        lemma_array_eq(gone[j].hash, block.hash);
        match newest_at(chain, height) {
            Some(hash) => {
                let k = choose|k: int|
                    0 <= k < chain.len() && (#[trigger] chain[k]).0 == height && chain[k].1 == hash;
                assert(chain[k].1 == table.index[i].hash);
            },
            None => {
                lemma_array_bytes::<32>(zeros(32));
            },
        }
    }
}

/// Rolling back keeps a table in order.
proof fn lemma_without_orphans_in_order(
    table: TableState<[u8; 32]>,
    orphaned: Seq<OrphanedBlock>,
)
    requires
        table.in_order(NUM_BUCKETS as int, BUCKET_CAPACITY as int),
    ensures
        without_orphans(table, orphaned).in_order(NUM_BUCKETS as int, BUCKET_CAPACITY as int),
    decreases orphaned.len(),
{
    if orphaned.len() > 0 {
        let step = TableStep::Rollback { hash: orphaned.last().hash };
        law_step_keeps_order(table, NUM_BUCKETS as int, BUCKET_CAPACITY as int, step);
        lemma_without_orphans_in_order(
            table.rolled_back(orphaned.last().hash@),
            orphaned.drop_last(),
        );
    }
}

/// Inserting a block and evicting the oldest leaves blocks that were there, and
/// the inserted one, in order.
proof fn lemma_insert_and_evict(
    table: TableState<[u8; 32]>,
    height: u64,
    hash: [u8; 32],
    entries: Seq<[u8; 32]>,
)
    requires
        table.in_order(NUM_BUCKETS as int, BUCKET_CAPACITY as int),
        all_named(entries),
        forall|i: int|
            0 <= i < table.index.len() ==> (#[trigger] table.index[i]).height != height
                && table.index[i].hash != hash,
    ensures
        table.inserted(height, hash, entries) matches Ok(after) ==> ({
            let evicted = after.evicted_to(TARGET_SIZE as int);
            &&& evicted.in_order(NUM_BUCKETS as int, BUCKET_CAPACITY as int)
            &&& forall|i: int|
                0 <= i < evicted.index.len() ==> table.index.contains(
                    #[trigger] evicted.index[i],
                ) || (evicted.index[i].height == height && evicted.index[i].hash == hash)
        }),
{
    let insert = TableStep::Insert { height, hash, entries };
    let evict = TableStep::<[u8; 32]>::EvictTo { target: TARGET_SIZE as int };
    lemma_rank_splits(table.index, height);
    assert(!knows(table.index, height));
    assert(!table.heights.contains_key(hash@)) by {
        if table.heights.contains_key(hash@) {
            let i = choose|i: int|
                0 <= i < table.index.len() && (#[trigger] table.index[i]).hash@ == hash@;
            lemma_array_eq(table.index[i].hash, hash);
        }
    }
    law_step_keeps_order(table, NUM_BUCKETS as int, BUCKET_CAPACITY as int, insert);
    if let Ok(after) = table.inserted(height, hash, entries) {
        law_step_keeps_order(after, NUM_BUCKETS as int, BUCKET_CAPACITY as int, evict);
        law_evicts_oldest_first(after, TARGET_SIZE as int);
        let evicted = after.evicted_to(TARGET_SIZE as int);
        let dropped = after.index.len() - evicted.index.len();
        let (_, slots) = placed(table.buckets, entries)->Ok_0;
        let block = IndexedBlock { height, hash, slots };
        let at = rank(table.index, height);
        assert(after.index == table.index.insert(at, block));
        assert forall|i: int| 0 <= i < evicted.index.len() implies table.index.contains(
            #[trigger] evicted.index[i],
        ) || (evicted.index[i].height == height && evicted.index[i].hash == hash) by {
            let j = i + dropped;
            assert(evicted.index[i] == after.index[j]);
            if j < at {
                assert(after.index[j] == table.index[j]);
            } else if j > at {
                assert(after.index[j] == table.index[j - 1]);
            }
        }
    }
}

/// A reorg leaves no stale data: where the table's blocks above the fork point
/// are tracked, the table after the follower's event has none of them. The
/// blocks up to the fork point stay, the new block is inserted behind them, and
/// what the table then holds, down to each filled slot, is accounted for by
/// those blocks. Only where the new block overflows a bucket is it left out.
pub proof fn law_followed_reorg_leaves_no_stale_blocks(
    state: FollowState,
    block: CompactBlock,
    event: ChainEvent,
    table: TableState<[u8; 32]>,
)
    requires
        chain_in_order(state),
        table.in_order(NUM_BUCKETS as int, BUCKET_CAPACITY as int),
        told_apart(state.chain, table),
        !extends(state.chain, block.height, hash_from(padded(block.prev_hash@))),
        tracked_above(state.chain, table, kept_height(state, block)),
        is_new(state, table, block),
        says_bare(event, state.event(block)),
    ensures
        ({
            let fork = kept_height(state, block);
            let hash = hash_from(padded(block.hash@));
            let base = without_orphans(
                table,
                orphans(state.chain, fork, state.current_height),
            );
            let (after, overflow) = after_event(table, event);
            &&& forall|b: IndexedBlock| #[trigger]
                base.index.contains(b) <==> table.index.contains(b) && b.height <= fork
            &&& after_event(table, event) == (match base.inserted(
                block.height,
                hash,
                bare_nullifiers(spends(state, block).nullifiers),
            ) {
                Ok(with) => (with.evicted_to(TARGET_SIZE as int), None::<u32>),
                Err(bucket) => (base, Some(bucket)),
            })
            &&& after.in_order(NUM_BUCKETS as int, BUCKET_CAPACITY as int)
            &&& forall|i: int|
                0 <= i < after.index.len() ==> ({
                    let b = #[trigger] after.index[i];
                    (table.index.contains(b) && b.height <= fork) || (overflow is None && b.height
                        == block.height && b.hash == hash)
                })
        }),
{
    let fork = kept_height(state, block);
    let hash = hash_from(padded(block.hash@));
    let gone = orphans(state.chain, fork, state.current_height);
    let base = without_orphans(table, gone);
    law_reorg_leaves_no_stale_entries(table, gone);
    lemma_without_orphans_in_order(table, gone);
    assert forall|b: IndexedBlock| #[trigger]
        base.index.contains(b) <==> table.index.contains(b) && b.height <= fork by {
        if table.index.contains(b) {
            let i = choose|i: int| 0 <= i < table.index.len() && table.index[i] == b;
            lemma_orphaned_above(state.chain, table, fork, state.current_height, i);
        }
    }
    assert forall|i: int| 0 <= i < base.index.len() implies (#[trigger] base.index[i]).height
        != block.height && base.index[i].hash != hash && base.index[i].height <= fork
        && table.index.contains(base.index[i]) by {
        let b = base.index[i];
        assert(base.index.contains(b));
        let k = choose|k: int| 0 <= k < table.index.len() && table.index[k] == b;
        assert(table.index[k].hash != hash);
    }
    let entries = bare_nullifiers(spends(state, block).nullifiers);
    lemma_insert_and_evict(base, block.height, hash, entries);
    if let ChainEvent::Reorg { orphaned, new_blocks } = event {
        assert(new_blocks@.drop_last() =~= Seq::empty());
        assert(new_blocks@.last() == new_blocks@[0]);
        reveal_with_fuel(with_blocks, 2);
        let (after, overflow) = after_event(table, event);
        assert forall|i: int| 0 <= i < after.index.len() implies ({
            let b = #[trigger] after.index[i];
            (table.index.contains(b) && b.height <= fork) || (overflow is None && b.height
                == block.height && b.hash == hash)
        }) by {
            let b = after.index[i];
            if base.index.contains(b) {
                let k = choose|k: int| 0 <= k < base.index.len() && base.index[k] == b;
                assert(table.index.contains(base.index[k]));
            } else {
                assert(overflow is None);
            }
        }
    }
}

/// A table that is in step with a follower has tracked blocks alone above every
/// tracked block.
proof fn lemma_in_step_tracks(state: FollowState, table: TableState<[u8; 32]>, fork: u64)
    requires
        in_step(state, table),
        fork >= state.chain[0].0,
    ensures
        tracked_above(state.chain, table, fork),
{
}

/// Following keeps a table in step with its follower, whether a block extends
/// the chain or forks off at a tracked block: every later reorg within the
/// window finds the blocks of the table above its fork point tracked.
pub proof fn law_following_stays_in_step(
    state: FollowState,
    block: CompactBlock,
    event: ChainEvent,
    table: TableState<[u8; 32]>,
)
    requires
        in_step(state, table),
        extends(state.chain, block.height, hash_from(padded(block.prev_hash@)))
            || newest_with_hash(state.chain, hash_from(padded(block.prev_hash@))) is Some,
        is_new(state, table, block),
        says_bare(event, state.event(block)),
    ensures
        in_step(state.after(FOLLOW_WINDOW as nat, block), after_event(table, event).0),
{
    let chain = state.chain;
    let parent = hash_from(padded(block.prev_hash@));
    let hash = hash_from(padded(block.hash@));
    let kept = kept_height(state, block);
    let next = state.after(FOLLOW_WINDOW as nat, block);
    let after = after_event(table, event).0;
    let last = chain.len() - 1;
    let entries = bare_nullifiers(spends(state, block).nullifiers);
    lemma_next_chain(state, block);
    if extends(chain, block.height, parent) {
        assert forall|i: int| 0 <= i < table.index.len() implies (#[trigger] table.index[i]).height
            <= kept by {
            if table.index[i].height > kept {
                if 0 < last {
                    assert(chain[0].0 < chain[last].0);
                }
                let k = choose|k: int|
                    0 <= k < chain.len() && (#[trigger] chain[k]).0 == table.index[i].height
                        && chain[k].1 == table.index[i].hash;
                if k < last {
                    assert(chain[k].0 < chain[last].0);
                }
            }
        }
        lemma_insert_and_evict(table, block.height, hash, entries);
        assert forall|i: int| 0 <= i < after.index.len() implies (table.index.contains(
            #[trigger] after.index[i],
        ) && after.index[i].height <= kept) || (after.index[i].height == block.height
            && after.index[i].hash == hash) by {
            if table.index.contains(after.index[i]) {
                let k = choose|k: int|
                    0 <= k < table.index.len() && table.index[k] == after.index[i];
                assert(table.index[k].height <= kept);
            } else {
                assert(table.inserted(block.height, hash, entries) is Ok);
            }
        }
    } else {
        lemma_newest_with_hash_tracked(chain, parent);
        let at = choose|k: int|
            0 <= k < chain.len() && (#[trigger] chain[k]).0 == kept && chain[k].1 == parent;
        if at > 0 {
            assert(chain[0].0 < chain[at].0);
        }
        lemma_in_step_tracks(state, table, kept);
        law_followed_reorg_leaves_no_stale_blocks(state, block, event, table);
    }
    lemma_step_by_blocks(state, table, block, after);
}

/// What is tracked after a block: the blocks that stay, from the oldest or the
/// one behind it on, and the new block.
proof fn lemma_next_chain(state: FollowState, block: CompactBlock)
    requires
        chain_in_order(state),
        extends(state.chain, block.height, hash_from(padded(block.prev_hash@)))
            || newest_with_hash(state.chain, hash_from(padded(block.prev_hash@))) is Some,
        kept_height(state, block) < block.height,
    ensures
        ({
            let chain = state.chain;
            let next = state.after(FOLLOW_WINDOW as nat, block);
            let kept = kept_height(state, block);
            &&& chain_in_order(next)
            &&& next.chain.last() == (block.height, hash_from(padded(block.hash@)))
            &&& next.chain[0].0 >= chain[0].0
            &&& forall|i: int|
                0 <= i < next.chain.len() - 1 ==> chain.contains(#[trigger] next.chain[i])
                    && next.chain[i].0 <= kept
            &&& forall|k: int|
                0 <= k < chain.len() && next.chain[0].0 <= (#[trigger] chain[k]).0 <= kept
                    ==> next.chain.contains(chain[k])
        }),
{
    let chain = state.chain;
    let parent = hash_from(padded(block.prev_hash@));
    let new = (block.height, hash_from(padded(block.hash@)));
    let kept = kept_height(state, block);
    let next = state.after(FOLLOW_WINDOW as nat, block);
    let last = chain.len() - 1;
    assert forall|k: int| 0 <= k < last implies (#[trigger] chain[k]).0 < chain[last].0 by {}
    if extends(chain, block.height, parent) {
        let longer = chain.push(new);
        let from = if longer.len() > FOLLOW_WINDOW { 1int } else { 0int };
        assert(next.chain =~= longer.skip(from));
        assert forall|i: int, j: int| 0 <= i < j < next.chain.len() implies (
        #[trigger] next.chain[i]).0 < (#[trigger] next.chain[j]).0 by {
            assert(next.chain[i] == longer[i + from] && next.chain[j] == longer[j + from]);
            assert(longer[i + from] == chain[i + from]);
            if j + from < chain.len() {
                assert(chain[i + from].0 < chain[j + from].0);
            }
        }
        assert forall|i: int| 0 <= i < next.chain.len() - 1 implies chain.contains(
            #[trigger] next.chain[i],
        ) && next.chain[i].0 <= kept by {
            assert(next.chain[i] == chain[i + from]);
        }
        assert forall|k: int|
            0 <= k < chain.len() && next.chain[0].0 <= (#[trigger] chain[k]).0 <= kept implies
            next.chain.contains(chain[k]) by {
            if k < from {
                if 1 < chain.len() {
                    assert(next.chain[0] == chain[1]);
                    assert(chain[0].0 < chain[1].0);
                }
            } else {
                assert(next.chain[k - from] == chain[k]);
            }
        }
        assert(next.chain[0] == longer[from]);
        if from == 1 && 1 < chain.len() {
            assert(chain[0].0 < chain[1].0);
        }
    } else {
        law_truncation_keeps_oldest(chain, kept);
        lemma_newest_with_hash_tracked(chain, parent);
        let at = choose|k: int|
            0 <= k < chain.len() && (#[trigger] chain[k]).0 == kept && chain[k].1 == parent;
        let stay = truncated(chain, kept);
        let n = stay.len() as int;
        assert(at < n);
        assert(next.chain == stay.push(new));
        assert forall|i: int| 0 <= i < n implies #[trigger] stay[i] == chain[i] && chain[i].0
            <= kept by {
            assert(stay[i] == chain.take(n)[i]);
        }
        assert forall|i: int, j: int| 0 <= i < j < next.chain.len() implies (
        #[trigger] next.chain[i]).0 < (#[trigger] next.chain[j]).0 by {
            assert(next.chain[i] == stay[i]);
            if j < n {
                assert(next.chain[j] == stay[j]);
                assert(chain[i].0 < chain[j].0);
            }
        }
        assert forall|i: int| 0 <= i < next.chain.len() - 1 implies chain.contains(
            #[trigger] next.chain[i],
        ) && next.chain[i].0 <= kept by {
            assert(next.chain[i] == stay[i]);
        }
        assert forall|k: int|
            0 <= k < chain.len() && next.chain[0].0 <= (#[trigger] chain[k]).0 <= kept implies
            next.chain.contains(chain[k]) by {
            assert(k < n);
            assert(next.chain[k] == stay[k]);
        }
        assert(next.chain[0] == stay[0]);
    }
}

/// A table whose blocks are blocks that stay, and the new one, is in step with
/// the follower after the new block.
proof fn lemma_step_by_blocks(
    state: FollowState,
    table: TableState<[u8; 32]>,
    block: CompactBlock,
    after: TableState<[u8; 32]>,
)
    requires
        in_step(state, table),
        extends(state.chain, block.height, hash_from(padded(block.prev_hash@)))
            || newest_with_hash(state.chain, hash_from(padded(block.prev_hash@))) is Some,
        is_new(state, table, block),
        after.in_order(NUM_BUCKETS as int, BUCKET_CAPACITY as int),
        forall|i: int|
            0 <= i < after.index.len() ==> ({
                let b = #[trigger] after.index[i];
                (table.index.contains(b) && b.height <= kept_height(state, block)) || (b.height
                    == block.height && b.hash == hash_from(padded(block.hash@)))
            }),
    ensures
        in_step(state.after(FOLLOW_WINDOW as nat, block), after),
{
    let chain = state.chain;
    let hash = hash_from(padded(block.hash@));
    let kept = kept_height(state, block);
    let next = state.after(FOLLOW_WINDOW as nat, block);
    lemma_next_chain(state, block);
    let tip = next.chain.len() - 1;
    assert(next.chain[tip] == (block.height, hash));
    assert forall|i: int|
        0 <= i < after.index.len() && (#[trigger] after.index[i]).height >= next.chain[0].0 implies
        is_tracked(next.chain, after.index[i]) by {
        let b = after.index[i];
        if table.index.contains(b) && b.height <= kept {
            let t = choose|t: int| 0 <= t < table.index.len() && table.index[t] == b;
            assert(is_tracked(chain, table.index[t]));
            let k = choose|k: int|
                0 <= k < chain.len() && (#[trigger] chain[k]).0 == b.height && chain[k].1 == b.hash;
            assert(next.chain.contains(chain[k]));
            let n = choose|n: int| 0 <= n < next.chain.len() && next.chain[n] == chain[k];
            assert(next.chain[n].0 == b.height);
        } else {
            assert(next.chain[tip].0 == b.height);
        }
    }
    assert forall|i: int| 0 <= i < after.index.len() implies (#[trigger] after.index[i]).hash@
        != zeros(32) by {
        let b = after.index[i];
        if table.index.contains(b) {
            let t = choose|t: int| 0 <= t < table.index.len() && table.index[t] == b;
            assert(table.index[t].hash@ != zeros(32));
        }
    }
    assert forall|i: int, k: int|
        0 <= i < after.index.len() && 0 <= k < next.chain.len() && (#[trigger] next.chain[k]).1 == (
        #[trigger] after.index[i]).hash implies next.chain[k].0 == after.index[i].height by {
        let b = after.index[i];
        if table.index.contains(b) && b.height <= kept {
            let t = choose|t: int| 0 <= t < table.index.len() && table.index[t] == b;
            assert(table.index[t].hash != hash);
            if k < tip {
                assert(chain.contains(next.chain[k]));
                let c = choose|c: int| 0 <= c < chain.len() && chain[c] == next.chain[k];
                assert(chain[c].1 == table.index[t].hash);
            }
        } else if k < tip {
            assert(chain.contains(next.chain[k]));
            let c = choose|c: int| 0 <= c < chain.len() && chain[c] == next.chain[k];
            assert(chain[c].0 <= kept);
        }
    }
}

/// A follower that starts at the newest block of a table is in step with it.
pub proof fn law_follower_starts_in_step(table: TableState<[u8; 32]>, tree_size: Option<u32>)
    requires
        table.in_order(NUM_BUCKETS as int, BUCKET_CAPACITY as int),
        table.index.len() > 0,
        forall|i: int|
            0 <= i < table.index.len() ==> (#[trigger] table.index[i]).hash@ != zeros(32),
    ensures
        in_step(
            FollowState {
                chain: seq![(table.index.last().height, table.index.last().hash)],
                current_height: table.index.last().height,
                tree_size,
            },
            table,
        ),
{
    let last = table.index.len() - 1;
    let newest = table.index[last];
    let chain = seq![(newest.height, newest.hash)];
    assert forall|i: int|
        0 <= i < table.index.len() && (#[trigger] table.index[i]).height >= chain[0].0 implies
        is_tracked(chain, table.index[i]) by {
        if i < last {
            assert(table.index[i].height < table.index[last].height);
        }
        assert(chain[0].0 == table.index[i].height);
    }
    assert forall|i: int, k: int|
        0 <= i < table.index.len() && 0 <= k < chain.len() && (#[trigger] chain[k]).1 == (
        #[trigger] table.index[i]).hash implies chain[k].0 == table.index[i].height by {
        assert(table.heights[table.index[i].hash@] == table.index[i].height);
        assert(table.heights[table.index[last].hash@] == table.index[last].height);
    }
}

} // verus!
