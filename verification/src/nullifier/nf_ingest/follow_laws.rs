//! Which events following the chain tip gives.

use super::ingest::{orphans, spends_of, EventContents, FollowState};
use super::parser::{block_spends, size_before};
use crate::bytes::{lemma_array_bytes, lemma_padded_hash, zeros};
use crate::chain_ingest::chain_tracker::{fork_point, pushed};
use crate::chain_ingest::proto::{tree_size_in, CompactBlock};
use crate::chain_ingest::tracker_laws::{
    law_hash_is_of_newest_at_height, law_no_hash_at_unknown_height,
};
use vstd::prelude::*;

verus! {

/// What is recorded of a block: its height, its hash and its parent's, both cut
/// or filled to 32 bytes, and its nullifiers.
pub proof fn law_spends_tell_the_block(
    block: CompactBlock,
    prior_tree_size: Option<u32>,
    hash: [u8; 32],
    parent: [u8; 32],
)
    requires
        forall|k: int|
            0 <= k < 32 ==> #[trigger] hash@[k] == (if k < block.hash@.len() {
                block.hash@[k]
            } else {
                0u8
            }),
        forall|k: int|
            0 <= k < 32 ==> #[trigger] parent@[k] == (if k < block.prev_hash@.len() {
                block.prev_hash@[k]
            } else {
                0u8
            }),
    ensures
        spends_of(block, prior_tree_size).height == block.height,
        spends_of(block, prior_tree_size).hash == hash,
        spends_of(block, prior_tree_size).prev_hash == parent,
        spends_of(block, prior_tree_size).nullifiers == block_spends(
            block.vtx@,
            size_before(block, prior_tree_size),
        ),
{
    lemma_padded_hash(block.hash@, hash);
    lemma_padded_hash(block.prev_hash@, parent);
}

/// A block that is the first one, or whose parent is the tip one height below
/// it, is reported as new; any other is reported as a reorg that orphans the
/// blocks above the fork point. Either way the tree size after the last block
/// tells where its outputs stand.
pub proof fn law_follower_tells_reorgs(
    state: FollowState,
    block: CompactBlock,
    parent: [u8; 32],
)
    requires
        forall|k: int|
            0 <= k < 32 ==> #[trigger] parent@[k] == (if k < block.prev_hash@.len() {
                block.prev_hash@[k]
            } else {
                0u8
            }),
    ensures
        ({
            let tip = state.chain[state.chain.len() - 1];
            let follows = state.chain.len() == 0 || (tip.1 == parent && block.height == tip.0 + 1);
            let spends = spends_of(block, state.tree_size);
            &&& follows ==> state.event(block) == EventContents::NewBlock(spends)
            &&& !follows ==> state.event(block) == (EventContents::Reorg {
                orphaned: orphans(
                    state.chain,
                    fork_point(state.chain, parent),
                    state.current_height,
                ),
                new_block: spends,
            })
        }),
{
    lemma_padded_hash(block.prev_hash@, parent);
}

/// The follower then stands at the block, tracks it under its hash, and knows
/// the tree size after it where the block's metadata gives one.
pub proof fn law_follower_moves_to_the_block(
    state: FollowState,
    depth: nat,
    block: CompactBlock,
    hash: [u8; 32],
    parent: [u8; 32],
)
    requires
        forall|k: int|
            0 <= k < 32 ==> #[trigger] hash@[k] == (if k < block.hash@.len() {
                block.hash@[k]
            } else {
                0u8
            }),
        forall|k: int|
            0 <= k < 32 ==> #[trigger] parent@[k] == (if k < block.prev_hash@.len() {
                block.prev_hash@[k]
            } else {
                0u8
            }),
    ensures
        state.after(depth, block).current_height == block.height,
        state.after(depth, block).chain == pushed(state.chain, depth, block.height, hash, parent),
        state.after(depth, block).tree_size == tree_size_in(block),
{
    lemma_padded_hash(block.hash@, hash);
    lemma_padded_hash(block.prev_hash@, parent);
}

/// The orphaned blocks are those above the fork point, one for each height from
/// the current one down.
pub proof fn law_orphans_go_down_to_the_fork(
    chain: Seq<(u64, [u8; 32])>,
    rollback_to: u64,
    current_height: u64,
)
    ensures
        ({
            let gone = orphans(chain, rollback_to, current_height);
            &&& rollback_to <= current_height ==> gone.len() == current_height - rollback_to
            &&& rollback_to > current_height ==> gone.len() == 0
            &&& forall|i: int|
                0 <= i < gone.len() ==> (#[trigger] gone[i]).height == current_height - i
        }),
{
}

/// An orphaned block has the hash of the newest tracked block at its height, at
/// index `at`.
pub proof fn law_orphan_has_tracked_hash(
    chain: Seq<(u64, [u8; 32])>,
    rollback_to: u64,
    current_height: u64,
    i: int,
    at: int,
)
    requires
        0 <= i < current_height - rollback_to,
        0 <= at < chain.len(),
        chain[at].0 == current_height - i,
        forall|k: int| at < k < chain.len() ==> (#[trigger] chain[k]).0 != current_height - i,
    ensures
        orphans(chain, rollback_to, current_height)[i].hash == chain[at].1,
{
    law_hash_is_of_newest_at_height(chain, (current_height - i) as u64, at);
}

/// An orphaned block at a height that is not tracked has a hash of zero bytes.
pub proof fn law_untracked_orphan_has_zero_hash(
    chain: Seq<(u64, [u8; 32])>,
    rollback_to: u64,
    current_height: u64,
    i: int,
)
    requires
        0 <= i < current_height - rollback_to,
        forall|k: int| 0 <= k < chain.len() ==> (#[trigger] chain[k]).0 != current_height - i,
    ensures
        forall|k: int|
            0 <= k < 32 ==> #[trigger] orphans(chain, rollback_to, current_height)[i].hash@[k] == 0,
{
    law_no_hash_at_unknown_height(chain, (current_height - i) as u64);
    lemma_array_bytes::<32>(zeros(32));
}

} // verus!
