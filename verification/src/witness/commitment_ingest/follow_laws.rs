//! Which events following the chain tip gives.

use super::ingest::{reports_block, FollowState};
use super::parser::block_commitments;
use crate::bytes::lemma_padded_hash;
use crate::chain_ingest::chain_tracker::{fork_point, pushed};
use crate::chain_ingest::proto::{tree_size_in, CompactBlock};
use crate::witness::witness_types::WitnessChainEvent;
use vstd::prelude::*;

verus! {

/// The event of a new block tells its height, its hash and its parent's, both
/// cut or filled to 32 bytes, its commitments and the tree size before it.
pub proof fn law_event_tells_the_block(
    event: WitnessChainEvent,
    block: CompactBlock,
    size: Option<u32>,
    hash: [u8; 32],
    parent: [u8; 32],
)
    requires
        forall|k: int|
            0 <= k < 32 ==> #[trigger] hash@[k] == (if k < block.hash@.len() {
                block.hash@[k]
            } else {
                0u8
            }),
        forall|k: int|
            0 <= k < 32 ==> #[trigger] parent@[k] == (if k < block.prev_hash@.len() {
                block.prev_hash@[k]
            } else {
                0u8
            }),
    ensures
        reports_block(event, block, size) <==> {
            &&& event is NewBlock
            &&& event->height == block.height
            &&& event->hash == hash
            &&& event->prev_hash == parent
            &&& event->commitments@ == block_commitments(block)
            &&& event->prior_tree_size == size
        },
{
    lemma_padded_hash(block.hash@, hash);
    lemma_padded_hash(block.prev_hash@, parent);
}

/// A block that is the first one, or whose parent is the tip one height below
/// it, gives one event, with the tree size after the last block. Any other gives
/// a rollback to the fork point and then the block, with no tree size.
pub proof fn law_follower_tells_reorgs(
    state: FollowState,
    block: CompactBlock,
    parent: [u8; 32],
    events: Seq<WitnessChainEvent>,
)
    requires
        forall|k: int|
            0 <= k < 32 ==> #[trigger] parent@[k] == (if k < block.prev_hash@.len() {
                block.prev_hash@[k]
            } else {
                0u8
            }),
    ensures
        ({
            let tip = state.chain[state.chain.len() - 1];
            let follows = state.chain.len() == 0 || (tip.1 == parent && block.height == tip.0 + 1);
            &&& follows ==> (state.emits(block, events) <==> events.len() == 1 && reports_block(
                events[0],
                block,
                state.tree_size,
            ))
            &&& !follows ==> (state.emits(block, events) <==> events.len() == 2 && events[0] == (
            WitnessChainEvent::Reorg { rollback_to: fork_point(state.chain, parent) })
                && reports_block(events[1], block, None))
        }),
{
    lemma_padded_hash(block.prev_hash@, parent);
}

/// The follower then stands at the block, tracks it under its hash, and knows
/// the tree size after it where the block's metadata gives one.
pub proof fn law_follower_moves_to_the_block(
    state: FollowState,
    depth: nat,
    block: CompactBlock,
    hash: [u8; 32],
    parent: [u8; 32],
)
    requires
        forall|k: int|
            0 <= k < 32 ==> #[trigger] hash@[k] == (if k < block.hash@.len() {
                block.hash@[k]
            } else {
                0u8
            }),
        forall|k: int|
            0 <= k < 32 ==> #[trigger] parent@[k] == (if k < block.prev_hash@.len() {
                block.prev_hash@[k]
            } else {
                0u8
            }),
    ensures
        state.after(depth, block).current_height == block.height,
        state.after(depth, block).chain == pushed(state.chain, depth, block.height, hash, parent),
        state.after(depth, block).tree_size == tree_size_in(block),
{
    lemma_padded_hash(block.hash@, hash);
    lemma_padded_hash(block.prev_hash@, parent);
}

} // verus!
