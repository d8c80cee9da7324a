//! What following and catching up do to the three subsystems, step by step.

use crate::block_table::{lemma_rank_bounds, TableState};
use crate::bytes::lemma_padded_hash;
use crate::chain_ingest::chain_tracker::{fork_point, pushed};
use crate::chain_ingest::proto::{tree_size_in, CompactBlock};
use crate::combined_server::{
    block_entries, caught_up, rolled_down, CombinedState,
};
use crate::nullifier::hashtable_pir::entries_of;
use crate::nullifier::nf_ingest::parser::{block_spends, size_before};
use crate::nullifier::spend_types::NullifierEntry;
use crate::witness::commitment_ingest::parser::{block_commitments, block_leaves};
use crate::witness::decryption_db::DecryptionState;
use vstd::prelude::*;

verus! {

/// Rolling down rolls back the highest block, again and again, while it is
/// above the height. `states` holds the table before the first and after each
/// of them.
pub proof fn law_rolling_down_goes_highest_first(
    states: Seq<TableState<NullifierEntry>>,
    rollback_to: u64,
)
    requires
        states.len() > 0,
        forall|j: int, k: int|
            0 <= k && j == k + 1 && j < states.len() ==> #[trigger] states[j] == (
            #[trigger] states[k]).rolled_back(states[k].index[states[k].index.len() - 1].hash@),
        forall|k: int|
            0 <= k < states.len() - 1 ==> {
                let state = #[trigger] states[k];
                let highest = state.index[state.index.len() - 1];
                state.index.len() > 0 && highest.height > rollback_to && state.has_block(
                    highest.hash@,
                )
            },
        ({
            let last = states.last();
            last.index.len() == 0 || last.index[last.index.len() - 1].height <= rollback_to
        }),
    ensures
        rolled_down(states[0], rollback_to) == states.last(),
    decreases states.len(),
{
    if states.len() > 1 {
        assert(states[1] == states[0].rolled_back(
            states[0].index[states[0].index.len() - 1].hash@,
        ));
        let rest = states.drop_first();
        assert forall|j: int, k: int| 0 <= k && j == k + 1 && j < rest.len() implies #[trigger] rest[
            j
        ] == (#[trigger] rest[k]).rolled_back(rest[k].index[rest[k].index.len() - 1].hash@) by {
            assert(states[j + 1] == states[k + 1].rolled_back(
                states[k + 1].index[states[k + 1].index.len() - 1].hash@,
            ));
        }
        lemma_rank_bounds(
            states[0].index,
            states[0].heights[states[0].index[states[0].index.len() - 1].hash@],
        );
        law_rolling_down_goes_highest_first(rest, rollback_to);
    }
}

/// What a block brings to the nullifier table: an entry for each nullifier, at
/// the block's height, with the positions that the tree size before it gives.
pub proof fn law_block_brings_its_spends(block: CompactBlock, prior_tree_size: Option<u32>)
    requires
        block.height <= u32::MAX,
    ensures
        ({
            let spends = block_spends(block.vtx@, size_before(block, prior_tree_size));
            let entries = block_entries(block, prior_tree_size);
            &&& entries.len() == spends.len()
            &&& forall|i: int|
                0 <= i < spends.len() ==> (#[trigger] entries[i]).nullifier == spends[i].nullifier
            &&& forall|i: int|
                0 <= i < spends.len() ==> (#[trigger] entries[i]).spend_height == block.height
            &&& forall|i: int|
                0 <= i < spends.len() ==> (#[trigger] entries[i]).first_output_position
                    == spends[i].first_output_position
            &&& forall|i: int|
                0 <= i < spends.len() ==> (#[trigger] entries[i]).action_count
                    == spends[i].action_count
        }),
{
    assert(block_entries(block, prior_tree_size) == entries_of(
        block.height,
        block_spends(block.vtx@, size_before(block, prior_tree_size)),
    ));
}

/// A block that is the first one, or whose parent is the tip one height below
/// it, is added to the nullifier table, the tree and the decryption store, and
/// the oldest nullifiers are evicted down to a million. Where its nullifiers
/// overflow a bucket, the table only evicts, and the tree and the store take the
/// block all the same.
pub proof fn law_extension_goes_to_all_three(
    state: CombinedState,
    block: CompactBlock,
    hash: [u8; 32],
    parent: [u8; 32],
)
    requires
        forall|k: int|
            0 <= k < 32 ==> #[trigger] hash@[k] == (if k < block.hash@.len() {
                block.hash@[k]
            } else {
                0u8
            }),
        forall|k: int|
            0 <= k < 32 ==> #[trigger] parent@[k] == (if k < block.prev_hash@.len() {
                block.prev_hash@[k]
            } else {
                0u8
            }),
        state.chain.len() == 0 || (state.chain[state.chain.len() - 1].1 == parent && block.height
            == state.chain[state.chain.len() - 1].0 + 1),
    ensures
        ({
            let after = state.after(block);
            let taken = state.nullifiers.inserted(
                block.height,
                hash,
                block_entries(block, state.tree_size),
            );
            &&& taken is Ok ==> after.nullifiers == taken->Ok_0.evicted_to(1_000_000)
            &&& taken is Err ==> after.nullifiers == state.nullifiers.evicted_to(1_000_000)
            &&& after.tree == state.tree.appended(block.height, hash, block_commitments(block))
            &&& after.decryption == state.decryption.appended(
                block.height,
                hash,
                block_leaves(block),
            )
            &&& after.current_height == block.height
            &&& after.tree_size == tree_size_in(block)
            &&& after.chain == pushed(state.chain, 20, block.height, hash, parent)
        }),
{
    lemma_padded_hash(block.hash@, hash);
    lemma_padded_hash(block.prev_hash@, parent);
}

/// Any other block is added after all three were rolled back to one and the
/// same fork point; then nothing is evicted.
pub proof fn law_reorg_rolls_all_three_back(
    state: CombinedState,
    block: CompactBlock,
    hash: [u8; 32],
    parent: [u8; 32],
)
    requires
        forall|k: int|
            0 <= k < 32 ==> #[trigger] hash@[k] == (if k < block.hash@.len() {
                block.hash@[k]
            } else {
                0u8
            }),
        forall|k: int|
            0 <= k < 32 ==> #[trigger] parent@[k] == (if k < block.prev_hash@.len() {
                block.prev_hash@[k]
            } else {
                0u8
            }),
        state.chain.len() > 0,
        state.chain[state.chain.len() - 1].1 != parent || block.height
            != state.chain[state.chain.len() - 1].0 + 1,
    ensures
        ({
            let after = state.after(block);
            let fork = fork_point(state.chain, parent);
            let base = rolled_down(state.nullifiers, fork);
            let taken = base.inserted(block.height, hash, block_entries(block, state.tree_size));
            &&& taken is Ok ==> after.nullifiers == taken->Ok_0
            &&& taken is Err ==> after.nullifiers == base
            &&& after.tree == state.tree.rolled_back(fork).appended(
                block.height,
                hash,
                block_commitments(block),
            )
            &&& after.decryption == state.decryption.rolled_back(fork).appended(
                block.height,
                hash,
                block_leaves(block),
            )
            &&& after.current_height == block.height
            &&& after.tree_size == tree_size_in(block)
            &&& after.chain == pushed(state.chain, 20, block.height, hash, parent)
        }),
{
    lemma_padded_hash(block.hash@, hash);
    lemma_padded_hash(block.prev_hash@, parent);
}

/// Of the block at the edge of the window, the last leaves are kept, as many as
/// the Orchard tree has past the offset or all where the block has fewer. A
/// block that ends before the window or has no metadata leaves the store as it
/// is. Any other block is taken with all its leaves.
pub proof fn law_edge_block_is_cut_to_the_window(
    db: DecryptionState,
    block: CompactBlock,
    hash: [u8; 32],
    edge: bool,
    count: int,
)
    requires
        forall|k: int|
            0 <= k < 32 ==> #[trigger] hash@[k] == (if k < block.hash@.len() {
                block.hash@[k]
            } else {
                0u8
            }),
        edge == (db.leaves.len() == 0 && db.leaf_offset > 0),
        ({
            let all = block_leaves(block).len();
            let size = if block.chain_metadata is Some {
                block.chain_metadata->Some_0.orchard_commitment_tree_size as int
            } else {
                0
            };
            count == (if !edge || all <= size - db.leaf_offset {
                all as int
            } else {
                size - db.leaf_offset
            })
        }),
        block_leaves(block).len() <= u32::MAX,
    ensures
        edge && (block.chain_metadata is None
            || block.chain_metadata->Some_0.orchard_commitment_tree_size <= db.leaf_offset)
            ==> caught_up(db, block) == db,
        !edge || (block.chain_metadata is Some
            && block.chain_metadata->Some_0.orchard_commitment_tree_size > db.leaf_offset) ==> {
            let after = caught_up(db, block);
            let all = block_leaves(block);
            let n = db.leaves.len();
            &&& after.leaf_offset == db.leaf_offset
            &&& after.leaves.len() == n + count
            &&& forall|i: int| 0 <= i < n ==> #[trigger] after.leaves[i] == db.leaves[i]
            &&& forall|i: int|
                n <= i < n + count ==> #[trigger] after.leaves[i] == all[all.len() - count + i - n]
            &&& after.blocks.len() == db.blocks.len() + 1
            &&& forall|i: int|
                0 <= i < db.blocks.len() ==> #[trigger] after.blocks[i] == db.blocks[i]
            &&& after.blocks[db.blocks.len() as int].height == block.height
            &&& after.blocks[db.blocks.len() as int].hash == hash
            &&& after.blocks[db.blocks.len() as int].num_leaves == count
        },
{
    lemma_padded_hash(block.hash@, hash);
}

} // verus!
