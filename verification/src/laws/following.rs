//! What the follow loops and the servers make of blocks and events. Each law
//! speaks of any values that the calls may leave and return.

use crate::chain_ingest::chain_tracker::{fork_point, pushed, ChainAction};
use crate::chain_ingest::proto::{tree_size_in, CompactBlock};
use crate::combined_server::{
    block_entries, catch_up_decryption, rolled_down, CombinedFollower,
};
use crate::hashtable_pir::{HashTableDb as BareTable, HashTableError};
use crate::laws::combined::{
    law_edge_block_is_cut_to_the_window, law_extension_goes_to_all_three,
    law_reorg_rolls_all_three_back,
};
use crate::nullifier::nf_ingest::follow_laws as spend_follow;
use crate::nullifier::nf_ingest::ingest::{self as spend_ingest, orphans};
use crate::nullifier::nf_ingest::parser::{block_spends, size_before};
use crate::nullifier::spend_types::ChainEvent as SpendEvent;
use crate::pir_types::ServerPhase;
use crate::spend_server::server as spend_server;
use crate::spend_types::ChainEvent as BareEvent;
use crate::witness::commitment_ingest::follow_laws as tree_follow;
use crate::witness::commitment_ingest::ingest as tree_ingest;
use crate::witness::commitment_ingest::parser::{block_commitments, block_leaves};
use crate::witness::commitment_tree_db::CommitmentTreeDb;
use crate::witness::decryption_db::DecryptionDb;
use crate::witness::witness_server::server as tree_server;
use crate::witness::witness_types::WitnessChainEvent;
use vstd::prelude::*;

verus! {

/// Following a block for the nullifier table reports it as new, with its
/// nullifiers, where it is the first one or right above its parent at the tip;
/// any other is reported as a reorg, with the orphaned blocks above the fork
/// point and this one block in their place. The follower then stands at it.
pub proof fn law_spend_follower_reports_each_block(
    follower: &mut spend_ingest::Follower,
    block: CompactBlock,
    event: SpendEvent,
    hash: [u8; 32],
    parent: [u8; 32],
)
    requires
        old(follower).wf(),
        call_ensures(spend_ingest::Follower::accept, (follower, &block), event),
        forall|k: int|
            0 <= k < 32 ==> #[trigger] hash@[k] == (if k < block.hash@.len() {
                block.hash@[k]
            } else {
                0u8
            }),
        forall|k: int|
            0 <= k < 32 ==> #[trigger] parent@[k] == (if k < block.prev_hash@.len() {
                block.prev_hash@[k]
            } else {
                0u8
            }),
    ensures
        ({
            let before = old(follower)@;
            let after = final(follower)@;
            let tip = before.chain[before.chain.len() - 1];
            let follows = before.chain.len() == 0 || (tip.1 == parent && block.height == tip.0
                + 1);
            let spends = block_spends(block.vtx@, size_before(block, before.tree_size));
            &&& after.current_height == block.height
            &&& after.tree_size == tree_size_in(block)
            &&& after.chain == pushed(before.chain, 20, block.height, hash, parent)
            &&& event is NewBlock <==> follows
            &&& event is NewBlock ==> event->NewBlock_height == block.height
                && event->NewBlock_hash == hash && event->NewBlock_prev_hash == parent
                && event->NewBlock_nullifiers@ == spends
            &&& event is Reorg ==> {
                &&& event->orphaned@ == orphans(
                    before.chain,
                    fork_point(before.chain, parent),
                    before.current_height,
                )
                &&& event->new_blocks@.len() == 1
                &&& event->new_blocks@[0].height == block.height
                &&& event->new_blocks@[0].hash == hash
                &&& event->new_blocks@[0].prev_hash == parent
                &&& event->new_blocks@[0].nullifiers@ == spends
            }
        }),
{
    spend_follow::law_follower_tells_reorgs(old(follower)@, block, parent);
    spend_follow::law_follower_moves_to_the_block(old(follower)@, 20, block, hash, parent);
    spend_follow::law_spends_tell_the_block(block, old(follower)@.tree_size, hash, parent);
}

/// Following a block for the tree gives one event, with the tree size after the
/// last block, where it is the first one or right above its parent at the tip;
/// any other gives a rollback to the fork point and then the block, with no
/// tree size. The follower then stands at it.
pub proof fn law_tree_follower_reports_each_block(
    follower: &mut tree_ingest::Follower,
    block: CompactBlock,
    events: Vec<WitnessChainEvent>,
    hash: [u8; 32],
    parent: [u8; 32],
)
    requires
        old(follower).wf(),
        call_ensures(tree_ingest::Follower::accept, (follower, &block), events),
        forall|k: int|
            0 <= k < 32 ==> #[trigger] hash@[k] == (if k < block.hash@.len() {
                block.hash@[k]
            } else {
                0u8
            }),
        forall|k: int|
            0 <= k < 32 ==> #[trigger] parent@[k] == (if k < block.prev_hash@.len() {
                block.prev_hash@[k]
            } else {
                0u8
            }),
    ensures
        ({
            let before = old(follower)@;
            let after = final(follower)@;
            let tip = before.chain[before.chain.len() - 1];
            let follows = before.chain.len() == 0 || (tip.1 == parent && block.height == tip.0
                + 1);
            let last = events@[events@.len() - 1];
            &&& after.current_height == block.height
            &&& after.tree_size == tree_size_in(block)
            &&& after.chain == pushed(before.chain, 20, block.height, hash, parent)
            &&& follows ==> events@.len() == 1
            &&& !follows ==> events@.len() == 2 && events@[0] == (WitnessChainEvent::Reorg {
                rollback_to: fork_point(before.chain, parent),
            })
            &&& last is NewBlock
            &&& last->height == block.height
            &&& last->hash == hash
            &&& last->prev_hash == parent
            &&& last->commitments@ == block_commitments(block)
            &&& follows ==> last->prior_tree_size == before.tree_size
            &&& !follows ==> last->prior_tree_size is None
        }),
{
    let before = old(follower)@;
    tree_follow::law_follower_tells_reorgs(before, block, parent, events@);
    tree_follow::law_follower_moves_to_the_block(before, 20, block, hash, parent);
    let last = events@[events@.len() - 1];
    tree_follow::law_event_tells_the_block(last, block, before.tree_size, hash, parent);
    tree_follow::law_event_tells_the_block(last, block, None, hash, parent);
}

/// Following a block in the combined server adds it to all three subsystems,
/// after all three were rolled back to one and the same fork point where it
/// makes for a reorg; nullifiers are evicted down to a million where it does
/// not.
pub proof fn law_combined_follower_keeps_all_three(
    follower: &mut CombinedFollower,
    block: CompactBlock,
    outcome: (ChainAction, Result<(), HashTableError>),
    hash: [u8; 32],
    parent: [u8; 32],
)
    requires
        old(follower).wf(),
        call_ensures(CombinedFollower::accept, (follower, &block), outcome),
        forall|k: int|
            0 <= k < 32 ==> #[trigger] hash@[k] == (if k < block.hash@.len() {
                block.hash@[k]
            } else {
                0u8
            }),
        forall|k: int|
            0 <= k < 32 ==> #[trigger] parent@[k] == (if k < block.prev_hash@.len() {
                block.prev_hash@[k]
            } else {
                0u8
            }),
    ensures
        ({
            let before = old(follower)@;
            let after = final(follower)@;
            let tip = before.chain[before.chain.len() - 1];
            let follows = before.chain.len() == 0 || (tip.1 == parent && block.height == tip.0
                + 1);
            let fork = fork_point(before.chain, parent);
            let entries = block_entries(block, before.tree_size);
            let tree = if follows {
                before.tree
            } else {
                before.tree.rolled_back(fork)
            };
            let store = if follows {
                before.decryption
            } else {
                before.decryption.rolled_back(fork)
            };
            let table = if follows {
                before.nullifiers
            } else {
                rolled_down(before.nullifiers, fork)
            };
            let taken = table.inserted(block.height, hash, entries);
            &&& follows ==> outcome.0 == ChainAction::Extend
            &&& !follows ==> outcome.0 == (ChainAction::Reorg { rollback_to: fork })
            &&& outcome.1 is Ok <==> taken is Ok
            &&& after.tree == tree.appended(block.height, hash, block_commitments(block))
            &&& after.decryption == store.appended(block.height, hash, block_leaves(block))
            &&& follows && taken is Ok ==> after.nullifiers == taken->Ok_0.evicted_to(1_000_000)
            &&& follows && taken is Err ==> after.nullifiers == table.evicted_to(1_000_000)
            &&& !follows && taken is Ok ==> after.nullifiers == taken->Ok_0
            &&& !follows && taken is Err ==> after.nullifiers == table
            &&& after.current_height == block.height
            &&& after.tree_size == tree_size_in(block)
            &&& after.chain == pushed(before.chain, 20, block.height, hash, parent)
        }),
{
    let before = old(follower)@;
    let tip = before.chain[before.chain.len() - 1];
    crate::bytes::lemma_padded_hash(block.hash@, hash);
    crate::bytes::lemma_padded_hash(block.prev_hash@, parent);
    if before.chain.len() == 0 || (tip.1 == parent && block.height == tip.0 + 1) {
        law_extension_goes_to_all_three(before, block, hash, parent);
    } else {
        law_reorg_rolls_all_three_back(before, block, hash, parent);
    }
}

/// A store that catches up takes of the block at the edge of its window the last
/// leaves, `count` of them: as many as the Orchard tree has past the offset, or
/// all where the block has fewer or is not at the edge. It stays as it is where
/// that block ends before the window or has no metadata.
pub proof fn law_store_catches_up_from_the_edge(
    db: &mut DecryptionDb,
    block: CompactBlock,
    hash: [u8; 32],
    edge: bool,
    count: int,
)
    requires
        old(db).wf(),
        call_ensures(catch_up_decryption, (db, &block), ()),
        forall|k: int|
            0 <= k < 32 ==> #[trigger] hash@[k] == (if k < block.hash@.len() {
                block.hash@[k]
            } else {
                0u8
            }),
        edge == (old(db)@.leaves.len() == 0 && old(db)@.leaf_offset > 0),
        ({
            let all = block_leaves(block).len();
            let size = if block.chain_metadata is Some {
                block.chain_metadata->Some_0.orchard_commitment_tree_size as int
            } else {
                0
            };
            count == (if !edge || all <= size - old(db)@.leaf_offset {
                all as int
            } else {
                size - old(db)@.leaf_offset
            })
        }),
        block_leaves(block).len() <= u32::MAX,
    ensures
        edge && (block.chain_metadata is None
            || block.chain_metadata->Some_0.orchard_commitment_tree_size <= old(db)@.leaf_offset)
            ==> final(db)@ == old(db)@,
        !edge || (block.chain_metadata is Some
            && block.chain_metadata->Some_0.orchard_commitment_tree_size > old(db)@.leaf_offset)
            ==> {
            let all = block_leaves(block);
            let n = old(db)@.leaves.len();
            &&& final(db)@.leaf_offset == old(db)@.leaf_offset
            &&& final(db)@.leaves.len() == n + count
            &&& forall|i: int|
                0 <= i < n ==> #[trigger] final(db)@.leaves[i] == old(db)@.leaves[i]
            &&& forall|i: int|
                n <= i < n + count ==> #[trigger] final(db)@.leaves[i] == all[all.len() - count + i
                    - n]
            &&& final(db)@.blocks.len() == old(db)@.blocks.len() + 1
            &&& final(db)@.blocks[old(db)@.blocks.len() as int].height == block.height
            &&& final(db)@.blocks[old(db)@.blocks.len() as int].hash == hash
            &&& final(db)@.blocks[old(db)@.blocks.len() as int].num_leaves == count
        },
{
    law_edge_block_is_cut_to_the_window(old(db)@, block, hash, edge, count);
}

/// While syncing, a table takes each new block, or names the bucket that
/// overflows and stays as it is; reorgs are not looked at.
pub proof fn law_synced_blocks_are_inserted(
    db: &mut BareTable,
    event: BareEvent,
    result: Result<(), spend_server::ServerError>,
)
    requires
        call_ensures(spend_server::apply_synced, (db, &event), result),
    ensures
        event is Reorg ==> result is Ok && final(db)@ == old(db)@,
        event is NewBlock ==> {
            let taken = old(db)@.inserted(
                event->NewBlock_height,
                event->NewBlock_hash,
                event->NewBlock_nullifiers@,
            );
            &&& taken is Ok ==> result is Ok && final(db)@ == taken->Ok_0
            &&& taken is Err ==> final(db)@ == old(db)@ && result == Err::<
                (),
                spend_server::ServerError,
            >(
                spend_server::ServerError::HashTable(
                    HashTableError::BucketOverflow { bucket_idx: taken->Err_0 },
                ),
            )
        },
{
}

/// While following, a table does what the laws of events say.
pub proof fn law_followed_events_are_applied(
    db: &mut BareTable,
    event: BareEvent,
    result: Result<(), spend_server::ServerError>,
)
    requires
        call_ensures(spend_server::apply_event, (db, &event), result),
    ensures
        ({
            let (after, overflow) = spend_server::after_event(old(db)@, event);
            &&& final(db)@ == after
            &&& result is Ok <==> overflow is None
            &&& overflow is Some ==> result == Err::<(), spend_server::ServerError>(
                spend_server::ServerError::HashTable(
                    HashTableError::BucketOverflow { bucket_idx: overflow->Some_0 },
                ),
            )
        }),
{
}

/// While syncing, a tree takes each new block whose prior tree size is its own
/// or not known, and refuses any other as it is; progress is reported at every
/// height that a thousand divides. Reorgs are not looked at.
pub proof fn law_synced_tree_takes_blocks(
    tree: &mut CommitmentTreeDb,
    event: WitnessChainEvent,
    target_height: u64,
    result: Result<Option<ServerPhase>, tree_server::ServerError>,
)
    requires
        old(tree).shaped(),
        call_ensures(tree_server::apply_synced, (tree, &event, target_height), result),
    ensures
        event is Reorg ==> result is Ok && result->Ok_0 is None && final(tree)@ == old(tree)@,
        event is NewBlock ==> {
            let agrees = event->prior_tree_size is None || event->prior_tree_size->Some_0
                == old(tree)@.leaf_offset + old(tree)@.leaves.len();
            &&& result is Ok <==> agrees
            &&& agrees ==> final(tree)@ == old(tree)@.appended(
                event->height,
                event->hash,
                event->commitments@,
            )
            &&& !agrees ==> final(tree)@ == old(tree)@
            &&& agrees && event->height as int % 1_000 == 0 ==> result->Ok_0 == Some(
                ServerPhase::Syncing { current_height: event->height, target_height },
            )
            &&& agrees && event->height as int % 1_000 != 0 ==> result->Ok_0 is None
        },
{
}

/// While following, a tree takes each new block whose prior tree size is its own
/// or not known, refuses any other as it is, and rolls back on a reorg. Only
/// blocks count toward the next snapshot.
pub proof fn law_followed_tree_takes_blocks(
    tree: &mut CommitmentTreeDb,
    event: WitnessChainEvent,
    result: Result<bool, tree_server::ServerError>,
)
    requires
        old(tree).shaped(),
        call_ensures(tree_server::apply_event, (tree, &event), result),
    ensures
        event is Reorg ==> result is Ok && !result->Ok_0 && final(tree)@ == old(tree)@.rolled_back(
            event->rollback_to,
        ),
        event is NewBlock ==> {
            let agrees = event->prior_tree_size is None || event->prior_tree_size->Some_0
                == old(tree)@.leaf_offset + old(tree)@.leaves.len();
            &&& result is Ok <==> agrees
            &&& agrees ==> result->Ok_0 && final(tree)@ == old(tree)@.appended(
                event->height,
                event->hash,
                event->commitments@,
            )
            &&& !agrees ==> final(tree)@ == old(tree)@
        },
{
}

} // verus!
