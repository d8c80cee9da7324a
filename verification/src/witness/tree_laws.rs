//! Laws of the note commitment tree.

use crate::witness::commitment_tree_db::{blocks_kept, total_commitments, TreeState};
use crate::witness::merkle::{
    hash_bytes, lemma_node_local, lemma_node_past_end, lemma_node_shift, lemma_node_tiers, node_at,
};
use crate::witness::sinsemilla::empty_root;
use crate::witness::witness_types::{
    leaf_of, shard_of, spans, subshard_of, BroadcastData, L0_DB_ROWS, L0_MAX_SHARDS, SHARD_LEAVES,
    SUBSHARDS_PER_SHARD, SUBSHARD_LEAVES, SUBSHARD_ROW_BYTES, TREE_DEPTH,
};
use vstd::arithmetic::power2::{lemma2_to64, pow2};
use vstd::prelude::*;

verus! {

/// The root of a tree that stores all its leaves is the root, 32 levels up,
/// over those leaves.
pub proof fn law_root_is_over_all_leaves(tree: TreeState)
    requires
        tree.shaped(),
        tree.leaf_offset == 0,
    ensures
        tree.root() == node_at(hash_bytes(tree.leaves), 0, TREE_DEPTH as nat, 0),
{
    lemma2_to64();
    lemma_node_tiers(hash_bytes(tree.leaves), tree.shard_root_seq(), 0, 16, 16, 0);
}

/// A tree without leaves has the empty root of depth 32.
pub proof fn law_empty_tree_root()
    ensures
        TreeState::empty(0, seq![]).root() == empty_root(TREE_DEPTH as nat),
{
    lemma2_to64();
    let tree = TreeState::empty(0, seq![]);
    assert(total_commitments(tree.blocks) == 0);
    law_root_is_over_all_leaves(tree);
    assert(0 * pow2(32) == 0);
    lemma_node_past_end(hash_bytes(tree.leaves), 0, 32, 0);
}

/// A windowed tree that was given the roots of the completed shards before
/// its window has the shard roots and the root of the full tree.
pub proof fn law_window_root_equals_full_root(full: TreeState, windowed: TreeState)
    requires
        full.shaped(),
        windowed.shaped(),
        full.leaf_offset == 0,
        windowed.leaf_offset <= full.leaves.len(),
        windowed.leaves == full.leaves.skip(windowed.leaf_offset as int),
        windowed.prefetched_shard_roots.len() == windowed.first_shard(),
        forall|i: int|
            0 <= i < windowed.first_shard() ==> (#[trigger] windowed.prefetched_shard_roots[i])@
                == full.shard_root(i),
    ensures
        windowed.shard_root_seq() == full.shard_root_seq(),
        windowed.root() == full.root(),
{
    let start = windowed.first_shard();
    assert(windowed.shard_root_seq().len() == full.shard_root_seq().len());
    assert forall|i: int| 0 <= i < full.shard_root_seq().len() implies windowed.shard_root_seq()[i]
        == full.shard_root_seq()[i] by {
        if i < start {
            assert(windowed.prefetched_shard_roots[i]@ == full.shard_root(i));
        } else {
            lemma2_to64();
            let nodes = hash_bytes(full.leaves);
            let other = hash_bytes(windowed.leaves);
            assert forall|j: int|
                (i - start) * pow2(16) <= j < (i - start + 1) * pow2(16) implies (
            #[trigger] node_at(other, 0, 0, j)) == node_at(nodes, 0, 0, j + start * pow2(16)) by {
                assert(start * pow2(16) == windowed.leaf_offset);
            }
            lemma_node_shift(nodes, other, 0, 16, i - start, start);
        }
    }
    assert(windowed.shard_root_seq() =~= full.shard_root_seq());
}

/// A completed sub-shard is immutable: later blocks change neither its leaves
/// nor its root.
pub proof fn law_full_subshards_are_immutable(
    tree: TreeState,
    height: u64,
    hash: [u8; 32],
    commitments: Seq<[u8; 32]>,
    slot: int,
)
    requires
        0 <= slot,
        (slot + 1) * SUBSHARD_LEAVES <= tree.leaves.len(),
    ensures
        ({
            let after = tree.appended(height, hash, commitments);
            &&& after.subshard_leaf_bytes(slot) == tree.subshard_leaf_bytes(slot)
            &&& after.subshard_root(slot) == tree.subshard_root(slot)
        }),
{
    let after = tree.appended(height, hash, commitments);
    assert(after.subshard_leaf_bytes(slot) =~= tree.subshard_leaf_bytes(slot));
    lemma2_to64();
    let nodes = hash_bytes(tree.leaves);
    let grown = hash_bytes(after.leaves);
    assert forall|j: int| slot * pow2(8) <= j < (slot + 1) * pow2(8) implies (#[trigger] node_at(
        grown,
        0,
        0,
        j,
    )) == node_at(nodes, 0, 0, j) by {}
    lemma_node_local(nodes, grown, 0, 8, slot);
}

/// A completed shard is immutable: later blocks do not change its root.
pub proof fn law_full_shards_are_immutable(
    tree: TreeState,
    height: u64,
    hash: [u8; 32],
    commitments: Seq<[u8; 32]>,
    shard: int,
)
    requires
        tree.shaped(),
        0 <= shard,
        (shard + 1) * SHARD_LEAVES <= tree.tree_size(),
    ensures
        tree.appended(height, hash, commitments).shard_root(shard) == tree.shard_root(shard),
{
    if shard >= tree.first_shard() {
        lemma2_to64();
        let local = shard - tree.first_shard();
        let nodes = hash_bytes(tree.leaves);
        let grown = hash_bytes(tree.appended(height, hash, commitments).leaves);
        assert forall|j: int|
            local * pow2(16) <= j < (local + 1) * pow2(16) implies (#[trigger] node_at(
            grown,
            0,
            0,
            j,
        )) == node_at(nodes, 0, 0, j) by {}
        lemma_node_local(nodes, grown, 0, 16, local);
    }
}

/// Rolling back to a height below a block that was just appended removes that
/// block and its leaves and nothing else, where the tree's newest block is at
/// or below that height.
pub proof fn law_rollback_undoes_append(
    tree: TreeState,
    height: u64,
    hash: [u8; 32],
    commitments: Seq<[u8; 32]>,
    target_height: u64,
)
    requires
        tree.shaped(),
        commitments.len() <= u32::MAX,
        target_height < height,
        tree.blocks.len() > 0 ==> tree.blocks.last().height <= target_height,
    ensures
        ({
            let back = tree.appended(height, hash, commitments).rolled_back(target_height);
            &&& back.leaves == tree.leaves
            &&& back.blocks == tree.blocks
            &&& back.leaf_offset == tree.leaf_offset
            &&& back.prefetched_shard_roots == tree.prefetched_shard_roots
            &&& back.root() == tree.root()
            &&& back.pir_db() == tree.pir_db()
        }),
{
    let after = tree.appended(height, hash, commitments);
    let back = after.rolled_back(target_height);
    assert(after.blocks.drop_last() =~= tree.blocks);
    assert(blocks_kept(after.blocks, target_height) == blocks_kept(tree.blocks, target_height));
    assert(blocks_kept(tree.blocks, target_height) == tree.blocks.len());
    assert(back.blocks =~= tree.blocks);
    assert(back.leaves =~= tree.leaves);
    law_contents_decide(tree, back);
}

/// Appending again what a rollback removed gives the tree that had it.
pub proof fn law_reappend_restores(
    tree: TreeState,
    height: u64,
    hash: [u8; 32],
    commitments: Seq<[u8; 32]>,
    target_height: u64,
)
    requires
        tree.shaped(),
        commitments.len() <= u32::MAX,
        target_height < height,
        tree.blocks.len() > 0 ==> tree.blocks.last().height <= target_height,
    ensures
        ({
            let once = tree.appended(height, hash, commitments);
            let again = once.rolled_back(target_height).appended(height, hash, commitments);
            &&& again.leaves == once.leaves
            &&& again.blocks == once.blocks
            &&& again.root() == once.root()
        }),
{
    law_rollback_undoes_append(tree, height, hash, commitments, target_height);
    let once = tree.appended(height, hash, commitments);
    let again = once.rolled_back(target_height).appended(height, hash, commitments);
    law_contents_decide(once, again);
}

/// A block without commitments changes neither the size nor the root.
pub proof fn law_empty_block_preserves_root(tree: TreeState, height: u64, hash: [u8; 32])
    ensures
        tree.appended(height, hash, seq![]).tree_size() == tree.tree_size(),
        tree.appended(height, hash, seq![]).root() == tree.root(),
        tree.appended(height, hash, seq![]).ss_root_cache == tree.ss_root_cache,
{
    let after = tree.appended(height, hash, seq![]);
    assert(after.leaves =~= tree.leaves);
    assert(after.ss_root_cache =~= tree.ss_root_cache);
    law_contents_decide(tree, after);
}

/// What a tree computes depends on its leaves, its offset and the roots it
/// was given: the cache and the block records change none of it.
pub proof fn law_contents_decide(a: TreeState, b: TreeState)
    requires
        a.leaves == b.leaves,
        a.leaf_offset == b.leaf_offset,
        a.prefetched_shard_roots == b.prefetched_shard_roots,
    ensures
        a.shard_root_seq() == b.shard_root_seq(),
        a.root() == b.root(),
        a.pir_db() == b.pir_db(),
        forall|broadcast: BroadcastData, anchor_height: u64|
            a.broadcasts(broadcast, anchor_height) == b.broadcasts(broadcast, anchor_height),
{
    assert(a.shard_root_seq() =~= b.shard_root_seq());
    assert(a.pir_db() =~= b.pir_db());
    assert forall|broadcast: BroadcastData, anchor_height: u64|
        a.broadcasts(broadcast, anchor_height) == b.broadcasts(broadcast, anchor_height) by {
        assert forall|i: int|
            0 <= i < a.window_count() implies #[trigger] a.shard_subroots(a.left_shards() + i)
            == b.shard_subroots(b.left_shards() + i) by {
            assert(a.shard_subroots(a.left_shards() + i) =~= b.shard_subroots(
                b.left_shards() + i,
            ));
        }
    }
}

/// Building twice in a row builds the same: the roots that the first build
/// cached are those that it published.
pub proof fn law_warm_cache_changes_nothing(tree: TreeState, after: TreeState)
    requires
        tree.shaped(),
        tree.cache_filled(after),
    ensures
        after.pir_db() == tree.pir_db(),
        after.root() == tree.root(),
        forall|broadcast: BroadcastData, anchor_height: u64|
            after.publishes(broadcast, anchor_height) == tree.publishes(broadcast, anchor_height),
        tree.valid() ==> after.cache_true(),
{
    law_contents_decide(tree, after);
    assert forall|slot: int| 0 <= slot implies #[trigger] after.held_root(slot) == tree.held_root(
        slot,
    ) by {
        if slot < L0_DB_ROWS {
            assert(after.ss_root_cache[slot] is Some || tree.ss_root_cache[slot] is None);
        }
    }
    assert forall|local: int| 0 <= local implies #[trigger] after.held_subroots(local)
        == tree.held_subroots(local) by {
        assert(after.held_subroots(local) =~= tree.held_subroots(local));
    }
    assert forall|shard: int| #[trigger] after.held_shard_root(shard) == tree.held_shard_root(
        shard,
    ) by {
        if shard >= tree.first_shard() {
            assert(after.held_subroots(shard - tree.first_shard()) == tree.held_subroots(
                shard - tree.first_shard(),
            ));
        }
    }
    if tree.valid() {
        assert forall|slot: int|
            0 <= slot < L0_DB_ROWS && (#[trigger] after.ss_root_cache[slot]) is Some implies
            after.ss_root_cache[slot]->0@ == after.subshard_root(slot) by {
            assert(tree.held_root(slot) == tree.subshard_root(slot));
        }
    }
}

/// The window slides: once it is full, every shard that is added takes the
/// place of the oldest one, whose root stays in the broadcast cap.
pub proof fn law_window_slides(tree: TreeState, broadcast: BroadcastData, anchor_height: u64)
    requires
        tree.shaped(),
        tree.broadcasts(broadcast, anchor_height),
    ensures
        0 <= tree.window_count() <= L0_MAX_SHARDS,
        tree.window_count() < L0_MAX_SHARDS ==> tree.window_start() == tree.first_shard(),
        tree.window_start() + tree.window_count() == spans(
            tree.tree_size(),
            SHARD_LEAVES as int,
        ),
        forall|shard: int|
            0 <= shard < tree.window_start() + tree.window_count() ==> (
            #[trigger] broadcast.cap.shard_roots@[shard])@ == tree.shard_root(shard),
{
    assert forall|shard: int| 0 <= shard < tree.window_start() + tree.window_count() implies (
    #[trigger] broadcast.cap.shard_roots@[shard])@ == tree.shard_root(shard) by {
        let cap = hash_bytes(broadcast.cap.shard_roots@);
        assert(cap.len() == tree.shard_root_seq().len());
        assert(cap[shard] == broadcast.cap.shard_roots@[shard]@);
    }
}

/// The row of the PIR database that a position maps to holds, at the
/// position's place, the leaf of that position.
pub proof fn law_row_holds_leaf(tree: TreeState, position: u64)
    requires
        tree.shaped(),
        tree.in_capacity(),
        tree.window_start() <= shard_of(position) < tree.window_start() + tree.window_count(),
        position < 0x1_0000_0000,
    ensures
        ({
            let row = (shard_of(position) - tree.window_start()) * SUBSHARDS_PER_SHARD
                + subshard_of(position);
            let at = row * SUBSHARD_ROW_BYTES + leaf_of(position) * 32;
            &&& at + 32 <= tree.pir_db().len()
            &&& tree.pir_db().subrange(at, at + 32) == tree.local_leaf(
                position - tree.leaf_offset,
            )
        }),
{
    let row = (shard_of(position) - tree.window_start()) * SUBSHARDS_PER_SHARD + subshard_of(
        position,
    );
    let at = row * SUBSHARD_ROW_BYTES + leaf_of(position) * 32;
    let local = position - tree.leaf_offset;
    assert(at == (local - tree.left_shards() * SHARD_LEAVES) * 32);
    assert(tree.local_leaf(local).len() == 32);
    assert(tree.pir_db().subrange(at, at + 32) =~= tree.local_leaf(local));
}

} // verus!
