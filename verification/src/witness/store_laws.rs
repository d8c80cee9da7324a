//! Which leaves and blocks the tree and the decryption store hold after each
//! operation, and where the leaves stand in their databases, place by place.

use crate::pir_types::ServerPhase;
use crate::witness::commitment_tree_db::{self as tree_db, total_commitments, TreeState};
use crate::witness::decryption_db::{self as leaf_db, total_leaves, DecryptionState};
use crate::witness::decryption_server::state::metadata_for as store_metadata;
use crate::witness::decryption_types::DecryptionLeaf;
use crate::witness::merkle::hash_bytes;
use crate::witness::witness_server::state::metadata_for as tree_metadata;
use crate::witness::witness_types::{leaf_of, shard_of, spans, subshard_of, BroadcastData};
use vstd::prelude::*;

verus! {

/// The parts of a position are the digits of a number: 65,536 leaves to a
/// shard, 256 to a sub-shard.
pub proof fn law_position_digits(position: u64)
    requires
        position < 0x1_0000_0000_0000,
    ensures
        shard_of(position) * 65_536 + subshard_of(position) * 256 + leaf_of(position) == position,
        subshard_of(position) < 256,
        leaf_of(position) < 256,
{
}

/// As many spans are counted as it takes to hold all items, and no more.
pub proof fn law_spans_just_suffice(count: int, size: int)
    requires
        0 <= count,
        0 < size,
    ensures
        spans(count, size) >= 0,
        spans(count, size) * size >= count,
        count > 0 ==> (spans(count, size) - 1) * size < count,
        count == 0 ==> spans(count, size) == 0,
{
    if count > 0 {
        let q = (count - 1) / size;
        assert(q * size <= count - 1 < (q + 1) * size && q >= 0) by (nonlinear_arith)
            requires
                q == (count - 1) / size,
                count - 1 >= 0,
                size > 0,
        ;
        assert(q + 1 - 1 == q);
    }
}

/// Appending a block puts its commitments behind the leaves, in order, and one
/// record behind the blocks. Cached roots stay for exactly the sub-shards in
/// which no new leaf lies.
pub proof fn law_append_puts_leaves_behind(
    tree: TreeState,
    height: u64,
    hash: [u8; 32],
    commitments: Seq<[u8; 32]>,
)
    requires
        commitments.len() <= u32::MAX,
    ensures
        ({
            let after = tree.appended(height, hash, commitments);
            let n = tree.leaves.len();
            let more = commitments.len();
            &&& after.leaves.len() == n + more
            &&& forall|i: int| 0 <= i < n ==> #[trigger] after.leaves[i] == tree.leaves[i]
            &&& forall|i: int|
                n <= i < n + more ==> #[trigger] after.leaves[i] == commitments[i - n]
            &&& after.blocks.len() == tree.blocks.len() + 1
            &&& forall|i: int|
                0 <= i < tree.blocks.len() ==> #[trigger] after.blocks[i] == tree.blocks[i]
            &&& after.blocks[tree.blocks.len() as int].height == height
            &&& after.blocks[tree.blocks.len() as int].hash == hash
            &&& after.blocks[tree.blocks.len() as int].num_commitments == more
            &&& after.leaf_offset == tree.leaf_offset
            &&& after.prefetched_shard_roots == tree.prefetched_shard_roots
            &&& after.ss_root_cache.len() == tree.ss_root_cache.len()
            &&& forall|slot: int|
                0 <= slot < tree.ss_root_cache.len() ==> #[trigger] after.ss_root_cache[slot] == (
                if more == 0 || slot * 256 + 256 <= n || n + more <= slot * 256 {
                    tree.ss_root_cache[slot]
                } else {
                    None
                })
        }),
{
}

proof fn lemma_kept_records(
    blocks: Seq<tree_db::BlockRecord>,
    target_height: u64,
    kept: int,
)
    requires
        0 <= kept <= blocks.len(),
        kept > 0 ==> blocks[kept - 1].height <= target_height,
        forall|k: int| kept <= k < blocks.len() ==> (#[trigger] blocks[k]).height > target_height,
    ensures
        tree_db::blocks_kept(blocks, target_height) == kept,
    decreases blocks.len(),
{
    if kept < blocks.len() {
        assert(blocks[blocks.len() - 1].height > target_height);
        lemma_kept_records(blocks.drop_last(), target_height, kept);
    }
}

/// The number of commitments of some blocks is the sum of what each of them
/// brought. `ends` holds the running sums.
pub proof fn law_total_is_the_sum(blocks: Seq<tree_db::BlockRecord>, ends: Seq<int>)
    requires
        ends.len() > blocks.len(),
        ends[0] == 0,
        forall|k: int|
            0 <= k < blocks.len() ==> ends[k + 1] == ends[k] + (
            #[trigger] blocks[k]).num_commitments,
    ensures
        total_commitments(blocks) == ends[blocks.len() as int],
    decreases blocks.len(),
{
    if blocks.len() > 0 {
        let n = blocks.len() - 1;
        let front = blocks.drop_last();
        assert forall|k: int| 0 <= k < front.len() implies ends[k + 1] == ends[k] + (
        #[trigger] front[k]).num_commitments by {
            assert(front[k] == blocks[k]);
        }
        law_total_is_the_sum(front, ends);
        assert(ends[n + 1] == ends[n] + blocks[n].num_commitments);
    }
}

/// A rollback keeps the blocks up to the newest one that is not above the
/// target, with their leaves, and nothing else. `ends` holds the running sums
/// of the blocks' commitments. Cached roots stay for exactly the sub-shards
/// before the one of the last leaf that is left.
pub proof fn law_rollback_keeps_low_blocks(
    tree: TreeState,
    target_height: u64,
    kept: int,
    ends: Seq<int>,
)
    requires
        ends.len() > tree.blocks.len(),
        ends[0] == 0,
        forall|k: int|
            0 <= k < tree.blocks.len() ==> ends[k + 1] == ends[k] + (
            #[trigger] tree.blocks[k]).num_commitments,
        ends[tree.blocks.len() as int] == tree.leaves.len(),
        0 <= kept <= tree.blocks.len(),
        kept > 0 ==> tree.blocks[kept - 1].height <= target_height,
        forall|k: int|
            kept <= k < tree.blocks.len() ==> (#[trigger] tree.blocks[k]).height > target_height,
    ensures
        ({
            let after = tree.rolled_back(target_height);
            &&& after.blocks.len() == kept
            &&& forall|i: int| 0 <= i < kept ==> #[trigger] after.blocks[i] == tree.blocks[i]
            &&& after.leaves.len() == ends[kept]
            &&& forall|i: int|
                0 <= i < ends[kept] ==> #[trigger] after.leaves[i] == tree.leaves[i]
            &&& after.leaf_offset == tree.leaf_offset
            &&& after.prefetched_shard_roots == tree.prefetched_shard_roots
            &&& after.ss_root_cache.len() == tree.ss_root_cache.len()
            &&& forall|slot: int|
                0 <= slot < tree.ss_root_cache.len() ==> #[trigger] after.ss_root_cache[slot] == (
                if slot * 256 + 256 < ends[kept] {
                    tree.ss_root_cache[slot]
                } else {
                    None
                })
        }),
{
    lemma_kept_records(tree.blocks, target_height, kept);
    let front = tree.blocks.take(kept);
    assert forall|k: int| 0 <= k < front.len() implies ends[k + 1] == ends[k] + (
    #[trigger] front[k]).num_commitments by {
        assert(front[k] == tree.blocks[k]);
    }
    law_total_is_the_sum(front, ends);
    lemma_sums_ascend(tree.blocks, ends, kept);
}

proof fn lemma_sums_ascend(blocks: Seq<tree_db::BlockRecord>, ends: Seq<int>, kept: int)
    requires
        ends.len() > blocks.len(),
        forall|k: int|
            0 <= k < blocks.len() ==> ends[k + 1] == ends[k] + (
            #[trigger] blocks[k]).num_commitments,
        0 <= kept <= blocks.len(),
    ensures
        ends[kept] <= ends[blocks.len() as int],
    decreases blocks.len() - kept,
{
    if kept < blocks.len() {
        assert(ends[kept + 1] == ends[kept] + blocks[kept].num_commitments);
        lemma_sums_ascend(blocks, ends, kept + 1);
    }
}

/// The window of a tree is its newest stored shards, 32 of them where there are
/// more. `shards` is the number of shards that the leaves reach into.
pub proof fn law_window_is_the_newest_shards(tree: TreeState, shards: int, anchor_height: u64)
    requires
        tree.shaped(),
        tree.in_capacity(),
        0 <= shards,
        shards * 65_536 >= tree.leaf_offset + tree.leaves.len(),
        (shards - 1) * 65_536 < tree.leaf_offset + tree.leaves.len(),
    ensures
        ({
            let first = tree.leaf_offset as int / 65_536;
            &&& first <= shards
            &&& tree.window_start() == (if shards - first > 32 {
                shards - 32
            } else {
                first
            })
            &&& tree.window_start() + tree.window_count() == shards
            &&& tree_metadata(tree, anchor_height).anchor_height == anchor_height
            &&& tree_metadata(tree, anchor_height).tree_size == tree.leaf_offset
                + tree.leaves.len()
            &&& tree_metadata(tree, anchor_height).window_start_shard == tree.window_start()
            &&& tree_metadata(tree, anchor_height).window_shard_count == shards
                - tree.window_start()
            &&& tree_metadata(tree, anchor_height).populated_shards == shards
            &&& tree_metadata(tree, anchor_height).phase == ServerPhase::Serving
        }),
{
}

/// The database of a tree holds the 32 bytes of each leaf of the window at the
/// leaf's distance from the start of the window, those of the number two for
/// positions past the frontier, and zero bytes behind the window.
pub proof fn law_database_holds_leaves_in_order(tree: TreeState, byte: int)
    requires
        tree.shaped(),
        0 <= byte < 67_108_864,
    ensures
        tree.pir_db().len() == 67_108_864,
        ({
            let position = tree.window_start() * 65_536 + byte / 32;
            let inside = byte / 32 < tree.window_count() * 65_536;
            let i = position - tree.leaf_offset;
            tree.pir_db()[byte] == (if !inside {
                0u8
            } else if i < tree.leaves.len() {
                tree.leaves[i]@[byte % 32]
            } else if byte % 32 == 0 {
                2u8
            } else {
                0u8
            })
        }),
{
}

/// A broadcast holds the root of every shard, and for every shard of the window
/// the roots of its 256 sub-shards.
pub proof fn law_broadcast_holds_all_roots(
    tree: TreeState,
    broadcast: BroadcastData,
    anchor_height: u64,
    shards: int,
    i: int,
    j: int,
)
    requires
        tree.shaped(),
        tree.broadcasts(broadcast, anchor_height),
        0 <= shards,
        shards * 65_536 >= tree.leaf_offset + tree.leaves.len(),
        (shards - 1) * 65_536 < tree.leaf_offset + tree.leaves.len(),
    ensures
        broadcast.anchor_height == anchor_height,
        broadcast.window_start_shard == tree.window_start(),
        broadcast.window_start_shard + broadcast.window_shard_count == shards,
        broadcast.cap.shard_roots@.len() == shards,
        0 <= i < shards ==> broadcast.cap.shard_roots@[i]@ == tree.shard_root(i),
        broadcast.subshard_roots@.len() == broadcast.window_shard_count,
        0 <= i < broadcast.window_shard_count ==> broadcast.subshard_roots@[i].roots@.len() == 256,
        0 <= i < broadcast.window_shard_count && 0 <= j < 256
            ==> broadcast.subshard_roots@[i].roots@[j]@ == tree.subshard_root(
            (broadcast.window_start_shard + i - tree.leaf_offset as int / 65_536) * 256 + j,
        ),
{
    let cap = hash_bytes(broadcast.cap.shard_roots@);
    assert(cap.len() == shards);
    if 0 <= i < shards {
        assert(cap[i] == tree.shard_root_seq()[i]);
    }
    if 0 <= i < broadcast.window_shard_count {
        let roots = broadcast.subshard_roots@[i].roots@;
        assert(hash_bytes(roots) == tree.shard_subroots(tree.left_shards() + i));
        assert(hash_bytes(roots).len() == 256);
        if 0 <= j < 256 {
            assert(hash_bytes(roots)[j] == roots[j]@);
        }
    }
}

/// Appending a block puts its leaves behind the stored ones, in order, and one
/// record behind the blocks.
pub proof fn law_store_append_puts_leaves_behind(
    db: DecryptionState,
    height: u64,
    hash: [u8; 32],
    leaves: Seq<DecryptionLeaf>,
)
    requires
        leaves.len() <= u32::MAX,
    ensures
        ({
            let after = db.appended(height, hash, leaves);
            let n = db.leaves.len();
            &&& after.leaves.len() == n + leaves.len()
            &&& forall|i: int| 0 <= i < n ==> #[trigger] after.leaves[i] == db.leaves[i]
            &&& forall|i: int|
                n <= i < n + leaves.len() ==> #[trigger] after.leaves[i] == leaves[i - n]
            &&& after.blocks.len() == db.blocks.len() + 1
            &&& forall|i: int|
                0 <= i < db.blocks.len() ==> #[trigger] after.blocks[i] == db.blocks[i]
            &&& after.blocks[db.blocks.len() as int].height == height
            &&& after.blocks[db.blocks.len() as int].hash == hash
            &&& after.blocks[db.blocks.len() as int].num_leaves == leaves.len()
            &&& after.leaf_offset == db.leaf_offset
        }),
{
}

proof fn lemma_store_kept_records(
    blocks: Seq<leaf_db::BlockRecord>,
    target_height: u64,
    kept: int,
)
    requires
        0 <= kept <= blocks.len(),
        kept > 0 ==> blocks[kept - 1].height <= target_height,
        forall|k: int| kept <= k < blocks.len() ==> (#[trigger] blocks[k]).height > target_height,
    ensures
        leaf_db::blocks_kept(blocks, target_height) == kept,
    decreases blocks.len(),
{
    if kept < blocks.len() {
        assert(blocks[blocks.len() - 1].height > target_height);
        lemma_store_kept_records(blocks.drop_last(), target_height, kept);
    }
}

/// The number of leaves of some blocks is the sum of what each of them brought.
/// `ends` holds the running sums.
pub proof fn law_store_total_is_the_sum(blocks: Seq<leaf_db::BlockRecord>, ends: Seq<int>)
    requires
        ends.len() > blocks.len(),
        ends[0] == 0,
        forall|k: int|
            0 <= k < blocks.len() ==> ends[k + 1] == ends[k] + (#[trigger] blocks[k]).num_leaves,
    ensures
        total_leaves(blocks) == ends[blocks.len() as int],
    decreases blocks.len(),
{
    if blocks.len() > 0 {
        let n = blocks.len() - 1;
        let front = blocks.drop_last();
        assert forall|k: int| 0 <= k < front.len() implies ends[k + 1] == ends[k] + (
        #[trigger] front[k]).num_leaves by {
            assert(front[k] == blocks[k]);
        }
        law_store_total_is_the_sum(front, ends);
        assert(ends[n + 1] == ends[n] + blocks[n].num_leaves);
    }
}

proof fn lemma_store_sums_ascend(blocks: Seq<leaf_db::BlockRecord>, ends: Seq<int>, kept: int)
    requires
        ends.len() > blocks.len(),
        forall|k: int|
            0 <= k < blocks.len() ==> ends[k + 1] == ends[k] + (#[trigger] blocks[k]).num_leaves,
        0 <= kept <= blocks.len(),
    ensures
        ends[kept] <= ends[blocks.len() as int],
    decreases blocks.len() - kept,
{
    if kept < blocks.len() {
        assert(ends[kept + 1] == ends[kept] + blocks[kept].num_leaves);
        lemma_store_sums_ascend(blocks, ends, kept + 1);
    }
}

/// A rollback keeps the blocks up to the newest one that is not above the
/// target, with their leaves, and nothing else. `ends` holds the running sums
/// of the blocks' leaves.
pub proof fn law_store_rollback_keeps_low_blocks(
    db: DecryptionState,
    target_height: u64,
    kept: int,
    ends: Seq<int>,
)
    requires
        ends.len() > db.blocks.len(),
        ends[0] == 0,
        forall|k: int|
            0 <= k < db.blocks.len() ==> ends[k + 1] == ends[k] + (
            #[trigger] db.blocks[k]).num_leaves,
        ends[db.blocks.len() as int] == db.leaves.len(),
        0 <= kept <= db.blocks.len(),
        kept > 0 ==> db.blocks[kept - 1].height <= target_height,
        forall|k: int|
            kept <= k < db.blocks.len() ==> (#[trigger] db.blocks[k]).height > target_height,
    ensures
        ({
            let after = db.rolled_back(target_height);
            &&& after.blocks.len() == kept
            &&& forall|i: int| 0 <= i < kept ==> #[trigger] after.blocks[i] == db.blocks[i]
            &&& after.leaves.len() == ends[kept]
            &&& forall|i: int| 0 <= i < ends[kept] ==> #[trigger] after.leaves[i] == db.leaves[i]
            &&& after.leaf_offset == db.leaf_offset
        }),
{
    lemma_store_kept_records(db.blocks, target_height, kept);
    let front = db.blocks.take(kept);
    assert forall|k: int| 0 <= k < front.len() implies ends[k + 1] == ends[k] + (
    #[trigger] front[k]).num_leaves by {
        assert(front[k] == db.blocks[k]);
    }
    law_store_total_is_the_sum(front, ends);
    lemma_store_sums_ascend(db.blocks, ends, kept);
}

/// The window of a store is its newest stored shards, 32 of them where there
/// are more. `shards` is the number of shards that the leaves reach into.
pub proof fn law_store_window_is_the_newest_shards(
    db: DecryptionState,
    shards: int,
    anchor_height: u64,
)
    requires
        db.in_capacity(),
        0 <= shards,
        shards * 65_536 >= db.leaf_offset + db.leaves.len(),
        (shards - 1) * 65_536 < db.leaf_offset + db.leaves.len(),
    ensures
        ({
            let first = db.leaf_offset as int / 65_536;
            let metadata = store_metadata(db, anchor_height);
            &&& db.leaves.len() > 0 ==> db.window_start() == (if shards - first > 32 {
                shards - 32
            } else {
                first
            })
            &&& db.leaves.len() > 0 ==> db.window_start() + db.window_count() == shards
            &&& db.leaves.len() == 0 ==> db.window_start() == first && db.window_count() == 0
            &&& metadata.anchor_height == anchor_height
            &&& metadata.tree_size == db.leaf_offset + db.leaves.len()
            &&& metadata.window_start_shard == db.window_start()
            &&& metadata.window_shard_count == db.window_count()
            &&& metadata.populated_shards == shards
            &&& metadata.phase == ServerPhase::Serving
        }),
{
}

/// A leaf is stored as its nullifier, its ephemeral key and its ciphertext.
pub proof fn law_leaf_fields_in_order(leaf: DecryptionLeaf)
    ensures
        leaf.bytes().len() == 116,
        forall|k: int| 0 <= k < 32 ==> #[trigger] leaf.bytes()[k] == leaf.nf@[k],
        forall|k: int| 32 <= k < 64 ==> #[trigger] leaf.bytes()[k] == leaf.ephemeral_key@[k - 32],
        forall|k: int| 64 <= k < 116 ==> #[trigger] leaf.bytes()[k] == leaf.ciphertext@[k - 64],
{
}

/// The database of a store holds the 116 bytes of each leaf of the window at the
/// leaf's distance from the start of the window, and zero bytes for positions
/// without a leaf.
pub proof fn law_store_database_holds_leaves_in_order(db: DecryptionState, byte: int)
    requires
        0 <= byte < 243_269_632,
    ensures
        db.pir_db().len() == 243_269_632,
        ({
            let position = db.window_start() * 65_536 + byte / 116;
            let inside = byte / 116 < db.window_count() * 65_536;
            let i = position - db.leaf_offset;
            let k = byte % 116;
            db.pir_db()[byte] == (if !inside || i < 0 || i >= db.leaves.len() {
                0u8
            } else if k < 32 {
                db.leaves[i].nf@[k]
            } else if k < 64 {
                db.leaves[i].ephemeral_key@[k - 32]
            } else {
                db.leaves[i].ciphertext@[k - 64]
            })
        }),
{
}

} // verus!
