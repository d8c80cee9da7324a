//! How the results of the tree's functions hang together. Each law speaks of any
//! values that the functions may return for one tree.

use crate::witness::commitment_tree_db::CommitmentTreeDb;
use crate::witness::merkle::{hash_bytes, lemma_node_run, node_at};
use crate::witness::merkle_laws::{
    law_empty_roots_fold, law_nodes_fold_level_by_level, law_root_folds_shard_roots,
    law_tree_folds_its_leaves,
};
use crate::witness::sinsemilla::{precompute_empty_roots, sinsemilla_combine};
use vstd::arithmetic::power2::{lemma2_to64, pow2};
use vstd::prelude::*;

verus! {

/// The root of a tree that stores all its leaves is their fold over 32 levels:
/// every parent combines its left and its right child, in this order, and the
/// leaves to the right of the stored ones are the number two.
pub proof fn law_root_folds_all_leaves(
    tree: CommitmentTreeDb,
    root: [u8; 32],
    levels: spec_fn(int, int) -> Seq<u8>,
    empty_leaf: Seq<u8>,
)
    requires
        tree.shaped(),
        tree@.leaf_offset == 0,
        call_ensures(CommitmentTreeDb::tree_root, (&tree,), root),
        empty_leaf.len() == 32,
        empty_leaf[0] == 2,
        forall|k: int| 0 < k < 32 ==> #[trigger] empty_leaf[k] == 0,
        forall|i: int|
            0 <= i < tree@.leaves.len() ==> #[trigger] levels(0, i) == tree@.leaves[i]@,
        forall|i: int|
            i < 0 || i >= tree@.leaves.len() ==> #[trigger] levels(0, i) == empty_leaf,
        forall|j: int, i: int, k: int, l: int, r: int|
            0 <= k && j == k + 1 && l == 2 * i && r == 2 * i + 1 ==> #[trigger] levels(j, i)
                == sinsemilla_combine(k as u8, #[trigger] levels(k, l), #[trigger] levels(k, r)),
    ensures
        root@ == levels(32, 0),
{
    tree.lemma_shaped();
    law_tree_folds_its_leaves(tree@, levels, empty_leaf, 0);
}

/// The root of a tree is the fold of its shard roots over the top 16 levels,
/// with empty roots of shards to their right. There is one shard root, with its
/// number, for each shard that the leaves reach into.
pub proof fn law_root_folds_reported_shards(
    tree: CommitmentTreeDb,
    root: [u8; 32],
    roots: Vec<(u32, [u8; 32])>,
    levels: spec_fn(int, int) -> Seq<u8>,
    empty: spec_fn(int) -> Seq<u8>,
)
    requires
        tree.shaped(),
        call_ensures(CommitmentTreeDb::tree_root, (&tree,), root),
        call_ensures(CommitmentTreeDb::shard_roots, (&tree,), roots),
        empty(0).len() == 32,
        empty(0)[0] == 2,
        forall|k: int| 0 < k < 32 ==> #[trigger] empty(0)[k] == 0,
        forall|j: int, k: int|
            0 <= k && j == k + 1 ==> #[trigger] empty(j) == sinsemilla_combine(
                k as u8,
                #[trigger] empty(k),
                empty(k),
            ),
        forall|s: int| 0 <= s < roots@.len() ==> #[trigger] levels(0, s) == roots@[s].1@,
        forall|s: int| s < 0 || s >= roots@.len() ==> #[trigger] levels(0, s) == empty(16),
        forall|j: int, i: int, k: int, l: int, r: int|
            0 <= k && j == k + 1 && l == 2 * i && r == 2 * i + 1 ==> #[trigger] levels(j, i)
                == sinsemilla_combine(
                (16 + k) as u8,
                #[trigger] levels(k, l),
                #[trigger] levels(k, r),
            ),
    ensures
        root@ == levels(16, 0),
        roots@.len() * 65_536 >= tree@.leaf_offset + tree@.leaves.len(),
        (roots@.len() - 1) * 65_536 < tree@.leaf_offset + tree@.leaves.len(),
        forall|s: int| 0 <= s < roots@.len() ==> (#[trigger] roots@[s]).0 == s,
        forall|s: int|
            0 <= s < roots@.len() && s < tree@.leaf_offset as int / 65_536 && s
                < tree@.prefetched_shard_roots.len() ==> (#[trigger] roots@[s]).1@
                == tree@.prefetched_shard_roots[s]@,
{
    let n = roots@.len() as int;
    assert forall|s: int| 0 <= s < n implies #[trigger] levels(0, s) == tree@.shard_root(s) by {
        assert(roots@[s].1@ == tree@.shard_root(s));
    }
    law_root_folds_shard_roots(tree@, levels, empty, n);
}

/// The root of a stored shard is the fold of the roots of its 256 sub-shards
/// over levels 8 to 16.
pub proof fn law_shard_folds_its_subshards(
    tree: CommitmentTreeDb,
    shard: u32,
    roots: Vec<(u32, [u8; 32])>,
    subshard_roots: Vec<[u8; 32]>,
    levels: spec_fn(int, int) -> Seq<u8>,
    empty: spec_fn(int) -> Seq<u8>,
)
    requires
        tree.shaped(),
        call_ensures(CommitmentTreeDb::shard_roots, (&tree,), roots),
        call_ensures(CommitmentTreeDb::subshard_roots, (&tree, shard), subshard_roots),
        tree@.leaf_offset as int / 65_536 <= shard < roots@.len(),
        empty(0).len() == 32,
        empty(0)[0] == 2,
        forall|k: int| 0 < k < 32 ==> #[trigger] empty(0)[k] == 0,
        forall|j: int, k: int|
            0 <= k && j == k + 1 ==> #[trigger] empty(j) == sinsemilla_combine(
                k as u8,
                #[trigger] empty(k),
                empty(k),
            ),
        forall|i: int| 0 <= i < 256 ==> #[trigger] levels(0, i) == subshard_roots@[i]@,
        forall|i: int| i < 0 || i >= 256 ==> #[trigger] levels(0, i) == empty(8),
        forall|j: int, i: int, k: int, l: int, r: int|
            0 <= k && j == k + 1 && l == 2 * i && r == 2 * i + 1 ==> #[trigger] levels(j, i)
                == sinsemilla_combine(
                (8 + k) as u8,
                #[trigger] levels(k, l),
                #[trigger] levels(k, r),
            ),
    ensures
        subshard_roots@.len() == 256,
        roots@[shard as int].1@ == levels(8, 0),
{
    lemma2_to64();
    let local = shard - tree@.first_shard();
    let nodes = hash_bytes(tree@.leaves);
    let tier = hash_bytes(subshard_roots@);
    assert(tier == tree@.shard_subroots(local));
    assert(tier.len() == 256);
    assert(roots@[shard as int].1@ == tree@.shard_root(shard as int));
    assert forall|j: int| 0 <= j < tier.len() implies #[trigger] tier[j] == node_at(
        nodes,
        0,
        8,
        local * pow2(8) + j,
    ) by {
        assert(tier[j] == tree@.shard_subroots(local)[j]);
    }
    lemma_node_run(nodes, tier, 0, 8, 8, local, 0);
    law_empty_roots_fold(empty, 8);
    assert forall|i: int| 0 <= i < tier.len() implies #[trigger] levels(0, i) == tier[i] by {}
    assert forall|j: int, i: int, k: int, l: int, r: int|
        0 <= k && j == k + 1 && l == 2 * i && r == 2 * i + 1 implies #[trigger] levels(j, i)
        == sinsemilla_combine(
        (8nat + k) as u8,
        #[trigger] levels(k, l),
        #[trigger] levels(k, r),
    ) by {}
    law_nodes_fold_level_by_level(tier, 8, levels, 8, 0);
}

/// The root of a stored sub-shard is the fold of its 256 leaves over the lowest
/// 8 levels. Its leaves are those of the tree at its positions, and the number
/// two past the last one.
pub proof fn law_subshard_folds_its_leaves(
    tree: CommitmentTreeDb,
    shard: u32,
    subshard: u8,
    subshard_roots: Vec<[u8; 32]>,
    leaves: Vec<[u8; 32]>,
    levels: spec_fn(int, int) -> Seq<u8>,
    empty_leaf: Seq<u8>,
)
    requires
        tree.shaped(),
        call_ensures(CommitmentTreeDb::subshard_roots, (&tree, shard), subshard_roots),
        call_ensures(CommitmentTreeDb::subshard_leaves, (&tree, shard, subshard), leaves),
        tree@.leaf_offset as int / 65_536 <= shard,
        empty_leaf.len() == 32,
        empty_leaf[0] == 2,
        forall|k: int| 0 < k < 32 ==> #[trigger] empty_leaf[k] == 0,
        forall|i: int| 0 <= i < 256 ==> #[trigger] levels(0, i) == leaves@[i]@,
        forall|i: int| i < 0 || i >= 256 ==> #[trigger] levels(0, i) == empty_leaf,
        forall|j: int, i: int, k: int, l: int, r: int|
            0 <= k && j == k + 1 && l == 2 * i && r == 2 * i + 1 ==> #[trigger] levels(j, i)
                == sinsemilla_combine(k as u8, #[trigger] levels(k, l), #[trigger] levels(k, r)),
    ensures
        leaves@.len() == 256,
        subshard_roots@[subshard as int]@ == levels(8, 0),
        forall|i: int|
            0 <= i < 256 ==> {
                let local = shard * 65_536 + subshard * 256 + i - tree@.leaf_offset;
                (#[trigger] leaves@[i])@ == (if local < tree@.leaves.len() {
                    tree@.leaves[local]@
                } else {
                    empty_leaf
                })
            },
{
    lemma2_to64();
    tree.lemma_shaped();
    let slot = (shard - tree@.first_shard()) * 256 + subshard;
    let nodes = hash_bytes(tree@.leaves);
    let tier = hash_bytes(leaves@);
    assert(tier == tree@.subshard_leaf_bytes(slot));
    assert(tier.len() == 256);
    assert(crate::witness::sinsemilla::empty_leaf() =~= empty_leaf);
    assert(slot * 256 == shard * 65_536 + subshard * 256 - tree@.leaf_offset);
    assert forall|j: int| 0 <= j < tier.len() implies #[trigger] tier[j] == node_at(
        nodes,
        0,
        0,
        slot * pow2(8) + j,
    ) by {
        assert(tier[j] == tree@.local_leaf(slot * 256 + j));
    }
    lemma_node_run(nodes, tier, 0, 0, 8, slot, 0);
    let subroots = hash_bytes(subshard_roots@);
    assert(subroots == tree@.shard_subroots(shard - tree@.first_shard()));
    assert(subroots.len() == 256);
    assert(subroots[subshard as int] == tree@.subshard_root(slot));
    assert forall|i: int| 0 <= i < tier.len() implies #[trigger] levels(0, i) == tier[i] by {}
    assert forall|j: int, i: int, k: int, l: int, r: int|
        0 <= k && j == k + 1 && l == 2 * i && r == 2 * i + 1 implies #[trigger] levels(j, i)
        == sinsemilla_combine(
        (0nat + k) as u8,
        #[trigger] levels(k, l),
        #[trigger] levels(k, r),
    ) by {}
    law_nodes_fold_level_by_level(tier, 0, levels, 8, 0);
    assert forall|i: int| 0 <= i < 256 implies {
        let local = shard * 65_536 + subshard * 256 + i - tree@.leaf_offset;
        (#[trigger] leaves@[i])@ == (if local < tree@.leaves.len() {
            tree@.leaves[local]@
        } else {
            empty_leaf
        })
    } by {
        assert(tier[i] == leaves@[i]@);
        assert(tier[i] == tree@.local_leaf(slot * 256 + i));
    }
}

/// The empty roots are those of an empty leaf and of ever larger empty subtrees.
pub proof fn law_computed_empty_roots_fold(
    roots: Vec<[u8; 32]>,
    empty: spec_fn(int) -> Seq<u8>,
    level: int,
)
    requires
        call_ensures(precompute_empty_roots, (), roots),
        empty(0).len() == 32,
        empty(0)[0] == 2,
        forall|k: int| 0 < k < 32 ==> #[trigger] empty(0)[k] == 0,
        forall|j: int, k: int|
            0 <= k && j == k + 1 ==> #[trigger] empty(j) == sinsemilla_combine(
                k as u8,
                #[trigger] empty(k),
                empty(k),
            ),
        0 <= level <= 32,
    ensures
        roots@.len() == 33,
        roots@[level]@ == empty(level),
{
    law_empty_roots_fold(empty, level as nat);
}

/// The root of a complete subtree is the fold of its leaves, of which there are
/// a power of two.
pub proof fn law_complete_subtree_folds(
    tree: CommitmentTreeDb,
    leaves: &[[u8; 32]],
    base_level: u8,
    root: [u8; 32],
    height: nat,
    levels: spec_fn(int, int) -> Seq<u8>,
    empty: spec_fn(int) -> Seq<u8>,
)
    requires
        call_ensures(
            CommitmentTreeDb::complete_subtree_root,
            (&tree, leaves, base_level),
            root,
        ),
        pow2(height) == leaves@.len(),
        base_level + height <= 255,
        empty(0).len() == 32,
        empty(0)[0] == 2,
        forall|k: int| 0 < k < 32 ==> #[trigger] empty(0)[k] == 0,
        forall|j: int, k: int|
            0 <= k && j == k + 1 ==> #[trigger] empty(j) == sinsemilla_combine(
                k as u8,
                #[trigger] empty(k),
                empty(k),
            ),
        forall|i: int| 0 <= i < leaves@.len() ==> #[trigger] levels(0, i) == leaves@[i]@,
        forall|i: int|
            i < 0 || i >= leaves@.len() ==> #[trigger] levels(0, i) == empty(base_level as int),
        forall|j: int, i: int, k: int, l: int, r: int|
            0 <= k && j == k + 1 && l == 2 * i && r == 2 * i + 1 ==> #[trigger] levels(j, i)
                == sinsemilla_combine(
                (base_level + k) as u8,
                #[trigger] levels(k, l),
                #[trigger] levels(k, r),
            ),
    ensures
        root@ == levels(height as int, 0),
{
    let nodes = hash_bytes(leaves@);
    law_empty_roots_fold(empty, base_level as nat);
    assert forall|j: int, i: int, k: int, l: int, r: int|
        0 <= k && j == k + 1 && l == 2 * i && r == 2 * i + 1 implies #[trigger] levels(j, i)
        == sinsemilla_combine(
        (base_level as nat + k) as u8,
        #[trigger] levels(k, l),
        #[trigger] levels(k, r),
    ) by {}
    law_nodes_fold_level_by_level(nodes, base_level as nat, levels, height, 0);
}

} // verus!
