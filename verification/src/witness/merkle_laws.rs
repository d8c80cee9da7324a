//! How the nodes of the note commitment tree hang together: every parent is the
//! combination of its left and its right child, in this order, on every level.

use crate::witness::commitment_tree_db::TreeState;
use crate::witness::merkle::{climbed, halved, hash_bytes, lemma_node_past_end, node_at, sibling};
use crate::witness::sinsemilla::{empty_root, sinsemilla_combine};
use crate::witness::tree_laws::law_root_is_over_all_leaves;
use vstd::arithmetic::div_mod::lemma_div_denominator;
use vstd::arithmetic::power2::{lemma2_to64, lemma_pow2_pos, lemma_pow2_unfold, pow2};
use vstd::prelude::*;

verus! {

/// An empty leaf has the bytes of the number two, and the empty root of each
/// level is the combination of two empty roots of the level below.
pub proof fn law_empty_roots_fold(empty: spec_fn(int) -> Seq<u8>, level: nat)
    requires
        empty(0).len() == 32,
        empty(0)[0] == 2,
        forall|k: int| 0 < k < 32 ==> #[trigger] empty(0)[k] == 0,
        forall|j: int, k: int|
            0 <= k && j == k + 1 ==> #[trigger] empty(j) == sinsemilla_combine(
                k as u8,
                #[trigger] empty(k),
                empty(k),
            ),
    ensures
        empty_root(level) == empty(level as int),
    decreases level,
{
    if level == 0 {
        assert(empty_root(0) =~= empty(0));
    } else {
        law_empty_roots_fold(empty, (level - 1) as nat);
        assert(empty(level as int) == sinsemilla_combine(
            (level - 1) as u8,
            empty(level - 1),
            empty(level - 1),
        ));
    }
}

/// The parent of two neighbouring nodes is the combination, for their level, of
/// the left one and the right one, whatever they are.
pub proof fn law_parent_combines_neighbours(
    nodes: Seq<Seq<u8>>,
    base: nat,
    height: nat,
    index: int,
)
    ensures
        node_at(nodes, base, height + 1, index) == sinsemilla_combine(
            (base + height) as u8,
            node_at(nodes, base, height, 2 * index),
            node_at(nodes, base, height, 2 * index + 1),
        ),
{
}

/// The tree over some nodes is their fold from left to right, level by level.
///
/// `levels` gives a node for each level and index: on the lowest one the given
/// nodes with empty roots to their right, and on every other one the
/// combination of the two nodes below. Then it gives the nodes of the tree.
pub proof fn law_nodes_fold_level_by_level(
    nodes: Seq<Seq<u8>>,
    base: nat,
    levels: spec_fn(int, int) -> Seq<u8>,
    height: nat,
    index: int,
)
    requires
        forall|i: int| 0 <= i < nodes.len() ==> #[trigger] levels(0, i) == nodes[i],
        forall|i: int|
            i < 0 || i >= nodes.len() ==> #[trigger] levels(0, i) == empty_root(base),
        forall|j: int, i: int, k: int, l: int, r: int|
            0 <= k && j == k + 1 && l == 2 * i && r == 2 * i + 1 ==> #[trigger] levels(j, i)
                == sinsemilla_combine(
                (base + k) as u8,
                #[trigger] levels(k, l),
                #[trigger] levels(k, r),
            ),
    ensures
        node_at(nodes, base, height, index) == levels(height as int, index),
    decreases height,
{
    if height > 0 {
        let k = height - 1;
        law_nodes_fold_level_by_level(nodes, base, levels, k as nat, 2 * index);
        law_nodes_fold_level_by_level(nodes, base, levels, k as nat, 2 * index + 1);
        assert(levels(height as int, index) == sinsemilla_combine(
            (base + k) as u8,
            levels(k, 2 * index),
            levels(k, 2 * index + 1),
        ));
    }
}

proof fn lemma_halved_divides(index: int, n: nat)
    requires
        0 <= index,
    ensures
        halved(index, n) == index / pow2(n) as int,
    decreases n,
{
    lemma2_to64();
    lemma_pow2_pos(n);
    if n > 0 {
        let m = (n - 1) as nat;
        lemma_pow2_unfold(n);
        lemma_pow2_pos(m);
        lemma_halved_divides(index / 2, m);
        lemma_div_denominator(index, 2, pow2(m) as int);
        assert(pow2(n) as int == 2 * pow2(m) as int);
    } else {
        assert(index / pow2(0) as int == index);
    }
}

/// The sibling beside a node, `n` levels above the given index, is the next node
/// where the node is a left child, and the one before it where it is a right
/// child.
pub proof fn law_sibling_is_beside(index: int, n: nat)
    requires
        0 <= index,
    ensures
        sibling(halved(index, n)) == (if index / pow2(n) as int % 2 == 0 {
            index / pow2(n) as int + 1
        } else {
            index / pow2(n) as int - 1
        }),
{
    lemma_halved_divides(index, n);
}

/// Climbing goes by the bits of the index.
///
/// `path` starts with the node, and each further entry combines the one before
/// it with a sibling: on the left where the bit of the index for this level is
/// zero, on the right where it is one. Then climbing reaches the last entry.
pub proof fn law_climbing_goes_by_bits(
    siblings: Seq<Seq<u8>>,
    base: nat,
    index: int,
    path: Seq<Seq<u8>>,
)
    requires
        0 <= index,
        path.len() == siblings.len() + 1,
        forall|l: int|
            0 <= l < siblings.len() ==> path[l + 1] == (if index / pow2(l as nat) as int % 2 == 0 {
                sinsemilla_combine((base + l) as u8, path[l], #[trigger] siblings[l])
            } else {
                sinsemilla_combine((base + l) as u8, siblings[l], path[l])
            }),
    ensures
        climbed(path[0], siblings, base, index) == path[siblings.len() as int],
    decreases siblings.len(),
{
    lemma2_to64();
    if siblings.len() > 0 {
        let rest = siblings.drop_first();
        let above = path.drop_first();
        assert(index / pow2(0) as int == index);
        assert(path[1] == (if index % 2 == 0 {
            sinsemilla_combine(base as u8, path[0], siblings[0])
        } else {
            sinsemilla_combine(base as u8, siblings[0], path[0])
        }));
        assert forall|l: int| 0 <= l < rest.len() implies above[l + 1] == (if index / 2 / pow2(
            l as nat,
        ) as int % 2 == 0 {
            sinsemilla_combine((base + 1 + l) as u8, above[l], #[trigger] rest[l])
        } else {
            sinsemilla_combine((base + 1 + l) as u8, rest[l], above[l])
        }) by {
            let k = (l + 1) as nat;
            lemma_pow2_unfold(k);
            lemma_pow2_pos(l as nat);
            lemma_div_denominator(index, 2, pow2(l as nat) as int);
            assert(rest[l] == siblings[l + 1]);
            assert(above[l + 1] == path[l + 1 + 1]);
            assert(above[l] == path[l + 1]);
        }
        law_climbing_goes_by_bits(rest, base + 1, index / 2, above);
    }
}

/// The root of a tree that stores all its leaves is the fold of its leaves over
/// 32 levels, with empty leaves to their right; the roots of its sub-shards and
/// shards are the nodes of that fold 8 and 16 levels up.
pub proof fn law_tree_folds_its_leaves(
    tree: TreeState,
    levels: spec_fn(int, int) -> Seq<u8>,
    empty_leaf: Seq<u8>,
    index: int,
)
    requires
        tree.shaped(),
        tree.leaf_offset == 0,
        empty_leaf.len() == 32,
        empty_leaf[0] == 2,
        forall|k: int| 0 < k < 32 ==> #[trigger] empty_leaf[k] == 0,
        forall|i: int| 0 <= i < tree.leaves.len() ==> #[trigger] levels(0, i) == tree.leaves[i]@,
        forall|i: int|
            i < 0 || i >= tree.leaves.len() ==> #[trigger] levels(0, i) == empty_leaf,
        forall|j: int, i: int, k: int, l: int, r: int|
            0 <= k && j == k + 1 && l == 2 * i && r == 2 * i + 1 ==> #[trigger] levels(j, i)
                == sinsemilla_combine(k as u8, #[trigger] levels(k, l), #[trigger] levels(k, r)),
        0 <= index,
    ensures
        tree.root() == levels(32, 0),
        tree.shard_root(index) == levels(16, index),
        tree.subshard_root(index) == levels(8, index),
{
    let nodes = hash_bytes(tree.leaves);
    assert(empty_root(0) =~= empty_leaf);
    law_root_is_over_all_leaves(tree);
    assert forall|j: int, i: int, k: int, l: int, r: int|
        0 <= k && j == k + 1 && l == 2 * i && r == 2 * i + 1 implies #[trigger] levels(j, i)
        == sinsemilla_combine(
        (0nat + k) as u8,
        #[trigger] levels(k, l),
        #[trigger] levels(k, r),
    ) by {}
    law_nodes_fold_level_by_level(nodes, 0, levels, 32, 0);
    law_nodes_fold_level_by_level(nodes, 0, levels, 16, index);
    law_nodes_fold_level_by_level(nodes, 0, levels, 8, index);
}

/// The stored shards and sub-shards of a windowed tree are folds of its leaves:
/// the first stored leaf is leaf zero of the first stored shard.
pub proof fn law_window_folds_its_leaves(
    tree: TreeState,
    levels: spec_fn(int, int) -> Seq<u8>,
    empty_leaf: Seq<u8>,
    index: int,
)
    requires
        empty_leaf.len() == 32,
        empty_leaf[0] == 2,
        forall|k: int| 0 < k < 32 ==> #[trigger] empty_leaf[k] == 0,
        forall|i: int| 0 <= i < tree.leaves.len() ==> #[trigger] levels(0, i) == tree.leaves[i]@,
        forall|i: int|
            i < 0 || i >= tree.leaves.len() ==> #[trigger] levels(0, i) == empty_leaf,
        forall|j: int, i: int, k: int, l: int, r: int|
            0 <= k && j == k + 1 && l == 2 * i && r == 2 * i + 1 ==> #[trigger] levels(j, i)
                == sinsemilla_combine(k as u8, #[trigger] levels(k, l), #[trigger] levels(k, r)),
        0 <= index,
    ensures
        tree.subshard_root(index) == levels(8, index),
        tree.shard_root(tree.leaf_offset as int / 65_536 + index) == levels(16, index),
        forall|ss: int|
            0 <= ss < 256 ==> #[trigger] tree.shard_subroots(index)[ss] == levels(
                8,
                index * 256 + ss,
            ),
        tree.shard_subroots(index).len() == 256,
{
    let nodes = hash_bytes(tree.leaves);
    assert(empty_root(0) =~= empty_leaf);
    assert forall|j: int, i: int, k: int, l: int, r: int|
        0 <= k && j == k + 1 && l == 2 * i && r == 2 * i + 1 implies #[trigger] levels(j, i)
        == sinsemilla_combine(
        (0nat + k) as u8,
        #[trigger] levels(k, l),
        #[trigger] levels(k, r),
    ) by {}
    law_nodes_fold_level_by_level(nodes, 0, levels, 16, index);
    law_nodes_fold_level_by_level(nodes, 0, levels, 8, index);
    assert forall|ss: int| 0 <= ss < 256 implies #[trigger] tree.shard_subroots(index)[ss]
        == levels(8, index * 256 + ss) by {
        law_nodes_fold_level_by_level(nodes, 0, levels, 8, index * 256 + ss);
    }
}

/// The root of any tree is the fold of its shard roots over the top 16 levels,
/// with the empty roots of shards to their right. There are as many shards as
/// the leaves reach into, and the roots before the stored ones are the given
/// ones.
pub proof fn law_root_folds_shard_roots(
    tree: TreeState,
    levels: spec_fn(int, int) -> Seq<u8>,
    empty: spec_fn(int) -> Seq<u8>,
    shards: int,
)
    requires
        empty(0).len() == 32,
        empty(0)[0] == 2,
        forall|k: int| 0 < k < 32 ==> #[trigger] empty(0)[k] == 0,
        forall|j: int, k: int|
            0 <= k && j == k + 1 ==> #[trigger] empty(j) == sinsemilla_combine(
                k as u8,
                #[trigger] empty(k),
                empty(k),
            ),
        0 <= shards,
        shards * 65_536 >= tree.leaf_offset + tree.leaves.len(),
        (shards - 1) * 65_536 < tree.leaf_offset + tree.leaves.len(),
        forall|s: int| 0 <= s < shards ==> #[trigger] levels(0, s) == tree.shard_root(s),
        forall|s: int| s < 0 || s >= shards ==> #[trigger] levels(0, s) == empty(16),
        forall|j: int, i: int, k: int, l: int, r: int|
            0 <= k && j == k + 1 && l == 2 * i && r == 2 * i + 1 ==> #[trigger] levels(j, i)
                == sinsemilla_combine(
                (16 + k) as u8,
                #[trigger] levels(k, l),
                #[trigger] levels(k, r),
            ),
    ensures
        tree.root() == levels(16, 0),
        tree.shard_root_seq().len() == shards,
        forall|s: int|
            0 <= s < shards ==> #[trigger] tree.shard_root_seq()[s] == tree.shard_root(s),
        forall|s: int|
            0 <= s < tree.leaf_offset as int / 65_536 ==> #[trigger] tree.shard_root(s) == (if s
                < tree.prefetched_shard_roots.len() {
                tree.prefetched_shard_roots[s]@
            } else {
                empty(16)
            }),
{
    let nodes = tree.shard_root_seq();
    assert(nodes.len() == shards);
    law_empty_roots_fold(empty, 16);
    assert forall|i: int| 0 <= i < nodes.len() implies #[trigger] levels(0, i) == nodes[i] by {}
    assert forall|j: int, i: int, k: int, l: int, r: int|
        0 <= k && j == k + 1 && l == 2 * i && r == 2 * i + 1 implies #[trigger] levels(j, i)
        == sinsemilla_combine(
        (16nat + k) as u8,
        #[trigger] levels(k, l),
        #[trigger] levels(k, r),
    ) by {}
    law_nodes_fold_level_by_level(nodes, 16, levels, 16, 0);
}

/// Four shard roots fold to the combination, on level 17, of the combinations
/// of the first and of the second two, and from there on with an empty root on
/// the right of every level. `spine` holds the nodes on the way up.
pub proof fn law_four_shards_fold(
    nodes: Seq<Seq<u8>>,
    spine: Seq<Seq<u8>>,
    empty: spec_fn(int) -> Seq<u8>,
)
    requires
        nodes.len() == 4,
        empty(0).len() == 32,
        empty(0)[0] == 2,
        forall|k: int| 0 < k < 32 ==> #[trigger] empty(0)[k] == 0,
        forall|j: int, k: int|
            0 <= k && j == k + 1 ==> #[trigger] empty(j) == sinsemilla_combine(
                k as u8,
                #[trigger] empty(k),
                empty(k),
            ),
        spine.len() == 15,
        spine[0] == sinsemilla_combine(
            17,
            sinsemilla_combine(16, nodes[0], nodes[1]),
            sinsemilla_combine(16, nodes[2], nodes[3]),
        ),
        forall|j: int, k: int|
            0 <= k < 14 && j == k + 1 ==> #[trigger] spine[j] == sinsemilla_combine(
                (18 + k) as u8,
                #[trigger] spine[k],
                empty(18 + k),
            ),
    ensures
        node_at(nodes, 16, 16, 0) == spine[14],
{
    lemma_four(nodes, spine, empty, 14);
}

proof fn lemma_four(
    nodes: Seq<Seq<u8>>,
    spine: Seq<Seq<u8>>,
    empty: spec_fn(int) -> Seq<u8>,
    up: nat,
)
    requires
        nodes.len() == 4,
        empty(0).len() == 32,
        empty(0)[0] == 2,
        forall|k: int| 0 < k < 32 ==> #[trigger] empty(0)[k] == 0,
        forall|j: int, k: int|
            0 <= k && j == k + 1 ==> #[trigger] empty(j) == sinsemilla_combine(
                k as u8,
                #[trigger] empty(k),
                empty(k),
            ),
        spine.len() == 15,
        spine[0] == sinsemilla_combine(
            17,
            sinsemilla_combine(16, nodes[0], nodes[1]),
            sinsemilla_combine(16, nodes[2], nodes[3]),
        ),
        forall|j: int, k: int|
            0 <= k < 14 && j == k + 1 ==> #[trigger] spine[j] == sinsemilla_combine(
                (18 + k) as u8,
                #[trigger] spine[k],
                empty(18 + k),
            ),
        up <= 14,
    ensures
        node_at(nodes, 16, up + 2, 0) == spine[up as int],
    decreases up,
{
    if up == 0 {
        reveal_with_fuel(node_at, 4);
    } else {
        let below = (up - 1) as nat;
        lemma_four(nodes, spine, empty, below);
        lemma_right_is_empty(nodes, below);
        law_empty_roots_fold(empty, 18 + below);
        assert(spine[up as int] == sinsemilla_combine(
            (18 + below) as u8,
            spine[below as int],
            empty(18 + below as int),
        ));
        law_parent_combines_neighbours(nodes, 16, below + 2, 0);
    }
}

proof fn lemma_right_is_empty(nodes: Seq<Seq<u8>>, up: nat)
    requires
        nodes.len() == 4,
    ensures
        node_at(nodes, 16, up + 2, 1) == empty_root(18 + up),
{
    lemma2_to64();
    lemma_pow2_pos(up);
    lemma_pow2_unfold(up + 1);
    lemma_pow2_unfold(up + 2);
    assert(1 * pow2(up + 2) >= 4);
    lemma_node_past_end(nodes, 16, up + 2, 1);
}

} // verus!
