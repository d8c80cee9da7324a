//! What the nodes of a left-packed Merkle tree are.
//!
//! The nodes of one level are given as a sequence; positions past its end are
//! empty subtrees. [`node_at`] is the node that lies a number of levels above
//! them. The lemmas say how the tree splits into tiers and windows.

use crate::witness::sinsemilla::{empty_root, sinsemilla_combine};
use vstd::arithmetic::power2::{lemma2_to64, lemma_pow2_pos, lemma_pow2_unfold, pow2};
use vstd::prelude::*;

verus! {

/// The bytes of each hash.
pub open spec fn hash_bytes(hashes: Seq<[u8; 32]>) -> Seq<Seq<u8>> {
    Seq::new(hashes.len(), |i: int| hashes[i]@)
}

/// The node with the given index that lies `height` levels above `nodes`,
/// which are the nodes of level `base`, in order from index zero.
pub open spec fn node_at(nodes: Seq<Seq<u8>>, base: nat, height: nat, index: int) -> Seq<u8>
    decreases height,
{
    if height == 0 {
        if 0 <= index < nodes.len() {
            nodes[index]
        } else {
            empty_root(base)
        }
    } else {
        let below = (height - 1) as nat;
        sinsemilla_combine(
            (base + below) as u8,
            node_at(nodes, base, below, 2 * index),
            node_at(nodes, base, below, 2 * index + 1),
        )
    }
}

/// A node whose whole subtree lies past the given nodes is an empty root.
pub proof fn lemma_node_past_end(nodes: Seq<Seq<u8>>, base: nat, height: nat, index: int)
    requires
        index * pow2(height) >= nodes.len(),
    ensures
        node_at(nodes, base, height, index) == empty_root(base + height),
    decreases height,
{
    if height == 0 {
        lemma2_to64();
        assert(index * pow2(0) == index) by (nonlinear_arith)
            requires
                pow2(0) == 1,
        ;
    } else {
        let below = (height - 1) as nat;
        let p = pow2(below) as int;
        lemma_pow2_unfold(height);
        lemma_pow2_pos(below);
        assert(index * (2 * p) == (2 * index) * p) by (nonlinear_arith);
        assert((2 * index + 1) * p >= (2 * index) * p) by (nonlinear_arith)
            requires
                p > 0,
        ;
        lemma_node_past_end(nodes, base, below, 2 * index);
        lemma_node_past_end(nodes, base, below, 2 * index + 1);
    }
}

/// The nodes `lower` levels up form a tree of their own: what lies above them
/// is what lies above the nodes they were made from.
pub proof fn lemma_node_tiers(
    nodes: Seq<Seq<u8>>,
    tier: Seq<Seq<u8>>,
    base: nat,
    lower: nat,
    upper: nat,
    index: int,
)
    requires
        0 <= index,
        tier.len() * pow2(lower) >= nodes.len(),
        forall|j: int|
            0 <= j < tier.len() ==> #[trigger] tier[j] == node_at(nodes, base, lower, j),
    ensures
        node_at(nodes, base, lower + upper, index) == node_at(tier, base + lower, upper, index),
    decreases upper,
{
    if upper == 0 {
        if index >= tier.len() {
            lemma_pow2_pos(lower);
            assert(index * pow2(lower) >= tier.len() * pow2(lower)) by (nonlinear_arith)
                requires
                    index >= tier.len(),
                    pow2(lower) > 0,
            ;
            lemma_node_past_end(nodes, base, lower, index);
        }
    } else {
        let below = (upper - 1) as nat;
        assert(lower + upper - 1 == lower + below);
        lemma_node_tiers(nodes, tier, base, lower, below, 2 * index);
        lemma_node_tiers(nodes, tier, base, lower, below, 2 * index + 1);
    }
}

/// A node depends only on the nodes below it: shifting the sequence by
/// `shift` whole subtrees shifts the index.
pub proof fn lemma_node_shift(
    nodes: Seq<Seq<u8>>,
    other: Seq<Seq<u8>>,
    base: nat,
    height: nat,
    index: int,
    shift: int,
)
    requires
        0 <= index,
        0 <= shift,
        forall|j: int|
            index * pow2(height) <= j < (index + 1) * pow2(height) ==> (#[trigger] node_at(
                other,
                base,
                0,
                j,
            )) == node_at(nodes, base, 0, j + shift * pow2(height)),
    ensures
        node_at(other, base, height, index) == node_at(nodes, base, height, index + shift),
    decreases height,
{
    lemma2_to64();
    if height == 0 {
        assert(index * pow2(0) == index && (index + 1) * pow2(0) == index + 1 && shift * pow2(0)
            == shift) by (nonlinear_arith)
            requires
                pow2(0) == 1,
        ;
        assert(node_at(other, base, 0, index) == node_at(nodes, base, 0, index + shift));
    } else {
        let below = (height - 1) as nat;
        let p = pow2(below) as int;
        lemma_pow2_unfold(height);
        lemma_pow2_pos(below);
        assert(index * (2 * p) == (2 * index) * p && (index + 1) * (2 * p) == (2 * index + 2) * p
            && shift * (2 * p) == (2 * shift) * p && (2 * index) * p <= (2 * index + 1) * p <= (2
            * index + 2) * p) by (nonlinear_arith)
            requires
                p > 0,
        ;
        assert(2 * index + 1 + 1 == 2 * index + 2);
        lemma_node_shift(nodes, other, base, below, 2 * index, 2 * shift);
        lemma_node_shift(nodes, other, base, below, 2 * index + 1, 2 * shift);
        assert(2 * index + 2 * shift == 2 * (index + shift));
    }
}

/// Two sequences that agree below a node give the same node.
pub proof fn lemma_node_local(
    nodes: Seq<Seq<u8>>,
    other: Seq<Seq<u8>>,
    base: nat,
    height: nat,
    index: int,
)
    requires
        0 <= index,
        forall|j: int|
            index * pow2(height) <= j < (index + 1) * pow2(height) ==> (#[trigger] node_at(
                other,
                base,
                0,
                j,
            )) == node_at(nodes, base, 0, j),
    ensures
        node_at(other, base, height, index) == node_at(nodes, base, height, index),
{
    assert(0 * pow2(height) == 0);
    lemma_node_shift(nodes, other, base, height, index, 0);
}

/// A run of consecutive nodes, `lower` levels above `nodes` and starting at
/// index `start * 2^height`, has above it the nodes that lie above that run.
pub proof fn lemma_node_run(
    nodes: Seq<Seq<u8>>,
    run: Seq<Seq<u8>>,
    base: nat,
    lower: nat,
    height: nat,
    start: int,
    index: int,
)
    requires
        0 <= start,
        0 <= index,
        (index + 1) * pow2(height) <= run.len(),
        forall|j: int|
            0 <= j < run.len() ==> #[trigger] run[j] == node_at(
                nodes,
                base,
                lower,
                start * pow2(height) + j,
            ),
    ensures
        node_at(run, base + lower, height, index) == node_at(
            nodes,
            base,
            lower + height,
            start + index,
        ),
    decreases height,
{
    if height == 0 {
        lemma2_to64();
        assert((index + 1) * pow2(0) == index + 1 && start * pow2(0) == start) by (nonlinear_arith)
            requires
                pow2(0) == 1,
        ;
        assert(run[index] == node_at(nodes, base, lower, start * pow2(0) + index));
    } else {
        let below = (height - 1) as nat;
        let p = pow2(below) as int;
        lemma_pow2_unfold(height);
        lemma_pow2_pos(below);
        assert((index + 1) * (2 * p) == (2 * index + 2) * p && start * (2 * p) == (2 * start) * p
            && (2 * index + 1) * p <= (2 * index + 2) * p) by (nonlinear_arith)
            requires
                p > 0,
        ;
        assert(lower + height - 1 == lower + below);
        assert(2 * index + 1 + 1 == 2 * index + 2);
        lemma_node_run(nodes, run, base, lower, below, 2 * start, 2 * index);
        lemma_node_run(nodes, run, base, lower, below, 2 * start, 2 * index + 1);
        assert(2 * start + 2 * index == 2 * (start + index));
        assert(2 * start + (2 * index + 1) == 2 * (start + index) + 1);
    }
}

/// The index of the other child of a node's parent.
pub open spec fn sibling(index: int) -> int {
    if index % 2 == 0 {
        index + 1
    } else {
        index - 1
    }
}

/// The index of the ancestor `n` levels up.
pub open spec fn halved(index: int, n: nat) -> int
    decreases n,
{
    if n == 0 {
        index
    } else {
        halved(index / 2, (n - 1) as nat)
    }
}

/// The siblings on the way up from the node with the given index, `lower`
/// levels above `nodes`, over `height` levels.
pub open spec fn path_of(
    nodes: Seq<Seq<u8>>,
    base: nat,
    lower: nat,
    height: nat,
    index: int,
) -> Seq<Seq<u8>> {
    Seq::new(
        height,
        |h: int| node_at(nodes, base, (lower + h) as nat, sibling(halved(index, h as nat))),
    )
}

/// The node that is reached from `node`, which has the given index in level
/// `base`, by combining it with one sibling after the other.
pub open spec fn climbed(node: Seq<u8>, siblings: Seq<Seq<u8>>, base: nat, index: int) -> Seq<u8>
    decreases siblings.len(),
{
    if siblings.len() == 0 {
        node
    } else {
        let parent = if index % 2 == 0 {
            sinsemilla_combine(base as u8, node, siblings[0])
        } else {
            sinsemilla_combine(base as u8, siblings[0], node)
        };
        climbed(parent, siblings.drop_first(), base + 1, index / 2)
    }
}

/// Climbing the siblings of a node reaches its ancestor.
pub proof fn law_path_reaches_ancestor(
    nodes: Seq<Seq<u8>>,
    base: nat,
    lower: nat,
    height: nat,
    index: int,
)
    requires
        0 <= index,
    ensures
        climbed(
            node_at(nodes, base, lower, index),
            path_of(nodes, base, lower, height, index),
            base + lower,
            index,
        ) == node_at(nodes, base, lower + height, halved(index, height)),
    decreases height,
{
    if height > 0 {
        let path = path_of(nodes, base, lower, height, index);
        let above = (height - 1) as nat;
        law_path_reaches_ancestor(nodes, base, lower + 1, above, index / 2);
        assert(path.drop_first() =~= path_of(nodes, base, lower + 1, above, index / 2)) by {
            assert forall|h: int| 0 <= h < above implies path.drop_first()[h] == path_of(
                nodes,
                base,
                lower + 1,
                above,
                index / 2,
            )[h] by {
                assert(halved(index, (h + 1) as nat) == halved(index / 2, h as nat));
            }
        }
        assert(path[0] == node_at(nodes, base, lower, sibling(index)));
        assert(node_at(nodes, base, lower + 1, index / 2) == sinsemilla_combine(
            (base + lower) as u8,
            node_at(nodes, base, lower, 2 * (index / 2)),
            node_at(nodes, base, lower, 2 * (index / 2) + 1),
        ));
    }
}

/// Climbing one run of siblings after another is climbing both at once.
pub proof fn lemma_climb_joins(
    node: Seq<u8>,
    first: Seq<Seq<u8>>,
    second: Seq<Seq<u8>>,
    base: nat,
    index: int,
)
    ensures
        climbed(node, first + second, base, index) == climbed(
            climbed(node, first, base, index),
            second,
            base + first.len(),
            halved(index, first.len()),
        ),
    decreases first.len(),
{
    if first.len() == 0 {
        assert(first + second =~= second);
    } else {
        let parent = if index % 2 == 0 {
            sinsemilla_combine(base as u8, node, first[0])
        } else {
            sinsemilla_combine(base as u8, first[0], node)
        };
        assert((first + second).drop_first() =~= first.drop_first() + second);
        lemma_climb_joins(parent, first.drop_first(), second, base + 1, index / 2);
    }
}

/// Climbing `n` siblings looks at the `n` lowest bits of the index only.
pub proof fn lemma_climb_low_bits(
    node: Seq<u8>,
    siblings: Seq<Seq<u8>>,
    base: nat,
    index: int,
    rest: int,
)
    ensures
        climbed(node, siblings, base, index + rest * pow2(siblings.len())) == climbed(
            node,
            siblings,
            base,
            index,
        ),
    decreases siblings.len(),
{
    if siblings.len() > 0 {
        let n = siblings.len();
        let half = rest * pow2((n - 1) as nat);
        lemma_pow2_unfold(n);
        assert(rest * (2 * pow2((n - 1) as nat)) == 2 * half) by (nonlinear_arith)
            requires
                half == rest * pow2((n - 1) as nat),
        ;
        let parent = if index % 2 == 0 {
            sinsemilla_combine(base as u8, node, siblings[0])
        } else {
            sinsemilla_combine(base as u8, siblings[0], node)
        };
        assert((index + 2 * half) / 2 == index / 2 + half);
        assert((index + 2 * half) % 2 == index % 2);
        lemma_climb_low_bits(parent, siblings.drop_first(), base + 1, index / 2, rest);
    }
}

} // verus!
