//! Authentication paths from a PIR row and a broadcast payload.
//!
//! Of the 32 siblings of a leaf, the lowest 8 lie in the tree over the 256
//! leaves of its sub-shard, the next 8 in the tree over the 256 sub-shard
//! roots of its shard, and the top 16 in the cap tree over all shard roots.

use super::{in_window, WitnessClientError};
use crate::bytes::{read_array_at, same_array};
use crate::witness::commitment_tree_db::{are_empty_roots, is_hashable, TreeState};
use crate::witness::merkle::{
    climbed, halved, hash_bytes, law_path_reaches_ancestor, lemma_climb_joins, lemma_climb_low_bits,
    lemma_node_run, node_at, path_of, sibling,
};
use crate::witness::sinsemilla::{
    empty_root, hash_combine, is_canonical, is_valid_node, lemma_empty_leaf_canonical,
    precompute_empty_roots,
};
use crate::witness::witness_types::{
    leaf_of, shard_of, subshard_of, BroadcastData, PirWitness, SUBSHARDS_PER_SHARD, SUBSHARD_LEAVES,
    SUBSHARD_ROW_BYTES,
};
use vstd::arithmetic::power2::{lemma2_to64, pow2};
use vstd::prelude::*;
use vstd::string::StringExecFns;

verus! {

/// Whether every node can be hashed.
pub open spec fn all_canonical(nodes: Seq<[u8; 32]>) -> bool {
    forall|i: int| 0 <= i < nodes.len() ==> is_canonical((#[trigger] nodes[i])@)
}

fn are_valid_nodes(nodes: &Vec<[u8; 32]>) -> (valid: bool)
    ensures
        valid == all_canonical(nodes@),
{
    let mut i: usize = 0;
    while i < nodes.len()
        invariant
            i <= nodes@.len(),
            forall|k: int| 0 <= k < i ==> is_canonical((#[trigger] nodes@[k])@),
        decreases nodes@.len() - i,
    {
        if !is_valid_node(&nodes[i]) {
            assert(!is_canonical(nodes@[i as int]@));
            return false;
        }
        i += 1;
    }
    true
}

/// The siblings of the node with the given index over `height` levels, and the
/// root above it. Nodes past the given ones are empty subtrees.
fn subtree_path(
    nodes: &Vec<[u8; 32]>,
    base_level: u8,
    height: u8,
    index: u64,
    empty_roots: &Vec<[u8; 32]>,
) -> (path: (Vec<[u8; 32]>, [u8; 32]))
    requires
        base_level + height <= 32,
        all_canonical(nodes@),
        are_empty_roots(empty_roots@),
        nodes.len() <= 0x1_0000,
        index < 0x1_0000,
    ensures
        hash_bytes(path.0@) == path_of(
            hash_bytes(nodes@),
            base_level as nat,
            0,
            height as nat,
            index as int,
        ),
        path.1@ == node_at(hash_bytes(nodes@), base_level as nat, height as nat, 0),
{
    let ghost all = hash_bytes(nodes@);
    let ghost base = base_level as nat;
    let mut current: Vec<[u8; 32]> = Vec::new();
    let mut i: usize = 0;
    while i < nodes.len()
        invariant
            i <= nodes@.len(),
            current@ == nodes@.take(i as int),
        decreases nodes@.len() - i,
    {
        current.push(nodes[i]);
        i += 1;
        assert(current@ =~= nodes@.take(i as int));
    }
    assert(current@ =~= nodes@);
    let mut siblings: Vec<[u8; 32]> = Vec::with_capacity(height as usize);
    let mut at: u64 = index;
    let mut h: u8 = 0;
    while h < height
        invariant
            h <= height,
            base == base_level,
            base_level + height <= 32,
            are_empty_roots(empty_roots@),
            all == hash_bytes(nodes@),
            current.len() <= 0x1_0000,
            at < 0x1_0000,
            forall|k: nat| #[trigger]
                halved(at as int, k) == halved(index as int, (h + k) as nat),
            forall|k: int|
                0 <= k < current@.len() ==> (#[trigger] current@[k])@ == node_at(
                    all,
                    base,
                    h as nat,
                    k,
                ) && is_canonical(current@[k]@),
            forall|k: int|
                k >= current@.len() ==> (#[trigger] node_at(all, base, h as nat, k)) == empty_root(
                    base + h as nat,
                ),
            siblings@.len() == h,
            forall|k: int|
                0 <= k < h ==> (#[trigger] siblings@[k])@ == node_at(
                    all,
                    base,
                    k as nat,
                    sibling(halved(index as int, k as nat)),
                ),
        decreases height - h,
    {
        let empty: [u8; 32] = empty_roots[(base_level + h) as usize];
        let beside: u64 = if at % 2 == 0 {
            at + 1
        } else {
            at - 1
        };
        assert(beside == sibling(at as int));
        assert(halved(at as int, 0) == halved(index as int, h as nat));
        if beside < current.len() as u64 {
            siblings.push(current[beside as usize]);
        } else {
            siblings.push(empty);
        }
        let ghost below = current@;
        let mut next: Vec<[u8; 32]> = Vec::new();
        let mut j: usize = 0;
        while j < current.len()
            invariant
                j % 2 == 0,
                j <= current@.len() + 1,
                current.len() <= 0x1_0000,
                base == base_level,
                base_level + h < 32,
                empty@ == empty_root(base + h as nat),
                is_canonical(empty@),
                below == current@,
                forall|k: int|
                    0 <= k < current@.len() ==> (#[trigger] current@[k])@ == node_at(
                        all,
                        base,
                        h as nat,
                        k,
                    ) && is_canonical(current@[k]@),
                forall|k: int|
                    k >= current@.len() ==> (#[trigger] node_at(all, base, h as nat, k))
                        == empty_root(base + h as nat),
                next@.len() == j / 2,
                forall|k: int|
                    0 <= k < j / 2 ==> (#[trigger] next@[k])@ == node_at(
                        all,
                        base,
                        (h + 1) as nat,
                        k,
                    ) && is_canonical(next@[k]@),
            decreases current@.len() + 1 - j,
        {
            let right: [u8; 32] = if j + 1 < current.len() {
                current[j + 1]
            } else {
                empty
            };
            let ghost parent = j as int / 2;
            assert(2 * parent == j);
            assert(right@ == node_at(all, base, h as nat, 2 * parent + 1));
            next.push(hash_combine(base_level + h, &current[j], &right));
            j += 2;
        }
        proof {
            assert forall|k: int| k >= next@.len() implies (#[trigger] node_at(
                all,
                base,
                (h + 1) as nat,
                k,
            )) == empty_root(base + (h + 1) as nat) by {
                assert(2 * k >= current@.len());
                assert(node_at(all, base, h as nat, 2 * k) == empty_root(base + h as nat));
                assert(node_at(all, base, h as nat, 2 * k + 1) == empty_root(base + h as nat));
            }
            assert forall|k: nat| #[trigger]
                halved((at / 2) as int, k) == halved(index as int, (h + 1 + k) as nat) by {
                assert(halved(at as int, k + 1) == halved((at / 2) as int, k));
                assert(halved(at as int, k + 1) == halved(index as int, (h + (k + 1)) as nat));
            }
        }
        current = next;
        at = at / 2;
        let ghost done = h;
        h += 1;
        proof {
            assert forall|k: int| k >= current@.len() implies (#[trigger] node_at(
                all,
                base,
                h as nat,
                k,
            )) == empty_root(base + h as nat) by {
                assert(node_at(all, base, (done + 1) as nat, k) == empty_root(
                    base + (done + 1) as nat,
                ));
            }
        }
    }
    assert(hash_bytes(siblings@) =~= path_of(all, base, 0, height as nat, index as int));
    let root: [u8; 32] = if current.len() > 0 {
        current[0]
    } else {
        empty_roots[(base_level + height) as usize]
    };
    assert(root@ == node_at(all, base, height as nat, 0));
    (siblings, root)
}

/// The 256 leaves that a row holds.
pub open spec fn row_leaves(row: Seq<u8>) -> Seq<Seq<u8>> {
    Seq::new(SUBSHARD_LEAVES as nat, |i: int| row.subrange(i * 32, i * 32 + 32))
}

fn read_row_leaves(row: &[u8]) -> (leaves: Vec<[u8; 32]>)
    requires
        row.len() >= SUBSHARD_ROW_BYTES,
    ensures
        hash_bytes(leaves@) == row_leaves(row@),
{
    let mut leaves: Vec<[u8; 32]> = Vec::with_capacity(SUBSHARD_LEAVES);
    let mut i: usize = 0;
    while i < 256
        invariant
            i <= 256,
            row.len() >= SUBSHARD_ROW_BYTES,
            leaves@.len() == i,
            forall|k: int|
                0 <= k < i ==> (#[trigger] leaves@[k])@ == row@.subrange(k * 32, k * 32 + 32),
        decreases 256 - i,
    {
        leaves.push(read_array_at::<32>(row, i * 32));
        i += 1;
    }
    assert(hash_bytes(leaves@) =~= row_leaves(row@));
    leaves
}

/// Why no witness can be made.
pub ghost enum Fault {
    /// The position is not in the window.
    OutsideWindow,
    /// The broadcast lacks the position's shard or holds what is no node.
    BadBroadcast,
    /// The row is too short or holds what is no node.
    BadRow,
    /// The leaves do not hash to the sub-shard root, or the sub-shard roots
    /// not to the shard root.
    Mismatch,
}

/// The roots of the sub-shards of a position's shard.
pub open spec fn subroots_for(position: u64, broadcast: BroadcastData) -> Seq<[u8; 32]> {
    broadcast.subshard_roots@[shard_of(position) - broadcast.window_start_shard].roots@
}

/// Whether a broadcast has, for a position's shard, all that a path needs.
pub open spec fn is_usable(position: u64, broadcast: BroadcastData) -> bool {
    let local = shard_of(position) - broadcast.window_start_shard;
    &&& local < broadcast.subshard_roots@.len()
    &&& subroots_for(position, broadcast).len() == SUBSHARDS_PER_SHARD
    &&& shard_of(position) < broadcast.cap.shard_roots@.len() <= 0x1_0000
    &&& all_canonical(broadcast.cap.shard_roots@)
    &&& all_canonical(subroots_for(position, broadcast))
}

/// Whether a row holds 256 nodes.
pub open spec fn is_node_row(row: Seq<u8>) -> bool {
    &&& row.len() >= SUBSHARD_ROW_BYTES
    &&& forall|i: int|
        0 <= i < SUBSHARD_LEAVES ==> is_canonical(#[trigger] row_leaves(row)[i])
}

/// Why no witness for a position can be made from a row and a broadcast, if
/// none can.
pub open spec fn witness_fault(position: u64, row: Seq<u8>, broadcast: BroadcastData) -> Option<
    Fault,
> {
    let subroots = hash_bytes(subroots_for(position, broadcast));
    if !in_window(position, broadcast) {
        Some(Fault::OutsideWindow)
    } else if !is_usable(position, broadcast) {
        Some(Fault::BadBroadcast)
    } else if !is_node_row(row) {
        Some(Fault::BadRow)
    } else if node_at(row_leaves(row), 0, 8, 0) != subroots[subshard_of(position) as int]
        || node_at(subroots, 8, 8, 0) != broadcast.cap.shard_roots@[shard_of(
        position,
    ) as int]@ {
        Some(Fault::Mismatch)
    } else {
        None
    }
}

/// Whether an error reports a fault.
pub open spec fn reports_fault(
    error: WitnessClientError,
    fault: Fault,
    position: u64,
    broadcast: BroadcastData,
) -> bool {
    match fault {
        Fault::OutsideWindow => error == WitnessClientError::PositionOutsideWindow(
            position,
            broadcast.window_start_shard,
            (broadcast.window_start_shard + broadcast.window_shard_count) as u32,
        ),
        Fault::BadBroadcast => error matches WitnessClientError::InvalidParams(reason) && reason@
            == "malformed broadcast"@,
        Fault::BadRow => error matches WitnessClientError::QueryFailed(reason) && reason@
            == "malformed row"@,
        Fault::Mismatch => error == WitnessClientError::VerificationFailed(position),
    }
}

/// The siblings of a position: 8 from the row, 8 from the sub-shard roots, 16
/// from the cap.
pub open spec fn siblings_for(position: u64, row: Seq<u8>, broadcast: BroadcastData) -> Seq<
    Seq<u8>,
> {
    path_of(row_leaves(row), 0, 0, 8, leaf_of(position) as int) + path_of(
        hash_bytes(subroots_for(position, broadcast)),
        8,
        0,
        8,
        subshard_of(position) as int,
    ) + path_of(
        hash_bytes(broadcast.cap.shard_roots@),
        16,
        0,
        16,
        shard_of(position) as int,
    )
}

/// The root of the cap tree.
pub open spec fn cap_root(broadcast: BroadcastData) -> Seq<u8> {
    node_at(hash_bytes(broadcast.cap.shard_roots@), 16, 16, 0)
}

/// Makes the witness of a position from the decoded row and the broadcast. The
/// witness that is returned verifies: climbing its siblings from the leaf of
/// the row reaches its anchor root.
pub fn reconstruct_witness(
    position: u64,
    shard_idx: u32,
    subshard_idx: u8,
    leaf_idx: u8,
    decoded_row: &[u8],
    broadcast: &BroadcastData,
) -> (result: Result<PirWitness, WitnessClientError>)
    requires
        shard_idx == shard_of(position),
        subshard_idx == subshard_of(position),
        leaf_idx == leaf_of(position),
        broadcast.window_start_shard + broadcast.window_shard_count <= u32::MAX,
    ensures
        match witness_fault(position, decoded_row@, *broadcast) {
            Some(fault) => result matches Err(error) && reports_fault(
                error,
                fault,
                position,
                *broadcast,
            ),
            None => {
                &&& result matches Ok(witness)
                &&& witness.position == position
                &&& witness.anchor_height == broadcast.anchor_height
                &&& witness.anchor_root@ == cap_root(*broadcast)
                &&& hash_bytes(witness.siblings@) == siblings_for(
                    position,
                    decoded_row@,
                    *broadcast,
                )
                &&& climbed(
                    row_leaves(decoded_row@)[leaf_idx as int],
                    hash_bytes(witness.siblings@),
                    0,
                    position as int,
                ) == witness.anchor_root@
            },
        },
{
    let start: u32 = broadcast.window_start_shard;
    let end: u32 = start + broadcast.window_shard_count;
    if shard_idx < start || shard_idx >= end {
        return Err(WitnessClientError::PositionOutsideWindow(position, start, end));
    }
    let local: usize = (shard_idx - start) as usize;
    let cap = &broadcast.cap.shard_roots;
    if local >= broadcast.subshard_roots.len() || broadcast.subshard_roots[local].roots.len() != 256
        || shard_idx as usize >= cap.len() || cap.len() > 0x1_0000 || !are_valid_nodes(cap)
        || !are_valid_nodes(&broadcast.subshard_roots[local].roots) {
        return Err(WitnessClientError::InvalidParams(String::from_str("malformed broadcast")));
    }
    if decoded_row.len() < SUBSHARD_ROW_BYTES {
        return Err(WitnessClientError::QueryFailed(String::from_str("malformed row")));
    }
    let subroots = &broadcast.subshard_roots[local].roots;
    let leaves = read_row_leaves(decoded_row);
    if !are_valid_nodes(&leaves) {
        proof {
            let i = choose|i: int| 0 <= i < leaves@.len() && !is_canonical((#[trigger] leaves@[i])@);
            assert(row_leaves(decoded_row@)[i] == hash_bytes(leaves@)[i]);
            assert(hash_bytes(leaves@).len() == 256);
        }
        return Err(WitnessClientError::QueryFailed(String::from_str("malformed row")));
    }
    proof {
        assert(hash_bytes(leaves@).len() == 256);
        assert forall|i: int| 0 <= i < SUBSHARD_LEAVES implies is_canonical(
            #[trigger] row_leaves(decoded_row@)[i],
        ) by {
            assert(row_leaves(decoded_row@)[i] == hash_bytes(leaves@)[i]);
            assert(is_canonical(leaves@[i]@));
        }
    }
    let empty_roots = precompute_empty_roots();
    let (leaf_path, leaf_root) = subtree_path(&leaves, 0, 8, leaf_idx as u64, &empty_roots);
    let (subshard_path, subshard_root) = subtree_path(
        subroots,
        8,
        8,
        subshard_idx as u64,
        &empty_roots,
    );
    let (cap_path, anchor_root) = subtree_path(cap, 16, 16, shard_idx as u64, &empty_roots);
    if !same_array(&leaf_root, &subroots[subshard_idx as usize]) || !same_array(
        &subshard_root,
        &cap[shard_idx as usize],
    ) {
        return Err(WitnessClientError::VerificationFailed(position));
    }
    assert(hash_bytes(leaf_path@).len() == 8 && hash_bytes(subshard_path@).len() == 8
        && hash_bytes(cap_path@).len() == 16);
    let siblings = joined_path(&leaf_path, &subshard_path, &cap_path);
    proof {
        law_path_verifies(position, decoded_row@, *broadcast);
    }
    Ok(PirWitness { position, siblings, anchor_height: broadcast.anchor_height, anchor_root })
}

fn joined_path(low: &Vec<[u8; 32]>, middle: &Vec<[u8; 32]>, high: &Vec<[u8; 32]>) -> (path: [[u8; 32]; 32])
    requires
        low@.len() == 8,
        middle@.len() == 8,
        high@.len() == 16,
    ensures
        hash_bytes(path@) == hash_bytes(low@) + hash_bytes(middle@) + hash_bytes(high@),
{
    let ghost all = low@ + middle@ + high@;
    let mut path: [[u8; 32]; 32] = [[0u8; 32]; 32];
    let mut i: usize = 0;
    while i < 32
        invariant
            i <= 32,
            low@.len() == 8,
            middle@.len() == 8,
            high@.len() == 16,
            all == low@ + middle@ + high@,
            forall|k: int| 0 <= k < i ==> path@[k] == all[k],
        decreases 32 - i,
    {
        path[i] = if i < 8 {
            low[i]
        } else if i < 16 {
            middle[i - 8]
        } else {
            high[i - 16]
        };
        i += 1;
    }
    let ghost parts = hash_bytes(low@) + hash_bytes(middle@) + hash_bytes(high@);
    assert forall|k: int| 0 <= k < 32 implies hash_bytes(path@)[k] == parts[k] by {
        assert(path@[k] == all[k]);
    }
    assert(hash_bytes(path@) =~= parts);
    path
}

proof fn lemma_halved(index: int)
    requires
        0 <= index,
    ensures
        halved(index, 8) == index / 256,
        halved(index, 16) == index / 65_536,
{
    reveal_with_fuel(halved, 17);
}

/// A path over one tier of the tree reaches the root of the tier, whatever
/// bits the index has above it.
proof fn lemma_tier_path(nodes: Seq<Seq<u8>>, base: nat, height: nat, index: int, rest: int)
    requires
        0 <= index < nodes.len(),
        height == 8 && index < 256 || height == 16 && index < 65_536,
    ensures
        climbed(
            nodes[index],
            path_of(nodes, base, 0, height, index),
            base,
            index + rest * pow2(height),
        ) == node_at(nodes, base, height, 0),
{
    lemma_halved(index);
    law_path_reaches_ancestor(nodes, base, 0, height, index);
    lemma_climb_low_bits(
        nodes[index],
        path_of(nodes, base, 0, height, index),
        base,
        index,
        rest,
    );
}

/// Where a row and a broadcast agree, the siblings lead from the leaf to the
/// root of the cap.
pub proof fn law_path_verifies(position: u64, row: Seq<u8>, broadcast: BroadcastData)
    requires
        witness_fault(position, row, broadcast) is None,
    ensures
        climbed(
            row_leaves(row)[leaf_of(position) as int],
            siblings_for(position, row, broadcast),
            0,
            position as int,
        ) == cap_root(broadcast),
{
    lemma2_to64();
    let leaves = row_leaves(row);
    let subroots = hash_bytes(subroots_for(position, broadcast));
    let cap = hash_bytes(broadcast.cap.shard_roots@);
    let (leaf, subshard, shard) = (
        leaf_of(position) as int,
        subshard_of(position) as int,
        shard_of(position) as int,
    );
    let low = path_of(leaves, 0, 0, 8, leaf);
    let middle = path_of(subroots, 8, 0, 8, subshard);
    let high = path_of(cap, 16, 0, 16, shard);
    lemma_halved(position as int);
    lemma_climb_joins(leaves[leaf], low + middle, high, 0, position as int);
    lemma_climb_joins(leaves[leaf], low, middle, 0, position as int);
    lemma_tier_path(leaves, 0, 8, leaf, position as int / 256);
    assert(position as int == leaf + position as int / 256 * 256);
    lemma_tier_path(subroots, 8, 8, subshard, position as int / 65_536);
    assert(position as int / 256 == subshard + position as int / 65_536 * 256);
    let above = position / 0x1_0000;
    assert(above as u32 == above % 0x1_0000_0000) by (bit_vector);
    let rest = (above / 0x1_0000_0000) as int * 65_536;
    assert(above as int == shard + rest * 65_536);
    lemma_tier_path(cap, 16, 16, shard, rest);
}

/// The witness of a position in the window of a tree verifies against the root
/// of the tree: from the tree's own row and broadcast, a witness can be made
/// for the tree's leaf at that position, and its anchor root is the tree's
/// root.
pub proof fn law_witness_authenticates_leaf(
    tree: TreeState,
    broadcast: BroadcastData,
    anchor_height: u64,
    position: u64,
)
    requires
        tree.shaped(),
        tree.in_capacity(),
        tree.leaves_hashable(),
        tree.broadcasts(broadcast, anchor_height),
        is_hashable(broadcast),
        position < 0x1_0000_0000,
        in_window(position, broadcast),
    ensures
        ({
            let first = ((shard_of(position) - tree.window_start()) * SUBSHARDS_PER_SHARD
                + subshard_of(position)) * SUBSHARD_ROW_BYTES;
            let row = tree.pir_db().subrange(first, first + SUBSHARD_ROW_BYTES);
            &&& 0 <= first && first + SUBSHARD_ROW_BYTES <= tree.pir_db().len()
            &&& witness_fault(position, row, broadcast) is None
            &&& row_leaves(row)[leaf_of(position) as int] == tree.local_leaf(
                position - tree.leaf_offset,
            )
            &&& cap_root(broadcast) == tree.root()
            &&& climbed(
                tree.local_leaf(position - tree.leaf_offset),
                siblings_for(position, row, broadcast),
                0,
                position as int,
            ) == tree.root()
        }),
{
    lemma2_to64();
    let local = shard_of(position) - tree.first_shard();
    let slot = local * 256 + subshard_of(position);
    let first = (slot - tree.left_shards() * 256) * 8_192;
    let row = tree.pir_db().subrange(first, first + 8_192);
    let nodes = hash_bytes(tree.leaves);
    let leaves = row_leaves(row);
    assert(leaves =~= tree.subshard_leaf_bytes(slot)) by {
        assert forall|i: int| 0 <= i < 256 implies leaves[i] == tree.local_leaf(
            slot * 256 + i,
        ) by {
            assert(tree.local_leaf(slot * 256 + i).len() == 32);
            assert forall|k: int| 0 <= k < 32 implies leaves[i][k] == tree.local_leaf(
                slot * 256 + i,
            )[k] by {
                let byte = first + i * 32 + k;
                assert(byte / 32 == (slot - tree.left_shards() * 256) * 256 + i && byte % 32 == k);
                assert(leaves[i][k] == tree.pir_db()[byte]);
            }
            assert(leaves[i] =~= tree.local_leaf(slot * 256 + i));
        }
    }
    assert forall|j: int| 0 <= j < leaves.len() implies #[trigger] leaves[j] == node_at(
        nodes,
        0,
        0,
        slot * pow2(8) + j,
    ) by {}
    lemma_node_run(nodes, leaves, 0, 0, 8, slot, 0);
    lemma_empty_leaf_canonical();
    let subroots = tree.shard_subroots(local);
    assert(hash_bytes(subroots_for(position, broadcast)) == subroots);
    assert forall|j: int| 0 <= j < subroots.len() implies #[trigger] subroots[j] == node_at(
        nodes,
        0,
        8,
        local * pow2(8) + j,
    ) by {}
    lemma_node_run(nodes, subroots, 0, 8, 8, local, 0);
    let cap = hash_bytes(broadcast.cap.shard_roots@);
    assert(cap[shard_of(position) as int] == tree.shard_root(shard_of(position) as int));
    assert(broadcast.cap.shard_roots@.len() == cap.len());
    assert(subroots_for(position, broadcast).len() == subroots.len());
    assert(is_usable(position, broadcast)) by {
        assert forall|j: int| 0 <= j < 256 implies is_canonical(
            (#[trigger] subroots_for(position, broadcast)[j])@,
        ) by {
            let place = shard_of(position) - broadcast.window_start_shard;
            assert(is_canonical(broadcast.subshard_roots@[place].roots@[j]@));
        }
    }
    assert(witness_fault(position, row, broadcast) is None);
    law_path_verifies(position, row, broadcast);
}

} // verus!
