//! What the authentication paths consist of, node by node.

use super::WitnessClientError;
use super::reconstruct::{
    cap_root, law_path_verifies, reconstruct_witness, row_leaves, siblings_for, subroots_for,
    witness_fault, Fault,
};
use crate::witness::merkle::hash_bytes;
use crate::witness::merkle_laws::{
    law_climbing_goes_by_bits, law_empty_roots_fold, law_nodes_fold_level_by_level,
    law_sibling_is_beside,
};
use crate::witness::sinsemilla::{is_canonical, sinsemilla_combine};
use crate::witness::witness_types::{leaf_of, shard_of, subshard_of, BroadcastData, PirWitness};
use vstd::arithmetic::power2::pow2;
use vstd::prelude::*;

verus! {

/// A witness proves its leaf: starting from the 32 bytes that the row holds for
/// the position, and combining with one sibling per level, on the left where
/// the position's bit is zero and on the right where it is one, the last node
/// is the anchor root.
pub proof fn law_witness_climbs_to_anchor(
    position: u64,
    row: Seq<u8>,
    broadcast: BroadcastData,
    path: Seq<Seq<u8>>,
)
    requires
        witness_fault(position, row, broadcast) is None,
        path.len() == 33,
        path[0] == row.subrange(position % 256 * 32, position % 256 * 32 + 32),
        forall|l: int|
            0 <= l < 32 ==> path[l + 1] == (if position as int / pow2(l as nat) as int % 2 == 0 {
                sinsemilla_combine(
                    l as u8,
                    path[l],
                    #[trigger] siblings_for(position, row, broadcast)[l],
                )
            } else {
                sinsemilla_combine(
                    l as u8,
                    siblings_for(position, row, broadcast)[l],
                    path[l],
                )
            }),
    ensures
        siblings_for(position, row, broadcast).len() == 32,
        cap_root(broadcast) == path[32],
{
    let siblings = siblings_for(position, row, broadcast);
    law_path_verifies(position, row, broadcast);
    assert forall|l: int| 0 <= l < siblings.len() implies path[l + 1] == (if position as int
        / pow2(l as nat) as int % 2 == 0 {
        sinsemilla_combine((0nat + l) as u8, path[l], #[trigger] siblings[l])
    } else {
        sinsemilla_combine((0nat + l) as u8, siblings[l], path[l])
    }) by {}
    law_climbing_goes_by_bits(siblings, 0, position as int, path);
}

/// The eight lowest siblings of a position are nodes of the tree over the 256
/// leaves of the row, beside the position's ancestors. `levels` gives that
/// tree.
pub proof fn law_low_siblings_come_from_the_row(
    position: u64,
    row: Seq<u8>,
    broadcast: BroadcastData,
    levels: spec_fn(int, int) -> Seq<u8>,
    empty: spec_fn(int) -> Seq<u8>,
    l: int,
)
    requires
        empty(0).len() == 32,
        empty(0)[0] == 2,
        forall|k: int| 0 < k < 32 ==> #[trigger] empty(0)[k] == 0,
        forall|j: int, k: int|
            0 <= k && j == k + 1 ==> #[trigger] empty(j) == sinsemilla_combine(
                k as u8,
                #[trigger] empty(k),
                empty(k),
            ),
        forall|i: int|
            0 <= i < 256 ==> #[trigger] levels(0, i) == row.subrange(i * 32, i * 32 + 32),
        forall|i: int| i < 0 || i >= 256 ==> #[trigger] levels(0, i) == empty(0),
        forall|j: int, i: int, k: int, a: int, b: int|
            0 <= k && j == k + 1 && a == 2 * i && b == 2 * i + 1 ==> #[trigger] levels(j, i)
                == sinsemilla_combine(k as u8, #[trigger] levels(k, a), #[trigger] levels(k, b)),
        0 <= l < 8,
    ensures
        ({
            let index = position as int % 256 / pow2(l as nat) as int;
            siblings_for(position, row, broadcast)[l] == levels(
                l,
                if index % 2 == 0 {
                    index + 1
                } else {
                    index - 1
                },
            )
        }),
{
    let leaf = leaf_of(position) as int;
    law_empty_roots_fold(empty, 0);
    law_sibling_is_beside(leaf, l as nat);
    assert forall|j: int, i: int, k: int, a: int, b: int|
        0 <= k && j == k + 1 && a == 2 * i && b == 2 * i + 1 implies #[trigger] levels(j, i)
        == sinsemilla_combine(
        (0nat + k) as u8,
        #[trigger] levels(k, a),
        #[trigger] levels(k, b),
    ) by {}
    let index = leaf / pow2(l as nat) as int;
    let beside = if index % 2 == 0 {
        index + 1
    } else {
        index - 1
    };
    law_nodes_fold_level_by_level(row_leaves(row), 0, levels, l as nat, beside);
}

/// The next eight siblings are nodes of the tree over the 256 sub-shard roots
/// that the broadcast holds for the position's shard.
pub proof fn law_middle_siblings_come_from_the_subshards(
    position: u64,
    row: Seq<u8>,
    broadcast: BroadcastData,
    levels: spec_fn(int, int) -> Seq<u8>,
    empty: spec_fn(int) -> Seq<u8>,
    l: int,
)
    requires
        empty(0).len() == 32,
        empty(0)[0] == 2,
        forall|k: int| 0 < k < 32 ==> #[trigger] empty(0)[k] == 0,
        forall|j: int, k: int|
            0 <= k && j == k + 1 ==> #[trigger] empty(j) == sinsemilla_combine(
                k as u8,
                #[trigger] empty(k),
                empty(k),
            ),
        position < 0x1_0000_0000_0000,
        ({
            let place = position as int / 65_536 - broadcast.window_start_shard;
            let roots = broadcast.subshard_roots@[place].roots@;
            &&& roots.len() == 256
            &&& forall|i: int| 0 <= i < 256 ==> #[trigger] levels(0, i) == roots[i]@
        }),
        forall|i: int| i < 0 || i >= 256 ==> #[trigger] levels(0, i) == empty(8),
        forall|j: int, i: int, k: int, a: int, b: int|
            0 <= k && j == k + 1 && a == 2 * i && b == 2 * i + 1 ==> #[trigger] levels(j, i)
                == sinsemilla_combine(
                (8 + k) as u8,
                #[trigger] levels(k, a),
                #[trigger] levels(k, b),
            ),
        0 <= l < 8,
    ensures
        ({
            let index = position as int / 256 % 256 / pow2(l as nat) as int;
            siblings_for(position, row, broadcast)[8 + l] == levels(
                l,
                if index % 2 == 0 {
                    index + 1
                } else {
                    index - 1
                },
            )
        }),
{
    let subshard = subshard_of(position) as int;
    assert(subshard == position as int / 256 % 256);
    law_empty_roots_fold(empty, 8);
    law_sibling_is_beside(subshard, l as nat);
    assert forall|j: int, i: int, k: int, a: int, b: int|
        0 <= k && j == k + 1 && a == 2 * i && b == 2 * i + 1 implies #[trigger] levels(j, i)
        == sinsemilla_combine(
        (8nat + k) as u8,
        #[trigger] levels(k, a),
        #[trigger] levels(k, b),
    ) by {}
    let index = subshard / pow2(l as nat) as int;
    let beside = if index % 2 == 0 {
        index + 1
    } else {
        index - 1
    };
    let nodes = hash_bytes(subroots_for(position, broadcast));
    assert(shard_of(position) == position as int / 65_536);
    law_nodes_fold_level_by_level(nodes, 8, levels, l as nat, beside);
}

/// The sixteen highest siblings are nodes of the tree over all shard roots of
/// the broadcast, with empty roots of shards to their right, and the anchor
/// root is the root of that tree.
pub proof fn law_high_siblings_come_from_the_cap(
    position: u64,
    row: Seq<u8>,
    broadcast: BroadcastData,
    levels: spec_fn(int, int) -> Seq<u8>,
    empty: spec_fn(int) -> Seq<u8>,
    l: int,
)
    requires
        empty(0).len() == 32,
        empty(0)[0] == 2,
        forall|k: int| 0 < k < 32 ==> #[trigger] empty(0)[k] == 0,
        forall|j: int, k: int|
            0 <= k && j == k + 1 ==> #[trigger] empty(j) == sinsemilla_combine(
                k as u8,
                #[trigger] empty(k),
                empty(k),
            ),
        position < 0x1_0000_0000_0000,
        forall|i: int|
            0 <= i < broadcast.cap.shard_roots@.len() ==> #[trigger] levels(0, i)
                == broadcast.cap.shard_roots@[i]@,
        forall|i: int|
            i < 0 || i >= broadcast.cap.shard_roots@.len() ==> #[trigger] levels(0, i) == empty(16),
        forall|j: int, i: int, k: int, a: int, b: int|
            0 <= k && j == k + 1 && a == 2 * i && b == 2 * i + 1 ==> #[trigger] levels(j, i)
                == sinsemilla_combine(
                (16 + k) as u8,
                #[trigger] levels(k, a),
                #[trigger] levels(k, b),
            ),
        0 <= l < 16,
    ensures
        ({
            let index = position as int / 65_536 / pow2(l as nat) as int;
            siblings_for(position, row, broadcast)[16 + l] == levels(
                l,
                if index % 2 == 0 {
                    index + 1
                } else {
                    index - 1
                },
            )
        }),
        cap_root(broadcast) == levels(16, 0),
{
    let shard = shard_of(position) as int;
    assert(shard == position as int / 65_536);
    law_empty_roots_fold(empty, 16);
    law_sibling_is_beside(shard, l as nat);
    assert forall|j: int, i: int, k: int, a: int, b: int|
        0 <= k && j == k + 1 && a == 2 * i && b == 2 * i + 1 implies #[trigger] levels(j, i)
        == sinsemilla_combine(
        (16nat + k) as u8,
        #[trigger] levels(k, a),
        #[trigger] levels(k, b),
    ) by {}
    let index = shard / pow2(l as nat) as int;
    let beside = if index % 2 == 0 {
        index + 1
    } else {
        index - 1
    };
    let nodes = hash_bytes(broadcast.cap.shard_roots@);
    law_nodes_fold_level_by_level(nodes, 16, levels, l as nat, beside);
    law_nodes_fold_level_by_level(nodes, 16, levels, 16, 0);
}

/// A witness is made if and only if the position's shard lies in the window,
/// the broadcast holds all shard roots and 256 sub-shard roots of the shard, the
/// row holds 256 nodes, the leaves fold to the sub-shard root and the sub-shard
/// roots fold to the shard root. `low` and `middle` give the trees over the
/// leaves and over the sub-shard roots.
pub proof fn law_witness_needs_agreement(
    position: u64,
    row: Seq<u8>,
    broadcast: BroadcastData,
    low: spec_fn(int, int) -> Seq<u8>,
    middle: spec_fn(int, int) -> Seq<u8>,
    empty: spec_fn(int) -> Seq<u8>,
)
    requires
        position < 0x1_0000_0000_0000,
        empty(0).len() == 32,
        empty(0)[0] == 2,
        forall|k: int| 0 < k < 32 ==> #[trigger] empty(0)[k] == 0,
        forall|j: int, k: int|
            0 <= k && j == k + 1 ==> #[trigger] empty(j) == sinsemilla_combine(
                k as u8,
                #[trigger] empty(k),
                empty(k),
            ),
        forall|i: int| 0 <= i < 256 ==> #[trigger] low(0, i) == row.subrange(i * 32, i * 32 + 32),
        forall|i: int| i < 0 || i >= 256 ==> #[trigger] low(0, i) == empty(0),
        forall|j: int, i: int, k: int, a: int, b: int|
            0 <= k && j == k + 1 && a == 2 * i && b == 2 * i + 1 ==> #[trigger] low(j, i)
                == sinsemilla_combine(k as u8, #[trigger] low(k, a), #[trigger] low(k, b)),
        ({
            let place = position as int / 65_536 - broadcast.window_start_shard;
            let roots = broadcast.subshard_roots@[place].roots@;
            &&& forall|i: int| 0 <= i < roots.len() ==> #[trigger] middle(0, i) == roots[i]@
            &&& forall|i: int|
                i < 0 || i >= roots.len() ==> #[trigger] middle(0, i) == empty(8)
        }),
        forall|j: int, i: int, k: int, a: int, b: int|
            0 <= k && j == k + 1 && a == 2 * i && b == 2 * i + 1 ==> #[trigger] middle(j, i)
                == sinsemilla_combine(
                (8 + k) as u8,
                #[trigger] middle(k, a),
                #[trigger] middle(k, b),
            ),
    ensures
        ({
            let shard = position as int / 65_536;
            let subshard = position as int / 256 % 256;
            let place = shard - broadcast.window_start_shard;
            let roots = broadcast.subshard_roots@[place].roots@;
            let cap = broadcast.cap.shard_roots@;
            let inside = 0 <= place < broadcast.window_shard_count;
            let complete = place < broadcast.subshard_roots@.len() && roots.len() == 256 && shard
                < cap.len() <= 65_536 && (forall|i: int|
                0 <= i < cap.len() ==> is_canonical((#[trigger] cap[i])@)) && (forall|i: int|
                0 <= i < roots.len() ==> is_canonical((#[trigger] roots[i])@));
            let readable = row.len() >= 8_192 && forall|i: int|
                0 <= i < 256 ==> is_canonical(#[trigger] low(0, i));
            let agrees = low(8, 0) == roots[subshard]@ && middle(8, 0) == cap[shard]@;
            &&& witness_fault(position, row, broadcast) is None <==> inside && complete && readable
                && agrees
            &&& witness_fault(position, row, broadcast) == Some(Fault::OutsideWindow) <==> !inside
            &&& witness_fault(position, row, broadcast) == Some(Fault::BadBroadcast) <==> inside
                && !complete
            &&& witness_fault(position, row, broadcast) == Some(Fault::BadRow) <==> inside
                && complete && !readable
            &&& witness_fault(position, row, broadcast) == Some(Fault::Mismatch) <==> inside
                && complete && readable && !agrees
        }),
{
    let leaves = row_leaves(row);
    let nodes = hash_bytes(subroots_for(position, broadcast));
    law_empty_roots_fold(empty, 0);
    law_empty_roots_fold(empty, 8);
    assert(shard_of(position) == position as int / 65_536);
    assert(subshard_of(position) == position as int / 256 % 256);
    assert forall|j: int, i: int, k: int, a: int, b: int|
        0 <= k && j == k + 1 && a == 2 * i && b == 2 * i + 1 implies #[trigger] low(j, i)
        == sinsemilla_combine((0nat + k) as u8, #[trigger] low(k, a), #[trigger] low(k, b)) by {}
    assert forall|j: int, i: int, k: int, a: int, b: int|
        0 <= k && j == k + 1 && a == 2 * i && b == 2 * i + 1 implies #[trigger] middle(j, i)
        == sinsemilla_combine(
        (8nat + k) as u8,
        #[trigger] middle(k, a),
        #[trigger] middle(k, b),
    ) by {}
    law_nodes_fold_level_by_level(leaves, 0, low, 8, 0);
    law_nodes_fold_level_by_level(nodes, 8, middle, 8, 0);
    assert forall|i: int| 0 <= i < 256 implies #[trigger] low(0, i) == leaves[i] by {}
    assert((forall|i: int| 0 <= i < 256 ==> is_canonical(#[trigger] low(0, i))) <==> (forall|i: int|
        0 <= i < 256 ==> is_canonical(#[trigger] leaves[i]))) by {
        if forall|i: int| 0 <= i < 256 ==> is_canonical(#[trigger] low(0, i)) {
            assert forall|i: int| 0 <= i < 256 implies is_canonical(#[trigger] leaves[i]) by {
                assert(low(0, i) == leaves[i]);
            }
        }
    }
}

/// A witness that a client makes proves its leaf: starting from the 32 bytes
/// that the row holds for the position, and combining with one sibling per
/// level, on the left where the position's bit is zero and on the right where
/// it is one, the last node is the witness's anchor root. `path` holds the nodes
/// on the way up.
pub proof fn law_made_witness_proves_its_leaf(
    position: u64,
    row: &[u8],
    broadcast: BroadcastData,
    result: Result<PirWitness, WitnessClientError>,
    path: Seq<Seq<u8>>,
)
    requires
        position < 0x1_0000_0000_0000,
        broadcast.window_start_shard + broadcast.window_shard_count <= u32::MAX,
        call_ensures(
            reconstruct_witness,
            (
                position,
                (position / 65_536) as u32,
                (position / 256 % 256) as u8,
                (position % 256) as u8,
                row,
                &broadcast,
            ),
            result,
        ),
        result is Ok,
        path.len() == 33,
        path[0] == row@.subrange(position % 256 * 32, position % 256 * 32 + 32),
        forall|l: int|
            0 <= l < 32 ==> path[l + 1] == (if position as int / pow2(l as nat) as int % 2 == 0 {
                sinsemilla_combine(l as u8, path[l], (#[trigger] result->Ok_0.siblings@[l])@)
            } else {
                sinsemilla_combine(l as u8, result->Ok_0.siblings@[l]@, path[l])
            }),
    ensures
        result->Ok_0.position == position,
        result->Ok_0.anchor_height == broadcast.anchor_height,
        result->Ok_0.anchor_root@ == path[32],
{
    let witness = result->Ok_0;
    let siblings = siblings_for(position, row@, broadcast);
    assert(witness_fault(position, row@, broadcast) is None);
    assert(hash_bytes(witness.siblings@) == siblings);
    assert forall|l: int| 0 <= l < 32 implies path[l + 1] == (if position as int / pow2(
        l as nat,
    ) as int % 2 == 0 {
        sinsemilla_combine(l as u8, path[l], #[trigger] siblings[l])
    } else {
        sinsemilla_combine(l as u8, siblings[l], path[l])
    }) by {
        assert(hash_bytes(witness.siblings@)[l] == witness.siblings@[l]@);
    }
    law_witness_climbs_to_anchor(position, row@, broadcast, path);
}

/// A client makes a witness exactly where nothing is wrong with the row and the
/// broadcast, and its siblings are those that the other laws speak of.
pub proof fn law_witness_is_made_where_owed(
    position: u64,
    row: &[u8],
    broadcast: BroadcastData,
    result: Result<PirWitness, WitnessClientError>,
)
    requires
        position < 0x1_0000_0000_0000,
        broadcast.window_start_shard + broadcast.window_shard_count <= u32::MAX,
        call_ensures(
            reconstruct_witness,
            (
                position,
                (position / 65_536) as u32,
                (position / 256 % 256) as u8,
                (position % 256) as u8,
                row,
                &broadcast,
            ),
            result,
        ),
    ensures
        result is Ok <==> witness_fault(position, row@, broadcast) is None,
        result is Ok ==> forall|l: int|
            0 <= l < 32 ==> (#[trigger] result->Ok_0.siblings@[l])@ == siblings_for(
                position,
                row@,
                broadcast,
            )[l],
        result is Ok ==> result->Ok_0.anchor_root@ == cap_root(broadcast),
        witness_fault(position, row@, broadcast) == Some(Fault::OutsideWindow) ==> result->Err_0
            == WitnessClientError::PositionOutsideWindow(
            position,
            broadcast.window_start_shard,
            (broadcast.window_start_shard + broadcast.window_shard_count) as u32,
        ),
        witness_fault(position, row@, broadcast) == Some(Fault::Mismatch) ==> result->Err_0
            == WitnessClientError::VerificationFailed(position),
{
    if result is Ok {
        let witness = result->Ok_0;
        assert forall|l: int| 0 <= l < 32 implies (#[trigger] witness.siblings@[l])@
            == siblings_for(position, row@, broadcast)[l] by {
            assert(hash_bytes(witness.siblings@)[l] == witness.siblings@[l]@);
        }
    }
}

} // verus!
