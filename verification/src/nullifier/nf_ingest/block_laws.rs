//! Which nullifiers a block has, place by place, and where the outputs of
//! their transactions stand.

use super::parser::{
    block_nullifiers, block_spends, extract_nullifiers, extract_nullifiers_with_meta,
    law_same_nullifiers, nullifiers_of, size_before,
};
use crate::bytes::lemma_array_bytes;
use crate::chain_ingest::proto::{
    action_count, tree_size_in, CompactBlock, CompactOrchardAction, CompactTx,
};
use crate::nullifier::spend_types::NullifierWithMeta;
use vstd::prelude::*;

verus! {

/// Places of nullifiers within one transaction, when `place` counts them.
proof fn lemma_nullifier_places(actions: Seq<CompactOrchardAction>, place: spec_fn(int) -> int)
    requires
        place(0) == 0,
        forall|a: int|
            0 <= a < actions.len() ==> place(a + 1) == place(a) + (if (
            #[trigger] actions[a]).nullifier@.len() == 32 {
                1int
            } else {
                0int
            }),
    ensures
        nullifiers_of(actions).len() == place(actions.len() as int),
        forall|a: int|
            0 <= a < actions.len() && (#[trigger] actions[a]).nullifier@.len() == 32 ==> {
                &&& 0 <= place(a) < nullifiers_of(actions).len()
                &&& nullifiers_of(actions)[place(a)]@ == actions[a].nullifier@
            },
    decreases actions.len(),
{
    if actions.len() > 0 {
        let rest = actions.drop_last();
        assert forall|a: int| 0 <= a < rest.len() implies place(a + 1) == place(a) + (if (
        #[trigger] rest[a]).nullifier@.len() == 32 {
            1int
        } else {
            0int
        }) by {
            assert(rest[a] == actions[a]);
        }
        lemma_nullifier_places(rest, place);
        if actions.last().nullifier@.len() == 32 {
            lemma_array_bytes::<32>(actions.last().nullifier@);
        }
        assert forall|a: int|
            0 <= a < actions.len() && (#[trigger] actions[a]).nullifier@.len() == 32 implies 0
            <= place(a) < nullifiers_of(actions).len() && nullifiers_of(actions)[place(a)]@
            == actions[a].nullifier@ by {
            if a < rest.len() {
                assert(rest[a] == actions[a]);
            }
        }
        assert(actions[actions.len() - 1] == actions.last());
    }
}

proof fn lemma_block_places(
    vtx: Seq<CompactTx>,
    size: Option<u32>,
    place: spec_fn(int, int) -> int,
    starts: Seq<int>,
)
    requires
        place(0, 0) == 0,
        forall|t: int, a: int|
            0 <= t < vtx.len() && 0 <= a < vtx[t].actions@.len() ==> place(t, a + 1) == place(t, a)
                + (if (#[trigger] vtx[t].actions@[a]).nullifier@.len() == 32 {
                1int
            } else {
                0int
            }),
        forall|t: int|
            0 <= t < vtx.len() ==> place(t + 1, 0) == place(
                t,
                (#[trigger] vtx[t]).actions@.len() as int,
            ),
        starts.len() > vtx.len(),
        starts[0] == 0,
        forall|t: int|
            0 <= t < vtx.len() ==> starts[t + 1] == starts[t] + (#[trigger] vtx[t]).actions@.len(),
    ensures
        action_count(vtx) == starts[vtx.len() as int],
        block_spends(vtx, size).len() == place(vtx.len() as int, 0),
        forall|t: int, a: int|
            0 <= t < vtx.len() && 0 <= a < vtx[t].actions@.len() && (
            #[trigger] vtx[t].actions@[a]).nullifier@.len() == 32 ==> {
                let i = place(t, a);
                &&& 0 <= i < block_spends(vtx, size).len()
                &&& block_spends(vtx, size)[i].nullifier@ == vtx[t].actions@[a].nullifier@
                &&& block_spends(vtx, size)[i].first_output_position == (match size {
                    Some(size) => (size + starts[t]) as u32,
                    None => 0u32,
                })
                &&& block_spends(vtx, size)[i].action_count == vtx[t].actions@.len() as u8
            },
    decreases vtx.len(),
{
    if vtx.len() > 0 {
        let n = vtx.len() - 1;
        let rest = vtx.drop_last();
        let actions = vtx.last().actions@;
        assert(forall|t: int| 0 <= t < n ==> rest[t] == vtx[t]);
        lemma_block_places(rest, size, place, starts);
        let start = place(n, 0);
        let local = |a: int| place(n, a) - start;
        assert forall|a: int| 0 <= a < actions.len() implies local(a + 1) == local(a) + (if (
        #[trigger] actions[a]).nullifier@.len() == 32 {
            1int
        } else {
            0int
        }) by {
            assert(vtx[n].actions@[a] == actions[a]);
        }
        lemma_nullifier_places(actions, local);
        assert(vtx[n] == vtx.last());
        assert(local(actions.len() as int) == place(n, actions.len() as int) - start);
        assert forall|t: int, a: int|
            0 <= t < vtx.len() && 0 <= a < vtx[t].actions@.len() && (
            #[trigger] vtx[t].actions@[a]).nullifier@.len() == 32 implies {
            let i = place(t, a);
            &&& 0 <= i < block_spends(vtx, size).len()
            &&& block_spends(vtx, size)[i].nullifier@ == vtx[t].actions@[a].nullifier@
            &&& block_spends(vtx, size)[i].first_output_position == (match size {
                Some(size) => (size + starts[t]) as u32,
                None => 0u32,
            })
            &&& block_spends(vtx, size)[i].action_count == vtx[t].actions@.len() as u8
        } by {
            if t < n {
                assert(rest[t].actions@[a] == vtx[t].actions@[a]);
            } else {
                assert(actions[a] == vtx[t].actions@[a]);
                assert(local(a) == place(n, a) - start);
            }
        }
    }
}

/// The nullifiers of a block stand in transaction and then action order.
///
/// Let `place` count, over the actions before action `a` of transaction `t`,
/// those whose nullifier has 32 bytes. The nullifier of each action that has 32
/// bytes stands at the action's place, and there are no further nullifiers.
pub proof fn law_nullifiers_in_order(block: CompactBlock, place: spec_fn(int, int) -> int)
    requires
        place(0, 0) == 0,
        forall|t: int, a: int|
            0 <= t < block.vtx@.len() && 0 <= a < block.vtx@[t].actions@.len() ==> place(t, a + 1)
                == place(t, a) + (if (
            #[trigger] block.vtx@[t].actions@[a]).nullifier@.len() == 32 {
                1int
            } else {
                0int
            }),
        forall|t: int|
            0 <= t < block.vtx@.len() ==> place(t + 1, 0) == place(
                t,
                (#[trigger] block.vtx@[t]).actions@.len() as int,
            ),
    ensures
        block_nullifiers(block.vtx@).len() == place(block.vtx@.len() as int, 0),
        forall|t: int, a: int|
            0 <= t < block.vtx@.len() && 0 <= a < block.vtx@[t].actions@.len() && (
            #[trigger] block.vtx@[t].actions@[a]).nullifier@.len() == 32 ==> {
                let i = place(t, a);
                &&& 0 <= i < block_nullifiers(block.vtx@).len()
                &&& block_nullifiers(block.vtx@)[i]@ == block.vtx@[t].actions@[a].nullifier@
            },
{
    let vtx = block.vtx@;
    let starts = running_sizes(vtx);
    lemma_running_sizes(vtx);
    lemma_block_places(vtx, None, place, starts);
    law_same_nullifiers(vtx, None);
    assert forall|t: int, a: int|
        0 <= t < vtx.len() && 0 <= a < vtx[t].actions@.len() && (
        #[trigger] vtx[t].actions@[a]).nullifier@.len() == 32 implies {
        let i = place(t, a);
        &&& 0 <= i < block_nullifiers(vtx).len()
        &&& block_nullifiers(vtx)[i]@ == vtx[t].actions@[a].nullifier@
    } by {
        assert(block_spends(vtx, None)[place(t, a)].nullifier == block_nullifiers(vtx)[place(
            t,
            a,
        )]);
    }
}

spec fn running_sizes(vtx: Seq<CompactTx>) -> Seq<int> {
    Seq::new(vtx.len() + 1, |t: int| action_count(vtx.take(t)) as int)
}

proof fn lemma_running_sizes(vtx: Seq<CompactTx>)
    ensures
        running_sizes(vtx)[0] == 0,
        forall|t: int|
            0 <= t < vtx.len() ==> running_sizes(vtx)[t + 1] == running_sizes(vtx)[t] + (
            #[trigger] vtx[t]).actions@.len(),
{
    assert forall|t: int| 0 <= t < vtx.len() implies running_sizes(vtx)[t + 1] == running_sizes(
        vtx,
    )[t] + (#[trigger] vtx[t]).actions@.len() by {
        assert(vtx.take(t + 1).drop_last() =~= vtx.take(t));
    }
}

/// The number of actions of some transactions is the sum of what each of them
/// has.
pub(crate) proof fn lemma_actions_add_up(vtx: Seq<CompactTx>, starts: Seq<int>)
    requires
        starts.len() > vtx.len(),
        starts[0] == 0,
        forall|t: int|
            0 <= t < vtx.len() ==> starts[t + 1] == starts[t] + (#[trigger] vtx[t]).actions@.len(),
    ensures
        action_count(vtx) == starts[vtx.len() as int],
    decreases vtx.len(),
{
    if vtx.len() > 0 {
        let n = vtx.len() - 1;
        let front = vtx.drop_last();
        assert forall|t: int| 0 <= t < front.len() implies starts[t + 1] == starts[t] + (
        #[trigger] front[t]).actions@.len() by {
            assert(front[t] == vtx[t]);
        }
        lemma_actions_add_up(front, starts);
        assert(starts[n + 1] == starts[n] + vtx[n].actions@.len());
    }
}

/// Each nullifier carries the position of its transaction's first output.
///
/// Let `starts` hold, for each transaction, the number of actions of all
/// transactions before it, and at its end that of all transactions. Where the
/// metadata of the block gives an Orchard tree size that covers the block's
/// actions, the tree before the block has that many leaves fewer; else it has
/// the prior size. The position of a nullifier of transaction `t` is the size
/// before the block and `starts[t]`, and zero where no size is known. `place`
/// counts the nullifiers, so this speaks of each of them and no further one is
/// there. The Sapling tree size has no part in this.
pub proof fn law_positions_accumulate(
    block: CompactBlock,
    prior_tree_size: Option<u32>,
    place: spec_fn(int, int) -> int,
    starts: Seq<int>,
)
    requires
        place(0, 0) == 0,
        forall|t: int, a: int|
            0 <= t < block.vtx@.len() && 0 <= a < block.vtx@[t].actions@.len() ==> place(t, a + 1)
                == place(t, a) + (if (
            #[trigger] block.vtx@[t].actions@[a]).nullifier@.len() == 32 {
                1int
            } else {
                0int
            }),
        forall|t: int|
            0 <= t < block.vtx@.len() ==> place(t + 1, 0) == place(
                t,
                (#[trigger] block.vtx@[t]).actions@.len() as int,
            ),
        starts.len() == block.vtx@.len() + 1,
        starts[0] == 0,
        forall|t: int|
            0 <= t < block.vtx@.len() ==> starts[t + 1] == starts[t] + (
            #[trigger] block.vtx@[t]).actions@.len(),
        starts.last() <= u32::MAX,
        prior_tree_size matches Some(prior) ==> prior + starts.last() <= u32::MAX,
    ensures
        ({
            let spends = block_spends(block.vtx@, size_before(block, prior_tree_size));
            let own = block.chain_metadata matches Some(metadata)
                && metadata.orchard_commitment_tree_size > 0
                && metadata.orchard_commitment_tree_size >= starts.last();
            let before = if own {
                Some(block.chain_metadata->Some_0.orchard_commitment_tree_size - starts.last())
            } else {
                match prior_tree_size {
                    Some(prior) => Some(prior as int),
                    None => None,
                }
            };
            &&& spends.len() == place(block.vtx@.len() as int, 0)
            &&& forall|t: int, a: int|
                0 <= t < block.vtx@.len() && 0 <= a < block.vtx@[t].actions@.len() && (
                #[trigger] block.vtx@[t].actions@[a]).nullifier@.len() == 32 ==> {
                    let i = place(t, a);
                    &&& 0 <= i < spends.len()
                    &&& spends[i].nullifier@ == block.vtx@[t].actions@[a].nullifier@
                    &&& spends[i].first_output_position == (match before {
                        Some(size) => size + starts[t],
                        None => 0,
                    })
                    &&& spends[i].action_count == block.vtx@[t].actions@.len() as u8
                    &&& block.vtx@[t].actions@.len() <= 255 ==> spends[i].action_count
                        == block.vtx@[t].actions@.len()
                }
        }),
{
    let vtx = block.vtx@;
    let size = size_before(block, prior_tree_size);
    lemma_block_places(vtx, size, place, starts);
    assert forall|t: int| 0 <= t < starts.len() implies 0 <= #[trigger] starts[t]
        <= starts.last() by {
        lemma_starts_ascend(vtx, starts, t);
    }
}

proof fn lemma_starts_ascend(vtx: Seq<CompactTx>, starts: Seq<int>, t: int)
    requires
        starts.len() == vtx.len() + 1,
        starts[0] == 0,
        forall|t: int|
            0 <= t < vtx.len() ==> starts[t + 1] == starts[t] + (#[trigger] vtx[t]).actions@.len(),
        0 <= t < starts.len(),
    ensures
        0 <= starts[t] <= starts.last(),
    decreases vtx.len(),
{
    if vtx.len() > 0 {
        let n = vtx.len() - 1;
        assert(starts[n + 1] == starts[n] + vtx[n].actions@.len());
        assert forall|k: int| 0 <= k < n implies starts.drop_last()[k + 1] == starts.drop_last()[k]
            + (#[trigger] vtx.drop_last()[k]).actions@.len() by {
            assert(starts[k + 1] == starts[k] + vtx[k].actions@.len());
        }
        if t <= n {
            lemma_starts_ascend(vtx.drop_last(), starts.drop_last(), t);
        } else {
            lemma_starts_ascend(vtx.drop_last(), starts.drop_last(), n);
        }
    }
}

/// The nullifiers of a block and their positions depend on the Orchard actions
/// of its transactions and the Orchard tree size alone: Sapling spends, outputs
/// and tree size, fees and transaction identifiers do not matter.
pub proof fn law_only_actions_give_nullifiers(
    a: CompactBlock,
    b: CompactBlock,
    prior_tree_size: Option<u32>,
)
    requires
        a.vtx@.len() == b.vtx@.len(),
        forall|t: int|
            0 <= t < a.vtx@.len() ==> (#[trigger] a.vtx@[t]).actions@ == b.vtx@[t].actions@,
        a.chain_metadata is Some <==> b.chain_metadata is Some,
        a.chain_metadata is Some ==> a.chain_metadata->Some_0.orchard_commitment_tree_size
            == b.chain_metadata->Some_0.orchard_commitment_tree_size,
    ensures
        block_nullifiers(a.vtx@) == block_nullifiers(b.vtx@),
        tree_size_in(a) == tree_size_in(b),
        block_spends(a.vtx@, size_before(a, prior_tree_size)) == block_spends(
            b.vtx@,
            size_before(b, prior_tree_size),
        ),
{
    lemma_same_actions(a.vtx@, b.vtx@, size_before(a, prior_tree_size));
}

proof fn lemma_same_actions(a: Seq<CompactTx>, b: Seq<CompactTx>, size: Option<u32>)
    requires
        a.len() == b.len(),
        forall|t: int| 0 <= t < a.len() ==> (#[trigger] a[t]).actions@ == b[t].actions@,
    ensures
        action_count(a) == action_count(b),
        block_nullifiers(a) == block_nullifiers(b),
        block_spends(a, size) == block_spends(b, size),
    decreases a.len(),
{
    if a.len() > 0 {
        let n = a.len() - 1;
        assert(a[n].actions@ == b[n].actions@);
        assert forall|t: int| 0 <= t < n implies (#[trigger] a.drop_last()[t]).actions@
            == b.drop_last()[t].actions@ by {
            assert(a[t].actions@ == b[t].actions@);
        }
        lemma_same_actions(a.drop_last(), b.drop_last(), size);
    }
}

/// The tree size after a block is the Orchard size of its metadata, where that
/// is there and not zero.
pub proof fn law_size_is_the_orchard_size(block: CompactBlock)
    ensures
        match tree_size_in(block) {
            Some(size) => size > 0 && block.chain_metadata is Some && size
                == block.chain_metadata->Some_0.orchard_commitment_tree_size,
            None => block.chain_metadata is None
                || block.chain_metadata->Some_0.orchard_commitment_tree_size == 0,
        },
{
}

/// What is extracted from a block is the nullifier of every action whose
/// nullifier has 32 bytes, in transaction and then action order, with the tree
/// size before the block and the number of actions of all transactions before
/// its own as position, and the tree size after the block.
///
/// `place` counts the nullifiers and `starts` holds the number of actions of all
/// transactions before each. The size before the block is the Orchard size of
/// its metadata without the block's own actions, where that is there and covers
/// them, and the prior size otherwise.
pub proof fn law_every_nullifier_is_extracted(
    block: CompactBlock,
    prior_tree_size: Option<u32>,
    place: spec_fn(int, int) -> int,
    starts: Seq<int>,
    extracted: (Vec<NullifierWithMeta>, Option<u32>),
    nullifiers: Vec<[u8; 32]>,
)
    requires
        call_ensures(extract_nullifiers_with_meta, (&block, prior_tree_size), extracted),
        call_ensures(extract_nullifiers, (&block,), nullifiers),
        place(0, 0) == 0,
        forall|t: int, a: int|
            0 <= t < block.vtx@.len() && 0 <= a < block.vtx@[t].actions@.len() ==> place(t, a + 1)
                == place(t, a) + (if (#[trigger] block.vtx@[t].actions@[a]).nullifier@.len() == 32 {
                1int
            } else {
                0int
            }),
        forall|t: int|
            0 <= t < block.vtx@.len() ==> place(t + 1, 0) == place(
                t,
                (#[trigger] block.vtx@[t]).actions@.len() as int,
            ),
        starts.len() == block.vtx@.len() + 1,
        starts[0] == 0,
        forall|t: int|
            0 <= t < block.vtx@.len() ==> starts[t + 1] == starts[t] + (
            #[trigger] block.vtx@[t]).actions@.len(),
        starts.last() <= u32::MAX,
        prior_tree_size matches Some(prior) ==> prior + starts.last() <= u32::MAX,
    ensures
        nullifiers@.len() == place(block.vtx@.len() as int, 0),
        extracted.0@.len() == place(block.vtx@.len() as int, 0),
        ({
            let own = block.chain_metadata is Some
                && block.chain_metadata->Some_0.orchard_commitment_tree_size > 0;
            &&& own ==> extracted.1 == Some(
                block.chain_metadata->Some_0.orchard_commitment_tree_size,
            )
            &&& !own ==> extracted.1 is None
        }),
        forall|t: int, a: int|
            0 <= t < block.vtx@.len() && 0 <= a < block.vtx@[t].actions@.len() && (
            #[trigger] block.vtx@[t].actions@[a]).nullifier@.len() == 32 ==> {
                let i = place(t, a);
                let size = block.chain_metadata->Some_0.orchard_commitment_tree_size;
                let own = block.chain_metadata is Some && size > 0 && size >= starts.last();
                &&& 0 <= i < extracted.0@.len()
                &&& nullifiers@[i]@ == block.vtx@[t].actions@[a].nullifier@
                &&& extracted.0@[i].nullifier@ == block.vtx@[t].actions@[a].nullifier@
                &&& own ==> extracted.0@[i].first_output_position == size - starts.last()
                    + starts[t]
                &&& !own && prior_tree_size is Some ==> extracted.0@[i].first_output_position
                    == prior_tree_size->Some_0 + starts[t]
                &&& !own && prior_tree_size is None ==> extracted.0@[i].first_output_position == 0
                &&& extracted.0@[i].action_count == block.vtx@[t].actions@.len() as u8
                &&& block.vtx@[t].actions@.len() <= 255 ==> extracted.0@[i].action_count
                    == block.vtx@[t].actions@.len()
            },
{
    law_positions_accumulate(block, prior_tree_size, place, starts);
    law_nullifiers_in_order(block, place);
}

} // verus!
