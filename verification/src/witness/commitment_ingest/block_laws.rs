//! Which commitments and decryption leaves a block has, place by place.

use super::parser::{
    actions_of, block_commitments, block_leaves, committed, committed_in,
    extract_commitments, extract_commitments_and_decryption, extract_decryption_leaves,
    law_leaves_pair_with_commitments,
};
use crate::chain_ingest::proto::{CompactBlock, CompactOrchardAction, CompactTx};
use crate::witness::decryption_types::DecryptionLeaf;
use vstd::prelude::*;

verus! {

proof fn lemma_committed_concat(a: Seq<CompactOrchardAction>, b: Seq<CompactOrchardAction>)
    ensures
        committed(a + b) == committed(a) + committed(b),
    decreases b.len(),
{
    if b.len() == 0 {
        assert(a + b =~= a);
        assert(committed(a) + committed(b) =~= committed(a));
    } else {
        lemma_committed_concat(a, b.drop_last());
        assert((a + b).drop_last() =~= a + b.drop_last());
        assert((a + b).last() == b.last());
        assert(committed(a + b) =~= committed(a) + committed(b));
    }
}

/// Places of actions within one transaction, when `place` counts them.
proof fn lemma_committed_places(actions: Seq<CompactOrchardAction>, place: spec_fn(int) -> int)
    requires
        place(0) == 0,
        forall|a: int|
            0 <= a < actions.len() ==> place(a + 1) == place(a) + (if (
            #[trigger] actions[a]).cmx@.len() == 32 {
                1int
            } else {
                0int
            }),
    ensures
        committed(actions).len() == place(actions.len() as int),
        forall|a: int|
            0 <= a < actions.len() && (#[trigger] actions[a]).cmx@.len() == 32 ==> {
                &&& 0 <= place(a) < committed(actions).len()
                &&& committed(actions)[place(a)] == actions[a]
            },
    decreases actions.len(),
{
    if actions.len() > 0 {
        let rest = actions.drop_last();
        assert forall|a: int| 0 <= a < rest.len() implies place(a + 1) == place(a) + (if (
        #[trigger] rest[a]).cmx@.len() == 32 {
            1int
        } else {
            0int
        }) by {
            assert(rest[a] == actions[a]);
        }
        lemma_committed_places(rest, place);
        assert forall|a: int|
            0 <= a < actions.len() && (#[trigger] actions[a]).cmx@.len() == 32 implies 0 <= place(a)
            < committed(actions).len() && committed(actions)[place(a)] == actions[a] by {
            if a < rest.len() {
                assert(rest[a] == actions[a]);
            }
        }
        assert(actions[actions.len() - 1] == actions.last());
    }
}

proof fn lemma_committed_in_places(vtx: Seq<CompactTx>, place: spec_fn(int, int) -> int)
    requires
        place(0, 0) == 0,
        forall|t: int, a: int|
            0 <= t < vtx.len() && 0 <= a < vtx[t].actions@.len() ==> place(t, a + 1) == place(t, a)
                + (if (#[trigger] vtx[t].actions@[a]).cmx@.len() == 32 {
                1int
            } else {
                0int
            }),
        forall|t: int|
            0 <= t < vtx.len() ==> place(t + 1, 0) == place(
                t,
                (#[trigger] vtx[t]).actions@.len() as int,
            ),
    ensures
        committed(actions_of(vtx)).len() == place(vtx.len() as int, 0),
        forall|t: int, a: int|
            0 <= t < vtx.len() && 0 <= a < vtx[t].actions@.len() && (
            #[trigger] vtx[t].actions@[a]).cmx@.len() == 32 ==> {
                &&& 0 <= place(t, a) < committed(actions_of(vtx)).len()
                &&& committed(actions_of(vtx))[place(t, a)] == vtx[t].actions@[a]
            },
    decreases vtx.len(),
{
    if vtx.len() > 0 {
        let n = vtx.len() - 1;
        let rest = vtx.drop_last();
        let actions = vtx.last().actions@;
        assert(forall|t: int| 0 <= t < n ==> rest[t] == vtx[t]);
        lemma_committed_in_places(rest, place);
        lemma_committed_concat(actions_of(rest), actions);
        let start = place(n, 0);
        if n > 0 {
            assert(rest[n - 1] == vtx[n - 1]);
        }
        assert(committed(actions_of(rest)).len() == start);
        let local = |a: int| place(n, a) - start;
        assert forall|a: int| 0 <= a < actions.len() implies local(a + 1) == local(a) + (if (
        #[trigger] actions[a]).cmx@.len() == 32 {
            1int
        } else {
            0int
        }) by {
            assert(vtx[n].actions@[a] == actions[a]);
        }
        lemma_committed_places(actions, local);
        assert(vtx[n] == vtx.last());
        assert forall|t: int, a: int|
            0 <= t < vtx.len() && 0 <= a < vtx[t].actions@.len() && (
            #[trigger] vtx[t].actions@[a]).cmx@.len() == 32 implies 0 <= place(t, a) < committed(
            actions_of(vtx),
        ).len() && committed(actions_of(vtx))[place(t, a)] == vtx[t].actions@[a] by {
            if t < n {
                assert(rest[t].actions@[a] == vtx[t].actions@[a]);
            } else {
                assert(actions[a] == vtx[t].actions@[a]);
                assert(local(a) == place(n, a) - start);
            }
        }
        assert(local(actions.len() as int) == place(n, actions.len() as int) - start);
    }
}

/// Each commitment comes from some action.
proof fn lemma_committed_from(vtx: Seq<CompactTx>, i: int) -> (place: (int, int))
    requires
        0 <= i < committed(actions_of(vtx)).len(),
    ensures
        0 <= place.0 < vtx.len(),
        0 <= place.1 < vtx[place.0].actions@.len(),
        vtx[place.0].actions@[place.1].cmx@.len() == 32,
        committed(actions_of(vtx))[i] == vtx[place.0].actions@[place.1],
    decreases vtx.len(),
{
    if vtx.len() == 0 {
        (0, 0)
    } else {
        let rest = vtx.drop_last();
        let actions = vtx.last().actions@;
        lemma_committed_concat(actions_of(rest), actions);
        let n = committed(actions_of(rest)).len();
        if i < n {
            let place = lemma_committed_from(rest, i);
            assert(rest[place.0] == vtx[place.0]);
            place
        } else {
            (vtx.len() - 1, lemma_committed_source(actions, i - n))
        }
    }
}

proof fn lemma_committed_source(actions: Seq<CompactOrchardAction>, i: int) -> (a: int)
    requires
        0 <= i < committed(actions).len(),
    ensures
        0 <= a < actions.len(),
        actions[a].cmx@.len() == 32,
        committed(actions)[i] == actions[a],
    decreases actions.len(),
{
    if actions.len() == 0 {
        0
    } else if i < committed(actions.drop_last()).len() {
        let a = lemma_committed_source(actions.drop_last(), i);
        assert(actions.drop_last()[a] == actions[a]);
        a
    } else {
        actions.len() - 1
    }
}

/// The commitments of a block stand in transaction and then action order.
///
/// Let `place` count, over the actions before action `a` of transaction `t`,
/// those whose commitment has 32 bytes. The commitment of each action that has
/// 32 bytes stands at the action's place, the action's decryption data stands at
/// the same place of the leaves, and there are no further commitments or
/// leaves.
pub proof fn law_commitments_in_order(block: CompactBlock, place: spec_fn(int, int) -> int)
    requires
        place(0, 0) == 0,
        forall|t: int, a: int|
            0 <= t < block.vtx@.len() && 0 <= a < block.vtx@[t].actions@.len() ==> place(t, a + 1)
                == place(t, a) + (if (#[trigger] block.vtx@[t].actions@[a]).cmx@.len() == 32 {
                1int
            } else {
                0int
            }),
        forall|t: int|
            0 <= t < block.vtx@.len() ==> place(t + 1, 0) == place(
                t,
                (#[trigger] block.vtx@[t]).actions@.len() as int,
            ),
    ensures
        block_commitments(block).len() == place(block.vtx@.len() as int, 0),
        block_leaves(block).len() == place(block.vtx@.len() as int, 0),
        forall|t: int, a: int|
            0 <= t < block.vtx@.len() && 0 <= a < block.vtx@[t].actions@.len() && (
            #[trigger] block.vtx@[t].actions@[a]).cmx@.len() == 32 ==> {
                let action = block.vtx@[t].actions@[a];
                let i = place(t, a);
                &&& 0 <= i < block_commitments(block).len()
                &&& block_commitments(block)[i]@ == action.cmx@
                &&& forall|k: int|
                    0 <= k < 32 ==> #[trigger] block_leaves(block)[i].nf@[k] == (if k
                        < action.nullifier@.len() {
                        action.nullifier@[k]
                    } else {
                        0u8
                    })
                &&& forall|k: int|
                    0 <= k < 32 ==> #[trigger] block_leaves(block)[i].ephemeral_key@[k] == (if k
                        < action.ephemeral_key@.len() {
                        action.ephemeral_key@[k]
                    } else {
                        0u8
                    })
                &&& forall|k: int|
                    0 <= k < 52 ==> #[trigger] block_leaves(block)[i].ciphertext@[k] == (if k
                        < action.ciphertext@.len() {
                        action.ciphertext@[k]
                    } else {
                        0u8
                    })
            },
{
    let vtx = block.vtx@;
    lemma_committed_in_places(vtx, place);
    assert forall|t: int, a: int|
        0 <= t < vtx.len() && 0 <= a < vtx[t].actions@.len() && (
        #[trigger] vtx[t].actions@[a]).cmx@.len() == 32 implies {
        let action = vtx[t].actions@[a];
        let i = place(t, a);
        &&& 0 <= i < block_commitments(block).len()
        &&& block_commitments(block)[i]@ == action.cmx@
        &&& forall|k: int|
            0 <= k < 32 ==> #[trigger] block_leaves(block)[i].nf@[k] == (if k
                < action.nullifier@.len() {
                action.nullifier@[k]
            } else {
                0u8
            })
        &&& forall|k: int|
            0 <= k < 32 ==> #[trigger] block_leaves(block)[i].ephemeral_key@[k] == (if k
                < action.ephemeral_key@.len() {
                action.ephemeral_key@[k]
            } else {
                0u8
            })
        &&& forall|k: int|
            0 <= k < 52 ==> #[trigger] block_leaves(block)[i].ciphertext@[k] == (if k
                < action.ciphertext@.len() {
                action.ciphertext@[k]
            } else {
                0u8
            })
    } by {
        law_leaves_pair_with_commitments(block, place(t, a));
    }
}

/// Every commitment of a block is that of an action whose commitment has 32
/// bytes.
pub proof fn law_commitments_come_from_actions(block: CompactBlock, i: int)
    requires
        0 <= i < block_commitments(block).len(),
    ensures
        exists|t: int, a: int|
            {
                &&& 0 <= t < block.vtx@.len()
                &&& 0 <= a < block.vtx@[t].actions@.len()
                &&& (#[trigger] block.vtx@[t].actions@[a]).cmx@.len() == 32
                &&& block_commitments(block)[i]@ == block.vtx@[t].actions@[a].cmx@
            },
{
    let (t, a) = lemma_committed_from(block.vtx@, i);
    law_leaves_pair_with_commitments(block, i);
    assert(block_commitments(block)[i]@ == block.vtx@[t].actions@[a].cmx@);
}

/// Every action whose commitment has 32 bytes has it among the commitments of
/// its block.
pub proof fn law_actions_have_commitments(block: CompactBlock, t: int, a: int)
    requires
        0 <= t < block.vtx@.len(),
        0 <= a < block.vtx@[t].actions@.len(),
        block.vtx@[t].actions@[a].cmx@.len() == 32,
    ensures
        exists|i: int|
            {
                &&& 0 <= i < block_commitments(block).len()
                &&& (#[trigger] block_commitments(block)[i])@ == block.vtx@[t].actions@[a].cmx@
            },
{
    let i = lemma_committed_at(block.vtx@, t, a);
    law_leaves_pair_with_commitments(block, i);
    assert(block_commitments(block)[i]@ == block.vtx@[t].actions@[a].cmx@);
}

proof fn lemma_committed_at(vtx: Seq<CompactTx>, t: int, a: int) -> (i: int)
    requires
        0 <= t < vtx.len(),
        0 <= a < vtx[t].actions@.len(),
        vtx[t].actions@[a].cmx@.len() == 32,
    ensures
        0 <= i < committed(actions_of(vtx)).len(),
        committed(actions_of(vtx))[i] == vtx[t].actions@[a],
    decreases vtx.len(),
{
    let rest = vtx.drop_last();
    let actions = vtx.last().actions@;
    lemma_committed_concat(actions_of(rest), actions);
    if t < rest.len() {
        lemma_committed_at(rest, t, a)
    } else {
        committed(actions_of(rest)).len() + lemma_committed_found(actions, a)
    }
}

proof fn lemma_committed_found(actions: Seq<CompactOrchardAction>, a: int) -> (i: int)
    requires
        0 <= a < actions.len(),
        actions[a].cmx@.len() == 32,
    ensures
        0 <= i < committed(actions).len(),
        committed(actions)[i] == actions[a],
    decreases actions.len(),
{
    if a == actions.len() - 1 {
        committed(actions).len() - 1
    } else {
        lemma_committed_found(actions.drop_last(), a)
    }
}

/// The commitments and decryption data of a block depend on the Orchard actions
/// of its transactions alone: Sapling spends and outputs, fees, transaction
/// identifiers and the fields of the block do not matter.
pub proof fn law_only_actions_matter(a: CompactBlock, b: CompactBlock)
    requires
        a.vtx@.len() == b.vtx@.len(),
        forall|t: int|
            0 <= t < a.vtx@.len() ==> (#[trigger] a.vtx@[t]).actions@ == b.vtx@[t].actions@,
    ensures
        block_commitments(a) == block_commitments(b),
        block_leaves(a) == block_leaves(b),
{
    lemma_same_actions(a.vtx@, b.vtx@);
    assert(committed_in(a) == committed_in(b));
}

proof fn lemma_same_actions(a: Seq<CompactTx>, b: Seq<CompactTx>)
    requires
        a.len() == b.len(),
        forall|t: int| 0 <= t < a.len() ==> (#[trigger] a[t]).actions@ == b[t].actions@,
    ensures
        actions_of(a) == actions_of(b),
    decreases a.len(),
{
    if a.len() > 0 {
        let n = a.len() - 1;
        assert(a[n].actions@ == b[n].actions@);
        assert forall|t: int| 0 <= t < n implies (#[trigger] a.drop_last()[t]).actions@
            == b.drop_last()[t].actions@ by {
            assert(a[t].actions@ == b[t].actions@);
        }
        lemma_same_actions(a.drop_last(), b.drop_last());
    }
}

/// What is extracted from a block is the commitment and the decryption data of
/// every action whose commitment has 32 bytes, in transaction and then action
/// order, at the place that `place` counts, and nothing else.
pub proof fn law_every_action_is_extracted(
    block: CompactBlock,
    place: spec_fn(int, int) -> int,
    extracted: (Vec<[u8; 32]>, Vec<DecryptionLeaf>),
    commitments: Vec<[u8; 32]>,
    leaves: Vec<DecryptionLeaf>,
)
    requires
        call_ensures(extract_commitments_and_decryption, (&block,), extracted),
        call_ensures(extract_commitments, (&block,), commitments),
        call_ensures(extract_decryption_leaves, (&block,), leaves),
        place(0, 0) == 0,
        forall|t: int, a: int|
            0 <= t < block.vtx@.len() && 0 <= a < block.vtx@[t].actions@.len() ==> place(t, a + 1)
                == place(t, a) + (if (#[trigger] block.vtx@[t].actions@[a]).cmx@.len() == 32 {
                1int
            } else {
                0int
            }),
        forall|t: int|
            0 <= t < block.vtx@.len() ==> place(t + 1, 0) == place(
                t,
                (#[trigger] block.vtx@[t]).actions@.len() as int,
            ),
    ensures
        commitments@ == extracted.0@,
        leaves@ == extracted.1@,
        extracted.0@.len() == place(block.vtx@.len() as int, 0),
        extracted.1@.len() == place(block.vtx@.len() as int, 0),
        forall|t: int, a: int|
            0 <= t < block.vtx@.len() && 0 <= a < block.vtx@[t].actions@.len() && (
            #[trigger] block.vtx@[t].actions@[a]).cmx@.len() == 32 ==> {
                let i = place(t, a);
                &&& 0 <= i < extracted.0@.len()
                &&& extracted.0@[i]@ == block.vtx@[t].actions@[a].cmx@
            },
        forall|t: int, a: int, k: int|
            0 <= t < block.vtx@.len() && 0 <= a < block.vtx@[t].actions@.len() && (
            #[trigger] block.vtx@[t].actions@[a]).cmx@.len() == 32 && 0 <= k < 32 ==> (
            #[trigger] extracted.1@[place(t, a)].nf@[k]) == (if k
                < block.vtx@[t].actions@[a].nullifier@.len() {
                block.vtx@[t].actions@[a].nullifier@[k]
            } else {
                0u8
            }),
{
    law_commitments_in_order(block, place);
}

} // verus!
