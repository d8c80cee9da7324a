//! Orchard nullifiers of compact blocks.

use crate::bytes::{hash_from, lemma_array_from, read_array_at};
use crate::chain_ingest::proto::{
    action_count, lemma_action_count_take, tree_size_in, CompactBlock, CompactOrchardAction,
    CompactTx,
};
use crate::nullifier::spend_types::NullifierWithMeta;
use vstd::prelude::*;

pub use crate::chain_ingest::proto::orchard_tree_size;

verus! {

/// The nullifiers of the actions. Those that do not have 32 bytes are left
/// out.
pub open spec fn nullifiers_of(actions: Seq<CompactOrchardAction>) -> Seq<[u8; 32]>
    decreases actions.len(),
{
    if actions.len() == 0 {
        Seq::empty()
    } else {
        let before = nullifiers_of(actions.drop_last());
        let nullifier = actions.last().nullifier@;
        if nullifier.len() == 32 {
            before.push(hash_from(nullifier))
        } else {
            before
        }
    }
}

/// The nullifiers of the transactions in order.
pub open spec fn block_nullifiers(vtx: Seq<CompactTx>) -> Seq<[u8; 32]>
    decreases vtx.len(),
{
    if vtx.len() == 0 {
        Seq::empty()
    } else {
        block_nullifiers(vtx.drop_last()) + nullifiers_of(vtx.last().actions@)
    }
}

/// The size of the tree before a block: what its own metadata gives, or else
/// the size after the block before it.
pub open spec fn size_before(block: CompactBlock, prior_tree_size: Option<u32>) -> Option<u32> {
    match tree_size_in(block) {
        Some(size) => if action_count(block.vtx@) <= size {
            Some((size - action_count(block.vtx@)) as u32)
        } else {
            prior_tree_size
        },
        None => prior_tree_size,
    }
}

/// Nullifiers with the position of their transaction's first output and the
/// number of its actions.
pub open spec fn with_meta(nullifiers: Seq<[u8; 32]>, position: u32, count: u8) -> Seq<
    NullifierWithMeta,
> {
    Seq::new(
        nullifiers.len(),
        |i: int|
            NullifierWithMeta {
                nullifier: nullifiers[i],
                first_output_position: position,
                action_count: count,
            },
    )
}

/// The position of the first output behind the transactions, or zero where the
/// size of the tree before them is not known.
pub open spec fn position_behind(vtx: Seq<CompactTx>, size: Option<u32>) -> u32 {
    match size {
        Some(size) => (size + action_count(vtx)) as u32,
        None => 0,
    }
}

/// The nullifiers of the transactions with where their outputs stand.
pub open spec fn block_spends(vtx: Seq<CompactTx>, size: Option<u32>) -> Seq<NullifierWithMeta>
    decreases vtx.len(),
{
    if vtx.len() == 0 {
        Seq::empty()
    } else {
        let before = vtx.drop_last();
        let actions = vtx.last().actions@;
        block_spends(before, size) + with_meta(
            nullifiers_of(actions),
            position_behind(before, size),
            actions.len() as u8,
        )
    }
}

/// Whether all positions of a block's outputs fit.
pub open spec fn positions_fit(block: CompactBlock, prior_tree_size: Option<u32>) -> bool {
    &&& action_count(block.vtx@) <= u32::MAX
    &&& match size_before(block, prior_tree_size) {
        Some(size) => size + action_count(block.vtx@) <= u32::MAX,
        None => true,
    }
}

/// Appends the nullifiers of the actions.
fn push_nullifiers(nullifiers: &mut Vec<[u8; 32]>, actions: &Vec<CompactOrchardAction>)
    ensures
        final(nullifiers)@ == old(nullifiers)@ + nullifiers_of(actions@),
{
    let ghost start = nullifiers@;
    let mut i: usize = 0;
    assert(nullifiers@ =~= start + nullifiers_of(actions@.take(0)));
    while i < actions.len()
        invariant
            i <= actions@.len(),
            nullifiers@ == start + nullifiers_of(actions@.take(i as int)),
        decreases actions@.len() - i,
    {
        assert(actions@.take(i + 1).drop_last() =~= actions@.take(i as int));
        let bytes = &actions[i].nullifier;
        if bytes.len() == 32 {
            let nf: [u8; 32] = read_array_at::<32>(bytes.as_slice(), 0);
            proof {
                assert(bytes@.subrange(0, 32) =~= bytes@);
                lemma_array_from(nf);
            }
            nullifiers.push(nf);
        }
        i += 1;
        assert(nullifiers@ =~= start + nullifiers_of(actions@.take(i as int)));
    }
    assert(actions@.take(i as int) =~= actions@);
}

/// All Orchard nullifiers of a block. Sapling nullifiers are ignored.
pub fn extract_nullifiers(block: &CompactBlock) -> (nullifiers: Vec<[u8; 32]>)
    ensures
        nullifiers@ == block_nullifiers(block.vtx@),
{
    let mut nullifiers: Vec<[u8; 32]> = Vec::new();
    let mut i: usize = 0;
    while i < block.vtx.len()
        invariant
            i <= block.vtx@.len(),
            nullifiers@ == block_nullifiers(block.vtx@.take(i as int)),
        decreases block.vtx@.len() - i,
    {
        assert(block.vtx@.take(i + 1).drop_last() =~= block.vtx@.take(i as int));
        push_nullifiers(&mut nullifiers, &block.vtx[i].actions);
        i += 1;
    }
    assert(block.vtx@.take(i as int) =~= block.vtx@);
    nullifiers
}

/// The number of actions of a block, or none where there are too many to
/// count.
fn count_actions(block: &CompactBlock) -> (count: Option<u32>)
    ensures
        match count {
            Some(count) => count == action_count(block.vtx@),
            None => action_count(block.vtx@) > u32::MAX,
        },
{
    let mut count: u32 = 0;
    let mut i: usize = 0;
    while i < block.vtx.len()
        invariant
            i <= block.vtx@.len(),
            count == action_count(block.vtx@.take(i as int)),
        decreases block.vtx@.len() - i,
    {
        let more: usize = block.vtx[i].actions.len();
        proof {
            lemma_action_count_take(block.vtx@, i as int);
            lemma_action_count_take(block.vtx@, i + 1);
        }
        if more as u64 > (u32::MAX - count) as u64 {
            return None;
        }
        count = count + more as u32;
        i += 1;
    }
    assert(block.vtx@.take(i as int) =~= block.vtx@);
    Some(count)
}

/// Whether [`extract_nullifiers_with_meta`] can give all positions.
pub fn can_extract_with_meta(block: &CompactBlock, prior_tree_size: Option<u32>) -> (fit: bool)
    ensures
        fit == positions_fit(*block, prior_tree_size),
{
    match count_actions(block) {
        None => false,
        Some(count) => {
            let own: bool = match orchard_tree_size(block) {
                Some(size) => count <= size,
                None => false,
            };
            if own {
                true
            } else {
                match prior_tree_size {
                    Some(size) => count <= u32::MAX - size,
                    None => true,
                }
            }
        },
    }
}

/// Orchard nullifiers with where the outputs of their transactions stand.
///
/// For each nullifier, gives the tree position of the first output of its
/// transaction and the number of the transaction's actions. This lets clients
/// address the decryption and witness databases without the block.
///
/// Returns the nullifiers and the tree size after the block. The latter is the
/// `prior_tree_size` of the next block.
pub fn extract_nullifiers_with_meta(
    block: &CompactBlock,
    prior_tree_size: Option<u32>,
) -> (extracted: (Vec<NullifierWithMeta>, Option<u32>))
    requires
        positions_fit(*block, prior_tree_size),
    ensures
        extracted.0@ == block_spends(block.vtx@, size_before(*block, prior_tree_size)),
        extracted.1 == tree_size_in(*block),
{
    let this_tree_size: Option<u32> = orchard_tree_size(block);
    let total_actions: u32 = match count_actions(block) {
        Some(count) => count,
        None => 0,
    };
    let tree_size_before_block: Option<u32> = match this_tree_size {
        Some(size) => if total_actions <= size {
            Some(size - total_actions)
        } else {
            prior_tree_size
        },
        None => prior_tree_size,
    };
    let mut results: Vec<NullifierWithMeta> = Vec::new();
    let mut running_position: Option<u32> = tree_size_before_block;
    let ghost size = size_before(*block, prior_tree_size);
    let mut i: usize = 0;
    assert(block.vtx@.take(0) =~= Seq::empty());
    while i < block.vtx.len()
        invariant
            i <= block.vtx@.len(),
            size == size_before(*block, prior_tree_size),
            positions_fit(*block, prior_tree_size),
            results@ == block_spends(block.vtx@.take(i as int), size),
            running_position == (match size {
                Some(size) => Some((size + action_count(block.vtx@.take(i as int))) as u32),
                None => None,
            }),
        decreases block.vtx@.len() - i,
    {
        let actions = &block.vtx[i].actions;
        let ghost before = results@;
        proof {
            assert(block.vtx@.take(i + 1).drop_last() =~= block.vtx@.take(i as int));
            lemma_action_count_take(block.vtx@, i as int);
            lemma_action_count_take(block.vtx@, i + 1);
        }
        let action_count: u8 = actions.len() as u8;
        let first_output_position: u32 = match running_position {
            Some(position) => position,
            None => 0,
        };
        let mut nullifiers: Vec<[u8; 32]> = Vec::new();
        push_nullifiers(&mut nullifiers, actions);
        assert(nullifiers@ =~= nullifiers_of(actions@));
        let ghost found = with_meta(nullifiers@, first_output_position, action_count);
        let mut j: usize = 0;
        while j < nullifiers.len()
            invariant
                j <= nullifiers@.len(),
                found == with_meta(nullifiers@, first_output_position, action_count),
                results@ == before + found.take(j as int),
            decreases nullifiers@.len() - j,
        {
            results.push(
                NullifierWithMeta {
                    nullifier: nullifiers[j],
                    first_output_position,
                    action_count,
                },
            );
            j += 1;
            assert(results@ =~= before + found.take(j as int));
        }
        assert(found.take(j as int) =~= found);
        running_position = match running_position {
            Some(position) => Some(position + actions.len() as u32),
            None => None,
        };
        i += 1;
    }
    assert(block.vtx@.take(i as int) =~= block.vtx@);
    (results, this_tree_size)
}

/// The nullifiers with metadata are the nullifiers of the block.
pub proof fn law_same_nullifiers(vtx: Seq<CompactTx>, size: Option<u32>)
    ensures
        block_spends(vtx, size).len() == block_nullifiers(vtx).len(),
        forall|i: int|
            0 <= i < block_nullifiers(vtx).len() ==> (#[trigger] block_spends(
                vtx,
                size,
            )[i]).nullifier == block_nullifiers(vtx)[i],
    decreases vtx.len(),
{
    if vtx.len() > 0 {
        law_same_nullifiers(vtx.drop_last(), size);
    }
}

/// The metadata of a block and the size after the block before it give the
/// same positions where both are there.
pub proof fn law_sizes_agree(
    block: CompactBlock,
    bare: CompactBlock,
    prior_tree_size: Option<u32>,
    size: u32,
)
    requires
        block.vtx == bare.vtx,
        tree_size_in(bare) is None,
        tree_size_in(block) == Some((size + action_count(block.vtx@)) as u32),
        size + action_count(block.vtx@) <= u32::MAX,
    ensures
        block_spends(block.vtx@, size_before(block, prior_tree_size)) == block_spends(
            bare.vtx@,
            size_before(bare, Some(size)),
        ),
{
}

} // verus!
