//! Which commitments of the block at the edge of the window belong to it.

use super::server::{
    bootstrapped, completing_block_spillover, end_size, shards_before_window, spillover,
};
use crate::bytes::{hash_from, lemma_array_bytes, padded};
use crate::chain_ingest::proto::CompactBlock;
use crate::witness::commitment_ingest::block_laws::law_only_actions_matter;
use crate::witness::commitment_ingest::parser::{block_commitments, extract_commitments};
use vstd::prelude::*;

verus! {

/// Of a block after which the Orchard tree has more leaves than there are
/// before the window, the last commitments are kept, as many as there are leaves
/// in the window or all where the block has fewer. Of any other block none is
/// kept.
pub proof fn law_spillover_is_the_end_of_the_block(block: CompactBlock, leaf_offset: u64)
    ensures
        ({
            let all = block_commitments(block);
            let kept = spillover(all, end_size(block), leaf_offset);
            match block.chain_metadata {
                Some(metadata) => {
                    let size = metadata.orchard_commitment_tree_size;
                    &&& size <= leaf_offset ==> kept.len() == 0
                    &&& size > leaf_offset && all.len() <= size - leaf_offset ==> kept.len()
                        == all.len()
                    &&& size > leaf_offset && all.len() > size - leaf_offset ==> kept.len() == size
                        - leaf_offset
                    &&& forall|i: int|
                        0 <= i < kept.len() ==> #[trigger] kept[i] == all[all.len() - kept.len()
                            + i]
                },
                None => kept.len() == 0,
            }
        }),
{
}

/// A commitment of the block is kept if and only if its position in the tree is
/// not before the window, where the block's last commitment is the last leaf of
/// the tree.
pub proof fn law_spillover_goes_by_position(
    commitments: Seq<[u8; 32]>,
    end_tree_size: u64,
    leaf_offset: u64,
    j: int,
)
    requires
        0 <= j < commitments.len(),
        commitments.len() <= end_tree_size,
    ensures
        ({
            let kept = spillover(commitments, end_tree_size, leaf_offset);
            let position = end_tree_size - commitments.len() + j;
            let first = if end_tree_size - commitments.len() >= leaf_offset {
                end_tree_size - commitments.len()
            } else {
                leaf_offset as int
            };
            &&& position >= leaf_offset ==> 0 <= position - first < kept.len() && kept[position
                - first] == commitments[j]
            &&& kept.len() + leaf_offset <= end_tree_size || kept.len() == 0
        }),
{
}

/// The Sapling tree size has no influence on which commitments are kept, nor
/// have the Sapling parts of the transactions.
pub proof fn law_spillover_ignores_sapling(a: CompactBlock, b: CompactBlock, leaf_offset: u64)
    requires
        a.vtx@.len() == b.vtx@.len(),
        forall|t: int|
            0 <= t < a.vtx@.len() ==> (#[trigger] a.vtx@[t]).actions@ == b.vtx@[t].actions@,
        a.chain_metadata is Some <==> b.chain_metadata is Some,
        a.chain_metadata is Some ==> a.chain_metadata->Some_0.orchard_commitment_tree_size
            == b.chain_metadata->Some_0.orchard_commitment_tree_size,
    ensures
        spillover(block_commitments(a), end_size(a), leaf_offset) == spillover(
            block_commitments(b),
            end_size(b),
            leaf_offset,
        ),
{
    law_only_actions_matter(a, b);
}

/// A bootstrapped tree starts at the offset, holds the roots before it, and
/// holds the last commitments of the completing block that lie in the window
/// under one record of that block, or nothing where there are none.
pub proof fn law_bootstrap_holds_the_spillover(
    leaf_offset: u64,
    prefetched: Seq<[u8; 32]>,
    height: u64,
    block: CompactBlock,
)
    requires
        block.chain_metadata is Some,
        block_commitments(block).len() <= u32::MAX,
    ensures
        ({
            let tree = bootstrapped(leaf_offset, prefetched, height, block);
            let all = block_commitments(block);
            let size = block.chain_metadata->Some_0.orchard_commitment_tree_size as int;
            let count = if size <= leaf_offset {
                0
            } else if all.len() <= size - leaf_offset {
                all.len() as int
            } else {
                size - leaf_offset
            };
            &&& tree.leaf_offset == leaf_offset
            &&& tree.prefetched_shard_roots == prefetched
            &&& tree.leaves.len() == count
            &&& forall|i: int|
                0 <= i < count ==> #[trigger] tree.leaves[i] == all[all.len() - count + i]
            &&& count == 0 ==> tree.blocks.len() == 0
            &&& count > 0 ==> {
                &&& tree.blocks.len() == 1
                &&& tree.blocks[0].height == height
                &&& tree.blocks[0].num_commitments == count
                &&& forall|k: int|
                    0 <= k < 32 ==> #[trigger] tree.blocks[0].hash@[k] == (if k
                        < block.hash@.len() {
                        block.hash@[k]
                    } else {
                        0u8
                    })
            }
        }),
{
    lemma_array_bytes::<32>(padded(block.hash@));
    assert(hash_from(padded(block.hash@))@ == padded(block.hash@));
}

/// The shards before the window, the complete ones in it and its frontier make
/// up all shards: the window has as many as the limit says, the frontier among
/// them.
pub proof fn law_window_has_the_limit(completed: int, window_shard_limit: int)
    ensures
        shards_before_window(completed, window_shard_limit) + window_shard_limit == completed + 1,
{
}

/// The commitments of a completing block that are kept are its last ones: with
/// an Orchard tree size past the offset as many as the size exceeds it by, or
/// all where there are fewer, and none otherwise. `all` are the commitments of
/// the block.
pub proof fn law_completing_block_keeps_its_end(
    block: CompactBlock,
    leaf_offset: u64,
    all: Vec<[u8; 32]>,
    kept: Vec<[u8; 32]>,
)
    requires
        call_ensures(extract_commitments, (&block,), all),
        call_ensures(completing_block_spillover, (&block, leaf_offset), kept),
    ensures
        ({
            let size = if block.chain_metadata is Some {
                block.chain_metadata->Some_0.orchard_commitment_tree_size as int
            } else {
                0
            };
            let count = if size <= leaf_offset {
                0
            } else if all@.len() <= size - leaf_offset {
                all@.len() as int
            } else {
                size - leaf_offset
            };
            &&& kept@.len() == count
            &&& forall|i: int|
                0 <= i < count ==> #[trigger] kept@[i] == all@[all@.len() - count + i]
        }),
{
}

/// Two completing blocks that differ only outside their Orchard actions and
/// Orchard tree size keep the same commitments.
pub proof fn law_completing_blocks_agree(
    a: CompactBlock,
    b: CompactBlock,
    leaf_offset: u64,
    kept_a: Vec<[u8; 32]>,
    kept_b: Vec<[u8; 32]>,
)
    requires
        call_ensures(completing_block_spillover, (&a, leaf_offset), kept_a),
        call_ensures(completing_block_spillover, (&b, leaf_offset), kept_b),
        a.vtx@.len() == b.vtx@.len(),
        forall|t: int|
            0 <= t < a.vtx@.len() ==> (#[trigger] a.vtx@[t]).actions@ == b.vtx@[t].actions@,
        a.chain_metadata is Some <==> b.chain_metadata is Some,
        a.chain_metadata is Some ==> a.chain_metadata->Some_0.orchard_commitment_tree_size
            == b.chain_metadata->Some_0.orchard_commitment_tree_size,
    ensures
        kept_a@ == kept_b@,
{
    law_spillover_ignores_sapling(a, b, leaf_offset);
}

} // verus!
