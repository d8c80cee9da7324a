//! Compact block messages as plain values.

use vstd::prelude::*;

verus! {

/// A block, stripped to what light clients need.
#[derive(Debug, Clone, Default)]
pub struct CompactBlock {
    pub proto_version: u32,
    pub height: u64,
    pub hash: Vec<u8>,
    pub prev_hash: Vec<u8>,
    pub time: u32,
    pub header: Vec<u8>,
    pub vtx: Vec<CompactTx>,
    pub chain_metadata: Option<ChainMetadata>,
}

/// Sizes of the note commitment trees as of the end of a block.
#[derive(Debug, Clone, Copy, Default)]
pub struct ChainMetadata {
    pub sapling_commitment_tree_size: u32,
    pub orchard_commitment_tree_size: u32,
}

/// The shielded parts of a transaction.
#[derive(Debug, Clone, Default)]
pub struct CompactTx {
    pub index: u64,
    pub txid: Vec<u8>,
    pub fee: u32,
    pub spends: Vec<CompactSaplingSpend>,
    pub outputs: Vec<CompactSaplingOutput>,
    pub actions: Vec<CompactOrchardAction>,
}

#[derive(Debug, Clone, Default)]
pub struct CompactSaplingSpend {
    pub nf: Vec<u8>,
}

#[derive(Debug, Clone, Default)]
pub struct CompactSaplingOutput {
    pub cmu: Vec<u8>,
    pub ephemeral_key: Vec<u8>,
    pub ciphertext: Vec<u8>,
}

/// An Orchard action: the nullifier it reveals and the note it creates.
#[derive(Debug, Clone, Default)]
pub struct CompactOrchardAction {
    pub nullifier: Vec<u8>,
    pub cmx: Vec<u8>,
    pub ephemeral_key: Vec<u8>,
    pub ciphertext: Vec<u8>,
}

/// The root of a complete shard and the block that completed it.
#[derive(Debug, Clone, Default)]
pub struct SubtreeRoot {
    pub root_hash: Vec<u8>,
    pub completing_block_hash: Vec<u8>,
    pub completing_block_height: u64,
}

/// The number of actions of the transactions.
pub open spec fn action_count(vtx: Seq<CompactTx>) -> nat
    decreases vtx.len(),
{
    if vtx.len() == 0 {
        0
    } else {
        action_count(vtx.drop_last()) + vtx.last().actions@.len()
    }
}

/// The `orchard_commitment_tree_size` of a block's metadata. Zero counts as
/// absent.
pub open spec fn tree_size_in(block: CompactBlock) -> Option<u32> {
    match block.chain_metadata {
        Some(metadata) => if metadata.orchard_commitment_tree_size > 0 {
            Some(metadata.orchard_commitment_tree_size)
        } else {
            None
        },
        None => None,
    }
}

/// The `orchard_commitment_tree_size` of a block's metadata, if present.
pub fn orchard_tree_size(block: &CompactBlock) -> (size: Option<u32>)
    ensures
        size == tree_size_in(*block),
{
    match &block.chain_metadata {
        Some(metadata) => if metadata.orchard_commitment_tree_size > 0 {
            Some(metadata.orchard_commitment_tree_size)
        } else {
            None
        },
        None => None,
    }
}

/// The number of actions of a prefix is no more than that of the whole.
pub(crate) proof fn lemma_action_count_take(vtx: Seq<CompactTx>, n: int)
    requires
        0 <= n <= vtx.len(),
    ensures
        action_count(vtx.take(n)) <= action_count(vtx),
        n < vtx.len() ==> action_count(vtx.take(n + 1)) == action_count(vtx.take(n))
            + vtx[n].actions@.len(),
    decreases vtx.len(),
{
    if n < vtx.len() {
        assert(vtx.take(n + 1).drop_last() =~= vtx.take(n));
        assert(vtx.drop_last().take(n) =~= vtx.take(n));
        lemma_action_count_take(vtx.drop_last(), n);
    } else {
        assert(vtx.take(n) =~= vtx);
    }
}

} // verus!
