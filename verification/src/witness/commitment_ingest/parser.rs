//! Orchard note commitments and decryption data of compact blocks.

use crate::bytes::{
    array_from, hash_from, lemma_array_bytes, lemma_array_from, padded, read_array_at,
    to_hash_array,
};
use crate::chain_ingest::proto::{CompactBlock, CompactOrchardAction, CompactTx};
use crate::witness::decryption_types::DecryptionLeaf;
use vstd::prelude::*;

pub use crate::chain_ingest::proto::orchard_tree_size;

verus! {

/// Extracted commitments from a single compact block.
#[derive(Debug, Clone)]
pub struct BlockCommitments {
    pub height: u64,
    pub hash: [u8; 32],
    pub prev_hash: [u8; 32],
    /// Orchard note commitments in transaction-then-action order.
    pub commitments: Vec<[u8; 32]>,
    /// The tree size at the start of this block, if known.
    pub prior_tree_size: Option<u32>,
}

/// The actions of the transactions in order.
pub open spec fn actions_of(vtx: Seq<CompactTx>) -> Seq<CompactOrchardAction>
    decreases vtx.len(),
{
    if vtx.len() == 0 {
        Seq::empty()
    } else {
        actions_of(vtx.drop_last()) + vtx.last().actions@
    }
}

/// The actions whose commitment has 32 bytes.
pub open spec fn committed(actions: Seq<CompactOrchardAction>) -> Seq<CompactOrchardAction>
    decreases actions.len(),
{
    if actions.len() == 0 {
        Seq::empty()
    } else if actions.last().cmx@.len() == 32 {
        committed(actions.drop_last()).push(actions.last())
    } else {
        committed(actions.drop_last())
    }
}

/// The actions of a block that extend the commitment tree.
pub open spec fn committed_in(block: CompactBlock) -> Seq<CompactOrchardAction> {
    committed(actions_of(block.vtx@))
}

/// The commitments of the actions.
pub open spec fn commitments_of(actions: Seq<CompactOrchardAction>) -> Seq<[u8; 32]> {
    Seq::new(actions.len(), |i: int| hash_from(actions[i].cmx@))
}

/// The commitments of a block.
pub open spec fn block_commitments(block: CompactBlock) -> Seq<[u8; 32]> {
    commitments_of(committed_in(block))
}

/// The first `n` bytes, with zero bytes behind them where there are fewer.
pub open spec fn padded_to(bytes: Seq<u8>, n: nat) -> Seq<u8> {
    Seq::new(
        n,
        |i: int|
            if i < bytes.len() {
                bytes[i]
            } else {
                0u8
            },
    )
}

/// The decryption data of an action. Fields are cut or padded to their length.
pub open spec fn leaf_for(action: CompactOrchardAction) -> DecryptionLeaf {
    DecryptionLeaf {
        nf: hash_from(padded(action.nullifier@)),
        ephemeral_key: hash_from(padded(action.ephemeral_key@)),
        ciphertext: array_from::<52>(padded_to(action.ciphertext@, 52)),
    }
}

/// The decryption data of the actions.
pub open spec fn leaves_for(actions: Seq<CompactOrchardAction>) -> Seq<DecryptionLeaf> {
    Seq::new(actions.len(), |i: int| leaf_for(actions[i]))
}

/// The decryption data of a block.
pub open spec fn block_leaves(block: CompactBlock) -> Seq<DecryptionLeaf> {
    leaves_for(committed_in(block))
}

/// The decryption data of an action.
fn leaf_of(action: &CompactOrchardAction) -> (leaf: DecryptionLeaf)
    ensures
        leaf == leaf_for(*action),
{
    let mut ciphertext: [u8; 52] = [0u8; 52];
    let mut i: usize = 0;
    while i < 52
        invariant
            i <= 52,
            forall|k: int|
                0 <= k < i ==> ciphertext@[k] == padded_to(action.ciphertext@, 52)[k],
        decreases 52 - i,
    {
        if i < action.ciphertext.len() {
            ciphertext[i] = action.ciphertext[i];
        } else {
            ciphertext[i] = 0;
        }
        i += 1;
    }
    proof {
        assert(ciphertext@ =~= padded_to(action.ciphertext@, 52));
        lemma_array_from(ciphertext);
    }
    DecryptionLeaf {
        nf: to_hash_array(action.nullifier.as_slice()),
        ephemeral_key: to_hash_array(action.ephemeral_key.as_slice()),
        ciphertext,
    }
}

/// Both the commitments and the decryption data of a block, in one pass.
pub fn extract_commitments_and_decryption(block: &CompactBlock) -> (extracted: (
    Vec<[u8; 32]>,
    Vec<DecryptionLeaf>,
))
    ensures
        extracted.0@ == block_commitments(*block),
        extracted.1@ == block_leaves(*block),
{
    let mut commitments: Vec<[u8; 32]> = Vec::new();
    let mut leaves: Vec<DecryptionLeaf> = Vec::new();
    let mut i: usize = 0;
    let ghost mut done: Seq<CompactOrchardAction> = Seq::empty();
    assert(block.vtx@.take(0) =~= Seq::empty());
    assert(commitments@ =~= commitments_of(committed(done)));
    assert(leaves@ =~= leaves_for(committed(done)));
    while i < block.vtx.len()
        invariant
            i <= block.vtx@.len(),
            done == actions_of(block.vtx@.take(i as int)),
            commitments@ == commitments_of(committed(done)),
            leaves@ == leaves_for(committed(done)),
        decreases block.vtx@.len() - i,
    {
        let actions = &block.vtx[i].actions;
        let ghost start = done;
        assert(block.vtx@.take(i + 1).drop_last() =~= block.vtx@.take(i as int));
        let mut j: usize = 0;
        assert(start + actions@.take(0) =~= start);
        while j < actions.len()
            invariant
                j <= actions@.len(),
                done == start + actions@.take(j as int),
                commitments@ == commitments_of(committed(done)),
                leaves@ == leaves_for(committed(done)),
            decreases actions@.len() - j,
        {
            let action = &actions[j];
            let ghost before = done;
            proof {
                done = done.push(*action);
                assert(done =~= start + actions@.take(j + 1));
                assert(done.drop_last() =~= before);
            }
            if action.cmx.len() == 32 {
                let cmx: [u8; 32] = read_array_at::<32>(action.cmx.as_slice(), 0);
                proof {
                    assert(action.cmx@.subrange(0, 32) =~= action.cmx@);
                    lemma_array_from(cmx);
                }
                commitments.push(cmx);
                leaves.push(leaf_of(action));
                assert(commitments@ =~= commitments_of(committed(done)));
                assert(leaves@ =~= leaves_for(committed(done)));
            }
            j += 1;
        }
        assert(actions@.take(j as int) =~= actions@);
        i += 1;
    }
    assert(block.vtx@.take(i as int) =~= block.vtx@);
    (commitments, leaves)
}

/// All Orchard note commitments of a block. Sapling outputs are ignored.
pub fn extract_commitments(block: &CompactBlock) -> (commitments: Vec<[u8; 32]>)
    ensures
        commitments@ == block_commitments(*block),
{
    let (commitments, _) = extract_commitments_and_decryption(block);
    commitments
}

/// The decryption data of a block, one leaf for each of its commitments.
pub fn extract_decryption_leaves(block: &CompactBlock) -> (leaves: Vec<DecryptionLeaf>)
    ensures
        leaves@ == block_leaves(*block),
{
    let (_, leaves) = extract_commitments_and_decryption(block);
    leaves
}

/// The commitments of a block with its heights and hashes.
/// `prev_tree_size` is the tree size after the previous block, if known.
pub fn extract_block_commitments(block: &CompactBlock, prev_tree_size: Option<u32>) -> (
    extracted: BlockCommitments)
    ensures
        extracted.height == block.height,
        extracted.hash@ == padded(block.hash@),
        extracted.prev_hash@ == padded(block.prev_hash@),
        extracted.commitments@ == block_commitments(*block),
        extracted.prior_tree_size == prev_tree_size,
{
    BlockCommitments {
        height: block.height,
        hash: to_hash_array(block.hash.as_slice()),
        prev_hash: to_hash_array(block.prev_hash.as_slice()),
        commitments: extract_commitments(block),
        prior_tree_size: prev_tree_size,
    }
}

/// Each commitment of a block has its decryption data at the same place: leaf
/// `i` holds the fields of the action that commitment `i` is of.
pub proof fn law_leaves_pair_with_commitments(block: CompactBlock, i: int)
    requires
        0 <= i < block_commitments(block).len(),
    ensures
        block_leaves(block).len() == block_commitments(block).len(),
        ({
            let action = committed_in(block)[i];
            &&& block_commitments(block)[i]@ == action.cmx@
            &&& block_leaves(block)[i].nf@ == padded(action.nullifier@)
            &&& block_leaves(block)[i].ephemeral_key@ == padded(action.ephemeral_key@)
            &&& block_leaves(block)[i].ciphertext@ == padded_to(action.ciphertext@, 52)
        }),
{
    let action = committed_in(block)[i];
    lemma_committed(actions_of(block.vtx@), i);
    lemma_array_bytes::<32>(action.cmx@);
    lemma_array_bytes::<32>(padded(action.nullifier@));
    lemma_array_bytes::<32>(padded(action.ephemeral_key@));
    lemma_array_bytes::<52>(padded_to(action.ciphertext@, 52));
}

proof fn lemma_committed(actions: Seq<CompactOrchardAction>, i: int)
    requires
        0 <= i < committed(actions).len(),
    ensures
        committed(actions)[i].cmx@.len() == 32,
    decreases actions.len(),
{
    if actions.len() > 0 && i < committed(actions.drop_last()).len() {
        lemma_committed(actions.drop_last(), i);
    }
}

} // verus!
