//! Node hashing of the Orchard note commitment tree.
//!
//! A node is 32 bytes, the little-endian encoding of an element of the Pallas
//! base field. Two nodes of one level combine to their parent by the
//! Sinsemilla hash of the `orchard` crate.

use crate::bytes::le_nat;
use crate::witness::witness_types::TREE_DEPTH;
use incrementalmerkletree::{Hashable, Level};
use orchard::tree::MerkleHashOrchard;
use vstd::prelude::*;

verus! {

/// The order of the Pallas base field.
pub open spec fn pallas_modulus() -> nat {
    0x40000000000000000000000000000000224698fc094cf91b992d30ed00000001nat
}

/// Whether `node` is the canonical encoding of a field element, and so a
/// value that the hash takes.
pub open spec fn is_canonical(node: Seq<u8>) -> bool {
    node.len() == 32 && le_nat(node) < pallas_modulus()
}

/// The leaf of a position that holds no commitment: the field element two.
pub open spec fn empty_leaf() -> Seq<u8> {
    Seq::new(
        32,
        |i: int|
            if i == 0 {
                2u8
            } else {
                0u8
            },
    )
}

/// The parent, one level above `level`, of two nodes of that level.
pub uninterp spec fn sinsemilla_combine(level: u8, left: Seq<u8>, right: Seq<u8>) -> Seq<u8>;

/// The root of a subtree of height `level` whose leaves are all empty.
pub open spec fn empty_root(level: nat) -> Seq<u8>
    decreases level,
{
    if level == 0 {
        empty_leaf()
    } else {
        let child = empty_root((level - 1) as nat);
        sinsemilla_combine((level - 1) as u8, child, child)
    }
}

/// Calls `MerkleHashOrchard::from_bytes`, which accepts exactly the canonical
/// encodings of Pallas base field elements.
#[verifier::external_body]
pub(crate) fn parses_as_node(node: &[u8; 32]) -> (parses: bool)
    ensures
        parses == is_canonical(node@),
{
    bool::from(MerkleHashOrchard::from_bytes(node).is_some())
}

/// Calls `MerkleHashOrchard::empty_leaf`: the encoding of the field element
/// two.
#[verifier::external_body]
pub(crate) fn uncommitted_leaf() -> (leaf: [u8; 32])
    ensures
        leaf@ == empty_leaf(),
{
    MerkleHashOrchard::empty_leaf().to_bytes()
}

/// Calls `MerkleHashOrchard::combine`. The parent is a fixed function of the
/// level and of the two children, and its encoding is canonical.
#[verifier::external_body]
pub(crate) fn combine_nodes(level: u8, left: &[u8; 32], right: &[u8; 32]) -> (parent: [u8; 32])
    requires
        is_canonical(left@),
        is_canonical(right@),
    ensures
        parent@ == sinsemilla_combine(level, left@, right@),
        is_canonical(parent@),
{
    let l = MerkleHashOrchard::from_bytes(left).unwrap();
    let r = MerkleHashOrchard::from_bytes(right).unwrap();
    <MerkleHashOrchard as Hashable>::combine(Level::from(level), &l, &r).to_bytes()
}

/// Whether the tree can hash `node`.
pub fn is_valid_node(node: &[u8; 32]) -> (valid: bool)
    ensures
        valid == is_canonical(node@),
{
    parses_as_node(node)
}

/// Combines two nodes of `level` into their parent.
pub fn hash_combine(level: u8, left: &[u8; 32], right: &[u8; 32]) -> (parent: [u8; 32])
    requires
        is_canonical(left@),
        is_canonical(right@),
    ensures
        parent@ == sinsemilla_combine(level, left@, right@),
        is_canonical(parent@),
{
    combine_nodes(level, left, right)
}

proof fn lemma_le_nat_zeros(s: Seq<u8>)
    requires
        forall|i: int| 0 <= i < s.len() ==> s[i] == 0,
    ensures
        le_nat(s) == 0,
    decreases s.len(),
{
    if s.len() > 0 {
        lemma_le_nat_zeros(s.drop_first());
    }
}

/// The empty leaf is a node that the hash takes.
pub proof fn lemma_empty_leaf_canonical()
    ensures
        is_canonical(empty_leaf()),
{
    lemma_le_nat_zeros(empty_leaf().drop_first());
    assert(le_nat(empty_leaf()) == 2);
}

/// Computes the roots of the empty subtrees of heights `0..=TREE_DEPTH`.
pub fn precompute_empty_roots() -> (roots: Vec<[u8; 32]>)
    ensures
        roots@.len() == TREE_DEPTH + 1,
        forall|l: int|
            0 <= l <= TREE_DEPTH ==> (#[trigger] roots@[l])@ == empty_root(l as nat)
                && is_canonical(roots@[l]@),
{
    let mut roots: Vec<[u8; 32]> = Vec::with_capacity(TREE_DEPTH + 1);
    let mut current = uncommitted_leaf();
    proof {
        lemma_empty_leaf_canonical();
    }
    roots.push(current);
    let mut level: u8 = 0;
    while (level as usize) < TREE_DEPTH
        invariant
            level <= TREE_DEPTH,
            current@ == empty_root(level as nat),
            is_canonical(current@),
            roots@.len() == level + 1,
            forall|l: int|
                0 <= l <= level ==> (#[trigger] roots@[l])@ == empty_root(l as nat)
                    && is_canonical(roots@[l]@),
        decreases TREE_DEPTH - level,
    {
        current = hash_combine(level, &current, &current);
        roots.push(current);
        level += 1;
    }
    roots
}

} // verus!
