//! Types and constants for the decryption PIR subsystem.
//!
//! A leaf of the decryption PIR database belongs to one Orchard action and
//! holds what, with the action's `cmx`, is needed to trial-decrypt it. The
//! database has the sub-shard geometry of the witness PIR database with
//! larger entries.

use crate::bytes::{lemma_array_eq, read_array_at, zeros};
use vstd::prelude::*;

pub use crate::witness::witness_types::{
    decompose_position, physical_row_index, L0_DB_ROWS, L0_MAX_SHARDS, SHARD_HEIGHT, SHARD_LEAVES,
    SUBSHARDS_PER_SHARD, SUBSHARD_HEIGHT, SUBSHARD_LEAVES,
};

verus! {

/// Bytes per decryption leaf: nullifier (32), ephemeral key (32) and
/// ciphertext (52).
pub const DECRYPT_LEAF_BYTES: usize = 116;

/// Bytes per PIR database row (one sub-shard of 256 leaves).
pub const DECRYPT_ROW_BYTES: usize = 29_696;

/// Total PIR database rows (32 shards of 256 sub-shards).
pub const DECRYPT_DB_ROWS: usize = 8_192;

/// Total PIR database size in bytes.
pub const DECRYPT_DB_BYTES: usize = 243_269_632;

/// The data needed to trial-decrypt one Orchard action.
#[derive(Debug, Clone, Copy, PartialEq, Eq)]
pub struct DecryptionLeaf {
    /// The action's input nullifier.
    pub nf: [u8; 32],
    /// Ephemeral public key for key agreement.
    pub ephemeral_key: [u8; 32],
    /// First 52 bytes of the note ciphertext.
    pub ciphertext: [u8; 52],
}

impl DecryptionLeaf {
    pub const BYTES: usize = DECRYPT_LEAF_BYTES;

    /// The bytes of a leaf: nullifier, ephemeral key, ciphertext.
    pub open spec fn bytes(self) -> Seq<u8> {
        self.nf@ + self.ephemeral_key@ + self.ciphertext@
    }

    /// Whether every byte of the leaf is zero.
    pub open spec fn is_empty_leaf(self) -> bool {
        self.bytes() == zeros(DECRYPT_LEAF_BYTES as nat)
    }

    /// An all-zeros leaf used for padding empty sub-shard positions.
    pub fn empty() -> (leaf: DecryptionLeaf)
        ensures
            leaf.is_empty_leaf(),
            leaf.nf@ == zeros(32),
            leaf.ephemeral_key@ == zeros(32),
            leaf.ciphertext@ == zeros(52),
    {
        let leaf = DecryptionLeaf {
            nf: [0u8; 32],
            ephemeral_key: [0u8; 32],
            ciphertext: [0u8; 52],
        };
        assert(leaf.nf@ =~= zeros(32));
        assert(leaf.ephemeral_key@ =~= zeros(32));
        assert(leaf.ciphertext@ =~= zeros(52));
        assert(leaf.bytes() =~= zeros(DECRYPT_LEAF_BYTES as nat));
        leaf
    }

    /// Serializes the leaf.
    pub fn to_bytes(&self) -> (bytes: [u8; 116])
        ensures
            bytes@ == self.bytes(),
    {
        let mut bytes: [u8; 116] = [0u8; 116];
        let mut i: usize = 0;
        while i < 32
            invariant
                i <= 32,
                forall|k: int| 0 <= k < i ==> bytes@[k] == self.nf@[k],
                forall|k: int| 0 <= k < i ==> bytes@[32 + k] == self.ephemeral_key@[k],
            decreases 32 - i,
        {
            bytes[i] = self.nf[i];
            bytes[32 + i] = self.ephemeral_key[i];
            i += 1;
        }
        let mut j: usize = 0;
        while j < 52
            invariant
                j <= 52,
                forall|k: int| 0 <= k < 32 ==> bytes@[k] == self.nf@[k],
                forall|k: int| 0 <= k < 32 ==> bytes@[32 + k] == self.ephemeral_key@[k],
                forall|k: int| 0 <= k < j ==> bytes@[64 + k] == self.ciphertext@[k],
            decreases 52 - j,
        {
            bytes[64 + j] = self.ciphertext[j];
            j += 1;
        }
        assert forall|k: int| 0 <= k < 116 implies bytes@[k] == self.bytes()[k] by {
            if 32 <= k < 64 {
                assert(bytes@[32 + (k - 32)] == self.ephemeral_key@[k - 32]);
            } else if 64 <= k {
                assert(bytes@[64 + (k - 64)] == self.ciphertext@[k - 64]);
            }
        }
        assert(bytes@ =~= self.bytes());
        bytes
    }

    /// Deserializes the leaf at the start of `bytes`; `None` if there are
    /// fewer than [`DECRYPT_LEAF_BYTES`] bytes. Further bytes are ignored.
    pub fn from_bytes(bytes: &[u8]) -> (leaf: Option<DecryptionLeaf>)
        ensures
            match leaf {
                Some(leaf) => bytes@.len() >= DECRYPT_LEAF_BYTES && leaf.bytes() == bytes@.take(
                    DECRYPT_LEAF_BYTES as int,
                ),
                None => bytes@.len() < DECRYPT_LEAF_BYTES,
            },
    {
        if bytes.len() < DECRYPT_LEAF_BYTES {
            return None;
        }
        let leaf = DecryptionLeaf {
            nf: read_array_at::<32>(bytes, 0),
            ephemeral_key: read_array_at::<32>(bytes, 32),
            ciphertext: read_array_at::<52>(bytes, 64),
        };
        assert(leaf.bytes() =~= bytes@.take(DECRYPT_LEAF_BYTES as int));
        Some(leaf)
    }
}

/// A leaf is determined by its bytes: reading what was written gives the same
/// leaf.
pub proof fn law_leaf_bytes_decide(a: DecryptionLeaf, b: DecryptionLeaf)
    requires
        a.bytes() == b.bytes(),
    ensures
        a == b,
{
    assert(a.nf@ =~= a.bytes().subrange(0, 32));
    assert(b.nf@ =~= b.bytes().subrange(0, 32));
    assert(a.ephemeral_key@ =~= a.bytes().subrange(32, 64));
    assert(b.ephemeral_key@ =~= b.bytes().subrange(32, 64));
    assert(a.ciphertext@ =~= a.bytes().subrange(64, 116));
    assert(b.ciphertext@ =~= b.bytes().subrange(64, 116));
    lemma_array_eq(a.nf, b.nf);
    lemma_array_eq(a.ephemeral_key, b.ephemeral_key);
    lemma_array_eq(a.ciphertext, b.ciphertext);
}

} // verus!
