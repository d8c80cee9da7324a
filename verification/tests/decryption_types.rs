//! Geometry and encoding of decryption leaves.

use spendability_pir::witness::decryption_types::{
    decompose_position, physical_row_index, DecryptionLeaf, DECRYPT_DB_BYTES, DECRYPT_DB_ROWS,
    DECRYPT_LEAF_BYTES, DECRYPT_ROW_BYTES, L0_DB_ROWS, L0_MAX_SHARDS, SHARD_LEAVES,
    SUBSHARDS_PER_SHARD, SUBSHARD_LEAVES,
};

#[test]
fn lib_geometry_consistency() {
    assert_eq!(DECRYPT_LEAF_BYTES, 116);
    assert_eq!(DECRYPT_ROW_BYTES, 256 * 116);
    assert_eq!(DECRYPT_ROW_BYTES, 29_696);
    assert_eq!(DECRYPT_DB_ROWS, 8_192);
    assert_eq!(DECRYPT_DB_BYTES, 8_192 * 29_696);
    assert_eq!(DECRYPT_DB_ROWS, L0_MAX_SHARDS * SUBSHARDS_PER_SHARD);
}

#[test]
fn leaf_byte_roundtrip() {
    let leaf = DecryptionLeaf {
        nf: [0xAA; 32],
        ephemeral_key: [0xBB; 32],
        ciphertext: [0xCC; 52],
    };
    let bytes = leaf.to_bytes();
    assert_eq!(bytes.len(), DECRYPT_LEAF_BYTES);
    assert_eq!(&bytes[..32], &[0xAA; 32]);
    assert_eq!(&bytes[32..64], &[0xBB; 32]);
    assert_eq!(&bytes[64..], &[0xCC; 52]);

    let decoded = DecryptionLeaf::from_bytes(&bytes).unwrap();
    assert_eq!(decoded, leaf);
}

#[test]
fn from_bytes_too_short() {
    assert!(DecryptionLeaf::from_bytes(&[0u8; 115]).is_none());
    assert!(DecryptionLeaf::from_bytes(&[]).is_none());
}

#[test]
fn from_bytes_extra_ignored() {
    let mut buf = [0u8; 120];
    buf[..32].copy_from_slice(&[1u8; 32]);
    buf[32..64].copy_from_slice(&[2u8; 32]);
    buf[64..116].copy_from_slice(&[3u8; 52]);
    buf[116..].copy_from_slice(&[0xFF; 4]);

    let leaf = DecryptionLeaf::from_bytes(&buf).unwrap();
    assert_eq!(leaf.nf, [1u8; 32]);
    assert_eq!(leaf.ephemeral_key, [2u8; 32]);
    assert_eq!(leaf.ciphertext, [3u8; 52]);
}

#[test]
fn empty_leaf_is_zeroed() {
    let empty = DecryptionLeaf::empty();
    assert_eq!(empty.nf, [0u8; 32]);
    assert_eq!(empty.ephemeral_key, [0u8; 32]);
    assert_eq!(empty.ciphertext, [0u8; 52]);
    assert_eq!(empty.to_bytes(), [0u8; DECRYPT_LEAF_BYTES]);
}

#[test]
fn leaf_bytes_const_matches_struct() {
    assert_eq!(
        DecryptionLeaf::BYTES,
        std::mem::size_of::<[u8; 32]>()
            + std::mem::size_of::<[u8; 32]>()
            + std::mem::size_of::<[u8; 52]>(),
    );
}

#[test]
fn shared_geometry_re_exports() {
    assert_eq!(SUBSHARD_LEAVES, 256);
    assert_eq!(SUBSHARDS_PER_SHARD, 256);
    assert_eq!(SHARD_LEAVES, 65_536);
    assert_eq!(L0_DB_ROWS, 8_192);
    assert_eq!(L0_MAX_SHARDS, 32);

    let (s, ss, l) = decompose_position((2u64 << 16) | (100u64 << 8) | 50);
    assert_eq!((s, ss, l), (2, 100, 50));
    assert_eq!(physical_row_index(2, 100, 0), 2 * 256 + 100);
}
