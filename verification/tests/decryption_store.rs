//! The decryption store and its snapshots.

use spendability_pir::witness::decryption_db::snapshot::SNAPSHOT_MAGIC_V1;
use spendability_pir::witness::decryption_db::DecryptionDb;
use spendability_pir::witness::decryption_types::{
    DecryptionLeaf, DECRYPT_DB_BYTES, DECRYPT_LEAF_BYTES, SHARD_LEAVES, SUBSHARD_LEAVES,
};
use xxhash_rust::xxh64::xxh64;

fn make_leaf(byte: u8) -> DecryptionLeaf {
    DecryptionLeaf {
        nf: [byte; 32],
        ephemeral_key: [byte.wrapping_add(1); 32],
        ciphertext: [byte.wrapping_add(2); 52],
    }
}

#[test]
fn empty_db() {
    let db = DecryptionDb::new();
    assert_eq!(db.tree_size(), 0);
    assert_eq!(db.populated_shards(), 0);
    assert!(db.latest_height().is_none());
    assert!(db.latest_block_hash().is_none());
    assert_eq!(db.window_shard_count(), 0);
}

#[test]
fn append_and_track() {
    let mut db = DecryptionDb::new();
    db.append_leaves(100, [1u8; 32], &[make_leaf(0xAA), make_leaf(0xBB)]);
    assert_eq!(db.tree_size(), 2);
    assert_eq!(db.populated_shards(), 1);
    assert_eq!(db.latest_height(), Some(100));
    assert_eq!(db.latest_block_hash(), Some([1u8; 32]));

    db.append_leaves(101, [2u8; 32], &[make_leaf(0xCC)]);
    assert_eq!(db.tree_size(), 3);
    assert_eq!(db.latest_height(), Some(101));
}

#[test]
fn lib_rollback_removes_blocks_and_leaves() {
    let mut db = DecryptionDb::new();
    db.append_leaves(100, [1u8; 32], &[make_leaf(1), make_leaf(2)]);
    db.append_leaves(101, [2u8; 32], &[make_leaf(3)]);
    db.append_leaves(102, [3u8; 32], &[make_leaf(4), make_leaf(5)]);
    assert_eq!(db.tree_size(), 5);

    db.rollback_to(100);
    assert_eq!(db.tree_size(), 2);
    assert_eq!(db.latest_height(), Some(100));
    assert_eq!(db.blocks().len(), 1);
}

#[test]
fn lib_rollback_all() {
    let mut db = DecryptionDb::new();
    db.append_leaves(100, [1u8; 32], &[make_leaf(1)]);
    db.append_leaves(101, [2u8; 32], &[make_leaf(2)]);

    db.rollback_to(0);
    assert_eq!(db.tree_size(), 0);
    assert!(db.blocks().is_empty());
    assert!(db.leaves().is_empty());
}

#[test]
fn lib_subshard_leaves_padding() {
    let mut db = DecryptionDb::new();
    db.append_leaves(100, [1u8; 32], &[make_leaf(1), make_leaf(2), make_leaf(3)]);

    let leaves = db.subshard_leaves(0, 0);
    assert_eq!(leaves.len(), SUBSHARD_LEAVES);
    assert_eq!(leaves[0], make_leaf(1));
    assert_eq!(leaves[1], make_leaf(2));
    assert_eq!(leaves[2], make_leaf(3));
    for leaf in &leaves[3..] {
        assert_eq!(*leaf, DecryptionLeaf::empty());
    }
}

#[test]
fn lib_subshard_leaves_entirely_empty() {
    let db = DecryptionDb::new();
    let leaves = db.subshard_leaves(0, 0);
    assert_eq!(leaves.len(), SUBSHARD_LEAVES);
    for leaf in &leaves {
        assert_eq!(*leaf, DecryptionLeaf::empty());
    }
}

#[test]
fn pir_db_size_correct() {
    let mut db = DecryptionDb::new();
    db.append_leaves(100, [1u8; 32], &[make_leaf(1)]);
    let pir = db.build_pir_db();
    assert_eq!(pir.len(), DECRYPT_DB_BYTES);
}

#[test]
fn lib_pir_db_contains_leaf_data() {
    let mut db = DecryptionDb::new();
    let leaf = make_leaf(0xAB);
    db.append_leaves(100, [1u8; 32], &[leaf]);
    let pir = db.build_pir_db();

    let stored = DecryptionLeaf::from_bytes(&pir[..DECRYPT_LEAF_BYTES]).unwrap();
    assert_eq!(stored, leaf);
}

#[test]
fn pir_db_empty_is_zeroed() {
    let db = DecryptionDb::new();
    let pir = db.build_pir_db();
    assert_eq!(pir.len(), DECRYPT_DB_BYTES);
    assert!(pir.iter().all(|&b| b == 0));
}

#[test]
fn pir_db_row_layout() {
    let mut db = DecryptionDb::new();
    let leaves: Vec<DecryptionLeaf> = (0..SUBSHARD_LEAVES)
        .map(|i| make_leaf(i as u8))
        .collect();
    db.append_leaves(100, [1u8; 32], &leaves);
    let pir = db.build_pir_db();

    for i in 0..SUBSHARD_LEAVES {
        let offset = i * DECRYPT_LEAF_BYTES;
        let stored = DecryptionLeaf::from_bytes(&pir[offset..]).unwrap();
        assert_eq!(stored, leaves[i], "leaf {i} mismatch in PIR DB row");
    }
}

#[test]
fn append_empty_block() {
    let mut db = DecryptionDb::new();
    db.append_leaves(100, [1u8; 32], &[make_leaf(1)]);
    db.append_leaves(101, [2u8; 32], &[]);
    assert_eq!(db.tree_size(), 1);
    assert_eq!(db.latest_height(), Some(101));
    assert_eq!(db.blocks().len(), 2);
}

#[test]
fn rollback_then_reappend() {
    let mut db = DecryptionDb::new();
    db.append_leaves(100, [1u8; 32], &[make_leaf(1), make_leaf(2)]);
    db.append_leaves(101, [2u8; 32], &[make_leaf(3)]);

    db.rollback_to(100);
    assert_eq!(db.tree_size(), 2);

    db.append_leaves(101, [3u8; 32], &[make_leaf(4)]);
    assert_eq!(db.tree_size(), 3);
    assert_eq!(db.leaves()[2], make_leaf(4));
}

// -- Windowed (offset) tests --

#[test]
fn lib_with_offset_basic() {
    let offset = 2 * SHARD_LEAVES as u64;
    let db = DecryptionDb::with_offset(offset);
    assert_eq!(db.tree_size(), offset);
    assert_eq!(db.leaf_offset(), offset);
    assert_eq!(db.window_start_shard(), 2);
}

#[test]
fn with_offset_append() {
    let offset = 3 * SHARD_LEAVES as u64;
    let mut db = DecryptionDb::with_offset(offset);
    db.append_leaves(100, [1u8; 32], &[make_leaf(1), make_leaf(2)]);

    assert_eq!(db.tree_size(), offset + 2);
    assert_eq!(db.populated_shards(), 4);
    assert_eq!(db.window_start_shard(), 3);
    assert_eq!(db.window_shard_count(), 1);
}

#[test]
fn lib_with_offset_pir_db_starts_at_window() {
    let offset = 2 * SHARD_LEAVES as u64;
    let mut db = DecryptionDb::with_offset(offset);
    let leaf = make_leaf(0xDD);
    db.append_leaves(100, [1u8; 32], &[leaf]);

    let pir = db.build_pir_db();
    assert_eq!(pir.len(), DECRYPT_DB_BYTES);
    let stored = DecryptionLeaf::from_bytes(&pir[..DECRYPT_LEAF_BYTES]).unwrap();
    assert_eq!(stored, leaf);
}

#[test]
fn with_offset_subshard_before_window_is_empty() {
    let offset = 2 * SHARD_LEAVES as u64;
    let mut db = DecryptionDb::with_offset(offset);
    db.append_leaves(100, [1u8; 32], &[make_leaf(1)]);

    let leaves = db.subshard_leaves(0, 0);
    for leaf in &leaves {
        assert_eq!(*leaf, DecryptionLeaf::empty());
    }
}

#[test]
fn lib_window_counts() {
    let mut db = DecryptionDb::new();
    assert_eq!(db.window_shard_count(), 0);

    db.append_leaves(100, [1u8; 32], &[make_leaf(1)]);
    assert_eq!(db.window_shard_count(), 1);
}

#[test]
fn snapshot_empty_snapshot_roundtrip() {
    let db = DecryptionDb::new();
    let snap = db.to_snapshot();
    let restored = DecryptionDb::from_snapshot(&snap).unwrap();

    assert_eq!(restored.tree_size(), 0);
    assert!(restored.blocks().is_empty());
    assert!(restored.leaves().is_empty());
}

#[test]
fn snapshot_populated_snapshot_roundtrip() {
    let mut db = DecryptionDb::new();
    db.append_leaves(100, [0xAA; 32], &[make_leaf(1), make_leaf(2)]);
    db.append_leaves(101, [0xBB; 32], &[make_leaf(3)]);

    let snap = db.to_snapshot();
    let restored = DecryptionDb::from_snapshot(&snap).unwrap();

    assert_eq!(restored.tree_size(), 3);
    assert_eq!(restored.blocks().len(), 2);
    assert_eq!(restored.latest_height(), Some(101));
    assert_eq!(restored.latest_block_hash(), Some([0xBB; 32]));
    assert_eq!(restored.leaves(), db.leaves());
}

#[test]
fn snapshot_snapshot_detects_corruption() {
    let mut db = DecryptionDb::new();
    db.append_leaves(100, [1u8; 32], &[make_leaf(1)]);

    let mut snap = db.to_snapshot();
    let mid = snap.len() / 2;
    snap[mid] ^= 0xFF;

    assert!(DecryptionDb::from_snapshot(&snap).is_err());
}

#[test]
fn snapshot_snapshot_detects_truncation() {
    assert!(DecryptionDb::from_snapshot(&[0u8; 10]).is_err());
}

#[test]
fn snapshot_snapshot_preserves_rollback_ability() {
    let mut db = DecryptionDb::new();
    db.append_leaves(100, [1u8; 32], &[make_leaf(1), make_leaf(2)]);
    db.append_leaves(101, [2u8; 32], &[make_leaf(3)]);

    let snap = db.to_snapshot();
    let mut restored = DecryptionDb::from_snapshot(&snap).unwrap();

    restored.rollback_to(100);
    assert_eq!(restored.tree_size(), 2);
    assert_eq!(restored.latest_height(), Some(100));
    assert_eq!(restored.leaves().len(), 2);
}

#[test]
fn windowed_snapshot_roundtrip() {
    let offset = 3 * SHARD_LEAVES as u64;
    let mut db = DecryptionDb::with_offset(offset);
    db.append_leaves(200, [0xDD; 32], &[make_leaf(1), make_leaf(2)]);

    let snap = db.to_snapshot();
    let restored = DecryptionDb::from_snapshot(&snap).unwrap();

    assert_eq!(restored.tree_size(), db.tree_size());
    assert_eq!(restored.leaf_offset(), offset);
    assert_eq!(restored.leaves().len(), 2);
    assert_eq!(restored.latest_height(), Some(200));
    assert_eq!(restored.window_start_shard(), 3);
}

#[test]
fn snapshot_rejects_tree_size_less_than_offset() {
    // Build a snapshot where tree_size < leaf_offset but with a valid
    // checksum so the structural validation (not the checksum) catches it.
    let offset = 3 * SHARD_LEAVES as u64;
    let bad_tree_size = 1u64; // less than offset
    let block_count = 0u64;
    let latest_height = 0u64;
    let latest_hash = [0u8; 32];

    let mut payload = Vec::new();
    payload.extend_from_slice(&SNAPSHOT_MAGIC_V1.to_le_bytes());
    payload.extend_from_slice(&bad_tree_size.to_le_bytes());
    payload.extend_from_slice(&block_count.to_le_bytes());
    payload.extend_from_slice(&latest_height.to_le_bytes());
    payload.extend_from_slice(&latest_hash);
    payload.extend_from_slice(&offset.to_le_bytes());

    let checksum = xxh64(&payload, 0);
    payload.extend_from_slice(&checksum.to_le_bytes());

    let result = DecryptionDb::from_snapshot(&payload);
    assert!(result.is_err());
    let msg = result.err().unwrap().message();
    assert!(
        msg.contains("tree_size"),
        "error should mention tree_size: {msg}"
    );
}
