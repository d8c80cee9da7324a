//! A table of bare nullifiers.

use spendability_pir::hashtable_pir::{HashTableDb, HashTableError};
use spendability_pir::spend_types::{
    hash_to_bucket, BUCKET_BYTES, BUCKET_CAPACITY, DB_BYTES, NUM_BUCKETS,
};

fn make_nf(seed: u32) -> [u8; 32] {
    let mut nf = [0u8; 32];
    nf[0..4].copy_from_slice(&seed.to_le_bytes());
    // Fill remaining bytes to make it non-zero and unique
    for i in 4..32 {
        nf[i] = ((seed >> ((i % 4) * 8)) as u8).wrapping_add(i as u8);
    }
    nf
}

fn make_hash(seed: u8) -> [u8; 32] {
    [seed; 32]
}

fn make_nfs(start: u32, count: u32) -> Vec<[u8; 32]> {
    (start..start + count).map(make_nf).collect()
}

#[test]
fn test_insert_and_contains() {
    let mut db = HashTableDb::new();
    let nfs = make_nfs(0, 100);
    db.insert_block(1, make_hash(1), &nfs).unwrap();

    assert_eq!(db.len(), 100);
    for nf in &nfs {
        assert!(db.contains(nf), "inserted nf not found");
    }
}

#[test]
fn test_insert_no_false_positive() {
    let mut db = HashTableDb::new();
    let nfs = make_nfs(0, 100);
    db.insert_block(1, make_hash(1), &nfs).unwrap();

    let missing = make_nfs(1000, 100);
    for nf in &missing {
        assert!(!db.contains(nf), "false positive for non-inserted nf");
    }
}

#[test]
fn test_rollback() {
    let mut db = HashTableDb::new();
    let nfs = make_nfs(0, 50);
    let hash = make_hash(1);
    db.insert_block(1, hash, &nfs).unwrap();
    assert_eq!(db.len(), 50);

    db.rollback_block(&hash).unwrap();
    assert_eq!(db.len(), 0);
    for nf in &nfs {
        assert!(!db.contains(nf), "nf still present after rollback");
    }
}

#[test]
fn test_evict_oldest() {
    let mut db = HashTableDb::new();
    let nfs_100 = make_nfs(0, 10);
    let nfs_101 = make_nfs(100, 10);
    let nfs_102 = make_nfs(200, 10);

    db.insert_block(100, make_hash(1), &nfs_100).unwrap();
    db.insert_block(101, make_hash(2), &nfs_101).unwrap();
    db.insert_block(102, make_hash(3), &nfs_102).unwrap();

    assert_eq!(db.len(), 30);
    let evicted = db.evict_oldest_block();
    assert_eq!(evicted, Some(100));
    assert_eq!(db.len(), 20);

    for nf in &nfs_100 {
        assert!(!db.contains(nf), "evicted nf still present");
    }
    for nf in &nfs_101 {
        assert!(db.contains(nf), "non-evicted nf missing");
    }
    for nf in &nfs_102 {
        assert!(db.contains(nf), "non-evicted nf missing");
    }
}

#[test]
fn test_evict_to_target() {
    let mut db = HashTableDb::new();
    // Insert blocks with many nfs each to exceed TARGET_SIZE.
    // Each block gets 10000 nfs, so we need > 100 blocks for > 1M.
    // That's too slow for a unit test. Instead, test with a smaller scenario:
    // insert 3 blocks, and check that evict_to_target works by verifying
    // behavior when we're under target.
    let nfs = make_nfs(0, 100);
    db.insert_block(1, make_hash(1), &nfs).unwrap();
    assert_eq!(db.len(), 100);

    // Already under target, evict_to_target should be a no-op
    db.evict_to_target();
    assert_eq!(db.len(), 100);
}

#[test]
fn test_bucket_overflow() {
    let mut db = HashTableDb::new();
    // Create nullifiers that all map to the same bucket (bucket 0).
    // Start from i=1 to avoid the all-zero nullifier (which is the empty sentinel).
    let mut nfs = Vec::new();
    for i in 1..=(BUCKET_CAPACITY as u32 + 1) {
        let mut nf = [0u8; 32];
        let val = (i * NUM_BUCKETS as u32).to_le_bytes();
        nf[0..4].copy_from_slice(&val);
        nf[4] = i as u8;
        nfs.push(nf);
    }
    // First 16 should succeed, 17th should fail
    let result = db.insert_block(1, make_hash(1), &nfs);
    assert!(result.is_err());
    match result.unwrap_err() {
        HashTableError::BucketOverflow { .. } => {}
        other => panic!("expected BucketOverflow, got: {}", other.message(BUCKET_CAPACITY)),
    }
}

#[test]
fn test_multiple_rollbacks() {
    let mut db = HashTableDb::new();
    let nfs_a = make_nfs(0, 20);
    let nfs_b = make_nfs(100, 20);
    let nfs_c = make_nfs(200, 20);
    let hash_a = make_hash(1);
    let hash_b = make_hash(2);
    let hash_c = make_hash(3);

    db.insert_block(1, hash_a, &nfs_a).unwrap();
    db.insert_block(2, hash_b, &nfs_b).unwrap();
    db.insert_block(3, hash_c, &nfs_c).unwrap();
    assert_eq!(db.len(), 60);

    db.rollback_block(&hash_c).unwrap();
    assert_eq!(db.len(), 40);
    for nf in &nfs_c {
        assert!(!db.contains(nf));
    }

    db.rollback_block(&hash_b).unwrap();
    assert_eq!(db.len(), 20);
    for nf in &nfs_b {
        assert!(!db.contains(nf));
    }

    // Block A's nfs should survive
    for nf in &nfs_a {
        assert!(db.contains(nf));
    }
}

#[test]
fn test_empty_block() {
    let mut db = HashTableDb::new();
    db.insert_block(1, make_hash(1), &[]).unwrap();
    assert_eq!(db.len(), 0);
    assert_eq!(db.num_blocks(), 1);
    assert_eq!(db.latest_height(), Some(1));

    // Eviction of empty block should work fine
    let evicted = db.evict_oldest_block();
    assert_eq!(evicted, Some(1));
    assert_eq!(db.num_blocks(), 0);
}

#[test]
fn test_pir_bytes_layout() {
    let mut db = HashTableDb::new();
    let nfs = make_nfs(0, 10);
    db.insert_block(1, make_hash(1), &nfs).unwrap();

    let pir = db.to_pir_bytes();
    assert_eq!(pir.len(), DB_BYTES);

    // Verify layout: each bucket is BUCKET_BYTES, entries are ENTRY_BYTES each
    for nf in &nfs {
        let bucket_idx = hash_to_bucket(nf) as usize;
        let bucket_start = bucket_idx * BUCKET_BYTES;
        let bucket_data = &pir[bucket_start..bucket_start + BUCKET_BYTES];

        // The nf should appear somewhere in this bucket's data
        let found = bucket_data.chunks_exact(32).any(|chunk| chunk == nf);
        assert!(found, "nf not found in expected bucket's PIR bytes");
    }
}

#[test]
fn test_idempotent_evict() {
    let mut db = HashTableDb::new();
    assert_eq!(db.evict_oldest_block(), None);
    db.evict_to_target(); // should not panic
    assert_eq!(db.len(), 0);
}

#[test]
fn test_insert_after_rollback_reuses_slots() {
    let mut db = HashTableDb::new();
    let nfs_1 = make_nfs(0, 10);
    let hash_1 = make_hash(1);
    db.insert_block(1, hash_1, &nfs_1).unwrap();
    db.rollback_block(&hash_1).unwrap();

    // Re-insert into the same buckets should work
    let nfs_2 = make_nfs(0, 10);
    db.insert_block(2, make_hash(2), &nfs_2).unwrap();
    assert_eq!(db.len(), 10);
}

#[test]
fn test_snapshot_roundtrip() {
    let mut db = HashTableDb::new();
    let nfs_1 = make_nfs(0, 50);
    let nfs_2 = make_nfs(1000, 30);
    db.insert_block(100, make_hash(1), &nfs_1).unwrap();
    db.insert_block(101, make_hash(2), &nfs_2).unwrap();

    let snap = db.to_snapshot();
    let restored = HashTableDb::from_snapshot(&snap).unwrap();

    assert_eq!(restored.len(), db.len());
    assert_eq!(restored.earliest_height(), db.earliest_height());
    assert_eq!(restored.latest_height(), db.latest_height());
    assert_eq!(restored.latest_block_hash(), db.latest_block_hash());
    assert_eq!(restored.num_blocks(), db.num_blocks());

    for nf in &nfs_1 {
        assert!(restored.contains(nf));
    }
    for nf in &nfs_2 {
        assert!(restored.contains(nf));
    }
}

#[test]
fn test_snapshot_checksum_tamper() {
    let mut db = HashTableDb::new();
    let nfs = make_nfs(0, 10);
    db.insert_block(1, make_hash(1), &nfs).unwrap();

    let mut snap = db.to_snapshot();
    // Corrupt one byte in the middle of the snapshot
    let mid = snap.len() / 2;
    snap[mid] ^= 0xff;

    let result = HashTableDb::from_snapshot(&snap);
    assert!(result.is_err());
}

#[test]
fn restored_table_rolls_back_and_evicts() {
    let mut db = HashTableDb::new();
    db.insert_block(1, make_hash(1), &make_nfs(0, 5)).unwrap();
    db.insert_block(2, make_hash(2), &make_nfs(100, 3)).unwrap();
    let mut restored = HashTableDb::from_snapshot(&db.to_snapshot()).unwrap();
    assert!(restored.is_sound());
    assert_eq!(restored.to_pir_bytes(), db.to_pir_bytes());
    restored.rollback_block(&make_hash(2)).unwrap();
    assert_eq!(restored.len(), 5);
    assert!(!restored.contains(&make_nf(100)));
    assert_eq!(restored.evict_oldest_block(), Some(1));
    assert!(restored.is_empty());
    assert_eq!(restored.to_pir_bytes(), HashTableDb::new().to_pir_bytes());
}

#[test]
fn snapshot_of_the_other_version_is_refused() {
    let other = spendability_pir::nullifier::hashtable_pir::HashTableDb::new().to_snapshot();
    match HashTableDb::from_snapshot(&other) {
        Ok(_) => panic!("expected a refusal"),
        Err(error) => assert_eq!(
            error.message(BUCKET_CAPACITY),
            "snapshot error: unsupported snapshot version 2 (expected 1)"
        ),
    }
}
