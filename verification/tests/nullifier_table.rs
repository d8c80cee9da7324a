//! A table of nullifiers with spend metadata, and its snapshots.

use spendability_pir::nullifier::hashtable_pir::{HashTableDb, HashTableError};
use spendability_pir::nullifier::spend_types::{
    hash_to_bucket, NullifierEntry, NullifierWithMeta, BUCKET_BYTES, BUCKET_CAPACITY, DB_BYTES,
    ENTRY_BYTES, NUM_BUCKETS,
};

fn make_nf(seed: u32) -> [u8; 32] {
    let mut nf = [0u8; 32];
    nf[0..4].copy_from_slice(&seed.to_le_bytes());
    for (i, byte) in nf.iter_mut().enumerate().skip(4) {
        *byte = ((seed >> ((i % 4) * 8)) as u8).wrapping_add(i as u8);
    }
    nf
}

fn make_hash(seed: u8) -> [u8; 32] {
    [seed; 32]
}

fn make_nwms(start: u32, count: u32) -> Vec<NullifierWithMeta> {
    (start..start + count)
        .map(|i| NullifierWithMeta {
            nullifier: make_nf(i),
            first_output_position: 1000 + i,
            action_count: 2,
        })
        .collect()
}

#[test]
fn lib_test_insert_and_contains() {
    let mut db = HashTableDb::new();
    let nwms = make_nwms(0, 100);
    db.insert_block(1, make_hash(1), &nwms).unwrap();

    assert_eq!(db.len(), 100);
    for nwm in &nwms {
        assert!(db.contains(&nwm.nullifier), "inserted nf not found");
    }
}

#[test]
fn lib_test_insert_no_false_positive() {
    let mut db = HashTableDb::new();
    let nwms = make_nwms(0, 100);
    db.insert_block(1, make_hash(1), &nwms).unwrap();

    let missing = make_nwms(1000, 100);
    for nwm in &missing {
        assert!(!db.contains(&nwm.nullifier), "false positive for non-inserted nf");
    }
}

#[test]
fn lib_test_rollback() {
    let mut db = HashTableDb::new();
    let nwms = make_nwms(0, 50);
    let hash = make_hash(1);
    db.insert_block(1, hash, &nwms).unwrap();
    assert_eq!(db.len(), 50);

    db.rollback_block(&hash).unwrap();
    assert_eq!(db.len(), 0);
    for nwm in &nwms {
        assert!(!db.contains(&nwm.nullifier), "nf still present after rollback");
    }
}

#[test]
fn lib_test_evict_oldest() {
    let mut db = HashTableDb::new();
    let nwms_100 = make_nwms(0, 10);
    let nwms_101 = make_nwms(100, 10);
    let nwms_102 = make_nwms(200, 10);

    db.insert_block(100, make_hash(1), &nwms_100).unwrap();
    db.insert_block(101, make_hash(2), &nwms_101).unwrap();
    db.insert_block(102, make_hash(3), &nwms_102).unwrap();

    assert_eq!(db.len(), 30);
    let evicted = db.evict_oldest_block();
    assert_eq!(evicted, Some(100));
    assert_eq!(db.len(), 20);

    for nwm in &nwms_100 {
        assert!(!db.contains(&nwm.nullifier), "evicted nf still present");
    }
    for nwm in &nwms_101 {
        assert!(db.contains(&nwm.nullifier), "non-evicted nf missing");
    }
    for nwm in &nwms_102 {
        assert!(db.contains(&nwm.nullifier), "non-evicted nf missing");
    }
}

#[test]
fn lib_test_evict_to_target() {
    let mut db = HashTableDb::new();
    let nwms = make_nwms(0, 100);
    db.insert_block(1, make_hash(1), &nwms).unwrap();
    assert_eq!(db.len(), 100);

    db.evict_to_target();
    assert_eq!(db.len(), 100);
}

#[test]
fn lib_test_snapshot_roundtrip() {
    let mut db = HashTableDb::new();
    let nwms_1 = make_nwms(0, 50);
    let nwms_2 = make_nwms(1000, 30);
    db.insert_block(100, make_hash(1), &nwms_1).unwrap();
    db.insert_block(101, make_hash(2), &nwms_2).unwrap();

    let snap = db.to_snapshot();
    let restored = HashTableDb::from_snapshot(&snap).unwrap();

    assert_eq!(restored.len(), db.len());
    assert_eq!(restored.earliest_height(), db.earliest_height());
    assert_eq!(restored.latest_height(), db.latest_height());
    assert_eq!(restored.latest_block_hash(), db.latest_block_hash());
    assert_eq!(restored.num_blocks(), db.num_blocks());

    for nwm in &nwms_1 {
        assert!(restored.contains(&nwm.nullifier));
    }
    for nwm in &nwms_2 {
        assert!(restored.contains(&nwm.nullifier));
    }
}

#[test]
fn lib_test_snapshot_checksum_tamper() {
    let mut db = HashTableDb::new();
    let nwms = make_nwms(0, 10);
    db.insert_block(1, make_hash(1), &nwms).unwrap();

    let mut snap = db.to_snapshot();
    let mid = snap.len() / 2;
    snap[mid] ^= 0xff;

    let result = HashTableDb::from_snapshot(&snap);
    assert!(result.is_err());
}

#[test]
fn lib_test_bucket_overflow() {
    let mut db = HashTableDb::new();
    let mut nwms = Vec::new();
    for i in 1..=(BUCKET_CAPACITY as u32 + 1) {
        let mut nf = [0u8; 32];
        let val = (i * NUM_BUCKETS as u32).to_le_bytes();
        nf[0..4].copy_from_slice(&val);
        nf[4] = i as u8;
        nwms.push(NullifierWithMeta {
            nullifier: nf,
            first_output_position: 0,
            action_count: 2,
        });
    }
    let result = db.insert_block(1, make_hash(1), &nwms);
    assert!(result.is_err());
    match result.unwrap_err() {
        HashTableError::BucketOverflow { .. } => {}
        other => panic!("expected BucketOverflow, got: {}", other.message(BUCKET_CAPACITY)),
    }
}

#[test]
fn lib_test_multiple_rollbacks() {
    let mut db = HashTableDb::new();
    let nwms_a = make_nwms(0, 20);
    let nwms_b = make_nwms(100, 20);
    let nwms_c = make_nwms(200, 20);
    let hash_a = make_hash(1);
    let hash_b = make_hash(2);
    let hash_c = make_hash(3);

    db.insert_block(1, hash_a, &nwms_a).unwrap();
    db.insert_block(2, hash_b, &nwms_b).unwrap();
    db.insert_block(3, hash_c, &nwms_c).unwrap();
    assert_eq!(db.len(), 60);

    db.rollback_block(&hash_c).unwrap();
    assert_eq!(db.len(), 40);
    for nwm in &nwms_c {
        assert!(!db.contains(&nwm.nullifier));
    }

    db.rollback_block(&hash_b).unwrap();
    assert_eq!(db.len(), 20);
    for nwm in &nwms_b {
        assert!(!db.contains(&nwm.nullifier));
    }

    for nwm in &nwms_a {
        assert!(db.contains(&nwm.nullifier));
    }
}

#[test]
fn lib_test_empty_block() {
    let mut db = HashTableDb::new();
    db.insert_block(1, make_hash(1), &[]).unwrap();
    assert_eq!(db.len(), 0);
    assert_eq!(db.num_blocks(), 1);
    assert_eq!(db.latest_height(), Some(1));

    let evicted = db.evict_oldest_block();
    assert_eq!(evicted, Some(1));
    assert_eq!(db.num_blocks(), 0);
}

#[test]
fn lib_test_pir_bytes_layout() {
    let mut db = HashTableDb::new();
    let nwms = make_nwms(0, 10);
    db.insert_block(1, make_hash(1), &nwms).unwrap();

    let pir = db.to_pir_bytes();
    assert_eq!(pir.len(), DB_BYTES);

    for nwm in &nwms {
        let bucket_idx = hash_to_bucket(&nwm.nullifier) as usize;
        let bucket_start = bucket_idx * BUCKET_BYTES;
        let bucket_data = &pir[bucket_start..bucket_start + BUCKET_BYTES];

        let found = bucket_data
            .chunks_exact(ENTRY_BYTES)
            .any(|chunk| &chunk[..32] == nwm.nullifier.as_slice());
        assert!(found, "nf not found in expected bucket's PIR bytes");
    }
}

#[test]
fn test_pir_bytes_metadata_preserved() {
    let mut db = HashTableDb::new();
    let nwm = NullifierWithMeta {
        nullifier: make_nf(42),
        first_output_position: 12345,
        action_count: 4,
    };
    db.insert_block(500, make_hash(1), &[nwm]).unwrap();

    let pir = db.to_pir_bytes();
    let bucket_idx = hash_to_bucket(&nwm.nullifier) as usize;
    let bucket_start = bucket_idx * BUCKET_BYTES;
    let bucket_data = &pir[bucket_start..bucket_start + BUCKET_BYTES];

    let entry_bytes = bucket_data
        .chunks_exact(ENTRY_BYTES)
        .find(|chunk| &chunk[..32] == nwm.nullifier.as_slice())
        .expect("nf not found");

    let entry = NullifierEntry::from_bytes(entry_bytes.try_into().unwrap());
    assert_eq!(entry.spend_height, 500);
    assert_eq!(entry.first_output_position, 12345);
    assert_eq!(entry.action_count, 4);
}

#[test]
fn lib_test_idempotent_evict() {
    let mut db = HashTableDb::new();
    assert_eq!(db.evict_oldest_block(), None);
    db.evict_to_target();
    assert_eq!(db.len(), 0);
}

#[test]
fn lib_test_insert_after_rollback_reuses_slots() {
    let mut db = HashTableDb::new();
    let nwms_1 = make_nwms(0, 10);
    let hash_1 = make_hash(1);
    db.insert_block(1, hash_1, &nwms_1).unwrap();
    db.rollback_block(&hash_1).unwrap();

    let nwms_2 = make_nwms(0, 10);
    db.insert_block(2, make_hash(2), &nwms_2).unwrap();
    assert_eq!(db.len(), 10);
}
