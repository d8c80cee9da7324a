//! Promises of the block tables and of the nullifier snapshot format.

use spendability_pir::hashtable_pir::{HashTableDb as BareTable, HashTableError};
use spendability_pir::nullifier::hashtable_pir::HashTableDb;
use spendability_pir::nullifier::spend_client::scan_bucket_for_nf;
use spendability_pir::nullifier::spend_types::{
    hash_to_bucket, NullifierEntry, NullifierWithMeta, SpendMetadata, BUCKET_BYTES, BUCKET_CAPACITY,
    DB_BYTES, NUM_BUCKETS,
};
use spendability_pir::spend_types::hash_to_bucket as bare_bucket;
use xxhash_rust::xxh64::xxh64;

fn make_nf(seed: u32) -> [u8; 32] {
    let mut nf = [0u8; 32];
    nf[0..4].copy_from_slice(&seed.to_le_bytes());
    for (i, byte) in nf.iter_mut().enumerate().skip(4) {
        *byte = ((seed >> ((i % 4) * 8)) as u8).wrapping_add(i as u8);
    }
    nf
}

fn with_meta(seed: u32) -> NullifierWithMeta {
    NullifierWithMeta {
        nullifier: make_nf(seed),
        first_output_position: 1000 + seed,
        action_count: 2,
    }
}

/// Nullifiers that all fall into bucket zero.
fn colliding(count: u32) -> Vec<NullifierWithMeta> {
    (1..=count)
        .map(|i| {
            let mut nf = [0u8; 32];
            nf[0..4].copy_from_slice(&(i * NUM_BUCKETS as u32).to_le_bytes());
            nf[4] = i as u8;
            NullifierWithMeta { nullifier: nf, first_output_position: 0, action_count: 2 }
        })
        .collect()
}

/// Recomputes the checksum at the end of a snapshot.
fn reseal(snapshot: &mut Vec<u8>) {
    let end = snapshot.len() - 8;
    let digest = xxh64(&snapshot[..end], 0);
    snapshot[end..].copy_from_slice(&digest.to_le_bytes());
}

fn refusal(snapshot: &[u8]) -> String {
    match HashTableDb::from_snapshot(snapshot) {
        Ok(_) => panic!("expected a refusal"),
        Err(error) => error.message(BUCKET_CAPACITY),
    }
}

#[test]
fn bucket_is_first_four_bytes_modulo_buckets() {
    let mut nf = [0u8; 32];
    nf[0..4].copy_from_slice(&0x0004_0007u32.to_le_bytes());
    assert_eq!(hash_to_bucket(&nf), 7);
    assert_eq!(bare_bucket(&nf), 7);
    nf[0..4].copy_from_slice(&0x0001_4001u32.to_le_bytes());
    assert_eq!(hash_to_bucket(&nf), 1);
    assert_eq!(bare_bucket(&nf), 0x1_4001);
}

#[test]
fn overflow_leaves_the_table_unchanged() {
    let mut db = HashTableDb::new();
    db.insert_block(1, [1; 32], &[with_meta(5)]).unwrap();
    let before = db.to_pir_bytes();
    let error = db
        .insert_block(2, [2; 32], &colliding(BUCKET_CAPACITY as u32 + 1))
        .unwrap_err();
    assert_eq!(
        error.message(BUCKET_CAPACITY),
        "bucket 0 overflow: already at capacity 112"
    );
    assert_eq!(db.len(), 1);
    assert_eq!(db.num_blocks(), 1);
    assert!(db.to_pir_bytes() == before);
}

#[test]
fn a_full_bucket_takes_no_more_and_frees_on_rollback() {
    let mut db = HashTableDb::new();
    let full = colliding(BUCKET_CAPACITY as u32);
    db.insert_block(1, [1; 32], &full).unwrap();
    let extra = NullifierWithMeta {
        nullifier: {
            let mut nf = [0xEEu8; 32];
            nf[0..4].copy_from_slice(&0u32.to_le_bytes());
            nf
        },
        first_output_position: 9,
        action_count: 1,
    };
    assert!(db.insert_block(2, [2; 32], &[extra]).is_err());
    db.rollback_block(&[1; 32]).unwrap();
    db.insert_block(2, [2; 32], &[extra]).unwrap();
    assert!(db.contains(&extra.nullifier));
    assert_eq!(db.len(), 1);
}

#[test]
fn rollback_of_a_new_block_restores_the_table() {
    let mut db = HashTableDb::new();
    db.insert_block(10, [1; 32], &[with_meta(1), with_meta(2)]).unwrap();
    let before = db.to_snapshot();
    db.insert_block(11, [2; 32], &[with_meta(3), with_meta(1)]).unwrap();
    db.rollback_block(&[2; 32]).unwrap();
    assert!(db.to_snapshot() == before);
}

#[test]
fn unknown_blocks_cannot_be_rolled_back() {
    let mut db = HashTableDb::new();
    let error = db.rollback_block(&[9; 32]).unwrap_err();
    assert_eq!(error.message(BUCKET_CAPACITY), "block hash not found for rollback");
    let mut bare = BareTable::new();
    assert!(matches!(bare.rollback_block(&[9; 32]), Err(HashTableError::BlockNotFound)));
}

#[test]
fn eviction_goes_from_the_lowest_height() {
    let mut db = BareTable::new();
    db.insert_block(30, [3; 32], &[make_nf(3)]).unwrap();
    db.insert_block(10, [1; 32], &[make_nf(1)]).unwrap();
    db.insert_block(20, [2; 32], &[make_nf(2)]).unwrap();
    assert_eq!(db.earliest_height(), Some(10));
    assert_eq!(db.latest_height(), Some(30));
    assert_eq!(db.latest_block_hash(), Some([3; 32]));
    assert_eq!(db.evict_oldest_block(), Some(10));
    assert_eq!(db.evict_oldest_block(), Some(20));
    assert!(db.contains(&make_nf(3)));
    assert!(!db.contains(&make_nf(1)));
    assert!(!db.contains(&make_nf(2)));
    assert!(matches!(db.rollback_block(&[1; 32]), Err(HashTableError::BlockNotFound)));
}

#[test]
fn a_block_at_a_known_height_takes_its_place() {
    let mut db = BareTable::new();
    db.insert_block(10, [1; 32], &[make_nf(1)]).unwrap();
    db.insert_block(10, [2; 32], &[make_nf(2)]).unwrap();
    assert_eq!(db.num_blocks(), 1);
    assert_eq!(db.len(), 2);
    assert_eq!(db.latest_block_hash(), Some([2; 32]));
}

#[test]
fn lookup_in_the_row_finds_what_the_table_holds() {
    let mut db = HashTableDb::new();
    let spent = with_meta(77);
    db.insert_block(1_700_000, [1; 32], &[with_meta(76), spent]).unwrap();
    let rows = db.to_pir_bytes();
    let row = |nf: &[u8; 32]| {
        let start = hash_to_bucket(nf) as usize * BUCKET_BYTES;
        &rows[start..start + BUCKET_BYTES]
    };
    assert_eq!(
        scan_bucket_for_nf(row(&spent.nullifier), &spent.nullifier),
        Some(SpendMetadata {
            spend_height: 1_700_000,
            first_output_position: 1077,
            action_count: 2,
        })
    );
    let unspent = make_nf(78);
    assert_eq!(scan_bucket_for_nf(row(&unspent), &unspent), None);
}

#[test]
fn entry_bytes_are_nullifier_height_position_count() {
    let entry = NullifierEntry {
        nullifier: [7; 32],
        spend_height: 0x0102_0304,
        first_output_position: 5,
        action_count: 6,
    };
    let bytes = entry.to_bytes();
    assert_eq!(&bytes[..32], &[7; 32]);
    assert_eq!(&bytes[32..], &[4, 3, 2, 1, 5, 0, 0, 0, 6]);
    let back = NullifierEntry::from_bytes(bytes);
    assert_eq!(back.spend_height, 0x0102_0304);
    assert_eq!(back.first_output_position, 5);
    assert_eq!(back.action_count, 6);
}

#[test]
fn snapshot_ends_with_the_digest_of_what_precedes() {
    let mut db = HashTableDb::new();
    db.insert_block(3, [1; 32], &[with_meta(1)]).unwrap();
    let snapshot = db.to_snapshot();
    let end = snapshot.len() - 8;
    assert_eq!(
        snapshot[end..],
        xxh64(&snapshot[..end], 0).to_le_bytes()
    );
    assert_eq!(&snapshot[..8], b"RIPDNEPS");
    assert_eq!(snapshot.len(), 76 + 44 + 6 + DB_BYTES + 8);
}

#[test]
fn restored_table_is_sound_and_goes_on() {
    let mut db = HashTableDb::new();
    db.insert_block(3, [1; 32], &[with_meta(1)]).unwrap();
    db.insert_block(4, [2; 32], &[with_meta(2)]).unwrap();
    let mut back = HashTableDb::from_snapshot(&db.to_snapshot()).unwrap();
    assert!(back.is_sound());
    back.rollback_block(&[2; 32]).unwrap();
    assert_eq!(back.len(), 1);
    assert!(back.contains(&make_nf(1)));
    assert!(!back.contains(&make_nf(2)));
}

#[test]
fn snapshot_refuses_short_data_and_bad_digests() {
    assert_eq!(refusal(&[0u8; 100]), "snapshot error: data too short");
    let mut snapshot = HashTableDb::new().to_snapshot();
    snapshot[20] ^= 1;
    assert_eq!(refusal(&snapshot), "snapshot error: checksum mismatch");
}

#[test]
fn snapshot_refuses_other_formats() {
    let mut snapshot = HashTableDb::new().to_snapshot();
    snapshot[0] ^= 1;
    reseal(&mut snapshot);
    assert_eq!(refusal(&snapshot), "snapshot error: bad magic");
    let mut snapshot = HashTableDb::new().to_snapshot();
    snapshot[8] = 1;
    reseal(&mut snapshot);
    assert_eq!(
        refusal(&snapshot),
        "snapshot error: unsupported snapshot version 1 (expected 2)"
    );
}

#[test]
fn snapshot_refuses_missing_records() {
    let mut snapshot = HashTableDb::new().to_snapshot();
    snapshot[68..76].copy_from_slice(&u64::MAX.to_le_bytes());
    reseal(&mut snapshot);
    assert_eq!(refusal(&snapshot), "snapshot error: unexpected EOF");
    let mut snapshot = HashTableDb::new().to_snapshot();
    snapshot[68..76].copy_from_slice(&1u64.to_le_bytes());
    reseal(&mut snapshot);
    assert_eq!(refusal(&snapshot), "snapshot error: bucket data truncated");
}

#[test]
fn snapshot_with_stray_slots_is_not_sound() {
    let mut db = HashTableDb::new();
    db.insert_block(3, [1; 32], &[with_meta(1)]).unwrap();
    let mut snapshot = db.to_snapshot();
    snapshot[120..124].copy_from_slice(&(NUM_BUCKETS as u32).to_le_bytes());
    reseal(&mut snapshot);
    let back = HashTableDb::from_snapshot(&snapshot).unwrap();
    assert!(!back.is_sound());
}

/// The slots of a table's bytes that do not start with a zero nullifier.
fn named_slots(rows: &[u8], width: usize) -> usize {
    rows.chunks(width).filter(|slot| slot[..32] != [0u8; 32]).count()
}

#[test]
fn len_counts_the_slots_that_hold_a_nullifier() {
    let mut db = HashTableDb::new();
    let block = |first: u32, count: u32| -> Vec<NullifierWithMeta> {
        (first..first + count).map(with_meta).collect()
    };
    db.insert_block(10, [10; 32], &block(1, 40)).unwrap();
    db.insert_block(11, [11; 32], &block(100, 7)).unwrap();
    db.insert_block(9, [9; 32], &block(200, 5)).unwrap();
    assert_eq!(db.len(), 52);
    db.rollback_block(&[11; 32]).unwrap();
    assert!(db.rollback_block(&[99; 32]).is_err());
    assert_eq!(db.evict_oldest_block(), Some(9));
    db.evict_to_target();
    let rows = db.to_pir_bytes();
    assert_eq!(rows.len(), DB_BYTES);
    assert_eq!(named_slots(&rows, DB_BYTES / NUM_BUCKETS / BUCKET_CAPACITY), 40);
    assert_eq!(db.len(), 40);
    assert!(!db.is_empty());
}

#[test]
fn bare_len_counts_the_slots_that_hold_a_nullifier() {
    let mut db = BareTable::new();
    let first: Vec<[u8; 32]> = (1..=12).map(make_nf).collect();
    let second: Vec<[u8; 32]> = (100..104).map(make_nf).collect();
    db.insert_block(1, [1; 32], &first).unwrap();
    db.insert_block(2, [2; 32], &second).unwrap();
    db.rollback_block(&[1; 32]).unwrap();
    assert_eq!(named_slots(&db.to_pir_bytes(), 32), 4);
    assert_eq!(db.len(), 4);
    assert_eq!(db.evict_oldest_block(), Some(2));
    assert!(db.is_empty());
}
