//! Scanning a decoded bucket.

use spendability_pir::nullifier::spend_client::scan_bucket_for_nf;
use spendability_pir::nullifier::spend_types::{NullifierEntry, BUCKET_BYTES, ENTRY_BYTES};

fn make_nf(seed: u32) -> [u8; 32] {
    let mut nf = [0u8; 32];
    nf[0..4].copy_from_slice(&seed.to_le_bytes());
    for (i, byte) in nf.iter_mut().enumerate().skip(4) {
        *byte = ((seed >> ((i % 4) * 8)) as u8).wrapping_add(i as u8);
    }
    nf
}

fn make_entry(nf: [u8; 32], height: u32, pos: u32, count: u8) -> NullifierEntry {
    NullifierEntry {
        nullifier: nf,
        spend_height: height,
        first_output_position: pos,
        action_count: count,
    }
}

fn place_entry(bucket: &mut [u8], slot: usize, entry: &NullifierEntry) {
    let offset = slot * ENTRY_BYTES;
    bucket[offset..offset + ENTRY_BYTES].copy_from_slice(&entry.to_bytes());
}

#[test]
fn test_bucket_scan_found() {
    let nf = make_nf(42);
    let entry = make_entry(nf, 100, 5000, 3);
    let mut bucket = vec![0u8; BUCKET_BYTES];
    place_entry(&mut bucket, 3, &entry);

    let meta = scan_bucket_for_nf(&bucket, &nf).unwrap();
    assert_eq!(meta.spend_height, 100);
    assert_eq!(meta.first_output_position, 5000);
    assert_eq!(meta.action_count, 3);
}

#[test]
fn test_bucket_scan_not_found() {
    let nf = make_nf(42);
    let absent = make_nf(99);
    let entry = make_entry(nf, 100, 5000, 3);
    let mut bucket = vec![0u8; BUCKET_BYTES];
    place_entry(&mut bucket, 3, &entry);

    assert!(scan_bucket_for_nf(&bucket, &absent).is_none());
}

#[test]
fn test_bucket_scan_empty() {
    let nf = make_nf(42);
    let bucket = vec![0u8; BUCKET_BYTES];
    assert!(scan_bucket_for_nf(&bucket, &nf).is_none());
}

#[test]
fn test_bucket_scan_last_slot() {
    let nf = make_nf(42);
    let entry = make_entry(nf, 200, 8000, 1);
    let mut bucket = vec![0u8; BUCKET_BYTES];
    let last_slot = (BUCKET_BYTES / ENTRY_BYTES) - 1;
    place_entry(&mut bucket, last_slot, &entry);

    let meta = scan_bucket_for_nf(&bucket, &nf).unwrap();
    assert_eq!(meta.spend_height, 200);
}

#[test]
fn test_bucket_scan_oversized_row() {
    let nf = make_nf(42);
    let entry = make_entry(nf, 300, 9000, 5);
    let mut row = vec![0u8; BUCKET_BYTES + 1024];
    place_entry(&mut row, 5, &entry);

    assert!(scan_bucket_for_nf(&row, &nf).is_some());
}
