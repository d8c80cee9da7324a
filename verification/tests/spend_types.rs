//! Constants and bucket selection for bare nullifiers.

use spendability_pir::spend_types::{
    hash_to_bucket, BUCKET_BYTES, BUCKET_CAPACITY, DB_BYTES, ENTRY_BYTES, NUM_BUCKETS,
};
use std::collections::HashMap;

#[test]
fn test_hash_to_bucket_in_range() {
    let nf = [0xffu8; 32];
    let bucket = hash_to_bucket(&nf);
    assert!(bucket < NUM_BUCKETS as u32);
}

#[test]
fn test_hash_to_bucket_deterministic() {
    let nf = [42u8; 32];
    assert_eq!(hash_to_bucket(&nf), hash_to_bucket(&nf));
}

#[test]
fn test_hash_to_bucket_distribution() {
    let mut counts: HashMap<u32, usize> = HashMap::new();
    for i in 0u32..10_000 {
        let mut nf = [0u8; 32];
        nf[0..4].copy_from_slice(&i.to_le_bytes());
        let bucket = hash_to_bucket(&nf);
        *counts.entry(bucket).or_default() += 1;
    }
    // With 10k samples over 131072 buckets, most buckets get 0 or 1 hit.
    // No bucket should get a wildly disproportionate number.
    let max_count = counts.values().max().copied().unwrap_or(0);
    assert!(max_count < 10, "max bucket count {max_count} is too high");
}

#[test]
fn test_hash_to_bucket_different_inputs() {
    let nf_a = [1u8; 32];
    let nf_b = [2u8; 32];
    // Different inputs should (almost certainly) map to different buckets
    // since the first 4 bytes differ.
    let a = hash_to_bucket(&nf_a);
    let b = hash_to_bucket(&nf_b);
    assert_ne!(a, b);
}

#[test]
fn test_constants_consistency() {
    assert_eq!(BUCKET_BYTES, BUCKET_CAPACITY * ENTRY_BYTES);
    assert_eq!(DB_BYTES, NUM_BUCKETS * BUCKET_BYTES);
    assert!(NUM_BUCKETS.is_power_of_two());
}
