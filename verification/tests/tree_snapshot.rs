//! Snapshots of the note commitment tree: windows, the cache and older versions.

use spendability_pir::witness::commitment_tree_db::CommitmentTreeDb;
use spendability_pir::witness::witness_types::SHARD_LEAVES;
use xxhash_rust::xxh64::xxh64;

const V1: u64 = 0x434D_5452_4545_0001;
const V2: u64 = 0x434D_5452_4545_0002;
const V3: u64 = 0x434D_5452_4545_0003;

fn make_leaf(byte: u8) -> [u8; 32] {
    let mut leaf = [0u8; 32];
    leaf[0] = byte;
    leaf
}

fn sealed(mut payload: Vec<u8>) -> Vec<u8> {
    let digest = xxh64(&payload, 0);
    payload.extend_from_slice(&digest.to_le_bytes());
    payload
}

/// The fields that every version starts with, for the given blocks.
fn base_header(magic: u64, tree_size: u64, blocks: &[(u64, [u8; 32], u32)]) -> Vec<u8> {
    let (height, hash) = blocks.last().map_or((0, [0; 32]), |block| (block.0, block.1));
    let mut payload = Vec::new();
    payload.extend_from_slice(&magic.to_le_bytes());
    payload.extend_from_slice(&tree_size.to_le_bytes());
    payload.extend_from_slice(&(blocks.len() as u64).to_le_bytes());
    payload.extend_from_slice(&height.to_le_bytes());
    payload.extend_from_slice(&hash);
    payload
}

fn push_records(payload: &mut Vec<u8>, blocks: &[(u64, [u8; 32], u32)]) {
    for (height, hash, count) in blocks {
        payload.extend_from_slice(&height.to_le_bytes());
        payload.extend_from_slice(hash);
        payload.extend_from_slice(&count.to_le_bytes());
    }
}

/// A snapshot with one block of two leaves behind one given shard root, up to
/// the leaf data and with it.
fn windowed_contents(magic: u64) -> Vec<u8> {
    let blocks = [(7, [7; 32], 2)];
    let mut payload = base_header(magic, SHARD_LEAVES as u64 + 2, &blocks);
    payload.extend_from_slice(&(SHARD_LEAVES as u64).to_le_bytes());
    payload.extend_from_slice(&1u64.to_le_bytes());
    push_records(&mut payload, &blocks);
    payload.extend_from_slice(&[0xAA; 32]);
    payload.extend_from_slice(&make_leaf(5));
    payload.extend_from_slice(&make_leaf(6));
    payload
}

fn push_cached(payload: &mut Vec<u8>, entries: &[(u32, [u8; 32])]) {
    payload.extend_from_slice(&(entries.len() as u64).to_le_bytes());
    for (slot, root) in entries {
        payload.extend_from_slice(&slot.to_le_bytes());
        payload.extend_from_slice(root);
    }
}

fn refusal(payload: Vec<u8>) -> String {
    match CommitmentTreeDb::from_snapshot(&sealed(payload)) {
        Ok(_) => panic!("expected a refusal"),
        Err(error) => error.message(),
    }
}

#[test]
fn windowed_tree_survives_its_snapshot_with_a_warm_cache() {
    let leaf = make_leaf(5);
    let mut tree = CommitmentTreeDb::with_offset(2 * 65_536, vec![[0xAA; 32]; 2]);
    tree.append_commitments(100, [1u8; 32], &[leaf]);
    let built = tree.build_pir_db_and_broadcast(100);
    assert!(tree.ss_root_cache()[0].is_some());

    let snapshot = tree.to_snapshot();
    let mut restored = CommitmentTreeDb::from_snapshot(&snapshot).unwrap();
    assert_eq!(restored.leaf_offset(), 131_072);
    assert_eq!(restored.tree_size(), 131_073);
    assert_eq!(restored.leaves(), &[leaf]);
    assert_eq!(restored.prefetched_shard_roots(), &[[0xAA; 32]; 2]);
    assert_eq!(restored.latest_height(), Some(100));
    assert_eq!(restored.ss_root_cache(), tree.ss_root_cache());
    assert_eq!(restored.to_snapshot(), snapshot);

    let again = restored.build_pir_db_and_broadcast(100);
    assert!(again.0 == built.0);
    assert_eq!(again.1.cap.shard_roots, built.1.cap.shard_roots);
    assert_eq!(again.1.subshard_roots[0].roots, built.1.subshard_roots[0].roots);
    assert_eq!(again.1.window_start_shard, 2);
}

#[test]
fn snapshot_lists_only_cached_roots() {
    let mut tree = CommitmentTreeDb::with_offset(65_536, vec![make_leaf(9)]);
    tree.append_commitments(1, [1; 32], &vec![make_leaf(5); 300]);
    let cold = tree.to_snapshot();
    assert_eq!(cold.len(), 80 + 44 + 32 + 300 * 32 + 8 + 8);
    tree.build_pir_db();
    let warm = tree.to_snapshot();
    assert_eq!(warm.len(), cold.len() + 2 * 36);
    let entries = warm.len() - 8 - 2 * 36;
    assert_eq!(warm[entries - 8..entries], 2u64.to_le_bytes());
    assert_eq!(warm[entries..entries + 4], 0u32.to_le_bytes());
    assert_eq!(warm[entries + 4..entries + 36], tree.ss_root_cache()[0].unwrap());
    assert_eq!(warm[entries + 36..entries + 40], 1u32.to_le_bytes());

    let mut restored = CommitmentTreeDb::from_snapshot(&warm).unwrap();
    restored.append_commitments(2, [2; 32], &[make_leaf(6)]);
    assert!(restored.ss_root_cache()[0].is_some());
    assert!(restored.ss_root_cache()[1].is_none());
}

#[test]
fn version_one_is_restored_with_a_cold_cache() {
    let blocks = [(100, [0xAA; 32], 2), (101, [0xBB; 32], 1)];
    let mut payload = base_header(V1, 3, &blocks);
    push_records(&mut payload, &blocks);
    for byte in [3, 4, 5] {
        payload.extend_from_slice(&make_leaf(byte));
    }
    let restored = CommitmentTreeDb::from_snapshot(&sealed(payload)).unwrap();
    assert_eq!(restored.leaf_offset(), 0);
    assert_eq!(restored.tree_size(), 3);
    assert_eq!(restored.leaves(), &[make_leaf(3), make_leaf(4), make_leaf(5)]);
    assert_eq!(restored.blocks().len(), 2);
    assert_eq!(restored.latest_block_hash(), Some([0xBB; 32]));
    assert!(restored.prefetched_shard_roots().is_empty());
    assert!(restored.ss_root_cache().iter().all(|slot| slot.is_none()));
}

#[test]
fn version_two_is_restored_with_a_cold_cache() {
    let restored = CommitmentTreeDb::from_snapshot(&sealed(windowed_contents(V2))).unwrap();
    assert_eq!(restored.leaf_offset(), 65_536);
    assert_eq!(restored.tree_size(), 65_538);
    assert_eq!(restored.prefetched_shard_roots(), &[[0xAA; 32]]);
    assert_eq!(restored.leaves(), &[make_leaf(5), make_leaf(6)]);
    assert!(restored.ss_root_cache().iter().all(|slot| slot.is_none()));
}

#[test]
fn cached_roots_are_published_as_they_were_saved() {
    let mut payload = windowed_contents(V3);
    push_cached(&mut payload, &[(0, make_leaf(1))]);
    let mut restored = CommitmentTreeDb::from_snapshot(&sealed(payload)).unwrap();
    assert_eq!(restored.ss_root_cache()[0], Some(make_leaf(1)));
    let broadcast = restored.broadcast_data(7);
    assert_eq!(broadcast.subshard_roots[0].roots[0], make_leaf(1));
    let roots = restored.subshard_roots(1);
    assert_ne!(roots[0], make_leaf(1));
}

#[test]
fn broken_headers_are_refused() {
    assert_eq!(
        refusal(base_header(0x434D_5452_4545_0004, 0, &[])),
        "snapshot corrupted: bad magic: expected 0x434d545245450003, got 0x434d545245450004"
    );
    assert_eq!(
        refusal(base_header(V3, 0, &[])),
        "snapshot corrupted: header truncated"
    );
    let mut payload = base_header(V3, 0, &[]);
    payload.extend_from_slice(&100u64.to_le_bytes());
    payload.extend_from_slice(&0u64.to_le_bytes());
    assert_eq!(
        refusal(payload),
        "snapshot corrupted: leaf_offset 100 is not the start of a shard"
    );
    let mut payload = base_header(V2, 1, &[]);
    payload.extend_from_slice(&65_536u64.to_le_bytes());
    payload.extend_from_slice(&0u64.to_le_bytes());
    assert_eq!(
        refusal(payload),
        "snapshot corrupted: tree_size (1) < leaf_offset (65536)"
    );
}

#[test]
fn broken_contents_are_refused() {
    let whole = windowed_contents(V2);
    assert_eq!(
        refusal(whole[..whole.len() - 1].to_vec()),
        "snapshot corrupted: leaf data truncated"
    );
    assert_eq!(
        refusal(whole[..80 + 44 + 31].to_vec()),
        "snapshot corrupted: shard roots truncated"
    );
    assert_eq!(
        refusal(whole[..80 + 43].to_vec()),
        "snapshot corrupted: block records truncated"
    );
    let mut miscounted = whole;
    miscounted[8..16].copy_from_slice(&65_539u64.to_le_bytes());
    assert_eq!(
        refusal(miscounted),
        "snapshot corrupted: block records sum to 2 commitments but header says 3"
    );
}

#[test]
fn broken_caches_are_refused() {
    assert_eq!(
        refusal(windowed_contents(V3)),
        "snapshot corrupted: cached roots truncated"
    );
    let mut payload = windowed_contents(V3);
    push_cached(&mut payload, &[(0, make_leaf(1))]);
    payload.pop();
    assert_eq!(
        refusal(payload),
        "snapshot corrupted: cached roots truncated"
    );
    for slot in [1, 8_192] {
        let mut payload = windowed_contents(V3);
        push_cached(&mut payload, &[(0, make_leaf(1)), (slot, make_leaf(1))]);
        assert_eq!(
            refusal(payload),
            format!("snapshot corrupted: cache slot {slot} out of range")
        );
    }
    let mut payload = windowed_contents(V3);
    push_cached(&mut payload, &[(0, [0xFF; 32])]);
    assert_eq!(
        refusal(payload),
        "snapshot corrupted: cached root of slot 0 is not a tree node"
    );
}
