//! Windows, witnesses and the decisions of the witness server.

use spendability_pir::chain_ingest::proto::{
    ChainMetadata, CompactBlock, CompactOrchardAction, CompactTx, SubtreeRoot,
};
use spendability_pir::chain_ingest::ranges::min_sync_height;
use spendability_pir::pir_types::{PirEngine, ServerPhase, NU5_MAINNET_ACTIVATION};
use spendability_pir::query::QueryReply;
use spendability_pir::witness::commitment_ingest::{
    extract_commitments_and_decryption, extract_decryption_leaves,
};
use spendability_pir::witness::commitment_tree_db::{CommitmentTreeDb, TreeError};
use spendability_pir::witness::decryption_db::DecryptionDb;
use spendability_pir::witness::decryption_types::DecryptionLeaf;
use spendability_pir::witness::sinsemilla::{hash_combine, is_valid_node};
use spendability_pir::witness::witness_client::reconstruct::reconstruct_witness;
use spendability_pir::witness::witness_client::{query_row, WitnessClientError};
use spendability_pir::witness::witness_server::pir_stub::StubPirEngine;
use spendability_pir::witness::witness_server::routes;
use spendability_pir::witness::witness_server::server::{
    apply_event, apply_synced, bootstrap_window, known_tree_size, plan_window, rebuild_pir,
    resume_point, ServerError,
};
use spendability_pir::witness::witness_server::state::{
    scenario, PirState, DEFAULT_WINDOW_SHARD_LIMIT,
};
use spendability_pir::witness::witness_types::{
    decompose_position, physical_row_index, PirWitness, WitnessChainEvent, L0_MAX_SHARDS,
    SHARD_LEAVES, SUBSHARD_ROW_BYTES,
};

fn make_leaf(byte: u8) -> [u8; 32] {
    let mut leaf = [0u8; 32];
    leaf[0] = byte;
    leaf
}

fn root_over(leaf: [u8; 32], witness: &PirWitness) -> [u8; 32] {
    let mut node = leaf;
    for level in 0..32 {
        node = if (witness.position >> level) & 1 == 0 {
            hash_combine(level as u8, &node, &witness.siblings[level])
        } else {
            hash_combine(level as u8, &witness.siblings[level], &node)
        };
    }
    node
}

#[test]
fn witness_verifies_against_the_tree_root() {
    let mut tree = CommitmentTreeDb::new();
    let leaves: Vec<[u8; 32]> = (1..=7).map(make_leaf).collect();
    tree.append_commitments(100, [1; 32], &leaves);
    let engine = StubPirEngine;
    let live = rebuild_pir(&engine, &mut tree, &scenario(), 100).unwrap();
    let broadcast = routes::broadcast(Some(&live)).unwrap();
    let position = 5u64;
    let row_index = query_row(position, broadcast).unwrap();
    assert_eq!(row_index, 0);
    let row = match routes::query(&engine, Some(&live), &(row_index as u32).to_le_bytes()) {
        QueryReply::Answered(row) => row,
        other => panic!("expected an answer, got {other:?}"),
    };
    let (shard, subshard, leaf) = decompose_position(position);
    let witness = reconstruct_witness(position, shard, subshard, leaf, &row, broadcast).unwrap();
    assert_eq!(witness.position, position);
    assert_eq!(witness.anchor_height, 100);
    assert_eq!(witness.anchor_root, tree.tree_root());
    assert_eq!(witness.siblings[0], leaves[4]);
    assert_eq!(root_over(leaves[5], &witness), tree.tree_root());
}

#[test]
fn witness_of_a_windowed_tree_uses_the_given_roots() {
    let mut tree = CommitmentTreeDb::with_offset(SHARD_LEAVES as u64, vec![make_leaf(9)]);
    tree.append_commitments(100, [1; 32], &[make_leaf(1), make_leaf(2)]);
    let (db, broadcast) = tree.build_pir_db_and_broadcast(100);
    let position = SHARD_LEAVES as u64;
    let (shard, subshard, leaf) = decompose_position(position);
    let witness = reconstruct_witness(
        position,
        shard,
        subshard,
        leaf,
        &db[..SUBSHARD_ROW_BYTES],
        &broadcast,
    )
    .unwrap();
    assert_eq!(witness.siblings[16], make_leaf(9));
    assert_eq!(root_over(make_leaf(1), &witness), tree.tree_root());
}

#[test]
fn witnesses_are_refused_for_bad_input() {
    let mut tree = CommitmentTreeDb::new();
    tree.append_commitments(100, [1; 32], &[make_leaf(1)]);
    let (db, broadcast) = tree.build_pir_db_and_broadcast(100);
    let row = &db[..SUBSHARD_ROW_BYTES];

    let outside = 3 * SHARD_LEAVES as u64;
    let error = query_row(outside, &broadcast).unwrap_err();
    assert_eq!(
        error.message(),
        "position 196608 is outside the server's PIR window (shards 0..1)"
    );
    assert!(matches!(
        reconstruct_witness(outside, 3, 0, 0, row, &broadcast),
        Err(WitnessClientError::PositionOutsideWindow(196608, 0, 1))
    ));

    let error = reconstruct_witness(0, 0, 0, 0, &row[1..], &broadcast).unwrap_err();
    assert_eq!(error.message(), "query failed: malformed row");
    let mut wild = row.to_vec();
    wild[31] = 0xFF;
    let error = reconstruct_witness(0, 0, 0, 0, &wild, &broadcast).unwrap_err();
    assert_eq!(error.message(), "query failed: malformed row");

    let mut lacking = broadcast.clone();
    lacking.subshard_roots[0].roots.pop();
    let error = reconstruct_witness(0, 0, 0, 0, row, &lacking).unwrap_err();
    assert_eq!(error.message(), "invalid params from server: malformed broadcast");
    let mut wild = broadcast.clone();
    wild.cap.shard_roots[0] = [0xFF; 32];
    let error = reconstruct_witness(0, 0, 0, 0, row, &wild).unwrap_err();
    assert_eq!(error.message(), "invalid params from server: malformed broadcast");

    let mut altered = row.to_vec();
    altered[0] = 3;
    let error = reconstruct_witness(0, 0, 0, 0, &altered, &broadcast).unwrap_err();
    assert_eq!(
        error.message(),
        "witness verification failed for position 0: computed root does not match anchor"
    );
    let mut altered = broadcast.clone();
    altered.cap.shard_roots[0] = make_leaf(4);
    assert!(matches!(
        reconstruct_witness(0, 0, 0, 0, row, &altered),
        Err(WitnessClientError::VerificationFailed(0))
    ));
    assert_eq!(
        WitnessClientError::Http("x".to_string()).message(),
        "HTTP error: x"
    );
    assert_eq!(
        WitnessClientError::ServerUnavailable.message(),
        "server unavailable (503)"
    );
}

#[test]
fn nodes_are_canonical_field_elements() {
    assert!(is_valid_node(&[0; 32]));
    let mut below = [0u8; 32];
    below[31] = 0x40;
    below[..16].copy_from_slice(&[
        0x00, 0x00, 0x00, 0x00, 0xed, 0x30, 0x2d, 0x99, 0x1b, 0xf9, 0x4c, 0x09, 0xfc, 0x98, 0x46,
        0x22,
    ]);
    assert!(is_valid_node(&below));
    let mut modulus = below;
    modulus[0] = 1;
    assert!(!is_valid_node(&modulus));
    assert!(!is_valid_node(&[0xFF; 32]));
}

#[test]
fn children_are_not_interchangeable() {
    let (a, b) = (make_leaf(1), make_leaf(2));
    let parent = hash_combine(0, &a, &b);
    assert_ne!(parent, a);
    assert_ne!(parent, b);
    assert_ne!(parent, hash_combine(0, &b, &a));
    assert_ne!(parent, hash_combine(1, &a, &b));
    assert!(is_valid_node(&parent));
}

#[test]
fn appending_again_what_was_rolled_back_restores_the_root() {
    let mut tree = CommitmentTreeDb::default();
    tree.append_commitments(1, [1; 32], &[make_leaf(1)]);
    tree.append_commitments(2, [2; 32], &[make_leaf(3)]);
    let root = tree.tree_root();
    tree.rollback_to(1);
    assert_ne!(tree.tree_root(), root);
    tree.append_commitments(2, [2; 32], &[make_leaf(3)]);
    assert_eq!(tree.tree_root(), root);
}

fn subtree_root(byte: u8, height: u64) -> SubtreeRoot {
    SubtreeRoot {
        root_hash: vec![byte; 32],
        completing_block_hash: vec![],
        completing_block_height: height,
    }
}

fn completing_block(tags: &[u8], size: u32) -> CompactBlock {
    CompactBlock {
        height: 1000,
        hash: vec![5; 32],
        prev_hash: vec![4; 32],
        vtx: vec![CompactTx {
            actions: tags
                .iter()
                .map(|tag| CompactOrchardAction {
                    nullifier: vec![*tag; 32],
                    cmx: make_leaf(*tag).to_vec(),
                    ephemeral_key: vec![*tag; 32],
                    ciphertext: vec![*tag; 52],
                })
                .collect(),
            ..Default::default()
        }],
        chain_metadata: Some(ChainMetadata {
            sapling_commitment_tree_size: 0,
            orchard_commitment_tree_size: size,
        }),
        ..Default::default()
    }
}

#[test]
fn window_starts_31_completed_shards_back() {
    let few: Vec<SubtreeRoot> = (0..31).map(|i| subtree_root(i, 100 + i as u64)).collect();
    assert!(plan_window(&few, DEFAULT_WINDOW_SHARD_LIMIT).is_none());
    let many: Vec<SubtreeRoot> = (0..40).map(|i| subtree_root(i, 100 + i as u64)).collect();
    let plan = plan_window(&many, DEFAULT_WINDOW_SHARD_LIMIT).unwrap();
    assert_eq!(plan.leaf_offset, 9 * SHARD_LEAVES as u64);
    assert_eq!(plan.prefetched.len(), 9);
    assert_eq!(plan.prefetched[8], [8; 32]);
    assert_eq!(plan.completing_block_height, 108);

    let missing = match bootstrap_window(plan_window(&many, DEFAULT_WINDOW_SHARD_LIMIT).unwrap(), None) {
        Err(error) => error,
        Ok(_) => panic!("expected an error"),
    };
    assert_eq!(
        missing.message(),
        "lightwalletd returned no block at height 108 while bootstrapping windowed sync"
    );

    let offset = plan.leaf_offset;
    let block = completing_block(&[1, 2, 3], offset as u32 + 2);
    let (tree, sync_from, size) = bootstrap_window(plan, Some(&block)).unwrap();
    assert_eq!(tree.leaves(), &[make_leaf(2), make_leaf(3)]);
    assert_eq!(tree.latest_height(), Some(108));
    assert_eq!(tree.latest_block_hash(), Some([5; 32]));
    assert_eq!(sync_from, 109);
    assert_eq!(size, Some(offset as u32 + 2));
}

#[test]
fn window_without_spillover_has_no_block() {
    let many: Vec<SubtreeRoot> = (0..32).map(|i| subtree_root(i, 100 + i as u64)).collect();
    let plan = plan_window(&many, DEFAULT_WINDOW_SHARD_LIMIT).unwrap();
    let offset = plan.leaf_offset;
    let block = completing_block(&[1, 2], offset as u32);
    let (tree, sync_from, size) = bootstrap_window(plan, Some(&block)).unwrap();
    assert!(tree.leaves().is_empty());
    assert!(tree.blocks().is_empty());
    assert_eq!(sync_from, 101);
    assert_eq!(size, Some(SHARD_LEAVES as u32));
}

fn new_block(height: u64, tag: u8, prior_tree_size: Option<u32>) -> WitnessChainEvent {
    WitnessChainEvent::NewBlock {
        height,
        hash: [tag; 32],
        prev_hash: [0; 32],
        commitments: vec![make_leaf(tag)],
        prior_tree_size,
    }
}

#[test]
fn events_move_the_tree_and_drift_is_refused() {
    let mut tree = CommitmentTreeDb::new();
    assert_eq!(known_tree_size(&tree), None);
    assert_eq!(resume_point(&tree), (0, None));
    let phase = apply_synced(&mut tree, &new_block(1000, 1, None), 2000).unwrap();
    assert_eq!(
        phase,
        Some(ServerPhase::Syncing { current_height: 1000, target_height: 2000 })
    );
    assert_eq!(apply_synced(&mut tree, &new_block(1001, 2, Some(1)), 2000).unwrap(), None);
    assert_eq!(resume_point(&tree), (1002, Some(2)));
    let error = apply_synced(&mut tree, &new_block(1002, 3, Some(7)), 2000).unwrap_err();
    assert_eq!(
        error.message(),
        "initial sync tree size mismatch before appending block 1002: expected 7, got 2"
    );
    assert_eq!(tree.tree_size(), 2);
    let reorg = WitnessChainEvent::Reorg { rollback_to: 1000 };
    assert_eq!(apply_synced(&mut tree, &reorg, 2000).unwrap(), None);
    assert_eq!(tree.tree_size(), 2);
    assert!(apply_event(&mut tree, &new_block(1002, 3, Some(2))).unwrap());
    assert!(!apply_event(&mut tree, &reorg).unwrap());
    assert_eq!(tree.tree_size(), 1);
    match apply_event(&mut tree, &new_block(1001, 4, Some(9))) {
        Err(ServerError::TreeSizeMismatch { context, .. }) => assert_eq!(context, "follow mode"),
        other => panic!("expected a mismatch, got {other:?}"),
    }
}

#[test]
fn sync_never_starts_below_orchard() {
    assert_eq!(min_sync_height(NU5_MAINNET_ACTIVATION), NU5_MAINNET_ACTIVATION);
    assert_eq!(min_sync_height(NU5_MAINNET_ACTIVATION - 1), 1);
}

#[test]
fn served_tree_reports_its_window() {
    let mut tree = CommitmentTreeDb::new();
    tree.append_commitments(100, [1; 32], &[make_leaf(1)]);
    let engine = StubPirEngine;
    let live = rebuild_pir(&engine, &mut tree, &scenario(), 100).unwrap();
    let metadata = routes::metadata(Some(&live)).unwrap();
    assert_eq!(metadata.anchor_height, 100);
    assert_eq!(metadata.tree_size, 1);
    assert_eq!(metadata.window_start_shard, 0);
    assert_eq!(metadata.window_shard_count, 1);
    assert_eq!(metadata.populated_shards, 1);
    let none: Option<&PirState<StubPirEngine>> = None;
    assert!(routes::metadata(none).is_none());
    assert!(routes::broadcast(none).is_none());
    match routes::query(&engine, Some(&live), &8192u32.to_le_bytes()) {
        QueryReply::Failed(reason) => {
            assert_eq!(reason, "row index 8192 out of range (max 8192)");
        }
        other => panic!("expected a failure, got {other:?}"),
    }
    let error = engine.answer_query(&live.engine_state, &[]).unwrap_err();
    assert_eq!(
        StubPirEngine::error_text(&error),
        "invalid query: expected 4 bytes, got 0"
    );
}

#[test]
fn decryption_leaves_pair_with_commitments() {
    let mut block = completing_block(&[1, 2, 3], 3);
    block.vtx[0].actions[1].cmx = vec![0; 31];
    block.vtx[0].actions[2].ciphertext = vec![7; 60];
    block.vtx[0].actions[2].nullifier = vec![8; 3];
    let (commitments, leaves) = extract_commitments_and_decryption(&block);
    assert_eq!(commitments, vec![make_leaf(1), make_leaf(3)]);
    assert_eq!(leaves.len(), 2);
    assert_eq!(leaves[0].nf, [1; 32]);
    assert_eq!(leaves[0].ephemeral_key, [1; 32]);
    assert_eq!(leaves[1].ciphertext, [7; 52]);
    assert_eq!(leaves[1].nf[..4], [8, 8, 8, 0]);
    assert_eq!(extract_decryption_leaves(&block), leaves);
}

#[test]
fn tree_snapshot_errors_are_told_apart() {
    let short = CommitmentTreeDb::from_snapshot(&[0; 3]).err().unwrap();
    assert_eq!(short.message(), "snapshot corrupted: data too short");
    let mut snapshot = CommitmentTreeDb::new().to_snapshot();
    snapshot[9] ^= 1;
    let altered = CommitmentTreeDb::from_snapshot(&snapshot).err().unwrap();
    assert_eq!(altered.message(), "snapshot corrupted: checksum mismatch");
    let range = TreeError::ShardOutOfRange { shard_idx: 4, populated: 2 };
    assert_eq!(range.message(), "shard index 4 out of range (populated: 2)");
}

#[test]
fn decryption_default_is_empty() {
    let db = DecryptionDb::default();
    assert_eq!(db.tree_size(), 0);
    assert_eq!(db.leaf_offset(), 0);
    let error = DecryptionDb::from_snapshot(&[0; 15]).err().unwrap();
    assert_eq!(error.message(), "snapshot corrupted: data too short");
}

#[test]
fn window_slides_over_the_newest_shards() {
    let mut tree = CommitmentTreeDb::new();
    tree.append_commitments(1, [1; 32], &vec![make_leaf(7); 32 * SHARD_LEAVES]);
    assert_eq!(tree.window_start_shard(), 0);
    assert_eq!(tree.window_shard_count(), 32);
    tree.append_commitments(2, [2; 32], &[make_leaf(8)]);
    assert_eq!(tree.local_shard_count(), 33);
    assert_eq!(tree.populated_shards(), 33);
    assert_eq!(tree.window_start_shard(), 1);
    assert_eq!(tree.window_shard_count(), 32);
    tree.rollback_to(1);
    assert_eq!(tree.window_start_shard(), 0);
}

#[test]
fn decryption_window_slides_with_the_tree() {
    let leaf = DecryptionLeaf { nf: [1; 32], ephemeral_key: [2; 32], ciphertext: [3; 52] };
    let newest = DecryptionLeaf { nf: [4; 32], ephemeral_key: [5; 32], ciphertext: [6; 52] };
    let mut db = DecryptionDb::with_offset(SHARD_LEAVES as u64);
    db.append_leaves(1, [1; 32], &vec![leaf; 32 * SHARD_LEAVES]);
    assert_eq!(db.window_start_shard(), 1);
    db.append_leaves(2, [2; 32], &[newest]);
    assert_eq!(db.window_start_shard(), 2);
    assert_eq!(db.window_shard_count(), 32);
    let rows = db.build_pir_db();
    let at = 31 * SHARD_LEAVES * DecryptionLeaf::BYTES;
    assert_eq!(rows[at..at + DecryptionLeaf::BYTES], newest.to_bytes());
    assert_eq!(rows[..DecryptionLeaf::BYTES], leaf.to_bytes());
}

#[test]
fn completed_parts_of_the_tree_are_immutable() {
    let mut tree = CommitmentTreeDb::with_offset(SHARD_LEAVES as u64, vec![make_leaf(9)]);
    tree.append_commitments(1, [1; 32], &vec![make_leaf(7); 256]);
    let row = tree.subshard_leaves(1, 0);
    let root = tree.subshard_roots(1)[0];
    tree.append_commitments(2, [2; 32], &[make_leaf(8), make_leaf(6)]);
    assert_eq!(tree.subshard_leaves(1, 0), row);
    let roots = tree.subshard_roots(1);
    assert_eq!(roots[0], root);
    assert_ne!(roots[1], root);
    assert_eq!(tree.shard_roots()[0], (0, make_leaf(9)));
}

#[test]
fn different_subshards_have_different_rows() {
    assert_eq!(physical_row_index(730, 0, 730), 0);
    assert_eq!(physical_row_index(730, 255, 730), 255);
    assert_eq!(physical_row_index(731, 0, 730), 256);
    assert_eq!(decompose_position(0x2FA_64_2A), (0x2FA, 0x64, 0x2A));
}

#[test]
fn window_can_be_limited_further() {
    let roots: Vec<SubtreeRoot> = (0..5).map(|i| subtree_root(i, 100 + i as u64)).collect();
    let plan = plan_window(&roots, 2).unwrap();
    assert_eq!(plan.leaf_offset, 4 * SHARD_LEAVES as u64);
    assert_eq!(plan.completing_block_height, 103);
    assert!(plan_window(&roots[..1].to_vec(), 2).is_none());
    assert_eq!(DEFAULT_WINDOW_SHARD_LIMIT, L0_MAX_SHARDS);
}
