//! The witness server: stub engine, window bootstrap and drift detection.

use spendability_pir::chain_ingest::proto::{
    ChainMetadata, CompactBlock, CompactOrchardAction, CompactTx,
};
use spendability_pir::pir_types::{PirEngine, YpirScenario};
use spendability_pir::witness::commitment_ingest::extract_commitments;
use spendability_pir::witness::commitment_tree_db::CommitmentTreeDb;
use spendability_pir::witness::sinsemilla::{hash_combine, precompute_empty_roots};
use spendability_pir::witness::witness_server::pir_stub::StubPirEngine;
use spendability_pir::witness::witness_server::server::{
    completing_block_spillover, spillover_from_commitments, validate_prior_tree_size, ServerError,
};
use spendability_pir::witness::witness_types::{
    L0_DB_BYTES, L0_DB_ROWS, SHARD_LEAVES, SUBSHARD_ROW_BYTES,
};

#[test]
fn stub_setup_and_query() {
    let engine = StubPirEngine;
    let scenario = YpirScenario {
        num_items: L0_DB_ROWS as u64,
        item_size_bits: (SUBSHARD_ROW_BYTES * 8) as u64,
    };

    let mut db = vec![0u8; L0_DB_BYTES];
    // Write a known pattern into row 0
    db[..32].fill(0xAB);

    let state = engine.setup(&db, &scenario).unwrap();

    let query = 0u32.to_le_bytes();
    let result = engine.answer_query(&state, &query).unwrap();
    assert_eq!(result.len(), SUBSHARD_ROW_BYTES);
    assert_eq!(&result[..32], &[0xAB; 32]);
}

#[test]
fn stub_invalid_query() {
    let engine = StubPirEngine;
    let scenario = YpirScenario {
        num_items: L0_DB_ROWS as u64,
        item_size_bits: (SUBSHARD_ROW_BYTES * 8) as u64,
    };
    let db = vec![0u8; L0_DB_BYTES];
    let state = engine.setup(&db, &scenario).unwrap();
    assert!(engine.answer_query(&state, &[0, 1]).is_err());
}

#[test]
fn stub_out_of_range() {
    let engine = StubPirEngine;
    let scenario = YpirScenario {
        num_items: L0_DB_ROWS as u64,
        item_size_bits: (SUBSHARD_ROW_BYTES * 8) as u64,
    };
    let db = vec![0u8; L0_DB_BYTES];
    let state = engine.setup(&db, &scenario).unwrap();
    let idx = (L0_DB_ROWS as u32).to_le_bytes();
    assert!(engine.answer_query(&state, &idx).is_err());
}

fn make_leaf(tag: u64) -> [u8; 32] {
    let mut hash = [0u8; 32];
    hash[..8].copy_from_slice(&tag.to_le_bytes());
    hash
}

fn make_action(tag: u64) -> CompactOrchardAction {
    CompactOrchardAction {
        nullifier: vec![0; 32],
        cmx: make_leaf(tag).to_vec(),
        ephemeral_key: vec![0; 32],
        ciphertext: vec![0; 52],
    }
}

fn make_block(height: u64, tags: &[u64], tree_size: u64) -> CompactBlock {
    CompactBlock {
        height,
        hash: vec![height as u8; 32],
        prev_hash: vec![height.saturating_sub(1) as u8; 32],
        vtx: vec![CompactTx {
            actions: tags.iter().copied().map(make_action).collect(),
            ..Default::default()
        }],
        chain_metadata: Some(ChainMetadata {
            sapling_commitment_tree_size: 0,
            orchard_commitment_tree_size: tree_size as u32,
        }),
        ..Default::default()
    }
}

#[test]
fn spillover_slice_keeps_only_commitments_past_offset() {
    let commitments = vec![make_leaf(1), make_leaf(2), make_leaf(3), make_leaf(4)];

    let spillover = spillover_from_commitments(&commitments, 6, 4);

    assert_eq!(spillover, vec![make_leaf(3), make_leaf(4)]);
}

#[test]
fn completing_block_spillover_keeps_leaf_order() {
    let spillover_count = 3usize;
    let next_block_count = 2usize;
    let first_block_tags: Vec<u64> = (0..(SHARD_LEAVES + spillover_count))
        .map(|i| i as u64 + 1)
        .collect();
    let second_block_tags: Vec<u64> = (0..next_block_count)
        .map(|i| SHARD_LEAVES as u64 + spillover_count as u64 + i as u64 + 1)
        .collect();

    let completing_block = make_block(
        100,
        &first_block_tags,
        SHARD_LEAVES as u64 + spillover_count as u64,
    );
    let next_block = make_block(
        101,
        &second_block_tags,
        SHARD_LEAVES as u64 + spillover_count as u64 + next_block_count as u64,
    );

    let spillover = completing_block_spillover(&completing_block, SHARD_LEAVES as u64);
    let expected_spillover: Vec<_> = first_block_tags
        .iter()
        .skip(SHARD_LEAVES)
        .copied()
        .map(make_leaf)
        .collect();
    assert_eq!(spillover, expected_spillover);

    let second_block_commitments = extract_commitments(&next_block);

    let mut reference_tree = CommitmentTreeDb::new();
    reference_tree.append_commitments(
        completing_block.height,
        [0x11; 32],
        &extract_commitments(&completing_block),
    );
    reference_tree.append_commitments(next_block.height, [0x22; 32], &second_block_commitments);

    let mut windowed_tree =
        CommitmentTreeDb::with_offset(SHARD_LEAVES as u64, vec![[0u8; 32]]);
    windowed_tree.append_commitments(completing_block.height, [0x11; 32], &spillover);
    windowed_tree.append_commitments(next_block.height, [0x22; 32], &second_block_commitments);

    assert_eq!(
        windowed_tree.leaves(),
        &reference_tree.leaves()[SHARD_LEAVES..],
        "window bootstrap should preserve leaf ordering across the shard boundary"
    );
}

/// Root of the subtree of the given height over the first nodes of `level`,
/// with empty subtrees behind them.
fn root_of(nodes: &[[u8; 32]], level: u8, height: u8) -> [u8; 32] {
    let empty = precompute_empty_roots();
    let mut row = nodes.to_vec();
    for l in level..level + height {
        if row.len() % 2 == 1 {
            row.push(empty[l as usize]);
        }
        row = row
            .chunks(2)
            .map(|pair| hash_combine(l, &pair[0], &pair[1]))
            .collect();
    }
    row[0]
}

#[test]
fn completing_block_spillover_has_the_root_of_the_whole_chain() {
    let spilled: Vec<[u8; 32]> = [11, 12, 13].map(make_leaf).to_vec();
    let behind: Vec<[u8; 32]> = [14, 15].map(make_leaf).to_vec();
    let mut tags = vec![7u64; SHARD_LEAVES];
    tags.extend_from_slice(&[11, 12, 13]);
    let completing_block = make_block(100, &tags, SHARD_LEAVES as u64 + 3);

    // All leaves of the first shard are the same, so that each of its levels
    // takes a single hash.
    let mut first_shard = make_leaf(7);
    for level in 0..16 {
        first_shard = hash_combine(level, &first_shard, &first_shard);
    }
    let second_shard = root_of(&[spilled.clone(), behind.clone()].concat(), 0, 16);
    let whole = root_of(&[first_shard, second_shard], 16, 16);

    let spillover = completing_block_spillover(&completing_block, SHARD_LEAVES as u64);
    assert_eq!(spillover, spilled);
    let mut windowed_tree = CommitmentTreeDb::with_offset(SHARD_LEAVES as u64, vec![first_shard]);
    windowed_tree.append_commitments(100, [0x11; 32], &spillover);
    windowed_tree.append_commitments(101, [0x22; 32], &behind);
    assert_eq!(
        windowed_tree.shard_roots(),
        vec![(0, first_shard), (1, second_shard)]
    );
    assert_eq!(windowed_tree.tree_root(), whole);
}

#[test]
fn validate_prior_tree_size_rejects_drift() {
    let mut tree = CommitmentTreeDb::new();
    tree.append_commitments(100, [1u8; 32], &[make_leaf(1), make_leaf(2)]);

    let err = validate_prior_tree_size(&tree, 101, Some(1), "test").unwrap_err();

    match err {
        ServerError::TreeSizeMismatch {
            context,
            height,
            expected,
            actual,
        } => {
            assert_eq!(context, "test");
            assert_eq!(height, 101);
            assert_eq!(expected, 1);
            assert_eq!(actual, 2);
        }
        other => panic!("expected TreeSizeMismatch, got {other:?}"),
    }
}
