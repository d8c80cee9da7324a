//! Note commitments of compact blocks.

use spendability_pir::bytes::to_hash_array;
use spendability_pir::chain_ingest::proto::{
    ChainMetadata, CompactBlock, CompactOrchardAction, CompactSaplingOutput, CompactTx,
};
use spendability_pir::witness::commitment_ingest::{
    extract_block_commitments, extract_commitments, orchard_tree_size,
};

fn make_action(cmx_byte: u8, nf_byte: u8) -> CompactOrchardAction {
    CompactOrchardAction {
        nullifier: vec![nf_byte; 32],
        cmx: vec![cmx_byte; 32],
        ephemeral_key: vec![0; 32],
        ciphertext: vec![0; 52],
    }
}

fn make_sapling_output(cmu_byte: u8) -> CompactSaplingOutput {
    CompactSaplingOutput {
        cmu: vec![cmu_byte; 32],
        ephemeral_key: vec![0; 32],
        ciphertext: vec![0; 52],
    }
}

#[test]
fn extract_basic_commitments() {
    let block = CompactBlock {
        height: 100,
        hash: vec![1; 32],
        prev_hash: vec![0; 32],
        vtx: vec![CompactTx {
            actions: vec![make_action(0xAA, 0x11), make_action(0xBB, 0x22)],
            ..Default::default()
        }],
        ..Default::default()
    };

    let cmxs = extract_commitments(&block);
    assert_eq!(cmxs.len(), 2);
    assert_eq!(cmxs[0], [0xAA; 32]);
    assert_eq!(cmxs[1], [0xBB; 32]);
}

#[test]
fn extract_empty_block() {
    let block = CompactBlock {
        height: 100,
        vtx: vec![],
        ..Default::default()
    };

    let cmxs = extract_commitments(&block);
    assert!(cmxs.is_empty());
}

#[test]
fn extract_ignores_sapling() {
    let block = CompactBlock {
        height: 100,
        vtx: vec![CompactTx {
            outputs: vec![make_sapling_output(0xCC)],
            actions: vec![make_action(0xDD, 0x33)],
            ..Default::default()
        }],
        ..Default::default()
    };

    let cmxs = extract_commitments(&block);
    assert_eq!(cmxs.len(), 1, "should only extract Orchard cmx");
    assert_eq!(cmxs[0], [0xDD; 32]);
}

#[test]
fn extract_multiple_transactions() {
    let block = CompactBlock {
        height: 100,
        vtx: vec![
            CompactTx {
                actions: vec![make_action(0x01, 0xA1)],
                ..Default::default()
            },
            CompactTx {
                actions: vec![make_action(0x02, 0xA2), make_action(0x03, 0xA3)],
                ..Default::default()
            },
        ],
        ..Default::default()
    };

    let cmxs = extract_commitments(&block);
    assert_eq!(cmxs.len(), 3);
    assert_eq!(cmxs[0], [0x01; 32]);
    assert_eq!(cmxs[1], [0x02; 32]);
    assert_eq!(cmxs[2], [0x03; 32]);
}

#[test]
fn extract_ignores_short_cmx() {
    let block = CompactBlock {
        height: 100,
        vtx: vec![CompactTx {
            actions: vec![CompactOrchardAction {
                nullifier: vec![0; 32],
                cmx: vec![0xFF; 16], // too short
                ephemeral_key: vec![0; 32],
                ciphertext: vec![0; 52],
            }],
            ..Default::default()
        }],
        ..Default::default()
    };

    let cmxs = extract_commitments(&block);
    assert!(cmxs.is_empty());
}

#[test]
fn extract_block_commitments_with_metadata() {
    let block = CompactBlock {
        height: 200,
        hash: vec![0xAA; 32],
        prev_hash: vec![0xBB; 32],
        vtx: vec![CompactTx {
            actions: vec![make_action(0xCC, 0x44)],
            ..Default::default()
        }],
        chain_metadata: Some(ChainMetadata {
            sapling_commitment_tree_size: 0,
            orchard_commitment_tree_size: 1000,
        }),
        ..Default::default()
    };

    let bc = extract_block_commitments(&block, Some(999));
    assert_eq!(bc.height, 200);
    assert_eq!(bc.hash, [0xAA; 32]);
    assert_eq!(bc.prev_hash, [0xBB; 32]);
    assert_eq!(bc.commitments.len(), 1);
    assert_eq!(bc.prior_tree_size, Some(999));
}

#[test]
fn orchard_tree_size_present() {
    let block = CompactBlock {
        chain_metadata: Some(ChainMetadata {
            sapling_commitment_tree_size: 0,
            orchard_commitment_tree_size: 5000,
        }),
        ..Default::default()
    };
    assert_eq!(orchard_tree_size(&block), Some(5000));
}

#[test]
fn orchard_tree_size_absent() {
    let block = CompactBlock {
        chain_metadata: None,
        ..Default::default()
    };
    assert_eq!(orchard_tree_size(&block), None);
}

#[test]
fn orchard_tree_size_zero_treated_as_absent() {
    let block = CompactBlock {
        chain_metadata: Some(ChainMetadata {
            sapling_commitment_tree_size: 0,
            orchard_commitment_tree_size: 0,
        }),
        ..Default::default()
    };
    assert_eq!(orchard_tree_size(&block), None);
}

#[test]
fn commitment_ordering_matches_action_order() {
    let block = CompactBlock {
        height: 100,
        vtx: vec![
            CompactTx {
                actions: vec![make_action(0x01, 0xA1), make_action(0x02, 0xA2)],
                ..Default::default()
            },
            CompactTx {
                actions: vec![make_action(0x03, 0xA3)],
                ..Default::default()
            },
        ],
        ..Default::default()
    };

    let cmxs = extract_commitments(&block);
    assert_eq!(cmxs[0], [0x01; 32]);
    assert_eq!(cmxs[1], [0x02; 32]);
    assert_eq!(cmxs[2], [0x03; 32]);
}

#[test]
fn to_hash_array_pads_short() {
    let short = vec![1u8, 2, 3];
    let result = to_hash_array(&short);
    assert_eq!(result[0], 1);
    assert_eq!(result[1], 2);
    assert_eq!(result[2], 3);
    assert_eq!(result[3..], [0u8; 29]);
}

#[test]
fn to_hash_array_truncates_long() {
    let long = vec![0xFFu8; 64];
    let result = to_hash_array(&long);
    assert_eq!(result, [0xFF; 32]);
}

#[test]
fn to_hash_array_exact() {
    let exact = vec![42u8; 32];
    let result = to_hash_array(&exact);
    assert_eq!(result, [42u8; 32]);
}
