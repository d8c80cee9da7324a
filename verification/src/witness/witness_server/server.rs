//! The decisions of the server: where to start the window, which leaves of the
//! block at its edge belong to it, and what chain events do to the tree.

use super::state::{metadata_for, metadata_of, PirState};
use crate::bytes::{hash_from, padded, to_hash_array};
use crate::chain_ingest::proto::{CompactBlock, SubtreeRoot};
use crate::pir_types::{PirEngine, ServerPhase, YpirScenario};
use crate::text::{decimal, push_decimal};
use crate::witness::commitment_ingest::ingest::IngestError;
use crate::witness::commitment_ingest::parser::{block_commitments, extract_commitments};
use crate::witness::commitment_tree_db::{total_commitments, CommitmentTreeDb, TreeState};
use crate::witness::tree_laws::law_window_root_equals_full_root;
use crate::witness::witness_types::{BroadcastData, WitnessChainEvent, SHARD_LEAVES};
use vstd::prelude::*;
use vstd::string::StringExecFns;

verus! {

/// The protocol number by which subtree roots of Orchard are asked for.
pub const ORCHARD_PROTOCOL: i32 = 1;

/// What can go wrong in the server.
#[derive(Debug)]
pub enum ServerError {
    Ingest(IngestError),
    SnapshotIo(String),
    PirSetup(String),
    Io(String),
    Client(String),
    MissingCompletingBlock { height: u64 },
    TreeSizeMismatch { context: &'static str, height: u64, expected: u64, actual: u64 },
}

impl ServerError {
    /// The text of the error.
    pub open spec fn text(self) -> Seq<char> {
        match self {
            ServerError::Ingest(error) => "ingest error: "@ + error.text(),
            ServerError::SnapshotIo(reason) => "snapshot io error: "@ + reason@,
            ServerError::PirSetup(reason) => "pir setup failed: "@ + reason@,
            ServerError::Io(reason) => "io error: "@ + reason@,
            ServerError::Client(reason) => "chain client error: "@ + reason@,
            ServerError::MissingCompletingBlock {
                height,
            } => "lightwalletd returned no block at height "@ + decimal(height as int)
                + " while bootstrapping windowed sync"@,
            ServerError::TreeSizeMismatch { context, height, expected, actual } => context@
                + " tree size mismatch before appending block "@ + decimal(height as int)
                + ": expected "@ + decimal(expected as int) + ", got "@ + decimal(actual as int),
        }
    }

    /// The text of the error.
    pub fn message(&self) -> (message: String)
        ensures
            message@ == self.text(),
    {
        match self {
            ServerError::Ingest(error) => {
                let mut message = String::from_str("ingest error: ");
                message.append(error.message().as_str());
                message
            },
            ServerError::SnapshotIo(reason) => {
                let mut message = String::from_str("snapshot io error: ");
                message.append(reason.as_str());
                message
            },
            ServerError::PirSetup(reason) => {
                let mut message = String::from_str("pir setup failed: ");
                message.append(reason.as_str());
                message
            },
            ServerError::Io(reason) => {
                let mut message = String::from_str("io error: ");
                message.append(reason.as_str());
                message
            },
            ServerError::Client(reason) => {
                let mut message = String::from_str("chain client error: ");
                message.append(reason.as_str());
                message
            },
            ServerError::MissingCompletingBlock { height } => {
                let mut message = String::from_str("lightwalletd returned no block at height ");
                push_decimal(&mut message, *height as u128);
                message.append(" while bootstrapping windowed sync");
                message
            },
            ServerError::TreeSizeMismatch { context, height, expected, actual } => {
                let mut message = String::from_str(context);
                message.append(" tree size mismatch before appending block ");
                push_decimal(&mut message, *height as u128);
                message.append(": expected ");
                push_decimal(&mut message, *expected as u128);
                message.append(", got ");
                push_decimal(&mut message, *actual as u128);
                message
            },
        }
    }
}

/// What the server serves after a rebuild, given what the engine made of the
/// database.
pub fn finish_rebuild<P: PirEngine>(
    setup: Result<P::ServerState, String>,
    broadcast: BroadcastData,
    tree: &CommitmentTreeDb,
    anchor_height: u64,
) -> (state: Result<PirState<P>, ServerError>)
    requires
        tree.shaped(),
    ensures
        match setup {
            Ok(engine_state) => state == Ok::<PirState<P>, ServerError>(
                PirState { engine_state, broadcast, metadata: metadata_for(tree@, anchor_height) },
            ),
            Err(reason) => state == Err::<PirState<P>, ServerError>(ServerError::PirSetup(reason)),
        },
{
    match setup {
        Ok(engine_state) => Ok(
            PirState { engine_state, broadcast, metadata: metadata_of(tree, anchor_height) },
        ),
        Err(reason) => Err(ServerError::PirSetup(reason)),
    }
}

/// Builds what is served from a tree: the engine sets up on the PIR database,
/// and the broadcast payload goes with it. The tree's cache is filled.
pub fn rebuild_pir<P: PirEngine>(
    engine: &P,
    tree: &mut CommitmentTreeDb,
    scenario: &YpirScenario,
    anchor_height: u64,
) -> (state: Result<PirState<P>, ServerError>)
    requires
        old(tree).shaped(),
        old(tree)@.in_capacity(),
        old(tree)@.leaves_hashable(),
    ensures
        final(tree).shaped(),
        old(tree).wf() ==> final(tree).wf(),
        old(tree)@.cache_filled(final(tree)@),
        exists|bytes: &[u8], setup: Result<P::ServerState, P::Error>|
            {
                &&& bytes@ == old(tree)@.pir_db()
                &&& #[trigger] call_ensures(P::setup, (engine, bytes, scenario), setup)
                &&& match setup {
                    Ok(engine_state) => state matches Ok(state) && state.engine_state
                        == engine_state && old(tree)@.publishes(state.broadcast, anchor_height)
                        && (old(tree).wf() ==> old(tree)@.broadcasts(
                        state.broadcast,
                        anchor_height,
                    ))
                        && state.metadata == metadata_for(old(tree)@, anchor_height),
                    Err(error) => state matches Err(ServerError::PirSetup(reason)) && call_ensures(
                        P::error_text,
                        (&error,),
                        reason,
                    ),
                }
            },
{
    let (db_bytes, broadcast) = tree.build_pir_db_and_broadcast(anchor_height);
    match engine.setup(db_bytes.as_slice(), scenario) {
        Ok(engine_state) => finish_rebuild::<P>(Ok(engine_state), broadcast, tree, anchor_height),
        Err(error) => finish_rebuild::<P>(
            Err(P::error_text(&error)),
            broadcast,
            tree,
            anchor_height,
        ),
    }
}

/// Where a windowed sync starts.
#[derive(Debug)]
pub struct WindowPlan {
    /// Position of the first leaf of the window.
    pub leaf_offset: u64,
    /// Roots of the shards before the window.
    pub prefetched: Vec<[u8; 32]>,
    /// Height of the block that completed the last of them.
    pub completing_block_height: u64,
}

/// The shards before the window, when so many are complete: all but the last
/// ones that, with the frontier, make up the window.
pub open spec fn shards_before_window(completed: int, window_shard_limit: int) -> int {
    completed - (window_shard_limit - 1)
}

/// Plans a windowed sync from the roots of the completed shards, if they and
/// the frontier exceed the limit.
pub fn plan_window(subtree_roots: &Vec<SubtreeRoot>, window_shard_limit: usize) -> (plan: Option<
    WindowPlan,
>)
    requires
        subtree_roots@.len() <= u32::MAX,
        0 < window_shard_limit,
    ensures
        match plan {
            None => subtree_roots@.len() < window_shard_limit,
            Some(plan) => {
                let before = shards_before_window(
                    subtree_roots@.len() as int,
                    window_shard_limit as int,
                );
                &&& subtree_roots@.len() >= window_shard_limit
                &&& plan.leaf_offset == before * SHARD_LEAVES
                &&& plan.prefetched@.len() == before
                &&& forall|i: int|
                    0 <= i < before ==> (#[trigger] plan.prefetched@[i])@ == padded(
                        subtree_roots@[i].root_hash@,
                    )
                &&& plan.completing_block_height == subtree_roots@[before
                    - 1].completing_block_height
            },
        },
{
    let completed: usize = subtree_roots.len();
    if completed < window_shard_limit {
        return None;
    }
    let window_start: usize = completed - (window_shard_limit - 1);
    let mut prefetched: Vec<[u8; 32]> = Vec::with_capacity(window_start);
    let mut i: usize = 0;
    while i < window_start
        invariant
            i <= window_start <= subtree_roots@.len(),
            prefetched@.len() == i,
            forall|k: int|
                0 <= k < i ==> (#[trigger] prefetched@[k])@ == padded(
                    subtree_roots@[k].root_hash@,
                ),
        decreases window_start - i,
    {
        prefetched.push(to_hash_array(subtree_roots[i].root_hash.as_slice()));
        i += 1;
    }
    Some(
        WindowPlan {
            leaf_offset: window_start as u64 * 65_536,
            prefetched,
            completing_block_height: subtree_roots[window_start - 1].completing_block_height,
        },
    )
}

/// The commitments at positions from `leaf_offset` on, of a block after which
/// the tree has `end_tree_size` leaves.
pub open spec fn spillover(
    commitments: Seq<[u8; 32]>,
    end_tree_size: u64,
    leaf_offset: u64,
) -> Seq<[u8; 32]> {
    if end_tree_size <= leaf_offset {
        Seq::empty()
    } else if commitments.len() <= end_tree_size - leaf_offset {
        commitments
    } else {
        commitments.skip(commitments.len() - (end_tree_size - leaf_offset))
    }
}

/// Keeps the commitments at positions from `leaf_offset` on.
pub fn spillover_from_commitments(
    commitments: &[[u8; 32]],
    end_tree_size: u64,
    leaf_offset: u64,
) -> (kept: Vec<[u8; 32]>)
    ensures
        kept@ == spillover(commitments@, end_tree_size, leaf_offset),
{
    let mut kept: Vec<[u8; 32]> = Vec::new();
    if end_tree_size <= leaf_offset {
        return kept;
    }
    let count: u64 = end_tree_size - leaf_offset;
    let skip: usize = if commitments.len() as u64 <= count {
        0
    } else {
        commitments.len() - count as usize
    };
    let mut i: usize = skip;
    while i < commitments.len()
        invariant
            skip <= i <= commitments@.len(),
            kept@ == commitments@.subrange(skip as int, i as int),
        decreases commitments@.len() - i,
    {
        kept.push(commitments[i]);
        i += 1;
        assert(kept@ =~= commitments@.subrange(skip as int, i as int));
    }
    assert(kept@ =~= spillover(commitments@, end_tree_size, leaf_offset));
    kept
}

/// The tree size after a block, zero where its metadata is missing.
pub open spec fn end_size(block: CompactBlock) -> u64 {
    match block.chain_metadata {
        Some(metadata) => metadata.orchard_commitment_tree_size as u64,
        None => 0,
    }
}

/// The commitments of the block that completed the last shard before the
/// window that already belong to the window. Without them every later position
/// in the window would be shifted.
pub fn completing_block_spillover(block: &CompactBlock, leaf_offset: u64) -> (kept: Vec<[u8; 32]>)
    ensures
        kept@ == spillover(block_commitments(*block), end_size(*block), leaf_offset),
{
    let all = extract_commitments(block);
    let end_tree_size: u64 = match &block.chain_metadata {
        Some(metadata) => metadata.orchard_commitment_tree_size as u64,
        None => 0,
    };
    spillover_from_commitments(all.as_slice(), end_tree_size, leaf_offset)
}

/// The tree after the bootstrap of a window: the roots before it, and the
/// leaves of the completing block that belong to it.
pub open spec fn bootstrapped(
    leaf_offset: u64,
    prefetched: Seq<[u8; 32]>,
    height: u64,
    block: CompactBlock,
) -> TreeState {
    let tree = TreeState::empty(leaf_offset, prefetched);
    let kept = spillover(block_commitments(block), end_size(block), leaf_offset);
    if kept.len() == 0 {
        tree
    } else {
        tree.appended(height, hash_from(padded(block.hash@)), kept)
    }
}

/// Seeds a windowed tree from a plan and the completing block. Returns the
/// tree, the first height to sync, and the tree size before it.
pub fn bootstrap_window(plan: WindowPlan, completing_block: Option<&CompactBlock>) -> (result:
    Result<(CommitmentTreeDb, u64, Option<u32>), ServerError>)
    requires
        plan.leaf_offset as int % SHARD_LEAVES as int == 0,
        plan.leaf_offset + u32::MAX <= u64::MAX,
        plan.completing_block_height < u64::MAX,
        completing_block matches Some(block) ==> block_commitments(*block).len() <= u32::MAX,
    ensures
        match completing_block {
            None => result == Err::<(CommitmentTreeDb, u64, Option<u32>), ServerError>(
                ServerError::MissingCompletingBlock { height: plan.completing_block_height },
            ),
            Some(block) => {
                let tree = bootstrapped(
                    plan.leaf_offset,
                    plan.prefetched@,
                    plan.completing_block_height,
                    *block,
                );
                result matches Ok((db, sync_from, size)) && db.wf() && db@ == tree && sync_from
                    == plan.completing_block_height + 1 && size == Some(tree.tree_size() as u32)
            },
        },
{
    let height: u64 = plan.completing_block_height;
    let block = match completing_block {
        None => return Err(ServerError::MissingCompletingBlock { height }),
        Some(block) => block,
    };
    let leaf_offset: u64 = plan.leaf_offset;
    let mut tree = CommitmentTreeDb::with_offset(leaf_offset, plan.prefetched);
    let kept = completing_block_spillover(block, leaf_offset);
    if kept.len() > 0 {
        let hash: [u8; 32] = to_hash_array(block.hash.as_slice());
        tree.append_commitments(height, hash, kept.as_slice());
    }
    let size: u32 = tree.tree_size() as u32;
    Ok((tree, height + 1, Some(size)))
}

/// Bootstrapping the window of a chain gives the tree of the chain: with the
/// true roots before the window, the true size after the completing block, and
/// that block's commitments reaching back to the edge, the window has the
/// leaves of the full tree from its offset on and the same root.
pub proof fn law_bootstrap_matches_full_tree(
    full: TreeState,
    leaf_offset: u64,
    prefetched: Seq<[u8; 32]>,
    height: u64,
    block: CompactBlock,
)
    requires
        full.shaped(),
        full.leaf_offset == 0,
        leaf_offset as int % SHARD_LEAVES as int == 0,
        leaf_offset <= full.leaves.len(),
        full.leaves.len() == end_size(block),
        block_commitments(block).len() <= u32::MAX,
        block_commitments(block).len() <= full.leaves.len(),
        full.leaves.len() - leaf_offset <= block_commitments(block).len(),
        block_commitments(block) == full.leaves.skip(
            full.leaves.len() - block_commitments(block).len(),
        ),
        prefetched.len() == leaf_offset as int / SHARD_LEAVES as int,
        forall|i: int|
            0 <= i < prefetched.len() ==> (#[trigger] prefetched[i])@ == full.shard_root(i),
    ensures
        bootstrapped(leaf_offset, prefetched, height, block).valid(),
        bootstrapped(leaf_offset, prefetched, height, block).leaves == full.leaves.skip(
            leaf_offset as int,
        ),
        bootstrapped(leaf_offset, prefetched, height, block).root() == full.root(),
{
    let tree = bootstrapped(leaf_offset, prefetched, height, block);
    assert(tree.leaves =~= full.leaves.skip(leaf_offset as int));
    if tree.blocks.len() > 0 {
        assert(tree.blocks.drop_last() =~= Seq::empty());
        assert(total_commitments(tree.blocks.drop_last()) == 0);
    }
    law_window_root_equals_full_root(full, tree);
}

/// The tree size that is known to the next block: none for an empty tree.
pub open spec fn size_hint(tree: TreeState) -> Option<u32> {
    if tree.tree_size() > 0 {
        Some(tree.tree_size() as u32)
    } else {
        None
    }
}

/// The tree size that is known to the next block.
pub fn known_tree_size(tree: &CommitmentTreeDb) -> (size: Option<u32>)
    requires
        tree.shaped(),
    ensures
        size == size_hint(tree@),
{
    let size: u64 = tree.tree_size();
    if size > 0 {
        Some(size as u32)
    } else {
        None
    }
}

/// Where to go on from a tree that was restored from a snapshot: behind its
/// newest block, or from the start where it has none.
pub fn resume_point(tree: &CommitmentTreeDb) -> (point: (u64, Option<u32>))
    requires
        tree.shaped(),
        tree@.blocks.len() > 0 ==> tree@.blocks.last().height < u64::MAX,
    ensures
        point.0 == (if tree@.blocks.len() == 0 {
            0
        } else {
            tree@.blocks.last().height + 1
        }),
        point.1 == size_hint(tree@),
{
    let height: u64 = match tree.latest_height() {
        Some(height) => height + 1,
        None => 0,
    };
    (height, known_tree_size(tree))
}

/// Whether the tree has as many leaves as the chain says it has before a
/// block.
pub open spec fn size_agrees(tree: TreeState, prior_tree_size: Option<u32>) -> bool {
    match prior_tree_size {
        None => true,
        Some(expected) => tree.tree_size() == expected,
    }
}

/// Whether `result` refuses a block because of the tree size.
pub open spec fn refuses_drift(
    result: Result<(), ServerError>,
    tree: TreeState,
    height: u64,
    prior_tree_size: Option<u32>,
    context: Seq<char>,
) -> bool {
    result matches Err(ServerError::TreeSizeMismatch { context: c, height: h, expected, actual })
        && c@ == context && h == height && prior_tree_size == Some(expected as u32) && expected
        <= u32::MAX && actual == tree.tree_size()
}

/// Checks the tree size before a block is appended.
pub fn validate_prior_tree_size(
    tree: &CommitmentTreeDb,
    height: u64,
    prior_tree_size: Option<u32>,
    context: &'static str,
) -> (result: Result<(), ServerError>)
    requires
        tree.shaped(),
    ensures
        if size_agrees(tree@, prior_tree_size) {
            result == Ok::<(), ServerError>(())
        } else {
            refuses_drift(result, tree@, height, prior_tree_size, context@)
        },
{
    match prior_tree_size {
        None => Ok(()),
        Some(expected) => {
            let actual: u64 = tree.tree_size();
            let expected: u64 = expected as u64;
            if actual == expected {
                Ok(())
            } else {
                Err(ServerError::TreeSizeMismatch { context, height, expected, actual })
            }
        },
    }
}

/// The number of commitments that an event brings.
pub open spec fn event_commitments(event: WitnessChainEvent) -> nat {
    match event {
        WitnessChainEvent::NewBlock { commitments, .. } => commitments@.len(),
        WitnessChainEvent::Reorg { .. } => 0,
    }
}

/// Takes a block into the tree, unless the tree has drifted from the chain.
fn append_block(
    tree: &mut CommitmentTreeDb,
    height: u64,
    hash: [u8; 32],
    commitments: &Vec<[u8; 32]>,
    prior_tree_size: Option<u32>,
    context: &'static str,
) -> (result: Result<(), ServerError>)
    requires
        old(tree).shaped(),
        old(tree)@.tree_size() + commitments@.len() <= u64::MAX,
        commitments@.len() <= u32::MAX,
    ensures
        final(tree).shaped(),
        old(tree).wf() ==> final(tree).wf(),
        if size_agrees(old(tree)@, prior_tree_size) {
            result == Ok::<(), ServerError>(()) && final(tree)@ == old(tree)@.appended(
                height,
                hash,
                commitments@,
            )
        } else {
            refuses_drift(result, old(tree)@, height, prior_tree_size, context@) && final(tree)@
                == old(tree)@
        },
{
    let valid = validate_prior_tree_size(tree, height, prior_tree_size, context);
    if valid.is_ok() {
        tree.append_commitments(height, hash, commitments.as_slice());
    }
    valid
}

/// Takes an event into the tree while syncing. Reorgs are not looked at then.
/// Returns the phase to report, every thousand blocks.
pub fn apply_synced(tree: &mut CommitmentTreeDb, event: &WitnessChainEvent, target_height: u64) -> (
    result: Result<Option<ServerPhase>, ServerError>)
    requires
        old(tree).shaped(),
        old(tree)@.tree_size() + event_commitments(*event) <= u64::MAX,
        event_commitments(*event) <= u32::MAX,
    ensures
        final(tree).shaped(),
        old(tree).wf() ==> final(tree).wf(),
        match *event {
            WitnessChainEvent::NewBlock {
                height,
                hash,
                commitments,
                prior_tree_size,
                ..
            } => if size_agrees(old(tree)@, prior_tree_size) {
                &&& final(tree)@ == old(tree)@.appended(height, hash, commitments@)
                &&& result == Ok::<Option<ServerPhase>, ServerError>(
                    if height % 1000 == 0 {
                        Some(ServerPhase::Syncing { current_height: height, target_height })
                    } else {
                        None
                    },
                )
            } else {
                &&& final(tree)@ == old(tree)@
                &&& result matches Err(error) && refuses_drift(
                    Err(error),
                    old(tree)@,
                    height,
                    prior_tree_size,
                    "initial sync"@,
                )
            },
            WitnessChainEvent::Reorg { .. } => final(tree)@ == old(tree)@ && result == Ok::<
                Option<ServerPhase>,
                ServerError,
            >(None),
        },
{
    match event {
        WitnessChainEvent::NewBlock { height, hash, commitments, prior_tree_size, .. } => {
            match append_block(tree, *height, *hash, commitments, *prior_tree_size, "initial sync") {
                Err(error) => Err(error),
                Ok(_) => if *height % 1000 == 0 {
                    Ok(Some(ServerPhase::Syncing { current_height: *height, target_height }))
                } else {
                    Ok(None)
                },
            }
        },
        WitnessChainEvent::Reorg { .. } => Ok(None),
    }
}

/// Takes an event of follow mode into the tree. Returns whether it was a
/// block, which counts toward the next snapshot.
pub fn apply_event(tree: &mut CommitmentTreeDb, event: &WitnessChainEvent) -> (result: Result<
    bool,
    ServerError,
>)
    requires
        old(tree).shaped(),
        old(tree)@.tree_size() + event_commitments(*event) <= u64::MAX,
        event_commitments(*event) <= u32::MAX,
    ensures
        final(tree).shaped(),
        old(tree).wf() ==> final(tree).wf(),
        match *event {
            WitnessChainEvent::NewBlock {
                height,
                hash,
                commitments,
                prior_tree_size,
                ..
            } => if size_agrees(old(tree)@, prior_tree_size) {
                &&& final(tree)@ == old(tree)@.appended(height, hash, commitments@)
                &&& result == Ok::<bool, ServerError>(true)
            } else {
                &&& final(tree)@ == old(tree)@
                &&& result matches Err(error) && refuses_drift(
                    Err(error),
                    old(tree)@,
                    height,
                    prior_tree_size,
                    "follow mode"@,
                )
            },
            WitnessChainEvent::Reorg { rollback_to } => final(tree)@ == old(tree)@.rolled_back(
                rollback_to,
            ) && result == Ok::<bool, ServerError>(false),
        },
{
    match event {
        WitnessChainEvent::NewBlock { height, hash, commitments, prior_tree_size, .. } => {
            match append_block(tree, *height, *hash, commitments, *prior_tree_size, "follow mode") {
                Err(error) => Err(error),
                Ok(_) => Ok(true),
            }
        },
        WitnessChainEvent::Reorg { rollback_to } => {
            tree.rollback_to(*rollback_to);
            Ok(false)
        },
    }
}

} // verus!
