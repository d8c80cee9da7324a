//! The server that runs all subsystems on one view of the chain: which of them
//! has to catch up, what a followed block does to each, and their health.

use crate::block_table::{
    knows, lemma_rank_bounds, lemma_rank_splits, placed, rank, IndexedBlock, SlotEntry, TableState,
};
use crate::bytes::{hash_from, lemma_array_eq, padded, to_hash_array, zero_hash, zeros};
use crate::chain_ingest::chain_tracker::{
    classified, pushed, ChainAction, ChainTracker, FOLLOW_WINDOW,
};
use crate::chain_ingest::proto::{tree_size_in, CompactBlock, SubtreeRoot};
use crate::chain_ingest::ranges::next_range;
use crate::hashtable_pir::HashTableError;
use crate::nullifier::hashtable_pir::{entries_of, HashTableDb};
use crate::nullifier::nf_ingest::parser::{
    block_spends, extract_nullifiers_with_meta, positions_fit, size_before,
};
use crate::nullifier::spend_types::{NullifierEntry, BUCKET_CAPACITY, NUM_BUCKETS, TARGET_SIZE};
use crate::pir_types::{ServerPhase, NU5_MAINNET_ACTIVATION};
use crate::spend_server::server::ServerError as SpendServerError;
use crate::table_history::all_named;
use crate::table_laws::{
    law_insert_keeps_account, law_insert_remembers, law_removal_keeps_others,
    law_rollback_finds_block, lemma_accounted_ignores_heights, lemma_rolled_back_count,
};
use crate::witness::commitment_ingest::parser::{
    block_commitments, block_leaves, extract_commitments_and_decryption, extract_decryption_leaves,
};
use crate::witness::commitment_tree_db::{
    blocks_kept as tree_blocks_kept, total_commitments, BlockRecord as TreeBlock, CommitmentTreeDb,
    TreeState,
};
use crate::witness::decryption_db::{
    blocks_kept as decryption_blocks_kept, total_leaves, BlockRecord as DecryptionBlock,
    DecryptionDb, DecryptionState,
};
use crate::witness::decryption_server::server::ServerError as DecryptionServerError;
use crate::witness::decryption_types::DecryptionLeaf;
use crate::witness::witness_server::server::ServerError as WitnessServerError;
use crate::witness::witness_types::SHARD_LEAVES;
use vstd::prelude::*;
use vstd::string::StringExecFns;

verus! {

/// What can go wrong in the combined server.
#[derive(Debug)]
pub enum ServerError {
    Nullifier(SpendServerError),
    Witness(WitnessServerError),
    Decryption(DecryptionServerError),
    Client(String),
    HashTable(HashTableError),
    Io(String),
}

impl ServerError {
    /// The text of the error.
    pub open spec fn text(self) -> Seq<char> {
        match self {
            ServerError::Nullifier(error) => "nullifier server error: "@ + error.text(),
            ServerError::Witness(error) => "witness server error: "@ + error.text(),
            ServerError::Decryption(error) => "decryption server error: "@ + error.text(),
            ServerError::Client(reason) => "chain client error: "@ + reason@,
            ServerError::HashTable(error) => "hashtable error: "@ + error.text(
                BUCKET_CAPACITY as int,
            ),
            ServerError::Io(reason) => "io error: "@ + reason@,
        }
    }

    /// The text of the error.
    pub fn message(&self) -> (message: String)
        ensures
            message@ == self.text(),
    {
        match self {
            ServerError::Nullifier(error) => {
                let mut message = String::from_str("nullifier server error: ");
                message.append(error.message().as_str());
                message
            },
            ServerError::Witness(error) => {
                let mut message = String::from_str("witness server error: ");
                message.append(error.message().as_str());
                message
            },
            ServerError::Decryption(error) => {
                let mut message = String::from_str("decryption server error: ");
                message.append(error.message().as_str());
                message
            },
            ServerError::Client(reason) => {
                let mut message = String::from_str("chain client error: ");
                message.append(reason.as_str());
                message
            },
            ServerError::HashTable(error) => {
                let mut message = String::from_str("hashtable error: ");
                message.append(error.message(BUCKET_CAPACITY).as_str());
                message
            },
            ServerError::Io(reason) => {
                let mut message = String::from_str("io error: ");
                message.append(reason.as_str());
                message
            },
        }
    }
}

/// The health of one subsystem.
#[derive(Debug)]
pub struct SubsystemHealth {
    pub phase: String,
    pub current_height: Option<u64>,
    pub target_height: Option<u64>,
}

/// Whether a health report is that of a phase.
pub open spec fn reports_phase(health: SubsystemHealth, phase: ServerPhase) -> bool {
    match phase {
        ServerPhase::Serving => health.phase@ == "serving"@ && health.current_height is None
            && health.target_height is None,
        ServerPhase::Syncing { current_height, target_height } => health.phase@ == "syncing"@
            && health.current_height == Some(current_height) && health.target_height == Some(
            target_height,
        ),
    }
}

/// The health of a subsystem in the given phase.
pub fn phase_to_health(phase: &ServerPhase) -> (health: SubsystemHealth)
    ensures
        reports_phase(health, *phase),
{
    match phase {
        ServerPhase::Serving => SubsystemHealth {
            phase: String::from_str("serving"),
            current_height: None,
            target_height: None,
        },
        ServerPhase::Syncing { current_height, target_height } => SubsystemHealth {
            phase: String::from_str("syncing"),
            current_height: Some(*current_height),
            target_height: Some(*target_height),
        },
    }
}

/// Body of the health route.
#[derive(Debug)]
pub struct CombinedHealthResponse {
    pub nullifier: SubsystemHealth,
    pub witness: SubsystemHealth,
    pub decryption: SubsystemHealth,
}

/// The status code and body of the health route: 200 when all subsystems
/// serve, 503 otherwise.
pub fn combined_health(nullifier: &ServerPhase, witness: &ServerPhase, decryption: &ServerPhase) -> (
    response: (u16, CombinedHealthResponse))
    ensures
        response.0 == (if *nullifier is Serving && *witness is Serving && *decryption is Serving {
            200u16
        } else {
            503u16
        }),
        reports_phase(response.1.nullifier, *nullifier),
        reports_phase(response.1.witness, *witness),
        reports_phase(response.1.decryption, *decryption),
{
    let all_serving: bool = match (nullifier, witness, decryption) {
        (ServerPhase::Serving, ServerPhase::Serving, ServerPhase::Serving) => true,
        _ => false,
    };
    let body = CombinedHealthResponse {
        nullifier: phase_to_health(nullifier),
        witness: phase_to_health(witness),
        decryption: phase_to_health(decryption),
    };
    if all_serving {
        (200, body)
    } else {
        (503, body)
    }
}

/// Which subsystem is behind, and the blocks that it lacks.
#[derive(Debug, Clone, Copy, PartialEq, Eq, Structural)]
pub enum CatchUp {
    Level,
    Nullifier { from: u64, to: u64 },
    Witness { from: u64, to: u64 },
}

/// A height, or zero where there is none.
pub open spec fn or_zero(height: Option<u64>) -> u64 {
    match height {
        Some(height) => height,
        None => 0,
    }
}

/// Finds out which of the nullifier table and the commitment tree is behind.
pub fn plan_catch_up(nullifier_latest: Option<u64>, witness_latest: Option<u64>) -> (plan: CatchUp)
    ensures
        plan == ({
            let nf = or_zero(nullifier_latest);
            let wit = or_zero(witness_latest);
            if nf < wit {
                CatchUp::Nullifier { from: (nf + 1) as u64, to: wit }
            } else if nf > wit {
                CatchUp::Witness { from: (wit + 1) as u64, to: nf }
            } else {
                CatchUp::Level
            }
        }),
{
    let nf: u64 = match nullifier_latest {
        Some(height) => height,
        None => 0,
    };
    let wit: u64 = match witness_latest {
        Some(height) => height,
        None => 0,
    };
    if nf < wit {
        CatchUp::Nullifier { from: nf + 1, to: wit }
    } else if nf > wit {
        CatchUp::Witness { from: wit + 1, to: nf }
    } else {
        CatchUp::Level
    }
}

/// Where decryption data is to be fetched from.
#[derive(Debug, Clone, Copy, PartialEq, Eq, Structural)]
pub enum DecryptionCatchUp {
    /// The store is at or ahead of the tree.
    Level,
    /// The store has blocks; it lacks those from here on.
    From(u64),
    /// The store has no block: it starts where its window starts.
    WindowStart,
}

/// Finds out what a decryption store lacks up to the newest block of the tree.
pub fn plan_decryption_catch_up(decryption_latest: Option<u64>, witness_latest: u64) -> (plan:
    DecryptionCatchUp)
    ensures
        plan == (match decryption_latest {
            None => DecryptionCatchUp::WindowStart,
            Some(height) => if height >= witness_latest {
                DecryptionCatchUp::Level
            } else {
                DecryptionCatchUp::From((height + 1) as u64)
            },
        }),
{
    match decryption_latest {
        None => DecryptionCatchUp::WindowStart,
        Some(height) => if height >= witness_latest {
            DecryptionCatchUp::Level
        } else {
            DecryptionCatchUp::From(height + 1)
        },
    }
}

/// The height to start syncing decryption data from: that of the block that
/// completed the last shard before the window, or Orchard activation where the
/// window starts with the tree or that block is not known.
pub fn decryption_sync_start(leaf_offset: u64, subtree_roots: &Vec<SubtreeRoot>) -> (height: u64)
    ensures
        height == ({
            let shard = leaf_offset as int / SHARD_LEAVES as int;
            if 0 < shard <= subtree_roots@.len() {
                subtree_roots@[shard - 1].completing_block_height
            } else {
                NU5_MAINNET_ACTIVATION
            }
        }),
{
    let shard: u64 = leaf_offset / SHARD_LEAVES as u64;
    if shard > 0 && shard <= subtree_roots.len() as u64 {
        subtree_roots[shard as usize - 1].completing_block_height
    } else {
        NU5_MAINNET_ACTIVATION
    }
}

/// Whether the next block of a store is the one at the edge of its window,
/// some of whose leaves may lie before it.
pub open spec fn at_window_edge(db: DecryptionState) -> bool {
    db.leaves.len() == 0 && db.leaf_offset > 0
}

/// The store after a block while catching up. Of the block at the edge of the
/// window only the leaves past the offset are kept; one whose metadata is
/// missing, or that ends before the window, is skipped.
pub open spec fn caught_up(db: DecryptionState, block: CompactBlock) -> DecryptionState {
    let hash = hash_from(padded(block.hash@));
    let leaves = block_leaves(block);
    if at_window_edge(db) {
        match block.chain_metadata {
            Some(metadata) => {
                let inside = metadata.orchard_commitment_tree_size - db.leaf_offset;
                if inside <= 0 {
                    db
                } else if leaves.len() <= inside {
                    db.appended(block.height, hash, leaves)
                } else {
                    db.appended(block.height, hash, leaves.skip(leaves.len() - inside))
                }
            },
            None => db,
        }
    } else {
        db.appended(block.height, hash, leaves)
    }
}

/// Takes a block into a decryption store that catches up.
pub fn catch_up_decryption(db: &mut DecryptionDb, block: &CompactBlock)
    requires
        old(db).wf(),
        old(db)@.tree_size() + block_leaves(*block).len() <= u64::MAX,
        block_leaves(*block).len() <= u32::MAX,
    ensures
        final(db).wf(),
        final(db)@ == caught_up(old(db)@, *block),
{
    let leaves = extract_decryption_leaves(block);
    let height: u64 = block.height;
    let hash: [u8; 32] = to_hash_array(block.hash.as_slice());
    if db.leaves().len() == 0 && db.leaf_offset() > 0 {
        match &block.chain_metadata {
            None => {},
            Some(metadata) => {
                let size: u64 = metadata.orchard_commitment_tree_size as u64;
                if size > db.leaf_offset() {
                    let inside: u64 = size - db.leaf_offset();
                    let skip: usize = if leaves.len() as u64 <= inside {
                        0
                    } else {
                        leaves.len() - inside as usize
                    };
                    let kept = leaves_from(&leaves, skip);
                    proof {
                        if skip == 0 {
                            assert(kept@ =~= leaves@);
                        }
                    }
                    db.append_leaves(height, hash, kept.as_slice());
                }
            },
        }
    } else {
        db.append_leaves(height, hash, leaves.as_slice());
    }
}

fn leaves_from(leaves: &Vec<DecryptionLeaf>, skip: usize) -> (kept: Vec<DecryptionLeaf>)
    requires
        skip <= leaves@.len(),
    ensures
        kept@ == leaves@.skip(skip as int),
{
    let mut kept: Vec<DecryptionLeaf> = Vec::with_capacity(leaves.len() - skip);
    let mut i: usize = skip;
    while i < leaves.len()
        invariant
            skip <= i <= leaves@.len(),
            kept@ == leaves@.subrange(skip as int, i as int),
        decreases leaves@.len() - i,
    {
        kept.push(leaves[i]);
        i += 1;
        assert(kept@ =~= leaves@.subrange(skip as int, i as int));
    }
    assert(kept@ =~= leaves@.skip(skip as int));
    kept
}

/// The table after its highest blocks above `rollback_to` are rolled back, up
/// to one that is not found by its hash.
pub open spec fn rolled_down(table: TableState<NullifierEntry>, rollback_to: u64) -> TableState<
    NullifierEntry,
>
    decreases table.index.len(),
{
    if table.index.len() == 0 || table.index.last().height <= rollback_to {
        table
    } else {
        let hash = table.index.last().hash@;
        proof {
            lemma_rank_bounds(table.index, table.heights[hash]);
        }
        if table.has_block(hash) {
            rolled_down(table.rolled_back(hash), rollback_to)
        } else {
            table.rolled_back(hash)
        }
    }
}

/// What the combined server keeps of the chain.
pub ghost struct CombinedState {
    /// The tracked blocks, oldest first.
    pub chain: Seq<(u64, [u8; 32])>,
    pub current_height: u64,
    /// The tree size after the current block, if known.
    pub tree_size: Option<u32>,
    pub nullifiers: TableState<NullifierEntry>,
    pub tree: TreeState,
    pub decryption: DecryptionState,
}

/// The entries that a block brings to the nullifier table.
pub open spec fn block_entries(block: CompactBlock, prior_tree_size: Option<u32>) -> Seq<
    NullifierEntry,
> {
    entries_of(
        block.height,
        block_spends(block.vtx@, size_before(block, prior_tree_size)),
    )
}

/// A table with a block inserted, or unchanged where a bucket overflows.
pub open spec fn inserted_if_fits(
    table: TableState<NullifierEntry>,
    height: u64,
    hash: [u8; 32],
    entries: Seq<NullifierEntry>,
) -> TableState<NullifierEntry> {
    match table.inserted(height, hash, entries) {
        Ok(after) => after,
        Err(_) => table,
    }
}

impl CombinedState {
    /// What a block does to the chain.
    pub open spec fn action(self, block: CompactBlock) -> ChainAction {
        classified(self.chain, block.height, hash_from(padded(block.prev_hash@)))
    }

    /// The nullifier table that a block is inserted into.
    pub open spec fn base_table(self, block: CompactBlock) -> TableState<NullifierEntry> {
        match self.action(block) {
            ChainAction::Extend => self.nullifiers,
            ChainAction::Reorg { rollback_to } => rolled_down(self.nullifiers, rollback_to),
        }
    }

    /// The state after a followed block. A block that extends the chain is
    /// added to all three, and old nullifiers are evicted; one that makes for
    /// a reorg is added after all three are rolled back.
    pub open spec fn after(self, block: CompactBlock) -> CombinedState {
        let hash = hash_from(padded(block.hash@));
        let entries = block_entries(block, self.tree_size);
        let table = inserted_if_fits(self.base_table(block), block.height, hash, entries);
        CombinedState {
            chain: pushed(
                self.chain,
                FOLLOW_WINDOW as nat,
                block.height,
                hash,
                hash_from(padded(block.prev_hash@)),
            ),
            current_height: block.height,
            tree_size: tree_size_in(block),
            nullifiers: match self.action(block) {
                ChainAction::Extend => table.evicted_to(TARGET_SIZE as int),
                ChainAction::Reorg { .. } => table,
            },
            tree: match self.action(block) {
                ChainAction::Extend => self.tree,
                ChainAction::Reorg { rollback_to } => self.tree.rolled_back(rollback_to),
            }.appended(block.height, hash, block_commitments(block)),
            decryption: match self.action(block) {
                ChainAction::Extend => self.decryption,
                ChainAction::Reorg { rollback_to } => self.decryption.rolled_back(rollback_to),
            }.appended(block.height, hash, block_leaves(block)),
        }
    }

    /// Whether what a block brings can be counted and numbered.
    pub open spec fn has_room(self, block: CompactBlock) -> bool {
        let entries = block_entries(block, self.tree_size);
        &&& positions_fit(block, self.tree_size)
        &&& self.nullifiers.count + entries.len() <= usize::MAX
        &&& block_commitments(block).len() <= u32::MAX
        &&& self.tree.tree_size() + block_commitments(block).len() <= u64::MAX
        &&& self.decryption.tree_size() + block_commitments(block).len() <= u64::MAX
    }
}

/// Rolls back the highest blocks above `rollback_to`, up to one that is not
/// found by its hash.
fn roll_down(hashtable: &mut HashTableDb, rollback_to: u64)
    requires
        old(hashtable).wf(),
    ensures
        final(hashtable).wf(),
        final(hashtable)@ == rolled_down(old(hashtable)@, rollback_to),
        final(hashtable)@.count <= old(hashtable)@.count,
{
    loop
        invariant
            hashtable.wf(),
            hashtable@.count <= old(hashtable)@.count,
            rolled_down(hashtable@, rollback_to) == rolled_down(old(hashtable)@, rollback_to),
        decreases hashtable@.index.len(),
    {
        let ghost before = hashtable@;
        let (height, hash) = match (hashtable.latest_height(), hashtable.latest_block_hash()) {
            (Some(height), Some(hash)) => (height, hash),
            _ => return,
        };
        if height <= rollback_to {
            return;
        }
        proof {
            lemma_rolled_back_count(before, hash@);
            lemma_rank_bounds(before.index, before.heights[hash@]);
        }
        if hashtable.rollback_block(&hash).is_err() {
            return;
        }
    }
}

/// The data of all subsystems, and where the chain is followed.
pub struct CombinedFollower {
    pub tracker: ChainTracker,
    pub current_height: u64,
    pub prev_tree_size: Option<u32>,
    pub hashtable: HashTableDb,
    pub tree: CommitmentTreeDb,
    pub decryption: DecryptionDb,
}

impl View for CombinedFollower {
    type V = CombinedState;

    open spec fn view(&self) -> CombinedState {
        CombinedState {
            chain: self.tracker@,
            current_height: self.current_height,
            tree_size: self.prev_tree_size,
            nullifiers: self.hashtable@,
            tree: self.tree@,
            decryption: self.decryption@,
        }
    }
}

impl CombinedFollower {
    /// The data is well-formed and the tracker keeps its window.
    pub open spec fn wf(&self) -> bool {
        &&& self.hashtable.wf()
        &&& self.tree.shaped()
        &&& self.decryption.wf()
        &&& self.tracker.depth() == FOLLOW_WINDOW
    }

    /// Starts at the newest block of the nullifier table.
    pub fn new(hashtable: HashTableDb, tree: CommitmentTreeDb, decryption: DecryptionDb) -> (
        follower: Self)
        requires
            hashtable.wf(),
            tree.shaped(),
            decryption.wf(),
        ensures
            follower.wf(),
            follower@ == ({
                let index = hashtable@.index;
                let height = if index.len() == 0 {
                    0
                } else {
                    index.last().height
                };
                let hash = if index.len() == 0 {
                    hash_from(zeros(32))
                } else {
                    index.last().hash
                };
                CombinedState {
                    chain: seq![(height, hash)],
                    current_height: height,
                    tree_size: None,
                    nullifiers: hashtable@,
                    tree: tree@,
                    decryption: decryption@,
                }
            }),
    {
        let height: u64 = match hashtable.latest_height() {
            Some(height) => height,
            None => 0,
        };
        let hash: [u8; 32] = match hashtable.latest_block_hash() {
            Some(hash) => hash,
            None => zero_hash(),
        };
        CombinedFollower {
            tracker: ChainTracker::with_tip(height, hash, FOLLOW_WINDOW),
            current_height: height,
            prev_tree_size: None,
            hashtable,
            tree,
            decryption,
        }
    }

    /// The blocks to fetch when the chain has grown to `tip`, if it has.
    pub fn next_range(&self, tip: u64) -> (range: Option<(u64, u64)>)
        ensures
            range == (if tip <= self@.current_height {
                None
            } else {
                Some(((self@.current_height + 1) as u64, tip))
            }),
    {
        next_range(self.current_height, tip)
    }

    /// Takes in a fetched block. Returns what it did to the chain, and the
    /// error where its nullifiers could not be inserted: that stops neither
    /// the other subsystems nor the loop.
    pub fn accept(&mut self, block: &CompactBlock) -> (outcome: (
        ChainAction,
        Result<(), HashTableError>,
    ))
        requires
            old(self).wf(),
            old(self)@.has_room(*block),
        ensures
            final(self).wf(),
            old(self).tree.wf() ==> final(self).tree.wf(),
            final(self)@ == old(self)@.after(*block),
            outcome.0 == old(self)@.action(*block),
            outcome.1 == (match old(self)@.base_table(*block).inserted(
                block.height,
                hash_from(padded(block.hash@)),
                block_entries(*block, old(self)@.tree_size),
            ) {
                Ok(_) => Ok::<(), HashTableError>(()),
                Err(bucket) => Err::<(), HashTableError>(
                    HashTableError::BucketOverflow { bucket_idx: bucket },
                ),
            }),
    {
        let height: u64 = block.height;
        let hash: [u8; 32] = to_hash_array(block.hash.as_slice());
        let prev_hash: [u8; 32] = to_hash_array(block.prev_hash.as_slice());
        let (nullifiers, this_tree_size) = extract_nullifiers_with_meta(block, self.prev_tree_size);
        let (commitments, leaves) = extract_commitments_and_decryption(block);
        let action = self.tracker.push_block(height, hash, prev_hash);
        if let ChainAction::Reorg { rollback_to } = action {
            roll_down(&mut self.hashtable, rollback_to);
            self.tree.rollback_to(rollback_to);
            self.decryption.rollback_to(rollback_to);
        }
        let inserted = self.hashtable.insert_block(height, hash, nullifiers.as_slice());
        if let ChainAction::Extend = action {
            self.hashtable.evict_to_target();
        }
        self.tree.append_commitments(height, hash, commitments.as_slice());
        self.decryption.append_leaves(height, hash, leaves.as_slice());
        self.current_height = height;
        self.prev_tree_size = this_tree_size;
        (action, inserted)
    }
}

/// Rolling down removes exactly the blocks above the height. Those that stay
/// account for every entry that is left, and their entries are what they were.
pub proof fn law_rolling_down_drops_orphans(table: TableState<NullifierEntry>, rollback_to: u64)
    requires
        table.shaped(NUM_BUCKETS as int, BUCKET_CAPACITY as int),
        table.accounted(),
        table.remembered(),
    ensures
        ({
            let after = rolled_down(table, rollback_to);
            let kept = after.index.len() as int;
            &&& after.shaped(NUM_BUCKETS as int, BUCKET_CAPACITY as int)
            &&& after.accounted()
            &&& after.remembered()
            &&& kept <= table.index.len()
            &&& after.index == table.index.take(kept)
            &&& forall|i: int|
                0 <= i < table.index.len() ==> ((#[trigger] table.index[i]).height <= rollback_to
                    <==> i < kept)
            &&& forall|i: int, j: int|
                0 <= i < after.index.len() && 0 <= j < after.index[i].slots.len() ==> {
                    let slot = #[trigger] after.index[i].slots[j];
                    after.buckets[slot.0 as int][slot.1 as int]
                        == table.buckets[slot.0 as int][slot.1 as int]
                }
        }),
    decreases table.index.len(),
{
    let after = rolled_down(table, rollback_to);
    let last = table.index.len() - 1;
    if table.index.len() == 0 || table.index[last].height <= rollback_to {
        assert(table.index.take(table.index.len() as int) =~= table.index);
        assert forall|i: int| 0 <= i < table.index.len() implies (#[trigger] table.index[i]).height
            <= rollback_to by {
            if i < last {
                assert(table.index[i].height < table.index[last].height);
            }
        }
    } else {
        let hash = table.index[last].hash@;
        law_rollback_finds_block(table, hash);
        assert(table.has_block(hash));
        let height = table.heights[hash];
        assert(height == table.index[last].height);
        lemma_rank_splits(table.index, height);
        assert(rank(table.index, height) == last) by {
            let at = rank(table.index, height);
            if at < last {
                assert(table.index[at].height < table.index[last].height);
            }
        }
        law_removal_keeps_others(table, NUM_BUCKETS as int, BUCKET_CAPACITY as int, last);
        let next = table.rolled_back(hash);
        assert(next == (TableState { heights: table.heights.remove(hash), ..table.without(last) }));
        lemma_accounted_ignores_heights(table.without(last), table.heights.remove(hash));
        law_rolling_down_drops_orphans(next, rollback_to);
        let kept = after.index.len() as int;
        assert(next.index =~= table.index.drop_last());
        assert(next.index.take(kept) =~= table.index.take(kept));
        assert forall|i: int| 0 <= i < table.index.len() implies ((#[trigger] table.index[i]).height
            <= rollback_to <==> i < kept) by {
            if i < last {
                assert(next.index[i] == table.index[i]);
            }
        }
        assert forall|i: int, j: int|
            0 <= i < after.index.len() && 0 <= j < after.index[i].slots.len() implies ({
            let slot = #[trigger] after.index[i].slots[j];
            after.buckets[slot.0 as int][slot.1 as int]
                == table.buckets[slot.0 as int][slot.1 as int]
        }) by {
            assert(after.index[i] == table.index[i]);
            assert(table.index[i].slots[j] == after.index[i].slots[j]);
        }
    }
}

/// A reorg leaves no stale nullifiers: whether or not its blocks are still
/// tracked, the table after the new block has none above the fork point but
/// that block. The blocks up to the fork point stay, and what the table then
/// holds, down to each filled slot, is accounted for by those blocks.
pub proof fn law_followed_reorg_leaves_no_stale_nullifiers(
    state: CombinedState,
    block: CompactBlock,
    rollback_to: u64,
)
    requires
        state.nullifiers.in_order(NUM_BUCKETS as int, BUCKET_CAPACITY as int),
        state.action(block) == (ChainAction::Reorg { rollback_to }),
        rollback_to < block.height,
        all_named(block_entries(block, state.tree_size)),
        forall|i: int|
            0 <= i < state.nullifiers.index.len() && (
            #[trigger] state.nullifiers.index[i]).height <= rollback_to
                ==> state.nullifiers.index[i].hash != hash_from(padded(block.hash@)),
    ensures
        ({
            let before = state.nullifiers.index;
            let base = state.base_table(block).index;
            let after = state.after(block).nullifiers;
            &&& forall|b: IndexedBlock| #[trigger]
                base.contains(b) <==> before.contains(b) && b.height <= rollback_to
            &&& after.shaped(NUM_BUCKETS as int, BUCKET_CAPACITY as int)
            &&& after.accounted()
            &&& after.remembered()
            &&& forall|i: int|
                0 <= i < after.index.len() ==> base.contains(#[trigger] after.index[i]) || (
                after.index[i].height == block.height && after.index[i].hash == hash_from(
                    padded(block.hash@),
                ))
            &&& forall|b: IndexedBlock| #[trigger] base.contains(b) ==> after.index.contains(b)
        }),
{
    let table = state.nullifiers;
    let base = state.base_table(block);
    let hash = hash_from(padded(block.hash@));
    let entries = block_entries(block, state.tree_size);
    law_rolling_down_drops_orphans(table, rollback_to);
    let kept = base.index.len() as int;
    assert forall|b: IndexedBlock| #[trigger]
        base.index.contains(b) <==> table.index.contains(b) && b.height <= rollback_to by {
        if base.index.contains(b) {
            let i = choose|i: int| 0 <= i < base.index.len() && base.index[i] == b;
            assert(table.index[i] == b);
        }
        if table.index.contains(b) && b.height <= rollback_to {
            let i = choose|i: int| 0 <= i < table.index.len() && table.index[i] == b;
            assert(base.index[i] == b);
        }
    }
    assert forall|i: int| 0 <= i < base.index.len() implies (#[trigger] base.index[i]).height
        <= rollback_to && base.index[i].hash != hash by {
        assert(base.index[i] == table.index[i]);
    }
    lemma_rank_splits(base.index, block.height);
    assert(!knows(base.index, block.height));
    assert(!base.heights.contains_key(hash@)) by {
        if base.heights.contains_key(hash@) {
            let i = choose|i: int|
                0 <= i < base.index.len() && (#[trigger] base.index[i]).hash@ == hash@;
            lemma_array_eq(base.index[i].hash, hash);
        }
    }
    assert forall|i: int| 0 <= i < entries.len() implies !(#[trigger] entries[i]).is_zero() by {
        entries[i].entry_laws(entries[i]);
    }
    law_insert_keeps_account(
        base,
        NUM_BUCKETS as int,
        BUCKET_CAPACITY as int,
        block.height,
        hash,
        entries,
    );
    law_insert_remembers(base, block.height, hash, entries);
    let after = state.after(block).nullifiers;
    if let Ok(with) = base.inserted(block.height, hash, entries) {
        let (_, slots) = placed(base.buckets, entries)->Ok_0;
        let new = IndexedBlock { height: block.height, hash, slots };
        let at = rank(base.index, block.height);
        assert(after.index == base.index.insert(at, new));
        assert forall|i: int| 0 <= i < after.index.len() implies base.index.contains(
            #[trigger] after.index[i],
        ) || (after.index[i].height == block.height && after.index[i].hash == hash) by {
            if i < at {
                assert(after.index[i] == base.index[i]);
            } else if i > at {
                assert(after.index[i] == base.index[i - 1]);
            }
        }
        assert forall|b: IndexedBlock| #[trigger] base.index.contains(b) implies
            after.index.contains(b) by {
            let i = choose|i: int| 0 <= i < base.index.len() && base.index[i] == b;
            if i < at {
                assert(after.index[i] == b);
            } else {
                assert(after.index[i + 1] == b);
            }
        }
    }
}

/// Whether the commitment tree and the decryption store are built from the
/// same blocks: they start at one offset and have, block by block, the same
/// height and number of leaves.
pub open spec fn are_aligned(tree: TreeState, decryption: DecryptionState) -> bool {
    &&& tree.leaf_offset == decryption.leaf_offset
    &&& same_blocks(tree.blocks, decryption.blocks)
    &&& tree.leaves.len() == decryption.leaves.len()
}

/// Whether the blocks have the same heights and numbers of leaves.
pub open spec fn same_blocks(
    blocks: Seq<TreeBlock>,
    others: Seq<DecryptionBlock>,
) -> bool {
    &&& blocks.len() == others.len()
    &&& forall|i: int|
        0 <= i < blocks.len() ==> (#[trigger] blocks[i]).height == others[i].height
            && blocks[i].num_commitments == others[i].num_leaves
}

/// Where the tree and the decryption store are aligned, their PIR windows are
/// the same.
pub proof fn law_aligned_windows_agree(tree: TreeState, decryption: DecryptionState)
    requires
        tree.shaped(),
        are_aligned(tree, decryption),
    ensures
        tree.window_start() == decryption.window_start(),
        tree.window_count() == decryption.window_count(),
{
}

/// Following a block keeps the tree and the decryption store aligned, so that
/// one position means one note in both databases.
pub proof fn law_follow_keeps_alignment(state: CombinedState, block: CompactBlock)
    requires
        state.tree.shaped(),
        state.decryption.valid(),
        are_aligned(state.tree, state.decryption),
    ensures
        are_aligned(state.after(block).tree, state.after(block).decryption),
{
    if let ChainAction::Reorg { rollback_to } = state.action(block) {
        lemma_rollback_keeps_alignment(state.tree, state.decryption, rollback_to);
    }
}

proof fn lemma_rollback_keeps_alignment(
    tree: TreeState,
    decryption: DecryptionState,
    rollback_to: u64,
)
    requires
        tree.shaped(),
        decryption.valid(),
        are_aligned(tree, decryption),
    ensures
        are_aligned(tree.rolled_back(rollback_to), decryption.rolled_back(rollback_to)),
{
    lemma_same_kept(tree.blocks, decryption.blocks, rollback_to);
    let kept = tree_blocks_kept(tree.blocks, rollback_to) as int;
    let blocks = tree.blocks.take(kept);
    let others = decryption.blocks.take(kept);
    lemma_same_totals(blocks, others);
    lemma_kept_total(tree.blocks, kept);
}

proof fn lemma_same_kept(
    blocks: Seq<TreeBlock>,
    others: Seq<DecryptionBlock>,
    rollback_to: u64,
)
    requires
        same_blocks(blocks, others),
    ensures
        tree_blocks_kept(blocks, rollback_to) == decryption_blocks_kept(others, rollback_to),
        tree_blocks_kept(blocks, rollback_to) <= blocks.len(),
    decreases blocks.len(),
{
    if blocks.len() > 0 {
        let last = blocks.len() - 1;
        assert(blocks[last].height == others[last].height);
        lemma_same_front(blocks, others);
        lemma_same_kept(blocks.drop_last(), others.drop_last(), rollback_to);
    }
}

proof fn lemma_same_front(blocks: Seq<TreeBlock>, others: Seq<DecryptionBlock>)
    requires
        same_blocks(blocks, others),
        blocks.len() > 0,
    ensures
        same_blocks(blocks.drop_last(), others.drop_last()),
{
    assert forall|i: int| 0 <= i < blocks.len() - 1 implies (
    #[trigger] blocks.drop_last()[i]).height == others.drop_last()[i].height
        && blocks.drop_last()[i].num_commitments == others.drop_last()[i].num_leaves by {
        assert(blocks[i].height == others[i].height);
    }
}

proof fn lemma_same_totals(blocks: Seq<TreeBlock>, others: Seq<DecryptionBlock>)
    requires
        same_blocks(blocks, others),
    ensures
        total_commitments(blocks) == total_leaves(others),
    decreases blocks.len(),
{
    if blocks.len() > 0 {
        let last = blocks.len() - 1;
        assert(blocks[last].num_commitments == others[last].num_leaves);
        lemma_same_front(blocks, others);
        lemma_same_totals(blocks.drop_last(), others.drop_last());
    }
}

proof fn lemma_kept_total(blocks: Seq<TreeBlock>, n: int)
    requires
        0 <= n <= blocks.len(),
    ensures
        total_commitments(blocks.take(n)) <= total_commitments(blocks),
    decreases blocks.len(),
{
    if n < blocks.len() {
        lemma_kept_total(blocks.drop_last(), n);
        assert(blocks.drop_last().take(n) =~= blocks.take(n));
    } else {
        assert(blocks.take(n) =~= blocks);
    }
}

} // verus!
