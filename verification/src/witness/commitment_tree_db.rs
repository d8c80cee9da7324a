//! In-memory Orchard note commitment tree with shard and sub-shard
//! decomposition.
//!
//! Keeps the leaves of the PIR window in append order, with one record per
//! block so that a reorg can be rolled back. Computes shard roots, sub-shard
//! roots and the rows of the PIR database.
//!
//! # Windowed mode
//!
//! A tree made by [`CommitmentTreeDb::with_offset`] stores only the leaves
//! from its offset on. The roots of the shards before the window are given to
//! it.
//!
//! # PIR window
//!
//! The PIR database covers the newest [`L0_MAX_SHARDS`] shards with stored
//! leaves. As shards are added beyond that, the oldest ones leave the window:
//! their rows are no longer served, and of each only its root stays in the
//! broadcast cap.

pub mod snapshot;

use crate::bytes::push_bytes;
use crate::text::{decimal, push_decimal};
use crate::witness::merkle::{
    hash_bytes, lemma_node_local, lemma_node_past_end, lemma_node_run, node_at,
};
use crate::witness::sinsemilla::{
    empty_leaf, empty_root, hash_combine, is_canonical, lemma_empty_leaf_canonical,
    precompute_empty_roots,
};
use crate::witness::witness_types::{
    position_of, spans, BroadcastData, CapData, ShardSubRoots, L0_DB_BYTES, L0_DB_ROWS,
    L0_MAX_SHARDS, SHARD_HEIGHT, SHARD_LEAVES, SUBSHARDS_PER_SHARD, SUBSHARD_HEIGHT,
    SUBSHARD_LEAVES, SUBSHARD_ROW_BYTES, TREE_DEPTH,
};
use vstd::arithmetic::power2::{
    lemma2_to64, lemma_pow2_pos, lemma_pow2_strictly_increases, lemma_pow2_unfold, pow2,
};
use vstd::prelude::*;
use vstd::string::StringExecFns;

verus! {

/// How many commitments a block contributed. Removing the block removes that
/// many leaves from the end.
#[derive(Debug, Clone, Copy)]
pub struct BlockRecord {
    pub height: u64,
    pub hash: [u8; 32],
    pub num_commitments: u32,
}

/// What can go wrong with a tree.
#[derive(Debug)]
pub enum TreeError {
    ShardOutOfRange { shard_idx: u32, populated: u32 },
    SnapshotCorrupted { reason: String },
}

impl TreeError {
    /// The text of the error.
    pub open spec fn text(self) -> Seq<char> {
        match self {
            TreeError::ShardOutOfRange { shard_idx, populated } => "shard index "@ + decimal(
                shard_idx as int,
            ) + " out of range (populated: "@ + decimal(populated as int) + ")"@,
            TreeError::SnapshotCorrupted { reason } => "snapshot corrupted: "@ + reason@,
        }
    }

    /// The text of the error.
    pub fn message(&self) -> (message: String)
        ensures
            message@ == self.text(),
    {
        match self {
            TreeError::ShardOutOfRange { shard_idx, populated } => {
                let mut message = String::from_str("shard index ");
                push_decimal(&mut message, *shard_idx as u128);
                message.append(" out of range (populated: ");
                push_decimal(&mut message, *populated as u128);
                message.append(")");
                message
            },
            TreeError::SnapshotCorrupted { reason } => {
                let mut message = String::from_str("snapshot corrupted: ");
                message.append(reason.as_str());
                message
            },
        }
    }
}

/// The contents of a [`CommitmentTreeDb`].
pub ghost struct TreeState {
    /// Stored leaves; `leaves[i]` is at global position `leaf_offset + i`.
    pub leaves: Seq<[u8; 32]>,
    /// One record per ingested block, oldest first.
    pub blocks: Seq<BlockRecord>,
    /// Global position of the first stored leaf.
    pub leaf_offset: u64,
    /// Roots of the shards before the stored leaves.
    pub prefetched_shard_roots: Seq<[u8; 32]>,
    /// Sub-shard roots that are known, by place among the stored sub-shards.
    pub ss_root_cache: Seq<Option<[u8; 32]>>,
}

/// The number of commitments that a run of blocks contributed.
pub open spec fn total_commitments(blocks: Seq<BlockRecord>) -> nat
    decreases blocks.len(),
{
    if blocks.len() == 0 {
        0
    } else {
        total_commitments(blocks.drop_last()) + blocks.last().num_commitments as nat
    }
}

/// How many blocks are left once the newest ones above `target_height` are
/// removed.
pub open spec fn blocks_kept(blocks: Seq<BlockRecord>, target_height: u64) -> nat
    decreases blocks.len(),
{
    if blocks.len() == 0 || blocks.last().height <= target_height {
        blocks.len()
    } else {
        blocks_kept(blocks.drop_last(), target_height)
    }
}

impl TreeState {
    /// A tree without leaves whose first leaf is to be at `leaf_offset`.
    pub open spec fn empty(leaf_offset: u64, prefetched_shard_roots: Seq<[u8; 32]>) -> TreeState {
        TreeState {
            leaves: seq![],
            blocks: seq![],
            leaf_offset,
            prefetched_shard_roots,
            ss_root_cache: Seq::new(L0_DB_ROWS as nat, |i: int| None),
        }
    }

    /// Number of leaves in the global tree.
    pub open spec fn tree_size(self) -> int {
        self.leaf_offset + self.leaves.len()
    }

    /// First shard whose leaves are stored.
    pub open spec fn first_shard(self) -> int {
        self.leaf_offset as int / SHARD_LEAVES as int
    }

    /// Number of shards with stored leaves.
    pub open spec fn local_shards(self) -> int {
        spans(self.leaves.len() as int, SHARD_LEAVES as int)
    }

    /// Number of shards with stored leaves that have left the PIR window.
    pub open spec fn left_shards(self) -> int {
        if self.local_shards() > L0_MAX_SHARDS {
            self.local_shards() - L0_MAX_SHARDS
        } else {
            0
        }
    }

    /// First shard of the PIR window.
    pub open spec fn window_start(self) -> int {
        self.first_shard() + self.left_shards()
    }

    /// Number of shards of the PIR window: the newest ones.
    pub open spec fn window_count(self) -> int {
        self.local_shards() - self.left_shards()
    }

    /// Whether the tree has no more leaves than a tree of depth 32 holds.
    pub open spec fn in_capacity(self) -> bool {
        self.tree_size() <= 0x1_0000_0000
    }

    /// Whether every stored leaf can be hashed.
    pub open spec fn leaves_hashable(self) -> bool {
        forall|i: int| 0 <= i < self.leaves.len() ==> is_canonical((#[trigger] self.leaves[i])@)
    }

    /// Whether every given root can be hashed.
    pub open spec fn prefetched_hashable(self) -> bool {
        forall|i: int|
            0 <= i < self.prefetched_shard_roots.len() ==> is_canonical(
                (#[trigger] self.prefetched_shard_roots[i])@,
            )
    }

    /// The leaf `i` places after the first stored one, or the empty leaf past
    /// the frontier.
    pub open spec fn local_leaf(self, i: int) -> Seq<u8> {
        if 0 <= i < self.leaves.len() {
            self.leaves[i]@
        } else {
            empty_leaf()
        }
    }

    /// The 256 leaves of the sub-shard at the given place among the stored
    /// ones.
    pub open spec fn subshard_leaf_bytes(self, slot: int) -> Seq<Seq<u8>> {
        Seq::new(SUBSHARD_LEAVES as nat, |i: int| self.local_leaf(slot * SUBSHARD_LEAVES + i))
    }

    /// Root of the sub-shard at the given place among the stored ones.
    pub open spec fn subshard_root(self, slot: int) -> Seq<u8> {
        node_at(hash_bytes(self.leaves), 0, SUBSHARD_HEIGHT as nat, slot)
    }

    /// Roots of the 256 sub-shards of the shard at the given place among the
    /// stored ones.
    pub open spec fn shard_subroots(self, local_shard: int) -> Seq<Seq<u8>> {
        Seq::new(
            SUBSHARDS_PER_SHARD as nat,
            |ss: int| self.subshard_root(local_shard * SUBSHARDS_PER_SHARD + ss),
        )
    }

    /// Root of the shard with the given global index.
    pub open spec fn shard_root(self, shard: int) -> Seq<u8> {
        if shard < self.first_shard() {
            if shard < self.prefetched_shard_roots.len() {
                self.prefetched_shard_roots[shard]@
            } else {
                empty_root(SHARD_HEIGHT as nat)
            }
        } else {
            node_at(hash_bytes(self.leaves), 0, SHARD_HEIGHT as nat, shard - self.first_shard())
        }
    }

    /// Roots of all populated shards.
    pub open spec fn shard_root_seq(self) -> Seq<Seq<u8>> {
        Seq::new(
            spans(self.tree_size(), SHARD_LEAVES as int) as nat,
            |i: int| self.shard_root(i),
        )
    }

    /// Root of the whole tree.
    pub open spec fn root(self) -> Seq<u8> {
        node_at(
            self.shard_root_seq(),
            SHARD_HEIGHT as nat,
            (TREE_DEPTH - SHARD_HEIGHT) as nat,
            0,
        )
    }

    /// The PIR database: the leaves of the window row by row, each sub-shard
    /// one row, and zero bytes for the rows past the window.
    pub open spec fn pir_db(self) -> Seq<u8> {
        Seq::new(
            L0_DB_BYTES as nat,
            |k: int|
                if k / 32 < self.window_count() * SHARD_LEAVES {
                    self.local_leaf(self.left_shards() * SHARD_LEAVES + k / 32)[k % 32]
                } else {
                    0u8
                },
        )
    }

    /// Whether `broadcast` is the payload of this tree at `anchor_height`.
    pub open spec fn broadcasts(self, broadcast: BroadcastData, anchor_height: u64) -> bool {
        &&& hash_bytes(broadcast.cap.shard_roots@) == self.shard_root_seq()
        &&& broadcast.subshard_roots@.len() == self.window_count()
        &&& forall|i: int|
            0 <= i < self.window_count() ==> hash_bytes(
                (#[trigger] broadcast.subshard_roots@[i]).roots@,
            ) == self.shard_subroots(self.left_shards() + i)
        &&& broadcast.window_start_shard == self.window_start()
        &&& broadcast.window_shard_count == self.window_count()
        &&& broadcast.anchor_height == anchor_height
    }

    /// The root that the tree holds for a sub-shard: the cached one, or the one
    /// that it computes.
    pub open spec fn held_root(self, slot: int) -> Seq<u8> {
        if 0 <= slot < L0_DB_ROWS && self.ss_root_cache[slot] is Some {
            self.ss_root_cache[slot]->0@
        } else {
            self.subshard_root(slot)
        }
    }

    /// The roots that the tree holds for the 256 sub-shards of the shard at the
    /// given place among the stored ones.
    pub open spec fn held_subroots(self, local_shard: int) -> Seq<Seq<u8>> {
        Seq::new(
            SUBSHARDS_PER_SHARD as nat,
            |ss: int| self.held_root(local_shard * SUBSHARDS_PER_SHARD + ss),
        )
    }

    /// Root of the shard with the given global index, from the sub-shard roots
    /// that the tree holds.
    pub open spec fn held_shard_root(self, shard: int) -> Seq<u8> {
        if shard < self.first_shard() {
            self.shard_root(shard)
        } else {
            node_at(
                self.held_subroots(shard - self.first_shard()),
                SUBSHARD_HEIGHT as nat,
                (SHARD_HEIGHT - SUBSHARD_HEIGHT) as nat,
                0,
            )
        }
    }

    /// Whether `broadcast` is the payload at `anchor_height` that is made of
    /// the sub-shard roots that this tree holds. Where the cache is true, it is
    /// the payload of the tree.
    pub open spec fn publishes(self, broadcast: BroadcastData, anchor_height: u64) -> bool {
        &&& broadcast.cap.shard_roots@.len() == spans(self.tree_size(), SHARD_LEAVES as int)
        &&& forall|i: int|
            0 <= i < broadcast.cap.shard_roots@.len() ==> (
            #[trigger] broadcast.cap.shard_roots@[i])@ == self.held_shard_root(i)
        &&& broadcast.subshard_roots@.len() == self.window_count()
        &&& forall|i: int|
            0 <= i < self.window_count() ==> hash_bytes(
                (#[trigger] broadcast.subshard_roots@[i]).roots@,
            ) == self.held_subroots(self.left_shards() + i)
        &&& broadcast.window_start_shard == self.window_start()
        &&& broadcast.window_shard_count == self.window_count()
        &&& broadcast.anchor_height == anchor_height
    }

    /// Whether `after` is this tree with the root that it holds for every
    /// sub-shard that the leaves reach, and that the cache has a place for, in
    /// the cache.
    pub open spec fn cache_filled(self, after: TreeState) -> bool {
        &&& after == TreeState { ss_root_cache: after.ss_root_cache, ..self }
        &&& after.ss_root_cache.len() == self.ss_root_cache.len()
        &&& forall|slot: int|
            0 <= slot < L0_DB_ROWS ==> if slot * SUBSHARD_LEAVES < self.leaves.len() {
                (#[trigger] after.ss_root_cache[slot]) is Some && after.ss_root_cache[slot]->0@
                    == self.held_root(slot)
            } else {
                after.ss_root_cache[slot] == self.ss_root_cache[slot]
            }
    }

    /// What holds of every tree: the leaves start at a shard, the block
    /// records account for all leaves, and every cached root is a node that
    /// can be hashed, of a sub-shard that the leaves reach.
    pub open spec fn shaped(self) -> bool {
        &&& self.leaf_offset as int % SHARD_LEAVES as int == 0
        &&& self.tree_size() <= u64::MAX
        &&& self.prefetched_shard_roots.len() <= u64::MAX
        &&& total_commitments(self.blocks) == self.leaves.len()
        &&& self.ss_root_cache.len() == L0_DB_ROWS
        &&& forall|slot: int|
            0 <= slot < L0_DB_ROWS && (#[trigger] self.ss_root_cache[slot]) is Some ==> slot
                * SUBSHARD_LEAVES < self.leaves.len() && is_canonical(
                self.ss_root_cache[slot]->0@,
            )
    }

    /// Whether every cached root is the root of its sub-shard.
    pub open spec fn cache_true(self) -> bool {
        forall|slot: int|
            0 <= slot < L0_DB_ROWS && (#[trigger] self.ss_root_cache[slot]) is Some
                ==> self.ss_root_cache[slot]->0@ == self.subshard_root(slot)
    }

    /// What holds of every tree whose cached roots were computed from its own
    /// leaves.
    pub open spec fn valid(self) -> bool {
        self.shaped() && self.cache_true()
    }

    /// The tree after a block's commitments are appended. Cached roots of the
    /// sub-shards that the new leaves touch are forgotten.
    pub open spec fn appended(
        self,
        height: u64,
        hash: [u8; 32],
        commitments: Seq<[u8; 32]>,
    ) -> TreeState {
        let first_dirty = self.leaves.len() as int / SUBSHARD_LEAVES as int;
        let last_dirty = (self.leaves.len() + commitments.len() - 1) / SUBSHARD_LEAVES as int;
        TreeState {
            leaves: self.leaves + commitments,
            blocks: self.blocks.push(
                BlockRecord { height, hash, num_commitments: commitments.len() as u32 },
            ),
            ss_root_cache: Seq::new(
                self.ss_root_cache.len(),
                |i: int|
                    if commitments.len() > 0 && first_dirty <= i <= last_dirty {
                        None
                    } else {
                        self.ss_root_cache[i]
                    },
            ),
            ..self
        }
    }

    /// The tree after the newest blocks above `target_height` are removed with
    /// their leaves. Cached roots from the frontier sub-shard on are
    /// forgotten.
    pub open spec fn rolled_back(self, target_height: u64) -> TreeState {
        let blocks = self.blocks.take(blocks_kept(self.blocks, target_height) as int);
        let leaves = self.leaves.take(total_commitments(blocks) as int);
        let frontier = if leaves.len() == 0 {
            0
        } else {
            (leaves.len() - 1) / SUBSHARD_LEAVES as int
        };
        TreeState {
            leaves,
            blocks,
            ss_root_cache: Seq::new(
                self.ss_root_cache.len(),
                |i: int|
                    if i >= frontier {
                        None
                    } else {
                        self.ss_root_cache[i]
                    },
            ),
            ..self
        }
    }
}

/// Whether every node of a broadcast payload can be hashed.
pub open spec fn is_hashable(broadcast: BroadcastData) -> bool {
    &&& forall|i: int|
        0 <= i < broadcast.cap.shard_roots@.len() ==> is_canonical(
            (#[trigger] broadcast.cap.shard_roots@[i])@,
        )
    &&& forall|i: int, j: int|
        0 <= i < broadcast.subshard_roots@.len() && 0 <= j
            < broadcast.subshard_roots@[i].roots@.len() ==> is_canonical(
            (#[trigger] broadcast.subshard_roots@[i].roots@[j])@,
        )
}

/// In-memory Orchard note commitment tree.
pub struct CommitmentTreeDb {
    leaves: Vec<[u8; 32]>,
    blocks: Vec<BlockRecord>,
    empty_roots: Vec<[u8; 32]>,
    leaf_offset: u64,
    prefetched_shard_roots: Vec<[u8; 32]>,
    ss_root_cache: Vec<Option<[u8; 32]>>,
}

impl View for CommitmentTreeDb {
    type V = TreeState;

    closed spec fn view(&self) -> TreeState {
        TreeState {
            leaves: self.leaves@,
            blocks: self.blocks@,
            leaf_offset: self.leaf_offset,
            prefetched_shard_roots: self.prefetched_shard_roots@,
            ss_root_cache: self.ss_root_cache@,
        }
    }
}

impl Default for CommitmentTreeDb {
    fn default() -> (tree: Self)
        ensures
            tree.wf(),
            tree@ == TreeState::empty(0, seq![]),
    {
        CommitmentTreeDb::new()
    }
}

/// Whether `roots` are the empty subtree roots of levels `0..=TREE_DEPTH`.
pub open spec fn are_empty_roots(roots: Seq<[u8; 32]>) -> bool {
    &&& roots.len() == TREE_DEPTH + 1
    &&& forall|l: int|
        0 <= l <= TREE_DEPTH ==> (#[trigger] roots[l])@ == empty_root(l as nat) && is_canonical(
            roots[l]@,
        )
}

impl CommitmentTreeDb {
    /// The contents have the shape of a tree, and the precomputed roots are
    /// the empty subtree roots.
    pub closed spec fn shaped(&self) -> bool {
        self@.shaped() && are_empty_roots(self.empty_roots@)
    }

    /// The tree has its shape, and what its cache holds is true. Every tree
    /// that is built up from an empty one is so; one that was read from a
    /// snapshot is so where the snapshot was taken of such a tree.
    pub open spec fn wf(&self) -> bool {
        self.shaped() && self@.valid()
    }

    /// What a tree's own predicate says of its contents.
    pub proof fn lemma_shaped(&self)
        requires
            self.shaped(),
        ensures
            self@.shaped(),
            self@.cache_true() ==> self.wf(),
    {
    }

    /// The contents of a well-formed tree are valid.
    pub proof fn lemma_wf(&self)
        requires
            self.wf(),
        ensures
            self@.valid(),
    {
    }

    /// An empty tree that stores all leaves.
    pub fn new() -> (tree: Self)
        ensures
            tree.wf(),
            tree@ == TreeState::empty(0, seq![]),
    {
        Self::with_offset(0, Vec::new())
    }

    /// A tree that stores only leaves starting at `leaf_offset`, which is the
    /// start of a shard. `prefetched_shard_roots` holds the roots of the
    /// shards before it.
    pub fn with_offset(leaf_offset: u64, prefetched_shard_roots: Vec<[u8; 32]>) -> (tree: Self)
        requires
            leaf_offset as int % SHARD_LEAVES as int == 0,
        ensures
            tree.wf(),
            tree@ == TreeState::empty(leaf_offset, prefetched_shard_roots@),
    {
        let ss_root_cache: Vec<Option<[u8; 32]>> = empty_cache();
        let tree = CommitmentTreeDb {
            leaves: Vec::new(),
            blocks: Vec::new(),
            empty_roots: precompute_empty_roots(),
            leaf_offset,
            prefetched_shard_roots,
            ss_root_cache,
        };
        assert(prefetched_shard_roots.len() <= u64::MAX);
        assert(tree@ =~= TreeState::empty(leaf_offset, prefetched_shard_roots@));
        tree
    }

    /// Appends the note commitments of a newly ingested block.
    pub fn append_commitments(&mut self, height: u64, hash: [u8; 32], commitments: &[[u8; 32]])
        requires
            old(self).shaped(),
            old(self)@.tree_size() + commitments@.len() <= u64::MAX,
            commitments@.len() <= u32::MAX,
        ensures
            final(self).shaped(),
            old(self).wf() ==> final(self).wf(),
            final(self)@ == old(self)@.appended(height, hash, commitments@),
    {
        let ghost before = self@;
        let ghost after = before.appended(height, hash, commitments@);
        if commitments.len() > 0 {
            let old_local_len: usize = self.leaves.len();
            append_hashes(&mut self.leaves, commitments);
            let new_local_len: usize = self.leaves.len();

            let first_dirty: usize = old_local_len / SUBSHARD_LEAVES;
            let last_dirty: usize = (new_local_len - 1) / SUBSHARD_LEAVES;
            let end: usize = if last_dirty < L0_DB_ROWS {
                last_dirty + 1
            } else {
                L0_DB_ROWS
            };
            if first_dirty < end {
                self.clear_cache(first_dirty, end);
            }
        }
        self.blocks.push(
            BlockRecord { height, hash, num_commitments: commitments.len() as u32 },
        );
        proof {
            assert(self.leaves@ =~= after.leaves);
            assert(self.ss_root_cache@ =~= after.ss_root_cache);
            assert(self@ =~= after);
            assert(after.blocks.drop_last() =~= before.blocks);
            assert forall|slot: int|
                0 <= slot < L0_DB_ROWS && (#[trigger] after.ss_root_cache[slot]) is Some implies slot
                * SUBSHARD_LEAVES < after.leaves.len() && is_canonical(
                after.ss_root_cache[slot]->0@,
            ) && after.subshard_root(slot) == before.subshard_root(slot) by {
                assert(before.ss_root_cache[slot] is Some);
                if commitments@.len() > 0 {
                    assert(slot < before.leaves.len() as int / SUBSHARD_LEAVES as int);
                    lemma_same_subshard(before.leaves, after.leaves, slot);
                } else {
                    assert(after.leaves =~= before.leaves);
                }
            }
        }
    }

    /// Rolls back all newest blocks with height strictly greater than
    /// `target_height`.
    pub fn rollback_to(&mut self, target_height: u64)
        requires
            old(self).shaped(),
        ensures
            final(self).shaped(),
            old(self).wf() ==> final(self).wf(),
            final(self)@ == old(self)@.rolled_back(target_height),
            final(self)@.tree_size() <= old(self)@.tree_size(),
    {
        let ghost before = self@;
        let ghost after = before.rolled_back(target_height);
        let ghost kept = blocks_kept(before.blocks, target_height) as int;
        proof {
            lemma_blocks_kept(before.blocks, target_height);
            lemma_total_take(before.blocks, kept);
        }
        let mut new_len: usize = self.leaves.len();
        while self.blocks.len() > 0 && self.blocks[self.blocks.len() - 1].height > target_height
            invariant
                self.leaves@ == before.leaves,
                self.leaf_offset == before.leaf_offset,
                self.prefetched_shard_roots@ == before.prefetched_shard_roots,
                self.ss_root_cache@ == before.ss_root_cache,
                are_empty_roots(self.empty_roots@),
                self.blocks@.len() <= before.blocks.len(),
                self.blocks@ == before.blocks.take(self.blocks@.len() as int),
                blocks_kept(self.blocks@, target_height) == kept,
                new_len == total_commitments(self.blocks@),
                new_len <= before.leaves.len(),
            decreases self.blocks@.len(),
        {
            let ghost blocks = self.blocks@;
            let removed = self.blocks.pop();
            proof {
                assert(self.blocks@ =~= blocks.drop_last());
                assert(self.blocks@ =~= before.blocks.take(self.blocks@.len() as int));
            }
            if let Some(block) = removed {
                new_len = new_len - block.num_commitments as usize;
            }
        }
        proof {
            assert(self.blocks@.len() == kept);
            assert(self.blocks@ =~= before.blocks.take(kept));
        }
        self.leaves.truncate(new_len);
        let frontier_slot: usize = if new_len == 0 {
            0
        } else {
            (new_len - 1) / SUBSHARD_LEAVES
        };
        if frontier_slot < L0_DB_ROWS {
            self.clear_cache(frontier_slot, L0_DB_ROWS);
        }
        proof {
            assert(self.leaves@ =~= after.leaves);
            assert(self.ss_root_cache@ =~= after.ss_root_cache);
            assert(self@ =~= after);
            assert forall|slot: int|
                0 <= slot < L0_DB_ROWS && (#[trigger] after.ss_root_cache[slot]) is Some implies slot
                * SUBSHARD_LEAVES < after.leaves.len() && is_canonical(
                after.ss_root_cache[slot]->0@,
            ) && after.subshard_root(slot) == before.subshard_root(slot) by {
                assert(before.ss_root_cache[slot] is Some);
                lemma_same_subshard(before.leaves, after.leaves, slot);
            }
        }
    }

    /// Total number of leaves in the global tree.
    pub fn tree_size(&self) -> (size: u64)
        requires
            self.shaped(),
        ensures
            size == self@.tree_size(),
    {
        self.leaf_offset + self.leaves.len() as u64
    }

    /// Height of the most recently ingested block, if any.
    pub fn latest_height(&self) -> (height: Option<u64>)
        ensures
            height == (if self@.blocks.len() == 0 {
                None
            } else {
                Some(self@.blocks.last().height)
            }),
    {
        if self.blocks.len() == 0 {
            None
        } else {
            Some(self.blocks[self.blocks.len() - 1].height)
        }
    }

    /// Hash of the most recently ingested block, if any.
    pub fn latest_block_hash(&self) -> (hash: Option<[u8; 32]>)
        ensures
            hash == (if self@.blocks.len() == 0 {
                None
            } else {
                Some(self@.blocks.last().hash)
            }),
    {
        if self.blocks.len() == 0 {
            None
        } else {
            Some(self.blocks[self.blocks.len() - 1].hash)
        }
    }

    /// Number of populated shards in the global tree (completed and frontier).
    pub fn populated_shards(&self) -> (shards: u32)
        requires
            self.shaped(),
        ensures
            shards == spans(self@.tree_size(), SHARD_LEAVES as int) as u32,
    {
        let total: u64 = self.tree_size();
        if total == 0 {
            0
        } else {
            ((total - 1) / SHARD_LEAVES as u64 + 1) as u32
        }
    }

    /// First shard index in the PIR window.
    pub fn window_start_shard(&self) -> (shard: u32)
        ensures
            shard == self@.window_start() as u32,
    {
        let first: u64 = self.leaf_offset / 65_536;
        let local: u64 = self.local_shards_exact();
        if local > L0_MAX_SHARDS as u64 {
            (first + (local - L0_MAX_SHARDS as u64)) as u32
        } else {
            first as u32
        }
    }

    fn local_shards_exact(&self) -> (shards: u64)
        ensures
            shards == self@.local_shards(),
            shards <= 0x1_0000_0000_0000,
    {
        if self.leaves.len() == 0 {
            0
        } else {
            (self.leaves.len() - 1) as u64 / SHARD_LEAVES as u64 + 1
        }
    }

    /// Number of shards with local leaf data.
    pub fn local_shard_count(&self) -> (shards: u32)
        ensures
            shards == self@.local_shards() as u32,
    {
        self.local_shards_exact() as u32
    }

    /// Number of shards in the PIR window, at most [`L0_MAX_SHARDS`].
    pub fn window_shard_count(&self) -> (shards: u32)
        ensures
            shards == self@.window_count(),
    {
        let local: u64 = self.local_shards_exact();
        if local < L0_MAX_SHARDS as u64 {
            local as u32
        } else {
            L0_MAX_SHARDS as u32
        }
    }

    /// Global leaf offset.
    pub fn leaf_offset(&self) -> (offset: u64)
        ensures
            offset == self@.leaf_offset,
    {
        self.leaf_offset
    }

    /// Roots of the shards before the stored leaves.
    pub fn prefetched_shard_roots(&self) -> (roots: &[[u8; 32]])
        ensures
            roots@ == self@.prefetched_shard_roots,
    {
        self.prefetched_shard_roots.as_slice()
    }

    /// Block records, oldest first.
    pub fn blocks(&self) -> (blocks: &[BlockRecord])
        ensures
            blocks@ == self@.blocks,
    {
        self.blocks.as_slice()
    }

    /// Stored leaves in append order.
    pub fn leaves(&self) -> (leaves: &[[u8; 32]])
        ensures
            leaves@ == self@.leaves,
    {
        self.leaves.as_slice()
    }

    /// Precomputed empty subtree roots for levels `0..=TREE_DEPTH`.
    pub fn empty_roots(&self) -> (roots: &[[u8; 32]])
        requires
            self.shaped(),
        ensures
            are_empty_roots(roots@),
    {
        self.empty_roots.as_slice()
    }

    /// Sub-shard root cache.
    pub fn ss_root_cache(&self) -> (cache: &[Option<[u8; 32]>])
        ensures
            cache@ == self@.ss_root_cache,
    {
        self.ss_root_cache.as_slice()
    }

    /// The 256 leaf commitments of a sub-shard. The shard is not before the
    /// stored leaves; positions beyond the frontier hold the empty leaf, not
    /// zero bytes.
    pub fn subshard_leaves(&self, shard_idx: u32, subshard_idx: u8) -> (leaves: Vec<[u8; 32]>)
        requires
            self.shaped(),
            self@.first_shard() <= shard_idx,
        ensures
            hash_bytes(leaves@) == self@.subshard_leaf_bytes(
                (shard_idx - self@.first_shard()) * SUBSHARDS_PER_SHARD + subshard_idx,
            ),
    {
        let empty_leaf = self.empty_roots[0];
        let start: u64 = subshard_start(shard_idx, subshard_idx as usize) - self.leaf_offset;
        let len: u64 = self.leaves.len() as u64;
        let mut leaves: Vec<[u8; 32]> = Vec::with_capacity(SUBSHARD_LEAVES);
        let mut i: usize = 0;
        while i < SUBSHARD_LEAVES
            invariant
                i <= SUBSHARD_LEAVES,
                self.shaped(),
                empty_leaf@ == crate::witness::sinsemilla::empty_leaf(),
                len == self.leaves.len(),
                start <= 0x1_0000_0000_0000,
                start == position_of(shard_idx as int, subshard_idx as int, 0)
                    - self@.leaf_offset,
                leaves@.len() == i,
                forall|k: int|
                    0 <= k < i ==> (#[trigger] leaves@[k])@ == self@.local_leaf(start + k),
            decreases SUBSHARD_LEAVES - i,
        {
            let local: u64 = start + i as u64;
            if local < len {
                leaves.push(self.leaves[local as usize]);
            } else {
                leaves.push(empty_leaf);
            }
            i += 1;
        }
        assert(hash_bytes(leaves@) =~= self@.subshard_leaf_bytes(
                (shard_idx - self@.first_shard()) * SUBSHARDS_PER_SHARD + subshard_idx,
            ));
        leaves
    }

    /// Root of a complete binary subtree over exactly `2^k` nodes of level
    /// `base_level`.
    pub fn complete_subtree_root(&self, leaves: &[[u8; 32]], base_level: u8) -> (root: [u8; 32])
        requires
            exists|k: nat| #[trigger] pow2(k) == leaves@.len() && base_level + k <= u8::MAX,
            leaves@.len() > 1 ==> forall|i: int|
                0 <= i < leaves@.len() ==> is_canonical((#[trigger] leaves@[i])@),
        ensures
            forall|k: nat| #[trigger]
                pow2(k) == leaves@.len() ==> root@ == node_at(
                    hash_bytes(leaves@),
                    base_level as nat,
                    k,
                    0,
                ),
            leaves@.len() > 1 ==> is_canonical(root@),
    {
        let ghost h = choose|k: nat| #[trigger]
            pow2(k) == leaves@.len() && base_level + k <= u8::MAX;
        proof {
            lemma2_to64();
            lemma_pow2_pos(h);
            assert forall|k: nat| #[trigger] pow2(k) == leaves@.len() implies k == h by {
                lemma_pow2_injective(k, h);
            }
        }
        if leaves.len() == 1 {
            proof {
                lemma_pow2_injective(0, h);
            }
            return leaves[0];
        }
        let ghost nodes = hash_bytes(leaves@);
        let mut current: Vec<[u8; 32]> = Vec::new();
        append_hashes(&mut current, leaves);
        let mut level: u8 = base_level;
        let ghost mut done: nat = 0;
        assert(current@ =~= leaves@);
        while current.len() > 1
            invariant
                done <= h,
                level == base_level + done,
                base_level + h <= u8::MAX,
                current@.len() == pow2((h - done) as nat),
                nodes == hash_bytes(leaves@),
                forall|i: int|
                    0 <= i < current@.len() ==> (#[trigger] current@[i])@ == node_at(
                        nodes,
                        base_level as nat,
                        done,
                        i,
                    ) && is_canonical(current@[i]@),
            decreases current@.len(),
        {
            proof {
                lemma2_to64();
                assert(done < h);
                lemma_pow2_unfold((h - done) as nat);
            }
            let half: usize = current.len() / 2;
            let mut next: Vec<[u8; 32]> = Vec::with_capacity(half);
            let mut i: usize = 0;
            while i < half
                invariant
                    i <= half,
                    current.len() == 2 * half,
                    level == base_level + done,
                    next@.len() == i,
                    forall|k: int|
                        0 <= k < current@.len() ==> (#[trigger] current@[k])@ == node_at(
                            nodes,
                            base_level as nat,
                            done,
                            k,
                        ) && is_canonical(current@[k]@),
                    forall|k: int|
                        0 <= k < i ==> (#[trigger] next@[k])@ == node_at(
                            nodes,
                            base_level as nat,
                            done + 1,
                            k,
                        ) && is_canonical(next@[k]@),
                decreases half - i,
            {
                let parent = hash_combine(level, &current[2 * i], &current[2 * i + 1]);
                next.push(parent);
                i += 1;
            }
            current = next;
            level = level + 1;
            proof {
                done = done + 1;
            }
        }
        proof {
            lemma2_to64();
            lemma_pow2_pos((h - done) as nat);
            lemma_pow2_injective((h - done) as nat, 0);
        }
        current[0]
    }

    /// Root of a stored sub-shard.
    fn subshard_root_of(&self, leaves: &Vec<[u8; 32]>, slot: Ghost<int>) -> (root: [u8; 32])
        requires
            self.shaped(),
            self@.leaves_hashable(),
            0 <= slot@,
            hash_bytes(leaves@) == self@.subshard_leaf_bytes(slot@),
        ensures
            root@ == self@.subshard_root(slot@),
            is_canonical(root@),
    {
        proof {
            lemma2_to64();
            lemma_empty_leaf_canonical();
            assert(hash_bytes(leaves@).len() == 256);
            assert forall|i: int| 0 <= i < leaves@.len() implies is_canonical(
                (#[trigger] leaves@[i])@,
            ) by {
                assert(hash_bytes(leaves@)[i] == leaves@[i]@);
            }
            assert(pow2(8) == leaves@.len());
        }
        let root = self.complete_subtree_root(leaves.as_slice(), 0);
        proof {
            let run = hash_bytes(leaves@);
            let nodes = hash_bytes(self@.leaves);
            assert forall|j: int| 0 <= j < run.len() implies #[trigger] run[j] == node_at(
                nodes,
                0,
                0,
                slot@ * pow2(8) + j,
            ) by {}
            lemma_node_run(nodes, run, 0, 0, 8, slot@, 0);
        }
        root
    }

    /// The 256 sub-shard roots of a shard that is not before the stored leaves.
    /// Sub-shards entirely beyond the frontier have the empty root of their
    /// height.
    pub fn subshard_roots(&self, shard_idx: u32) -> (roots: Vec<[u8; 32]>)
        requires
            self.shaped(),
            self@.leaves_hashable(),
            self@.first_shard() <= shard_idx,
        ensures
            hash_bytes(roots@) == self@.shard_subroots(shard_idx - self@.first_shard()),
            forall|ss: int| 0 <= ss < roots@.len() ==> is_canonical((#[trigger] roots@[ss])@),
    {
        let empty_ss_root = self.empty_roots[SUBSHARD_HEIGHT];
        let total: u64 = self.tree_size();
        let ghost first = (shard_idx - self@.first_shard()) * SUBSHARDS_PER_SHARD;
        let mut roots: Vec<[u8; 32]> = Vec::with_capacity(SUBSHARDS_PER_SHARD);
        let mut ss: usize = 0;
        while ss < SUBSHARDS_PER_SHARD
            invariant
                ss <= SUBSHARDS_PER_SHARD,
                self.shaped(),
                self@.leaves_hashable(),
                self@.first_shard() <= shard_idx,
                total == self@.tree_size(),
                first == (shard_idx - self@.first_shard()) * SUBSHARDS_PER_SHARD,
                empty_ss_root@ == empty_root(SUBSHARD_HEIGHT as nat),
                is_canonical(empty_ss_root@),
                roots@.len() == ss,
                forall|k: int|
                    0 <= k < ss ==> (#[trigger] roots@[k])@ == self@.subshard_root(first + k)
                        && is_canonical(roots@[k]@),
            decreases SUBSHARDS_PER_SHARD - ss,
        {
            let ghost slot = first + ss;
            let ss_start: u64 = subshard_start(shard_idx, ss);
            proof {
                lemma2_to64();
                assert(ss_start - self@.leaf_offset == slot * SUBSHARD_LEAVES);
            }
            if ss_start >= total {
                proof {
                    lemma_node_past_end(hash_bytes(self@.leaves), 0, 8, slot);
                }
                roots.push(empty_ss_root);
            } else {
                let leaves = self.subshard_leaves(shard_idx, ss as u8);
                proof {
                    assert(hash_bytes(leaves@) =~= self@.subshard_leaf_bytes(slot));
                }
                roots.push(self.subshard_root_of(&leaves, Ghost(slot)));
            }
            ss += 1;
        }
        assert(hash_bytes(roots@) =~= self@.shard_subroots(shard_idx - self@.first_shard()));
        roots
    }

    /// Root of the shard whose sub-shard roots are given.
    fn shard_root_of(&self, roots: &Vec<[u8; 32]>, local_shard: Ghost<int>) -> (root: [u8; 32])
        requires
            self.shaped(),
            0 <= local_shard@,
            hash_bytes(roots@) == self@.shard_subroots(local_shard@),
            forall|ss: int| 0 <= ss < roots@.len() ==> is_canonical((#[trigger] roots@[ss])@),
        ensures
            root@ == self@.shard_root(local_shard@ + self@.first_shard()),
            is_canonical(root@),
    {
        assert(hash_bytes(roots@).len() == 256);
        let root = self.root_of_subroots(roots);
        proof {
            self@.lemma_shard_root_from_subroots(local_shard@);
        }
        root
    }

    /// Root over 256 sub-shard roots.
    fn root_of_subroots(&self, roots: &Vec<[u8; 32]>) -> (root: [u8; 32])
        requires
            self.shaped(),
            roots@.len() == SUBSHARDS_PER_SHARD,
            forall|ss: int| 0 <= ss < roots@.len() ==> is_canonical((#[trigger] roots@[ss])@),
        ensures
            root@ == node_at(
                hash_bytes(roots@),
                SUBSHARD_HEIGHT as nat,
                (SHARD_HEIGHT - SUBSHARD_HEIGHT) as nat,
                0,
            ),
            is_canonical(root@),
    {
        proof {
            lemma2_to64();
            assert(pow2(8) == roots@.len());
        }
        self.complete_subtree_root(roots.as_slice(), SUBSHARD_HEIGHT as u8)
    }

    /// First shard whose leaves are stored.
    fn first_shard_index(&self) -> (shard: u32)
        requires
            self@.in_capacity(),
        ensures
            shard == self@.first_shard(),
    {
        (self.leaf_offset / SHARD_LEAVES as u64) as u32
    }

    /// Root of a shard before the stored leaves.
    fn prefetched_root(&self, shard: u32) -> (root: [u8; 32])
        requires
            self.shaped(),
            shard < self@.first_shard(),
        ensures
            root@ == self@.shard_root(shard as int),
            self@.prefetched_hashable() ==> is_canonical(root@),
    {
        if (shard as usize) < self.prefetched_shard_roots.len() {
            let root = self.prefetched_shard_roots[shard as usize];
            assert(root == self@.prefetched_shard_roots[shard as int]);
            root
        } else {
            self.empty_roots[SHARD_HEIGHT]
        }
    }

    /// The roots of all populated shards with their indices: given roots for
    /// the shards before the stored leaves, computed ones for the others.
    pub fn shard_roots(&self) -> (roots: Vec<(u32, [u8; 32])>)
        requires
            self.shaped(),
            self@.in_capacity(),
            self@.leaves_hashable(),
        ensures
            roots@.len() == spans(self@.tree_size(), SHARD_LEAVES as int),
            forall|i: int|
                0 <= i < roots@.len() ==> (#[trigger] roots@[i]).0 == i && roots@[i].1@
                    == self@.shard_root(i),
            forall|i: int|
                self@.first_shard() <= i < roots@.len() ==> is_canonical(
                    (#[trigger] roots@[i]).1@,
                ),
            self@.prefetched_hashable() ==> forall|i: int|
                0 <= i < roots@.len() ==> is_canonical((#[trigger] roots@[i]).1@),
    {
        let n: u32 = self.populated_shards();
        let first_shard: u32 = self.first_shard_index();
        let mut roots: Vec<(u32, [u8; 32])> = Vec::new();
        let mut i: u32 = 0;
        while i < n
            invariant
                i <= n,
                n == spans(self@.tree_size(), SHARD_LEAVES as int),
                self.shaped(),
                self@.in_capacity(),
                self@.leaves_hashable(),
                first_shard == self@.first_shard(),
                roots@.len() == i,
                forall|k: int|
                    0 <= k < i ==> (#[trigger] roots@[k]).0 == k && roots@[k].1@
                        == self@.shard_root(k) && (self@.prefetched_hashable() || k
                        >= self@.first_shard() ==> is_canonical(roots@[k].1@)),
            decreases n - i,
        {
            if i < first_shard {
                roots.push((i, self.prefetched_root(i)));
            } else {
                let ss_roots = self.subshard_roots(i);
                let root = self.shard_root_of(&ss_roots, Ghost(i - self@.first_shard()));
                roots.push((i, root));
            }
            i += 1;
        }
        roots
    }

    /// Root of the full depth-32 tree.
    pub fn tree_root(&self) -> (root: [u8; 32])
        requires
            self.shaped(),
            self@.in_capacity(),
            self@.leaves_hashable(),
            self@.prefetched_hashable(),
        ensures
            root@ == self@.root(),
            is_canonical(root@),
    {
        proof {
            lemma2_to64();
        }
        if self.tree_size() == 0 {
            proof {
                assert(self@.shard_root_seq() =~= Seq::empty());
                assert(0 * pow2(16) == 0);
                lemma_node_past_end(self@.shard_root_seq(), 16, 16, 0);
            }
            return self.empty_roots[TREE_DEPTH];
        }
        let indexed = self.shard_roots();
        let mut shard_roots: Vec<[u8; 32]> = Vec::with_capacity(indexed.len());
        let mut i: usize = 0;
        while i < indexed.len()
            invariant
                i <= indexed@.len(),
                shard_roots@.len() == i,
                self@.prefetched_hashable(),
                forall|k: int|
                    0 <= k < indexed@.len() ==> (#[trigger] indexed@[k]).1@ == self@.shard_root(k)
                        && is_canonical(indexed@[k].1@),
                forall|k: int| 0 <= k < i ==> (#[trigger] shard_roots@[k]) == indexed@[k].1,
            decreases indexed@.len() - i,
        {
            shard_roots.push(indexed[i].1);
            i += 1;
        }
        proof {
            assert(hash_bytes(shard_roots@) =~= self@.shard_root_seq());
            assert(shard_roots@.len() <= 0x1_0000);
        }
        self.sparse_subtree_root(shard_roots.as_slice(), SHARD_HEIGHT as u8, SHARD_HEIGHT as u8)
    }

    /// Root of the subtree of the given height whose nodes of `base_level`
    /// are `populated`, packed to the left, and empty beyond them.
    fn sparse_subtree_root(
        &self,
        populated: &[[u8; 32]],
        height: u8,
        base_level: u8,
    ) -> (root: [u8; 32])
        requires
            self.shaped(),
            base_level + height <= TREE_DEPTH,
            forall|i: int|
                0 <= i < populated@.len() ==> is_canonical((#[trigger] populated@[i])@),
        ensures
            root@ == node_at(hash_bytes(populated@), base_level as nat, height as nat, 0),
            is_canonical(root@),
    {
        proof {
            lemma2_to64();
            if height < 32 {
                lemma_pow2_strictly_increases(height as nat, 32);
            }
            assert((0 + 1) * pow2(height as nat) == pow2(height as nat)) by (nonlinear_arith);
        }
        self.sparse_root_rec(populated, 0, height, base_level)
    }

    fn sparse_root_rec(
        &self,
        leaves: &[[u8; 32]],
        index: u64,
        height: u8,
        base_level: u8,
    ) -> (root: [u8; 32])
        requires
            self.shaped(),
            base_level + height <= TREE_DEPTH,
            (index + 1) * pow2(height as nat) <= 0x1_0000_0000,
            forall|i: int| 0 <= i < leaves@.len() ==> is_canonical((#[trigger] leaves@[i])@),
        ensures
            root@ == node_at(
                hash_bytes(leaves@),
                base_level as nat,
                height as nat,
                index as int,
            ),
            is_canonical(root@),
        decreases height,
    {
        proof {
            lemma2_to64();
        }
        if height == 0 {
            proof {
                assert((index + 1) * pow2(0) == index + 1) by (nonlinear_arith)
                    requires
                        pow2(0) == 1,
                ;
            }
            return if index < leaves.len() as u64 {
                leaves[index as usize]
            } else {
                self.empty_roots[base_level as usize]
            };
        }
        let child_height: u8 = height - 1;
        let combine_level: u8 = base_level + child_height;
        let ghost p = pow2(child_height as nat) as int;
        proof {
            lemma_pow2_unfold(height as nat);
            lemma_pow2_pos(child_height as nat);
            assert((index + 1) * (2 * p) == (2 * index + 2) * p && (2 * index + 1) * p <= (2 * index
                + 2) * p && 2 * index + 1 <= (2 * index + 1) * p) by (nonlinear_arith)
                requires
                    p > 0,
            ;
        }
        let left = self.sparse_root_rec(leaves, 2 * index, child_height, base_level);
        let right_start: u64 = self.node_start(2 * index + 1, child_height);
        let right = if right_start >= leaves.len() as u64 {
            proof {
                lemma_node_past_end(
                    hash_bytes(leaves@),
                    base_level as nat,
                    child_height as nat,
                    2 * index + 1,
                );
            }
            self.empty_roots[combine_level as usize]
        } else {
            self.sparse_root_rec(leaves, 2 * index + 1, child_height, base_level)
        };
        hash_combine(combine_level, &left, &right)
    }

    /// First node, `height` levels down, below the node with the given index.
    fn node_start(&self, index: u64, height: u8) -> (start: u64)
        requires
            height <= 32,
            index * pow2(height as nat) <= 0x1_0000_0000,
        ensures
            start == index * pow2(height as nat),
    {
        proof {
            lemma2_to64();
            assert(index * pow2(0) == index) by (nonlinear_arith)
                requires
                    pow2(0) == 1,
            ;
        }
        let mut start: u64 = index;
        let mut h: u8 = 0;
        while h < height
            invariant
                h <= height,
                start == index * pow2(h as nat),
                index * pow2(height as nat) <= 0x1_0000_0000,
            decreases height - h,
        {
            proof {
                lemma_pow2_unfold((h + 1) as nat);
                let (p, q) = (pow2((h + 1) as nat) as int, pow2(height as nat) as int);
                if h + 1 < height {
                    lemma_pow2_strictly_increases((h + 1) as nat, height as nat);
                }
                assert(index * p <= index * q) by (nonlinear_arith)
                    requires
                        p <= q,
                        index >= 0,
                ;
                assert(index * (2 * pow2(h as nat)) == 2 * (index * pow2(h as nat)))
                    by (nonlinear_arith);
            }
            start = 2 * start;
            h = h + 1;
        }
        start
    }

    /// Builds the PIR database and the broadcast payload in a single pass over
    /// the stored shards. Sub-shard roots that the cache holds are not computed
    /// again; the others are added to it.
    pub fn build_pir_db_and_broadcast(&mut self, anchor_height: u64) -> (built: (
        Vec<u8>,
        BroadcastData,
    ))
        requires
            old(self).shaped(),
            old(self)@.in_capacity(),
            old(self)@.leaves_hashable(),
        ensures
            final(self).shaped(),
            old(self).wf() ==> final(self).wf(),
            old(self)@.cache_filled(final(self)@),
            built.0@ == old(self)@.pir_db(),
            old(self)@.publishes(built.1, anchor_height),
            old(self).wf() ==> old(self)@.broadcasts(built.1, anchor_height),
            old(self)@.prefetched_hashable() ==> is_hashable(built.1),
    {
        let ghost before = self@;
        let first_shard: u32 = self.first_shard_index();
        let window_start: u32 = self.window_start_shard();
        let window_count: u32 = self.window_shard_count();
        let local: u32 = self.local_shard_count();
        let left: u32 = local - window_count;
        let mut cap_roots: Vec<[u8; 32]> = Vec::new();
        let mut broadcast_ss: Vec<ShardSubRoots> = Vec::new();
        let mut db: Vec<u8> = Vec::with_capacity(L0_DB_BYTES);

        let mut i: u32 = 0;
        while i < first_shard
            invariant
                i <= first_shard,
                first_shard == before.first_shard(),
                self.shaped(),
                self@ == before,
                cap_roots@.len() == i,
                forall|k: int|
                    0 <= k < i ==> (#[trigger] cap_roots@[k])@ == before.shard_root(k) && (
                    before.prefetched_hashable() ==> is_canonical(cap_roots@[k]@)),
            decreases first_shard - i,
        {
            cap_roots.push(self.prefetched_root(i));
            i += 1;
        }

        let mut s: u32 = 0;
        while s < local
            invariant
                s <= local,
                first_shard == before.first_shard(),
                local == before.local_shards(),
                left == before.left_shards(),
                before.in_capacity(),
                before.leaves_hashable(),
                self.shaped(),
                before.shaped(),
                before.cache_filled_to(self@, s * SUBSHARDS_PER_SHARD),
                cap_roots@.len() == first_shard + s,
                forall|k: int|
                    0 <= k < first_shard + s ==> (#[trigger] cap_roots@[k])@
                        == before.held_shard_root(k) && (before.prefetched_hashable()
                        ==> is_canonical(cap_roots@[k]@)),
                broadcast_ss@.len() == before.built_shards(s as int),
                forall|k: int|
                    0 <= k < before.built_shards(s as int) ==> hash_bytes(
                        (#[trigger] broadcast_ss@[k]).roots@,
                    ) == before.held_subroots(left + k),
                forall|k: int, j: int|
                    0 <= k < before.built_shards(s as int) && 0 <= j
                        < broadcast_ss@[k].roots@.len() ==> is_canonical(
                        (#[trigger] broadcast_ss@[k].roots@[j])@,
                    ),
                db@ == before.window_bytes(before.built_shards(s as int) * SUBSHARDS_PER_SHARD),
            decreases local - s,
        {
            let ghost built = before.built_shards(s as int);
            assert(db@ =~= self@.window_bytes(built * SUBSHARDS_PER_SHARD));
            let ss_roots = self.build_shard(first_shard, s, left, &mut db);
            assert(db@ =~= before.window_bytes(
                before.built_shards(s + 1) * SUBSHARDS_PER_SHARD,
            ));
            assert(hash_bytes(ss_roots@) =~= before.held_subroots(s as int));
            let root = self.root_of_subroots(&ss_roots);
            cap_roots.push(root);
            if s >= left {
                broadcast_ss.push(ShardSubRoots { roots: ss_roots });
            }
            s += 1;
        }
        proof {
            before.lemma_window_bytes_fit();
        }
        db.resize(L0_DB_BYTES, 0u8);
        proof {
            let body = before.window_bytes(before.window_count() * SUBSHARDS_PER_SHARD);
            assert(db@.subrange(0, body.len() as int) == body);
            assert forall|k: int| 0 <= k < L0_DB_BYTES implies db@[k] == before.pir_db()[k] by {
                if k < body.len() {
                    assert(db@[k] == db@.subrange(0, body.len() as int)[k]);
                }
            }
            assert(db@ =~= before.pir_db());
            assert forall|slot: int|
                0 <= slot < L0_DB_ROWS && slot * SUBSHARD_LEAVES < before.leaves.len() implies (
            #[trigger] self@.ss_root_cache[slot]) is Some by {
                assert(slot < local * SUBSHARDS_PER_SHARD);
            }
        }
        let broadcast = BroadcastData {
            cap: CapData { shard_roots: cap_roots },
            subshard_roots: broadcast_ss,
            window_start_shard: window_start,
            window_shard_count: window_count,
            anchor_height,
        };
        proof {
            if before.valid() {
                before.lemma_true_cache_publishes(broadcast, anchor_height);
                before.lemma_filled_cache_is_true(self@);
            }
        }
        (db, broadcast)
    }

    /// Returns the roots of the sub-shards of one stored shard, and appends its
    /// rows to `db` where it has not left the window.
    fn build_shard(&mut self, first_shard: u32, s: u32, left: u32, db: &mut Vec<u8>) -> (roots: Vec<
        [u8; 32],
    >)
        requires
            old(self).shaped(),
            old(self)@.in_capacity(),
            old(self)@.leaves_hashable(),
            first_shard == old(self)@.first_shard(),
            left == old(self)@.left_shards(),
            s < old(self)@.local_shards(),
            s >= left ==> old(db)@ == old(self)@.window_bytes((s - left) * SUBSHARDS_PER_SHARD),
        ensures
            final(self).shaped(),
            final(db)@ == (if s >= left {
                old(self)@.window_bytes((s - left + 1) * SUBSHARDS_PER_SHARD)
            } else {
                old(db)@
            }),
            hash_bytes(roots@) == old(self)@.held_subroots(s as int),
            forall|ss: int| 0 <= ss < roots@.len() ==> is_canonical((#[trigger] roots@[ss])@),
            old(self)@.cache_filled_between(
                final(self)@,
                s * SUBSHARDS_PER_SHARD,
                (s + 1) * SUBSHARDS_PER_SHARD,
            ),
    {
        let ghost before = self@;
        let empty_ss_root = self.empty_roots[SUBSHARD_HEIGHT];
        let total: u64 = self.tree_size();
        let shard_idx: u32 = first_shard + s;
        let ghost first = s * SUBSHARDS_PER_SHARD;
        let mut roots: Vec<[u8; 32]> = Vec::with_capacity(SUBSHARDS_PER_SHARD);
        let mut ss: usize = 0;
        while ss < SUBSHARDS_PER_SHARD
            invariant
                ss <= SUBSHARDS_PER_SHARD,
                s <= 0x1_0000,
                self.shaped(),
                before.shaped(),
                before.in_capacity(),
                before.leaves_hashable(),
                first_shard == before.first_shard(),
                left == before.left_shards(),
                shard_idx == first_shard + s,
                total == before.tree_size(),
                first == s * SUBSHARDS_PER_SHARD,
                empty_ss_root@ == empty_root(SUBSHARD_HEIGHT as nat),
                is_canonical(empty_ss_root@),
                before.cache_filled_between(self@, first, first + ss),
                db@ == (if s >= left {
                    before.window_bytes((s - left) * SUBSHARDS_PER_SHARD + ss)
                } else {
                    old(db)@
                }),
                roots@.len() == ss,
                forall|k: int|
                    0 <= k < ss ==> (#[trigger] roots@[k])@ == before.held_root(first + k)
                        && is_canonical(roots@[k]@),
            decreases SUBSHARDS_PER_SHARD - ss,
        {
            let ghost slot = first + ss;
            let place: usize = s as usize * SUBSHARDS_PER_SHARD + ss;
            let leaves = self.subshard_leaves(shard_idx, ss as u8);
            proof {
                lemma2_to64();
                assert(hash_bytes(leaves@) =~= before.subshard_leaf_bytes(slot));
            }
            if s >= left {
                push_hashes(db, &leaves);
                proof {
                    before.lemma_window_bytes_step(
                        (s - left) * SUBSHARDS_PER_SHARD + ss,
                        hash_bytes(leaves@),
                    );
                }
            }
            let ss_start: u64 = subshard_start(shard_idx, ss);
            let cached: Option<[u8; 32]> = if place < L0_DB_ROWS {
                self.ss_root_cache[place]
            } else {
                None
            };
            if ss_start >= total {
                proof {
                    lemma_node_past_end(hash_bytes(before.leaves), 0, 8, slot);
                }
                roots.push(empty_ss_root);
            } else if let Some(root) = cached {
                roots.push(root);
            } else {
                assert(hash_bytes(leaves@) =~= self@.subshard_leaf_bytes(slot));
                let root = self.subshard_root_of(&leaves, Ghost(slot));
                if place < L0_DB_ROWS {
                    self.ss_root_cache[place] = Some(root);
                }
                roots.push(root);
            }
            ss += 1;
        }
        assert(hash_bytes(roots@) =~= before.held_subroots(s as int));
        roots
    }

    /// Builds the broadcast payload at the given anchor height.
    pub fn broadcast_data(&mut self, anchor_height: u64) -> (broadcast: BroadcastData)
        requires
            old(self).shaped(),
            old(self)@.in_capacity(),
            old(self)@.leaves_hashable(),
        ensures
            final(self).shaped(),
            old(self).wf() ==> final(self).wf(),
            old(self)@.cache_filled(final(self)@),
            old(self)@.publishes(broadcast, anchor_height),
            old(self).wf() ==> old(self)@.broadcasts(broadcast, anchor_height),
            old(self)@.prefetched_hashable() ==> is_hashable(broadcast),
    {
        self.build_pir_db_and_broadcast(anchor_height).1
    }

    /// Builds the PIR database as row-major bytes.
    pub fn build_pir_db(&mut self) -> (db: Vec<u8>)
        requires
            old(self).shaped(),
            old(self)@.in_capacity(),
            old(self)@.leaves_hashable(),
        ensures
            final(self).shaped(),
            old(self).wf() ==> final(self).wf(),
            old(self)@.cache_filled(final(self)@),
            db@ == old(self)@.pir_db(),
    {
        self.build_pir_db_and_broadcast(0).0
    }

    fn clear_cache(&mut self, start: usize, end: usize)
        requires
            start <= end <= old(self).ss_root_cache@.len(),
        ensures
            final(self).leaves == old(self).leaves,
            final(self).blocks == old(self).blocks,
            final(self).empty_roots == old(self).empty_roots,
            final(self).leaf_offset == old(self).leaf_offset,
            final(self).prefetched_shard_roots == old(self).prefetched_shard_roots,
            final(self).ss_root_cache@ == Seq::new(
                old(self).ss_root_cache@.len(),
                |i: int|
                    if start <= i < end {
                        None
                    } else {
                        old(self).ss_root_cache@[i]
                    },
            ),
    {
        let mut slot: usize = start;
        while slot < end
            invariant
                start <= slot <= end <= self.ss_root_cache@.len(),
                self.ss_root_cache@.len() == old(self).ss_root_cache@.len(),
                self.leaves == old(self).leaves,
                self.blocks == old(self).blocks,
                self.empty_roots == old(self).empty_roots,
                self.leaf_offset == old(self).leaf_offset,
                self.prefetched_shard_roots == old(self).prefetched_shard_roots,
                forall|i: int|
                    0 <= i < self.ss_root_cache@.len() ==> #[trigger] self.ss_root_cache@[i] == (if start
                        <= i < slot {
                        None
                    } else {
                        old(self).ss_root_cache@[i]
                    }),
            decreases end - slot,
        {
            self.ss_root_cache[slot] = None;
            slot += 1;
        }
        assert(self.ss_root_cache@ =~= Seq::new(
            old(self).ss_root_cache@.len(),
            |i: int|
                if start <= i < end {
                    None
                } else {
                    old(self).ss_root_cache@[i]
                },
        ));
    }
}

impl TreeState {
    /// The first bytes of the PIR database: those of the given number of
    /// sub-shards of the window.
    spec fn window_bytes(self, subshards: int) -> Seq<u8> {
        Seq::new(
            (subshards * SUBSHARD_ROW_BYTES) as nat,
            |k: int| self.local_leaf(self.left_shards() * SHARD_LEAVES + k / 32)[k % 32],
        )
    }

    /// How many of the first stored shards are in the window.
    spec fn built_shards(self, shards: int) -> int {
        if shards <= self.left_shards() {
            0
        } else {
            shards - self.left_shards()
        }
    }

    /// Whether `after` is this tree with the roots of the sub-shards from
    /// `start` to `end`, where leaves reach them, in the cache.
    spec fn cache_filled_between(self, after: TreeState, start: int, end: int) -> bool {
        &&& after == TreeState { ss_root_cache: after.ss_root_cache, ..self }
        &&& after.ss_root_cache.len() == self.ss_root_cache.len()
        &&& forall|slot: int|
            0 <= slot < L0_DB_ROWS ==> if start <= slot < end && slot * SUBSHARD_LEAVES
                < self.leaves.len() {
                (#[trigger] after.ss_root_cache[slot]) is Some && after.ss_root_cache[slot]->0@
                    == self.held_root(slot)
            } else {
                after.ss_root_cache[slot] == self.ss_root_cache[slot]
            }
    }

    spec fn cache_filled_to(self, after: TreeState, end: int) -> bool {
        self.cache_filled_between(after, 0, end)
    }

    /// Where the cache is true, the payload of the roots that the tree holds is
    /// the payload of the tree.
    proof fn lemma_true_cache_publishes(self, broadcast: BroadcastData, anchor_height: u64)
        requires
            self.valid(),
            self.publishes(broadcast, anchor_height),
        ensures
            self.broadcasts(broadcast, anchor_height),
    {
        assert forall|local: int| 0 <= local implies #[trigger] self.held_subroots(local)
            == self.shard_subroots(local) by {
            assert(self.held_subroots(local) =~= self.shard_subroots(local));
        }
        let cap = hash_bytes(broadcast.cap.shard_roots@);
        assert forall|i: int| 0 <= i < cap.len() implies cap[i] == self.shard_root(i) by {
            assert(broadcast.cap.shard_roots@[i]@ == self.held_shard_root(i));
            if i >= self.first_shard() {
                self.lemma_shard_root_from_subroots(i - self.first_shard());
            }
        }
        assert(cap =~= self.shard_root_seq());
    }

    /// The root of a stored shard is the root over those of its sub-shards.
    proof fn lemma_shard_root_from_subroots(self, local_shard: int)
        requires
            0 <= local_shard,
        ensures
            self.shard_root(local_shard + self.first_shard()) == node_at(
                self.shard_subroots(local_shard),
                SUBSHARD_HEIGHT as nat,
                (SHARD_HEIGHT - SUBSHARD_HEIGHT) as nat,
                0,
            ),
    {
        lemma2_to64();
        let run = self.shard_subroots(local_shard);
        let nodes = hash_bytes(self.leaves);
        assert forall|j: int| 0 <= j < run.len() implies #[trigger] run[j] == node_at(
            nodes,
            0,
            8,
            local_shard * pow2(8) + j,
        ) by {}
        lemma_node_run(nodes, run, 0, 8, 8, local_shard, 0);
    }

    /// Filling a true cache leaves it true.
    proof fn lemma_filled_cache_is_true(self, after: TreeState)
        requires
            self.valid(),
            self.cache_filled(after),
        ensures
            after.cache_true(),
    {
        assert forall|slot: int|
            0 <= slot < L0_DB_ROWS && (#[trigger] after.ss_root_cache[slot]) is Some implies
            after.ss_root_cache[slot]->0@ == after.subshard_root(slot) by {
            assert(self.held_root(slot) == self.subshard_root(slot));
        }
    }

    proof fn lemma_window_bytes_fit(self)
        ensures
            self.window_bytes(self.window_count() * SUBSHARDS_PER_SHARD).len() <= L0_DB_BYTES,
    {
    }

    proof fn lemma_window_bytes_step(self, subshard: int, leaves: Seq<Seq<u8>>)
        requires
            0 <= subshard,
            leaves == self.subshard_leaf_bytes(self.left_shards() * SUBSHARDS_PER_SHARD + subshard),
        ensures
            self.window_bytes(subshard) + concat_hashes(leaves) == self.window_bytes(subshard + 1),
    {
        assert(self.window_bytes(subshard) + concat_hashes(leaves) =~= self.window_bytes(
            subshard + 1,
        ));
    }
}

/// The bytes of 32-byte nodes, one after another.
pub open spec fn concat_hashes(hashes: Seq<Seq<u8>>) -> Seq<u8> {
    Seq::new(32 * hashes.len(), |k: int| hashes[k / 32][k % 32])
}

/// Appends the bytes of each hash.
fn push_hashes(buf: &mut Vec<u8>, hashes: &Vec<[u8; 32]>)
    ensures
        final(buf)@ == old(buf)@ + concat_hashes(hash_bytes(hashes@)),
{
    let mut i: usize = 0;
    while i < hashes.len()
        invariant
            i <= hashes@.len(),
            buf@ == old(buf)@ + concat_hashes(hash_bytes(hashes@.take(i as int))),
        decreases hashes@.len() - i,
    {
        push_bytes(buf, hashes[i].as_slice());
        i += 1;
        assert(buf@ =~= old(buf)@ + concat_hashes(hash_bytes(hashes@.take(i as int))));
    }
    assert(hashes@.take(i as int) =~= hashes@);
}

/// Global position of the first leaf of a sub-shard.
fn subshard_start(shard_idx: u32, subshard_idx: usize) -> (start: u64)
    requires
        subshard_idx <= 0x100,
    ensures
        start == position_of(shard_idx as int, subshard_idx as int, 0),
        start <= 0x1_0000_0000_0000,
{
    shard_idx as u64 * 0x1_0000 + subshard_idx as u64 * 0x100
}

/// Appends hashes to a vector.
fn append_hashes(hashes: &mut Vec<[u8; 32]>, more: &[[u8; 32]])
    ensures
        final(hashes)@ == old(hashes)@ + more@,
{
    let mut i: usize = 0;
    while i < more.len()
        invariant
            i <= more@.len(),
            hashes@ == old(hashes)@ + more@.take(i as int),
        decreases more@.len() - i,
    {
        hashes.push(more[i]);
        i += 1;
        assert(hashes@ =~= old(hashes)@ + more@.take(i as int));
    }
    assert(more@.take(i as int) =~= more@);
}

/// Leaf sequences that agree on the 256 leaves of a full sub-shard have the
/// same root there.
proof fn lemma_same_subshard(a: Seq<[u8; 32]>, b: Seq<[u8; 32]>, slot: int)
    requires
        0 <= slot,
        (slot + 1) * SUBSHARD_LEAVES <= a.len(),
        (slot + 1) * SUBSHARD_LEAVES <= b.len(),
        forall|i: int|
            slot * SUBSHARD_LEAVES <= i < (slot + 1) * SUBSHARD_LEAVES ==> #[trigger] a[i] == b[i],
    ensures
        node_at(hash_bytes(a), 0, SUBSHARD_HEIGHT as nat, slot) == node_at(
            hash_bytes(b),
            0,
            SUBSHARD_HEIGHT as nat,
            slot,
        ),
{
    lemma2_to64();
    assert forall|j: int|
        slot * pow2(8) <= j < (slot + 1) * pow2(8) implies (#[trigger] node_at(
        hash_bytes(a),
        0,
        0,
        j,
    )) == node_at(hash_bytes(b), 0, 0, j) by {
        assert(a[j] == b[j]);
    }
    lemma_node_local(hash_bytes(b), hash_bytes(a), 0, 8, slot);
}

proof fn lemma_pow2_injective(a: nat, b: nat)
    requires
        pow2(a) == pow2(b),
    ensures
        a == b,
{
    if a < b {
        lemma_pow2_strictly_increases(a, b);
    } else if b < a {
        lemma_pow2_strictly_increases(b, a);
    }
}

proof fn lemma_blocks_kept(blocks: Seq<BlockRecord>, target_height: u64)
    ensures
        blocks_kept(blocks, target_height) <= blocks.len(),
    decreases blocks.len(),
{
    if blocks.len() > 0 {
        lemma_blocks_kept(blocks.drop_last(), target_height);
    }
}

proof fn lemma_total_take(blocks: Seq<BlockRecord>, n: int)
    requires
        0 <= n <= blocks.len(),
    ensures
        total_commitments(blocks.take(n)) <= total_commitments(blocks),
    decreases blocks.len(),
{
    if n < blocks.len() {
        lemma_total_take(blocks.drop_last(), n);
        assert(blocks.drop_last().take(n) =~= blocks.take(n));
    } else {
        assert(blocks.take(n) =~= blocks);
    }
}

fn empty_cache() -> (cache: Vec<Option<[u8; 32]>>)
    ensures
        cache@ == Seq::new(L0_DB_ROWS as nat, |i: int| None::<[u8; 32]>),
{
    let mut cache: Vec<Option<[u8; 32]>> = Vec::with_capacity(L0_DB_ROWS);
    let mut i: usize = 0;
    while i < L0_DB_ROWS
        invariant
            i <= L0_DB_ROWS,
            cache@ == Seq::new(i as nat, |k: int| None::<[u8; 32]>),
        decreases L0_DB_ROWS - i,
    {
        cache.push(None);
        i += 1;
        assert(cache@ =~= Seq::new(i as nat, |k: int| None::<[u8; 32]>));
    }
    cache
}

} // verus!
