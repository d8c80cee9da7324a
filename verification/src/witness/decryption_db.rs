//! Flat append-only store of decryption PIR leaves with per-block rollback.
//!
//! Leaves are indexed by global Orchard tree position in the shard and
//! sub-shard geometry of the witness PIR database. No hashing is done.
//!
//! # Windowed mode
//!
//! A store made by [`DecryptionDb::with_offset`] tracks only the leaves from
//! its offset on, which is the start of a shard.
//!
//! # PIR window
//!
//! The PIR database covers the newest [`L0_MAX_SHARDS`] shards with stored
//! leaves, as that of the commitment tree does.

pub mod snapshot;

use crate::bytes::{push_bytes, zeros};
use crate::witness::decryption_types::{
    DecryptionLeaf, DECRYPT_DB_BYTES, DECRYPT_LEAF_BYTES, DECRYPT_ROW_BYTES, L0_MAX_SHARDS,
    SHARD_LEAVES, SUBSHARDS_PER_SHARD, SUBSHARD_LEAVES,
};
use crate::witness::witness_types::{leaf_of, position_of, shard_of, spans, subshard_of};
use vstd::prelude::*;
use vstd::string::StringExecFns;

verus! {

/// How many leaves a block contributed.
#[derive(Debug, Clone, Copy)]
pub struct BlockRecord {
    pub height: u64,
    pub hash: [u8; 32],
    pub num_leaves: u32,
}

/// What can go wrong with a store.
#[derive(Debug)]
pub enum DbError {
    SnapshotCorrupted { reason: String },
}

impl DbError {
    /// The text of the error.
    pub open spec fn text(self) -> Seq<char> {
        match self {
            DbError::SnapshotCorrupted { reason } => "snapshot corrupted: "@ + reason@,
        }
    }

    /// The text of the error.
    pub fn message(&self) -> (message: String)
        ensures
            message@ == self.text(),
    {
        match self {
            DbError::SnapshotCorrupted { reason } => {
                let mut message = String::from_str("snapshot corrupted: ");
                message.append(reason.as_str());
                message
            },
        }
    }
}

/// The contents of a [`DecryptionDb`].
pub ghost struct DecryptionState {
    /// Stored leaves; `leaves[i]` is at global position `leaf_offset + i`.
    pub leaves: Seq<DecryptionLeaf>,
    /// One record per ingested block, oldest first.
    pub blocks: Seq<BlockRecord>,
    /// Global position of the first stored leaf.
    pub leaf_offset: u64,
}

/// The number of leaves that a run of blocks contributed.
pub open spec fn total_leaves(blocks: Seq<BlockRecord>) -> nat
    decreases blocks.len(),
{
    if blocks.len() == 0 {
        0
    } else {
        total_leaves(blocks.drop_last()) + blocks.last().num_leaves as nat
    }
}

/// How many blocks are left once the newest ones above `target_height` are
/// removed.
pub open spec fn blocks_kept(blocks: Seq<BlockRecord>, target_height: u64) -> nat
    decreases blocks.len(),
{
    if blocks.len() == 0 || blocks.last().height <= target_height {
        blocks.len()
    } else {
        blocks_kept(blocks.drop_last(), target_height)
    }
}

impl DecryptionState {
    /// A store without leaves whose window starts at `leaf_offset`.
    pub open spec fn empty(leaf_offset: u64) -> DecryptionState {
        DecryptionState { leaves: seq![], blocks: seq![], leaf_offset }
    }

    /// Number of leaves in the global tree.
    pub open spec fn tree_size(self) -> int {
        self.leaf_offset + self.leaves.len()
    }

    /// First shard whose leaves are stored.
    pub open spec fn first_shard(self) -> int {
        self.leaf_offset as int / SHARD_LEAVES as int
    }

    /// Number of shards with stored leaves.
    pub open spec fn local_shards(self) -> int {
        if self.leaves.len() == 0 {
            0
        } else {
            (self.tree_size() - 1) / SHARD_LEAVES as int - self.first_shard() + 1
        }
    }

    /// Number of shards with stored leaves that have left the PIR window.
    pub open spec fn left_shards(self) -> int {
        if self.local_shards() > L0_MAX_SHARDS {
            self.local_shards() - L0_MAX_SHARDS
        } else {
            0
        }
    }

    /// First shard of the PIR window.
    pub open spec fn window_start(self) -> int {
        self.first_shard() + self.left_shards()
    }

    /// Number of shards of the PIR window: the newest ones.
    pub open spec fn window_count(self) -> int {
        self.local_shards() - self.left_shards()
    }

    /// Whether the store has no more leaves than a tree of depth 32 holds.
    pub open spec fn in_capacity(self) -> bool {
        self.tree_size() <= 0x1_0000_0000
    }

    /// The bytes of the leaf at a global position, or zero bytes where none is
    /// stored.
    pub open spec fn leaf_bytes_at(self, position: int) -> Seq<u8> {
        if self.leaf_offset <= position < self.tree_size() {
            self.leaves[position - self.leaf_offset].bytes()
        } else {
            zeros(DECRYPT_LEAF_BYTES as nat)
        }
    }

    /// The PIR database: the leaves of the window row by row, and zero bytes
    /// for everything else.
    pub open spec fn pir_db(self) -> Seq<u8> {
        Seq::new(
            DECRYPT_DB_BYTES as nat,
            |k: int|
                if k / 116 < self.window_count() * SHARD_LEAVES {
                    self.leaf_bytes_at(self.window_start() * SHARD_LEAVES + k / 116)[k % 116]
                } else {
                    0u8
                },
        )
    }

    /// What holds of every store: the block records account for all leaves.
    pub open spec fn valid(self) -> bool {
        &&& self.tree_size() <= u64::MAX
        &&& total_leaves(self.blocks) == self.leaves.len()
    }

    /// The store after a block's leaves are appended.
    pub open spec fn appended(
        self,
        height: u64,
        hash: [u8; 32],
        leaves: Seq<DecryptionLeaf>,
    ) -> DecryptionState {
        DecryptionState {
            leaves: self.leaves + leaves,
            blocks: self.blocks.push(
                BlockRecord { height, hash, num_leaves: leaves.len() as u32 },
            ),
            ..self
        }
    }

    /// The store after the newest blocks above `target_height` are removed
    /// with their leaves.
    pub open spec fn rolled_back(self, target_height: u64) -> DecryptionState {
        let blocks = self.blocks.take(blocks_kept(self.blocks, target_height) as int);
        DecryptionState {
            leaves: self.leaves.take(total_leaves(blocks) as int),
            blocks,
            ..self
        }
    }

    /// The first bytes of the PIR database: those of the given number of
    /// sub-shards of the window.
    spec fn window_bytes(self, subshards: int) -> Seq<u8> {
        Seq::new(
            (subshards * 29_696) as nat,
            |k: int| self.leaf_bytes_at(self.window_start() * 65_536 + k / 116)[k % 116],
        )
    }
}

/// In-memory flat store of decryption PIR leaves.
pub struct DecryptionDb {
    leaves: Vec<DecryptionLeaf>,
    blocks: Vec<BlockRecord>,
    leaf_offset: u64,
}

impl View for DecryptionDb {
    type V = DecryptionState;

    closed spec fn view(&self) -> DecryptionState {
        DecryptionState {
            leaves: self.leaves@,
            blocks: self.blocks@,
            leaf_offset: self.leaf_offset,
        }
    }
}

impl Default for DecryptionDb {
    fn default() -> (db: Self)
        ensures
            db.wf(),
            db@ == DecryptionState::empty(0),
    {
        DecryptionDb::new()
    }
}

impl DecryptionDb {
    /// The contents are those of a store.
    pub open spec fn wf(&self) -> bool {
        self@.valid()
    }

    /// An empty store that tracks all leaves.
    pub fn new() -> (db: Self)
        ensures
            db.wf(),
            db@ == DecryptionState::empty(0),
    {
        Self::with_offset(0)
    }

    /// A store that only tracks leaves starting at `leaf_offset`, which is the
    /// start of a shard.
    pub fn with_offset(leaf_offset: u64) -> (db: Self)
        requires
            leaf_offset as int % SHARD_LEAVES as int == 0,
        ensures
            db.wf(),
            db@ == DecryptionState::empty(leaf_offset),
    {
        let db = DecryptionDb { leaves: Vec::new(), blocks: Vec::new(), leaf_offset };
        assert(db@ =~= DecryptionState::empty(leaf_offset));
        db
    }

    /// Total number of leaves in the global tree.
    pub fn tree_size(&self) -> (size: u64)
        requires
            self.wf(),
        ensures
            size == self@.tree_size(),
    {
        self.leaf_offset + self.leaves.len() as u64
    }

    /// Height of the most recently ingested block, if any.
    pub fn latest_height(&self) -> (height: Option<u64>)
        ensures
            height == (if self@.blocks.len() == 0 {
                None
            } else {
                Some(self@.blocks.last().height)
            }),
    {
        if self.blocks.len() == 0 {
            None
        } else {
            Some(self.blocks[self.blocks.len() - 1].height)
        }
    }

    /// Hash of the most recently ingested block, if any.
    pub fn latest_block_hash(&self) -> (hash: Option<[u8; 32]>)
        ensures
            hash == (if self@.blocks.len() == 0 {
                None
            } else {
                Some(self@.blocks.last().hash)
            }),
    {
        if self.blocks.len() == 0 {
            None
        } else {
            Some(self.blocks[self.blocks.len() - 1].hash)
        }
    }

    /// Global leaf offset.
    pub fn leaf_offset(&self) -> (offset: u64)
        ensures
            offset == self@.leaf_offset,
    {
        self.leaf_offset
    }

    /// Stored leaves in append order.
    pub fn leaves(&self) -> (leaves: &[DecryptionLeaf])
        ensures
            leaves@ == self@.leaves,
    {
        self.leaves.as_slice()
    }

    /// Block records, oldest first.
    pub fn blocks(&self) -> (blocks: &[BlockRecord])
        ensures
            blocks@ == self@.blocks,
    {
        self.blocks.as_slice()
    }

    /// Number of populated shards in the global tree.
    pub fn populated_shards(&self) -> (shards: u32)
        requires
            self.wf(),
        ensures
            shards == spans(self@.tree_size(), SHARD_LEAVES as int) as u32,
    {
        let total: u64 = self.tree_size();
        if total == 0 {
            0
        } else {
            ((total - 1) / SHARD_LEAVES as u64 + 1) as u32
        }
    }

    /// First shard index in the PIR window.
    pub fn window_start_shard(&self) -> (shard: u32)
        requires
            self.wf(),
        ensures
            shard == self@.window_start() as u32,
    {
        let first: u64 = self.leaf_offset / 65_536;
        let local: u64 = self.local_shards();
        if local > L0_MAX_SHARDS as u64 {
            (first + (local - L0_MAX_SHARDS as u64)) as u32
        } else {
            first as u32
        }
    }

    fn local_shards(&self) -> (shards: u64)
        requires
            self.wf(),
        ensures
            shards == self@.local_shards(),
            shards <= 0x1_0000_0000_0000,
    {
        if self.leaves.len() == 0 {
            return 0;
        }
        let first: u64 = self.leaf_offset / 65_536;
        let last: u64 = (self.leaf_offset + (self.leaves.len() - 1) as u64) / 65_536;
        last - first + 1
    }

    /// Number of shards in the PIR window, at most [`L0_MAX_SHARDS`].
    pub fn window_shard_count(&self) -> (shards: u32)
        requires
            self.wf(),
        ensures
            shards == self@.window_count(),
    {
        let local: u64 = self.local_shards();
        if local < L0_MAX_SHARDS as u64 {
            local as u32
        } else {
            L0_MAX_SHARDS as u32
        }
    }

    /// Appends the decryption leaves of a newly ingested block.
    pub fn append_leaves(&mut self, height: u64, hash: [u8; 32], leaves: &[DecryptionLeaf])
        requires
            old(self).wf(),
            old(self)@.tree_size() + leaves@.len() <= u64::MAX,
            leaves@.len() <= u32::MAX,
        ensures
            final(self).wf(),
            final(self)@ == old(self)@.appended(height, hash, leaves@),
    {
        let ghost before = self@;
        let mut i: usize = 0;
        while i < leaves.len()
            invariant
                i <= leaves@.len(),
                self.blocks@ == before.blocks,
                self.leaf_offset == before.leaf_offset,
                self.leaves@ == before.leaves + leaves@.take(i as int),
            decreases leaves@.len() - i,
        {
            self.leaves.push(leaves[i]);
            i += 1;
            assert(self.leaves@ =~= before.leaves + leaves@.take(i as int));
        }
        self.blocks.push(BlockRecord { height, hash, num_leaves: leaves.len() as u32 });
        assert(leaves@.take(i as int) =~= leaves@);
        assert(self.blocks@.drop_last() =~= before.blocks);
    }

    /// Rolls back all newest blocks with height strictly greater than
    /// `target_height`.
    pub fn rollback_to(&mut self, target_height: u64)
        requires
            old(self).wf(),
        ensures
            final(self).wf(),
            final(self)@ == old(self)@.rolled_back(target_height),
            final(self)@.tree_size() <= old(self)@.tree_size(),
    {
        let ghost before = self@;
        let ghost kept = blocks_kept(before.blocks, target_height) as int;
        proof {
            lemma_blocks_kept(before.blocks, target_height);
            lemma_total_take(before.blocks, kept);
        }
        let mut new_len: usize = self.leaves.len();
        while self.blocks.len() > 0 && self.blocks[self.blocks.len() - 1].height > target_height
            invariant
                self.leaves@ == before.leaves,
                self.leaf_offset == before.leaf_offset,
                self.blocks@.len() <= before.blocks.len(),
                self.blocks@ == before.blocks.take(self.blocks@.len() as int),
                blocks_kept(self.blocks@, target_height) == kept,
                new_len == total_leaves(self.blocks@),
                new_len <= before.leaves.len(),
            decreases self.blocks@.len(),
        {
            let ghost blocks = self.blocks@;
            let removed = self.blocks.pop();
            proof {
                assert(self.blocks@ =~= blocks.drop_last());
                assert(self.blocks@ =~= before.blocks.take(self.blocks@.len() as int));
            }
            if let Some(block) = removed {
                new_len = new_len - block.num_leaves as usize;
            }
        }
        assert(self.blocks@ =~= before.blocks.take(kept));
        self.leaves.truncate(new_len);
        assert(self@ =~= before.rolled_back(target_height));
    }

    /// The 256 decryption leaves of a sub-shard. Positions outside the stored
    /// leaves are all zeros.
    pub fn subshard_leaves(&self, shard_idx: u32, subshard_idx: u8) -> (leaves: Vec<
        DecryptionLeaf,
    >)
        ensures
            leaves@.len() == SUBSHARD_LEAVES,
            forall|i: int|
                0 <= i < SUBSHARD_LEAVES ==> (#[trigger] leaves@[i]).bytes()
                    == self@.leaf_bytes_at(position_of(shard_idx as int, subshard_idx as int, i)),
    {
        let start: u64 = shard_idx as u64 * 0x1_0000 + subshard_idx as u64 * 0x100;
        let len: u64 = self.leaves.len() as u64;
        let empty = DecryptionLeaf::empty();
        let mut leaves: Vec<DecryptionLeaf> = Vec::with_capacity(SUBSHARD_LEAVES);
        let mut i: usize = 0;
        while i < SUBSHARD_LEAVES
            invariant
                i <= SUBSHARD_LEAVES,
                len == self.leaves.len(),
                empty.is_empty_leaf(),
                start <= 0x1_0000_0000_0000,
                start == position_of(shard_idx as int, subshard_idx as int, 0),
                leaves@.len() == i,
                forall|k: int|
                    0 <= k < i ==> (#[trigger] leaves@[k]).bytes() == self@.leaf_bytes_at(start + k),
            decreases SUBSHARD_LEAVES - i,
        {
            let position: u64 = start + i as u64;
            if position >= self.leaf_offset && position - self.leaf_offset < len {
                leaves.push(self.leaves[(position - self.leaf_offset) as usize]);
            } else {
                leaves.push(empty);
            }
            i += 1;
        }
        leaves
    }

    /// Builds the PIR database as row-major bytes.
    pub fn build_pir_db(&self) -> (db: Vec<u8>)
        requires
            self.wf(),
            self@.in_capacity(),
        ensures
            db@ == self@.pir_db(),
    {
        let window_start: u32 = self.window_start_shard();
        let window_count: u32 = self.window_shard_count();
        let mut db: Vec<u8> = Vec::with_capacity(DECRYPT_DB_BYTES);
        let mut s: u32 = 0;
        while s < window_count
            invariant
                s <= window_count <= L0_MAX_SHARDS,
                self.wf(),
                self@.in_capacity(),
                window_start == self@.window_start(),
                db@ == self@.window_bytes(s * 256),
            decreases window_count - s,
        {
            let mut ss: usize = 0;
            while ss < SUBSHARDS_PER_SHARD
                invariant
                    ss <= SUBSHARDS_PER_SHARD,
                    s < L0_MAX_SHARDS,
                    self.wf(),
                    self@.in_capacity(),
                    window_start == self@.window_start(),
                    db@ == self@.window_bytes(s * 256 + ss),
                decreases SUBSHARDS_PER_SHARD - ss,
            {
                let leaves = self.subshard_leaves(window_start + s, ss as u8);
                let ghost slot = s * 256 + ss;
                let ghost before = db@;
                let ghost base = self@.window_start() * 65_536;
                let mut i: usize = 0;
                while i < SUBSHARD_LEAVES
                    invariant
                        i <= SUBSHARD_LEAVES,
                        leaves@.len() == SUBSHARD_LEAVES,
                        0 <= slot,
                        base == self@.window_start() * 65_536,
                        before == self@.window_bytes(slot),
                        forall|k: int|
                            0 <= k < SUBSHARD_LEAVES ==> (#[trigger] leaves@[k]).bytes()
                                == self@.leaf_bytes_at(base + slot * 256 + k),
                        db@.len() == before.len() + i * 116,
                        forall|k: int|
                            0 <= k < db@.len() ==> #[trigger] db@[k] == self@.leaf_bytes_at(
                                base + k / 116,
                            )[k % 116],
                    decreases SUBSHARD_LEAVES - i,
                {
                    let bytes = leaves[i].to_bytes();
                    let ghost old_db = db@;
                    push_bytes(&mut db, bytes.as_slice());
                    proof {
                        assert forall|k: int| 0 <= k < db@.len() implies #[trigger] db@[k]
                            == self@.leaf_bytes_at(base + k / 116)[k % 116] by {
                            if k >= old_db.len() {
                                assert(k / 116 == slot * 256 + i);
                                assert(db@[k] == bytes@[k - old_db.len()]);
                            } else {
                                assert(db@[k] == old_db[k]);
                            }
                        }
                    }
                    i += 1;
                }
                assert(db@ =~= self@.window_bytes(slot + 1));
                ss += 1;
            }
            s += 1;
        }
        let ghost body = db@;
        db.resize(DECRYPT_DB_BYTES, 0u8);
        proof {
            assert(db@.subrange(0, body.len() as int) == body);
            assert forall|k: int| 0 <= k < DECRYPT_DB_BYTES implies db@[k] == self@.pir_db()[k] by {
                if k < body.len() {
                    assert(db@[k] == db@.subrange(0, body.len() as int)[k]);
                }
            }
            assert(db@ =~= self@.pir_db());
        }
        db
    }
}

proof fn lemma_blocks_kept(blocks: Seq<BlockRecord>, target_height: u64)
    ensures
        blocks_kept(blocks, target_height) <= blocks.len(),
    decreases blocks.len(),
{
    if blocks.len() > 0 {
        lemma_blocks_kept(blocks.drop_last(), target_height);
    }
}

proof fn lemma_total_take(blocks: Seq<BlockRecord>, n: int)
    requires
        0 <= n <= blocks.len(),
    ensures
        total_leaves(blocks.take(n)) <= total_leaves(blocks),
    decreases blocks.len(),
{
    if n < blocks.len() {
        lemma_total_take(blocks.drop_last(), n);
        assert(blocks.drop_last().take(n) =~= blocks.take(n));
    } else {
        assert(blocks.take(n) =~= blocks);
    }
}

/// Rolling back to a height below a block that was just appended removes that
/// block and its leaves and nothing else, where the store's newest block is at
/// or below that height.
pub proof fn law_rollback_undoes_append(
    db: DecryptionState,
    height: u64,
    hash: [u8; 32],
    leaves: Seq<DecryptionLeaf>,
    target_height: u64,
)
    requires
        db.valid(),
        leaves.len() <= u32::MAX,
        target_height < height,
        db.blocks.len() > 0 ==> db.blocks.last().height <= target_height,
    ensures
        db.appended(height, hash, leaves).rolled_back(target_height) == db,
{
    let after = db.appended(height, hash, leaves);
    let back = after.rolled_back(target_height);
    assert(after.blocks.drop_last() =~= db.blocks);
    assert(blocks_kept(after.blocks, target_height) == blocks_kept(db.blocks, target_height));
    assert(blocks_kept(db.blocks, target_height) == db.blocks.len());
    assert(back.blocks =~= db.blocks);
    assert(back.leaves =~= db.leaves);
}

/// The row of the PIR database that a position maps to holds, at the
/// position's place, the bytes of the leaf of that position.
pub proof fn law_row_holds_leaf(db: DecryptionState, position: u64)
    requires
        db.valid(),
        db.in_capacity(),
        db.window_start() <= shard_of(position) < db.window_start() + db.window_count(),
        position < 0x1_0000_0000,
    ensures
        ({
            let row = (shard_of(position) - db.window_start()) * SUBSHARDS_PER_SHARD + subshard_of(
                position,
            );
            let at = row * DECRYPT_ROW_BYTES + leaf_of(position) * DECRYPT_LEAF_BYTES;
            &&& at + DECRYPT_LEAF_BYTES <= db.pir_db().len()
            &&& db.pir_db().subrange(at, at + DECRYPT_LEAF_BYTES) == db.leaf_bytes_at(
                position as int,
            )
        }),
{
    let row = (shard_of(position) - db.window_start()) * SUBSHARDS_PER_SHARD + subshard_of(
        position,
    );
    let at = row * DECRYPT_ROW_BYTES + leaf_of(position) * DECRYPT_LEAF_BYTES;
    let local = position - db.window_start() * 65_536;
    assert(at == local * 116);
    assert(db.leaf_bytes_at(position as int).len() == 116);
    assert(db.pir_db().subrange(at, at + 116) =~= db.leaf_bytes_at(position as int));
}

} // verus!
