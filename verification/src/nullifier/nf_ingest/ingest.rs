//! Chain events for the nullifier table: what each block that is fetched, while
//! syncing or while following the tip, makes of the state before it.

use super::parser::{block_spends, extract_nullifiers_with_meta, positions_fit, size_before};
use crate::bytes::{hash_from, padded, to_hash_array, zero_hash, zeros};
use crate::chain_ingest::chain_tracker::{
    extends, fork_point, is_ascending, newest_at, pushed, ChainAction, ChainTracker, FOLLOW_WINDOW,
};
use crate::chain_ingest::proto::{tree_size_in, CompactBlock};
use crate::chain_ingest::ranges::next_range;
use crate::nullifier::spend_types::{ChainEvent, NewBlock, NullifierWithMeta, OrphanedBlock};
use crate::text::{decimal, push_decimal};
use vstd::prelude::*;
use vstd::string::StringExecFns;

verus! {

/// What can go wrong while ingesting.
#[derive(Debug)]
pub enum IngestError {
    /// A request failed.
    Client(String),
    HashMismatch { height: u64 },
}

impl IngestError {
    /// The text of the error.
    pub open spec fn text(self) -> Seq<char> {
        match self {
            IngestError::Client(reason) => "client error: "@ + reason@,
            IngestError::HashMismatch { height } => "block hash mismatch at height "@ + decimal(
                height as int,
            ),
        }
    }

    /// The text of the error.
    pub fn message(&self) -> (message: String)
        ensures
            message@ == self.text(),
    {
        match self {
            IngestError::Client(reason) => {
                let mut message = String::from_str("client error: ");
                message.append(reason.as_str());
                message
            },
            IngestError::HashMismatch { height } => {
                let mut message = String::from_str("block hash mismatch at height ");
                push_decimal(&mut message, *height as u128);
                message
            },
        }
    }
}

/// What the table learns of a block.
pub ghost struct BlockSpends {
    pub height: u64,
    pub hash: [u8; 32],
    pub prev_hash: [u8; 32],
    pub nullifiers: Seq<NullifierWithMeta>,
}

/// What a chain event says.
pub ghost enum EventContents {
    NewBlock(BlockSpends),
    Reorg { orphaned: Seq<OrphanedBlock>, new_block: BlockSpends },
}

/// What the table learns of a block, given the tree size after the block
/// before it.
pub open spec fn spends_of(block: CompactBlock, prior_tree_size: Option<u32>) -> BlockSpends {
    BlockSpends {
        height: block.height,
        hash: hash_from(padded(block.hash@)),
        prev_hash: hash_from(padded(block.prev_hash@)),
        nullifiers: block_spends(block.vtx@, size_before(block, prior_tree_size)),
    }
}

/// Whether an event says `contents`.
pub open spec fn says(event: ChainEvent, contents: EventContents) -> bool {
    match (event, contents) {
        (
            ChainEvent::NewBlock { height, hash, prev_hash, nullifiers },
            EventContents::NewBlock(block),
        ) => block == (BlockSpends { height, hash, prev_hash, nullifiers: nullifiers@ }),
        (
            ChainEvent::Reorg { orphaned, new_blocks },
            EventContents::Reorg { orphaned: gone, new_block },
        ) => orphaned@ == gone && new_blocks@.len() == 1 && new_block == (BlockSpends {
            height: new_blocks@[0].height,
            hash: new_blocks@[0].hash,
            prev_hash: new_blocks@[0].prev_hash,
            nullifiers: new_blocks@[0].nullifiers@,
        }),
        _ => false,
    }
}

/// The blocks above `rollback_to`, from the current one down, with the hashes
/// that are tracked for them. A block that is no longer tracked has a hash of
/// zero bytes.
pub open spec fn orphans(
    chain: Seq<(u64, [u8; 32])>,
    rollback_to: u64,
    current_height: u64,
) -> Seq<OrphanedBlock> {
    Seq::new(
        if rollback_to < current_height {
            (current_height - rollback_to) as nat
        } else {
            0
        },
        |i: int|
            OrphanedBlock {
                height: (current_height - i) as u64,
                hash: match newest_at(chain, (current_height - i) as u64) {
                    Some(hash) => hash,
                    None => hash_from(zeros(32)),
                },
            },
    )
}

/// The event for a block while syncing, and the tree size after the block.
pub fn sync_block(block: &CompactBlock, prior_tree_size: Option<u32>) -> (result: (
    ChainEvent,
    Option<u32>,
))
    requires
        positions_fit(*block, prior_tree_size),
    ensures
        says(result.0, EventContents::NewBlock(spends_of(*block, prior_tree_size))),
        result.1 == tree_size_in(*block),
{
    let (nullifiers, this_tree_size) = extract_nullifiers_with_meta(block, prior_tree_size);
    let event = ChainEvent::NewBlock {
        height: block.height,
        hash: to_hash_array(block.hash.as_slice()),
        prev_hash: to_hash_array(block.prev_hash.as_slice()),
        nullifiers,
    };
    (event, this_tree_size)
}

/// The state of a loop that follows the chain tip.
pub ghost struct FollowState {
    /// The tracked blocks, oldest first.
    pub chain: Seq<(u64, [u8; 32])>,
    pub current_height: u64,
    /// The tree size after the current block, if known.
    pub tree_size: Option<u32>,
}

impl FollowState {
    /// The state after a block.
    pub open spec fn after(self, depth: nat, block: CompactBlock) -> FollowState {
        FollowState {
            chain: pushed(
                self.chain,
                depth,
                block.height,
                hash_from(padded(block.hash@)),
                hash_from(padded(block.prev_hash@)),
            ),
            current_height: block.height,
            tree_size: tree_size_in(block),
        }
    }

    /// The event for a block.
    pub open spec fn event(self, block: CompactBlock) -> EventContents {
        let parent = hash_from(padded(block.prev_hash@));
        let spends = spends_of(block, self.tree_size);
        if extends(self.chain, block.height, parent) {
            EventContents::NewBlock(spends)
        } else {
            EventContents::Reorg {
                orphaned: orphans(
                    self.chain,
                    fork_point(self.chain, parent),
                    self.current_height,
                ),
                new_block: spends,
            }
        }
    }
}

/// Follows the chain tip block by block.
pub struct Follower {
    tracker: ChainTracker,
    current_height: u64,
    prev_tree_size: Option<u32>,
}

impl View for Follower {
    type V = FollowState;

    closed spec fn view(&self) -> FollowState {
        FollowState {
            chain: self.tracker@,
            current_height: self.current_height,
            tree_size: self.prev_tree_size,
        }
    }
}

impl Follower {
    /// The tracker keeps its window.
    pub closed spec fn wf(&self) -> bool {
        self.tracker.depth() == FOLLOW_WINDOW
    }

    /// Starts at a known block. `initial_tree_size` is the size of the tree
    /// after it, if known.
    pub fn new(start_height: u64, start_hash: [u8; 32], initial_tree_size: Option<u32>) -> (
        follower: Self)
        ensures
            follower.wf(),
            follower@ == (FollowState {
                chain: seq![(start_height, start_hash)],
                current_height: start_height,
                tree_size: initial_tree_size,
            }),
    {
        Follower {
            tracker: ChainTracker::with_tip(start_height, start_hash, FOLLOW_WINDOW),
            current_height: start_height,
            prev_tree_size: initial_tree_size,
        }
    }

    /// The tree size after the current block, if known.
    pub fn tree_size(&self) -> (size: Option<u32>)
        ensures
            size == self@.tree_size,
    {
        self.prev_tree_size
    }

    /// The blocks to fetch when the chain has grown to `tip`, if it has.
    pub fn next_range(&self, tip: u64) -> (range: Option<(u64, u64)>)
        ensures
            range == (if tip <= self@.current_height {
                None
            } else {
                Some(((self@.current_height + 1) as u64, tip))
            }),
    {
        next_range(self.current_height, tip)
    }

    /// Takes in a fetched block. Returns the event to emit.
    pub fn accept(&mut self, block: &CompactBlock) -> (event: ChainEvent)
        requires
            old(self).wf(),
            positions_fit(*block, old(self)@.tree_size),
        ensures
            final(self).wf(),
            final(self)@ == old(self)@.after(FOLLOW_WINDOW as nat, *block),
            says(event, old(self)@.event(*block)),
    {
        let height: u64 = block.height;
        let hash: [u8; 32] = to_hash_array(block.hash.as_slice());
        let prev_hash: [u8; 32] = to_hash_array(block.prev_hash.as_slice());
        let (nullifiers, this_tree_size) = extract_nullifiers_with_meta(block, self.prev_tree_size);
        let action = self.tracker.classify(height, &prev_hash);
        let event = match action {
            ChainAction::Extend => ChainEvent::NewBlock { height, hash, prev_hash, nullifiers },
            ChainAction::Reorg { rollback_to } => {
                let orphaned = self.orphaned_above(rollback_to);
                let new_block = NewBlock { height, hash, prev_hash, nullifiers };
                ChainEvent::Reorg { orphaned, new_blocks: vec![new_block] }
            },
        };
        self.tracker.push_block(height, hash, prev_hash);
        self.current_height = height;
        self.prev_tree_size = this_tree_size;
        event
    }

    /// The blocks above `rollback_to`, from the current one down.
    fn orphaned_above(&self, rollback_to: u64) -> (orphaned: Vec<OrphanedBlock>)
        ensures
            orphaned@ == orphans(self@.chain, rollback_to, self@.current_height),
    {
        let ghost all = orphans(self@.chain, rollback_to, self@.current_height);
        let mut orphaned: Vec<OrphanedBlock> = Vec::new();
        let mut height: u64 = self.current_height;
        while height > rollback_to
            invariant
                all == orphans(self@.chain, rollback_to, self@.current_height),
                height <= self@.current_height,
                orphaned@.len() == self@.current_height - height,
                height >= rollback_to || orphaned@.len() == 0,
                orphaned@ == all.take(orphaned@.len() as int),
            decreases height,
        {
            let hash: [u8; 32] = match self.tracker.hash_at(height) {
                Some(hash) => hash,
                None => zero_hash(),
            };
            orphaned.push(OrphanedBlock { height, hash });
            assert(orphaned@ =~= all.take(orphaned@.len() as int));
            height -= 1;
        }
        assert(orphaned@ =~= all);
        orphaned
    }
}

/// Every tracked block above the fork point is orphaned under its own hash.
pub proof fn law_orphans_have_their_hashes(
    chain: Seq<(u64, [u8; 32])>,
    rollback_to: u64,
    current_height: u64,
    at: int,
)
    requires
        is_ascending(chain),
        0 <= at < chain.len(),
        rollback_to < chain[at].0 <= current_height,
    ensures
        orphans(chain, rollback_to, current_height).contains(
            (OrphanedBlock { height: chain[at].0, hash: chain[at].1 }),
        ),
{
    lemma_newest_at(chain, at);
    let i = current_height - chain[at].0;
    assert(orphans(chain, rollback_to, current_height)[i] == (OrphanedBlock {
        height: chain[at].0,
        hash: chain[at].1,
    }));
}

proof fn lemma_newest_at(chain: Seq<(u64, [u8; 32])>, at: int)
    requires
        is_ascending(chain),
        0 <= at < chain.len(),
    ensures
        newest_at(chain, chain[at].0) == Some(chain[at].1),
    decreases chain.len(),
{
    if at < chain.len() - 1 {
        assert(chain[at].0 < chain[chain.len() - 1].0);
        let front = chain.drop_last();
        assert forall|i: int, j: int| 0 <= i < j < front.len() implies (#[trigger] front[i]).0 < (
        #[trigger] front[j]).0 by {
            assert(chain[i].0 < chain[j].0);
        }
        lemma_newest_at(front, at);
    }
}

} // verus!
