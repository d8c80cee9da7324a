//! Chain events for the commitment tree: what each block that is fetched, while
//! syncing or while following the tip, makes of the state before it.

use super::parser::{block_commitments, extract_commitments};
use crate::bytes::{hash_from, padded, to_hash_array};
use crate::chain_ingest::chain_tracker::{
    classified, pushed, ChainAction, ChainTracker, FOLLOW_WINDOW,
};
use crate::chain_ingest::proto::{orchard_tree_size, tree_size_in, CompactBlock};
use crate::chain_ingest::ranges::next_range;
use crate::witness::witness_types::WitnessChainEvent;
use vstd::prelude::*;
use vstd::string::StringExecFns;

verus! {

/// What can go wrong while ingesting.
#[derive(Debug)]
pub enum IngestError {
    /// A request failed.
    Client(String),
}

impl IngestError {
    /// The text of the error.
    pub open spec fn text(self) -> Seq<char> {
        match self {
            IngestError::Client(reason) => "client error: "@ + reason@,
        }
    }

    /// The text of the error.
    pub fn message(&self) -> (message: String)
        ensures
            message@ == self.text(),
    {
        match self {
            IngestError::Client(reason) => {
                let mut message = String::from_str("client error: ");
                message.append(reason.as_str());
                message
            },
        }
    }
}

/// Whether an event reports a new block with the tree size before it.
pub open spec fn reports_block(
    event: WitnessChainEvent,
    block: CompactBlock,
    size: Option<u32>,
) -> bool {
    event matches WitnessChainEvent::NewBlock {
        height,
        hash,
        prev_hash,
        commitments,
        prior_tree_size,
    } && height == block.height && hash == hash_from(padded(block.hash@)) && prev_hash
        == hash_from(padded(block.prev_hash@)) && commitments@ == block_commitments(block)
        && prior_tree_size == size
}

fn new_block(block: &CompactBlock, prior_tree_size: Option<u32>) -> (event: WitnessChainEvent)
    ensures
        reports_block(event, *block, prior_tree_size),
{
    WitnessChainEvent::NewBlock {
        height: block.height,
        hash: to_hash_array(block.hash.as_slice()),
        prev_hash: to_hash_array(block.prev_hash.as_slice()),
        commitments: extract_commitments(block),
        prior_tree_size,
    }
}

/// The event for a block while syncing, and the tree size after the block.
pub fn sync_block(block: &CompactBlock, prior_tree_size: Option<u32>) -> (result: (
    WitnessChainEvent,
    Option<u32>,
))
    ensures
        reports_block(result.0, *block, prior_tree_size),
        result.1 == tree_size_in(*block),
{
    (new_block(block, prior_tree_size), orchard_tree_size(block))
}

/// The state of a loop that follows the chain tip.
pub ghost struct FollowState {
    /// The tracked blocks, oldest first.
    pub chain: Seq<(u64, [u8; 32])>,
    pub current_height: u64,
    /// The tree size after the current block, if known.
    pub tree_size: Option<u32>,
}

impl FollowState {
    /// The state after a block.
    pub open spec fn after(self, depth: nat, block: CompactBlock) -> FollowState {
        FollowState {
            chain: pushed(
                self.chain,
                depth,
                block.height,
                hash_from(padded(block.hash@)),
                hash_from(padded(block.prev_hash@)),
            ),
            current_height: block.height,
            tree_size: tree_size_in(block),
        }
    }

    /// Whether these are the events for a block: the block, behind a rollback
    /// where it makes for a reorg. The tree size before a block that replaces
    /// others is not known.
    pub open spec fn emits(self, block: CompactBlock, events: Seq<WitnessChainEvent>) -> bool {
        match classified(self.chain, block.height, hash_from(padded(block.prev_hash@))) {
            ChainAction::Extend => events.len() == 1 && reports_block(
                events[0],
                block,
                self.tree_size,
            ),
            ChainAction::Reorg { rollback_to } => events.len() == 2 && events[0]
                == (WitnessChainEvent::Reorg { rollback_to }) && reports_block(
                events[1],
                block,
                None,
            ),
        }
    }
}

/// Follows the chain tip block by block.
pub struct Follower {
    tracker: ChainTracker,
    current_height: u64,
    prev_tree_size: Option<u32>,
}

impl View for Follower {
    type V = FollowState;

    closed spec fn view(&self) -> FollowState {
        FollowState {
            chain: self.tracker@,
            current_height: self.current_height,
            tree_size: self.prev_tree_size,
        }
    }
}

impl Follower {
    /// The tracker keeps its window.
    pub closed spec fn wf(&self) -> bool {
        self.tracker.depth() == FOLLOW_WINDOW
    }

    /// Starts at a known block. `initial_tree_size` is the size of the tree
    /// after it, if known.
    pub fn new(start_height: u64, start_hash: [u8; 32], initial_tree_size: Option<u32>) -> (
        follower: Self)
        ensures
            follower.wf(),
            follower@ == (FollowState {
                chain: seq![(start_height, start_hash)],
                current_height: start_height,
                tree_size: initial_tree_size,
            }),
    {
        Follower {
            tracker: ChainTracker::with_tip(start_height, start_hash, FOLLOW_WINDOW),
            current_height: start_height,
            prev_tree_size: initial_tree_size,
        }
    }

    /// The blocks to fetch when the chain has grown to `tip`, if it has.
    pub fn next_range(&self, tip: u64) -> (range: Option<(u64, u64)>)
        ensures
            range == (if tip <= self@.current_height {
                None
            } else {
                Some(((self@.current_height + 1) as u64, tip))
            }),
    {
        next_range(self.current_height, tip)
    }

    /// Takes in a fetched block. Returns the events to emit.
    pub fn accept(&mut self, block: &CompactBlock) -> (events: Vec<WitnessChainEvent>)
        requires
            old(self).wf(),
        ensures
            final(self).wf(),
            final(self)@ == old(self)@.after(FOLLOW_WINDOW as nat, *block),
            old(self)@.emits(*block, events@),
    {
        let hash: [u8; 32] = to_hash_array(block.hash.as_slice());
        let prev_hash: [u8; 32] = to_hash_array(block.prev_hash.as_slice());
        let prior_tree_size: Option<u32> = self.prev_tree_size;
        let action = self.tracker.push_block(block.height, hash, prev_hash);
        self.current_height = block.height;
        self.prev_tree_size = orchard_tree_size(block);
        match action {
            ChainAction::Extend => vec![new_block(block, prior_tree_size)],
            ChainAction::Reorg { rollback_to } => vec![
                WitnessChainEvent::Reorg { rollback_to },
                new_block(block, None),
            ],
        }
    }
}

} // verus!
