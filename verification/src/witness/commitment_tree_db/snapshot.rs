//! Snapshots of a [`CommitmentTreeDb`].
//!
//! Binary format, version 3 (all integers little-endian):
//!
//! | Field          | Size     | Description                                     |
//! |----------------|----------|-------------------------------------------------|
//! | magic          | 8 bytes  | `0x434D_5452_4545_0003`                         |
//! | tree_size      | 8 bytes  | Total global number of leaves                   |
//! | block_count    | 8 bytes  | Number of block records                         |
//! | latest_height  | 8 bytes  | Height of the most recent block (0 if empty)    |
//! | latest_hash    | 32 bytes | Hash of the most recent block (zeros if empty)  |
//! | leaf_offset    | 8 bytes  | Global position of the first stored leaf        |
//! | root_count     | 8 bytes  | Number of given shard roots                     |
//! | block_records  | variable | `block_count` x (height: 8, hash: 32, count: 4) |
//! | shard_roots    | variable | `root_count` x 32 bytes                         |
//! | leaf_data      | variable | stored leaves x 32 bytes                        |
//! | cached_count   | 8 bytes  | Number of cached sub-shard roots                |
//! | cached entries | variable | `cached_count` x (slot: 4, root: 32)            |
//! | checksum       | 8 bytes  | xxHash64 over everything preceding              |
//!
//! Version 2 (`0x434D_5452_4545_0002`) ends behind the leaf data, and version 1
//! (`0x434D_5452_4545_0001`) has no `leaf_offset`, `root_count` and
//! `shard_roots` either: its tree stores all leaves. Both are restored with an
//! empty cache.

use super::{empty_cache, total_commitments, BlockRecord, CommitmentTreeDb, TreeError, TreeState};
use crate::bytes::{
    hash_from, joined, lemma_array_eq, lemma_array_from, lemma_concat_assoc, lemma_joined_at,
    lemma_joined_len, lemma_joined_push, lemma_trailing_u64, lemma_u32_le_at, lemma_u64_le_at,
    push_bytes, push_u32, push_u64, read_array_at, read_u32_at, read_u64_at, u32_at, u32_le, u64_at,
    u64_le, zero_hash, zeros,
};
use crate::checksum::{xxh64_digest, xxh64_seed_zero};
use crate::text::{decimal, hex_u64, push_decimal, push_hex};
use crate::witness::block_records::{
    lemma_record_roundtrip, push_record, read_record, record_at, record_bytes, BLOCK_RECORD_SIZE,
};
use crate::witness::merkle::hash_bytes;
use crate::witness::sinsemilla::{is_canonical, is_valid_node, precompute_empty_roots};
use crate::witness::witness_types::{L0_DB_ROWS, SHARD_LEAVES, SUBSHARD_LEAVES};
use vstd::prelude::*;
use vstd::slice::slice_subrange;
use vstd::string::StringExecFns;

verus! {

/// Marks a snapshot of the version that is written.
pub const SNAPSHOT_MAGIC: u64 = 0x434D_5452_4545_0003;

pub const SNAPSHOT_MAGIC_V1: u64 = 0x434D_5452_4545_0001;

pub const SNAPSHOT_MAGIC_V2: u64 = 0x434D_5452_4545_0002;

/// Bytes of the fields that every version starts with.
pub const BASE_HEADER_SIZE: usize = 64;

/// Bytes before the block records.
pub const HEADER_SIZE: usize = 80;

/// Bytes of a cached root with its slot.
pub const CACHE_ENTRY_SIZE: usize = 36;

/// Bytes of the checksum.
pub const CHECKSUM_SIZE: usize = 8;

/// The bytes of each block record.
pub open spec fn block_parts(blocks: Seq<BlockRecord>) -> Seq<Seq<u8>> {
    Seq::new(
        blocks.len(),
        |i: int| record_bytes(blocks[i].height, blocks[i].hash@, blocks[i].num_commitments),
    )
}

/// The bytes of each cached root among the first `n` slots, with its slot.
pub open spec fn cache_parts(cache: Seq<Option<[u8; 32]>>, n: int) -> Seq<Seq<u8>>
    decreases n,
{
    if n <= 0 {
        Seq::empty()
    } else {
        match cache[n - 1] {
            Some(root) => cache_parts(cache, n - 1).push(u32_le((n - 1) as u32) + root@),
            None => cache_parts(cache, n - 1),
        }
    }
}

/// Height of the newest block, or zero.
pub open spec fn height_field(blocks: Seq<BlockRecord>) -> u64 {
    if blocks.len() == 0 {
        0
    } else {
        blocks.last().height
    }
}

/// Hash of the newest block, or zero bytes.
pub open spec fn hash_field(blocks: Seq<BlockRecord>) -> Seq<u8> {
    if blocks.len() == 0 {
        zeros(32)
    } else {
        blocks.last().hash@
    }
}

/// The fields before the block records.
pub open spec fn header_of(tree: TreeState) -> Seq<u8> {
    u64_le(SNAPSHOT_MAGIC) + u64_le(tree.tree_size() as u64) + u64_le(tree.blocks.len() as u64)
        + u64_le(height_field(tree.blocks)) + hash_field(tree.blocks) + u64_le(tree.leaf_offset)
        + u64_le(tree.prefetched_shard_roots.len() as u64)
}

/// The fields up to the leaf data and with it.
pub open spec fn contents_of(tree: TreeState) -> Seq<u8> {
    header_of(tree) + joined(block_parts(tree.blocks)) + joined(
        hash_bytes(tree.prefetched_shard_roots),
    ) + joined(hash_bytes(tree.leaves))
}

/// What a snapshot holds before its checksum.
pub open spec fn payload_of(tree: TreeState) -> Seq<u8> {
    let cached = cache_parts(tree.ss_root_cache, tree.ss_root_cache.len() as int);
    contents_of(tree) + u64_le(cached.len() as u64) + joined(cached)
}

/// The bytes with their checksum behind them.
pub open spec fn with_checksum(payload: Seq<u8>) -> Seq<u8> {
    payload + u64_le(xxh64_digest(payload))
}

/// The bytes before the checksum.
pub open spec fn payload_part(data: Seq<u8>) -> Seq<u8> {
    data.take(data.len() - CHECKSUM_SIZE)
}

/// The magic number of a snapshot.
pub open spec fn magic_in(data: Seq<u8>) -> u64 {
    u64_at(data, 0)
}

/// Global number of leaves that a snapshot's header gives.
pub open spec fn size_in(data: Seq<u8>) -> u64 {
    u64_at(data, 8)
}

/// Number of block records that a snapshot's header gives.
pub open spec fn block_count_in(data: Seq<u8>) -> u64 {
    u64_at(data, 16)
}

/// Position of the first stored leaf of a snapshot.
pub open spec fn offset_in(data: Seq<u8>) -> u64 {
    if magic_in(data) == SNAPSHOT_MAGIC_V1 {
        0
    } else {
        u64_at(data, 64)
    }
}

/// Number of given shard roots of a snapshot.
pub open spec fn root_count_in(data: Seq<u8>) -> u64 {
    if magic_in(data) == SNAPSHOT_MAGIC_V1 {
        0
    } else {
        u64_at(data, 72)
    }
}

/// Where the block records of a snapshot start.
pub open spec fn records_start(data: Seq<u8>) -> int {
    if magic_in(data) == SNAPSHOT_MAGIC_V1 {
        BASE_HEADER_SIZE as int
    } else {
        HEADER_SIZE as int
    }
}

/// Where the given shard roots of a snapshot start.
pub open spec fn roots_start(data: Seq<u8>) -> int {
    records_start(data) + block_count_in(data) * BLOCK_RECORD_SIZE
}

/// Where the leaves of a snapshot start.
pub open spec fn leaves_start(data: Seq<u8>) -> int {
    roots_start(data) + root_count_in(data) * 32
}

/// Number of stored leaves of a snapshot.
pub open spec fn leaf_count_in(data: Seq<u8>) -> int {
    size_in(data) - offset_in(data)
}

/// Where the leaves of a snapshot end.
pub open spec fn leaves_end(data: Seq<u8>) -> int {
    leaves_start(data) + leaf_count_in(data) * 32
}

/// Number of cached roots of a snapshot.
pub open spec fn cached_count_in(data: Seq<u8>) -> u64 {
    if magic_in(data) == SNAPSHOT_MAGIC {
        u64_at(data, leaves_end(data))
    } else {
        0
    }
}

/// Where the cached root with the given index stands in a snapshot.
pub open spec fn cache_entry_start(data: Seq<u8>, i: int) -> int {
    leaves_end(data) + 8 + i * CACHE_ENTRY_SIZE
}

/// The commitments that the first `n` block records of a snapshot count.
pub open spec fn counted_in(data: Seq<u8>, n: int) -> int
    decreases n,
{
    if n <= 0 {
        0
    } else {
        counted_in(data, n - 1) + u32_at(
            data,
            records_start(data) + (n - 1) * BLOCK_RECORD_SIZE + 40,
        )
    }
}

/// The cache that the first `n` cached roots of a snapshot make up.
pub open spec fn cache_in(data: Seq<u8>, n: int) -> Seq<Option<[u8; 32]>>
    decreases n,
{
    if n <= 0 {
        Seq::new(L0_DB_ROWS as nat, |i: int| None::<[u8; 32]>)
    } else {
        let at = cache_entry_start(data, n - 1);
        cache_in(data, n - 1).update(
            u32_at(data, at) as int,
            Some(hash_from(data.subrange(at + 4, at + 36))),
        )
    }
}

/// What is wrong with the frame and the header of a snapshot, if anything.
pub open spec fn header_fault(data: Seq<u8>) -> Option<Seq<char>> {
    let payload = payload_part(data);
    if data.len() < BASE_HEADER_SIZE + CHECKSUM_SIZE {
        Some("data too short"@)
    } else if u64_at(data, data.len() - CHECKSUM_SIZE) != xxh64_digest(payload) {
        Some("checksum mismatch"@)
    } else if magic_in(data) != SNAPSHOT_MAGIC && magic_in(data) != SNAPSHOT_MAGIC_V2
        && magic_in(data) != SNAPSHOT_MAGIC_V1 {
        Some(
            "bad magic: expected "@ + hex_u64(SNAPSHOT_MAGIC) + ", got "@ + hex_u64(
                magic_in(data),
            ),
        )
    } else if payload.len() < records_start(data) {
        Some("header truncated"@)
    } else if offset_in(data) as int % SHARD_LEAVES as int != 0 {
        Some("leaf_offset "@ + decimal(offset_in(data) as int) + " is not the start of a shard"@)
    } else if size_in(data) < offset_in(data) {
        Some(
            "tree_size ("@ + decimal(size_in(data) as int) + ") < leaf_offset ("@ + decimal(
                offset_in(data) as int,
            ) + ")"@,
        )
    } else {
        None
    }
}

/// What is wrong between the header of a snapshot and its cache, if anything.
pub open spec fn contents_fault(data: Seq<u8>) -> Option<Seq<char>> {
    let payload = payload_part(data);
    let counted = counted_in(data, block_count_in(data) as int);
    if roots_start(data) > payload.len() {
        Some("block records truncated"@)
    } else if counted != leaf_count_in(data) {
        Some(
            "block records sum to "@ + decimal(counted) + " commitments but header says "@
                + decimal(leaf_count_in(data)),
        )
    } else if leaves_start(data) > payload.len() {
        Some("shard roots truncated"@)
    } else if leaves_end(data) > payload.len() {
        Some("leaf data truncated"@)
    } else {
        None
    }
}

/// What is wrong with the first of the first `n` cached roots of a snapshot
/// with which anything is wrong.
pub open spec fn entries_fault(data: Seq<u8>, n: int) -> Option<Seq<char>>
    decreases n,
{
    if n <= 0 {
        None
    } else {
        let at = cache_entry_start(data, n - 1);
        let slot = u32_at(data, at);
        match entries_fault(data, n - 1) {
            Some(fault) => Some(fault),
            None => if slot >= L0_DB_ROWS || slot * SUBSHARD_LEAVES >= leaf_count_in(data) {
                Some("cache slot "@ + decimal(slot as int) + " out of range"@)
            } else if !is_canonical(data.subrange(at + 4, at + 36)) {
                Some("cached root of slot "@ + decimal(slot as int) + " is not a tree node"@)
            } else {
                None
            },
        }
    }
}

/// What is wrong with the cache of a snapshot, if anything.
pub open spec fn cache_fault(data: Seq<u8>) -> Option<Seq<char>> {
    let payload = payload_part(data);
    if magic_in(data) != SNAPSHOT_MAGIC {
        None
    } else if leaves_end(data) + 8 > payload.len() {
        Some("cached roots truncated"@)
    } else if cache_entry_start(data, cached_count_in(data) as int) > payload.len() {
        Some("cached roots truncated"@)
    } else {
        entries_fault(data, cached_count_in(data) as int)
    }
}

/// Why `data` is no snapshot, if it is none.
pub open spec fn snapshot_fault(data: Seq<u8>) -> Option<Seq<char>> {
    match header_fault(data) {
        Some(fault) => Some(fault),
        None => match contents_fault(data) {
            Some(fault) => Some(fault),
            None => cache_fault(data),
        },
    }
}

/// Whether the block records that stand from `start` on in `data` are
/// `blocks`.
pub open spec fn records_match(data: Seq<u8>, start: int, blocks: Seq<BlockRecord>) -> bool {
    forall|i: int|
        0 <= i < blocks.len() ==> record_at(
            data,
            start + i * BLOCK_RECORD_SIZE,
            (#[trigger] blocks[i]).height,
            blocks[i].hash@,
            blocks[i].num_commitments,
        )
}

/// Whether the hashes that stand from `start` on in `data` are `hashes`.
pub open spec fn hashes_match(data: Seq<u8>, start: int, hashes: Seq<[u8; 32]>) -> bool {
    forall|i: int|
        0 <= i < hashes.len() ==> (#[trigger] hashes[i])@ == data.subrange(
            start + i * 32,
            start + i * 32 + 32,
        )
}

/// Whether `tree` is what the snapshot `data` holds.
pub open spec fn restores(data: Seq<u8>, tree: TreeState) -> bool {
    &&& tree.leaf_offset == offset_in(data)
    &&& tree.blocks.len() == block_count_in(data)
    &&& records_match(data, records_start(data), tree.blocks)
    &&& tree.prefetched_shard_roots.len() == root_count_in(data)
    &&& hashes_match(data, roots_start(data), tree.prefetched_shard_roots)
    &&& tree.leaves.len() == leaf_count_in(data)
    &&& hashes_match(data, leaves_start(data), tree.leaves)
    &&& tree.ss_root_cache == cache_in(data, cached_count_in(data) as int)
}

fn corrupted(reason: &str) -> (error: TreeError)
    ensures
        error matches TreeError::SnapshotCorrupted { reason: r } && r@ == reason@,
{
    TreeError::SnapshotCorrupted { reason: String::from_str(reason) }
}

/// Appends the bytes of each hash.
fn push_each_hash(buf: &mut Vec<u8>, hashes: &Vec<[u8; 32]>)
    ensures
        final(buf)@ == old(buf)@ + joined(hash_bytes(hashes@)),
{
    let ghost before = buf@;
    assert(hash_bytes(hashes@.take(0)) =~= Seq::empty());
    assert(before + Seq::<u8>::empty() =~= before);
    let mut i: usize = 0;
    while i < hashes.len()
        invariant
            i <= hashes@.len(),
            buf@ == before + joined(hash_bytes(hashes@.take(i as int))),
        decreases hashes@.len() - i,
    {
        push_bytes(buf, hashes[i].as_slice());
        proof {
            let done = hashes@.take(i as int);
            let part = hashes@[i as int]@;
            lemma_joined_push(hash_bytes(done), part);
            assert(hash_bytes(hashes@.take(i + 1)) =~= hash_bytes(done).push(part));
            lemma_concat_assoc(before, joined(hash_bytes(done)), part);
        }
        i += 1;
    }
    assert(hashes@.take(i as int) =~= hashes@);
}

/// Appends the bytes of each block record.
fn push_each_record(buf: &mut Vec<u8>, blocks: &Vec<BlockRecord>)
    ensures
        final(buf)@ == old(buf)@ + joined(block_parts(blocks@)),
{
    let ghost before = buf@;
    assert(block_parts(blocks@.take(0)) =~= Seq::empty());
    assert(before + Seq::<u8>::empty() =~= before);
    let mut i: usize = 0;
    while i < blocks.len()
        invariant
            i <= blocks@.len(),
            buf@ == before + joined(block_parts(blocks@.take(i as int))),
        decreases blocks@.len() - i,
    {
        let block = &blocks[i];
        push_record(buf, block.height, &block.hash, block.num_commitments);
        proof {
            let done = blocks@.take(i as int);
            let part = record_bytes(block.height, block.hash@, block.num_commitments);
            lemma_joined_push(block_parts(done), part);
            assert(block_parts(blocks@.take(i + 1)) =~= block_parts(done).push(part));
            lemma_concat_assoc(before, joined(block_parts(done)), part);
        }
        i += 1;
    }
    assert(blocks@.take(i as int) =~= blocks@);
}

/// The number of cached roots.
fn count_cached(cache: &Vec<Option<[u8; 32]>>) -> (count: u64)
    requires
        cache@.len() == L0_DB_ROWS,
    ensures
        count == cache_parts(cache@, cache@.len() as int).len(),
{
    let mut count: u64 = 0;
    let mut slot: usize = 0;
    while slot < cache.len()
        invariant
            slot <= cache@.len(),
            cache@.len() == L0_DB_ROWS,
            count <= slot,
            count == cache_parts(cache@, slot as int).len(),
        decreases cache@.len() - slot,
    {
        if cache[slot].is_some() {
            count += 1;
        }
        slot += 1;
    }
    count
}

/// Appends the bytes of each cached root with its slot.
fn push_each_cached(buf: &mut Vec<u8>, cache: &Vec<Option<[u8; 32]>>)
    requires
        cache@.len() == L0_DB_ROWS,
    ensures
        final(buf)@ == old(buf)@ + joined(cache_parts(cache@, cache@.len() as int)),
{
    let ghost before = buf@;
    assert(before + Seq::<u8>::empty() =~= before);
    let mut slot: usize = 0;
    while slot < cache.len()
        invariant
            slot <= cache@.len(),
            cache@.len() == L0_DB_ROWS,
            buf@ == before + joined(cache_parts(cache@, slot as int)),
        decreases cache@.len() - slot,
    {
        if let Some(root) = cache[slot] {
            let ghost done = cache_parts(cache@, slot as int);
            push_u32(buf, slot as u32);
            push_bytes(buf, root.as_slice());
            proof {
                let part = u32_le(slot as u32) + root@;
                lemma_joined_push(done, part);
                lemma_concat_assoc(before + joined(done), u32_le(slot as u32), root@);
                lemma_concat_assoc(before, joined(done), part);
            }
        }
        slot += 1;
    }
}

/// The fields of a snapshot's header.
struct SnapshotHeader {
    magic: u64,
    tree_size: u64,
    block_count: u64,
    leaf_offset: u64,
    root_count: u64,
}

impl SnapshotHeader {
    spec fn is_of(self, data: Seq<u8>) -> bool {
        &&& header_fault(data) is None
        &&& self.magic == magic_in(data)
        &&& self.tree_size == size_in(data)
        &&& self.block_count == block_count_in(data)
        &&& self.leaf_offset == offset_in(data)
        &&& self.root_count == root_count_in(data)
    }
}

/// Checks the frame of a snapshot and reads its header.
fn read_header(data: &[u8]) -> (header: Result<SnapshotHeader, TreeError>)
    ensures
        match header {
            Ok(header) => header.is_of(data@),
            Err(error) => error matches TreeError::SnapshotCorrupted { reason } && header_fault(
                data@,
            ) == Some(reason@),
        },
{
    let len: usize = data.len();
    if len < BASE_HEADER_SIZE + CHECKSUM_SIZE {
        return Err(corrupted("data too short"));
    }
    let end: usize = len - CHECKSUM_SIZE;
    let stored: u64 = read_u64_at(data, end);
    let payload = slice_subrange(data, 0, end);
    assert(payload@ =~= payload_part(data@));
    if stored != xxh64_seed_zero(payload) {
        return Err(corrupted("checksum mismatch"));
    }
    let magic: u64 = read_u64_at(data, 0);
    if magic != SNAPSHOT_MAGIC && magic != SNAPSHOT_MAGIC_V2 && magic != SNAPSHOT_MAGIC_V1 {
        let mut reason = String::from_str("bad magic: expected ");
        push_hex(&mut reason, SNAPSHOT_MAGIC);
        reason.append(", got ");
        push_hex(&mut reason, magic);
        return Err(TreeError::SnapshotCorrupted { reason });
    }
    let mut leaf_offset: u64 = 0;
    let mut root_count: u64 = 0;
    if magic != SNAPSHOT_MAGIC_V1 {
        if end < HEADER_SIZE {
            return Err(corrupted("header truncated"));
        }
        leaf_offset = read_u64_at(data, 64);
        root_count = read_u64_at(data, 72);
    }
    let tree_size: u64 = read_u64_at(data, 8);
    let block_count: u64 = read_u64_at(data, 16);
    if leaf_offset % SHARD_LEAVES as u64 != 0 {
        let mut reason = String::from_str("leaf_offset ");
        push_decimal(&mut reason, leaf_offset as u128);
        reason.append(" is not the start of a shard");
        return Err(TreeError::SnapshotCorrupted { reason });
    }
    if tree_size < leaf_offset {
        let mut reason = String::from_str("tree_size (");
        push_decimal(&mut reason, tree_size as u128);
        reason.append(") < leaf_offset (");
        push_decimal(&mut reason, leaf_offset as u128);
        reason.append(")");
        return Err(TreeError::SnapshotCorrupted { reason });
    }
    Ok(SnapshotHeader { magic, tree_size, block_count, leaf_offset, root_count })
}

/// Reads the block records of a snapshot, and how many commitments they count.
fn read_records(data: &[u8], start: usize, count: usize) -> (read: (Vec<BlockRecord>, u128))
    requires
        start == records_start(data@),
        start + count * BLOCK_RECORD_SIZE <= data.len(),
    ensures
        read.0@.len() == count,
        records_match(data@, start as int, read.0@),
        read.1 == counted_in(data@, count as int),
        read.1 == total_commitments(read.0@),
{
    let mut blocks: Vec<BlockRecord> = Vec::with_capacity(count);
    let mut total: u128 = 0;
    let mut pos: usize = start;
    let mut i: usize = 0;
    while i < count
        invariant
            i <= count,
            start == records_start(data@),
            start + count * BLOCK_RECORD_SIZE <= data.len(),
            pos == start + i * BLOCK_RECORD_SIZE,
            total == counted_in(data@, i as int),
            total <= i * 0xffff_ffff,
            blocks@.len() == i,
            total == total_commitments(blocks@),
            records_match(data@, start as int, blocks@),
        decreases count - i,
    {
        let (height, hash, num_commitments) = read_record(data, pos);
        let ghost before = blocks@;
        blocks.push(BlockRecord { height, hash, num_commitments });
        assert(blocks@.drop_last() =~= before);
        total = total + num_commitments as u128;
        pos = pos + BLOCK_RECORD_SIZE;
        i += 1;
    }
    (blocks, total)
}

/// Reads hashes that stand one after another.
fn read_hashes(data: &[u8], start: usize, count: usize) -> (hashes: Vec<[u8; 32]>)
    requires
        start + count * 32 <= data.len(),
    ensures
        hashes@.len() == count,
        hashes_match(data@, start as int, hashes@),
{
    let mut hashes: Vec<[u8; 32]> = Vec::with_capacity(count);
    let mut pos: usize = start;
    let mut i: usize = 0;
    while i < count
        invariant
            i <= count,
            start + count * 32 <= data.len(),
            pos == start + i * 32,
            hashes@.len() == i,
            hashes_match(data@, start as int, hashes@),
        decreases count - i,
    {
        hashes.push(read_array_at::<32>(data, pos));
        pos = pos + 32;
        i += 1;
    }
    hashes
}

/// The reason for which a cached root of the given slot is refused.
fn slot_fault(before: &str, slot: u32, behind: &str) -> (error: TreeError)
    ensures
        error matches TreeError::SnapshotCorrupted { reason } && reason@ == before@ + decimal(
            slot as int,
        ) + behind@,
{
    let mut reason = String::from_str(before);
    push_decimal(&mut reason, slot as u128);
    reason.append(behind);
    TreeError::SnapshotCorrupted { reason }
}

/// Whether every cached root is a node that can be hashed, of a sub-shard that
/// so many leaves reach.
spec fn cache_fits(cache: Seq<Option<[u8; 32]>>, leaves: int) -> bool {
    &&& cache.len() == L0_DB_ROWS
    &&& forall|slot: int|
        0 <= slot < L0_DB_ROWS && (#[trigger] cache[slot]) is Some ==> slot * SUBSHARD_LEAVES
            < leaves && is_canonical(cache[slot]->0@)
}

/// Reads the cached roots of a snapshot.
fn read_cache(data: &[u8], start: usize, count: usize, leaves: usize) -> (read: Result<
    Vec<Option<[u8; 32]>>,
    TreeError,
>)
    requires
        start == leaves_end(data@) + 8,
        start + count * CACHE_ENTRY_SIZE <= data.len(),
        leaves == leaf_count_in(data@),
    ensures
        match read {
            Ok(cache) => entries_fault(data@, count as int) is None && cache@ == cache_in(
                data@,
                count as int,
            ) && cache_fits(cache@, leaves as int),
            Err(error) => error matches TreeError::SnapshotCorrupted { reason } && entries_fault(
                data@,
                count as int,
            ) == Some(reason@),
        },
{
    let mut cache = empty_cache();
    let mut pos: usize = start;
    let mut i: usize = 0;
    while i < count
        invariant
            i <= count,
            start == leaves_end(data@) + 8,
            start + count * CACHE_ENTRY_SIZE <= data.len(),
            leaves == leaf_count_in(data@),
            pos == start + i * CACHE_ENTRY_SIZE,
            cache@ == cache_in(data@, i as int),
            cache_fits(cache@, leaves as int),
            entries_fault(data@, i as int) is None,
        decreases count - i,
    {
        assert(pos == cache_entry_start(data@, i as int));
        let slot: u32 = read_u32_at(data, pos);
        let root: [u8; 32] = read_array_at::<32>(data, pos + 4);
        if slot as usize >= L0_DB_ROWS || slot as usize * SUBSHARD_LEAVES >= leaves {
            proof {
                lemma_fault_stays(data@, i + 1, count as int);
            }
            return Err(slot_fault("cache slot ", slot, " out of range"));
        }
        if !is_valid_node(&root) {
            proof {
                lemma_fault_stays(data@, i + 1, count as int);
            }
            return Err(slot_fault("cached root of slot ", slot, " is not a tree node"));
        }
        proof {
            lemma_array_from(root);
        }
        cache[slot as usize] = Some(root);
        pos = pos + CACHE_ENTRY_SIZE;
        i += 1;
    }
    Ok(cache)
}

/// The first fault among some cached roots is the first among more of them.
proof fn lemma_fault_stays(data: Seq<u8>, n: int, m: int)
    requires
        n <= m,
        entries_fault(data, n) is Some,
    ensures
        entries_fault(data, m) == entries_fault(data, n),
    decreases m - n,
{
    if n < m {
        lemma_fault_stays(data, n, m - 1);
    }
}

impl CommitmentTreeDb {
    fn snapshot_header(&self) -> (buf: Vec<u8>)
        requires
            self.shaped(),
        ensures
            buf@ == header_of(self@),
    {
        let mut buf: Vec<u8> = Vec::new();
        push_u64(&mut buf, SNAPSHOT_MAGIC);
        assert(buf@ =~= u64_le(SNAPSHOT_MAGIC));
        push_u64(&mut buf, self.tree_size());
        push_u64(&mut buf, self.blocks.len() as u64);
        let n: usize = self.blocks.len();
        if n == 0 {
            push_u64(&mut buf, 0);
            let zero = zero_hash();
            push_bytes(&mut buf, zero.as_slice());
        } else {
            push_u64(&mut buf, self.blocks[n - 1].height);
            push_bytes(&mut buf, self.blocks[n - 1].hash.as_slice());
        }
        push_u64(&mut buf, self.leaf_offset);
        push_u64(&mut buf, self.prefetched_shard_roots.len() as u64);
        buf
    }

    /// Serializes the tree.
    pub fn to_snapshot(&self) -> (snapshot: Vec<u8>)
        requires
            self.shaped(),
        ensures
            snapshot@ == with_checksum(payload_of(self@)),
    {
        let mut buf = self.snapshot_header();
        push_each_record(&mut buf, &self.blocks);
        push_each_hash(&mut buf, &self.prefetched_shard_roots);
        push_each_hash(&mut buf, &self.leaves);
        let cached: u64 = count_cached(&self.ss_root_cache);
        push_u64(&mut buf, cached);
        push_each_cached(&mut buf, &self.ss_root_cache);
        let digest: u64 = xxh64_seed_zero(buf.as_slice());
        push_u64(&mut buf, digest);
        buf
    }

    /// Restores a tree from a snapshot. The cached roots are taken as they
    /// stand there: the tree is well-formed where they are true, as in the
    /// snapshot of a well-formed tree.
    pub fn from_snapshot(data: &[u8]) -> (restored: Result<Self, TreeError>)
        ensures
            match restored {
                Ok(tree) => {
                    &&& snapshot_fault(data@) is None
                    &&& tree.shaped()
                    &&& tree@.cache_true() ==> tree.wf()
                    &&& restores(data@, tree@)
                },
                Err(error) => error matches TreeError::SnapshotCorrupted { reason }
                    && snapshot_fault(data@) == Some(reason@),
            },
    {
        match read_header(data) {
            Err(error) => Err(error),
            Ok(header) => Self::read_body(data, header),
        }
    }

    /// Reads what stands behind a header that is in order.
    fn read_body(data: &[u8], header: SnapshotHeader) -> (restored: Result<Self, TreeError>)
        requires
            header.is_of(data@),
        ensures
            match restored {
                Ok(tree) => snapshot_fault(data@) is None && tree.shaped() && restores(
                    data@,
                    tree@,
                ),
                Err(error) => error matches TreeError::SnapshotCorrupted { reason }
                    && snapshot_fault(data@) == Some(reason@),
            },
    {
        let end: usize = data.len() - CHECKSUM_SIZE;
        let start: usize = if header.magic == SNAPSHOT_MAGIC_V1 {
            BASE_HEADER_SIZE
        } else {
            HEADER_SIZE
        };
        if header.block_count > ((end - start) / BLOCK_RECORD_SIZE) as u64 {
            return Err(corrupted("block records truncated"));
        }
        let (blocks, total) = read_records(data, start, header.block_count as usize);
        let leaf_count: u64 = header.tree_size - header.leaf_offset;
        if total != leaf_count as u128 {
            let mut reason = String::from_str("block records sum to ");
            push_decimal(&mut reason, total);
            reason.append(" commitments but header says ");
            push_decimal(&mut reason, leaf_count as u128);
            return Err(TreeError::SnapshotCorrupted { reason });
        }
        let roots_at: usize = start + header.block_count as usize * BLOCK_RECORD_SIZE;
        if header.root_count > ((end - roots_at) / 32) as u64 {
            return Err(corrupted("shard roots truncated"));
        }
        let prefetched_shard_roots = read_hashes(data, roots_at, header.root_count as usize);
        let leaves_at: usize = roots_at + header.root_count as usize * 32;
        if leaf_count > ((end - leaves_at) / 32) as u64 {
            return Err(corrupted("leaf data truncated"));
        }
        let leaves = read_hashes(data, leaves_at, leaf_count as usize);
        let leaves_until: usize = leaves_at + leaf_count as usize * 32;
        let read = Self::read_cache_part(data, header.magic, leaves_until, leaves.len());
        let ss_root_cache = match read {
            Err(error) => return Err(error),
            Ok(cache) => cache,
        };
        let tree = CommitmentTreeDb {
            leaves,
            blocks,
            empty_roots: precompute_empty_roots(),
            leaf_offset: header.leaf_offset,
            prefetched_shard_roots,
            ss_root_cache,
        };
        Ok(tree)
    }

    /// Reads the cache of a snapshot, which is empty where the version has
    /// none.
    fn read_cache_part(data: &[u8], magic: u64, start: usize, leaves: usize) -> (read: Result<
        Vec<Option<[u8; 32]>>,
        TreeError,
    >)
        requires
            header_fault(data@) is None,
            magic == magic_in(data@),
            start == leaves_end(data@),
            start + CHECKSUM_SIZE <= data.len(),
            leaves == leaf_count_in(data@),
        ensures
            match read {
                Ok(cache) => cache_fault(data@) is None && cache@ == cache_in(
                    data@,
                    cached_count_in(data@) as int,
                ) && cache_fits(cache@, leaves as int),
                Err(error) => error matches TreeError::SnapshotCorrupted { reason } && cache_fault(
                    data@,
                ) == Some(reason@),
            },
    {
        let end: usize = data.len() - CHECKSUM_SIZE;
        if magic != SNAPSHOT_MAGIC {
            return Ok(empty_cache());
        }
        if end - start < 8 {
            return Err(corrupted("cached roots truncated"));
        }
        let count: u64 = read_u64_at(data, start);
        let entries_at: usize = start + 8;
        if count > ((end - entries_at) / CACHE_ENTRY_SIZE) as u64 {
            return Err(corrupted("cached roots truncated"));
        }
        read_cache(data, entries_at, count as usize, leaves)
    }
}

/// Whether `data` starts with `prefix`.
spec fn starts_with(data: Seq<u8>, prefix: Seq<u8>) -> bool {
    prefix.len() <= data.len() && data.take(prefix.len() as int) == prefix
}

proof fn lemma_grown(data: Seq<u8>, prefix: Seq<u8>, more: Seq<u8>)
    requires
        starts_with(data, prefix),
    ensures
        starts_with(data + more, prefix),
        starts_with(data + more, data),
{
    assert((data + more).take(data.len() as int) =~= data);
    assert((data + more).take(prefix.len() as int) =~= data.take(prefix.len() as int));
}

/// The parts of one width behind a prefix can be found by their index.
proof fn lemma_section(data: Seq<u8>, before: Seq<u8>, parts: Seq<Seq<u8>>, width: nat)
    requires
        starts_with(data, before + joined(parts)),
        forall|i: int| 0 <= i < parts.len() ==> (#[trigger] parts[i]).len() == width,
    ensures
        joined(parts).len() == parts.len() * width,
        forall|i: int|
            0 <= i < parts.len() ==> #[trigger] parts[i] == data.subrange(
                before.len() + i * width,
                before.len() + i * width + width,
            ),
{
    lemma_joined_len(parts, width);
    let all = before + joined(parts);
    assert forall|i: int| 0 <= i < parts.len() implies #[trigger] parts[i] == data.subrange(
        before.len() + i * width,
        before.len() + i * width + width,
    ) by {
        lemma_joined_at(parts, width, i);
        let at = before.len() + i * width;
        assert(data.subrange(at, at + width) =~= data.take(all.len() as int).subrange(
            at,
            at + width,
        ));
        assert(all.subrange(at, at + width) =~= joined(parts).subrange(
            i * width,
            i * width + width,
        ));
    }
}

/// A `u64` of a prefix stands in the whole too.
proof fn lemma_same_u64(data: Seq<u8>, prefix: Seq<u8>, at: int)
    requires
        starts_with(data, prefix),
        0 <= at,
        at + 8 <= prefix.len(),
    ensures
        u64_at(data, at) == u64_at(prefix, at),
{
    assert forall|i: int| 0 <= i < prefix.len() implies data[i] == prefix[i] by {
        assert(data.take(prefix.len() as int)[i] == data[i]);
    }
}

/// A `u64` behind others can be read.
proof fn lemma_field(data: Seq<u8>, before: Seq<u8>, x: u64)
    requires
        starts_with(data, before + u64_le(x)),
    ensures
        u64_at(data, before.len() as int) == x,
{
    lemma_trailing_u64(before, x);
    lemma_same_u64(data, before + u64_le(x), before.len() as int);
}

/// What starts with two sequences starts with the first of them.
proof fn lemma_shorter(data: Seq<u8>, prefix: Seq<u8>, more: Seq<u8>)
    requires
        starts_with(data, prefix + more),
    ensures
        starts_with(data, prefix),
{
    let n = prefix.len() as int;
    assert(data.take(n) =~= data.take((prefix + more).len() as int).take(n));
    assert((prefix + more).take(n) =~= prefix);
}

/// What the first fields of a header give.
proof fn lemma_header_start(data: Seq<u8>, magic: u64, size: u64, blocks: u64)
    requires
        starts_with(data, u64_le(magic) + u64_le(size) + u64_le(blocks)),
    ensures
        u64_at(data, 0) == magic,
        u64_at(data, 8) == size,
        u64_at(data, 16) == blocks,
{
    let h1 = u64_le(magic);
    let h2 = h1 + u64_le(size);
    lemma_field(data, h2, blocks);
    lemma_shorter(data, h2, u64_le(blocks));
    lemma_field(data, h1, size);
    lemma_shorter(data, h1, u64_le(size));
    assert(data.subrange(0, 8) =~= data.take(8));
    lemma_u64_le_at(data, 0, magic);
}

/// What the last fields of a header give.
proof fn lemma_header_end(data: Seq<u8>, start: Seq<u8>, offset: u64, roots: u64)
    requires
        starts_with(data, start + u64_le(offset) + u64_le(roots)),
    ensures
        u64_at(data, start.len() as int) == offset,
        u64_at(data, start.len() as int + 8) == roots,
        starts_with(data, start),
{
    lemma_field(data, start + u64_le(offset), roots);
    lemma_shorter(data, start + u64_le(offset), u64_le(roots));
    lemma_field(data, start, offset);
    lemma_shorter(data, start, u64_le(offset));
}

/// What the fields of the newest block give.
proof fn lemma_header_newest(data: Seq<u8>, start: Seq<u8>, height: u64, hash: Seq<u8>)
    requires
        starts_with(data, start + u64_le(height) + hash),
        start.len() == 24,
        hash.len() == 32,
    ensures
        u64_at(data, 24) == height,
        data.subrange(32, 64) == hash,
        starts_with(data, start),
{
    let whole = start + u64_le(height) + hash;
    assert(data.subrange(32, 64) =~= hash) by {
        assert(data.take(64) == whole);
        assert(data.subrange(32, 64) =~= data.take(64).subrange(32, 64));
        assert(whole.subrange(32, 64) =~= hash);
    }
    lemma_shorter(data, start + u64_le(height), hash);
    lemma_field(data, start, height);
    lemma_shorter(data, start, u64_le(height));
}

/// What the header of a snapshot gives.
proof fn lemma_header(data: Seq<u8>, tree: TreeState)
    requires
        starts_with(data, header_of(tree)),
    ensures
        u64_at(data, 0) == SNAPSHOT_MAGIC,
        u64_at(data, 8) == tree.tree_size() as u64,
        u64_at(data, 16) == tree.blocks.len() as u64,
        u64_at(data, 24) == height_field(tree.blocks),
        data.subrange(32, 64) == hash_field(tree.blocks),
        u64_at(data, 64) == tree.leaf_offset,
        u64_at(data, 72) == tree.prefetched_shard_roots.len() as u64,
{
    let size = tree.tree_size() as u64;
    let blocks = tree.blocks.len() as u64;
    let height = u64_le(height_field(tree.blocks));
    let hash = hash_field(tree.blocks);
    let h3 = u64_le(SNAPSHOT_MAGIC) + u64_le(size) + u64_le(blocks);
    let h5 = h3 + height + hash;
    assert(h3.len() == 24);
    assert(hash.len() == 32);
    assert(h5.len() == 64);
    lemma_header_end(data, h5, tree.leaf_offset, tree.prefetched_shard_roots.len() as u64);
    lemma_header_newest(data, h3, height_field(tree.blocks), hash);
    lemma_header_start(data, SNAPSHOT_MAGIC, size, blocks);
}

/// The length of a `u64` behind others.
proof fn lemma_longer(before: Seq<u8>, x: u64)
    ensures
        (before + u64_le(x)).len() == before.len() + 8,
{
}

/// The header has the same length for every tree.
proof fn lemma_header_len(tree: TreeState)
    ensures
        header_of(tree).len() == HEADER_SIZE,
{
    let none = Seq::<u8>::empty();
    lemma_longer(none, SNAPSHOT_MAGIC);
    let h1 = u64_le(SNAPSHOT_MAGIC);
    assert(none + h1 =~= h1);
    let h2 = h1 + u64_le(tree.tree_size() as u64);
    let h3 = h2 + u64_le(tree.blocks.len() as u64);
    let h4 = h3 + u64_le(height_field(tree.blocks));
    let h5 = h4 + hash_field(tree.blocks);
    let h6 = h5 + u64_le(tree.leaf_offset);
    lemma_longer(h1, tree.tree_size() as u64);
    lemma_longer(h2, tree.blocks.len() as u64);
    lemma_longer(h3, height_field(tree.blocks));
    assert(h5.len() == h4.len() + 32);
    lemma_longer(h5, tree.leaf_offset);
    lemma_longer(h6, tree.prefetched_shard_roots.len() as u64);
}

proof fn lemma_part_lengths(tree: TreeState)
    ensures
        forall|i: int|
            0 <= i < tree.blocks.len() ==> (#[trigger] block_parts(tree.blocks)[i]).len() == 44,
        forall|i: int|
            0 <= i < tree.prefetched_shard_roots.len() ==> (#[trigger] hash_bytes(
                tree.prefetched_shard_roots,
            )[i]).len() == 32,
        forall|i: int|
            0 <= i < tree.leaves.len() ==> (#[trigger] hash_bytes(tree.leaves)[i]).len() == 32,
{
}

/// The cached roots of some slots come first among those of more slots, and
/// each takes 36 bytes.
proof fn lemma_cache_parts(cache: Seq<Option<[u8; 32]>>, n: int, m: int)
    requires
        0 <= n <= m <= cache.len(),
    ensures
        cache_parts(cache, n).len() <= n,
        cache_parts(cache, n).len() <= cache_parts(cache, m).len(),
        forall|i: int|
            0 <= i < cache_parts(cache, n).len() ==> #[trigger] cache_parts(cache, n)[i]
                == cache_parts(cache, m)[i],
        forall|i: int|
            0 <= i < cache_parts(cache, m).len() ==> (#[trigger] cache_parts(cache, m)[i]).len()
                == CACHE_ENTRY_SIZE,
    decreases m,
{
    if m > 0 {
        if n < m {
            lemma_cache_parts(cache, n, m - 1);
        } else {
            lemma_cache_parts(cache, m - 1, m - 1);
        }
    }
}

/// Whether a snapshot has the fields of `tree` where they belong.
#[verifier::opaque]
spec fn lays_out(data: Seq<u8>, tree: TreeState) -> bool {
    let cached = cache_parts(tree.ss_root_cache, tree.ss_root_cache.len() as int);
    &&& magic_in(data) == SNAPSHOT_MAGIC
    &&& size_in(data) == tree.tree_size()
    &&& block_count_in(data) == tree.blocks.len()
    &&& offset_in(data) == tree.leaf_offset
    &&& root_count_in(data) == tree.prefetched_shard_roots.len()
    &&& cached_count_in(data) == cached.len()
    &&& cache_entry_start(data, cached.len() as int) + CHECKSUM_SIZE == data.len()
    &&& u64_at(data, data.len() - CHECKSUM_SIZE) == xxh64_digest(payload_part(data))
    &&& records_match(data, records_start(data), tree.blocks)
    &&& hashes_match(data, roots_start(data), tree.prefetched_shard_roots)
    &&& hashes_match(data, leaves_start(data), tree.leaves)
    &&& forall|i: int|
        0 <= i < cached.len() ==> #[trigger] cached[i] == data.subrange(
            cache_entry_start(data, i),
            cache_entry_start(data, i) + CACHE_ENTRY_SIZE,
        )
}

/// Whether the sections of a snapshot stand where they belong.
#[verifier::opaque]
spec fn has_sections(
    data: Seq<u8>,
    header: Seq<u8>,
    records: Seq<Seq<u8>>,
    roots: Seq<Seq<u8>>,
    leaves: Seq<Seq<u8>>,
    cached: Seq<Seq<u8>>,
) -> bool {
    let roots_at = HEADER_SIZE + records.len() * 44;
    let leaves_at = roots_at + roots.len() * 32;
    let count_at = leaves_at + leaves.len() * 32;
    let cache_at = count_at + 8;
    &&& starts_with(data, header)
    &&& data.len() == cache_at + cached.len() * 36 + 8
    &&& u64_at(data, count_at) == cached.len() as u64
    &&& forall|i: int|
        0 <= i < records.len() ==> #[trigger] records[i] == data.subrange(
            HEADER_SIZE + i * 44,
            HEADER_SIZE + i * 44 + 44,
        )
    &&& forall|i: int|
        0 <= i < roots.len() ==> #[trigger] roots[i] == data.subrange(
            roots_at + i * 32,
            roots_at + i * 32 + 32,
        )
    &&& forall|i: int|
        0 <= i < leaves.len() ==> #[trigger] leaves[i] == data.subrange(
            leaves_at + i * 32,
            leaves_at + i * 32 + 32,
        )
    &&& forall|i: int|
        0 <= i < cached.len() ==> #[trigger] cached[i] == data.subrange(
            cache_at + i * 36,
            cache_at + i * 36 + 36,
        )
}

/// Where the sections of a snapshot stand.
proof fn lemma_sections(
    header: Seq<u8>,
    records: Seq<Seq<u8>>,
    roots: Seq<Seq<u8>>,
    leaves: Seq<Seq<u8>>,
    cached: Seq<Seq<u8>>,
    digest: u64,
)
    requires
        header.len() == HEADER_SIZE,
        forall|i: int| 0 <= i < records.len() ==> (#[trigger] records[i]).len() == 44,
        forall|i: int| 0 <= i < roots.len() ==> (#[trigger] roots[i]).len() == 32,
        forall|i: int| 0 <= i < leaves.len() ==> (#[trigger] leaves[i]).len() == 32,
        forall|i: int| 0 <= i < cached.len() ==> (#[trigger] cached[i]).len() == 36,
    ensures
        ({
            let payload = header + joined(records) + joined(roots) + joined(leaves) + u64_le(
                cached.len() as u64,
            ) + joined(cached);
            let data = payload + u64_le(digest);
            &&& has_sections(data, header, records, roots, leaves, cached)
            &&& data.take(data.len() - 8) == payload
            &&& u64_at(data, data.len() - 8) == digest
        }),
{
    reveal(has_sections);
    let count = u64_le(cached.len() as u64);
    let with_records = header + joined(records);
    let with_roots = with_records + joined(roots);
    let with_leaves = with_roots + joined(leaves);
    let with_count = with_leaves + count;
    let payload = with_count + joined(cached);
    let data = payload + u64_le(digest);
    assert(header.take(header.len() as int) =~= header);
    lemma_grown(header, header, joined(records));
    lemma_grown(with_records, header, joined(roots));
    lemma_grown(with_roots, header, joined(leaves));
    lemma_grown(with_roots, with_records, joined(leaves));
    lemma_grown(with_leaves, header, count);
    lemma_grown(with_leaves, with_records, count);
    lemma_grown(with_leaves, with_roots, count);
    lemma_grown(with_count, header, joined(cached));
    lemma_grown(with_count, with_records, joined(cached));
    lemma_grown(with_count, with_roots, joined(cached));
    lemma_grown(with_count, with_leaves, joined(cached));
    lemma_grown(payload, header, u64_le(digest));
    lemma_grown(payload, with_records, u64_le(digest));
    lemma_grown(payload, with_roots, u64_le(digest));
    lemma_grown(payload, with_leaves, u64_le(digest));
    lemma_grown(payload, with_count, u64_le(digest));
    lemma_section(data, header, records, 44);
    lemma_section(data, with_records, roots, 32);
    lemma_section(data, with_roots, leaves, 32);
    lemma_section(data, with_count, cached, 36);
    lemma_trailing_u64(with_leaves, cached.len() as u64);
    lemma_same_u64(data, with_count, with_leaves.len() as int);
    lemma_trailing_u64(payload, digest);
}

/// Where the fields of a snapshot stand.
proof fn lemma_layout(tree: TreeState)
    requires
        tree.shaped(),
        tree.blocks.len() <= u64::MAX,
    ensures
        lays_out(with_checksum(payload_of(tree)), tree),
{
    let slots = tree.ss_root_cache.len() as int;
    lemma_header_len(tree);
    lemma_part_lengths(tree);
    lemma_cache_parts(tree.ss_root_cache, slots, slots);
    lemma_sections(
        header_of(tree),
        block_parts(tree.blocks),
        hash_bytes(tree.prefetched_shard_roots),
        hash_bytes(tree.leaves),
        cache_parts(tree.ss_root_cache, slots),
        xxh64_digest(payload_of(tree)),
    );
    lemma_fields(with_checksum(payload_of(tree)), tree);
}

/// Where the sections of a tree's snapshot stand, its fields do.
proof fn lemma_fields(data: Seq<u8>, tree: TreeState)
    requires
        tree.shaped(),
        tree.blocks.len() <= u64::MAX,
        has_sections(
            data,
            header_of(tree),
            block_parts(tree.blocks),
            hash_bytes(tree.prefetched_shard_roots),
            hash_bytes(tree.leaves),
            cache_parts(tree.ss_root_cache, tree.ss_root_cache.len() as int),
        ),
        u64_at(data, data.len() - CHECKSUM_SIZE) == xxh64_digest(payload_part(data)),
    ensures
        lays_out(data, tree),
{
    reveal(has_sections);
    reveal(lays_out);
    let records = block_parts(tree.blocks);
    let roots = hash_bytes(tree.prefetched_shard_roots);
    let leaves = hash_bytes(tree.leaves);
    let slots = tree.ss_root_cache.len() as int;
    lemma_header(data, tree);
    lemma_cache_parts(tree.ss_root_cache, slots, slots);
    assert forall|i: int| 0 <= i < tree.blocks.len() implies record_at(
        data,
        records_start(data) + i * BLOCK_RECORD_SIZE,
        (#[trigger] tree.blocks[i]).height,
        tree.blocks[i].hash@,
        tree.blocks[i].num_commitments,
    ) by {
        assert(records[i] == data.subrange(HEADER_SIZE + i * 44, HEADER_SIZE + i * 44 + 44));
        lemma_record_roundtrip(
            data,
            HEADER_SIZE + i * BLOCK_RECORD_SIZE,
            tree.blocks[i].height,
            tree.blocks[i].hash@,
            tree.blocks[i].num_commitments,
        );
    }
    assert forall|i: int| 0 <= i < tree.prefetched_shard_roots.len() implies (
    #[trigger] tree.prefetched_shard_roots[i])@ == data.subrange(
        roots_start(data) + i * 32,
        roots_start(data) + i * 32 + 32,
    ) by {
        assert(roots[i] == tree.prefetched_shard_roots[i]@);
    }
    assert forall|i: int| 0 <= i < tree.leaves.len() implies (#[trigger] tree.leaves[i])@
        == data.subrange(leaves_start(data) + i * 32, leaves_start(data) + i * 32 + 32) by {
        assert(leaves[i] == tree.leaves[i]@);
    }
}

proof fn lemma_counted(data: Seq<u8>, blocks: Seq<BlockRecord>, n: int)
    requires
        0 <= n <= blocks.len(),
        records_match(data, records_start(data), blocks),
    ensures
        counted_in(data, n) == total_commitments(blocks.take(n)),
    decreases n,
{
    if n > 0 {
        lemma_counted(data, blocks, n - 1);
        assert(blocks.take(n).drop_last() =~= blocks.take(n - 1));
        assert(record_at(
            data,
            records_start(data) + (n - 1) * BLOCK_RECORD_SIZE,
            blocks[n - 1].height,
            blocks[n - 1].hash@,
            blocks[n - 1].num_commitments,
        ));
    }
}

/// The cached roots of the first `n` slots, where they stand in a snapshot, are
/// in order and make up the first `n` slots of the cache.
proof fn lemma_cache_back(data: Seq<u8>, tree: TreeState, n: int)
    requires
        tree.shaped(),
        lays_out(data, tree),
        0 <= n <= L0_DB_ROWS,
    ensures
        entries_fault(data, cache_parts(tree.ss_root_cache, n).len() as int) is None,
        cache_in(data, cache_parts(tree.ss_root_cache, n).len() as int) == Seq::new(
            L0_DB_ROWS as nat,
            |i: int|
                if i < n {
                    tree.ss_root_cache[i]
                } else {
                    None
                },
        ),
    decreases n,
{
    reveal(lays_out);
    let cache = tree.ss_root_cache;
    let upto = |m: int|
        Seq::new(
            L0_DB_ROWS as nat,
            |i: int|
                if i < m {
                    cache[i]
                } else {
                    None
                },
        );
    let k = cache_parts(cache, n).len() as int;
    if n == 0 {
        assert(cache_in(data, 0) =~= upto(0));
    } else {
        lemma_cache_back(data, tree, n - 1);
        match cache[n - 1] {
            None => {
                assert(upto(n) =~= upto(n - 1));
            },
            Some(root) => {
                lemma_cache_parts(cache, n, cache.len() as int);
                let at = cache_entry_start(data, k - 1);
                let part = u32_le((n - 1) as u32) + root@;
                assert(cache_parts(cache, n)[k - 1] == part);
                assert(data.subrange(at, at + 36) == part);
                assert(data.subrange(at, at + 4) =~= part.subrange(0, 4));
                assert(part.subrange(0, 4) =~= u32_le((n - 1) as u32));
                assert(data.subrange(at + 4, at + 36) =~= part.subrange(4, 36));
                assert(part.subrange(4, 36) =~= root@);
                lemma_u32_le_at(data, at, (n - 1) as u32);
                lemma_array_from(root);
                assert(cache_in(data, k) == upto(n - 1).update(n - 1, Some(root)));
                assert(upto(n - 1).update(n - 1, Some(root)) =~= upto(n));
            },
        }
    }
}

/// Nothing is wrong with what lays out a tree.
proof fn lemma_faultless(data: Seq<u8>, tree: TreeState)
    requires
        tree.shaped(),
        lays_out(data, tree),
    ensures
        snapshot_fault(data) is None,
{
    reveal(lays_out);
    lemma_counted(data, tree.blocks, tree.blocks.len() as int);
    assert(tree.blocks.take(tree.blocks.len() as int) =~= tree.blocks);
    lemma_cache_back(data, tree, L0_DB_ROWS as int);
}

/// What lays out a tree restores no other.
proof fn lemma_restores_one(data: Seq<u8>, tree: TreeState, restored: TreeState)
    requires
        tree.shaped(),
        lays_out(data, tree),
        restores(data, restored),
    ensures
        restored == tree,
{
    reveal(lays_out);
    lemma_cache_back(data, tree, L0_DB_ROWS as int);
    assert forall|i: int| 0 <= i < tree.blocks.len() implies restored.blocks[i]
        == tree.blocks[i] by {
        lemma_array_eq(restored.blocks[i].hash, tree.blocks[i].hash);
    }
    assert(restored.blocks =~= tree.blocks);
    lemma_same_hashes(
        data,
        roots_start(data),
        restored.prefetched_shard_roots,
        tree.prefetched_shard_roots,
    );
    lemma_same_hashes(data, leaves_start(data), restored.leaves, tree.leaves);
    assert(restored.ss_root_cache =~= tree.ss_root_cache);
}

/// Restoring the snapshot of a tree, windowed or not, succeeds and gives the
/// tree back, with the shard roots that it was given and a warm cache.
pub proof fn law_snapshot_roundtrip(tree: TreeState, restored: TreeState)
    requires
        tree.shaped(),
        tree.blocks.len() <= u64::MAX,
    ensures
        snapshot_fault(with_checksum(payload_of(tree))) is None,
        restores(with_checksum(payload_of(tree)), restored) ==> restored == tree,
{
    let data = with_checksum(payload_of(tree));
    lemma_layout(tree);
    lemma_faultless(data, tree);
    if restores(data, restored) {
        lemma_restores_one(data, tree, restored);
    }
}

proof fn lemma_same_hashes(data: Seq<u8>, start: int, a: Seq<[u8; 32]>, b: Seq<[u8; 32]>)
    requires
        a.len() == b.len(),
        hashes_match(data, start, a),
        hashes_match(data, start, b),
    ensures
        a == b,
{
    assert forall|i: int| 0 <= i < a.len() implies a[i] == b[i] by {
        lemma_array_eq(a[i], b[i]);
    }
    assert(a =~= b);
}

/// A tree that is restored from a snapshot of an older version has an empty
/// cache, which is true.
pub proof fn law_older_snapshots_restore_cold(data: Seq<u8>, restored: TreeState)
    requires
        snapshot_fault(data) is None,
        magic_in(data) != SNAPSHOT_MAGIC,
        restores(data, restored),
    ensures
        restored.cache_true(),
        forall|slot: int|
            0 <= slot < L0_DB_ROWS ==> (#[trigger] restored.ss_root_cache[slot]) is None,
        magic_in(data) == SNAPSHOT_MAGIC_V1 ==> restored.leaf_offset == 0
            && restored.prefetched_shard_roots.len() == 0,
{
}

/// The header of a snapshot has its fields at fixed places: the magic number of
/// version 3, the number of leaves and of blocks, the height and the hash of
/// the newest block, the offset and the number of given roots.
pub proof fn law_snapshot_header_layout(tree: TreeState)
    requires
        tree.shaped(),
        tree.blocks.len() <= u64::MAX,
    ensures
        ({
            let data = with_checksum(payload_of(tree));
            let blocks = tree.blocks.len() as int;
            &&& u64_at(data, 0) == 0x434D_5452_4545_0003
            &&& u64_at(data, 8) == tree.leaf_offset + tree.leaves.len()
            &&& u64_at(data, 16) == blocks
            &&& u64_at(data, 24) == (if blocks == 0 {
                0
            } else {
                tree.blocks[blocks - 1].height
            })
            &&& forall|k: int|
                0 <= k < 32 ==> #[trigger] data[32 + k] == (if blocks == 0 {
                    0u8
                } else {
                    tree.blocks[blocks - 1].hash@[k]
                })
            &&& u64_at(data, 64) == tree.leaf_offset
            &&& u64_at(data, 72) == tree.prefetched_shard_roots.len()
        }),
{
    let data = with_checksum(payload_of(tree));
    let slots = tree.ss_root_cache.len() as int;
    lemma_header_len(tree);
    lemma_part_lengths(tree);
    lemma_cache_parts(tree.ss_root_cache, slots, slots);
    lemma_sections(
        header_of(tree),
        block_parts(tree.blocks),
        hash_bytes(tree.prefetched_shard_roots),
        hash_bytes(tree.leaves),
        cache_parts(tree.ss_root_cache, slots),
        xxh64_digest(payload_of(tree)),
    );
    assert(starts_with(data, header_of(tree))) by {
        reveal(has_sections);
    }
    lemma_header(data, tree);
    assert forall|k: int| 0 <= k < 32 implies #[trigger] data[32 + k] == hash_field(
        tree.blocks,
    )[k] by {
        assert(data.subrange(32, 64)[k] == data[32 + k]);
    }
}

/// Behind the header of a snapshot stand the block records of 44 bytes, the
/// given roots and the leaves of 32 bytes, all in order, and at its end the
/// digest of everything before it.
pub proof fn law_snapshot_body_layout(tree: TreeState)
    requires
        tree.shaped(),
        tree.blocks.len() <= u64::MAX,
    ensures
        ({
            let data = with_checksum(payload_of(tree));
            let roots_at = 80 + 44 * tree.blocks.len();
            let leaves_at = roots_at + 32 * tree.prefetched_shard_roots.len();
            &&& forall|i: int|
                0 <= i < tree.blocks.len() ==> {
                    let record = #[trigger] tree.blocks[i];
                    &&& u64_at(data, 80 + 44 * i) == record.height
                    &&& data.subrange(80 + 44 * i + 8, 80 + 44 * i + 40) == record.hash@
                    &&& u32_at(data, 80 + 44 * i + 40) == record.num_commitments
                }
            &&& forall|i: int|
                0 <= i < tree.prefetched_shard_roots.len() ==> data.subrange(
                    roots_at + 32 * i,
                    roots_at + 32 * i + 32,
                ) == (#[trigger] tree.prefetched_shard_roots[i])@
            &&& forall|i: int|
                0 <= i < tree.leaves.len() ==> data.subrange(
                    leaves_at + 32 * i,
                    leaves_at + 32 * i + 32,
                ) == (#[trigger] tree.leaves[i])@
            &&& u64_at(data, data.len() - 8) == xxh64_digest(data.take(data.len() - 8))
        }),
{
    lemma_layout(tree);
    lemma_body_places(with_checksum(payload_of(tree)), tree);
}

proof fn lemma_body_places(data: Seq<u8>, tree: TreeState)
    requires
        lays_out(data, tree),
    ensures
        ({
            let roots_at = 80 + 44 * tree.blocks.len();
            let leaves_at = roots_at + 32 * tree.prefetched_shard_roots.len();
            &&& forall|i: int|
                0 <= i < tree.blocks.len() ==> {
                    let record = #[trigger] tree.blocks[i];
                    &&& u64_at(data, 80 + 44 * i) == record.height
                    &&& data.subrange(80 + 44 * i + 8, 80 + 44 * i + 40) == record.hash@
                    &&& u32_at(data, 80 + 44 * i + 40) == record.num_commitments
                }
            &&& forall|i: int|
                0 <= i < tree.prefetched_shard_roots.len() ==> data.subrange(
                    roots_at + 32 * i,
                    roots_at + 32 * i + 32,
                ) == (#[trigger] tree.prefetched_shard_roots[i])@
            &&& forall|i: int|
                0 <= i < tree.leaves.len() ==> data.subrange(
                    leaves_at + 32 * i,
                    leaves_at + 32 * i + 32,
                ) == (#[trigger] tree.leaves[i])@
            &&& u64_at(data, data.len() - 8) == xxh64_digest(data.take(data.len() - 8))
        }),
{
    reveal(lays_out);
}

proof fn lemma_cache_places(
    cache: Seq<Option<[u8; 32]>>,
    n: int,
    place: spec_fn(int) -> int,
)
    requires
        0 <= n <= cache.len(),
        place(0) == 0,
        forall|s: int|
            0 <= s < cache.len() ==> place(s + 1) == place(s) + (if (
            #[trigger] cache[s]) is Some {
                1int
            } else {
                0int
            }),
    ensures
        cache_parts(cache, n).len() == place(n),
        forall|s: int|
            0 <= s < n && (#[trigger] cache[s]) is Some ==> 0 <= place(s) < cache_parts(
                cache,
                n,
            ).len(),
        forall|s: int|
            0 <= s < n && (#[trigger] cache[s]) is Some ==> cache_parts(cache, n)[place(s)]
                == u32_le(s as u32) + cache[s]->Some_0@,
    decreases n,
{
    if n > 0 {
        lemma_cache_places(cache, n - 1, place);
        assert(place(n - 1 + 1) == place(n - 1) + (if cache[n - 1] is Some {
            1int
        } else {
            0int
        }));
    }
}

/// Behind the leaves of a snapshot stand the number of cached roots and the
/// cached roots by ascending slot, each behind the number of its slot. `place`
/// counts the cached roots before a slot.
pub proof fn law_snapshot_cache_layout(tree: TreeState, place: spec_fn(int) -> int)
    requires
        tree.shaped(),
        tree.blocks.len() <= u64::MAX,
        place(0) == 0,
        forall|s: int|
            0 <= s < 8_192 ==> place(s + 1) == place(s) + (if (
            #[trigger] tree.ss_root_cache[s]) is Some {
                1int
            } else {
                0int
            }),
    ensures
        ({
            let data = with_checksum(payload_of(tree));
            let count_at = 80int + 44 * tree.blocks.len() + 32 * tree.prefetched_shard_roots.len()
                + 32 * tree.leaves.len();
            &&& u64_at(data, count_at) == place(8_192)
            &&& data.len() == count_at + 8 + 36 * place(8_192) + 8
            &&& forall|s: int|
                0 <= s < 8_192 && (#[trigger] tree.ss_root_cache[s]) is Some ==> {
                    let at = count_at + 8 + 36 * place(s);
                    &&& u32_at(data, at) == s
                    &&& data.subrange(at + 4, at + 36) == tree.ss_root_cache[s]->Some_0@
                }
        }),
{
    lemma_layout(tree);
    lemma_cache_bytes(with_checksum(payload_of(tree)), tree, place);
}

proof fn lemma_cache_bytes(data: Seq<u8>, tree: TreeState, place: spec_fn(int) -> int)
    requires
        lays_out(data, tree),
        tree.ss_root_cache.len() == 8_192,
        place(0) == 0,
        forall|s: int|
            0 <= s < 8_192 ==> place(s + 1) == place(s) + (if (
            #[trigger] tree.ss_root_cache[s]) is Some {
                1int
            } else {
                0int
            }),
    ensures
        ({
            let count_at = 80int + 44 * tree.blocks.len() + 32 * tree.prefetched_shard_roots.len()
                + 32 * tree.leaves.len();
            &&& u64_at(data, count_at) == place(8_192)
            &&& data.len() == count_at + 8 + 36 * place(8_192) + 8
            &&& forall|s: int|
                0 <= s < 8_192 && (#[trigger] tree.ss_root_cache[s]) is Some ==> {
                    let at = count_at + 8 + 36 * place(s);
                    &&& u32_at(data, at) == s
                    &&& data.subrange(at + 4, at + 36) == tree.ss_root_cache[s]->Some_0@
                }
        }),
{
    let cached = cache_parts(tree.ss_root_cache, 8_192);
    lemma_cache_places(tree.ss_root_cache, 8_192, place);
    lemma_cache_parts(tree.ss_root_cache, 8_192, 8_192);
    reveal(lays_out);
    let entries_at = leaves_end(data) + 8;
    assert(entries_at + 36 * cached.len() + 8 == data.len());
    assert forall|s: int| 0 <= s < 8_192 && (#[trigger] tree.ss_root_cache[s]) is Some implies {
        let at = entries_at + 36 * place(s);
        &&& u32_at(data, at) == s
        &&& data.subrange(at + 4, at + 36) == tree.ss_root_cache[s]->Some_0@
    } by {
        let at = entries_at + 36 * place(s);
        let entry = cached[place(s)];
        assert(entry == data.subrange(at, at + 36));
        lemma_cache_entry(data, at, s as u32, tree.ss_root_cache[s]->Some_0);
    }
}

/// A cached root and its slot can be read where they stand.
proof fn lemma_cache_entry(data: Seq<u8>, at: int, slot: u32, root: [u8; 32])
    requires
        0 <= at,
        at + 36 <= data.len(),
        data.subrange(at, at + 36) == u32_le(slot) + root@,
    ensures
        u32_at(data, at) == slot,
        data.subrange(at + 4, at + 36) == root@,
{
    let entry = data.subrange(at, at + 36);
    assert(data.subrange(at, at + 4) =~= entry.subrange(0, 4));
    assert(entry.subrange(0, 4) =~= u32_le(slot));
    lemma_u32_le_at(data, at, slot);
    assert(data.subrange(at + 4, at + 36) =~= entry.subrange(4, 36));
    assert(entry.subrange(4, 36) =~= root@);
}

/// What is accepted as a snapshot ends with the digest of everything before it,
/// has the magic number of one of the three versions, starts its leaves at a
/// shard, and has block records that account for all its leaves. `sums` holds
/// the running sums of what the records count. Everything else is refused.
pub proof fn law_accepted_snapshots_are_whole(data: Seq<u8>, sums: Seq<int>)
    requires
        data.len() >= 72,
        ({
            let base: int = if u64_at(data, 0) == 0x434D_5452_4545_0001 {
                64
            } else {
                80
            };
            &&& sums.len() == u64_at(data, 16) + 1
            &&& sums[0] == 0
            &&& forall|j: int, k: int|
                0 <= k && j == k + 1 && j < sums.len() ==> #[trigger] sums[j] == #[trigger] sums[k]
                    + u32_at(data, base + k * 44 + 40)
        }),
    ensures
        ({
            let magic = u64_at(data, 0);
            let oldest = magic == 0x434D_5452_4545_0001;
            let base: int = if oldest {
                64
            } else {
                80
            };
            let offset: int = if oldest {
                0
            } else {
                u64_at(data, 64) as int
            };
            let leaves = u64_at(data, 8) - offset;
            snapshot_fault(data) is None ==> {
                &&& u64_at(data, data.len() - 8) == xxh64_digest(data.take(data.len() - 8))
                &&& magic == 0x434D_5452_4545_0001 || magic == 0x434D_5452_4545_0002 || magic
                    == 0x434D_5452_4545_0003
                &&& offset % 65_536 == 0
                &&& leaves >= 0
                &&& sums.last() == leaves
                &&& base + 44 * u64_at(data, 16) + 32 * leaves + 8 <= data.len()
            }
        }),
{
    lemma_counted_sums(data, sums, sums.len() - 1);
}

proof fn lemma_counted_sums(data: Seq<u8>, sums: Seq<int>, n: int)
    requires
        0 <= n < sums.len(),
        sums[0] == 0,
        forall|j: int, k: int|
            0 <= k && j == k + 1 && j < sums.len() ==> #[trigger] sums[j] == #[trigger] sums[k]
                + u32_at(data, records_start(data) + k * 44 + 40),
    ensures
        counted_in(data, n) == sums[n],
    decreases n,
{
    if n > 0 {
        lemma_counted_sums(data, sums, n - 1);
        assert(sums[n] == sums[n - 1] + u32_at(data, records_start(data) + (n - 1) * 44 + 40));
    }
}

/// Bytes that are too short for a header and a digest, or that do not end with
/// the digest of what is before it, are refused.
pub proof fn law_altered_snapshots_are_refused(data: Seq<u8>)
    requires
        data.len() < 72 || u64_at(data, data.len() - 8) != xxh64_digest(data.take(data.len() - 8)),
    ensures
        snapshot_fault(data) is Some,
{
}

/// What is restored stands in the snapshot: of the oldest version behind a
/// header of 64 bytes, of the others, with an offset and given roots, behind one
/// of 80 bytes.
pub proof fn law_restored_fields(data: Seq<u8>, tree: TreeState)
    requires
        snapshot_fault(data) is None,
        restores(data, tree),
    ensures
        ({
            let oldest = u64_at(data, 0) == 0x434D_5452_4545_0001;
            let base: int = if oldest {
                64
            } else {
                80
            };
            let roots: int = if oldest {
                0
            } else {
                u64_at(data, 72) as int
            };
            let roots_at = base + 44 * u64_at(data, 16);
            let leaves_at = roots_at + 32 * roots;
            &&& oldest ==> tree.leaf_offset == 0
            &&& !oldest ==> tree.leaf_offset == u64_at(data, 64)
            &&& tree.leaf_offset + tree.leaves.len() == u64_at(data, 8)
            &&& tree.blocks.len() == u64_at(data, 16)
            &&& tree.prefetched_shard_roots.len() == roots
            &&& forall|i: int|
                0 <= i < tree.blocks.len() ==> {
                    let record = #[trigger] tree.blocks[i];
                    &&& u64_at(data, base + 44 * i) == record.height
                    &&& data.subrange(base + 44 * i + 8, base + 44 * i + 40) == record.hash@
                    &&& u32_at(data, base + 44 * i + 40) == record.num_commitments
                }
            &&& forall|i: int|
                0 <= i < roots ==> data.subrange(roots_at + 32 * i, roots_at + 32 * i + 32) == (
                #[trigger] tree.prefetched_shard_roots[i])@
            &&& forall|i: int|
                0 <= i < tree.leaves.len() ==> data.subrange(
                    leaves_at + 32 * i,
                    leaves_at + 32 * i + 32,
                ) == (#[trigger] tree.leaves[i])@
        }),
{
}

/// A snapshot of an older version is accepted if and only if it ends with the
/// digest of everything before it, starts its leaves at a shard, holds all
/// records, roots and leaves, and has records that account for all leaves.
/// `sums` holds the running sums of what the records count.
pub proof fn law_older_snapshots_are_accepted(data: Seq<u8>, sums: Seq<int>, base: int)
    requires
        u64_at(data, 0) == 0x434D_5452_4545_0001 && base == 64 || u64_at(data, 0)
            == 0x434D_5452_4545_0002 && base == 80,
        data.len() >= base + 8,
        sums.len() == u64_at(data, 16) + 1,
        sums[0] == 0,
        forall|j: int, k: int|
            0 <= k && j == k + 1 && j < sums.len() ==> #[trigger] sums[j] == #[trigger] sums[k]
                + u32_at(data, base + k * 44 + 40),
    ensures
        ({
            let offset: int = if base == 64 {
                0
            } else {
                u64_at(data, 64) as int
            };
            let roots: int = if base == 64 {
                0
            } else {
                u64_at(data, 72) as int
            };
            let leaves = u64_at(data, 8) - offset;
            let roots_at = base + 44 * u64_at(data, 16);
            snapshot_fault(data) is None <==> {
                &&& u64_at(data, data.len() - 8) == xxh64_digest(data.take(data.len() - 8))
                &&& offset % 65_536 == 0
                &&& leaves >= 0
                &&& roots_at + 8 <= data.len()
                &&& sums.last() == leaves
                &&& roots_at + 32 * roots + 32 * leaves + 8 <= data.len()
            }
        }),
{
    lemma_counted_sums(data, sums, sums.len() - 1);
}

} // verus!
