//! Snapshots of a [`DecryptionDb`].
//!
//! Binary format v1 (all integers little-endian):
//!
//! | Field         | Size     | Description                                     |
//! |---------------|----------|-------------------------------------------------|
//! | magic         | 8 bytes  | `0x4445_4352_5950_0001`                         |
//! | tree_size     | 8 bytes  | Total global number of leaves                   |
//! | block_count   | 8 bytes  | Number of block records                         |
//! | latest_height | 8 bytes  | Height of the most recent block (0 if empty)    |
//! | latest_hash   | 32 bytes | Hash of the most recent block (zeros if empty)  |
//! | leaf_offset   | 8 bytes  | Global position of the first stored leaf        |
//! | block_records | variable | `block_count` x (height: 8, hash: 32, count: 4) |
//! | leaf_data     | variable | stored leaves x 116 bytes                       |
//! | checksum      | 8 bytes  | xxHash64 over everything preceding              |

use super::{total_leaves, BlockRecord, DbError, DecryptionDb, DecryptionState};
use crate::bytes::{
    joined, lemma_array_eq, lemma_concat_assoc, lemma_joined_push, lemma_trailing_u64,
    lemma_u64_le_at, push_bytes, push_u64, read_u64_at, u32_at, u64_at, u64_le, zero_hash, zeros,
};
use crate::checksum::{xxh64_digest, xxh64_seed_zero};
use crate::text::{decimal, hex_u64, push_decimal, push_hex};
use crate::witness::block_records::{
    lemma_pieces, lemma_record_roundtrip, push_record, read_record, record_at, record_bytes,
    BLOCK_RECORD_SIZE,
};
use crate::witness::decryption_types::{law_leaf_bytes_decide, DecryptionLeaf, DECRYPT_LEAF_BYTES};
use vstd::prelude::*;
use vstd::slice::slice_subrange;
use vstd::string::StringExecFns;

verus! {

pub const SNAPSHOT_MAGIC_V1: u64 = 0x4445_4352_5950_0001;

/// Bytes before the block records.
pub const HEADER_SIZE: usize = 72;

/// Bytes of the checksum.
pub const CHECKSUM_SIZE: usize = 8;

/// The bytes of each block record.
pub open spec fn block_parts(blocks: Seq<BlockRecord>) -> Seq<Seq<u8>> {
    Seq::new(
        blocks.len(),
        |i: int| record_bytes(blocks[i].height, blocks[i].hash@, blocks[i].num_leaves),
    )
}

/// The bytes of each leaf.
pub open spec fn leaf_parts(leaves: Seq<DecryptionLeaf>) -> Seq<Seq<u8>> {
    Seq::new(leaves.len(), |i: int| leaves[i].bytes())
}

/// Height of the newest block, or zero.
pub open spec fn height_field(blocks: Seq<BlockRecord>) -> u64 {
    if blocks.len() == 0 {
        0
    } else {
        blocks.last().height
    }
}

/// Hash of the newest block, or zero bytes.
pub open spec fn hash_field(blocks: Seq<BlockRecord>) -> Seq<u8> {
    if blocks.len() == 0 {
        zeros(32)
    } else {
        blocks.last().hash@
    }
}

/// The fields before the block records.
pub open spec fn header_of(db: DecryptionState) -> Seq<u8> {
    u64_le(SNAPSHOT_MAGIC_V1) + u64_le(db.tree_size() as u64) + u64_le(db.blocks.len() as u64)
        + u64_le(height_field(db.blocks)) + hash_field(db.blocks) + u64_le(db.leaf_offset)
}

/// What a snapshot holds before its checksum.
pub open spec fn payload_of(db: DecryptionState) -> Seq<u8> {
    header_of(db) + joined(block_parts(db.blocks)) + joined(leaf_parts(db.leaves))
}

/// The bytes with their checksum behind them.
pub open spec fn with_checksum(payload: Seq<u8>) -> Seq<u8> {
    payload + u64_le(xxh64_digest(payload))
}

/// The bytes before the checksum.
pub open spec fn payload_part(data: Seq<u8>) -> Seq<u8> {
    data.take(data.len() - CHECKSUM_SIZE)
}

/// Global number of leaves that a snapshot's header gives.
pub open spec fn size_in(data: Seq<u8>) -> u64 {
    u64_at(data, 8)
}

/// Number of block records that a snapshot's header gives.
pub open spec fn block_count_in(data: Seq<u8>) -> u64 {
    u64_at(data, 16)
}

/// Position of the first stored leaf that a snapshot's header gives.
pub open spec fn offset_in(data: Seq<u8>) -> u64 {
    u64_at(data, 64)
}

/// The leaves that the first `n` block records of a snapshot count.
pub open spec fn counted_in(data: Seq<u8>, n: int) -> int
    decreases n,
{
    if n <= 0 {
        0
    } else {
        counted_in(data, n - 1) + u32_at(data, HEADER_SIZE + (n - 1) * BLOCK_RECORD_SIZE + 40)
    }
}

/// What is wrong with the frame and the header of a snapshot, if anything.
pub open spec fn header_fault(data: Seq<u8>) -> Option<Seq<char>> {
    let payload = payload_part(data);
    if data.len() < 16 {
        Some("data too short"@)
    } else if u64_at(data, data.len() - CHECKSUM_SIZE) != xxh64_digest(payload) {
        Some("checksum mismatch"@)
    } else if u64_at(data, 0) != SNAPSHOT_MAGIC_V1 {
        Some("bad magic: "@ + hex_u64(u64_at(data, 0)))
    } else if payload.len() < 32 {
        Some("unexpected EOF reading u64"@)
    } else if payload.len() < 64 {
        Some("unexpected EOF reading latest_hash"@)
    } else if payload.len() < HEADER_SIZE {
        Some("unexpected EOF reading u64"@)
    } else if size_in(data) < offset_in(data) {
        Some(
            "tree_size ("@ + decimal(size_in(data) as int) + ") < leaf_offset ("@ + decimal(
                offset_in(data) as int,
            ) + ")"@,
        )
    } else {
        None
    }
}

/// What is wrong behind the header of a snapshot, if anything.
pub open spec fn body_fault(data: Seq<u8>) -> Option<Seq<char>> {
    let payload = payload_part(data);
    let count = block_count_in(data) as int;
    let records_end = HEADER_SIZE + count * BLOCK_RECORD_SIZE;
    let local_leaves = size_in(data) - offset_in(data);
    if records_end > payload.len() {
        Some("block records truncated"@)
    } else if counted_in(data, count) != local_leaves {
        Some(
            "block records sum to "@ + decimal(counted_in(data, count)) + " but expected "@
                + decimal(local_leaves) + " local leaves"@,
        )
    } else if records_end + local_leaves * DECRYPT_LEAF_BYTES > payload.len() {
        Some("leaf data truncated"@)
    } else {
        None
    }
}

/// Why `data` is no snapshot, if it is none.
pub open spec fn snapshot_fault(data: Seq<u8>) -> Option<Seq<char>> {
    match header_fault(data) {
        Some(fault) => Some(fault),
        None => body_fault(data),
    }
}

/// Whether the block records of `data` are `blocks`.
pub open spec fn records_match(data: Seq<u8>, blocks: Seq<BlockRecord>) -> bool {
    forall|i: int|
        0 <= i < blocks.len() ==> record_at(
            data,
            HEADER_SIZE + i * BLOCK_RECORD_SIZE,
            (#[trigger] blocks[i]).height,
            blocks[i].hash@,
            blocks[i].num_leaves,
        )
}

/// Whether the leaves that stand from `start` on in `data` are `leaves`.
pub open spec fn leaves_match(data: Seq<u8>, start: int, leaves: Seq<DecryptionLeaf>) -> bool {
    forall|i: int|
        0 <= i < leaves.len() ==> (#[trigger] leaves[i]).bytes() == data.subrange(
            start + i * DECRYPT_LEAF_BYTES,
            start + i * DECRYPT_LEAF_BYTES + DECRYPT_LEAF_BYTES,
        )
}

/// Whether `db` is what the snapshot `data` holds.
pub open spec fn restores(data: Seq<u8>, db: DecryptionState) -> bool {
    &&& db.leaf_offset == offset_in(data)
    &&& db.blocks.len() == block_count_in(data)
    &&& records_match(data, db.blocks)
    &&& db.tree_size() == size_in(data)
    &&& leaves_match(data, HEADER_SIZE + block_count_in(data) * BLOCK_RECORD_SIZE, db.leaves)
}

fn corrupted(reason: &str) -> (error: DbError)
    ensures
        error matches DbError::SnapshotCorrupted { reason: r } && r@ == reason@,
{
    DbError::SnapshotCorrupted { reason: String::from_str(reason) }
}

/// Reads the `u64` at `*pos` and moves behind it.
fn read_u64(data: &[u8], pos: &mut usize) -> (value: Result<u64, DbError>)
    requires
        *old(pos) <= data.len(),
    ensures
        match value {
            Ok(value) => *old(pos) + 8 <= data@.len() && value == u64_at(data@, *old(pos) as int)
                && *final(pos) == *old(pos) + 8,
            Err(error) => *old(pos) + 8 > data@.len() && (
            error matches DbError::SnapshotCorrupted { reason } && reason@
                == "unexpected EOF reading u64"@),
        },
{
    if data.len() - *pos < 8 {
        return Err(corrupted("unexpected EOF reading u64"));
    }
    let value: u64 = read_u64_at(data, *pos);
    *pos = *pos + 8;
    Ok(value)
}

/// Reads `count` block records behind the header and moves behind them.
/// Returns the records and how many leaves they count.
fn read_block_records(data: &[u8], pos: &mut usize, count: u64) -> (records: Result<
    (Vec<BlockRecord>, u128),
    DbError,
>)
    requires
        *old(pos) == HEADER_SIZE,
        HEADER_SIZE <= data.len(),
    ensures
        match records {
            Ok((blocks, total)) => {
                &&& HEADER_SIZE + count * BLOCK_RECORD_SIZE <= data@.len()
                &&& *final(pos) == HEADER_SIZE + count * BLOCK_RECORD_SIZE
                &&& blocks@.len() == count
                &&& records_match(data@, blocks@)
                &&& total == counted_in(data@, count as int)
                &&& total == total_leaves(blocks@)
            },
            Err(error) => HEADER_SIZE + count * BLOCK_RECORD_SIZE > data@.len() && (
            error matches DbError::SnapshotCorrupted { reason } && reason@
                == "block records truncated"@),
        },
{
    if count > ((data.len() - HEADER_SIZE) / BLOCK_RECORD_SIZE) as u64 {
        return Err(corrupted("block records truncated"));
    }
    let count: usize = count as usize;
    let mut blocks: Vec<BlockRecord> = Vec::with_capacity(count);
    let mut total: u128 = 0;
    let mut i: usize = 0;
    while i < count
        invariant
            i <= count,
            HEADER_SIZE + count * BLOCK_RECORD_SIZE <= data.len(),
            *pos == HEADER_SIZE + i * BLOCK_RECORD_SIZE,
            total == counted_in(data@, i as int),
            total <= i * 0xffff_ffff,
            blocks@.len() == i,
            total == total_leaves(blocks@),
            records_match(data@, blocks@),
        decreases count - i,
    {
        let (height, hash, num_leaves) = read_record(data, *pos);
        let ghost before = blocks@;
        blocks.push(BlockRecord { height, hash, num_leaves });
        assert(blocks@.drop_last() =~= before);
        total = total + num_leaves as u128;
        *pos = *pos + BLOCK_RECORD_SIZE;
        i += 1;
    }
    Ok((blocks, total))
}

/// Reads `count` leaves from `*pos` on.
fn read_leaves(data: &[u8], pos: &mut usize, count: u64) -> (leaves: Result<
    Vec<DecryptionLeaf>,
    DbError,
>)
    requires
        *old(pos) <= data.len(),
    ensures
        match leaves {
            Ok(leaves) => {
                &&& *old(pos) + count * DECRYPT_LEAF_BYTES <= data@.len()
                &&& *final(pos) == *old(pos) + count * DECRYPT_LEAF_BYTES
                &&& leaves@.len() == count
                &&& leaves_match(data@, *old(pos) as int, leaves@)
            },
            Err(error) => *old(pos) + count * DECRYPT_LEAF_BYTES > data@.len() && (
            error matches DbError::SnapshotCorrupted { reason } && reason@
                == "leaf data truncated"@),
        },
{
    if count > ((data.len() - *pos) / DECRYPT_LEAF_BYTES) as u64 {
        return Err(corrupted("leaf data truncated"));
    }
    let start: usize = *pos;
    let count: usize = count as usize;
    let mut leaves: Vec<DecryptionLeaf> = Vec::with_capacity(count);
    let mut i: usize = 0;
    while i < count
        invariant
            i <= count,
            start + count * DECRYPT_LEAF_BYTES <= data.len(),
            *pos == start + i * DECRYPT_LEAF_BYTES,
            leaves@.len() == i,
            leaves_match(data@, start as int, leaves@),
        decreases count - i,
    {
        let rest = slice_subrange(data, *pos, *pos + DECRYPT_LEAF_BYTES);
        let leaf = DecryptionLeaf::from_bytes(rest);
        if let Some(leaf) = leaf {
            assert(rest@.take(116) =~= data@.subrange(*pos as int, *pos + 116));
            leaves.push(leaf);
        }
        *pos = *pos + DECRYPT_LEAF_BYTES;
        i += 1;
    }
    Ok(leaves)
}

impl DecryptionDb {
    fn snapshot_header(&self) -> (buf: Vec<u8>)
        requires
            self.wf(),
        ensures
            buf@ == header_of(self@),
    {
        let mut buf: Vec<u8> = Vec::new();
        push_u64(&mut buf, SNAPSHOT_MAGIC_V1);
        assert(buf@ =~= u64_le(SNAPSHOT_MAGIC_V1));
        push_u64(&mut buf, self.tree_size());
        push_u64(&mut buf, self.blocks.len() as u64);
        let n: usize = self.blocks.len();
        if n == 0 {
            push_u64(&mut buf, 0);
            let zero = zero_hash();
            push_bytes(&mut buf, zero.as_slice());
        } else {
            push_u64(&mut buf, self.blocks[n - 1].height);
            push_bytes(&mut buf, self.blocks[n - 1].hash.as_slice());
        }
        push_u64(&mut buf, self.leaf_offset);
        buf
    }

    /// Serializes the store.
    pub fn to_snapshot(&self) -> (snapshot: Vec<u8>)
        requires
            self.wf(),
        ensures
            snapshot@ == with_checksum(payload_of(self@)),
    {
        let mut buf = self.snapshot_header();
        let n: usize = self.blocks.len();
        let ghost header = buf@;
        assert(block_parts(self.blocks@.take(0)) =~= Seq::empty());
        assert(header + Seq::<u8>::empty() =~= header);
        let mut i: usize = 0;
        while i < n
            invariant
                i <= n,
                n == self.blocks@.len(),
                buf@ == header + joined(block_parts(self.blocks@.take(i as int))),
            decreases n - i,
        {
            let block = &self.blocks[i];
            push_record(&mut buf, block.height, &block.hash, block.num_leaves);
            proof {
                let done = self.blocks@.take(i as int);
                let part = record_bytes(block.height, block.hash@, block.num_leaves);
                lemma_joined_push(block_parts(done), part);
                assert(block_parts(self.blocks@.take(i + 1)) =~= block_parts(done).push(part));
                lemma_concat_assoc(header, joined(block_parts(done)), part);
            }
            i += 1;
        }
        assert(self.blocks@.take(i as int) =~= self.blocks@);
        let ghost records = buf@;
        assert(leaf_parts(self.leaves@.take(0)) =~= Seq::empty());
        assert(records + Seq::<u8>::empty() =~= records);
        let mut j: usize = 0;
        while j < self.leaves.len()
            invariant
                j <= self.leaves@.len(),
                buf@ == records + joined(leaf_parts(self.leaves@.take(j as int))),
            decreases self.leaves@.len() - j,
        {
            let bytes = self.leaves[j].to_bytes();
            push_bytes(&mut buf, bytes.as_slice());
            proof {
                let done = self.leaves@.take(j as int);
                let part = self.leaves@[j as int].bytes();
                lemma_joined_push(leaf_parts(done), part);
                assert(leaf_parts(self.leaves@.take(j + 1)) =~= leaf_parts(done).push(part));
                lemma_concat_assoc(records, joined(leaf_parts(done)), part);
            }
            j += 1;
        }
        assert(self.leaves@.take(j as int) =~= self.leaves@);
        let digest: u64 = xxh64_seed_zero(buf.as_slice());
        push_u64(&mut buf, digest);
        buf
    }

    /// Restores a store from a snapshot.
    pub fn from_snapshot(data: &[u8]) -> (restored: Result<Self, DbError>)
        ensures
            match restored {
                Ok(db) => snapshot_fault(data@) is None && db.wf() && restores(data@, db@),
                Err(error) => error matches DbError::SnapshotCorrupted { reason }
                    && snapshot_fault(data@) == Some(reason@),
            },
    {
        match read_header(data) {
            Err(error) => Err(error),
            Ok((tree_size, block_count, leaf_offset)) => Self::read_body(
                data,
                tree_size,
                block_count,
                leaf_offset,
            ),
        }
    }

    /// Reads the block records and leaves behind a header that is in order.
    fn read_body(data: &[u8], tree_size: u64, block_count: u64, leaf_offset: u64) -> (restored:
        Result<Self, DbError>)
        requires
            header_fault(data@) is None,
            tree_size == size_in(data@),
            block_count == block_count_in(data@),
            leaf_offset == offset_in(data@),
        ensures
            match restored {
                Ok(db) => body_fault(data@) is None && db.wf() && restores(data@, db@),
                Err(error) => error matches DbError::SnapshotCorrupted { reason }
                    && body_fault(data@) == Some(reason@),
            },
    {
        let payload = slice_subrange(data, 0, data.len() - CHECKSUM_SIZE);
        assert(payload@ =~= payload_part(data@));
        let mut pos: usize = HEADER_SIZE;
        proof {
            lemma_prefix_reads(data@, payload@, block_count as int);
        }
        let (blocks, total) = match read_block_records(payload, &mut pos, block_count) {
            Ok(read) => read,
            Err(error) => return Err(error),
        };
        let local_leaves: u64 = tree_size - leaf_offset;
        if total != local_leaves as u128 {
            let mut reason = String::from_str("block records sum to ");
            push_decimal(&mut reason, total);
            reason.append(" but expected ");
            push_decimal(&mut reason, local_leaves as u128);
            reason.append(" local leaves");
            return Err(DbError::SnapshotCorrupted { reason });
        }
        let ghost records_end = pos as int;
        let leaves = match read_leaves(payload, &mut pos, local_leaves) {
            Ok(read) => read,
            Err(error) => return Err(error),
        };
        proof {
            lemma_prefix_records(data@, payload@, blocks@);
            lemma_prefix_leaves(data@, payload@, records_end, leaves@);
        }
        Ok(DecryptionDb { leaves, blocks, leaf_offset })
    }
}

/// Checks the frame of a snapshot and reads its header: tree size, number of
/// block records and leaf offset.
fn read_header(data: &[u8]) -> (header: Result<(u64, u64, u64), DbError>)
    ensures
        match header {
            Ok((tree_size, block_count, leaf_offset)) => header_fault(data@) is None && tree_size
                == size_in(data@) && block_count == block_count_in(data@) && leaf_offset
                == offset_in(data@),
            Err(error) => error matches DbError::SnapshotCorrupted { reason } && header_fault(
                data@,
            ) == Some(reason@),
        },
{
    if data.len() < 16 {
        return Err(corrupted("data too short"));
    }
    let end: usize = data.len() - CHECKSUM_SIZE;
    let stored: u64 = read_u64_at(data, end);
    let payload = slice_subrange(data, 0, end);
    assert(payload@ =~= payload_part(data@));
    if stored != xxh64_seed_zero(payload) {
        return Err(corrupted("checksum mismatch"));
    }
    let mut pos: usize = 0;
    let magic: u64 = read_u64_at(payload, pos);
    pos = pos + 8;
    if magic != SNAPSHOT_MAGIC_V1 {
        let mut reason = String::from_str("bad magic: ");
        push_hex(&mut reason, magic);
        return Err(DbError::SnapshotCorrupted { reason });
    }
    let tree_size: u64 = match read_u64(payload, &mut pos) {
        Ok(value) => value,
        Err(error) => return Err(error),
    };
    let block_count: u64 = match read_u64(payload, &mut pos) {
        Ok(value) => value,
        Err(error) => return Err(error),
    };
    if let Err(error) = read_u64(payload, &mut pos) {
        return Err(error);
    }
    if payload.len() - pos < 32 {
        return Err(corrupted("unexpected EOF reading latest_hash"));
    }
    pos = pos + 32;
    let leaf_offset: u64 = match read_u64(payload, &mut pos) {
        Ok(value) => value,
        Err(error) => return Err(error),
    };
    if tree_size < leaf_offset {
        let mut reason = String::from_str("tree_size (");
        push_decimal(&mut reason, tree_size as u128);
        reason.append(") < leaf_offset (");
        push_decimal(&mut reason, leaf_offset as u128);
        reason.append(")");
        return Err(DbError::SnapshotCorrupted { reason });
    }
    Ok((tree_size, block_count, leaf_offset))
}

proof fn lemma_prefix_records(data: Seq<u8>, prefix: Seq<u8>, blocks: Seq<BlockRecord>)
    requires
        prefix.len() <= data.len(),
        prefix == data.take(prefix.len() as int),
        HEADER_SIZE + blocks.len() * BLOCK_RECORD_SIZE <= prefix.len(),
        records_match(prefix, blocks),
    ensures
        records_match(data, blocks),
{
    assert forall|i: int| 0 <= i < blocks.len() implies record_at(
        data,
        HEADER_SIZE + i * BLOCK_RECORD_SIZE,
        (#[trigger] blocks[i]).height,
        blocks[i].hash@,
        blocks[i].num_leaves,
    ) by {
        let at = HEADER_SIZE + i * BLOCK_RECORD_SIZE;
        assert(prefix.subrange(at + 8, at + 40) =~= data.subrange(at + 8, at + 40));
    }
}

proof fn lemma_prefix_leaves(
    data: Seq<u8>,
    prefix: Seq<u8>,
    start: int,
    leaves: Seq<DecryptionLeaf>,
)
    requires
        prefix.len() <= data.len(),
        prefix == data.take(prefix.len() as int),
        0 <= start,
        start + leaves.len() * DECRYPT_LEAF_BYTES <= prefix.len(),
        leaves_match(prefix, start, leaves),
    ensures
        leaves_match(data, start, leaves),
{
    assert forall|i: int| 0 <= i < leaves.len() implies (#[trigger] leaves[i]).bytes()
        == data.subrange(
        start + i * DECRYPT_LEAF_BYTES,
        start + i * DECRYPT_LEAF_BYTES + DECRYPT_LEAF_BYTES,
    ) by {
        assert(prefix.subrange(start + i * 116, start + i * 116 + 116) =~= data.subrange(
            start + i * 116,
            start + i * 116 + 116,
        ));
    }
}

/// The block records of a prefix count what they count in the whole.
proof fn lemma_prefix_reads(data: Seq<u8>, prefix: Seq<u8>, n: int)
    requires
        prefix.len() <= data.len(),
        prefix == data.take(prefix.len() as int),
    ensures
        HEADER_SIZE + n * BLOCK_RECORD_SIZE <= prefix.len() ==> counted_in(prefix, n)
            == counted_in(data, n),
    decreases n,
{
    if n > 0 && HEADER_SIZE + n * BLOCK_RECORD_SIZE <= prefix.len() {
        lemma_prefix_reads(data, prefix, n - 1);
    }
}

/// A `u64` between others can be read.
proof fn lemma_u64_inside(data: Seq<u8>, before: Seq<u8>, x: u64, rest: Seq<u8>)
    requires
        data == before + u64_le(x) + rest,
    ensures
        u64_at(data, before.len() as int) == x,
        data == before + (u64_le(x) + rest),
{
    let n = before.len() as int;
    assert(data.subrange(n, n + 8) =~= u64_le(x));
    lemma_u64_le_at(data, n, x);
    lemma_concat_assoc(before, u64_le(x), rest);
}

/// What the header of a snapshot gives.
proof fn lemma_header(db: DecryptionState, rest: Seq<u8>)
    ensures
        header_of(db).len() == HEADER_SIZE,
        u64_at(header_of(db) + rest, 0) == SNAPSHOT_MAGIC_V1,
        size_in(header_of(db) + rest) == db.tree_size() as u64,
        block_count_in(header_of(db) + rest) == db.blocks.len() as u64,
        u64_at(header_of(db) + rest, 24) == height_field(db.blocks),
        (header_of(db) + rest).subrange(32, 64) == hash_field(db.blocks),
        offset_in(header_of(db) + rest) == db.leaf_offset,
{
    let data = header_of(db) + rest;
    let (size, blocks) = (db.tree_size() as u64, db.blocks.len() as u64);
    let (height, hash) = (height_field(db.blocks), hash_field(db.blocks));
    let start = u64_le(SNAPSHOT_MAGIC_V1) + u64_le(size) + u64_le(blocks);
    assert(start.len() == 24);
    lemma_header_end(data, start, height, hash, db.leaf_offset, rest);
    let more = u64_le(height) + (hash + (u64_le(db.leaf_offset) + rest));
    lemma_header_start(data, SNAPSHOT_MAGIC_V1, size, blocks, more);
}

/// What the first fields of a header give.
proof fn lemma_header_start(data: Seq<u8>, magic: u64, size: u64, blocks: u64, rest: Seq<u8>)
    requires
        data == u64_le(magic) + u64_le(size) + u64_le(blocks) + rest,
    ensures
        u64_at(data, 0) == magic,
        u64_at(data, 8) == size,
        u64_at(data, 16) == blocks,
{
    lemma_pair_len(magic, size);
    lemma_u64_inside(data, u64_le(magic) + u64_le(size), blocks, rest);
    lemma_u64_inside(data, u64_le(magic), size, u64_le(blocks) + rest);
    lemma_u64_first(data, magic, u64_le(size) + (u64_le(blocks) + rest));
}

proof fn lemma_pair_len(a: u64, b: u64)
    ensures
        u64_le(a).len() == 8,
        (u64_le(a) + u64_le(b)).len() == 16,
{
}

/// A `u64` before others can be read.
proof fn lemma_u64_first(data: Seq<u8>, x: u64, rest: Seq<u8>)
    requires
        data == u64_le(x) + rest,
    ensures
        u64_at(data, 0) == x,
{
    assert(data.subrange(0, 8) =~= u64_le(x));
    lemma_u64_le_at(data, 0, x);
}

/// What the last fields of a header give.
proof fn lemma_header_end(
    data: Seq<u8>,
    start: Seq<u8>,
    height: u64,
    hash: Seq<u8>,
    offset: u64,
    rest: Seq<u8>,
)
    requires
        start.len() == 24,
        hash.len() == 32,
        data == start + u64_le(height) + hash + u64_le(offset) + rest,
    ensures
        u64_at(data, 24) == height,
        data.subrange(32, 64) == hash,
        u64_at(data, 64) == offset,
        data == start + (u64_le(height) + (hash + (u64_le(offset) + rest))),
        (start + u64_le(height) + hash + u64_le(offset)).len() == 72,
{
    let before = start + u64_le(height);
    assert(before.len() == 32);
    lemma_u64_inside(data, before + hash, offset, rest);
    lemma_hash_inside(data, before, hash, u64_le(offset) + rest);
    lemma_u64_inside(data, start, height, hash + (u64_le(offset) + rest));
}

/// Bytes between others can be found.
proof fn lemma_hash_inside(data: Seq<u8>, before: Seq<u8>, hash: Seq<u8>, rest: Seq<u8>)
    requires
        data == before + hash + rest,
    ensures
        data.subrange(before.len() as int, (before.len() + hash.len()) as int) == hash,
        data == before + (hash + rest),
{
    assert(data.subrange(before.len() as int, (before.len() + hash.len()) as int) =~= hash);
    lemma_concat_assoc(before, hash, rest);
}

proof fn lemma_part_lengths(db: DecryptionState)
    ensures
        forall|i: int|
            0 <= i < db.blocks.len() ==> (#[trigger] block_parts(db.blocks)[i]).len() == 44,
        forall|i: int|
            0 <= i < db.leaves.len() ==> (#[trigger] leaf_parts(db.leaves)[i]).len() == 116,
{
}

/// Whether a snapshot has the fields of `db` where they belong.
spec fn lays_out(data: Seq<u8>, db: DecryptionState) -> bool {
    let records_end = HEADER_SIZE + db.blocks.len() * BLOCK_RECORD_SIZE;
    &&& u64_at(data, 0) == SNAPSHOT_MAGIC_V1
    &&& size_in(data) == db.tree_size() as u64
    &&& block_count_in(data) == db.blocks.len()
    &&& offset_in(data) == db.leaf_offset
    &&& data.len() == records_end + db.leaves.len() * DECRYPT_LEAF_BYTES + CHECKSUM_SIZE
    &&& u64_at(data, data.len() - CHECKSUM_SIZE) == xxh64_digest(payload_part(data))
    &&& records_match(data, db.blocks)
    &&& leaves_match(data, records_end, db.leaves)
}

proof fn lemma_layout(db: DecryptionState)
    requires
        db.blocks.len() <= u64::MAX,
    ensures
        lays_out(with_checksum(payload_of(db)), db),
{
    let header = header_of(db);
    let records = block_parts(db.blocks);
    let leaves = leaf_parts(db.leaves);
    let payload = payload_of(db);
    let digest = u64_le(xxh64_digest(payload));
    let data = with_checksum(payload);
    lemma_part_lengths(db);
    lemma_pieces(header, records, leaves, digest, 116);
    lemma_trailing_u64(payload, xxh64_digest(payload));
    lemma_header(db, joined(records) + (joined(leaves) + digest));
    assert(data.len() - 8 == payload.len());
    assert(payload_part(data) == payload);
    assert forall|i: int| 0 <= i < db.blocks.len() implies record_at(
        data,
        HEADER_SIZE + i * BLOCK_RECORD_SIZE,
        (#[trigger] db.blocks[i]).height,
        db.blocks[i].hash@,
        db.blocks[i].num_leaves,
    ) by {
        assert(records[i] == data.subrange(header.len() + i * 44, header.len() + i * 44 + 44));
        lemma_record_roundtrip(
            data,
            HEADER_SIZE + i * BLOCK_RECORD_SIZE,
            db.blocks[i].height,
            db.blocks[i].hash@,
            db.blocks[i].num_leaves,
        );
    }
    let records_end = HEADER_SIZE + db.blocks.len() * BLOCK_RECORD_SIZE;
    assert forall|i: int| 0 <= i < db.leaves.len() implies (#[trigger] db.leaves[i]).bytes()
        == data.subrange(
        records_end + i * DECRYPT_LEAF_BYTES,
        records_end + i * DECRYPT_LEAF_BYTES + DECRYPT_LEAF_BYTES,
    ) by {
        assert(leaves[i] == db.leaves[i].bytes());
    }
}

proof fn lemma_counted(data: Seq<u8>, blocks: Seq<BlockRecord>, n: int)
    requires
        0 <= n <= blocks.len(),
        records_match(data, blocks),
    ensures
        counted_in(data, n) == total_leaves(blocks.take(n)),
    decreases n,
{
    if n > 0 {
        lemma_counted(data, blocks, n - 1);
        assert(blocks.take(n).drop_last() =~= blocks.take(n - 1));
        assert(record_at(
            data,
            HEADER_SIZE + (n - 1) * BLOCK_RECORD_SIZE,
            blocks[n - 1].height,
            blocks[n - 1].hash@,
            blocks[n - 1].num_leaves,
        ));
    }
}

/// Restoring the snapshot of a store, windowed or not, succeeds and gives the
/// store back.
pub proof fn law_snapshot_roundtrip(db: DecryptionState, restored: DecryptionState)
    requires
        db.valid(),
        db.blocks.len() <= u64::MAX,
    ensures
        snapshot_fault(with_checksum(payload_of(db))) is None,
        restores(with_checksum(payload_of(db)), restored) ==> restored == db,
{
    let data = with_checksum(payload_of(db));
    lemma_layout(db);
    lemma_counted(data, db.blocks, db.blocks.len() as int);
    assert(db.blocks.take(db.blocks.len() as int) =~= db.blocks);
    if restores(data, restored) {
        assert forall|i: int| 0 <= i < db.blocks.len() implies restored.blocks[i]
            == db.blocks[i] by {
            lemma_array_eq(restored.blocks[i].hash, db.blocks[i].hash);
        }
        assert(restored.blocks =~= db.blocks);
        assert forall|i: int| 0 <= i < db.leaves.len() implies restored.leaves[i]
            == db.leaves[i] by {
            law_leaf_bytes_decide(restored.leaves[i], db.leaves[i]);
        }
        assert(restored.leaves =~= db.leaves);
    }
}

/// A snapshot has its fields at fixed places: the magic number, the number of
/// leaves and of blocks, the height and the hash of the newest block, the
/// offset, the block records of 44 bytes, the leaves of 116 bytes, and at its
/// end the digest of everything before it.
pub proof fn law_snapshot_layout(db: DecryptionState)
    requires
        db.valid(),
        db.blocks.len() <= u64::MAX,
    ensures
        ({
            let data = with_checksum(payload_of(db));
            let blocks = db.blocks.len() as int;
            let leaves_at = 72 + 44 * blocks;
            &&& u64_at(data, 0) == 0x4445_4352_5950_0001
            &&& u64_at(data, 8) == db.leaf_offset + db.leaves.len()
            &&& u64_at(data, 16) == blocks
            &&& u64_at(data, 24) == (if blocks == 0 {
                0
            } else {
                db.blocks[blocks - 1].height
            })
            &&& data.subrange(32, 64) == (if blocks == 0 {
                zeros(32)
            } else {
                db.blocks[blocks - 1].hash@
            })
            &&& u64_at(data, 64) == db.leaf_offset
            &&& forall|i: int|
                0 <= i < blocks ==> {
                    let record = #[trigger] db.blocks[i];
                    &&& u64_at(data, 72 + 44 * i) == record.height
                    &&& data.subrange(72 + 44 * i + 8, 72 + 44 * i + 40) == record.hash@
                    &&& u32_at(data, 72 + 44 * i + 40) == record.num_leaves
                }
            &&& forall|i: int|
                0 <= i < db.leaves.len() ==> data.subrange(
                    leaves_at + 116 * i,
                    leaves_at + 116 * i + 116,
                ) == (#[trigger] db.leaves[i]).bytes()
            &&& data.len() == leaves_at + 116 * db.leaves.len() + 8
            &&& u64_at(data, data.len() - 8) == xxh64_digest(data.take(data.len() - 8))
        }),
{
    lemma_layout(db);
    lemma_newest_fields(db);
    lemma_places(with_checksum(payload_of(db)), db);
}

proof fn lemma_places(data: Seq<u8>, db: DecryptionState)
    requires
        lays_out(data, db),
    ensures
        forall|i: int|
            0 <= i < db.blocks.len() ==> {
                let record = #[trigger] db.blocks[i];
                &&& u64_at(data, 72 + 44 * i) == record.height
                &&& data.subrange(72 + 44 * i + 8, 72 + 44 * i + 40) == record.hash@
                &&& u32_at(data, 72 + 44 * i + 40) == record.num_leaves
            },
        forall|i: int|
            0 <= i < db.leaves.len() ==> data.subrange(
                72 + 44 * db.blocks.len() + 116 * i,
                72 + 44 * db.blocks.len() + 116 * i + 116,
            ) == (#[trigger] db.leaves[i]).bytes(),
{
}

/// The height and the hash of the newest block stand in the header.
proof fn lemma_newest_fields(db: DecryptionState)
    ensures
        ({
            let data = with_checksum(payload_of(db));
            &&& u64_at(data, 24) == height_field(db.blocks)
            &&& data.subrange(32, 64) == hash_field(db.blocks)
        }),
{
    let payload = payload_of(db);
    let records = joined(block_parts(db.blocks));
    let leaves = joined(leaf_parts(db.leaves));
    let digest = u64_le(xxh64_digest(payload));
    lemma_concat_assoc(header_of(db), records, leaves);
    lemma_concat_assoc(header_of(db), records + leaves, digest);
    lemma_header(db, records + leaves + digest);
}

/// What is accepted as a snapshot ends with the digest of everything before it,
/// has the magic number, and has block records that account for all its leaves.
/// `sums` holds the running sums of what the records count.
pub proof fn law_accepted_snapshots_are_whole(data: Seq<u8>, sums: Seq<int>)
    requires
        data.len() >= 80,
        sums.len() == u64_at(data, 16) + 1,
        sums[0] == 0,
        forall|j: int, k: int|
            0 <= k && j == k + 1 && j < sums.len() ==> #[trigger] sums[j] == #[trigger] sums[k]
                + u32_at(data, 72 + k * 44 + 40),
    ensures
        snapshot_fault(data) is None <==> {
            let leaves = u64_at(data, 8) - u64_at(data, 64);
            let leaves_at = 72 + 44 * u64_at(data, 16);
            &&& u64_at(data, data.len() - 8) == xxh64_digest(data.take(data.len() - 8))
            &&& u64_at(data, 0) == 0x4445_4352_5950_0001
            &&& leaves >= 0
            &&& leaves_at + 8 <= data.len()
            &&& sums.last() == leaves
            &&& leaves_at + 116 * leaves + 8 <= data.len()
        },
{
    lemma_counted_sums(data, sums, sums.len() - 1);
}

proof fn lemma_counted_sums(data: Seq<u8>, sums: Seq<int>, n: int)
    requires
        0 <= n < sums.len(),
        sums[0] == 0,
        forall|j: int, k: int|
            0 <= k && j == k + 1 && j < sums.len() ==> #[trigger] sums[j] == #[trigger] sums[k]
                + u32_at(data, 72 + k * 44 + 40),
    ensures
        counted_in(data, n) == sums[n],
    decreases n,
{
    if n > 0 {
        lemma_counted_sums(data, sums, n - 1);
        assert(sums[n] == sums[n - 1] + u32_at(data, 72 + (n - 1) * 44 + 40));
    }
}

/// Bytes that are too short for a header and a digest, or that do not end with
/// the digest of what is before it, are refused.
pub proof fn law_altered_snapshots_are_refused(data: Seq<u8>)
    requires
        data.len() < 80 || u64_at(data, data.len() - 8) != xxh64_digest(data.take(data.len() - 8)),
    ensures
        snapshot_fault(data) is Some,
{
}

/// What is restored stands in the snapshot.
pub proof fn law_restored_fields(data: Seq<u8>, db: DecryptionState)
    requires
        restores(data, db),
    ensures
        ({
            let leaves_at = 72 + 44 * u64_at(data, 16);
            &&& db.leaf_offset == u64_at(data, 64)
            &&& db.leaf_offset + db.leaves.len() == u64_at(data, 8)
            &&& db.blocks.len() == u64_at(data, 16)
            &&& forall|i: int|
                0 <= i < db.blocks.len() ==> {
                    let record = #[trigger] db.blocks[i];
                    &&& u64_at(data, 72 + 44 * i) == record.height
                    &&& data.subrange(72 + 44 * i + 8, 72 + 44 * i + 40) == record.hash@
                    &&& u32_at(data, 72 + 44 * i + 40) == record.num_leaves
                }
            &&& forall|i: int|
                0 <= i < db.leaves.len() ==> data.subrange(
                    leaves_at + 116 * i,
                    leaves_at + 116 * i + 116,
                ) == (#[trigger] db.leaves[i]).bytes()
        }),
{
}

} // verus!
