//! Snapshots of block tables.
//!
//! All integers are little-endian:
//!
//! | Field              | Size     | Description                                   |
//! |--------------------|----------|-----------------------------------------------|
//! | magic              | 8 bytes  | `SPENDPIR`                                    |
//! | version            | 4 bytes  | Which entries the table has                   |
//! | latest_height      | 8 bytes  | Height of the highest block (0 if empty)      |
//! | latest_hash_height | 8 bytes  | The same height again                         |
//! | latest_hash        | 32 bytes | Hash of the highest block (zeros if empty)    |
//! | num_entries        | 8 bytes  | Number of nullifiers                          |
//! | num_blocks         | 8 bytes  | Number of block records                       |
//! | block_records      | variable | height: 8, hash: 32, slot count: 4, and per   |
//! |                    |          | slot its bucket: 4, its place: 1, zero: 1     |
//! | bucket_data        | fixed    | All buckets row by row                        |
//! | checksum           | 8 bytes  | xxHash64 over everything preceding            |

use crate::block_table::{listed, BlockRecord, BlockTable, IndexedBlock, SlotEntry, TableState};
use crate::bytes::{
    hash_from, joined, lemma_array_bytes, lemma_array_from, lemma_concat_assoc, lemma_joined_at,
    lemma_joined_len, lemma_joined_push, lemma_middle, lemma_trailing_u64, lemma_u32_le_at,
    lemma_u64_le_at, push_bytes, push_u32, push_u64, read_array_at, read_u32_at, read_u64_at,
    u32_at, u32_le, u64_at, u64_le, zero_hash, zeros,
};
use crate::checksum::{xxh64_digest, xxh64_seed_zero};
use crate::text::{decimal, push_decimal};
use vstd::prelude::*;
use vstd::slice::slice_subrange;
use vstd::string::StringExecFns;

verus! {

pub const SNAPSHOT_MAGIC: u64 = 0x5350_454E_4450_4952;

/// Bytes before the block records.
pub const HEADER_SIZE: usize = 76;

/// The bytes of one slot of a block record.
pub open spec fn slot_bytes(slot: (u32, u8)) -> Seq<u8> {
    u32_le(slot.0) + seq![slot.1, 0u8]
}

/// The bytes of each slot.
pub open spec fn slot_parts(slots: Seq<(u32, u8)>) -> Seq<Seq<u8>> {
    Seq::new(slots.len(), |j: int| slot_bytes(slots[j]))
}

/// The bytes of a block record before its slots.
pub open spec fn block_head(block: IndexedBlock) -> Seq<u8> {
    u64_le(block.height) + block.hash@ + u32_le(block.slots.len() as u32)
}

/// The bytes of a block record.
pub open spec fn block_bytes(block: IndexedBlock) -> Seq<u8> {
    block_head(block) + joined(slot_parts(block.slots))
}

/// The bytes of each block record.
pub open spec fn block_parts(index: Seq<IndexedBlock>) -> Seq<Seq<u8>> {
    Seq::new(index.len(), |i: int| block_bytes(index[i]))
}

/// Height of the highest block, or zero.
pub open spec fn height_field(index: Seq<IndexedBlock>) -> u64 {
    if index.len() == 0 {
        0
    } else {
        index.last().height
    }
}

/// Hash of the highest block, or zero bytes.
pub open spec fn hash_field(index: Seq<IndexedBlock>) -> Seq<u8> {
    if index.len() == 0 {
        zeros(32)
    } else {
        index.last().hash@
    }
}

/// The fields before the block records.
pub open spec fn header_of<E: SlotEntry>(table: TableState<E>, version: u32) -> Seq<u8> {
    u64_le(SNAPSHOT_MAGIC) + u32_le(version) + u64_le(height_field(table.index)) + u64_le(
        height_field(table.index),
    ) + hash_field(table.index) + u64_le(table.count as u64) + u64_le(table.index.len() as u64)
}

/// What a snapshot holds before its checksum.
pub open spec fn payload_of<E: SlotEntry>(table: TableState<E>, version: u32) -> Seq<u8> {
    header_of(table, version) + joined(block_parts(table.index)) + table.rows()
}

/// The bytes with their checksum behind them.
pub open spec fn with_checksum(payload: Seq<u8>) -> Seq<u8> {
    payload + u64_le(xxh64_digest(payload))
}

/// The bytes before the checksum.
pub open spec fn payload_part(data: Seq<u8>) -> Seq<u8> {
    data.take(data.len() - 8)
}

/// The slots of the block record at `at`.
pub open spec fn slots_in(data: Seq<u8>, at: int) -> Seq<(u32, u8)> {
    Seq::new(
        u32_at(data, at + 40) as nat,
        |j: int| (u32_at(data, at + 44 + j * 6), data[at + 44 + j * 6 + 4]),
    )
}

/// The block record at `at`.
pub open spec fn block_in(data: Seq<u8>, at: int) -> IndexedBlock {
    IndexedBlock {
        height: u64_at(data, at),
        hash: hash_from(data.subrange(at + 8, at + 40)),
        slots: slots_in(data, at),
    }
}

/// The end of the block record at `at`.
pub open spec fn block_end(data: Seq<u8>, at: int) -> int {
    at + 44 + u32_at(data, at + 40) * 6
}

/// The first `n` block records and where they end, unless the bytes end
/// first.
pub open spec fn blocks_in(data: Seq<u8>, n: int) -> Option<(Seq<IndexedBlock>, int)>
    decreases n,
{
    if n <= 0 {
        Some((Seq::empty(), HEADER_SIZE as int))
    } else {
        match blocks_in(data, n - 1) {
            None => None,
            Some((blocks, at)) => if at + 44 > data.len() || block_end(data, at) > data.len() {
                None
            } else {
                Some((blocks.push(block_in(data, at)), block_end(data, at)))
            },
        }
    }
}

/// The block records of a snapshot's payload and where they end, unless the
/// bytes end first.
pub open spec fn records_in(payload: Seq<u8>) -> Option<(Seq<IndexedBlock>, int)> {
    blocks_in(payload, u64_at(payload, 68) as int)
}

/// Number of nullifiers that a snapshot's payload gives.
pub open spec fn count_in(payload: Seq<u8>) -> nat {
    (u64_at(payload, 60) as usize) as nat
}

/// Why `data` is no snapshot of the given version with so much bucket data, if
/// it is none.
pub open spec fn frame_fault(data: Seq<u8>, version: u32, db_bytes: int) -> Option<Seq<char>> {
    let payload = payload_part(data);
    if data.len() < HEADER_SIZE + db_bytes + 8 {
        Some("data too short"@)
    } else if u64_at(data, data.len() - 8) != xxh64_digest(payload) {
        Some("checksum mismatch"@)
    } else if u64_at(payload, 0) != SNAPSHOT_MAGIC {
        Some("bad magic"@)
    } else if u32_at(payload, 8) != version {
        Some(
            "unsupported snapshot version "@ + decimal(u32_at(payload, 8) as int) + " (expected "@
                + decimal(version as int) + ")"@,
        )
    } else {
        match records_in(payload) {
            None => Some("unexpected EOF"@),
            Some((_, end)) => if end + db_bytes > payload.len() {
                Some("bucket data truncated"@)
            } else {
                None
            },
        }
    }
}

/// Reads the slots of the block record at `at`.
fn read_slots(data: &[u8], at: usize) -> (slots: Vec<(u32, u8)>)
    requires
        at + 44 <= data.len(),
        block_end(data@, at as int) <= data.len(),
    ensures
        slots@ == slots_in(data@, at as int),
{
    let count: usize = read_u32_at(data, at + 40) as usize;
    let mut slots: Vec<(u32, u8)> = Vec::with_capacity(count);
    let mut j: usize = 0;
    while j < count
        invariant
            j <= count,
            at + 44 + count * 6 <= data.len(),
            slots@.len() == j,
            forall|k: int|
                0 <= k < j ==> #[trigger] slots@[k] == (
                    u32_at(data@, at + 44 + k * 6),
                    data@[at + 44 + k * 6 + 4],
                ),
        decreases count - j,
    {
        let pos: usize = at + 44 + j * 6;
        slots.push((read_u32_at(data, pos), data[pos + 4]));
        j += 1;
    }
    assert(slots@ =~= slots_in(data@, at as int));
    slots
}

/// Reads `count` block records behind the header. Returns them and where they
/// end.
fn read_blocks(data: &[u8], count: u64) -> (blocks: Option<(Vec<(u64, BlockRecord)>, usize)>)
    requires
        HEADER_SIZE <= data.len(),
    ensures
        match blocks {
            Some((blocks, end)) => blocks_in(data@, count as int) == Some(
                (listed(blocks@), end as int),
            ) && HEADER_SIZE <= end <= data@.len(),
            None => blocks_in(data@, count as int) is None,
        },
{
    let mut blocks: Vec<(u64, BlockRecord)> = Vec::new();
    let mut pos: usize = HEADER_SIZE;
    let mut i: u64 = 0;
    assert(listed(blocks@) =~= Seq::empty());
    while i < count
        invariant
            i <= count,
            HEADER_SIZE <= pos <= data.len(),
            blocks_in(data@, i as int) == Some((listed(blocks@), pos as int)),
        decreases count - i,
    {
        let ghost before = blocks@;
        if data.len() - pos < 44 || ((data.len() - pos - 44) as u64) < read_u32_at(data, pos + 40)
            as u64 * 6 {
            proof {
                lemma_blocks_end(data@, i + 1, count as int);
            }
            return None;
        }
        let height: u64 = read_u64_at(data, pos);
        let block_hash: [u8; 32] = read_array_at::<32>(data, pos + 8);
        let slots = read_slots(data, pos);
        proof {
            lemma_array_from(block_hash);
        }
        blocks.push((height, BlockRecord { block_hash, slots }));
        assert(listed(blocks@) =~= listed(before).push(block_in(data@, pos as int)));
        pos = pos + 44 + read_u32_at(data, pos + 40) as usize * 6;
        i += 1;
    }
    Some((blocks, pos))
}

/// Records past the end of the bytes leave nothing to read behind them.
proof fn lemma_blocks_end(data: Seq<u8>, n: int, m: int)
    requires
        n <= m,
        blocks_in(data, n) is None,
    ensures
        blocks_in(data, m) is None,
    decreases m - n,
{
    if n < m {
        lemma_blocks_end(data, n, m - 1);
    }
}

/// Appends one block record.
fn push_block(buf: &mut Vec<u8>, height: u64, hash: &[u8; 32], slots: &Vec<(u32, u8)>)
    ensures
        final(buf)@ == old(buf)@ + block_bytes(
            IndexedBlock { height, hash: *hash, slots: slots@ },
        ),
{
    let ghost start = buf@;
    let ghost block = IndexedBlock { height, hash: *hash, slots: slots@ };
    push_u64(buf, height);
    push_bytes(buf, hash.as_slice());
    push_u32(buf, slots.len() as u32);
    proof {
        lemma_concat_assoc(start, u64_le(height), hash@);
        lemma_concat_assoc(start, u64_le(height) + hash@, u32_le(slots.len() as u32));
    }
    let ghost head = buf@;
    let ghost parts = slot_parts(slots@);
    assert(parts.take(0) =~= Seq::empty());
    assert(head + Seq::<u8>::empty() =~= head);
    let mut j: usize = 0;
    while j < slots.len()
        invariant
            j <= slots@.len(),
            parts == slot_parts(slots@),
            buf@ == head + joined(parts.take(j as int)),
        decreases slots@.len() - j,
    {
        let (bucket, slot) = slots[j];
        let ghost before = buf@;
        push_u32(buf, bucket);
        buf.push(slot);
        buf.push(0);
        proof {
            assert(buf@ =~= before + slot_bytes((bucket, slot)));
            lemma_joined_push(parts.take(j as int), parts[j as int]);
            assert(parts.take(j + 1) =~= parts.take(j as int).push(parts[j as int]));
            lemma_concat_assoc(head, joined(parts.take(j as int)), parts[j as int]);
        }
        j += 1;
    }
    proof {
        assert(parts.take(j as int) =~= parts);
        lemma_concat_assoc(start, block_head(block), joined(parts));
    }
}

/// The fields before the block records.
fn write_header<E: SlotEntry, const BUCKETS: usize, const CAPACITY: usize>(
    table: &BlockTable<E, BUCKETS, CAPACITY>,
    version: u32,
) -> (buf: Vec<u8>)
    ensures
        buf@ == header_of(table@, version),
{
    let n: usize = table.num_blocks();
    let (height, hash): (u64, [u8; 32]) = if n == 0 {
        (0, zero_hash())
    } else {
        table.block_at(n - 1)
    };
    let mut buf: Vec<u8> = Vec::new();
    push_u64(&mut buf, SNAPSHOT_MAGIC);
    assert(buf@ =~= u64_le(SNAPSHOT_MAGIC));
    push_u32(&mut buf, version);
    push_u64(&mut buf, height);
    push_u64(&mut buf, height);
    push_bytes(&mut buf, hash.as_slice());
    push_u64(&mut buf, table.len() as u64);
    push_u64(&mut buf, n as u64);
    buf
}

/// Serializes a table with a checksum.
pub(crate) fn write_table<E: SlotEntry, const BUCKETS: usize, const CAPACITY: usize>(
    table: &BlockTable<E, BUCKETS, CAPACITY>,
    version: u32,
) -> (data: Vec<u8>)
    requires
        table.wf(),
    ensures
        data@ == with_checksum(payload_of(table@, version)),
{
    let mut buf = write_header(table, version);
    let ghost header = buf@;
    let ghost parts = block_parts(table@.index);
    assert(parts.take(0) =~= Seq::empty());
    assert(header + Seq::<u8>::empty() =~= header);
    let blocks: usize = table.num_blocks();
    let mut i: usize = 0;
    while i < blocks
        invariant
            i <= blocks,
            blocks == table@.index.len(),
            parts == block_parts(table@.index),
            buf@ == header + joined(parts.take(i as int)),
        decreases blocks - i,
    {
        let (height, hash) = table.block_at(i);
        push_block(&mut buf, height, &hash, table.slots_at(i));
        proof {
            assert(parts[i as int] == block_bytes(table@.index[i as int]));
            lemma_joined_push(parts.take(i as int), parts[i as int]);
            assert(parts.take(i + 1) =~= parts.take(i as int).push(parts[i as int]));
            lemma_concat_assoc(header, joined(parts.take(i as int)), parts[i as int]);
        }
        i += 1;
    }
    assert(parts.take(i as int) =~= parts);
    table.push_rows(&mut buf);
    let checksum: u64 = xxh64_seed_zero(buf.as_slice());
    push_u64(&mut buf, checksum);
    buf
}

/// What a snapshot holds around its bucket data.
pub struct Frame {
    pub blocks: Vec<(u64, BlockRecord)>,
    /// Number of nullifiers.
    pub num_entries: usize,
    /// Where the bucket data starts.
    pub buckets_at: usize,
}

/// Checks a snapshot of the given version and reads what stands around its
/// bucket data.
pub(crate) fn read_frame(data: &[u8], version: u32, db_bytes: usize) -> (frame: Result<
    Frame,
    String,
>)
    requires
        db_bytes <= 0x7fff_ffff,
    ensures
        match frame {
            Ok(frame) => {
                let payload = payload_part(data@);
                &&& frame_fault(data@, version, db_bytes as int) is None
                &&& records_in(payload) == Some((listed(frame.blocks@), frame.buckets_at as int))
                &&& frame.num_entries == count_in(payload)
                &&& frame.buckets_at + db_bytes <= payload.len()
            },
            Err(reason) => frame_fault(data@, version, db_bytes as int) == Some(reason@),
        },
{
    if data.len() < HEADER_SIZE + db_bytes + 8 {
        return Err(String::from_str("data too short"));
    }
    let payload = slice_subrange(data, 0, data.len() - 8);
    assert(payload@ =~= payload_part(data@));
    if read_u64_at(data, data.len() - 8) != xxh64_seed_zero(payload) {
        return Err(String::from_str("checksum mismatch"));
    }
    if read_u64_at(payload, 0) != SNAPSHOT_MAGIC {
        return Err(String::from_str("bad magic"));
    }
    let found: u32 = read_u32_at(payload, 8);
    if found != version {
        let mut reason = String::from_str("unsupported snapshot version ");
        push_decimal(&mut reason, found as u128);
        reason.append(" (expected ");
        push_decimal(&mut reason, version as u128);
        reason.append(")");
        return Err(reason);
    }
    let num_entries: usize = read_u64_at(payload, 60) as usize;
    match read_blocks(payload, read_u64_at(payload, 68)) {
        None => Err(String::from_str("unexpected EOF")),
        Some((blocks, buckets_at)) => {
            if payload.len() - buckets_at < db_bytes {
                return Err(String::from_str("bucket data truncated"));
            }
            Ok(Frame { blocks, num_entries, buckets_at })
        },
    }
}

/// A part of any length can be found behind those before it.
proof fn lemma_joined_part(parts: Seq<Seq<u8>>, n: int)
    requires
        0 <= n < parts.len(),
    ensures
        joined(parts.take(n + 1)).len() == joined(parts.take(n)).len() + parts[n].len(),
        joined(parts.take(n + 1)).len() <= joined(parts).len(),
        joined(parts).subrange(
            joined(parts.take(n)).len() as int,
            joined(parts.take(n + 1)).len() as int,
        ) == parts[n],
    decreases parts.len(),
{
    let start = joined(parts.take(n)).len() as int;
    let end = joined(parts.take(n + 1)).len() as int;
    assert(parts.take(n + 1).drop_last() =~= parts.take(n));
    if n == parts.len() - 1 {
        assert(parts.take(n + 1) =~= parts);
        assert(joined(parts).subrange(start, end) =~= parts[n]);
    } else {
        let front = parts.drop_last();
        lemma_joined_part(front, n);
        assert(front.take(n) =~= parts.take(n));
        assert(front.take(n + 1) =~= parts.take(n + 1));
        assert(joined(parts).subrange(start, end) =~= joined(front).subrange(start, end));
    }
}

/// A block record that was written can be read back.
proof fn lemma_block_roundtrip(data: Seq<u8>, at: int, block: IndexedBlock)
    requires
        0 <= at,
        at + block_bytes(block).len() <= data.len(),
        block.slots.len() <= u32::MAX,
        data.subrange(at, at + block_bytes(block).len()) == block_bytes(block),
    ensures
        block_in(data, at) == block,
        block_end(data, at) == at + block_bytes(block).len(),
        at + 44 <= data.len(),
{
    let parts = slot_parts(block.slots);
    let head = block_head(block);
    let bytes = block_bytes(block);
    assert forall|j: int| 0 <= j < parts.len() implies (#[trigger] parts[j]).len() == 6 by {}
    lemma_joined_len(parts, 6);
    assert(head.len() == 44);
    assert(bytes.len() == 44 + block.slots.len() * 6);
    assert(head.subrange(0, 8) =~= u64_le(block.height));
    assert(head.subrange(8, 40) =~= block.hash@);
    assert(head.subrange(40, 44) =~= u32_le(block.slots.len() as u32));
    assert(data.subrange(at, at + 44) =~= data.subrange(at, at + bytes.len()).subrange(0, 44));
    assert(bytes.subrange(0, 44) =~= head);
    assert(data.subrange(at, at + 8) =~= data.subrange(at, at + 44).subrange(0, 8));
    assert(data.subrange(at + 8, at + 40) =~= data.subrange(at, at + 44).subrange(8, 40));
    assert(data.subrange(at + 40, at + 44) =~= data.subrange(at, at + 44).subrange(40, 44));
    lemma_u64_le_at(data, at, block.height);
    lemma_array_from(block.hash);
    lemma_u32_le_at(data, at + 40, block.slots.len() as u32);
    assert forall|j: int| 0 <= j < block.slots.len() implies #[trigger] slots_in(data, at)[j]
        == block.slots[j] by {
        lemma_joined_at(parts, 6, j);
        let pos = at + 44 + j * 6;
        assert(data.subrange(pos, pos + 6) =~= data.subrange(at, at + bytes.len()).subrange(
            44 + j * 6,
            44 + j * 6 + 6,
        ));
        assert(bytes.subrange(44 + j * 6, 44 + j * 6 + 6) =~= joined(parts).subrange(
            j * 6,
            j * 6 + 6,
        ));
        let field = data.subrange(pos, pos + 6);
        assert(field == slot_bytes(block.slots[j]));
        assert(data.subrange(pos, pos + 4) =~= field.subrange(0, 4));
        assert(field.subrange(0, 4) =~= u32_le(block.slots[j].0));
        lemma_u32_le_at(data, pos, block.slots[j].0);
        assert(field[4] == block.slots[j].1);
        assert(data[pos + 4] == field[4]);
    }
    assert(slots_in(data, at) =~= block.slots);
}

/// Block records that were written behind a header can be read back.
proof fn lemma_blocks_roundtrip(
    data: Seq<u8>,
    header: Seq<u8>,
    index: Seq<IndexedBlock>,
    rest: Seq<u8>,
    n: int,
)
    requires
        header.len() == HEADER_SIZE,
        data == header + joined(block_parts(index)) + rest,
        forall|i: int| 0 <= i < index.len() ==> (#[trigger] index[i]).slots.len() <= u32::MAX,
        0 <= n <= index.len(),
    ensures
        blocks_in(data, n) == Some(
            (index.take(n), HEADER_SIZE + joined(block_parts(index).take(n)).len()),
        ),
    decreases n,
{
    let parts = block_parts(index);
    if n == 0 {
        assert(parts.take(0) =~= Seq::empty());
        assert(index.take(0) =~= Seq::empty());
    } else {
        let k = n - 1;
        lemma_blocks_roundtrip(data, header, index, rest, k);
        lemma_joined_part(parts, k);
        let start = joined(parts.take(k)).len() as int;
        let end = joined(parts.take(n)).len() as int;
        lemma_middle(header, joined(parts), rest, start, end);
        assert(parts[k] == block_bytes(index[k]));
        lemma_block_roundtrip(data, HEADER_SIZE + start, index[k]);
        assert(index.take(n) =~= index.take(k).push(index[k]));
    }
}

/// The fields of a header can be read back.
proof fn lemma_header_roundtrip<E: SlotEntry>(
    data: Seq<u8>,
    table: TableState<E>,
    version: u32,
    rest: Seq<u8>,
)
    requires
        data == header_of(table, version) + rest,
    ensures
        header_of(table, version).len() == HEADER_SIZE,
        u64_at(data, 0) == SNAPSHOT_MAGIC,
        u32_at(data, 8) == version,
        u64_at(data, 60) == table.count as u64,
        u64_at(data, 68) == table.index.len() as u64,
{
    let header = header_of(table, version);
    assert(header.len() == 76);
    assert(header.subrange(0, 8) =~= u64_le(SNAPSHOT_MAGIC));
    assert(header.subrange(8, 12) =~= u32_le(version));
    assert(header.subrange(60, 68) =~= u64_le(table.count as u64));
    assert(header.subrange(68, 76) =~= u64_le(table.index.len() as u64));
    assert(data.subrange(0, 8) =~= header.subrange(0, 8));
    assert(data.subrange(8, 12) =~= header.subrange(8, 12));
    assert(data.subrange(60, 68) =~= header.subrange(60, 68));
    assert(data.subrange(68, 76) =~= header.subrange(68, 76));
    lemma_u64_le_at(data, 0, SNAPSHOT_MAGIC);
    lemma_u32_le_at(data, 8, version);
    lemma_u64_le_at(data, 60, table.count as u64);
    lemma_u64_le_at(data, 68, table.index.len() as u64);
}

/// The bytes of a snapshot before its bucket data.
pub open spec fn front_of<E: SlotEntry>(table: TableState<E>, version: u32) -> Seq<u8> {
    header_of(table, version) + joined(block_parts(table.index))
}

/// What was written around the bucket data of a table is read back.
pub(crate) proof fn lemma_frame_roundtrip<E: SlotEntry>(
    table: TableState<E>,
    version: u32,
    db_bytes: int,
)
    requires
        table.count <= usize::MAX,
        table.index.len() <= u64::MAX,
        table.rows().len() == db_bytes,
        forall|i: int|
            0 <= i < table.index.len() ==> (#[trigger] table.index[i]).slots.len() <= u32::MAX,
    ensures
        ({
            let payload = payload_of(table, version);
            let data = with_checksum(payload);
            &&& frame_fault(data, version, db_bytes) is None
            &&& payload_part(data) == payload
            &&& payload == front_of(table, version) + table.rows()
            &&& records_in(payload) == Some(
                (table.index, front_of(table, version).len() as int),
            )
            &&& count_in(payload) == table.count
        }),
{
    let payload = payload_of(table, version);
    let data = with_checksum(payload);
    let header = header_of(table, version);
    let parts = block_parts(table.index);
    let n = table.index.len() as int;
    lemma_trailing_u64(payload, xxh64_digest(payload));
    assert(payload_part(data) == payload);
    lemma_concat_assoc(header, joined(parts), table.rows());
    lemma_header_roundtrip(payload, table, version, joined(parts) + table.rows());
    lemma_blocks_roundtrip(payload, header, table.index, table.rows(), n);
    assert(parts.take(n) =~= parts);
    assert(table.index.take(n) =~= table.index);
}

/// The header of a snapshot has its fields at fixed places: the magic number,
/// the version, the height of the highest block twice, its hash, the number of
/// entries and the number of blocks. At the end of a snapshot stands the digest
/// of everything before it, and before that the rows of the table.
pub proof fn law_snapshot_header_layout<E: SlotEntry>(table: TableState<E>, version: u32)
    requires
        table.count <= u64::MAX,
        table.index.len() <= u64::MAX,
    ensures
        ({
            let data = with_checksum(payload_of(table, version));
            let blocks = table.index.len() as int;
            let end = data.len() - 8;
            &&& u64_at(data, 0) == 0x5350_454E_4450_4952
            &&& u32_at(data, 8) == version
            &&& u64_at(data, 12) == (if blocks == 0 {
                0
            } else {
                table.index[blocks - 1].height
            })
            &&& u64_at(data, 20) == u64_at(data, 12)
            &&& data.subrange(28, 60) == (if blocks == 0 {
                zeros(32)
            } else {
                table.index[blocks - 1].hash@
            })
            &&& u64_at(data, 60) == table.count
            &&& u64_at(data, 68) == blocks
            &&& data.subrange(end - table.rows().len(), end) == table.rows()
            &&& u64_at(data, end) == xxh64_digest(data.take(end))
        }),
{
    let payload = payload_of(table, version);
    let data = with_checksum(payload);
    let header = header_of(table, version);
    let records = joined(block_parts(table.index));
    lemma_trailing_u64(payload, xxh64_digest(payload));
    lemma_concat_assoc(header, records, table.rows());
    let digest = u64_le(xxh64_digest(payload));
    lemma_concat_assoc(header, records + table.rows(), digest);
    lemma_header_roundtrip(data, table, version, records + table.rows() + digest);
    lemma_newest_fields(data, table, version, records + table.rows() + digest);
    assert(data.subrange(data.len() - 8 - table.rows().len(), data.len() - 8) =~= table.rows());
}

proof fn lemma_newest_fields<E: SlotEntry>(
    data: Seq<u8>,
    table: TableState<E>,
    version: u32,
    rest: Seq<u8>,
)
    requires
        data == header_of(table, version) + rest,
    ensures
        u64_at(data, 12) == height_field(table.index),
        u64_at(data, 20) == height_field(table.index),
        data.subrange(28, 60) == hash_field(table.index),
{
    let header = header_of(table, version);
    assert(header.len() == 76);
    assert(header.subrange(12, 20) =~= u64_le(height_field(table.index)));
    assert(header.subrange(20, 28) =~= u64_le(height_field(table.index)));
    assert(header.subrange(28, 60) =~= hash_field(table.index));
    assert(data.subrange(12, 20) =~= header.subrange(12, 20));
    assert(data.subrange(20, 28) =~= header.subrange(20, 28));
    assert(data.subrange(28, 60) =~= header.subrange(28, 60));
    lemma_u64_le_at(data, 12, height_field(table.index));
    lemma_u64_le_at(data, 20, height_field(table.index));
}

/// Block records stand one behind the other from byte 76 on: height, hash,
/// number of slots, and six bytes for each slot, of which the last is not used.
/// `starts` holds where each record starts and where the last one ends.
pub proof fn law_block_records_are_read(data: Seq<u8>, starts: Seq<int>)
    requires
        starts.len() > 0,
        starts[0] == 76,
        forall|j: int, k: int|
            0 <= k && j == k + 1 && j < starts.len() ==> #[trigger] starts[j] == (
            #[trigger] starts[k]) + 44 + 6 * u32_at(data, starts[k] + 40),
        forall|j: int| 0 < j < starts.len() ==> #[trigger] starts[j] <= data.len(),
    ensures
        ({
            let read = blocks_in(data, starts.len() - 1);
            &&& read is Some
            &&& read->Some_0.0.len() == starts.len() - 1
            &&& read->Some_0.1 == starts.last()
            &&& forall|i: int|
                0 <= i < starts.len() - 1 ==> {
                    let block = #[trigger] read->Some_0.0[i];
                    &&& block.height == u64_at(data, starts[i])
                    &&& block.hash@ == data.subrange(starts[i] + 8, starts[i] + 40)
                    &&& block.slots.len() == u32_at(data, starts[i] + 40)
                    &&& forall|j: int|
                        0 <= j < block.slots.len() ==> #[trigger] block.slots[j] == (
                            u32_at(data, starts[i] + 44 + 6 * j),
                            data[starts[i] + 44 + 6 * j + 4],
                        )
                }
        }),
    decreases starts.len(),
{
    let n = starts.len() - 1;
    if n > 0 {
        let front = starts.drop_last();
        assert forall|j: int, k: int|
            0 <= k && j == k + 1 && j < front.len() implies #[trigger] front[j] == (
        #[trigger] front[k]) + 44 + 6 * u32_at(data, front[k] + 40) by {
            assert(starts[j] == starts[k] + 44 + 6 * u32_at(data, starts[k] + 40));
        }
        assert forall|j: int| 0 < j < front.len() implies #[trigger] front[j] <= data.len() by {
            assert(starts[j] <= data.len());
        }
        law_block_records_are_read(data, front);
        assert(starts[n] == starts[n - 1] + 44 + 6 * u32_at(data, starts[n - 1] + 40));
        let at = starts[n - 1];
        assert(front.last() == at);
        lemma_starts_positive(data, front, n - 1);
        lemma_array_bytes::<32>(data.subrange(at + 8, at + 40));
        let before = blocks_in(data, n - 1)->Some_0.0;
        let after = blocks_in(data, n)->Some_0.0;
        assert(after == before.push(block_in(data, at)));
        assert forall|i: int| 0 <= i < n implies {
            let block = #[trigger] after[i];
            &&& block.height == u64_at(data, starts[i])
            &&& block.hash@ == data.subrange(starts[i] + 8, starts[i] + 40)
            &&& block.slots.len() == u32_at(data, starts[i] + 40)
            &&& forall|j: int|
                0 <= j < block.slots.len() ==> #[trigger] block.slots[j] == (
                    u32_at(data, starts[i] + 44 + 6 * j),
                    data[starts[i] + 44 + 6 * j + 4],
                )
        } by {
            if i < n - 1 {
                assert(after[i] == before[i]);
                assert(front[i] == starts[i]);
            } else {
                assert(after[i] == block_in(data, at));
            }
        }
    }
}

proof fn lemma_starts_positive(data: Seq<u8>, starts: Seq<int>, i: int)
    requires
        0 <= i < starts.len(),
        starts[0] == 76,
        forall|j: int, k: int|
            0 <= k && j == k + 1 && j < starts.len() ==> #[trigger] starts[j] == (
            #[trigger] starts[k]) + 44 + 6 * u32_at(data, starts[k] + 40),
    ensures
        starts[i] >= 76,
    decreases i,
{
    if i > 0 {
        lemma_starts_positive(data, starts, i - 1);
        assert(starts[i] == starts[i - 1] + 44 + 6 * u32_at(data, starts[i - 1] + 40));
    }
}

/// A record that the bytes end in makes the records unreadable, whatever the
/// records before it are. `starts` holds where the records up to it start.
pub proof fn law_cut_block_records_are_refused(data: Seq<u8>, starts: Seq<int>, count: int)
    requires
        0 < starts.len() <= count,
        starts[0] == 76,
        forall|j: int, k: int|
            0 <= k && j == k + 1 && j < starts.len() ==> #[trigger] starts[j] == (
            #[trigger] starts[k]) + 44 + 6 * u32_at(data, starts[k] + 40),
        forall|j: int| 0 < j < starts.len() ==> #[trigger] starts[j] <= data.len(),
        starts.last() + 44 > data.len() || starts.last() + 44 + 6 * u32_at(
            data,
            starts.last() + 40,
        ) > data.len(),
    ensures
        blocks_in(data, count) is None,
    decreases count,
{
    law_block_records_are_read(data, starts);
    if starts.len() < count {
        law_cut_block_records_are_refused(data, starts, count - 1);
    }
}

/// Bytes are accepted as a snapshot if and only if they are long enough, end
/// with the digest of everything before it, have the magic number and the
/// version, and hold all block records and rows.
pub proof fn law_accepted_snapshots_are_whole(data: Seq<u8>, version: u32, db_bytes: int)
    requires
        0 <= db_bytes,
    ensures
        ({
            let payload = data.take(data.len() - 8);
            let read = blocks_in(payload, u64_at(payload, 68) as int);
            frame_fault(data, version, db_bytes) is None <==> {
                &&& data.len() >= 84 + db_bytes
                &&& u64_at(data, data.len() - 8) == xxh64_digest(payload)
                &&& u64_at(payload, 0) == 0x5350_454E_4450_4952
                &&& u32_at(payload, 8) == version
                &&& read is Some
                &&& read->Some_0.1 + db_bytes <= payload.len()
            }
        }),
{
}

/// Block records end behind the header.
pub(crate) proof fn lemma_blocks_behind_header(data: Seq<u8>, n: int)
    ensures
        blocks_in(data, n) matches Some((_, end)) ==> end >= HEADER_SIZE,
    decreases n,
{
    if n > 0 {
        lemma_blocks_behind_header(data, n - 1);
    }
}

} // verus!
