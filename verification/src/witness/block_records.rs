//! Block records as they stand in snapshots: height, hash and leaf count in
//! 44 bytes.

use crate::bytes::{
    joined, lemma_concat_assoc, lemma_joined_at, lemma_joined_len, lemma_middle, lemma_u32_le_at,
    lemma_u64_le_at, push_bytes, push_u32, push_u64, read_array_at, read_u32_at, read_u64_at,
    u32_at, u32_le, u64_at, u64_le,
};
use vstd::prelude::*;

verus! {

/// Bytes per block record.
pub const BLOCK_RECORD_SIZE: usize = 44;

/// The bytes of one record.
pub open spec fn record_bytes(height: u64, hash: Seq<u8>, count: u32) -> Seq<u8> {
    u64_le(height) + hash + u32_le(count)
}

/// Whether the record at `pos` of `data` has the given fields.
pub open spec fn record_at(data: Seq<u8>, pos: int, height: u64, hash: Seq<u8>, count: u32) -> bool {
    &&& height == u64_at(data, pos)
    &&& hash == data.subrange(pos + 8, pos + 40)
    &&& count == u32_at(data, pos + 40)
}

/// Appends one record.
pub fn push_record(buf: &mut Vec<u8>, height: u64, hash: &[u8; 32], count: u32)
    ensures
        final(buf)@ == old(buf)@ + record_bytes(height, hash@, count),
{
    push_u64(buf, height);
    push_bytes(buf, hash.as_slice());
    push_u32(buf, count);
    assert(buf@ =~= old(buf)@ + record_bytes(height, hash@, count));
}

/// Reads the record at `pos`.
pub fn read_record(data: &[u8], pos: usize) -> (record: (u64, [u8; 32], u32))
    requires
        pos + BLOCK_RECORD_SIZE <= data.len(),
    ensures
        record_at(data@, pos as int, record.0, record.1@, record.2),
{
    (read_u64_at(data, pos), read_array_at::<32>(data, pos + 8), read_u32_at(data, pos + 40))
}

/// A record that was written can be read back.
pub proof fn lemma_record_roundtrip(
    data: Seq<u8>,
    pos: int,
    height: u64,
    hash: Seq<u8>,
    count: u32,
)
    requires
        0 <= pos,
        pos + BLOCK_RECORD_SIZE <= data.len(),
        hash.len() == 32,
        data.subrange(pos, pos + BLOCK_RECORD_SIZE) == record_bytes(height, hash, count),
    ensures
        record_at(data, pos, height, hash, count),
{
    let field = data.subrange(pos, pos + 44);
    assert(data.subrange(pos, pos + 8) =~= field.subrange(0, 8));
    assert(field.subrange(0, 8) =~= u64_le(height));
    assert(data.subrange(pos + 8, pos + 40) =~= field.subrange(8, 40));
    assert(field.subrange(8, 40) =~= hash);
    assert(data.subrange(pos + 40, pos + 44) =~= field.subrange(40, 44));
    assert(field.subrange(40, 44) =~= u32_le(count));
    lemma_u64_le_at(data, pos, height);
    lemma_u32_le_at(data, pos + 40, count);
}

/// Pieces of equal-width records and leaves between a header and a trailer.
pub proof fn lemma_pieces(
    header: Seq<u8>,
    records: Seq<Seq<u8>>,
    leaves: Seq<Seq<u8>>,
    trailer: Seq<u8>,
    leaf_width: nat,
)
    requires
        forall|i: int| 0 <= i < records.len() ==> (#[trigger] records[i]).len() == 44,
        forall|i: int| 0 <= i < leaves.len() ==> (#[trigger] leaves[i]).len() == leaf_width,
    ensures
        ({
            let data = header + joined(records) + joined(leaves) + trailer;
            let records_end = header.len() + records.len() * 44;
            &&& data == header + (joined(records) + (joined(leaves) + trailer))
            &&& data.len() == records_end + leaves.len() * leaf_width + trailer.len()
            &&& forall|i: int|
                0 <= i < records.len() ==> #[trigger] records[i] == data.subrange(
                    header.len() + i * 44,
                    header.len() + i * 44 + 44,
                )
            &&& forall|i: int|
                0 <= i < leaves.len() ==> #[trigger] leaves[i] == data.subrange(
                    records_end + i * leaf_width,
                    records_end + i * leaf_width + leaf_width,
                )
        }),
{
    lemma_concat_assoc(header + joined(records), joined(leaves), trailer);
    lemma_concat_assoc(header, joined(records), joined(leaves) + trailer);
    lemma_joined_len(records, 44);
    lemma_joined_len(leaves, leaf_width);
    let data = header + joined(records) + joined(leaves) + trailer;
    assert forall|i: int| 0 <= i < records.len() implies #[trigger] records[i] == data.subrange(
        header.len() + i * 44,
        header.len() + i * 44 + 44,
    ) by {
        lemma_joined_at(records, 44, i);
        lemma_middle(header, joined(records), joined(leaves) + trailer, i * 44, i * 44 + 44);
    }
    let records_end = header.len() + records.len() * 44;
    assert forall|i: int| 0 <= i < leaves.len() implies #[trigger] leaves[i] == data.subrange(
        records_end + i * leaf_width,
        records_end + i * leaf_width + leaf_width,
    ) by {
        lemma_joined_at(leaves, leaf_width, i);
        lemma_middle(
            header + joined(records),
            joined(leaves),
            trailer,
            i * leaf_width,
            i * leaf_width + leaf_width,
        );
    }
}

} // verus!
