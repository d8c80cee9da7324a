//! Where clients look, and what they find there.

use crate::block_table::SlotEntry;
use crate::bytes::u32_le;
use crate::hashtable_pir::HashTableDb as BareTable;
use crate::laws::encoding::law_u32_bytes_are_digits;
use crate::nullifier::hashtable_pir::HashTableDb as MetaTable;
use crate::nullifier::spend_client::{
    check_scenario, entry_count, law_lookup_is_exact, lemma_first_match, scan_bucket_for_nf,
    scanned, slot_matches, SpendClientError,
};
use crate::nullifier::spend_types::{self as meta, SpendMetadata, YpirScenario};
use crate::pir_rows::{row_for, RowError};
use crate::spend_types as bare;
use crate::table_laws::law_rows_hold_entries;
use crate::witness::witness_client::{query_row, WitnessClientError};
use crate::witness::witness_types::{physical_row_index, BroadcastData};
use vstd::prelude::*;

verus! {

/// A bare nullifier belongs to one of 131,072 buckets: the one that its first
/// four bytes, the lowest first, number.
pub proof fn law_bare_bucket(nf: [u8; 32], bucket: u32)
    requires
        call_ensures(bare::hash_to_bucket, (&nf,), bucket),
    ensures
        bucket == (nf@[0] + 256 * nf@[1] + 65_536 * nf@[2] + 16_777_216 * nf@[3]) % 131_072,
{
}

/// A nullifier with spend metadata belongs to one of 16,384 buckets: the one
/// that its first four bytes, the lowest first, number.
pub proof fn law_metadata_bucket(nf: [u8; 32], bucket: u32)
    requires
        call_ensures(meta::hash_to_bucket, (&nf,), bucket),
    ensures
        bucket == (nf@[0] + 256 * nf@[1] + 65_536 * nf@[2] + 16_777_216 * nf@[3]) % 16_384,
{
}

/// The sizes of the two tables: rows of 16 nullifiers, and rows of 112 entries
/// of 41 bytes.
pub proof fn law_table_geometry()
    ensures
        bare::NUM_BUCKETS == 131_072,
        bare::BUCKET_CAPACITY == 16,
        bare::ENTRY_BYTES == 32,
        bare::BUCKET_BYTES == bare::BUCKET_CAPACITY * bare::ENTRY_BYTES,
        bare::DB_BYTES == bare::NUM_BUCKETS * bare::BUCKET_BYTES,
        bare::TARGET_SIZE == 1_000_000,
        meta::NUM_BUCKETS == 16_384,
        meta::BUCKET_CAPACITY == 112,
        meta::ENTRY_BYTES == 41,
        meta::BUCKET_BYTES == meta::BUCKET_CAPACITY * meta::ENTRY_BYTES,
        meta::DB_BYTES == meta::NUM_BUCKETS * meta::BUCKET_BYTES,
        meta::TARGET_SIZE == 1_000_000,
{
}

/// Where the entry of a slot starts.
pub open spec fn slot_start(slot: int) -> int {
    slot * 41
}

/// A scan reports the metadata of the first entry of the row that starts with
/// the nullifier: the height of the spend, the position of the first output and
/// the number of actions, numbers with the lowest byte first. A row has as many
/// entries as it has whole runs of 41 bytes, and no more than 112.
pub proof fn law_scan_reports_first_entry(row: Seq<u8>, nf: Seq<u8>, slot: int)
    requires
        nf.len() == 32,
        0 <= slot < 112,
        slot * 41 + 41 <= row.len(),
        forall|k: int| 0 <= k < 32 ==> row[slot * 41 + k] == #[trigger] nf[k],
        forall|s: int|
            0 <= s < slot ==> exists|k: int|
                0 <= k < 32 && row[(#[trigger] slot_start(s)) + k] != #[trigger] nf[k],
    ensures
        ({
            let at = slot * 41 + 32;
            &&& scanned(row, nf) is Some
            &&& scanned(row, nf)->Some_0.spend_height == row[at] + 256 * row[at + 1] + 65_536
                * row[at + 2] + 16_777_216 * row[at + 3]
            &&& scanned(row, nf)->Some_0.first_output_position == row[at + 4] + 256 * row[at + 5]
                + 65_536 * row[at + 6] + 16_777_216 * row[at + 7]
            &&& scanned(row, nf)->Some_0.action_count == row[at + 8]
        }),
{
    assert(row.subrange(slot * 41, slot * 41 + 32) =~= nf) by {
        assert forall|k: int| 0 <= k < 32 implies row.subrange(slot * 41, slot * 41 + 32)[k]
            == nf[k] by {
            assert(row[slot * 41 + k] == nf[k]);
        }
    }
    assert forall|s: int| 0 <= s < slot implies !slot_matches(row, nf, s) by {
        let k = choose|k: int| 0 <= k < 32 && row[slot_start(s) + k] != #[trigger] nf[k];
        assert(row.subrange(s * 41, s * 41 + 32)[k] == row[s * 41 + k]);
    }
    assert(slot_matches(row, nf, slot));
    lemma_first_match(row, nf, 0);
}

/// A scan finds nothing where no entry of the row starts with the nullifier.
pub proof fn law_scan_finds_nothing_else(row: Seq<u8>, nf: Seq<u8>)
    requires
        nf.len() == 32,
        forall|s: int|
            0 <= s < 112 && s * 41 + 41 <= row.len() ==> exists|k: int|
                0 <= k < 32 && row[(#[trigger] slot_start(s)) + k] != #[trigger] nf[k],
    ensures
        scanned(row, nf) is None,
{
    lemma_first_match(row, nf, 0);
    assert forall|s: int| 0 <= s < entry_count(row) implies !slot_matches(row, nf, s) by {
        assert(s * 41 + 41 <= row.len());
        let k = choose|k: int| 0 <= k < 32 && row[slot_start(s) + k] != #[trigger] nf[k];
        assert(row.subrange(s * 41, s * 41 + 32)[k] == row[s * 41 + k]);
    }
}

/// Parameters are accepted if and only if a row has as many bits as SimplePIR
/// needs.
pub proof fn law_scenario_needs_wide_rows(
    scenario: YpirScenario,
    result: Result<(), SpendClientError>,
)
    requires
        call_ensures(check_scenario, (&scenario,), result),
    ensures
        result is Ok <==> scenario.item_size_bits >= 28_672,
        result is Err ==> result->Err_0 is InvalidParams,
{
}

/// A query of at least four bytes is answered with the row that they number,
/// byte by byte, and refused where there is no such row; a shorter one is
/// refused for its length.
pub proof fn law_row_is_answered(
    db: Seq<u8>,
    num_items: u64,
    width: int,
    query: Seq<u8>,
    index: int,
)
    requires
        0 <= width,
        query.len() >= 4,
        index == query[0] + 256 * query[1] + 65_536 * query[2] + 16_777_216 * query[3],
    ensures
        index < num_items && (index + 1) * width <= db.len() ==> {
            &&& row_for(db, num_items, width, query) is Ok
            &&& row_for(db, num_items, width, query)->Ok_0.len() == width
            &&& forall|k: int|
                0 <= k < width ==> #[trigger] row_for(db, num_items, width, query)->Ok_0[k]
                    == db[index * width + k]
        },
        index >= num_items || (index + 1) * width > db.len() ==> row_for(
            db,
            num_items,
            width,
            query,
        ) == Err::<Seq<u8>, RowError>(RowError::OutOfRange { index: index as u32 }),
{
    assert((index + 1) * width == index * width + width && 0 <= index * width) by (nonlinear_arith)
        requires
            0 <= index,
            0 <= width,
    ;
}

/// A query that is too short for a row number is refused.
pub proof fn law_short_query_is_refused(
    db: Seq<u8>,
    num_items: u64,
    width: int,
    query: Seq<u8>,
)
    requires
        query.len() < 4,
    ensures
        row_for(db, num_items, width, query) == Err::<Seq<u8>, RowError>(
            RowError::ShortQuery { len: query.len() as usize },
        ),
{
}

/// A client asks for the row that holds the position: 256 rows to a shard,
/// counted from the start of the window, and refuses positions outside it.
pub proof fn law_client_asks_for_its_row(
    position: u64,
    broadcast: BroadcastData,
    row: Result<usize, WitnessClientError>,
)
    requires
        call_ensures(query_row, (position, &broadcast), row),
        broadcast.window_start_shard + broadcast.window_shard_count <= u32::MAX,
        broadcast.window_shard_count * 256 <= usize::MAX,
        position < 0x1_0000_0000_0000,
    ensures
        ({
            let place = position as int / 65_536 - broadcast.window_start_shard;
            &&& row is Ok <==> 0 <= place < broadcast.window_shard_count
            &&& row is Ok ==> row->Ok_0 == (position - broadcast.window_start_shard * 65_536) as int
                / 256
            &&& row is Err ==> row->Err_0 == WitnessClientError::PositionOutsideWindow(
                position,
                broadcast.window_start_shard,
                (broadcast.window_start_shard + broadcast.window_shard_count) as u32,
            )
        }),
{
}

/// Rows are counted from the start of the window, 256 to a shard.
pub proof fn law_rows_count_from_the_window(
    shard: u32,
    subshard: u8,
    start: u32,
    row: usize,
)
    requires
        call_ensures(physical_row_index, (shard, subshard, start), row),
        start <= shard,
    ensures
        row == (shard - start) * 256 + subshard,
{
}

/// A client that asks for a row by its number, with the lowest byte first, gets
/// that row of any database that has it.
pub proof fn law_numbered_row_comes_back(
    db: Seq<u8>,
    num_items: u64,
    width: int,
    index: u32,
    k: int,
)
    requires
        index < num_items,
        (index + 1) * width <= db.len(),
        0 <= k < width,
    ensures
        row_for(db, num_items, width, u32_le(index)) is Ok,
        row_for(db, num_items, width, u32_le(index))->Ok_0[k] == db[index * width + k],
{
    law_u32_bytes_are_digits(index);
    law_row_is_answered(db, num_items, width, u32_le(index), index as int);
}

/// A client that scans a row gets what the laws of a scan say.
pub proof fn law_client_scans_the_row(
    row: &[u8],
    nf: [u8; 32],
    found: Option<SpendMetadata>,
)
    requires
        call_ensures(scan_bucket_for_nf, (row, &nf), found),
    ensures
        found == scanned(row@, nf@),
{
}

/// A table of bare nullifiers holds a nullifier if and only if it stands in the
/// row of its bucket, and the rows stand one behind the other.
pub proof fn law_bare_table_serves_what_it_holds(
    db: BareTable,
    nf: [u8; 32],
    bucket: u32,
    held: bool,
    bytes: Vec<u8>,
)
    requires
        db.shaped(),
        call_ensures(bare::hash_to_bucket, (&nf,), bucket),
        call_ensures(BareTable::contains, (&db, &nf), held),
        call_ensures(BareTable::to_pir_bytes, (&db,), bytes),
    ensures
        bytes@.len() == 67_108_864,
        held <==> exists|s: int|
            0 <= s < 16 && #[trigger] bytes@.subrange(
                bucket * 512 + s * 32,
                bucket * 512 + s * 32 + 32,
            ) == nf@,
{
    let table = db@;
    let b = bucket as int;
    assert forall|s: int| 0 <= s < 16 implies #[trigger] bytes@.subrange(
        b * 512 + s * 32,
        b * 512 + s * 32 + 32,
    ) == table.buckets[b][s]@ by {
        law_rows_hold_entries(table, 131_072, 16, b, s);
    }
    law_rows_hold_entries(table, 131_072, 16, b, 0);
    if held {
        let slots = table.buckets[b];
        let s = choose|s: int| 0 <= s < slots.len() && (#[trigger] slots[s]).nf() == nf@;
        assert(bytes@.subrange(b * 512 + s * 32, b * 512 + s * 32 + 32) == nf@);
    }
    if exists|s: int|
        0 <= s < 16 && #[trigger] bytes@.subrange(b * 512 + s * 32, b * 512 + s * 32 + 32)
            == nf@ {
        let s = choose|s: int|
            0 <= s < 16 && #[trigger] bytes@.subrange(b * 512 + s * 32, b * 512 + s * 32 + 32)
                == nf@;
        assert(table.buckets[b][s].nf() == nf@);
    }
}

/// A client that scans the row of a nullifier's bucket, as the table serves it,
/// finds the nullifier if and only if the table holds it.
pub proof fn law_client_finds_what_the_table_holds(
    db: MetaTable,
    nf: [u8; 32],
    bucket: u32,
    held: bool,
    bytes: Vec<u8>,
    row: &[u8],
    found: Option<SpendMetadata>,
)
    requires
        db.shaped(),
        call_ensures(meta::hash_to_bucket, (&nf,), bucket),
        call_ensures(MetaTable::contains, (&db, &nf), held),
        call_ensures(MetaTable::to_pir_bytes, (&db,), bytes),
        row@ == bytes@.subrange(bucket * 4_592, bucket * 4_592 + 4_592),
        call_ensures(scan_bucket_for_nf, (row, &nf), found),
    ensures
        bytes@.len() == 75_235_328,
        found is Some <==> held,
{
    law_rows_hold_entries(db@, 16_384, 112, bucket as int, 0);
    law_lookup_is_exact(db@, nf@);
}

} // verus!
