//! Client side of a nullifier query: which parameters are acceptable, and what
//! a decoded row says of a nullifier.

use crate::block_table::{bucket_of, row_bytes, SlotEntry, TableState};
use crate::bytes::{read_array_at, same_bytes, u32_at};
use crate::nullifier::spend_types::{
    law_entry_roundtrip, NullifierEntry, SpendMetadata, YpirScenario, BUCKET_BYTES, BUCKET_CAPACITY,
    ENTRY_BYTES, NUM_BUCKETS,
};
use crate::table_laws::law_rows_hold_entries;
use crate::text::{decimal, push_decimal};
use vstd::prelude::*;
use vstd::slice::slice_subrange;
use vstd::string::StringExecFns;

verus! {

/// Smallest row that SimplePIR takes, in bits.
pub const MIN_ITEM_SIZE_BITS: u64 = 28_672;

/// What can go wrong with a query.
#[derive(Debug)]
pub enum SpendClientError {
    Http(String),
    ServerUnavailable,
    InvalidParams(String),
    QueryFailed(String),
}

impl SpendClientError {
    /// The text of the error.
    pub open spec fn text(self) -> Seq<char> {
        match self {
            SpendClientError::Http(reason) => "HTTP error: "@ + reason@,
            SpendClientError::ServerUnavailable => "server unavailable (503)"@,
            SpendClientError::InvalidParams(reason) => "invalid params from server: "@ + reason@,
            SpendClientError::QueryFailed(reason) => "query failed: "@ + reason@,
        }
    }

    /// The text of the error.
    pub fn message(&self) -> (message: String)
        ensures
            message@ == self.text(),
    {
        match self {
            SpendClientError::Http(reason) => {
                let mut message = String::from_str("HTTP error: ");
                message.append(reason.as_str());
                message
            },
            SpendClientError::ServerUnavailable => String::from_str("server unavailable (503)"),
            SpendClientError::InvalidParams(reason) => {
                let mut message = String::from_str("invalid params from server: ");
                message.append(reason.as_str());
                message
            },
            SpendClientError::QueryFailed(reason) => {
                let mut message = String::from_str("query failed: ");
                message.append(reason.as_str());
                message
            },
        }
    }
}

/// Checks the parameters that a server gives.
pub fn check_scenario(scenario: &YpirScenario) -> (result: Result<(), SpendClientError>)
    ensures
        match result {
            Ok(_) => scenario.item_size_bits >= MIN_ITEM_SIZE_BITS,
            Err(error) => scenario.item_size_bits < MIN_ITEM_SIZE_BITS && (
            error matches SpendClientError::InvalidParams(reason) && reason@ == "item_size_bits "@
                + decimal(scenario.item_size_bits as int) + " below SimplePIR minimum 28672"@),
        },
{
    if scenario.item_size_bits < MIN_ITEM_SIZE_BITS {
        let mut reason = String::from_str("item_size_bits ");
        push_decimal(&mut reason, scenario.item_size_bits as u128);
        reason.append(" below SimplePIR minimum 28672");
        return Err(SpendClientError::InvalidParams(reason));
    }
    Ok(())
}

/// The number of whole entries of a row. What a decoded row holds behind a
/// bucket does not count.
pub open spec fn entry_count(row: Seq<u8>) -> int {
    if row.len() >= BUCKET_BYTES {
        BUCKET_CAPACITY as int
    } else {
        row.len() as int / ENTRY_BYTES as int
    }
}

/// Whether the entry in a slot of a row has the given nullifier.
pub open spec fn slot_matches(row: Seq<u8>, nf: Seq<u8>, slot: int) -> bool {
    row.subrange(slot * ENTRY_BYTES, slot * ENTRY_BYTES + 32) == nf
}

/// The first slot at or after `from` whose entry has the given nullifier.
pub open spec fn first_match(row: Seq<u8>, nf: Seq<u8>, from: int) -> Option<int>
    decreases entry_count(row) - from,
{
    if from >= entry_count(row) {
        None
    } else if slot_matches(row, nf, from) {
        Some(from)
    } else {
        first_match(row, nf, from + 1)
    }
}

/// The metadata of the entry in a slot of a row.
pub open spec fn metadata_in(row: Seq<u8>, slot: int) -> SpendMetadata {
    SpendMetadata {
        spend_height: u32_at(row, slot * ENTRY_BYTES + 32),
        first_output_position: u32_at(row, slot * ENTRY_BYTES + 36),
        action_count: row[slot * ENTRY_BYTES + 40],
    }
}

/// What a row says of a nullifier.
pub open spec fn scanned(row: Seq<u8>, nf: Seq<u8>) -> Option<SpendMetadata> {
    match first_match(row, nf, 0) {
        Some(slot) => Some(metadata_in(row, slot)),
        None => None,
    }
}

/// Scans the decoded bytes of a bucket for a nullifier. Returns where it was
/// spent.
pub fn scan_bucket_for_nf(decoded_row: &[u8], nf: &[u8; 32]) -> (metadata: Option<SpendMetadata>)
    ensures
        metadata == scanned(decoded_row@, nf@),
{
    let count: usize = if decoded_row.len() >= BUCKET_BYTES {
        BUCKET_CAPACITY
    } else {
        decoded_row.len() / ENTRY_BYTES
    };
    let mut i: usize = 0;
    while i < count
        invariant
            i <= count,
            count == entry_count(decoded_row@),
            count * 41 <= decoded_row.len(),
            first_match(decoded_row@, nf@, 0) == first_match(decoded_row@, nf@, i as int),
        decreases count - i,
    {
        assert(i * 41 + 41 <= count * 41);
        let start: usize = i * ENTRY_BYTES;
        if same_bytes(slice_subrange(decoded_row, start, start + 32), nf.as_slice()) {
            let tail_slice = slice_subrange(decoded_row, start + 32, start + 41);
            let tail = read_array_at::<9>(tail_slice, 0);
            assert(tail@ =~= decoded_row@.subrange(start + 32, start + 41));
            return Some(SpendMetadata::from_entry_tail(tail));
        }
        i += 1;
    }
    None
}

pub(crate) proof fn lemma_first_match(row: Seq<u8>, nf: Seq<u8>, from: int)
    requires
        0 <= from,
    ensures
        match first_match(row, nf, from) {
            Some(slot) => from <= slot < entry_count(row) && slot_matches(row, nf, slot)
                && forall|s: int| from <= s < slot ==> !slot_matches(row, nf, s),
            None => forall|s: int| from <= s < entry_count(row) ==> !slot_matches(row, nf, s),
        },
    decreases entry_count(row) - from,
{
    if from < entry_count(row) && !slot_matches(row, nf, from) {
        lemma_first_match(row, nf, from + 1);
    }
}

/// The row of a table that a nullifier selects says of the nullifier what the
/// table says: it is found there if and only if the table holds it, with the
/// metadata of the first entry in its bucket that has it.
pub proof fn law_lookup_is_exact(table: TableState<NullifierEntry>, nf: Seq<u8>)
    requires
        table.shaped(NUM_BUCKETS as int, BUCKET_CAPACITY as int),
        nf.len() == 32,
    ensures
        ({
            let b = bucket_of(nf, NUM_BUCKETS as int);
            let bucket = table.buckets[b];
            let row = table.rows().subrange(b * BUCKET_BYTES, b * BUCKET_BYTES + BUCKET_BYTES);
            &&& scanned(row, nf) is Some <==> table.holds(nf)
            &&& scanned(row, nf) matches Some(metadata) ==> exists|s: int|
                {
                    &&& 0 <= s < BUCKET_CAPACITY
                    &&& (#[trigger] bucket[s]).nullifier@ == nf
                    &&& bucket[s].metadata() == metadata
                    &&& forall|k: int| 0 <= k < s ==> (#[trigger] bucket[k]).nullifier@ != nf
                }
        }),
{
    let b = bucket_of(nf, NUM_BUCKETS as int);
    let bucket = table.buckets[b];
    let row = table.rows().subrange(b * BUCKET_BYTES, b * BUCKET_BYTES + BUCKET_BYTES);
    law_rows_hold_entries(table, NUM_BUCKETS as int, BUCKET_CAPACITY as int, b, 0);
    assert(row == row_bytes(bucket));
    assert(row.len() == BUCKET_BYTES);
    assert forall|s: int| 0 <= s < BUCKET_CAPACITY implies (slot_matches(row, nf, s) <==> (
    #[trigger] bucket[s]).nullifier@ == nf) && metadata_in(row, s) == bucket[s].metadata() by {
        law_rows_hold_entries(table, NUM_BUCKETS as int, BUCKET_CAPACITY as int, b, s);
        let entry = bucket[s];
        let field = row.subrange(s * 41, s * 41 + 41);
        assert(field == entry.bytes());
        law_entry_roundtrip(entry);
        assert(row.subrange(s * 41, s * 41 + 32) =~= field.subrange(0, 32));
        assert(field.subrange(0, 32) =~= entry.nullifier@);
        assert(u32_at(row, s * 41 + 32) == u32_at(field, 32));
        assert(u32_at(row, s * 41 + 36) == u32_at(field, 36));
        assert(row[s * 41 + 40] == field[40]);
    }
    lemma_first_match(row, nf, 0);
    match first_match(row, nf, 0) {
        Some(slot) => {
            assert(bucket[slot].nf() == nf);
            assert forall|k: int| 0 <= k < slot implies (#[trigger] bucket[k]).nullifier@
                != nf by {
                assert(!slot_matches(row, nf, k));
            }
        },
        None => {
            if table.holds(nf) {
                let s = choose|s: int| 0 <= s < bucket.len() && (#[trigger] bucket[s]).nf() == nf;
                assert(slot_matches(row, nf, s));
            }
        },
    }
}

} // verus!
