//! Plain access to the rows of a database, by which stub engines answer
//! queries that are no more than a row index.

use crate::bytes::{copy_of, lemma_u32_le_at, read_u32_at, u32_at, u32_le};
use vstd::prelude::*;
use vstd::slice::slice_subrange;

verus! {

/// Why a query has no answer.
#[derive(Debug, Clone, Copy, PartialEq, Eq, Structural)]
pub enum RowError {
    /// The query is too short for an index.
    ShortQuery { len: usize },
    /// There is no such row.
    OutOfRange { index: u32 },
}

/// What a database of `num_items` rows answers: the row that the first four
/// bytes of the query number.
pub open spec fn row_for(db: Seq<u8>, num_items: u64, width: int, query: Seq<u8>) -> Result<
    Seq<u8>,
    RowError,
> {
    let index = u32_at(query, 0);
    if query.len() < 4 {
        Err(RowError::ShortQuery { len: query.len() as usize })
    } else if index >= num_items || (index + 1) * width > db.len() {
        Err(RowError::OutOfRange { index })
    } else {
        Ok(db.subrange(index * width, index * width + width))
    }
}

/// Answers a query.
pub fn read_row(db: &Vec<u8>, num_items: u64, width: u32, query: &[u8]) -> (row: Result<
    Vec<u8>,
    RowError,
>)
    ensures
        match row_for(db@, num_items, width as int, query@) {
            Ok(bytes) => row matches Ok(row) && row@ == bytes,
            Err(error) => row == Err::<Vec<u8>, RowError>(error),
        },
{
    if query.len() < 4 {
        return Err(RowError::ShortQuery { len: query.len() });
    }
    let index: u32 = read_u32_at(query, 0);
    assert(index * width <= 0xffff_ffff * 0xffff_ffff && (index + 1) * width == index * width
        + width) by (nonlinear_arith)
        requires
            0 <= index <= 0xffff_ffff,
            0 <= width <= 0xffff_ffff,
    ;
    let start: u64 = index as u64 * width as u64;
    if index as u64 >= num_items || start > db.len() as u64 || (db.len() as u64 - start)
        < width as u64 {
        return Err(RowError::OutOfRange { index });
    }
    let row = slice_subrange(db.as_slice(), start as usize, start as usize + width as usize);
    Ok(copy_of(row))
}

/// A query that holds the index of a row is answered with that row.
pub proof fn law_row_query_gets_row(db: Seq<u8>, num_items: u64, width: int, index: u32)
    requires
        index < num_items,
        (index + 1) * width <= db.len(),
    ensures
        row_for(db, num_items, width, u32_le(index)) == Ok::<Seq<u8>, RowError>(
            db.subrange(index * width, index * width + width),
        ),
{
    let query = u32_le(index);
    assert(query.subrange(0, 4) =~= query);
    lemma_u32_le_at(query, 0, index);
}

} // verus!
