//! Laws of the library as a whole: what its operations do, place by place and
//! byte by byte, and how one call follows another.
//!
//! Many laws speak of a function through any value that it may return, and of a
//! fold, a sum or a search through sequences that list its steps.

pub mod combined;
pub mod encoding;
pub mod following;
pub mod lookup;
pub mod messages;
pub mod operations;
pub mod planning;
pub mod reports;
pub mod servers;
pub mod serving;
pub mod snapshots;
pub mod table_slots;
