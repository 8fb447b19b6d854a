//! What can go wrong while reading.

use vstd::prelude::*;

verus! {

/// An error met while reading a table or while advancing an iterator.
#[derive(Debug, Clone, Copy, PartialEq, Eq)]
pub enum LsmError {
    /// The bytes of a table do not parse. `block_idx` is the first block
    /// that is damaged; it is `None` where the directory of the table is.
    Corruption { table_id: usize, block_idx: Option<usize> },
    /// The underlying storage failed to read; `code` is what it reported.
    Io { code: i32 },
}

} // verus!
