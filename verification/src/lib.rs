//! The data layer of a log-structured merge-tree: sorted blocks of
//! key/value entries, sorted-string tables made of blocks, and the
//! iterators that stream entries in key order from one or many sources.
//!
//! - [`key`]: keys as byte strings under the lexicographic order.
//! - [`stream`]: the model of what an iterator yields, and what seeking and
//!   scanning mean for it.
//! - [`codec`]: big-endian integers in byte buffers.
//! - [`block`]: the block, its wire format, its builder and its iterator.
//! - [`table`]: the table, its wire format, its builder and its iterator.
//! - [`iterators`]: what every iterator can do, and the two iterators that
//!   merge others.
//! - [`merge`]: the model of merging, and what a merge yields.
//! - [`error`]: what can go wrong while reading.
//!
//! Every function states what it needs and what it gives, and is proved to
//! keep its word. Reading from files and writing to them is left to the
//! caller: tables are built into bytes and opened from bytes.

pub mod block;
pub mod codec;
pub mod error;
pub mod iterators;
pub mod key;
pub mod merge;
pub mod stream;
pub mod table;
