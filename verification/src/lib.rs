//! An append-only, insertion-only index from byte-string keys to chains of
//! 64-bit values.
//!
//! Keys are stored in a base-16 radix tree. Every value hangs off a singly
//! linked list of link entries, newest first. Entries live either in the
//! bytes of the backing file or, until the next flush, in staging vectors in
//! memory; a single 64-bit offset space addresses both.
//!
//! The library works on bytes: the caller hands it the contents of the file
//! and writes back what a flush appends.
//!
//! The index and its parts:
//!
//! - `vlq`: variable-length quantities.
//! - `base16`: keys as streams of four-bit digits.
//! - `offset`: offsets to entries on disk and in memory, with and without a
//!   type.
//! - `entry`: the five kinds of entries and their bytes.
//! - `state`: the state of an index as plain values, and what a search in
//!   it finds.
//! - `index`: the index itself: opening, searching, inserting.
//! - `flush`: the bytes that a flush appends.
//! - `fmt`: the text of an index.
//! - `error`: the ways an operation can fail.
//!
//! What is proved of them beyond the contracts of the functions:
//!
//! - `sound`: what it means for a tree to be sound.
//! - `insertion`, `walk`, `split`, `frame`: an insertion puts its key at the
//!   head of its chain, keeps a sound tree sound and leaves all other keys
//!   alone.
//! - `readback`, `append`, `flushed`: what a flush writes reads back, what
//!   was read once reads the same for ever, and the index after a flush
//!   holds what it held before.
//! - `laws`: what follows for any number of insertions.

pub mod append;
pub mod base16;
pub mod entry;
pub mod error;
pub mod flush;
pub mod flushed;
pub mod fmt;
pub mod frame;
pub mod index;
pub mod insertion;
pub mod laws;
pub mod offset;
pub mod readback;
pub mod sound;
pub mod split;
pub mod state;
pub mod vlq;
pub mod walk;

pub use crate::error::IndexError;
pub use crate::index::Index;
pub use crate::offset::LinkOffset;
pub use crate::offset::Offset;
