//! A minimal embedded key-value store built on an append-only, segmented log.
//!
//! The crate holds the storage rules and proves them: the binary record
//! format with its integrity check, the sequential scan of one segment's
//! bytes, and the engine's bookkeeping of sealed and active segments. File
//! and network access stay with the caller, who hands in the bytes that were
//! read and carries out the writes that the engine asks for.

pub mod clock;
pub mod engine;
pub mod entry;
pub mod laws;
pub mod naming;
pub mod protocol;
pub mod segment;
pub mod text;

pub use engine::Engine;
pub use entry::{DecodeError, EntryType, LogEntry};
pub use segment::{Segment, SegmentIterator};
