//! A multi-stream, append-only log store.
//!
//! Entries for many logical streams accumulate in an in-memory write buffer
//! ([`mem_table::MemTable`]); a whole buffer generation is then encoded into an
//! immutable segment image with a fixed header, a sorted per-stream index and
//! concatenated payloads ([`segments::encode_segment`]), and read back through
//! a memory-mapped, bounds-checked reader ([`segments::Segment`]).

pub mod entry;
pub mod error;
pub mod mem_table;
pub mod segments;
pub mod table;
