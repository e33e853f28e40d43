//! Breccia: a single-file, append-only blob store with random access and
//! binary search over an ordered sequence of opaque byte blobs.
//!
//! The store is self-synchronizing: every 8-byte aligned word of the body is
//! either blob payload or a marker word whose value encodes its own position.
//! This crate verifies the framing core — marker encoding, offset arithmetic,
//! header framing, the blob iterators, the bisecting search, and the append
//! protocol with its collision-avoidance padding — over an in-memory word
//! array. File and memory-map plumbing lives outside the verified library.

pub mod buffer;
pub mod header;
pub mod iter;
pub mod marker;
pub mod offset;
pub mod parse;
pub mod search;
pub mod store;
pub mod writer;

pub use buffer::Buffer;
pub use buffer::ReadError;
pub use buffer::ReadSource;
pub use buffer::SeekSource;
pub use header::ByteHeader;
pub use header::Header;
pub use iter::Blobs;
pub use marker::Marker;
pub use marker::State;
pub use offset::Offset;
pub use offset::TryFromFileOffsetError;
pub use search::Search;
pub use store::Breccia;
pub use store::GetBlobError;
pub use store::OpenError;
pub use writer::Batch;
pub use writer::BrecciaMut;
