//! Section extraction engine for annotated paginated documents.
//!
//! A source document is split into numbered pages of text. A *section* names
//! a page range, optionally a byte span of the concatenated page text, and an
//! ordered log of edit operations that trim unwanted fragments. This crate
//! holds the data model, the extraction algorithm that turns page text plus a
//! section definition into the section's final text, the hash-keyed metadata
//! store logic, and the sidecar file codec.

pub mod meta;
pub mod extract;
pub mod codec;
pub mod store;
