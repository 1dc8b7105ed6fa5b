//! Storage of large files in chunks, in a Git object store.
//!
//! A file whose path the attributes of the workspace opt in is cut into chunks
//! by its content and stored as a tree: a marker, then one blob per chunk. Files
//! that differ little then share most of their chunks.
//!
//! The library decides; it does no I/O. Where an object or a file is to be read
//! or written it says so, and the caller does it and hands back the outcome.
pub mod attribute_lines;
pub mod attributes;
pub mod backend;
pub mod bytes;
pub mod cdc_read;
pub mod cdc_write;
pub mod chunk_name;
pub mod chunker;
pub mod laws;
pub mod repo_path;
pub mod tree;
pub mod workspace;
