//! A single-file archive format with adaptive per-file run-length compression.
//!
//! The library holds the logic of the archiver: the run-length codec, the
//! profiler that picks a compression method for a file, the indexer that groups
//! files into buffer-size ranges, the text header format, and the archiver
//! session that builds and reads archives. Reading and writing the file system
//! is left to the caller, which hands the library plain values.
pub mod error;
pub mod codec;
pub mod command;
pub mod profiler;
pub mod indexer;
pub mod decimal;
pub mod header;
pub mod archiver;
