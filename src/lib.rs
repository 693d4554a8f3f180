//! Content-defined chunking and the archive logic built on it.
//!
//! - `rolling`: the RollSum and BuzHash rolling hashes (BuzHash over a table
//!   of its own, not the one other tools use).
//! - `chunker`: the chunks of a stream, and a streaming chunker proved to
//!   produce them whatever pieces the stream arrives in.
//! - `hasher`: chunk hash sums and source digests.
//! - `archive`: the archive header: magic, length, manifest and its checksum.
//! - `dictionary`: the manifest's contents and the checks made on load.
//! - `compress`: deduplicating the chunks of a source into an archive.
//! - `unpack`: rebuilding a source from seeds and archive fetches.
//! - `diff`: chunk statistics of two files compared.
//! - `index`: lookup of hash sums.
//! - `error`: the error kinds.
pub mod archive;
pub mod chunker;
pub mod compress;
pub mod dictionary;
pub mod diff;
pub mod error;
pub mod hasher;
pub mod index;
pub mod rolling;
pub mod unpack;
