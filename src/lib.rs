//! A single-file container of independently addressable, mutable binary blocks.
//!
//! The container keeps a fixed-size header, a block region and a trailing
//! footer that indexes every block and every hole of free space.

pub mod bytes;
pub mod checksum;
pub mod codec;
pub mod codec_laws;
pub mod compression;
pub mod container;
pub mod defrag_facts;
pub mod error;
pub mod footer;
pub mod header;
pub mod identifier;
pub mod internal_file;
pub mod laws;
pub mod overallocation;
pub mod space;
