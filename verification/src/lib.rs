//! An embeddable, append-only record store over a single file.
//!
//! The file is a flat sequence of chunks. Each chunk is a block-aligned
//! record: one UID block (a little-endian `u32`, zero-padded to the block
//! size), zero or more payload blocks (the encoded value, right-zero-padded
//! to a block boundary), and one end-of-entry sentinel block. All reads and
//! writes go through a single-window, block-aligned stream cache.

use vstd::prelude::*;

pub mod db;
pub mod error;
pub mod impls;
pub mod layout;
pub mod memfile;
pub mod serializer;
pub mod stream;
pub mod structures;
pub mod traits;

verus! {

/// Bytes per block: the quantum of the on-disk layout.
pub const BLOCK_SIZE: usize = 4;

/// Bytes per stream-cache window; a non-zero multiple of `BLOCK_SIZE`.
pub const CACHE_SIZE: usize = 2048;

} // verus!
