//! A block-structured filesystem core: superblock, inode and data bitmaps,
//! an inode region with direct/indirect indexing, and a path-oriented
//! directory layer, all backed by a write-back block cache over an
//! in-memory block device.

use vstd::prelude::*;

pub mod bytes;
pub mod disk;
pub mod block_cache;
pub mod layout;
pub mod bitmap;
pub mod addr;
pub mod frame_alloc;
pub mod efs;
pub mod vfs;
pub mod kernel;

verus! {

/// The unit of all storage and caching, in bytes.
pub const BLOCK_SZ: usize = 512;

} // verus!
