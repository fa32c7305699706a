use vstd::prelude::*;

pub mod arena;
pub mod bin;
pub mod bitmap;
pub mod bump;
pub mod cabi;
pub mod classes;
pub mod extent;
pub mod fixed;
pub mod heap;
pub mod layout;
pub mod list;
pub mod lookup;
pub mod math;
pub mod misc;
pub mod prim;
pub mod rbtree;
pub mod ring;
pub mod rtree;
pub mod slab;
pub mod static_;
pub mod system;
pub mod tcache;

verus! {

pub const BITS_PER_BYTE: usize = 8;

/// Bits in a machine word.
pub const WORD_BITS: usize = 64;

/// The number of low bits that are zero in the size of a machine word.
pub const WORD_TRAILING: usize = 3;

/// Arenas that the directory can hold.
pub const MAX_ARENAS: usize = 256;

/// Flags in the directory's occupancy bitmap.
pub const ARENA_BMS: usize = 256;

pub const CHUNK_SHIFT: usize = 19;

/// Bytes that the metadata allocator maps at a time.
pub const CHUNK_SIZE: usize = 524288;

pub const BITS_PER_LEVEL: usize = 9;

/// Children per node of the ownership trees.
pub const FANOUT: usize = 512;

} // verus!
