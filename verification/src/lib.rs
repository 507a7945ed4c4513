//! A page-frame allocator for a flat region of 4 KiB frames.
//!
//! The region is split into subtrees of 32 chunks, each chunk holding 512
//! frames. A chunk is described by a 512-bit occupancy bitfield and a
//! counter entry; a subtree by a tree entry; and every core keeps a local
//! reservation of one subtree. All bookkeeping is verified: the counters
//! always agree with the bitfields, and every frame handed out was free.
//!
//! Every operation takes the allocator by `&mut`: it runs from start to end
//! before the next one begins. Cores that run in parallel share the allocator
//! behind a lock.
//!
//! - `bits`, `bitfield`: the bits of a word and the bitfield of a chunk;
//! - `entry`: the entries of chunks, subtrees and cores;
//! - `lower`: allocation within a subtree;
//! - `trees`, `local`, `array`: reservation of subtrees and the allocator;
//! - `laws`: what holds between any two operations;
//! - `persist`: the stored form of the allocator;
//! - `mapping`, `table`: the arithmetic of page table levels;
//! - `list`: lists in a buffer of links, and an allocator that uses one.
use vstd::prelude::*;

pub mod array;
pub mod bitfield;
pub mod bits;
pub mod entry;
pub mod laws;
pub mod list;
pub mod local;
pub mod lower;
pub mod mapping;
pub mod persist;
pub mod table;
pub mod trees;
pub mod util;

verus! {

/// Number of address bits covered by one frame.
pub const PAGE_SIZE_BITS: usize = 12;

/// Size of a frame in bytes.
pub const PAGE_SIZE: usize = 4096;

/// How often an allocation is tried again with another subtree.
pub const CAS_RETRIES: usize = 16;

/// Marks a valid meta header.
pub const MAGIC: u64 = 0xdead_beef;

/// The ways in which an allocator operation can fail.
#[derive(Debug, Clone, Copy, PartialEq, Eq, Structural)]
pub enum Error {
    /// Not enough memory to serve the request.
    Memory,
    /// The operation has to be tried again.
    Retry,
    /// The address is misaligned, outside the region or not allocated.
    Address,
    /// The persistent state does not describe this allocator.
    Initialization,
    /// The bookkeeping contradicts itself.
    Corruption,
    /// The value to be changed was not the expected one.
    CAS,
}

} // verus!
