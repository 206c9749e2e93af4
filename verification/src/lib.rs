//! Infers the load base address of a flat, relocated binary image by
//! correlating pointer-sized words found in the image with the file offsets
//! of printable strings found in the same image.
//!
//! The pipeline has three stages: locate candidate strings and index their
//! file offsets by page offset, locate candidate pointer words and index the
//! recurring ones by page offset, then vote: every (string offset, address)
//! pair sharing a page-offset bucket with address >= offset proposes the
//! difference as a candidate base, and candidates are ranked by how many
//! pairs support them.

use vstd::prelude::*;

pub mod addresses;
pub mod base;
pub mod buckets;
pub mod config;
pub mod counts;
pub mod strings;

verus! {

/// Low twelve bits of a value: the page offset under 4 KiB pages.
pub const PAGE_OFFSET_MASK: u64 = 0xFFF;

/// Number of distinct page-offset bucket keys.
pub const NUM_BUCKETS: usize = 0x1000;

} // verus!
