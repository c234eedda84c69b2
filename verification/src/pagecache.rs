//! The page cache: configuration, the page engine, cached items and the
//! coordinator that ties them together.

use vstd::prelude::*;

pub mod cache;
pub mod cache_laws;
pub mod config;
pub mod engine;
pub mod item;

verus! {

/// First and last byte of a block inside its page, both inclusive.
pub type Offsets = (i32, i32);

/// Index of a block of a file: the file offset divided by the block size.
pub type BlockId = i32;

/// Index of a page in the pool.
pub type PageId = i32;

} // verus!
