//! A cached file: which pages hold its blocks, its metadata, and whether it
//! was flushed.

pub mod block_info;
pub mod item;
pub mod metadata;
