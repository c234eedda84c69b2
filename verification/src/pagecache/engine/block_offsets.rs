//! Which blocks sit where inside one page, and how far each can be read.

use vstd::prelude::*;
use std::collections::HashMap;
use crate::block_map::{ascending, has_key, lookup, to_map, with_entry, without_key, BlockMap};
use crate::pagecache::{BlockId, Offsets};

verus! {

/// The layout of one page: for each resident block the bytes it occupies,
/// and for each block with a mark the last byte of it that holds data.
pub struct BlockOffsets {
    pub(crate) block_offset_mapping: BlockMap<Offsets>,
    pub(crate) block_readable_to: BlockMap<i32>,
}

/// Both tables of a layout, each in ascending order of block id.
pub struct BlockOffsetsView {
    pub offsets: Seq<(BlockId, Offsets)>,
    pub readable: Seq<(BlockId, i32)>,
}

impl BlockOffsetsView {
    /// The layout without any block.
    pub open spec fn empty() -> Self {
        BlockOffsetsView { offsets: Seq::empty(), readable: Seq::empty() }
    }

    pub open spec fn contains(self, block_id: BlockId) -> bool {
        has_key(self.offsets, block_id)
    }

    /// The bytes that `block_id` occupies, `(-1, -1)` where it is not resident.
    pub open spec fn offsets_of(self, block_id: BlockId) -> Offsets {
        match lookup(self.offsets, block_id) {
            Some(o) => o,
            None => (-1i32, -1i32),
        }
    }

    /// The mark of `block_id`, `0` where it has none.
    pub open spec fn readable_of(self, block_id: BlockId) -> i32 {
        match lookup(self.readable, block_id) {
            Some(r) => r,
            None => 0i32,
        }
    }
}

impl View for BlockOffsets {
    type V = BlockOffsetsView;

    open(crate) spec fn view(&self) -> BlockOffsetsView {
        BlockOffsetsView { offsets: self.block_offset_mapping@, readable: self.block_readable_to@ }
    }
}

impl BlockOffsets {
    /// Both tables are in ascending order of block id.
    pub open(crate) spec fn wf(&self) -> bool {
        ascending(self@.offsets) && ascending(self@.readable)
    }

    pub fn new() -> (b: Self)
        ensures
            b.wf(),
            b@ == BlockOffsetsView::empty(),
    {
        BlockOffsets { block_offset_mapping: BlockMap::new(), block_readable_to: BlockMap::new() }
    }

    pub fn reset(&mut self)
        ensures
            final(self).wf(),
            final(self)@ == BlockOffsetsView::empty(),
    {
        self.block_offset_mapping.clear();
        self.block_readable_to.clear();
    }

    pub fn contains_block(&self, block_id: BlockId) -> (b: bool)
        requires
            self.wf(),
        ensures
            b == self@.contains(block_id),
    {
        self.block_offset_mapping.contains_key(block_id)
    }

    pub fn get_block_offsets(&self, block_id: BlockId) -> (o: Offsets)
        requires
            self.wf(),
        ensures
            o == self@.offsets_of(block_id),
    {
        match self.block_offset_mapping.get(block_id) {
            Some(o) => *o,
            None => (-1, -1),
        }
    }

    pub fn get_nr_blocks(&self) -> (n: usize)
        ensures
            n == self@.offsets.len(),
    {
        self.block_offset_mapping.len()
    }

    pub fn insert_or_update_block_offsets(&mut self, block_id: BlockId, offsets: Offsets)
        requires
            old(self).wf(),
        ensures
            final(self).wf(),
            final(self)@ == (BlockOffsetsView {
                offsets: with_entry(old(self)@.offsets, block_id, offsets),
                ..old(self)@
            }),
    {
        self.block_offset_mapping.insert(block_id, offsets);
    }

    /// Raises the mark of `block_id` to `max_offset`; a mark never goes down here.
    pub fn make_readable_to(&mut self, block_id: BlockId, max_offset: i32)
        requires
            old(self).wf(),
        ensures
            final(self).wf(),
            final(self)@ == (BlockOffsetsView {
                readable: with_entry(
                    old(self)@.readable,
                    block_id,
                    if old(self)@.readable_of(block_id) >= max_offset {
                        old(self)@.readable_of(block_id)
                    } else {
                        max_offset
                    },
                ),
                ..old(self)@
            }),
    {
        let current = self.get_readable_to(block_id);
        let mark = if current >= max_offset {
            current
        } else {
            max_offset
        };
        self.block_readable_to.insert(block_id, mark);
    }

    /// Sets the mark of `block_id` to `offset`, whatever it was.
    pub fn truncate_readable_to(&mut self, block_id: BlockId, offset: i32)
        requires
            old(self).wf(),
        ensures
            final(self).wf(),
            final(self)@ == (BlockOffsetsView {
                readable: with_entry(old(self)@.readable, block_id, offset),
                ..old(self)@
            }),
    {
        self.block_readable_to.insert(block_id, offset);
    }

    /// The marks of all blocks.
    pub fn get_block_readable_offsets(&self) -> (r: HashMap<BlockId, i32>)
        requires
            self.wf(),
        ensures
            r@ == to_map(self@.readable),
    {
        self.block_readable_to.to_hash_map()
    }

    pub fn with_capacity(&mut self, capacity: usize)
        ensures
            final(self)@ == old(self)@,
    {
        self.block_offset_mapping.reserve(capacity);
        self.block_readable_to.reserve(capacity);
    }

    pub fn get_readable_to(&self, block_id: BlockId) -> (r: i32)
        requires
            self.wf(),
        ensures
            r == self@.readable_of(block_id),
    {
        match self.block_readable_to.get(block_id) {
            Some(r) => *r,
            None => 0,
        }
    }

    pub fn remove_block(&mut self, block_id: BlockId)
        requires
            old(self).wf(),
        ensures
            final(self).wf(),
            final(self)@ == (BlockOffsetsView {
                offsets: without_key(old(self)@.offsets, block_id),
                readable: without_key(old(self)@.readable, block_id),
            }),
    {
        self.block_offset_mapping.remove(block_id);
        self.block_readable_to.remove(block_id);
    }

    pub fn empty(&self) -> (b: bool)
        ensures
            b == (self@.offsets.len() == 0),
    {
        self.block_offset_mapping.is_empty()
    }
}

impl Default for BlockOffsets {
    fn default() -> (b: Self)
        ensures
            b.wf(),
            b@ == BlockOffsetsView::empty(),
    {
        BlockOffsets::new()
    }
}

} // verus!
