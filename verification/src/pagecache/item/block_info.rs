//! Where one block of an item sits and how much of it holds data.

use vstd::prelude::*;

verus! {

#[derive(Clone, Copy, Debug)]
pub struct BlockInfo {
    /// The first and the last byte of the block that hold data.
    pub readable_offset: (i32, i32),
    /// The page that holds the block; `-1` if none does.
    pub page_index_number: i32,
}

impl BlockInfo {
    /// Raises the last readable byte to `to`; it never goes down here.
    /// Gives the last readable byte.
    pub fn make_readable_to(&mut self, to: i32) -> (r: i32)
        ensures
            r == if to > old(self).readable_offset.1 {
                to
            } else {
                old(self).readable_offset.1
            },
            *final(self) == (BlockInfo {
                readable_offset: (old(self).readable_offset.0, r),
                ..*old(self)
            }),
    {
        if to > self.readable_offset.1 {
            self.readable_offset.1 = to;
        }
        self.readable_offset.1
    }

    /// Sets the last readable byte to `to`, whatever it was.
    pub fn truncate_readable_to(&mut self, to: i32)
        ensures
            *final(self) == (BlockInfo {
                readable_offset: (old(self).readable_offset.0, to),
                ..*old(self)
            }),
    {
        self.readable_offset.1 = to;
    }

    pub fn clone_readable_offsets(&self) -> (r: (i32, i32))
        ensures
            r == self.readable_offset,
    {
        self.readable_offset
    }
}

impl Default for BlockInfo {
    /// A block on no page, whose first byte alone is readable.
    fn default() -> (b: Self)
        ensures
            b == (BlockInfo { readable_offset: (0i32, 0i32), page_index_number: -1i32 }),
    {
        BlockInfo { readable_offset: (0, 0), page_index_number: -1 }
    }
}

} // verus!
