//! A cached file and the index of its blocks.

use vstd::prelude::*;
use std::collections::HashMap;
use crate::block_map::{
    ascending,
    has_key,
    hash_map_of,
    lookup,
    rank,
    to_map,
    with_entry,
    without_key,
    BlockMap,
};
use crate::pagecache::item::block_info::BlockInfo;
use crate::pagecache::item::metadata::Metadata;
use crate::pagecache::{BlockId, PageId};

verus! {

/// The index of the blocks of an item.
pub struct ItemData {
    pub(crate) blocks: BlockMap<BlockInfo>,
}

impl View for ItemData {
    type V = Seq<(BlockId, BlockInfo)>;

    open(crate) spec fn view(&self) -> Seq<(BlockId, BlockInfo)> {
        self.blocks@
    }
}

/// The page of `block_id` in the index `s`; `-1` where the block is not listed.
pub open spec fn page_of(s: Seq<(BlockId, BlockInfo)>, block_id: BlockId) -> PageId {
    match lookup(s, block_id) {
        Some(b) => b.page_index_number,
        None => -1i32,
    }
}

/// The readable bytes of `block_id` in the index `s`, if the block is listed.
pub open spec fn readable_of(s: Seq<(BlockId, BlockInfo)>, block_id: BlockId) -> Option<(i32, i32)> {
    match lookup(s, block_id) {
        Some(b) => Some(b.readable_offset),
        None => None,
    }
}

/// What `block_id` is listed as after it was placed on `page` with data up
/// to byte `readable_to`: a block that was listed keeps its first readable
/// byte, and its last readable byte does not go down.
pub open spec fn placed_info(s: Seq<(BlockId, BlockInfo)>, block_id: BlockId, page: PageId, readable_to: i32) -> BlockInfo {
    let before = match lookup(s, block_id) {
        Some(b) => b,
        None => BlockInfo { readable_offset: (0i32, 0i32), page_index_number: -1i32 },
    };
    BlockInfo {
        readable_offset: (
            before.readable_offset.0,
            if readable_to > before.readable_offset.1 {
                readable_to
            } else {
                before.readable_offset.1
            },
        ),
        page_index_number: page,
    }
}

/// The index after a cut inside or before block `block_id`: the blocks
/// before it stay; it stays too if the cut falls inside it
/// (`byte_index` is positive), readable up to the byte before the cut.
pub open spec fn cut_index(s: Seq<(BlockId, BlockInfo)>, block_id: BlockId, byte_index: i32) -> Seq<
    (BlockId, BlockInfo),
> {
    let r = rank(s, block_id);
    if byte_index > 0 && has_key(s, block_id) {
        s.take(r).push(
            (
                block_id,
                BlockInfo {
                    readable_offset: (s[r].1.readable_offset.0, (byte_index - 1) as i32),
                    ..s[r].1
                },
            ),
        )
    } else {
        s.take(r)
    }
}

/// For every block of the index its last readable byte.
pub open spec fn max_offsets(s: Seq<(BlockId, BlockInfo)>) -> Seq<(BlockId, i32)> {
    Seq::new(s.len(), |i: int| (s[i].0, s[i].1.readable_offset.1))
}

/// The blocks from `block_id` on, each with its page.
pub open spec fn cut_blocks(s: Seq<(BlockId, BlockInfo)>, block_id: BlockId) -> Seq<(BlockId, PageId)> {
    Seq::new(
        (s.len() - rank(s, block_id)) as nat,
        |i: int| (s[rank(s, block_id) + i].0, s[rank(s, block_id) + i].1.page_index_number),
    )
}

impl ItemData {
    /// The blocks stand in ascending order.
    pub open(crate) spec fn wf(&self) -> bool {
        ascending(self@)
    }

    pub fn new() -> (d: Self)
        ensures
            d.wf(),
            d@ == Seq::<(BlockId, BlockInfo)>::empty(),
    {
        ItemData { blocks: BlockMap::with_capacity(30000) }
    }

    pub fn get_page_id(&self, blk_id: BlockId) -> (p: PageId)
        requires
            self.wf(),
        ensures
            p == page_of(self@, blk_id),
    {
        match self.blocks.get(blk_id) {
            Some(block_info) => block_info.page_index_number,
            None => -1,
        }
    }

    pub fn get_readable_offsets(&self, block_id: BlockId) -> (r: Option<(i32, i32)>)
        requires
            self.wf(),
        ensures
            r == readable_of(self@, block_id),
    {
        match self.blocks.get(block_id) {
            Some(block_info) => Some(block_info.readable_offset),
            None => None,
        }
    }

    /// For every block its last readable byte.
    pub fn get_blocks_max_offsets(&self) -> (r: HashMap<BlockId, i32>)
        requires
            self.wf(),
        ensures
            r@ == to_map(max_offsets(self@)),
    {
        let mut list: Vec<(BlockId, i32)> = Vec::new();
        let mut i: usize = 0;
        while i < self.blocks.len()
            invariant
                i <= self@.len(),
                list@ == max_offsets(self@).take(i as int),
            decreases self@.len() - i,
        {
            list.push((self.blocks.key_at(i), self.blocks.value_at(i).clone_readable_offsets().1));
            i += 1;
            assert(list@ =~= max_offsets(self@).take(i as int));
        }
        proof {
            assert(list@ =~= max_offsets(self@));
            assert forall|a: int, b: int| 0 <= a < b < list@.len() implies (#[trigger] list@[a]).0
                < (#[trigger] list@[b]).0 by {
                assert(self@[a].0 < self@[b].0);
            }
        }
        hash_map_of(&list)
    }

    /// Cuts the index at byte `blk_byte_index` of block `blk_id`.  Gives
    /// every block from `blk_id` on with its page, in ascending order.  The
    /// blocks after `blk_id` leave the index, and `blk_id` too unless the
    /// cut falls inside it: then it stays, readable up to the byte before the cut.
    pub fn cut_blocks_after(&mut self, blk_id: BlockId, blk_byte_index: i32) -> (r: Vec<
        (BlockId, PageId),
    >)
        requires
            old(self).wf(),
        ensures
            final(self).wf(),
            final(self)@ == cut_index(old(self)@, blk_id, blk_byte_index),
            r@ == cut_blocks(old(self)@, blk_id),
            ascending(r@),
    {
        let (at, found) = self.blocks.search(blk_id);
        let ghost s = self@;
        let mut res: Vec<(BlockId, PageId)> = Vec::new();
        let mut i: usize = at;
        while i < self.blocks.len()
            invariant
                at <= i <= s.len(),
                s == self@,
                at == rank(s, blk_id),
                res@ == Seq::new(
                    (i - at) as nat,
                    |j: int| (s[at + j].0, s[at + j].1.page_index_number),
                ),
            decreases s.len() - i,
        {
            res.push((self.blocks.key_at(i), self.blocks.value_at(i).page_index_number));
            i += 1;
            assert(res@ =~= Seq::new(
                (i - at) as nat,
                |j: int| (s[at + j].0, s[at + j].1.page_index_number),
            ));
        }
        assert(res@ =~= cut_blocks(s, blk_id));
        if blk_byte_index > 0 && found {
            self.blocks.entries.truncate(at + 1);
            self.blocks.entries[at].1.truncate_readable_to(blk_byte_index - 1);
        } else {
            self.blocks.entries.truncate(at);
        }
        proof {
            let t = cut_index(s, blk_id, blk_byte_index);
            assert(self@ =~= t);
            assert forall|a: int, b: int| 0 <= a < b < t.len() implies (#[trigger] t[a]).0 < (
            #[trigger] t[b]).0 by {
                assert(t[a].0 == s[a].0 && t[b].0 == s[b].0);
            }
            assert forall|a: int, b: int| 0 <= a < b < res@.len() implies (#[trigger] res@[a]).0
                < (#[trigger] res@[b]).0 by {
                assert(s[at + a].0 < s[at + b].0);
            }
        }
        res
    }

    /// Cuts the index at byte `blk_byte_index` of block `blk_id`, as
    /// [`ItemData::cut_blocks_after`] does, and gives the page of every
    /// block from `blk_id` on.
    pub fn truncate_blocks_after(&mut self, blk_id: BlockId, blk_byte_index: i32) -> (r: HashMap<
        BlockId,
        PageId,
    >)
        requires
            old(self).wf(),
        ensures
            final(self).wf(),
            final(self)@ == cut_index(old(self)@, blk_id, blk_byte_index),
            r@ == to_map(cut_blocks(old(self)@, blk_id)),
    {
        let list = self.cut_blocks_after(blk_id, blk_byte_index);
        hash_map_of(&list)
    }

    /// Lists `block_id` on page `allocated_page` with data up to byte
    /// `readable_to`.  Gives the last readable byte of the block.
    pub fn set_block_page_id(
        &mut self,
        block_id: BlockId,
        allocated_page: PageId,
        readable_from: i32,
        readable_to: i32,
    ) -> (r: i32)
        requires
            old(self).wf(),
        ensures
            final(self).wf(),
            final(self)@ == with_entry(
                old(self)@,
                block_id,
                placed_info(old(self)@, block_id, allocated_page, readable_to),
            ),
            r == placed_info(old(self)@, block_id, allocated_page, readable_to).readable_offset.1,
    {
        let mut block = match self.blocks.get(block_id) {
            Some(b) => *b,
            None => BlockInfo::default(),
        };
        block.page_index_number = allocated_page;
        let r = block.make_readable_to(readable_to);
        self.blocks.insert(block_id, block);
        r
    }

    pub fn remove_block(&mut self, block_id: BlockId)
        requires
            old(self).wf(),
        ensures
            final(self).wf(),
            final(self)@ == without_key(old(self)@, block_id),
    {
        self.blocks.remove(block_id);
    }

    pub fn remove_all(&mut self)
        ensures
            final(self).wf(),
            final(self)@ == Seq::<(BlockId, BlockInfo)>::empty(),
    {
        self.blocks.clear();
    }

    pub fn has_block(&self, block_id: BlockId) -> (b: bool)
        requires
            self.wf(),
        ensures
            b == has_key(self@, block_id),
    {
        self.blocks.contains_key(block_id)
    }

    pub fn len(&self) -> (n: usize)
        ensures
            n == self@.len(),
    {
        self.blocks.len()
    }
}

impl Default for ItemData {
    fn default() -> (d: Self)
        ensures
            d.wf(),
            d@ == Seq::<(BlockId, BlockInfo)>::empty(),
    {
        ItemData::new()
    }
}

/// A cached file.
pub struct Item {
    pub data: ItemData,
    pub metadata: Metadata,
    /// Whether everything of the item has been flushed to its backing file.
    pub is_synced: bool,
}

/// What an item holds.
pub struct ItemView {
    pub data: Seq<(BlockId, BlockInfo)>,
    pub metadata: Metadata,
    pub is_synced: bool,
}

impl View for Item {
    type V = ItemView;

    open spec fn view(&self) -> ItemView {
        ItemView { data: self.data@, metadata: self.metadata, is_synced: self.is_synced }
    }
}

/// Some element of `values` is the string `name`.
pub open spec fn names_field(values: Seq<String>, name: Seq<char>) -> bool {
    exists|i: int| 0 <= i < values.len() && (#[trigger] values[i])@ == name
}

/// `old_meta` with the fields that `values` names taken from `new_meta`.
/// The names are `size`, `atime`, `ctime`, `mtime` and `nlinks`; any other
/// string names nothing.
pub open spec fn merged_metadata(old_meta: Metadata, new_meta: Metadata, values: Seq<String>) -> Metadata {
    Metadata {
        nlinks: if names_field(values, "nlinks"@) {
            new_meta.nlinks
        } else {
            old_meta.nlinks
        },
        size: if names_field(values, "size"@) {
            new_meta.size
        } else {
            old_meta.size
        },
        atim: if names_field(values, "atime"@) {
            new_meta.atim
        } else {
            old_meta.atim
        },
        mtim: if names_field(values, "mtime"@) {
            new_meta.mtim
        } else {
            old_meta.mtim
        },
        ctim: if names_field(values, "ctime"@) {
            new_meta.ctim
        } else {
            old_meta.ctim
        },
    }
}

impl Item {
    /// Takes from `new_meta` the fields that `values_to_update` names.
    pub fn update_metadata(&mut self, new_meta: Metadata, values_to_update: &Vec<String>)
        ensures
            final(self)@ == (ItemView {
                metadata: merged_metadata(old(self).metadata, new_meta, values_to_update@),
                ..old(self)@
            }),
    {
        let ghost start = self.metadata;
        let mut i: usize = 0;
        assert(self.metadata == merged_metadata(start, new_meta, values_to_update@.take(0)));
        while i < values_to_update.len()
            invariant
                i <= values_to_update@.len(),
                self.data == old(self).data,
                self.is_synced == old(self).is_synced,
                start == old(self).metadata,
                self.metadata == merged_metadata(start, new_meta, values_to_update@.take(i as int)),
            decreases values_to_update@.len() - i,
        {
            let value = values_to_update[i].as_str();
            let ghost before = values_to_update@.take(i as int);
            let ghost after = values_to_update@.take(i + 1);
            proof {
                assert(after[i as int]@ == value@);
                assert forall|name: Seq<char>|
                    names_field(after, name) == (names_field(before, name) || value@ == name) by {
                    if names_field(before, name) {
                        let j = choose|j: int|
                            0 <= j < before.len() && (#[trigger] before[j])@ == name;
                        assert(after[j]@ == name);
                    }
                    if names_field(after, name) && value@ != name {
                        let j = choose|j: int| 0 <= j < after.len() && (#[trigger] after[j])@ == name;
                        assert(before[j]@ == name);
                    }
                }
            }
            if value.eq("size") {
                self.metadata.size = new_meta.size;
            } else if value.eq("atime") {
                self.metadata.atim = new_meta.atim;
            } else if value.eq("ctime") {
                self.metadata.ctim = new_meta.ctim;
            } else if value.eq("mtime") {
                self.metadata.mtim = new_meta.mtim;
            } else if value.eq("nlinks") {
                self.metadata.nlinks = new_meta.nlinks;
            }
            proof {
                reveal_strlit("size");
                reveal_strlit("atime");
                reveal_strlit("ctime");
                reveal_strlit("mtime");
                reveal_strlit("nlinks");
                assert("size"@.len() == 4 && "atime"@.len() == 5 && "nlinks"@.len() == 6);
                assert("atime"@[0] == 'a' && "ctime"@[0] == 'c' && "mtime"@[0] == 'm');
            }
            i += 1;
        }
        assert(values_to_update@.take(values_to_update@.len() as int) =~= values_to_update@);
    }
}

impl Default for Item {
    /// An item without blocks, flushed, with the metadata of an empty file
    /// that one path names.
    fn default() -> (item: Self)
        ensures
            item.data.wf(),
            item@.data == Seq::<(BlockId, BlockInfo)>::empty(),
            item@.is_synced,
            item@.metadata.nlinks == 1,
            item@.metadata.size == 0,
    {
        Item { data: ItemData::default(), metadata: Metadata::default(), is_synced: true }
    }
}

} // verus!
