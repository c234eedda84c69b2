//! What holds of every well-formed cache.

use vstd::prelude::*;
use crate::block_map::{
    ascending,
    has_key,
    lemma_position_unique,
    lemma_rank_bounds,
    lemma_with_entry,
    lookup,
    position,
    rank,
    with_entry,
};
use crate::name_map::{
    find,
    has_name,
    lemma_bind,
    lemma_name_unique,
    lemma_unbind,
    name_index,
    unbind,
};
use crate::pagecache::cache::{readable_part, size_as_length, CacheView, UpdateView};
use crate::pagecache::engine::backends::flush_laws::{file_after_writes, file_cut};
use crate::pagecache::engine::backends::pool::{OrderedEntry, PlacementView};
use crate::pagecache::item::metadata::Metadata;
use crate::pagecache::item::block_info::BlockInfo;
use crate::pagecache::item::item::{
    cut_blocks,
    cut_index,
    page_of,
    placed_info,
    readable_of,
    ItemView,
};
use crate::pagecache::{BlockId, PageId};

verus! {

/// The one block to write that holds `data` from the start of block
/// `block_id` on, all of it readable.
pub open spec fn whole_write(block_id: BlockId, data: Seq<u8>) -> UpdateView {
    UpdateView { block_id, data, offset: 0, readable_to: (data.len() - 1) as i32 }
}

impl CacheView {
    /// The item under a name is the one entry of that name, and its index is in order.
    pub proof fn lemma_item(self, cid: Seq<char>)
        requires
            self.wf(),
            self.has_item(cid),
        ensures
            find(self.contents, cid) == Some(self.item(cid)),
            ascending(self.item(cid).data),
    {
        let i = name_index(self.contents, cid);
        assert(self.contents[i].0 == cid);
        lemma_name_unique(self.contents, i);
    }

    /// What the cache is after one block was written from its start on and
    /// taken: the engine placed the block and learned its mark, and the
    /// item lists the block on its page, which holds it for the inode.
    pub proof fn lemma_single_put(self, cid: Seq<char>, block_id: BlockId, data: Seq<u8>, is_write: bool)
        requires
            self.wf(),
            self.has_item(cid),
            1 <= data.len() <= self.engine.block_size,
            self.put(cid, seq![whole_write(block_id, data)], is_write).1 == seq![(block_id, true)],
        ensures
            ({
                let placed = self.engine.allocate_one(
                    cid,
                    PlacementView {
                        block_id,
                        page_id: page_of(self.item(cid).data, block_id),
                        data,
                        offset: 0,
                    },
                    is_write,
                );
                let info = placed_info(
                    self.item(cid).data,
                    block_id,
                    placed.1,
                    (data.len() - 1) as i32,
                );
                let written = self.put(cid, seq![whole_write(block_id, data)], is_write).0;
                &&& placed.1 >= 0
                &&& written.has_item(cid)
                &&& written.item(cid).data == with_entry(self.item(cid).data, block_id, info)
                &&& written.item(cid).metadata == self.item(cid).metadata
                &&& written.engine == placed.0.mark_readable(
                    cid,
                    placed.1,
                    block_id,
                    info.readable_offset.1,
                )
                &&& page_of(written.item(cid).data, block_id) == placed.1
                &&& written.block_cached(cid, block_id)
            }),
    {
        reveal(CacheView::put);
        let req = whole_write(block_id, data);
        let reqs = seq![req];
        self.lemma_item(cid);
        let item = self.item(cid);
        let placement = PlacementView {
            block_id,
            page_id: page_of(item.data, block_id),
            data,
            offset: 0,
        };
        let placements = self.placements(cid, reqs);
        assert(placements =~= seq![placement]);
        assert(placements.drop_last() =~= Seq::empty());
        assert(placements.last() == placement);
        let one = self.engine.allocate_one(cid, placement, is_write);
        let placed = self.engine.allocate_all(cid, placements, is_write);
        assert(self.engine.allocate_all(cid, placements.drop_last(), is_write).0 == self.engine);
        assert(placed.0 == one.0);
        assert(placed.1 =~= seq![(block_id, one.1)]);
        let put = self.put(cid, reqs, is_write);
        assert(put.1[0] == (placed.1[0].0, placed.1[0].1 >= 0));
        let pg = one.1;
        let e1 = one.0;
        let readable_to = (data.len() - 1) as i32;
        let info = placed_info(item.data, block_id, pg, readable_to);
        assert(Self::record_all(item.data, e1, cid, placed.1, reqs, 0) == (item.data, e1));
        let data1 = with_entry(item.data, block_id, info);
        let e2 = e1.mark_readable(cid, pg, block_id, info.readable_offset.1);
        assert(Self::record_all(item.data, e1, cid, placed.1, reqs, 1) == (data1, e2));
        let item1 = ItemView {
            data: data1,
            is_synced: item.is_synced && !Self::any_placed(placed.1),
            ..item
        };
        lemma_bind(self.contents, cid, item1);
        lemma_with_entry(item.data, block_id, info);
        self.engine.lemma_allocated_block(cid, placement, is_write);
        e1.lemma_marked_block(cid, pg, block_id, info.readable_offset.1);
    }

    /// A block that was written and taken by the cache reads back: a read
    /// of the block right after the write is a hit that gives the bytes
    /// written.  For a block that the item did not list before, the bytes
    /// read are exactly the bytes written, readable from `0` to the last of them.
    pub proof fn lemma_read_after_write(self, cid: Seq<char>, block_id: BlockId, data: Seq<u8>, is_write: bool)
        requires
            self.wf(),
            self.has_item(cid),
            1 <= data.len() <= self.engine.block_size,
            self.put(cid, seq![whole_write(block_id, data)], is_write).1 == seq![(block_id, true)],
        ensures
            ({
                let written = self.put(cid, seq![whole_write(block_id, data)], is_write).0;
                let got = written.get(cid, seq![block_id]).1;
                &&& got.len() == 1
                &&& got[0].0 == block_id
                &&& got[0].1
                &&& got[0].2 is Some
                &&& got[0].2.unwrap().1 >= data.len() - 1
                &&& got[0].3.len() >= data.len()
                &&& got[0].3.take(data.len() as int) == data
                &&& !has_key(self.item(cid).data, block_id) ==> got[0].2 == Some(
                    (0i32, (data.len() - 1) as i32),
                ) && got[0].3 == data
            }),
    {
        self.lemma_item(cid);
        self.lemma_single_put(cid, block_id, data, is_write);
        let item = self.item(cid);
        let placement = PlacementView {
            block_id,
            page_id: page_of(item.data, block_id),
            data,
            offset: 0,
        };
        let one = self.engine.allocate_one(cid, placement, is_write);
        let pg = one.1;
        let e1 = one.0;
        let readable_to = (data.len() - 1) as i32;
        let info = placed_info(item.data, block_id, pg, readable_to);
        let e2 = e1.mark_readable(cid, pg, block_id, info.readable_offset.1);
        let written = self.put(cid, seq![whole_write(block_id, data)], is_write).0;
        let bytes = e2.pages[pg as int].data.subrange(
            e2.pages[pg as int].lo(block_id),
            e2.pages[pg as int].lo(block_id) + e2.block_size,
        );
        assert(e2.is_cached(cid, pg, block_id) && e2.sizes_ok() && bytes.len() == e2.block_size
            && bytes.take(data.len() as int) == data) by {
            self.engine.lemma_allocated_block(cid, placement, is_write);
            e1.lemma_marked_block(cid, pg, block_id, info.readable_offset.1);
            let page1 = e1.pages[pg as int];
            assert(bytes.take(data.len() as int) =~= page1.data.subrange(
                page1.lo(block_id) + 0,
                page1.lo(block_id) + 0 + data.len(),
            ));
        }
        assert(has_key(written.item(cid).data, block_id) && readable_of(
            written.item(cid).data,
            block_id,
        ) == Some(info.readable_offset) && page_of(written.item(cid).data, block_id) == pg) by {
            lemma_with_entry(item.data, block_id, info);
        }
        Self::lemma_single_get(written, cid, block_id, pg);
        let hi = info.readable_offset.1;
        if 0 <= hi < bytes.len() {
            assert(bytes.take(hi + 1).take(data.len() as int) =~= bytes.take(data.len() as int));
        }
        if !has_key(item.data, block_id) {
            assert(info.readable_offset == (0i32, readable_to));
            assert(bytes.take(hi + 1) =~= data);
        }
    }

    /// Reading one block that the item lists on a page that holds it: a
    /// hit, which gives the bytes of the block up to its last readable byte.
    pub proof fn lemma_single_get(c: CacheView, cid: Seq<char>, block_id: BlockId, pg: PageId)
        requires
            c.has_item(cid),
            has_key(c.item(cid).data, block_id),
            page_of(c.item(cid).data, block_id) == pg,
            c.engine.is_cached(cid, pg, block_id),
            c.engine.sizes_ok(),
        ensures
            ({
                let got = c.get(cid, seq![block_id]).1;
                let page = c.engine.pages[pg as int];
                let bytes = page.data.subrange(
                    page.lo(block_id),
                    page.lo(block_id) + c.engine.block_size,
                );
                &&& got.len() == 1
                &&& got[0] == (
                    block_id,
                    true,
                    readable_of(c.item(cid).data, block_id),
                    readable_part(
                        bytes,
                        readable_of(c.item(cid).data, block_id),
                    ),
                )
            }),
    {
        reveal(CacheView::get);
        let data1 = c.item(cid).data;
        let e2 = c.engine;
        let blocks = seq![block_id];
        assert(blocks.drop_last() =~= Seq::<BlockId>::empty());
        let rq = Self::read_requests(data1, blocks, e2.block_size);
        assert(Self::read_requests(data1, blocks.drop_last(), e2.block_size) =~= Seq::empty());
        let last_byte = (e2.block_size - 1) as i32;
        assert(rq =~= seq![(block_id, pg, last_byte)]);
        assert(rq.drop_last() =~= Seq::empty());
        let read = e2.read_all(cid, rq);
        assert(e2.read_all(cid, rq.drop_last()) == (e2, Seq::<(BlockId, bool, Seq<u8>)>::empty()));
        let step = e2.read_one(cid, block_id, pg, last_byte);
        assert(read.1 =~= seq![(block_id, step.1, step.2)]);
        let got = c.get(cid, blocks).1;
        assert(Self::after_reads(data1, read.1, 0) == data1);
        assert(got[0] == Self::fetched(data1, read.1[0]));
    }

    /// A link more, a link more, a link less: an inode that gets two paths
    /// with a link each and then loses the first of them keeps its item,
    /// with one link more than it had, and the second path still names it.
    pub proof fn lemma_hardlink_count(self, inode: Seq<char>, first: Seq<char>, second: Seq<char>)
        requires
            self.wf(),
            self.has_item(inode),
            first != second,
            self.item(inode).metadata.nlinks + 2 <= u32::MAX,
        ensures
            ({
                let linked = self.map_path(first, inode, true).0.map_path(second, inode, true).0;
                let after = linked.remove_item_path(inode, first, false);
                &&& self.map_path(first, inode, true).1.is_ok()
                &&& self.map_path(first, inode, true).0.map_path(second, inode, true).1.is_ok()
                &&& linked.item(inode).metadata.nlinks == self.item(inode).metadata.nlinks + 2
                &&& !after.1
                &&& after.0.has_item(inode)
                &&& after.0.item(inode).metadata.nlinks == self.item(inode).metadata.nlinks + 1
                &&& find(after.0.mapping, second) == Some(inode)
                &&& find(after.0.mapping, first).is_none()
                &&& after.0.engine == self.engine
            }),
    {
        self.lemma_item(inode);
        let item0 = self.item(inode);
        let c1 = self.map_path(first, inode, true).0;
        let item1 = ItemView {
            metadata: Metadata {
                nlinks: (item0.metadata.nlinks + 1) as u32,
                ..item0.metadata
            },
            ..item0
        };
        lemma_bind(self.mapping, first, inode);
        lemma_bind(self.contents, inode, item1);
        assert(c1.item(inode) == item1);
        let c2 = c1.map_path(second, inode, true).0;
        let item2 = ItemView {
            metadata: Metadata {
                nlinks: (item1.metadata.nlinks + 1) as u32,
                ..item1.metadata
            },
            ..item1
        };
        lemma_bind(c1.mapping, second, inode);
        lemma_bind(c1.contents, inode, item2);
        assert(c2.item(inode) == item2);
        lemma_unbind(c2.mapping, first);
        let item3 = ItemView {
            metadata: Metadata {
                nlinks: (item2.metadata.nlinks - 1) as u32,
                ..item2.metadata
            },
            ..item2
        };
        lemma_bind(c2.contents, inode, item3);
    }

    /// A rename over the last path of another inode: where `new_path`
    /// named an inode other than that of `old_path`, with an item and one
    /// link at most, the rename leaves `new_path` naming the inode of
    /// `old_path`, and the other inode without item, unknown to the pool,
    /// with every page it had among the free pages.
    pub proof fn lemma_rename_evicts(self, old_path: Seq<char>, new_path: Seq<char>, inode: Seq<char>, replaced: Seq<char>)
        requires
            self.wf(),
            find(self.mapping, old_path) == Some(inode),
            find(self.mapping, new_path) == Some(replaced),
            replaced != inode,
            self.has_item(replaced),
            self.item(replaced).metadata.nlinks <= 1,
        ensures
            ({
                let after = self.rename(old_path, new_path);
                &&& find(after.mapping, new_path) == Some(inode)
                &&& !after.has_item(replaced)
                &&& after.engine.wf()
                &&& !has_name(after.engine.owners, replaced)
                &&& forall|p: PageId|
                    self.engine.owner(replaced).pages.contains(p)
                        ==> after.engine.free_pages.contains(p)
                &&& after.engine.free_pages.len() == self.engine.free_pages.len()
                    + self.engine.owner(replaced).pages.len()
            }),
    {
        lemma_unbind(self.mapping, new_path);
        lemma_bind(unbind(self.mapping, new_path), new_path, inode);
        lemma_unbind(self.contents, replaced);
        self.engine.lemma_forgotten_owner(replaced);
    }

    /// After a cut at `new_size` the item lists no block that begins at or
    /// behind the cut, and the block in which the cut falls, if the item
    /// listed it, is readable up to the byte before the cut.
    pub proof fn lemma_truncate_index(self, inode: Seq<char>, new_size: i32)
        requires
            self.wf(),
            self.has_item(inode),
            new_size >= 0,
        ensures
            ({
                let after = self.truncate(inode, new_size).0;
                let block_size = self.engine.block_size as int;
                let from = (new_size as int / block_size) as i32;
                let index = new_size as int % block_size;
                &&& after.has_item(inode)
                &&& after.item(inode).metadata.size == new_size
                &&& ascending(after.item(inode).data)
                &&& forall|b: BlockId|
                    b * block_size >= new_size ==> !has_key(after.item(inode).data, b)
                &&& forall|b: BlockId|
                    0 <= b && (b + 1) * block_size <= new_size ==> lookup(
                        after.item(inode).data,
                        b,
                    ) == lookup(self.item(inode).data, b)
                &&& index > 0 && has_key(self.item(inode).data, from) ==> readable_of(
                    after.item(inode).data,
                    from,
                ) == Some(
                    (
                        readable_of(self.item(inode).data, from).unwrap().0,
                        (index - 1) as i32,
                    ),
                )
            }),
    {
        self.lemma_item(inode);
        let item = self.item(inode);
        let bs = self.engine.block_size as int;
        assert(self.engine.sizes_ok());
        let from = (new_size as int / bs) as i32;
        let index = (new_size as int % bs) as i32;
        vstd::arithmetic::div_mod::lemma_fundamental_div_mod(new_size as int, bs);
        assert(0 <= new_size as int / bs <= new_size) by (nonlinear_arith)
            requires
                new_size >= 0,
                bs > 0,
        ;
        let s = item.data;
        let t = cut_index(s, from, index);
        lemma_rank_bounds(s, from);
        let r = rank(s, from);
        let next = ItemView {
            data: t,
            metadata: Metadata {
                size: new_size,
                ..item.metadata
            },
            is_synced: false,
        };
        lemma_bind(self.contents, inode, next);
        let kept = index > 0 && has_key(s, from);
        if has_key(s, from) {
            let p = position(s, from);
            assert(s[p].0 == from);
            if p < r {
                assert(s[p].0 < from);
            }
            if p > r {
                assert(s[r].0 >= from);
                assert(s[r].0 < s[p].0);
            }
            assert(p == r);
        }
        assert(ascending(t)) by {
            assert forall|i: int, j: int| 0 <= i < j < t.len() implies (#[trigger] t[i]).0 < (
            #[trigger] t[j]).0 by {
                assert(t[i].0 == s[i].0 && t[j].0 == s[j].0);
            }
        }
        assert forall|b: BlockId| b * bs >= new_size implies !has_key(t, b) by {
            if has_key(t, b) {
                let i = position(t, b);
                assert(t[i].0 == b);
                if i < r {
                    assert(t[i] == s[i]);
                    assert(s[i].0 < from);
                    assert(b * bs < new_size) by (nonlinear_arith)
                        requires
                            b + 1 <= from,
                            new_size == bs * (from as int) + index,
                            index >= 0,
                            bs > 0,
                    ;
                } else {
                    assert(b == from && index > 0);
                    assert(b * bs < new_size) by (nonlinear_arith)
                        requires
                            b == from,
                            new_size == bs * (from as int) + index,
                            index > 0,
                    ;
                }
            }
        }
        assert forall|b: BlockId| 0 <= b && (b + 1) * bs <= new_size implies lookup(t, b)
            == lookup(s, b) by {
            assert(b < from) by (nonlinear_arith)
                requires
                    (b + 1) * bs <= new_size,
                    new_size == bs * (from as int) + index,
                    0 <= index < bs,
                    bs > 0,
            ;
            if has_key(s, b) {
                let i = position(s, b);
                assert(s[i].0 == b);
                lemma_position_unique(s, i);
                if i >= r {
                    assert(s[i].0 >= from);
                }
                assert(t[i] == s[i]);
                lemma_position_unique(t, i);
            } else if has_key(t, b) {
                let i = position(t, b);
                assert(t[i].0 == b);
                assert(i < r);
                assert(t[i] == s[i]);
                assert(has_key(s, b));
            }
        }
        if kept {
            assert(t[r].0 == from);
            lemma_position_unique(t, r);
            lemma_position_unique(s, r);
        }
    }

    /// After a cut inside a block that the item listed, the block, if its
    /// page still holds it for the inode, ends at the cut in the pool too:
    /// its mark is the byte before the cut, and behind the cut it is zero.
    pub proof fn lemma_truncate_zeroes(self, inode: Seq<char>, new_size: i32)
        requires
            self.wf(),
            self.has_item(inode),
            new_size >= 0,
            new_size as int % (self.engine.block_size as int) > 0,
            has_key(
                self.item(inode).data,
                (new_size as int / (self.engine.block_size as int)) as i32,
            ),
        ensures
            ({
                let after = self.truncate(inode, new_size).0;
                let block_size = self.engine.block_size as int;
                let from = (new_size as int / block_size) as i32;
                let index = (new_size as int % block_size) as i32;
                let p = page_of(self.item(inode).data, from);
                &&& after.engine.wf()
                &&& after.engine.cut_holds(inode, p, from, index)
            }),
    {
        self.lemma_item(inode);
        let s = self.item(inode).data;
        let bs = self.engine.block_size as int;
        assert(self.engine.sizes_ok());
        let from = (new_size as int / bs) as i32;
        let index = (new_size as int % bs) as i32;
        assert(0 <= new_size as int / bs <= new_size) by (nonlinear_arith)
            requires
                new_size >= 0,
                bs > 0,
        ;
        lemma_rank_bounds(s, from);
        let r = rank(s, from);
        let p = position(s, from);
        assert(s[p].0 == from);
        if p < r {
            assert(s[p].0 < from);
        }
        if p > r {
            assert(s[r].0 >= from);
            assert(s[r].0 < s[p].0);
        }
        lemma_position_unique(s, r);
        let blocks = cut_blocks(s, from);
        assert(blocks[0] == (from, s[r].1.page_index_number));
        assert forall|i: int| 1 <= i < blocks.len() implies (#[trigger] blocks[i]).0 != from by {
            assert(s[r].0 < s[r + i].0);
        }
        self.engine.lemma_truncate_cut(inode, blocks, from, index);
    }

    /// A block that was written and taken by the cache reaches the file:
    /// after the write of a block that the item did not list, the plan of
    /// the next flush, carried out on any file, leaves a file as long as
    /// the size of the item that holds the bytes written at the place of
    /// the block, as far as the file reaches.
    pub proof fn lemma_round_trip(
        self,
        cid: Seq<char>,
        block_id: BlockId,
        data: Seq<u8>,
        file: Seq<u8>,
        only_sync_data: bool,
    )
        requires
            self.wf(),
            self.has_item(cid),
            !has_key(self.item(cid).data, block_id),
            1 <= data.len() <= self.engine.block_size,
            self.put(cid, seq![whole_write(block_id, data)], true).1 == seq![(block_id, true)],
        ensures
            ({
                let written = self.put(cid, seq![whole_write(block_id, data)], true).0;
                let plan = written.sync(cid, only_sync_data).1;
                let flushed = file_cut(
                    file_after_writes(file, plan.writes),
                    plan.truncate_to as int,
                );
                &&& plan.truncate_to == size_as_length(self.item(cid).metadata.size)
                &&& flushed.len() == plan.truncate_to
                &&& forall|k: int|
                    0 <= k < data.len() && block_id * self.engine.block_size + k < flushed.len()
                        ==> #[trigger] data[k] == flushed[block_id * self.engine.block_size + k]
            }),
    {
        self.lemma_item(cid);
        self.lemma_single_put(cid, block_id, data, true);
        let item = self.item(cid);
        let placement = PlacementView {
            block_id,
            page_id: page_of(item.data, block_id),
            data,
            offset: 0,
        };
        let one = self.engine.allocate_one(cid, placement, true);
        let pg = one.1;
        let e1 = one.0;
        self.engine.lemma_allocated_block(cid, placement, true);
        let readable_to = (data.len() - 1) as i32;
        let info = placed_info(item.data, block_id, pg, readable_to);
        assert(info.readable_offset == (0i32, readable_to));
        let e2 = e1.mark_readable(cid, pg, block_id, readable_to);
        e1.lemma_mark_readable_wf(cid, pg, block_id, readable_to);
        let written = self.put(cid, seq![whole_write(block_id, data)], true).0;
        assert(written.engine == e2);
        // The block is listed on a dirty page, marked up to its last byte at least.
        let page1 = e1.pages[pg as int];
        let page2 = e2.pages[pg as int];
        assert(page2 == page1.raise_mark(block_id, readable_to));
        lemma_with_entry(
            page1.blocks.readable,
            block_id,
            if page1.blocks.readable_of(block_id) >= readable_to {
                page1.blocks.readable_of(block_id)
            } else {
                readable_to
            },
        );
        assert(page2.blocks.readable_of(block_id) >= readable_to);
        let ordered = e2.owner(cid).ordered;
        assert(ordered == e1.owner(cid).ordered);
        let entry = OrderedEntry {
            page_id: pg,
            offsets: page1.blocks.offsets_of(block_id),
            synced: false,
        };
        assert(lookup(ordered, block_id) == Some(entry));
        let j = position(ordered, block_id);
        assert(ordered[j].0 == block_id);
        assert(ordered[j] == (block_id, entry));
        assert(has_name(e2.owners, cid)) by {
            if !has_name(e2.owners, cid) {
                assert(ordered.len() == 0);
            }
        }
        e2.lemma_owner_record(cid);
        e2.lemma_dirty_entries_ascending(ordered);
        let w = e2.dirty_entries(ordered);
        assert(w.contains(ordered[j]));
        let i = w.index_of(ordered[j]);
        e2.lemma_flush_carries_blocks(cid, file);
        let raw = file_after_writes(file, e2.sync_writes(cid));
        let plan = written.sync(cid, only_sync_data).1;
        let flushed = file_cut(raw, plan.truncate_to as int);
        let placed_bytes = page1.data.subrange(
            page1.lo(block_id) + 0,
            page1.lo(block_id) + 0 + data.len(),
        );
        assert(placed_bytes == data);
        assert forall|k: int|
            0 <= k < data.len() && block_id * self.engine.block_size + k
                < flushed.len() implies #[trigger] data[k] == flushed[block_id
            * self.engine.block_size + k] by {
            assert(e2.block_in_file(w[i], k, raw));
            assert(placed_bytes[k] == page1.data[page1.lo(block_id) + 0 + k]);
        }
    }
}

} // verus!
