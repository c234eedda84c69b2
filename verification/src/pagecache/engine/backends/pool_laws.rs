//! What holds of every well-formed pool.

use vstd::prelude::*;
use crate::id_list::{lemma_without, without};
use crate::name_map::{has_name, lemma_name_unique, name_index};
use crate::pagecache::engine::backends::pool::{
    lists_page,
    EngineView,
    OrderedEntry,
    OwnerView,
    PlacementView,
};
use crate::pagecache::engine::backends::pool_wf::lemma_ids_fit;
use crate::pagecache::engine::page::PageView;
use crate::pagecache::{BlockId, PageId};

verus! {

/// The page holds `data` in the block `block_id`, from byte `offset` of the block on.
pub open spec fn holds_bytes(page: PageView, block_id: BlockId, offset: int, data: Seq<u8>) -> bool {
    &&& 0 <= page.lo(block_id)
    &&& page.lo(block_id) + offset + data.len() <= page.data.len()
    &&& page.data.subrange(
        page.lo(block_id) + offset,
        page.lo(block_id) + offset + data.len(),
    ) == data
}

/// How many pages the first `n` owners hold together.
pub open spec fn owned_count(owners: Seq<(Seq<char>, OwnerView)>, n: int) -> int
    decreases n,
{
    if n <= 0 {
        0
    } else {
        owned_count(owners, n - 1) + owners[n - 1].1.pages.len()
    }
}

/// The pages of the first `n` owners, one owner after the other.
pub open spec fn owned_pages(owners: Seq<(Seq<char>, OwnerView)>, n: int) -> Seq<PageId>
    decreases n,
{
    if n <= 0 {
        Seq::empty()
    } else {
        owned_pages(owners, n - 1) + owners[n - 1].1.pages
    }
}

/// A list that holds every page id of a pool of `n` pages has at least `n` entries.
pub proof fn lemma_ids_cover(s: Seq<PageId>, n: int)
    requires
        s.no_duplicates(),
        0 <= n <= i32::MAX,
        forall|v: PageId| 0 <= v < n ==> s.contains(v),
    ensures
        s.len() >= n,
    decreases n,
{
    if n > 0 {
        let top = (n - 1) as i32;
        assert(s.contains(top));
        lemma_without(s, top);
        let t = without(s, top);
        assert forall|v: PageId| 0 <= v < n - 1 implies t.contains(v) by {
            assert(s.contains(v));
        }
        lemma_ids_cover(t, n - 1);
    }
}

impl EngineView {
    /// The pages of the first `n` owners are as many as the owners hold
    /// together, each is the page of one of them, and none occurs twice.
    pub proof fn lemma_owned_pages(self, n: int)
        requires
            self.wf(),
            0 <= n <= self.owners.len(),
        ensures
            owned_pages(self.owners, n).len() == owned_count(self.owners, n),
            owned_pages(self.owners, n).no_duplicates(),
            forall|p: PageId|
                owned_pages(self.owners, n).contains(p) <==> exists|i: int|
                    0 <= i < n && (#[trigger] self.owners[i]).1.pages.contains(p),
        decreases n,
    {
        if n > 0 {
            self.lemma_owned_pages(n - 1);
            let before = owned_pages(self.owners, n - 1);
            let last = self.owners[n - 1].1.pages;
            let all = owned_pages(self.owners, n);
            assert(self.owner_ok(self.owners[n - 1].0, self.owners[n - 1].1));
            assert forall|p: PageId| all.contains(p) <==> exists|i: int|
                0 <= i < n && (#[trigger] self.owners[i]).1.pages.contains(p) by {
                if all.contains(p) {
                    let k = all.index_of(p);
                    if k < before.len() {
                        assert(before[k] == p);
                        assert(before.contains(p));
                        let i = choose|i: int|
                            0 <= i < n - 1 && (#[trigger] self.owners[i]).1.pages.contains(p);
                        assert(self.owners[i].1.pages.contains(p));
                    } else {
                        assert(last[k - before.len()] == p);
                        assert(self.owners[n - 1].1.pages.contains(p));
                    }
                }
                if exists|i: int| 0 <= i < n && (#[trigger] self.owners[i]).1.pages.contains(p) {
                    let i = choose|i: int|
                        0 <= i < n && (#[trigger] self.owners[i]).1.pages.contains(p);
                    if i < n - 1 {
                        assert(before.contains(p));
                        let k = before.index_of(p);
                        assert(all[k] == p);
                    } else {
                        let k = last.index_of(p);
                        assert(all[before.len() + k] == p);
                    }
                }
            }
            assert forall|a: int, b: int|
                0 <= a < all.len() && 0 <= b < all.len() && a != b implies all[a] != all[b] by {
                if a < before.len() && b < before.len() {
                    assert(all[a] == before[a] && all[b] == before[b]);
                } else if a >= before.len() && b >= before.len() {
                    assert(all[a] == last[a - before.len()] && all[b] == last[b - before.len()]);
                } else {
                    let (x, y) = if a < before.len() {
                        (a, b)
                    } else {
                        (b, a)
                    };
                    assert(all[x] == before[x]);
                    assert(all[y] == last[y - before.len()]);
                    assert(before.contains(before[x]));
                    let i = choose|i: int|
                        0 <= i < n - 1 && (#[trigger] self.owners[i]).1.pages.contains(before[x]);
                    let j = self.owners[i].1.pages.index_of(before[x]);
                    assert(self.owner_ok(self.owners[i].0, self.owners[i].1));
                    assert(self.pages[self.owners[i].1.pages[j] as int].owner == self.owners[i].0);
                    assert(self.pages[last[y - before.len()] as int].owner == self.owners[n - 1].0);
                    assert(self.owners[i].0 != self.owners[n - 1].0);
                }
            }
        }
    }

    /// Every page of the pool is free or belongs to one owner, never both
    /// and never twice: the free pages and the pages of all owners are as
    /// many as the pool has pages.
    pub proof fn lemma_capacity(self)
        requires
            self.wf(),
        ensures
            self.free_pages.len() + owned_count(self.owners, self.owners.len() as int)
                == self.nr_pages,
            forall|p: PageId|
                self.valid_page(p) ==> (self.free_pages.contains(p) <==> !owned_pages(
                    self.owners,
                    self.owners.len() as int,
                ).contains(p)),
    {
        let n = self.owners.len() as int;
        self.lemma_owned_pages(n);
        let owned = owned_pages(self.owners, n);
        let all = self.free_pages + owned;
        assert forall|p: PageId| self.valid_page(p) implies (self.free_pages.contains(p)
            <==> !owned.contains(p)) by {
            if owned.contains(p) {
                let i = choose|i: int|
                    0 <= i < n && (#[trigger] self.owners[i]).1.pages.contains(p);
                assert(self.owner_ok(self.owners[i].0, self.owners[i].1));
                let j = self.owners[i].1.pages.index_of(p);
                assert(!self.free_pages.contains(self.owners[i].1.pages[j]));
            }
            if !self.free_pages.contains(p) {
                let name = self.pages[p as int].owner;
                assert(has_name(self.owners, name));
                let i = name_index(self.owners, name);
                assert(self.owners[i].0 == name);
                lemma_name_unique(self.owners, i);
                assert(self.owners[i].1.pages.contains(p));
            }
        }
        assert forall|k: int| 0 <= k < all.len() implies 0 <= #[trigger] all[k]
            < self.nr_pages by {
            if k < self.free_pages.len() {
                assert(self.valid_page(self.free_pages[k]));
            } else {
                let p = owned[k - self.free_pages.len()];
                assert(owned.contains(p));
                let i = choose|i: int|
                    0 <= i < n && (#[trigger] self.owners[i]).1.pages.contains(p);
                assert(self.owner_ok(self.owners[i].0, self.owners[i].1));
                let j = self.owners[i].1.pages.index_of(p);
                assert(self.valid_page(self.owners[i].1.pages[j]));
            }
        }
        assert forall|a: int, b: int|
            0 <= a < all.len() && 0 <= b < all.len() && a != b implies all[a] != all[b] by {
            if a < self.free_pages.len() && b >= self.free_pages.len() {
                assert(self.free_pages.contains(self.free_pages[a]));
                assert(owned.contains(owned[b - self.free_pages.len()]));
                assert(self.valid_page(self.free_pages[a]));
            } else if b < self.free_pages.len() && a >= self.free_pages.len() {
                assert(self.free_pages.contains(self.free_pages[b]));
                assert(owned.contains(owned[a - self.free_pages.len()]));
                assert(self.valid_page(self.free_pages[b]));
            }
        }
        lemma_ids_fit(all, self.nr_pages as int);
        assert forall|v: PageId| 0 <= v < self.nr_pages implies all.contains(v) by {
            assert(self.valid_page(v));
            if self.free_pages.contains(v) {
                let k = self.free_pages.index_of(v);
                assert(all[k] == v);
            } else {
                let k = owned.index_of(v);
                assert(all[self.free_pages.len() + k] == v);
            }
        }
        lemma_ids_cover(all, self.nr_pages as int);
    }

    /// The queue of pages in use is never longer than the pool.
    pub proof fn lemma_lru_bound(self)
        requires
            self.wf(),
        ensures
            self.lru.len() <= self.nr_pages,
    {
        if self.lru_enabled {
            lemma_ids_fit(self.lru, self.nr_pages as int);
        }
    }

    /// With eviction on, a pool with pages always finds a page with room,
    /// and evicts exactly when it must.  While the owner has a page with
    /// room, or a page is free, no page in use is touched and nothing has
    /// to be saved.  When neither is the case, the page handed out is the
    /// tail of the queue, which was in use.
    pub proof fn lemma_eviction_only_when_full(self, name: Seq<char>)
        requires
            self.wf(),
            self.lru_enabled,
            self.nr_pages > 0,
        ensures
            self.next_free_page(name).1 >= 0,
            self.owner(name).free.len() > 0 || self.free_pages.len() > 0 ==> {
                &&& self.next_free_page(name).2.is_none()
                &&& forall|p: PageId|
                    self.valid_page(p) && !self.free_pages.contains(p) ==> self.next_free_page(
                        name,
                    ).0.pages[p as int] == self.pages[p as int]
            },
            self.owner(name).free.len() == 0 && self.free_pages.len() == 0 ==> {
                &&& self.lru.len() > 0
                &&& self.next_free_page(name).1 == self.lru.last()
                &&& !self.free_pages.contains(self.lru.last())
                &&& self.next_free_page(name).2 == self.flush_of(self.lru.last())
                &&& self.next_free_page(name).0.pages[self.lru.last() as int] == (PageView {
                    owner: name,
                    ..self.fresh_page()
                })
            },
    {
        self.lemma_next_free_page_wf(name);
        if self.owner(name).free.len() > 0 {
        } else if self.free_pages.len() > 0 {
            self.lemma_claim_free_page_wf(name);
            let p0 = self.free_pages.last();
            assert(self.free_pages[self.free_pages.len() - 1] == p0);
            assert(self.free_pages.contains(p0));
        } else {
            assert(self.valid_page(0i32));
            assert(self.lru.contains(0i32));
            let v = self.lru.last();
            assert(self.valid_page(self.lru[self.lru.len() - 1]));
            self.lemma_release_page_wf(v);
            self.release_page(v).lemma_claim_free_page_wf(name);
        }
    }

    /// No entry of `ordered` is on a dirty page: nothing of it is to be flushed.
    pub proof fn lemma_clean_entries(self, ordered: Seq<(BlockId, OrderedEntry)>)
        requires
            forall|j: int|
                0 <= j < ordered.len() ==> !self.pages[(#[trigger] ordered[j]).1.page_id as int].dirty,
        ensures
            self.dirty_entries(ordered).len() == 0,
        decreases ordered.len(),
    {
        if ordered.len() > 0 {
            let init = ordered.drop_last();
            assert forall|j: int| 0 <= j < init.len() implies !self.pages[(
            #[trigger] init[j]).1.page_id as int].dirty by {
                assert(init[j] == ordered[j]);
            }
            self.lemma_clean_entries(init);
            assert(!self.pages[ordered[ordered.len() - 1].1.page_id as int].dirty);
        }
    }

    /// A flush right after a flush writes nothing.
    pub proof fn lemma_second_flush_writes_nothing(self, name: Seq<char>)
        requires
            self.wf(),
        ensures
            self.after_sync(name).sync_writes(name).len() == 0,
            self.after_sync(name).after_sync(name).pages == self.after_sync(name).pages,
    {
        let t = self.after_sync(name);
        self.lemma_after_sync_wf(name);
        let ordered = t.owner(name).ordered;
        if has_name(self.owners, name) {
            self.lemma_owner_record(name);
            let before = self.owner(name).ordered;
            let i = name_index(self.owners, name);
            crate::name_map::lemma_bind(
                self.owners,
                name,
                OwnerView { ordered: self.marked_synced(before), ..self.owner(name) },
            );
            t.lemma_owner_record(name);
            assert(ordered == self.marked_synced(before));
            assert forall|j: int| 0 <= j < ordered.len() implies !t.pages[(
            #[trigger] ordered[j]).1.page_id as int].dirty by {
                assert(ordered[j].1.page_id == before[j].1.page_id);
                assert(self.valid_page(before[j].1.page_id));
                assert(lists_page(before, before[j].1.page_id));
            }
        } else {
            assert(!has_name(t.owners, name));
        }
        t.lemma_clean_entries(ordered);
        assert(t.after_sync(name).pages =~= t.pages);
    }

    /// After a block was placed, its page belongs to the owner and holds
    /// the block, with the bytes placed where they were to go.
    pub proof fn lemma_allocated_block(self, name: Seq<char>, r: PlacementView, is_write: bool)
        requires
            self.wf(),
            self.allocate_one(name, r, is_write).1 >= 0,
        ensures
            ({
                let next = self.allocate_one(name, r, is_write).0;
                let p = self.allocate_one(name, r, is_write).1;
                let page = next.pages[p as int];
                &&& next.wf()
                &&& next.block_size == self.block_size
                &&& r.fits(self.block_size)
                &&& next.is_cached(name, p, r.block_id)
                &&& page.wf()
                &&& 0 <= page.lo(r.block_id)
                &&& page.lo(r.block_id) + self.block_size <= page.data.len()
                &&& holds_bytes(page, r.block_id, r.offset as int, r.data)
                &&& is_write ==> page.dirty
                &&& crate::block_map::lookup(next.owner(name).ordered, r.block_id) == Some(
                    OrderedEntry {
                        page_id: p,
                        offsets: page.blocks.offsets_of(r.block_id),
                        synced: false,
                    },
                )
            }),
    {
        self.lemma_allocate_one_wf(name, r, is_write);
        let p = self.allocate_one(name, r, is_write).1;
        let before = if self.is_cached(name, r.page_id, r.block_id) {
            self
        } else {
            self.next_free_page(name).0
        };
        self.lemma_next_free_page_wf(name);
        if self.is_cached(name, r.page_id, r.block_id) {
            self.lemma_cached_in_use(name, r.page_id, r.block_id);
        }
        let old_page = before.pages[p as int];
        before.lemma_place_block_wf(name, p, r.block_id, r.data, r.offset, is_write);
        Self::lemma_page_with_block(old_page, r.block_id, r.data, r.offset, is_write);
        let page = Self::page_with_block(old_page, r.block_id, r.data, r.offset, is_write);
        if !old_page.contains(r.block_id) {
            crate::pagecache::engine::page::lemma_take_slot(old_page, r.block_id);
        }
        let i = crate::block_map::position(page.blocks.offsets, r.block_id);
        assert(page.blocks.offsets[i].0 == r.block_id);
        assert(page.is_slot(page.blocks.offsets[i].1.0));
        assert(page.data.subrange(
            page.lo(r.block_id) + r.offset,
            page.lo(r.block_id) + r.offset + r.data.len(),
        ) =~= r.data);
        before.lemma_page_owner(p);
        let ov = before.owner(name);
        let entry = OrderedEntry {
            page_id: p,
            offsets: page.blocks.offsets_of(r.block_id),
            synced: false,
        };
        let record = OwnerView {
            ordered: crate::block_map::with_entry(ov.ordered, r.block_id, entry),
            free: if page.free_slots.len() > 0 {
                crate::id_list::with_id(ov.free, p)
            } else {
                without(ov.free, p)
            },
            ..ov
        };
        crate::name_map::lemma_bind(before.owners, name, record);
        crate::block_map::lemma_with_entry(ov.ordered, r.block_id, entry);
    }

    /// The block `from` on page `p` of `name`, if it is cached there, ends
    /// at the cut: its mark is the byte before `index`, and from `index`
    /// on the block is zero.
    pub open spec fn cut_holds(self, name: Seq<char>, p: PageId, from: BlockId, index: i32) -> bool {
        self.is_cached(name, p, from) ==> {
            &&& self.pages[p as int].blocks.readable_of(from) == index - 1
            &&& forall|j: int|
                self.pages[p as int].lo(from) + index <= j < self.pages[p as int].lo(from)
                    + self.block_size ==> #[trigger] self.pages[p as int].data[j] == 0
        }
    }

    /// Truncating the block in which the cut falls makes it end at the cut.
    pub proof fn lemma_cut_made(self, name: Seq<char>, p: PageId, from: BlockId, index: i32)
        requires
            self.wf(),
            0 < index < self.block_size,
        ensures
            self.truncate_one(name, from, p, from, index).cut_holds(name, p, from, index),
    {
        let t = self.truncate_one(name, from, p, from, index);
        if self.in_use_by(name, p) {
            let page = self.pages[p as int];
            assert(page.wf());
            if page.contains(from) {
                let i = crate::block_map::position(page.blocks.offsets, from);
                assert(page.blocks.offsets[i].0 == from);
                assert(page.is_slot(page.blocks.offsets[i].1.0));
                crate::block_map::lemma_with_entry(
                    page.blocks.readable,
                    from,
                    (index - 1) as i32,
                );
            }
        } else if self.is_cached(name, p, from) {
            self.lemma_cached_in_use(name, p, from);
        }
    }

    /// Truncating another block leaves the block in which the cut falls as it ends.
    pub proof fn lemma_cut_kept(
        self,
        name: Seq<char>,
        block_id: BlockId,
        q: PageId,
        p: PageId,
        from: BlockId,
        index: i32,
    )
        requires
            self.wf(),
            block_id != from,
            0 < index < self.block_size,
            self.cut_holds(name, p, from, index),
        ensures
            self.truncate_one(name, block_id, q, from, index).cut_holds(name, p, from, index),
    {
        let t = self.truncate_one(name, block_id, q, from, index);
        if self.in_use_by(name, q) {
            let gone = self.forget_block(name, q, block_id);
            self.lemma_forget_block_wf(name, q, block_id);
            let page = self.pages[q as int];
            assert(page.wf());
            crate::pagecache::engine::page::lemma_without_block(page, block_id);
            crate::block_map::lemma_without_key(page.blocks.readable, block_id);
            if q == p {
                assert(gone.cut_holds(name, p, from, index));
            } else if self.valid_page(p) {
                assert(gone.pages[p as int] == self.pages[p as int]);
            }
            if !gone.pages[q as int].dirty {
                let freed = gone.release_page(q);
                if q == p {
                    let fresh = gone.fresh_page();
                    if crate::block_map::has_key(fresh.blocks.offsets, from) {
                        let i = crate::block_map::position(fresh.blocks.offsets, from);
                    }
                    assert(!freed.is_cached(name, p, from));
                } else {
                    assert(gone.valid_page(p) ==> freed.pages[p as int] == gone.pages[p as int]);
                }
            }
        }
    }

    /// After a truncation whose first block is the one in which the cut
    /// falls, that block, if it is still cached, ends at the cut: its mark
    /// is the byte before the cut, and from the cut on it is zero.
    pub proof fn lemma_truncate_cut(
        self,
        name: Seq<char>,
        blocks: Seq<(BlockId, PageId)>,
        from: BlockId,
        index: i32,
    )
        requires
            self.wf(),
            0 < index < self.block_size,
            blocks.len() > 0,
            blocks[0].0 == from,
            forall|i: int| 1 <= i < blocks.len() ==> (#[trigger] blocks[i]).0 != from,
        ensures
            self.truncate_all(name, blocks, from, index).wf(),
            self.truncate_all(name, blocks, from, index).block_size == self.block_size,
            self.truncate_all(name, blocks, from, index).cut_holds(name, blocks[0].1, from, index),
        decreases blocks.len(),
    {
        let init = blocks.drop_last();
        let last = blocks.last();
        if blocks.len() == 1 {
            assert(self.truncate_all(name, init, from, index) == self);
            self.lemma_cut_made(name, last.1, from, index);
            self.lemma_truncate_one_wf(name, last.0, last.1, from, index);
        } else {
            assert(init[0] == blocks[0]);
            assert forall|i: int| 1 <= i < init.len() implies (#[trigger] init[i]).0 != from by {
                assert(init[i] == blocks[i]);
            }
            self.lemma_truncate_cut(name, init, from, index);
            let mid = self.truncate_all(name, init, from, index);
            assert(blocks[blocks.len() - 1].0 != from);
            mid.lemma_cut_kept(name, last.0, last.1, blocks[0].1, from, index);
            mid.lemma_truncate_one_wf(name, last.0, last.1, from, index);
        }
    }

    /// Raising the mark of a cached block leaves the block where it is,
    /// with its bytes, and the mark is at least what it was raised to.
    pub proof fn lemma_marked_block(self, name: Seq<char>, p: PageId, block_id: BlockId, mark: i32)
        requires
            self.wf(),
            self.is_cached(name, p, block_id),
        ensures
            ({
                let t = self.mark_readable(name, p, block_id, mark);
                &&& t.wf()
                &&& t.is_cached(name, p, block_id)
                &&& t.block_size == self.block_size
                &&& t.owners == self.owners
                &&& t.pages[p as int].data == self.pages[p as int].data
                &&& t.pages[p as int].dirty == self.pages[p as int].dirty
                &&& t.pages[p as int].lo(block_id) == self.pages[p as int].lo(block_id)
                &&& 0 <= mark < self.block_size ==> t.pages[p as int].blocks.readable_of(block_id)
                    >= mark
            }),
    {
        self.lemma_mark_readable_wf(name, p, block_id, mark);
        let page = self.pages[p as int];
        assert(page.wf());
        if 0 <= mark < self.block_size {
            crate::block_map::lemma_with_entry(
                page.blocks.readable,
                block_id,
                if page.blocks.readable_of(block_id) >= mark {
                    page.blocks.readable_of(block_id)
                } else {
                    mark
                },
            );
        }
    }
}

} // verus!
