//! The mathematical model of the page pool: what the engine holds, when that
//! is well formed, and the steps from which every operation is made.

use vstd::prelude::*;
use crate::block_map::{ascending, lookup, with_entry, without_key};
use crate::id_list::{with_id, without};
use crate::name_map::{bind, distinct_names, find, has_name, unbind};
use crate::pagecache::engine::block_offsets::BlockOffsetsView;
use crate::pagecache::engine::page::{no_owner, write_at, PageView};
use crate::pagecache::{BlockId, Offsets, PageId};

verus! {

/// Where a block of an owner sits, and whether it was flushed since it was last placed.
#[derive(Clone, Copy, Debug)]
pub struct OrderedEntry {
    pub page_id: PageId,
    pub offsets: Offsets,
    pub synced: bool,
}

/// What the pool records of one owner.
pub struct OwnerView {
    /// The pages of the owner, in the order in which it got them.
    pub pages: Seq<PageId>,
    /// The blocks of the owner, in ascending order of block id.
    pub ordered: Seq<(BlockId, OrderedEntry)>,
    /// A stack of pages of the owner that have a free slot; the last is taken first.
    pub free: Seq<PageId>,
}

impl OwnerView {
    pub open spec fn empty() -> OwnerView {
        OwnerView { pages: Seq::empty(), ordered: Seq::empty(), free: Seq::empty() }
    }
}

/// The entries of `ordered` that are not on page `p`.
pub open spec fn entries_off_page(ordered: Seq<(BlockId, OrderedEntry)>, p: PageId) -> Seq<
    (BlockId, OrderedEntry),
>
    decreases ordered.len(),
{
    if ordered.len() == 0 {
        ordered
    } else if ordered.last().1.page_id == p {
        entries_off_page(ordered.drop_last(), p)
    } else {
        entries_off_page(ordered.drop_last(), p).push(ordered.last())
    }
}

/// One block to place: where the caller believes it sits (`-1` if nowhere),
/// the bytes, and the byte of the block at which they start.
pub struct PlacementView {
    pub block_id: BlockId,
    pub page_id: PageId,
    pub data: Seq<u8>,
    pub offset: i32,
}

/// The writes that save an evicted page, and the owner whose file they go to.
pub struct FlushView {
    pub owner: Seq<char>,
    pub writes: Seq<(u64, Seq<u8>)>,
}

/// The whole pool.
pub struct EngineView {
    pub block_size: usize,
    pub page_size: usize,
    pub nr_pages: usize,
    pub lru_enabled: bool,
    pub pages: Seq<PageView>,
    /// The stack of pages that belong to nobody; the last is taken first.
    pub free_pages: Seq<PageId>,
    pub owners: Seq<(Seq<char>, OwnerView)>,
    /// Pages in use, most recently visited first.
    pub lru: Seq<PageId>,
}

impl EngineView {
    pub open spec fn valid_page(self, p: PageId) -> bool {
        0 <= p < self.pages.len()
    }

    /// What the pool records of `name`; nothing where it is unknown.
    pub open spec fn owner(self, name: Seq<char>) -> OwnerView {
        match find(self.owners, name) {
            Some(ov) => ov,
            None => OwnerView::empty(),
        }
    }

    /// An empty page of this pool.
    pub open spec fn fresh_page(self) -> PageView {
        PageView::fresh(self.block_size, self.page_size, no_owner())
    }

    /// Page `page_id` exists, belongs to `owner` and holds `block_id`.
    pub open spec fn is_cached(self, owner: Seq<char>, page_id: PageId, block_id: BlockId) -> bool {
        self.valid_page(page_id) && self.pages[page_id as int].owner == owner
            && self.pages[page_id as int].contains(block_id)
    }

    // ------------------------------------------------------------------
    // Well-formedness
    // ------------------------------------------------------------------

    pub open spec fn sizes_ok(self) -> bool {
        &&& self.block_size > 0
        &&& self.page_size >= self.block_size
        &&& self.page_size % self.block_size == 0
        &&& self.page_size <= i32::MAX
        &&& self.nr_pages <= i32::MAX
        &&& self.pages.len() == self.nr_pages
    }

    /// Every page is well formed and of the pool's sizes.
    pub open spec fn pages_ok(self) -> bool {
        forall|p: int|
            0 <= p < self.pages.len() ==> {
                &&& (#[trigger] self.pages[p]).wf()
                &&& self.pages[p].io_block_size == self.block_size
                &&& self.pages[p].cache_page_size == self.page_size
            }
    }

    /// The free pages are pages, each once, and each is empty and owned by nobody.
    pub open spec fn free_ok(self) -> bool {
        &&& self.free_pages.no_duplicates()
        &&& forall|i: int|
            0 <= i < self.free_pages.len() ==> {
                &&& self.valid_page(#[trigger] self.free_pages[i])
                &&& self.pages[self.free_pages[i] as int] == self.fresh_page()
            }
    }

    /// The record of one owner agrees with the pages.
    pub open spec fn owner_ok(self, name: Seq<char>, ov: OwnerView) -> bool {
        &&& ov.pages.len() > 0
        &&& ov.pages.no_duplicates()
        &&& forall|j: int|
            0 <= j < ov.pages.len() ==> {
                &&& self.valid_page(#[trigger] ov.pages[j])
                &&& self.pages[ov.pages[j] as int].owner == name
                &&& !self.free_pages.contains(ov.pages[j])
            }
        &&& ov.free.no_duplicates()
        &&& forall|j: int|
            0 <= j < ov.free.len() ==> {
                &&& ov.pages.contains(#[trigger] ov.free[j])
                &&& self.valid_page(ov.free[j])
                &&& self.pages[ov.free[j] as int].free_slots.len() > 0
            }
        &&& ascending(ov.ordered)
        &&& forall|j: int|
            0 <= j < ov.ordered.len() ==> {
                let e = #[trigger] ov.ordered[j];
                &&& ov.pages.contains(e.1.page_id)
                &&& self.valid_page(e.1.page_id)
                &&& self.pages[e.1.page_id as int].contains(e.0)
                &&& self.pages[e.1.page_id as int].blocks.offsets_of(e.0) == e.1.offsets
            }
    }

    /// Every owner is recorded once, and every record agrees with the pages.
    pub open spec fn owners_ok(self) -> bool {
        &&& distinct_names(self.owners)
        &&& forall|i: int|
            0 <= i < self.owners.len() ==> self.owner_ok(
                (#[trigger] self.owners[i]).0,
                self.owners[i].1,
            )
    }

    /// Every page that is not free is among the pages of the owner it names.
    pub open spec fn owned_ok(self) -> bool {
        forall|p: PageId|
            self.valid_page(p) && !self.free_pages.contains(p) ==> {
                &&& has_name(self.owners, (#[trigger] self.pages[p as int]).owner)
                &&& self.owner(self.pages[p as int].owner).pages.contains(p)
            }
    }

    /// With eviction on, the queue holds the pages that are not free, each
    /// once; with eviction off it is empty.
    pub open spec fn lru_ok(self) -> bool {
        if self.lru_enabled {
            &&& self.lru.no_duplicates()
            &&& forall|i: int|
                0 <= i < self.lru.len() ==> self.valid_page(#[trigger] self.lru[i])
                    && !self.free_pages.contains(self.lru[i])
            &&& forall|p: PageId|
                self.valid_page(p) && !self.free_pages.contains(p) ==> #[trigger] self.lru.contains(
                    p,
                )
        } else {
            self.lru.len() == 0
        }
    }

    /// The pool is well formed.
    pub open spec fn wf(self) -> bool {
        &&& self.sizes_ok()
        &&& self.pages_ok()
        &&& self.free_ok()
        &&& self.owners_ok()
        &&& self.owned_ok()
        &&& self.lru_ok()
    }

    /// A new pool: every page empty and free, the highest page id on top of the stack.
    pub open spec fn initial(
        block_size: usize,
        page_size: usize,
        nr_pages: usize,
        lru_enabled: bool,
    ) -> EngineView {
        EngineView {
            block_size,
            page_size,
            nr_pages,
            lru_enabled,
            pages: Seq::new(
                nr_pages as nat,
                |i: int| PageView::fresh(block_size, page_size, no_owner()),
            ),
            free_pages: Seq::new(nr_pages as nat, |i: int| i as i32),
            owners: Seq::empty(),
            lru: Seq::empty(),
        }
    }

    // ------------------------------------------------------------------
    // The steps
    // ------------------------------------------------------------------

    /// `self` with page `p` replaced.
    pub open spec fn with_page(self, p: PageId, page: PageView) -> EngineView {
        EngineView { pages: self.pages.update(p as int, page), ..self }
    }

    /// The queue after a visit of `p` by a read: `p` moves to the front.
    pub open spec fn visit_on_read(self, p: PageId) -> EngineView {
        if self.lru_enabled {
            EngineView { lru: seq![p] + without(self.lru, p), ..self }
        } else {
            self
        }
    }

    /// The queue after a visit of `p` by a write: `p` moves to the front, and
    /// a queue longer than the pool loses its tail.
    pub open spec fn visit_on_write(self, p: PageId) -> EngineView {
        if self.lru_enabled {
            let moved = seq![p] + without(self.lru, p);
            EngineView {
                lru: if moved.len() > self.nr_pages {
                    moved.drop_last()
                } else {
                    moved
                },
                ..self
            }
        } else {
            self
        }
    }

    /// Page `p`, which is in use, goes back to the free pages: its owner
    /// loses it and every block on it, the page is emptied and leaves the
    /// queue, and an owner left without pages is forgotten.
    pub open spec fn release_page(self, p: PageId) -> EngineView {
        let name = self.pages[p as int].owner;
        let ov = self.owner(name);
        let left = OwnerView {
            pages: without(ov.pages, p),
            ordered: entries_off_page(ov.ordered, p),
            free: without(ov.free, p),
        };
        EngineView {
            pages: self.pages.update(p as int, self.fresh_page()),
            free_pages: self.free_pages.push(p),
            owners: if left.pages.len() == 0 {
                unbind(self.owners, name)
            } else {
                bind(self.owners, name, left)
            },
            lru: without(self.lru, p),
            ..self
        }
    }

    /// The free page on top of the stack goes to `name`: it joins the pages
    /// of `name` and its stack of pages with room, and is visited by a write.
    pub open spec fn claim_free_page(self, name: Seq<char>) -> EngineView {
        let p = self.free_pages.last();
        let ov = self.owner(name);
        let more = OwnerView { pages: ov.pages.push(p), free: ov.free.push(p), ..ov };
        (EngineView {
            pages: self.pages.update(p as int, PageView { owner: name, ..self.pages[p as int] }),
            free_pages: self.free_pages.drop_last(),
            owners: bind(self.owners, name, more),
            ..self
        }).visit_on_write(p)
    }

    /// Page `page` after `data` was placed in block `block_id` from byte
    /// `offset` of the block on.  A block that is resident is overwritten and
    /// the page is dirty; a block that is not takes the slot on top of the
    /// page's stack, and the page is dirty if it was or if this is a write.
    pub open spec fn page_with_block(
        page: PageView,
        block_id: BlockId,
        data: Seq<u8>,
        offset: i32,
        is_write: bool,
    ) -> PageView {
        if page.contains(block_id) {
            PageView {
                dirty: true,
                data: write_at(page.data, page.lo(block_id) + offset, data),
                ..page
            }
        } else {
            let slot = page.free_slots.last();
            PageView {
                dirty: page.dirty || is_write,
                free_slots: page.free_slots.drop_last(),
                data: write_at(page.data, slot + offset, data),
                blocks: BlockOffsetsView {
                    offsets: with_entry(
                        page.blocks.offsets,
                        block_id,
                        (slot, (slot + page.io_block_size - 1) as i32),
                    ),
                    ..page.blocks
                },
                ..page
            }
        }
    }

    /// `data` is placed in block `block_id` on page `p` of `name`, and the
    /// records of `name` follow: the block is listed on `p` as not flushed,
    /// and `p` is on the stack of pages with room exactly if it has room.
    pub open spec fn place_block(
        self,
        name: Seq<char>,
        p: PageId,
        block_id: BlockId,
        data: Seq<u8>,
        offset: i32,
        is_write: bool,
    ) -> EngineView {
        let page = Self::page_with_block(self.pages[p as int], block_id, data, offset, is_write);
        let ov = self.owner(name);
        let entry = OrderedEntry {
            page_id: p,
            offsets: page.blocks.offsets_of(block_id),
            synced: false,
        };
        let next = OwnerView {
            ordered: with_entry(ov.ordered, block_id, entry),
            free: if page.free_slots.len() > 0 {
                with_id(ov.free, p)
            } else {
                without(ov.free, p)
            },
            ..ov
        };
        EngineView {
            pages: self.pages.update(p as int, page),
            owners: bind(self.owners, name, next),
            ..self
        }
    }

    /// Block `block_id` leaves page `p` of `name`; the owner forgets the
    /// block if it was listed on `p`.
    pub open spec fn forget_block(self, name: Seq<char>, p: PageId, block_id: BlockId) -> EngineView {
        let ov = self.owner(name);
        let listed_here = match lookup(ov.ordered, block_id) {
            Some(e) => e.page_id == p,
            None => false,
        };
        EngineView {
            pages: self.pages.update(p as int, self.pages[p as int].without_block(block_id)),
            owners: if listed_here {
                bind(
                    self.owners,
                    name,
                    OwnerView { ordered: without_key(ov.ordered, block_id), ..ov },
                )
            } else {
                self.owners
            },
            ..self
        }
    }
}

impl PlacementView {
    /// The block id is not negative and the bytes lie inside a block of `block_size` bytes.
    pub open spec fn fits(self, block_size: usize) -> bool {
        self.block_id >= 0 && 0 <= self.offset && self.offset + self.data.len() <= block_size
    }
}

impl EngineView {
    /// The writes that save page `p` if it is dirty.
    pub open spec fn flush_of(self, p: PageId) -> Option<FlushView> {
        if self.pages[p as int].dirty {
            Some(
                FlushView {
                    owner: self.pages[p as int].owner,
                    writes: self.pages[p as int].block_writes(),
                },
            )
        } else {
            None
        }
    }

    /// A page with room for `name`, taken in this order: the top of the
    /// owner's stack of pages with room; the top of the stack of free
    /// pages, which becomes a page of `name`; with eviction on, the tail of
    /// the queue, which is released first and saved if dirty.  With none of
    /// them nothing changes and the page is `-1`.
    pub open spec fn next_free_page(self, name: Seq<char>) -> (
        EngineView,
        PageId,
        Option<FlushView>,
    ) {
        if self.owner(name).free.len() > 0 {
            (self.visit_on_write(self.owner(name).free.last()), self.owner(name).free.last(), None)
        } else if self.free_pages.len() > 0 {
            (self.claim_free_page(name), self.free_pages.last(), None)
        } else if self.lru_enabled && self.lru.len() > 0 {
            (
                self.release_page(self.lru.last()).claim_free_page(name),
                self.lru.last(),
                self.flush_of(self.lru.last()),
            )
        } else {
            (self, -1i32, None)
        }
    }

    /// Placing one block for `name`.  A block that does not fit is refused.
    /// A block that is cached where the caller says is overwritten in place.
    /// Otherwise the block goes to the next page with room, and is refused
    /// if there is none.  A refusal changes nothing and gives `-1`.
    pub open spec fn allocate_one(self, name: Seq<char>, r: PlacementView, is_write: bool) -> (
        EngineView,
        PageId,
        Option<FlushView>,
    ) {
        if !r.fits(self.block_size) {
            (self, -1i32, None)
        } else if self.is_cached(name, r.page_id, r.block_id) {
            (
                self.place_block(name, r.page_id, r.block_id, r.data, r.offset, is_write),
                r.page_id,
                None,
            )
        } else {
            let got = self.next_free_page(name);
            if got.1 < 0 {
                (self, -1i32, None)
            } else {
                (
                    got.0.place_block(name, got.1, r.block_id, r.data, r.offset, is_write),
                    got.1,
                    got.2,
                )
            }
        }
    }

    /// Placing the blocks of `rs` one after the other: the pool at the end,
    /// the page of each block in the order of `rs`, and the pages to save in
    /// the order in which they were evicted.
    pub open spec fn allocate_all(self, name: Seq<char>, rs: Seq<PlacementView>, is_write: bool) -> (
        EngineView,
        Seq<(BlockId, PageId)>,
        Seq<FlushView>,
    )
        decreases rs.len(),
    {
        if rs.len() == 0 {
            (self, Seq::empty(), Seq::empty())
        } else {
            let before = self.allocate_all(name, rs.drop_last(), is_write);
            let step = before.0.allocate_one(name, rs.last(), is_write);
            (
                step.0,
                before.1.push((rs.last().block_id, step.1)),
                match step.2 {
                    Some(f) => before.2.push(f),
                    None => before.2,
                },
            )
        }
    }
}

impl EngineView {
    /// Page `p` exists, belongs to `name` and is not free.
    pub open spec fn in_use_by(self, name: Seq<char>, p: PageId) -> bool {
        self.valid_page(p) && self.pages[p as int].owner == name && !self.free_pages.contains(p)
    }

    /// Reading bytes `0` to `read_to` of a block.  The block must be cached
    /// on the page named and the bytes must lie in the block: then the read
    /// is a hit, gives those bytes and visits the page.  Otherwise it is a
    /// miss, gives no bytes and changes nothing.
    pub open spec fn read_one(self, name: Seq<char>, block_id: BlockId, page_id: PageId, read_to: i32) -> (
        EngineView,
        bool,
        Seq<u8>,
    ) {
        if self.is_cached(name, page_id, block_id) && 0 <= read_to < self.block_size {
            (
                self.visit_on_read(page_id),
                true,
                self.pages[page_id as int].data.subrange(
                    self.pages[page_id as int].lo(block_id),
                    self.pages[page_id as int].lo(block_id) + read_to + 1,
                ),
            )
        } else {
            (self, false, Seq::empty())
        }
    }

    /// Reading the blocks of `rs`, each `(block, page, last byte)`, one
    /// after the other: the pool at the end, and for each block whether it
    /// was a hit and its bytes.
    pub open spec fn read_all(self, name: Seq<char>, rs: Seq<(BlockId, PageId, i32)>) -> (
        EngineView,
        Seq<(BlockId, bool, Seq<u8>)>,
    )
        decreases rs.len(),
    {
        if rs.len() == 0 {
            (self, Seq::empty())
        } else {
            let before = self.read_all(name, rs.drop_last());
            let r = rs.last();
            let step = before.0.read_one(name, r.0, r.1, r.2);
            (step.0, before.1.push((r.0, step.1, step.2)))
        }
    }

    /// Raising the mark of a block on a page of `name`; nothing changes
    /// where the page does not exist or belongs to another.
    pub open spec fn mark_readable(self, name: Seq<char>, p: PageId, block_id: BlockId, offset: i32) -> EngineView {
        if self.valid_page(p) && self.pages[p as int].owner == name {
            self.with_page(p, self.pages[p as int].raise_mark(block_id, offset))
        } else {
            self
        }
    }

    /// Releasing the pages of `ps`, one after the other.
    pub open spec fn release_all(self, ps: Seq<PageId>) -> EngineView
        decreases ps.len(),
    {
        if ps.len() == 0 {
            self
        } else {
            self.release_all(ps.drop_last()).release_page(ps.last())
        }
    }

    /// Every page of `name` is released, in the order in which `name` got
    /// them, and `name` is forgotten.
    pub open spec fn remove_owner(self, name: Seq<char>) -> EngineView {
        self.release_all(self.owner(name).pages)
    }

    /// For each entry of `ordered` that was not flushed since it was placed:
    /// the block, the bytes of it that hold data, from `0` to its mark, and its page.
    pub open spec fn unsynced_info(self, ordered: Seq<(BlockId, OrderedEntry)>) -> Seq<
        (BlockId, Offsets, PageId),
    >
        decreases ordered.len(),
    {
        if ordered.len() == 0 {
            Seq::empty()
        } else {
            let rest = self.unsynced_info(ordered.drop_last());
            let e = ordered.last();
            if !e.1.synced {
                rest.push(
                    (
                        e.0,
                        (0i32, self.pages[e.1.page_id as int].blocks.readable_of(e.0)),
                        e.1.page_id,
                    ),
                )
            } else {
                rest
            }
        }
    }

    /// Truncating one block of `name` that the caller believes to sit on
    /// page `p`.  Nothing changes unless `p` is a page of `name`.  The block
    /// `from_block_id`, where the cut falls inside it (`index_inside_block`
    /// is positive), keeps its bytes before the cut: the rest is zeroed and
    /// its mark is the byte before the cut.  Any other block leaves its
    /// page, and a page that is then clean is released.
    pub open spec fn truncate_one(
        self,
        name: Seq<char>,
        block_id: BlockId,
        p: PageId,
        from_block_id: BlockId,
        index_inside_block: i32,
    ) -> EngineView {
        if !self.in_use_by(name, p) {
            self
        } else if block_id == from_block_id && index_inside_block > 0 {
            self.with_page(
                p,
                self.pages[p as int].set_mark(
                    from_block_id,
                    (index_inside_block - 1) as i32,
                ).zero_from(from_block_id, index_inside_block),
            )
        } else {
            let gone = self.forget_block(name, p, block_id);
            if !gone.pages[p as int].dirty {
                gone.release_page(p)
            } else {
                gone
            }
        }
    }

    /// Truncating the blocks of `blocks`, each `(block, page)`, one after the other.
    pub open spec fn truncate_all(
        self,
        name: Seq<char>,
        blocks: Seq<(BlockId, PageId)>,
        from_block_id: BlockId,
        index_inside_block: i32,
    ) -> EngineView
        decreases blocks.len(),
    {
        if blocks.len() == 0 {
            self
        } else {
            self.truncate_all(
                name,
                blocks.drop_last(),
                from_block_id,
                index_inside_block,
            ).truncate_one(
                name,
                blocks.last().0,
                blocks.last().1,
                from_block_id,
                index_inside_block,
            )
        }
    }
}

/// Some entry of `ordered` is on page `q`.
pub open spec fn lists_page(ordered: Seq<(BlockId, OrderedEntry)>, q: PageId) -> bool {
    exists|j: int| 0 <= j < ordered.len() && (#[trigger] ordered[j]).1.page_id == q
}

/// Entry `i` of `w` begins a run: it is the first, or its block does not
/// follow the block of the entry before it.
pub open spec fn starts_run(w: Seq<(BlockId, OrderedEntry)>, i: int) -> bool {
    i == 0 || w[i - 1].0 + 1 != w[i].0
}

/// Entry `i` of `w` ends a run: it is the last, or the block of the next
/// entry does not follow its block.
pub open spec fn ends_run(w: Seq<(BlockId, OrderedEntry)>, i: int) -> bool {
    i + 1 >= w.len() || w[i].0 + 1 != w[i + 1].0
}

impl EngineView {
    /// The entries of `ordered` whose page is dirty, in their order.
    pub open spec fn dirty_entries(self, ordered: Seq<(BlockId, OrderedEntry)>) -> Seq<
        (BlockId, OrderedEntry),
    >
        decreases ordered.len(),
    {
        if ordered.len() == 0 {
            ordered
        } else if self.pages[ordered.last().1.page_id as int].dirty {
            self.dirty_entries(ordered.drop_last()).push(ordered.last())
        } else {
            self.dirty_entries(ordered.drop_last())
        }
    }

    /// `ordered` with every entry on a dirty page marked as flushed.
    pub open spec fn marked_synced(self, ordered: Seq<(BlockId, OrderedEntry)>) -> Seq<
        (BlockId, OrderedEntry),
    > {
        Seq::new(
            ordered.len(),
            |i: int|
                if self.pages[ordered[i].1.page_id as int].dirty {
                    (ordered[i].0, OrderedEntry { synced: true, ..ordered[i].1 })
                } else {
                    ordered[i]
                },
        )
    }

    /// The bytes that a flush writes for entry `i` of the list `w`: the
    /// whole block, or, for the entry that ends a run, the block up to its mark.
    pub open spec fn entry_chunk(self, w: Seq<(BlockId, OrderedEntry)>, i: int) -> Seq<u8> {
        let page = self.pages[w[i].1.page_id as int];
        let lo = w[i].1.offsets.0 as int;
        if ends_run(w, i) {
            page.data.subrange(lo, lo + page.blocks.readable_of(w[i].0) + 1)
        } else {
            page.data.subrange(lo, lo + self.block_size)
        }
    }

    /// The writes that flush the first `n` entries of `w`: one write for
    /// each run of consecutive blocks, at the file offset of the first
    /// block of the run, holding the bytes of its entries one after the other.
    pub open spec fn writes_upto(self, w: Seq<(BlockId, OrderedEntry)>, n: int) -> Seq<
        (u64, Seq<u8>),
    >
        decreases n,
    {
        if n <= 0 {
            Seq::empty()
        } else {
            let prev = self.writes_upto(w, n - 1);
            if starts_run(w, n - 1) {
                prev.push(((w[n - 1].0 * self.block_size) as u64, self.entry_chunk(w, n - 1)))
            } else {
                prev.drop_last().push(
                    (prev.last().0, prev.last().1 + self.entry_chunk(w, n - 1)),
                )
            }
        }
    }

    /// The writes that flush `name`: those of its blocks that sit on dirty
    /// pages, in ascending order of block id.
    pub open spec fn sync_writes(self, name: Seq<char>) -> Seq<(u64, Seq<u8>)> {
        self.writes_upto(
            self.dirty_entries(self.owner(name).ordered),
            self.dirty_entries(self.owner(name).ordered).len() as int,
        )
    }

    /// The pool after `name` was flushed: every page that holds a block of
    /// `name` is clean, and the blocks that were on dirty pages are marked
    /// as flushed.
    pub open spec fn after_sync(self, name: Seq<char>) -> EngineView {
        let ov = self.owner(name);
        EngineView {
            pages: Seq::new(
                self.pages.len(),
                |q: int|
                    if lists_page(ov.ordered, q as i32) {
                        PageView { dirty: false, ..self.pages[q] }
                    } else {
                        self.pages[q]
                    },
            ),
            owners: if has_name(self.owners, name) {
                bind(
                    self.owners,
                    name,
                    OwnerView { ordered: self.marked_synced(ov.ordered), ..ov },
                )
            } else {
                self.owners
            },
            ..self
        }
    }

    /// The pool after the owner `old`, which is known, took the name `new`,
    /// which is not: its pages name `new`, and its record stands under `new`.
    pub open spec fn renamed(self, old: Seq<char>, new: Seq<char>) -> EngineView {
        let ov = self.owner(old);
        EngineView {
            pages: Seq::new(
                self.pages.len(),
                |q: int|
                    if ov.pages.contains(q as i32) {
                        PageView { owner: new, ..self.pages[q] }
                    } else {
                        self.pages[q]
                    },
            ),
            owners: self.owners.update(crate::name_map::name_index(self.owners, old), (new, ov)),
            ..self
        }
    }

    /// Renaming an owner.  An unknown `old` changes nothing and fails.
    /// Otherwise what the pool held for `new` is released first, and then
    /// everything of `old` stands under `new`.
    pub open spec fn rename_owner(self, old: Seq<char>, new: Seq<char>) -> (EngineView, bool) {
        if !has_name(self.owners, old) {
            (self, false)
        } else if old == new {
            (self, true)
        } else {
            (self.remove_owner(new).renamed(old, new), true)
        }
    }
}

} // verus!
