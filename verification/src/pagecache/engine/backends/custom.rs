//! The page engine: a pool of pages with a free list, per-owner records and
//! a least-recently-used queue.

use vstd::prelude::*;
use std::collections::{HashMap, VecDeque};
use crate::block_map::{ascending, entries_of, hash_map_of, to_map, with_entry, BlockMap};
use crate::id_list::{add_id, find_id, remove_id, remove_id_from_queue, with_id, without};
use crate::name_map::{bind, has_name, lemma_bind, NameMap};
use crate::pagecache::config::Config;
use crate::pagecache::engine::backends::pool_wf::lemma_ids_fit;
use crate::pagecache::engine::backends::pool::{
    ends_run,
    entries_off_page,
    lists_page,
    starts_run,
    EngineView,
    FlushView,
    OrderedEntry,
    OwnerView,
    PlacementView,
};
use crate::pagecache::engine::page::{
    lemma_take_slot,
    no_owner,
    writes_view,
    BlockWrite,
    Page,
    PageView,
};
use crate::pagecache::engine::{AllocateOperationType, PageCacheEngine};
use crate::pagecache::{BlockId, Offsets, PageId};

verus! {

/// What the pool records of one owner.
pub struct OwnerPages {
    pub(crate) pages: Vec<PageId>,
    pub(crate) ordered: BlockMap<OrderedEntry>,
    pub(crate) free: Vec<PageId>,
}

impl View for OwnerPages {
    type V = OwnerView;

    open(crate) spec fn view(&self) -> OwnerView {
        OwnerView { pages: self.pages@, ordered: self.ordered@, free: self.free@ }
    }
}

/// One block to place in the cache.
pub struct BlockPlacement<'a> {
    pub block_id: BlockId,
    /// The page on which the caller believes the block to sit; `-1` if on none.
    pub page_id: PageId,
    pub data: &'a Vec<u8>,
    /// The byte of the block at which `data` starts.
    pub offset: i32,
}

impl<'a> View for BlockPlacement<'a> {
    type V = PlacementView;

    open spec fn view(&self) -> PlacementView {
        PlacementView {
            block_id: self.block_id,
            page_id: self.page_id,
            data: self.data@,
            offset: self.offset,
        }
    }
}

/// The views of a list of placements, in order.
pub open spec fn placements_view(rs: Seq<BlockPlacement>) -> Seq<PlacementView> {
    Seq::new(rs.len(), |i: int| rs[i]@)
}

/// The writes that save an evicted page to the file of its last owner.
pub struct PageFlush {
    pub owner: String,
    pub writes: Vec<BlockWrite>,
}

impl View for PageFlush {
    type V = FlushView;

    open spec fn view(&self) -> FlushView {
        FlushView { owner: self.owner@, writes: writes_view(self.writes@) }
    }
}

/// The views of a list of flushes, in order.
pub open spec fn flushes_view(fs: Seq<PageFlush>) -> Seq<FlushView> {
    Seq::new(fs.len(), |i: int| fs[i]@)
}

/// What placing a list of blocks gave.
pub struct AllocationOutcome {
    /// For each block, in the order asked, the page it is on, or `-1`.
    pub assigned: Vec<(BlockId, PageId)>,
    /// The dirty pages that were evicted, which have to be written out.
    pub flushes: Vec<PageFlush>,
}

/// The views of the pages of a pool, in order.
pub open spec fn pages_view(pages: Seq<Page>) -> Seq<PageView> {
    Seq::new(pages.len(), |i: int| pages[i]@)
}

/// The state of the engine.
pub struct CustomCacheEngineInner {
    pub(crate) search_index: Vec<Page>,
    pub(crate) free_pages: Vec<PageId>,
    pub(crate) owners: NameMap<OwnerPages>,
    pub(crate) lru_main_vector: VecDeque<PageId>,
}

impl CustomCacheEngineInner {
    /// The state holds no page, no owner and an empty queue.
    pub open(crate) spec fn is_empty(&self) -> bool {
        &&& self.search_index@.len() == 0
        &&& self.free_pages@.len() == 0
        &&& self.owners@.len() == 0
        &&& self.lru_main_vector@.len() == 0
    }

    /// How many pages the state holds.
    pub open(crate) spec fn page_count(&self) -> nat {
        self.search_index@.len()
    }

    /// The number of pages of the state.
    pub fn nr_pages(&self) -> (n: usize)
        ensures
            n == self.page_count(),
    {
        self.search_index.len()
    }

    /// A state without pages.
    pub fn new() -> (r: Self)
        ensures
            r.is_empty(),
            r.page_count() == 0,
    {
        CustomCacheEngineInner {
            search_index: Vec::new(),
            free_pages: Vec::new(),
            owners: NameMap::new(),
            lru_main_vector: VecDeque::new(),
        }
    }
}

pub struct CustomCacheEngine {
    pub(crate) config: Config,
    pub(crate) data: CustomCacheEngineInner,
}

impl View for CustomCacheEngine {
    type V = EngineView;

    open(crate) spec fn view(&self) -> EngineView {
        EngineView {
            block_size: self.config.io_block_size,
            page_size: self.config.cache_page_size,
            nr_pages: self.config.cache_nr_pages,
            lru_enabled: self.config.apply_lru_eviction,
            pages: pages_view(self.data.search_index@),
            free_pages: self.data.free_pages@,
            owners: self.data.owners@,
            lru: self.data.lru_main_vector@,
        }
    }
}

impl CustomCacheEngine {
    /// The pool is well formed: see [`EngineView::wf`].
    pub open(crate) spec fn wf(&self) -> bool {
        self@.wf()
    }

    /// A pool of `config.cache_nr_pages` empty pages, all free.
    pub fn new(config: Config) -> (r: Self)
        requires
            config.valid(),
        ensures
            r.wf(),
            r@ == EngineView::initial(
                config.io_block_size,
                config.cache_page_size,
                config.cache_nr_pages,
                config.apply_lru_eviction,
            ),
    {
        let mut data = CustomCacheEngineInner::new();
        let mut i: usize = 0;
        while i < config.cache_nr_pages
            invariant
                config.valid(),
                i <= config.cache_nr_pages,
                data.search_index@.len() == i,
                data.free_pages@.len() == i,
                data.owners@.len() == 0,
                data.lru_main_vector@.len() == 0,
                forall|j: int|
                    0 <= j < i ==> (#[trigger] data.search_index@[j])@ == PageView::fresh(
                        config.io_block_size,
                        config.cache_page_size,
                        no_owner(),
                    ),
                forall|j: int| 0 <= j < i ==> #[trigger] data.free_pages@[j] == j,
            decreases config.cache_nr_pages - i,
        {
            match Page::new(&config) {
                Ok(page) => {
                    data.search_index.push(page);
                    data.free_pages.push(i as i32);
                },
                Err(_) => {
                    vstd::pervasive::unreached::<()>();
                },
            }
            i += 1;
        }
        let engine = CustomCacheEngine { config, data };
        proof {
            EngineView::lemma_initial_wf(
                engine@.block_size,
                engine@.page_size,
                engine@.nr_pages,
                engine@.lru_enabled,
            );
            let init = EngineView::initial(
                engine@.block_size,
                engine@.page_size,
                engine@.nr_pages,
                engine@.lru_enabled,
            );
            assert(engine@.pages =~= init.pages);
            assert(engine@.free_pages =~= init.free_pages);
            assert(engine@.owners =~= init.owners);
            assert(engine@.lru =~= init.lru);
        }
        engine
    }

    /// The page `page_id`, if the pool has it.
    pub(crate) fn get_page_ptr_read(&self, page_id: PageId) -> (r: Option<&Page>)
        ensures
            match r {
                Some(p) => self@.valid_page(page_id) && p@ == self@.pages[page_id as int],
                None => !self@.valid_page(page_id),
            },
    {
        if 0 <= page_id && (page_id as usize) < self.data.search_index.len() {
            Some(&self.data.search_index[page_id as usize])
        } else {
            None
        }
    }

    /// Page `page_id` exists, belongs to `owner` and holds `block_id`.
    pub fn is_block_cached(&self, owner: &str, page_id: PageId, block_id: BlockId) -> (b: bool)
        requires
            self.wf(),
        ensures
            b == self@.is_cached(owner@, page_id, block_id),
    {
        match self.get_page_ptr_read(page_id) {
            Some(page) => {
                assert(self@.pages[page_id as int].wf());
                page.is_page_owner(owner) && page.contains_block(block_id)
            },
            None => false,
        }
    }

    /// The number of pages in use and the number of pages of the pool.
    pub fn get_engine_usage(&self) -> (r: (usize, usize))
        requires
            self.wf(),
        ensures
            r.0 == self@.nr_pages - self@.free_pages.len(),
            r.1 == self@.nr_pages,
            r.0 <= r.1,
    {
        proof {
            lemma_ids_fit(
                self@.free_pages,
                self@.nr_pages as int,
            );
        }
        (self.config.cache_nr_pages - self.data.free_pages.len(), self.config.cache_nr_pages)
    }

    /// Moves `p` to the front of the queue after a read.
    pub(crate) fn apply_lru_after_page_visitation_on_read(&mut self, p: PageId)
        requires
            old(self).wf(),
            old(self)@.valid_page(p),
            !old(self)@.free_pages.contains(p),
        ensures
            final(self).wf(),
            final(self)@ == old(self)@.visit_on_read(p),
    {
        proof {
            self@.lemma_visit_wf(p);
        }
        if self.config.apply_lru_eviction {
            remove_id_from_queue(&mut self.data.lru_main_vector, p);
            self.data.lru_main_vector.push_front(p);
        }
    }

    /// Moves `p` to the front of the queue after a write; a queue longer
    /// than the pool loses its tail.
    pub(crate) fn apply_lru_after_page_visitation_on_write(&mut self, p: PageId)
        requires
            old(self).wf(),
            old(self)@.valid_page(p),
            !old(self)@.free_pages.contains(p),
        ensures
            final(self).wf(),
            final(self)@ == old(self)@.visit_on_write(p),
    {
        proof {
            self@.lemma_visit_wf(p);
        }
        if self.config.apply_lru_eviction {
            remove_id_from_queue(&mut self.data.lru_main_vector, p);
            self.data.lru_main_vector.push_front(p);
            if self.data.lru_main_vector.len() > self.config.cache_nr_pages {
                self.data.lru_main_vector.pop_back();
            }
        }
    }
}

impl CustomCacheEngine {
    /// The entries of `ordered` that are not on page `p`.
    fn entries_off(ordered: &BlockMap<OrderedEntry>, p: PageId) -> (r: BlockMap<OrderedEntry>)
        ensures
            r@ == entries_off_page(ordered@, p),
    {
        let mut kept: Vec<(BlockId, OrderedEntry)> = Vec::new();
        let mut i: usize = 0;
        assert(ordered@.take(0) =~= Seq::empty());
        while i < ordered.len()
            invariant
                i <= ordered@.len(),
                kept@ == entries_off_page(ordered@.take(i as int), p),
            decreases ordered@.len() - i,
        {
            let k = ordered.key_at(i);
            let e = *ordered.value_at(i);
            assert(ordered@.take(i + 1).drop_last() =~= ordered@.take(i as int));
            assert(ordered@.take(i + 1).last() == ordered@[i as int]);
            if e.page_id != p {
                kept.push((k, e));
            }
            i += 1;
        }
        assert(ordered@.take(ordered@.len() as int) =~= ordered@);
        BlockMap { entries: kept }
    }

    /// Page `p`, which is in use, goes back to the free pages.
    pub(crate) fn release_page(&mut self, p: PageId)
        requires
            old(self).wf(),
            old(self)@.valid_page(p),
            !old(self)@.free_pages.contains(p),
        ensures
            final(self).wf(),
            final(self)@ == old(self)@.release_page(p),
    {
        let ghost s = self@;
        let ghost name_v = s.pages[p as int].owner;
        let ghost ov = s.owner(name_v);
        proof {
            s.lemma_release_page_wf(p);
            s.lemma_page_owner(p);
            s.lemma_owner_record(name_v);
        }
        let name = self.data.search_index[p as usize].get_page_owner();
        let idx = match self.data.owners.index_of(name.as_str()) {
            Some(i) => i,
            None => vstd::pervasive::unreached(),
        };
        assert(self.data.owners@[idx as int].1 == ov);
        remove_id(&mut self.data.owners.entries[idx].1.pages, p);
        remove_id(&mut self.data.owners.entries[idx].1.free, p);
        let kept = Self::entries_off(&self.data.owners.entries[idx].1.ordered, p);
        self.data.owners.entries[idx].1.ordered = kept;
        let ghost left = OwnerView {
            pages: without(ov.pages, p),
            ordered: entries_off_page(ov.ordered, p),
            free: without(ov.free, p),
        };
        assert(self.data.owners@ =~= s.owners.update(idx as int, (name_v, left)));
        if self.data.owners.entries[idx].1.pages.len() == 0 {
            self.data.owners.entries.remove(idx);
            assert(self.data.owners@ =~= s.owners.remove(idx as int));
        }
        self.data.search_index[p as usize].reset();
        self.data.search_index[p as usize].change_owner("none".to_owned());
        self.data.free_pages.push(p);
        remove_id_from_queue(&mut self.data.lru_main_vector, p);
        assert(self@.pages =~= s.release_page(p).pages);
    }

    /// The free page on top of the stack goes to `owner`.
    pub(crate) fn claim_free_page(&mut self, owner: &str) -> (p: PageId)
        requires
            old(self).wf(),
            old(self)@.free_pages.len() > 0,
        ensures
            final(self).wf(),
            final(self)@ == old(self)@.claim_free_page(owner@),
            p == old(self)@.free_pages.last(),
    {
        let ghost s = self@;
        let ghost ov = s.owner(owner@);
        proof {
            s.lemma_claim_free_page_wf(owner@);
            if has_name(s.owners, owner@) {
                s.lemma_owner_record(owner@);
            }
        }
        let p = match self.data.free_pages.pop() {
            Some(p) => p,
            None => vstd::pervasive::unreached(),
        };
        self.data.search_index[p as usize].change_owner(owner.to_owned());
        let ghost more = OwnerView { pages: ov.pages.push(p), free: ov.free.push(p), ..ov };
        match self.data.owners.index_of(owner) {
            Some(idx) => {
                self.data.owners.entries[idx].1.pages.push(p);
                self.data.owners.entries[idx].1.free.push(p);
                assert(self.data.owners@ =~= s.owners.update(idx as int, (owner@, more)));
            },
            None => {
                let mut record = OwnerPages {
                    pages: Vec::new(),
                    ordered: BlockMap::new(),
                    free: Vec::new(),
                };
                record.pages.push(p);
                record.free.push(p);
                assert(record@.pages =~= more.pages);
                assert(record@.free =~= more.free);
                self.data.owners.entries.push((owner.to_owned(), record));
                assert(self.data.owners@ =~= s.owners.push((owner@, more)));
            },
        }
        assert(self.data.owners@ == bind(s.owners, owner@, more));
        if self.config.apply_lru_eviction {
            remove_id_from_queue(&mut self.data.lru_main_vector, p);
            self.data.lru_main_vector.push_front(p);
            if self.data.lru_main_vector.len() > self.config.cache_nr_pages {
                self.data.lru_main_vector.pop_back();
            }
        }
        assert(self@.pages =~= s.claim_free_page(owner@).pages);
        assert(self@.free_pages =~= s.claim_free_page(owner@).free_pages);
        assert(self@.lru =~= s.claim_free_page(owner@).lru);
        p
    }

    /// A page with room for `owner`: from the owner's own stack, else from
    /// the free pages, else, with eviction on, the least recently used page,
    /// whose content is handed back for saving if it is dirty.  `-1` if
    /// there is none.
    pub(crate) fn get_next_free_page(&mut self, owner: &str) -> (r: (PageId, Option<PageFlush>))
        requires
            old(self).wf(),
        ensures
            final(self).wf(),
            final(self)@ == old(self)@.next_free_page(owner@).0,
            r.0 == old(self)@.next_free_page(owner@).1,
            match r.1 {
                Some(f) => old(self)@.next_free_page(owner@).2 == Some(f@),
                None => old(self)@.next_free_page(owner@).2.is_none(),
            },
    {
        let ghost s = self@;
        proof {
            s.lemma_next_free_page_wf(owner@);
            if has_name(s.owners, owner@) {
                s.lemma_owner_record(owner@);
            }
        }
        match self.data.owners.index_of(owner) {
            Some(idx) => {
                let n = self.data.owners.entries[idx].1.free.len();
                if n > 0 {
                    let p = self.data.owners.entries[idx].1.free[n - 1];
                    assert(s.owner(owner@).free.last() == p);
                    self.apply_lru_after_page_visitation_on_write(p);
                    return (p, None);
                }
            },
            None => {},
        }
        assert(s.owner(owner@).free.len() == 0);
        if self.data.free_pages.len() > 0 {
            let p = self.claim_free_page(owner);
            return (p, None);
        }
        if self.config.apply_lru_eviction {
            let n = self.data.lru_main_vector.len();
            if n > 0 {
                let victim = self.data.lru_main_vector[n - 1];
                assert(s.valid_page(s.lru[n - 1]));
                assert(s.pages[victim as int].wf());
                let page = &self.data.search_index[victim as usize];
                let flush = if page.is_page_dirty() {
                    Some(PageFlush { owner: page.get_page_owner(), writes: page.sync_data() })
                } else {
                    None
                };
                proof {
                    s.lemma_release_page_wf(victim);
                }
                self.release_page(victim);
                let p = self.claim_free_page(owner);
                return (p, flush);
            }
        }
        (-1, None)
    }

    /// Brings the records of the owner at index `idx` up to date with a
    /// block that was placed on page `p`: the block is listed on `p` as not
    /// flushed, and `p` is on the stack of pages with room exactly if it has room.
    pub(crate) fn update_owner_pages(
        &mut self,
        idx: usize,
        p: PageId,
        block_id: BlockId,
        block_offsets_inside_page: Offsets,
        has_room: bool,
    )
        requires
            idx < old(self).data.owners@.len(),
            ascending(old(self).data.owners@[idx as int].1.ordered),
            old(self).data.owners@[idx as int].1.free.no_duplicates(),
        ensures
            final(self).data.owners@ == old(self).data.owners@.update(
                idx as int,
                (
                    old(self).data.owners@[idx as int].0,
                    OwnerView {
                        ordered: with_entry(
                            old(self).data.owners@[idx as int].1.ordered,
                            block_id,
                            OrderedEntry {
                                page_id: p,
                                offsets: block_offsets_inside_page,
                                synced: false,
                            },
                        ),
                        free: if has_room {
                            with_id(old(self).data.owners@[idx as int].1.free, p)
                        } else {
                            without(old(self).data.owners@[idx as int].1.free, p)
                        },
                        ..old(self).data.owners@[idx as int].1
                    },
                ),
            ),
            final(self).data.search_index == old(self).data.search_index,
            final(self).data.free_pages == old(self).data.free_pages,
            final(self).data.lru_main_vector == old(self).data.lru_main_vector,
            final(self).config == old(self).config,
    {
        self.data.owners.entries[idx].1.ordered.insert(
            block_id,
            OrderedEntry { page_id: p, offsets: block_offsets_inside_page, synced: false },
        );
        if has_room {
            add_id(&mut self.data.owners.entries[idx].1.free, p);
        } else {
            remove_id(&mut self.data.owners.entries[idx].1.free, p);
        }
        assert(self.data.owners@ =~= old(self).data.owners@.update(
            idx as int,
            (
                old(self).data.owners@[idx as int].0,
                OwnerView {
                    ordered: with_entry(
                        old(self).data.owners@[idx as int].1.ordered,
                        block_id,
                        OrderedEntry {
                            page_id: p,
                            offsets: block_offsets_inside_page,
                            synced: false,
                        },
                    ),
                    free: if has_room {
                        with_id(old(self).data.owners@[idx as int].1.free, p)
                    } else {
                        without(old(self).data.owners@[idx as int].1.free, p)
                    },
                    ..old(self).data.owners@[idx as int].1
                },
            ),
        ));
    }

    /// Places `data` in block `block_id` on page `p` of `owner`.
    pub(crate) fn place_block(
        &mut self,
        owner: &str,
        p: PageId,
        block_id: BlockId,
        data: &Vec<u8>,
        offset: i32,
        is_write: bool,
    )
        requires
            old(self).wf(),
            old(self)@.valid_page(p),
            !old(self)@.free_pages.contains(p),
            old(self)@.pages[p as int].owner == owner@,
            block_id >= 0,
            0 <= offset,
            offset + data@.len() <= old(self)@.block_size,
            old(self)@.pages[p as int].contains(block_id) || old(self)@.pages[p as int].free_slots.len()
                > 0,
        ensures
            final(self).wf(),
            final(self)@ == old(self)@.place_block(owner@, p, block_id, data@, offset, is_write),
    {
        let ghost s = self@;
        let ghost old_page = s.pages[p as int];
        proof {
            s.lemma_place_block_wf(owner@, p, block_id, data@, offset, is_write);
            s.lemma_page_owner(p);
            s.lemma_owner_record(owner@);
            if !old_page.contains(block_id) {
                lemma_take_slot(old_page, block_id);
            }
        }
        assert(old_page.wf());
        if self.data.search_index[p as usize].contains_block(block_id) {
            let _ = self.data.search_index[p as usize].update_block_data(
                block_id,
                data,
                offset as usize,
            );
        } else {
            let was_dirty = self.data.search_index[p as usize].is_page_dirty();
            let _ = self.data.search_index[p as usize].get_allocate_free_offset(block_id);
            let _ = self.data.search_index[p as usize].update_block_data(
                block_id,
                data,
                offset as usize,
            );
            if !was_dirty && !is_write {
                self.data.search_index[p as usize].set_page_as_dirty(false);
            }
        }
        let ghost page = EngineView::page_with_block(old_page, block_id, data@, offset, is_write);
        assert(self.data.search_index@[p as int]@ == page);
        let offsets = self.data.search_index[p as usize].get_block_offsets(block_id);
        let has_room = self.data.search_index[p as usize].has_free_space();
        let idx = match self.data.owners.index_of(owner) {
            Some(i) => i,
            None => vstd::pervasive::unreached(),
        };
        assert(self.data.owners@[idx as int].1 == s.owner(owner@));
        self.update_owner_pages(idx, p, block_id, offsets, has_room);
        assert(self@.pages =~= s.place_block(owner@, p, block_id, data@, offset, is_write).pages);
    }

    /// Places one block for `owner`: see [`EngineView::allocate_one`].
    pub fn allocate_block(
        &mut self,
        owner: &str,
        request: &BlockPlacement,
        operation_type: AllocateOperationType,
    ) -> (r: (PageId, Option<PageFlush>))
        requires
            old(self).wf(),
        ensures
            final(self).wf(),
            final(self)@ == old(self)@.allocate_one(
                owner@,
                request@,
                operation_type == AllocateOperationType::OpWrite,
            ).0,
            r.0 == old(self)@.allocate_one(
                owner@,
                request@,
                operation_type == AllocateOperationType::OpWrite,
            ).1,
            match r.1 {
                Some(f) => old(self)@.allocate_one(
                    owner@,
                    request@,
                    operation_type == AllocateOperationType::OpWrite,
                ).2 == Some(f@),
                None => old(self)@.allocate_one(
                    owner@,
                    request@,
                    operation_type == AllocateOperationType::OpWrite,
                ).2.is_none(),
            },
    {
        let ghost s = self@;
        let is_write = match operation_type {
            AllocateOperationType::OpWrite => true,
            _ => false,
        };
        proof {
            s.lemma_allocate_one_wf(owner@, request@, is_write);
            s.lemma_next_free_page_wf(owner@);
        }
        if request.block_id < 0 || request.offset < 0 || request.offset as usize
            > self.config.io_block_size || request.data.len() > self.config.io_block_size
            - request.offset as usize {
            return (-1, None);
        }
        if self.is_block_cached(owner, request.page_id, request.block_id) {
            proof {
                if s.free_pages.contains(request.page_id) {
                    s.lemma_free_page_unlisted(request.page_id);
                }
            }
            self.place_block(
                owner,
                request.page_id,
                request.block_id,
                request.data,
                request.offset,
                is_write,
            );
            return (request.page_id, None);
        }
        let (p, flush) = self.get_next_free_page(owner);
        if p < 0 {
            return (-1, None);
        }
        self.place_block(owner, p, request.block_id, request.data, request.offset, is_write);
        (p, flush)
    }

    /// Places the blocks of `requests` for `owner`, one after the other in
    /// the order of the list.
    pub fn allocate_blocks_in_order(
        &mut self,
        owner: &str,
        requests: &Vec<BlockPlacement>,
        operation_type: AllocateOperationType,
    ) -> (r: AllocationOutcome)
        requires
            old(self).wf(),
        ensures
            final(self).wf(),
            final(self)@ == old(self)@.allocate_all(
                owner@,
                placements_view(requests@),
                operation_type == AllocateOperationType::OpWrite,
            ).0,
            r.assigned@ == old(self)@.allocate_all(
                owner@,
                placements_view(requests@),
                operation_type == AllocateOperationType::OpWrite,
            ).1,
            flushes_view(r.flushes@) == old(self)@.allocate_all(
                owner@,
                placements_view(requests@),
                operation_type == AllocateOperationType::OpWrite,
            ).2,
    {
        let ghost s = self@;
        let ghost is_write = operation_type == AllocateOperationType::OpWrite;
        let ghost rs = placements_view(requests@);
        let mut assigned: Vec<(BlockId, PageId)> = Vec::new();
        let mut flushes: Vec<PageFlush> = Vec::new();
        let mut i: usize = 0;
        assert(rs.take(0) =~= Seq::empty());
        assert(flushes_view(flushes@) =~= Seq::empty());
        while i < requests.len()
            invariant
                i <= requests@.len(),
                rs == placements_view(requests@),
                is_write == (operation_type == AllocateOperationType::OpWrite),
                self.wf(),
                self@ == s.allocate_all(owner@, rs.take(i as int), is_write).0,
                assigned@ == s.allocate_all(owner@, rs.take(i as int), is_write).1,
                flushes_view(flushes@) == s.allocate_all(owner@, rs.take(i as int), is_write).2,
            decreases requests@.len() - i,
        {
            let ghost before = flushes_view(flushes@);
            let (p, flush) = self.allocate_block(owner, &requests[i], operation_type);
            assigned.push((requests[i].block_id, p));
            match flush {
                Some(f) => {
                    flushes.push(f);
                    assert(flushes_view(flushes@) =~= before.push(f@));
                },
                None => {},
            }
            proof {
                assert(rs.take(i + 1).drop_last() =~= rs.take(i as int));
                assert(rs.take(i + 1).last() == requests@[i as int]@);
            }
            i += 1;
        }
        assert(rs.take(requests@.len() as int) =~= rs);
        AllocationOutcome { assigned, flushes }
    }
}

/// One block to read: the page on which the caller believes it to sit, and
/// the last byte of the block that is wanted.
#[derive(Clone, Copy, Debug)]
pub struct BlockRead {
    pub block_id: BlockId,
    pub page_id: PageId,
    pub read_to_max_index: i32,
}

impl View for BlockRead {
    type V = (BlockId, PageId, i32);

    open spec fn view(&self) -> (BlockId, PageId, i32) {
        (self.block_id, self.page_id, self.read_to_max_index)
    }
}

/// The views of a list of reads, in order.
pub open spec fn reads_view(rs: Seq<BlockRead>) -> Seq<(BlockId, PageId, i32)> {
    Seq::new(rs.len(), |i: int| rs[i]@)
}

/// What reading one block gave: whether it was cached, and its bytes if it was.
pub struct BlockData {
    pub block_id: BlockId,
    pub hit: bool,
    pub data: Vec<u8>,
}

impl View for BlockData {
    type V = (BlockId, bool, Seq<u8>);

    open spec fn view(&self) -> (BlockId, bool, Seq<u8>) {
        (self.block_id, self.hit, self.data@)
    }
}

/// The views of a list of blocks read, in order.
pub open spec fn data_view(ds: Seq<BlockData>) -> Seq<(BlockId, bool, Seq<u8>)> {
    Seq::new(ds.len(), |i: int| ds[i]@)
}

impl CustomCacheEngine {
    /// Reads bytes `0` to `request.read_to_max_index` of one block: see
    /// [`EngineView::read_one`].
    pub fn get_block(&mut self, owner: &str, request: BlockRead) -> (r: BlockData)
        requires
            old(self).wf(),
        ensures
            final(self).wf(),
            final(self)@ == old(self)@.read_one(
                owner@,
                request.block_id,
                request.page_id,
                request.read_to_max_index,
            ).0,
            r.block_id == request.block_id,
            r.hit == old(self)@.read_one(
                owner@,
                request.block_id,
                request.page_id,
                request.read_to_max_index,
            ).1,
            r.data@ == old(self)@.read_one(
                owner@,
                request.block_id,
                request.page_id,
                request.read_to_max_index,
            ).2,
    {
        let ghost s = self@;
        proof {
            s.lemma_read_one_wf(
                owner@,
                request.block_id,
                request.page_id,
                request.read_to_max_index,
            );
        }
        if !self.is_block_cached(owner, request.page_id, request.block_id)
            || request.read_to_max_index < 0 || request.read_to_max_index as usize
            >= self.config.io_block_size {
            return BlockData { block_id: request.block_id, hit: false, data: Vec::new() };
        }
        proof {
            s.lemma_cached_in_use(owner@, request.page_id, request.block_id);
        }
        let page = &self.data.search_index[request.page_id as usize];
        let count = request.read_to_max_index as usize + 1;
        let mut data: Vec<u8> = vec![0u8; count];
        let lo = page.get_block_offsets(request.block_id).0 as usize;
        let ghost zeros = data@;
        let res = page.get_block_data(request.block_id, &mut data, lo + (count - 1));
        assert(res.is_ok());
        assert(data@ =~= page@.data.subrange(lo as int, lo + count));
        self.apply_lru_after_page_visitation_on_read(request.page_id);
        BlockData { block_id: request.block_id, hit: true, data }
    }

    /// Reads the blocks of `requests` for `owner`, one after the other in
    /// the order of the list.
    pub fn get_blocks(&mut self, owner: &str, requests: &Vec<BlockRead>) -> (r: Vec<BlockData>)
        requires
            old(self).wf(),
        ensures
            final(self).wf(),
            final(self)@ == old(self)@.read_all(owner@, reads_view(requests@)).0,
            data_view(r@) == old(self)@.read_all(owner@, reads_view(requests@)).1,
    {
        let ghost s = self@;
        let ghost rs = reads_view(requests@);
        let mut out: Vec<BlockData> = Vec::new();
        let mut i: usize = 0;
        assert(rs.take(0) =~= Seq::empty());
        assert(data_view(out@) =~= Seq::empty());
        while i < requests.len()
            invariant
                i <= requests@.len(),
                rs == reads_view(requests@),
                self.wf(),
                out@.len() == i,
                self@ == s.read_all(owner@, rs.take(i as int)).0,
                data_view(out@) == s.read_all(owner@, rs.take(i as int)).1,
            decreases requests@.len() - i,
        {
            let ghost before = data_view(out@);
            let d = self.get_block(owner, requests[i]);
            out.push(d);
            proof {
                assert(rs.take(i + 1).drop_last() =~= rs.take(i as int));
                assert(rs.take(i + 1).last() == requests@[i as int]@);
                assert(data_view(out@) =~= before.push(out@[i as int]@));
            }
            i += 1;
        }
        assert(rs.take(requests@.len() as int) =~= rs);
        out
    }

    /// Raises the mark of `block_id` on page `page_id` to byte `offset` of
    /// the block, if the page belongs to `owner`.
    pub fn make_block_readable_to_offset(
        &mut self,
        owner: &str,
        page_id: PageId,
        block_id: BlockId,
        offset: i32,
    )
        requires
            old(self).wf(),
        ensures
            final(self).wf(),
            final(self)@ == old(self)@.mark_readable(owner@, page_id, block_id, offset),
    {
        let ghost s = self@;
        proof {
            s.lemma_mark_readable_wf(owner@, page_id, block_id, offset);
        }
        if 0 <= page_id && (page_id as usize) < self.data.search_index.len() {
            assert(s.pages[page_id as int].wf());
            if self.data.search_index[page_id as usize].is_page_owner(owner) {
                self.data.search_index[page_id as usize].make_block_readable_to(block_id, offset);
                assert(self@.pages =~= s.mark_readable(owner@, page_id, block_id, offset).pages);
            }
        }
    }

    /// Releases every page of `owner` and forgets the owner.  Always `true`.
    pub fn remove_cached_blocks(&mut self, owner: &str) -> (b: bool)
        requires
            old(self).wf(),
        ensures
            final(self).wf(),
            final(self)@ == old(self)@.remove_owner(owner@),
            b,
    {
        let ghost s = self@;
        proof {
            s.lemma_remove_owner_wf(owner@);
            if has_name(s.owners, owner@) {
                s.lemma_owner_record(owner@);
            }
        }
        let pages: Vec<PageId> = match self.data.owners.get(owner) {
            Some(record) => record.pages.clone(),
            None => Vec::new(),
        };
        assert(pages@ =~= s.owner(owner@).pages);
        let mut i: usize = 0;
        assert(pages@.take(0) =~= Seq::empty());
        while i < pages.len()
            invariant
                i <= pages@.len(),
                s.wf(),
                pages@ == s.owner(owner@).pages,
                pages@.no_duplicates(),
                forall|j: int|
                    0 <= j < pages@.len() ==> s.valid_page(#[trigger] pages@[j])
                        && !s.free_pages.contains(pages@[j]),
                self.wf(),
                self@ == s.release_all(pages@.take(i as int)),
            decreases pages@.len() - i,
        {
            proof {
                let done = pages@.take(i as int);
                assert forall|j: int| 0 <= j < done.len() implies s.valid_page(#[trigger] done[j])
                    && !s.free_pages.contains(done[j]) by {
                    assert(done[j] == pages@[j]);
                }
                s.lemma_release_all_wf(done);
                let p = pages@[i as int];
                if self@.free_pages.contains(p) {
                    let k = self@.free_pages.index_of(p);
                    if k < s.free_pages.len() {
                        assert(s.free_pages[k] == p);
                        assert(s.free_pages.contains(p));
                    } else {
                        assert(done[k - s.free_pages.len()] == p);
                    }
                }
                assert(pages@.take(i + 1).drop_last() =~= done);
                assert(pages@.take(i + 1).last() == p);
            }
            self.release_page(pages[i]);
            i += 1;
        }
        assert(pages@.take(pages@.len() as int) =~= pages@);
        true
    }

    /// For each block of `owner` that was not flushed since it was placed:
    /// the block, its bytes that hold data (`0` to its mark), and its page;
    /// in ascending order of block id.
    pub fn get_dirty_blocks_info(&self, owner: &str) -> (r: Vec<(BlockId, Offsets, PageId)>)
        requires
            self.wf(),
        ensures
            r@ == self@.unsynced_info(self@.owner(owner@).ordered),
    {
        let mut res: Vec<(BlockId, Offsets, PageId)> = Vec::new();
        proof {
            if has_name(self@.owners, owner@) {
                self@.lemma_owner_record(owner@);
            }
        }
        match self.data.owners.get(owner) {
            Some(record) => {
                let ghost ordered = record.ordered@;
                assert(ordered == self@.owner(owner@).ordered);
                let mut i: usize = 0;
                assert(ordered.take(0) =~= Seq::empty());
                while i < record.ordered.len()
                    invariant
                        i <= ordered.len(),
                        ordered == record.ordered@,
                        self.wf(),
                        self@.owner_ok(owner@, self@.owner(owner@)),
                        ordered == self@.owner(owner@).ordered,
                        res@ == self@.unsynced_info(ordered.take(i as int)),
                    decreases ordered.len() - i,
                {
                    let block_id = record.ordered.key_at(i);
                    let e = *record.ordered.value_at(i);
                    proof {
                        assert(ordered.take(i + 1).drop_last() =~= ordered.take(i as int));
                        assert(ordered.take(i + 1).last() == ordered[i as int]);
                        assert(self@.valid_page(ordered[i as int].1.page_id));
                        assert(self@.pages[e.page_id as int].wf());
                    }
                    if !e.synced {
                        let mark = self.data.search_index[e.page_id as usize].allocated_block_ids.get_readable_to(
                        block_id);
                        res.push((block_id, (0, mark), e.page_id));
                    }
                    i += 1;
                }
                assert(ordered.take(ordered.len() as int) =~= ordered);
            },
            None => {},
        }
        res
    }

    /// Truncates one block of `owner`: see [`EngineView::truncate_one`].
    pub(crate) fn truncate_cached_block(
        &mut self,
        owner: &str,
        block_id: BlockId,
        page_id: PageId,
        from_block_id: BlockId,
        index_inside_block: i32,
    )
        requires
            old(self).wf(),
        ensures
            final(self).wf(),
            final(self)@ == old(self)@.truncate_one(
                owner@,
                block_id,
                page_id,
                from_block_id,
                index_inside_block,
            ),
    {
        let ghost s = self@;
        proof {
            s.lemma_truncate_one_wf(owner@, block_id, page_id, from_block_id, index_inside_block);
        }
        if !(0 <= page_id && (page_id as usize) < self.data.search_index.len()) {
            return ;
        }
        assert(s.pages[page_id as int].wf());
        if !self.data.search_index[page_id as usize].is_page_owner(owner) {
            return ;
        }
        let in_use = !self.data.search_index[page_id as usize].allocated_block_ids.empty()
            || find_id(&self.data.free_pages, page_id).is_none();
        proof {
            if s.free_pages.contains(page_id) {
                s.lemma_free_page_unlisted(page_id);
            }
        }
        if !in_use {
            return ;
        }
        if block_id == from_block_id && index_inside_block > 0 {
            self.data.search_index[page_id as usize].truncate_block_readable_to(
                from_block_id,
                index_inside_block - 1,
            );
            self.data.search_index[page_id as usize].write_null_from(
                from_block_id,
                index_inside_block,
            );
            assert(self@.pages =~= s.truncate_one(
                owner@,
                block_id,
                page_id,
                from_block_id,
                index_inside_block,
            ).pages);
        } else {
            proof {
                s.lemma_forget_block_wf(owner@, page_id, block_id);
                s.lemma_page_owner(page_id);
                s.lemma_owner_record(owner@);
            }
            self.data.search_index[page_id as usize].remove_block(block_id);
            let idx = match self.data.owners.index_of(owner) {
                Some(i) => i,
                None => vstd::pervasive::unreached(),
            };
            let listed_here = match self.data.owners.entries[idx].1.ordered.get(block_id) {
                Some(e) => e.page_id == page_id,
                None => false,
            };
            if listed_here {
                self.data.owners.entries[idx].1.ordered.remove(block_id);
                assert(self.data.owners@ =~= s.forget_block(owner@, page_id, block_id).owners);
            }
            assert(self@.pages =~= s.forget_block(owner@, page_id, block_id).pages);
            assert(self@ == s.forget_block(owner@, page_id, block_id));
            if !self.data.search_index[page_id as usize].is_page_dirty() {
                self.release_page(page_id);
            }
        }
    }

    /// Truncates the blocks of `blocks_to_remove`, each `(block, page)`,
    /// one after the other in the order of the list.  Always `true`.
    pub fn truncate_cached_blocks_in_order(
        &mut self,
        owner: &str,
        blocks_to_remove: &Vec<(BlockId, PageId)>,
        from_block_id: BlockId,
        index_inside_block: i32,
    ) -> (b: bool)
        requires
            old(self).wf(),
        ensures
            final(self).wf(),
            final(self)@ == old(self)@.truncate_all(
                owner@,
                blocks_to_remove@,
                from_block_id,
                index_inside_block,
            ),
            b,
    {
        let ghost s = self@;
        let mut i: usize = 0;
        assert(blocks_to_remove@.take(0) =~= Seq::empty());
        while i < blocks_to_remove.len()
            invariant
                i <= blocks_to_remove@.len(),
                self.wf(),
                self@ == s.truncate_all(
                    owner@,
                    blocks_to_remove@.take(i as int),
                    from_block_id,
                    index_inside_block,
                ),
            decreases blocks_to_remove@.len() - i,
        {
            let (block_id, page_id) = blocks_to_remove[i];
            proof {
                assert(blocks_to_remove@.take(i + 1).drop_last() =~= blocks_to_remove@.take(
                    i as int,
                ));
                assert(blocks_to_remove@.take(i + 1).last() == blocks_to_remove@[i as int]);
            }
            self.truncate_cached_block(
                owner,
                block_id,
                page_id,
                from_block_id,
                index_inside_block,
            );
            i += 1;
        }
        assert(blocks_to_remove@.take(blocks_to_remove@.len() as int) =~= blocks_to_remove@);
        true
    }
}

/// What has to be done to the backing file of an owner to flush it: the
/// writes, in order, and then the length to which the file is cut.
pub struct FlushPlan {
    pub writes: Vec<BlockWrite>,
    pub truncate_to: u64,
}

impl CustomCacheEngine {
    /// The entries of the owner at index `idx` whose page is dirty.
    fn collect_dirty(&self, idx: usize) -> (r: Vec<(BlockId, OrderedEntry)>)
        requires
            idx < self.data.owners@.len(),
            forall|j: int|
                0 <= j < self.data.owners@[idx as int].1.ordered.len() ==> self@.valid_page(
                    (#[trigger] self.data.owners@[idx as int].1.ordered[j]).1.page_id,
                ),
        ensures
            r@ == self@.dirty_entries(self.data.owners@[idx as int].1.ordered),
    {
        let mut working: Vec<(BlockId, OrderedEntry)> = Vec::new();
        let ghost ordered = self.data.owners@[idx as int].1.ordered;
        let n = self.data.owners.entries[idx].1.ordered.len();
        let mut i: usize = 0;
        assert(ordered.take(0) =~= Seq::empty());
        while i < n
            invariant
                idx < self.data.owners@.len(),
                ordered == self.data.owners@[idx as int].1.ordered,
                ordered == self.data.owners.entries@[idx as int].1.ordered@,
                n == ordered.len(),
                i <= n,
                forall|j: int|
                    0 <= j < ordered.len() ==> self@.valid_page((#[trigger] ordered[j]).1.page_id),
                working@ == self@.dirty_entries(ordered.take(i as int)),
            decreases n - i,
        {
            let k = self.data.owners.entries[idx].1.ordered.key_at(i);
            let e = *self.data.owners.entries[idx].1.ordered.value_at(i);
            proof {
                assert(ordered.take(i + 1).drop_last() =~= ordered.take(i as int));
                assert(ordered.take(i + 1).last() == ordered[i as int]);
                assert(self@.valid_page(ordered[i as int].1.page_id));
            }
            if self.data.search_index[e.page_id as usize].is_page_dirty() {
                working.push((k, e));
            }
            i += 1;
        }
        assert(ordered.take(n as int) =~= ordered);
        working
    }

    /// The writes that flush the entries of `working`.
    fn build_writes(&self, working: &Vec<(BlockId, OrderedEntry)>) -> (r: Vec<BlockWrite>)
        requires
            self@.flushable(working@),
        ensures
            writes_view(r@) == self@.writes_upto(working@, working@.len() as int),
    {
        let mut writes: Vec<BlockWrite> = Vec::new();
        let block_size = self.config.io_block_size;
        let mut i: usize = 0;
        assert(writes_view(writes@) =~= Seq::empty());
        while i < working.len()
            invariant
                i <= working@.len(),
                self@.flushable(working@),
                block_size == self@.block_size,
                0 < block_size <= i32::MAX,
                i > 0 ==> writes@.len() > 0,
                writes_view(writes@) == self@.writes_upto(working@, i as int),
            decreases working@.len() - i,
        {
            let (k, e) = working[i];
            assert(working@[i as int] == (k, e));
            let page = &self.data.search_index[e.page_id as usize];
            let lo = e.offsets.0 as usize;
            let ends = i + 1 >= working.len() || k == 0x7fff_ffff || working[i + 1].0 != k + 1;
            let starts = i == 0 || working[i - 1].0 == 0x7fff_ffff || working[i - 1].0 + 1 != k;
            assert(ends == ends_run(working@, i as int));
            assert(starts == starts_run(
                working@,
                i as int,
            ));
            let count = if ends {
                page.allocated_block_ids.get_readable_to(k) as usize + 1
            } else {
                block_size
            };
            let mut chunk: Vec<u8> = Vec::new();
            let mut j: usize = 0;
            while j < count
                invariant
                    j <= count,
                    lo + count <= page.data.len(),
                    chunk@ == page.data@.subrange(lo as int, lo + j),
                decreases count - j,
            {
                chunk.push(page.data[lo + j]);
                j += 1;
                assert(chunk@ =~= page.data@.subrange(lo as int, lo + j));
            }
            assert(chunk@ == self@.entry_chunk(working@, i as int));
            let ghost before = writes_view(writes@);
            if starts {
                assert(k * block_size <= u64::MAX) by (nonlinear_arith)
                    requires
                        0 <= k <= i32::MAX,
                        0 < block_size <= i32::MAX,
                ;
                writes.push(BlockWrite { offset: k as u64 * block_size as u64, data: chunk });
                assert(writes_view(writes@) =~= before.push(
                    ((k * block_size) as u64, self@.entry_chunk(working@, i as int)),
                ));
            } else {
                let n = writes.len();
                writes[n - 1].data.append(&mut chunk);
                assert(writes_view(writes@) =~= before.drop_last().push(
                    (before.last().0, before.last().1 + self@.entry_chunk(working@, i as int)),
                ));
            }
            i += 1;
        }
        writes
    }

    /// Marks as flushed every entry of the owner at index `idx` whose page is dirty.
    fn mark_synced(&mut self, idx: usize)
        requires
            idx < old(self).data.owners@.len(),
            forall|j: int|
                0 <= j < old(self).data.owners@[idx as int].1.ordered.len() ==> old(
                    self,
                )@.valid_page((#[trigger] old(self).data.owners@[idx as int].1.ordered[j]).1.page_id),
        ensures
            final(self).data.owners@ == old(self).data.owners@.update(
                idx as int,
                (
                    old(self).data.owners@[idx as int].0,
                    OwnerView {
                        ordered: old(self)@.marked_synced(
                            old(self).data.owners@[idx as int].1.ordered,
                        ),
                        ..old(self).data.owners@[idx as int].1
                    },
                ),
            ),
            final(self).data.search_index == old(self).data.search_index,
            final(self).data.free_pages == old(self).data.free_pages,
            final(self).data.lru_main_vector == old(self).data.lru_main_vector,
            final(self).config == old(self).config,
    {
        let ghost s = self@;
        let ghost owners = self.data.owners@;
        let ghost ordered = owners[idx as int].1.ordered;
        let n = self.data.owners.entries[idx].1.ordered.len();
        let mut i: usize = 0;
        assert(self.data.owners@ =~= owners.update(
            idx as int,
            (
                owners[idx as int].0,
                OwnerView {
                    ordered: Seq::new(
                        ordered.len(),
                        |j: int|
                            if j < 0 {
                                s.marked_synced(ordered)[j]
                            } else {
                                ordered[j]
                            },
                    ),
                    ..owners[idx as int].1
                },
            ),
        )) by {
            let target = Seq::new(
                ordered.len(),
                |j: int|
                    if j < 0 {
                        s.marked_synced(ordered)[j]
                    } else {
                        ordered[j]
                    },
            );
            assert(target =~= ordered);
        }
        while i < n
            invariant
                idx < owners.len(),
                self.data.owners.entries@.len() == owners.len(),
                self.data.owners.entries@[idx as int].1.ordered@.len() == n,
                owners == old(self).data.owners@,
                ordered == owners[idx as int].1.ordered,
                s == old(self)@,
                n == ordered.len(),
                i <= n,
                forall|j: int| 0 <= j < ordered.len() ==> s.valid_page((#[trigger] ordered[j]).1.page_id),
                self.data.search_index == old(self).data.search_index,
                self.data.free_pages == old(self).data.free_pages,
                self.data.lru_main_vector == old(self).data.lru_main_vector,
                self.config == old(self).config,
                self.data.owners@ == owners.update(
                    idx as int,
                    (
                        owners[idx as int].0,
                        OwnerView {
                            ordered: Seq::new(
                                ordered.len(),
                                |j: int|
                                    if j < i {
                                        s.marked_synced(ordered)[j]
                                    } else {
                                        ordered[j]
                                    },
                            ),
                            ..owners[idx as int].1
                        },
                    ),
                ),
            decreases n - i,
        {
            let ghost before = self.data.owners@;
            assert(self.data.owners@[idx as int].1.ordered
                == self.data.owners.entries@[idx as int].1.ordered@);
            let p = self.data.owners.entries[idx].1.ordered.value_at(i).page_id;
            assert(p == ordered[i as int].1.page_id);
            assert(s.valid_page(ordered[i as int].1.page_id));
            assert(s.pages[p as int] == self.data.search_index@[p as int]@);
            let ghost row = self.data.owners.entries@[idx as int].1.ordered@;
            assert(row[i as int] == ordered[i as int]);
            if self.data.search_index[p as usize].is_page_dirty() {
                self.data.owners.entries[idx].1.ordered.entries[i].1.synced = true;
                assert(self.data.owners.entries@[idx as int].1.ordered@ =~= row.update(
                    i as int,
                    (ordered[i as int].0, OrderedEntry { synced: true, ..ordered[i as int].1 }),
                ));
            }
            assert(self.data.owners.entries@[idx as int].1.ordered@[i as int] == s.marked_synced(
                ordered,
            )[i as int]);
            i += 1;
            assert(self.data.owners@ =~= owners.update(
                idx as int,
                (
                    owners[idx as int].0,
                    OwnerView {
                        ordered: Seq::new(
                            ordered.len(),
                            |j: int|
                                if j < i {
                                    s.marked_synced(ordered)[j]
                                } else {
                                    ordered[j]
                                },
                        ),
                        ..owners[idx as int].1
                    },
                ),
            )) by {
                let target = Seq::new(
                    ordered.len(),
                    |j: int|
                        if j < i {
                            s.marked_synced(ordered)[j]
                        } else {
                            ordered[j]
                        },
                );
                let now = self.data.owners@[idx as int].1.ordered;
                assert(now == self.data.owners.entries@[idx as int].1.ordered@);
                assert(now.len() == target.len());
                assert forall|j: int| 0 <= j < now.len() implies now[j] == target[j] by {
                    if j != i - 1 {
                        assert(now[j] == row[j]);
                        assert(row[j] == before[idx as int].1.ordered[j]);
                    }
                }
                assert(now =~= target);
                let goal = owners.update(
                    idx as int,
                    (owners[idx as int].0, OwnerView { ordered: target, ..owners[idx as int].1 }),
                );
                assert(self.data.owners@.len() == goal.len());
                assert forall|k: int| 0 <= k < goal.len() implies self.data.owners@[k]
                    == goal[k] by {
                    if k != idx {
                        assert(self.data.owners@[k] == before[k]);
                    } else {
                        assert(self.data.owners@[k].0 == before[k].0);
                        assert(self.data.owners@[k].1.pages == before[k].1.pages);
                        assert(self.data.owners@[k].1.free == before[k].1.free);
                        assert(self.data.owners@[k].1.ordered == target);
                    }
                }
            }
        }
        proof {
            let target = Seq::new(
                ordered.len(),
                |j: int|
                    if j < n {
                        s.marked_synced(ordered)[j]
                    } else {
                        ordered[j]
                    },
            );
            assert(target =~= s.marked_synced(ordered));
        }
    }

    /// Cleans every page that holds an entry of the owner at index `idx`.
    fn clear_dirty(&mut self, idx: usize)
        requires
            idx < old(self).data.owners@.len(),
            old(self)@.pages_ok(),
            old(self)@.sizes_ok(),
            forall|j: int|
                0 <= j < old(self).data.owners@[idx as int].1.ordered.len() ==> old(
                    self,
                )@.valid_page((#[trigger] old(self).data.owners@[idx as int].1.ordered[j]).1.page_id),
        ensures
            final(self)@.pages == Seq::new(
                old(self)@.pages.len(),
                |q: int|
                    if lists_page(
                        old(self).data.owners@[idx as int].1.ordered,
                        q as i32,
                    ) {
                        PageView { dirty: false, ..old(self)@.pages[q] }
                    } else {
                        old(self)@.pages[q]
                    },
            ),
            final(self).data.owners == old(self).data.owners,
            final(self).data.free_pages == old(self).data.free_pages,
            final(self).data.lru_main_vector == old(self).data.lru_main_vector,
            final(self).config == old(self).config,
    {
        let ghost s = self@;
        let ghost ordered = self.data.owners@[idx as int].1.ordered;
        let n = self.data.owners.entries[idx].1.ordered.len();
        let mut i: usize = 0;
        assert(self@.pages =~= Seq::new(
            s.pages.len(),
            |q: int|
                if lists_page(
                    ordered.take(0),
                    q as i32,
                ) {
                    PageView { dirty: false, ..s.pages[q] }
                } else {
                    s.pages[q]
                },
        ));
        while i < n
            invariant
                idx < self.data.owners@.len(),
                idx < self.data.owners.entries@.len(),
                self.data.owners.entries@[idx as int].1.ordered@ == ordered,
                self.data.search_index@.len() == s.pages.len(),
                s == old(self)@,
                s.pages_ok(),
                s.sizes_ok(),
                ordered == old(self).data.owners@[idx as int].1.ordered,
                n == ordered.len(),
                i <= n,
                forall|j: int| 0 <= j < ordered.len() ==> s.valid_page((#[trigger] ordered[j]).1.page_id),
                self.data.owners == old(self).data.owners,
                self.data.free_pages == old(self).data.free_pages,
                self.data.lru_main_vector == old(self).data.lru_main_vector,
                self.config == old(self).config,
                self@.pages == Seq::new(
                    s.pages.len(),
                    |q: int|
                        if lists_page(
                            ordered.take(i as int),
                            q as i32,
                        ) {
                            PageView { dirty: false, ..s.pages[q] }
                        } else {
                            s.pages[q]
                        },
                ),
            decreases n - i,
        {
            let p = self.data.owners.entries[idx].1.ordered.value_at(i).page_id;
            assert(p == ordered[i as int].1.page_id);
            assert(s.valid_page(ordered[i as int].1.page_id));
            assert(s.pages[p as int].wf());
            assert(self@.pages[p as int].wf());
            assert(self.data.search_index@[p as int]@ == self@.pages[p as int]);
            let ghost before = self@.pages;
            self.data.search_index[p as usize].set_page_as_dirty(false);
            assert(self@.pages =~= before.update(
                p as int,
                PageView { dirty: false, ..before[p as int] },
            ));
            proof {
                let a = ordered.take(i as int);
                let b = ordered.take(i + 1);
                assert(b[i as int] == ordered[i as int]);
                assert forall|q: PageId|
                    lists_page(b, q) == (
                    lists_page(a, q) || q == p) by {
                    if lists_page(a, q) {
                        let j = choose|j: int| 0 <= j < a.len() && (#[trigger] a[j]).1.page_id == q;
                        assert(b[j] == a[j]);
                    }
                    if lists_page(b, q) && q != p {
                        let j = choose|j: int| 0 <= j < b.len() && (#[trigger] b[j]).1.page_id == q;
                        assert(a[j] == b[j]);
                    }
                }
                let target = Seq::new(
                    s.pages.len(),
                    |q: int|
                        if lists_page(b, q as i32) {
                            PageView { dirty: false, ..s.pages[q] }
                        } else {
                            s.pages[q]
                        },
                );
                assert forall|q: int| 0 <= q < s.pages.len() implies self@.pages[q]
                    == target[q] by {
                    let qq = q as i32;
                    assert(lists_page(b, qq) == (
                    lists_page(a, qq) || qq == p));
                    if q == p {
                        assert(self@.pages[q] == PageView { dirty: false, ..before[q] });
                    } else {
                        assert(self@.pages[q] == before[q]);
                    }
                }
                assert(self@.pages =~= target);
            }
            i += 1;
        }
        assert(ordered.take(n as int) =~= ordered);
    }

    /// Flushes `owner`: hands back the writes that carry its blocks on
    /// dirty pages to its backing file, and the length `size` to cut the
    /// file to afterwards.  Blocks go out in ascending order; consecutive
    /// blocks form one write, in which every block is whole but the last,
    /// which ends at its mark.  The pages flushed are clean afterwards and
    /// their blocks marked as flushed.
    pub fn sync_pages(&mut self, owner: &str, size: u32) -> (plan: FlushPlan)
        requires
            old(self).wf(),
        ensures
            final(self).wf(),
            final(self)@ == old(self)@.after_sync(owner@),
            writes_view(plan.writes@) == old(self)@.sync_writes(owner@),
            plan.truncate_to == size,
    {
        let ghost s = self@;
        proof {
            s.lemma_after_sync_wf(owner@);
        }
        let idx = match self.data.owners.index_of(owner) {
            Some(i) => i,
            None => {
                proof {
                    assert(s.after_sync(owner@).pages =~= s.pages);
                    assert(s.dirty_entries(s.owner(owner@).ordered) =~= Seq::empty());
                }
                let writes: Vec<BlockWrite> = Vec::new();
                assert(writes_view(writes@) =~= Seq::empty());
                return FlushPlan { writes, truncate_to: size as u64 };
            },
        };
        let ghost ov = s.owner(owner@);
        proof {
            s.lemma_owner_record(owner@);
            assert(self.data.owners@[idx as int].1 == ov);
            assert forall|j: int| 0 <= j < ov.ordered.len() implies s.valid_page(
                (#[trigger] ov.ordered[j]).1.page_id,
            ) by {}
        }
        let working = self.collect_dirty(idx);
        proof {
            s.lemma_flushable(owner@);
        }
        let writes = self.build_writes(&working);
        self.mark_synced(idx);
        let ghost marked = s.marked_synced(ov.ordered);
        proof {
            assert(self@.pages =~= s.pages);
            assert(self.data.owners@[idx as int].1.ordered == marked);
            assert forall|j: int| 0 <= j < marked.len() implies self@.valid_page(
                (#[trigger] marked[j]).1.page_id,
            ) by {
                assert(marked[j].1.page_id == ov.ordered[j].1.page_id);
            }
        }
        self.clear_dirty(idx);
        proof {
            lemma_bind(s.owners, owner@, OwnerView { ordered: marked, ..ov });
            assert(self@.owners == s.after_sync(owner@).owners);
            assert forall|q: PageId|
                lists_page(marked, q)
                    == lists_page(ov.ordered, q) by {
                if lists_page(marked, q) {
                    let j = choose|j: int|
                        0 <= j < marked.len() && (#[trigger] marked[j]).1.page_id == q;
                    assert(ov.ordered[j].1.page_id == q);
                }
                if lists_page(ov.ordered, q) {
                    let j = choose|j: int|
                        0 <= j < ov.ordered.len() && (#[trigger] ov.ordered[j]).1.page_id == q;
                    assert(marked[j].1.page_id == q);
                }
            }
            assert(self@.pages =~= s.after_sync(owner@).pages);
        }
        FlushPlan { writes, truncate_to: size as u64 }
    }

    /// Gives everything that `old_owner` holds to `new_owner`.  `false`,
    /// and no change, if the pool does not know `old_owner`.  What the pool
    /// held for `new_owner` is released first.
    pub fn rename_owner_pages(&mut self, old_owner: &str, new_owner: &str) -> (b: bool)
        requires
            old(self).wf(),
        ensures
            final(self).wf(),
            final(self)@ == old(self)@.rename_owner(old_owner@, new_owner@).0,
            b == old(self)@.rename_owner(old_owner@, new_owner@).1,
    {
        let ghost s = self@;
        proof {
            s.lemma_rename_owner_wf(old_owner@, new_owner@);
        }
        if !self.data.owners.contains_key(old_owner) {
            return false;
        }
        if old_owner.eq(new_owner) {
            return true;
        }
        self.remove_cached_blocks(new_owner);
        let ghost t = self@;
        let ghost ov = t.owner(old_owner@);
        proof {
            s.lemma_remove_owner_forgets(new_owner@, old_owner@);
            t.lemma_owner_record(old_owner@);
        }
        let idx = match self.data.owners.index_of(old_owner) {
            Some(i) => i,
            None => vstd::pervasive::unreached(),
        };
        assert(self.data.owners@[idx as int].1 == ov);
        let n = self.data.owners.entries[idx].1.pages.len();
        let mut i: usize = 0;
        assert(self@.pages =~= Seq::new(
            t.pages.len(),
            |q: int|
                if ov.pages.take(0).contains(q as i32) {
                    PageView { owner: new_owner@, ..t.pages[q] }
                } else {
                    t.pages[q]
                },
        ));
        while i < n
            invariant
                idx < self.data.owners@.len(),
                t.owner_ok(old_owner@, ov),
                ov.pages == self.data.owners.entries@[idx as int].1.pages@,
                n == ov.pages.len(),
                i <= n,
                idx < self.data.owners.entries@.len(),
                self.data.search_index@.len() == t.pages.len(),
                t.pages.len() <= i32::MAX,
                self.data.owners@ == t.owners,
                self.data.free_pages@ == t.free_pages,
                self.data.lru_main_vector@ == t.lru,
                self@.block_size == t.block_size,
                self@.page_size == t.page_size,
                self@.nr_pages == t.nr_pages,
                self@.lru_enabled == t.lru_enabled,
                self@.pages == Seq::new(
                    t.pages.len(),
                    |q: int|
                        if ov.pages.take(i as int).contains(q as i32) {
                            PageView { owner: new_owner@, ..t.pages[q] }
                        } else {
                            t.pages[q]
                        },
                ),
            decreases n - i,
        {
            let p = self.data.owners.entries[idx].1.pages[i];
            assert(t.valid_page(ov.pages[i as int]));
            let ghost before = self@.pages;
            self.data.search_index[p as usize].change_owner(new_owner.to_owned());
            assert(self@.pages =~= before.update(
                p as int,
                PageView { owner: new_owner@, ..before[p as int] },
            ));
            proof {
                let a = ov.pages.take(i as int);
                let b = ov.pages.take(i + 1);
                assert(b[i as int] == p);
                assert forall|q: PageId| b.contains(q) == (a.contains(q) || q == p) by {
                    if a.contains(q) {
                        let j = a.index_of(q);
                        assert(b[j] == q);
                    }
                    if b.contains(q) && q != p {
                        let j = b.index_of(q);
                        assert(a[j] == q);
                    }
                }
                let target = Seq::new(
                    t.pages.len(),
                    |q: int|
                        if b.contains(q as i32) {
                            PageView { owner: new_owner@, ..t.pages[q] }
                        } else {
                            t.pages[q]
                        },
                );
                assert forall|q: int| 0 <= q < t.pages.len() implies self@.pages[q]
                    == target[q] by {
                    let qq = q as i32;
                    assert(b.contains(qq) == (a.contains(qq) || qq == p));
                    if q == p {
                        assert(self@.pages[q] == PageView { owner: new_owner@, ..before[q] });
                    } else {
                        assert(self@.pages[q] == before[q]);
                    }
                }
                assert(self@.pages =~= target);
            }
            i += 1;
        }
        assert(ov.pages.take(n as int) =~= ov.pages);
        self.data.owners.entries[idx].0 = new_owner.to_owned();
        assert(self.data.owners@ =~= t.owners.update(idx as int, (new_owner@, ov)));
        true
    }
}

/// The placements that a map of blocks asks for, its entries being
/// `entries`: each block with the page on which the caller believes it to
/// sit, its bytes, and the byte of the block at which they start.
pub open spec fn placements_of(entries: Seq<(BlockId, (PageId, &Vec<u8>, i32))>) -> Seq<PlacementView> {
    Seq::new(
        entries.len(),
        |i: int|
            PlacementView {
                block_id: entries[i].0,
                page_id: entries[i].1.0,
                data: entries[i].1.1@,
                offset: entries[i].1.2,
            },
    )
}

/// What placing a map of blocks gave.
pub struct MappedAllocation {
    /// For each block the page it is on, or `-1`.
    pub assigned: HashMap<BlockId, PageId>,
    /// The dirty pages that were evicted, which have to be written out.
    pub flushes: Vec<PageFlush>,
}

impl CustomCacheEngine {
    /// Places the blocks of `block_data_mapping` for `owner`, one after the
    /// other in ascending order of block id: see
    /// [`CustomCacheEngine::allocate_blocks_in_order`].
    pub fn allocate_blocks(
        &mut self,
        owner: &str,
        block_data_mapping: &HashMap<BlockId, (PageId, &Vec<u8>, i32)>,
        operation_type: AllocateOperationType,
    ) -> (r: MappedAllocation)
        requires
            old(self).wf(),
        ensures
            final(self).wf(),
            final(self)@ == old(self)@.allocate_all(
                owner@,
                placements_of(entries_of(block_data_mapping@)),
                operation_type == AllocateOperationType::OpWrite,
            ).0,
            r.assigned@ == to_map(
                old(self)@.allocate_all(
                    owner@,
                    placements_of(entries_of(block_data_mapping@)),
                    operation_type == AllocateOperationType::OpWrite,
                ).1,
            ),
            flushes_view(r.flushes@) == old(self)@.allocate_all(
                owner@,
                placements_of(entries_of(block_data_mapping@)),
                operation_type == AllocateOperationType::OpWrite,
            ).2,
    {
        let ghost s = self@;
        let sorted = BlockMap::from_hash_map(block_data_mapping);
        let mut requests: Vec<BlockPlacement> = Vec::new();
        let mut i: usize = 0;
        while i < sorted.len()
            invariant
                i <= sorted@.len(),
                requests@.len() == i,
                forall|j: int|
                    0 <= j < i ==> (#[trigger] requests@[j])@ == placements_of(sorted@)[j],
            decreases sorted@.len() - i,
        {
            let block_id = sorted.key_at(i);
            let (page_id, data, offset) = *sorted.value_at(i);
            requests.push(BlockPlacement { block_id, page_id, data, offset });
            i += 1;
        }
        assert(placements_view(requests@) =~= placements_of(sorted@));
        proof {
            s.lemma_allocate_all(
                owner@,
                placements_of(sorted@),
                operation_type == AllocateOperationType::OpWrite,
            );
        }
        let outcome = self.allocate_blocks_in_order(owner, &requests, operation_type);
        proof {
            assert forall|a: int, b: int| 0 <= a < b < outcome.assigned@.len() implies (
            #[trigger] outcome.assigned@[a]).0 < (#[trigger] outcome.assigned@[b]).0 by {
                assert(sorted@[a].0 < sorted@[b].0);
            }
        }
        MappedAllocation { assigned: hash_map_of(&outcome.assigned), flushes: outcome.flushes }
    }

    /// Truncates the blocks of `blocks_to_remove`, each with the page on
    /// which the caller believes it to sit, in ascending order of block id:
    /// see [`CustomCacheEngine::truncate_cached_blocks_in_order`].
    pub fn truncate_cached_blocks(
        &mut self,
        owner: &str,
        blocks_to_remove: &HashMap<BlockId, PageId>,
        from_block_id: BlockId,
        index_inside_block: i32,
    ) -> (b: bool)
        requires
            old(self).wf(),
        ensures
            final(self).wf(),
            final(self)@ == old(self)@.truncate_all(
                owner@,
                entries_of(blocks_to_remove@),
                from_block_id,
                index_inside_block,
            ),
            b,
    {
        let sorted = BlockMap::from_hash_map(blocks_to_remove);
        self.truncate_cached_blocks_in_order(
            owner,
            &sorted.entries,
            from_block_id,
            index_inside_block,
        )
    }
}

impl PageCacheEngine for CustomCacheEngine {
    open(crate) spec fn pool(&self) -> EngineView {
        self@
    }

    open(crate) spec fn usable(&self) -> bool {
        self.wf()
    }

    proof fn lemma_usable(&self) {
    }

    fn io_block_size(&self) -> (n: usize) {
        self.config.io_block_size
    }

    fn allocate_blocks_in_order(
        &mut self,
        content_owner_id: &str,
        block_data_mapping: &Vec<BlockPlacement>,
        operation_type: AllocateOperationType,
    ) -> (r: AllocationOutcome) {
        CustomCacheEngine::allocate_blocks_in_order(
            self,
            content_owner_id,
            block_data_mapping,
            operation_type,
        )
    }

    fn get_blocks(&mut self, content_owner_id: &str, block_pages: &Vec<BlockRead>) -> (r: Vec<
        BlockData,
    >) {
        CustomCacheEngine::get_blocks(self, content_owner_id, block_pages)
    }

    fn is_block_cached(&self, content_owner_id: &str, page_id: PageId, block_id: BlockId) -> (b:
        bool) {
        CustomCacheEngine::is_block_cached(self, content_owner_id, page_id, block_id)
    }

    fn make_block_readable_to_offset(
        &mut self,
        cid: &str,
        page_id: PageId,
        block_id: BlockId,
        offset: i32,
    ) {
        CustomCacheEngine::make_block_readable_to_offset(self, cid, page_id, block_id, offset)
    }

    fn get_engine_usage(&self) -> (r: (usize, usize)) {
        CustomCacheEngine::get_engine_usage(self)
    }

    fn remove_cached_blocks(&mut self, content_owner_id: &str) -> (b: bool) {
        CustomCacheEngine::remove_cached_blocks(self, content_owner_id)
    }

    fn sync_pages(&mut self, owner: &str, size: u32) -> (plan: FlushPlan) {
        CustomCacheEngine::sync_pages(self, owner, size)
    }

    fn rename_owner_pages(&mut self, old_owner: &str, new_owner: &str) -> (b: bool) {
        CustomCacheEngine::rename_owner_pages(self, old_owner, new_owner)
    }

    fn truncate_cached_blocks_in_order(
        &mut self,
        content_owner_id: &str,
        blocks_to_remove: &Vec<(BlockId, PageId)>,
        from_block_id: BlockId,
        index_inside_block: i32,
    ) -> (b: bool) {
        CustomCacheEngine::truncate_cached_blocks_in_order(
            self,
            content_owner_id,
            blocks_to_remove,
            from_block_id,
            index_inside_block,
        )
    }

    fn get_dirty_blocks_info(&self, owner: &str) -> (r: Vec<(BlockId, Offsets, PageId)>) {
        CustomCacheEngine::get_dirty_blocks_info(self, owner)
    }
}

} // verus!
