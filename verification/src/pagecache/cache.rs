//! The coordinator: paths, inodes, items and the page engine under one roof.

use vstd::prelude::*;
use std::collections::HashMap;
use std::time::SystemTime;
use crate::block_map::{
    ascending,
    entries_of,
    has_key,
    hash_map_of,
    lemma_with_entry,
    lemma_without_key,
    to_map,
    with_entry,
    without_key,
    BlockMap,
};
use crate::name_map::{
    bind,
    distinct_names,
    find,
    has_name,
    lemma_bind,
    lemma_name_unique,
    lemma_unbind,
    name_index,
    unbind,
    NameMap,
};
use crate::pagecache::config::Config;
use crate::pagecache::engine::backends::custom::{
    data_view,
    flushes_view,
    placements_view,
    reads_view,
    BlockPlacement,
    BlockRead,
    PageFlush,
};
use crate::pagecache::engine::backends::pool::{EngineView, FlushView, PlacementView};
use crate::pagecache::engine::page::{writes_view, BlockWrite};
use crate::pagecache::engine::{AllocateOperationType, PageCacheEngine};
use crate::pagecache::item::block_info::BlockInfo;
use crate::pagecache::item::item::{
    cut_blocks,
    cut_index,
    merged_metadata,
    page_of,
    placed_info,
    readable_of,
    Item,
    ItemView,
};
use crate::pagecache::item::metadata::Metadata;
use crate::pagecache::{BlockId, Offsets, PageId};

verus! {

/// Why the cache refused an operation.
#[derive(Debug, PartialEq, Eq, Structural, Clone, Copy)]
pub enum CacheError {
    /// The cache holds no item for the inode.
    NotCached,
}

/// One block to write into the cache.
pub struct BlockUpdate<'a> {
    pub block_id: BlockId,
    pub data: &'a Vec<u8>,
    /// The byte of the block at which `data` starts.
    pub offset: i32,
    /// The last byte of the block that holds data once this is written.
    pub readable_to: i32,
}

/// What a block to write holds.
pub struct UpdateView {
    pub block_id: BlockId,
    pub data: Seq<u8>,
    pub offset: i32,
    pub readable_to: i32,
}

impl<'a> View for BlockUpdate<'a> {
    type V = UpdateView;

    open spec fn view(&self) -> UpdateView {
        UpdateView {
            block_id: self.block_id,
            data: self.data@,
            offset: self.offset,
            readable_to: self.readable_to,
        }
    }
}

/// The views of a list of blocks to write, in order.
pub open spec fn updates_view(us: Seq<BlockUpdate>) -> Seq<UpdateView> {
    Seq::new(us.len(), |i: int| us[i]@)
}

/// What writing blocks into the cache gave.
pub struct PutOutcome {
    /// For each block, in the order asked, whether it is in the cache now.
    pub results: Vec<(BlockId, bool)>,
    /// The dirty pages that were evicted to make room, to be written out.
    pub flushes: Vec<PageFlush>,
}

/// The blocks to write that a map of blocks asks for, its entries being
/// `entries`: each block with its bytes, the byte of the block at which
/// they start, and the last byte of the block that holds data afterwards.
pub open spec fn updates_of(entries: Seq<(BlockId, (&Vec<u8>, i32, i32))>) -> Seq<UpdateView> {
    Seq::new(
        entries.len(),
        |i: int|
            UpdateView {
                block_id: entries[i].0,
                data: entries[i].1.0@,
                offset: entries[i].1.1,
                readable_to: entries[i].1.2,
            },
    )
}

/// What writing a map of blocks into the cache gave.
pub struct MappedPut {
    /// For each block whether it is in the cache now.
    pub results: HashMap<BlockId, bool>,
    /// The dirty pages that were evicted to make room, to be written out.
    pub flushes: Vec<PageFlush>,
}

/// What reading one block from the cache gave.
pub struct BlockFetch {
    pub block_id: BlockId,
    pub hit: bool,
    /// The first and last byte of the block that hold data, on a hit.
    pub readable: Option<(i32, i32)>,
    /// The bytes of the block from its start to its last readable byte, on a hit.
    pub data: Vec<u8>,
}

impl View for BlockFetch {
    type V = (BlockId, bool, Option<(i32, i32)>, Seq<u8>);

    open spec fn view(&self) -> (BlockId, bool, Option<(i32, i32)>, Seq<u8>) {
        (self.block_id, self.hit, self.readable, self.data@)
    }
}

/// The views of a list of blocks fetched, in order.
pub open spec fn fetches_view(fs: Seq<BlockFetch>) -> Seq<(BlockId, bool, Option<(i32, i32)>, Seq<u8>)> {
    Seq::new(fs.len(), |i: int| fs[i]@)
}

/// What has to be done to a backing file to flush an item: the writes, the
/// length to cut the file to, and the access and modification times to
/// set, if they are to be set.
pub struct SyncPlan {
    pub writes: Vec<BlockWrite>,
    pub truncate_to: u64,
    pub times: Option<(SystemTime, SystemTime)>,
}

/// What a plan holds.
pub struct SyncPlanView {
    pub writes: Seq<(u64, Seq<u8>)>,
    pub truncate_to: u64,
    pub times: Option<(SystemTime, SystemTime)>,
}

impl View for SyncPlan {
    type V = SyncPlanView;

    open spec fn view(&self) -> SyncPlanView {
        SyncPlanView {
            writes: writes_view(self.writes@),
            truncate_to: self.truncate_to,
            times: self.times,
        }
    }
}

/// One step of a checkpoint: the file at `path` gets the plan of `inode`.
pub struct CheckpointStep {
    pub path: String,
    pub inode: String,
    pub plan: SyncPlan,
}

impl View for CheckpointStep {
    type V = (Seq<char>, Seq<char>, SyncPlanView);

    open spec fn view(&self) -> (Seq<char>, Seq<char>, SyncPlanView) {
        (self.path@, self.inode@, self.plan@)
    }
}

/// The views of the steps of a checkpoint, in order.
pub open spec fn steps_view(ss: Seq<CheckpointStep>) -> Seq<(Seq<char>, Seq<char>, SyncPlanView)> {
    Seq::new(ss.len(), |i: int| ss[i]@)
}

/// An item that is not flushed: its inode, its size, and its blocks that
/// were not flushed, each with its readable bytes and its page.
pub struct UnsyncedItem {
    pub inode: String,
    pub size: usize,
    pub blocks: Vec<(BlockId, Offsets, PageId)>,
}

impl View for UnsyncedItem {
    type V = (Seq<char>, usize, Seq<(BlockId, Offsets, PageId)>);

    open spec fn view(&self) -> (Seq<char>, usize, Seq<(BlockId, Offsets, PageId)>) {
        (self.inode@, self.size, self.blocks@)
    }
}

/// The views of a report, in order.
pub open spec fn report_view(us: Seq<UnsyncedItem>) -> Seq<
    (Seq<char>, usize, Seq<(BlockId, Offsets, PageId)>),
> {
    Seq::new(us.len(), |i: int| us[i]@)
}

pub struct Cache<E: PageCacheEngine> {
    pub(crate) config: Config,
    /// Which inode each path names.  Several paths may name one inode.
    pub(crate) file_inode_mapping: NameMap<String>,
    /// The item of each inode.
    pub(crate) contents: NameMap<Item>,
    pub(crate) engine: E,
}

/// What the cache holds.
pub struct CacheView {
    pub mapping: Seq<(Seq<char>, Seq<char>)>,
    pub contents: Seq<(Seq<char>, ItemView)>,
    pub engine: EngineView,
}

impl<E: PageCacheEngine> View for Cache<E> {
    type V = CacheView;

    open(crate) spec fn view(&self) -> CacheView {
        CacheView {
            mapping: self.file_inode_mapping@,
            contents: self.contents@,
            engine: self.engine.pool(),
        }
    }
}

/// An item without blocks, flushed, with metadata `m`.
pub open spec fn empty_item(m: Metadata) -> ItemView {
    ItemView { data: Seq::empty(), metadata: m, is_synced: true }
}

/// The size of a file as a length: a negative size counts as zero.
pub open spec fn size_as_length(size: i32) -> u32 {
    if size < 0 {
        0u32
    } else {
        size as u32
    }
}

/// The bytes that a fetch hands out of the `bytes` of a whole block: up to
/// the last readable byte, where that lies in the block.
pub open spec fn readable_part(bytes: Seq<u8>, readable: Option<(i32, i32)>) -> Seq<u8> {
    match readable {
        Some(r) => if 0 <= r.1 < bytes.len() {
            bytes.take(r.1 + 1)
        } else {
            bytes
        },
        None => bytes,
    }
}

/// The paths of `mapping` that name `inode`, in the order of `mapping`.
pub open spec fn paths_of(mapping: Seq<(Seq<char>, Seq<char>)>, inode: Seq<char>) -> Seq<Seq<char>>
    decreases mapping.len(),
{
    if mapping.len() == 0 {
        Seq::empty()
    } else if mapping.last().1 == inode {
        paths_of(mapping.drop_last(), inode).push(mapping.last().0)
    } else {
        paths_of(mapping.drop_last(), inode)
    }
}

/// The pool after the owners of the first `n` items of `contents` were forgotten, in order.
pub open spec fn forget_owners(engine: EngineView, contents: Seq<(Seq<char>, ItemView)>, n: int) -> EngineView
    decreases n,
{
    if n <= 0 {
        engine
    } else {
        forget_owners(engine, contents, n - 1).remove_owner(contents[n - 1].0)
    }
}

impl CacheView {
    /// Every path is bound once, every inode has one item, the index of
    /// every item is in ascending order, and the pool is well formed.
    pub open spec fn wf(self) -> bool {
        &&& distinct_names(self.mapping)
        &&& distinct_names(self.contents)
        &&& forall|i: int|
            0 <= i < self.contents.len() ==> ascending((#[trigger] self.contents[i]).1.data)
        &&& self.engine.wf()
    }

    pub open spec fn has_item(self, cid: Seq<char>) -> bool {
        has_name(self.contents, cid)
    }

    /// The item of `cid`, which the cache holds.
    pub open spec fn item(self, cid: Seq<char>) -> ItemView {
        find(self.contents, cid).unwrap()
    }

    /// `self` with `item` as the item of `cid`.
    pub open spec fn with_item(self, cid: Seq<char>, item: ItemView) -> CacheView {
        CacheView { contents: bind(self.contents, cid, item), ..self }
    }

    /// `self` with an empty item of metadata `m` for `cid`, if `cid` has no item.
    pub open spec fn ensure_item(self, cid: Seq<char>, m: Metadata) -> CacheView {
        if self.has_item(cid) {
            self
        } else {
            self.with_item(cid, empty_item(m))
        }
    }

    /// The item of `cid` and all its pages are gone.
    pub open spec fn drop_item(self, cid: Seq<char>) -> CacheView {
        CacheView {
            contents: unbind(self.contents, cid),
            engine: self.engine.remove_owner(cid),
            ..self
        }
    }

    /// The inode `cid`, which has an item, lost one of its paths: with one
    /// path or none before, or when `force` is set, the item and its pages
    /// go; otherwise the item stays with one link less.  Also whether the item went.
    pub open spec fn unlink(self, cid: Seq<char>, force: bool) -> (CacheView, bool) {
        let item = self.item(cid);
        if force || item.metadata.nlinks <= 1 {
            (self.drop_item(cid), true)
        } else {
            (
                self.with_item(
                    cid,
                    ItemView {
                        metadata: Metadata {
                            nlinks: (item.metadata.nlinks - 1) as u32,
                            ..item.metadata
                        },
                        ..item
                    },
                ),
                false,
            )
        }
    }

    /// The placements for the blocks of `reqs`: each asks for the page on
    /// which the item of `cid` lists the block.
    pub open spec fn placements(self, cid: Seq<char>, reqs: Seq<UpdateView>) -> Seq<PlacementView> {
        Seq::new(
            reqs.len(),
            |i: int|
                PlacementView {
                    block_id: reqs[i].block_id,
                    page_id: page_of(self.item(cid).data, reqs[i].block_id),
                    data: reqs[i].data,
                    offset: reqs[i].offset,
                },
        )
    }

    /// The index of an item and the pool after one block was placed on
    /// `page`: a block that got a page is listed on it, readable up to
    /// `readable_to` at least, and the page learns that mark; a block that
    /// got none leaves the index.
    pub open spec fn record_one(
        data: Seq<(BlockId, BlockInfo)>,
        engine: EngineView,
        cid: Seq<char>,
        block_id: BlockId,
        page: PageId,
        readable_to: i32,
    ) -> (Seq<(BlockId, BlockInfo)>, EngineView) {
        if page >= 0 {
            let info = placed_info(data, block_id, page, readable_to);
            (
                with_entry(data, block_id, info),
                engine.mark_readable(cid, page, block_id, info.readable_offset.1),
            )
        } else {
            (without_key(data, block_id), engine)
        }
    }

    /// [`CacheView::record_one`] for the first `n` blocks, in order.
    pub open spec fn record_all(
        data: Seq<(BlockId, BlockInfo)>,
        engine: EngineView,
        cid: Seq<char>,
        assigned: Seq<(BlockId, PageId)>,
        reqs: Seq<UpdateView>,
        n: int,
    ) -> (Seq<(BlockId, BlockInfo)>, EngineView)
        decreases n,
    {
        if n <= 0 {
            (data, engine)
        } else {
            let prev = Self::record_all(data, engine, cid, assigned, reqs, n - 1);
            Self::record_one(
                prev.0,
                prev.1,
                cid,
                assigned[n - 1].0,
                assigned[n - 1].1,
                reqs[n - 1].readable_to,
            )
        }
    }

    /// Some block got a page.
    pub open spec fn any_placed(assigned: Seq<(BlockId, PageId)>) -> bool {
        exists|i: int| 0 <= i < assigned.len() && (#[trigger] assigned[i]).1 >= 0
    }

    /// Writing the blocks of `reqs` into the item of `cid`, which exists:
    /// the cache afterwards, for each block whether it is cached, and the
    /// evicted pages to save.
    #[verifier::opaque]
    pub open spec fn put(self, cid: Seq<char>, reqs: Seq<UpdateView>, is_write: bool) -> (
        CacheView,
        Seq<(BlockId, bool)>,
        Seq<FlushView>,
    ) {
        let placed = self.engine.allocate_all(cid, self.placements(cid, reqs), is_write);
        let item = self.item(cid);
        let recorded = Self::record_all(item.data, placed.0, cid, placed.1, reqs, reqs.len() as int);
        (
            CacheView {
                contents: bind(
                    self.contents,
                    cid,
                    ItemView {
                        data: recorded.0,
                        is_synced: item.is_synced && !Self::any_placed(placed.1),
                        ..item
                    },
                ),
                engine: recorded.1,
                ..self
            },
            Seq::new(placed.1.len(), |i: int| (placed.1[i].0, placed.1[i].1 >= 0)),
            placed.2,
        )
    }

    /// The reads for those of `blocks` that the index `data` lists: each
    /// asks for the whole block on the page on which it is listed.
    pub open spec fn read_requests(data: Seq<(BlockId, BlockInfo)>, blocks: Seq<BlockId>, block_size: usize) -> Seq<
        (BlockId, PageId, i32),
    >
        decreases blocks.len(),
    {
        if blocks.len() == 0 {
            Seq::empty()
        } else {
            let rest = Self::read_requests(data, blocks.drop_last(), block_size);
            if has_key(data, blocks.last()) {
                rest.push((blocks.last(), page_of(data, blocks.last()), (block_size - 1) as i32))
            } else {
                rest
            }
        }
    }

    /// The index of an item after the first `n` blocks read were taken
    /// note of: a block that was missed leaves the index.
    pub open spec fn after_reads(data: Seq<(BlockId, BlockInfo)>, read: Seq<(BlockId, bool, Seq<u8>)>, n: int) -> Seq<
        (BlockId, BlockInfo),
    >
        decreases n,
    {
        if n <= 0 {
            data
        } else {
            let prev = Self::after_reads(data, read, n - 1);
            if read[n - 1].1 {
                prev
            } else {
                without_key(prev, read[n - 1].0)
            }
        }
    }

    /// What the fetch of block `i` of `read` hands out, the index being `data` before it.
    pub open spec fn fetched(data: Seq<(BlockId, BlockInfo)>, read: (BlockId, bool, Seq<u8>)) -> (
        BlockId,
        bool,
        Option<(i32, i32)>,
        Seq<u8>,
    ) {
        if read.1 {
            (read.0, true, readable_of(data, read.0), readable_part(read.2, readable_of(data, read.0)))
        } else {
            (read.0, false, None, Seq::empty())
        }
    }

    /// Reading `blocks` of the item of `cid`: the cache afterwards, and what
    /// was fetched for each block that the item lists, in the order asked.
    /// An inode without item gives nothing.
    #[verifier::opaque]
    pub open spec fn get(self, cid: Seq<char>, blocks: Seq<BlockId>) -> (
        CacheView,
        Seq<(BlockId, bool, Option<(i32, i32)>, Seq<u8>)>,
    ) {
        if !self.has_item(cid) {
            (self, Seq::empty())
        } else {
            let item = self.item(cid);
            let reqs = Self::read_requests(item.data, blocks, self.engine.block_size);
            let read = self.engine.read_all(cid, reqs);
            (
                CacheView {
                    contents: bind(
                        self.contents,
                        cid,
                        ItemView {
                            data: Self::after_reads(item.data, read.1, read.1.len() as int),
                            ..item
                        },
                    ),
                    engine: read.0,
                    ..self
                },
                Seq::new(
                    read.1.len(),
                    |i: int| Self::fetched(Self::after_reads(item.data, read.1, i), read.1[i]),
                ),
            )
        }
    }

    /// The item of `cid` lists `block_id` on a page that holds it for `cid`.
    pub open spec fn block_cached(self, cid: Seq<char>, block_id: BlockId) -> bool {
        self.has_item(cid) && self.engine.is_cached(
            cid,
            page_of(self.item(cid).data, block_id),
            block_id,
        )
    }

    /// Taking `path` away from the inode `owner`.  An inode without item
    /// changes nothing and gives `false`.  Otherwise the path is unbound and
    /// the inode loses a link: see [`CacheView::unlink`].
    pub open spec fn remove_item_path(self, owner: Seq<char>, path: Seq<char>, force: bool) -> (
        CacheView,
        bool,
    ) {
        if !self.has_item(owner) {
            (self, false)
        } else {
            (CacheView { mapping: unbind(self.mapping, path), ..self }).unlink(owner, force)
        }
    }

    /// The plan that flushes `owner`, which has an item, and the cache
    /// after the plan was drawn up: the pages of `owner` are clean.
    pub open spec fn sync(self, owner: Seq<char>, only_sync_data: bool) -> (CacheView, SyncPlanView) {
        let item = self.item(owner);
        (
            CacheView { engine: self.engine.after_sync(owner), ..self },
            SyncPlanView {
                writes: self.engine.sync_writes(owner),
                truncate_to: size_as_length(item.metadata.size) as u64,
                times: if only_sync_data {
                    None
                } else {
                    Some((item.metadata.atim, item.metadata.mtim))
                },
            },
        )
    }

    /// The cache after the flush of `owner` came to an end: the item is
    /// flushed if the plan was carried out.
    pub open spec fn sync_done(self, owner: Seq<char>, flushed: bool) -> CacheView {
        if self.has_item(owner) && flushed {
            self.with_item(owner, ItemView { is_synced: true, ..self.item(owner) })
        } else {
            self
        }
    }

    /// Renaming `old_path` to `new_path`.  Nothing changes if `old_path`
    /// names no inode.  Otherwise `new_path` names the inode of `old_path`;
    /// and an other inode that `new_path` named before, if it has an item,
    /// loses a link: see [`CacheView::unlink`].
    pub open spec fn rename(self, old_path: Seq<char>, new_path: Seq<char>) -> CacheView {
        match find(self.mapping, old_path) {
            None => self,
            Some(inode) => {
                let moved = CacheView {
                    mapping: bind(unbind(self.mapping, new_path), new_path, inode),
                    ..self
                };
                match find(self.mapping, new_path) {
                    Some(replaced) => if replaced != inode && self.has_item(replaced) {
                        moved.unlink(replaced, false).0
                    } else {
                        moved
                    },
                    None => moved,
                }
            },
        }
    }

    /// The empty cache over the pool that is left when the owner of every
    /// item was forgotten, in the order of the items.
    pub open spec fn cleared(self) -> CacheView {
        CacheView {
            mapping: Seq::empty(),
            contents: Seq::empty(),
            engine: forget_owners(self.engine, self.contents, self.contents.len() as int),
        }
    }

    /// Cutting the item of `inode` to `new_size` bytes.  An inode without
    /// item, or a negative size, changes nothing and gives `false`.
    /// Otherwise the blocks behind the cut leave the item and their pages;
    /// the block in which the cut falls keeps its bytes before the cut; the
    /// size is `new_size`, and the item is not flushed.
    pub open spec fn truncate(self, inode: Seq<char>, new_size: i32) -> (CacheView, bool) {
        if !self.has_item(inode) || new_size < 0 {
            (self, false)
        } else {
            let item = self.item(inode);
            let from = (new_size as int / self.engine.block_size as int) as i32;
            let index = (new_size as int % self.engine.block_size as int) as i32;
            (
                CacheView {
                    contents: bind(
                        self.contents,
                        inode,
                        ItemView {
                            data: cut_index(item.data, from, index),
                            metadata: Metadata { size: new_size, ..item.metadata },
                            is_synced: false,
                        },
                    ),
                    engine: self.engine.truncate_all(
                        inode,
                        cut_blocks(item.data, from),
                        from,
                        index,
                    ),
                    ..self
                },
                true,
            )
        }
    }

    /// Every inode that a path names has an item.
    pub open spec fn all_mapped_cached(self) -> bool {
        forall|i: int| 0 <= i < self.mapping.len() ==> self.has_item((#[trigger] self.mapping[i]).1)
    }

    /// The cache and the steps after the first `n` paths were flushed, in
    /// order, each with the plan of its inode, times included.
    pub open spec fn checkpoint_upto(self, n: int) -> (
        CacheView,
        Seq<(Seq<char>, Seq<char>, SyncPlanView)>,
    )
        decreases n,
    {
        if n <= 0 {
            (self, Seq::empty())
        } else {
            let prev = self.checkpoint_upto(n - 1);
            let step = prev.0.sync(self.mapping[n - 1].1, false);
            (step.0, prev.1.push((self.mapping[n - 1].0, self.mapping[n - 1].1, step.1)))
        }
    }

    /// For each of the first `n` items that is not flushed: its inode, its
    /// size, and what the pool reports of its blocks.
    pub open spec fn unsynced_upto(self, n: int) -> Seq<
        (Seq<char>, usize, Seq<(BlockId, Offsets, PageId)>),
    >
        decreases n,
    {
        if n <= 0 {
            Seq::empty()
        } else {
            let prev = self.unsynced_upto(n - 1);
            let e = self.contents[n - 1];
            if !e.1.is_synced {
                prev.push(
                    (
                        e.0,
                        size_as_length(e.1.metadata.size) as usize,
                        self.engine.unsynced_info(self.engine.owner(e.0).ordered),
                    ),
                )
            } else {
                prev
            }
        }
    }

    /// Binding `path` to `inode`; with `increase`, the item of `inode` gets
    /// one link more.  With `increase` and no item of `inode` the binding
    /// is made all the same, and the call fails.
    pub open spec fn map_path(self, path: Seq<char>, inode: Seq<char>, increase: bool) -> (
        CacheView,
        Result<(), CacheError>,
    ) {
        let bound = CacheView { mapping: bind(self.mapping, path, inode), ..self };
        if !increase {
            (bound, Ok(()))
        } else if !self.has_item(inode) {
            (bound, Err(CacheError::NotCached))
        } else {
            let item = self.item(inode);
            (
                bound.with_item(
                    inode,
                    ItemView {
                        metadata: Metadata {
                            nlinks: if item.metadata.nlinks < u32::MAX {
                                (item.metadata.nlinks + 1) as u32
                            } else {
                                item.metadata.nlinks
                            },
                            ..item.metadata
                        },
                        ..item
                    },
                ),
                Ok(()),
            )
        }
    }
}

/// The views of a list of strings, in order.
pub open spec fn strings_view(v: Seq<String>) -> Seq<Seq<char>> {
    Seq::new(v.len(), |i: int| v[i]@)
}

impl<E: PageCacheEngine> Cache<E> {
    /// The cache is well formed, see [`CacheView::wf`], and its engine is usable.
    pub open(crate) spec fn wf(&self) -> bool {
        self@.wf() && self.engine.usable()
    }

    /// An empty cache over `engine`.
    pub fn new(config: Config, engine: E) -> (c: Self)
        requires
            engine.usable(),
        ensures
            c.wf(),
            c@ == (CacheView {
                mapping: Seq::empty(),
                contents: Seq::empty(),
                engine: engine.pool(),
            }),
    {
        proof {
            engine.lemma_usable();
        }
        Cache { config, file_inode_mapping: NameMap::new(), contents: NameMap::new(), engine }
    }

    /// Gives `cid` a new, empty item in place of what it had.  The item is
    /// flushed and has the metadata of an empty file with one link.
    pub fn insert_item(&mut self, cid: String)
        requires
            old(self).wf(),
        ensures
            final(self).wf(),
            final(self)@.has_item(cid@),
            final(self)@ == old(self)@.with_item(
                cid@,
                empty_item(final(self)@.item(cid@).metadata),
            ),
            final(self)@.item(cid@).metadata.nlinks == 1,
            final(self)@.item(cid@).metadata.size == 0,
    {
        let item = Item::default();
        proof {
            lemma_bind(self@.contents, cid@, item@);
            assert(item@ == empty_item(item@.metadata));
        }
        self.contents.insert(cid, item);
        proof {
            let c = self@.contents;
            assert forall|i: int| 0 <= i < c.len() implies ascending((#[trigger] c[i]).1.data) by {
                lemma_name_unique(c, i);
                if c[i].0 != cid@ {
                    let j = name_index(old(self)@.contents, c[i].0);
                    assert(old(self)@.contents[j].0 == c[i].0);
                    lemma_name_unique(old(self)@.contents, j);
                }
            }
        }
    }

    /// Gives `cid` a new, empty item unless it has one.  `true` if it had none.
    pub fn insert_item_if_not_exists(&mut self, cid: &str) -> (created: bool)
        requires
            old(self).wf(),
        ensures
            final(self).wf(),
            created == !old(self)@.has_item(cid@),
            final(self)@.has_item(cid@),
            final(self)@ == old(self)@.ensure_item(cid@, final(self)@.item(cid@).metadata),
            created ==> final(self)@.item(cid@).metadata.nlinks == 1,
            created ==> final(self)@.item(cid@).metadata.size == 0,
    {
        if self.contents.contains_key(cid) {
            false
        } else {
            self.insert_item(cid.to_owned());
            true
        }
    }

    /// Takes the item of `cid` away.  Its pages stay in the pool.
    pub fn remove_item(&mut self, cid: &str)
        requires
            old(self).wf(),
        ensures
            final(self).wf(),
            final(self)@ == (CacheView {
                contents: unbind(old(self)@.contents, cid@),
                ..old(self)@
            }),
    {
        proof {
            lemma_unbind(self@.contents, cid@);
        }
        self.contents.remove(cid);
        proof {
            self.lemma_items_kept(old(self)@.contents);
        }
    }

    /// Every item of `self` is an item of `before`, or its index is in order.
    proof fn lemma_items_kept(&self, before: Seq<(Seq<char>, ItemView)>)
        requires
            distinct_names(self@.contents),
            distinct_names(before),
            forall|i: int| 0 <= i < before.len() ==> ascending((#[trigger] before[i]).1.data),
            forall|i: int|
                0 <= i < self@.contents.len() ==> find(before, (#[trigger] self@.contents[i]).0)
                    == Some(self@.contents[i].1) || ascending(self@.contents[i].1.data),
        ensures
            forall|i: int|
                0 <= i < self@.contents.len() ==> ascending((#[trigger] self@.contents[i]).1.data),
    {
        let c = self@.contents;
        assert forall|i: int| 0 <= i < c.len() implies ascending((#[trigger] c[i]).1.data) by {
            if find(before, c[i].0) == Some(c[i].1) {
                let j = name_index(before, c[i].0);
                assert(before[j].0 == c[i].0);
                lemma_name_unique(before, j);
            }
        }
    }

    pub fn has_content_cached(&self, cid: &str) -> (b: bool)
        requires
            self.wf(),
        ensures
            b == self@.has_item(cid@),
    {
        self.contents.contains_key(cid)
    }

    /// Takes from `metadata` the fields of the item of `cid` that
    /// `values_to_update` names.  `false`, and no change, if `cid` has no item.
    pub fn update_content_metadata(&mut self, cid: &str, metadata: Metadata, values_to_update: &Vec<String>) -> (b: bool)
        requires
            old(self).wf(),
        ensures
            final(self).wf(),
            b == old(self)@.has_item(cid@),
            !b ==> final(self)@ == old(self)@,
            b ==> final(self)@ == old(self)@.with_item(
                cid@,
                ItemView {
                    metadata: merged_metadata(
                        old(self)@.item(cid@).metadata,
                        metadata,
                        values_to_update@,
                    ),
                    ..old(self)@.item(cid@)
                },
            ),
    {
        match self.contents.index_of(cid) {
            Some(idx) => {
                self.contents.entries[idx].1.update_metadata(metadata, values_to_update);
                proof {
                    self.lemma_item_edited(*old(self), idx as int);
                }
                true
            },
            None => false,
        }
    }

    /// After the item at index `idx` was changed in place, the cache is the
    /// old one with that item bound anew, and is well formed if the index
    /// of the item is in order.
    proof fn lemma_item_edited(&self, before: Cache<E>, idx: int)
        requires
            before.wf(),
            0 <= idx < before.contents.entries@.len(),
            self.contents.entries@.len() == before.contents.entries@.len(),
            forall|j: int|
                0 <= j < before.contents.entries@.len() && j != idx
                    ==> self.contents.entries@[j] == before.contents.entries@[j],
            self.contents.entries@[idx].0 == before.contents.entries@[idx].0,
            self.file_inode_mapping == before.file_inode_mapping,
            ascending(self.contents.entries@[idx].1@.data),
        ensures
            self@.contents == bind(
                before@.contents,
                before@.contents[idx].0,
                self.contents.entries@[idx].1@,
            ),
            self@.contents == before@.contents.update(
                idx,
                (before@.contents[idx].0, self.contents.entries@[idx].1@),
            ),
            self@.mapping == before@.mapping,
            distinct_names(self@.contents),
            forall|i: int|
                0 <= i < self@.contents.len() ==> ascending((#[trigger] self@.contents[i]).1.data),
            find(self@.contents, before@.contents[idx].0) == Some(self.contents.entries@[idx].1@),
    {
        let name = before@.contents[idx].0;
        lemma_name_unique(before@.contents, idx);
        lemma_bind(before@.contents, name, self.contents.entries@[idx].1@);
        assert(self@.contents =~= before@.contents.update(
            idx,
            (name, self.contents.entries@[idx].1@),
        ));
        assert forall|i: int| 0 <= i < self@.contents.len() implies ascending(
            (#[trigger] self@.contents[i]).1.data,
        ) by {
            if i != idx {
                assert(self@.contents[i] == before@.contents[i]);
            }
        }
    }

    pub fn get_content_metadata(&self, cid: &str) -> (m: Option<Metadata>)
        requires
            self.wf(),
        ensures
            m == if self@.has_item(cid@) {
                Some(self@.item(cid@).metadata)
            } else {
                None
            },
    {
        match self.contents.get(cid) {
            Some(item) => Some(item.metadata),
            None => None,
        }
    }

    /// The item of `cid` lists `block_id` on a page that holds it for `cid`.
    pub fn is_block_cached(&self, cid: &str, block_id: BlockId) -> (b: bool)
        requires
            self.wf(),
        ensures
            b == self@.block_cached(cid@, block_id),
    {
        match self.contents.index_of(cid) {
            Some(idx) => {
                proof {
                    lemma_name_unique(self@.contents, idx as int);
                    assert(ascending(self@.contents[idx as int].1.data));
                }
                let page_id = self.contents.entries[idx].1.data.get_page_id(block_id);
                self.engine.is_block_cached(cid, page_id, block_id)
            },
            None => false,
        }
    }

    /// The number of pages in use and the number of pages of the pool.
    pub fn get_cache_usage(&self) -> (r: (usize, usize))
        requires
            self.wf(),
        ensures
            r.0 == self@.engine.nr_pages - self@.engine.free_pages.len(),
            r.1 == self@.engine.nr_pages,
            r.0 <= r.1,
    {
        self.engine.get_engine_usage()
    }

    /// The inode `cid`, which has an item, loses a link: see [`CacheView::unlink`].
    fn unlink(&mut self, cid: &str, force: bool) -> (gone: bool)
        requires
            old(self).wf(),
            old(self)@.has_item(cid@),
        ensures
            final(self).wf(),
            final(self)@ == old(self)@.unlink(cid@, force).0,
            gone == old(self)@.unlink(cid@, force).1,
    {
        let idx = match self.contents.index_of(cid) {
            Some(i) => i,
            None => vstd::pervasive::unreached(),
        };
        proof {
            lemma_name_unique(self@.contents, idx as int);
            lemma_unbind(self@.contents, cid@);
        }
        let before_nlinks = self.contents.entries[idx].1.metadata.nlinks;
        if force || before_nlinks <= 1 {
            self.contents.remove(cid);
            self.engine.remove_cached_blocks(cid);
            proof {
                self.engine.lemma_usable();
                self.lemma_items_kept(old(self)@.contents);
            }
            true
        } else {
            self.contents.entries[idx].1.metadata.nlinks = before_nlinks - 1;
            proof {
                self.lemma_item_edited(*old(self), idx as int);
            }
            false
        }
    }

    /// Takes `path` away from the inode `owner`.  `false`, and no change, if
    /// `owner` has no item.  Otherwise the path is unbound, and the item
    /// goes, with its pages, if `is_from_cache` is set or the inode had one
    /// link or none; if it had more, it stays with one link less.  `true`
    /// if the item went.
    pub fn remove_cached_item(&mut self, owner: &str, path: &str, is_from_cache: bool) -> (b: bool)
        requires
            old(self).wf(),
        ensures
            final(self).wf(),
            final(self)@ == old(self)@.remove_item_path(owner@, path@, is_from_cache).0,
            b == old(self)@.remove_item_path(owner@, path@, is_from_cache).1,
    {
        if !self.contents.contains_key(owner) {
            return false;
        }
        proof {
            lemma_unbind(self@.mapping, path@);
        }
        self.file_inode_mapping.remove(path);
        self.unlink(owner, is_from_cache)
    }

    /// Draws up the plan that flushes `owner` to its backing file: the
    /// writes, the length to cut the file to (the size of the item), and,
    /// unless `only_sync_data` is set, the times to set.  The pages of
    /// `owner` are clean afterwards.  Fails, and changes nothing, if `owner`
    /// has no item.  The item counts as flushed once
    /// [`Cache::sync_owner_done`] has taken the outcome.
    pub fn sync_owner(&mut self, owner: &str, only_sync_data: bool) -> (r: Result<SyncPlan, CacheError>)
        requires
            old(self).wf(),
        ensures
            final(self).wf(),
            r.is_ok() == old(self)@.has_item(owner@),
            r.is_err() ==> final(self)@ == old(self)@,
            match r {
                Ok(plan) => final(self)@ == old(self)@.sync(owner@, only_sync_data).0 && plan@
                    == old(self)@.sync(owner@, only_sync_data).1,
                Err(e) => e == CacheError::NotCached,
            },
    {
        let idx = match self.contents.index_of(owner) {
            Some(i) => i,
            None => {
                return Err(CacheError::NotCached);
            },
        };
        proof {
            lemma_name_unique(self@.contents, idx as int);
        }
        let meta = self.contents.entries[idx].1.metadata;
        let size: u32 = if meta.size < 0 {
            0
        } else {
            meta.size as u32
        };
        let plan = self.engine.sync_pages(owner, size);
        proof {
            self.engine.lemma_usable();
        }
        let times = if only_sync_data {
            None
        } else {
            Some((meta.atim, meta.mtim))
        };
        Ok(SyncPlan { writes: plan.writes, truncate_to: plan.truncate_to, times })
    }

    /// Takes the outcome of carrying out a plan of [`Cache::sync_owner`]:
    /// with `flushed` set the item of `owner` counts as flushed.
    pub fn sync_owner_done(&mut self, owner: &str, flushed: bool)
        requires
            old(self).wf(),
        ensures
            final(self).wf(),
            final(self)@ == old(self)@.sync_done(owner@, flushed),
    {
        if flushed {
            match self.contents.index_of(owner) {
                Some(idx) => {
                    proof {
                        lemma_name_unique(self@.contents, idx as int);
                    }
                    self.contents.entries[idx].1.is_synced = true;
                    proof {
                        self.lemma_item_edited(*old(self), idx as int);
                    }
                },
                None => {},
            }
        }
    }

    /// Makes `new_cid` name the inode that `old_cid` names: see
    /// [`CacheView::rename`].  Always `true`.
    pub fn rename_item(&mut self, old_cid: &str, new_cid: &str) -> (b: bool)
        requires
            old(self).wf(),
        ensures
            final(self).wf(),
            final(self)@ == old(self)@.rename(old_cid@, new_cid@),
            b,
    {
        let inode = match self.file_inode_mapping.get(old_cid) {
            Some(i) => i.clone(),
            None => {
                return true;
            },
        };
        let replaced = match self.file_inode_mapping.get(new_cid) {
            Some(j) => Some(j.clone()),
            None => None,
        };
        proof {
            lemma_unbind(self@.mapping, new_cid@);
            lemma_bind(unbind(self@.mapping, new_cid@), new_cid@, inode@);
        }
        self.file_inode_mapping.remove(new_cid);
        self.file_inode_mapping.insert(new_cid.to_owned(), inode.clone());
        match replaced {
            Some(j) => {
                if !j.as_str().eq(inode.as_str()) && self.contents.contains_key(j.as_str()) {
                    self.unlink(j.as_str(), false);
                }
            },
            None => {},
        }
        true
    }

    /// Empties the cache: no path, no item, and the pages of every item released.
    pub fn clear_cache(&mut self)
        requires
            old(self).wf(),
        ensures
            final(self).wf(),
            final(self)@ == old(self)@.cleared(),
    {
        let ghost s = self@;
        let n = self.contents.len();
        let mut i: usize = 0;
        while i < n
            invariant
                i <= n,
                n == s.contents.len(),
                self.wf(),
                self@.contents == s.contents,
                self@.engine == forget_owners(s.engine, s.contents, i as int),
            decreases n - i,
        {
            let name = self.contents.key_at(i);
            self.engine.remove_cached_blocks(name.as_str());
            proof {
                self.engine.lemma_usable();
            }
            i += 1;
        }
        self.contents.clear();
        self.file_inode_mapping.clear();
    }

    /// Cuts the item of `inode` to `new_size` bytes: see [`CacheView::truncate`].
    pub fn truncate_item(&mut self, inode: &str, new_size: i32) -> (b: bool)
        requires
            old(self).wf(),
        ensures
            final(self).wf(),
            final(self)@ == old(self)@.truncate(inode@, new_size).0,
            b == old(self)@.truncate(inode@, new_size).1,
    {
        if new_size < 0 {
            return false;
        }
        let idx = match self.contents.index_of(inode) {
            Some(i) => i,
            None => {
                return false;
            },
        };
        proof {
            lemma_name_unique(self@.contents, idx as int);
        }
        let block_size = self.engine.io_block_size() as i32;
        let from = new_size / block_size;
        let index = new_size % block_size;
        let blocks = self.contents.entries[idx].1.data.cut_blocks_after(from, index);
        self.contents.entries[idx].1.metadata.size = new_size;
        self.contents.entries[idx].1.is_synced = false;
        self.engine.truncate_cached_blocks_in_order(inode, &blocks, from, index);
        proof {
            self.engine.lemma_usable();
            self.lemma_item_edited(*old(self), idx as int);
        }
        true
    }

    /// For each item that is not flushed, in the order of the items: its
    /// inode, its size, and its blocks that were not flushed.
    pub fn report_unsynced_data(&self) -> (r: Vec<UnsyncedItem>)
        requires
            self.wf(),
        ensures
            report_view(r@) == self@.unsynced_upto(self@.contents.len() as int),
    {
        let mut unsynced: Vec<UnsyncedItem> = Vec::new();
        let n = self.contents.len();
        let mut i: usize = 0;
        assert(report_view(unsynced@) =~= Seq::empty());
        while i < n
            invariant
                i <= n,
                n == self@.contents.len(),
                self.wf(),
                report_view(unsynced@) == self@.unsynced_upto(i as int),
            decreases n - i,
        {
            let ghost before = report_view(unsynced@);
            let item = self.contents.value_at(i);
            if !item.is_synced {
                let owner = self.contents.key_at(i);
                let size: usize = if item.metadata.size < 0 {
                    0
                } else {
                    item.metadata.size as usize
                };
                let blocks = self.engine.get_dirty_blocks_info(owner.as_str());
                unsynced.push(UnsyncedItem { inode: owner.clone(), size, blocks });
                assert(report_view(unsynced@) =~= before.push(unsynced@[unsynced@.len() - 1]@));
            }
            i += 1;
        }
        unsynced
    }

    pub fn get_original_inode(&self, path: &str) -> (r: Option<String>)
        requires
            self.wf(),
        ensures
            match r {
                Some(inode) => find(self@.mapping, path@) == Some(inode@),
                None => find(self@.mapping, path@).is_none(),
            },
    {
        match self.file_inode_mapping.get(path) {
            Some(inode) => Some(inode.clone()),
            None => None,
        }
    }

    /// Binds `path` to `inode`; with `increase`, the item of `inode` gets
    /// one link more.  With `increase` and no item of `inode` the binding is
    /// made all the same, and the call fails.
    pub fn insert_inode_mapping(&mut self, path: String, inode: String, increase: bool) -> (r: Result<
        (),
        CacheError,
    >)
        requires
            old(self).wf(),
        ensures
            final(self).wf(),
            final(self)@ == old(self)@.map_path(path@, inode@, increase).0,
            r == old(self)@.map_path(path@, inode@, increase).1,
    {
        proof {
            lemma_bind(self@.mapping, path@, inode@);
        }
        let found = if increase {
            self.contents.index_of(inode.as_str())
        } else {
            None
        };
        self.file_inode_mapping.insert(path, inode);
        if !increase {
            return Ok(());
        }
        match found {
            Some(idx) => {
                proof {
                    lemma_name_unique(self@.contents, idx as int);
                }
                let nlinks = self.contents.entries[idx].1.metadata.nlinks;
                if nlinks < 0xffff_ffff {
                    self.contents.entries[idx].1.metadata.nlinks = nlinks + 1;
                }
                proof {
                    let mid = Cache::<E> {
                        config: old(self).config,
                        file_inode_mapping: self.file_inode_mapping,
                        contents: old(self).contents,
                        engine: old(self).engine,
                    };
                    self.lemma_item_edited(mid, idx as int);
                }
                Ok(())
            },
            None => Err(CacheError::NotCached),
        }
    }

    /// The paths that name `inode`, in the order in which they were bound.
    pub fn find_files_mapped_to_inode(&self, inode: &str) -> (r: Vec<String>)
        requires
            self.wf(),
        ensures
            strings_view(r@) == paths_of(self@.mapping, inode@),
    {
        let mut paths: Vec<String> = Vec::new();
        let n = self.file_inode_mapping.len();
        let mut i: usize = 0;
        assert(strings_view(paths@) =~= Seq::empty());
        assert(self@.mapping.take(0) =~= Seq::empty());
        while i < n
            invariant
                i <= n,
                n == self@.mapping.len(),
                strings_view(paths@) == paths_of(self@.mapping.take(i as int), inode@),
            decreases n - i,
        {
            let ghost before = strings_view(paths@);
            proof {
                assert(self@.mapping.take(i + 1).drop_last() =~= self@.mapping.take(i as int));
                assert(self@.mapping.take(i + 1).last() == self@.mapping[i as int]);
            }
            if self.file_inode_mapping.value_at(i).as_str().eq(inode) {
                paths.push(self.file_inode_mapping.key_at(i).clone());
                assert(strings_view(paths@) =~= before.push(self@.mapping[i as int].0));
            }
            i += 1;
        }
        assert(self@.mapping.take(n as int) =~= self@.mapping);
        paths
    }
}

impl CacheView {
    /// The index of an item stays in order while the blocks placed are recorded.
    pub proof fn lemma_record_all(
        data: Seq<(BlockId, BlockInfo)>,
        engine: EngineView,
        cid: Seq<char>,
        assigned: Seq<(BlockId, PageId)>,
        reqs: Seq<UpdateView>,
        n: int,
    )
        requires
            ascending(data),
            engine.wf(),
            0 <= n <= assigned.len(),
            n <= reqs.len(),
        ensures
            ascending(Self::record_all(data, engine, cid, assigned, reqs, n).0),
            Self::record_all(data, engine, cid, assigned, reqs, n).1.wf(),
        decreases n,
    {
        if n > 0 {
            Self::lemma_record_all(data, engine, cid, assigned, reqs, n - 1);
            let prev = Self::record_all(data, engine, cid, assigned, reqs, n - 1);
            let block_id = assigned[n - 1].0;
            let page = assigned[n - 1].1;
            let info = placed_info(prev.0, block_id, page, reqs[n - 1].readable_to);
            lemma_with_entry(prev.0, block_id, info);
            lemma_without_key(prev.0, block_id);
            prev.1.lemma_mark_readable_wf(cid, page, block_id, info.readable_offset.1);
        }
    }

    /// The index of an item stays in order while the blocks read are taken note of.
    pub proof fn lemma_after_reads(data: Seq<(BlockId, BlockInfo)>, read: Seq<(BlockId, bool, Seq<u8>)>, n: int)
        requires
            ascending(data),
            0 <= n <= read.len(),
        ensures
            ascending(Self::after_reads(data, read, n)),
        decreases n,
    {
        if n > 0 {
            Self::lemma_after_reads(data, read, n - 1);
            lemma_without_key(Self::after_reads(data, read, n - 1), read[n - 1].0);
        }
    }
}

impl<E: PageCacheEngine> Cache<E> {
    /// Writes the blocks of `blocks` into the item of `cid`, in the order
    /// of the list.  An inode without item gets an empty one first.  Each
    /// block is placed by the engine on the page on which the item lists
    /// it, or on a new one.  A block that got a page is listed on it,
    /// readable up to `readable_to` at least; a block that got none leaves
    /// the item.  If a block got a page the item is not flushed any more.
    pub fn put_data_blocks_in_order(
        &mut self,
        cid: &str,
        blocks: &Vec<BlockUpdate>,
        operation_type: AllocateOperationType,
    ) -> (r: PutOutcome)
        requires
            old(self).wf(),
        ensures
            final(self).wf(),
            final(self)@.has_item(cid@),
            final(self)@ == old(self)@.ensure_item(cid@, final(self)@.item(cid@).metadata).put(
                cid@,
                updates_view(blocks@),
                operation_type == AllocateOperationType::OpWrite,
            ).0,
            r.results@ == old(self)@.ensure_item(cid@, final(self)@.item(cid@).metadata).put(
                cid@,
                updates_view(blocks@),
                operation_type == AllocateOperationType::OpWrite,
            ).1,
            flushes_view(r.flushes@) == old(self)@.ensure_item(
                cid@,
                final(self)@.item(cid@).metadata,
            ).put(cid@, updates_view(blocks@), operation_type == AllocateOperationType::OpWrite).2,
            !old(self)@.has_item(cid@) ==> final(self)@.item(cid@).metadata.nlinks == 1,
            !old(self)@.has_item(cid@) ==> final(self)@.item(cid@).metadata.size == 0,
    {
        self.insert_item_if_not_exists(cid);
        let ghost mid = *self;
        let ghost c1 = self@;
        let ghost reqs = updates_view(blocks@);
        let ghost is_write = operation_type == AllocateOperationType::OpWrite;
        let idx = match self.contents.index_of(cid) {
            Some(i) => i,
            None => vstd::pervasive::unreached(),
        };
        let ghost item0 = c1.item(cid@);
        proof {
            lemma_name_unique(c1.contents, idx as int);
            assert(self.contents.entries@[idx as int].1@ == item0);
        }
        let n = blocks.len();
        let mut put_mapping: Vec<BlockPlacement> = Vec::new();
        let mut i: usize = 0;
        while i < n
            invariant
                i <= n,
                n == blocks@.len(),
                reqs == updates_view(blocks@),
                *self == mid,
                c1 == mid@,
                idx < self.contents.entries@.len(),
                self.contents.entries@[idx as int].1@ == item0,
                item0 == c1.item(cid@),
                ascending(item0.data),
                put_mapping@.len() == i,
                forall|j: int|
                    0 <= j < i ==> (#[trigger] put_mapping@[j])@ == c1.placements(cid@, reqs)[j],
            decreases n - i,
        {
            let page_id = self.contents.entries[idx].1.data.get_page_id(blocks[i].block_id);
            put_mapping.push(
                BlockPlacement {
                    block_id: blocks[i].block_id,
                    page_id,
                    data: blocks[i].data,
                    offset: blocks[i].offset,
                },
            );
            i += 1;
        }
        let ghost placements = c1.placements(cid@, reqs);
        assert(placements_view(put_mapping@) =~= placements);
        let ghost placed = c1.engine.allocate_all(cid@, placements, is_write);
        proof {
            c1.engine.lemma_allocate_all(cid@, placements, is_write);
        }
        let outcome = self.engine.allocate_blocks_in_order(cid, &put_mapping, operation_type);
        proof {
            self.engine.lemma_usable();
        }
        let ghost assigned = outcome.assigned@;
        assert(assigned == placed.1);
        let mut results: Vec<(BlockId, bool)> = Vec::new();
        let mut allocated_at_least_one_page = false;
        let mut k: usize = 0;
        while k < n
            invariant
                k <= n,
                n == blocks@.len(),
                n == assigned.len(),
                assigned == outcome.assigned@,
                reqs == updates_view(blocks@),
                mid.wf(),
                c1 == mid@,
                item0 == c1.item(cid@),
                ascending(item0.data),
                placed.0.wf(),
                idx < mid.contents.entries@.len(),
                self.contents.entries@.len() == mid.contents.entries@.len(),
                forall|j: int|
                    0 <= j < mid.contents.entries@.len() && j != idx
                        ==> self.contents.entries@[j] == mid.contents.entries@[j],
                self.contents.entries@[idx as int].0 == mid.contents.entries@[idx as int].0,
                self.contents.entries@[idx as int].1.metadata == item0.metadata,
                self.contents.entries@[idx as int].1.is_synced == item0.is_synced,
                self.file_inode_mapping == mid.file_inode_mapping,
                self.engine.usable(),
                self.engine.pool().wf(),
                self.contents.entries@[idx as int].1.data.wf(),
                (self.contents.entries@[idx as int].1.data@, self.engine.pool()) == CacheView::record_all(
                    item0.data,
                    placed.0,
                    cid@,
                    assigned,
                    reqs,
                    k as int,
                ),
                results@ == Seq::new(k as nat, |j: int| (assigned[j].0, assigned[j].1 >= 0)),
                allocated_at_least_one_page == (exists|j: int|
                    0 <= j < k && (#[trigger] assigned[j]).1 >= 0),
            decreases n - k,
        {
            let (block_id, page_id) = outcome.assigned[k];
            let readable_to = blocks[k].readable_to;
            assert(reqs[k as int].readable_to == readable_to);
            if page_id >= 0 {
                allocated_at_least_one_page = true;
                let max_offset = self.contents.entries[idx].1.data.set_block_page_id(
                    block_id,
                    page_id,
                    0,
                    readable_to,
                );
                self.engine.make_block_readable_to_offset(cid, page_id, block_id, max_offset);
                proof {
                    self.engine.lemma_usable();
                }
            } else {
                self.contents.entries[idx].1.data.remove_block(block_id);
            }
            results.push((block_id, page_id >= 0));
            k += 1;
            assert(results@ =~= Seq::new(k as nat, |j: int| (assigned[j].0, assigned[j].1 >= 0)));
        }
        if allocated_at_least_one_page {
            self.contents.entries[idx].1.is_synced = false;
        }
        proof {
            reveal(CacheView::put);
            self.lemma_item_edited(mid, idx as int);
            assert(CacheView::any_placed(assigned) == allocated_at_least_one_page);
            assert(results@ =~= c1.put(cid@, reqs, is_write).1);
            let target = c1.put(cid@, reqs, is_write).0;
            assert(self@.contents == target.contents);
            assert(self@.engine == target.engine);
            assert(self@.item(cid@).metadata == item0.metadata);
        }
        PutOutcome { results, flushes: outcome.flushes }
    }

    /// Writes the blocks of `blocks` into the item of `cid`, in ascending
    /// order of block id: see [`Cache::put_data_blocks_in_order`].  Each
    /// block comes with its bytes, the byte of the block at which they
    /// start, and the last byte of the block that holds data afterwards.
    pub fn put_data_blocks(
        &mut self,
        cid: &str,
        blocks: &HashMap<BlockId, (&Vec<u8>, i32, i32)>,
        operation_type: AllocateOperationType,
    ) -> (r: MappedPut)
        requires
            old(self).wf(),
        ensures
            final(self).wf(),
            final(self)@.has_item(cid@),
            final(self)@ == old(self)@.ensure_item(cid@, final(self)@.item(cid@).metadata).put(
                cid@,
                updates_of(entries_of(blocks@)),
                operation_type == AllocateOperationType::OpWrite,
            ).0,
            r.results@ == to_map(
                old(self)@.ensure_item(cid@, final(self)@.item(cid@).metadata).put(
                    cid@,
                    updates_of(entries_of(blocks@)),
                    operation_type == AllocateOperationType::OpWrite,
                ).1,
            ),
            flushes_view(r.flushes@) == old(self)@.ensure_item(
                cid@,
                final(self)@.item(cid@).metadata,
            ).put(
                cid@,
                updates_of(entries_of(blocks@)),
                operation_type == AllocateOperationType::OpWrite,
            ).2,
            !old(self)@.has_item(cid@) ==> final(self)@.item(cid@).metadata.nlinks == 1,
            !old(self)@.has_item(cid@) ==> final(self)@.item(cid@).metadata.size == 0,
    {
        let ghost s = self@;
        let sorted = BlockMap::from_hash_map(blocks);
        let mut updates: Vec<BlockUpdate> = Vec::new();
        let mut i: usize = 0;
        while i < sorted.len()
            invariant
                i <= sorted@.len(),
                updates@.len() == i,
                forall|j: int| 0 <= j < i ==> (#[trigger] updates@[j])@ == updates_of(sorted@)[j],
            decreases sorted@.len() - i,
        {
            let block_id = sorted.key_at(i);
            let (data, offset, readable_to) = *sorted.value_at(i);
            updates.push(BlockUpdate { block_id, data, offset, readable_to });
            i += 1;
        }
        assert(updates_view(updates@) =~= updates_of(sorted@));
        let outcome = self.put_data_blocks_in_order(cid, &updates, operation_type);
        proof {
            let start = s.ensure_item(cid@, self@.item(cid@).metadata);
            let is_write = operation_type == AllocateOperationType::OpWrite;
            let reqs = updates_of(sorted@);
            if !s.has_item(cid@) {
                lemma_bind(s.contents, cid@, empty_item(self@.item(cid@).metadata));
                assert forall|j: int| 0 <= j < start.contents.len() implies ascending(
                    (#[trigger] start.contents[j]).1.data,
                ) by {
                    if j < s.contents.len() {
                        assert(start.contents[j] == s.contents[j]);
                    }
                }
            }
            reveal(CacheView::put);
            start.engine.lemma_allocate_all(cid@, start.placements(cid@, reqs), is_write);
            let results = start.put(cid@, reqs, is_write).1;
            assert forall|a: int, b: int| 0 <= a < b < results.len() implies (
            #[trigger] results[a]).0 < (#[trigger] results[b]).0 by {
                assert(sorted@[a].0 < sorted@[b].0);
            }
        }
        MappedPut { results: hash_map_of(&outcome.results), flushes: outcome.flushes }
    }

    /// Reads `blocks` of the item of `cid`, in the order of the list.  An
    /// inode without item gives nothing.  Blocks that the item does not
    /// list are passed over.  Each of the others is read whole from the
    /// page on which the item lists it: a hit gives the readable bytes of
    /// the block and where they lie; a miss takes the block out of the item.
    pub fn get_data_blocks(&mut self, cid: &str, blocks: &Vec<BlockId>) -> (r: Vec<BlockFetch>)
        requires
            old(self).wf(),
        ensures
            final(self).wf(),
            final(self)@ == old(self)@.get(cid@, blocks@).0,
            fetches_view(r@) == old(self)@.get(cid@, blocks@).1,
    {
        let ghost s = self@;
        let ghost mid = *self;
        let mut out: Vec<BlockFetch> = Vec::new();
        proof {
            reveal(CacheView::get);
        }
        assert(fetches_view(out@) =~= Seq::empty());
        let idx = match self.contents.index_of(cid) {
            Some(i) => i,
            None => {
                return out;
            },
        };
        let ghost item0 = s.item(cid@);
        proof {
            lemma_name_unique(s.contents, idx as int);
            assert(self.contents.entries@[idx as int].1@ == item0);
            assert(s.engine.sizes_ok());
        }
        let max_offset = (self.engine.io_block_size() - 1) as i32;
        let mut mapping: Vec<BlockRead> = Vec::new();
        let mut i: usize = 0;
        assert(blocks@.take(0) =~= Seq::empty());
        assert(reads_view(mapping@) =~= Seq::empty());
        while i < blocks.len()
            invariant
                i <= blocks@.len(),
                *self == mid,
                s == mid@,
                idx < self.contents.entries@.len(),
                self.contents.entries@[idx as int].1@ == item0,
                ascending(item0.data),
                max_offset == s.engine.block_size - 1,
                reads_view(mapping@) == CacheView::read_requests(
                    item0.data,
                    blocks@.take(i as int),
                    s.engine.block_size,
                ),
            decreases blocks@.len() - i,
        {
            let block_id = blocks[i];
            let ghost before = reads_view(mapping@);
            proof {
                assert(blocks@.take(i + 1).drop_last() =~= blocks@.take(i as int));
                assert(blocks@.take(i + 1).last() == block_id);
            }
            if self.contents.entries[idx].1.data.has_block(block_id) {
                let old_page = self.contents.entries[idx].1.data.get_page_id(block_id);
                mapping.push(
                    BlockRead { block_id, page_id: old_page, read_to_max_index: max_offset },
                );
                assert(reads_view(mapping@) =~= before.push((block_id, old_page, max_offset)));
            }
            i += 1;
        }
        assert(blocks@.take(blocks@.len() as int) =~= blocks@);
        let ghost reqs = CacheView::read_requests(item0.data, blocks@, s.engine.block_size);
        let ghost read = s.engine.read_all(cid@, reqs);
        proof {
            s.engine.lemma_read_all(cid@, reqs);
        }
        let mut res = self.engine.get_blocks(cid, &mapping);
        proof {
            self.engine.lemma_usable();
        }
        assert(data_view(res@) == read.1);
        let n = res.len();
        let mut k: usize = 0;
        while k < n
            invariant
                k <= n,
                n == res@.len(),
                n == read.1.len(),
                forall|j: int| k <= j < n ==> (#[trigger] res@[j])@ == read.1[j],
                forall|j: int|
                    0 <= j < k ==> (#[trigger] res@[j]).block_id == read.1[j].0 && res@[j].hit
                        == read.1[j].1,
                mid.wf(),
                s == mid@,
                ascending(item0.data),
                idx < mid.contents.entries@.len(),
                self.contents.entries@.len() == mid.contents.entries@.len(),
                forall|j: int|
                    0 <= j < mid.contents.entries@.len() && j != idx
                        ==> self.contents.entries@[j] == mid.contents.entries@[j],
                self.contents.entries@[idx as int].0 == mid.contents.entries@[idx as int].0,
                self.contents.entries@[idx as int].1.metadata == item0.metadata,
                self.contents.entries@[idx as int].1.is_synced == item0.is_synced,
                self.file_inode_mapping == mid.file_inode_mapping,
                self.engine.usable(),
                self.engine.pool().wf(),
                self.engine.pool() == read.0,
                self.contents.entries@[idx as int].1.data.wf(),
                self.contents.entries@[idx as int].1.data@ == CacheView::after_reads(
                    item0.data,
                    read.1,
                    k as int,
                ),
                out@.len() == k,
                forall|j: int|
                    0 <= j < k ==> (#[trigger] out@[j])@ == CacheView::fetched(
                        CacheView::after_reads(item0.data, read.1, j),
                        read.1[j],
                    ),
            decreases n - k,
        {
            let block_id = res[k].block_id;
            let hit = res[k].hit;
            assert(res@[k as int]@ == read.1[k as int]);
            let ghost index_before = self.contents.entries@[idx as int].1.data@;
            if hit {
                let readable = self.contents.entries[idx].1.data.get_readable_offsets(block_id);
                let mut data: Vec<u8> = Vec::new();
                core::mem::swap(&mut res[k].data, &mut data);
                assert(data@ == read.1[k as int].2);
                match readable {
                    Some(range) => {
                        if 0 <= range.1 && (range.1 as usize) < data.len() {
                            data.truncate(range.1 as usize + 1);
                        }
                    },
                    None => {},
                }
                assert(data@ =~= readable_part(read.1[k as int].2, readable));
                out.push(BlockFetch { block_id, hit: true, readable, data });
            } else {
                self.contents.entries[idx].1.data.remove_block(block_id);
                let data: Vec<u8> = Vec::new();
                assert(data@ =~= Seq::<u8>::empty());
                out.push(BlockFetch { block_id, hit: false, readable: None, data });
            }
            assert(out@[k as int]@ == CacheView::fetched(index_before, read.1[k as int]));
            k += 1;
        }
        proof {
            self.lemma_item_edited(mid, idx as int);
            let target = s.get(cid@, blocks@);
            assert(fetches_view(out@) =~= target.1);
            assert(self@.contents == target.0.contents);
        }
        out
    }

    /// Draws up the plans that flush every file: for every path, in the
    /// order in which the paths were bound, the plan of its inode, times
    /// included.  Fails, and changes nothing, if a path names an inode
    /// without item.
    pub fn full_checkpoint(&mut self) -> (r: Result<Vec<CheckpointStep>, CacheError>)
        requires
            old(self).wf(),
        ensures
            final(self).wf(),
            r.is_ok() == old(self)@.all_mapped_cached(),
            match r {
                Ok(steps) => final(self)@ == old(self)@.checkpoint_upto(
                    old(self)@.mapping.len() as int,
                ).0 && steps_view(steps@) == old(self)@.checkpoint_upto(
                    old(self)@.mapping.len() as int,
                ).1,
                Err(e) => e == CacheError::NotCached && final(self)@ == old(self)@,
            },
    {
        let ghost s = self@;
        let n = self.file_inode_mapping.len();
        let mut i: usize = 0;
        while i < n
            invariant
                i <= n,
                n == s.mapping.len(),
                *self == *old(self),
                s == self@,
                self.wf(),
                forall|j: int| 0 <= j < i ==> s.has_item((#[trigger] s.mapping[j]).1),
            decreases n - i,
        {
            if !self.contents.contains_key(self.file_inode_mapping.value_at(i).as_str()) {
                assert(!s.has_item(s.mapping[i as int].1));
                return Err(CacheError::NotCached);
            }
            i += 1;
        }
        let mut steps: Vec<CheckpointStep> = Vec::new();
        let mut k: usize = 0;
        assert(steps_view(steps@) =~= Seq::empty());
        while k < n
            invariant
                k <= n,
                n == s.mapping.len(),
                s.all_mapped_cached(),
                self.wf(),
                self@.mapping == s.mapping,
                self@.contents == s.contents,
                self@ == s.checkpoint_upto(k as int).0,
                steps@.len() == k,
                steps_view(steps@) == s.checkpoint_upto(k as int).1,
            decreases n - k,
        {
            let ghost before = steps_view(steps@);
            let path = self.file_inode_mapping.key_at(k).clone();
            let inode = self.file_inode_mapping.value_at(k).clone();
            assert(s.has_item(s.mapping[k as int].1));
            match self.sync_owner(inode.as_str(), false) {
                Ok(plan) => {
                    steps.push(CheckpointStep { path, inode, plan });
                    assert(steps_view(steps@) =~= before.push(steps@[k as int]@));
                },
                Err(_) => {
                    vstd::pervasive::unreached::<()>();
                },
            }
            k += 1;
        }
        Ok(steps)
    }
}

} // verus!
