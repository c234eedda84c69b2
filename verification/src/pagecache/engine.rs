//! The page engine: pages, their block layout, and the pool that hands them out.

use vstd::prelude::*;
use crate::pagecache::engine::backends::custom::{
    data_view,
    flushes_view,
    placements_view,
    reads_view,
    AllocationOutcome,
    BlockData,
    BlockPlacement,
    BlockRead,
    FlushPlan,
};
use crate::pagecache::engine::backends::pool::EngineView;
use crate::pagecache::engine::page::writes_view;
use crate::pagecache::{BlockId, Offsets, PageId};

pub mod backends;
pub mod block_offsets;
pub mod page;

verus! {

/// Why blocks are being placed in the cache.
#[derive(Debug, PartialEq, Eq, Structural, Clone, Copy)]
pub enum AllocateOperationType {
    /// The data was read from the backing file.
    OpRead,
    /// The data was written by the user and is newer than the backing file.
    OpWrite,
    /// Any other origin; treated as a read.
    OpPassthrough,
}

/// What a page engine can do.  Whatever keeps to these contracts can stand
/// behind the cache: the contracts say what each operation makes of the
/// pool, told by its model.
pub trait PageCacheEngine {
    /// The pool that the engine holds.
    spec fn pool(&self) -> EngineView;

    /// The engine is in a state in which its operations can be called.
    spec fn usable(&self) -> bool;

    /// The pool of a usable engine is well formed.
    proof fn lemma_usable(&self)
        requires
            self.usable(),
        ensures
            self.pool().wf(),
    ;

    /// The size of a block.
    fn io_block_size(&self) -> (n: usize)
        requires
            self.usable(),
        ensures
            n == self.pool().block_size,
    ;

    fn allocate_blocks_in_order(
        &mut self,
        content_owner_id: &str,
        block_data_mapping: &Vec<BlockPlacement>,
        operation_type: AllocateOperationType,
    ) -> (r: AllocationOutcome)
        requires
            old(self).usable(),
        ensures
            final(self).usable(),
            final(self).pool() == old(self).pool().allocate_all(
                content_owner_id@,
                placements_view(block_data_mapping@),
                operation_type == AllocateOperationType::OpWrite,
            ).0,
            r.assigned@ == old(self).pool().allocate_all(
                content_owner_id@,
                placements_view(block_data_mapping@),
                operation_type == AllocateOperationType::OpWrite,
            ).1,
            flushes_view(r.flushes@) == old(self).pool().allocate_all(
                content_owner_id@,
                placements_view(block_data_mapping@),
                operation_type == AllocateOperationType::OpWrite,
            ).2,
    ;

    fn get_blocks(&mut self, content_owner_id: &str, block_pages: &Vec<BlockRead>) -> (r: Vec<
        BlockData,
    >)
        requires
            old(self).usable(),
        ensures
            final(self).usable(),
            final(self).pool() == old(self).pool().read_all(
                content_owner_id@,
                reads_view(block_pages@),
            ).0,
            data_view(r@) == old(self).pool().read_all(
                content_owner_id@,
                reads_view(block_pages@),
            ).1,
    ;

    fn is_block_cached(&self, content_owner_id: &str, page_id: PageId, block_id: BlockId) -> (b:
        bool)
        requires
            self.usable(),
        ensures
            b == self.pool().is_cached(content_owner_id@, page_id, block_id),
    ;

    fn make_block_readable_to_offset(
        &mut self,
        cid: &str,
        page_id: PageId,
        block_id: BlockId,
        offset: i32,
    )
        requires
            old(self).usable(),
        ensures
            final(self).usable(),
            final(self).pool() == old(self).pool().mark_readable(cid@, page_id, block_id, offset),
    ;

    fn get_engine_usage(&self) -> (r: (usize, usize))
        requires
            self.usable(),
        ensures
            r.0 == self.pool().nr_pages - self.pool().free_pages.len(),
            r.1 == self.pool().nr_pages,
            r.0 <= r.1,
    ;

    fn remove_cached_blocks(&mut self, content_owner_id: &str) -> (b: bool)
        requires
            old(self).usable(),
        ensures
            final(self).usable(),
            final(self).pool() == old(self).pool().remove_owner(content_owner_id@),
            b,
    ;

    fn sync_pages(&mut self, owner: &str, size: u32) -> (plan: FlushPlan)
        requires
            old(self).usable(),
        ensures
            final(self).usable(),
            final(self).pool() == old(self).pool().after_sync(owner@),
            writes_view(plan.writes@) == old(self).pool().sync_writes(owner@),
            plan.truncate_to == size,
    ;

    fn rename_owner_pages(&mut self, old_owner: &str, new_owner: &str) -> (b: bool)
        requires
            old(self).usable(),
        ensures
            final(self).usable(),
            final(self).pool() == old(self).pool().rename_owner(old_owner@, new_owner@).0,
            b == old(self).pool().rename_owner(old_owner@, new_owner@).1,
    ;

    fn truncate_cached_blocks_in_order(
        &mut self,
        content_owner_id: &str,
        blocks_to_remove: &Vec<(BlockId, PageId)>,
        from_block_id: BlockId,
        index_inside_block: i32,
    ) -> (b: bool)
        requires
            old(self).usable(),
        ensures
            final(self).usable(),
            final(self).pool() == old(self).pool().truncate_all(
                content_owner_id@,
                blocks_to_remove@,
                from_block_id,
                index_inside_block,
            ),
            b,
    ;

    fn get_dirty_blocks_info(&self, owner: &str) -> (r: Vec<(BlockId, Offsets, PageId)>)
        requires
            self.usable(),
        ensures
            r@ == self.pool().unsynced_info(self.pool().owner(owner@).ordered),
    ;
}

} // verus!
