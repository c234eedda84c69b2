//! One page of the pool: a slab of bytes cut into block-sized slots.

use vstd::prelude::*;
use crate::block_map::{
    ascending,
    has_key,
    lemma_position_unique,
    lemma_with_entry,
    lemma_without_key,
    lookup,
    position,
    with_entry,
    without_key,
};
use crate::pagecache::config::Config;
use crate::pagecache::engine::block_offsets::{BlockOffsets, BlockOffsetsView};
use crate::pagecache::{BlockId, Offsets};

verus! {

/// Why an operation on a page was refused.
#[derive(Debug, PartialEq, Eq, Structural, Clone, Copy)]
pub enum PageError {
    /// The block size is zero or does not divide the page size.
    NotMultipleOfBlock,
    /// The page size does not fit in 32 signed bits.
    PageTooLarge,
    /// Every slot of the page holds a block.
    NoFreeSlot,
    /// The block is already resident in the page.
    BlockPresent,
    /// The block id is negative.
    InvalidBlock,
    /// The data would reach past the end of the block.
    DataTooLong,
    /// The block is not resident, or the bytes asked for do not lie in the
    /// page or do not fit the buffer.
    InvalidRange,
}

/// One positional write to a backing file.
pub struct BlockWrite {
    /// Byte offset in the file at which the data goes.
    pub offset: u64,
    pub data: Vec<u8>,
}

impl View for BlockWrite {
    type V = (u64, Seq<u8>);

    open spec fn view(&self) -> (u64, Seq<u8>) {
        (self.offset, self.data@)
    }
}

/// The views of a list of writes, in order.
pub open spec fn writes_view(w: Seq<BlockWrite>) -> Seq<(u64, Seq<u8>)> {
    Seq::new(w.len(), |i: int| w[i]@)
}

/// `data` with `bytes` laid over it from index `at` on.
pub open spec fn write_at(data: Seq<u8>, at: int, bytes: Seq<u8>) -> Seq<u8> {
    Seq::new(
        data.len(),
        |i: int|
            if at <= i < at + bytes.len() {
                bytes[i - at]
            } else {
                data[i]
            },
    )
}

/// `data` with zeros from index `from` up to, not including, `to`.
pub open spec fn zeroed(data: Seq<u8>, from: int, to: int) -> Seq<u8> {
    Seq::new(
        data.len(),
        |i: int|
            if from <= i < to {
                0u8
            } else {
                data[i]
            },
    )
}

/// The free slots of an empty page: `0`, one block size, two block sizes, and so on.
pub open spec fn seeded_slots(block_size: int, page_size: int) -> Seq<i32> {
    Seq::new((page_size / block_size) as nat, |i: int| (i * block_size) as i32)
}

/// The owner of a page that belongs to nobody.
pub open spec fn no_owner() -> Seq<char> {
    "none"@
}

pub struct Page {
    pub(crate) is_dirty: bool,
    pub(crate) page_owner_id: String,
    pub(crate) free_block_indexes: Vec<i32>,
    pub(crate) io_block_size: usize,
    pub(crate) cache_page_size: usize,
    pub(crate) data: Vec<u8>,
    pub(crate) allocated_block_ids: BlockOffsets,
}

/// What a page holds.
pub struct PageView {
    pub dirty: bool,
    pub owner: Seq<char>,
    /// The stack of free slots, each named by its first byte; the last is taken first.
    pub free_slots: Seq<i32>,
    pub io_block_size: usize,
    pub cache_page_size: usize,
    pub data: Seq<u8>,
    pub blocks: BlockOffsetsView,
}

impl PageView {
    /// An empty page of the given sizes: zeroed, clean, every slot free.
    pub open spec fn fresh(block_size: usize, page_size: usize, owner: Seq<char>) -> PageView {
        PageView {
            dirty: false,
            owner,
            free_slots: seeded_slots(block_size as int, page_size as int),
            io_block_size: block_size,
            cache_page_size: page_size,
            data: Seq::new(page_size as nat, |i: int| 0u8),
            blocks: BlockOffsetsView::empty(),
        }
    }

    /// `f` is the first byte of a slot of the page.
    pub open spec fn is_slot(self, f: i32) -> bool {
        0 <= f && (f as int) % (self.io_block_size as int) == 0 && f + self.io_block_size
            <= self.cache_page_size
    }

    /// The free slots are slots of the page, each once.
    pub open spec fn slots_ok(self) -> bool {
        &&& forall|i: int| 0 <= i < self.free_slots.len() ==> self.is_slot(#[trigger] self.free_slots[i])
        &&& forall|i: int, j: int|
            0 <= i < j < self.free_slots.len() ==> #[trigger] self.free_slots[i]
                != #[trigger] self.free_slots[j]
    }

    /// Every resident block has a block id that is not negative and
    /// occupies one slot of the page, and no two blocks share a slot.
    pub open spec fn blocks_ok(self) -> bool {
        &&& forall|i: int|
            0 <= i < self.blocks.offsets.len() ==> {
                let e = #[trigger] self.blocks.offsets[i];
                e.0 >= 0 && self.is_slot(e.1.0) && e.1.1 == e.1.0 + self.io_block_size - 1
            }
        &&& forall|i: int, j: int|
            0 <= i < j < self.blocks.offsets.len() ==> (#[trigger] self.blocks.offsets[i]).1.0 != (
            #[trigger] self.blocks.offsets[j]).1.0
    }

    /// No resident block occupies a free slot.
    pub open spec fn apart_ok(self) -> bool {
        forall|i: int, j: int|
            0 <= i < self.blocks.offsets.len() && 0 <= j < self.free_slots.len() ==> (
            #[trigger] self.blocks.offsets[i]).1.0 != #[trigger] self.free_slots[j]
    }

    /// Every mark belongs to a resident block and lies inside it.
    pub open spec fn marks_ok(self) -> bool {
        forall|i: int|
            0 <= i < self.blocks.readable.len() ==> {
                let e = #[trigger] self.blocks.readable[i];
                has_key(self.blocks.offsets, e.0) && 0 <= e.1 < self.io_block_size
            }
    }

    /// The free slots and the slots of the resident blocks are the slots of
    /// the page, each once; every mark belongs to a resident block and lies
    /// inside it; a dirty page holds a block.
    pub open spec fn wf(self) -> bool {
        &&& self.io_block_size > 0
        &&& self.cache_page_size % self.io_block_size == 0
        &&& self.cache_page_size <= i32::MAX
        &&& self.data.len() == self.cache_page_size
        &&& ascending(self.blocks.offsets)
        &&& ascending(self.blocks.readable)
        &&& self.slots_ok()
        &&& self.blocks_ok()
        &&& self.apart_ok()
        &&& self.free_slots.len() + self.blocks.offsets.len() == self.cache_page_size as int / (
        self.io_block_size as int)
        &&& self.marks_ok()
        &&& self.dirty ==> self.blocks.offsets.len() > 0
    }

    /// The page after `block_id`, which is not resident, took the slot on
    /// top of the stack of free slots.
    pub open spec fn take_slot(self, block_id: BlockId) -> PageView {
        PageView {
            free_slots: self.free_slots.drop_last(),
            blocks: BlockOffsetsView {
                offsets: with_entry(
                    self.blocks.offsets,
                    block_id,
                    (
                        self.free_slots.last(),
                        (self.free_slots.last() + self.io_block_size - 1) as i32,
                    ),
                ),
                ..self.blocks
            },
            ..self
        }
    }

    pub open spec fn contains(self, block_id: BlockId) -> bool {
        self.blocks.contains(block_id)
    }

    /// First byte of the slot of `block_id`, which is resident.
    pub open spec fn lo(self, block_id: BlockId) -> int {
        self.blocks.offsets_of(block_id).0 as int
    }

    /// The writes that carry every resident block, whole, to its place in
    /// the backing file, in ascending order of block id.
    pub open spec fn block_writes(self) -> Seq<(u64, Seq<u8>)> {
        Seq::new(
            self.blocks.offsets.len(),
            |i: int|
                (
                    (self.blocks.offsets[i].0 * self.io_block_size) as u64,
                    self.data.subrange(
                        self.blocks.offsets[i].1.0 as int,
                        self.blocks.offsets[i].1.0 + self.io_block_size,
                    ),
                ),
        )
    }
}

impl View for Page {
    type V = PageView;

    open(crate) spec fn view(&self) -> PageView {
        PageView {
            dirty: self.is_dirty,
            owner: self.page_owner_id@,
            free_slots: self.free_block_indexes@,
            io_block_size: self.io_block_size,
            cache_page_size: self.cache_page_size,
            data: self.data@,
            blocks: self.allocated_block_ids@,
        }
    }
}

/// The first bytes of the slots of a page are slots of the page.
pub proof fn lemma_seeded_slots(block_size: int, page_size: int, i: int)
    requires
        block_size > 0,
        page_size >= 0,
        page_size % block_size == 0,
        0 <= i < page_size / block_size,
    ensures
        0 <= i * block_size,
        (i * block_size) % block_size == 0,
        i * block_size + block_size <= page_size,
{
    vstd::arithmetic::div_mod::lemma_mod_multiples_basic(i, block_size);
    vstd::arithmetic::div_mod::lemma_fundamental_div_mod(page_size, block_size);
    assert(i * block_size + block_size <= (page_size / block_size) * block_size)
        by (nonlinear_arith)
        requires
            0 <= i < page_size / block_size,
            block_size > 0,
    ;
    assert(block_size * (page_size / block_size) == (page_size / block_size) * block_size)
        by (nonlinear_arith);
    assert(0 <= i * block_size) by (nonlinear_arith)
        requires
            0 <= i,
            block_size > 0,
    ;
}

/// An empty page is well formed.
pub proof fn lemma_fresh_wf(block_size: usize, page_size: usize, owner: Seq<char>)
    requires
        block_size > 0,
        page_size % block_size == 0,
        page_size <= i32::MAX,
    ensures
        PageView::fresh(block_size, page_size, owner).wf(),
{
    let v = PageView::fresh(block_size, page_size, owner);
    let bs = block_size as int;
    let ps = page_size as int;
    assert forall|i: int| 0 <= i < v.free_slots.len() implies v.is_slot(
        #[trigger] v.free_slots[i],
    ) by {
        lemma_seeded_slots(bs, ps, i);
    }
    assert forall|i: int, j: int| 0 <= i < j < v.free_slots.len() implies #[trigger] v.free_slots[i]
        != #[trigger] v.free_slots[j] by {
        lemma_seeded_slots(bs, ps, i);
        lemma_seeded_slots(bs, ps, j);
        assert(i * bs < j * bs) by (nonlinear_arith)
            requires
                0 <= i < j,
                bs > 0,
        ;
    }
}

/// A page on which a new block took a free slot is well formed, holds the
/// block in that slot, and holds every other block where it was.
pub proof fn lemma_take_slot(page: PageView, block_id: BlockId)
    requires
        page.wf(),
        block_id >= 0,
        !page.contains(block_id),
        page.free_slots.len() > 0,
    ensures
        page.take_slot(block_id).wf(),
        page.take_slot(block_id).contains(block_id),
        page.take_slot(block_id).blocks.offsets_of(block_id) == (
            page.free_slots.last(),
            (page.free_slots.last() + page.io_block_size - 1) as i32,
        ),
        page.is_slot(page.free_slots.last()),
        forall|b: BlockId|
            b != block_id ==> page.take_slot(block_id).contains(b) == page.contains(b)
                && page.take_slot(block_id).blocks.offsets_of(b) == page.blocks.offsets_of(b),
{
    let next = page.take_slot(block_id);
    let n = page.free_slots.len() as int;
    let slot = page.free_slots.last();
    assert(page.is_slot(page.free_slots[n - 1]));
    let offs = (slot, (slot + page.io_block_size - 1) as i32);
    let o = page.blocks.offsets;
    let f = next.blocks.offsets;
    lemma_with_entry(o, block_id, offs);
    let r = crate::block_map::rank(o, block_id);
    crate::block_map::lemma_rank_bounds(o, block_id);
    assert(f == o.insert(r, (block_id, offs)));
    assert(f.len() == o.len() + 1);
    assert(next.slots_ok()) by {
        assert forall|i: int| 0 <= i < next.free_slots.len() implies next.is_slot(
            #[trigger] next.free_slots[i],
        ) by {
            assert(next.free_slots[i] == page.free_slots[i]);
        }
        assert forall|i: int, j: int| 0 <= i < j < next.free_slots.len() implies (
        #[trigger] next.free_slots[i]) != #[trigger] next.free_slots[j] by {
            assert(next.free_slots[i] == page.free_slots[i]);
            assert(next.free_slots[j] == page.free_slots[j]);
        }
    }
    assert(next.blocks_ok()) by {
        assert forall|i: int| 0 <= i < f.len() implies {
            let e = #[trigger] f[i];
            e.0 >= 0 && next.is_slot(e.1.0) && e.1.1 == e.1.0 + next.io_block_size - 1
        } by {
            if i < r {
                assert(f[i] == o[i]);
            } else if i > r {
                assert(f[i] == o[i - 1]);
            }
        }
        assert forall|i: int, j: int| 0 <= i < j < f.len() implies (#[trigger] f[i]).1.0 != (
        #[trigger] f[j]).1.0 by {
            let a = if i < r {
                i
            } else {
                i - 1
            };
            let b = if j < r {
                j
            } else {
                j - 1
            };
            if i != r {
                assert(f[i] == o[a]);
            }
            if j != r {
                assert(f[j] == o[b]);
            }
            if i == r {
                assert(o[b].1.0 != page.free_slots[n - 1]);
            } else if j == r {
                assert(o[a].1.0 != page.free_slots[n - 1]);
            }
        }
    }
    assert(next.apart_ok()) by {
        assert forall|i: int, j: int|
            0 <= i < f.len() && 0 <= j < next.free_slots.len() implies (#[trigger] f[i]).1.0
            != #[trigger] next.free_slots[j] by {
            assert(next.free_slots[j] == page.free_slots[j]);
            if i < r {
                assert(f[i] == o[i]);
            } else if i > r {
                assert(f[i] == o[i - 1]);
            } else {
                assert(page.free_slots[j] != page.free_slots[n - 1]);
            }
        }
    }
    assert(next.marks_ok()) by {
        assert forall|i: int| 0 <= i < next.blocks.readable.len() implies {
            let e = #[trigger] next.blocks.readable[i];
            has_key(f, e.0) && 0 <= e.1 < next.io_block_size
        } by {
            let e = page.blocks.readable[i];
            assert(has_key(o, e.0));
        }
    }
}

/// A page without one of its blocks is well formed and holds the others where they were.
pub proof fn lemma_without_block(page: PageView, block_id: BlockId)
    requires
        page.wf(),
    ensures
        page.without_block(block_id).wf(),
        !page.without_block(block_id).contains(block_id),
        page.without_block(block_id).free_slots.len() >= page.free_slots.len(),
        forall|b: BlockId|
            b != block_id ==> page.without_block(block_id).contains(b) == page.contains(b)
                && page.without_block(block_id).blocks.offsets_of(b) == page.blocks.offsets_of(b),
{
    let next = page.without_block(block_id);
    lemma_without_key(page.blocks.offsets, block_id);
    if page.contains(block_id) {
        let o = page;
        let f = next;
        let p = position(o.blocks.offsets, block_id);
        assert(o.blocks.offsets[p].0 == block_id);
        lemma_position_unique(o.blocks.offsets, p);
        lemma_without_key(o.blocks.readable, block_id);
        assert(f.blocks.offsets == o.blocks.offsets.remove(p));
        assert(f.blocks.offsets.len() == o.blocks.offsets.len() - 1);
        assert(o.is_slot(o.blocks.offsets[p].1.0));
        assert(f.slots_ok()) by {
            assert forall|i: int| 0 <= i < f.free_slots.len() implies f.is_slot(
                #[trigger] f.free_slots[i],
            ) by {
                if i < o.free_slots.len() {
                    assert(f.free_slots[i] == o.free_slots[i]);
                }
            }
            assert forall|i: int, j: int| 0 <= i < j < f.free_slots.len() implies (
            #[trigger] f.free_slots[i]) != #[trigger] f.free_slots[j] by {
                assert(f.free_slots[i] == o.free_slots[i]);
                if j < o.free_slots.len() {
                    assert(f.free_slots[j] == o.free_slots[j]);
                } else {
                    assert(o.blocks.offsets[p].1.0 != o.free_slots[i]);
                }
            }
        }
        assert(f.blocks_ok()) by {
            assert forall|i: int| 0 <= i < f.blocks.offsets.len() implies {
                let e = #[trigger] f.blocks.offsets[i];
                e.0 >= 0 && f.is_slot(e.1.0) && e.1.1 == e.1.0 + f.io_block_size - 1
            } by {
                if i < p {
                    assert(f.blocks.offsets[i] == o.blocks.offsets[i]);
                } else {
                    assert(f.blocks.offsets[i] == o.blocks.offsets[i + 1]);
                }
            }
            assert forall|i: int, j: int| 0 <= i < j < f.blocks.offsets.len() implies (
            #[trigger] f.blocks.offsets[i]).1.0 != (#[trigger] f.blocks.offsets[j]).1.0 by {
                let a = if i < p {
                    i
                } else {
                    i + 1
                };
                let b = if j < p {
                    j
                } else {
                    j + 1
                };
                assert(f.blocks.offsets[i] == o.blocks.offsets[a]);
                assert(f.blocks.offsets[j] == o.blocks.offsets[b]);
            }
        }
        assert(f.apart_ok()) by {
            assert forall|i: int, j: int|
                0 <= i < f.blocks.offsets.len() && 0 <= j < f.free_slots.len() implies (
            #[trigger] f.blocks.offsets[i]).1.0 != #[trigger] f.free_slots[j] by {
                let a = if i < p {
                    i
                } else {
                    i + 1
                };
                assert(f.blocks.offsets[i] == o.blocks.offsets[a]);
                if j < o.free_slots.len() {
                    assert(f.free_slots[j] == o.free_slots[j]);
                } else {
                    assert(o.blocks.offsets[a].1.0 != o.blocks.offsets[p].1.0);
                }
            }
        }
        assert(f.marks_ok()) by {
            assert forall|i: int| 0 <= i < f.blocks.readable.len() implies {
                let e = #[trigger] f.blocks.readable[i];
                has_key(f.blocks.offsets, e.0) && 0 <= e.1 < f.io_block_size
            } by {
                let e = f.blocks.readable[i];
                lemma_position_unique(f.blocks.readable, i);
                assert(e.0 != block_id);
                assert(lookup(o.blocks.readable, e.0) == Some(e.1));
                let q = position(o.blocks.readable, e.0);
                assert(o.blocks.readable[q].0 == e.0);
            }
        }
    }
}

/// Setting the mark of a resident block to a byte of the block keeps the page well formed.
pub proof fn lemma_mark_set(o: PageView, block_id: BlockId, mark: i32)
    requires
        o.wf(),
        o.contains(block_id),
        0 <= mark < o.io_block_size,
    ensures
        (PageView {
            blocks: BlockOffsetsView {
                readable: with_entry(o.blocks.readable, block_id, mark),
                ..o.blocks
            },
            ..o
        }).wf(),
{
    let t = with_entry(o.blocks.readable, block_id, mark);
    lemma_with_entry(o.blocks.readable, block_id, mark);
    assert forall|i: int| 0 <= i < t.len() implies {
        let e = #[trigger] t[i];
        has_key(o.blocks.offsets, e.0) && 0 <= e.1 < o.io_block_size
    } by {
        let e = t[i];
        lemma_position_unique(t, i);
        if e.0 != block_id {
            assert(lookup(o.blocks.readable, e.0) == Some(e.1));
            let p = position(o.blocks.readable, e.0);
            assert(o.blocks.readable[p].0 == e.0);
        }
    }
}

/// Raising or setting a mark keeps the page well formed, and the mark of a
/// well-formed page is a byte of its block.
pub proof fn lemma_marks(o: PageView, block_id: BlockId, mark: i32)
    requires
        o.wf(),
    ensures
        o.raise_mark(block_id, mark).wf(),
        o.set_mark(block_id, mark).wf(),
        0 <= o.blocks.readable_of(block_id) < o.io_block_size,
{
    if has_key(o.blocks.readable, block_id) {
        let p = position(o.blocks.readable, block_id);
        assert(o.blocks.readable[p].0 == block_id);
    }
    if o.contains(block_id) && 0 <= mark < o.io_block_size {
        let current = o.blocks.readable_of(block_id);
        lemma_mark_set(
            o,
            block_id,
            if current >= mark {
                current
            } else {
                mark
            },
        );
        lemma_mark_set(o, block_id, mark);
    }
}

impl Page {
    /// The page is well formed: see [`PageView::wf`].
    pub open(crate) spec fn wf(&self) -> bool {
        self@.wf()
    }

    /// An empty page of the sizes of `config`, owned by nobody.
    pub fn new(config: &Config) -> (r: Result<Self, PageError>)
        ensures
            match r {
                Ok(p) => p.wf() && p@ == PageView::fresh(
                    config.io_block_size,
                    config.cache_page_size,
                    no_owner(),
                ) && config.io_block_size > 0 && config.cache_page_size % config.io_block_size == 0
                    && config.cache_page_size <= i32::MAX,
                Err(e) => if config.io_block_size == 0 || config.cache_page_size
                    % config.io_block_size != 0 {
                    e == PageError::NotMultipleOfBlock
                } else {
                    e == PageError::PageTooLarge && config.cache_page_size > i32::MAX
                },
            },
    {
        if config.io_block_size == 0 || config.cache_page_size % config.io_block_size != 0 {
            return Err(PageError::NotMultipleOfBlock);
        }
        if config.cache_page_size > 0x7fff_ffff {
            return Err(PageError::PageTooLarge);
        }
        let mut page = Page {
            is_dirty: false,
            page_owner_id: "none".to_owned(),
            free_block_indexes: Vec::new(),
            io_block_size: config.io_block_size,
            cache_page_size: config.cache_page_size,
            data: Vec::new(),
            allocated_block_ids: BlockOffsets::new(),
        };
        page.reset();
        Ok(page)
    }

    pub fn is_page_owner(&self, query: &str) -> (b: bool)
        ensures
            b == (self@.owner == query@),
    {
        self.page_owner_id.as_str().eq(query)
    }

    pub fn change_owner(&mut self, new_owner: String)
        ensures
            final(self)@ == (PageView { owner: new_owner@, ..old(self)@ }),
    {
        self.page_owner_id = new_owner;
    }

    pub fn get_page_owner(&self) -> (s: String)
        ensures
            s@ == self@.owner,
    {
        self.page_owner_id.clone()
    }

    pub fn has_free_space(&self) -> (b: bool)
        ensures
            b == (self@.free_slots.len() > 0),
    {
        self.free_block_indexes.len() > 0
    }

    /// Empties the page: zeroed, clean, every slot free.  The owner stays.
    pub fn reset(&mut self)
        requires
            old(self)@.io_block_size > 0,
            old(self)@.cache_page_size % old(self)@.io_block_size == 0,
            old(self)@.cache_page_size <= i32::MAX,
        ensures
            final(self).wf(),
            final(self)@ == PageView::fresh(
                old(self)@.io_block_size,
                old(self)@.cache_page_size,
                old(self)@.owner,
            ),
    {
        self.free_block_indexes.clear();
        self.allocated_block_ids.reset();
        self.is_dirty = false;
        self.data.clear();
        let ghost bs = self.io_block_size as int;
        let ghost ps = self.cache_page_size as int;
        let mut filled: usize = 0;
        while filled < self.cache_page_size
            invariant
                filled <= self.cache_page_size,
                self.data@ == Seq::new(filled as nat, |i: int| 0u8),
                bs == self.io_block_size,
                ps == self.cache_page_size,
                self.free_block_indexes@ == Seq::<i32>::empty(),
                self.allocated_block_ids@ == BlockOffsetsView::empty(),
                !self.is_dirty,
                self.page_owner_id == old(self).page_owner_id,
            decreases self.cache_page_size - filled,
        {
            self.data.push(0u8);
            filled += 1;
            assert(self.data@ =~= Seq::new(filled as nat, |i: int| 0u8));
        }
        assert(self.free_block_indexes@ =~= Seq::new(0nat, |i: int| (i * bs) as i32));
        let mut at: usize = 0;
        let ghost mut k: int = 0;
        while at < self.cache_page_size
            invariant
                bs == self.io_block_size,
                ps == self.cache_page_size,
                bs > 0,
                ps % bs == 0,
                ps <= i32::MAX,
                0 <= k <= ps / bs,
                at == k * bs,
                self.free_block_indexes@ == Seq::new(k as nat, |i: int| (i * bs) as i32),
                self.data@ == Seq::new(ps as nat, |i: int| 0u8),
                self.allocated_block_ids@ == BlockOffsetsView::empty(),
                !self.is_dirty,
                self.page_owner_id == old(self).page_owner_id,
            decreases ps - at,
        {
            proof {
                vstd::arithmetic::div_mod::lemma_fundamental_div_mod(ps, bs);
                assert(k < ps / bs) by (nonlinear_arith)
                    requires
                        k * bs < ps,
                        ps == bs * (ps / bs) + ps % bs,
                        ps % bs == 0,
                        bs > 0,
                        0 <= k <= ps / bs,
                ;
                lemma_seeded_slots(bs, ps, k);
                assert((k + 1) * bs == k * bs + bs) by (nonlinear_arith);
            }
            self.free_block_indexes.push(at as i32);
            at = at + self.io_block_size;
            proof {
                k = k + 1;
                assert(self.free_block_indexes@ =~= Seq::new(k as nat, |i: int| (i * bs) as i32));
            }
        }
        proof {
            vstd::arithmetic::div_mod::lemma_fundamental_div_mod(ps, bs);
            assert(k == ps / bs) by (nonlinear_arith)
                requires
                    k * bs >= ps,
                    ps == bs * (ps / bs) + ps % bs,
                    ps % bs == 0,
                    bs > 0,
                    0 <= k <= ps / bs,
            ;
            lemma_fresh_wf(self.io_block_size, self.cache_page_size, self@.owner);
            assert(self@.free_slots =~= seeded_slots(bs, ps));
        }
    }

    /// Lays `new_data` over the page from byte `start` on and marks the page dirty.
    pub(crate) fn rewrite_offset_data(&mut self, new_data: &Vec<u8>, start: usize)
        requires
            start + new_data.len() <= old(self).data.len(),
        ensures
            final(self)@ == (PageView {
                dirty: true,
                data: write_at(old(self)@.data, start as int, new_data@),
                ..old(self)@
            }),
    {
        self.is_dirty = true;
        assert(self.data@ =~= write_at(old(self)@.data, start as int, new_data@.take(0)));
        let mut i: usize = 0;
        while i < new_data.len()
            invariant
                i <= new_data.len(),
                start + new_data.len() <= self.data.len(),
                self.data@.len() == old(self).data@.len(),
                self.data@ == write_at(old(self)@.data, start as int, new_data@.take(i as int)),
                self.is_dirty,
                self.page_owner_id == old(self).page_owner_id,
                self.free_block_indexes == old(self).free_block_indexes,
                self.io_block_size == old(self).io_block_size,
                self.cache_page_size == old(self).cache_page_size,
                self.allocated_block_ids == old(self).allocated_block_ids,
            decreases new_data.len() - i,
        {
            self.data[start + i] = new_data[i];
            i += 1;
            assert(self.data@ =~= write_at(
                old(self)@.data,
                start as int,
                new_data@.take(i as int),
            ));
        }
        assert(new_data@.take(new_data.len() as int) =~= new_data@);
    }

    /// Zeroes the bytes of the page from `from` up to, not including, `to`.
    pub(crate) fn zero_range(&mut self, from: usize, to: usize)
        requires
            from <= to <= old(self).data.len(),
        ensures
            final(self)@ == (PageView {
                data: zeroed(old(self)@.data, from as int, to as int),
                ..old(self)@
            }),
    {
        assert(self.data@ =~= zeroed(old(self)@.data, from as int, from as int));
        let mut i: usize = from;
        while i < to
            invariant
                from <= i <= to <= self.data.len(),
                self.data@.len() == old(self).data@.len(),
                self.data@ == zeroed(old(self)@.data, from as int, i as int),
                self.is_dirty == old(self).is_dirty,
                self.page_owner_id == old(self).page_owner_id,
                self.free_block_indexes == old(self).free_block_indexes,
                self.io_block_size == old(self).io_block_size,
                self.cache_page_size == old(self).cache_page_size,
                self.allocated_block_ids == old(self).allocated_block_ids,
            decreases to - i,
        {
            self.data[i] = 0u8;
            i += 1;
            assert(self.data@ =~= zeroed(old(self)@.data, from as int, i as int));
        }
    }

    /// Writes `new_data` into the block `block_id`, from byte `off_start` of
    /// the block on, and marks the page dirty.  Nothing is written where the
    /// block is not resident (`Ok(false)`) or the data would reach past the
    /// block's end (`Err`).
    pub fn update_block_data(&mut self, block_id: BlockId, new_data: &Vec<u8>, off_start: usize) -> (r:
        Result<bool, PageError>)
        requires
            old(self).wf(),
        ensures
            final(self).wf(),
            r == old(self)@.update_outcome(block_id, new_data@.len(), off_start),
            r == Ok::<bool, PageError>(true) ==> final(self)@ == (PageView {
                dirty: true,
                data: write_at(old(self)@.data, old(self)@.lo(block_id) + off_start, new_data@),
                ..old(self)@
            }),
            r != Ok::<bool, PageError>(true) ==> final(self)@ == old(self)@,
    {
        if !self.allocated_block_ids.contains_block(block_id) {
            return Ok(false);
        }
        if off_start > self.io_block_size || new_data.len() > self.io_block_size - off_start {
            return Err(PageError::DataTooLong);
        }
        let offsets = self.allocated_block_ids.get_block_offsets(block_id);
        proof {
            let p = position(self@.blocks.offsets, block_id);
            assert(self@.blocks.offsets[p].0 == block_id);
        }
        self.rewrite_offset_data(new_data, offsets.0 as usize + off_start);
        Ok(true)
    }

    /// Takes a free slot for `block_id` and records where the block now sits.
    pub fn get_allocate_free_offset(&mut self, block_id: BlockId) -> (r: Result<Offsets, PageError>)
        requires
            old(self).wf(),
        ensures
            final(self).wf(),
            r == old(self)@.allocate_outcome(block_id),
            r.is_err() ==> final(self)@ == old(self)@,
            r.is_ok() ==> final(self)@ == old(self)@.take_slot(block_id),
    {
        if block_id < 0 {
            return Err(PageError::InvalidBlock);
        }
        if self.allocated_block_ids.contains_block(block_id) {
            return Err(PageError::BlockPresent);
        }
        let n = self.free_block_indexes.len();
        if n == 0 {
            return Err(PageError::NoFreeSlot);
        }
        proof {
            lemma_take_slot(self@, block_id);
        }
        let free_index = self.free_block_indexes[n - 1];
        self.free_block_indexes.pop();
        let allocated_offset: Offsets = (free_index, free_index + (self.io_block_size as i32 - 1));
        self.allocated_block_ids.insert_or_update_block_offsets(block_id, allocated_offset);
        assert(self@.free_slots =~= old(self)@.free_slots.drop_last());
        Ok(allocated_offset)
    }

    /// Copies the bytes of the page from the first byte of `block_id` up to
    /// and including byte `read_to_max_index` of the page to the start of `buffer`.
    pub fn get_block_data(&self, block_id: BlockId, buffer: &mut Vec<u8>, read_to_max_index: usize) -> (r:
        Result<(), PageError>)
        requires
            self.wf(),
        ensures
            r.is_ok() == self@.can_read(block_id, old(buffer)@.len(), read_to_max_index),
            r.is_err() ==> r == Err::<(), PageError>(PageError::InvalidRange) && final(buffer)@ == old(
                buffer,
            )@,
            r.is_ok() ==> final(buffer)@ == write_at(
                old(buffer)@,
                0,
                self@.data.subrange(self@.lo(block_id), read_to_max_index + 1),
            ),
    {
        if !self.allocated_block_ids.contains_block(block_id) {
            return Err(PageError::InvalidRange);
        }
        let off_min = self.allocated_block_ids.get_block_offsets(block_id).0;
        proof {
            let p = position(self@.blocks.offsets, block_id);
            assert(self@.blocks.offsets[p].0 == block_id);
        }
        let lo = off_min as usize;
        if read_to_max_index >= self.data.len() || read_to_max_index < lo || read_to_max_index - lo
            >= buffer.len() {
            return Err(PageError::InvalidRange);
        }
        let count = read_to_max_index - lo + 1;
        assert(buffer@ =~= write_at(old(buffer)@, 0, self.data@.subrange(lo as int, lo as int)));
        let mut i: usize = 0;
        while i < count
            invariant
                i <= count,
                count == read_to_max_index - lo + 1,
                read_to_max_index < self.data.len(),
                count <= buffer.len(),
                buffer@.len() == old(buffer)@.len(),
                buffer@ == write_at(old(buffer)@, 0, self.data@.subrange(lo as int, lo + i)),
            decreases count - i,
        {
            buffer[i] = self.data[lo + i];
            i += 1;
            assert(buffer@ =~= write_at(old(buffer)@, 0, self.data@.subrange(lo as int, lo + i)));
        }
        Ok(())
    }

    /// The writes that carry every resident block, whole, to the backing
    /// file, in ascending order of block id.  The page is not changed:
    /// [`Page::sync_done`] takes the outcome of the writes.
    pub fn sync_data(&self) -> (w: Vec<BlockWrite>)
        requires
            self.wf(),
        ensures
            writes_view(w@) == self@.block_writes(),
    {
        let mut w: Vec<BlockWrite> = Vec::new();
        let mut i: usize = 0;
        let n = self.allocated_block_ids.block_offset_mapping.len();
        while i < n
            invariant
                self.wf(),
                n == self@.blocks.offsets.len(),
                i <= n,
                w@.len() == i,
                forall|j: int| 0 <= j < i ==> (#[trigger] w@[j])@ == self@.block_writes()[j],
            decreases n - i,
        {
            let block_id = self.allocated_block_ids.block_offset_mapping.key_at(i);
            let lo = self.allocated_block_ids.block_offset_mapping.value_at(i).0 as usize;
            assert(self@.blocks.offsets[i as int].0 >= 0 && self@.is_slot(
                self@.blocks.offsets[i as int].1.0,
            ));
            let mut bytes: Vec<u8> = Vec::new();
            let mut j: usize = 0;
            while j < self.io_block_size
                invariant
                    j <= self.io_block_size,
                    lo + self.io_block_size <= self.data.len(),
                    bytes@ == self.data@.subrange(lo as int, lo + j),
                decreases self.io_block_size - j,
            {
                bytes.push(self.data[lo + j]);
                j += 1;
                assert(bytes@ =~= self.data@.subrange(lo as int, lo + j));
            }
            assert(block_id * self.io_block_size <= u64::MAX) by (nonlinear_arith)
                requires
                    0 <= block_id <= i32::MAX,
                    0 < self.io_block_size <= i32::MAX,
            ;
            w.push(BlockWrite { offset: block_id as u64 * self.io_block_size as u64, data: bytes });
            i += 1;
        }
        assert(writes_view(w@) =~= self@.block_writes());
        w
    }

    /// Takes the outcome of the writes of [`Page::sync_data`]: the page is
    /// clean again if as many bytes were written as were meant to be.
    pub fn sync_done(&mut self, should_write: usize, actually_wrote: usize) -> (b: bool)
        requires
            old(self).wf(),
        ensures
            final(self).wf(),
            b == (should_write == actually_wrote),
            final(self)@ == (PageView { dirty: old(self)@.dirty && !b, ..old(self)@ }),
    {
        let res = should_write == actually_wrote;
        if res {
            self.is_dirty = false;
        }
        res
    }

    pub fn is_page_dirty(&self) -> (b: bool)
        ensures
            b == self@.dirty,
    {
        self.is_dirty
    }

    /// Sets the dirty flag.  Only a page that holds a block can be dirty.
    pub fn set_page_as_dirty(&mut self, dirty: bool)
        requires
            old(self).wf(),
            dirty ==> old(self)@.blocks.offsets.len() > 0,
        ensures
            final(self).wf(),
            final(self)@ == (PageView { dirty, ..old(self)@ }),
    {
        self.is_dirty = dirty;
    }

    /// Raises the mark of `block_id` to byte `max_offset` of the block.  A
    /// block that is not resident, or a byte outside the block, changes nothing.
    pub fn make_block_readable_to(&mut self, block_id: BlockId, max_offset: i32)
        requires
            old(self).wf(),
        ensures
            final(self).wf(),
            final(self)@ == old(self)@.raise_mark(block_id, max_offset),
    {
        proof {
            lemma_marks(self@, block_id, max_offset);
        }
        if self.allocated_block_ids.contains_block(block_id) && 0 <= max_offset && (
        max_offset as usize) < self.io_block_size {
            self.allocated_block_ids.make_readable_to(block_id, max_offset);
        }
    }

    /// Sets the mark of `block_id` to byte `offset` of the block, whatever
    /// it was.  A block that is not resident, or a byte outside the block,
    /// changes nothing.
    pub fn truncate_block_readable_to(&mut self, block_id: BlockId, offset: i32)
        requires
            old(self).wf(),
        ensures
            final(self).wf(),
            final(self)@ == old(self)@.set_mark(block_id, offset),
    {
        proof {
            lemma_marks(self@, block_id, offset);
        }
        if self.allocated_block_ids.contains_block(block_id) && 0 <= offset && (offset as usize)
            < self.io_block_size {
            self.allocated_block_ids.truncate_readable_to(block_id, offset);
        }
    }

    /// Zeroes the block `block_id` from its byte `from_offset` to its end.
    /// A block that is not resident, or a byte outside the block, changes nothing.
    pub fn write_null_from(&mut self, block_id: BlockId, from_offset: i32)
        requires
            old(self).wf(),
        ensures
            final(self).wf(),
            final(self)@ == old(self)@.zero_from(block_id, from_offset),
    {
        if self.allocated_block_ids.contains_block(block_id) && 0 <= from_offset && (
        from_offset as usize) <= self.io_block_size {
            let off_first = self.allocated_block_ids.get_block_offsets(block_id).0 as usize;
            proof {
                let p = position(self@.blocks.offsets, block_id);
                assert(self@.blocks.offsets[p].0 == block_id);
                assert(self@.is_slot(self@.blocks.offsets[p].1.0));
            }
            self.zero_range(off_first + from_offset as usize, off_first + self.io_block_size);
        }
    }

    /// Takes `block_id` out of the page: its slot is zeroed and free again,
    /// its mark is gone, and a page left without blocks is clean.
    pub fn remove_block(&mut self, block_id: BlockId)
        requires
            old(self).wf(),
        ensures
            final(self).wf(),
            final(self)@ == old(self)@.without_block(block_id),
    {
        proof {
            lemma_without_block(self@, block_id);
        }
        if self.allocated_block_ids.contains_block(block_id) {
            let off_first = self.allocated_block_ids.get_block_offsets(block_id).0;
            proof {
                let p = position(self@.blocks.offsets, block_id);
                assert(self@.blocks.offsets[p].0 == block_id);
                assert(self@.is_slot(self@.blocks.offsets[p].1.0));
            }
            self.free_block_indexes.push(off_first);
            self.allocated_block_ids.remove_block(block_id);
            self.zero_range(off_first as usize, off_first as usize + self.io_block_size);
            if self.allocated_block_ids.empty() {
                self.is_dirty = false;
            }
        }
    }

    /// The number of blocks that the page holds.
    pub fn nr_blocks(&self) -> (n: usize)
        ensures
            n == self@.blocks.offsets.len(),
    {
        self.allocated_block_ids.get_nr_blocks()
    }

    /// The number of bytes of the page.
    pub fn data_len(&self) -> (n: usize)
        ensures
            n == self@.data.len(),
    {
        self.data.len()
    }

    /// The mark of `block_id`: the last byte of the block that holds data;
    /// `0` where the block has no mark.
    pub fn get_block_readable_to(&self, block_id: BlockId) -> (r: i32)
        requires
            self.wf(),
        ensures
            r == self@.blocks.readable_of(block_id),
    {
        self.allocated_block_ids.get_readable_to(block_id)
    }

    pub(crate) fn get_block_offsets(&self, block_id: BlockId) -> (o: Offsets)
        requires
            self.wf(),
        ensures
            o == self@.blocks.offsets_of(block_id),
    {
        self.allocated_block_ids.get_block_offsets(block_id)
    }

    pub fn contains_block(&self, block_id: BlockId) -> (b: bool)
        requires
            self.wf(),
        ensures
            b == self@.contains(block_id),
    {
        self.allocated_block_ids.contains_block(block_id)
    }
}

impl PageView {
    /// What writing `len` bytes into `block_id` from byte `off_start` of the block answers.
    pub open spec fn update_outcome(self, block_id: BlockId, len: nat, off_start: usize) -> Result<
        bool,
        PageError,
    > {
        if !self.contains(block_id) {
            Ok(false)
        } else if off_start + len > self.io_block_size {
            Err(PageError::DataTooLong)
        } else {
            Ok(true)
        }
    }

    /// What taking a slot for `block_id` answers.
    pub open spec fn allocate_outcome(self, block_id: BlockId) -> Result<Offsets, PageError> {
        if block_id < 0 {
            Err(PageError::InvalidBlock)
        } else if self.contains(block_id) {
            Err(PageError::BlockPresent)
        } else if self.free_slots.len() == 0 {
            Err(PageError::NoFreeSlot)
        } else {
            Ok((self.free_slots.last(), (self.free_slots.last() + self.io_block_size - 1) as i32))
        }
    }

    /// The bytes from the first byte of `block_id` to byte `read_to_max_index`
    /// of the page exist and fit a buffer of `buffer_len` bytes.
    pub open spec fn can_read(self, block_id: BlockId, buffer_len: nat, read_to_max_index: usize) -> bool {
        &&& self.contains(block_id)
        &&& self.lo(block_id) <= read_to_max_index < self.data.len()
        &&& read_to_max_index + 1 - self.lo(block_id) <= buffer_len
    }

    /// The page after the mark of `block_id` was raised to byte `max_offset`
    /// of the block.  A block that is not resident, or a byte outside the
    /// block, changes nothing.
    pub open spec fn raise_mark(self, block_id: BlockId, max_offset: i32) -> PageView {
        if self.contains(block_id) && 0 <= max_offset < self.io_block_size {
            PageView {
                blocks: BlockOffsetsView {
                    readable: with_entry(
                        self.blocks.readable,
                        block_id,
                        if self.blocks.readable_of(block_id) >= max_offset {
                            self.blocks.readable_of(block_id)
                        } else {
                            max_offset
                        },
                    ),
                    ..self.blocks
                },
                ..self
            }
        } else {
            self
        }
    }

    /// The page after the mark of `block_id` was set to byte `offset` of the
    /// block.  A block that is not resident, or a byte outside the block,
    /// changes nothing.
    pub open spec fn set_mark(self, block_id: BlockId, offset: i32) -> PageView {
        if self.contains(block_id) && 0 <= offset < self.io_block_size {
            PageView {
                blocks: BlockOffsetsView {
                    readable: with_entry(self.blocks.readable, block_id, offset),
                    ..self.blocks
                },
                ..self
            }
        } else {
            self
        }
    }

    /// The page after `block_id` was zeroed from its byte `from_offset` to
    /// its end.  A block that is not resident, or a byte outside the block,
    /// changes nothing.
    pub open spec fn zero_from(self, block_id: BlockId, from_offset: i32) -> PageView {
        if self.contains(block_id) && 0 <= from_offset <= self.io_block_size {
            PageView {
                data: zeroed(
                    self.data,
                    self.lo(block_id) + from_offset,
                    self.lo(block_id) + self.io_block_size,
                ),
                ..self
            }
        } else {
            self
        }
    }

    /// The page without the block `block_id`.
    pub open spec fn without_block(self, block_id: BlockId) -> PageView {
        if self.contains(block_id) {
            PageView {
                dirty: self.dirty && self.blocks.offsets.len() > 1,
                free_slots: self.free_slots.push(self.lo(block_id) as i32),
                data: zeroed(
                    self.data,
                    self.lo(block_id),
                    self.lo(block_id) + self.io_block_size,
                ),
                blocks: BlockOffsetsView {
                    offsets: without_key(self.blocks.offsets, block_id),
                    readable: without_key(self.blocks.readable, block_id),
                },
                ..self
            }
        } else {
            self
        }
    }
}

} // verus!
