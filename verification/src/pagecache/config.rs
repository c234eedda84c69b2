//! Sizes of the page pool and the switches of the cache.

use vstd::prelude::*;
use crate::pagecache::engine::page::{writes_view, BlockWrite};

verus! {

/// Why a configuration was refused.
#[derive(Debug, PartialEq, Eq, Structural, Clone, Copy)]
pub enum ConfigError {
    /// The number of blocks per page is not positive, the block size is
    /// zero, or the page size does not fit the machine.
    InvalidPageSize,
    /// The memory to preallocate does not exceed one page.
    PoolTooSmall,
    /// No pages were asked for.
    NoPages,
    /// The page size is not a multiple of the block size, or the block size is zero.
    NotMultipleOfBlock,
}

pub struct Config {
    pub log_all_operations: bool,
    pub is_default_config: bool,
    pub cache_nr_pages: usize,
    pub cache_page_size: usize,
    pub io_block_size: usize,
    pub disk_sector_size: usize,
    pub apply_lru_eviction: bool,
    pub fifo_path: String,
    pub fifo_path_completed: String,
    pub log_file: String,
}

impl Config {
    /// The sizes describe a pool that the engine can build: a positive block
    /// size that divides a page at least one block long, at least one page,
    /// and byte offsets and page ids that fit in 32 signed bits.
    pub open spec fn valid(&self) -> bool {
        &&& self.io_block_size > 0
        &&& self.cache_page_size >= self.io_block_size
        &&& self.cache_page_size % self.io_block_size == 0
        &&& self.cache_page_size <= i32::MAX
        &&& 0 < self.cache_nr_pages <= i32::MAX
    }

    /// Number of blocks that one page holds.
    pub open spec fn blocks_per_page(&self) -> int {
        self.cache_page_size as int / self.io_block_size as int
    }

    pub fn is_valid(&self) -> (b: bool)
        ensures
            b == self.valid(),
    {
        self.io_block_size > 0 && self.cache_page_size >= self.io_block_size
            && self.cache_page_size % self.io_block_size == 0 && self.cache_page_size
            <= 0x7fff_ffff && 0 < self.cache_nr_pages && self.cache_nr_pages <= 0x7fff_ffff
    }

    /// Sizes the pool from an amount of memory: the page size becomes
    /// `nr_blocks_per_page` blocks, and the pool gets as many whole pages as
    /// fit in `prealloc_bytes`, which must exceed one page.
    pub fn from_size(&mut self, prealloc_bytes: usize, nr_blocks_per_page: i32) -> (r: Result<
        (),
        ConfigError,
    >)
        ensures
            r == Self::size_outcome(old(self).io_block_size, prealloc_bytes, nr_blocks_per_page),
            r.is_err() ==> *final(self) == *old(self),
            r.is_ok() ==> *final(self) == (Config {
                is_default_config: false,
                cache_page_size: (nr_blocks_per_page * old(self).io_block_size) as usize,
                cache_nr_pages: (prealloc_bytes as int / (nr_blocks_per_page * old(
                    self,
                ).io_block_size)) as usize,
                ..*old(self)
            }),
    {
        if nr_blocks_per_page <= 0 || self.io_block_size == 0 {
            return Err(ConfigError::InvalidPageSize);
        }
        let page_size = match (nr_blocks_per_page as usize).checked_mul(self.io_block_size) {
            Some(p) => p,
            None => {
                return Err(ConfigError::InvalidPageSize);
            },
        };
        if prealloc_bytes <= page_size {
            return Err(ConfigError::PoolTooSmall);
        }
        assert(page_size > 0) by (nonlinear_arith)
            requires
                page_size == nr_blocks_per_page * self.io_block_size,
                nr_blocks_per_page > 0,
                self.io_block_size > 0,
        ;
        self.is_default_config = false;
        self.cache_page_size = page_size;
        self.cache_nr_pages = prealloc_bytes / page_size;
        Ok(())
    }

    /// What sizing from `prealloc_bytes` and `nr_blocks_per_page` answers.
    pub open spec fn size_outcome(
        io_block_size: usize,
        prealloc_bytes: usize,
        nr_blocks_per_page: i32,
    ) -> Result<(), ConfigError> {
        if nr_blocks_per_page <= 0 || io_block_size == 0 || nr_blocks_per_page * io_block_size
            > usize::MAX {
            Err(ConfigError::InvalidPageSize)
        } else if prealloc_bytes <= nr_blocks_per_page * io_block_size {
            Err(ConfigError::PoolTooSmall)
        } else {
            Ok(())
        }
    }

    /// Takes the three sizes as given.  There must be at least one page, and
    /// the page size must be a multiple of a block size that is not zero.
    pub fn setup_config_manually(&mut self, io_blk_sz: usize, pg_sz: usize, nr_pgs: usize) -> (r:
        Result<(), ConfigError>)
        ensures
            r == Self::manual_outcome(io_blk_sz, pg_sz, nr_pgs),
            r.is_err() ==> *final(self) == *old(self),
            r.is_ok() ==> *final(self) == (Config {
                cache_nr_pages: nr_pgs,
                cache_page_size: pg_sz,
                io_block_size: io_blk_sz,
                ..*old(self)
            }),
    {
        if nr_pgs == 0 {
            return Err(ConfigError::NoPages);
        }
        if io_blk_sz == 0 || pg_sz % io_blk_sz != 0 {
            return Err(ConfigError::NotMultipleOfBlock);
        }
        self.cache_nr_pages = nr_pgs;
        self.cache_page_size = pg_sz;
        self.io_block_size = io_blk_sz;
        Ok(())
    }

    /// What taking the three sizes as given answers.
    pub open spec fn manual_outcome(io_blk_sz: usize, pg_sz: usize, nr_pgs: usize) -> Result<
        (),
        ConfigError,
    > {
        if nr_pgs == 0 {
            Err(ConfigError::NoPages)
        } else if io_blk_sz == 0 || pg_sz % io_blk_sz != 0 {
            Err(ConfigError::NotMultipleOfBlock)
        } else {
            Ok(())
        }
    }

    /// The default configuration with the three sizes replaced.
    pub fn new_with_manual_config(io_blk_sz: usize, pg_sz: usize, nr_pgs: usize) -> (r: Result<
        Self,
        ConfigError,
    >)
        ensures
            match r {
                Ok(c) => Self::manual_outcome(io_blk_sz, pg_sz, nr_pgs).is_ok()
                    && Self::is_default_with(c, nr_pgs, pg_sz, io_blk_sz, true),
                Err(e) => Self::manual_outcome(io_blk_sz, pg_sz, nr_pgs) == Err::<(), ConfigError>(
                    e,
                ),
            },
    {
        let mut config = Self::default();
        match config.setup_config_manually(io_blk_sz, pg_sz, nr_pgs) {
            Ok(()) => Ok(config),
            Err(e) => Err(e),
        }
    }

    /// The default configuration sized from an amount of memory.
    pub fn new_with_size(prealloc_bytes: usize, nr_blocks_per_page: i32) -> (r: Result<
        Self,
        ConfigError,
    >)
        ensures
            match r {
                Ok(c) => Self::size_outcome(4096, prealloc_bytes, nr_blocks_per_page).is_ok()
                    && Self::is_default_with(
                    c,
                    (prealloc_bytes as int / (nr_blocks_per_page * 4096)) as usize,
                    (nr_blocks_per_page * 4096) as usize,
                    4096,
                    false,
                ),
                Err(e) => Self::size_outcome(4096, prealloc_bytes, nr_blocks_per_page) == Err::<
                    (),
                    ConfigError,
                >(e),
            },
    {
        let mut config = Self::default();
        match config.from_size(prealloc_bytes, nr_blocks_per_page) {
            Ok(()) => Ok(config),
            Err(e) => Err(e),
        }
    }

    pub fn set_eviction_flag(&mut self, flag: bool)
        ensures
            *final(self) == (Config { apply_lru_eviction: flag, ..*old(self) }),
    {
        self.apply_lru_eviction = flag;
    }

    /// `c` is the default configuration but for its sizes and its default mark.
    pub open spec fn is_default_with(
        c: Config,
        nr_pages: usize,
        page_size: usize,
        block_size: usize,
        is_default: bool,
    ) -> bool {
        &&& !c.log_all_operations
        &&& c.is_default_config == is_default
        &&& c.cache_nr_pages == nr_pages
        &&& c.cache_page_size == page_size
        &&& c.io_block_size == block_size
        &&& c.disk_sector_size == 512
        &&& !c.apply_lru_eviction
        &&& c.fifo_path@ == "faults.fifo"@
        &&& c.fifo_path_completed@ == ""@
        &&& c.log_file@ == ""@
    }
}

impl Default for Config {
    /// Five pages of one 4096-byte block each, no eviction, no logging.
    fn default() -> (c: Self)
        ensures
            Config::is_default_with(c, 5, 4096, 4096, true),
            c.valid(),
    {
        Config {
            log_all_operations: false,
            is_default_config: true,
            cache_nr_pages: 5,
            cache_page_size: 4096,
            io_block_size: 4096,
            disk_sector_size: 512,
            apply_lru_eviction: false,
            fifo_path: "faults.fifo".to_owned(),
            fifo_path_completed: "".to_owned(),
            log_file: "".to_owned(),
        }
    }
}

/// A fault that can be injected into a file-system operation.
pub trait Fault {

}

/// Where a fault stands in its life, told by its counter of invocations:
/// none seen yet; some seen, fewer than the occurrence it waits for; that
/// very occurrence; and past it.
#[derive(Debug, PartialEq, Eq, Structural, Clone, Copy)]
pub enum FaultPhase {
    Idle,
    Armed,
    Firing,
    Done,
}

/// The phase of a fault that waits for invocation number `occurence` and
/// has counted `counter` of them.
pub open spec fn phase_of(counter: i32, occurence: i32) -> FaultPhase {
    if counter <= 0 {
        FaultPhase::Idle
    } else if counter < occurence {
        FaultPhase::Armed
    } else if counter == occurence {
        FaultPhase::Firing
    } else {
        FaultPhase::Done
    }
}

/// A counter after one more invocation; it stops at the largest number.
pub open spec fn bumped(counter: i32) -> i32 {
    if counter < i32::MAX {
        (counter + 1) as i32
    } else {
        counter
    }
}

/// The phase of a fault, computed.
pub fn phase(counter: i32, occurence: i32) -> (p: FaultPhase)
    ensures
        p == phase_of(counter, occurence),
{
    if counter <= 0 {
        FaultPhase::Idle
    } else if counter < occurence {
        FaultPhase::Armed
    } else if counter == occurence {
        FaultPhase::Firing
    } else {
        FaultPhase::Done
    }
}

/// Tears a write apart: at its occurrence the buffer of the write is cut
/// into parts, and only the parts listed persist.
pub struct SplitWriteFault {
    pub(crate) occurence: i32,
    pub(crate) counter: i32,
    pub(crate) persist: Vec<i32>,
    pub(crate) parts: i32,
    pub(crate) parts_bytes: Vec<i32>,
}

/// What a split-write fault holds.
pub struct SplitWriteView {
    /// The number of the write at which the fault fires, counted from one.
    pub occurence: i32,
    /// How many writes the fault has seen.
    pub counter: i32,
    /// The parts that persist, each by its index, counted from zero.
    pub persist: Seq<i32>,
    /// Into how many equal parts the buffer is cut; zero if by `parts_bytes`.
    pub parts: i32,
    /// The lengths of the parts, where `parts` is zero.
    pub parts_bytes: Seq<i32>,
}

impl View for SplitWriteFault {
    type V = SplitWriteView;

    open(crate) spec fn view(&self) -> SplitWriteView {
        SplitWriteView {
            occurence: self.occurence,
            counter: self.counter,
            persist: self.persist@,
            parts: self.parts,
            parts_bytes: self.parts_bytes@,
        }
    }
}

/// The sum of the first `n` lengths of `sizes`.
pub open spec fn sizes_before(sizes: Seq<i32>, n: int) -> int
    decreases n,
{
    if n <= 0 {
        0
    } else {
        sizes_before(sizes, n - 1) + sizes[n - 1]
    }
}

/// The first `n` lengths of `sizes` are not negative.
pub open spec fn sizes_valid(sizes: Seq<i32>, n: int) -> bool {
    forall|j: int| 0 <= j < n ==> #[trigger] sizes[j] >= 0
}

impl SplitWriteView {
    /// Where part `i` of a buffer of `len` bytes begins and ends (the end
    /// not included), if there is such a part.  With `parts` positive the
    /// buffer is cut into that many parts of `len / parts` bytes, the last
    /// of which also takes what is left over.  Otherwise the parts follow
    /// each other with the lengths of `parts_bytes`; a part exists if no
    /// length up to its own is negative and it ends inside the buffer.
    pub open spec fn part_range(self, len: int, i: i32) -> Option<(int, int)> {
        if self.parts > 0 {
            if 0 <= i < self.parts {
                Some(
                    (
                        i * (len / (self.parts as int)),
                        if i == self.parts - 1 {
                            len
                        } else {
                            (i + 1) * (len / (self.parts as int))
                        },
                    ),
                )
            } else {
                None
            }
        } else if 0 <= i < self.parts_bytes.len() && sizes_valid(self.parts_bytes, i + 1)
            && sizes_before(self.parts_bytes, i + 1) <= len {
            Some((sizes_before(self.parts_bytes, i as int), sizes_before(self.parts_bytes, i + 1)))
        } else {
            None
        }
    }

    /// The writes that persist of a write of `buf` at file offset
    /// `offset`, for the first `n` entries of `persist`, in their order.
    /// An entry that names no part, or a part that would end past the
    /// largest file offset, persists nothing.
    pub open spec fn torn_writes(self, buf: Seq<u8>, offset: u64, n: int) -> Seq<(u64, Seq<u8>)>
        decreases n,
    {
        if n <= 0 {
            Seq::empty()
        } else {
            let before = self.torn_writes(buf, offset, n - 1);
            match self.part_range(buf.len() as int, self.persist[n - 1]) {
                Some(r) => if offset + r.1 <= u64::MAX {
                    before.push(((offset + r.0) as u64, buf.subrange(r.0, r.1)))
                } else {
                    before
                },
                None => before,
            }
        }
    }
}

/// The bounds of the equal parts of a buffer lie in the buffer, in order.
pub proof fn lemma_equal_parts(len: int, parts: int, i: int)
    requires
        len >= 0,
        parts > 0,
        0 <= i < parts,
    ensures
        0 <= i * (len / parts) <= (i + 1) * (len / parts) <= len,
{
    let q = len / parts;
    vstd::arithmetic::div_mod::lemma_fundamental_div_mod(len, parts);
    assert(q >= 0 && parts * q <= len) by (nonlinear_arith)
        requires
            len == parts * q + len % parts,
            0 <= len % parts < parts,
            len >= 0,
            parts > 0,
    ;
    assert(0 <= i * q <= (i + 1) * q <= parts * q) by (nonlinear_arith)
        requires
            0 <= i < parts,
            q >= 0,
    ;
}

/// The sums of lengths that are not negative grow.
pub proof fn lemma_sizes_grow(sizes: Seq<i32>, n: int)
    requires
        0 <= n <= sizes.len(),
        sizes_valid(sizes, n),
    ensures
        0 <= sizes_before(sizes, n),
        n > 0 ==> sizes_before(sizes, n - 1) <= sizes_before(sizes, n),
    decreases n,
{
    if n > 0 {
        lemma_sizes_grow(sizes, n - 1);
    }
}

impl SplitWriteFault {
    /// A fault that fires at write number `occurence` and cuts the buffer
    /// into `parts` equal parts, of which those of `persist` persist.
    pub fn from_parts(occurence: i32, persist: Vec<i32>, parts: i32) -> (f: Self)
        ensures
            f@ == (SplitWriteView {
                occurence,
                counter: 0,
                persist: persist@,
                parts,
                parts_bytes: Seq::empty(),
            }),
    {
        SplitWriteFault { occurence, counter: 0, persist, parts, parts_bytes: Vec::new() }
    }

    /// A fault that fires at write number `occurence` and cuts the buffer
    /// into parts of the lengths `parts_bytes`, of which those of `persist` persist.
    pub fn from_parts_bytes(occurence: i32, persist: Vec<i32>, parts_bytes: Vec<i32>) -> (f: Self)
        ensures
            f@ == (SplitWriteView {
                occurence,
                counter: 0,
                persist: persist@,
                parts: 0,
                parts_bytes: parts_bytes@,
            }),
    {
        SplitWriteFault { occurence, counter: 0, persist, parts: 0, parts_bytes }
    }

    /// The phase of the fault.
    pub fn current_phase(&self) -> (p: FaultPhase)
        ensures
            p == phase_of(self@.counter, self@.occurence),
    {
        phase(self.counter, self.occurence)
    }

    /// Where part `i` of a buffer of `len` bytes begins and ends, if there
    /// is such a part: see [`SplitWriteView::part_range`].
    pub fn part_bounds(&self, len: usize, i: i32) -> (r: Option<(usize, usize)>)
        ensures
            match r {
                Some(b) => self@.part_range(len as int, i) == Some((b.0 as int, b.1 as int))
                    && b.0 <= b.1 <= len,
                None => self@.part_range(len as int, i).is_none(),
            },
    {
        if self.parts > 0 {
            if 0 <= i && i < self.parts {
                let q = len / (self.parts as usize);
                proof {
                    lemma_equal_parts(len as int, self.parts as int, i as int);
                }
                let start = (i as usize) * q;
                let end = if i == self.parts - 1 {
                    len
                } else {
                    (i as usize + 1) * q
                };
                Some((start, end))
            } else {
                None
            }
        } else {
            if i < 0 || (i as usize) >= self.parts_bytes.len() {
                return None;
            }
            let mut start: usize = 0;
            let mut j: usize = 0;
            while j < i as usize
                invariant
                    self.parts <= 0,
                    0 <= i < self.parts_bytes@.len(),
                    j <= i,
                    sizes_valid(self.parts_bytes@, j as int),
                    start == sizes_before(self.parts_bytes@, j as int),
                    start <= len,
                decreases i - j,
            {
                let size = self.parts_bytes[j];
                if size < 0 || size as usize > len - start {
                    proof {
                        let sizes = self.parts_bytes@;
                        assert(sizes_before(sizes, j + 1) == sizes_before(sizes, j as int)
                            + sizes[j as int]);
                        if sizes_valid(sizes, i + 1) {
                            assert(sizes[j as int] >= 0);
                            lemma_sizes_between(sizes, j + 1, i + 1);
                            assert(sizes_before(sizes, i + 1) > len);
                        }
                    }
                    return None;
                }
                start = start + size as usize;
                j += 1;
            }
            let size = self.parts_bytes[i as usize];
            if size < 0 || size as usize > len - start {
                return None;
            }
            Some((start, start + size as usize))
        }
    }

    /// Takes note of a write of `buf` at file offset `offset`.  At the
    /// occurrence that the fault waits for, the write is torn: the answer
    /// holds the writes that persist, and the caller is to halt after
    /// making them.  At any other write the answer is `None`, and the write
    /// goes on as it is.
    pub fn on_write(&mut self, buf: &Vec<u8>, offset: u64) -> (r: Option<Vec<BlockWrite>>)
        ensures
            final(self)@ == (SplitWriteView { counter: bumped(old(self)@.counter), ..old(self)@ }),
            r.is_some() == (phase_of(final(self)@.counter, final(self)@.occurence)
                == FaultPhase::Firing && old(self)@.counter < i32::MAX),
            match r {
                Some(w) => writes_view(w@) == old(
                    self,
                )@.torn_writes(buf@, offset, old(self)@.persist.len() as int),
                None => true,
            },
    {
        if self.counter == 0x7fff_ffff {
            return None;
        }
        self.counter = self.counter + 1;
        if self.counter <= 0 || self.counter != self.occurence {
            return None;
        }
        let ghost v = old(self)@;
        let mut writes: Vec<BlockWrite> = Vec::new();
        let mut k: usize = 0;
        assert(writes_view(writes@) =~= Seq::empty());
        while k < self.persist.len()
            invariant
                k <= self.persist@.len(),
                self@ == (SplitWriteView { counter: bumped(v.counter), ..v }),
                writes_view(writes@) == v.torn_writes(
                    buf@,
                    offset,
                    k as int,
                ),
            decreases self.persist@.len() - k,
        {
            let ghost before = writes_view(writes@);
            assert(v.part_range(buf@.len() as int, v.persist[k as int]) == self@.part_range(
                buf@.len() as int,
                self@.persist[k as int],
            ));
            match self.part_bounds(buf.len(), self.persist[k]) {
                Some((start, end)) => {
                    if end as u64 <= 0xffff_ffff_ffff_ffff - offset {
                        let mut data: Vec<u8> = Vec::new();
                        let mut j: usize = start;
                        assert(data@ =~= buf@.subrange(start as int, start as int));
                        while j < end
                            invariant
                                start <= j <= end <= buf@.len(),
                                data@ == buf@.subrange(start as int, j as int),
                            decreases end - j,
                        {
                            data.push(buf[j]);
                            j += 1;
                            assert(data@ =~= buf@.subrange(start as int, j as int));
                        }
                        writes.push(
                            BlockWrite {
                                offset: offset + start as u64,
                                data,
                            },
                        );
                        assert(writes_view(writes@)
                            =~= before.push(
                            ((offset + start) as u64, buf@.subrange(start as int, end as int)),
                        ));
                    }
                },
                None => {},
            }
            k += 1;
        }
        Some(writes)
    }
}

/// Where the lengths up to `m` are valid, so are those up to any `n` before it.
pub proof fn lemma_sizes_between(sizes: Seq<i32>, n: int, m: int)
    requires
        0 <= n <= m <= sizes.len(),
        sizes_valid(sizes, m),
    ensures
        sizes_valid(sizes, n),
        sizes_before(sizes, n) <= sizes_before(sizes, m),
    decreases m - n,
{
    if n < m {
        lemma_sizes_between(sizes, n + 1, m);
        lemma_sizes_grow(sizes, n + 1);
    }
}

impl Fault for SplitWriteFault {

}

impl Default for SplitWriteFault {
    /// A fault that never fires: it waits for write number zero.
    fn default() -> (f: Self)
        ensures
            f@ == (SplitWriteView {
                occurence: 0,
                counter: 0,
                persist: Seq::empty(),
                parts: 0,
                parts_bytes: Seq::empty(),
            }),
    {
        SplitWriteFault {
            occurence: 0,
            counter: 0,
            persist: Vec::new(),
            parts: 0,
            parts_bytes: Vec::new(),
        }
    }
}

/// Reorders operations: the invocations of one operation are held back as
/// a group, and at the occurrence that the fault waits for, the members
/// listed are replayed and the others are dropped.
pub struct ReorderFault {
    pub(crate) op: String,
    pub(crate) occurence: i32,
    pub(crate) counter: i32,
    pub(crate) persist: Vec<i32>,
    pub(crate) group_counter: i32,
}

/// What a reorder fault holds.
pub struct ReorderView {
    /// The operation whose invocations the fault groups.
    pub op: Seq<char>,
    /// The number of the invocation at which the fault fires, counted from one.
    pub occurence: i32,
    /// How many invocations the fault has seen.
    pub counter: i32,
    /// The members of the group that are replayed, each by its index,
    /// counted from zero, in the order of replay.
    pub persist: Seq<i32>,
    /// How many groups the fault has fired.
    pub group_counter: i32,
}

impl View for ReorderFault {
    type V = ReorderView;

    open(crate) spec fn view(&self) -> ReorderView {
        ReorderView {
            op: self.op@,
            occurence: self.occurence,
            counter: self.counter,
            persist: self.persist@,
            group_counter: self.group_counter,
        }
    }
}

/// What a reorder fault makes of an invocation.
pub enum ReorderDecision {
    /// The invocation is none of the fault's business and goes on as it is.
    Pass,
    /// The invocation is held back as the member of the group with this index.
    Hold(i32),
    /// The group is complete: the members with these indices are replayed
    /// in this order, the others are dropped, and the caller is to halt.
    Fire(Vec<i32>),
}

impl ReorderView {
    /// Of the first `n` entries of `persist`, those that name a member of
    /// the group, in their order.
    pub open spec fn replayed(self, n: int) -> Seq<i32>
        decreases n,
    {
        if n <= 0 {
            Seq::empty()
        } else if 0 <= self.persist[n - 1] < self.occurence {
            self.replayed(n - 1).push(self.persist[n - 1])
        } else {
            self.replayed(n - 1)
        }
    }

    /// The fault is concerned by an invocation of `op` and can still count it.
    pub open spec fn counts(self, op: Seq<char>) -> bool {
        op == self.op && self.counter < i32::MAX
    }
}

impl ReorderFault {
    /// A fault on the operation `op` that fires at invocation number
    /// `occurence` and replays the members of `persist`.
    pub fn from_op(op: String, persist: Vec<i32>, occurence: i32) -> (f: Self)
        ensures
            f@ == (ReorderView {
                op: op@,
                occurence,
                counter: 0,
                persist: persist@,
                group_counter: 0,
            }),
    {
        ReorderFault { op, occurence, counter: 0, persist, group_counter: 0 }
    }

    /// The phase of the fault.
    pub fn current_phase(&self) -> (p: FaultPhase)
        ensures
            p == phase_of(self@.counter, self@.occurence),
    {
        phase(self.counter, self.occurence)
    }

    /// Takes note of an invocation of the operation `op`.  An other
    /// operation passes and changes nothing.  Before its occurrence the
    /// fault holds the invocation back; at its occurrence it fires and
    /// counts one group more; past it everything passes.
    pub fn on_invocation(&mut self, op: &str) -> (r: ReorderDecision)
        ensures
            !old(self)@.counts(op@) ==> final(self)@ == old(self)@ && r is Pass,
            old(self)@.counts(op@) ==> final(self)@ == (ReorderView {
                counter: bumped(old(self)@.counter),
                group_counter: if phase_of(bumped(old(self)@.counter), old(self)@.occurence)
                    == FaultPhase::Firing {
                    bumped(old(self)@.group_counter)
                } else {
                    old(self)@.group_counter
                },
                ..old(self)@
            }),
            old(self)@.counts(op@) ==> match phase_of(
                bumped(old(self)@.counter),
                old(self)@.occurence,
            ) {
                FaultPhase::Armed => r == ReorderDecision::Hold(old(self)@.counter),
                FaultPhase::Firing => r is Fire && r->Fire_0@ == old(self)@.replayed(
                    old(self)@.persist.len() as int,
                ),
                _ => r is Pass,
            },
    {
        if !self.op.as_str().eq(op) || self.counter == 0x7fff_ffff {
            return ReorderDecision::Pass;
        }
        let position = self.counter;
        self.counter = self.counter + 1;
        if self.counter <= 0 || self.counter > self.occurence {
            return ReorderDecision::Pass;
        }
        if self.counter < self.occurence {
            return ReorderDecision::Hold(position);
        }
        if self.group_counter < 0x7fff_ffff {
            self.group_counter = self.group_counter + 1;
        }
        let ghost v = old(self)@;
        let mut replay: Vec<i32> = Vec::new();
        let mut k: usize = 0;
        while k < self.persist.len()
            invariant
                k <= self.persist@.len(),
                self.persist@ == v.persist,
                self.occurence == v.occurence,
                replay@ == v.replayed(k as int),
            decreases self.persist@.len() - k,
        {
            let member = self.persist[k];
            if 0 <= member && member < self.occurence {
                replay.push(member);
            }
            k += 1;
        }
        ReorderDecision::Fire(replay)
    }
}

impl Fault for ReorderFault {

}

impl Default for ReorderFault {
    /// A fault on no operation that never fires.
    fn default() -> (f: Self)
        ensures
            f@.op == ""@,
            f@.occurence == 0,
            f@.counter == 0,
            f@.persist == Seq::<i32>::empty(),
            f@.group_counter == 0,
    {
        ReorderFault {
            op: "".to_owned(),
            occurence: 0,
            counter: 0,
            persist: Vec::new(),
            group_counter: 0,
        }
    }
}

} // verus!
