//! What a flush does to a backing file.
//!
//! A file is a sequence of bytes.  A write past its end makes it longer,
//! and the bytes between the old end and the write are zero.

use vstd::prelude::*;
use crate::block_map::ascending;
use crate::name_map::has_name;
use crate::pagecache::engine::backends::pool::{ends_run, starts_run, EngineView, OrderedEntry};
use crate::pagecache::BlockId;

verus! {

/// The file after `data` was written at offset `at`.
pub open spec fn file_after_write(file: Seq<u8>, at: int, data: Seq<u8>) -> Seq<u8> {
    Seq::new(
        if data.len() > 0 && at + data.len() > file.len() {
            (at + data.len()) as nat
        } else {
            file.len()
        },
        |i: int|
            if at <= i < at + data.len() {
                data[i - at]
            } else if i < file.len() {
                file[i]
            } else {
                0u8
            },
    )
}

/// The file after the writes of `writes` were made, in order.
pub open spec fn file_after_writes(file: Seq<u8>, writes: Seq<(u64, Seq<u8>)>) -> Seq<u8>
    decreases writes.len(),
{
    if writes.len() == 0 {
        file
    } else {
        file_after_write(
            file_after_writes(file, writes.drop_last()),
            writes.last().0 as int,
            writes.last().1,
        )
    }
}

/// The file cut, or padded with zeros, to `len` bytes.
pub open spec fn file_cut(file: Seq<u8>, len: int) -> Seq<u8> {
    Seq::new(
        len as nat,
        |i: int|
            if i < file.len() {
                file[i]
            } else {
                0u8
            },
    )
}

/// Every write of `writes` begins behind the end of the writes before it.
pub open spec fn rising(writes: Seq<(u64, Seq<u8>)>) -> bool {
    forall|i: int, j: int|
        0 <= i < j < writes.len() ==> (#[trigger] writes[i]).0 + writes[i].1.len() < (
        #[trigger] writes[j]).0
}

/// Writing two pieces one behind the other is writing them as one.
pub proof fn lemma_write_in_two(file: Seq<u8>, at: int, first: Seq<u8>, second: Seq<u8>)
    requires
        at >= 0,
        first.len() > 0,
        second.len() > 0,
    ensures
        file_after_write(file, at, first + second) == file_after_write(
            file_after_write(file, at, first),
            at + first.len(),
            second,
        ),
{
    assert(file_after_write(file, at, first + second) =~= file_after_write(
        file_after_write(file, at, first),
        at + first.len(),
        second,
    ));
}

impl EngineView {
    /// One write for each of the first `n` entries of `w`: the bytes that a
    /// flush writes for the entry, at the place of its block in the file.
    pub open spec fn chunks_upto(self, w: Seq<(BlockId, OrderedEntry)>, n: int) -> Seq<(u64, Seq<u8>)> {
        Seq::new(
            n as nat,
            |i: int| ((w[i].0 * self.block_size) as u64, self.entry_chunk(w, i)),
        )
    }

    /// Byte `k` of what a flush writes for entry `i` of `w` is in `file` at
    /// its place: byte `k` of the block.
    pub open spec fn chunk_in_file(self, w: Seq<(BlockId, OrderedEntry)>, i: int, k: int, file: Seq<u8>) -> bool {
        &&& w[i].0 * self.block_size + k < file.len()
        &&& file[w[i].0 * self.block_size + k] == self.entry_chunk(w, i)[k]
    }

    /// Byte `k` of the block of the entry `e` is in `file` at its place.
    pub open spec fn block_in_file(self, e: (BlockId, OrderedEntry), k: int, file: Seq<u8>) -> bool {
        &&& e.0 * self.block_size + k < file.len()
        &&& file[e.0 * self.block_size + k] == self.pages[e.1.page_id as int].data[e.1.offsets.0
            + k]
    }

    /// The entries of `w` lie in their pages, and their blocks are in order.
    pub open spec fn flushable(self, w: Seq<(BlockId, OrderedEntry)>) -> bool {
        &&& 0 < self.block_size <= i32::MAX
        &&& ascending(w)
        &&& forall|i: int|
            0 <= i < w.len() ==> {
                let e = #[trigger] w[i];
                &&& e.0 >= 0
                &&& 0 <= e.1.page_id < self.pages.len()
                &&& self.pages[e.1.page_id as int].wf()
                &&& 0 <= e.1.offsets.0
                &&& e.1.offsets.0 + self.block_size <= self.pages[e.1.page_id as int].data.len()
                &&& 0 <= self.pages[e.1.page_id as int].blocks.readable_of(e.0) < self.block_size
            }
    }

    /// The bytes written for an entry are as many as the block has up to
    /// its mark at least, a whole block at most, and a whole block for an
    /// entry that does not end its run.
    pub proof fn lemma_chunk_len(self, w: Seq<(BlockId, OrderedEntry)>, i: int)
        requires
            self.flushable(w),
            0 <= i < w.len(),
        ensures
            self.pages[w[i].1.page_id as int].blocks.readable_of(w[i].0) + 1 <= self.entry_chunk(
                w,
                i,
            ).len() <= self.block_size,
            !ends_run(w, i) ==> self.entry_chunk(w, i).len() == self.block_size,
            0 <= w[i].0 * self.block_size <= u64::MAX,
            forall|k: int|
                0 <= k < self.entry_chunk(w, i).len() ==> #[trigger] self.entry_chunk(w, i)[k]
                    == self.pages[w[i].1.page_id as int].data[w[i].1.offsets.0 + k],
    {
        let e = w[i];
        assert(0 <= e.0 * self.block_size <= u64::MAX) by (nonlinear_arith)
            requires
                0 <= e.0 <= i32::MAX,
                0 < self.block_size <= i32::MAX,
        ;
    }

    /// Putting consecutive blocks into one write changes nothing in the
    /// file: the writes of a flush leave the file as writing each block
    /// for itself would.
    pub proof fn lemma_runs_as_chunks(self, w: Seq<(BlockId, OrderedEntry)>, n: int, file: Seq<u8>)
        requires
            self.flushable(w),
            0 <= n <= w.len(),
        ensures
            file_after_writes(file, self.writes_upto(w, n)) == file_after_writes(
                file,
                self.chunks_upto(w, n),
            ),
            n > 0 ==> self.writes_upto(w, n).len() > 0 && self.writes_upto(w, n).last().1.len() > 0
                && self.writes_upto(w, n).last().0 + self.writes_upto(w, n).last().1.len()
                == w[n - 1].0 * self.block_size + self.entry_chunk(w, n - 1).len(),
        decreases n,
    {
        if n > 0 {
            self.lemma_runs_as_chunks(w, n - 1, file);
            let i = n - 1;
            self.lemma_chunk_len(w, i);
            let prev = self.writes_upto(w, n - 1);
            let now = self.writes_upto(w, n);
            let chunk = self.entry_chunk(w, i);
            let place = w[i].0 * self.block_size;
            let chunks = self.chunks_upto(w, n);
            assert(chunks.drop_last() =~= self.chunks_upto(w, n - 1));
            assert(chunks.last() == ((place as u64), chunk));
            if starts_run(w, i) {
                assert(now.drop_last() =~= prev);
            } else {
                self.lemma_chunk_len(w, i - 1);
                assert(!ends_run(w, i - 1));
                let last = prev.last();
                assert(last.0 + last.1.len() == w[i - 1].0 * self.block_size + self.block_size);
                assert(last.0 + last.1.len() == place) by (nonlinear_arith)
                    requires
                        last.0 + last.1.len() == w[i - 1].0 * self.block_size + self.block_size,
                        w[i - 1].0 + 1 == w[i].0,
                        place == w[i].0 * self.block_size,
                ;
                assert(now.drop_last() =~= prev.drop_last());
                assert(now.last() == (last.0, last.1 + chunk));
                lemma_write_in_two(
                    file_after_writes(file, prev.drop_last()),
                    last.0 as int,
                    last.1,
                    chunk,
                );
                assert(prev =~= prev.drop_last().push(last));
            }
        }
    }

    /// Written block by block, every block is in the file at its place.
    pub proof fn lemma_chunks_in_place(self, w: Seq<(BlockId, OrderedEntry)>, n: int, file: Seq<u8>)
        requires
            self.flushable(w),
            0 <= n <= w.len(),
        ensures
            forall|i: int, k: int|
                0 <= i < n && 0 <= k < self.entry_chunk(w, i).len() ==> #[trigger] self.chunk_in_file(
                    w,
                    i,
                    k,
                    file_after_writes(file, self.chunks_upto(w, n)),
                ),
        decreases n,
    {
        if n > 0 {
            self.lemma_chunks_in_place(w, n - 1, file);
            let chunks = self.chunks_upto(w, n);
            assert(chunks.drop_last() =~= self.chunks_upto(w, n - 1));
            let before = file_after_writes(file, self.chunks_upto(w, n - 1));
            let after = file_after_writes(file, chunks);
            let j = n - 1;
            self.lemma_chunk_len(w, j);
            let place = w[j].0 * self.block_size;
            let chunk = self.entry_chunk(w, j);
            assert(chunks.last() == ((place as u64), chunk));
            assert(after == file_after_write(before, place, chunk));
            assert forall|i: int, k: int|
                0 <= i < n && 0 <= k < self.entry_chunk(w, i).len() implies #[trigger] self.chunk_in_file(
                w,
                i,
                k,
                after,
            ) by {
                if i < j {
                    self.lemma_chunk_len(w, i);
                    assert(self.chunk_in_file(w, i, k, before));
                    assert(w[i].0 < w[j].0);
                    assert(w[i].0 * self.block_size + self.block_size <= place)
                        by (nonlinear_arith)
                        requires
                            w[i].0 + 1 <= w[j].0,
                            place == w[j].0 * self.block_size,
                            self.block_size > 0,
                    ;
                }
            }
        }
    }

    /// The entries on dirty pages are in the order of the whole.
    pub proof fn lemma_dirty_entries_ascending(self, ordered: Seq<(BlockId, OrderedEntry)>)
        requires
            ascending(ordered),
        ensures
            ascending(self.dirty_entries(ordered)),
            forall|i: int|
                0 <= i < self.dirty_entries(ordered).len() && ordered.len() > 0 ==> (
                #[trigger] self.dirty_entries(ordered)[i]).0 <= ordered.last().0,
            forall|j: int|
                0 <= j < ordered.len() && self.pages[(#[trigger] ordered[j]).1.page_id as int].dirty
                    ==> self.dirty_entries(ordered).contains(ordered[j]),
        decreases ordered.len(),
    {
        if ordered.len() > 0 {
            let init = ordered.drop_last();
            let last = ordered.last();
            assert(ascending(init)) by {
                assert forall|i: int, j: int| 0 <= i < j < init.len() implies (
                #[trigger] init[i]).0 < (#[trigger] init[j]).0 by {
                    assert(init[i] == ordered[i] && init[j] == ordered[j]);
                }
            }
            self.lemma_dirty_entries_ascending(init);
            let d = self.dirty_entries(ordered);
            let di = self.dirty_entries(init);
            assert forall|i: int| 0 <= i < di.len() implies (#[trigger] di[i]).0 < last.0 by {
                if init.len() > 0 {
                    assert(init[init.len() - 1] == ordered[init.len() - 1]);
                    assert(ordered[init.len() - 1].0 < ordered[ordered.len() - 1].0);
                }
            }
            assert forall|i: int, j: int| 0 <= i < j < d.len() implies (#[trigger] d[i]).0 < (
            #[trigger] d[j]).0 by {
                if j < di.len() {
                    assert(d[i] == di[i] && d[j] == di[j]);
                } else {
                    assert(d[i] == di[i]);
                }
            }
            assert forall|i: int| 0 <= i < d.len() implies (#[trigger] d[i]).0 <= last.0 by {
                if i < di.len() {
                    assert(d[i] == di[i]);
                }
            }
            assert forall|j: int|
                0 <= j < ordered.len() && self.pages[(
                #[trigger] ordered[j]).1.page_id as int].dirty implies d.contains(ordered[j]) by {
                if j < init.len() {
                    assert(init[j] == ordered[j]);
                    assert(di.contains(init[j]));
                    let k = di.index_of(init[j]);
                    assert(d[k] == di[k]);
                } else {
                    assert(d[d.len() - 1] == ordered[j]);
                }
            }
        }
    }

    /// What the flush of an owner of a well-formed pool has to write lies in
    /// its pages, in ascending order of block id.
    pub proof fn lemma_flushable(self, name: Seq<char>)
        requires
            self.wf(),
        ensures
            self.flushable(self.dirty_entries(self.owner(name).ordered)),
    {
        let ordered = self.owner(name).ordered;
        let w = self.dirty_entries(ordered);
        if has_name(self.owners, name) {
            self.lemma_owner_record(name);
        }
        self.lemma_dirty_entries(ordered);
        self.lemma_dirty_entries_ascending(ordered);
        assert forall|i: int| 0 <= i < w.len() implies {
            let e = #[trigger] w[i];
            &&& e.0 >= 0
            &&& 0 <= e.1.page_id < self.pages.len()
            &&& self.pages[e.1.page_id as int].wf()
            &&& 0 <= e.1.offsets.0
            &&& e.1.offsets.0 + self.block_size <= self.pages[e.1.page_id as int].data.len()
            &&& 0 <= self.pages[e.1.page_id as int].blocks.readable_of(e.0) < self.block_size
        } by {
            self.lemma_entry_in_page(name, w[i]);
        }
    }

    /// A flush carries every block of the owner that sits on a dirty page
    /// to the backing file: after the writes of the flush, the file holds
    /// at the place of the block, `block id` times the block size, the
    /// bytes of the block from its first up to its mark.
    pub proof fn lemma_flush_carries_blocks(self, name: Seq<char>, file: Seq<u8>)
        requires
            self.wf(),
        ensures
            ({
                let w = self.dirty_entries(self.owner(name).ordered);
                let flushed = file_after_writes(file, self.sync_writes(name));
                forall|i: int, k: int|
                    0 <= i < w.len() && 0 <= k <= self.pages[w[i].1.page_id as int].blocks.readable_of(
                        w[i].0,
                    ) ==> #[trigger] self.block_in_file(w[i], k, flushed)
            }),
    {
        let w = self.dirty_entries(self.owner(name).ordered);
        self.lemma_flushable(name);
        let n = w.len() as int;
        self.lemma_runs_as_chunks(w, n, file);
        self.lemma_chunks_in_place(w, n, file);
        let flushed = file_after_writes(file, self.sync_writes(name));
        assert forall|i: int, k: int|
            0 <= i < w.len() && 0 <= k <= self.pages[w[i].1.page_id as int].blocks.readable_of(
                w[i].0,
            ) implies #[trigger] self.block_in_file(w[i], k, flushed) by {
            self.lemma_chunk_len(w, i);
            assert(self.chunk_in_file(w, i, k, flushed));
        }
    }

    /// The writes by which a well-formed pool flushes an owner go up
    /// through the file, each behind the end of the one before it.
    pub proof fn lemma_flush_rises(self, name: Seq<char>)
        requires
            self.wf(),
        ensures
            rising(self.sync_writes(name)),
    {
        let w = self.dirty_entries(self.owner(name).ordered);
        self.lemma_flushable(name);
        self.lemma_writes_rise(w, w.len() as int);
    }

    /// The writes of a flush go up through the file: blocks go out in
    /// ascending order, and every write begins behind the end of the one
    /// before it, with a gap between them.
    pub proof fn lemma_writes_rise(self, w: Seq<(BlockId, OrderedEntry)>, n: int)
        requires
            self.flushable(w),
            0 <= n <= w.len(),
        ensures
            rising(self.writes_upto(w, n)),
            n > 0 ==> self.writes_upto(w, n).len() > 0 && self.writes_upto(w, n).last().0
                + self.writes_upto(w, n).last().1.len() == w[n - 1].0 * self.block_size
                + self.entry_chunk(w, n - 1).len(),
        decreases n,
    {
        if n > 0 {
            self.lemma_writes_rise(w, n - 1);
            self.lemma_runs_as_chunks(w, n, Seq::empty());
            let i = n - 1;
            self.lemma_chunk_len(w, i);
            let prev = self.writes_upto(w, n - 1);
            let now = self.writes_upto(w, n);
            let place = w[i].0 * self.block_size;
            if starts_run(w, i) {
                assert forall|a: int, b: int| 0 <= a < b < now.len() implies (#[trigger] now[a]).0
                    + now[a].1.len() < (#[trigger] now[b]).0 by {
                    assert(now[a] == prev[a]);
                    if b < prev.len() {
                        assert(now[b] == prev[b]);
                    } else {
                        self.lemma_chunk_len(w, i - 1);
                        assert(w[i - 1].0 < w[i].0);
                        assert(w[i - 1].0 * self.block_size + self.block_size < place)
                            by (nonlinear_arith)
                            requires
                                w[i - 1].0 + 2 <= w[i].0,
                                place == w[i].0 * self.block_size,
                                self.block_size > 0,
                        ;
                        if a < prev.len() - 1 {
                            assert(prev[a].0 + prev[a].1.len() < prev[prev.len() - 1].0);
                        }
                    }
                }
            } else {
                assert forall|a: int, b: int| 0 <= a < b < now.len() implies (#[trigger] now[a]).0
                    + now[a].1.len() < (#[trigger] now[b]).0 by {
                    assert(now[a] == prev[a]);
                    assert(now[b].0 == prev[b].0);
                }
            }
        }
    }
}

} // verus!
