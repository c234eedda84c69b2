//! Every step of the pool keeps the pool well formed.

use vstd::prelude::*;
use crate::block_map::{
    ascending,
    has_key,
    lemma_position_unique,
    lemma_with_entry,
    lemma_without_key,
    lookup,
    position,
    with_entry,
    without_key,
};
use crate::id_list::{lemma_with_id, lemma_without, with_id, without};
use crate::name_map::{
    bind,
    distinct_names,
    find,
    has_name,
    lemma_bind,
    lemma_name_unique,
    lemma_unbind,
    name_index,
};
use crate::pagecache::engine::backends::pool::{
    entries_off_page,
    EngineView,
    OrderedEntry,
    OwnerView,
    PlacementView,
};
use crate::pagecache::engine::page::{
    lemma_fresh_wf,
    lemma_take_slot,
    lemma_without_block,
    no_owner,
    PageView,
};
use crate::pagecache::{BlockId, PageId};

verus! {

/// The entries off a page are entries of the whole, in their order, and
/// every entry of the whole that is off the page is among them.
pub proof fn lemma_entries_off_page(ordered: Seq<(BlockId, OrderedEntry)>, p: PageId)
    requires
        ascending(ordered),
    ensures
        ascending(entries_off_page(ordered, p)),
        entries_off_page(ordered, p).len() <= ordered.len(),
        forall|i: int|
            0 <= i < entries_off_page(ordered, p).len() ==> {
                let e = #[trigger] entries_off_page(ordered, p)[i];
                e.1.page_id != p && has_key(ordered, e.0) && lookup(ordered, e.0) == Some(e.1)
            },
        forall|j: int|
            0 <= j < ordered.len() && (#[trigger] ordered[j]).1.page_id != p ==> lookup(
                entries_off_page(ordered, p),
                ordered[j].0,
            ) == Some(ordered[j].1),
        forall|i: int|
            0 <= i < entries_off_page(ordered, p).len() && ordered.len() > 0 ==> (
            #[trigger] entries_off_page(ordered, p)[i]).0 <= ordered.last().0,
    decreases ordered.len(),
{
    let r = entries_off_page(ordered, p);
    if ordered.len() > 0 {
        let t = ordered.drop_last();
        let last = ordered.last();
        assert(ascending(t)) by {
            assert forall|i: int, j: int| 0 <= i < j < t.len() implies (#[trigger] t[i]).0 < (
            #[trigger] t[j]).0 by {
                assert(t[i] == ordered[i] && t[j] == ordered[j]);
            }
        }
        lemma_entries_off_page(t, p);
        let rt = entries_off_page(t, p);
        assert forall|i: int| 0 <= i < rt.len() implies (#[trigger] rt[i]).0 < last.0 by {
            let e = rt[i];
            assert(has_key(t, e.0));
            let q = position(t, e.0);
            assert(t[q] == ordered[q]);
            assert(ordered[q].0 < ordered[ordered.len() - 1].0);
        }
        assert(ascending(r)) by {
            assert forall|i: int, j: int| 0 <= i < j < r.len() implies (#[trigger] r[i]).0 < (
            #[trigger] r[j]).0 by {
                if j < rt.len() {
                    assert(r[i] == rt[i] && r[j] == rt[j]);
                } else {
                    assert(r[i] == rt[i]);
                }
            }
        }
        assert forall|i: int| 0 <= i < r.len() implies {
            let e = #[trigger] r[i];
            e.1.page_id != p && has_key(ordered, e.0) && lookup(ordered, e.0) == Some(e.1)
        } by {
            if i < rt.len() {
                assert(r[i] == rt[i]);
                let e = rt[i];
                let q = position(t, e.0);
                assert(has_key(t, e.0));
                assert(t[q] == ordered[q]);
                lemma_position_unique(t, q);
                lemma_position_unique(ordered, q);
            } else {
                lemma_position_unique(ordered, ordered.len() - 1);
            }
        }
        assert forall|j: int| 0 <= j < ordered.len() && (#[trigger] ordered[j]).1.page_id
            != p implies lookup(r, ordered[j].0) == Some(ordered[j].1) by {
            if j < t.len() {
                assert(t[j] == ordered[j]);
                assert(lookup(rt, t[j].0) == Some(t[j].1));
                assert(has_key(rt, t[j].0));
                let q = position(rt, t[j].0);
                assert(r[q] == rt[q]);
                lemma_position_unique(rt, q);
                lemma_position_unique(r, q);
            } else {
                assert(r[r.len() - 1] == last);
                lemma_position_unique(r, r.len() - 1);
            }
        }
        assert forall|i: int| 0 <= i < r.len() implies (#[trigger] r[i]).0 <= ordered.last().0 by {
            if i < rt.len() {
                assert(r[i] == rt[i]);
            }
        }
    }
}

/// A list of page ids of a pool, each once, is no longer than the pool.
pub proof fn lemma_ids_fit(s: Seq<PageId>, n: int)
    requires
        s.no_duplicates(),
        forall|i: int| 0 <= i < s.len() ==> 0 <= #[trigger] s[i] < n,
        0 <= n <= i32::MAX,
    ensures
        s.len() <= n,
    decreases n,
{
    if s.len() > 0 {
        if n == 0 {
            assert(0 <= s[0] < n);
        } else {
            let top = (n - 1) as i32;
            let t = without(s, top);
            lemma_without(s, top);
            assert forall|i: int| 0 <= i < t.len() implies 0 <= #[trigger] t[i] < n - 1 by {
                assert(t.contains(t[i]));
                assert(s.contains(t[i]));
                let j = s.index_of(t[i]);
                assert(0 <= s[j] < n);
            }
            lemma_ids_fit(t, n - 1);
        }
    }
}

impl EngineView {
    /// A record that does not list page `p` still agrees with the pages
    /// after a change to `p` alone that leaves the other pages where they are.
    pub proof fn lemma_owner_ok_frame(self, t: EngineView, name: Seq<char>, ov: OwnerView, p: PageId)
        requires
            self.owner_ok(name, ov),
            !ov.pages.contains(p),
            t.pages.len() == self.pages.len(),
            forall|q: int| 0 <= q < self.pages.len() && q != p ==> t.pages[q] == self.pages[q],
            forall|q: PageId| q != p ==> t.free_pages.contains(q) == self.free_pages.contains(q),
        ensures
            t.owner_ok(name, ov),
    {
        assert forall|j: int| 0 <= j < ov.pages.len() implies {
            &&& t.valid_page(#[trigger] ov.pages[j])
            &&& t.pages[ov.pages[j] as int].owner == name
            &&& !t.free_pages.contains(ov.pages[j])
        } by {
            assert(ov.pages.contains(ov.pages[j]));
        }
        assert forall|j: int| 0 <= j < ov.free.len() implies {
            &&& ov.pages.contains(#[trigger] ov.free[j])
            &&& t.valid_page(ov.free[j])
            &&& t.pages[ov.free[j] as int].free_slots.len() > 0
        } by {
            assert(ov.pages.contains(ov.free[j]));
        }
        assert forall|j: int| 0 <= j < ov.ordered.len() implies {
            let e = #[trigger] ov.ordered[j];
            &&& ov.pages.contains(e.1.page_id)
            &&& t.valid_page(e.1.page_id)
            &&& t.pages[e.1.page_id as int].contains(e.0)
            &&& t.pages[e.1.page_id as int].blocks.offsets_of(e.0) == e.1.offsets
        } by {
            let e = ov.ordered[j];
            assert(ov.pages.contains(e.1.page_id));
        }
    }

    /// In a well-formed pool the record of an owner is the one entry under its name.
    pub proof fn lemma_owner_record(self, name: Seq<char>)
        requires
            self.owners_ok(),
            has_name(self.owners, name),
        ensures
            self.owner_ok(name, self.owner(name)),
            find(self.owners, name) == Some(self.owner(name)),
    {
        let i = name_index(self.owners, name);
        assert(self.owners[i].0 == name);
        lemma_name_unique(self.owners, i);
    }

    /// A page in use is listed by the owner it names, and by no other.
    pub proof fn lemma_page_owner(self, p: PageId)
        requires
            self.wf(),
            self.valid_page(p),
            !self.free_pages.contains(p),
        ensures
            has_name(self.owners, self.pages[p as int].owner),
            self.owner(self.pages[p as int].owner).pages.contains(p),
            self.owner_ok(self.pages[p as int].owner, self.owner(self.pages[p as int].owner)),
            forall|i: int|
                0 <= i < self.owners.len() && (#[trigger] self.owners[i]).0
                    != self.pages[p as int].owner ==> !self.owners[i].1.pages.contains(p),
    {
        let name = self.pages[p as int].owner;
        assert(has_name(self.owners, name));
        self.lemma_owner_record(name);
        assert forall|i: int| 0 <= i < self.owners.len() && (#[trigger] self.owners[i]).0
            != name implies !self.owners[i].1.pages.contains(p) by {
            let ov = self.owners[i].1;
            assert(self.owner_ok(self.owners[i].0, ov));
            if ov.pages.contains(p) {
                let j = ov.pages.index_of(p);
                assert(self.pages[ov.pages[j] as int].owner == self.owners[i].0);
            }
        }
    }

    /// A free page is listed by no owner.
    pub proof fn lemma_free_page_unlisted(self, p: PageId)
        requires
            self.wf(),
            self.free_pages.contains(p),
        ensures
            forall|i: int|
                0 <= i < self.owners.len() ==> !(#[trigger] self.owners[i]).1.pages.contains(p),
            !self.lru.contains(p),
            self.valid_page(p),
            self.pages[p as int] == self.fresh_page(),
    {
        assert forall|i: int| 0 <= i < self.owners.len() implies !(
        #[trigger] self.owners[i]).1.pages.contains(p) by {
            let ov = self.owners[i].1;
            assert(self.owner_ok(self.owners[i].0, ov));
            if ov.pages.contains(p) {
                let j = ov.pages.index_of(p);
                assert(!self.free_pages.contains(ov.pages[j]));
            }
        }
        if self.lru.contains(p) {
            let j = self.lru.index_of(p);
            assert(!self.free_pages.contains(self.lru[j]));
        }
        let i = self.free_pages.index_of(p);
        assert(self.valid_page(self.free_pages[i]));
    }

    /// The records of `t` agree with its pages, where `t` came from the
    /// well-formed `self` by a change to page `p` and to the record of
    /// `name`, the only owner that may list `p`.
    pub proof fn lemma_owners_ok_after(self, t: EngineView, name: Seq<char>, p: PageId)
        requires
            self.owners_ok(),
            distinct_names(t.owners),
            forall|q: Seq<char>| q != name ==> find(t.owners, q) == find(self.owners, q),
            has_name(t.owners, name) ==> t.owner_ok(name, t.owner(name)),
            forall|i: int|
                0 <= i < self.owners.len() && (#[trigger] self.owners[i]).0 != name
                    ==> !self.owners[i].1.pages.contains(p),
            t.pages.len() == self.pages.len(),
            forall|q: int| 0 <= q < self.pages.len() && q != p ==> t.pages[q] == self.pages[q],
            forall|q: PageId| q != p ==> t.free_pages.contains(q) == self.free_pages.contains(q),
        ensures
            t.owners_ok(),
    {
        assert forall|i: int| 0 <= i < t.owners.len() implies t.owner_ok(
            (#[trigger] t.owners[i]).0,
            t.owners[i].1,
        ) by {
            let k = t.owners[i].0;
            lemma_name_unique(t.owners, i);
            if k == name {
                assert(has_name(t.owners, name));
            } else {
                assert(find(self.owners, k) == Some(t.owners[i].1));
                let j = name_index(self.owners, k);
                assert(has_name(self.owners, k));
                assert(self.owners[j].0 == k);
                assert(self.owner_ok(self.owners[j].0, self.owners[j].1));
                self.lemma_owner_ok_frame(t, k, t.owners[i].1, p);
            }
        }
    }

    /// A new pool is well formed.
    pub proof fn lemma_initial_wf(block_size: usize, page_size: usize, nr_pages: usize, lru: bool)
        requires
            block_size > 0,
            page_size >= block_size,
            page_size % block_size == 0,
            page_size <= i32::MAX,
            nr_pages <= i32::MAX,
        ensures
            Self::initial(block_size, page_size, nr_pages, lru).wf(),
    {
        let s = Self::initial(block_size, page_size, nr_pages, lru);
        lemma_fresh_wf(block_size, page_size, no_owner());
        assert forall|p: PageId| s.valid_page(p) implies s.free_pages.contains(p) by {
            assert(s.free_pages[p as int] == p);
        }
    }

    /// Visiting a page in use keeps the pool well formed, and the queue never outgrows the pool.
    pub proof fn lemma_visit_wf(self, p: PageId)
        requires
            self.wf(),
            self.valid_page(p),
            !self.free_pages.contains(p),
        ensures
            self.visit_on_read(p).wf(),
            self.visit_on_write(p) == self.visit_on_read(p),
            self.lru_enabled ==> self.visit_on_read(p).lru.len() == self.lru.len(),
    {
        let t = self.visit_on_read(p);
        if self.lru_enabled {
            lemma_without(self.lru, p);
            let w = without(self.lru, p);
            assert(self.lru.contains(p));
            assert(t.lru.no_duplicates()) by {
                assert forall|i: int, j: int|
                    0 <= i < t.lru.len() && 0 <= j < t.lru.len() && i != j implies t.lru[i]
                    != t.lru[j] by {
                    if i > 0 {
                        assert(t.lru[i] == w[i - 1]);
                        assert(w.contains(w[i - 1]));
                    }
                    if j > 0 {
                        assert(t.lru[j] == w[j - 1]);
                        assert(w.contains(w[j - 1]));
                    }
                }
            }
            assert forall|i: int| 0 <= i < t.lru.len() implies t.valid_page(#[trigger] t.lru[i])
                && !t.free_pages.contains(t.lru[i]) by {
                if i > 0 {
                    assert(t.lru[i] == w[i - 1]);
                    assert(w.contains(w[i - 1]));
                    assert(self.lru.contains(w[i - 1]));
                    let j = self.lru.index_of(w[i - 1]);
                    assert(self.valid_page(self.lru[j]));
                }
            }
            assert forall|q: PageId|
                t.valid_page(q) && !t.free_pages.contains(q) implies #[trigger] t.lru.contains(
                q,
            ) by {
                if q == p {
                    assert(t.lru[0] == p);
                } else {
                    assert(self.lru.contains(q));
                    assert(w.contains(q));
                    let j = w.index_of(q);
                    assert(t.lru[j + 1] == q);
                }
            }
            lemma_ids_fit(t.lru, self.nr_pages as int);
            assert(t.owners_ok()) by {
                assert forall|i: int| 0 <= i < t.owners.len() implies t.owner_ok(
                    (#[trigger] t.owners[i]).0,
                    t.owners[i].1,
                ) by {
                    assert(self.owner_ok(self.owners[i].0, self.owners[i].1));
                }
            }
        }
    }

    /// Replacing a page in use by one of the same owner, slots and blocks
    /// keeps the pool well formed.
    pub proof fn lemma_page_edit_wf(self, p: PageId, page: PageView)
        requires
            self.wf(),
            self.valid_page(p),
            page.wf(),
            page.io_block_size == self.block_size,
            page.cache_page_size == self.page_size,
            page.owner == self.pages[p as int].owner,
            page.free_slots == self.pages[p as int].free_slots,
            page.blocks.offsets == self.pages[p as int].blocks.offsets,
            self.free_pages.contains(p) ==> page == self.pages[p as int],
        ensures
            self.with_page(p, page).wf(),
    {
        let t = self.with_page(p, page);
        assert(t.owners_ok()) by {
            assert forall|i: int| 0 <= i < t.owners.len() implies t.owner_ok(
                (#[trigger] t.owners[i]).0,
                t.owners[i].1,
            ) by {
                let ov = self.owners[i].1;
                assert(self.owner_ok(self.owners[i].0, ov));
                assert forall|j: int| 0 <= j < ov.ordered.len() implies {
                    let e = #[trigger] ov.ordered[j];
                    &&& t.pages[e.1.page_id as int].contains(e.0)
                    &&& t.pages[e.1.page_id as int].blocks.offsets_of(e.0) == e.1.offsets
                } by {}
            }
        }
        assert(t.owned_ok()) by {
            assert forall|q: PageId| t.valid_page(q) && !t.free_pages.contains(q) implies {
                &&& has_name(t.owners, (#[trigger] t.pages[q as int]).owner)
                &&& t.owner(t.pages[q as int].owner).pages.contains(q)
            } by {
                assert(self.pages[q as int].owner == t.pages[q as int].owner);
            }
        }
        assert(t.free_ok()) by {
            assert forall|i: int| 0 <= i < t.free_pages.len() implies {
                &&& t.valid_page(#[trigger] t.free_pages[i])
                &&& t.pages[t.free_pages[i] as int] == t.fresh_page()
            } by {
                assert(self.free_pages.contains(self.free_pages[i]));
            }
        }
    }

    /// Releasing a page in use keeps the pool well formed.
    pub proof fn lemma_release_page_wf(self, p: PageId)
        requires
            self.wf(),
            self.valid_page(p),
            !self.free_pages.contains(p),
        ensures
            self.release_page(p).wf(),
            self.release_page(p).free_pages.len() == self.free_pages.len() + 1,
            self.release_page(p).free_pages.last() == p,
    {
        let t = self.release_page(p);
        let name = self.pages[p as int].owner;
        let ov = self.owner(name);
        self.lemma_page_owner(p);
        lemma_without(ov.pages, p);
        lemma_without(ov.free, p);
        lemma_without(self.lru, p);
        lemma_entries_off_page(ov.ordered, p);
        lemma_fresh_wf(self.block_size, self.page_size, no_owner());
        let left = OwnerView {
            pages: without(ov.pages, p),
            ordered: entries_off_page(ov.ordered, p),
            free: without(ov.free, p),
        };
        lemma_bind(self.owners, name, left);
        lemma_unbind(self.owners, name);
        assert forall|q: PageId| q != p implies t.free_pages.contains(q)
            == self.free_pages.contains(q) by {
            if self.free_pages.contains(q) {
                let i = self.free_pages.index_of(q);
                assert(t.free_pages[i] == q);
            }
            if t.free_pages.contains(q) {
                let i = t.free_pages.index_of(q);
                assert(self.free_pages[i] == q);
            }
        }
        assert(t.free_pages[self.free_pages.len() as int] == p);
        assert(t.free_ok()) by {
            assert forall|i: int, j: int|
                0 <= i < t.free_pages.len() && 0 <= j < t.free_pages.len() && i != j implies t.free_pages[i]
                != t.free_pages[j] by {
                if i < self.free_pages.len() {
                    assert(self.free_pages.contains(self.free_pages[i]));
                }
                if j < self.free_pages.len() {
                    assert(self.free_pages.contains(self.free_pages[j]));
                }
            }
            assert forall|i: int| 0 <= i < t.free_pages.len() implies {
                &&& t.valid_page(#[trigger] t.free_pages[i])
                &&& t.pages[t.free_pages[i] as int] == t.fresh_page()
            } by {
                if i < self.free_pages.len() {
                    assert(self.free_pages.contains(self.free_pages[i]));
                    assert(self.valid_page(self.free_pages[i]));
                }
            }
        }
        if left.pages.len() > 0 {
            assert(t.owner(name) == left);
            assert(t.owner_ok(name, left)) by {
                assert forall|j: int| 0 <= j < left.pages.len() implies {
                    &&& t.valid_page(#[trigger] left.pages[j])
                    &&& t.pages[left.pages[j] as int].owner == name
                    &&& !t.free_pages.contains(left.pages[j])
                } by {
                    assert(left.pages.contains(left.pages[j]));
                    let q = left.pages[j];
                    assert(ov.pages.contains(q));
                    let k = ov.pages.index_of(q);
                    assert(self.valid_page(ov.pages[k]));
                }
                assert forall|j: int| 0 <= j < left.free.len() implies {
                    &&& left.pages.contains(#[trigger] left.free[j])
                    &&& t.valid_page(left.free[j])
                    &&& t.pages[left.free[j] as int].free_slots.len() > 0
                } by {
                    assert(left.free.contains(left.free[j]));
                    let q = left.free[j];
                    assert(ov.free.contains(q));
                    let k = ov.free.index_of(q);
                    assert(ov.pages.contains(ov.free[k]));
                }
                assert forall|j: int| 0 <= j < left.ordered.len() implies {
                    let e = #[trigger] left.ordered[j];
                    &&& left.pages.contains(e.1.page_id)
                    &&& t.valid_page(e.1.page_id)
                    &&& t.pages[e.1.page_id as int].contains(e.0)
                    &&& t.pages[e.1.page_id as int].blocks.offsets_of(e.0) == e.1.offsets
                } by {
                    let e = left.ordered[j];
                    assert(has_key(ov.ordered, e.0));
                    let k = position(ov.ordered, e.0);
                    lemma_position_unique(ov.ordered, k);
                    assert(ov.ordered[k] == e);
                }
            }
        }
        self.lemma_owners_ok_after(t, name, p);
        assert(t.owned_ok()) by {
            assert forall|q: PageId| t.valid_page(q) && !t.free_pages.contains(q) implies {
                &&& has_name(t.owners, (#[trigger] t.pages[q as int]).owner)
                &&& t.owner(t.pages[q as int].owner).pages.contains(q)
            } by {
                assert(q != p);
                assert(!self.free_pages.contains(q));
                let oq = self.pages[q as int].owner;
                assert(has_name(self.owners, oq));
                assert(self.owner(oq).pages.contains(q));
                if oq == name {
                    assert(left.pages.contains(q));
                }
            }
        }
        assert(t.lru_ok()) by {
            if self.lru_enabled {
                assert forall|i: int| 0 <= i < t.lru.len() implies t.valid_page(
                    #[trigger] t.lru[i],
                ) && !t.free_pages.contains(t.lru[i]) by {
                    assert(t.lru.contains(t.lru[i]));
                    let q = t.lru[i];
                    assert(self.lru.contains(q));
                    let k = self.lru.index_of(q);
                    assert(self.valid_page(self.lru[k]));
                }
                assert forall|q: PageId|
                    t.valid_page(q) && !t.free_pages.contains(q) implies #[trigger] t.lru.contains(
                    q,
                ) by {
                    assert(q != p);
                    assert(self.lru.contains(q));
                }
            } else {
                assert(!self.lru.contains(p));
            }
        }
    }

    /// Handing the free page on top of the stack to an owner keeps the pool well formed.
    pub proof fn lemma_claim_free_page_wf(self, name: Seq<char>)
        requires
            self.wf(),
            self.free_pages.len() > 0,
        ensures
            self.claim_free_page(name).wf(),
            self.valid_page(self.free_pages.last()),
            !self.claim_free_page(name).free_pages.contains(self.free_pages.last()),
            self.claim_free_page(name).pages[self.free_pages.last() as int] == (PageView {
                owner: name,
                ..self.fresh_page()
            }),
            self.fresh_page().free_slots.len() > 0,
            has_name(self.claim_free_page(name).owners, name),
            self.claim_free_page(name).free_pages == self.free_pages.drop_last(),
    {
        let p = self.free_pages.last();
        let ov = self.owner(name);
        let more = OwnerView { pages: ov.pages.push(p), free: ov.free.push(p), ..ov };
        let u = EngineView {
            pages: self.pages.update(p as int, PageView { owner: name, ..self.pages[p as int] }),
            free_pages: self.free_pages.drop_last(),
            owners: bind(self.owners, name, more),
            ..self
        };
        let t = self.claim_free_page(name);
        assert(self.free_pages[self.free_pages.len() - 1] == p);
        assert(self.free_pages.contains(p));
        self.lemma_free_page_unlisted(p);
        lemma_bind(self.owners, name, more);
        lemma_fresh_wf(self.block_size, self.page_size, name);
        assert(self.fresh_page().free_slots.len() > 0) by {
            let bs = self.block_size as int;
            let ps = self.page_size as int;
            assert(ps / bs >= 1) by (nonlinear_arith)
                requires
                    ps >= bs,
                    bs > 0,
            ;
        }
        assert(u.pages[p as int] == PageView::fresh(self.block_size, self.page_size, name));
        assert forall|q: PageId| q != p implies u.free_pages.contains(q)
            == self.free_pages.contains(q) by {
            if self.free_pages.contains(q) {
                let i = self.free_pages.index_of(q);
                assert(u.free_pages[i] == q);
            }
            if u.free_pages.contains(q) {
                let i = u.free_pages.index_of(q);
                assert(self.free_pages[i] == q);
            }
        }
        assert(!u.free_pages.contains(p)) by {
            if u.free_pages.contains(p) {
                let i = u.free_pages.index_of(p);
                assert(self.free_pages[i] == p);
            }
        }
        assert(u.free_ok()) by {
            assert forall|i: int| 0 <= i < u.free_pages.len() implies {
                &&& u.valid_page(#[trigger] u.free_pages[i])
                &&& u.pages[u.free_pages[i] as int] == u.fresh_page()
            } by {
                assert(u.free_pages[i] == self.free_pages[i]);
                assert(self.valid_page(self.free_pages[i]));
            }
        }
        if has_name(self.owners, name) {
            self.lemma_owner_record(name);
            let i = name_index(self.owners, name);
            assert(!self.owners[i].1.pages.contains(p));
        }
        assert(!ov.pages.contains(p));
        assert(!ov.free.contains(p)) by {
            if ov.free.contains(p) {
                let j = ov.free.index_of(p);
                assert(ov.pages.contains(ov.free[j]));
            }
        }
        assert(u.owner(name) == more);
        assert(u.owner_ok(name, more)) by {
            assert(more.pages[ov.pages.len() as int] == p);
            assert(more.pages.contains(p));
            assert forall|q: PageId| ov.pages.contains(q) implies more.pages.contains(q) by {
                let j = ov.pages.index_of(q);
                assert(more.pages[j] == q);
            }
            assert(more.pages.no_duplicates()) by {
                assert forall|i: int, j: int|
                    0 <= i < more.pages.len() && 0 <= j < more.pages.len() && i != j implies more.pages[i]
                    != more.pages[j] by {
                    if i < ov.pages.len() {
                        assert(ov.pages.contains(ov.pages[i]));
                    }
                    if j < ov.pages.len() {
                        assert(ov.pages.contains(ov.pages[j]));
                    }
                }
            }
            assert(more.free.no_duplicates()) by {
                assert forall|i: int, j: int|
                    0 <= i < more.free.len() && 0 <= j < more.free.len() && i != j implies more.free[i]
                    != more.free[j] by {
                    if i < ov.free.len() {
                        assert(ov.free.contains(ov.free[i]));
                    }
                    if j < ov.free.len() {
                        assert(ov.free.contains(ov.free[j]));
                    }
                }
            }
            assert forall|j: int| 0 <= j < more.pages.len() implies {
                &&& u.valid_page(#[trigger] more.pages[j])
                &&& u.pages[more.pages[j] as int].owner == name
                &&& !u.free_pages.contains(more.pages[j])
            } by {
                if j < ov.pages.len() {
                    assert(ov.pages.contains(ov.pages[j]));
                    assert(self.valid_page(ov.pages[j]));
                }
            }
            assert forall|j: int| 0 <= j < more.free.len() implies {
                &&& more.pages.contains(#[trigger] more.free[j])
                &&& u.valid_page(more.free[j])
                &&& u.pages[more.free[j] as int].free_slots.len() > 0
            } by {
                if j < ov.free.len() {
                    assert(ov.free.contains(ov.free[j]));
                    assert(ov.pages.contains(ov.free[j]));
                }
            }
            assert forall|j: int| 0 <= j < more.ordered.len() implies {
                let e = #[trigger] more.ordered[j];
                &&& more.pages.contains(e.1.page_id)
                &&& u.valid_page(e.1.page_id)
                &&& u.pages[e.1.page_id as int].contains(e.0)
                &&& u.pages[e.1.page_id as int].blocks.offsets_of(e.0) == e.1.offsets
            } by {
                let e = ov.ordered[j];
                assert(ov.pages.contains(e.1.page_id));
            }
        }
        self.lemma_owners_ok_after(u, name, p);
        assert(u.owned_ok()) by {
            assert forall|q: PageId| u.valid_page(q) && !u.free_pages.contains(q) implies {
                &&& has_name(u.owners, (#[trigger] u.pages[q as int]).owner)
                &&& u.owner(u.pages[q as int].owner).pages.contains(q)
            } by {
                if q != p {
                    let oq = self.pages[q as int].owner;
                    assert(has_name(self.owners, oq));
                    assert(self.owner(oq).pages.contains(q));
                    if oq == name {
                        let j = ov.pages.index_of(q);
                        assert(more.pages[j] == q);
                    }
                } else {
                    assert(more.pages[ov.pages.len() as int] == p);
                }
            }
        }
        // The queue of `u` lacks `p`, which the visit then adds.
        let v = EngineView { lru: if self.lru_enabled {
            seq![p] + self.lru
        } else {
            self.lru
        }, ..u };
        assert(without(self.lru, p) == self.lru);
        assert(v.wf()) by {
            assert(v.owners_ok()) by {
                assert forall|i: int| 0 <= i < v.owners.len() implies v.owner_ok(
                    (#[trigger] v.owners[i]).0,
                    v.owners[i].1,
                ) by {
                    assert(u.owner_ok(u.owners[i].0, u.owners[i].1));
                }
            }
            if self.lru_enabled {
                assert(v.lru[0] == p);
                assert(v.lru.no_duplicates()) by {
                    assert forall|i: int, j: int|
                        0 <= i < v.lru.len() && 0 <= j < v.lru.len() && i != j implies v.lru[i]
                        != v.lru[j] by {
                        if i > 0 {
                            assert(self.lru.contains(self.lru[i - 1]));
                        }
                        if j > 0 {
                            assert(self.lru.contains(self.lru[j - 1]));
                        }
                    }
                }
                assert forall|i: int| 0 <= i < v.lru.len() implies v.valid_page(
                    #[trigger] v.lru[i],
                ) && !v.free_pages.contains(v.lru[i]) by {
                    if i > 0 {
                        assert(v.lru[i] == self.lru[i - 1]);
                        assert(self.lru.contains(self.lru[i - 1]));
                        assert(self.valid_page(self.lru[i - 1]));
                    }
                }
                assert forall|q: PageId|
                    v.valid_page(q) && !v.free_pages.contains(q) implies #[trigger] v.lru.contains(
                    q,
                ) by {
                    if q != p {
                        assert(self.lru.contains(q));
                        let j = self.lru.index_of(q);
                        assert(v.lru[j + 1] == q);
                    }
                }
            }
        }
        if self.lru_enabled {
            lemma_ids_fit(v.lru, self.nr_pages as int);
        }
        assert(t == v);
    }

    /// Placing a block on a page of its owner keeps the pool well formed.
    pub proof fn lemma_place_block_wf(
        self,
        name: Seq<char>,
        p: PageId,
        block_id: BlockId,
        data: Seq<u8>,
        offset: i32,
        is_write: bool,
    )
        requires
            self.wf(),
            self.valid_page(p),
            !self.free_pages.contains(p),
            self.pages[p as int].owner == name,
            block_id >= 0,
            0 <= offset,
            offset + data.len() <= self.block_size,
            self.pages[p as int].contains(block_id) || self.pages[p as int].free_slots.len() > 0,
        ensures
            self.place_block(name, p, block_id, data, offset, is_write).wf(),
            Self::page_with_block(self.pages[p as int], block_id, data, offset, is_write).wf(),
            Self::page_with_block(self.pages[p as int], block_id, data, offset, is_write).contains(
                block_id,
            ),
    {
        let old_page = self.pages[p as int];
        let page = Self::page_with_block(old_page, block_id, data, offset, is_write);
        let t = self.place_block(name, p, block_id, data, offset, is_write);
        Self::lemma_page_with_block(old_page, block_id, data, offset, is_write);
        self.lemma_page_owner(p);
        let ov = self.owner(name);
        let entry = OrderedEntry {
            page_id: p,
            offsets: page.blocks.offsets_of(block_id),
            synced: false,
        };
        let next = OwnerView {
            ordered: with_entry(ov.ordered, block_id, entry),
            free: if page.free_slots.len() > 0 {
                with_id(ov.free, p)
            } else {
                without(ov.free, p)
            },
            ..ov
        };
        lemma_bind(self.owners, name, next);
        lemma_with_entry(ov.ordered, block_id, entry);
        lemma_with_id(ov.free, p);
        lemma_without(ov.free, p);
        assert(t.owner(name) == next);
        assert(t.owner_ok(name, next)) by {
            assert forall|j: int| 0 <= j < next.free.len() implies {
                &&& next.pages.contains(#[trigger] next.free[j])
                &&& t.valid_page(next.free[j])
                &&& t.pages[next.free[j] as int].free_slots.len() > 0
            } by {
                let q = next.free[j];
                assert(next.free.contains(q));
                if q != p {
                    assert(ov.free.contains(q));
                    let k = ov.free.index_of(q);
                    assert(ov.pages.contains(ov.free[k]));
                }
            }
            assert forall|j: int| 0 <= j < next.ordered.len() implies {
                let e = #[trigger] next.ordered[j];
                &&& next.pages.contains(e.1.page_id)
                &&& t.valid_page(e.1.page_id)
                &&& t.pages[e.1.page_id as int].contains(e.0)
                &&& t.pages[e.1.page_id as int].blocks.offsets_of(e.0) == e.1.offsets
            } by {
                let e = next.ordered[j];
                lemma_position_unique(next.ordered, j);
                if e.0 != block_id {
                    assert(lookup(ov.ordered, e.0) == Some(e.1));
                    let k = position(ov.ordered, e.0);
                    assert(ov.ordered[k].0 == e.0);
                    assert(ov.ordered[k] == e);
                }
            }
        }
        self.lemma_owners_ok_after(t, name, p);
        assert(t.owned_ok()) by {
            assert forall|q: PageId| t.valid_page(q) && !t.free_pages.contains(q) implies {
                &&& has_name(t.owners, (#[trigger] t.pages[q as int]).owner)
                &&& t.owner(t.pages[q as int].owner).pages.contains(q)
            } by {
                let oq = self.pages[q as int].owner;
                assert(has_name(self.owners, oq));
                assert(self.owner(oq).pages.contains(q));
            }
        }
        assert(t.free_ok()) by {
            assert forall|i: int| 0 <= i < t.free_pages.len() implies {
                &&& t.valid_page(#[trigger] t.free_pages[i])
                &&& t.pages[t.free_pages[i] as int] == t.fresh_page()
            } by {
                assert(self.free_pages.contains(self.free_pages[i]));
            }
        }
    }

    /// A page with a block placed on it is well formed, holds the block,
    /// and holds every other block where it was.
    pub proof fn lemma_page_with_block(
        page: PageView,
        block_id: BlockId,
        data: Seq<u8>,
        offset: i32,
        is_write: bool,
    )
        requires
            page.wf(),
            block_id >= 0,
            0 <= offset,
            offset + data.len() <= page.io_block_size,
            page.contains(block_id) || page.free_slots.len() > 0,
        ensures
            ({
                let next = Self::page_with_block(page, block_id, data, offset, is_write);
                &&& next.wf()
                &&& next.contains(block_id)
                &&& next.owner == page.owner
                &&& next.io_block_size == page.io_block_size
                &&& next.cache_page_size == page.cache_page_size
                &&& forall|b: BlockId|
                    b != block_id ==> next.contains(b) == page.contains(b)
                        && next.blocks.offsets_of(b) == page.blocks.offsets_of(b)
                &&& page.contains(block_id) ==> next.blocks.offsets_of(block_id)
                    == page.blocks.offsets_of(block_id)
            }),
    {
        let next = Self::page_with_block(page, block_id, data, offset, is_write);
        if !page.contains(block_id) {
            lemma_take_slot(page, block_id);
            let taken = page.take_slot(block_id);
            assert(next.blocks == taken.blocks);
            assert(next.free_slots == taken.free_slots);
            assert(next.slots_ok());
            assert(next.blocks_ok());
            assert(next.apart_ok());
            assert(next.marks_ok());
        }
    }

    /// Taking a block off a page in use keeps the pool well formed.
    pub proof fn lemma_forget_block_wf(self, name: Seq<char>, p: PageId, block_id: BlockId)
        requires
            self.wf(),
            self.valid_page(p),
            !self.free_pages.contains(p),
            self.pages[p as int].owner == name,
        ensures
            self.forget_block(name, p, block_id).wf(),
            !self.forget_block(name, p, block_id).free_pages.contains(p),
            self.forget_block(name, p, block_id).pages[p as int].owner == name,
    {
        let t = self.forget_block(name, p, block_id);
        let old_page = self.pages[p as int];
        let page = old_page.without_block(block_id);
        self.lemma_page_owner(p);
        lemma_without_block(old_page, block_id);
        let ov = self.owner(name);
        let listed_here = match lookup(ov.ordered, block_id) {
            Some(e) => e.page_id == p,
            None => false,
        };
        let next = if listed_here {
            OwnerView { ordered: without_key(ov.ordered, block_id), ..ov }
        } else {
            ov
        };
        lemma_bind(self.owners, name, next);
        lemma_without_key(ov.ordered, block_id);
        assert(distinct_names(t.owners));
        assert(has_name(t.owners, name));
        assert(t.owner(name) == next);
        assert(t.owner_ok(name, next)) by {
            assert forall|j: int| 0 <= j < next.free.len() implies {
                &&& next.pages.contains(#[trigger] next.free[j])
                &&& t.valid_page(next.free[j])
                &&& t.pages[next.free[j] as int].free_slots.len() > 0
            } by {
                assert(ov.pages.contains(ov.free[j]));
            }
            assert forall|j: int| 0 <= j < next.ordered.len() implies {
                let e = #[trigger] next.ordered[j];
                &&& next.pages.contains(e.1.page_id)
                &&& t.valid_page(e.1.page_id)
                &&& t.pages[e.1.page_id as int].contains(e.0)
                &&& t.pages[e.1.page_id as int].blocks.offsets_of(e.0) == e.1.offsets
            } by {
                let e = next.ordered[j];
                lemma_position_unique(next.ordered, j);
                if listed_here {
                    assert(e.0 != block_id);
                    assert(lookup(ov.ordered, e.0) == Some(e.1));
                }
                let k = position(ov.ordered, e.0);
                assert(has_key(ov.ordered, e.0));
                lemma_position_unique(ov.ordered, k);
                assert(ov.ordered[k] == e);
                if e.0 == block_id {
                    assert(e.1.page_id != p);
                }
            }
        }
        self.lemma_owners_ok_after(t, name, p);
        assert(t.owned_ok()) by {
            assert forall|q: PageId| t.valid_page(q) && !t.free_pages.contains(q) implies {
                &&& has_name(t.owners, (#[trigger] t.pages[q as int]).owner)
                &&& t.owner(t.pages[q as int].owner).pages.contains(q)
            } by {
                let oq = self.pages[q as int].owner;
                assert(has_name(self.owners, oq));
                assert(self.owner(oq).pages.contains(q));
            }
        }
        assert(t.free_ok()) by {
            assert forall|i: int| 0 <= i < t.free_pages.len() implies {
                &&& t.valid_page(#[trigger] t.free_pages[i])
                &&& t.pages[t.free_pages[i] as int] == t.fresh_page()
            } by {
                assert(self.free_pages.contains(self.free_pages[i]));
            }
        }
    }

    /// Taking the next page with room keeps the pool well formed, and the
    /// page taken is a page of the owner with a free slot.
    pub proof fn lemma_next_free_page_wf(self, name: Seq<char>)
        requires
            self.wf(),
        ensures
            self.next_free_page(name).0.wf(),
            self.next_free_page(name).1 >= 0 ==> {
                let got = self.next_free_page(name);
                &&& got.0.valid_page(got.1)
                &&& !got.0.free_pages.contains(got.1)
                &&& got.0.pages[got.1 as int].owner == name
                &&& got.0.pages[got.1 as int].free_slots.len() > 0
            },
            self.next_free_page(name).1 < 0 ==> self.next_free_page(name).0 == self,
            self.next_free_page(name).1 >= -1,
    {
        let ov = self.owner(name);
        if ov.free.len() > 0 {
            let p = ov.free.last();
            assert(has_name(self.owners, name));
            self.lemma_owner_record(name);
            assert(ov.pages.contains(ov.free[ov.free.len() - 1]));
            let j = ov.pages.index_of(p);
            assert(self.valid_page(ov.pages[j]));
            self.lemma_visit_wf(p);
        } else if self.free_pages.len() > 0 {
            self.lemma_claim_free_page_wf(name);
        } else if self.lru_enabled && self.lru.len() > 0 {
            let v = self.lru.last();
            assert(self.valid_page(self.lru[self.lru.len() - 1]));
            self.lemma_release_page_wf(v);
            self.release_page(v).lemma_claim_free_page_wf(name);
        }
    }

    /// Placing one block keeps the pool well formed.
    pub proof fn lemma_allocate_one_wf(self, name: Seq<char>, r: PlacementView, is_write: bool)
        requires
            self.wf(),
        ensures
            self.allocate_one(name, r, is_write).0.wf(),
    {
        if r.fits(self.block_size) {
            if self.is_cached(name, r.page_id, r.block_id) {
                if self.free_pages.contains(r.page_id) {
                    self.lemma_free_page_unlisted(r.page_id);
                }
                self.lemma_place_block_wf(name, r.page_id, r.block_id, r.data, r.offset, is_write);
            } else {
                self.lemma_next_free_page_wf(name);
                let got = self.next_free_page(name);
                if got.1 >= 0 {
                    got.0.lemma_place_block_wf(name, got.1, r.block_id, r.data, r.offset, is_write);
                }
            }
        }
    }

    /// A page that holds a block is not free.
    pub proof fn lemma_cached_in_use(self, name: Seq<char>, p: PageId, block_id: BlockId)
        requires
            self.wf(),
            self.is_cached(name, p, block_id),
        ensures
            !self.free_pages.contains(p),
    {
        if self.free_pages.contains(p) {
            self.lemma_free_page_unlisted(p);
            let page = self.fresh_page();
            if has_key(page.blocks.offsets, block_id) {
                let i = position(page.blocks.offsets, block_id);
            }
        }
    }

    /// Reading a block keeps the pool well formed, and the bytes read lie in the page.
    pub proof fn lemma_read_one_wf(self, name: Seq<char>, block_id: BlockId, page_id: PageId, read_to: i32)
        requires
            self.wf(),
        ensures
            self.read_one(name, block_id, page_id, read_to).0.wf(),
            self.read_one(name, block_id, page_id, read_to).1 ==> {
                let page = self.pages[page_id as int];
                &&& page.wf()
                &&& 0 <= page.lo(block_id)
                &&& page.lo(block_id) + self.block_size <= page.data.len()
            },
    {
        if self.is_cached(name, page_id, block_id) && 0 <= read_to < self.block_size {
            self.lemma_cached_in_use(name, page_id, block_id);
            self.lemma_visit_wf(page_id);
            let page = self.pages[page_id as int];
            let i = position(page.blocks.offsets, block_id);
            assert(page.blocks.offsets[i].0 == block_id);
            assert(page.is_slot(page.blocks.offsets[i].1.0));
        }
    }

    /// Raising a mark keeps the pool well formed.
    pub proof fn lemma_mark_readable_wf(self, name: Seq<char>, p: PageId, block_id: BlockId, offset: i32)
        requires
            self.wf(),
        ensures
            self.mark_readable(name, p, block_id, offset).wf(),
    {
        if self.valid_page(p) && self.pages[p as int].owner == name {
            let page = self.pages[p as int];
            crate::pagecache::engine::page::lemma_marks(page, block_id, offset);
            if self.free_pages.contains(p) {
                self.lemma_free_page_unlisted(p);
                if has_key(page.blocks.offsets, block_id) {
                    let i = position(page.blocks.offsets, block_id);
                }
            }
            self.lemma_page_edit_wf(p, page.raise_mark(block_id, offset));
        }
    }

    /// Releasing pages in use, each once, keeps the pool well formed and
    /// puts them on the stack of free pages in that order.
    pub proof fn lemma_release_all_wf(self, ps: Seq<PageId>)
        requires
            self.wf(),
            ps.no_duplicates(),
            forall|i: int|
                0 <= i < ps.len() ==> self.valid_page(#[trigger] ps[i]) && !self.free_pages.contains(
                    ps[i],
                ),
        ensures
            self.release_all(ps).wf(),
            self.release_all(ps).free_pages == self.free_pages + ps,
            self.release_all(ps).pages.len() == self.pages.len(),
        decreases ps.len(),
    {
        if ps.len() == 0 {
            assert(self.free_pages + ps =~= self.free_pages);
        } else {
            let init = ps.drop_last();
            let last = ps.last();
            assert forall|i: int| 0 <= i < init.len() implies self.valid_page(#[trigger] init[i])
                && !self.free_pages.contains(init[i]) by {
                assert(init[i] == ps[i]);
            }
            self.lemma_release_all_wf(init);
            let mid = self.release_all(init);
            assert(!mid.free_pages.contains(last)) by {
                if mid.free_pages.contains(last) {
                    let j = mid.free_pages.index_of(last);
                    if j < self.free_pages.len() {
                        assert(self.free_pages[j] == last);
                        assert(self.free_pages.contains(last));
                    } else {
                        assert(init[j - self.free_pages.len()] == last);
                        assert(ps[j - self.free_pages.len()] == ps[ps.len() - 1]);
                    }
                }
            }
            assert(self.valid_page(ps[ps.len() - 1]));
            mid.lemma_release_page_wf(last);
            assert(mid.release_page(last).free_pages =~= self.free_pages + ps);
        }
    }

    /// Forgetting an owner keeps the pool well formed.
    pub proof fn lemma_remove_owner_wf(self, name: Seq<char>)
        requires
            self.wf(),
        ensures
            self.remove_owner(name).wf(),
            forall|i: int|
                0 <= i < self.owner(name).pages.len() ==> self.valid_page(
                    #[trigger] self.owner(name).pages[i],
                ) && !self.free_pages.contains(self.owner(name).pages[i]),
            self.owner(name).pages.no_duplicates(),
    {
        if has_name(self.owners, name) {
            self.lemma_owner_record(name);
        }
        self.lemma_release_all_wf(self.owner(name).pages);
    }

    /// Truncating one block keeps the pool well formed.
    pub proof fn lemma_truncate_one_wf(
        self,
        name: Seq<char>,
        block_id: BlockId,
        p: PageId,
        from_block_id: BlockId,
        index_inside_block: i32,
    )
        requires
            self.wf(),
        ensures
            self.truncate_one(name, block_id, p, from_block_id, index_inside_block).wf(),
    {
        if self.in_use_by(name, p) {
            if block_id == from_block_id && index_inside_block > 0 {
                let page = self.pages[p as int];
                crate::pagecache::engine::page::lemma_marks(
                    page,
                    from_block_id,
                    (index_inside_block - 1) as i32,
                );
                let marked = page.set_mark(from_block_id, (index_inside_block - 1) as i32);
                self.lemma_page_edit_wf(p, marked.zero_from(from_block_id, index_inside_block));
            } else {
                self.lemma_forget_block_wf(name, p, block_id);
                let gone = self.forget_block(name, p, block_id);
                if !gone.pages[p as int].dirty {
                    gone.lemma_release_page_wf(p);
                }
            }
        }
    }

    /// The entries on dirty pages are entries of the whole, in their order.
    pub proof fn lemma_dirty_entries(self, ordered: Seq<(BlockId, OrderedEntry)>)
        ensures
            self.dirty_entries(ordered).len() <= ordered.len(),
            forall|i: int|
                0 <= i < self.dirty_entries(ordered).len() ==> ordered.contains(
                    #[trigger] self.dirty_entries(ordered)[i],
                ),
        decreases ordered.len(),
    {
        if ordered.len() > 0 {
            let init = ordered.drop_last();
            self.lemma_dirty_entries(init);
            let d = self.dirty_entries(ordered);
            let di = self.dirty_entries(init);
            assert forall|i: int| 0 <= i < d.len() implies ordered.contains(#[trigger] d[i]) by {
                if i < di.len() {
                    assert(d[i] == di[i]);
                    assert(init.contains(di[i]));
                    let j = init.index_of(di[i]);
                    assert(ordered[j] == init[j]);
                } else {
                    assert(d[i] == ordered[ordered.len() - 1]);
                }
            }
        }
    }

    /// An entry of the record of an owner sits in a slot of its page, and
    /// its block id is not negative.
    pub proof fn lemma_entry_in_page(self, name: Seq<char>, e: (BlockId, OrderedEntry))
        requires
            self.wf(),
            self.owner(name).ordered.contains(e),
        ensures
            self.valid_page(e.1.page_id),
            self.pages[e.1.page_id as int].wf(),
            self.pages[e.1.page_id as int].contains(e.0),
            self.pages[e.1.page_id as int].blocks.offsets_of(e.0) == e.1.offsets,
            e.0 >= 0,
            0 <= e.1.offsets.0,
            e.1.offsets.0 + self.block_size <= self.pages[e.1.page_id as int].data.len(),
            0 <= self.pages[e.1.page_id as int].blocks.readable_of(e.0) < self.block_size,
            self.owner(name).pages.contains(e.1.page_id),
            !self.free_pages.contains(e.1.page_id),
    {
        let ov = self.owner(name);
        let j = ov.ordered.index_of(e);
        assert(ov.ordered.len() > 0);
        assert(has_name(self.owners, name));
        self.lemma_owner_record(name);
        assert(ov.ordered[j] == e);
        let page = self.pages[e.1.page_id as int];
        let i = position(page.blocks.offsets, e.0);
        assert(page.blocks.offsets[i].0 == e.0);
        assert(page.is_slot(page.blocks.offsets[i].1.0));
        crate::pagecache::engine::page::lemma_marks(page, e.0, 0);
        let k = ov.pages.index_of(e.1.page_id);
        assert(ov.pages[k] == e.1.page_id);
    }

    /// Flushing an owner keeps the pool well formed.
    pub proof fn lemma_after_sync_wf(self, name: Seq<char>)
        requires
            self.wf(),
        ensures
            self.after_sync(name).wf(),
    {
        let t = self.after_sync(name);
        let ov = self.owner(name);
        assert forall|q: int| 0 <= q < self.pages.len() implies {
            &&& (#[trigger] t.pages[q]).wf()
            &&& t.pages[q].owner == self.pages[q].owner
            &&& t.pages[q].free_slots == self.pages[q].free_slots
            &&& t.pages[q].blocks == self.pages[q].blocks
            &&& t.pages[q].io_block_size == self.pages[q].io_block_size
            &&& t.pages[q].cache_page_size == self.pages[q].cache_page_size
        } by {
            assert(self.pages[q].wf());
        }
        assert(t.free_ok()) by {
            assert forall|i: int| 0 <= i < t.free_pages.len() implies {
                &&& t.valid_page(#[trigger] t.free_pages[i])
                &&& t.pages[t.free_pages[i] as int] == t.fresh_page()
            } by {
                let q = self.free_pages[i];
                assert(self.valid_page(q));
                assert(self.pages[q as int] == self.fresh_page());
            }
        }
        if has_name(self.owners, name) {
            self.lemma_owner_record(name);
            let next = OwnerView { ordered: self.marked_synced(ov.ordered), ..ov };
            lemma_bind(self.owners, name, next);
            let i = name_index(self.owners, name);
            assert(t.owners == self.owners.update(i, (name, next)));
        }
        assert(t.owners.len() == self.owners.len());
        assert(t.owners_ok()) by {
            assert forall|i: int| 0 <= i < t.owners.len() implies t.owner_ok(
                (#[trigger] t.owners[i]).0,
                t.owners[i].1,
            ) by {
                let k = self.owners[i].0;
                let v = self.owners[i].1;
                let w = t.owners[i].1;
                assert(self.owner_ok(k, v));
                assert(t.owners[i].0 == k);
                assert(w.pages == v.pages && w.free == v.free);
                assert(w.ordered.len() == v.ordered.len());
                assert forall|j: int| 0 <= j < w.ordered.len() implies (#[trigger] w.ordered[j]).0
                    == v.ordered[j].0 && w.ordered[j].1.page_id == v.ordered[j].1.page_id
                    && w.ordered[j].1.offsets == v.ordered[j].1.offsets by {}
                assert(ascending(w.ordered)) by {
                    assert forall|a: int, b: int| 0 <= a < b < w.ordered.len() implies (
                    #[trigger] w.ordered[a]).0 < (#[trigger] w.ordered[b]).0 by {
                        assert(v.ordered[a].0 < v.ordered[b].0);
                    }
                }
                assert forall|j: int| 0 <= j < w.pages.len() implies {
                    &&& t.valid_page(#[trigger] w.pages[j])
                    &&& t.pages[w.pages[j] as int].owner == k
                    &&& !t.free_pages.contains(w.pages[j])
                } by {
                    assert(self.valid_page(v.pages[j]));
                }
                assert forall|j: int| 0 <= j < w.free.len() implies {
                    &&& w.pages.contains(#[trigger] w.free[j])
                    &&& t.valid_page(w.free[j])
                    &&& t.pages[w.free[j] as int].free_slots.len() > 0
                } by {
                    assert(v.pages.contains(v.free[j]));
                }
                assert forall|j: int| 0 <= j < w.ordered.len() implies {
                    let e = #[trigger] w.ordered[j];
                    &&& w.pages.contains(e.1.page_id)
                    &&& t.valid_page(e.1.page_id)
                    &&& t.pages[e.1.page_id as int].contains(e.0)
                    &&& t.pages[e.1.page_id as int].blocks.offsets_of(e.0) == e.1.offsets
                } by {
                    let e = v.ordered[j];
                    assert(v.pages.contains(e.1.page_id));
                }
            }
        }
        assert(t.owned_ok()) by {
            assert forall|q: PageId| t.valid_page(q) && !t.free_pages.contains(q) implies {
                &&& has_name(t.owners, (#[trigger] t.pages[q as int]).owner)
                &&& t.owner(t.pages[q as int].owner).pages.contains(q)
            } by {
                let oq = self.pages[q as int].owner;
                assert(has_name(self.owners, oq));
                assert(self.owner(oq).pages.contains(q));
                let i = name_index(self.owners, oq);
                assert(self.owners[i].0 == oq);
                lemma_name_unique(self.owners, i);
                assert(t.owners[i].0 == oq);
                lemma_name_unique(t.owners, i);
                assert(t.owners[i].1.pages == self.owners[i].1.pages);
            }
        }
    }

    /// Releasing pages leaves the other pages as they are.
    pub proof fn lemma_release_all_frame(self, ps: Seq<PageId>, q: PageId)
        requires
            self.valid_page(q),
            !ps.contains(q),
            forall|i: int| 0 <= i < ps.len() ==> self.valid_page(#[trigger] ps[i]),
        ensures
            self.release_all(ps).pages.len() == self.pages.len(),
            self.release_all(ps).pages[q as int] == self.pages[q as int],
        decreases ps.len(),
    {
        if ps.len() > 0 {
            let init = ps.drop_last();
            assert(!init.contains(q)) by {
                if init.contains(q) {
                    let j = init.index_of(q);
                    assert(ps[j] == q);
                }
            }
            assert forall|i: int| 0 <= i < init.len() implies self.valid_page(#[trigger] init[i]) by {
                assert(init[i] == ps[i]);
            }
            self.lemma_release_all_frame(init, q);
            assert(ps[ps.len() - 1] != q);
            assert(self.valid_page(ps[ps.len() - 1]));
        } else {
        }
    }

    /// After an owner was forgotten the pool does not know it, and its
    /// pages are free.
    pub proof fn lemma_forgotten_owner(self, name: Seq<char>)
        requires
            self.wf(),
        ensures
            self.remove_owner(name).wf(),
            !has_name(self.remove_owner(name).owners, name),
            self.remove_owner(name).free_pages == self.free_pages + self.owner(name).pages,
            forall|p: PageId|
                self.owner(name).pages.contains(p) ==> self.remove_owner(name).free_pages.contains(
                    p,
                ),
    {
        let t = self.remove_owner(name);
        let ps = self.owner(name).pages;
        self.lemma_remove_owner_wf(name);
        self.lemma_release_all_wf(ps);
        assert forall|p: PageId| ps.contains(p) implies t.free_pages.contains(p) by {
            let j = ps.index_of(p);
            assert(t.free_pages[self.free_pages.len() + j] == p);
        }
        if has_name(t.owners, name) {
            t.lemma_owner_record(name);
            let r = t.owner(name);
            let p = r.pages[0];
            assert(t.valid_page(p) && t.pages[p as int].owner == name && !t.free_pages.contains(p));
            assert(!ps.contains(p));
            assert(!self.free_pages.contains(p)) by {
                if self.free_pages.contains(p) {
                    let j = self.free_pages.index_of(p);
                    assert(t.free_pages[j] == p);
                }
            }
            self.lemma_release_all_frame(ps, p);
            assert(self.pages[p as int].owner == name);
            assert(self.owner(name).pages.contains(p));
        }
    }

    /// Forgetting an owner leaves the other owners known.
    pub proof fn lemma_remove_owner_forgets(self, name: Seq<char>, other: Seq<char>)
        requires
            self.wf(),
            other != name,
            has_name(self.owners, other),
        ensures
            !has_name(self.remove_owner(name).owners, name),
            has_name(self.remove_owner(name).owners, other),
    {
        let t = self.remove_owner(name);
        let ps = self.owner(name).pages;
        self.lemma_forgotten_owner(name);
        self.lemma_owner_record(other);
        let ro = self.owner(other);
        let q = ro.pages[0];
        assert(self.valid_page(q) && self.pages[q as int].owner == other
            && !self.free_pages.contains(q));
        assert(!ps.contains(q)) by {
            if ps.contains(q) {
                let j = ps.index_of(q);
                if has_name(self.owners, name) {
                    self.lemma_owner_record(name);
                }
                assert(self.pages[ps[j] as int].owner == name);
            }
        }
        self.lemma_remove_owner_wf(name);
        self.lemma_release_all_frame(ps, q);
        assert(!t.free_pages.contains(q)) by {
            if t.free_pages.contains(q) {
                let j = t.free_pages.index_of(q);
                if j < self.free_pages.len() {
                    assert(self.free_pages[j] == q);
                } else {
                    assert(ps[j - self.free_pages.len()] == q);
                }
            }
        }
        assert(has_name(t.owners, t.pages[q as int].owner));
    }

    /// Giving a known owner a name that is not known keeps the pool well formed.
    pub proof fn lemma_renamed_wf(self, old: Seq<char>, new: Seq<char>)
        requires
            self.wf(),
            has_name(self.owners, old),
            !has_name(self.owners, new),
        ensures
            self.renamed(old, new).wf(),
    {
        let t = self.renamed(old, new);
        let ov = self.owner(old);
        let i = name_index(self.owners, old);
        self.lemma_owner_record(old);
        assert(self.owners[i].0 == old);
        lemma_name_unique(self.owners, i);
        assert(t.owners[i] == (new, ov));
        assert(distinct_names(t.owners)) by {
            assert forall|a: int, b: int| 0 <= a < b < t.owners.len() implies (
            #[trigger] t.owners[a]).0 != (#[trigger] t.owners[b]).0 by {
                if a != i && b != i {
                    assert(t.owners[a] == self.owners[a] && t.owners[b] == self.owners[b]);
                } else if a == i {
                    assert(t.owners[b] == self.owners[b]);
                    if self.owners[b].0 == new {
                        assert(has_name(self.owners, new));
                    }
                } else {
                    assert(t.owners[a] == self.owners[a]);
                    if self.owners[a].0 == new {
                        assert(has_name(self.owners, new));
                    }
                }
            }
        }
        assert forall|q: int| 0 <= q < self.pages.len() implies {
            &&& (#[trigger] t.pages[q]).wf()
            &&& t.pages[q].free_slots == self.pages[q].free_slots
            &&& t.pages[q].blocks == self.pages[q].blocks
            &&& t.pages[q].io_block_size == self.pages[q].io_block_size
            &&& t.pages[q].cache_page_size == self.pages[q].cache_page_size
        } by {
            assert(self.pages[q].wf());
        }
        assert(t.free_ok()) by {
            assert forall|j: int| 0 <= j < t.free_pages.len() implies {
                &&& t.valid_page(#[trigger] t.free_pages[j])
                &&& t.pages[t.free_pages[j] as int] == t.fresh_page()
            } by {
                let q = self.free_pages[j];
                assert(self.valid_page(q));
                assert(self.free_pages.contains(q));
                if ov.pages.contains(q) {
                    let k = ov.pages.index_of(q);
                    assert(!self.free_pages.contains(ov.pages[k]));
                }
            }
        }
        assert(t.owners_ok()) by {
            assert forall|a: int| 0 <= a < t.owners.len() implies t.owner_ok(
                (#[trigger] t.owners[a]).0,
                t.owners[a].1,
            ) by {
                let v = self.owners[a].1;
                let k = self.owners[a].0;
                assert(self.owner_ok(k, v));
                assert(t.owners[a].1 == v);
                assert forall|j: int| 0 <= j < v.pages.len() implies {
                    &&& t.valid_page(#[trigger] v.pages[j])
                    &&& t.pages[v.pages[j] as int].owner == t.owners[a].0
                    &&& !t.free_pages.contains(v.pages[j])
                } by {
                    let q = v.pages[j];
                    assert(self.valid_page(q));
                    if a == i {
                        assert(ov.pages.contains(q));
                    } else {
                        assert(t.owners[a] == self.owners[a]);
                        if ov.pages.contains(q) {
                            let m = ov.pages.index_of(q);
                            assert(self.pages[ov.pages[m] as int].owner == old);
                        }
                    }
                }
                assert forall|j: int| 0 <= j < v.free.len() implies {
                    &&& v.pages.contains(#[trigger] v.free[j])
                    &&& t.valid_page(v.free[j])
                    &&& t.pages[v.free[j] as int].free_slots.len() > 0
                } by {
                    assert(v.pages.contains(v.free[j]));
                }
                assert forall|j: int| 0 <= j < v.ordered.len() implies {
                    let e = #[trigger] v.ordered[j];
                    &&& v.pages.contains(e.1.page_id)
                    &&& t.valid_page(e.1.page_id)
                    &&& t.pages[e.1.page_id as int].contains(e.0)
                    &&& t.pages[e.1.page_id as int].blocks.offsets_of(e.0) == e.1.offsets
                } by {
                    let e = v.ordered[j];
                    assert(v.pages.contains(e.1.page_id));
                }
            }
        }
        assert(t.owned_ok()) by {
            assert forall|q: PageId| t.valid_page(q) && !t.free_pages.contains(q) implies {
                &&& has_name(t.owners, (#[trigger] t.pages[q as int]).owner)
                &&& t.owner(t.pages[q as int].owner).pages.contains(q)
            } by {
                let oq = self.pages[q as int].owner;
                assert(has_name(self.owners, oq));
                assert(self.owner(oq).pages.contains(q));
                if ov.pages.contains(q) {
                    lemma_name_unique(t.owners, i);
                } else {
                    assert(oq != old);
                    let m = name_index(self.owners, oq);
                    assert(self.owners[m].0 == oq);
                    lemma_name_unique(self.owners, m);
                    assert(m != i);
                    assert(t.owners[m] == self.owners[m]);
                    lemma_name_unique(t.owners, m);
                }
            }
        }
    }

    /// Renaming an owner keeps the pool well formed.
    pub proof fn lemma_rename_owner_wf(self, old: Seq<char>, new: Seq<char>)
        requires
            self.wf(),
        ensures
            self.rename_owner(old, new).0.wf(),
    {
        if has_name(self.owners, old) && old != new {
            self.lemma_remove_owner_wf(new);
            self.lemma_remove_owner_forgets(new, old);
            self.remove_owner(new).lemma_renamed_wf(old, new);
        }
    }

    /// Placing a list of blocks keeps the pool well formed and answers for
    /// each block of the list, in order.
    pub proof fn lemma_allocate_all(
        self,
        name: Seq<char>,
        rs: Seq<PlacementView>,
        is_write: bool,
    )
        requires
            self.wf(),
        ensures
            self.allocate_all(name, rs, is_write).0.wf(),
            self.allocate_all(name, rs, is_write).1.len() == rs.len(),
            forall|i: int|
                0 <= i < rs.len() ==> (#[trigger] self.allocate_all(name, rs, is_write).1[i]).0
                    == rs[i].block_id,
        decreases rs.len(),
    {
        if rs.len() > 0 {
            self.lemma_allocate_all(name, rs.drop_last(), is_write);
            let before = self.allocate_all(name, rs.drop_last(), is_write);
            before.0.lemma_allocate_one_wf(name, rs.last(), is_write);
            let all = self.allocate_all(name, rs, is_write);
            assert forall|i: int| 0 <= i < rs.len() implies (#[trigger] all.1[i]).0
                == rs[i].block_id by {
                if i < rs.len() - 1 {
                    assert(all.1[i] == before.1[i]);
                    assert(rs.drop_last()[i] == rs[i]);
                }
            }
        }
    }

    /// Reading a list of blocks keeps the pool well formed and answers for
    /// each block of the list, in order.
    pub proof fn lemma_read_all(self, name: Seq<char>, rs: Seq<(BlockId, PageId, i32)>)
        requires
            self.wf(),
        ensures
            self.read_all(name, rs).0.wf(),
            self.read_all(name, rs).0.block_size == self.block_size,
            self.read_all(name, rs).1.len() == rs.len(),
            forall|i: int|
                0 <= i < rs.len() ==> (#[trigger] self.read_all(name, rs).1[i]).0 == rs[i].0,
        decreases rs.len(),
    {
        if rs.len() > 0 {
            self.lemma_read_all(name, rs.drop_last());
            let before = self.read_all(name, rs.drop_last());
            let r = rs.last();
            before.0.lemma_read_one_wf(name, r.0, r.1, r.2);
            let all = self.read_all(name, rs);
            assert forall|i: int| 0 <= i < rs.len() implies (#[trigger] all.1[i]).0 == rs[i].0 by {
                if i < rs.len() - 1 {
                    assert(all.1[i] == before.1[i]);
                    assert(rs.drop_last()[i] == rs[i]);
                }
            }
        }
    }
}

} // verus!
