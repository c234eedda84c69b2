//! A small ordered map keyed by block id.
//!
//! The map is stored as a vector of `(block id, value)` pairs whose keys are
//! strictly ascending.  Its mathematical model is that very sequence: the
//! order in which the blocks are walked is part of what the map means, so
//! every function that walks one has a result that its arguments determine.

use vstd::prelude::*;
use std::collections::HashMap;

verus! {

broadcast use vstd::std_specs::hash::group_hash_axioms;

/// The keys of `s` are strictly ascending.
pub open spec fn ascending<V>(s: Seq<(i32, V)>) -> bool {
    forall|i: int, j: int| 0 <= i < j < s.len() ==> (#[trigger] s[i]).0 < (#[trigger] s[j]).0
}

/// Some entry of `s` has key `k`.
pub open spec fn has_key<V>(s: Seq<(i32, V)>, k: i32) -> bool {
    exists|i: int| 0 <= i < s.len() && (#[trigger] s[i]).0 == k
}

/// An index at which `k` stands in `s`, where there is one.
pub open spec fn position<V>(s: Seq<(i32, V)>, k: i32) -> int {
    choose|i: int| 0 <= i < s.len() && (#[trigger] s[i]).0 == k
}

/// The value stored under `k`, if any.
pub open spec fn lookup<V>(s: Seq<(i32, V)>, k: i32) -> Option<V> {
    if has_key(s, k) {
        Some(s[position(s, k)].1)
    } else {
        None
    }
}

/// How many entries of `s` have a key below `k`.
pub open spec fn rank<V>(s: Seq<(i32, V)>, k: i32) -> int
    decreases s.len(),
{
    if s.len() == 0 {
        0
    } else {
        rank(s.drop_last(), k) + if s.last().0 < k {
            1int
        } else {
            0int
        }
    }
}

/// `s` with `k` bound to `v`: the entry is replaced where `k` is present and
/// put at its place in the order where it is not.
pub open spec fn with_entry<V>(s: Seq<(i32, V)>, k: i32, v: V) -> Seq<(i32, V)> {
    if has_key(s, k) {
        s.update(position(s, k), (k, v))
    } else {
        s.insert(rank(s, k), (k, v))
    }
}

/// `s` without the entry of `k`.
pub open spec fn without_key<V>(s: Seq<(i32, V)>, k: i32) -> Seq<(i32, V)> {
    if has_key(s, k) {
        s.remove(position(s, k))
    } else {
        s
    }
}

/// In an ascending sequence a key stands at one index only.
pub proof fn lemma_position_unique<V>(s: Seq<(i32, V)>, i: int)
    requires
        ascending(s),
        0 <= i < s.len(),
    ensures
        has_key(s, s[i].0),
        position(s, s[i].0) == i,
        lookup(s, s[i].0) == Some(s[i].1),
{
    let k = s[i].0;
    assert(has_key(s, k));
    let p = position(s, k);
    assert(0 <= p < s.len() && s[p].0 == k);
    if p < i {
        assert(s[p].0 < s[i].0);
    } else if i < p {
        assert(s[i].0 < s[p].0);
    }
}

/// The rank of `k` is the one index that parts the keys below `k` from the rest.
pub proof fn lemma_rank_is_split<V>(s: Seq<(i32, V)>, k: i32, r: int)
    requires
        0 <= r <= s.len(),
        forall|i: int| 0 <= i < r ==> (#[trigger] s[i]).0 < k,
        forall|i: int| r <= i < s.len() ==> (#[trigger] s[i]).0 >= k,
    ensures
        rank(s, k) == r,
    decreases s.len(),
{
    if s.len() > 0 {
        let t = s.drop_last();
        if r == s.len() {
            assert(s.last().0 < k);
            lemma_rank_is_split(t, k, r - 1);
        } else {
            assert(s.last().0 >= k);
            lemma_rank_is_split(t, k, r);
        }
    }
}

/// The rank is an index of the sequence or its length, and parts the keys.
pub proof fn lemma_rank_bounds<V>(s: Seq<(i32, V)>, k: i32)
    requires
        ascending(s),
    ensures
        0 <= rank(s, k) <= s.len(),
        forall|i: int| 0 <= i < rank(s, k) ==> (#[trigger] s[i]).0 < k,
        forall|i: int| rank(s, k) <= i < s.len() ==> (#[trigger] s[i]).0 >= k,
    decreases s.len(),
{
    if s.len() > 0 {
        let t = s.drop_last();
        assert(ascending(t)) by {
            assert forall|i: int, j: int| 0 <= i < j < t.len() implies (#[trigger] t[i]).0 < (
            #[trigger] t[j]).0 by {
                assert(t[i] == s[i] && t[j] == s[j]);
            }
        }
        lemma_rank_bounds(t, k);
        let r = rank(s, k);
        if s.last().0 < k {
            assert forall|i: int| 0 <= i < t.len() implies (#[trigger] t[i]).0 < k by {
                assert(t[i] == s[i]);
                assert(s[i].0 < s[s.len() - 1].0);
            }
            lemma_rank_is_split(t, k, t.len() as int);
            assert(r == s.len());
            assert forall|i: int| 0 <= i < r implies (#[trigger] s[i]).0 < k by {
                if i < t.len() {
                    assert(t[i] == s[i]);
                }
            }
        } else {
            assert(r == rank(t, k));
            assert forall|i: int| 0 <= i < r implies (#[trigger] s[i]).0 < k by {
                assert(t[i] == s[i]);
            }
            assert forall|i: int| r <= i < s.len() implies (#[trigger] s[i]).0 >= k by {
                if i < t.len() {
                    assert(t[i] == s[i]);
                }
            }
        }
    }
}

/// Binding a key keeps the order, binds that key and leaves the others alone.
pub proof fn lemma_with_entry<V>(s: Seq<(i32, V)>, k: i32, v: V)
    requires
        ascending(s),
    ensures
        ascending(with_entry(s, k, v)),
        lookup(with_entry(s, k, v), k) == Some(v),
        has_key(with_entry(s, k, v), k),
        forall|q: i32| q != k ==> lookup(with_entry(s, k, v), q) == lookup(s, q),
        forall|q: i32| q != k ==> has_key(with_entry(s, k, v), q) == has_key(s, q),
        with_entry(s, k, v).len() == if has_key(s, k) {
            s.len()
        } else {
            s.len() + 1
        },
{
    let t = with_entry(s, k, v);
    if has_key(s, k) {
        let p = position(s, k);
        assert(0 <= p < s.len() && s[p].0 == k);
        assert(ascending(t)) by {
            assert forall|i: int, j: int| 0 <= i < j < t.len() implies (#[trigger] t[i]).0 < (
            #[trigger] t[j]).0 by {
                assert(t[i].0 == s[i].0 && t[j].0 == s[j].0);
            }
        }
        assert(t[p] == (k, v));
        lemma_position_unique(t, p);
        assert forall|q: i32| q != k implies lookup(t, q) == lookup(s, q) && has_key(t, q)
            == has_key(s, q) by {
            if has_key(s, q) {
                let i = position(s, q);
                assert(t[i] == s[i]);
                lemma_position_unique(s, i);
                lemma_position_unique(t, i);
            } else if has_key(t, q) {
                let i = position(t, q);
                assert(t[i].0 == s[i].0);
                assert(has_key(s, q));
            }
        }
    } else {
        lemma_rank_bounds(s, k);
        let r = rank(s, k);
        assert forall|i: int| r <= i < s.len() implies (#[trigger] s[i]).0 > k by {
            if s[i].0 == k {
                assert(has_key(s, k));
            }
        }
        assert(ascending(t)) by {
            assert forall|i: int, j: int| 0 <= i < j < t.len() implies (#[trigger] t[i]).0 < (
            #[trigger] t[j]).0 by {
                if j < r {
                    assert(t[i] == s[i] && t[j] == s[j]);
                } else if j == r {
                    assert(t[i] == s[i]);
                } else if i < r {
                    assert(t[i] == s[i] && t[j] == s[j - 1]);
                    assert(s[j - 1].0 > k);
                } else if i == r {
                    assert(t[j] == s[j - 1]);
                } else {
                    assert(t[i] == s[i - 1] && t[j] == s[j - 1]);
                }
            }
        }
        assert(t[r] == (k, v));
        lemma_position_unique(t, r);
        assert forall|q: i32| q != k implies lookup(t, q) == lookup(s, q) && has_key(t, q)
            == has_key(s, q) by {
            if has_key(s, q) {
                let i = position(s, q);
                lemma_position_unique(s, i);
                if i < r {
                    assert(t[i] == s[i]);
                    lemma_position_unique(t, i);
                } else {
                    assert(t[i + 1] == s[i]);
                    lemma_position_unique(t, i + 1);
                }
            } else if has_key(t, q) {
                let i = position(t, q);
                if i < r {
                    assert(t[i] == s[i]);
                } else {
                    assert(t[i] == s[i - 1]);
                }
                assert(has_key(s, q));
            }
        }
    }
}

/// Dropping a key keeps the order, unbinds that key and leaves the others alone.
pub proof fn lemma_without_key<V>(s: Seq<(i32, V)>, k: i32)
    requires
        ascending(s),
    ensures
        ascending(without_key(s, k)),
        !has_key(without_key(s, k), k),
        lookup(without_key(s, k), k).is_none(),
        forall|q: i32| q != k ==> lookup(without_key(s, k), q) == lookup(s, q),
        forall|q: i32| q != k ==> has_key(without_key(s, k), q) == has_key(s, q),
        without_key(s, k).len() == if has_key(s, k) {
            s.len() - 1
        } else {
            s.len() as int
        },
{
    let t = without_key(s, k);
    if has_key(s, k) {
        let p = position(s, k);
        assert(0 <= p < s.len() && s[p].0 == k);
        assert(ascending(t)) by {
            assert forall|i: int, j: int| 0 <= i < j < t.len() implies (#[trigger] t[i]).0 < (
            #[trigger] t[j]).0 by {
                if j < p {
                    assert(t[i] == s[i] && t[j] == s[j]);
                } else if i < p {
                    assert(t[i] == s[i] && t[j] == s[j + 1]);
                } else {
                    assert(t[i] == s[i + 1] && t[j] == s[j + 1]);
                }
            }
        }
        if has_key(t, k) {
            let i = position(t, k);
            if i < p {
                assert(t[i] == s[i]);
                assert(s[i].0 < s[p].0);
            } else {
                assert(t[i] == s[i + 1]);
                assert(s[p].0 < s[i + 1].0);
            }
        }
        assert forall|q: i32| q != k implies lookup(t, q) == lookup(s, q) && has_key(t, q)
            == has_key(s, q) by {
            if has_key(s, q) {
                let i = position(s, q);
                lemma_position_unique(s, i);
                if i < p {
                    assert(t[i] == s[i]);
                    lemma_position_unique(t, i);
                } else {
                    assert(t[i - 1] == s[i]);
                    lemma_position_unique(t, i - 1);
                }
            } else if has_key(t, q) {
                let i = position(t, q);
                if i < p {
                    assert(t[i] == s[i]);
                } else {
                    assert(t[i] == s[i + 1]);
                }
                assert(has_key(s, q));
            }
        }
    }
}

/// The map that binds each key of `s` to its value.
pub open spec fn to_map<V>(s: Seq<(i32, V)>) -> Map<i32, V> {
    Map::new(|k: i32| has_key(s, k), |k: i32| lookup(s, k).unwrap())
}

/// The entries of `m` in ascending order of key.
pub open spec fn entries_of<V>(m: Map<i32, V>) -> Seq<(i32, V)> {
    choose|s: Seq<(i32, V)>| ascending(s) && to_map(s) == m
}

/// An ascending sequence without its last entry is ascending, and binds
/// what the whole binds but for the key of that entry.
pub proof fn lemma_drop_last<V>(s: Seq<(i32, V)>)
    requires
        ascending(s),
        s.len() > 0,
    ensures
        ascending(s.drop_last()),
        !has_key(s.drop_last(), s.last().0),
        forall|k: i32| k != s.last().0 ==> lookup(s.drop_last(), k) == lookup(s, k),
        forall|k: i32| has_key(s, k) ==> k <= s.last().0,
        lookup(s, s.last().0) == Some(s.last().1),
{
    let t = s.drop_last();
    let n = s.len() - 1;
    assert forall|i: int, j: int| 0 <= i < j < t.len() implies (#[trigger] t[i]).0 < (
    #[trigger] t[j]).0 by {
        assert(t[i] == s[i] && t[j] == s[j]);
    }
    lemma_position_unique(s, n);
    if has_key(t, s[n].0) {
        let i = position(t, s[n].0);
        assert(t[i] == s[i]);
        assert(s[i].0 < s[n].0);
    }
    assert forall|k: i32| k != s.last().0 implies lookup(t, k) == lookup(s, k) by {
        if has_key(s, k) {
            let i = position(s, k);
            assert(s[i].0 == k);
            lemma_position_unique(s, i);
            assert(t[i] == s[i]);
            lemma_position_unique(t, i);
        } else if has_key(t, k) {
            let i = position(t, k);
            assert(t[i] == s[i]);
            assert(has_key(s, k));
        }
    }
    assert forall|k: i32| has_key(s, k) implies k <= s.last().0 by {
        let i = position(s, k);
        assert(s[i].0 == k);
        if i < n {
            assert(s[i].0 < s[n].0);
        }
    }
}

/// Two ascending sequences that bind the same keys to the same values are one.
pub proof fn lemma_ascending_unique<V>(a: Seq<(i32, V)>, b: Seq<(i32, V)>)
    requires
        ascending(a),
        ascending(b),
        forall|k: i32| lookup(a, k) == lookup(b, k),
    ensures
        a == b,
    decreases a.len(),
{
    if a.len() == 0 {
        if b.len() > 0 {
            lemma_position_unique(b, 0);
            assert(lookup(a, b[0].0) == lookup(b, b[0].0));
        }
        assert(a =~= b);
    } else {
        lemma_drop_last(a);
        let last = a.last();
        assert(lookup(b, last.0) == Some(last.1));
        assert(has_key(b, last.0));
        lemma_drop_last(b);
        assert(lookup(a, b.last().0) == lookup(b, b.last().0));
        assert(has_key(a, b.last().0));
        assert(b.last().0 == last.0);
        assert(b.last() == last);
        assert forall|k: i32| lookup(a.drop_last(), k) == lookup(b.drop_last(), k) by {
            if k != last.0 {
                assert(lookup(a, k) == lookup(b, k));
            }
        }
        lemma_ascending_unique(a.drop_last(), b.drop_last());
        assert(a =~= a.drop_last().push(last));
        assert(b =~= b.drop_last().push(last));
    }
}

/// An ascending sequence is the sequence of the entries of its map.
pub proof fn lemma_entries_of<V>(s: Seq<(i32, V)>)
    requires
        ascending(s),
    ensures
        entries_of(to_map(s)) == s,
{
    let t = entries_of(to_map(s));
    assert(ascending(s) && to_map(s) == to_map(s));
    assert(ascending(t) && to_map(t) == to_map(s));
    assert forall|k: i32| lookup(t, k) == lookup(s, k) by {
        assert(to_map(t).contains_key(k) == to_map(s).contains_key(k));
        if has_key(s, k) {
            assert(to_map(t)[k] == to_map(s)[k]);
        }
    }
    lemma_ascending_unique(t, s);
}

/// An ordered map from block ids to values.
pub struct BlockMap<V> {
    pub(crate) entries: Vec<(i32, V)>,
}

impl<V> View for BlockMap<V> {
    type V = Seq<(i32, V)>;

    open(crate) spec fn view(&self) -> Seq<(i32, V)> {
        self.entries@
    }
}

impl<V> BlockMap<V> {
    /// The keys stand in strictly ascending order.
    pub open(crate) spec fn wf(&self) -> bool {
        ascending(self@)
    }

    pub fn new() -> (m: Self)
        ensures
            m.wf(),
            m@ == Seq::<(i32, V)>::empty(),
    {
        BlockMap { entries: Vec::new() }
    }

    pub fn with_capacity(capacity: usize) -> (m: Self)
        ensures
            m.wf(),
            m@ == Seq::<(i32, V)>::empty(),
    {
        BlockMap { entries: Vec::with_capacity(capacity) }
    }

    pub fn reserve(&mut self, additional: usize)
        ensures
            final(self)@ == old(self)@,
    {
        self.entries.reserve(additional);
    }

    pub fn len(&self) -> (n: usize)
        ensures
            n == self@.len(),
    {
        self.entries.len()
    }

    pub fn is_empty(&self) -> (b: bool)
        ensures
            b == (self@.len() == 0),
    {
        self.entries.len() == 0
    }

    pub fn clear(&mut self)
        ensures
            final(self).wf(),
            final(self)@ == Seq::<(i32, V)>::empty(),
    {
        self.entries.clear();
    }

    /// The key at index `i` of the ascending order.
    pub fn key_at(&self, i: usize) -> (k: i32)
        requires
            i < self@.len(),
        ensures
            k == self@[i as int].0,
    {
        self.entries[i].0
    }

    /// The value at index `i` of the ascending order.
    pub fn value_at(&self, i: usize) -> (v: &V)
        requires
            i < self@.len(),
        ensures
            *v == self@[i as int].1,
    {
        &self.entries[i].1
    }

    /// Binary search: the rank of `k`, which is its index where it is present.
    pub fn search(&self, k: i32) -> (r: (usize, bool))
        requires
            self.wf(),
        ensures
            r.0 == rank(self@, k),
            r.0 <= self@.len(),
            r.1 == has_key(self@, k),
            r.1 ==> r.0 < self@.len() && self@[r.0 as int].0 == k && position(self@, k) == r.0,
    {
        let mut lo: usize = 0;
        let mut hi: usize = self.entries.len();
        while lo < hi
            invariant
                0 <= lo <= hi <= self.entries.len(),
                ascending(self.entries@),
                forall|i: int| 0 <= i < lo ==> (#[trigger] self.entries@[i]).0 < k,
                forall|i: int| hi <= i < self.entries.len() ==> (#[trigger] self.entries@[i]).0 >= k,
            decreases hi - lo,
        {
            let mid: usize = lo + (hi - lo) / 2;
            if self.entries[mid].0 < k {
                proof {
                    assert forall|i: int| 0 <= i < mid + 1 implies (#[trigger] self.entries@[i]).0
                        < k by {
                        if i < mid {
                            assert(self.entries@[i].0 < self.entries@[mid as int].0);
                        }
                    }
                }
                lo = mid + 1;
            } else {
                proof {
                    assert forall|i: int| mid <= i < self.entries.len() implies (
                    #[trigger] self.entries@[i]).0 >= k by {
                        if mid < i {
                            assert(self.entries@[mid as int].0 < self.entries@[i].0);
                        }
                    }
                }
                hi = mid;
            }
        }
        proof {
            lemma_rank_is_split(self@, k, lo as int);
        }
        let found = lo < self.entries.len() && self.entries[lo].0 == k;
        proof {
            if found {
                lemma_position_unique(self@, lo as int);
            } else if has_key(self@, k) {
                let p = position(self@, k);
                assert(self@[p].0 == k);
                if p < lo {
                    assert(self@[p].0 < k);
                } else if p > lo {
                    assert(self@[lo as int].0 >= k);
                    assert(self@[lo as int].0 < self@[p].0);
                }
            }
        }
        (lo, found)
    }

    pub fn contains_key(&self, k: i32) -> (b: bool)
        requires
            self.wf(),
        ensures
            b == has_key(self@, k),
    {
        self.search(k).1
    }

    pub fn get(&self, k: i32) -> (r: Option<&V>)
        requires
            self.wf(),
        ensures
            match r {
                Some(v) => lookup(self@, k) == Some(*v),
                None => lookup(self@, k).is_none(),
            },
    {
        let (i, found) = self.search(k);
        if found {
            Some(&self.entries[i].1)
        } else {
            None
        }
    }

    /// Binds `k` to `v`, replacing what was bound to it.
    pub fn insert(&mut self, k: i32, v: V)
        requires
            old(self).wf(),
        ensures
            final(self).wf(),
            final(self)@ == with_entry(old(self)@, k, v),
    {
        let (i, found) = self.search(k);
        proof {
            lemma_with_entry(self@, k, v);
        }
        if found {
            self.entries[i] = (k, v);
        } else {
            self.entries.insert(i, (k, v));
        }
    }

    /// Unbinds `k` and hands back what was bound to it.
    pub fn remove(&mut self, k: i32) -> (r: Option<V>)
        requires
            old(self).wf(),
        ensures
            final(self).wf(),
            final(self)@ == without_key(old(self)@, k),
            r == lookup(old(self)@, k),
    {
        let (i, found) = self.search(k);
        proof {
            lemma_without_key(self@, k);
        }
        if found {
            let e = self.entries.remove(i);
            Some(e.1)
        } else {
            None
        }
    }

    /// The entries of `m`, in ascending order of key.
    pub fn from_hash_map(m: &HashMap<i32, V>) -> (r: Self) where V: Copy
        ensures
            r.wf(),
            r@ == entries_of(m@),
    {
        let mut r: BlockMap<V> = BlockMap::new();
        for kv in it: m.iter()
            invariant
                it.seq().no_duplicates(),
                forall|j: int|
                    0 <= j < it.seq().len() ==> m@.contains_key(*(#[trigger] it.seq()[j]).0)
                        && m@[*it.seq()[j].0] == *it.seq()[j].1,
                forall|k: i32| #[trigger]
                    m@.contains_key(k) ==> exists|j: int|
                        0 <= j < it.seq().len() && *(#[trigger] it.seq()[j]).0 == k,
                r.wf(),
                forall|k: i32|
                    has_key(r@, k) <==> exists|j: int|
                        0 <= j < it.index() && *(#[trigger] it.seq()[j]).0 == k,
                forall|k: i32| has_key(r@, k) ==> m@.contains_key(k) && lookup(r@, k) == Some(m@[k]),
        {
            let ghost before = r@;
            let ghost idx = it.index();
            proof {
                lemma_with_entry(before, *kv.0, *kv.1);
            }
            r.insert(*kv.0, *kv.1);
            proof {
                assert(*it.seq()[idx].0 == *kv.0 && *it.seq()[idx].1 == *kv.1);
                assert forall|k: i32| has_key(r@, k) implies m@.contains_key(k) && lookup(r@, k)
                    == Some(m@[k]) by {
                    if k != *kv.0 {
                        assert(has_key(before, k));
                    }
                }
                assert forall|k: i32|
                    has_key(r@, k) <==> exists|j: int|
                        0 <= j < idx + 1 && *(#[trigger] it.seq()[j]).0 == k by {
                    if has_key(r@, k) {
                        if k == *kv.0 {
                            assert(*it.seq()[idx].0 == k);
                        } else {
                            assert(has_key(before, k));
                            let j = choose|j: int|
                                0 <= j < idx && *(#[trigger] it.seq()[j]).0 == k;
                            assert(*it.seq()[j].0 == k);
                        }
                    }
                    if exists|j: int| 0 <= j < idx + 1 && *(#[trigger] it.seq()[j]).0 == k {
                        let j = choose|j: int|
                            0 <= j < idx + 1 && *(#[trigger] it.seq()[j]).0 == k;
                        if j < idx {
                            assert(has_key(before, k));
                        }
                    }
                }
            }
        }
        proof {
            assert(to_map(r@) =~= m@);
            lemma_entries_of(r@);
        }
        r
    }

    /// The map as a hash map.
    pub fn to_hash_map(&self) -> (m: HashMap<i32, V>) where V: Copy
        requires
            self.wf(),
        ensures
            m@ == to_map(self@),
    {
        hash_map_of(&self.entries)
    }
}

/// The hash map that binds each key of `entries`, which are in ascending
/// order of key, to its value.
pub fn hash_map_of<V: Copy>(entries: &Vec<(i32, V)>) -> (m: HashMap<i32, V>)
    requires
        ascending(entries@),
    ensures
        m@ == to_map(entries@),
{
    let mut m: HashMap<i32, V> = HashMap::new();
    let mut i: usize = 0;
    while i < entries.len()
        invariant
            i <= entries@.len(),
            ascending(entries@),
            forall|k: i32|
                m@.contains_key(k) <==> exists|j: int|
                    0 <= j < i && (#[trigger] entries@[j]).0 == k,
            forall|j: int| 0 <= j < i ==> m@[(#[trigger] entries@[j]).0] == entries@[j].1,
        decreases entries@.len() - i,
    {
        let ghost before = m@;
        m.insert(entries[i].0, entries[i].1);
        proof {
            assert forall|k: i32|
                m@.contains_key(k) <==> exists|j: int|
                    0 <= j < i + 1 && (#[trigger] entries@[j]).0 == k by {
                if m@.contains_key(k) && k != entries@[i as int].0 {
                    assert(before.contains_key(k));
                    let j = choose|j: int| 0 <= j < i && (#[trigger] entries@[j]).0 == k;
                    assert(entries@[j].0 == k);
                }
                if exists|j: int| 0 <= j < i + 1 && (#[trigger] entries@[j]).0 == k {
                    let j = choose|j: int| 0 <= j < i + 1 && (#[trigger] entries@[j]).0 == k;
                    if j < i {
                        assert(before.contains_key(k));
                    }
                }
            }
            assert forall|j: int| 0 <= j < i + 1 implies m@[(#[trigger] entries@[j]).0]
                == entries@[j].1 by {
                if j < i {
                    assert(entries@[j].0 < entries@[i as int].0);
                }
            }
        }
        i += 1;
    }
    proof {
        let s = entries@;
        assert forall|k: i32| m@.contains_key(k) == to_map(s).contains_key(k) by {
            if m@.contains_key(k) {
                let j = choose|j: int| 0 <= j < s.len() && (#[trigger] s[j]).0 == k;
                assert(s[j].0 == k);
            }
            if has_key(s, k) {
                let j = position(s, k);
                assert(s[j].0 == k);
            }
        }
        assert forall|k: i32| m@.contains_key(k) implies m@[k] == to_map(s)[k] by {
            let j = position(s, k);
            assert(has_key(s, k));
            assert(s[j].0 == k);
            lemma_position_unique(s, j);
        }
        assert(m@ =~= to_map(s));
    }
    m
}

} // verus!
