//! A small map keyed by strings, which keeps its entries in the order in
//! which their keys were first bound.
//!
//! Inode ids and paths are strings.  The map is a vector of `(key, value)`
//! pairs in which no key occurs twice.  Its model is the sequence of
//! `(key as characters, value's model)` pairs, so a walk over the map has
//! one order, and that order is part of every contract that depends on it.

use vstd::prelude::*;

verus! {

/// Equality of string slices, `str::eq` of the standard library: two slices
/// are equal exactly when they hold the same characters.
pub assume_specification[ <str as PartialEq>::eq ](a: &str, b: &str) -> (r: bool)
    ensures
        r == (a@ == b@),
;

/// No name occurs twice in `s`.
pub open spec fn distinct_names<T>(s: Seq<(Seq<char>, T)>) -> bool {
    forall|i: int, j: int| 0 <= i < j < s.len() ==> (#[trigger] s[i]).0 != (#[trigger] s[j]).0
}

/// Some entry of `s` is named `k`.
pub open spec fn has_name<T>(s: Seq<(Seq<char>, T)>, k: Seq<char>) -> bool {
    exists|i: int| 0 <= i < s.len() && (#[trigger] s[i]).0 == k
}

/// An index at which `k` stands in `s`, where there is one.
pub open spec fn name_index<T>(s: Seq<(Seq<char>, T)>, k: Seq<char>) -> int {
    choose|i: int| 0 <= i < s.len() && (#[trigger] s[i]).0 == k
}

/// The value bound to `k`, if any.
pub open spec fn find<T>(s: Seq<(Seq<char>, T)>, k: Seq<char>) -> Option<T> {
    if has_name(s, k) {
        Some(s[name_index(s, k)].1)
    } else {
        None
    }
}

/// `s` with `k` bound to `v`: replaced in place where `k` is present,
/// appended where it is not.
pub open spec fn bind<T>(s: Seq<(Seq<char>, T)>, k: Seq<char>, v: T) -> Seq<(Seq<char>, T)> {
    if has_name(s, k) {
        s.update(name_index(s, k), (k, v))
    } else {
        s.push((k, v))
    }
}

/// `s` without the entry named `k`; the others keep their order.
pub open spec fn unbind<T>(s: Seq<(Seq<char>, T)>, k: Seq<char>) -> Seq<(Seq<char>, T)> {
    if has_name(s, k) {
        s.remove(name_index(s, k))
    } else {
        s
    }
}

/// Where names are distinct, a name stands at one index only.
pub proof fn lemma_name_unique<T>(s: Seq<(Seq<char>, T)>, i: int)
    requires
        distinct_names(s),
        0 <= i < s.len(),
    ensures
        has_name(s, s[i].0),
        name_index(s, s[i].0) == i,
        find(s, s[i].0) == Some(s[i].1),
{
    let k = s[i].0;
    assert(has_name(s, k));
    let p = name_index(s, k);
    assert(0 <= p < s.len() && s[p].0 == k);
    if p < i {
        assert(s[p].0 != s[i].0);
    } else if i < p {
        assert(s[i].0 != s[p].0);
    }
}

/// Binding a name keeps names distinct, binds that name and leaves the others alone.
pub proof fn lemma_bind<T>(s: Seq<(Seq<char>, T)>, k: Seq<char>, v: T)
    requires
        distinct_names(s),
    ensures
        distinct_names(bind(s, k, v)),
        has_name(bind(s, k, v), k),
        find(bind(s, k, v), k) == Some(v),
        forall|q: Seq<char>| q != k ==> find(bind(s, k, v), q) == find(s, q),
        forall|q: Seq<char>| q != k ==> has_name(bind(s, k, v), q) == has_name(s, q),
{
    let t = bind(s, k, v);
    let p = if has_name(s, k) {
        name_index(s, k)
    } else {
        s.len() as int
    };
    assert(t[p] == (k, v));
    assert(distinct_names(t)) by {
        assert forall|i: int, j: int| 0 <= i < j < t.len() implies (#[trigger] t[i]).0 != (
        #[trigger] t[j]).0 by {
            if has_name(s, k) {
                assert(t[i].0 == s[i].0 && t[j].0 == s[j].0);
            } else if j == s.len() {
                assert(t[i] == s[i]);
                if s[i].0 == k {
                    assert(has_name(s, k));
                }
            } else {
                assert(t[i] == s[i] && t[j] == s[j]);
            }
        }
    }
    lemma_name_unique(t, p);
    assert forall|q: Seq<char>| q != k implies find(t, q) == find(s, q) && has_name(t, q)
        == has_name(s, q) by {
        if has_name(s, q) {
            let i = name_index(s, q);
            assert(t[i] == s[i]);
            lemma_name_unique(s, i);
            lemma_name_unique(t, i);
        } else if has_name(t, q) {
            let i = name_index(t, q);
            assert(i != p);
            assert(t[i] == s[i]);
            assert(has_name(s, q));
        }
    }
}

/// Unbinding a name keeps names distinct, unbinds that name and leaves the others alone.
pub proof fn lemma_unbind<T>(s: Seq<(Seq<char>, T)>, k: Seq<char>)
    requires
        distinct_names(s),
    ensures
        distinct_names(unbind(s, k)),
        !has_name(unbind(s, k), k),
        find(unbind(s, k), k).is_none(),
        forall|q: Seq<char>| q != k ==> find(unbind(s, k), q) == find(s, q),
        forall|q: Seq<char>| q != k ==> has_name(unbind(s, k), q) == has_name(s, q),
{
    let t = unbind(s, k);
    if has_name(s, k) {
        let p = name_index(s, k);
        assert(0 <= p < s.len() && s[p].0 == k);
        assert(distinct_names(t)) by {
            assert forall|i: int, j: int| 0 <= i < j < t.len() implies (#[trigger] t[i]).0 != (
            #[trigger] t[j]).0 by {
                if j < p {
                    assert(t[i] == s[i] && t[j] == s[j]);
                } else if i < p {
                    assert(t[i] == s[i] && t[j] == s[j + 1]);
                } else {
                    assert(t[i] == s[i + 1] && t[j] == s[j + 1]);
                }
            }
        }
        if has_name(t, k) {
            let i = name_index(t, k);
            if i < p {
                assert(t[i] == s[i]);
                assert(s[i].0 != s[p].0);
            } else {
                assert(t[i] == s[i + 1]);
                assert(s[p].0 != s[i + 1].0);
            }
        }
        assert forall|q: Seq<char>| q != k implies find(t, q) == find(s, q) && has_name(t, q)
            == has_name(s, q) by {
            if has_name(s, q) {
                let i = name_index(s, q);
                lemma_name_unique(s, i);
                if i < p {
                    assert(t[i] == s[i]);
                    lemma_name_unique(t, i);
                } else {
                    assert(t[i - 1] == s[i]);
                    lemma_name_unique(t, i - 1);
                }
            } else if has_name(t, q) {
                let i = name_index(t, q);
                if i < p {
                    assert(t[i] == s[i]);
                } else {
                    assert(t[i] == s[i + 1]);
                }
                assert(has_name(s, q));
            }
        }
    }
}

/// A map from strings to values, in the order in which the keys were bound.
pub struct NameMap<V> {
    pub(crate) entries: Vec<(String, V)>,
}

impl<V: View> View for NameMap<V> {
    type V = Seq<(Seq<char>, V::V)>;

    open(crate) spec fn view(&self) -> Seq<(Seq<char>, V::V)> {
        Seq::new(self.entries@.len(), |i: int| (self.entries@[i].0@, self.entries@[i].1@))
    }
}

impl<V: View> NameMap<V> {
    /// No key occurs twice.
    pub open(crate) spec fn wf(&self) -> bool {
        distinct_names(self@)
    }

    pub fn new() -> (m: Self)
        ensures
            m.wf(),
            m@ == Seq::<(Seq<char>, V::V)>::empty(),
    {
        let m = NameMap { entries: Vec::new() };
        assert(m@ =~= Seq::<(Seq<char>, V::V)>::empty());
        m
    }

    pub fn len(&self) -> (n: usize)
        ensures
            n == self@.len(),
    {
        self.entries.len()
    }

    pub fn is_empty(&self) -> (b: bool)
        ensures
            b == (self@.len() == 0),
    {
        self.entries.len() == 0
    }

    pub fn clear(&mut self)
        ensures
            final(self).wf(),
            final(self)@ == Seq::<(Seq<char>, V::V)>::empty(),
    {
        self.entries.clear();
        assert(self@ =~= Seq::<(Seq<char>, V::V)>::empty());
    }

    /// The key at index `i` of the order.
    pub fn key_at(&self, i: usize) -> (k: &String)
        requires
            i < self@.len(),
        ensures
            k@ == self@[i as int].0,
    {
        &self.entries[i].0
    }

    /// The value at index `i` of the order.
    pub fn value_at(&self, i: usize) -> (v: &V)
        requires
            i < self@.len(),
        ensures
            v@ == self@[i as int].1,
    {
        &self.entries[i].1
    }

    /// The index of `key` in the order, if it is bound.
    pub fn index_of(&self, key: &str) -> (r: Option<usize>)
        requires
            self.wf(),
        ensures
            match r {
                Some(i) => has_name(self@, key@) && i < self@.len() && name_index(self@, key@) == i
                    && self@[i as int].0 == key@,
                None => !has_name(self@, key@),
            },
    {
        let mut i: usize = 0;
        while i < self.entries.len()
            invariant
                self.wf(),
                i <= self.entries.len(),
                self@.len() == self.entries.len(),
                forall|j: int| 0 <= j < i ==> (#[trigger] self@[j]).0 != key@,
            decreases self.entries.len() - i,
        {
            assert(self@[i as int].0 == self.entries@[i as int].0@);
            if self.entries[i].0.as_str().eq(key) {
                proof {
                    lemma_name_unique(self@, i as int);
                }
                return Some(i);
            }
            i += 1;
        }
        proof {
            if has_name(self@, key@) {
                let p = name_index(self@, key@);
                assert(self@[p].0 == key@);
            }
        }
        None
    }

    pub fn contains_key(&self, key: &str) -> (b: bool)
        requires
            self.wf(),
        ensures
            b == has_name(self@, key@),
    {
        self.index_of(key).is_some()
    }

    pub fn get(&self, key: &str) -> (r: Option<&V>)
        requires
            self.wf(),
        ensures
            match r {
                Some(v) => find(self@, key@) == Some(v@),
                None => find(self@, key@).is_none(),
            },
    {
        match self.index_of(key) {
            Some(i) => Some(&self.entries[i].1),
            None => None,
        }
    }

    /// Binds `key` to `v`, replacing what was bound to it.
    pub fn insert(&mut self, key: String, v: V)
        requires
            old(self).wf(),
        ensures
            final(self).wf(),
            final(self)@ == bind(old(self)@, key@, v@),
    {
        proof {
            lemma_bind(self@, key@, v@);
        }
        match self.index_of(key.as_str()) {
            Some(i) => {
                self.entries[i] = (key, v);
            },
            None => {
                self.entries.push((key, v));
            },
        }
        assert(self@ =~= bind(old(self)@, key@, v@));
    }

    /// Unbinds `key` and hands back what was bound to it.
    pub fn remove(&mut self, key: &str) -> (r: Option<V>)
        requires
            old(self).wf(),
        ensures
            final(self).wf(),
            final(self)@ == unbind(old(self)@, key@),
            match r {
                Some(v) => find(old(self)@, key@) == Some(v@),
                None => find(old(self)@, key@).is_none(),
            },
    {
        proof {
            lemma_unbind(self@, key@);
        }
        match self.index_of(key) {
            Some(i) => {
                let e = self.entries.remove(i);
                assert(self@ =~= unbind(old(self)@, key@));
                Some(e.1)
            },
            None => None,
        }
    }
}

} // verus!
