//! Lists of page ids in which no id occurs twice.

use vstd::prelude::*;
use std::collections::VecDeque;

verus! {

/// `s` without `x`; the other ids keep their order.
pub open spec fn without(s: Seq<i32>, x: i32) -> Seq<i32> {
    if s.contains(x) {
        s.remove(s.index_of(x))
    } else {
        s
    }
}

/// `s` with `x` at its end, unless `x` is in it already.
pub open spec fn with_id(s: Seq<i32>, x: i32) -> Seq<i32> {
    if s.contains(x) {
        s
    } else {
        s.push(x)
    }
}

/// In a list without repetition an id stands at one index only.
pub proof fn lemma_index_unique(s: Seq<i32>, i: int)
    requires
        s.no_duplicates(),
        0 <= i < s.len(),
    ensures
        s.contains(s[i]),
        s.index_of(s[i]) == i,
{
    assert(s.contains(s[i]));
    let p = s.index_of(s[i]);
    assert(0 <= p < s.len() && s[p] == s[i]);
}

/// Taking an id out leaves the others, each once.
pub proof fn lemma_without(s: Seq<i32>, x: i32)
    requires
        s.no_duplicates(),
    ensures
        without(s, x).no_duplicates(),
        !without(s, x).contains(x),
        forall|y: i32| y != x ==> without(s, x).contains(y) == s.contains(y),
        without(s, x).len() == if s.contains(x) {
            s.len() - 1
        } else {
            s.len() as int
        },
{
    let t = without(s, x);
    if s.contains(x) {
        let p = s.index_of(x);
        assert(0 <= p < s.len() && s[p] == x);
        assert forall|i: int, j: int| 0 <= i < t.len() && 0 <= j < t.len() && i != j implies t[i]
            != t[j] by {
            let a = if i < p {
                i
            } else {
                i + 1
            };
            let b = if j < p {
                j
            } else {
                j + 1
            };
            assert(t[i] == s[a] && t[j] == s[b]);
        }
        if t.contains(x) {
            let i = t.index_of(x);
            let a = if i < p {
                i
            } else {
                i + 1
            };
            assert(t[i] == s[a]);
        }
        assert forall|y: i32| y != x implies t.contains(y) == s.contains(y) by {
            if s.contains(y) {
                let i = s.index_of(y);
                if i < p {
                    assert(t[i] == s[i]);
                } else {
                    assert(t[i - 1] == s[i]);
                }
            }
            if t.contains(y) {
                let i = t.index_of(y);
                let a = if i < p {
                    i
                } else {
                    i + 1
                };
                assert(t[i] == s[a]);
            }
        }
    }
}

/// Adding an id that may be present leaves every id once.
pub proof fn lemma_with_id(s: Seq<i32>, x: i32)
    requires
        s.no_duplicates(),
    ensures
        with_id(s, x).no_duplicates(),
        with_id(s, x).contains(x),
        forall|y: i32| with_id(s, x).contains(y) == (y == x || s.contains(y)),
{
    let t = with_id(s, x);
    if !s.contains(x) {
        assert(t[s.len() as int] == x);
        assert forall|i: int, j: int| 0 <= i < t.len() && 0 <= j < t.len() && i != j implies t[i]
            != t[j] by {
            if i < s.len() {
                assert(t[i] == s[i]);
            }
            if j < s.len() {
                assert(t[j] == s[j]);
            }
        }
        assert forall|y: i32| t.contains(y) == (y == x || s.contains(y)) by {
            if s.contains(y) {
                let i = s.index_of(y);
                assert(t[i] == s[i]);
            }
            if t.contains(y) {
                let i = t.index_of(y);
                if i < s.len() {
                    assert(t[i] == s[i]);
                }
            }
        }
    }
}

/// The first index at which `x` stands in `v`.
pub fn find_id(v: &Vec<i32>, x: i32) -> (r: Option<usize>)
    ensures
        match r {
            Some(i) => i < v@.len() && v@[i as int] == x,
            None => !v@.contains(x),
        },
{
    let mut i: usize = 0;
    while i < v.len()
        invariant
            i <= v.len(),
            forall|j: int| 0 <= j < i ==> v@[j] != x,
        decreases v.len() - i,
    {
        if v[i] == x {
            return Some(i);
        }
        i += 1;
    }
    None
}

/// Takes `x` out of `v`.
pub fn remove_id(v: &mut Vec<i32>, x: i32)
    requires
        old(v)@.no_duplicates(),
    ensures
        final(v)@ == without(old(v)@, x),
{
    match find_id(v, x) {
        Some(i) => {
            proof {
                lemma_index_unique(v@, i as int);
            }
            v.remove(i);
        },
        None => {},
    }
}

/// Puts `x` at the end of `v` unless it is there already.
pub fn add_id(v: &mut Vec<i32>, x: i32)
    ensures
        final(v)@ == with_id(old(v)@, x),
{
    if find_id(v, x).is_none() {
        v.push(x);
    }
}

/// Takes `x` out of the queue `q`.
pub fn remove_id_from_queue(q: &mut VecDeque<i32>, x: i32)
    requires
        old(q)@.no_duplicates(),
    ensures
        final(q)@ == without(old(q)@, x),
{
    let mut i: usize = 0;
    while i < q.len()
        invariant
            i <= q.len(),
            q@ == old(q)@,
            q@.no_duplicates(),
            forall|j: int| 0 <= j < i ==> q@[j] != x,
        decreases q.len() - i,
    {
        if q[i] == x {
            proof {
                lemma_index_unique(q@, i as int);
            }
            q.remove(i);
            return ;
        }
        i += 1;
    }
}

} // verus!
