//! The fault-injection side of the file system: which crash faults are
//! registered for which operation, and which of them an operation on a
//! path sets off.

use vstd::prelude::*;
use crate::name_map::{
    distinct_names,
    find,
    has_name,
    lemma_bind,
    lemma_name_unique,
    name_index,
    NameMap,
};
use crate::pagecache::cache::{strings_view, Cache};
use crate::pagecache::config::{Config, ReorderFault, SplitWriteFault};
use crate::pagecache::engine::PageCacheEngine;

verus! {

/// Whether the regular expression `pattern` matches somewhere in `text`:
/// `None` where `pattern` is no regular expression that the `regex` crate
/// accepts.  What matching means is for that crate to say.
pub uninterp spec fn regex_matches(pattern: Seq<char>, text: Seq<char>) -> Option<bool>;

/// Compiles `pattern` with `regex::Regex::new` and asks `Regex::is_match`
/// for `text`.  The answer depends on the two strings alone.
#[verifier::external_body]
pub(crate) fn pattern_matches(pattern: &str, text: &str) -> (r: Option<bool>)
    ensures
        r == regex_matches(pattern@, text@),
{
    match regex::Regex::new(pattern) {
        Ok(re) => Some(re.is_match(text)),
        Err(_) => None,
    }
}

/// The operations into which a crash fault can be injected.
pub open spec fn crash_op_names() -> Seq<Seq<char>> {
    seq![
        "unlink"@,
        "truncate"@,
        "fsync"@,
        "write"@,
        "create"@,
        "access"@,
        "open"@,
        "read"@,
        "rename"@,
        "link"@,
        "symlink"@,
    ]
}

/// The operations that take two paths.
pub open spec fn multi_path_op_names() -> Seq<Seq<char>> {
    seq!["rename"@, "link"@, "symlink"@]
}

/// The names of the operations into which a crash fault can be injected.
pub fn crash_ops() -> (v: Vec<String>)
    ensures
        strings_view(v@) == crash_op_names(),
{
    let mut v: Vec<String> = Vec::new();
    v.push("unlink".to_owned());
    v.push("truncate".to_owned());
    v.push("fsync".to_owned());
    v.push("write".to_owned());
    v.push("create".to_owned());
    v.push("access".to_owned());
    v.push("open".to_owned());
    v.push("read".to_owned());
    v.push("rename".to_owned());
    v.push("link".to_owned());
    v.push("symlink".to_owned());
    assert(strings_view(v@) =~= crash_op_names());
    v
}

/// The names of the operations that take two paths.
pub fn multi_path_ops() -> (v: Vec<String>)
    ensures
        strings_view(v@) == multi_path_op_names(),
{
    let mut v: Vec<String> = Vec::new();
    v.push("rename".to_owned());
    v.push("link".to_owned());
    v.push("symlink".to_owned());
    assert(strings_view(v@) =~= multi_path_op_names());
    v
}

/// `name` is one of `names`.
pub fn is_listed(names: &Vec<String>, name: &str) -> (b: bool)
    ensures
        b == strings_view(names@).contains(name@),
{
    let mut i: usize = 0;
    while i < names.len()
        invariant
            i <= names@.len(),
            forall|j: int| 0 <= j < i ==> strings_view(names@)[j] != name@,
        decreases names@.len() - i,
    {
        if names[i].as_str().eq(name) {
            assert(strings_view(names@)[i as int] == name@);
            return true;
        }
        i += 1;
    }
    false
}

/// A write that is held back until a fault decides what becomes of it.
pub struct Write {
    pub(crate) path: String,
    pub(crate) buf: Vec<u8>,
    pub(crate) offset: u32,
}

impl View for Write {
    type V = (Seq<char>, Seq<u8>, u32);

    open(crate) spec fn view(&self) -> (Seq<char>, Seq<u8>, u32) {
        (self.path@, self.buf@, self.offset)
    }
}

impl Write {
    pub fn new(path: String, buf: Vec<u8>, offset: u32) -> (w: Write)
        ensures
            w@ == (path@, buf@, offset),
    {
        Write { path, buf, offset }
    }

    pub fn path(&self) -> (p: &str)
        ensures
            p@ == self@.0,
    {
        self.path.as_str()
    }

    pub fn buf(&self) -> (b: &Vec<u8>)
        ensures
            b@ == self@.1,
    {
        &self.buf
    }

    pub fn offset(&self) -> (o: u32)
        ensures
            o == self@.2,
    {
        self.offset
    }
}

impl Default for Write {
    /// The write of nothing to the empty path.
    fn default() -> (w: Self)
        ensures
            w@ == (""@, Seq::<u8>::empty(), 0u32),
    {
        Write { path: "".to_owned(), buf: Vec::new(), offset: 0 }
    }
}

/// A fault of one of the two kinds.
pub enum FaultKind {
    SplitWrite(SplitWriteFault),
    Reorder(ReorderFault),
}

/// The views of a list of `(pattern, fault id)` pairs, in order.
pub open spec fn pairs_view(ps: Seq<(String, String)>) -> Seq<(Seq<char>, Seq<char>)> {
    Seq::new(ps.len(), |i: int| (ps[i].0@, ps[i].1@))
}

/// The pattern matches the path of the operation, or its second path if the
/// operation takes two.
pub open spec fn matches_paths(pattern: Seq<char>, two_paths: bool, path: Seq<char>, second: Seq<char>) -> bool {
    regex_matches(pattern, path) == Some(true) || (two_paths && regex_matches(pattern, second)
        == Some(true))
}

/// Whether each of the first `n` faults matches the paths of the operation.
pub open spec fn matched_flags(
    faults: Seq<(Seq<char>, Seq<char>)>,
    two_paths: bool,
    path: Seq<char>,
    second: Seq<char>,
) -> Seq<bool> {
    Seq::new(faults.len(), |i: int| matches_paths(faults[i].0, two_paths, path, second))
}

/// The ids of those of the first `n` faults that are flagged, in order.
pub open spec fn flagged_ids(faults: Seq<(Seq<char>, Seq<char>)>, flags: Seq<bool>, n: int) -> Seq<Seq<char>>
    decreases n,
{
    if n <= 0 {
        Seq::empty()
    } else if flags[n - 1] {
        flagged_ids(faults, flags, n - 1).push(faults[n - 1].1)
    } else {
        flagged_ids(faults, flags, n - 1)
    }
}

/// The ids of the faults of `faults` whose flag in `matched` is set, in
/// the order of the list.
pub fn select_fired(faults: &Vec<(String, String)>, matched: &Vec<bool>) -> (r: Vec<String>)
    requires
        matched@.len() == faults@.len(),
    ensures
        strings_view(r@) == flagged_ids(pairs_view(faults@), matched@, faults@.len() as int),
{
    let mut ids: Vec<String> = Vec::new();
    let mut i: usize = 0;
    assert(strings_view(ids@) =~= Seq::empty());
    while i < faults.len()
        invariant
            i <= faults@.len(),
            matched@.len() == faults@.len(),
            strings_view(ids@) == flagged_ids(pairs_view(faults@), matched@, i as int),
        decreases faults@.len() - i,
    {
        let ghost before = strings_view(ids@);
        if matched[i] {
            ids.push(faults[i].1.clone());
            assert(strings_view(ids@) =~= before.push(pairs_view(faults@)[i as int].1));
        }
        i += 1;
    }
    ids
}

pub struct LazyFS<E: PageCacheEngine> {
    pub(crate) cache: Cache<E>,
    pub(crate) config: Config,
    /// The faults configured for each path.
    pub(crate) faults: NameMap<Vec<FaultKind>>,
    pub(crate) pending_write: Write,
    pub(crate) path_injecting_fault: String,
    /// For each operation, the crash faults to set off before it runs:
    /// `(pattern of the path, fault id)`, in the order of registration.
    pub(crate) crash_faults_before: NameMap<Vec<(String, String)>>,
    /// For each operation, the crash faults to set off after it ran.
    pub(crate) crash_faults_after: NameMap<Vec<(String, String)>>,
    pub(crate) allow_crash_fs_ops: Vec<String>,
    pub(crate) fs_op_mult_path: Vec<String>,
}

impl<E: PageCacheEngine> LazyFS<E> {
    /// The crash faults registered for `op`, before it or after it.
    pub open(crate) spec fn registered(&self, op: Seq<char>, before: bool) -> Seq<(Seq<char>, Seq<char>)> {
        if before {
            match find(self.crash_faults_before@, op) {
                Some(l) => pairs_view(l),
                None => Seq::empty(),
            }
        } else {
            match find(self.crash_faults_after@, op) {
                Some(l) => pairs_view(l),
                None => Seq::empty(),
            }
        }
    }

    /// The faults configured for `path`, if any are.
    pub open(crate) spec fn configured(&self, path: Seq<char>) -> Option<Seq<FaultKind>> {
        match find(self.faults@, path) {
            Some(l) => Some(l),
            None => None,
        }
    }

    /// The configuration of the file system.
    pub open(crate) spec fn configuration(&self) -> Config {
        self.config
    }

    /// The cache of the file system.
    pub open(crate) spec fn cache_view(&self) -> crate::pagecache::cache::CacheView {
        self.cache@
    }

    /// The path on which a fault is being injected; `none` if on none.
    pub open(crate) spec fn injecting(&self) -> Seq<char> {
        self.path_injecting_fault@
    }

    /// The write that is held back.
    pub open(crate) spec fn held_write(&self) -> (Seq<char>, Seq<u8>, u32) {
        self.pending_write@
    }

    /// The operations known are the eleven of [`crash_op_names`], each with
    /// a list of faults before and after; and the cache is well formed.
    pub open(crate) spec fn wf(&self) -> bool {
        &&& self.cache.wf()
        &&& self.faults.wf()
        &&& distinct_names(self.crash_faults_before@)
        &&& distinct_names(self.crash_faults_after@)
        &&& strings_view(self.allow_crash_fs_ops@) == crash_op_names()
        &&& strings_view(self.fs_op_mult_path@) == multi_path_op_names()
        &&& forall|op: Seq<char>|
            crash_op_names().contains(op) ==> has_name(self.crash_faults_before@, op) && has_name(
                self.crash_faults_after@,
                op,
            )
    }

    /// A file system over `cache` with the faults `faults` configured and no
    /// crash fault registered; no fault is being injected.
    pub fn new(cache: Cache<E>, config: Config, faults: NameMap<Vec<FaultKind>>) -> (fs: LazyFS<E>)
        requires
            cache.wf(),
            faults.wf(),
        ensures
            fs.wf(),
            fs.cache_view() == cache@,
            fs.configuration() == config,
            forall|path: Seq<char>| fs.configured(path) == find(faults@, path),
            fs.injecting() == "none"@,
            fs.held_write() == (""@, Seq::<u8>::empty(), 0u32),
            forall|op: Seq<char>| fs.registered(op, true).len() == 0,
            forall|op: Seq<char>| fs.registered(op, false).len() == 0,
    {
        let ops = crash_ops();
        let mut crash_faults_before: NameMap<Vec<(String, String)>> = NameMap::new();
        let mut crash_faults_after: NameMap<Vec<(String, String)>> = NameMap::new();
        let mut i: usize = 0;
        while i < ops.len()
            invariant
                i <= ops@.len(),
                strings_view(ops@) == crash_op_names(),
                crash_faults_before.wf(),
                crash_faults_after.wf(),
                forall|j: int|
                    0 <= j < i ==> has_name(
                        crash_faults_before@,
                        #[trigger] strings_view(ops@)[j],
                    ) && has_name(crash_faults_after@, strings_view(ops@)[j]),
                forall|j: int|
                    0 <= j < crash_faults_before@.len() ==> (
                    #[trigger] crash_faults_before@[j]).1.len() == 0,
                forall|j: int|
                    0 <= j < crash_faults_after@.len() ==> (#[trigger] crash_faults_after@[j]).1.len()
                        == 0,
            decreases ops@.len() - i,
        {
            let ghost b0 = crash_faults_before@;
            let ghost a0 = crash_faults_after@;
            let ghost name = ops@[i as int]@;
            let empty_before: Vec<(String, String)> = Vec::new();
            let empty_after: Vec<(String, String)> = Vec::new();
            proof {
                lemma_bind(b0, name, empty_before@);
                lemma_bind(a0, name, empty_after@);
            }
            crash_faults_before.insert(ops[i].clone(), empty_before);
            crash_faults_after.insert(ops[i].clone(), empty_after);
            proof {
                assert(strings_view(ops@)[i as int] == name);
                assert forall|j: int| 0 <= j < crash_faults_before@.len() implies (
                #[trigger] crash_faults_before@[j]).1.len() == 0 by {
                    lemma_name_unique(crash_faults_before@, j);
                    let k = crash_faults_before@[j].0;
                    if k != name {
                        let q = name_index(b0, k);
                        assert(b0[q].0 == k);
                        lemma_name_unique(b0, q);
                    }
                }
                assert forall|j: int| 0 <= j < crash_faults_after@.len() implies (
                #[trigger] crash_faults_after@[j]).1.len() == 0 by {
                    lemma_name_unique(crash_faults_after@, j);
                    let k = crash_faults_after@[j].0;
                    if k != name {
                        let q = name_index(a0, k);
                        assert(a0[q].0 == k);
                        lemma_name_unique(a0, q);
                    }
                }
                assert forall|j: int| 0 <= j < i + 1 implies has_name(
                    crash_faults_before@,
                    #[trigger] strings_view(ops@)[j],
                ) && has_name(crash_faults_after@, strings_view(ops@)[j]) by {
                    if j < i {
                        assert(has_name(b0, strings_view(ops@)[j]));
                    }
                }
            }
            i += 1;
        }
        let fs = LazyFS {
            cache,
            config,
            faults,
            pending_write: Write::default(),
            path_injecting_fault: "none".to_owned(),
            crash_faults_before,
            crash_faults_after,
            allow_crash_fs_ops: ops,
            fs_op_mult_path: multi_path_ops(),
        };
        proof {
            assert forall|op: Seq<char>| crash_op_names().contains(op) implies has_name(
                fs.crash_faults_before@,
                op,
            ) && has_name(fs.crash_faults_after@, op) by {
                let j = crash_op_names().index_of(op);
                assert(strings_view(fs.allow_crash_fs_ops@)[j] == op);
            }
            assert forall|op: Seq<char>| fs.registered(op, true).len() == 0 by {
                if has_name(fs.crash_faults_before@, op) {
                    let j = name_index(fs.crash_faults_before@, op);
                    assert(fs.crash_faults_before@[j].0 == op);
                }
            }
            assert forall|op: Seq<char>| fs.registered(op, false).len() == 0 by {
                if has_name(fs.crash_faults_after@, op) {
                    let j = name_index(fs.crash_faults_after@, op);
                    assert(fs.crash_faults_after@[j].0 == op);
                }
            }
        }
        fs
    }

    /// The cache of the file system.
    pub fn cache(&self) -> (c: &Cache<E>)
        requires
            self.wf(),
        ensures
            c.wf(),
            c@ == self.cache_view(),
    {
        &self.cache
    }

    /// The configuration of the file system.
    pub fn config(&self) -> (c: &Config)
        ensures
            *c == self.configuration(),
    {
        &self.config
    }

    /// The faults configured for `path`.
    pub fn configured_faults(&self, path: &str) -> (r: Option<&Vec<FaultKind>>)
        requires
            self.wf(),
        ensures
            match r {
                Some(l) => self.configured(path@) == Some(l@),
                None => self.configured(path@).is_none(),
            },
    {
        self.faults.get(path)
    }

    pub fn get_path_injecting_fault(&self) -> (p: String)
        ensures
            p@ == self.injecting(),
    {
        self.path_injecting_fault.clone()
    }

    /// A fault is being injected on `path`.
    pub fn is_injecting_on(&self, path: &str) -> (b: bool)
        ensures
            b == (self.injecting() == path@),
    {
        self.path_injecting_fault.as_str().eq(path)
    }

    /// Notes that a fault is being injected on `path`.
    pub fn set_path_injecting_fault(&mut self, path: String)
        requires
            old(self).wf(),
        ensures
            final(self).wf(),
            final(self).injecting() == path@,
            final(self).held_write() == old(self).held_write(),
            final(self).cache_view() == old(self).cache_view(),
            forall|op: Seq<char>, before: bool|
                final(self).registered(op, before) == old(self).registered(op, before),
    {
        self.path_injecting_fault = path;
    }

    /// Holds `write` back in place of the write held before.
    pub fn hold_write(&mut self, write: Write)
        requires
            old(self).wf(),
        ensures
            final(self).wf(),
            final(self).held_write() == write@,
            final(self).injecting() == old(self).injecting(),
            final(self).cache_view() == old(self).cache_view(),
            forall|op: Seq<char>, before: bool|
                final(self).registered(op, before) == old(self).registered(op, before),
    {
        self.pending_write = write;
    }

    /// The write that is held back.
    pub fn pending_write(&self) -> (w: &Write)
        ensures
            w@ == self.held_write(),
    {
        &self.pending_write
    }

    /// A crash fault can be injected into `op`.
    pub fn allows_crash_on(&self, op: &str) -> (b: bool)
        requires
            self.wf(),
        ensures
            b == crash_op_names().contains(op@),
    {
        is_listed(&self.allow_crash_fs_ops, op)
    }

    /// `op` takes two paths.
    pub fn takes_two_paths(&self, op: &str) -> (b: bool)
        requires
            self.wf(),
        ensures
            b == multi_path_op_names().contains(op@),
    {
        is_listed(&self.fs_op_mult_path, op)
    }

    /// Registers the crash fault `fault_id` for the operation `op` on the
    /// paths that `path_regex` matches, to go off before the operation or
    /// after it.  Refused, with no change, if no crash fault can be injected
    /// into `op` or `path_regex` is no regular expression.
    pub fn add_crash_fault(&mut self, op: &str, before: bool, path_regex: String, fault_id: String) -> (b: bool)
        requires
            old(self).wf(),
        ensures
            final(self).wf(),
            b == (crash_op_names().contains(op@) && regex_matches(path_regex@, ""@).is_some()),
            final(self).cache_view() == old(self).cache_view(),
            final(self).injecting() == old(self).injecting(),
            final(self).held_write() == old(self).held_write(),
            forall|o: Seq<char>, t: bool|
                final(self).registered(o, t) == if b && o == op@ && t == before {
                    old(self).registered(o, t).push((path_regex@, fault_id@))
                } else {
                    old(self).registered(o, t)
                },
    {
        if !self.allows_crash_on(op) {
            return false;
        }
        if pattern_matches(path_regex.as_str(), "").is_none() {
            return false;
        }
        let ghost b0 = self.crash_faults_before@;
        let ghost a0 = self.crash_faults_after@;
        if before {
            let idx = match self.crash_faults_before.index_of(op) {
                Some(i) => i,
                None => vstd::pervasive::unreached(),
            };
            let ghost row = self.crash_faults_before.entries@[idx as int].1@;
            self.crash_faults_before.entries[idx].1.push((path_regex, fault_id));
            proof {
                let b1 = self.crash_faults_before@;
                let now = self.crash_faults_before.entries@[idx as int].1@;
                lemma_name_unique(b0, idx as int);
                assert(b1 =~= b0.update(idx as int, (op@, now)));
                lemma_bind(b0, op@, now);
                assert(pairs_view(now) =~= pairs_view(row).push((path_regex@, fault_id@)));
            }
        } else {
            let idx = match self.crash_faults_after.index_of(op) {
                Some(i) => i,
                None => vstd::pervasive::unreached(),
            };
            let ghost row = self.crash_faults_after.entries@[idx as int].1@;
            self.crash_faults_after.entries[idx].1.push((path_regex, fault_id));
            proof {
                let a1 = self.crash_faults_after@;
                let now = self.crash_faults_after.entries@[idx as int].1@;
                lemma_name_unique(a0, idx as int);
                assert(a1 =~= a0.update(idx as int, (op@, now)));
                lemma_bind(a0, op@, now);
                assert(pairs_view(now) =~= pairs_view(row).push((path_regex@, fault_id@)));
            }
        }
        true
    }

    /// The ids of the crash faults that the operation `op` on `path` sets
    /// off, before it or after it, in the order of their registration: the
    /// faults registered for `op` whose pattern matches `path`, or, for an
    /// operation that takes two paths, `second_path`.
    pub fn crash_faults_for(&self, op: &str, before: bool, path: &str, second_path: &str) -> (r: Vec<String>)
        requires
            self.wf(),
        ensures
            strings_view(r@) == flagged_ids(
                self.registered(op@, before),
                matched_flags(
                    self.registered(op@, before),
                    multi_path_op_names().contains(op@),
                    path@,
                    second_path@,
                ),
                self.registered(op@, before).len() as int,
            ),
    {
        let two_paths = self.takes_two_paths(op);
        let found = if before {
            self.crash_faults_before.get(op)
        } else {
            self.crash_faults_after.get(op)
        };
        match found {
            Some(faults) => {
                assert(pairs_view(faults@) == self.registered(op@, before));
                let mut matched: Vec<bool> = Vec::new();
                let mut i: usize = 0;
                while i < faults.len()
                    invariant
                        i <= faults@.len(),
                        matched@.len() == i,
                        two_paths == multi_path_op_names().contains(op@),
                        forall|j: int|
                            0 <= j < i ==> #[trigger] matched@[j] == matches_paths(
                                pairs_view(faults@)[j].0,
                                two_paths,
                                path@,
                                second_path@,
                            ),
                    decreases faults@.len() - i,
                {
                    let pattern = faults[i].0.as_str();
                    let first = match pattern_matches(pattern, path) {
                        Some(m) => m,
                        None => false,
                    };
                    let hit = if first {
                        true
                    } else if two_paths {
                        match pattern_matches(pattern, second_path) {
                            Some(m) => m,
                            None => false,
                        }
                    } else {
                        false
                    };
                    matched.push(hit);
                    i += 1;
                }
                assert(matched@ =~= matched_flags(
                    pairs_view(faults@),
                    two_paths,
                    path@,
                    second_path@,
                ));
                select_fired(faults, &matched)
            },
            None => {
                let ids: Vec<String> = Vec::new();
                assert(strings_view(ids@) =~= Seq::empty());
                ids
            },
        }
    }
}

} // verus!
