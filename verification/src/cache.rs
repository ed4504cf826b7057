//! File modification cache for incremental indexing.
//!
//! Tracks the last-seen modification time of each file, in whole seconds
//! since the Unix epoch, and classifies a file as new, modified or unchanged
//! against that record. Reading a file's time from disk and persisting the
//! cache are the application's job; this module owns the classification.

use vstd::prelude::*;

verus! {

/// Result of checking a file against the cache.
#[derive(Debug, Clone, Copy, PartialEq, Eq, Structural)]
pub enum FileStatus {
    New,
    Modified,
    Unchanged,
}

/// The stored time for `p` among `entries`, the latest entry winning.
pub closed spec fn spec_lookup(entries: Seq<(String, u64)>, p: Seq<char>) -> Option<u64>
    decreases entries.len(),
{
    if entries.len() == 0 {
        None
    } else if entries.last().0@ == p {
        Some(entries.last().1)
    } else {
        spec_lookup(entries.drop_last(), p)
    }
}

/// How a file with stored time `stored` and current time `current` is
/// classified: unreadable or unseen files are new; a current time strictly
/// beyond the stored one means modified; otherwise unchanged.
pub open spec fn spec_status(stored: Option<u64>, current: Option<u64>) -> FileStatus {
    match current {
        None => FileStatus::New,
        Some(t) => match stored {
            None => FileStatus::New,
            Some(s) => if t > s {
                FileStatus::Modified
            } else {
                FileStatus::Unchanged
            },
        },
    }
}

/// Cache of file modification times, keyed by path.
pub struct FileCache {
    files: Vec<(String, u64)>,
}

impl FileCache {
    /// No two entries share a path.
    pub closed spec fn wf(&self) -> bool {
        forall|i: int, j: int|
            0 <= i < j < self.files@.len() ==> self.files@[i].0@ != self.files@[j].0@
    }

    /// The stored time for path `p`, if any.
    pub closed spec fn spec_get(&self, p: Seq<char>) -> Option<u64> {
        spec_lookup(self.files@, p)
    }

    /// An empty cache.
    pub fn new() -> (res: FileCache)
        ensures
            res.wf(),
            forall|p: Seq<char>| res.spec_get(p) is None,
    {
        FileCache { files: Vec::new() }
    }

    /// Rebuild a cache from persisted `(path, seconds)` pairs; on a repeated
    /// path the pair listed last wins.
    pub fn from_entries(entries: Vec<(String, u64)>) -> (res: FileCache)
        ensures
            res.wf(),
            forall|p: Seq<char>| res.spec_get(p) == spec_lookup(entries@, p),
    {
        let mut res = FileCache::new();
        let n = entries.len();
        let mut i: usize = 0;
        while i < n
            invariant
                i <= n,
                n == entries@.len(),
                res.wf(),
                forall|p: Seq<char>|
                    res.spec_get(p) == spec_lookup(entries@.subrange(0, i as int), p),
            decreases n - i,
        {
            let (path, t) = (entries[i].0.clone(), entries[i].1);
            res.update_file(&path, t);
            proof {
                assert forall|p: Seq<char>|
                    res.spec_get(p) == spec_lookup(entries@.subrange(0, i + 1), p) by {
                    let pre = entries@.subrange(0, i + 1);
                    assert(pre.last() == entries@[i as int]);
                    assert(pre.drop_last() =~= entries@.subrange(0, i as int));
                }
            }
            i = i + 1;
        }
        proof {
            assert(entries@.subrange(0, n as int) =~= entries@);
        }
        res
    }

    /// Classify a file given the modification time read right now (`None`
    /// when it could not be read).
    pub fn check_file(&self, path: &String, current_mtime: Option<u64>) -> (res: FileStatus)
        requires
            self.wf(),
        ensures
            res == spec_status(self.spec_get(path@), current_mtime),
    {
        let t = match current_mtime {
            None => {
                return FileStatus::New;
            },
            Some(t) => t,
        };
        match self.find(path) {
            None => FileStatus::New,
            Some(i) => {
                let stored = self.files[i].1;
                if t > stored {
                    FileStatus::Modified
                } else {
                    FileStatus::Unchanged
                }
            },
        }
    }

    /// Record `mtime` as the last-seen modification time of `path`.
    pub fn update_file(&mut self, path: &String, mtime: u64)
        requires
            old(self).wf(),
        ensures
            final(self).wf(),
            forall|p: Seq<char>|
                final(self).spec_get(p) == (if p == path@ {
                    Some(mtime)
                } else {
                    old(self).spec_get(p)
                }),
    {
        match self.find(path) {
            Some(i) => {
                let ghost before = self.files@;
                self.files[i] = (path.clone(), mtime);
                proof {
                    lemma_lookup_update(before, i as int, self.files@[i as int]);
                }
            },
            None => {
                let ghost before = self.files@;
                self.files.push((path.clone(), mtime));
                proof {
                    assert forall|p: Seq<char>|
                        spec_lookup(self.files@, p) == (if p == path@ {
                            Some(mtime)
                        } else {
                            spec_lookup(before, p)
                        }) by {
                        assert(self.files@.drop_last() =~= before);
                    }
                    assert forall|x: int, y: int|
                        0 <= x < y < self.files@.len() implies self.files@[x].0@
                        != self.files@[y].0@ by {
                        if y == self.files@.len() - 1 {
                            assert(self.files@[x] == before[x]);
                        } else {
                            assert(self.files@[x] == before[x]);
                            assert(self.files@[y] == before[y]);
                        }
                    }
                }
            },
        }
    }

    /// Forget every recorded time.
    pub fn clear(&mut self)
        ensures
            final(self).wf(),
            forall|p: Seq<char>| final(self).spec_get(p) is None,
    {
        self.files = Vec::new();
    }

    /// The recorded `(path, seconds)` pairs, for persisting.
    pub fn entries(&self) -> (res: &Vec<(String, u64)>)
        ensures
            forall|p: Seq<char>| spec_lookup(res@, p) == self.spec_get(p),
    {
        &self.files
    }

    /// The index of the entry for `path`, if one exists.
    fn find(&self, path: &String) -> (res: Option<usize>)
        requires
            self.wf(),
        ensures
            match res {
                Some(i) => 0 <= i < self.files@.len() && self.files@[i as int].0@ == path@
                    && self.spec_get(path@) == Some(self.files@[i as int].1),
                None => (forall|j: int| 0 <= j < self.files@.len() ==> self.files@[j].0@ != path@)
                    && self.spec_get(path@) is None,
            },
    {
        let n = self.files.len();
        let mut i: usize = 0;
        while i < n
            invariant
                i <= n,
                n == self.files@.len(),
                self.wf(),
                forall|j: int| 0 <= j < i ==> self.files@[j].0@ != path@,
            decreases n - i,
        {
            if self.files[i].0 == *path {
                proof {
                    lemma_lookup_found(self.files@, i as int, path@);
                }
                return Some(i);
            }
            i = i + 1;
        }
        proof {
            lemma_lookup_absent(self.files@, path@);
        }
        None
    }
}

/// When no entry carries path `p`, lookup finds nothing; stated as the
/// converse: a successful lookup means some entry carries `p`.
proof fn lemma_lookup_absent(entries: Seq<(String, u64)>, p: Seq<char>)
    ensures
        (forall|j: int| 0 <= j < entries.len() ==> entries[j].0@ != p) ==> spec_lookup(entries, p)
            is None,
    decreases entries.len(),
{
    if entries.len() > 0 {
        lemma_lookup_absent(entries.drop_last(), p);
    }
}

/// Under unique paths, lookup of entry `i`'s path yields entry `i`'s time.
proof fn lemma_lookup_found(entries: Seq<(String, u64)>, i: int, p: Seq<char>)
    requires
        0 <= i < entries.len(),
        entries[i].0@ == p,
        forall|x: int, y: int| 0 <= x < y < entries.len() ==> entries[x].0@ != entries[y].0@,
    ensures
        spec_lookup(entries, p) == Some(entries[i].1),
    decreases entries.len(),
{
    if i == entries.len() - 1 {
    } else {
        assert(entries.last().0@ != p);
        assert(entries.drop_last()[i] == entries[i]);
        lemma_lookup_found(entries.drop_last(), i, p);
    }
}

/// Replacing entry `i` by a pair with the same path updates lookup of that
/// path and leaves every other path's lookup alone.
proof fn lemma_lookup_update(entries: Seq<(String, u64)>, i: int, v: (String, u64))
    requires
        0 <= i < entries.len(),
        entries[i].0@ == v.0@,
        forall|x: int, y: int| 0 <= x < y < entries.len() ==> entries[x].0@ != entries[y].0@,
    ensures
        forall|p: Seq<char>|
            spec_lookup(entries.update(i, v), p) == (if p == v.0@ {
                Some(v.1)
            } else {
                spec_lookup(entries, p)
            }),
        forall|x: int, y: int|
            0 <= x < y < entries.update(i, v).len() ==> entries.update(i, v)[x].0@ != entries.update(
                i,
                v,
            )[y].0@,
    decreases entries.len(),
{
    let updated = entries.update(i, v);
    if i == entries.len() - 1 {
        assert forall|p: Seq<char>|
            spec_lookup(updated, p) == (if p == v.0@ {
                Some(v.1)
            } else {
                spec_lookup(entries, p)
            }) by {
            assert(updated.len() == entries.len());
            assert(updated.last() == v);
            assert(updated.drop_last() =~= entries.drop_last());
            if p == v.0@ {
                assert(spec_lookup(updated, p) == Some(v.1));
            } else {
                assert(entries.last().0@ == v.0@);
                assert(spec_lookup(updated, p) == spec_lookup(updated.drop_last(), p));
                assert(spec_lookup(entries, p) == spec_lookup(entries.drop_last(), p));
            }
        }
    } else {
        assert(entries.drop_last()[i] == entries[i]);
        lemma_lookup_update(entries.drop_last(), i, v);
        let shorter = entries.drop_last().update(i, v);
        assert forall|p: Seq<char>|
            spec_lookup(updated, p) == (if p == v.0@ {
                Some(v.1)
            } else {
                spec_lookup(entries, p)
            }) by {
            assert(updated.last() == entries.last());
            assert(updated.drop_last() =~= shorter);
            if p == updated.last().0@ {
                assert(entries[entries.len() - 1].0@ != entries[i].0@);
                assert(p != v.0@);
            } else {
                assert(spec_lookup(updated, p) == spec_lookup(updated.drop_last(), p));
                assert(spec_lookup(shorter, p) == (if p == v.0@ {
                    Some(v.1)
                } else {
                    spec_lookup(entries.drop_last(), p)
                }));
                assert(spec_lookup(entries, p) == spec_lookup(entries.drop_last(), p));
            }
        }
    }
}

/// Law: when a file's time is recorded and nothing on disk moves, the next
/// check reports it unchanged; before any record it is new, and after its
/// on-disk time moves strictly forward it is modified.
pub proof fn lemma_cache_classification(t: u64)
    ensures
        spec_status(Some(t), Some(t)) == FileStatus::Unchanged,
        spec_status(None, Some(t)) == FileStatus::New,
        forall|s: u64| t > s ==> spec_status(Some(s), Some(t)) == FileStatus::Modified,
        forall|s: u64| t <= s ==> spec_status(Some(s), Some(t)) == FileStatus::Unchanged,
{
}

} // verus!
