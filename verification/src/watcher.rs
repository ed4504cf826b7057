//! The watcher's debounce state machine.
//!
//! The application receives raw filesystem events and sleeps on a channel;
//! this module decides everything else: which paths are worth indexing,
//! which events count, how pending paths coalesce into a set, and when a
//! quiet period must trigger one reindex.

use vstd::prelude::*;

use crate::language::{
    extension_start, range_is1, range_is2, range_is3, range_is4, spec_extension,
};

verus! {

use vstd::string::StrSliceExecFns;

/// The default quiet period, in milliseconds, before pending changes
/// trigger a reindex.
pub const DEFAULT_DEBOUNCE_MS: u64 = 500;

/// The classes of filesystem events the watcher reacts to.
#[derive(Debug, Clone, Copy, PartialEq, Eq, Structural)]
pub enum EventClass {
    Create,
    Modify,
    Remove,
    Other,
}

/// A path is hidden when any of its components starts with a dot.
pub open spec fn spec_hidden(s: Seq<char>) -> bool {
    exists|i: int| 0 <= i < s.len() && (i == 0 || s[i - 1] == '/') && #[trigger] s[i] == '.'
}

/// The extensions the watcher considers code worth indexing.
pub open spec fn spec_watched_ext(e: Seq<char>) -> bool {
    ||| e == seq!['r', 's']
    ||| e == seq!['p', 'y']
    ||| e == seq!['j', 's']
    ||| e == seq!['j', 's', 'x']
    ||| e == seq!['t', 's']
    ||| e == seq!['t', 's', 'x']
    ||| e == seq!['g', 'o']
    ||| e == seq!['j', 'a', 'v', 'a']
    ||| e == seq!['c']
    ||| e == seq!['h']
    ||| e == seq!['c', 'p', 'p']
    ||| e == seq!['h', 'p', 'p']
    ||| e == seq!['r', 'b']
    ||| e == seq!['m', 'd']
    ||| e == seq!['t', 'o', 'm', 'l']
    ||| e == seq!['y', 'a', 'm', 'l']
    ||| e == seq!['j', 's', 'o', 'n']
}

/// Whether a changed path should make it into the pending set: not hidden,
/// and carrying a watched extension.
pub open spec fn spec_indexable(s: Seq<char>) -> bool {
    !spec_hidden(s) && match spec_extension(s) {
        Some(e) => spec_watched_ext(e),
        None => false,
    }
}

/// Some pending entry reads `p`.
pub open spec fn pending_has(pending: Seq<String>, p: Seq<char>) -> bool {
    exists|i: int| 0 <= i < pending.len() && #[trigger] pending[i]@ == p
}

/// File system watcher that triggers re-indexing on changes.
pub struct FileWatcher {
    debounce_ms: u64,
}

impl FileWatcher {
    /// The quiet period, in milliseconds, the application must let pass
    /// before calling `take_pending`.
    pub closed spec fn spec_debounce_ms(&self) -> u64 {
        self.debounce_ms
    }

    /// A watcher with the given quiet period.
    pub fn new(debounce_ms: u64) -> (res: FileWatcher)
        ensures
            res.spec_debounce_ms() == debounce_ms,
    {
        FileWatcher { debounce_ms }
    }

    /// The quiet period, in milliseconds.
    pub fn debounce_ms(&self) -> (res: u64)
        ensures
            res == self.spec_debounce_ms(),
    {
        self.debounce_ms
    }

    /// Whether a changed file should be indexed: visible (no component
    /// starting with a dot) and of a watched extension.
    pub fn is_indexable(path: &str) -> (res: bool)
        ensures
            res == spec_indexable(path@),
    {
        if Self::is_hidden(path) {
            return false;
        }
        match extension_start(path) {
            None => false,
            Some(i) => {
                let n = path.unicode_len();
                if range_is2(path, i, n, 'r', 's') || range_is2(path, i, n, 'p', 'y') || range_is2(
                    path,
                    i,
                    n,
                    'j',
                    's',
                ) || range_is3(path, i, n, 'j', 's', 'x') || range_is2(path, i, n, 't', 's')
                    || range_is3(path, i, n, 't', 's', 'x') || range_is2(path, i, n, 'g', 'o')
                    || range_is4(path, i, n, 'j', 'a', 'v', 'a') || range_is1(path, i, n, 'c')
                    || range_is1(path, i, n, 'h') || range_is3(path, i, n, 'c', 'p', 'p')
                    || range_is3(path, i, n, 'h', 'p', 'p') || range_is2(path, i, n, 'r', 'b')
                    || range_is2(path, i, n, 'm', 'd') || range_is4(path, i, n, 't', 'o', 'm', 'l')
                    || range_is4(path, i, n, 'y', 'a', 'm', 'l') || range_is4(
                    path,
                    i,
                    n,
                    'j',
                    's',
                    'o',
                    'n',
                ) {
                    true
                } else {
                    false
                }
            },
        }
    }

    /// Whether any path component starts with a dot.
    #[verifier::rlimit(50)]
    fn is_hidden(path: &str) -> (res: bool)
        ensures
            res == spec_hidden(path@),
    {
        let n = path.unicode_len();
        let mut i: usize = 0;
        let mut component_start: bool = true;
        while i < n
            invariant
                i <= n,
                n == path@.len(),
                component_start == (i == 0 || path@[i - 1] == '/'),
                forall|j: int|
                    0 <= j < i ==> #[trigger] path@[j] != '.' || !(j == 0 || path@[j - 1] == '/'),
            decreases n - i,
        {
            let c = path.get_char(i);
            if component_start && c == '.' {
                return true;
            }
            component_start = c == '/';
            i = i + 1;
        }
        false
    }
}

impl Default for FileWatcher {
    /// A watcher with the default quiet period.
    fn default() -> (res: Self)
        ensures
            res.spec_debounce_ms() == DEFAULT_DEBOUNCE_MS,
    {
        FileWatcher { debounce_ms: DEFAULT_DEBOUNCE_MS }
    }
}

/// The paths waiting to be reindexed, coalesced from events.
pub struct WatcherState {
    pending: Vec<String>,
}

impl WatcherState {
    /// The pending paths.
    pub closed spec fn spec_pending(&self) -> Seq<String> {
        self.pending@
    }

    /// No path is pending twice.
    pub closed spec fn wf(&self) -> bool {
        forall|i: int, j: int|
            0 <= i < j < self.pending@.len() ==> self.pending@[i]@ != self.pending@[j]@
    }

    /// An empty pending set.
    pub fn new() -> (res: WatcherState)
        ensures
            res.wf(),
            res.spec_pending().len() == 0,
    {
        WatcherState { pending: Vec::new() }
    }

    /// How many paths are pending.
    pub fn pending_count(&self) -> (res: usize)
        ensures
            res == self.spec_pending().len(),
    {
        self.pending.len()
    }

    /// Fold one event into the pending set: create, modify and remove
    /// events add each of their indexable paths once; other events change
    /// nothing. Pending paths are never dropped here, and nothing but the
    /// event's indexable paths is added.
    pub fn note_event(&mut self, kind: EventClass, paths: &Vec<String>)
        requires
            old(self).wf(),
        ensures
            final(self).wf(),
            final(self).spec_pending().len() >= old(self).spec_pending().len(),
            forall|j: int|
                0 <= j < old(self).spec_pending().len() ==> #[trigger] final(self).spec_pending()[j]
                    == old(self).spec_pending()[j],
            forall|j: int|
                old(self).spec_pending().len() <= j < final(self).spec_pending().len()
                    ==> spec_indexable(#[trigger] final(self).spec_pending()[j]@) && kind
                    != EventClass::Other && exists|r: int|
                    0 <= r < paths@.len() && #[trigger] paths@[r]@ == final(self).spec_pending()[j]@,
            kind != EventClass::Other ==> forall|r: int|
                0 <= r < paths@.len() && spec_indexable(#[trigger] paths@[r]@) ==> pending_has(
                    final(self).spec_pending(),
                    paths@[r]@,
                ),
    {
        let relevant = match kind {
            EventClass::Create | EventClass::Modify | EventClass::Remove => true,
            EventClass::Other => false,
        };
        if !relevant {
            return ;
        }
        let ghost base = self.pending@;
        let n = paths.len();
        let mut i: usize = 0;
        while i < n
            invariant
                i <= n,
                n == paths@.len(),
                self.wf(),
                self.spec_pending().len() >= base.len(),
                forall|j: int| 0 <= j < base.len() ==> #[trigger] self.spec_pending()[j] == base[j],
                forall|j: int|
                    base.len() <= j < self.spec_pending().len() ==> spec_indexable(
                        #[trigger] self.spec_pending()[j]@,
                    ) && exists|r: int|
                        0 <= r < paths@.len() && #[trigger] paths@[r]@ == self.spec_pending()[j]@,
                forall|r: int|
                    0 <= r < i && spec_indexable(#[trigger] paths@[r]@) ==> pending_has(
                        self.spec_pending(),
                        paths@[r]@,
                    ),
            decreases n - i,
        {
            let path = &paths[i];
            let ghost before = self.pending@;
            let indexable = FileWatcher::is_indexable(path.as_str());
            if indexable && !self.has_pending(path) {
                self.pending.push(path.clone());
                proof {
                    assert forall|x: int, y: int|
                        0 <= x < y < self.pending@.len() implies self.pending@[x]@
                        != self.pending@[y]@ by {
                        if y == self.pending@.len() - 1 {
                            assert(self.pending@[x] == before[x]);
                            assert(!pending_has(before, path@));
                        } else {
                            assert(self.pending@[x] == before[x]);
                            assert(self.pending@[y] == before[y]);
                        }
                    }
                    assert(self.pending@[self.pending@.len() - 1]@ == paths@[i as int]@);
                    assert forall|j: int|
                        base.len() <= j < self.pending@.len() implies spec_indexable(
                        #[trigger] self.pending@[j]@,
                    ) && exists|r: int|
                        0 <= r < paths@.len() && #[trigger] paths@[r]@ == self.pending@[j]@ by {
                        if j < self.pending@.len() - 1 {
                            assert(self.pending@[j] == before[j]);
                        } else {
                            assert(self.pending@[j]@ == paths@[i as int]@);
                        }
                    }
                    assert forall|r: int|
                        0 <= r < i + 1 && spec_indexable(#[trigger] paths@[r]@) implies pending_has(
                        self.spec_pending(),
                        paths@[r]@,
                    ) by {
                        if r < i {
                            let w = choose|w: int|
                                0 <= w < before.len() && #[trigger] before[w]@ == paths@[r]@;
                            assert(self.pending@[w]@ == paths@[r]@);
                        } else {
                            assert(self.pending@[self.pending@.len() - 1]@ == paths@[r]@);
                        }
                    }
                }
            } else {
                proof {
                    assert forall|r: int|
                        0 <= r < i + 1 && spec_indexable(#[trigger] paths@[r]@) implies pending_has(
                        self.spec_pending(),
                        paths@[r]@,
                    ) by {
                        if r == i {
                            assert(spec_indexable(path@));
                            assert(indexable);
                            assert(pending_has(before, path@));
                        }
                    }
                }
            }
            i = i + 1;
        }
        proof {
            assert(kind != EventClass::Other);
            assert forall|j: int|
                base.len() <= j < self.spec_pending().len() implies spec_indexable(
                #[trigger] self.spec_pending()[j]@,
            ) && kind != EventClass::Other && exists|r: int|
                0 <= r < paths@.len() && #[trigger] paths@[r]@ == self.spec_pending()[j]@ by {}
        }
    }

    /// Decide, at a quiet-period boundary, whether to reindex: when paths
    /// are pending, the set is emptied and one reindex fires; otherwise
    /// nothing happens.
    pub fn take_pending(&mut self) -> (fire: bool)
        ensures
            fire == (old(self).spec_pending().len() > 0),
            final(self).spec_pending().len() == 0,
            final(self).wf(),
    {
        let fire = self.pending.len() > 0;
        self.pending = Vec::new();
        fire
    }

    /// Whether `path` is already pending.
    fn has_pending(&self, path: &String) -> (res: bool)
        ensures
            res == pending_has(self.spec_pending(), path@),
    {
        let n = self.pending.len();
        let mut i: usize = 0;
        while i < n
            invariant
                i <= n,
                n == self.pending@.len(),
                forall|j: int| 0 <= j < i ==> self.pending@[j]@ != path@,
            decreases n - i,
        {
            if self.pending[i] == *path {
                return true;
            }
            i = i + 1;
        }
        false
    }
}

} // verus!
