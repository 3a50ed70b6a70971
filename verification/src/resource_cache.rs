//! The resource cache: one entry per path of an external resource (a font, an
//! image), however many elements refer to it. The cache records that a
//! resource is wanted and what became of it; loading is the host's work.

use vstd::prelude::*;
use crate::ascii::copy_bytes;
use crate::ascii::same_bytes;

verus! {

/// What is known of a resource.
#[derive(Clone, Copy, Debug, PartialEq, Eq, Structural)]
pub enum ResourceState {
    /// Referenced, and not reported on yet.
    Pending,
    Loaded,
    Failed,
}

/// What the host reports of a load.
#[derive(Clone, Copy, Debug, PartialEq, Eq, Structural)]
pub enum LoadResult {
    Loaded,
    Failed,
}

impl LoadResult {
    pub open spec fn state(self) -> ResourceState {
        match self {
            LoadResult::Loaded => ResourceState::Loaded,
            LoadResult::Failed => ResourceState::Failed,
        }
    }
}

/// The identity of a cached resource: the position of its entry. Two handles
/// are the same resource exactly if they are equal.
#[derive(Clone, Copy, Debug, PartialEq, Eq, Structural)]
pub struct ResourceHandle {
    pub index: usize,
}

#[derive(Debug, PartialEq, Eq)]
struct ResourceEntry {
    path: Vec<u8>,
    state: ResourceState,
}

/// The mathematical value of an entry.
pub struct Resource {
    pub path: Seq<u8>,
    pub state: ResourceState,
}

/// The cache. Its value is the sequence of its entries, oldest first.
#[derive(Debug, PartialEq, Eq)]
pub struct ResourceCache {
    entries: Vec<ResourceEntry>,
}

/// Whether some entry is for `path`.
pub open spec fn has_path(entries: Seq<Resource>, path: Seq<u8>) -> bool {
    exists|i: int| 0 <= i < entries.len() && (#[trigger] entries[i]).path == path
}

/// The position of an entry for `path`.
pub open spec fn index_of(entries: Seq<Resource>, path: Seq<u8>) -> int {
    choose|i: int| 0 <= i < entries.len() && (#[trigger] entries[i]).path == path
}

/// Whether no two entries are for the same path.
pub open spec fn distinct_paths(entries: Seq<Resource>) -> bool {
    forall|i: int, j: int|
        0 <= i < j < entries.len() ==> (#[trigger] entries[i]).path != (#[trigger] entries[j]).path
}

/// The entries after `path` was interned: as before where it is known, else
/// with a new pending entry at the end.
pub open spec fn spec_intern(entries: Seq<Resource>, path: Seq<u8>) -> Seq<Resource> {
    if has_path(entries, path) {
        entries
    } else {
        entries.push(Resource { path, state: ResourceState::Pending })
    }
}

/// The entries after each of `paths` was interned, in order.
pub open spec fn intern_all(entries: Seq<Resource>, paths: Seq<Seq<u8>>) -> Seq<Resource>
    decreases paths.len(),
{
    if paths.len() == 0 {
        entries
    } else {
        spec_intern(intern_all(entries, paths.drop_last()), paths.last())
    }
}

/// The entries after a load of `path` was reported: the state of its entry
/// is replaced; where there is no entry, nothing changes.
pub open spec fn spec_mark(entries: Seq<Resource>, path: Seq<u8>, result: LoadResult) -> Seq<
    Resource,
> {
    if has_path(entries, path) {
        entries.update(index_of(entries, path), Resource { path, state: result.state() })
    } else {
        entries
    }
}

impl View for ResourceCache {
    type V = Seq<Resource>;

    closed spec fn view(&self) -> Seq<Resource> {
        Seq::new(
            self.entries@.len(),
            |i: int| Resource { path: self.entries@[i].path@, state: self.entries@[i].state },
        )
    }
}

impl ResourceCache {
    #[verifier::type_invariant]
    spec fn no_path_twice(self) -> bool {
        distinct_paths(self@)
    }

    /// The empty cache.
    pub fn new() -> (r: ResourceCache)
        ensures
            r@ == Seq::<Resource>::empty(),
    {
        let r = ResourceCache { entries: Vec::new() };
        assert(r@ =~= Seq::<Resource>::empty());
        r
    }

    /// The number of entries.
    pub fn len(&self) -> (r: usize)
        ensures
            r == self@.len(),
    {
        self.entries.len()
    }

    /// States what holds of every cache: no two entries are for the same
    /// path. It does nothing when run.
    pub fn paths_are_distinct(&self)
        ensures
            distinct_paths(self@),
    {
        proof {
            use_type_invariant(self);
        }
    }

    fn find(&self, path: &[u8]) -> (r: Option<usize>)
        ensures
            distinct_paths(self@),
            match r {
                Some(i) => i < self@.len() && self@[i as int].path == path@ && i == index_of(
                    self@,
                    path@,
                ) && has_path(self@, path@),
                None => !has_path(self@, path@),
            },
    {
        proof {
            use_type_invariant(self);
        }
        let mut i: usize = 0;
        while i < self.entries.len()
            invariant
                i <= self.entries.len(),
                distinct_paths(self@),
                forall|k: int| 0 <= k < i ==> (#[trigger] self@[k]).path != path@,
            decreases self.entries.len() - i,
        {
            if same_bytes(self.entries[i].path.as_slice(), path) {
                proof {
                    assert(self@[i as int].path == path@);
                    let k = index_of(self@, path@);
                    if k < i {
                        assert(self@[k].path != self@[i as int].path);
                    } else if i < k {
                        assert(self@[i as int].path != self@[k].path);
                    }
                }
                return Some(i);
            }
            i += 1;
        }
        None
    }

    /// The handle of the entry for `path`, if it was interned.
    pub fn lookup(&self, path: &[u8]) -> (r: Option<ResourceHandle>)
        ensures
            match r {
                Some(handle) => has_path(self@, path@) && handle.index == index_of(self@, path@)
                    && handle.index < self@.len() && self@[handle.index as int].path == path@,
                None => !has_path(self@, path@),
            },
    {
        match self.find(path) {
            Some(index) => Some(ResourceHandle { index }),
            None => None,
        }
    }

    /// The state of the resource behind a handle.
    pub fn state(&self, handle: ResourceHandle) -> (r: Option<ResourceState>)
        ensures
            r == (if handle.index < self@.len() {
                Some(self@[handle.index as int].state)
            } else {
                None
            }),
    {
        if handle.index < self.entries.len() {
            Some(self.entries[handle.index].state)
        } else {
            None
        }
    }

    /// The path of the resource behind a handle.
    pub fn path(&self, handle: ResourceHandle) -> (r: Option<&Vec<u8>>)
        ensures
            match r {
                Some(path) => handle.index < self@.len() && self@[handle.index as int].path
                    == path@,
                None => handle.index >= self@.len(),
            },
    {
        if handle.index < self.entries.len() {
            Some(&self.entries[handle.index].path)
        } else {
            None
        }
    }

    /// Returns the handle of the entry for `path`, which is made, pending,
    /// where the path was not seen before. Nothing is loaded.
    pub fn intern(&mut self, path: &[u8]) -> (handle: ResourceHandle)
        ensures
            final(self)@ == spec_intern(old(self)@, path@),
            handle.index == index_of(final(self)@, path@),
            handle.index < final(self)@.len(),
            final(self)@[handle.index as int].path == path@,
            distinct_paths(final(self)@),
    {
        match self.find(path) {
            Some(index) => ResourceHandle { index },
            None => {
                let ghost before = self@;
                let mut entries: Vec<ResourceEntry> = Vec::new();
                core::mem::swap(&mut entries, &mut self.entries);
                let index = entries.len();
                entries.push(ResourceEntry { path: copy_bytes(path), state: ResourceState::Pending });
                let ghost after = Seq::new(
                    entries@.len(),
                    |i: int| Resource { path: entries@[i].path@, state: entries@[i].state },
                );
                proof {
                    assert(after =~= spec_intern(before, path@));
                    assert(after[index as int].path == path@);
                    assert(distinct_paths(after)) by {
                        assert forall|i: int, j: int| 0 <= i < j < after.len() implies (
                        #[trigger] after[i]).path != (#[trigger] after[j]).path by {
                            if j < before.len() {
                                assert(before[i].path != before[j].path);
                            } else {
                                assert(before[i].path != path@);
                            }
                        }
                    }
                }
                self.entries = entries;
                assert(self@ =~= after);
                ResourceHandle { index }
            },
        }
    }

    /// Records what became of the load of `path`. Returns whether the path
    /// was interned; a report on a path that was not is dropped.
    pub fn mark_loaded(&mut self, path: &[u8], result: LoadResult) -> (known: bool)
        ensures
            final(self)@ == spec_mark(old(self)@, path@, result),
            known == has_path(old(self)@, path@),
            distinct_paths(final(self)@),
    {
        match self.find(path) {
            None => false,
            Some(index) => {
                let ghost before = self@;
                let mut entries: Vec<ResourceEntry> = Vec::new();
                core::mem::swap(&mut entries, &mut self.entries);
                let state = match result {
                    LoadResult::Loaded => ResourceState::Loaded,
                    LoadResult::Failed => ResourceState::Failed,
                };
                entries.set(index, ResourceEntry { path: copy_bytes(path), state });
                let ghost after = Seq::new(
                    entries@.len(),
                    |i: int| Resource { path: entries@[i].path@, state: entries@[i].state },
                );
                proof {
                    assert(after =~= spec_mark(before, path@, result));
                    assert forall|i: int, j: int| 0 <= i < j < after.len() implies (
                    #[trigger] after[i]).path != (#[trigger] after[j]).path by {
                        assert(before[i].path != before[j].path);
                    }
                }
                self.entries = entries;
                assert(self@ =~= after);
                true
            },
        }
    }
}

/// Interning keeps the entries that were there, in their places.
pub proof fn lemma_intern_keeps(entries: Seq<Resource>, path: Seq<u8>)
    ensures
        entries.len() <= spec_intern(entries, path).len(),
        forall|i: int| 0 <= i < entries.len() ==> spec_intern(entries, path)[i] == entries[i],
        has_path(spec_intern(entries, path), path),
        forall|other: Seq<u8>|
            has_path(entries, other) ==> #[trigger] has_path(spec_intern(entries, path), other),
        distinct_paths(entries) ==> distinct_paths(spec_intern(entries, path)),
{
    let after = spec_intern(entries, path);
    if has_path(entries, path) {
    } else {
        assert(after[entries.len() as int].path == path);
        assert forall|other: Seq<u8>| has_path(entries, other) implies #[trigger] has_path(
            after,
            other,
        ) by {
            let i = index_of(entries, other);
            assert(after[i].path == other);
        }
        if distinct_paths(entries) {
            assert forall|i: int, j: int| 0 <= i < j < after.len() implies (#[trigger] after[i]).path
                != (#[trigger] after[j]).path by {
                if j < entries.len() {
                    assert(entries[i].path != entries[j].path);
                } else {
                    assert(entries[i].path != path);
                }
            }
        }
    }
}

/// Two references to one path get one handle: interning a path a second time
/// changes nothing, and the handle of a path stays the same whatever is
/// interned after it.
pub proof fn lemma_intern_dedup(entries: Seq<Resource>, path: Seq<u8>, later: Seq<u8>)
    requires
        distinct_paths(entries),
    ensures
        spec_intern(spec_intern(entries, path), path) == spec_intern(entries, path),
        index_of(spec_intern(spec_intern(entries, path), later), path) == index_of(
            spec_intern(entries, path),
            path,
        ),
{
    let once = spec_intern(entries, path);
    lemma_intern_keeps(entries, path);
    let more = spec_intern(once, later);
    lemma_intern_keeps(once, later);
    let i = index_of(once, path);
    let j = index_of(more, path);
    assert(more[i] == once[i]);
    if i != j {
        if i < j {
            assert(more[i].path != more[j].path);
        } else {
            assert(more[j].path != more[i].path);
        }
    }
}

/// Interning a list of paths keeps what was there, keeps the paths distinct,
/// and leaves every path of the list in the cache.
pub proof fn lemma_intern_all(entries: Seq<Resource>, paths: Seq<Seq<u8>>)
    ensures
        entries.len() <= intern_all(entries, paths).len(),
        forall|i: int| 0 <= i < entries.len() ==> intern_all(entries, paths)[i] == entries[i],
        forall|k: int|
            0 <= k < paths.len() ==> has_path(intern_all(entries, paths), #[trigger] paths[k]),
        forall|other: Seq<u8>|
            has_path(entries, other) ==> #[trigger] has_path(intern_all(entries, paths), other),
        distinct_paths(entries) ==> distinct_paths(intern_all(entries, paths)),
    decreases paths.len(),
{
    if paths.len() > 0 {
        let front = paths.drop_last();
        lemma_intern_all(entries, front);
        let middle = intern_all(entries, front);
        lemma_intern_keeps(middle, paths.last());
        let after = intern_all(entries, paths);
        assert forall|k: int| 0 <= k < paths.len() implies has_path(after, #[trigger] paths[k]) by {
            if k < front.len() {
                assert(front[k] == paths[k]);
                assert(has_path(middle, front[k]));
            }
        }
        assert forall|other: Seq<u8>| has_path(entries, other) implies #[trigger] has_path(
            after,
            other,
        ) by {
            assert(has_path(middle, other));
        }
    }
}

/// Every entry that interning a list of paths adds is for a path of the list.
pub proof fn lemma_intern_all_adds(entries: Seq<Resource>, paths: Seq<Seq<u8>>, i: int)
    requires
        entries.len() <= i < intern_all(entries, paths).len(),
    ensures
        paths.contains(intern_all(entries, paths)[i].path),
        intern_all(entries, paths)[i].state == ResourceState::Pending,
    decreases paths.len(),
{
    if paths.len() > 0 {
        let front = paths.drop_last();
        let middle = intern_all(entries, front);
        lemma_intern_all(entries, front);
        if i < middle.len() {
            lemma_intern_all_adds(entries, front, i);
            let k = choose|k: int| 0 <= k < front.len() && front[k] == middle[i].path;
            assert(paths[k] == middle[i].path);
            lemma_intern_keeps(middle, paths.last());
        } else {
            assert(paths[paths.len() - 1] == paths.last());
        }
    }
}

/// Once the paths of a list are in the cache, interning them changes nothing.
pub proof fn lemma_intern_all_again(entries: Seq<Resource>, paths: Seq<Seq<u8>>)
    requires
        forall|k: int| 0 <= k < paths.len() ==> has_path(entries, #[trigger] paths[k]),
    ensures
        intern_all(entries, paths) == entries,
    decreases paths.len(),
{
    if paths.len() > 0 {
        let front = paths.drop_last();
        assert forall|k: int| 0 <= k < front.len() implies has_path(entries, #[trigger] front[k]) by {
            assert(front[k] == paths[k]);
        }
        lemma_intern_all_again(entries, front);
        assert(has_path(entries, paths[paths.len() - 1]));
    }
}

/// Interning one list after another is interning the two in a row.
pub proof fn lemma_intern_all_append(
    entries: Seq<Resource>,
    first: Seq<Seq<u8>>,
    second: Seq<Seq<u8>>,
)
    ensures
        intern_all(entries, first + second) == intern_all(intern_all(entries, first), second),
    decreases second.len(),
{
    if second.len() == 0 {
        assert(first + second =~= first);
    } else {
        lemma_intern_all_append(entries, first, second.drop_last());
        assert((first + second).drop_last() =~= first + second.drop_last());
        assert((first + second).last() == second.last());
    }
}

} // verus!
