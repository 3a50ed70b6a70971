//! The layout system: the registry of windows, each with the source of its
//! markup and the DOM of its last successful build, and the resource cache
//! that the builds share.
//!
//! Markup is fetched outside this library. A build is handed the outcomes of
//! the fetches and takes each window through parsing, type resolution and DOM
//! construction. A window whose build fails keeps the DOM it had; the other
//! windows are built all the same.

use vstd::prelude::*;
use crate::ascii::copy_bytes;
use crate::ascii::same_bytes;
use crate::layout_abstract_types::StyleRecord;
use crate::layout_abstract_types::TypeContext;
use crate::layout_attribute_parser::parse;
use crate::layout_attribute_parser::spec_parse;
use crate::resource_cache::distinct_paths;
use crate::resource_cache::has_path;
use crate::resource_cache::intern_all;
use crate::resource_cache::lemma_intern_all;
use crate::resource_cache::lemma_intern_all_again;
use crate::resource_cache::spec_mark;
use crate::resource_cache::LoadResult;
use crate::resource_cache::Resource;
use crate::resource_cache::ResourceCache;
use crate::source_provider::latest;
use crate::source_provider::FetchedSources;
use crate::source_provider::FetchedView;
use crate::source_provider::IoError;
use crate::window_dom::accepted;
use crate::window_dom::build;
use crate::window_dom::lemma_build_accepts;
use crate::window_dom::lemma_build_published;
use crate::window_dom::published;
use crate::window_dom::resource_paths;
use crate::window_dom::spec_build;
use crate::window_dom::BuildError;
use crate::window_dom::BuildFailure;
use crate::window_dom::DomNode;
use crate::window_dom::DomTree;

verus! {

/// Why a window was not registered.
#[derive(Clone, Copy, Debug, PartialEq, Eq, Structural)]
pub enum OrchestratorError {
    /// A window of that name is registered already.
    DuplicateName,
}

/// A registered window.
#[derive(Debug, PartialEq, Eq)]
pub struct WindowEntry {
    pub name: Vec<u8>,
    pub source_id: Vec<u8>,
    /// The DOM of the last successful build; `None` until there is one.
    pub dom: Option<DomNode>,
}

/// The mathematical value of a `WindowEntry`.
pub struct WindowView {
    pub name: Seq<u8>,
    pub source_id: Seq<u8>,
    pub dom: Option<DomTree>,
}

impl View for WindowEntry {
    type V = WindowView;

    open spec fn view(&self) -> WindowView {
        WindowView {
            name: self.name@,
            source_id: self.source_id@,
            dom: match self.dom {
                Some(dom) => Some(dom@),
                None => None,
            },
        }
    }
}

pub open spec fn windows_of(entries: Seq<WindowEntry>) -> Seq<WindowView> {
    Seq::new(entries.len(), |i: int| entries[i]@)
}

/// The views of a list of failures.
pub open spec fn failures_of(list: Seq<(Vec<u8>, BuildError)>) -> Seq<(Seq<u8>, BuildFailure)> {
    Seq::new(list.len(), |i: int| (list[i].0@, list[i].1@))
}

/// The layout system.
#[derive(Debug)]
pub struct LayoutSystem {
    entries: Vec<WindowEntry>,
    cache: ResourceCache,
}

/// The mathematical value of a `LayoutSystem`.
pub struct LayoutView {
    /// The windows, in the order in which they were registered.
    pub windows: Seq<WindowView>,
    /// The entries of the resource cache.
    pub resources: Seq<Resource>,
}

impl View for LayoutSystem {
    type V = LayoutView;

    closed spec fn view(&self) -> LayoutView {
        LayoutView { windows: windows_of(self.entries@), resources: self.cache@ }
    }
}

/// Whether a window is registered under `name`.
pub open spec fn has_window(windows: Seq<WindowView>, name: Seq<u8>) -> bool {
    exists|i: int| 0 <= i < windows.len() && (#[trigger] windows[i]).name == name
}

/// The position of a window called `name`.
pub open spec fn window_index(windows: Seq<WindowView>, name: Seq<u8>) -> int {
    choose|i: int| 0 <= i < windows.len() && (#[trigger] windows[i]).name == name
}

/// What holds of the windows of every layout system: no two have the same
/// name, and every DOM is published.
pub open spec fn registry(windows: Seq<WindowView>) -> bool {
    &&& forall|i: int, j: int|
        0 <= i < j < windows.len() ==> (#[trigger] windows[i]).name != (#[trigger] windows[j]).name
    &&& forall|i: int|
        0 <= i < windows.len() && (#[trigger] windows[i]).dom is Some ==> published(
            windows[i].dom->0,
            Seq::empty(),
        )
}

/// The DOM that the outcome of a fetch gives, or why it gives none. The root
/// has no parent to inherit from.
pub open spec fn spec_window(fetched: Option<Result<Seq<u8>, Seq<u8>>>) -> Result<
    DomTree,
    BuildFailure,
> {
    match fetched {
        None => Err(BuildFailure::SourceMissing),
        Some(Err(message)) => Err(BuildFailure::SourceUnavailable(message)),
        Some(Ok(markup)) => match spec_parse(markup) {
            Err(failure) => Err(BuildFailure::MarkupRejected(failure)),
            Ok(tree) => spec_build(tree, Map::empty(), Seq::empty()),
        },
    }
}

/// What building a window gives: the DOM of its source, or the failure.
pub open spec fn window_outcome(sources: Seq<FetchedView>, window: WindowView) -> Result<
    DomTree,
    BuildFailure,
> {
    spec_window(latest(sources, window.source_id))
}

/// The DOM of a window after a build: the new one where the build succeeds,
/// else the one it had.
pub open spec fn dom_after(sources: Seq<FetchedView>, window: WindowView) -> Option<DomTree> {
    match window_outcome(sources, window) {
        Ok(dom) => Some(dom),
        Err(_) => window.dom,
    }
}

/// Whether `entry` is a failure of one of the first `count` windows, under the
/// name of that window.
pub open spec fn fails_among(
    windows: Seq<WindowView>,
    sources: Seq<FetchedView>,
    count: int,
    entry: (Seq<u8>, BuildFailure),
) -> bool {
    exists|i: int|
        0 <= i < count && #[trigger] window_outcome(sources, windows[i]) is Err && entry == (
            windows[i].name,
            window_outcome(sources, windows[i])->Err_0,
        )
}

/// A layout system after a build, and the failures of the build.
pub struct Outcome {
    pub windows: Seq<WindowView>,
    pub resources: Seq<Resource>,
    /// The name of each window that failed, with its failure, in the order
    /// of the windows.
    pub failures: Seq<(Seq<u8>, BuildFailure)>,
}

/// The outcome of building the first `count` windows, one after the other.
/// A window that is built gets the new DOM, and the resources of the DOM are
/// interned; a window that fails stays as it is and is listed.
pub open spec fn spec_build_all(
    windows: Seq<WindowView>,
    resources: Seq<Resource>,
    sources: Seq<FetchedView>,
    count: int,
) -> Outcome
    decreases count,
{
    if count <= 0 || count > windows.len() {
        Outcome { windows, resources, failures: Seq::empty() }
    } else {
        let before = spec_build_all(windows, resources, sources, count - 1);
        let window = windows[count - 1];
        match window_outcome(sources, window) {
            Ok(dom) => Outcome {
                windows: before.windows.update(
                    count - 1,
                    WindowView { name: window.name, source_id: window.source_id, dom: Some(dom) },
                ),
                resources: intern_all(before.resources, resource_paths(dom)),
                failures: before.failures,
            },
            Err(failure) => Outcome {
                windows: before.windows,
                resources: before.resources,
                failures: before.failures.push((window.name, failure)),
            },
        }
    }
}

/// A build treats each window by itself: every window keeps its name and its
/// source, gets the DOM of its source where that builds and keeps the DOM it
/// had where it does not, whatever becomes of the other windows.
pub proof fn lemma_build_all_windows(
    windows: Seq<WindowView>,
    resources: Seq<Resource>,
    sources: Seq<FetchedView>,
    count: int,
)
    requires
        0 <= count <= windows.len(),
    ensures
        spec_build_all(windows, resources, sources, count).windows.len() == windows.len(),
        forall|i: int|
            0 <= i < count ==> #[trigger] spec_build_all(
                windows,
                resources,
                sources,
                count,
            ).windows[i] == (WindowView {
                name: windows[i].name,
                source_id: windows[i].source_id,
                dom: dom_after(sources, windows[i]),
            }),
        forall|i: int|
            count <= i < windows.len() ==> #[trigger] spec_build_all(
                windows,
                resources,
                sources,
                count,
            ).windows[i] == windows[i],
    decreases count,
{
    if count > 0 {
        lemma_build_all_windows(windows, resources, sources, count - 1);
    }
}

/// The failures of a build are those of the windows that fail, each under the
/// name of its window: a window that fails is listed, and nothing else is.
pub proof fn lemma_build_all_failures(
    windows: Seq<WindowView>,
    resources: Seq<Resource>,
    sources: Seq<FetchedView>,
    count: int,
)
    requires
        0 <= count <= windows.len(),
    ensures
        forall|i: int|
            0 <= i < count && window_outcome(sources, #[trigger] windows[i]) is Err
                ==> spec_build_all(windows, resources, sources, count).failures.contains(
                (windows[i].name, window_outcome(sources, windows[i])->Err_0),
            ),
        forall|k: int|
            0 <= k < spec_build_all(windows, resources, sources, count).failures.len()
                ==> fails_among(
                windows,
                sources,
                count,
                #[trigger] spec_build_all(windows, resources, sources, count).failures[k],
            ),
        spec_build_all(windows, resources, sources, count).failures.len() <= count,
    decreases count,
{
    if count > 0 {
        lemma_build_all_failures(windows, resources, sources, count - 1);
        let before = spec_build_all(windows, resources, sources, count - 1).failures;
        let after = spec_build_all(windows, resources, sources, count).failures;
        let last = windows[count - 1];
        assert forall|i: int|
            0 <= i < count && window_outcome(sources, #[trigger] windows[i]) is Err implies after.contains(
            (windows[i].name, window_outcome(sources, windows[i])->Err_0),
        ) by {
            let wanted = (windows[i].name, window_outcome(sources, windows[i])->Err_0);
            if i < count - 1 {
                assert(before.contains(wanted));
                let k = choose|k: int| 0 <= k < before.len() && before[k] == wanted;
                assert(after[k] == wanted);
            } else {
                assert(after[after.len() - 1] == wanted);
            }
        }
        assert forall|k: int| 0 <= k < after.len() implies fails_among(
            windows,
            sources,
            count,
            #[trigger] after[k],
        ) by {
            if k < before.len() {
                assert(fails_among(windows, sources, count - 1, before[k]));
                let i = choose|i: int|
                    0 <= i < count - 1 && #[trigger] window_outcome(sources, windows[i]) is Err
                        && before[k] == (
                        windows[i].name,
                        window_outcome(sources, windows[i])->Err_0,
                    );
                assert(window_outcome(sources, windows[i]) is Err);
            } else {
                assert(window_outcome(sources, windows[count - 1]) is Err);
            }
        }
    }
}

/// A build lists no failure exactly if every window is built.
pub proof fn lemma_build_all_succeeds(
    windows: Seq<WindowView>,
    resources: Seq<Resource>,
    sources: Seq<FetchedView>,
    count: int,
)
    requires
        0 <= count <= windows.len(),
    ensures
        spec_build_all(windows, resources, sources, count).failures.len() == 0 <==> forall|i: int|
            0 <= i < count ==> window_outcome(sources, #[trigger] windows[i]) is Ok,
{
    lemma_build_all_failures(windows, resources, sources, count);
    let failures = spec_build_all(windows, resources, sources, count).failures;
    if failures.len() > 0 {
        assert(fails_among(windows, sources, count, failures[0]));
    }
    if exists|i: int| 0 <= i < count && window_outcome(sources, #[trigger] windows[i]) is Err {
        let i = choose|i: int|
            0 <= i < count && window_outcome(sources, #[trigger] windows[i]) is Err;
        assert(failures.contains((windows[i].name, window_outcome(sources, windows[i])->Err_0)));
    }
}

/// A build keeps the resources that were cached, in their places, caches no
/// path twice, and leaves in the cache every resource of every DOM that it
/// built.
pub proof fn lemma_build_all_resources(
    windows: Seq<WindowView>,
    resources: Seq<Resource>,
    sources: Seq<FetchedView>,
    count: int,
)
    requires
        0 <= count <= windows.len(),
    ensures
        resources.len() <= spec_build_all(windows, resources, sources, count).resources.len(),
        forall|j: int|
            0 <= j < resources.len() ==> spec_build_all(
                windows,
                resources,
                sources,
                count,
            ).resources[j] == resources[j],
        forall|path: Seq<u8>|
            has_path(resources, path) ==> #[trigger] has_path(
                spec_build_all(windows, resources, sources, count).resources,
                path,
            ),
        distinct_paths(resources) ==> distinct_paths(
            spec_build_all(windows, resources, sources, count).resources,
        ),
        forall|i: int, k: int|
            0 <= i < count && window_outcome(sources, windows[i]) is Ok && 0 <= k < resource_paths(
                window_outcome(sources, windows[i])->Ok_0,
            ).len() ==> has_path(
                spec_build_all(windows, resources, sources, count).resources,
                #[trigger] resource_paths(window_outcome(sources, windows[i])->Ok_0)[k],
            ),
    decreases count,
{
    if count > 0 {
        lemma_build_all_resources(windows, resources, sources, count - 1);
        let before = spec_build_all(windows, resources, sources, count - 1).resources;
        let after = spec_build_all(windows, resources, sources, count).resources;
        match window_outcome(sources, windows[count - 1]) {
            Err(_) => {},
            Ok(dom) => {
                lemma_intern_all(before, resource_paths(dom));
                assert forall|path: Seq<u8>| has_path(resources, path) implies #[trigger] has_path(
                    after,
                    path,
                ) by {
                    assert(has_path(before, path));
                }
                assert forall|i: int, k: int|
                    0 <= i < count && window_outcome(sources, windows[i]) is Ok && 0 <= k
                        < resource_paths(
                        window_outcome(sources, windows[i])->Ok_0,
                    ).len() implies has_path(
                    after,
                    #[trigger] resource_paths(window_outcome(sources, windows[i])->Ok_0)[k],
                ) by {
                    let path = resource_paths(window_outcome(sources, windows[i])->Ok_0)[k];
                    if i < count - 1 {
                        assert(has_path(before, path));
                    }
                }
            },
        }
    }
}

/// Building twice from the same fetches is building once: the second build
/// leaves every DOM and the resource cache as the first one left them, and
/// lists the same failures.
pub proof fn lemma_build_all_idempotent(
    windows: Seq<WindowView>,
    resources: Seq<Resource>,
    sources: Seq<FetchedView>,
)
    ensures
        ({
            let once = spec_build_all(windows, resources, sources, windows.len() as int);
            spec_build_all(once.windows, once.resources, sources, once.windows.len() as int)
                == once
        }),
{
    let total = windows.len() as int;
    lemma_build_all_windows(windows, resources, sources, total);
    lemma_build_again(windows, resources, sources, total);
}

proof fn lemma_build_again(
    windows: Seq<WindowView>,
    resources: Seq<Resource>,
    sources: Seq<FetchedView>,
    count: int,
)
    requires
        0 <= count <= windows.len(),
    ensures
        ({
            let once = spec_build_all(windows, resources, sources, windows.len() as int);
            spec_build_all(once.windows, once.resources, sources, count) == (Outcome {
                windows: once.windows,
                resources: once.resources,
                failures: spec_build_all(windows, resources, sources, count).failures,
            })
        }),
    decreases count,
{
    let total = windows.len() as int;
    let once = spec_build_all(windows, resources, sources, total);
    lemma_build_all_windows(windows, resources, sources, total);
    if count > 0 {
        lemma_build_again(windows, resources, sources, count - 1);
        let before = spec_build_all(once.windows, once.resources, sources, count - 1);
        let again = once.windows[count - 1];
        assert(again.source_id == windows[count - 1].source_id);
        assert(window_outcome(sources, again) == window_outcome(sources, windows[count - 1]));
        match window_outcome(sources, again) {
            Err(_) => {},
            Ok(dom) => {
                assert(before.windows.update(count - 1, again) =~= once.windows);
                lemma_build_all_resources(windows, resources, sources, total);
                assert forall|k: int| 0 <= k < resource_paths(dom).len() implies has_path(
                    once.resources,
                    #[trigger] resource_paths(dom)[k],
                ) by {
                    assert(resource_paths(window_outcome(sources, windows[count - 1])->Ok_0)[k]
                        == resource_paths(dom)[k]);
                }
                lemma_intern_all_again(once.resources, resource_paths(dom));
            },
        }
    }
}

/// Markup that parses to an accepted tree gives a published DOM: the build
/// succeeds, and no property of any node is unset.
pub proof fn lemma_round_trip(markup: Seq<u8>)
    requires
        spec_parse(markup) matches Ok(tree) && accepted(tree),
    ensures
        spec_window(Some(Ok(markup))) matches Ok(dom) && published(dom, Seq::empty()),
{
    let tree = spec_parse(markup)->Ok_0;
    lemma_build_accepts(tree, Map::empty(), Seq::empty());
    lemma_build_published(tree, Map::empty(), Seq::empty());
}

/// Takes the outcome of one fetch through parsing, type resolution and DOM
/// construction, and interns the resources of the DOM. On a failure the cache
/// stays as it was.
pub fn build_window(
    fetched: Option<&Result<Vec<u8>, IoError>>,
    context: &TypeContext,
    cache: &mut ResourceCache,
) -> (r: Result<DomNode, BuildError>)
    ensures
        match r {
            Ok(dom) => spec_window(fetched_view(fetched)) == Ok::<DomTree, BuildFailure>(dom@)
                && final(cache)@ == intern_all(old(cache)@, resource_paths(dom@)) && published(
                dom@,
                Seq::empty(),
            ),
            Err(error) => spec_window(fetched_view(fetched)) == Err::<DomTree, BuildFailure>(
                error@,
            ) && final(cache)@ == old(cache)@,
        },
        distinct_paths(final(cache)@),
{
    cache.paths_are_distinct();
    match fetched {
        None => Err(BuildError::SourceMissing),
        Some(outcome) => match outcome {
            Err(error) => Err(BuildError::SourceUnavailable(error.clone())),
            Ok(markup) => match parse(markup.as_slice()) {
                Err(error) => Err(BuildError::MarkupRejected(error)),
                Ok(tree) => {
                    let inherited = StyleRecord::new();
                    build(&tree, &inherited, context, cache)
                },
            },
        },
    }
}

/// The mathematical value of the outcome of a fetch.
pub open spec fn fetched_view(fetched: Option<&Result<Vec<u8>, IoError>>) -> Option<
    Result<Seq<u8>, Seq<u8>>,
> {
    match fetched {
        None => None,
        Some(Ok(markup)) => Some(Ok(markup@)),
        Some(Err(error)) => Some(Err(error@)),
    }
}

impl LayoutSystem {
    #[verifier::type_invariant]
    spec fn holds_a_registry(self) -> bool {
        registry(self@.windows)
    }

    /// A layout system without windows.
    pub fn new() -> (r: LayoutSystem)
        ensures
            r@.windows == Seq::<WindowView>::empty(),
            r@.resources == Seq::<Resource>::empty(),
    {
        let r = LayoutSystem { entries: Vec::new(), cache: ResourceCache::new() };
        assert(r@.windows =~= Seq::<WindowView>::empty());
        r
    }

    /// States what holds of every layout system: no two windows have the same
    /// name, every DOM is published, and no resource is cached twice. It does
    /// nothing when run.
    pub fn is_a_registry(&self)
        ensures
            registry(self@.windows),
            distinct_paths(self@.resources),
    {
        proof {
            use_type_invariant(self);
        }
        self.cache.paths_are_distinct();
    }

    fn find(&self, name: &[u8]) -> (r: Option<usize>)
        ensures
            match r {
                Some(i) => i < self.entries@.len() && self@.windows[i as int].name == name@ && i
                    == window_index(self@.windows, name@) && has_window(self@.windows, name@),
                None => !has_window(self@.windows, name@),
            },
    {
        proof {
            use_type_invariant(self);
        }
        let mut i: usize = 0;
        while i < self.entries.len()
            invariant
                i <= self.entries.len(),
                registry(self@.windows),
                forall|k: int| 0 <= k < i ==> (#[trigger] self@.windows[k]).name != name@,
            decreases self.entries.len() - i,
        {
            if same_bytes(self.entries[i].name.as_slice(), name) {
                proof {
                    let windows = self@.windows;
                    assert(windows[i as int].name == name@);
                    let k = window_index(windows, name@);
                    if k < i {
                        assert(windows[k].name != windows[i as int].name);
                    } else if i < k {
                        assert(windows[i as int].name != windows[k].name);
                    }
                }
                return Some(i);
            }
            i += 1;
        }
        None
    }

    /// Registers a window under `name`, with the identifier of the source of
    /// its markup. The window has no DOM until it is built.
    pub fn register_window(&mut self, name: &[u8], source_id: &[u8]) -> (r: Result<
        (),
        OrchestratorError,
    >)
        ensures
            match r {
                Ok(()) => !has_window(old(self)@.windows, name@) && final(self)@.windows == old(
                    self,
                )@.windows.push(WindowView { name: name@, source_id: source_id@, dom: None }),
                Err(error) => error == OrchestratorError::DuplicateName && has_window(
                    old(self)@.windows,
                    name@,
                ) && final(self)@.windows == old(self)@.windows,
            },
            final(self)@.resources == old(self)@.resources,
            registry(final(self)@.windows),
    {
        proof {
            use_type_invariant(&*self);
        }
        match self.find(name) {
            Some(_) => Err(OrchestratorError::DuplicateName),
            None => {
                let ghost before = self@.windows;
                let mut entries: Vec<WindowEntry> = Vec::new();
                core::mem::swap(&mut entries, &mut self.entries);
                let entry = WindowEntry {
                    name: copy_bytes(name),
                    source_id: copy_bytes(source_id),
                    dom: None,
                };
                entries.push(entry);
                proof {
                    let after = windows_of(entries@);
                    assert(after =~= before.push(entry@));
                    assert forall|i: int, j: int| 0 <= i < j < after.len() implies (
                    #[trigger] after[i]).name != (#[trigger] after[j]).name by {
                        if j < before.len() {
                            assert(before[i].name != before[j].name);
                        } else {
                            assert(before[i].name != name@);
                        }
                    }
                    assert forall|i: int|
                        0 <= i < after.len() && (#[trigger] after[i]).dom is Some implies published(
                        after[i].dom->0,
                        Seq::empty(),
                    ) by {
                        assert(after[i] == before[i]);
                    }
                }
                self.entries = entries;
                Ok(())
            },
        }
    }

    /// The DOM of the window called `name`: the one of its last successful
    /// build. `None` where no window has that name or none of its builds
    /// succeeded. Nothing is built on reading.
    pub fn get_dom(&self, name: &[u8]) -> (r: Option<&DomNode>)
        ensures
            match r {
                Some(dom) => has_window(self@.windows, name@) && self@.windows[window_index(
                    self@.windows,
                    name@,
                )].dom == Some(dom@) && published(dom@, Seq::empty()),
                None => !has_window(self@.windows, name@) || self@.windows[window_index(
                    self@.windows,
                    name@,
                )].dom is None,
            },
    {
        proof {
            use_type_invariant(self);
        }
        match self.find(name) {
            None => None,
            Some(index) => self.entries[index].dom.as_ref(),
        }
    }

    /// The number of windows.
    pub fn window_count(&self) -> (r: usize)
        ensures
            r == self@.windows.len(),
    {
        self.entries.len()
    }

    /// The window at a position, in the order of registration.
    pub fn window(&self, index: usize) -> (r: Option<&WindowEntry>)
        ensures
            match r {
                Some(entry) => index < self@.windows.len() && entry@ == self@.windows[index as int],
                None => index >= self@.windows.len(),
            },
    {
        if index < self.entries.len() {
            Some(&self.entries[index])
        } else {
            None
        }
    }

    /// The resource cache that the builds share.
    pub fn resources(&self) -> (r: &ResourceCache)
        ensures
            r@ == self@.resources,
    {
        &self.cache
    }

    /// Records what the host reports of the load of a resource. Returns
    /// whether the path was interned; a report on a path that was not is
    /// dropped.
    pub fn mark_loaded(&mut self, path: &[u8], result: LoadResult) -> (known: bool)
        ensures
            final(self)@.resources == spec_mark(old(self)@.resources, path@, result),
            final(self)@.windows == old(self)@.windows,
            known == has_path(old(self)@.resources, path@),
    {
        proof {
            use_type_invariant(&*self);
        }
        let mut cache = ResourceCache::new();
        core::mem::swap(&mut cache, &mut self.cache);
        let known = cache.mark_loaded(path, result);
        self.cache = cache;
        known
    }

    /// Builds the window called `name` anew from the outcomes of the fetches,
    /// and no other window. Returns `None` where no window has that name;
    /// else whether the build succeeded. A window whose build fails keeps the
    /// DOM it had.
    pub fn rebuild_window(&mut self, name: &[u8], sources: &FetchedSources) -> (r: Option<
        Result<(), BuildError>,
    >)
        ensures
            match r {
                None => !has_window(old(self)@.windows, name@) && final(self)@ == old(self)@,
                Some(Ok(())) => ({
                    let windows = old(self)@.windows;
                    let index = window_index(windows, name@);
                    &&& has_window(windows, name@)
                    &&& window_outcome(sources@, windows[index]) is Ok
                    &&& final(self)@.windows == windows.update(
                        index,
                        WindowView {
                            name: windows[index].name,
                            source_id: windows[index].source_id,
                            dom: dom_after(sources@, windows[index]),
                        },
                    )
                    &&& final(self)@.resources == intern_all(
                        old(self)@.resources,
                        resource_paths(window_outcome(sources@, windows[index])->Ok_0),
                    )
                }),
                Some(Err(error)) => ({
                    let windows = old(self)@.windows;
                    &&& has_window(windows, name@)
                    &&& window_outcome(sources@, windows[window_index(windows, name@)]) == Err::<
                        DomTree,
                        BuildFailure,
                    >(error@)
                    &&& final(self)@ == old(self)@
                }),
            },
            registry(final(self)@.windows),
            distinct_paths(final(self)@.resources),
    {
        proof {
            use_type_invariant(&*self);
        }
        self.cache.paths_are_distinct();
        let index = match self.find(name) {
            None => {
                return None;
            },
            Some(index) => index,
        };
        let ghost before = self@.windows;
        let context = TypeContext::new();
        let mut entries: Vec<WindowEntry> = Vec::new();
        core::mem::swap(&mut entries, &mut self.entries);
        let mut cache = ResourceCache::new();
        core::mem::swap(&mut cache, &mut self.cache);
        assert(before[index as int] == entries@[index as int]@);
        let fetched = sources.get(entries[index].source_id.as_slice());
        let outcome = match build_window(fetched, &context, &mut cache) {
            Ok(dom) => {
                let ghost built = dom@;
                entries[index].dom = Some(dom);
                proof {
                    let after = windows_of(entries@);
                    assert(after =~= before.update(
                        index as int,
                        WindowView {
                            name: before[index as int].name,
                            source_id: before[index as int].source_id,
                            dom: Some(built),
                        },
                    ));
                    assert forall|a: int, b: int| 0 <= a < b < after.len() implies (
                    #[trigger] after[a]).name != (#[trigger] after[b]).name by {
                        assert(before[a].name != before[b].name);
                    }
                    assert forall|k: int|
                        0 <= k < after.len() && (#[trigger] after[k]).dom is Some implies published(
                        after[k].dom->0,
                        Seq::empty(),
                    ) by {
                        if k != index {
                            assert(after[k] == before[k]);
                        }
                    }
                }
                Ok(())
            },
            Err(error) => {
                assert(windows_of(entries@) =~= before);
                Err(error)
            },
        };
        self.entries = entries;
        self.cache = cache;
        Some(outcome)
    }

    /// Builds every window from the outcomes of the fetches, in the order of
    /// registration. Returns the failures, each with the name of its window,
    /// if there are any.
    pub fn build_all(&mut self, sources: &FetchedSources) -> (r: Result<
        (),
        Vec<(Vec<u8>, BuildError)>,
    >)
        ensures
            ({
                let outcome = spec_build_all(
                    old(self)@.windows,
                    old(self)@.resources,
                    sources@,
                    old(self)@.windows.len() as int,
                );
                &&& final(self)@.windows == outcome.windows
                &&& final(self)@.resources == outcome.resources
                &&& match r {
                    Ok(()) => outcome.failures.len() == 0,
                    Err(failures) => failures@.len() > 0 && failures_of(failures@)
                        == outcome.failures,
                }
            }),
            final(self)@.windows.len() == old(self)@.windows.len(),
            forall|i: int|
                0 <= i < old(self)@.windows.len() ==> #[trigger] final(self)@.windows[i] == (
                WindowView {
                    name: old(self)@.windows[i].name,
                    source_id: old(self)@.windows[i].source_id,
                    dom: dom_after(sources@, old(self)@.windows[i]),
                }),
            r is Ok <==> forall|i: int|
                0 <= i < old(self)@.windows.len() ==> window_outcome(
                    sources@,
                    #[trigger] old(self)@.windows[i],
                ) is Ok,
            registry(final(self)@.windows),
            distinct_paths(final(self)@.resources),
    {
        proof {
            use_type_invariant(&*self);
        }
        let ghost windows = self@.windows;
        let ghost resources = self@.resources;
        proof {
            lemma_build_all_windows(windows, resources, sources@, windows.len() as int);
            lemma_build_all_succeeds(windows, resources, sources@, windows.len() as int);
        }
        let context = TypeContext::new();
        let mut entries: Vec<WindowEntry> = Vec::new();
        core::mem::swap(&mut entries, &mut self.entries);
        let mut cache = ResourceCache::new();
        core::mem::swap(&mut cache, &mut self.cache);
        cache.paths_are_distinct();
        let mut failures: Vec<(Vec<u8>, BuildError)> = Vec::new();
        let mut i: usize = 0;
        assert(failures_of(failures@) =~= Seq::empty());
        while i < entries.len()
            invariant
                i <= entries.len(),
                entries.len() == windows.len(),
                registry(windows_of(entries@)),
                distinct_paths(cache@),
                forall|k: int| i <= k < windows.len() ==> (#[trigger] windows_of(entries@)[k]) == windows[k],
                spec_build_all(windows, resources, sources@, i as int) == (Outcome {
                    windows: windows_of(entries@),
                    resources: cache@,
                    failures: failures_of(failures@),
                }),
            decreases entries.len() - i,
        {
            let ghost before = windows_of(entries@);
            let ghost listed = failures_of(failures@);
            assert(before[i as int] == windows[i as int]);
            let fetched = sources.get(entries[i].source_id.as_slice());
            match build_window(fetched, &context, &mut cache) {
                Ok(dom) => {
                    let ghost built = dom@;
                    entries[i].dom = Some(dom);
                    proof {
                        let after = windows_of(entries@);
                        assert(after =~= before.update(
                            i as int,
                            WindowView {
                                name: windows[i as int].name,
                                source_id: windows[i as int].source_id,
                                dom: Some(built),
                            },
                        ));
                        assert forall|a: int, b: int| 0 <= a < b < after.len() implies (
                        #[trigger] after[a]).name != (#[trigger] after[b]).name by {
                            assert(before[a].name != before[b].name);
                        }
                        assert forall|k: int|
                            0 <= k < after.len() && (#[trigger] after[k]).dom is Some implies published(
                            after[k].dom->0,
                            Seq::empty(),
                        ) by {
                            if k != i {
                                assert(after[k] == before[k]);
                            }
                        }
                    }
                },
                Err(error) => {
                    let name = copy_bytes(entries[i].name.as_slice());
                    failures.push((name, error));
                    assert(failures_of(failures@) =~= listed.push((windows[i as int].name, error@)));
                },
            }
            i += 1;
        }
        self.entries = entries;
        self.cache = cache;
        if failures.len() == 0 {
            Ok(())
        } else {
            Err(failures)
        }
    }
}

} // verus!
