//! Following changes on disk.
//!
//! Changes are collected until none has come for a while, and then brought into
//! the index together. What waits for them and looks at the disk hands over plain
//! values; what is decided here are the steps between.
use vstd::prelude::*;
use crate::config::ignored_extension;
use crate::index::call_site_cache::{cache_after_calls, call_sites, extract_call_site_facts};
use crate::index::file_entry::{
    new_entry, parsed_language, FileEntry, FileEntryView, Language, Timestamp,
};
use crate::index::file_tree::{
    with_extracted, with_file, with_sites, without_path, FileTree, FileTreeView,
};
use crate::index::watch_filter::{
    follows, is_askable, may_change_file, path_view, should_process_event_kind, EventKind,
    FilterView, WatchPathFilter,
};
use crate::sorting::{law_ordered_names, order_names, ordered_names};
use crate::sources::{read_of, ReadView, Sources};
use crate::symbols::parser::{
    cache_after_extraction, extract_symbols_from_file, extraction, insert_symbols, with_symbols,
};
use crate::symbols::queries::{config_of, ConfigView, LanguageConfigs, Queries, QueryCache};
use crate::symbols::symbol::SymbolView;
use crate::symbols::table::{well_keyed, without_file, SymbolTable};
use crate::text::{same, views};

verus! {

// ---------------------------------------------------------------------------
// Collecting changes
// ---------------------------------------------------------------------------

/// How long changes are waited for once some are pending, in milliseconds.
pub const DEBOUNCE_MILLIS: u64 = 500;

/// How long to wait for the next message.
#[derive(Debug, Clone, Copy, PartialEq, Eq, Structural)]
pub enum Wait {
    /// Until there is one.
    Forever,
    /// That many milliseconds.
    Millis(u64),
}

/// A path that changed: its path below the project, nothing for what is outside of
/// it, and whether it is a directory.
#[derive(Debug, PartialEq, Eq)]
pub struct ChangedPath {
    pub rel_path: Option<String>,
    pub is_dir: bool,
}

/// What came of waiting for a message.
#[derive(Debug, PartialEq, Eq)]
pub enum Received {
    /// Paths that changed.
    Event(Vec<ChangedPath>),
    /// The watcher reported an error.
    Failed,
    /// The order to stop.
    Shutdown,
    /// Nobody can send a message any more.
    Disconnected,
    /// No message came in time.
    TimedOut,
}

/// What is to be done next.
#[derive(Debug, PartialEq, Eq)]
pub enum DebounceStep {
    /// Wait for the next message.
    Continue,
    /// Report the error, then wait.
    Report,
    /// Bring the changes of these paths into the index, then wait.
    Flush(Vec<String>),
    /// Stop.
    Stop,
}

/// The paths that changed and have not been brought into the index.
pub struct Debouncer {
    pending: Vec<String>,
}

impl View for Debouncer {
    type V = Set<Seq<char>>;

    closed spec fn view(&self) -> Set<Seq<char>> {
        views(self.pending@).to_set()
    }
}

/// Every path can be asked about.
pub open spec fn all_askable(root: Seq<char>, paths: Seq<ChangedPath>) -> bool {
    forall|i: int|
        0 <= i < paths.len() ==> is_askable(root, path_view((#[trigger] paths[i]).rel_path))
}

/// The paths of a list that are followed.
pub open spec fn followed(filter: FilterView, paths: Seq<ChangedPath>) -> Set<Seq<char>> {
    Set::new(
        |p: Seq<char>|
            exists|i: int|
                0 <= i < paths.len() && path_view((#[trigger] paths[i]).rel_path) == Some(p)
                    && follows(filter, Some(p), paths[i].is_dir),
    )
}

/// What waiting for a message was about, after which nothing is pending any more or
/// only more is.
pub open spec fn pending_after(
    pending: Set<Seq<char>>,
    filter: FilterView,
    received: Received,
) -> Set<Seq<char>> {
    match received {
        Received::Event(paths) => pending.union(followed(filter, paths@)),
        Received::TimedOut => Set::empty(),
        _ => pending,
    }
}

/// The step is the one that a message asks for. A flush brings each pending path
/// once, in order.
pub open spec fn is_step(step: DebounceStep, pending: Set<Seq<char>>, received: Received) -> bool {
    match received {
        Received::Event(_) => step is Continue,
        Received::Failed => step is Report,
        Received::Shutdown | Received::Disconnected => step is Stop,
        Received::TimedOut => if pending == Set::<Seq<char>>::empty() {
            step is Continue
        } else {
            step matches DebounceStep::Flush(paths) && views(paths@) == ordered_names(views(paths@))
                && views(paths@).to_set() == pending
        },
    }
}

impl Debouncer {
    /// Nothing pending.
    pub fn new() -> (r: Self)
        ensures
            r@ == Set::<Seq<char>>::empty(),
    {
        let r = Debouncer { pending: Vec::new() };
        assert(views(r.pending@).len() == 0);
        assert(r@ =~= Set::<Seq<char>>::empty());
        r
    }

    /// How long to wait for the next message: as long as it takes where nothing is
    /// pending.
    pub fn wait(&self) -> (r: Wait)
        ensures
            r == (if self@ == Set::<Seq<char>>::empty() {
                Wait::Forever
            } else {
                Wait::Millis(DEBOUNCE_MILLIS)
            }),
    {
        if self.pending.len() == 0 {
            assert(self@ =~= Set::<Seq<char>>::empty());
            Wait::Forever
        } else {
            assert(views(self.pending@).contains(views(self.pending@)[0]));
            assert(self@.contains(views(self.pending@)[0]));
            Wait::Millis(DEBOUNCE_MILLIS)
        }
    }

    /// Adds the paths that are followed.
    fn add(&mut self, filter: &WatchPathFilter, paths: &Vec<ChangedPath>)
        requires
            all_askable(filter@.root, paths@),
        ensures
            final(self)@ == old(self)@.union(followed(filter@, paths@)),
    {
        let ghost before = self@;
        let mut i: usize = 0;
        assert(before.union(followed(filter@, paths@.take(0))) =~= before);
        while i < paths.len()
            invariant
                i <= paths@.len(),
                all_askable(filter@.root, paths@),
                self@ == before.union(followed(filter@, paths@.take(i as int))),
            decreases paths@.len() - i,
        {
            let ghost seen = paths@.take(i as int);
            let ghost next = paths@.take(i + 1);
            let ghost old_pending = views(self.pending@);
            let ghost old_view = self@;
            let path = &paths[i];
            assert(is_askable(filter@.root, path_view(paths@[i as int].rel_path)));
            let follow = filter.should_process(&path.rel_path, path.is_dir);
            let ghost f_seen = followed(filter@, seen);
            let ghost f_next = followed(filter@, next);
            proof {
                assert forall|p: Seq<char>| #[trigger] f_next.contains(p) <==> (f_seen.contains(p)
                    || (path_view(path.rel_path) == Some(p) && follow)) by {
                    if f_next.contains(p) {
                        let k = choose|k: int|
                            0 <= k < next.len() && path_view((#[trigger] next[k]).rel_path) == Some(
                                p,
                            ) && follows(filter@, Some(p), next[k].is_dir);
                        if k < i {
                            assert(seen[k] == next[k]);
                        }
                    }
                    if f_seen.contains(p) {
                        let k = choose|k: int|
                            0 <= k < seen.len() && path_view((#[trigger] seen[k]).rel_path) == Some(
                                p,
                            ) && follows(filter@, Some(p), seen[k].is_dir);
                        assert(next[k] == seen[k]);
                    }
                    if path_view(path.rel_path) == Some(p) && follow {
                        assert(next[i as int] == *path);
                    }
                }
            }
            if follow {
                match &path.rel_path {
                    Some(p) => {
                        self.pending.push(p.clone());
                        proof {
                            let now = views(self.pending@);
                            assert(now =~= old_pending.push(p@));
                            assert forall|x: Seq<char>| #[trigger] now.contains(x)
                                <==> old_pending.contains(x) || x == p@ by {
                                if now.contains(x) {
                                    let k = choose|k: int| 0 <= k < now.len() && now[k] == x;
                                    if k < old_pending.len() {
                                        assert(old_pending[k] == x);
                                    }
                                }
                                if old_pending.contains(x) {
                                    let k = choose|k: int|
                                        0 <= k < old_pending.len() && old_pending[k] == x;
                                    assert(now[k] == x);
                                }
                                if x == p@ {
                                    assert(now.last() == x);
                                }
                            }
                            assert forall|x: Seq<char>| #[trigger] self@.contains(x)
                                <==> old_view.contains(x) || x == p@ by {
                                assert(now.contains(x) <==> old_pending.contains(x) || x == p@);
                            }
                        }
                    },
                    None => {},
                }
            }
            assert forall|x: Seq<char>| #[trigger] self@.contains(x) <==> before.union(
                f_next,
            ).contains(x) by {
                assert(f_next.contains(x) <==> (f_seen.contains(x) || (path_view(path.rel_path)
                    == Some(x) && follow)));
                assert(old_view.contains(x) <==> before.contains(x) || f_seen.contains(x));
            }
            assert(self@ =~= before.union(f_next));
            i = i + 1;
        }
        assert(paths@.take(i as int) =~= paths@);
    }

    /// Takes all pending paths out: each once, in order.
    fn take(&mut self) -> (r: Vec<String>)
        ensures
            views(r@) == ordered_names(views(r@)),
            views(r@).to_set() == old(self)@,
            final(self)@ == Set::<Seq<char>>::empty(),
    {
        let mut held: Vec<String> = Vec::new();
        let ghost before = views(self.pending@);
        std::mem::swap(&mut held, &mut self.pending);
        let r = order_names(held);
        proof {
            law_ordered_names(before);
            crate::sorting::law_ordering_twice(before);
            assert(views(self.pending@).len() == 0);
            assert(self@ =~= Set::<Seq<char>>::empty());
            assert forall|p: Seq<char>| views(r@).to_set().contains(p) <==> before.to_set().contains(
                p,
            ) by {
                assert(ordered_names(before).contains(p) <==> before.contains(p));
            }
            assert(views(r@).to_set() =~= before.to_set());
        }
        r
    }

    /// Takes note of what came of waiting, and says what is to be done next.
    pub fn step(&mut self, filter: &WatchPathFilter, received: Received) -> (r: DebounceStep)
        requires
            received matches Received::Event(paths) ==> all_askable(filter@.root, paths@),
        ensures
            final(self)@ == pending_after(old(self)@, filter@, received),
            is_step(r, old(self)@, received),
    {
        match received {
            Received::Event(paths) => {
                self.add(filter, &paths);
                DebounceStep::Continue
            },
            Received::Failed => DebounceStep::Report,
            Received::Shutdown | Received::Disconnected => DebounceStep::Stop,
            Received::TimedOut => {
                if self.pending.len() == 0 {
                    assert(self@ =~= Set::<Seq<char>>::empty());
                    DebounceStep::Continue
                } else {
                    assert(views(self.pending@).contains(views(self.pending@)[0]));
                    assert(self@.contains(views(self.pending@)[0]));
                    DebounceStep::Flush(self.take())
                }
            },
        }
    }
}

/// The paths of an event that are worth a message: where the event may have changed
/// files, those that are followed.
pub open spec fn relevant(
    filter: FilterView,
    kind: EventKind,
    paths: Seq<ChangedPath>,
) -> Seq<Seq<char>>
    decreases paths.len(),
{
    if paths.len() == 0 {
        Seq::empty()
    } else {
        let before = relevant(filter, kind, paths.drop_last());
        match path_view(paths.last().rel_path) {
            Some(p) => if may_change_file(kind) && follows(filter, Some(p), paths.last().is_dir) {
                before.push(p)
            } else {
                before
            },
            None => before,
        }
    }
}

/// The paths of an event that are worth a message.
pub fn relevant_paths(
    filter: &WatchPathFilter,
    kind: &EventKind,
    paths: &Vec<ChangedPath>,
) -> (r: Vec<String>)
    requires
        all_askable(filter@.root, paths@),
    ensures
        views(r@) == relevant(filter@, *kind, paths@),
{
    let wanted = should_process_event_kind(kind);
    let mut out: Vec<String> = Vec::new();
    let mut i: usize = 0;
    assert(paths@.take(0) =~= Seq::empty());
    assert(views(out@) =~= Seq::empty());
    while i < paths.len()
        invariant
            i <= paths@.len(),
            all_askable(filter@.root, paths@),
            wanted == may_change_file(*kind),
            views(out@) == relevant(filter@, *kind, paths@.take(i as int)),
        decreases paths@.len() - i,
    {
        let ghost before = views(out@);
        assert(paths@.take(i + 1).drop_last() =~= paths@.take(i as int));
        assert(paths@.take(i + 1).last() == paths@[i as int]);
        assert(is_askable(filter@.root, path_view(paths@[i as int].rel_path)));
        let follow = filter.should_process(&paths[i].rel_path, paths[i].is_dir);
        match &paths[i].rel_path {
            Some(p) => if wanted && follow {
                out.push(p.clone());
                assert(views(out@) =~= before.push(p@));
            },
            None => {},
        }
        i = i + 1;
    }
    assert(paths@.take(i as int) =~= paths@);
    out
}

// ---------------------------------------------------------------------------
// Bringing changes into the index
// ---------------------------------------------------------------------------

/// Size and time of change of a file.
#[derive(Debug, Clone, Copy, PartialEq, Eq, Structural)]
pub struct FileMeta {
    pub size: u64,
    pub modified: Timestamp,
}

/// What is on disk at a path.
#[derive(Debug, Clone, Copy, PartialEq, Eq, Structural)]
pub enum DiskState {
    /// A file, with its metadata where they can be had.
    File(Option<FileMeta>),
    /// Nothing.
    Missing,
    /// Something else.
    Other,
}

/// A change on disk: the path below the project, nothing for what is outside of it,
/// whether it is a directory, and what is there.
#[derive(Debug, PartialEq, Eq)]
pub struct WatchEvent {
    pub rel_path: Option<String>,
    pub is_dir: bool,
    pub disk: DiskState,
}

impl WatchEvent {
    /// A change on disk.
    pub fn new(rel_path: Option<String>, is_dir: bool, disk: DiskState) -> (r: Self)
        ensures
            r == (WatchEvent { rel_path, is_dir, disk }),
    {
        WatchEvent { rel_path, is_dir, disk }
    }
}

/// How many events there were, and what came of them.
#[derive(Debug, Clone, Copy, PartialEq, Eq, Structural)]
pub struct WatcherEventStats {
    pub raw_events: usize,
    pub changed_files: usize,
    pub reparsed_files: usize,
    pub deleted_files: usize,
    pub removed_oversize_files: usize,
    pub skipped_events: usize,
}

/// How many events there were, and what came of them.
pub struct Counts {
    pub raw_events: nat,
    pub changed_files: nat,
    pub reparsed_files: nat,
    pub deleted_files: nat,
    pub removed_oversize_files: nat,
    pub skipped_events: nat,
}

impl View for WatcherEventStats {
    type V = Counts;

    open spec fn view(&self) -> Counts {
        Counts {
            raw_events: self.raw_events as nat,
            changed_files: self.changed_files as nat,
            reparsed_files: self.reparsed_files as nat,
            deleted_files: self.deleted_files as nat,
            removed_oversize_files: self.removed_oversize_files as nat,
            skipped_events: self.skipped_events as nat,
        }
    }
}

/// How many paths and events the counts speak of.
pub open spec fn outcomes(c: Counts) -> nat {
    c.changed_files + c.deleted_files + c.removed_oversize_files + c.skipped_events
}

impl Default for WatcherEventStats {
    fn default() -> (r: Self)
        ensures
            r@ == (Counts {
                raw_events: 0,
                changed_files: 0,
                reparsed_files: 0,
                deleted_files: 0,
                removed_oversize_files: 0,
                skipped_events: 0,
            }),
    {
        WatcherEventStats {
            raw_events: 0,
            changed_files: 0,
            reparsed_files: 0,
            deleted_files: 0,
            removed_oversize_files: 0,
            skipped_events: 0,
        }
    }
}

impl WatcherEventStats {
    /// How many paths and events the counts speak of.
    pub fn unique_paths(&self) -> (r: usize)
        requires
            outcomes(self@) <= usize::MAX,
        ensures
            r == outcomes(self@),
    {
        self.changed_files + self.deleted_files + self.removed_oversize_files + self.skipped_events
    }

    /// Whether the index was changed.
    pub fn index_changed(&self) -> (r: bool)
        ensures
            r == (self@.changed_files > 0 || self@.deleted_files > 0
                || self@.removed_oversize_files > 0),
    {
        self.changed_files > 0 || self.deleted_files > 0 || self.removed_oversize_files > 0
    }
}

/// What changes are brought into, and what was counted on the way.
pub struct Watched {
    pub cache: Queries,
    pub tree: FileTreeView,
    pub table: Map<Seq<char>, SymbolView>,
    pub counts: Counts,
}

/// What does not change while changes are brought in.
pub struct Surroundings {
    pub configs: Map<Language, ConfigView>,
    pub reads: Map<Seq<char>, ReadView>,
    pub filter: FilterView,
    pub max_file_size: u64,
}

/// A file is taken out of the index: with its symbols, where it is in the index.
pub open spec fn with_deleted(state: Watched, rel_path: Seq<char>) -> Watched {
    Watched {
        tree: without_path(state.tree, rel_path),
        table: if state.tree.files.contains_key(rel_path) {
            without_file(state.table, rel_path)
        } else {
            state.table
        },
        ..state
    }
}

/// The symbols and call sites of a file are taken anew.
pub open spec fn with_reparsed(
    state: Watched,
    around: Surroundings,
    entry: FileEntryView,
) -> Watched {
    let path = entry.rel_path;
    let config = config_of(around.configs, entry.language);
    let source = read_of(around.reads, path);
    let cache = cache_after_extraction(config, state.cache, source, entry.language);
    match extraction(config, state.cache, source, path, entry.language) {
        Ok(symbols) => {
            let (tree, cache) = match source {
                Ok(text) => (
                    match call_sites(config, cache, text, entry.language) {
                        Some(facts) => with_sites(state.tree, entry, facts),
                        None => state.tree,
                    },
                    cache_after_calls(config, cache, text, entry.language),
                ),
                Err(_) => (state.tree, cache),
            };
            Watched {
                cache,
                tree: with_extracted(tree, path),
                table: with_symbols(state.table, symbols),
                counts: Counts {
                    reparsed_files: state.counts.reparsed_files + 1,
                    ..state.counts
                },
            }
        },
        Err(_) => Watched { cache, ..state },
    }
}

/// A file has changed. Files with ignored extensions and files that are too large are
/// taken out of the index; of others the entry is renewed, and the symbols where the
/// file is parsed.
pub open spec fn with_changed(
    state: Watched,
    around: Surroundings,
    rel_path: Seq<char>,
    meta: Option<FileMeta>,
) -> Watched {
    if ignored_extension(around.filter.rules, rel_path) {
        let gone = with_deleted(state, rel_path);
        Watched {
            counts: Counts { deleted_files: state.counts.deleted_files + 1, ..state.counts },
            ..gone
        }
    } else {
        match meta {
            None => Watched {
                counts: Counts { skipped_events: state.counts.skipped_events + 1, ..state.counts },
                ..state
            },
            Some(m) => if m.size > around.max_file_size {
                let gone = with_deleted(state, rel_path);
                Watched {
                    counts: Counts {
                        removed_oversize_files: state.counts.removed_oversize_files + 1,
                        ..state.counts
                    },
                    ..gone
                }
            } else {
                let entry = new_entry(rel_path, m.size, m.modified);
                let renewed = Watched {
                    tree: with_file(state.tree, entry),
                    table: without_file(state.table, rel_path),
                    counts: Counts {
                        changed_files: state.counts.changed_files + 1,
                        ..state.counts
                    },
                    ..state
                };
                if parsed_language(entry.language) {
                    with_reparsed(renewed, around, entry)
                } else {
                    renewed
                }
            },
        }
    }
}

/// What is on disk at a path is brought into the index.
pub open spec fn with_path(
    state: Watched,
    around: Surroundings,
    rel_path: Seq<char>,
    disk: DiskState,
) -> Watched {
    match disk {
        DiskState::File(meta) => with_changed(state, around, rel_path, meta),
        DiskState::Missing => {
            let gone = with_deleted(state, rel_path);
            Watched {
                counts: Counts { deleted_files: state.counts.deleted_files + 1, ..state.counts },
                ..gone
            }
        },
        DiskState::Other => Watched {
            counts: Counts { skipped_events: state.counts.skipped_events + 1, ..state.counts },
            ..state
        },
    }
}

/// The events whose paths are followed, with what is on disk there.
pub open spec fn accepted(filter: FilterView, events: Seq<WatchEvent>) -> Seq<
    (Seq<char>, DiskState),
>
    decreases events.len(),
{
    if events.len() == 0 {
        Seq::empty()
    } else {
        let before = accepted(filter, events.drop_last());
        let e = events.last();
        match path_view(e.rel_path) {
            Some(p) => if follows(filter, Some(p), e.is_dir) {
                before.push((p, e.disk))
            } else {
                before
            },
            None => before,
        }
    }
}

/// What the last event for a path says of the disk.
pub open spec fn last_state(events: Seq<(Seq<char>, DiskState)>, path: Seq<char>) -> DiskState
    decreases events.len(),
{
    if events.len() == 0 {
        DiskState::Other
    } else if events.last().0 == path {
        events.last().1
    } else {
        last_state(events.drop_last(), path)
    }
}

/// The paths of events.
pub open spec fn event_paths(events: Seq<(Seq<char>, DiskState)>) -> Seq<Seq<char>> {
    Seq::new(events.len(), |i: int| events[i].0)
}

/// What is on disk at paths is brought into the index, path by path.
pub open spec fn with_paths(
    state: Watched,
    around: Surroundings,
    events: Seq<(Seq<char>, DiskState)>,
    paths: Seq<Seq<char>>,
) -> Watched
    decreases paths.len(),
{
    if paths.len() == 0 {
        state
    } else {
        with_path(
            with_paths(state, around, events, paths.drop_last()),
            around,
            paths.last(),
            last_state(events, paths.last()),
        )
    }
}

/// What bringing events into the index gives. Events for paths that are not followed
/// are skipped; of several for one path the last one holds; paths are brought in in
/// order.
pub open spec fn handled(
    cache: Queries,
    tree: FileTreeView,
    table: Map<Seq<char>, SymbolView>,
    around: Surroundings,
    events: Seq<WatchEvent>,
) -> Watched {
    let taken = accepted(around.filter, events);
    let start = Watched {
        cache,
        tree,
        table,
        counts: Counts {
            raw_events: events.len(),
            changed_files: 0,
            reparsed_files: 0,
            deleted_files: 0,
            removed_oversize_files: 0,
            skipped_events: (events.len() - taken.len()) as nat,
        },
    };
    with_paths(start, around, taken, ordered_names(event_paths(taken)))
}

/// Takes a file out of the index, with its symbols.
pub fn handle_file_delete(
    file_tree: &mut FileTree,
    symbol_table: &mut SymbolTable,
    rel_path: &str,
)
    ensures
        final(file_tree)@ == without_path(old(file_tree)@, rel_path@),
        final(symbol_table)@ == (if old(file_tree)@.files.contains_key(rel_path@) {
            without_file(old(symbol_table)@, rel_path@)
        } else {
            old(symbol_table)@
        }),
        well_keyed(old(symbol_table)@) ==> well_keyed(final(symbol_table)@),
{
    match file_tree.remove(rel_path) {
        Some(_) => symbol_table.remove_file(rel_path),
        None => {},
    }
}

/// Takes the symbols and call sites of a file anew. Returns whether that worked.
fn reparse(
    configs: &LanguageConfigs,
    cache: &mut QueryCache,
    sources: &Sources,
    file_tree: &mut FileTree,
    symbol_table: &mut SymbolTable,
    entry: &FileEntry,
    Ghost(around): Ghost<Surroundings>,
    Ghost(counts): Ghost<Counts>,
) -> (r: bool)
    requires
        around.configs == configs@,
        around.reads == sources@,
        parsed_language(entry.language),
        old(file_tree)@.files.contains_key(entry.rel_path@),
        old(file_tree)@.files[entry.rel_path@] == entry@,
    ensures
        ({
            let before = Watched {
                cache: old(cache)@,
                tree: old(file_tree)@,
                table: old(symbol_table)@,
                counts,
            };
            let after = with_reparsed(before, around, entry@);
            &&& final(cache)@ == after.cache
            &&& final(file_tree)@ == after.tree
            &&& final(symbol_table)@ == after.table
            &&& after.counts == (if r {
                Counts { reparsed_files: counts.reparsed_files + 1, ..counts }
            } else {
                counts
            })
        }),
        well_keyed(old(symbol_table)@) ==> well_keyed(final(symbol_table)@),
{
    let path = entry.rel_path.as_str();
    match extract_symbols_from_file(configs, cache, sources, path, entry.language) {
        Ok(symbols) => {
            insert_symbols(symbol_table, &symbols);
            match sources.read(path) {
                Ok(source) => match extract_call_site_facts(
                    configs,
                    cache,
                    source.as_str(),
                    entry.language,
                ) {
                    Some(facts) => {
                        let _ = file_tree.store_call_sites(entry, facts);
                    },
                    None => {},
                },
                Err(_) => {},
            }
            file_tree.mark_extracted(path);
            true
        },
        Err(_) => false,
    }
}

/// Brings the change of a file into the index.
pub fn handle_file_change(
    configs: &LanguageConfigs,
    cache: &mut QueryCache,
    sources: &Sources,
    filter: &WatchPathFilter,
    file_tree: &mut FileTree,
    symbol_table: &mut SymbolTable,
    max_file_size: u64,
    rel_path: &str,
    meta: Option<FileMeta>,
    stats: &mut WatcherEventStats,
)
    requires
        outcomes(old(stats)@) < usize::MAX,
        old(stats)@.reparsed_files < usize::MAX,
    ensures
        (Watched {
            cache: final(cache)@,
            tree: final(file_tree)@,
            table: final(symbol_table)@,
            counts: final(stats)@,
        }) == with_changed(
            Watched {
                cache: old(cache)@,
                tree: old(file_tree)@,
                table: old(symbol_table)@,
                counts: old(stats)@,
            },
            Surroundings {
                configs: configs@,
                reads: sources@,
                filter: filter@,
                max_file_size,
            },
            rel_path@,
            meta,
        ),
        well_keyed(old(symbol_table)@) ==> well_keyed(final(symbol_table)@),
{
    let ghost around = Surroundings {
        configs: configs@,
        reads: sources@,
        filter: filter@,
        max_file_size,
    };
    if filter.rules().should_ignore_extension(rel_path) {
        handle_file_delete(file_tree, symbol_table, rel_path);
        stats.deleted_files = stats.deleted_files + 1;
        return;
    }
    let meta = match meta {
        Some(m) => m,
        None => {
            stats.skipped_events = stats.skipped_events + 1;
            return;
        },
    };
    if meta.size > max_file_size {
        handle_file_delete(file_tree, symbol_table, rel_path);
        stats.removed_oversize_files = stats.removed_oversize_files + 1;
        return;
    }
    let entry = FileEntry::new(rel_path.to_owned(), meta.size, meta.modified);
    file_tree.insert(entry.clone());
    stats.changed_files = stats.changed_files + 1;
    symbol_table.remove_file(rel_path);
    if entry.language.has_tree_sitter_support() {
        let ghost counts = stats@;
        if reparse(
            configs,
            cache,
            sources,
            file_tree,
            symbol_table,
            &entry,
            Ghost(around),
            Ghost(counts),
        ) {
            stats.reparsed_files = stats.reparsed_files + 1;
        }
    }
}

/// The paths and states of a list.
pub open spec fn event_views(v: Seq<(String, DiskState)>) -> Seq<(Seq<char>, DiskState)> {
    Seq::new(v.len(), |i: int| (v[i].0@, v[i].1))
}

/// The events whose paths are followed, with what is on disk there.
fn accept_events(filter: &WatchPathFilter, events: &Vec<WatchEvent>) -> (r: Vec<
    (String, DiskState),
>)
    requires
        events_askable(filter@.root, events@),
    ensures
        event_views(r@) == accepted(filter@, events@),
        r@.len() <= events@.len(),
{
    let mut out: Vec<(String, DiskState)> = Vec::new();
    let mut i: usize = 0;
    assert(events@.take(0) =~= Seq::empty());
    assert(event_views(out@) =~= Seq::empty());
    while i < events.len()
        invariant
            i <= events@.len(),
            events_askable(filter@.root, events@),
            event_views(out@) == accepted(filter@, events@.take(i as int)),
            out@.len() <= i,
        decreases events@.len() - i,
    {
        let ghost before = event_views(out@);
        assert(events@.take(i + 1).drop_last() =~= events@.take(i as int));
        assert(events@.take(i + 1).last() == events@[i as int]);
        assert(is_askable(filter@.root, path_view(events@[i as int].rel_path)));
        let follow = filter.should_process(&events[i].rel_path, events[i].is_dir);
        match &events[i].rel_path {
            Some(p) => if follow {
                out.push((p.clone(), events[i].disk));
                assert(event_views(out@) =~= before.push((p@, events@[i as int].disk)));
            },
            None => {},
        }
        i = i + 1;
    }
    assert(events@.take(i as int) =~= events@);
    out
}

/// Every event can be asked about.
pub open spec fn events_askable(root: Seq<char>, events: Seq<WatchEvent>) -> bool {
    forall|i: int|
        0 <= i < events.len() ==> is_askable(root, path_view((#[trigger] events[i]).rel_path))
}

/// What the last event for a path says of the disk.
fn find_state(events: &Vec<(String, DiskState)>, path: &str) -> (r: DiskState)
    ensures
        r == last_state(event_views(events@), path@),
{
    let ghost all = event_views(events@);
    let mut n: usize = events.len();
    assert(all.take(n as int) =~= all);
    while n > 0
        invariant
            n <= events@.len(),
            all == event_views(events@),
            last_state(all, path@) == last_state(all.take(n as int), path@),
        decreases n,
    {
        assert(all.take(n as int).drop_last() =~= all.take(n - 1));
        assert(all.take(n as int).last() == all[n - 1]);
        if same(events[n - 1].0.as_str(), path) {
            return events[n - 1].1;
        }
        n = n - 1;
    }
    DiskState::Other
}

/// The paths of events.
fn copy_paths(events: &Vec<(String, DiskState)>) -> (r: Vec<String>)
    ensures
        views(r@) == event_paths(event_views(events@)),
{
    let mut out: Vec<String> = Vec::new();
    let mut i: usize = 0;
    while i < events.len()
        invariant
            i <= events@.len(),
            out@.len() == i,
            forall|k: int| 0 <= k < i ==> (#[trigger] out@[k])@ == events@[k].0@,
        decreases events@.len() - i,
    {
        out.push(events[i].0.clone());
        i = i + 1;
    }
    assert(views(out@) =~= event_paths(event_views(events@)));
    out
}

/// Brings changes on disk into the index.
pub fn handle_events(
    configs: &LanguageConfigs,
    cache: &mut QueryCache,
    sources: &Sources,
    file_tree: &mut FileTree,
    symbol_table: &mut SymbolTable,
    max_file_size: u64,
    events: &Vec<WatchEvent>,
    path_filter: &WatchPathFilter,
) -> (r: WatcherEventStats)
    requires
        events_askable(path_filter@.root, events@),
    ensures
        (Watched {
            cache: final(cache)@,
            tree: final(file_tree)@,
            table: final(symbol_table)@,
            counts: r@,
        }) == handled(
            old(cache)@,
            old(file_tree)@,
            old(symbol_table)@,
            Surroundings {
                configs: configs@,
                reads: sources@,
                filter: path_filter@,
                max_file_size,
            },
            events@,
        ),
        outcomes(r@) <= r@.raw_events,
        r@.reparsed_files <= r@.changed_files,
        well_keyed(old(symbol_table)@) ==> well_keyed(final(symbol_table)@),
{
    let ghost around = Surroundings {
        configs: configs@,
        reads: sources@,
        filter: path_filter@,
        max_file_size,
    };
    let taken = accept_events(path_filter, events);
    let ghost all = event_views(taken@);
    assert(all.len() == taken@.len());
    let total: usize = events.len();
    let mut stats = WatcherEventStats {
        raw_events: total,
        changed_files: 0,
        reparsed_files: 0,
        deleted_files: 0,
        removed_oversize_files: 0,
        skipped_events: total - taken.len(),
    };
    let paths = order_names(copy_paths(&taken));
    let ghost start = Watched {
        cache: cache@,
        tree: file_tree@,
        table: symbol_table@,
        counts: stats@,
    };
    let ghost names = views(paths@);
    let ghost keyed = well_keyed(symbol_table@);
    proof {
        crate::sorting::lemma_ordered_length(event_paths(all));
        assert(names.len() == paths@.len());
        assert(names.len() <= taken@.len());
    }
    let mut i: usize = 0;
    assert(names.take(0) =~= Seq::empty());
    while i < paths.len()
        invariant
            i <= paths@.len() <= taken@.len() <= total,
            names == views(paths@),
            all == event_views(taken@),
            around == (Surroundings {
                configs: configs@,
                reads: sources@,
                filter: path_filter@,
                max_file_size,
            }),
            (Watched {
                cache: cache@,
                tree: file_tree@,
                table: symbol_table@,
                counts: stats@,
            }) == with_paths(start, around, all, names.take(i as int)),
            outcomes(stats@) == total - taken@.len() + i,
            stats.reparsed_files <= stats.changed_files,
            stats.raw_events == total,
            keyed ==> well_keyed(symbol_table@),
        decreases paths@.len() - i,
    {
        assert(names.take(i + 1).drop_last() =~= names.take(i as int));
        assert(names.take(i + 1).last() == paths@[i as int]@);
        let path = paths[i].as_str();
        match find_state(&taken, path) {
            DiskState::File(meta) => {
                handle_file_change(
                    configs,
                    cache,
                    sources,
                    path_filter,
                    file_tree,
                    symbol_table,
                    max_file_size,
                    path,
                    meta,
                    &mut stats,
                );
            },
            DiskState::Missing => {
                handle_file_delete(file_tree, symbol_table, path);
                stats.deleted_files = stats.deleted_files + 1;
            },
            DiskState::Other => {
                stats.skipped_events = stats.skipped_events + 1;
            },
        }
        i = i + 1;
    }
    assert(names.take(i as int) =~= names);
    stats
}

} // verus!
