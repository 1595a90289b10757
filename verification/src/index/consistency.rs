//! What the index keeps to while changes are brought in.
use vstd::prelude::*;
use crate::config::ignored_extension;
use crate::index::call_site_cache::{call_sites, CallSiteCacheMissReason, LookupView};
use crate::index::file_entry::{new_entry, parsed_language, FileEntryView, Language};
use crate::index::file_tree::{site_lookup, with_file, FileTreeView};
use crate::index::watch_filter::{follows, path_view};
use crate::index::watcher::{
    accepted, event_paths, handled, last_state, outcomes, with_changed, with_deleted, with_path,
    with_paths, with_reparsed, Counts, DiskState, FileMeta, Surroundings, WatchEvent, Watched,
};
use crate::maps::lemma_one_order;
use crate::sorting::{law_ordered_names, lemma_ordered_length, ordered_names};
use crate::sources::{read_of, ReadView};
use crate::symbols::parser::{
    cache_after_extraction, extraction, indexed, law_extracted_keys_are_unique,
    law_extracted_symbols_belong_to_file, lemma_others_are_kept, lemma_symbols_are_found,
    lemma_with_symbols, with_symbols, Indexing,
};
use crate::symbols::queries::{config_of, ConfigView, Queries};
use crate::symbols::symbol::SymbolView;
use crate::symbols::table::{key_of, without_file};

verus! {

/// Every symbol of the table belongs to a file of the tree.
pub open spec fn consistent(tree: FileTreeView, table: Map<Seq<char>, SymbolView>) -> bool {
    forall|k: Seq<char>| #[trigger]
        table.contains_key(k) ==> tree.files.contains_key(table[k].file)
}

/// Taking a file out keeps the index consistent, and leaves nothing of the file: no
/// entry, no symbols, no call sites.
pub proof fn law_deleted_file_leaves_nothing(
    state: Watched,
    rel_path: Seq<char>,
    key: Seq<char>,
    max_file_size: u64,
)
    requires
        consistent(state.tree, state.table),
    ensures
        ({
            let next = with_deleted(state, rel_path);
            &&& consistent(next.tree, next.table)
            &&& !next.tree.files.contains_key(rel_path)
            &&& next.table.contains_key(key) ==> next.table[key].file != rel_path
            &&& site_lookup(next.tree, rel_path, max_file_size) == LookupView::Miss(
                CallSiteCacheMissReason::Missing,
            )
        }),
{
    let next = with_deleted(state, rel_path);
    assert forall|k: Seq<char>| #[trigger] next.table.contains_key(
        k,
    ) implies next.tree.files.contains_key(next.table[k].file) by {
        assert(state.table.contains_key(k));
    }
    if next.table.contains_key(key) && !state.tree.files.contains_key(rel_path) {
        assert(state.table.contains_key(key));
    }
}

/// Renewing the symbols of a file keeps the index consistent.
proof fn lemma_reparsed_consistent(state: Watched, around: Surroundings, entry: FileEntryView)
    requires
        consistent(state.tree, state.table),
        state.tree.files.contains_key(entry.rel_path),
    ensures
        ({
            let next = with_reparsed(state, around, entry);
            consistent(next.tree, next.table)
        }),
{
    let next = with_reparsed(state, around, entry);
    let config = config_of(around.configs, entry.language);
    let source = read_of(around.reads, entry.rel_path);
    law_extracted_symbols_belong_to_file(
        config,
        state.cache,
        source,
        entry.rel_path,
        entry.language,
    );
    if let Ok(symbols) = extraction(
        config,
        state.cache,
        source,
        entry.rel_path,
        entry.language,
    ) {
        assert forall|k: Seq<char>| #[trigger] next.table.contains_key(
            k,
        ) implies next.tree.files.contains_key(next.table[k].file) by {
            lemma_with_symbols(state.table, symbols, k);
            if exists|i: int| 0 <= i < symbols.len() && next.table[k] == symbols[i] {
                let i = choose|i: int| 0 <= i < symbols.len() && next.table[k] == symbols[i];
                assert(symbols[i].file == entry.rel_path);
            } else {
                assert(state.table.contains_key(k));
            }
        }
    }
}

/// Bringing in what is on disk at a path keeps the index consistent.
pub proof fn law_path_keeps_consistency(
    state: Watched,
    around: Surroundings,
    rel_path: Seq<char>,
    disk: DiskState,
)
    requires
        consistent(state.tree, state.table),
    ensures
        ({
            let next = with_path(state, around, rel_path, disk);
            consistent(next.tree, next.table)
        }),
{
    law_deleted_file_leaves_nothing(state, rel_path, rel_path, 0);
    if let DiskState::File(Some(m)) = disk {
        if !ignored_extension(around.filter.rules, rel_path) && m.size <= around.max_file_size {
            let entry = new_entry(rel_path, m.size, m.modified);
            let renewed = Watched {
                tree: with_file(state.tree, entry),
                table: without_file(state.table, rel_path),
                counts: Counts {
                    changed_files: state.counts.changed_files + 1,
                    ..state.counts
                },
                ..state
            };
            assert(consistent(renewed.tree, renewed.table)) by {
                assert forall|k: Seq<char>| #[trigger] renewed.table.contains_key(
                    k,
                ) implies renewed.tree.files.contains_key(renewed.table[k].file) by {
                    assert(state.table.contains_key(k));
                }
            }
            lemma_reparsed_consistent(renewed, around, entry);
        }
    }
}

proof fn lemma_paths_consistent(
    state: Watched,
    around: Surroundings,
    events: Seq<(Seq<char>, DiskState)>,
    paths: Seq<Seq<char>>,
)
    requires
        consistent(state.tree, state.table),
    ensures
        ({
            let next = with_paths(state, around, events, paths);
            consistent(next.tree, next.table)
        }),
    decreases paths.len(),
{
    if paths.len() > 0 {
        lemma_paths_consistent(state, around, events, paths.drop_last());
        law_path_keeps_consistency(
            with_paths(state, around, events, paths.drop_last()),
            around,
            paths.last(),
            last_state(events, paths.last()),
        );
    }
}

/// Whatever events are brought in, no symbol outlives its file.
pub proof fn law_events_keep_consistency(
    cache: Queries,
    tree: FileTreeView,
    table: Map<Seq<char>, SymbolView>,
    around: Surroundings,
    events: Seq<WatchEvent>,
)
    requires
        consistent(tree, table),
    ensures
        ({
            let next = handled(cache, tree, table, around, events);
            consistent(next.tree, next.table)
        }),
{
    let taken = accepted(around.filter, events);
    let start = Watched {
        cache,
        tree,
        table,
        counts: Counts {
            raw_events: events.len(),
            changed_files: 0,
            reparsed_files: 0,
            deleted_files: 0,
            removed_oversize_files: 0,
            skipped_events: (events.len() - taken.len()) as nat,
        },
    };
    lemma_paths_consistent(start, around, taken, ordered_names(event_paths(taken)));
}

/// A file that has grown too large leaves nothing in the index, as if it were deleted,
/// and is counted apart.
pub proof fn law_oversize_file_leaves_nothing(
    state: Watched,
    around: Surroundings,
    rel_path: Seq<char>,
    meta: FileMeta,
    key: Seq<char>,
    max_file_size: u64,
)
    requires
        consistent(state.tree, state.table),
        !ignored_extension(around.filter.rules, rel_path),
        meta.size > around.max_file_size,
    ensures
        ({
            let next = with_changed(state, around, rel_path, Some(meta));
            &&& consistent(next.tree, next.table)
            &&& !next.tree.files.contains_key(rel_path)
            &&& next.table.contains_key(key) ==> next.table[key].file != rel_path
            &&& site_lookup(next.tree, rel_path, max_file_size) == LookupView::Miss(
                CallSiteCacheMissReason::Missing,
            )
            &&& next.counts == (Counts {
                removed_oversize_files: state.counts.removed_oversize_files + 1,
                ..state.counts
            })
        }),
{
    law_deleted_file_leaves_nothing(state, rel_path, key, max_file_size);
}

/// After a file has changed, the entry is that of the file as it is now. The symbols of
/// the file in the table are those that its present text gives: no other is there, and
/// where the file was parsed anew, none is missing.
pub proof fn law_changed_file_is_fresh(
    state: Watched,
    around: Surroundings,
    rel_path: Seq<char>,
    meta: FileMeta,
    key: Seq<char>,
)
    requires
        !ignored_extension(around.filter.rules, rel_path),
        meta.size <= around.max_file_size,
    ensures
        ({
            let next = with_changed(state, around, rel_path, Some(meta));
            let entry = new_entry(rel_path, meta.size, meta.modified);
            let outcome = extraction(
                config_of(around.configs, entry.language),
                state.cache,
                read_of(around.reads, rel_path),
                rel_path,
                entry.language,
            );
            let parsed = parsed_language(entry.language) && outcome is Ok;
            &&& next.tree.files.contains_key(rel_path)
            &&& next.tree.files[rel_path] == (FileEntryView { symbols_extracted: parsed, ..entry })
            &&& next.table.contains_key(key) && next.table[key].file == rel_path ==> (outcome
                matches Ok(symbols) && exists|i: int|
                0 <= i < symbols.len() && next.table[key] == symbols[i])
            &&& parsed ==> forall|i: int|
                0 <= i < outcome->Ok_0.len() ==> {
                    let s = #[trigger] outcome->Ok_0[i];
                    next.table.contains_key(key_of(s.file, s.name)) && next.table[key_of(
                        s.file,
                        s.name,
                    )] == s
                }
        }),
{
    let entry = new_entry(rel_path, meta.size, meta.modified);
    let next = with_changed(state, around, rel_path, Some(meta));
    let base = without_file(state.table, rel_path);
    let config = config_of(around.configs, entry.language);
    let source = read_of(around.reads, rel_path);
    let outcome = extraction(config, state.cache, source, rel_path, entry.language);
    if parsed_language(entry.language) {
        if let Ok(symbols) = outcome {
            if next.table.contains_key(key) && next.table[key].file == rel_path {
                lemma_with_symbols(base, symbols, key);
            }
            law_extracted_keys_are_unique(config, state.cache, source, rel_path, entry.language);
            assert forall|i: int| 0 <= i < symbols.len() implies {
                let s = #[trigger] symbols[i];
                next.table.contains_key(key_of(s.file, s.name)) && next.table[key_of(
                    s.file,
                    s.name,
                )] == s
            } by {
                lemma_symbols_are_found(base, symbols, i);
            }
        }
    }
}

/// After a file has changed, the call sites that the cache gives for it are those of its
/// present text: it gives none but these, and where the file was parsed anew and has
/// call sites, it gives them.
pub proof fn law_changed_file_has_fresh_call_sites(
    state: Watched,
    around: Surroundings,
    rel_path: Seq<char>,
    meta: FileMeta,
)
    requires
        !ignored_extension(around.filter.rules, rel_path),
        meta.size <= around.max_file_size,
    ensures
        ({
            let next = with_changed(state, around, rel_path, Some(meta));
            let language = new_entry(rel_path, meta.size, meta.modified).language;
            let config = config_of(around.configs, language);
            let source = read_of(around.reads, rel_path);
            let cache = cache_after_extraction(config, state.cache, source, language);
            let found = site_lookup(next.tree, rel_path, around.max_file_size);
            &&& found matches LookupView::Hit(facts) ==> (source matches Ok(text) && call_sites(
                config,
                cache,
                text,
                language,
            ) == Some(facts))
            &&& parsed_language(language) && extraction(
                config,
                state.cache,
                source,
                rel_path,
                language,
            ) is Ok && source is Ok ==> match call_sites(config, cache, source->Ok_0, language) {
                Some(facts) => found == LookupView::Hit(facts),
                None => found == LookupView::Miss(CallSiteCacheMissReason::Absent),
            }
        }),
{
}

/// Bringing in what is on disk at a path leaves what is known of other files as it is.
/// A symbol of another file stays, unless one of the file at the path takes its key; and
/// none of another file comes in.
pub proof fn law_path_leaves_others(
    state: Watched,
    around: Surroundings,
    rel_path: Seq<char>,
    disk: DiskState,
    other: Seq<char>,
    key: Seq<char>,
)
    requires
        other != rel_path,
    ensures
        ({
            let next = with_path(state, around, rel_path, disk);
            &&& same_entry(state.tree, next.tree, other)
            &&& same_caches(state.tree, next.tree, other)
            &&& state.table.contains_key(key) && state.table[key].file != rel_path ==> {
                &&& next.table.contains_key(key)
                &&& next.table[key] == state.table[key] || next.table[key].file == rel_path
            }
            &&& next.table.contains_key(key) && next.table[key].file != rel_path ==> {
                &&& state.table.contains_key(key)
                &&& next.table[key] == state.table[key]
            }
        }),
{
    if let DiskState::File(Some(m)) = disk {
        let entry = new_entry(rel_path, m.size, m.modified);
        let config = config_of(around.configs, entry.language);
        let source = read_of(around.reads, rel_path);
        let base = without_file(state.table, rel_path);
        law_extracted_symbols_belong_to_file(
            config,
            state.cache,
            source,
            rel_path,
            entry.language,
        );
        if let Ok(symbols) = extraction(config, state.cache, source, rel_path, entry.language) {
            if base.contains_key(key) {
                lemma_others_are_kept(base, symbols, key);
            }
            if with_symbols(base, symbols).contains_key(key) {
                lemma_with_symbols(base, symbols, key);
            }
        }
    }
}

/// The index knows of a path what is on disk there: a file that is not too large, with
/// its size and its time of change; nothing of a file that is too large or is gone. What
/// cannot be told leaves the index as it was.
pub open spec fn matches_disk(
    before: FileTreeView,
    after: FileTreeView,
    max_file_size: u64,
    path: Seq<char>,
    disk: DiskState,
) -> bool {
    match disk {
        DiskState::Missing => !after.files.contains_key(path),
        DiskState::File(Some(m)) => if m.size > max_file_size {
            !after.files.contains_key(path)
        } else {
            &&& after.files.contains_key(path)
            &&& after.files[path].rel_path == path
            &&& after.files[path].size == m.size
            &&& after.files[path].modified == m.modified
        },
        _ => same_entry(before, after, path),
    }
}

/// Both trees know the same of a path.
pub open spec fn same_entry(before: FileTreeView, after: FileTreeView, path: Seq<char>) -> bool {
    &&& after.files.contains_key(path) == before.files.contains_key(path)
    &&& after.files[path] == before.files[path]
}

/// Both trees have the same cached of a path.
pub open spec fn same_caches(before: FileTreeView, after: FileTreeView, path: Seq<char>) -> bool {
    &&& after.ranges.contains_key(path) == before.ranges.contains_key(path)
    &&& after.ranges[path] == before.ranges[path]
    &&& after.sites.contains_key(path) == before.sites.contains_key(path)
    &&& after.sites[path] == before.sites[path]
}

/// What the index knows of a path once others, and it, have been brought in.
proof fn lemma_paths_match_disk(
    state: Watched,
    around: Surroundings,
    events: Seq<(Seq<char>, DiskState)>,
    paths: Seq<Seq<char>>,
    path: Seq<char>,
)
    requires
        paths.no_duplicates(),
        paths.contains(path) ==> !ignored_extension(around.filter.rules, path),
    ensures
        ({
            let next = with_paths(state, around, events, paths);
            if paths.contains(path) {
                matches_disk(
                    state.tree,
                    next.tree,
                    around.max_file_size,
                    path,
                    last_state(events, path),
                )
            } else {
                same_entry(state.tree, next.tree, path) && same_caches(state.tree, next.tree, path)
            }
        }),
    decreases paths.len(),
{
    if paths.len() > 0 {
        let rest = paths.drop_last();
        let last = paths.last();
        let before = with_paths(state, around, events, rest);
        assert(rest.no_duplicates()) by {
            assert forall|i: int, j: int|
                0 <= i < rest.len() && 0 <= j < rest.len() && i != j implies rest[i] != rest[j] by {
                assert(paths[i] != paths[j]);
            }
        }
        if rest.contains(path) {
            let i = choose|i: int| 0 <= i < rest.len() && rest[i] == path;
            assert(paths[i] == path);
            assert(paths[i] != paths[paths.len() - 1]);
        }
        lemma_paths_match_disk(state, around, events, rest, path);
        if last == path {
            assert(paths[paths.len() - 1] == path);
        } else {
            law_path_leaves_others(
                before,
                around,
                last,
                last_state(events, last),
                path,
                path,
            );
            if paths.contains(path) {
                let i = choose|i: int| 0 <= i < paths.len() && paths[i] == path;
                assert(rest[i] == path);
            }
        }
    }
}

/// The paths of accepted events are followed.
proof fn lemma_accepted_are_followed(
    around: Surroundings,
    events: Seq<WatchEvent>,
    path: Seq<char>,
)
    requires
        event_paths(accepted(around.filter, events)).contains(path),
    ensures
        !ignored_extension(around.filter.rules, path),
    decreases events.len(),
{
    let taken = accepted(around.filter, events);
    let i = choose|i: int| 0 <= i < event_paths(taken).len() && event_paths(taken)[i] == path;
    assert(taken[i].0 == path);
    let before = accepted(around.filter, events.drop_last());
    if i < before.len() {
        assert(event_paths(before)[i] == path);
        lemma_accepted_are_followed(around, events.drop_last(), path);
    }
}

/// Once events have been brought in, the index knows of every path that they speak of, and
/// that is followed, what the last of them says is on disk; and of every other path what it
/// knew before, with what is cached of it.
pub proof fn law_events_match_disk(
    cache: Queries,
    tree: FileTreeView,
    table: Map<Seq<char>, SymbolView>,
    around: Surroundings,
    events: Seq<WatchEvent>,
    path: Seq<char>,
)
    ensures
        ({
            let taken = accepted(around.filter, events);
            let next = handled(cache, tree, table, around, events);
            if event_paths(taken).contains(path) {
                matches_disk(
                    tree,
                    next.tree,
                    around.max_file_size,
                    path,
                    last_state(taken, path),
                )
            } else {
                same_entry(tree, next.tree, path) && same_caches(tree, next.tree, path)
            }
        }),
{
    let taken = accepted(around.filter, events);
    let start = Watched {
        cache,
        tree,
        table,
        counts: Counts {
            raw_events: events.len(),
            changed_files: 0,
            reparsed_files: 0,
            deleted_files: 0,
            removed_oversize_files: 0,
            skipped_events: (events.len() - taken.len()) as nat,
        },
    };
    law_ordered_names(event_paths(taken));
    if event_paths(taken).contains(path) {
        lemma_accepted_are_followed(around, events, path);
    }
    lemma_paths_match_disk(start, around, taken, ordered_names(event_paths(taken)), path);
}

/// The symbols of files that are not among the paths, once these have been brought in.
proof fn lemma_paths_leave_symbols(
    state: Watched,
    around: Surroundings,
    events: Seq<(Seq<char>, DiskState)>,
    paths: Seq<Seq<char>>,
    key: Seq<char>,
)
    requires
        paths.no_duplicates(),
    ensures
        ({
            let next = with_paths(state, around, events, paths);
            &&& state.table.contains_key(key) && !paths.contains(state.table[key].file) ==> {
                &&& next.table.contains_key(key)
                &&& next.table[key] == state.table[key] || paths.contains(next.table[key].file)
            }
            &&& next.table.contains_key(key) && !paths.contains(next.table[key].file) ==> {
                &&& state.table.contains_key(key)
                &&& next.table[key] == state.table[key]
            }
        }),
    decreases paths.len(),
{
    if paths.len() > 0 {
        let rest = paths.drop_last();
        let last = paths.last();
        let before = with_paths(state, around, events, rest);
        let next = with_paths(state, around, events, paths);
        assert(rest.no_duplicates()) by {
            assert forall|i: int, j: int|
                0 <= i < rest.len() && 0 <= j < rest.len() && i != j implies rest[i] != rest[j] by {
                assert(paths[i] != paths[j]);
            }
        }
        assert forall|p: Seq<char>| #[trigger] rest.contains(p) implies paths.contains(p) && p
            != last by {
            let i = choose|i: int| 0 <= i < rest.len() && rest[i] == p;
            assert(paths[i] == p);
            assert(paths[i] != paths[paths.len() - 1]);
        }
        assert(paths[paths.len() - 1] == last);
        assert(paths.contains(last));
        lemma_paths_leave_symbols(state, around, events, rest, key);
        let other = if before.table.contains_key(key) && before.table[key].file != last {
            before.table[key].file
        } else {
            last.push('/')
        };
        assert(last.push('/').len() != last.len());
        law_path_leaves_others(before, around, last, last_state(events, last), other, key);
    }
}

/// Once events have been brought in, every symbol of a file that no accepted event names is
/// still there as it was, unless a symbol of a named file has taken its key; and every
/// symbol that is there belongs to a named file or was there before.
pub proof fn law_events_leave_other_symbols(
    cache: Queries,
    tree: FileTreeView,
    table: Map<Seq<char>, SymbolView>,
    around: Surroundings,
    events: Seq<WatchEvent>,
    key: Seq<char>,
)
    ensures
        ({
            let named = event_paths(accepted(around.filter, events));
            let next = handled(cache, tree, table, around, events);
            &&& table.contains_key(key) && !named.contains(table[key].file) ==> {
                &&& next.table.contains_key(key)
                &&& next.table[key] == table[key] || named.contains(next.table[key].file)
            }
            &&& next.table.contains_key(key) && !named.contains(next.table[key].file) ==> {
                &&& table.contains_key(key)
                &&& next.table[key] == table[key]
            }
        }),
{
    let taken = accepted(around.filter, events);
    let start = Watched {
        cache,
        tree,
        table,
        counts: Counts {
            raw_events: events.len(),
            changed_files: 0,
            reparsed_files: 0,
            deleted_files: 0,
            removed_oversize_files: 0,
            skipped_events: (events.len() - taken.len()) as nat,
        },
    };
    let paths = ordered_names(event_paths(taken));
    law_ordered_names(event_paths(taken));
    lemma_paths_leave_symbols(start, around, taken, paths, key);
    let next = handled(cache, tree, table, around, events);
    assert(paths.contains(table[key].file) <==> event_paths(taken).contains(table[key].file));
    assert(paths.contains(next.table[key].file) <==> event_paths(taken).contains(
        next.table[key].file,
    ));
}

/// Every event is accounted for: what came of the paths, and the events that were
/// skipped, are never more than the events, and as many exactly where no two accepted
/// events name one path; and no file is parsed anew that did not change.
pub proof fn law_events_are_accounted_for(
    cache: Queries,
    tree: FileTreeView,
    table: Map<Seq<char>, SymbolView>,
    around: Surroundings,
    events: Seq<WatchEvent>,
)
    ensures
        ({
            let counts = handled(cache, tree, table, around, events).counts;
            let taken = accepted(around.filter, events);
            &&& counts.raw_events == events.len()
            &&& outcomes(counts) == events.len() - taken.len() + ordered_names(
                event_paths(taken),
            ).len()
            &&& outcomes(counts) <= counts.raw_events
            &&& outcomes(counts) == counts.raw_events <==> event_paths(taken).no_duplicates()
            &&& counts.reparsed_files <= counts.changed_files
        }),
{
    let taken = accepted(around.filter, events);
    let start = Watched {
        cache,
        tree,
        table,
        counts: Counts {
            raw_events: events.len(),
            changed_files: 0,
            reparsed_files: 0,
            deleted_files: 0,
            removed_oversize_files: 0,
            skipped_events: (events.len() - taken.len()) as nat,
        },
    };
    lemma_accepted_length(around.filter, events);
    lemma_path_counts(start, around, taken, ordered_names(event_paths(taken)));
    lemma_ordered_length(event_paths(taken));
}

proof fn lemma_accepted_length(
    filter: crate::index::watch_filter::FilterView,
    events: Seq<WatchEvent>,
)
    ensures
        accepted(filter, events).len() <= events.len(),
    decreases events.len(),
{
    if events.len() > 0 {
        lemma_accepted_length(filter, events.drop_last());
    }
}

proof fn lemma_path_counts(
    state: Watched,
    around: Surroundings,
    events: Seq<(Seq<char>, DiskState)>,
    paths: Seq<Seq<char>>,
)
    requires
        state.counts.reparsed_files <= state.counts.changed_files,
    ensures
        ({
            let counts = with_paths(state, around, events, paths).counts;
            &&& counts.raw_events == state.counts.raw_events
            &&& outcomes(counts) == outcomes(state.counts) + paths.len()
            &&& counts.reparsed_files <= counts.changed_files
        }),
    decreases paths.len(),
{
    if paths.len() > 0 {
        lemma_path_counts(state, around, events, paths.drop_last());
    }
}

/// A state with another number of events.
spec fn with_raw(state: Watched, raw_events: nat) -> Watched {
    Watched { counts: Counts { raw_events, ..state.counts }, ..state }
}

proof fn lemma_paths_same(
    state: Watched,
    around: Surroundings,
    a: Seq<(Seq<char>, DiskState)>,
    b: Seq<(Seq<char>, DiskState)>,
    paths: Seq<Seq<char>>,
    raw_events: nat,
)
    requires
        forall|p: Seq<char>| #[trigger] last_state(a, p) == last_state(b, p),
    ensures
        with_paths(with_raw(state, raw_events), around, b, paths) == with_raw(
            with_paths(state, around, a, paths),
            raw_events,
        ),
    decreases paths.len(),
{
    if paths.len() > 0 {
        lemma_paths_same(state, around, a, b, paths.drop_last(), raw_events);
        assert(last_state(a, paths.last()) == last_state(b, paths.last()));
    }
}

/// Events that repeat are worked off once: one more event that says of a path what
/// the last one said changes nothing but the number of events.
pub proof fn law_duplicate_events_coalesce(
    cache: Queries,
    tree: FileTreeView,
    table: Map<Seq<char>, SymbolView>,
    around: Surroundings,
    events: Seq<WatchEvent>,
    again: WatchEvent,
    path: Seq<char>,
)
    requires
        path_view(again.rel_path) == Some(path),
        follows(around.filter, Some(path), again.is_dir),
        event_paths(accepted(around.filter, events)).contains(path),
        last_state(accepted(around.filter, events), path) == again.disk,
    ensures
        ({
            let once = handled(cache, tree, table, around, events);
            let twice = handled(cache, tree, table, around, events.push(again));
            &&& twice.cache == once.cache
            &&& twice.tree == once.tree
            &&& twice.table == once.table
            &&& twice.counts == (Counts { raw_events: events.len() + 1, ..once.counts })
        }),
{
    let a = accepted(around.filter, events);
    let more = events.push(again);
    let b = accepted(around.filter, more);
    assert(more.drop_last() =~= events);
    assert(b == a.push((path, again.disk)));
    lemma_accepted_length(around.filter, events);
    assert forall|p: Seq<char>| #[trigger] last_state(a, p) == last_state(b, p) by {
        assert(b.drop_last() =~= a);
    }
    let x = event_paths(a);
    let y = event_paths(b);
    assert(y =~= x.push(path));
    assert(ordered_names(x) == ordered_names(y)) by {
        law_ordered_names(x);
        law_ordered_names(y);
        assert forall|p: Seq<char>| #[trigger] ordered_names(x).contains(p) <==> ordered_names(
            y,
        ).contains(p) by {
            assert(y.contains(p) <==> x.contains(p)) by {
                if y.contains(p) {
                    let k = choose|k: int| 0 <= k < y.len() && y[k] == p;
                    if k < x.len() {
                        assert(x[k] == p);
                    }
                }
                if x.contains(p) {
                    let k = choose|k: int| 0 <= k < x.len() && x[k] == p;
                    assert(y[k] == p);
                }
            }
        }
        lemma_one_order(ordered_names(x), ordered_names(y));
    }
    let start = Watched {
        cache,
        tree,
        table,
        counts: Counts {
            raw_events: events.len(),
            changed_files: 0,
            reparsed_files: 0,
            deleted_files: 0,
            removed_oversize_files: 0,
            skipped_events: (events.len() - a.len()) as nat,
        },
    };
    lemma_paths_same(start, around, a, b, ordered_names(x), events.len() + 1);
}

/// Extracting the symbols of files of the tree keeps the index consistent, and leaves
/// the files what they are.
pub proof fn law_indexing_keeps_consistency(
    state: Indexing,
    configs: Map<Language, ConfigView>,
    reads: Map<Seq<char>, ReadView>,
    files: Seq<(Seq<char>, Language)>,
)
    requires
        consistent(state.tree, state.table),
        forall|i: int|
            0 <= i < files.len() ==> state.tree.files.contains_key((#[trigger] files[i]).0),
    ensures
        ({
            let next = indexed(state, configs, reads, files);
            consistent(next.tree, next.table) && next.tree.files.dom() == state.tree.files.dom()
        }),
    decreases files.len(),
{
    if files.len() > 0 {
        let rest = files.drop_last();
        assert forall|i: int| 0 <= i < rest.len() implies state.tree.files.contains_key(
            (#[trigger] rest[i]).0,
        ) by {
            assert(rest[i] == files[i]);
        }
        law_indexing_keeps_consistency(state, configs, reads, rest);
        let before = indexed(state, configs, reads, rest);
        let next = indexed(state, configs, reads, files);
        let (path, language) = files.last();
        assert(files[files.len() - 1].0 == path);
        assert(before.tree.files.contains_key(path)) by {
            assert(before.tree.files.dom().contains(path));
        }
        law_extracted_symbols_belong_to_file(
            config_of(configs, language),
            before.cache,
            read_of(reads, path),
            path,
            language,
        );
        if let Ok(symbols) = extraction(
            config_of(configs, language),
            before.cache,
            read_of(reads, path),
            path,
            language,
        ) {
            assert(next.tree.files.dom() =~= state.tree.files.dom());
            assert forall|k: Seq<char>| #[trigger] next.table.contains_key(
                k,
            ) implies next.tree.files.contains_key(next.table[k].file) by {
                lemma_with_symbols(before.table, symbols, k);
                if exists|i: int| 0 <= i < symbols.len() && next.table[k] == symbols[i] {
                    let i = choose|i: int| 0 <= i < symbols.len() && next.table[k] == symbols[i];
                    assert(symbols[i].file == path);
                } else {
                    assert(before.table.contains_key(k));
                }
            }
        }
    }
}

} // verus!
