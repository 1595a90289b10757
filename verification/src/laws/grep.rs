//! Which lines a search shows.
use vstd::prelude::*;
use regex::Regex;
use crate::index::file_entry::{parsed_language, Language};
use crate::index::file_tree::FileTreeView;
use crate::laws::text::{ends, holds, is_around, law_texts_are_found};
use crate::maps::{lists_in_order, sorted_keys};
use crate::ops::content::{
    captured_ranges, exclusions, filter_takes, found_in, found_in_files, grep_error, grep_found,
    hits, hits_in, in_code, is_hit, lemma_taken, match_at, node_ranges, non_code_query,
    searched_paths, taken, with_searched, FileMatchMode, GrepMatchView, GrepScope, Search,
    Searched,
};
use crate::ops::ranges::{covers, law_merging_keeps_cover, merged_ranges};
use crate::pattern::{regex_finds, regex_outcome};
use crate::sources::{read_of, ReadView};
use crate::symbols::queries::{
    config_of, law_query_stays, query_for, ConfigView, Queries, QueryKind,
};
use crate::symbols::syntax::{parse_outcome, query_matches, CaptureView};
use crate::text::{lines_of, LineView};

verus! {

// ---------------------------------------------------------------------------
// A line and its context
// ---------------------------------------------------------------------------

/// A match shows line `n` of a file, counted from 1: its number and text, as many of the
/// lines directly before it as were asked for or as there are, the nearest last, and as many
/// of the lines directly behind it, the nearest first.
pub open spec fn shows_line(m: GrepMatchView, rows: Seq<LineView>, n: int, context: int) -> bool {
    let before = m.context_before;
    let after = m.context_after;
    let total = rows.len() as int;
    &&& 1 <= n <= total
    &&& m.line == n as usize
    &&& m.text == rows[n - 1].text
    &&& before.len() == if context <= n - 1 {
        context
    } else {
        n - 1
    }
    &&& forall|k: int|
        0 <= k < before.len() ==> (#[trigger] before[k]) == rows[n - 1 - before.len() + k].text
    &&& after.len() == if context <= total - n {
        context
    } else {
        total - n
    }
    &&& forall|k: int| 0 <= k < after.len() ==> (#[trigger] after[k]) == rows[n + k].text
}

/// What is made of a found line shows that line with its context, and nothing else does.
pub proof fn law_context(
    file: Seq<char>,
    rows: Seq<LineView>,
    n: int,
    context: int,
    m: GrepMatchView,
)
    requires
        1 <= n <= rows.len(),
        0 <= context,
    ensures
        m == match_at(file, rows, n - 1, context) <==> m.file == file && shows_line(
            m,
            rows,
            n,
            context,
        ),
{
    let made = match_at(file, rows, n - 1, context);
    if m.file == file && shows_line(m, rows, n, context) {
        assert(m.context_before =~= made.context_before);
        assert(m.context_after =~= made.context_after);
    }
}

// ---------------------------------------------------------------------------
// The files that are searched
// ---------------------------------------------------------------------------

/// A filter lets a file in: by its whole path, by the end of it, or by any part of it. A
/// filter without a mode lets in whatever its path has anywhere.
pub open spec fn lets_in(
    path: Seq<char>,
    filter: Option<Seq<char>>,
    mode: Option<FileMatchMode>,
) -> bool {
    filter matches Some(f) ==> match mode {
        Some(FileMatchMode::Exact) => path == f,
        Some(FileMatchMode::Suffix) => ends(path, f),
        Some(FileMatchMode::Contains) => holds(path, f),
        None => holds(path, f),
    }
}

/// Which files a filter takes.
pub proof fn law_filter(path: Seq<char>, filter: Seq<char>, mode: Option<FileMatchMode>)
    ensures
        filter_takes(path, filter, mode) <==> lets_in(path, Some(filter), mode),
{
    law_texts_are_found(path, filter);
    if path == filter {
        let none = Seq::<char>::empty();
        assert(path =~= none + filter + none);
        assert(is_around(path, none, filter, none));
    }
    if ends(path, filter) {
        let front = choose|front: Seq<char>| #[trigger]
            is_around(path, front, filter, Seq::empty());
        assert(is_around(path, front, filter, Seq::empty()));
    }
}

/// A search is refused for its pattern; for a mode without a filter; and, with a mode, where
/// no file or more than one is let in. Otherwise it goes through the files that are let in.
pub proof fn law_files_searched(
    tree: FileTreeView,
    pattern: Seq<char>,
    filter: Option<Seq<char>>,
    mode: Option<FileMatchMode>,
    path: Seq<char>,
)
    requires
        lists_in_order(sorted_keys(tree.files), tree.files),
        grep_error(tree, pattern, filter, mode) is None,
    ensures
        regex_outcome(pattern) is Ok,
        mode is Some ==> filter is Some,
        searched_paths(sorted_keys(tree.files), filter, mode) matches Ok(found) && {
            &&& found.no_duplicates()
            &&& found.contains(path) <==> tree.files.contains_key(path) && lets_in(
                path,
                filter,
                mode,
            )
            &&& mode is Some ==> found.len() == 1
        },
{
    let paths = sorted_keys(tree.files);
    assert(paths.contains(path) <==> tree.files.contains_key(path));
    if let Some(f) = filter {
        lemma_taken(paths, f, mode);
        lemma_taken_once(paths, f, mode);
        law_filter(path, f, mode);
        assert(taken(paths, f, mode).contains(path) <==> paths.contains(path) && filter_takes(
            path,
            f,
            mode,
        ));
    }
}

/// No file is taken twice.
pub proof fn lemma_taken_once(paths: Seq<Seq<char>>, filter: Seq<char>, mode: Option<FileMatchMode>)
    requires
        paths.no_duplicates(),
    ensures
        taken(paths, filter, mode).no_duplicates(),
    decreases paths.len(),
{
    if paths.len() > 0 {
        let rest = paths.drop_last();
        lemma_taken_once(rest, filter, mode);
        lemma_taken(rest, filter, mode);
        let before = taken(rest, filter, mode);
        assert(!before.contains(paths.last())) by {
            if before.contains(paths.last()) {
                let i = choose|i: int| 0 <= i < rest.len() && rest[i] == paths.last();
                assert(paths[i] == paths[paths.len() - 1]);
            }
        }
        assert forall|i: int, j: int|
            0 <= i < j < before.len() + 1 implies before.push(paths.last())[i] != before.push(
            paths.last(),
        )[j] by {
            assert(before.contains(before[i]));
        }
    }
}

// ---------------------------------------------------------------------------
// Code
// ---------------------------------------------------------------------------

/// A node that was captured covers a byte.
pub open spec fn is_captured(matches: Seq<Seq<CaptureView>>, i: int, j: int, b: int) -> bool {
    &&& 0 <= i < matches.len()
    &&& 0 <= j < matches[i].len()
    &&& matches[i][j].node.start_byte <= b < matches[i][j].node.end_byte
}

/// The captured ranges cover the bytes that the captured nodes cover.
proof fn lemma_captured_ranges(matches: Seq<Seq<CaptureView>>, b: int)
    ensures
        covers(captured_ranges(matches), b) <==> exists|i: int, j: int| #[trigger]
            is_captured(matches, i, j, b),
    decreases matches.len(),
{
    if matches.len() > 0 {
        let rest = matches.drop_last();
        let last = matches.last();
        lemma_captured_ranges(rest, b);
        let before = captured_ranges(rest);
        let here = node_ranges(last);
        let all = captured_ranges(matches);
        assert(all == before + here);
        if covers(all, b) {
            let k = choose|k: int| 0 <= k < all.len() && (#[trigger] all[k]).0 <= b < all[k].1;
            if k < before.len() {
                assert(before[k] == all[k]);
                let (i, j) = choose|i: int, j: int| #[trigger] is_captured(rest, i, j, b);
                assert(rest[i] == matches[i]);
                assert(is_captured(matches, i, j, b));
            } else {
                assert(here[k - before.len()] == all[k]);
                assert(is_captured(matches, matches.len() - 1, k - before.len(), b));
            }
        }
        if exists|i: int, j: int| #[trigger] is_captured(matches, i, j, b) {
            let (i, j) = choose|i: int, j: int| #[trigger] is_captured(matches, i, j, b);
            if i < rest.len() {
                assert(rest[i] == matches[i]);
                assert(is_captured(rest, i, j, b));
                let k = choose|k: int|
                    0 <= k < before.len() && (#[trigger] before[k]).0 <= b < before[k].1;
                assert(all[k] == before[k]);
            } else {
                assert(here[j].0 <= b < here[j].1);
                assert(all[before.len() + j] == here[j]);
            }
        }
    }
}

/// A range has a byte.
pub open spec fn is_in_range(ranges: Seq<(usize, usize)>, k: int, b: int) -> bool {
    0 <= k < ranges.len() && ranges[k].0 <= b < ranges[k].1
}

/// A byte of a file is no code: the ranges kept for the file as it is now have it; where none
/// are kept, a node that the query of its language for comments and strings captures has it.
pub open spec fn is_no_code(
    tree: FileTreeView,
    configs: Map<Language, ConfigView>,
    cache: Queries,
    file: Seq<char>,
    text: Seq<char>,
    b: int,
) -> bool {
    let entry = tree.files[file];
    let language = entry.language;
    parsed_language(language) && if tree.ranges.contains_key(file) && tree.ranges[file].size
        == entry.size && tree.ranges[file].modified == entry.modified && tree.ranges[file].language
        == language {
        exists|k: int| #[trigger] is_in_range(tree.ranges[file].ranges, k, b)
    } else {
        configs.contains_key(language) && match non_code_query(language) {
            Some(words) => match (
                parse_outcome(configs[language].language, text),
                query_for(cache, language, QueryKind::NonCode, configs[language].language, words),
            ) {
                (Ok(tree), Ok(query)) => exists|i: int, j: int| #[trigger]
                    is_captured(query_matches(tree, query, text, None), i, j, b),
                _ => false,
            },
            None => false,
        }
    }
}

/// What is left out of a search in code are the bytes that are no code.
proof fn lemma_exclusions(
    tree: FileTreeView,
    configs: Map<Language, ConfigView>,
    cache: Queries,
    file: Seq<char>,
    text: Seq<char>,
    b: int,
)
    ensures
        covers(
            merged_ranges(exclusions(tree, configs, cache, file, text, GrepScope::Code)),
            b,
        ) <==> is_no_code(tree, configs, cache, file, text, b),
{
    let entry = tree.files[file];
    let language = entry.language;
    let excluded = exclusions(tree, configs, cache, file, text, GrepScope::Code);
    law_merging_keeps_cover(excluded, b);
    assert(covers(excluded, b) <==> exists|k: int| #[trigger] is_in_range(excluded, k, b)) by {
        if covers(excluded, b) {
            let k = choose|k: int|
                0 <= k < excluded.len() && (#[trigger] excluded[k]).0 <= b < excluded[k].1;
            assert(is_in_range(excluded, k, b));
        }
        if exists|k: int| #[trigger] is_in_range(excluded, k, b) {
            let k = choose|k: int| #[trigger] is_in_range(excluded, k, b);
            assert(excluded[k].0 <= b < excluded[k].1);
        }
    }
    if parsed_language(language) && configs.contains_key(language) {
        if let Some(words) = non_code_query(language) {
            if let (Ok(parsed), Ok(query)) = (
                parse_outcome(configs[language].language, text),
                query_for(cache, language, QueryKind::NonCode, configs[language].language, words),
            ) {
                let matches = query_matches(parsed, query, text, None);
                lemma_captured_ranges(matches, b);
                law_merging_keeps_cover(captured_ranges(matches), b);
            }
        }
    }
}

/// A match of a pattern starts at a byte of a line that is code.
pub open spec fn starts_in_code(
    tree: FileTreeView,
    configs: Map<Language, ConfigView>,
    cache: Queries,
    file: Seq<char>,
    text: Seq<char>,
    row: LineView,
    found: (usize, usize),
) -> bool {
    !is_no_code(tree, configs, cache, file, text, row.start + found.0)
}

/// A line has a match; in a search of code, one that starts in code.
pub open spec fn has_match(
    tree: FileTreeView,
    configs: Map<Language, ConfigView>,
    cache: Queries,
    file: Seq<char>,
    text: Seq<char>,
    row: LineView,
    re: Regex,
    scope: GrepScope,
) -> bool {
    let found = regex_finds(re, row.text);
    match scope {
        GrepScope::All => found.len() > 0,
        GrepScope::Code => exists|k: int|
            0 <= k < found.len() && #[trigger] starts_in_code(
                tree,
                configs,
                cache,
                file,
                text,
                row,
                found[k],
            ),
    }
}

/// Where a line is a hit.
proof fn lemma_hit(
    tree: FileTreeView,
    configs: Map<Language, ConfigView>,
    cache: Queries,
    file: Seq<char>,
    text: Seq<char>,
    row: LineView,
    re: Regex,
    scope: GrepScope,
)
    ensures
        is_hit(
            regex_finds(re, row.text),
            row.start,
            scope,
            merged_ranges(exclusions(tree, configs, cache, file, text, scope)),
        ) <==> has_match(tree, configs, cache, file, text, row, re, scope),
{
    if scope == GrepScope::Code {
        let found = regex_finds(re, row.text);
        let excluded = merged_ranges(exclusions(tree, configs, cache, file, text, scope));
        assert forall|k: int| 0 <= k < found.len() implies #[trigger] in_code(
            found[k],
            row.start,
            excluded,
        ) == starts_in_code(tree, configs, cache, file, text, row, found[k]) by {
            lemma_exclusions(tree, configs, cache, file, text, row.start + found[k].0);
        }
        if is_hit(found, row.start, scope, excluded) {
            let k = choose|k: int|
                0 <= k < found.len() && #[trigger] in_code(found[k], row.start, excluded);
            assert(starts_in_code(tree, configs, cache, file, text, row, found[k]));
        }
        if has_match(tree, configs, cache, file, text, row, re, scope) {
            let k = choose|k: int|
                0 <= k < found.len() && #[trigger] starts_in_code(
                    tree,
                    configs,
                    cache,
                    file,
                    text,
                    row,
                    found[k],
                );
            assert(in_code(found[k], row.start, excluded));
        }
    }
}

// ---------------------------------------------------------------------------
// All lines
// ---------------------------------------------------------------------------

/// A match is made of one of the first `n` lines that are hits.
spec fn is_of_hit(
    m: GrepMatchView,
    file: Seq<char>,
    rows: Seq<LineView>,
    found: Seq<Seq<(usize, usize)>>,
    scope: GrepScope,
    excluded: Seq<(usize, usize)>,
    context: int,
    n: int,
    i: int,
) -> bool {
    &&& 0 <= i < n
    &&& is_hit(found[i], rows[i].start, scope, excluded)
    &&& m == match_at(file, rows, i, context)
}

/// The hits among the first lines.
proof fn lemma_hits(
    m: GrepMatchView,
    file: Seq<char>,
    rows: Seq<LineView>,
    found: Seq<Seq<(usize, usize)>>,
    scope: GrepScope,
    excluded: Seq<(usize, usize)>,
    context: int,
    n: int,
)
    requires
        n <= rows.len(),
    ensures
        hits(file, rows, found, scope, excluded, context, n).contains(m) <==> exists|i: int|
            #[trigger] is_of_hit(m, file, rows, found, scope, excluded, context, n, i),
    decreases n,
{
    let all = hits(file, rows, found, scope, excluded, context, n);
    if n > 0 {
        lemma_hits(m, file, rows, found, scope, excluded, context, n - 1);
        let before = hits(file, rows, found, scope, excluded, context, n - 1);
        if all.contains(m) {
            let k = choose|k: int| 0 <= k < all.len() && all[k] == m;
            if k < before.len() {
                assert(before[k] == m);
                let i = choose|i: int| #[trigger]
                    is_of_hit(m, file, rows, found, scope, excluded, context, n - 1, i);
                assert(is_of_hit(m, file, rows, found, scope, excluded, context, n, i));
            } else {
                assert(is_of_hit(m, file, rows, found, scope, excluded, context, n, n - 1));
            }
        }
        if exists|i: int| #[trigger]
            is_of_hit(m, file, rows, found, scope, excluded, context, n, i) {
            let i = choose|i: int| #[trigger]
                is_of_hit(m, file, rows, found, scope, excluded, context, n, i);
            if i < n - 1 {
                assert(is_of_hit(m, file, rows, found, scope, excluded, context, n - 1, i));
                let k = choose|k: int| 0 <= k < before.len() && before[k] == m;
                assert(all[k] == m);
            } else {
                assert(all[before.len() as int] == m);
            }
        }
    } else {
        assert(all.len() == 0);
    }
}

/// A match shows line `n` of a text, which has a match.
pub open spec fn is_found_line(
    m: GrepMatchView,
    n: int,
    tree: FileTreeView,
    configs: Map<Language, ConfigView>,
    cache: Queries,
    text: Seq<char>,
    search: Search,
) -> bool {
    &&& shows_line(m, lines_of(text), n, search.context)
    &&& has_match(
        tree,
        configs,
        cache,
        m.file,
        text,
        lines_of(text)[n - 1],
        search.re,
        search.scope,
    )
}

/// The hits in one file.
proof fn lemma_hits_in(
    m: GrepMatchView,
    tree: FileTreeView,
    configs: Map<Language, ConfigView>,
    cache: Queries,
    file: Seq<char>,
    text: Seq<char>,
    search: Search,
)
    requires
        0 <= search.context,
    ensures
        hits_in(
            search,
            file,
            text,
            exclusions(tree, configs, cache, file, text, search.scope),
        ).contains(m) <==> m.file == file && exists|n: int| #[trigger]
            is_found_line(m, n, tree, configs, cache, text, search),
{
    let rows = lines_of(text);
    let found = found_in(search.re, rows);
    let excluded = merged_ranges(exclusions(tree, configs, cache, file, text, search.scope));
    let total = rows.len() as int;
    let (scope, context) = (search.scope, search.context);
    lemma_hits(m, file, rows, found, scope, excluded, context, total);
    if exists|i: int| #[trigger]
        is_of_hit(m, file, rows, found, scope, excluded, context, total, i) {
        let i = choose|i: int| #[trigger]
            is_of_hit(m, file, rows, found, scope, excluded, context, total, i);
        law_context(file, rows, i + 1, context, m);
        lemma_hit(tree, configs, cache, file, text, rows[i], search.re, scope);
        assert(is_found_line(m, i + 1, tree, configs, cache, text, search));
    }
    if m.file == file && exists|n: int| #[trigger]
        is_found_line(m, n, tree, configs, cache, text, search) {
        let n = choose|n: int| #[trigger]
            is_found_line(m, n, tree, configs, cache, text, search);
        law_context(file, rows, n, context, m);
        lemma_hit(tree, configs, cache, file, text, rows[n - 1], search.re, scope);
        assert(is_of_hit(m, file, rows, found, scope, excluded, context, total, n - 1));
    }
}

/// The query of a language for what is no code.
spec fn no_code_query(
    configs: Map<Language, ConfigView>,
    cache: Queries,
    language: Language,
) -> Option<Result<tree_sitter::Query, tree_sitter::QueryError>> {
    match (config_of(configs, language), non_code_query(language)) {
        (Some(c), Some(words)) => Some(
            query_for(cache, language, QueryKind::NonCode, c.language, words),
        ),
        _ => None,
    }
}

/// What is left out of a file stays the same from one state of a search to another.
spec fn leaves_out_the_same(
    state: Searched,
    tree: FileTreeView,
    configs: Map<Language, ConfigView>,
    cache: Queries,
    seen: Seq<Seq<char>>,
) -> bool {
    &&& state.tree.files == tree.files
    &&& forall|file: Seq<char>|
        !seen.contains(file) ==> (state.tree.ranges.contains_key(file)
            <==> #[trigger] tree.ranges.contains_key(file)) && state.tree.ranges[file]
            == tree.ranges[file]
    &&& forall|l: Language| #[trigger]
        no_code_query(configs, state.cache, l) == no_code_query(configs, cache, l)
}

/// The lines found in the files of a list.
proof fn lemma_found(
    m: GrepMatchView,
    search: Search,
    tree: FileTreeView,
    cache: Queries,
    configs: Map<Language, ConfigView>,
    reads: Map<Seq<char>, ReadView>,
    paths: Seq<Seq<char>>,
)
    requires
        paths.no_duplicates(),
        0 <= search.context,
    ensures
        leaves_out_the_same(
            found_in_files(search, tree, cache, configs, reads, paths),
            tree,
            configs,
            cache,
            paths,
        ),
        found_in_files(search, tree, cache, configs, reads, paths).hits.contains(m) <==> {
            &&& paths.contains(m.file)
            &&& read_of(reads, m.file) matches Ok(text) && exists|n: int| #[trigger]
                is_found_line(m, n, tree, configs, cache, text, search)
        },
    decreases paths.len(),
{
    let done = found_in_files(search, tree, cache, configs, reads, paths);
    if paths.len() == 0 {
        assert(done.hits.len() == 0);
    } else {
        let rest = paths.drop_last();
        let file = paths.last();
        let state = found_in_files(search, tree, cache, configs, reads, rest);
        lemma_found(m, search, tree, cache, configs, reads, rest);
        assert(done == with_searched(state, search, configs, reads, file));
        assert(!rest.contains(file)) by {
            if rest.contains(file) {
                let i = choose|i: int| 0 <= i < rest.len() && rest[i] == file;
                assert(paths[i] == paths[paths.len() - 1]);
            }
        }
        assert(forall|p: Seq<char>| #[trigger]
            paths.contains(p) <==> rest.contains(p) || p == file) by {
            assert forall|p: Seq<char>| #[trigger] paths.contains(p) <==> rest.contains(p) || p
                == file by {
                if paths.contains(p) {
                    let i = choose|i: int| 0 <= i < paths.len() && paths[i] == p;
                    if i < rest.len() {
                        assert(rest[i] == p);
                    }
                }
                if rest.contains(p) {
                    let i = choose|i: int| 0 <= i < rest.len() && rest[i] == p;
                    assert(paths[i] == p);
                }
                assert(paths[paths.len() - 1] == file);
            }
        }
        if let Ok(text) = read_of(reads, file) {
            let language = tree.files[file].language;
            let (scope, re) = (search.scope, search.re);
            assert(tree.ranges.contains_key(file) <==> state.tree.ranges.contains_key(file));
            assert(no_code_query(configs, state.cache, language) == no_code_query(
                configs,
                cache,
                language,
            ));
            assert(exclusions(state.tree, configs, state.cache, file, text, scope) == exclusions(
                tree,
                configs,
                cache,
                file,
                text,
                scope,
            ));
            let here = hits_in(
                search,
                file,
                text,
                exclusions(tree, configs, cache, file, text, scope),
            );
            lemma_hits_in(m, tree, configs, cache, file, text, search);
            assert(done.hits == state.hits + here);
            if done.hits.contains(m) {
                let k = choose|k: int| 0 <= k < done.hits.len() && done.hits[k] == m;
                if k < state.hits.len() {
                    assert(state.hits[k] == m);
                } else {
                    assert(here[k - state.hits.len()] == m);
                }
            }
            if state.hits.contains(m) {
                let k = choose|k: int| 0 <= k < state.hits.len() && state.hits[k] == m;
                assert(done.hits[k] == m);
            }
            if here.contains(m) {
                let k = choose|k: int| 0 <= k < here.len() && here[k] == m;
                assert(done.hits[state.hits.len() + k] == m);
            }
            assert forall|l: Language| #[trigger]
                no_code_query(configs, done.cache, l) == no_code_query(configs, cache, l) by {
                assert(no_code_query(configs, state.cache, l) == no_code_query(configs, cache, l));
                if let (Some(c), Some(words)) = (config_of(configs, l), non_code_query(l)) {
                    if let (Some(d), Some(others)) = (
                        config_of(configs, language),
                        non_code_query(language),
                    ) {
                        law_query_stays(
                            state.cache,
                            l,
                            QueryKind::NonCode,
                            c.language,
                            words,
                            (language, QueryKind::NonCode),
                            d.language,
                            others,
                        );
                    }
                }
            }
            assert forall|p: Seq<char>| !paths.contains(p) implies (
            done.tree.ranges.contains_key(p) <==> #[trigger] tree.ranges.contains_key(p))
                && done.tree.ranges[p] == tree.ranges[p] by {
                assert(!rest.contains(p) && p != file);
            }
        }
    }
}

/// The ranges that a search of code keeps for a file are those of its bytes that are no
/// code; where some were kept for the file as it is, these stay.
pub proof fn law_ranges_kept(
    search: Search,
    tree: FileTreeView,
    cache: Queries,
    configs: Map<Language, ConfigView>,
    reads: Map<Seq<char>, ReadView>,
    paths: Seq<Seq<char>>,
    file: Seq<char>,
    text: Seq<char>,
    b: int,
)
    requires
        paths.no_duplicates(),
        paths.contains(file),
        0 <= search.context,
        search.scope == GrepScope::Code,
        parsed_language(tree.files[file].language),
        read_of(reads, file) == Ok::<Seq<char>, Seq<char>>(text),
    ensures
        ({
            let after = found_in_files(search, tree, cache, configs, reads, paths).tree;
            &&& after.ranges.contains_key(file)
            &&& (exists|k: int| #[trigger] is_in_range(after.ranges[file].ranges, k, b))
                <==> is_no_code(tree, configs, cache, file, text, b)
        }),
    decreases paths.len(),
{
    let rest = paths.drop_last();
    let last = paths.last();
    let n = paths.len() - 1;
    let state = found_in_files(search, tree, cache, configs, reads, rest);
    let after = found_in_files(search, tree, cache, configs, reads, paths).tree;
    assert(paths[n] == last);
    assert(rest.no_duplicates()) by {
        assert forall|i: int, j: int| 0 <= i < j < rest.len() implies rest[i] != rest[j] by {
            assert(paths[i] != paths[j]);
        }
    }
    let m = GrepMatchView {
        file,
        line: 0,
        text,
        context_before: Seq::empty(),
        context_after: Seq::empty(),
    };
    lemma_found(m, search, tree, cache, configs, reads, rest);
    if last == file {
        assert(!rest.contains(file)) by {
            if rest.contains(file) {
                let i = choose|i: int| 0 <= i < rest.len() && rest[i] == file;
                assert(paths[i] == paths[n]);
            }
        }
        let language = tree.files[file].language;
        assert(tree.ranges.contains_key(file) <==> state.tree.ranges.contains_key(file));
        assert(no_code_query(configs, state.cache, language) == no_code_query(
            configs,
            cache,
            language,
        ));
        let excluded = exclusions(tree, configs, cache, file, text, GrepScope::Code);
        assert(exclusions(state.tree, configs, state.cache, file, text, GrepScope::Code)
            == excluded);
        assert(after.ranges[file].ranges == excluded);
        lemma_exclusions(tree, configs, cache, file, text, b);
        law_merging_keeps_cover(excluded, b);
        if covers(excluded, b) {
            let k = choose|k: int|
                0 <= k < excluded.len() && (#[trigger] excluded[k]).0 <= b < excluded[k].1;
            assert(is_in_range(excluded, k, b));
        }
        if exists|k: int| #[trigger] is_in_range(excluded, k, b) {
            let k = choose|k: int| #[trigger] is_in_range(excluded, k, b);
            assert(excluded[k].0 <= b < excluded[k].1);
        }
    } else {
        let i = choose|i: int| 0 <= i < paths.len() && paths[i] == file;
        assert(rest[i] == file);
        law_ranges_kept(search, tree, cache, configs, reads, rest, file, text, b);
    }
}

/// The lines that a search finds are the lines with a match of the files that are let in and
/// can be read, all of them and nothing else, each with its context. In a search of code a
/// match counts where it starts in code.
pub proof fn law_found_lines(
    tree: FileTreeView,
    cache: Queries,
    configs: Map<Language, ConfigView>,
    reads: Map<Seq<char>, ReadView>,
    pattern: Seq<char>,
    context: int,
    scope: GrepScope,
    filter: Option<Seq<char>>,
    mode: Option<FileMatchMode>,
    m: GrepMatchView,
)
    requires
        lists_in_order(sorted_keys(tree.files), tree.files),
        grep_error(tree, pattern, filter, mode) is None,
        0 <= context,
    ensures
        grep_found(
            tree,
            cache,
            configs,
            reads,
            pattern,
            context,
            scope,
            filter,
            mode,
        ).hits.contains(m) <==> {
            &&& tree.files.contains_key(m.file)
            &&& lets_in(m.file, filter, mode)
            &&& regex_outcome(pattern) matches Ok(re) && read_of(reads, m.file) matches Ok(text)
                && exists|n: int| #[trigger]
                is_found_line(m, n, tree, configs, cache, text, Search { re, scope, context })
        },
{
    law_files_searched(tree, pattern, filter, mode, m.file);
    lemma_found(
        m,
        Search { re: regex_outcome(pattern)->Ok_0, scope, context },
        tree,
        cache,
        configs,
        reads,
        searched_paths(sorted_keys(tree.files), filter, mode)->Ok_0,
    );
}

} // verus!
