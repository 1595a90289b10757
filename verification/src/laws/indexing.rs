//! What indexing and watching leave behind.
use vstd::prelude::*;
use crate::config::ignored_extension;
use crate::index::call_site_cache::cache_after_calls;
use crate::index::file_entry::{language_of_path, parsed_language, FileEntryView, Language};
use crate::index::file_tree::{with_extracted, FileTreeView};
use crate::index::watcher::{
    outcomes, with_path, Counts, DiskState, Surroundings, Watched, DEBOUNCE_MILLIS,
};
use crate::ops::content::{cache_after_ranges, non_code_query};
use crate::ops::symbol_ops::callers::{cache_after_files, Target};
use crate::ops::symbol_ops::variables::cache_after_variables;
use crate::sources::{read_of, ReadView};
use crate::symbols::parser::{
    cache_after_extraction, extraction, indexed, law_extracted_keys_are_unique,
    lemma_symbols_are_found, with_symbols, Indexing,
};
use crate::symbols::queries::{config_of, query_for, ConfigView, Queries, QueryKind};
use crate::symbols::symbol::SymbolView;
use crate::symbols::syntax::parse_outcome;
use crate::symbols::table::key_of;

verus! {

// ---------------------------------------------------------------------------
// Symbols of files
// ---------------------------------------------------------------------------

/// None of the symbols has a key.
pub open spec fn is_no_key(symbols: Seq<SymbolView>, key: Seq<char>) -> bool {
    forall|i: int|
        0 <= i < symbols.len() ==> (#[trigger] symbols[i]).file + "::"@ + symbols[i].name != key
}

/// A table keeps what has the key of none of the symbols that are put into it.
proof fn lemma_untouched(
    table: Map<Seq<char>, SymbolView>,
    symbols: Seq<SymbolView>,
    key: Seq<char>,
)
    requires
        is_no_key(symbols, key),
    ensures
        with_symbols(table, symbols).contains_key(key) <==> table.contains_key(key),
        with_symbols(table, symbols)[key] == table[key],
    decreases symbols.len(),
{
    if symbols.len() > 0 {
        let rest = symbols.drop_last();
        assert forall|i: int| 0 <= i < rest.len() implies (#[trigger] rest[i]).file + "::"@
            + rest[i].name != key by {
            assert(rest[i] == symbols[i]);
        }
        lemma_untouched(table, rest, key);
        assert(symbols[symbols.len() - 1] == symbols.last());
    }
}

/// Files are indexed one behind the other. The symbols of a file that can be extracted are
/// put into the table, each under its file and name, are counted, and the file is marked;
/// nothing else changes. Where they cannot be extracted, nothing changes.
pub proof fn law_indexing(
    state: Indexing,
    configs: Map<Language, ConfigView>,
    reads: Map<Seq<char>, ReadView>,
    files: Seq<(Seq<char>, Language)>,
    path: Seq<char>,
    language: Language,
    key: Seq<char>,
)
    ensures
        indexed(state, configs, reads, Seq::empty()) == state,
        ({
            let before = indexed(state, configs, reads, files);
            let after = indexed(state, configs, reads, files.push((path, language)));
            match extraction(
                config_of(configs, language),
                before.cache,
                read_of(reads, path),
                path,
                language,
            ) {
                Ok(symbols) => {
                    &&& before.total + symbols.len() <= usize::MAX ==> after.total == before.total
                        + symbols.len()
                    &&& before.total + symbols.len() > usize::MAX ==> after.total == usize::MAX
                    &&& forall|i: int|
                        0 <= i < symbols.len() ==> {
                            let s = #[trigger] symbols[i];
                            after.table.contains_key(s.file + "::"@ + s.name) && after.table[s.file
                                + "::"@ + s.name] == s
                        }
                    &&& is_no_key(symbols, key) ==> (after.table.contains_key(key)
                        <==> before.table.contains_key(key)) && after.table[key]
                        == before.table[key]
                    &&& after.tree == with_extracted(before.tree, path)
                },
                Err(_) => after.total == before.total && after.table == before.table && after.tree
                    == before.tree,
            }
        }),
{
    let before = indexed(state, configs, reads, files);
    let after = indexed(state, configs, reads, files.push((path, language)));
    assert(files.push((path, language)).drop_last() =~= files);
    let config = config_of(configs, language);
    let source = read_of(reads, path);
    if let Ok(symbols) = extraction(config, before.cache, source, path, language) {
        law_extracted_keys_are_unique(config, before.cache, source, path, language);
        assert forall|i: int| 0 <= i < symbols.len() implies {
            let s = #[trigger] symbols[i];
            after.table.contains_key(s.file + "::"@ + s.name) && after.table[s.file + "::"@
                + s.name] == s
        } by {
            lemma_symbols_are_found(before.table, symbols, i);
            assert(key_of(symbols[i].file, symbols[i].name) == symbols[i].file + "::"@
                + symbols[i].name);
        }
        if is_no_key(symbols, key) {
            lemma_untouched(before.table, symbols, key);
        }
    }
}

/// Marking a file says of it that its symbols are extracted, and changes nothing else; a
/// file that is not there is not marked.
pub proof fn law_marking(tree: FileTreeView, path: Seq<char>, other: Seq<char>)
    ensures
        ({
            let after = with_extracted(tree, path);
            &&& after.files.contains_key(other) <==> tree.files.contains_key(other)
            &&& other != path ==> after.files[other] == tree.files[other]
            &&& tree.files.contains_key(path) ==> after.files[path] == (FileEntryView {
                symbols_extracted: true,
                ..tree.files[path]
            })
            &&& after.ranges == tree.ranges
            &&& after.sites == tree.sites
        }),
{
}

// ---------------------------------------------------------------------------
// Counts
// ---------------------------------------------------------------------------

/// What is counted of a path, by what is on disk: nothing there, or a file that is left out
/// for its extension, is a deletion; something that is no file, or a file without metadata,
/// is skipped; a file that is too large is removed; any other is changed, and parsed anew
/// where its language is parsed and its symbols can be extracted. Nothing is counted twice.
pub proof fn law_counts(
    state: Watched,
    around: Surroundings,
    path: Seq<char>,
    disk: DiskState,
)
    ensures
        ({
            let was = state.counts;
            let now = with_path(state, around, path, disk).counts;
            let language = language_of_path(path);
            let parsed = parsed_language(language) && extraction(
                config_of(around.configs, language),
                state.cache,
                read_of(around.reads, path),
                path,
                language,
            ) is Ok;
            match disk {
                DiskState::Missing => now == (Counts {
                    deleted_files: was.deleted_files + 1,
                    ..was
                }),
                DiskState::Other => now == (Counts {
                    skipped_events: was.skipped_events + 1,
                    ..was
                }),
                DiskState::File(meta) => if ignored_extension(around.filter.rules, path) {
                    now == (Counts { deleted_files: was.deleted_files + 1, ..was })
                } else {
                    match meta {
                        None => now == (Counts { skipped_events: was.skipped_events + 1, ..was }),
                        Some(m) => if m.size > around.max_file_size {
                            now == (Counts {
                                removed_oversize_files: was.removed_oversize_files + 1,
                                ..was
                            })
                        } else if parsed {
                            now == (Counts {
                                changed_files: was.changed_files + 1,
                                reparsed_files: was.reparsed_files + 1,
                                ..was
                            })
                        } else {
                            now == (Counts { changed_files: was.changed_files + 1, ..was })
                        },
                    }
                },
            }
        }),
        outcomes(state.counts) == state.counts.changed_files + state.counts.deleted_files
            + state.counts.removed_oversize_files + state.counts.skipped_events,
{
}

/// Changes are waited for half a second.
pub proof fn law_debounce_time()
    ensures
        DEBOUNCE_MILLIS == 500,
{
}

// ---------------------------------------------------------------------------
// Queries that are kept
// ---------------------------------------------------------------------------

/// One store of queries follows from another: it has what that one has, and where a
/// condition holds also the query of one language and kind.
pub open spec fn keeps_one_more(
    before: Queries,
    after: Queries,
    language: Language,
    kind: QueryKind,
    outcome: Result<tree_sitter::Query, tree_sitter::QueryError>,
    condition: bool,
) -> bool {
    &&& forall|l: Language, k: QueryKind| #[trigger]
        after.contains_key((l, k)) <==> before.contains_key((l, k)) || (l == language && k == kind
            && condition && outcome is Ok)
    &&& forall|l: Language, k: QueryKind| #[trigger]
        before.contains_key((l, k)) ==> after[(l, k)] == before[(l, k)]
    &&& condition ==> (outcome matches Ok(query) ==> after[(language, kind)] == query)
}

/// A query that is asked for is kept for its language and kind, where it compiles, and what
/// was kept before stays. For each use it is asked for where there is a tree: for symbols,
/// for calls, for variables and for what is no code.
pub proof fn law_queries_kept(
    c: ConfigView,
    cache: Queries,
    text: Seq<char>,
    language: Language,
)
    ensures
        keeps_one_more(
            cache,
            cache_after_extraction(Some(c), cache, Ok(text), language),
            language,
            QueryKind::Symbols,
            query_for(cache, language, QueryKind::Symbols, c.language, c.symbols_query),
            parse_outcome(c.language, text) is Ok,
        ),
        keeps_one_more(
            cache,
            cache_after_calls(Some(c), cache, text, language),
            language,
            QueryKind::Callers,
            query_for(cache, language, QueryKind::Callers, c.language, c.callers_query),
            parse_outcome(c.language, text) is Ok,
        ),
        keeps_one_more(
            cache,
            cache_after_variables(Some(c), cache, text, language),
            language,
            QueryKind::Variables,
            query_for(cache, language, QueryKind::Variables, c.language, c.variables_query),
            parse_outcome(c.language, text) is Ok,
        ),
        match non_code_query(language) {
            Some(words) => keeps_one_more(
                cache,
                cache_after_ranges(Some(c), cache, text, language),
                language,
                QueryKind::NonCode,
                query_for(cache, language, QueryKind::NonCode, c.language, words),
                parse_outcome(c.language, text) is Ok,
            ),
            None => cache_after_ranges(Some(c), cache, text, language) == cache,
        },
{
}

/// Without a configuration, and without a text, nothing is kept.
pub proof fn law_nothing_kept(cache: Queries, text: Seq<char>, why: Seq<char>, language: Language)
    ensures
        cache_after_extraction(None, cache, Ok(text), language) == cache,
        forall|c: ConfigView| #[trigger]
            cache_after_extraction(Some(c), cache, Err(why), language) == cache,
        cache_after_calls(None, cache, text, language) == cache,
        cache_after_variables(None, cache, text, language) == cache,
        cache_after_ranges(None, cache, text, language) == cache,
{
}

/// One store of queries has all that another has, and further only queries of one kind.
pub open spec fn grows_by_kind(before: Queries, after: Queries, kind: QueryKind) -> bool {
    &&& forall|l: Language, k: QueryKind| #[trigger]
        before.contains_key((l, k)) ==> after.contains_key((l, k)) && after[(l, k)]
            == before[(l, k)]
    &&& forall|l: Language, k: QueryKind| #[trigger]
        after.contains_key((l, k)) && k != kind ==> before.contains_key((l, k))
}

/// Looking for callers in files keeps what is kept, and adds queries for calls alone.
pub proof fn law_queries_kept_for_callers(
    target: Target,
    configs: Map<Language, ConfigView>,
    cache: Queries,
    reads: Map<Seq<char>, ReadView>,
    files: Map<Seq<char>, FileEntryView>,
    paths: Seq<Seq<char>>,
    cap: int,
)
    ensures
        grows_by_kind(
            cache,
            cache_after_files(target, configs, cache, reads, files, paths, cap),
            QueryKind::Callers,
        ),
    decreases paths.len(),
{
    if paths.len() > 0 {
        law_queries_kept_for_callers(
            target,
            configs,
            cache,
            reads,
            files,
            paths.drop_last(),
            cap,
        );
    }
}

} // verus!
