//! Which queries are used, and which are kept.
use vstd::prelude::*;
use crate::index::file_entry::{parsed_language, FileEntryView, Language};
use crate::index::file_tree::FileTreeView;
use crate::laws::indexing::grows_by_kind;
use crate::ops::content::{found_in_files, GrepScope, Search};
use crate::ops::symbol_ops::tests_of::{
    blocks_query, cache_after_exunit, cache_after_tests, calls_query, exunit_blocks,
};
use crate::sources::{read_of, ReadView};
use crate::symbols::queries::elixir::{config_view, grammar_of};
use crate::symbols::queries::{config_of, query_for, ConfigView, Queries, QueryKind};
use crate::symbols::syntax::{compile_outcome, parse_outcome};

verus! {

/// The queries of Elixir: for symbols, for calls and for variables.
pub proof fn law_queries_of_elixir()
    ensures
        config_view().language == grammar_of(Language::Elixir),
        config_view().symbols_query == r#"
(call
  target: (identifier) @ignore
  (arguments (alias) @mod.name)
  (#any-of? @ignore "defmodule" "defprotocol" "defimpl")) @mod.def

(call
  target: (identifier) @ignore
  (arguments (alias) @import.name)
  (#any-of? @ignore "alias" "import" "require" "use")) @import.def

(call
  target: (identifier) @ignore
  (arguments
    [
      (identifier) @function.name
      (call target: (identifier) @function.name)
      (binary_operator
        left: (call target: (identifier) @function.name)
        operator: "when")
    ])
  (#any-of? @ignore "def" "defp" "defdelegate" "defguard" "defguardp" "defmacro" "defmacrop" "defn" "defnp")) @function.def
"#@,
        config_view().callers_query == r#"
(call
  target: (identifier) @callee)

(call
  target: (dot
    right: (identifier) @callee))

(binary_operator
  operator: "|>"
  right: (identifier) @callee)

(binary_operator
  operator: "|>"
  right: (call
    target: (dot
      right: (identifier) @callee)))
"#@,
        config_view().variables_query == r#"
(call
  target: (identifier) @ignore
  (arguments
    (call
      target: (identifier)
      (arguments
        (identifier) @var.name)))
  (#any-of? @ignore "def" "defp" "defdelegate" "defguard" "defguardp" "defmacro" "defmacrop" "defn" "defnp"))

(call
  target: (identifier) @ignore
  (arguments
    (binary_operator
      left: (call
        target: (identifier)
        (arguments
          (identifier) @var.name))
      operator: "when"))
  (#any-of? @ignore "def" "defp" "defdelegate" "defguard" "defguardp" "defmacro" "defmacrop" "defn" "defnp"))

(binary_operator
  left: (identifier) @var.name
  "=")

(binary_operator
  left: (identifier) @var.name
  "<-")
"#@,
{
}

/// The queries by which tests of Elixir are found: one for blocks, and the one for calls.
pub proof fn law_queries_of_tests(cache: Queries)
    ensures
        blocks_query(cache) == query_for(
            cache,
            Language::Elixir,
            QueryKind::ElixirExUnitBlocks,
            grammar_of(Language::Elixir),
            r#"
(call
  target: (identifier) @test.kind
  (arguments
    [
      (string) @test.name
      (charlist) @test.name
      (sigil) @test.name
    ])
  (#any-of? @test.kind "test" "describe")) @test.def
"#@,
        ),
        calls_query(cache) == query_for(
            cache,
            Language::Elixir,
            QueryKind::Callers,
            grammar_of(Language::Elixir),
            config_view().callers_query,
        ),
{
}

/// A language is configured where it is parsed and has a configuration, and then by that
/// one. A query that is kept is used, and otherwise it is compiled.
pub proof fn law_configuration(
    configs: Map<Language, ConfigView>,
    language: Language,
    cache: Queries,
    kind: QueryKind,
    grammar: tree_sitter::Language,
    text: Seq<char>,
)
    ensures
        parsed_language(language) && configs.contains_key(language) ==> config_of(
            configs,
            language,
        ) == Some(configs[language]),
        !(parsed_language(language) && configs.contains_key(language)) ==> config_of(
            configs,
            language,
        ) is None,
        cache.contains_key((language, kind)) ==> query_for(cache, language, kind, grammar, text)
            == Ok::<tree_sitter::Query, tree_sitter::QueryError>(cache[(language, kind)]),
        !cache.contains_key((language, kind)) ==> query_for(cache, language, kind, grammar, text)
            == compile_outcome(grammar, text),
{
}

/// A store of queries has all that another has, and further only queries of Elixir, for
/// blocks of tests and for calls.
pub open spec fn grows_by_tests(before: Queries, after: Queries) -> bool {
    &&& forall|l: Language, k: QueryKind| #[trigger]
        before.contains_key((l, k)) ==> after.contains_key((l, k)) && after[(l, k)]
            == before[(l, k)]
    &&& forall|l: Language, k: QueryKind| #[trigger]
        after.contains_key((l, k)) ==> before.contains_key((l, k)) || (l == Language::Elixir && (k
            == QueryKind::ElixirExUnitBlocks || k == QueryKind::Callers))
}

/// What looking for tests in a text leaves kept: without a tree nothing more; with one the
/// query for blocks where it compiles; and where one of the blocks is a test also the query
/// for calls where it compiles.
pub proof fn law_queries_kept_for_a_text(source: Seq<char>, cache: Queries)
    ensures
        ({
            let after = cache_after_tests(source, cache);
            match parse_outcome(grammar_of(Language::Elixir), source) {
                Err(_) => after == cache,
                Ok(tree) => {
                    let blocks = exunit_blocks(source, tree, cache);
                    let calls = exists|k: int|
                        0 <= k < blocks.len() && (#[trigger] blocks[k]).kind == "test"@;
                    &&& after.contains_key((Language::Elixir, QueryKind::ElixirExUnitBlocks))
                        <==> blocks_query(cache) is Ok
                    &&& after.contains_key((Language::Elixir, QueryKind::Callers))
                        <==> cache.contains_key((Language::Elixir, QueryKind::Callers)) || (calls
                        && calls_query(cache) is Ok)
                },
            }
        }),
{
}

/// Looking for tests keeps what is kept, and adds the two queries alone.
pub proof fn law_queries_kept_for_tests(
    cache: Queries,
    reads: Map<Seq<char>, ReadView>,
    files: Map<Seq<char>, FileEntryView>,
    paths: Seq<Seq<char>>,
    name: Seq<char>,
    cap: int,
)
    ensures
        grows_by_tests(cache, cache_after_exunit(cache, reads, files, paths, name, cap)),
    decreases paths.len(),
{
    if paths.len() > 0 {
        let rest = paths.drop_last();
        law_queries_kept_for_tests(cache, reads, files, rest, name, cap);
        let before = cache_after_exunit(cache, reads, files, rest, name, cap);
        if let Ok(source) = read_of(reads, paths.last()) {
            lemma_tests_of_a_text(source, before);
        }
    }
}

/// What one text adds.
proof fn lemma_tests_of_a_text(source: Seq<char>, cache: Queries)
    ensures
        grows_by_tests(cache, cache_after_tests(source, cache)),
{
}

/// A search keeps the queries that are kept and adds queries for what is no code alone. It
/// leaves the files and the call sites of the index as they are. A search of everything
/// leaves the ranges too; a search of code keeps those of other files, and keeps those of a
/// file that were there for the file as it is.
pub proof fn law_search_keeps(
    search: Search,
    tree: FileTreeView,
    cache: Queries,
    configs: Map<Language, ConfigView>,
    reads: Map<Seq<char>, ReadView>,
    paths: Seq<Seq<char>>,
    other: Seq<char>,
)
    ensures
        ({
            let after = found_in_files(search, tree, cache, configs, reads, paths);
            &&& grows_by_kind(cache, after.cache, QueryKind::NonCode)
            &&& after.tree.files == tree.files
            &&& after.tree.sites == tree.sites
            &&& search.scope == GrepScope::All ==> after.tree == tree && after.cache == cache
            &&& !paths.contains(other) || !parsed_language(tree.files[other].language) || read_of(
                reads,
                other,
            ) is Err ==> (after.tree.ranges.contains_key(other) <==> tree.ranges.contains_key(
                other,
            )) && after.tree.ranges[other] == tree.ranges[other]
            &&& search.scope == GrepScope::Code && paths.contains(other) && parsed_language(
                tree.files[other].language,
            ) && read_of(reads, other) is Ok ==> {
                &&& after.tree.ranges.contains_key(other)
                &&& after.tree.ranges[other].size == tree.files[other].size
                &&& after.tree.ranges[other].modified == tree.files[other].modified
                &&& after.tree.ranges[other].language == tree.files[other].language
            }
        }),
    decreases paths.len(),
{
    if paths.len() > 0 {
        let rest = paths.drop_last();
        let last = paths.last();
        let n = paths.len() - 1;
        assert(paths[n] == last);
        law_search_keeps(search, tree, cache, configs, reads, rest, other);
        assert(paths.contains(other) <==> rest.contains(other) || other == last) by {
            if paths.contains(other) {
                let i = choose|i: int| 0 <= i < paths.len() && paths[i] == other;
                if i < n {
                    assert(rest[i] == other);
                }
            }
            if rest.contains(other) {
                let i = choose|i: int| 0 <= i < rest.len() && rest[i] == other;
                assert(paths[i] == other);
            }
        }
    }
}

} // verus!
