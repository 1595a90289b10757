//! The queries with which the syntax trees of each language are searched.
pub mod elixir;

use std::sync::Arc;
use tree_sitter::Language as Grammar;
use tree_sitter::{Query, QueryError, Tree};
use vstd::prelude::*;
use crate::index::file_entry::{parsed_language, Language};
use crate::symbols::syntax::{
    capture_names, compile_outcome, compile_query, is_tree_of, parse_outcome, parse_source,
    query_captures,
};
use crate::text::views;

verus! {

/// What a query looks for.
#[derive(Debug, Clone, Copy, PartialEq, Eq, Hash, Structural)]
pub enum QueryKind {
    Symbols,
    Callers,
    Variables,
    NonCode,
    ElixirExUnitBlocks,
}

// ---------------------------------------------------------------------------
// Languages
// ---------------------------------------------------------------------------

/// How the tests of a language are told.
#[derive(Debug, Clone, Copy)]
pub enum TestPattern {
    /// Functions whose name starts with a prefix (e.g. `test_` in Python).
    FunctionPrefix(&'static str),
    /// Functions with an attribute or decorator (e.g. `#[test]` in Rust).
    Attribute(&'static str),
    /// Call expressions (e.g. `it()`, `test()` and `describe()` in JavaScript).
    CallExpression(&'static str),
}

/// The grammar of a language and the queries on its trees.
pub struct LanguageConfig {
    pub language: Grammar,
    pub symbols_query: &'static str,
    /// The query for call expressions. Captures `@callee` for the called name.
    pub callers_query: &'static str,
    /// The query for local variable bindings. Captures `@var.name`.
    pub variables_query: &'static str,
    pub test_patterns: Vec<TestPattern>,
}

/// The grammar of a language and the texts of its queries.
pub struct ConfigView {
    pub language: Grammar,
    pub symbols_query: Seq<char>,
    pub callers_query: Seq<char>,
    pub variables_query: Seq<char>,
    pub test_patterns: Seq<TestPattern>,
}

impl View for LanguageConfig {
    type V = ConfigView;

    open spec fn view(&self) -> ConfigView {
        ConfigView {
            language: self.language,
            symbols_query: self.symbols_query@,
            callers_query: self.callers_query@,
            variables_query: self.variables_query@,
            test_patterns: self.test_patterns@,
        }
    }
}

/// The configuration of each language, the last one registered.
pub open spec fn configs_of(entries: Seq<(Language, LanguageConfig)>) -> Map<Language, ConfigView>
    decreases entries.len(),
{
    if entries.len() == 0 {
        Map::empty()
    } else {
        configs_of(entries.drop_last()).insert(entries.last().0, entries.last().1@)
    }
}

/// The configurations of the languages that a program works with.
pub struct LanguageConfigs {
    entries: Vec<(Language, LanguageConfig)>,
}

impl View for LanguageConfigs {
    type V = Map<Language, ConfigView>;

    closed spec fn view(&self) -> Map<Language, ConfigView> {
        configs_of(self.entries@)
    }
}

/// The configuration of a language: only those that are parsed have one.
pub open spec fn config_of(configs: Map<Language, ConfigView>, lang: Language) -> Option<
    ConfigView,
> {
    if parsed_language(lang) && configs.contains_key(lang) {
        Some(configs[lang])
    } else {
        None
    }
}

impl LanguageConfigs {
    /// The configurations that this crate brings: that of Elixir.
    pub fn builtin() -> (r: Self)
        ensures
            r@ == map![Language::Elixir => elixir::config_view()],
    {
        let mut configs = LanguageConfigs { entries: Vec::new() };
        configs.register(Language::Elixir, elixir::config());
        configs
    }

    /// Sets the configuration of a language.
    pub fn register(&mut self, lang: Language, config: LanguageConfig)
        ensures
            final(self)@ == old(self)@.insert(lang, config@),
    {
        let ghost before = self.entries@;
        self.entries.push((lang, config));
        assert(self.entries@.drop_last() =~= before);
    }
}

/// The grammar and the queries of a language.
pub fn get_language_config(configs: &LanguageConfigs, lang: Language) -> (r: Option<
    &LanguageConfig,
>)
    ensures
        match r {
            Some(c) => config_of(configs@, lang) == Some(c@),
            None => config_of(configs@, lang) is None,
        },
{
    if !lang.has_tree_sitter_support() {
        return None;
    }
    let mut n: usize = configs.entries.len();
    assert(configs.entries@.take(n as int) =~= configs.entries@);
    while n > 0
        invariant
            parsed_language(lang),
            n <= configs.entries@.len(),
            config_of(configs@, lang) == config_of(configs_of(configs.entries@.take(n as int)), lang),
        decreases n,
    {
        let ghost prefix = configs.entries@.take(n as int);
        assert(prefix.drop_last() =~= configs.entries@.take(n - 1));
        assert(prefix.last() == configs.entries@[n - 1]);
        if configs.entries[n - 1].0 == lang {
            return Some(&configs.entries[n - 1].1);
        }
        n = n - 1;
    }
    None
}

// ---------------------------------------------------------------------------
// Compiled queries
// ---------------------------------------------------------------------------

/// A compiled query and the names of its captures.
pub struct CachedQuery {
    query: Query,
    capture_names: Vec<String>,
}

impl View for CachedQuery {
    type V = Query;

    closed spec fn view(&self) -> Query {
        self.query
    }
}

impl CachedQuery {
    #[verifier::type_invariant]
    spec fn names_belong(self) -> bool {
        views(self.capture_names@) == query_captures(self.query)
    }

    /// The compiled query.
    pub fn query(&self) -> (r: &Query)
        ensures
            *r == self@,
    {
        &self.query
    }

    /// The names of the query's captures, in the order of their numbers.
    pub fn capture_names(&self) -> (r: &Vec<String>)
        ensures
            views(r@) == query_captures(self@),
    {
        proof {
            use_type_invariant(self);
        }
        &self.capture_names
    }
}

/// Compiled queries, by the language and the kind of query.
pub type Queries = Map<(Language, QueryKind), Query>;

/// The queries of a list of entries.
pub open spec fn queries_of(entries: Seq<((Language, QueryKind), Arc<CachedQuery>)>) -> Queries
    decreases entries.len(),
{
    if entries.len() == 0 {
        Map::empty()
    } else {
        queries_of(entries.drop_last()).insert(entries.last().0, entries.last().1@)
    }
}

/// Compiled queries, by the language and the kind of query. A parser is made for
/// each operation; only compiled queries, which do not change, are shared.
pub struct QueryCache {
    entries: Vec<((Language, QueryKind), Arc<CachedQuery>)>,
}

impl View for QueryCache {
    type V = Queries;

    closed spec fn view(&self) -> Queries {
        queries_of(self.entries@)
    }
}

/// Calls `Arc::clone`: another pointer to the same value.
#[verifier::external_body]
fn share(query: &Arc<CachedQuery>) -> (r: Arc<CachedQuery>)
    ensures
        r == *query,
{
    Arc::clone(query)
}

impl QueryCache {
    /// A cache without queries.
    pub fn new() -> (r: Self)
        ensures
            r@ == Map::<(Language, QueryKind), Query>::empty(),
    {
        QueryCache { entries: Vec::new() }
    }

    /// The query for a language and kind.
    fn find(&self, language: Language, kind: QueryKind) -> (r: Option<Arc<CachedQuery>>)
        ensures
            match r {
                Some(q) => self@.contains_key((language, kind)) && self@[(language, kind)] == q@,
                None => !self@.contains_key((language, kind)),
            },
    {
        let mut n: usize = self.entries.len();
        let ghost key = (language, kind);
        assert(self.entries@.take(n as int) =~= self.entries@);
        while n > 0
            invariant
                n <= self.entries@.len(),
                key == (language, kind),
                self@.contains_key(key) == queries_of(self.entries@.take(n as int)).contains_key(
                    key,
                ),
                self@[key] == queries_of(self.entries@.take(n as int))[key],
            decreases n,
        {
            let ghost prefix = self.entries@.take(n as int);
            assert(prefix.drop_last() =~= self.entries@.take(n - 1));
            assert(prefix.last() == self.entries@[n - 1]);
            if self.entries[n - 1].0.0 == language && self.entries[n - 1].0.1 == kind {
                return Some(share(&self.entries[n - 1].1));
            }
            n = n - 1;
        }
        None
    }
}

/// The query that is used for a language and kind: the one in the cache, or else
/// what the text compiles to.
pub open spec fn query_for(
    cache: Queries,
    language: Language,
    kind: QueryKind,
    grammar: Grammar,
    text: Seq<char>,
) -> Result<Query, QueryError> {
    if cache.contains_key((language, kind)) {
        Ok(cache[(language, kind)])
    } else {
        compile_outcome(grammar, text)
    }
}

/// The cache once the query for a language and kind has been asked for.
pub open spec fn cache_after(
    cache: Queries,
    language: Language,
    kind: QueryKind,
    grammar: Grammar,
    text: Seq<char>,
) -> Queries {
    match query_for(cache, language, kind, grammar, text) {
        Ok(q) => cache.insert((language, kind), q),
        Err(_) => cache,
    }
}

/// Compiles a query for a language and kind, or takes it from the cache. What the cache
/// holds is handed out as one more pointer to it; the contract speaks of the query, not of
/// which pointers are the same.
pub fn get_cached_query(
    cache: &mut QueryCache,
    language: Language,
    kind: QueryKind,
    tree_sitter_language: &Grammar,
    query_source: &'static str,
) -> (r: Result<Arc<CachedQuery>, QueryError>)
    ensures
        query_for(old(cache)@, language, kind, *tree_sitter_language, query_source@) == (match r {
            Ok(q) => Ok(q@),
            Err(e) => Err(e),
        }),
        final(cache)@ == cache_after(
            old(cache)@,
            language,
            kind,
            *tree_sitter_language,
            query_source@,
        ),
{
    let ghost held = cache@;
    match cache.find(language, kind) {
        Some(query) => {
            assert(held.insert((language, kind), query@) =~= held);
            return Ok(query);
        },
        None => {},
    }
    match compile_query(tree_sitter_language, query_source) {
        Ok(query) => {
            let names = capture_names(&query);
            let compiled = Arc::new(CachedQuery { query, capture_names: names });
            let ghost before = cache.entries@;
            cache.entries.push(((language, kind), share(&compiled)));
            assert(cache.entries@.drop_last() =~= before);
            Ok(compiled)
        },
        Err(e) => Err(e),
    }
}

/// The tree of a text and the query that is used on it, where there are both.
pub open spec fn tree_and_query(
    cache: Queries,
    language: Language,
    kind: QueryKind,
    grammar: Grammar,
    text: Seq<char>,
    source: Seq<char>,
) -> Option<(Tree, Query)> {
    match (parse_outcome(grammar, source), query_for(cache, language, kind, grammar, text)) {
        (Ok(tree), Ok(query)) => Some((tree, query)),
        _ => None,
    }
}

/// The cache once a text has been parsed to be queried: the query is asked for where
/// there is a tree.
pub open spec fn cache_after_tree(
    cache: Queries,
    language: Language,
    kind: QueryKind,
    grammar: Grammar,
    text: Seq<char>,
    source: Seq<char>,
) -> Queries {
    if parse_outcome(grammar, source) is Ok {
        cache_after(cache, language, kind, grammar, text)
    } else {
        cache
    }
}

/// Parses a text, and takes the query on its tree from the cache or compiles it.
pub(crate) fn open_tree(
    cache: &mut QueryCache,
    language: Language,
    kind: QueryKind,
    grammar: &Grammar,
    text: &'static str,
    source: &str,
) -> (r: Option<(Tree, Arc<CachedQuery>)>)
    ensures
        tree_and_query(old(cache)@, language, kind, *grammar, text@, source@) == (match r {
            Some((tree, query)) => Some((tree, query@)),
            None => None,
        }),
        r matches Some(pair) ==> is_tree_of(pair.0, source@),
        final(cache)@ == cache_after_tree(
            old(cache)@,
            language,
            kind,
            *grammar,
            text@,
            source@,
        ),
{
    match parse_source(grammar, source) {
        Ok(tree) => match get_cached_query(cache, language, kind, grammar, text) {
            Ok(query) => Some((tree, query)),
            Err(_) => None,
        },
        Err(_) => None,
    }
}

/// How many queries the cache holds for a language and kind: one or none.
pub fn cached_query_count_for_tests(
    cache: &QueryCache,
    language: Language,
    kind: QueryKind,
) -> (r: usize)
    ensures
        r == (if cache@.contains_key((language, kind)) {
            1int
        } else {
            0
        }),
{
    match cache.find(language, kind) {
        Some(_) => 1,
        None => 0,
    }
}

/// Asking twice for the query of one language and kind gives the same query and
/// compiles nothing the second time, whatever text is handed in.
pub proof fn law_query_is_reused(
    cache: Queries,
    language: Language,
    kind: QueryKind,
    grammar: Grammar,
    text: Seq<char>,
    other_grammar: Grammar,
    other_text: Seq<char>,
)
    requires
        query_for(cache, language, kind, grammar, text) is Ok,
    ensures
        ({
            let next = cache_after(cache, language, kind, grammar, text);
            &&& query_for(next, language, kind, other_grammar, other_text) == query_for(
                cache,
                language,
                kind,
                grammar,
                text,
            )
            &&& cache_after(next, language, kind, other_grammar, other_text) == next
        }),
{
    let next = cache_after(cache, language, kind, grammar, text);
    assert(cache_after(next, language, kind, other_grammar, other_text) =~= next);
}

/// Asking for the query of one language and kind leaves those of every other
/// language and kind as they were.
pub proof fn law_queries_are_separate(
    cache: Queries,
    language: Language,
    kind: QueryKind,
    grammar: Grammar,
    text: Seq<char>,
    other: (Language, QueryKind),
)
    requires
        other != (language, kind),
    ensures
        ({
            let next = cache_after(cache, language, kind, grammar, text);
            &&& next.contains_key(other) == cache.contains_key(other)
            &&& next[other] == cache[other]
        }),
{
}

/// A query that does not compile leaves the cache as it was; one that does is held from
/// then on, once.
pub proof fn law_failed_query_is_not_held(
    cache: Queries,
    language: Language,
    kind: QueryKind,
    grammar: Grammar,
    text: Seq<char>,
)
    ensures
        ({
            let next = cache_after(cache, language, kind, grammar, text);
            match query_for(cache, language, kind, grammar, text) {
                Ok(q) => next.contains_key((language, kind)) && next[(language, kind)] == q,
                Err(_) => next == cache && !cache.contains_key((language, kind)),
            }
        }),
{
}

/// Whatever else is asked for in between, the query of a language and kind stays the one
/// that it was, as long as it is asked for with one grammar and text.
pub proof fn law_query_stays(
    cache: Queries,
    language: Language,
    kind: QueryKind,
    grammar: Grammar,
    text: Seq<char>,
    other: (Language, QueryKind),
    other_grammar: Grammar,
    other_text: Seq<char>,
)
    requires
        other == (language, kind) ==> other_grammar == grammar && other_text == text,
    ensures
        query_for(
            cache_after(cache, other.0, other.1, other_grammar, other_text),
            language,
            kind,
            grammar,
            text,
        ) == query_for(cache, language, kind, grammar, text),
{
}

} // verus!
