//! Finding the places where a symbol is called.
use vstd::prelude::*;
use crate::index::call_site_cache::cache_after_calls;
use crate::index::file_entry::{parsed_language, FileEntryView, Language};
use crate::index::file_tree::FileTree;
use crate::maps::{first_of, lists_in_order, sorted_keys};
use crate::ops::symbol_ops::lookup::{
    call_name, callable_name_for_symbol, find_symbol_for_lookup, looked_up, no_symbol,
    no_symbol_message,
};
use crate::pattern::{compile, escape, escaped_of, is_match, regex_finds, regex_outcome};
use crate::sources::{read_of, ReadView, Sources};
use crate::symbols::queries::{
    config_of, get_language_config, law_query_stays, open_tree, query_for, tree_and_query,
    ConfigView, LanguageConfigs, Queries, QueryCache, QueryKind,
};
use crate::symbols::symbol::SymbolView;
use crate::symbols::syntax::{
    capture_number, capture_views, find_capture, lemma_rows_fit, match_views, matches_of, node_text,
    query_captures, query_matches, Capture, CaptureView, NodeView, SyntaxNode,
};
use crate::symbols::table::SymbolTable;
use crate::text::{
    contains, has_text, line_text, line_views, lines, lines_of, lowercase, row_text, same,
    starts_with, begins_with, to_lower, trim, trim_of, views, Line, LineView,
};

verus! {

// ---------------------------------------------------------------------------
// Lines that define
// ---------------------------------------------------------------------------

/// A word stands in a line directly before a name.
pub open spec fn introduces(line: Seq<char>, word: Seq<char>, name: Seq<char>) -> bool {
    has_text(line, word + name)
}

/// Whether a word stands in a line directly before a name.
fn has_word(line: &str, word: &str, name: &str) -> (r: bool)
    ensures
        r == introduces(line@, word@, name@),
{
    let mut wanted = word.to_owned();
    wanted.append(name);
    contains(line, wanted.as_str())
}

/// A line holds one of the words by which declarations of Java are told.
pub open spec fn has_java_word(line: Seq<char>) -> bool {
    ||| has_text(line, "void "@)
    ||| has_text(line, "int "@)
    ||| has_text(line, "String "@)
    ||| has_text(line, "boolean "@)
    ||| has_text(line, "long "@)
    ||| has_text(line, "double "@)
    ||| has_text(line, "float "@)
    ||| has_text(line, "public "@)
    ||| has_text(line, "private "@)
    ||| has_text(line, "protected "@)
}

/// A line holds one of the words by which Ruby makes methods.
pub open spec fn has_ruby_word(line: Seq<char>) -> bool {
    ||| has_text(line, "attr_reader"@)
    ||| has_text(line, "attr_writer"@)
    ||| has_text(line, "attr_accessor"@)
    ||| has_text(line, "define_method"@)
    ||| has_text(line, "alias_method"@)
}

/// A line defines a name of Elixir.
pub open spec fn elixir_defines(line: Seq<char>, name: Seq<char>) -> bool {
    ||| introduces(line, "def "@, name)
    ||| introduces(line, "defp "@, name)
    ||| introduces(line, "defmacro "@, name)
    ||| introduces(line, "defmacrop "@, name)
    ||| introduces(line, "defguard "@, name)
    ||| introduces(line, "defguardp "@, name)
    ||| introduces(line, "defmodule "@, name)
    ||| introduces(line, "defprotocol "@, name)
    ||| introduces(line, "defimpl "@, name)
}

/// A line looks like the definition of a name in a language.
pub open spec fn defines(line: Seq<char>, name: Seq<char>, language: Language) -> bool {
    match language {
        Language::Rust => introduces(line, "fn "@, name),
        Language::Python => introduces(line, "def "@, name),
        Language::TypeScript | Language::JavaScript => introduces(line, "function "@, name)
            || has_text(line, name + " ="@),
        Language::Go => introduces(line, "func "@, name),
        Language::Java => introduces(line, "class "@, name) || introduces(
            line,
            "interface "@,
            name,
        ) || introduces(line, "enum "@, name) || (has_text(line, name) && has_java_word(line)),
        Language::Scala => introduces(line, "def "@, name) || introduces(line, "object "@, name)
            || introduces(line, "class "@, name) || introduces(line, "trait "@, name),
        Language::Elixir => elixir_defines(line, name),
        Language::Ruby => introduces(line, "def "@, name) || introduces(line, "def self."@, name)
            || introduces(line, "class "@, name) || introduces(line, "module "@, name)
            || introduces(line, "alias "@, name) || (has_text(line, name) && has_ruby_word(line)),
        Language::Php => introduces(line, "function "@, name) || introduces(line, "class "@, name)
            || introduces(line, "interface "@, name) || introduces(line, "trait "@, name)
            || introduces(line, "enum "@, name) || introduces(line, "namespace "@, name) || (
        has_text(line, name) && (has_text(line, "const "@) || has_text(line, "case "@))),
        Language::Zig => introduces(line, "fn "@, name) || introduces(line, "const "@, name)
            || introduces(line, "var "@, name) || (begins_with(line, "test "@) && has_text(
            line,
            name,
        )),
        Language::Sql => has_text(lowercase(line), "create"@) && has_text(
            lowercase(line),
            lowercase(name),
        ),
        _ => false,
    }
}

/// Whether a line holds one of the words by which declarations of Java are told.
fn java_word(line: &str) -> (r: bool)
    ensures
        r == has_java_word(line@),
{
    contains(line, "void ") || contains(line, "int ") || contains(line, "String ") || contains(
        line,
        "boolean ",
    ) || contains(line, "long ") || contains(line, "double ") || contains(line, "float ")
        || contains(line, "public ") || contains(line, "private ") || contains(line, "protected ")
}

/// Whether a line holds one of the words by which Ruby makes methods.
fn ruby_word(line: &str) -> (r: bool)
    ensures
        r == has_ruby_word(line@),
{
    contains(line, "attr_reader") || contains(line, "attr_writer") || contains(
        line,
        "attr_accessor",
    ) || contains(line, "define_method") || contains(line, "alias_method")
}

/// Whether a line defines a name of Elixir.
fn elixir_definition(line: &str, name: &str) -> (r: bool)
    ensures
        r == elixir_defines(line@, name@),
{
    has_word(line, "def ", name) || has_word(line, "defp ", name) || has_word(
        line,
        "defmacro ",
        name,
    ) || has_word(line, "defmacrop ", name) || has_word(line, "defguard ", name) || has_word(
        line,
        "defguardp ",
        name,
    ) || has_word(line, "defmodule ", name) || has_word(line, "defprotocol ", name) || has_word(
        line,
        "defimpl ",
        name,
    )
}

/// Whether a line looks like the definition of a name in a language.
pub fn is_definition_line(line: &str, name: &str, language: Language) -> (r: bool)
    ensures
        r == defines(line@, name@, language),
{
    match language {
        Language::Rust => has_word(line, "fn ", name),
        Language::Python => has_word(line, "def ", name),
        Language::TypeScript | Language::JavaScript => has_word(line, "function ", name)
            || has_word(line, name, " ="),
        Language::Go => has_word(line, "func ", name),
        Language::Java => has_word(line, "class ", name) || has_word(line, "interface ", name)
            || has_word(line, "enum ", name) || (contains(line, name) && java_word(line)),
        Language::Scala => has_word(line, "def ", name) || has_word(line, "object ", name)
            || has_word(line, "class ", name) || has_word(line, "trait ", name),
        Language::Elixir => elixir_definition(line, name),
        Language::Ruby => has_word(line, "def ", name) || has_word(line, "def self.", name)
            || has_word(line, "class ", name) || has_word(line, "module ", name) || has_word(
            line,
            "alias ",
            name,
        ) || (contains(line, name) && ruby_word(line)),
        Language::Php => has_word(line, "function ", name) || has_word(line, "class ", name)
            || has_word(line, "interface ", name) || has_word(line, "trait ", name) || has_word(
            line,
            "enum ",
            name,
        ) || has_word(line, "namespace ", name) || (contains(line, name) && (contains(
            line,
            "const ",
        ) || contains(line, "case "))),
        Language::Zig => has_word(line, "fn ", name) || has_word(line, "const ", name) || has_word(
            line,
            "var ",
            name,
        ) || (starts_with(line, "test ") && contains(line, name)),
        Language::Sql => {
            let lower = to_lower(line);
            let wanted = to_lower(name);
            contains(lower.as_str(), "create") && contains(lower.as_str(), wanted.as_str())
        },
        _ => false,
    }
}

/// A line looks like the definition of a name in some language.
pub open spec fn defines_somewhere(line: Seq<char>, name: Seq<char>) -> bool {
    ||| introduces(line, "fn "@, name)
    ||| elixir_defines(line, name)
    ||| introduces(line, "function "@, name)
    ||| introduces(line, "func "@, name)
    ||| introduces(line, "class "@, name)
    ||| introduces(line, "interface "@, name)
    ||| introduces(line, "object "@, name)
    ||| introduces(line, "trait "@, name)
}

/// Whether a line looks like the definition of a name in some language.
fn is_some_definition(line: &str, name: &str) -> (r: bool)
    ensures
        r == defines_somewhere(line@, name@),
{
    has_word(line, "fn ", name) || elixir_definition(line, name) || has_word(
        line,
        "function ",
        name,
    ) || has_word(line, "func ", name) || has_word(line, "class ", name) || has_word(
        line,
        "interface ",
        name,
    ) || has_word(line, "object ", name) || has_word(line, "trait ", name)
}

// ---------------------------------------------------------------------------
// Callers
// ---------------------------------------------------------------------------

/// A place where a symbol is called.
pub struct CallerView {
    pub file: Seq<char>,
    pub line: usize,
    pub text: Seq<char>,
}

/// A place where a symbol is called: the file, the line (from 1), and the trimmed
/// text of the line.
#[derive(Debug, PartialEq, Eq)]
pub struct CallerInfo {
    pub file: String,
    pub line: usize,
    pub text: String,
}

impl View for CallerInfo {
    type V = CallerView;

    open spec fn view(&self) -> CallerView {
        CallerView { file: self.file@, line: self.line, text: self.text@ }
    }
}

/// The callers of a list.
pub open spec fn caller_views(v: Seq<CallerInfo>) -> Seq<CallerView> {
    v.map_values(|c: CallerInfo| c@)
}

/// What is looked for in a file: calls of `name`, which is defined in the file
/// `home`.
pub struct Target {
    pub name: Seq<char>,
    pub home: Seq<char>,
}

/// The callers among the first `n` lines of a file that is not parsed: the lines
/// that hold the name, definitions in its own file aside.
pub open spec fn line_callers(
    target: Target,
    file: Seq<char>,
    rows: Seq<LineView>,
    n: int,
) -> Seq<CallerView>
    decreases n,
{
    if n <= 0 {
        Seq::empty()
    } else {
        let before = line_callers(target, file, rows, n - 1);
        let line = rows[n - 1].text;
        if has_text(line, target.name) && !(file == target.home && defines_somewhere(
            line,
            target.name,
        )) {
            before.push(CallerView { file, line: n as usize, text: trim_of(line) })
        } else {
            before
        }
    }
}

/// The callers in a file that is not parsed.
pub open spec fn text_callers(target: Target, file: Seq<char>, source: Seq<char>) -> Seq<
    CallerView,
> {
    match regex_outcome(escaped_of(target.name)) {
        Ok(_) => line_callers(target, file, lines_of(source), lines_of(source).len() as int),
        Err(_) => Seq::empty(),
    }
}

/// A captured node is a call of the name, and not its definition.
pub open spec fn is_call(
    target: Target,
    file: Seq<char>,
    source: Seq<char>,
    language: Language,
    callee: Option<int>,
    capture: CaptureView,
) -> bool {
    &&& callee == Some(capture.index as int)
    &&& node_text(capture.node) == target.name
    &&& !(file == target.home && defines(
        line_text(source, capture.node.start_row as int),
        target.name,
        language,
    ))
}

/// The caller at a node.
pub open spec fn caller_at(file: Seq<char>, source: Seq<char>, node: NodeView) -> CallerView {
    CallerView {
        file,
        line: (node.start_row + 1) as usize,
        text: trim_of(line_text(source, node.start_row as int)),
    }
}

/// The callers among the captures of a match.
pub open spec fn captured_callers(
    target: Target,
    file: Seq<char>,
    source: Seq<char>,
    language: Language,
    callee: Option<int>,
    captures: Seq<CaptureView>,
) -> Seq<CallerView>
    decreases captures.len(),
{
    if captures.len() == 0 {
        Seq::empty()
    } else {
        let before = captured_callers(
            target,
            file,
            source,
            language,
            callee,
            captures.drop_last(),
        );
        if is_call(target, file, source, language, callee, captures.last()) {
            before.push(caller_at(file, source, captures.last().node))
        } else {
            before
        }
    }
}

/// The callers among the captures of all matches.
pub open spec fn matched_callers(
    target: Target,
    file: Seq<char>,
    source: Seq<char>,
    language: Language,
    callee: Option<int>,
    matches: Seq<Seq<CaptureView>>,
) -> Seq<CallerView>
    decreases matches.len(),
{
    if matches.len() == 0 {
        Seq::empty()
    } else {
        matched_callers(target, file, source, language, callee, matches.drop_last())
            + captured_callers(target, file, source, language, callee, matches.last())
    }
}

/// The callers in a file that is parsed; where it has no tree or its language no
/// query, the lines are searched.
pub open spec fn tree_callers(
    target: Target,
    config: Option<ConfigView>,
    cache: Queries,
    file: Seq<char>,
    source: Seq<char>,
    language: Language,
) -> Seq<CallerView> {
    match config {
        None => text_callers(target, file, source),
        Some(c) => match tree_and_query(
            cache,
            language,
            QueryKind::Callers,
            c.language,
            c.callers_query,
            source,
        ) {
            None => text_callers(target, file, source),
            Some((tree, query)) => matched_callers(
                target,
                file,
                source,
                language,
                capture_number(query_captures(query), "callee"@),
                query_matches(tree, query, source, None),
            ),
        },
    }
}

/// The callers in a file.
pub open spec fn callers_in(
    target: Target,
    configs: Map<Language, ConfigView>,
    cache: Queries,
    file: Seq<char>,
    source: Seq<char>,
    language: Language,
) -> Seq<CallerView> {
    if !has_text(source, target.name) {
        Seq::empty()
    } else if parsed_language(language) {
        tree_callers(target, config_of(configs, language), cache, file, source, language)
    } else {
        text_callers(target, file, source)
    }
}

/// The callers in files, in the order of the files. Files that cannot be read are
/// passed over.
pub open spec fn all_callers(
    target: Target,
    configs: Map<Language, ConfigView>,
    cache: Queries,
    reads: Map<Seq<char>, ReadView>,
    files: Map<Seq<char>, FileEntryView>,
    paths: Seq<Seq<char>>,
) -> Seq<CallerView>
    decreases paths.len(),
{
    if paths.len() == 0 {
        Seq::empty()
    } else {
        let before = all_callers(target, configs, cache, reads, files, paths.drop_last());
        match read_of(reads, paths.last()) {
            Ok(text) => before + callers_in(
                target,
                configs,
                cache,
                paths.last(),
                text,
                files[paths.last()].language,
            ),
            Err(_) => before,
        }
    }
}

/// The cache of queries once a file has been searched for callers: a file that holds the
/// name is parsed, if its language is.
pub open spec fn cache_after_file(
    target: Target,
    configs: Map<Language, ConfigView>,
    cache: Queries,
    source: Seq<char>,
    language: Language,
) -> Queries {
    if has_text(source, target.name) && parsed_language(language) {
        cache_after_calls(config_of(configs, language), cache, source, language)
    } else {
        cache
    }
}

/// The cache of queries once files have been searched for callers, until there are `cap`.
pub open spec fn cache_after_files(
    target: Target,
    configs: Map<Language, ConfigView>,
    cache: Queries,
    reads: Map<Seq<char>, ReadView>,
    files: Map<Seq<char>, FileEntryView>,
    paths: Seq<Seq<char>>,
    cap: int,
) -> Queries
    decreases paths.len(),
{
    if paths.len() == 0 {
        cache
    } else {
        let rest = paths.drop_last();
        let before = cache_after_files(target, configs, cache, reads, files, rest, cap);
        if all_callers(target, configs, cache, reads, files, rest).len() >= cap {
            before
        } else {
            match read_of(reads, paths.last()) {
                Ok(text) => cache_after_file(
                    target,
                    configs,
                    before,
                    text,
                    files[paths.last()].language,
                ),
                Err(_) => before,
            }
        }
    }
}

/// The query on callers that is used for a language.
pub open spec fn callers_query_for(
    configs: Map<Language, ConfigView>,
    cache: Queries,
    language: Language,
) -> Option<Result<tree_sitter::Query, tree_sitter::QueryError>> {
    match config_of(configs, language) {
        Some(c) => Some(
            query_for(cache, language, QueryKind::Callers, c.language, c.callers_query),
        ),
        None => None,
    }
}

/// Two caches give the same queries on callers.
pub open spec fn same_callers_queries(
    configs: Map<Language, ConfigView>,
    a: Queries,
    b: Queries,
) -> bool {
    forall|l: Language| #[trigger]
        callers_query_for(configs, a, l) == callers_query_for(configs, b, l)
}

/// The first `limit` items; at least one is shown where there is one.
pub open spec fn shown(limit: usize) -> int {
    if limit == 0 {
        1
    } else {
        limit as int
    }
}

/// The cache of queries once the callers of a symbol have been asked for.
pub open spec fn cache_after_callers(
    contents: Map<Seq<char>, SymbolView>,
    configs: Map<Language, ConfigView>,
    cache: Queries,
    reads: Map<Seq<char>, ReadView>,
    files: Map<Seq<char>, FileEntryView>,
    name: Seq<char>,
    file: Seq<char>,
    limit: usize,
) -> Queries {
    match looked_up(contents, file, name) {
        None => cache,
        Some(s) => cache_after_files(
            Target { name: call_name(s), home: file },
            configs,
            cache,
            reads,
            files,
            sorted_keys(files),
            shown(limit),
        ),
    }
}

/// What asking for the callers of a symbol gives.
pub open spec fn callers_of(
    contents: Map<Seq<char>, SymbolView>,
    configs: Map<Language, ConfigView>,
    cache: Queries,
    reads: Map<Seq<char>, ReadView>,
    files: Map<Seq<char>, FileEntryView>,
    name: Seq<char>,
    file: Seq<char>,
    limit: usize,
) -> Result<Seq<CallerView>, Seq<char>> {
    match looked_up(contents, file, name) {
        None => Err(no_symbol(name, file)),
        Some(s) => Ok(
            first_of(
                all_callers(
                    Target { name: call_name(s), home: file },
                    configs,
                    cache,
                    reads,
                    files,
                    sorted_keys(files),
                ),
                shown(limit),
            ),
        ),
    }
}

/// The callers in a file that is not parsed: the lines that hold the name,
/// definitions in its own file aside.
pub fn find_callers_regex(
    source: &str,
    rel_path: &str,
    symbol_name: &str,
    definition_file: &str,
) -> (r: Vec<CallerInfo>)
    ensures
        caller_views(r@) == text_callers(
            Target { name: symbol_name@, home: definition_file@ },
            rel_path@,
            source@,
        ),
{
    let ghost target = Target { name: symbol_name@, home: definition_file@ };
    let escaped = escape(symbol_name);
    let mut out: Vec<CallerInfo> = Vec::new();
    assert(caller_views(out@) =~= Seq::empty());
    let re = match compile(escaped.as_str()) {
        Ok(re) => re,
        Err(_) => return out,
    };
    let rows = lines(source);
    let ghost all = line_views(rows@);
    let home = same(rel_path, definition_file);
    let mut i: usize = 0;
    while i < rows.len()
        invariant
            i <= rows@.len(),
            all == line_views(rows@),
            target == (Target { name: symbol_name@, home: definition_file@ }),
            home == (rel_path@ == definition_file@),
            forall|hay: Seq<char>|
                ((#[trigger] regex_finds(re, hay)).len() > 0) == has_text(hay, symbol_name@),
            caller_views(out@) == line_callers(target, rel_path@, all, i as int),
        decreases rows@.len() - i,
    {
        let ghost before = caller_views(out@);
        let line = rows[i].text.as_str();
        assert(all[i as int].text == line@);
        if is_match(&re, line) && !(home && is_some_definition(line, symbol_name)) {
            let caller = CallerInfo {
                file: rel_path.to_owned(),
                line: i + 1,
                text: trim(line),
            };
            out.push(caller);
            assert(caller_views(out@) =~= before.push(caller@));
        }
        i = i + 1;
    }
    assert(all.len() == rows@.len());
    out
}

/// The caller at a node.
fn make_caller(rel_path: &str, source: &str, rows: &Vec<Line>, node: &SyntaxNode) -> (r: CallerInfo)
    requires
        line_views(rows@) == lines_of(source@),
        node.start_row < usize::MAX,
    ensures
        r@ == caller_at(rel_path@, source@, node@),
{
    let text = row_text(source, rows, node.start_row);
    CallerInfo { file: rel_path.to_owned(), line: node.start_row + 1, text: trim(text.as_str()) }
}

/// The callers among the captures of a query on calls. `callee` is the number of
/// the capture of called names.
pub fn callers_from_matches(
    source: &str,
    rel_path: &str,
    language: Language,
    symbol_name: &str,
    definition_file: &str,
    callee: Option<usize>,
    matches: &Vec<Vec<Capture>>,
) -> (r: Vec<CallerInfo>)
    requires
        forall|i: int, j: int|
            0 <= i < matches@.len() && 0 <= j < matches@[i]@.len() ==> (
            #[trigger] matches@[i]@[j]).node.start_row < usize::MAX,
    ensures
        caller_views(r@) == matched_callers(
            Target { name: symbol_name@, home: definition_file@ },
            rel_path@,
            source@,
            language,
            match callee {
                Some(k) => Some(k as int),
                None => None,
            },
            match_views(matches@),
        ),
{
    let ghost target = Target { name: symbol_name@, home: definition_file@ };
    let ghost number = match callee {
        Some(k) => Some(k as int),
        None => None,
    };
    let ghost all = match_views(matches@);
    let rows = lines(source);
    let home = same(rel_path, definition_file);
    let mut out: Vec<CallerInfo> = Vec::new();
    let mut i: usize = 0;
    assert(all.take(0) =~= Seq::empty());
    assert(caller_views(out@) =~= Seq::empty());
    while i < matches.len()
        invariant
            i <= matches@.len(),
            all == match_views(matches@),
            target == (Target { name: symbol_name@, home: definition_file@ }),
            number == (match callee {
                Some(k) => Some(k as int),
                None => None,
            }),
            home == (rel_path@ == definition_file@),
            line_views(rows@) == lines_of(source@),
            forall|i: int, j: int|
                0 <= i < matches@.len() && 0 <= j < matches@[i]@.len() ==> (
                #[trigger] matches@[i]@[j]).node.start_row < usize::MAX,
            caller_views(out@) == matched_callers(
                target,
                rel_path@,
                source@,
                language,
                number,
                all.take(i as int),
            ),
        decreases matches@.len() - i,
    {
        let ghost before = caller_views(out@);
        let ghost caps = capture_views(matches@[i as int]@);
        let mut j: usize = 0;
        assert(caps.take(0) =~= Seq::empty());
        assert(before + Seq::<CallerView>::empty() =~= before);
        while j < matches[i].len()
            invariant
                i < matches@.len(),
                j <= matches@[i as int]@.len(),
                caps == capture_views(matches@[i as int]@),
                target == (Target { name: symbol_name@, home: definition_file@ }),
                number == (match callee {
                    Some(k) => Some(k as int),
                    None => None,
                }),
                home == (rel_path@ == definition_file@),
                line_views(rows@) == lines_of(source@),
                forall|i: int, j: int|
                    0 <= i < matches@.len() && 0 <= j < matches@[i]@.len() ==> (
                    #[trigger] matches@[i]@[j]).node.start_row < usize::MAX,
                caller_views(out@) == before + captured_callers(
                    target,
                    rel_path@,
                    source@,
                    language,
                    number,
                    caps.take(j as int),
                ),
            decreases matches@[i as int]@.len() - j,
        {
            let ghost seen = caller_views(out@);
            assert(caps.take(j + 1).drop_last() =~= caps.take(j as int));
            assert(caps.take(j + 1).last() == matches@[i as int]@[j as int]@);
            let node = &matches[i][j].node;
            let is_callee = match callee {
                Some(k) => matches[i][j].index == k,
                None => false,
            };
            if is_callee {
                let text = node.text_or_empty();
                if same(text.as_str(), symbol_name) {
                    let line = row_text(source, &rows, node.start_row);
                    if !(home && is_definition_line(line.as_str(), symbol_name, language)) {
                        let caller = make_caller(rel_path, source, &rows, node);
                        out.push(caller);
                        assert(caller_views(out@) =~= seen.push(caller@));
                        assert(caller_views(out@) =~= before + captured_callers(
                            target,
                            rel_path@,
                            source@,
                            language,
                            number,
                            caps.take(j + 1),
                        ));
                    }
                }
            }
            j = j + 1;
        }
        assert(caps.take(j as int) =~= caps);
        assert(all.take(i + 1).drop_last() =~= all.take(i as int));
        assert(all.take(i + 1).last() == caps);
        i = i + 1;
    }
    assert(all.take(i as int) =~= all);
    out
}

/// The callers in a file that is parsed.
pub fn find_callers_ast(
    configs: &LanguageConfigs,
    cache: &mut QueryCache,
    source: &str,
    rel_path: &str,
    language: Language,
    symbol_name: &str,
    definition_file: &str,
) -> (r: Vec<CallerInfo>)
    ensures
        caller_views(r@) == tree_callers(
            Target { name: symbol_name@, home: definition_file@ },
            config_of(configs@, language),
            old(cache)@,
            rel_path@,
            source@,
            language,
        ),
        final(cache)@ == cache_after_calls(
            config_of(configs@, language),
            old(cache)@,
            source@,
            language,
        ),
{
    let config = match get_language_config(configs, language) {
        Some(c) => c,
        None => return find_callers_regex(source, rel_path, symbol_name, definition_file),
    };
    let (tree, query) = match open_tree(
        cache,
        language,
        QueryKind::Callers,
        &config.language,
        config.callers_query,
        source,
    ) {
        Some(pair) => pair,
        None => return find_callers_regex(source, rel_path, symbol_name, definition_file),
    };
    let callee = find_capture(query.capture_names(), "callee");
    let matches = matches_of(&tree, query.query(), source, None);
    proof {
        lemma_rows_fit(matches@, source@);
    }
    callers_from_matches(
        source,
        rel_path,
        language,
        symbol_name,
        definition_file,
        callee,
        &matches,
    )
}

/// The callers in more files begin with those in fewer.
proof fn lemma_callers_prefix(
    target: Target,
    configs: Map<Language, ConfigView>,
    cache: Queries,
    reads: Map<Seq<char>, ReadView>,
    files: Map<Seq<char>, FileEntryView>,
    paths: Seq<Seq<char>>,
    n: int,
)
    requires
        0 <= n <= paths.len(),
    ensures
        all_callers(target, configs, cache, reads, files, paths.take(n)).is_prefix_of(
            all_callers(target, configs, cache, reads, files, paths),
        ),
    decreases paths.len() - n,
{
    if n == paths.len() {
        assert(paths.take(n) =~= paths);
    } else {
        lemma_callers_prefix(target, configs, cache, reads, files, paths, n + 1);
        assert(paths.take(n + 1).drop_last() =~= paths.take(n));
    }
}

/// Once there are enough callers, the cache of queries stays as it is.
proof fn lemma_cache_stays(
    target: Target,
    configs: Map<Language, ConfigView>,
    cache: Queries,
    reads: Map<Seq<char>, ReadView>,
    files: Map<Seq<char>, FileEntryView>,
    paths: Seq<Seq<char>>,
    cap: int,
    n: int,
)
    requires
        0 <= n <= paths.len(),
        all_callers(target, configs, cache, reads, files, paths.take(n)).len() >= cap,
    ensures
        cache_after_files(target, configs, cache, reads, files, paths, cap) == cache_after_files(
            target,
            configs,
            cache,
            reads,
            files,
            paths.take(n),
            cap,
        ),
    decreases paths.len(),
{
    if n == paths.len() {
        assert(paths.take(n) =~= paths);
    } else {
        let rest = paths.drop_last();
        assert(rest.take(n) =~= paths.take(n));
        lemma_cache_stays(target, configs, cache, reads, files, rest, cap, n);
        lemma_callers_prefix(target, configs, cache, reads, files, rest, n);
    }
}

/// Asking for the query on callers of one language changes that of none.
proof fn lemma_same_queries(
    configs: Map<Language, ConfigView>,
    start: Queries,
    cache: Queries,
    source: Seq<char>,
    language: Language,
)
    requires
        same_callers_queries(configs, start, cache),
    ensures
        same_callers_queries(
            configs,
            start,
            cache_after_calls(config_of(configs, language), cache, source, language),
        ),
{
    let next = cache_after_calls(config_of(configs, language), cache, source, language);
    assert forall|l: Language| #[trigger]
        callers_query_for(configs, start, l) == callers_query_for(configs, next, l) by {
        assert(callers_query_for(configs, start, l) == callers_query_for(configs, cache, l));
        if let (Some(c), Some(d)) = (config_of(configs, l), config_of(configs, language)) {
            law_query_stays(
                cache,
                l,
                QueryKind::Callers,
                c.language,
                c.callers_query,
                (language, QueryKind::Callers),
                d.language,
                d.callers_query,
            );
        }
    }
}

/// Adds callers until there are `cap`.
fn add_callers(to: &mut Vec<CallerInfo>, from: Vec<CallerInfo>, cap: usize)
    requires
        old(to)@.len() <= cap,
    ensures
        caller_views(final(to)@) == first_of(
            caller_views(old(to)@) + caller_views(from@),
            cap as int,
        ),
{
    let ghost before = caller_views(to@);
    let ghost added = caller_views(from@);
    let mut rest = from;
    let room: usize = cap - to.len();
    if room < rest.len() {
        rest.truncate(room);
    }
    let ghost kept = rest@;
    to.append(&mut rest);
    assert(caller_views(to@) =~= before + caller_views(kept));
    assert(before.len() == cap - room);
    assert(caller_views(to@) =~= first_of(before + added, cap as int));
}

/// The callers of a name in files.
fn search_callers(
    configs: &LanguageConfigs,
    cache: &mut QueryCache,
    sources: &Sources,
    file_tree: &FileTree,
    paths: &Vec<String>,
    symbol_name: &str,
    definition_file: &str,
    cap: usize,
) -> (r: Vec<CallerInfo>)
    requires
        forall|i: int|
            0 <= i < paths@.len() ==> file_tree@.files.contains_key((#[trigger] paths@[i])@),
    ensures
        caller_views(r@) == first_of(
            all_callers(
                Target { name: symbol_name@, home: definition_file@ },
                configs@,
                old(cache)@,
                sources@,
                file_tree@.files,
                views(paths@),
            ),
            cap as int,
        ),
        final(cache)@ == cache_after_files(
            Target { name: symbol_name@, home: definition_file@ },
            configs@,
            old(cache)@,
            sources@,
            file_tree@.files,
            views(paths@),
            cap as int,
        ),
{
    let ghost start = cache@;
    let ghost target = Target { name: symbol_name@, home: definition_file@ };
    let ghost all = views(paths@);
    let ghost whole = all_callers(target, configs@, start, sources@, file_tree@.files, all);
    let mut out: Vec<CallerInfo> = Vec::new();
    let mut i: usize = 0;
    assert(all.take(0) =~= Seq::empty());
    assert(caller_views(out@) =~= Seq::empty());
    while i < paths.len()
        invariant
            i <= paths@.len(),
            start == old(cache)@,
            all == views(paths@),
            target == (Target { name: symbol_name@, home: definition_file@ }),
            whole == all_callers(target, configs@, start, sources@, file_tree@.files, all),
            forall|k: int|
                0 <= k < paths@.len() ==> file_tree@.files.contains_key((#[trigger] paths@[k])@),
            caller_views(out@) == first_of(
                all_callers(
                    target,
                    configs@,
                    start,
                    sources@,
                    file_tree@.files,
                    all.take(i as int),
                ),
                cap as int,
            ),
            same_callers_queries(configs@, start, cache@),
            cache@ == cache_after_files(
                target,
                configs@,
                start,
                sources@,
                file_tree@.files,
                all.take(i as int),
                cap as int,
            ),
        decreases paths@.len() - i,
    {
        let ghost sofar = all_callers(
            target,
            configs@,
            start,
            sources@,
            file_tree@.files,
            all.take(i as int),
        );
        assert(caller_views(out@).len() == out@.len());
        if out.len() >= cap {
            proof {
                lemma_callers_prefix(
                    target,
                    configs@,
                    start,
                    sources@,
                    file_tree@.files,
                    all,
                    i as int,
                );
                assert(first_of(whole, cap as int) =~= first_of(sofar, cap as int));
                lemma_cache_stays(
                    target,
                    configs@,
                    start,
                    sources@,
                    file_tree@.files,
                    all,
                    cap as int,
                    i as int,
                );
            }
            return out;
        }
        let path = paths[i].as_str();
        assert(all.take(i + 1).drop_last() =~= all.take(i as int));
        assert(all.take(i + 1).last() == path@);
        assert(file_tree@.files.contains_key(paths@[i as int]@));
        match (file_tree.get(path), sources.read(path)) {
            (Some(entry), Ok(source)) => {
                if contains(source.as_str(), symbol_name) {
                    proof {
                        assert(callers_query_for(configs@, start, entry.language)
                            == callers_query_for(configs@, cache@, entry.language));
                        lemma_same_queries(
                            configs@,
                            start,
                            cache@,
                            source@,
                            entry.language,
                        );
                    }
                    let found = if entry.language.has_tree_sitter_support() {
                        find_callers_ast(
                            configs,
                            cache,
                            source.as_str(),
                            path,
                            entry.language,
                            symbol_name,
                            definition_file,
                        )
                    } else {
                        find_callers_regex(source.as_str(), path, symbol_name, definition_file)
                    };
                    let ghost here = caller_views(found@);
                    add_callers(&mut out, found, cap);
                    assert(first_of(first_of(sofar, cap as int) + here, cap as int) =~= first_of(
                        sofar + here,
                        cap as int,
                    ));
                } else {
                    assert(sofar + Seq::<CallerView>::empty() =~= sofar);
                }
            },
            _ => {},
        }
        i = i + 1;
    }
    assert(all.take(i as int) =~= all);
    out
}

/// The outcome of asking for callers.
pub open spec fn callers_view(r: Result<Vec<CallerInfo>, String>) -> Result<
    Seq<CallerView>,
    Seq<char>,
> {
    match r {
        Ok(v) => Ok(caller_views(v@)),
        Err(e) => Err(e@),
    }
}

/// Finds the callers of a symbol, in the order of the files: by their syntax trees,
/// and by their lines where they are not parsed.
pub fn find_callers(
    configs: &LanguageConfigs,
    cache: &mut QueryCache,
    sources: &Sources,
    file_tree: &FileTree,
    symbol_table: &SymbolTable,
    symbol_name: &str,
    file: &str,
    limit: usize,
) -> (r: Result<Vec<CallerInfo>, String>)
    ensures
        callers_view(r) == callers_of(
            symbol_table@,
            configs@,
            old(cache)@,
            sources@,
            file_tree@.files,
            symbol_name@,
            file@,
            limit,
        ),
        final(cache)@ == cache_after_callers(
            symbol_table@,
            configs@,
            old(cache)@,
            sources@,
            file_tree@.files,
            symbol_name@,
            file@,
            limit,
        ),
        r is Ok ==> lists_in_order(sorted_keys(file_tree@.files), file_tree@.files),
{
    let symbol = match find_symbol_for_lookup(symbol_table, file, symbol_name) {
        Some(s) => s,
        None => return Err(no_symbol_message(symbol_name, file)),
    };
    let name = callable_name_for_symbol(&symbol);
    let paths = file_tree.sorted_paths();
    assert forall|i: int| 0 <= i < paths@.len() implies file_tree@.files.contains_key(
        (#[trigger] paths@[i])@,
    ) by {
        assert(views(paths@)[i] == paths@[i]@);
        assert(views(paths@).contains(paths@[i]@));
    }
    let cap: usize = if limit == 0 {
        1
    } else {
        limit
    };
    Ok(search_callers(configs, cache, sources, file_tree, &paths, name.as_str(), file, cap))
}

// ---------------------------------------------------------------------------
// Laws
// ---------------------------------------------------------------------------

/// A caller stands on a line of a file that can be read, and shows that line.
pub open spec fn is_grounded(c: CallerView, reads: Map<Seq<char>, ReadView>) -> bool {
    exists|row: int| #[trigger] shows_line(c, reads, row)
}

/// A caller shows row `row` (from 0) of its file.
pub open spec fn shows_line(c: CallerView, reads: Map<Seq<char>, ReadView>, row: int) -> bool {
    &&& read_of(reads, c.file) matches Ok(text) && c.text == trim_of(line_text(text, row))
    &&& 0 <= row
    &&& c.line == (row + 1) as usize
}

/// Every caller of a list is grounded.
pub open spec fn all_grounded(s: Seq<CallerView>, reads: Map<Seq<char>, ReadView>) -> bool {
    forall|i: int| 0 <= i < s.len() ==> is_grounded(#[trigger] s[i], reads)
}

proof fn lemma_text_callers_grounded(
    target: Target,
    file: Seq<char>,
    source: Seq<char>,
    reads: Map<Seq<char>, ReadView>,
    n: int,
)
    requires
        read_of(reads, file) == Ok::<Seq<char>, Seq<char>>(source),
        n <= lines_of(source).len(),
    ensures
        all_grounded(line_callers(target, file, lines_of(source), n), reads),
    decreases n,
{
    if n > 0 {
        lemma_text_callers_grounded(target, file, source, reads, n - 1);
        let rows = lines_of(source);
        let c = CallerView { file, line: n as usize, text: trim_of(rows[n - 1].text) };
        assert(shows_line(c, reads, n - 1));
    }
}

proof fn lemma_captured_callers_grounded(
    target: Target,
    file: Seq<char>,
    source: Seq<char>,
    language: Language,
    callee: Option<int>,
    captures: Seq<CaptureView>,
    reads: Map<Seq<char>, ReadView>,
)
    requires
        read_of(reads, file) == Ok::<Seq<char>, Seq<char>>(source),
    ensures
        all_grounded(
            captured_callers(target, file, source, language, callee, captures),
            reads,
        ),
    decreases captures.len(),
{
    if captures.len() > 0 {
        lemma_captured_callers_grounded(
            target,
            file,
            source,
            language,
            callee,
            captures.drop_last(),
            reads,
        );
        let node = captures.last().node;
        assert(shows_line(caller_at(file, source, node), reads, node.start_row as int));
    }
}

proof fn lemma_matched_callers_grounded(
    target: Target,
    file: Seq<char>,
    source: Seq<char>,
    language: Language,
    callee: Option<int>,
    matches: Seq<Seq<CaptureView>>,
    reads: Map<Seq<char>, ReadView>,
)
    requires
        read_of(reads, file) == Ok::<Seq<char>, Seq<char>>(source),
    ensures
        all_grounded(matched_callers(target, file, source, language, callee, matches), reads),
    decreases matches.len(),
{
    if matches.len() > 0 {
        lemma_matched_callers_grounded(
            target,
            file,
            source,
            language,
            callee,
            matches.drop_last(),
            reads,
        );
        lemma_captured_callers_grounded(
            target,
            file,
            source,
            language,
            callee,
            matches.last(),
            reads,
        );
    }
}

proof fn lemma_all_callers_grounded(
    target: Target,
    configs: Map<Language, ConfigView>,
    cache: Queries,
    reads: Map<Seq<char>, ReadView>,
    files: Map<Seq<char>, FileEntryView>,
    paths: Seq<Seq<char>>,
)
    ensures
        all_grounded(all_callers(target, configs, cache, reads, files, paths), reads),
    decreases paths.len(),
{
    if paths.len() > 0 {
        lemma_all_callers_grounded(target, configs, cache, reads, files, paths.drop_last());
        let file = paths.last();
        let language = files[file].language;
        if let Ok(text) = read_of(reads, file) {
            lemma_text_callers_grounded(target, file, text, reads, lines_of(text).len() as int);
            if let Some(c) = config_of(configs, language) {
                if let Some((tree, query)) = tree_and_query(
                    cache,
                    language,
                    QueryKind::Callers,
                    c.language,
                    c.callers_query,
                    text,
                ) {
                    lemma_matched_callers_grounded(
                        target,
                        file,
                        text,
                        language,
                        capture_number(query_captures(query), "callee"@),
                        query_matches(tree, query, text, None),
                        reads,
                    );
                }
            }
        }
    }
}

/// Callers are shown up to the limit, each with the line of its file on which it stands.
pub proof fn law_callers_are_bounded_and_grounded(
    contents: Map<Seq<char>, SymbolView>,
    configs: Map<Language, ConfigView>,
    cache: Queries,
    reads: Map<Seq<char>, ReadView>,
    files: Map<Seq<char>, FileEntryView>,
    name: Seq<char>,
    file: Seq<char>,
    limit: usize,
)
    ensures
        callers_of(contents, configs, cache, reads, files, name, file, limit) matches Ok(callers)
            ==> callers.len() <= shown(limit) && all_grounded(callers, reads),
{
    if let Some(s) = looked_up(contents, file, name) {
        let target = Target { name: call_name(s), home: file };
        lemma_all_callers_grounded(target, configs, cache, reads, files, sorted_keys(files));
    }
}

} // verus!
