//! Finding the tests that refer to a symbol.
use tree_sitter::Language as Grammar;
use tree_sitter::{Query, QueryError, Tree};
use vstd::prelude::*;
use crate::index::file_entry::{FileEntryView, Language};
use crate::index::file_tree::FileTree;
use crate::maps::{first_of, lists_in_order, min, sorted_keys, values_in_order};
use crate::ops::symbol_ops::callers::shown;
use crate::ops::symbol_ops::lookup::{
    call_name, callable_name_for_symbol, find_symbol_for_lookup, looked_up, no_symbol,
    no_symbol_message,
};
use crate::ops::symbol_ops::{body_of, has_body, take_body};
use crate::sorting::{lemma_sorted_by_map, rank_order, sort, sorted_by, Ranked};
use crate::sources::{read_of, ReadView, Sources};
use crate::symbols::queries::elixir::{elixir_grammar, grammar_of, CALLERS_QUERY};
use crate::symbols::queries::{
    cache_after, get_cached_query, query_for, Queries, QueryCache, QueryKind,
};
use crate::symbols::symbol::{symbol_views, Symbol, SymbolKind, SymbolView};
use crate::symbols::syntax::{
    capture_number, capture_views, find_capture, is_tree_of, is_within, lemma_rows_fit, match_views,
    matches_of, node_text, parse_outcome, parse_source, query_captures, query_matches, Capture,
    CaptureView, NodeView,
};
use crate::symbols::table::SymbolTable;
use crate::text::{
    begins_with, byte_len, contains, copy_opt, ends_with, finishes_with, has_text, join, join_of,
    len_bytes, line_text, line_views, lines, lines_of, opt_view, row_text, same, starts_with, trim,
    trim_char, trim_char_of, trim_of, views, Line,
};

verus! {

/// A test.
pub struct TestView {
    pub name: Seq<char>,
    pub file: Seq<char>,
    pub line: usize,
    pub signature: Seq<char>,
}

/// A test: its name, file, line (from 1) and first line.
#[derive(Debug, PartialEq, Eq)]
pub struct TestInfo {
    pub name: String,
    pub file: String,
    pub line: usize,
    pub signature: String,
}

impl View for TestInfo {
    type V = TestView;

    open spec fn view(&self) -> TestView {
        TestView {
            name: self.name@,
            file: self.file@,
            line: self.line,
            signature: self.signature@,
        }
    }
}

/// The tests of a list.
pub open spec fn test_views(v: Seq<TestInfo>) -> Seq<TestView> {
    v.map_values(|t: TestInfo| t@)
}

/// Adds tests until there are `cap`.
fn add_tests(to: &mut Vec<TestInfo>, from: Vec<TestInfo>, cap: usize)
    requires
        old(to)@.len() <= cap,
    ensures
        test_views(final(to)@) == first_of(test_views(old(to)@) + test_views(from@), cap as int),
{
    let ghost before = test_views(to@);
    let ghost added = test_views(from@);
    let mut rest = from;
    let room: usize = cap - to.len();
    if room < rest.len() {
        rest.truncate(room);
    }
    let ghost kept = rest@;
    to.append(&mut rest);
    assert(test_views(to@) =~= before + test_views(kept));
    assert(before.len() == cap - room);
    assert(test_views(to@) =~= first_of(before + added, cap as int));
}

// ---------------------------------------------------------------------------
// Tests among symbols
// ---------------------------------------------------------------------------

/// A symbol is a test, by its kind, or by its name and file as the customs of its
/// language have it.
pub open spec fn is_test(s: SymbolView) -> bool {
    s.kind == SymbolKind::Test || match s.language {
        Language::Rust => begins_with(s.name, "test"@) || has_text(s.file, "/tests/"@),
        Language::Python => begins_with(s.name, "test_"@) || has_text(s.file, "test_"@)
            || has_text(s.file, "_test."@),
        Language::TypeScript | Language::JavaScript => has_text(s.file, ".test."@) || has_text(
            s.file,
            ".spec."@,
        ) || has_text(s.file, "__tests__"@),
        Language::Go => begins_with(s.name, "Test"@) || finishes_with(s.file, "_test.go"@),
        Language::Java => has_text(s.file, "Test"@) || has_text(s.file, "/test/"@),
        Language::Scala => has_text(s.file, "Spec"@) || has_text(s.file, "Test"@) || has_text(
            s.file,
            "/test/"@,
        ),
        Language::Elixir => finishes_with(s.file, "_test.exs"@) || has_text(s.file, "/test/"@),
        Language::Ruby => begins_with(s.name, "test_"@) || finishes_with(s.file, "_spec.rb"@)
            || finishes_with(s.file, "_test.rb"@) || has_text(s.file, "/spec/"@) || has_text(
            s.file,
            "/test/"@,
        ),
        Language::Php => begins_with(s.name, "test"@) || finishes_with(s.file, "Test.php"@)
            || has_text(s.file, "/tests/"@) || has_text(s.file, "/Tests/"@),
        _ => false,
    }
}

/// Whether a symbol is a test.
pub fn is_test_symbol(s: &Symbol) -> (r: bool)
    ensures
        r == is_test(s@),
{
    let name = s.name.as_str();
    let file = s.file.as_str();
    if s.kind == SymbolKind::Test {
        return true;
    }
    match s.language {
        Language::Rust => starts_with(name, "test") || contains(file, "/tests/"),
        Language::Python => starts_with(name, "test_") || contains(file, "test_") || contains(
            file,
            "_test.",
        ),
        Language::TypeScript | Language::JavaScript => contains(file, ".test.") || contains(
            file,
            ".spec.",
        ) || contains(file, "__tests__"),
        Language::Go => starts_with(name, "Test") || ends_with(file, "_test.go"),
        Language::Java => contains(file, "Test") || contains(file, "/test/"),
        Language::Scala => contains(file, "Spec") || contains(file, "Test") || contains(
            file,
            "/test/",
        ),
        Language::Elixir => ends_with(file, "_test.exs") || contains(file, "/test/"),
        Language::Ruby => starts_with(name, "test_") || ends_with(file, "_spec.rb") || ends_with(
            file,
            "_test.rb",
        ) || contains(file, "/spec/") || contains(file, "/test/"),
        Language::Php => starts_with(name, "test") || ends_with(file, "Test.php") || contains(
            file,
            "/tests/",
        ) || contains(file, "/Tests/"),
        _ => false,
    }
}

/// A symbol is a test whose text holds the name.
pub open spec fn refers_to(
    s: SymbolView,
    reads: Map<Seq<char>, ReadView>,
    name: Seq<char>,
) -> bool {
    &&& is_test(s)
    &&& read_of(reads, s.file) matches Ok(text) && body_of(s, text) matches Some(body) && has_text(
        body,
        name,
    )
}

/// The symbols that are tests whose texts hold the name, in their order.
pub open spec fn symbol_tests(
    symbols: Seq<SymbolView>,
    reads: Map<Seq<char>, ReadView>,
    name: Seq<char>,
) -> Seq<TestView>
    decreases symbols.len(),
{
    if symbols.len() == 0 {
        Seq::empty()
    } else {
        let before = symbol_tests(symbols.drop_last(), reads, name);
        let s = symbols.last();
        if refers_to(s, reads, name) {
            before.push(
                TestView {
                    name: s.name,
                    file: s.file,
                    line: s.line_range.0,
                    signature: s.signature,
                },
            )
        } else {
            before
        }
    }
}

/// The text of every test can be taken from its file, where that can be read.
pub open spec fn tests_have_bodies(
    symbols: Seq<SymbolView>,
    reads: Map<Seq<char>, ReadView>,
) -> bool {
    forall|i: int|
        0 <= i < symbols.len() && is_test(#[trigger] symbols[i]) ==> has_body(symbols[i], reads)
}

/// The tests among more symbols begin with those among fewer.
proof fn lemma_symbol_tests_prefix(
    symbols: Seq<SymbolView>,
    reads: Map<Seq<char>, ReadView>,
    name: Seq<char>,
    n: int,
)
    requires
        0 <= n <= symbols.len(),
    ensures
        symbol_tests(symbols.take(n), reads, name).is_prefix_of(
            symbol_tests(symbols, reads, name),
        ),
    decreases symbols.len() - n,
{
    if n == symbols.len() {
        assert(symbols.take(n) =~= symbols);
    } else {
        lemma_symbol_tests_prefix(symbols, reads, name, n + 1);
        assert(symbols.take(n + 1).drop_last() =~= symbols.take(n));
    }
}

/// The first `cap` tests among symbols whose texts hold the name.
fn tests_among(
    sources: &Sources,
    symbols: &Vec<Symbol>,
    symbol_name: &str,
    cap: usize,
) -> (r: Vec<TestInfo>)
    requires
        tests_have_bodies(symbol_views(symbols@), sources@),
    ensures
        test_views(r@) == first_of(
            symbol_tests(symbol_views(symbols@), sources@, symbol_name@),
            cap as int,
        ),
{
    let ghost all = symbol_views(symbols@);
    let mut out: Vec<TestInfo> = Vec::new();
    let mut i: usize = 0;
    assert(all.take(0) =~= Seq::empty());
    assert(test_views(out@) =~= Seq::empty());
    while i < symbols.len()
        invariant
            i <= symbols@.len(),
            all == symbol_views(symbols@),
            tests_have_bodies(all, sources@),
            test_views(out@) == first_of(
                symbol_tests(all.take(i as int), sources@, symbol_name@),
                cap as int,
            ),
        decreases symbols@.len() - i,
    {
        let ghost sofar = symbol_tests(all.take(i as int), sources@, symbol_name@);
        let ghost before = test_views(out@);
        assert(before.len() == out@.len());
        if out.len() >= cap {
            proof {
                lemma_symbol_tests_prefix(all, sources@, symbol_name@, i as int);
                assert(first_of(symbol_tests(all, sources@, symbol_name@), cap as int)
                    =~= first_of(sofar, cap as int));
            }
            return out;
        }
        let s = &symbols[i];
        assert(all[i as int] == s@);
        assert(all.take(i + 1).drop_last() =~= all.take(i as int));
        assert(all.take(i + 1).last() == s@);
        if is_test_symbol(s) {
            match sources.read(s.file.as_str()) {
                Ok(source) => match take_body(s, source.as_str()) {
                    Some(body) => if contains(body.as_str(), symbol_name) {
                        let test = TestInfo {
                            name: s.name.clone(),
                            file: s.file.clone(),
                            line: s.line_range.0,
                            signature: s.signature.clone(),
                        };
                        out.push(test);
                        assert(test_views(out@) =~= before.push(test@));
                        assert(first_of(sofar.push(test@), cap as int) =~= before.push(test@));
                    },
                    None => {},
                },
                Err(_) => {},
            }
        }
        i = i + 1;
    }
    assert(all.take(i as int) =~= all);
    out
}

// ---------------------------------------------------------------------------
// Blocks of ExUnit
// ---------------------------------------------------------------------------

/// A file holds tests of Elixir.
pub open spec fn holds_exunit(path: Seq<char>) -> bool {
    finishes_with(path, "_test.exs"@) || has_text(path, "/test/"@)
}

/// Whether a file holds tests of Elixir.
pub fn is_elixir_test_file(path: &str) -> (r: bool)
    ensures
        r == holds_exunit(path@),
{
    ends_with(path, "_test.exs") || contains(path, "/test/")
}

/// The name of a test as it is shown: without white space and quotes around it.
pub open spec fn clean_name(name: Seq<char>) -> Seq<char> {
    trim_char_of(trim_char_of(trim_of(name), '"'), '\'')
}

/// The name of a test as it is shown.
pub fn clean_elixir_test_name(name: &str) -> (r: String)
    ensures
        r@ == clean_name(name@),
{
    let trimmed = trim(name);
    let unquoted = trim_char(trimmed.as_str(), '"');
    trim_char(unquoted.as_str(), '\'')
}

/// The query for the blocks of ExUnit.
pub const EXUNIT_BLOCKS: &'static str = r#"
(call
  target: (identifier) @test.kind
  (arguments
    [
      (string) @test.name
      (charlist) @test.name
      (sigil) @test.name
    ])
  (#any-of? @test.kind "test" "describe")) @test.def
"#;

/// A block of ExUnit: a test, or a description of several.
pub struct BlockView {
    pub kind: Seq<char>,
    pub label: Seq<char>,
    pub start: usize,
    pub end: usize,
    pub line: usize,
    pub signature: Seq<char>,
}

/// A block of ExUnit: a test, or a description of several. Its label, its bytes,
/// its line (from 1) and its first line.
#[derive(Debug, PartialEq, Eq)]
pub struct ExUnitBlock {
    pub kind: String,
    pub label: String,
    pub start: usize,
    pub end: usize,
    pub line: usize,
    pub signature: String,
}

impl View for ExUnitBlock {
    type V = BlockView;

    open spec fn view(&self) -> BlockView {
        BlockView {
            kind: self.kind@,
            label: self.label@,
            start: self.start,
            end: self.end,
            line: self.line,
            signature: self.signature@,
        }
    }
}

/// The blocks of a list.
pub open spec fn block_views(v: Seq<ExUnitBlock>) -> Seq<BlockView> {
    v.map_values(|b: ExUnitBlock| b@)
}

/// Where a block stands: by its first byte, then by its end.
pub open spec fn block_le(a: BlockView, b: BlockView) -> bool {
    a.start < b.start || (a.start == b.start && a.end <= b.end)
}

impl Ranked for ExUnitBlock {
    open spec fn rank_le(self, other: Self) -> bool {
        block_le(self@, other@)
    }

    proof fn rank_total(a: Self, b: Self) {
    }

    proof fn rank_transitive(a: Self, b: Self, c: Self) {
    }

    fn may_precede(&self, other: &Self) -> (r: bool) {
        self.start < other.start || (self.start == other.start && self.end <= other.end)
    }
}

/// The order of blocks, as a relation.
pub open spec fn block_order() -> spec_fn(BlockView, BlockView) -> bool {
    |a: BlockView, b: BlockView| block_le(a, b)
}

/// The numbers of the captures that make up a block.
pub struct BlockCaptures {
    pub kind: Option<int>,
    pub name: Option<int>,
    pub def: Option<int>,
}

/// What the captures of a match say of a block.
pub struct BlockParts {
    pub kind: Option<Seq<char>>,
    pub name: Option<Seq<char>>,
    pub def: Option<NodeView>,
}

/// What is known of a block after the captures of a match.
pub open spec fn block_parts(numbers: BlockCaptures, captures: Seq<CaptureView>) -> BlockParts
    decreases captures.len(),
{
    if captures.len() == 0 {
        BlockParts { kind: None, name: None, def: None }
    } else {
        let before = block_parts(numbers, captures.drop_last());
        let c = captures.last();
        let index = Some(c.index as int);
        if index == numbers.kind {
            BlockParts { kind: c.node.text, ..before }
        } else if index == numbers.name {
            BlockParts { name: c.node.text, ..before }
        } else if index == numbers.def {
            BlockParts { def: Some(c.node), ..before }
        } else {
            before
        }
    }
}

/// The block that a match stands for. Without a kind it is a test, and without a
/// name it is named after its kind.
pub open spec fn block_of(source: Seq<char>, parts: BlockParts) -> Option<BlockView> {
    match parts.def {
        None => None,
        Some(def) => {
            let kind = match parts.kind {
                Some(k) => k,
                None => "test"@,
            };
            let name = match parts.name {
                Some(n) => n,
                None => kind,
            };
            Some(
                BlockView {
                    kind,
                    label: clean_name(name),
                    start: def.start_byte,
                    end: min(def.end_byte as int, byte_len(source) as int) as usize,
                    line: (def.start_row + 1) as usize,
                    signature: trim_of(line_text(source, def.start_row as int)),
                },
            )
        },
    }
}

/// The blocks that the matches stand for, as they come.
pub open spec fn matched_blocks(
    source: Seq<char>,
    numbers: BlockCaptures,
    matches: Seq<Seq<CaptureView>>,
) -> Seq<BlockView>
    decreases matches.len(),
{
    if matches.len() == 0 {
        Seq::empty()
    } else {
        let before = matched_blocks(source, numbers, matches.drop_last());
        match block_of(source, block_parts(numbers, matches.last())) {
            Some(b) => before.push(b),
            None => before,
        }
    }
}

/// The query that is used for the blocks of ExUnit.
pub open spec fn blocks_query(cache: Queries) -> Result<Query, QueryError> {
    query_for(
        cache,
        Language::Elixir,
        QueryKind::ElixirExUnitBlocks,
        grammar_of(Language::Elixir),
        EXUNIT_BLOCKS@,
    )
}

/// The query that is used for the calls in a test.
pub open spec fn calls_query(cache: Queries) -> Result<Query, QueryError> {
    query_for(
        cache,
        Language::Elixir,
        QueryKind::Callers,
        grammar_of(Language::Elixir),
        CALLERS_QUERY@,
    )
}

/// The cache once the query for the blocks of ExUnit has been asked for.
pub open spec fn cache_with_blocks(cache: Queries) -> Queries {
    cache_after(
        cache,
        Language::Elixir,
        QueryKind::ElixirExUnitBlocks,
        grammar_of(Language::Elixir),
        EXUNIT_BLOCKS@,
    )
}

/// The cache once the query for the calls in a test has been asked for.
pub open spec fn cache_with_calls(cache: Queries) -> Queries {
    cache_after(
        cache,
        Language::Elixir,
        QueryKind::Callers,
        grammar_of(Language::Elixir),
        CALLERS_QUERY@,
    )
}

/// Two caches give the same queries on tests.
pub open spec fn same_test_queries(a: Queries, b: Queries) -> bool {
    blocks_query(a) == blocks_query(b) && calls_query(a) == calls_query(b)
}

/// Asking for the queries on tests changes none of them, and asking for one once more
/// changes nothing.
proof fn lemma_test_queries(start: Queries, cache: Queries)
    requires
        same_test_queries(start, cache),
    ensures
        same_test_queries(start, cache_with_blocks(cache)),
        same_test_queries(start, cache_with_calls(cache)),
        same_test_queries(start, cache_with_calls(cache_with_blocks(cache))),
        cache_with_calls(cache_with_calls(cache)) == cache_with_calls(cache),
{
    assert(cache_with_calls(cache_with_calls(cache)) =~= cache_with_calls(cache));
}

/// The blocks of a file, in their order.
pub open spec fn exunit_blocks(source: Seq<char>, tree: Tree, cache: Queries) -> Seq<BlockView> {
    match blocks_query(cache) {
        Err(_) => Seq::empty(),
        Ok(query) => sorted_by(
            matched_blocks(
                source,
                BlockCaptures {
                    kind: capture_number(query_captures(query), "test.kind"@),
                    name: capture_number(query_captures(query), "test.name"@),
                    def: capture_number(query_captures(query), "test.def"@),
                },
                query_matches(tree, query, source, None),
            ),
            block_order(),
        ),
    }
}

/// The number of a capture.
pub open spec fn number_view(n: Option<usize>) -> Option<int> {
    match n {
        Some(k) => Some(k as int),
        None => None,
    }
}

/// Whether a capture has this number.
fn is_number(index: usize, number: Option<usize>) -> (r: bool)
    ensures
        r == (Some(index as int) == number_view(number)),
{
    match number {
        Some(k) => index == k,
        None => false,
    }
}

/// The block that a match stands for.
fn read_block(
    source: &str,
    rows: &Vec<Line>,
    kind_number: Option<usize>,
    name_number: Option<usize>,
    def_number: Option<usize>,
    captures: &Vec<Capture>,
) -> (r: Option<ExUnitBlock>)
    requires
        line_views(rows@) == lines_of(source@),
        forall|k: int|
            0 <= k < captures@.len() ==> (#[trigger] captures@[k]).node.start_row < usize::MAX,
    ensures
        ({
            let numbers = BlockCaptures {
                kind: number_view(kind_number),
                name: number_view(name_number),
                def: number_view(def_number),
            };
            let block = block_of(source@, block_parts(numbers, capture_views(captures@)));
            match r {
                Some(b) => block == Some(b@),
                None => block is None,
            }
        }),
{
    let ghost numbers = BlockCaptures {
        kind: number_view(kind_number),
        name: number_view(name_number),
        def: number_view(def_number),
    };
    let ghost caps = capture_views(captures@);
    let mut kind: Option<String> = None;
    let mut name: Option<String> = None;
    let mut def: Option<usize> = None;
    let mut i: usize = 0;
    assert(caps.take(0) =~= Seq::empty());
    while i < captures.len()
        invariant
            i <= captures@.len(),
            caps == capture_views(captures@),
            numbers == (BlockCaptures {
                kind: number_view(kind_number),
                name: number_view(name_number),
                def: number_view(def_number),
            }),
            def is Some ==> def->0 < i,
            ({
                let parts = block_parts(numbers, caps.take(i as int));
                &&& opt_view(kind) == parts.kind
                &&& opt_view(name) == parts.name
                &&& match def {
                    Some(k) => parts.def == Some(captures@[k as int].node@),
                    None => parts.def is None,
                }
            }),
        decreases captures@.len() - i,
    {
        assert(caps.take(i + 1).drop_last() =~= caps.take(i as int));
        assert(caps.take(i + 1).last() == captures@[i as int]@);
        let index: usize = captures[i].index;
        if is_number(index, kind_number) {
            kind = copy_opt(&captures[i].node.text);
        } else if is_number(index, name_number) {
            name = copy_opt(&captures[i].node.text);
        } else if is_number(index, def_number) {
            def = Some(i);
        }
        i = i + 1;
    }
    assert(caps.take(i as int) =~= caps);
    let at: usize = match def {
        Some(k) => k,
        None => return None,
    };
    let node = &captures[at].node;
    let kind = match kind {
        Some(k) => k,
        None => "test".to_string(),
    };
    let label = match name {
        Some(n) => clean_elixir_test_name(n.as_str()),
        None => clean_elixir_test_name(kind.as_str()),
    };
    let total: usize = len_bytes(source);
    let end: usize = if node.end_byte <= total {
        node.end_byte
    } else {
        total
    };
    let text = row_text(source, rows, node.start_row);
    Some(
        ExUnitBlock {
            kind,
            label,
            start: node.start_byte,
            end,
            line: node.start_row + 1,
            signature: trim(text.as_str()),
        },
    )
}

/// The blocks that the matches of a query stand for, in their order.
pub fn blocks_from_matches(
    source: &str,
    kind_number: Option<usize>,
    name_number: Option<usize>,
    def_number: Option<usize>,
    matches: &Vec<Vec<Capture>>,
) -> (r: Vec<ExUnitBlock>)
    requires
        forall|i: int, j: int|
            0 <= i < matches@.len() && 0 <= j < matches@[i]@.len() ==> (
            #[trigger] matches@[i]@[j]).node.start_row < usize::MAX,
    ensures
        block_views(r@) == sorted_by(
            matched_blocks(
                source@,
                BlockCaptures {
                    kind: number_view(kind_number),
                    name: number_view(name_number),
                    def: number_view(def_number),
                },
                match_views(matches@),
            ),
            block_order(),
        ),
{
    let ghost numbers = BlockCaptures {
        kind: number_view(kind_number),
        name: number_view(name_number),
        def: number_view(def_number),
    };
    let ghost all = match_views(matches@);
    let rows = lines(source);
    let mut out: Vec<ExUnitBlock> = Vec::new();
    let mut i: usize = 0;
    assert(all.take(0) =~= Seq::empty());
    assert(block_views(out@) =~= Seq::empty());
    while i < matches.len()
        invariant
            i <= matches@.len(),
            all == match_views(matches@),
            numbers == (BlockCaptures {
                kind: number_view(kind_number),
                name: number_view(name_number),
                def: number_view(def_number),
            }),
            line_views(rows@) == lines_of(source@),
            forall|i: int, j: int|
                0 <= i < matches@.len() && 0 <= j < matches@[i]@.len() ==> (
                #[trigger] matches@[i]@[j]).node.start_row < usize::MAX,
            block_views(out@) == matched_blocks(source@, numbers, all.take(i as int)),
        decreases matches@.len() - i,
    {
        let ghost before = block_views(out@);
        assert(all.take(i + 1).drop_last() =~= all.take(i as int));
        assert(all.take(i + 1).last() == capture_views(matches@[i as int]@));
        match read_block(source, &rows, kind_number, name_number, def_number, &matches[i]) {
            Some(b) => {
                out.push(b);
                assert(block_views(out@) =~= before.push(b@));
            },
            None => {},
        }
        i = i + 1;
    }
    assert(all.take(i as int) =~= all);
    proof {
        lemma_sorted_by_map(
            out@,
            rank_order::<ExUnitBlock>(),
            |b: ExUnitBlock| b@,
            block_order(),
        );
    }
    sort(out)
}

/// The blocks of a file, in their order.
fn find_exunit_blocks(
    cache: &mut QueryCache,
    source: &str,
    tree: &Tree,
    grammar: &Grammar,
) -> (r: Vec<ExUnitBlock>)
    requires
        is_tree_of(*tree, source@),
        *grammar == grammar_of(Language::Elixir),
    ensures
        block_views(r@) == exunit_blocks(source@, *tree, old(cache)@),
        final(cache)@ == cache_with_blocks(old(cache)@),
{
    let query = match get_cached_query(
        cache,
        Language::Elixir,
        QueryKind::ElixirExUnitBlocks,
        grammar,
        EXUNIT_BLOCKS,
    ) {
        Ok(q) => q,
        Err(_) => {
            let none: Vec<ExUnitBlock> = Vec::new();
            assert(block_views(none@) =~= Seq::empty());
            return none;
        },
    };
    let names = query.capture_names();
    let kind_number = find_capture(names, "test.kind");
    let name_number = find_capture(names, "test.name");
    let def_number = find_capture(names, "test.def");
    let matches = matches_of(tree, query.query(), source, None);
    proof {
        lemma_rows_fit(matches@, source@);
    }
    blocks_from_matches(source, kind_number, name_number, def_number, &matches)
}

// ---------------------------------------------------------------------------
// Tests of ExUnit
// ---------------------------------------------------------------------------

/// A capture is a call of the name within bytes.
pub open spec fn is_call(
    capture: CaptureView,
    callee: Option<int>,
    range: (usize, usize),
    name: Seq<char>,
) -> bool {
    Some(capture.index as int) == callee && is_within(capture.node, range) && node_text(
        capture.node,
    ) == name
}

/// One of the matches captures a call of the name within bytes.
pub open spec fn calls_name(
    matches: Seq<Seq<CaptureView>>,
    callee: Option<int>,
    range: (usize, usize),
    name: Seq<char>,
) -> bool {
    exists|i: int, j: int|
        0 <= i < matches.len() && 0 <= j < matches[i].len() && is_call(
            #[trigger] matches[i][j],
            callee,
            range,
            name,
        )
}

/// Whether one of the matches captures a call of the name within bytes.
pub fn has_call(
    matches: &Vec<Vec<Capture>>,
    callee: Option<usize>,
    range: (usize, usize),
    name: &str,
) -> (r: bool)
    ensures
        r == calls_name(match_views(matches@), number_view(callee), range, name@),
{
    let ghost all = match_views(matches@);
    let mut i: usize = 0;
    while i < matches.len()
        invariant
            i <= matches@.len(),
            all == match_views(matches@),
            forall|a: int, b: int|
                0 <= a < i && 0 <= b < all[a].len() ==> !is_call(
                    #[trigger] all[a][b],
                    number_view(callee),
                    range,
                    name@,
                ),
        decreases matches@.len() - i,
    {
        assert(all[i as int] == capture_views(matches@[i as int]@));
        let mut j: usize = 0;
        while j < matches[i].len()
            invariant
                i < matches@.len(),
                j <= matches@[i as int]@.len(),
                all == match_views(matches@),
                all[i as int] == capture_views(matches@[i as int]@),
                forall|a: int, b: int|
                    0 <= a < i && 0 <= b < all[a].len() ==> !is_call(
                        #[trigger] all[a][b],
                        number_view(callee),
                        range,
                        name@,
                    ),
                forall|b: int|
                    0 <= b < j ==> !is_call(
                        #[trigger] all[i as int][b],
                        number_view(callee),
                        range,
                        name@,
                    ),
            decreases matches@[i as int]@.len() - j,
        {
            assert(all[i as int][j as int] == matches@[i as int]@[j as int]@);
            let capture = &matches[i][j];
            if is_number(capture.index, callee) && range.0 <= capture.node.start_byte
                && capture.node.end_byte <= range.1 {
                let text = capture.node.text_or_empty();
                if same(text.as_str(), name) {
                    assert(is_call(all[i as int][j as int], number_view(callee), range, name@));
                    return true;
                }
            }
            j = j + 1;
        }
        i = i + 1;
    }
    false
}

/// Bytes of a file hold a call of the name.
pub open spec fn range_calls(
    source: Seq<char>,
    tree: Tree,
    cache: Queries,
    start: usize,
    end: usize,
    name: Seq<char>,
) -> bool {
    match calls_query(cache) {
        Err(_) => false,
        Ok(query) => calls_name(
            query_matches(tree, query, source, Some((start, end))),
            capture_number(query_captures(query), "callee"@),
            (start, end),
            name,
        ),
    }
}

/// Whether bytes of a file hold a call of the name.
fn range_contains_elixir_call(
    cache: &mut QueryCache,
    source: &str,
    tree: &Tree,
    grammar: &Grammar,
    start: usize,
    end: usize,
    symbol_name: &str,
) -> (r: bool)
    requires
        is_tree_of(*tree, source@),
        *grammar == grammar_of(Language::Elixir),
    ensures
        r == range_calls(source@, *tree, old(cache)@, start, end, symbol_name@),
        final(cache)@ == cache_with_calls(old(cache)@),
{
    let query = match get_cached_query(
        cache,
        Language::Elixir,
        QueryKind::Callers,
        grammar,
        CALLERS_QUERY,
    ) {
        Ok(q) => q,
        Err(_) => return false,
    };
    let callee = find_capture(query.capture_names(), "callee");
    let matches = matches_of(tree, query.query(), source, Some((start, end)));
    has_call(&matches, callee, (start, end), symbol_name)
}

/// The labels of those of the first `n` blocks that describe a test: the
/// descriptions around it.
pub open spec fn descriptions(blocks: Seq<BlockView>, test: BlockView, n: int) -> Seq<Seq<char>>
    decreases n,
{
    if n <= 0 {
        Seq::empty()
    } else {
        let before = descriptions(blocks, test, n - 1);
        let d = blocks[n - 1];
        if d.kind == "describe"@ && d.start <= test.start && test.end <= d.end {
            before.push(d.label)
        } else {
            before
        }
    }
}

/// The name of a test: the descriptions around it, and its own label.
pub open spec fn test_name(blocks: Seq<BlockView>, test: BlockView) -> Seq<char> {
    "test "@ + join_of(
        descriptions(blocks, test, blocks.len() as int).push(test.label),
        " > "@,
    )
}

/// The name of a test.
pub fn name_test(blocks: &Vec<ExUnitBlock>, test: &ExUnitBlock) -> (r: String)
    ensures
        r@ == test_name(block_views(blocks@), test@),
{
    let ghost all = block_views(blocks@);
    let mut labels: Vec<String> = Vec::new();
    let mut i: usize = 0;
    assert(views(labels@) =~= Seq::empty());
    while i < blocks.len()
        invariant
            i <= blocks@.len(),
            all == block_views(blocks@),
            views(labels@) == descriptions(all, test@, i as int),
        decreases blocks@.len() - i,
    {
        let ghost before = views(labels@);
        let d = &blocks[i];
        assert(all[i as int] == d@);
        if same(d.kind.as_str(), "describe") && d.start <= test.start && test.end <= d.end {
            labels.push(d.label.clone());
            assert(views(labels@) =~= before.push(d.label@));
        }
        i = i + 1;
    }
    let ghost around = views(labels@);
    labels.push(test.label.clone());
    assert(views(labels@) =~= around.push(test.label@));
    let joined = join(&labels, " > ");
    let mut name = "test ".to_string();
    name.append(joined.as_str());
    name
}

/// The tests among the first `n` blocks of a file that call the name.
pub open spec fn calling_tests(
    source: Seq<char>,
    tree: Tree,
    cache: Queries,
    file: Seq<char>,
    blocks: Seq<BlockView>,
    name: Seq<char>,
    n: int,
) -> Seq<TestView>
    decreases n,
{
    if n <= 0 {
        Seq::empty()
    } else {
        let before = calling_tests(source, tree, cache, file, blocks, name, n - 1);
        let b = blocks[n - 1];
        if b.kind == "test"@ && range_calls(source, tree, cache, b.start, b.end, name) {
            before.push(
                TestView {
                    name: test_name(blocks, b),
                    file,
                    line: b.line,
                    signature: b.signature,
                },
            )
        } else {
            before
        }
    }
}

/// One of the first `n` blocks is a test.
pub open spec fn has_test(blocks: Seq<BlockView>, n: int) -> bool {
    exists|k: int| 0 <= k < n && (#[trigger] blocks[k]).kind == "test"@
}

/// The tests of a file that call the name.
pub open spec fn tests_in_file(
    source: Seq<char>,
    cache: Queries,
    file: Seq<char>,
    name: Seq<char>,
) -> Seq<TestView> {
    match parse_outcome(grammar_of(Language::Elixir), source) {
        Err(_) => Seq::empty(),
        Ok(tree) => {
            let blocks = exunit_blocks(source, tree, cache);
            calling_tests(source, tree, cache, file, blocks, name, blocks.len() as int)
        },
    }
}

/// The cache of queries once a file has been searched for tests: the query for blocks is
/// asked for where there is a tree, and that for calls where there is a test.
pub open spec fn cache_after_tests(source: Seq<char>, cache: Queries) -> Queries {
    match parse_outcome(grammar_of(Language::Elixir), source) {
        Err(_) => cache,
        Ok(tree) => {
            let blocks = exunit_blocks(source, tree, cache);
            if has_test(blocks, blocks.len() as int) {
                cache_with_calls(cache_with_blocks(cache))
            } else {
                cache_with_blocks(cache)
            }
        },
    }
}

/// The tests of files that call the name, in the order of the files.
pub open spec fn exunit_tests(
    cache: Queries,
    reads: Map<Seq<char>, ReadView>,
    files: Map<Seq<char>, FileEntryView>,
    paths: Seq<Seq<char>>,
    name: Seq<char>,
) -> Seq<TestView>
    decreases paths.len(),
{
    if paths.len() == 0 {
        Seq::empty()
    } else {
        let before = exunit_tests(cache, reads, files, paths.drop_last(), name);
        let path = paths.last();
        if files[path].language == Language::Elixir && holds_exunit(path) {
            match read_of(reads, path) {
                Ok(source) => before + tests_in_file(source, cache, path, name),
                Err(_) => before,
            }
        } else {
            before
        }
    }
}

/// The tests in more files begin with those in fewer.
proof fn lemma_exunit_prefix(
    cache: Queries,
    reads: Map<Seq<char>, ReadView>,
    files: Map<Seq<char>, FileEntryView>,
    paths: Seq<Seq<char>>,
    name: Seq<char>,
    n: int,
)
    requires
        0 <= n <= paths.len(),
    ensures
        exunit_tests(cache, reads, files, paths.take(n), name).is_prefix_of(
            exunit_tests(cache, reads, files, paths, name),
        ),
    decreases paths.len() - n,
{
    if n == paths.len() {
        assert(paths.take(n) =~= paths);
    } else {
        lemma_exunit_prefix(cache, reads, files, paths, name, n + 1);
        assert(paths.take(n + 1).drop_last() =~= paths.take(n));
    }
}

/// The cache of queries once files have been searched for tests, until there are `cap`.
pub open spec fn cache_after_exunit(
    cache: Queries,
    reads: Map<Seq<char>, ReadView>,
    files: Map<Seq<char>, FileEntryView>,
    paths: Seq<Seq<char>>,
    name: Seq<char>,
    cap: int,
) -> Queries
    decreases paths.len(),
{
    if paths.len() == 0 {
        cache
    } else {
        let rest = paths.drop_last();
        let path = paths.last();
        let before = cache_after_exunit(cache, reads, files, rest, name, cap);
        if exunit_tests(cache, reads, files, rest, name).len() < cap && files[path].language
            == Language::Elixir && holds_exunit(path) {
            match read_of(reads, path) {
                Ok(source) => cache_after_tests(source, before),
                Err(_) => before,
            }
        } else {
            before
        }
    }
}

/// Once there are enough tests, the cache of queries stays as it is.
proof fn lemma_cache_stays(
    cache: Queries,
    reads: Map<Seq<char>, ReadView>,
    files: Map<Seq<char>, FileEntryView>,
    paths: Seq<Seq<char>>,
    name: Seq<char>,
    cap: int,
    n: int,
)
    requires
        0 <= n <= paths.len(),
        exunit_tests(cache, reads, files, paths.take(n), name).len() >= cap,
    ensures
        cache_after_exunit(cache, reads, files, paths, name, cap) == cache_after_exunit(
            cache,
            reads,
            files,
            paths.take(n),
            name,
            cap,
        ),
    decreases paths.len(),
{
    if n == paths.len() {
        assert(paths.take(n) =~= paths);
    } else {
        let rest = paths.drop_last();
        assert(rest.take(n) =~= paths.take(n));
        lemma_cache_stays(cache, reads, files, rest, name, cap, n);
        lemma_exunit_prefix(cache, reads, files, rest, name, n);
    }
}

/// The tests of a file that call the name.
fn find_file_tests(
    cache: &mut QueryCache,
    source: &str,
    file: &str,
    symbol_name: &str,
) -> (r: Vec<TestInfo>)
    ensures
        test_views(r@) == tests_in_file(source@, old(cache)@, file@, symbol_name@),
        final(cache)@ == cache_after_tests(source@, old(cache)@),
{
    let ghost start = cache@;
    let mut out: Vec<TestInfo> = Vec::new();
    assert(test_views(out@) =~= Seq::empty());
    let grammar = elixir_grammar();
    let tree = match parse_source(&grammar, source) {
        Ok(t) => t,
        Err(_) => return out,
    };
    let blocks = find_exunit_blocks(cache, source, &tree, &grammar);
    let ghost all = block_views(blocks@);
    let mut i: usize = 0;
    proof {
        lemma_test_queries(start, start);
    }
    while i < blocks.len()
        invariant
            i <= blocks@.len(),
            all == block_views(blocks@),
            is_tree_of(tree, source@),
            grammar == grammar_of(Language::Elixir),
            same_test_queries(start, cache@),
            cache@ == (if has_test(all, i as int) {
                cache_with_calls(cache_with_blocks(start))
            } else {
                cache_with_blocks(start)
            }),
            test_views(out@) == calling_tests(
                source@,
                tree,
                start,
                file@,
                all,
                symbol_name@,
                i as int,
            ),
        decreases blocks@.len() - i,
    {
        let ghost before = test_views(out@);
        let b = &blocks[i];
        assert(all[i as int] == b@);
        proof {
            lemma_test_queries(start, cache@);
            lemma_test_queries(start, cache_with_blocks(start));
        }
        if same(b.kind.as_str(), "test") {
            assert(has_test(all, i + 1));
            if range_contains_elixir_call(
                cache,
                source,
                &tree,
                &grammar,
                b.start,
                b.end,
                symbol_name,
            ) {
                let test = TestInfo {
                    name: name_test(&blocks, b),
                    file: file.to_owned(),
                    line: b.line,
                    signature: b.signature.clone(),
                };
                out.push(test);
                assert(test_views(out@) =~= before.push(test@));
            }
        } else {
            assert(has_test(all, i + 1) == has_test(all, i as int)) by {
                if has_test(all, i + 1) {
                    let k = choose|k: int| 0 <= k < i + 1 && (#[trigger] all[k]).kind == "test"@;
                    assert(k < i);
                }
                if has_test(all, i as int) {
                    let k = choose|k: int| 0 <= k < i && (#[trigger] all[k]).kind == "test"@;
                    assert(all[k].kind == "test"@);
                }
            }
        }
        i = i + 1;
    }
    assert(all.len() == blocks@.len());
    out
}

/// The tests of a file depend on the queries that are used alone.
proof fn lemma_same_calling(
    source: Seq<char>,
    tree: Tree,
    a: Queries,
    b: Queries,
    file: Seq<char>,
    blocks: Seq<BlockView>,
    name: Seq<char>,
    n: int,
)
    requires
        same_test_queries(a, b),
    ensures
        calling_tests(source, tree, a, file, blocks, name, n) == calling_tests(
            source,
            tree,
            b,
            file,
            blocks,
            name,
            n,
        ),
    decreases n,
{
    if n > 0 {
        lemma_same_calling(source, tree, a, b, file, blocks, name, n - 1);
    }
}

/// The first `cap` tests of Elixir that call the name.
fn find_exunit_tests(
    cache: &mut QueryCache,
    sources: &Sources,
    file_tree: &FileTree,
    symbol_name: &str,
    cap: usize,
) -> (r: Vec<TestInfo>)
    ensures
        test_views(r@) == first_of(
            exunit_tests(
                old(cache)@,
                sources@,
                file_tree@.files,
                sorted_keys(file_tree@.files),
                symbol_name@,
            ),
            cap as int,
        ),
        final(cache)@ == cache_after_exunit(
            old(cache)@,
            sources@,
            file_tree@.files,
            sorted_keys(file_tree@.files),
            symbol_name@,
            cap as int,
        ),
        lists_in_order(sorted_keys(file_tree@.files), file_tree@.files),
{
    let ghost start = cache@;
    let paths = file_tree.sorted_paths();
    let ghost files = file_tree@.files;
    let ghost all = views(paths@);
    let ghost whole = exunit_tests(start, sources@, files, all, symbol_name@);
    let mut out: Vec<TestInfo> = Vec::new();
    let mut i: usize = 0;
    assert(all.take(0) =~= Seq::empty());
    assert(test_views(out@) =~= Seq::empty());
    assert forall|k: int| 0 <= k < paths@.len() implies files.contains_key(
        (#[trigger] paths@[k])@,
    ) by {
        assert(views(paths@)[k] == paths@[k]@);
        assert(views(paths@).contains(paths@[k]@));
    }
    while i < paths.len()
        invariant
            i <= paths@.len(),
            start == old(cache)@,
            all == views(paths@),
            all == sorted_keys(file_tree@.files),
            lists_in_order(all, file_tree@.files),
            files == file_tree@.files,
            whole == exunit_tests(start, sources@, files, all, symbol_name@),
            forall|k: int| 0 <= k < paths@.len() ==> files.contains_key((#[trigger] paths@[k])@),
            test_views(out@) == first_of(
                exunit_tests(start, sources@, files, all.take(i as int), symbol_name@),
                cap as int,
            ),
            same_test_queries(start, cache@),
            cache@ == cache_after_exunit(
                start,
                sources@,
                files,
                all.take(i as int),
                symbol_name@,
                cap as int,
            ),
        decreases paths@.len() - i,
    {
        let ghost sofar = exunit_tests(start, sources@, files, all.take(i as int), symbol_name@);
        assert(test_views(out@).len() == out@.len());
        if out.len() >= cap {
            proof {
                lemma_exunit_prefix(start, sources@, files, all, symbol_name@, i as int);
                assert(first_of(whole, cap as int) =~= first_of(sofar, cap as int));
                lemma_cache_stays(
                    start,
                    sources@,
                    files,
                    all,
                    symbol_name@,
                    cap as int,
                    i as int,
                );
            }
            return out;
        }
        let path = paths[i].as_str();
        assert(all.take(i + 1).drop_last() =~= all.take(i as int));
        assert(all.take(i + 1).last() == path@);
        assert(files.contains_key(paths@[i as int]@));
        match (file_tree.get(path), sources.read(path)) {
            (Some(entry), Ok(source)) => {
                if entry.language == Language::Elixir && is_elixir_test_file(path) {
                    proof {
                        lemma_test_queries(start, cache@);
                        if let Ok(tree) = parse_outcome(grammar_of(Language::Elixir), source@) {
                            let blocks = exunit_blocks(source@, tree, start);
                            lemma_same_calling(
                                source@,
                                tree,
                                start,
                                cache@,
                                path@,
                                blocks,
                                symbol_name@,
                                blocks.len() as int,
                            );
                        }
                    }
                    let found = find_file_tests(cache, source.as_str(), path, symbol_name);
                    let ghost here = test_views(found@);
                    add_tests(&mut out, found, cap);
                    assert(first_of(first_of(sofar, cap as int) + here, cap as int) =~= first_of(
                        sofar + here,
                        cap as int,
                    ));
                }
            },
            _ => {},
        }
        i = i + 1;
    }
    assert(all.take(i as int) =~= all);
    out
}

// ---------------------------------------------------------------------------
// Tests of a symbol
// ---------------------------------------------------------------------------

/// What asking for the tests of a symbol gives: for Elixir the test blocks that call
/// it, for other languages the test functions that hold its name.
pub open spec fn tests_of(
    contents: Map<Seq<char>, SymbolView>,
    cache: Queries,
    reads: Map<Seq<char>, ReadView>,
    files: Map<Seq<char>, FileEntryView>,
    name: Seq<char>,
    file: Seq<char>,
    limit: usize,
) -> Result<Seq<TestView>, Seq<char>> {
    match looked_up(contents, file, name) {
        None => Err(no_symbol(name, file)),
        Some(s) => if s.language == Language::Elixir {
            Ok(
                first_of(
                    exunit_tests(cache, reads, files, sorted_keys(files), call_name(s)),
                    shown(limit),
                ),
            )
        } else {
            Ok(first_of(symbol_tests(values_in_order(contents), reads, name), shown(limit)))
        },
    }
}

/// The cache of queries once the tests of a symbol have been asked for.
pub open spec fn cache_after_finding(
    contents: Map<Seq<char>, SymbolView>,
    cache: Queries,
    reads: Map<Seq<char>, ReadView>,
    files: Map<Seq<char>, FileEntryView>,
    name: Seq<char>,
    file: Seq<char>,
    limit: usize,
) -> Queries {
    match looked_up(contents, file, name) {
        Some(s) => if s.language == Language::Elixir {
            cache_after_exunit(
                cache,
                reads,
                files,
                sorted_keys(files),
                call_name(s),
                shown(limit),
            )
        } else {
            cache
        },
        None => cache,
    }
}

/// The tests of a symbol can be looked for: those of Elixir always, and those of
/// other languages where the texts of all tests can be taken from their files.
pub open spec fn can_find_tests(
    contents: Map<Seq<char>, SymbolView>,
    reads: Map<Seq<char>, ReadView>,
    name: Seq<char>,
    file: Seq<char>,
) -> bool {
    looked_up(contents, file, name) matches Some(s) ==> s.language == Language::Elixir
        || tests_have_bodies(values_in_order(contents), reads)
}

/// The outcome of asking for tests.
pub open spec fn tests_view(r: Result<Vec<TestInfo>, String>) -> Result<Seq<TestView>, Seq<char>> {
    match r {
        Ok(v) => Ok(test_views(v@)),
        Err(e) => Err(e@),
    }
}

/// Finds the tests that refer to a symbol. The bytes of test functions have to lie
/// in their files as they are now.
pub fn find_tests(
    cache: &mut QueryCache,
    sources: &Sources,
    file_tree: &FileTree,
    symbol_table: &SymbolTable,
    symbol_name: &str,
    file: &str,
    limit: usize,
) -> (r: Result<Vec<TestInfo>, String>)
    requires
        can_find_tests(symbol_table@, sources@, symbol_name@, file@),
    ensures
        tests_view(r) == tests_of(
            symbol_table@,
            old(cache)@,
            sources@,
            file_tree@.files,
            symbol_name@,
            file@,
            limit,
        ),
        final(cache)@ == cache_after_finding(
            symbol_table@,
            old(cache)@,
            sources@,
            file_tree@.files,
            symbol_name@,
            file@,
            limit,
        ),
        looked_up(symbol_table@, file@, symbol_name@) matches Some(s) ==> if s.language
            == Language::Elixir {
            lists_in_order(sorted_keys(file_tree@.files), file_tree@.files)
        } else {
            lists_in_order(sorted_keys(symbol_table@), symbol_table@)
        },
{
    let symbol = match find_symbol_for_lookup(symbol_table, file, symbol_name) {
        Some(s) => s,
        None => return Err(no_symbol_message(symbol_name, file)),
    };
    let cap: usize = if limit == 0 {
        1
    } else {
        limit
    };
    if symbol.language == Language::Elixir {
        let name = callable_name_for_symbol(&symbol);
        return Ok(find_exunit_tests(cache, sources, file_tree, name.as_str(), cap));
    }
    let symbols = symbol_table.all_symbols();
    Ok(tests_among(sources, &symbols, symbol_name, cap))
}

/// Whether the text of every test can be taken from its file.
fn check_bodies(sources: &Sources, symbols: &Vec<Symbol>) -> (r: bool)
    ensures
        r == tests_have_bodies(symbol_views(symbols@), sources@),
{
    let ghost all = symbol_views(symbols@);
    let mut i: usize = 0;
    while i < symbols.len()
        invariant
            i <= symbols@.len(),
            all == symbol_views(symbols@),
            forall|k: int|
                0 <= k < i && is_test(#[trigger] all[k]) ==> has_body(all[k], sources@),
        decreases symbols@.len() - i,
    {
        let s = &symbols[i];
        assert(all[i as int] == s@);
        if is_test_symbol(s) {
            match sources.read(s.file.as_str()) {
                Ok(source) => if take_body(s, source.as_str()).is_none() {
                    return false;
                },
                Err(_) => {},
            }
        }
        i = i + 1;
    }
    true
}

/// Finds the tests that refer to a symbol; nothing where the bytes of a test
/// function do not lie in its file as it is now.
pub fn try_find_tests(
    cache: &mut QueryCache,
    sources: &Sources,
    file_tree: &FileTree,
    symbol_table: &SymbolTable,
    symbol_name: &str,
    file: &str,
    limit: usize,
) -> (r: Option<Result<Vec<TestInfo>, String>>)
    ensures
        match r {
            Some(outcome) => {
                &&& can_find_tests(symbol_table@, sources@, symbol_name@, file@)
                &&& tests_view(outcome) == tests_of(
                    symbol_table@,
                    old(cache)@,
                    sources@,
                    file_tree@.files,
                    symbol_name@,
                    file@,
                    limit,
                )
            },
            None => !can_find_tests(symbol_table@, sources@, symbol_name@, file@),
        },
        final(cache)@ == (if r is Some {
            cache_after_finding(
                symbol_table@,
                old(cache)@,
                sources@,
                file_tree@.files,
                symbol_name@,
                file@,
                limit,
            )
        } else {
            old(cache)@
        }),
{
    match find_symbol_for_lookup(symbol_table, file, symbol_name) {
        Some(symbol) => if symbol.language != Language::Elixir {
            let symbols = symbol_table.all_symbols();
            if !check_bodies(sources, &symbols) {
                return None;
            }
        },
        None => {},
    }
    Some(find_tests(cache, sources, file_tree, symbol_table, symbol_name, file, limit))
}

// ---------------------------------------------------------------------------
// Laws
// ---------------------------------------------------------------------------

/// The tests that are found among symbols stand at symbols that refer to the name.
proof fn lemma_symbol_tests_refer(
    symbols: Seq<SymbolView>,
    reads: Map<Seq<char>, ReadView>,
    name: Seq<char>,
    i: int,
)
    requires
        0 <= i < symbol_tests(symbols, reads, name).len(),
    ensures
        exists|k: int|
            0 <= k < symbols.len() && refers_to(#[trigger] symbols[k], reads, name)
                && stands_at(symbol_tests(symbols, reads, name)[i], symbols[k]),
    decreases symbols.len(),
{
    let rest = symbols.drop_last();
    if i < symbol_tests(rest, reads, name).len() {
        lemma_symbol_tests_refer(rest, reads, name, i);
        let k = choose|k: int|
            0 <= k < rest.len() && refers_to(#[trigger] rest[k], reads, name) && stands_at(
                symbol_tests(rest, reads, name)[i],
                rest[k],
            );
        assert(symbols[k] == rest[k]);
    } else {
        assert(symbols[symbols.len() - 1] == symbols.last());
    }
}

/// A test is the one that a symbol stands for.
pub open spec fn stands_at(test: TestView, s: SymbolView) -> bool {
    test == (TestView {
        name: s.name,
        file: s.file,
        line: s.line_range.0,
        signature: s.signature,
    })
}

/// Tests are shown up to the limit. Each test of a symbol that is not of Elixir is a
/// symbol of the table that is a test and whose text holds the name.
pub proof fn law_tests_are_bounded_and_refer(
    contents: Map<Seq<char>, SymbolView>,
    cache: Queries,
    reads: Map<Seq<char>, ReadView>,
    files: Map<Seq<char>, FileEntryView>,
    name: Seq<char>,
    file: Seq<char>,
    limit: usize,
    i: int,
)
    ensures
        tests_of(contents, cache, reads, files, name, file, limit) matches Ok(tests) ==> {
            &&& tests.len() <= shown(limit)
            &&& 0 <= i < tests.len() && looked_up(contents, file, name)->0.language
                != Language::Elixir ==> exists|k: int|
                0 <= k < values_in_order(contents).len() && refers_to(
                    #[trigger] values_in_order(contents)[k],
                    reads,
                    name,
                ) && stands_at(tests[i], values_in_order(contents)[k])
        },
{
    if let Ok(tests) = tests_of(contents, cache, reads, files, name, file, limit) {
        if 0 <= i < tests.len() && looked_up(contents, file, name)->0.language
            != Language::Elixir {
            lemma_symbol_tests_refer(values_in_order(contents), reads, name, i);
        }
    }
}

} // verus!
