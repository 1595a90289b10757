//! Which tests go with a symbol.
use vstd::prelude::*;
use vstd::utf8::encode_utf8;
use crate::index::file_entry::{FileEntryView, Language};
use crate::laws::lookup::lemma_values;
use crate::laws::text::{
    between_bytes, ends, holds, law_piece_between_bytes, law_texts_are_found, starts,
};
use crate::maps::{lists_in_order, sorted_keys, values_in_order};
use crate::ops::symbol_ops::body_of;
use crate::ops::symbol_ops::lookup::looked_up;
use crate::ops::symbol_ops::tests_of::{
    holds_exunit, is_test, refers_to, symbol_tests, tests_of, TestView,
};
use crate::sources::{read_of, ReadView};
use crate::symbols::queries::Queries;
use crate::symbols::symbol::{SymbolKind, SymbolView};

verus! {

// ---------------------------------------------------------------------------
// What is a test
// ---------------------------------------------------------------------------

/// A Rust symbol is a test by its kind, by its name or by the directory of its file.
pub proof fn law_rust_tests(s: SymbolView)
    requires
        s.language == Language::Rust,
    ensures
        is_test(s) <==> {
            ||| s.kind == SymbolKind::Test
            ||| starts(s.name, "test"@)
            ||| holds(s.file, "/tests/"@)
        },
{
    law_texts_are_found(s.name, "test"@);
    law_texts_are_found(s.file, "/tests/"@);
}

/// A Python symbol is a test by its kind, by its name or by the name of its file.
pub proof fn law_python_tests(s: SymbolView)
    requires
        s.language == Language::Python,
    ensures
        is_test(s) <==> {
            ||| s.kind == SymbolKind::Test
            ||| starts(s.name, "test_"@)
            ||| holds(s.file, "test_"@)
            ||| holds(s.file, "_test."@)
        },
{
    law_texts_are_found(s.name, "test_"@);
    law_texts_are_found(s.file, "test_"@);
    law_texts_are_found(s.file, "_test."@);
}

/// A TypeScript or JavaScript symbol is a test by its kind or by its file.
pub proof fn law_script_tests(s: SymbolView)
    requires
        s.language == Language::TypeScript || s.language == Language::JavaScript,
    ensures
        is_test(s) <==> {
            ||| s.kind == SymbolKind::Test
            ||| holds(s.file, ".test."@)
            ||| holds(s.file, ".spec."@)
            ||| holds(s.file, "__tests__"@)
        },
{
    law_texts_are_found(s.file, ".test."@);
    law_texts_are_found(s.file, ".spec."@);
    law_texts_are_found(s.file, "__tests__"@);
}

/// A Go symbol is a test by its kind, by its name or by the end of its file's name.
pub proof fn law_go_tests(s: SymbolView)
    requires
        s.language == Language::Go,
    ensures
        is_test(s) <==> {
            ||| s.kind == SymbolKind::Test
            ||| starts(s.name, "Test"@)
            ||| ends(s.file, "_test.go"@)
        },
{
    law_texts_are_found(s.name, "Test"@);
    law_texts_are_found(s.file, "_test.go"@);
}

/// A Java symbol is a test by its kind or by its file.
pub proof fn law_java_tests(s: SymbolView)
    requires
        s.language == Language::Java,
    ensures
        is_test(s) <==> {
            ||| s.kind == SymbolKind::Test
            ||| holds(s.file, "Test"@)
            ||| holds(s.file, "/test/"@)
        },
{
    law_texts_are_found(s.file, "Test"@);
    law_texts_are_found(s.file, "/test/"@);
}

/// A Scala symbol is a test by its kind or by its file.
pub proof fn law_scala_tests(s: SymbolView)
    requires
        s.language == Language::Scala,
    ensures
        is_test(s) <==> {
            ||| s.kind == SymbolKind::Test
            ||| holds(s.file, "Spec"@)
            ||| holds(s.file, "Test"@)
            ||| holds(s.file, "/test/"@)
        },
{
    law_texts_are_found(s.file, "Spec"@);
    law_texts_are_found(s.file, "Test"@);
    law_texts_are_found(s.file, "/test/"@);
}

/// An Elixir symbol is a test by its kind or where its file is one of tests.
pub proof fn law_elixir_tests(s: SymbolView)
    requires
        s.language == Language::Elixir,
    ensures
        is_test(s) <==> {
            ||| s.kind == SymbolKind::Test
            ||| ends(s.file, "_test.exs"@)
            ||| holds(s.file, "/test/"@)
        },
{
    law_texts_are_found(s.file, "_test.exs"@);
    law_texts_are_found(s.file, "/test/"@);
}

/// A Ruby symbol is a test by its kind, by its name or by its file.
pub proof fn law_ruby_tests(s: SymbolView)
    requires
        s.language == Language::Ruby,
    ensures
        is_test(s) <==> {
            ||| s.kind == SymbolKind::Test
            ||| starts(s.name, "test_"@)
            ||| ends(s.file, "_spec.rb"@)
            ||| ends(s.file, "_test.rb"@)
            ||| holds(s.file, "/spec/"@)
            ||| holds(s.file, "/test/"@)
        },
{
    law_texts_are_found(s.name, "test_"@);
    law_texts_are_found(s.file, "_spec.rb"@);
    law_texts_are_found(s.file, "_test.rb"@);
    law_texts_are_found(s.file, "/spec/"@);
    law_texts_are_found(s.file, "/test/"@);
}

/// A PHP symbol is a test by its kind, by its name or by its file.
pub proof fn law_php_tests(s: SymbolView)
    requires
        s.language == Language::Php,
    ensures
        is_test(s) <==> {
            ||| s.kind == SymbolKind::Test
            ||| starts(s.name, "test"@)
            ||| ends(s.file, "Test.php"@)
            ||| holds(s.file, "/tests/"@)
            ||| holds(s.file, "/Tests/"@)
        },
{
    law_texts_are_found(s.name, "test"@);
    law_texts_are_found(s.file, "Test.php"@);
    law_texts_are_found(s.file, "/tests/"@);
    law_texts_are_found(s.file, "/Tests/"@);
}

/// A symbol of a language without a custom is a test by its kind alone.
pub proof fn law_other_tests(s: SymbolView)
    requires
        match s.language {
            Language::Rust | Language::Python | Language::TypeScript | Language::JavaScript => false,
            Language::Go | Language::Java | Language::Scala | Language::Elixir => false,
            Language::Ruby | Language::Php => false,
            _ => true,
        },
    ensures
        is_test(s) <==> s.kind == SymbolKind::Test,
{
}

/// A file of Elixir holds tests by the end of its name or by its directory.
pub proof fn law_files_of_tests(path: Seq<char>)
    ensures
        holds_exunit(path) <==> ends(path, "_test.exs"@) || holds(path, "/test/"@),
{
    law_texts_are_found(path, "_test.exs"@);
    law_texts_are_found(path, "/test/"@);
}

/// Every custom of every language, together.
pub open spec fn is_test_by_custom(s: SymbolView) -> bool {
    ||| s.kind == SymbolKind::Test
    ||| match s.language {
        Language::Rust => starts(s.name, "test"@) || holds(s.file, "/tests/"@),
        Language::Python => {
            ||| starts(s.name, "test_"@)
            ||| holds(s.file, "test_"@)
            ||| holds(s.file, "_test."@)
        },
        Language::TypeScript | Language::JavaScript => {
            ||| holds(s.file, ".test."@)
            ||| holds(s.file, ".spec."@)
            ||| holds(s.file, "__tests__"@)
        },
        Language::Go => starts(s.name, "Test"@) || ends(s.file, "_test.go"@),
        Language::Java => holds(s.file, "Test"@) || holds(s.file, "/test/"@),
        Language::Scala => {
            ||| holds(s.file, "Spec"@)
            ||| holds(s.file, "Test"@)
            ||| holds(s.file, "/test/"@)
        },
        Language::Elixir => ends(s.file, "_test.exs"@) || holds(s.file, "/test/"@),
        Language::Ruby => {
            ||| starts(s.name, "test_"@)
            ||| ends(s.file, "_spec.rb"@)
            ||| ends(s.file, "_test.rb"@)
            ||| holds(s.file, "/spec/"@)
            ||| holds(s.file, "/test/"@)
        },
        Language::Php => {
            ||| starts(s.name, "test"@)
            ||| ends(s.file, "Test.php"@)
            ||| holds(s.file, "/tests/"@)
            ||| holds(s.file, "/Tests/"@)
        },
        _ => false,
    }
}

/// A symbol is a test exactly by the customs.
pub proof fn law_customs(s: SymbolView)
    ensures
        is_test(s) <==> is_test_by_custom(s),
{
    match s.language {
        Language::Rust => law_rust_tests(s),
        Language::Python => law_python_tests(s),
        Language::TypeScript | Language::JavaScript => law_script_tests(s),
        Language::Go => law_go_tests(s),
        Language::Java => law_java_tests(s),
        Language::Scala => law_scala_tests(s),
        Language::Elixir => law_elixir_tests(s),
        Language::Ruby => law_ruby_tests(s),
        Language::Php => law_php_tests(s),
        _ => law_other_tests(s),
    }
}

// ---------------------------------------------------------------------------
// Tests among the symbols
// ---------------------------------------------------------------------------

/// The text of a symbol, as far as the file goes, is this one.
pub open spec fn has_own_text(s: SymbolView, text: Seq<char>, body: Seq<char>) -> bool {
    let total = encode_utf8(text).len() as int;
    between_bytes(
        text,
        body,
        s.byte_range.0 as int,
        if s.byte_range.1 <= total {
            s.byte_range.1 as int
        } else {
            total
        },
    )
}

/// A symbol is a test whose own text, in a file that can be read, has the name.
pub open spec fn is_test_with(
    s: SymbolView,
    reads: Map<Seq<char>, ReadView>,
    name: Seq<char>,
) -> bool {
    &&& is_test_by_custom(s)
    &&& read_of(reads, s.file) matches Ok(text) && exists|body: Seq<char>| #[trigger]
        has_own_text(s, text, body) && holds(body, name)
}

/// What is shown of a symbol that is a test.
pub open spec fn shows_symbol(t: TestView, s: SymbolView) -> bool {
    &&& t.name == s.name
    &&& t.file == s.file
    &&& t.line == s.line_range.0
    &&& t.signature == s.signature
}

/// Which symbols are tests with a name.
proof fn lemma_refers(s: SymbolView, reads: Map<Seq<char>, ReadView>, name: Seq<char>)
    ensures
        refers_to(s, reads, name) <==> is_test_with(s, reads, name),
{
    law_customs(s);
    if let Ok(text) = read_of(reads, s.file) {
        assert forall|body: Seq<char>| #[trigger] has_own_text(s, text, body) <==> body_of(s, text)
            == Some(body) by {
            let total = encode_utf8(text).len() as int;
            let end = if s.byte_range.1 <= total {
                s.byte_range.1 as int
            } else {
                total
            };
            law_piece_between_bytes(text, body, s.byte_range.0 as int, end);
        }
        if let Some(body) = body_of(s, text) {
            assert(has_own_text(s, text, body));
            law_texts_are_found(body, name);
        }
    }
}

/// The tests among a list of symbols.
proof fn lemma_symbol_tests(
    symbols: Seq<SymbolView>,
    reads: Map<Seq<char>, ReadView>,
    name: Seq<char>,
)
    ensures
        forall|k: int|
            0 <= k < symbol_tests(symbols, reads, name).len() ==> is_shown_of(
                #[trigger] symbol_tests(symbols, reads, name)[k],
                symbols,
                reads,
                name,
            ),
        forall|i: int, t: TestView|
            0 <= i < symbols.len() && is_test_with(symbols[i], reads, name)
                && #[trigger] shows_symbol(t, symbols[i]) ==> symbol_tests(
                symbols,
                reads,
                name,
            ).contains(t),
    decreases symbols.len(),
{
    let found = symbol_tests(symbols, reads, name);
    if symbols.len() > 0 {
        let rest = symbols.drop_last();
        let last = symbols.last();
        let before = symbol_tests(rest, reads, name);
        lemma_symbol_tests(rest, reads, name);
        lemma_refers(last, reads, name);
        assert forall|k: int| 0 <= k < found.len() implies is_shown_of(
            #[trigger] found[k],
            symbols,
            reads,
            name,
        ) by {
            if k < before.len() {
                assert(found[k] == before[k]);
                assert(is_shown_of(before[k], rest, reads, name));
                let i = choose|i: int|
                    0 <= i < rest.len() && is_test_with(rest[i], reads, name)
                        && #[trigger] shows_symbol(before[k], rest[i]);
                assert(symbols[i] == rest[i]);
                assert(shows_symbol(found[k], symbols[i]));
            } else {
                assert(shows_symbol(found[k], symbols[symbols.len() - 1]));
            }
        }
        assert forall|i: int, t: TestView|
            0 <= i < symbols.len() && is_test_with(symbols[i], reads, name)
                && #[trigger] shows_symbol(t, symbols[i]) implies found.contains(t) by {
            if i < rest.len() {
                assert(shows_symbol(t, rest[i]));
                let k = choose|k: int| 0 <= k < before.len() && before[k] == t;
                assert(found[k] == t);
            } else {
                assert(found[before.len() as int] == t);
            }
        }
    } else {
        assert(found.len() == 0);
    }
}

/// The tests of symbols that follow one another follow one another: one more symbol gives
/// one more test at the end where it is a test with the name, and none otherwise.
pub proof fn law_tests_in_turn(
    symbols: Seq<SymbolView>,
    s: SymbolView,
    reads: Map<Seq<char>, ReadView>,
    name: Seq<char>,
)
    ensures
        symbol_tests(Seq::empty(), reads, name).len() == 0,
        symbol_tests(symbols.push(s), reads, name) == if is_test_with(s, reads, name) {
            symbol_tests(symbols, reads, name).push(
                TestView {
                    name: s.name,
                    file: s.file,
                    line: s.line_range.0,
                    signature: s.signature,
                },
            )
        } else {
            symbol_tests(symbols, reads, name)
        },
{
    lemma_refers(s, reads, name);
    assert(symbols.push(s).drop_last() =~= symbols);
}

/// A test shows one of the symbols that are tests with the name.
pub open spec fn is_shown_of(
    t: TestView,
    symbols: Seq<SymbolView>,
    reads: Map<Seq<char>, ReadView>,
    name: Seq<char>,
) -> bool {
    exists|i: int|
        0 <= i < symbols.len() && is_test_with(symbols[i], reads, name) && #[trigger] shows_symbol(
            t,
            symbols[i],
        )
}

/// The tests found for a symbol of any language but Elixir. Each shows a symbol of the table
/// that is a test by custom and whose own text has the name; where fewer are shown than
/// asked for, every such symbol is shown. At least one may be shown. Where the name means
/// no symbol of the file there is only an error that names what was asked for.
pub proof fn law_tests_among_symbols(
    contents: Map<Seq<char>, SymbolView>,
    cache: Queries,
    reads: Map<Seq<char>, ReadView>,
    files: Map<Seq<char>, FileEntryView>,
    name: Seq<char>,
    file: Seq<char>,
    limit: usize,
    key: Seq<char>,
    t: TestView,
)
    requires
        lists_in_order(sorted_keys(contents), contents),
        looked_up(contents, file, name) matches Some(s) ==> s.language != Language::Elixir,
    ensures
        match tests_of(contents, cache, reads, files, name, file, limit) {
            Err(e) => {
                &&& looked_up(contents, file, name) is None
                &&& e == "Symbol '"@ + name + "' not found in '"@ + file + "'"@
            },
            Ok(found) => {
                &&& looked_up(contents, file, name) is Some
                &&& found.contains(t) ==> exists|k: Seq<char>| #[trigger]
                    contents.contains_key(k) && is_test_with(contents[k], reads, name)
                        && shows_symbol(t, contents[k])
                &&& contents.contains_key(key) && is_test_with(contents[key], reads, name)
                    && shows_symbol(t, contents[key]) ==> found.contains(t) || found.len() >= limit
                &&& contents.contains_key(key) && is_test_with(contents[key], reads, name)
                    ==> found.len() >= 1
                &&& found.len() <= limit || found.len() == 1
            },
        },
{
    if looked_up(contents, file, name) is Some {
        let symbols = values_in_order(contents);
        let all = symbol_tests(symbols, reads, name);
        let found = tests_of(contents, cache, reads, files, name, file, limit)->Ok_0;
        lemma_values(contents);
        lemma_symbol_tests(symbols, reads, name);
        if found.contains(t) {
            let k = choose|k: int| 0 <= k < found.len() && found[k] == t;
            assert(all[k] == t);
            assert(is_shown_of(all[k], symbols, reads, name));
            let i = choose|i: int|
                0 <= i < symbols.len() && is_test_with(symbols[i], reads, name)
                    && #[trigger] shows_symbol(t, symbols[i]);
            assert(contents.contains_key(sorted_keys(contents)[i]));
        }
        if contents.contains_key(key) && is_test_with(contents[key], reads, name) {
            let s = contents[key];
            assert(symbols.contains(s));
            let i = choose|i: int| 0 <= i < symbols.len() && symbols[i] == s;
            let u = TestView {
                name: s.name,
                file: s.file,
                line: s.line_range.0,
                signature: s.signature,
            };
            assert(shows_symbol(u, symbols[i]));
            assert(all.contains(u));
            let k = choose|k: int| 0 <= k < all.len() && all[k] == u;
            if k < found.len() {
                assert(found[k] == u);
            }
            if shows_symbol(t, s) {
                assert(t == u);
            }
        }
    }
}

} // verus!
