//! What the symbols of a file are made of.
use vstd::prelude::*;
use crate::index::file_entry::Language;
use crate::laws::captures::{law_node_text, reads_as};
use crate::laws::text::{is_around, starts};
use crate::sources::ReadView;
use crate::symbols::identity::identities;
use crate::symbols::parser::{
    deduplicated, defined, enclosing_class, extraction, finished, gathered, holds_definition,
    is_kept, kept, law_extracted_keys_are_unique, law_extracted_symbols_belong_to_file,
    law_keys_are_kept, lemma_kept_origin, named_kind, outranks, same_key, symbol_of, with_methods,
    ExtractErrorView,
};
use crate::symbols::queries::{query_for, ConfigView, Queries, QueryKind};
use crate::symbols::symbol::{SymbolKind, SymbolView};
use crate::symbols::syntax::{
    node_text, parse_outcome, query_captures, query_error_message, query_matches, CaptureView,
    ParseFailureView,
};
use crate::text::line_text;

verus! {

// ---------------------------------------------------------------------------
// What captures say
// ---------------------------------------------------------------------------

/// The captures that hold the name of a symbol of a kind.
pub open spec fn says_kind(capture: Seq<char>, kind: SymbolKind) -> bool {
    match kind {
        SymbolKind::Function => capture == "function.name"@,
        SymbolKind::Method => capture == "method.name"@,
        SymbolKind::Struct => capture == "struct.name"@,
        SymbolKind::Enum => capture == "enum.name"@,
        SymbolKind::Trait => capture == "trait.name"@,
        SymbolKind::Class => capture == "class.name"@,
        SymbolKind::Interface => capture == "interface.name"@,
        SymbolKind::Type => capture == "type.name"@,
        SymbolKind::Constant => capture == "const.name"@ || capture == "static.name"@,
        SymbolKind::Module => capture == "mod.name"@,
        SymbolKind::Import => capture == "import.name"@,
        SymbolKind::Test => capture == "test.name"@,
        SymbolKind::Variable | SymbolKind::Other => false,
    }
}

/// The captures that hold the whole definition of a symbol.
pub open spec fn has_definition(capture: Seq<char>) -> bool {
    ||| capture == "function.def"@
    ||| capture == "method.def"@
    ||| capture == "struct.def"@
    ||| capture == "enum.def"@
    ||| capture == "trait.def"@
    ||| capture == "class.def"@
    ||| capture == "interface.def"@
    ||| capture == "type.def"@
    ||| capture == "const.def"@
    ||| capture == "static.def"@
    ||| capture == "mod.def"@
    ||| capture == "import.def"@
    ||| capture == "test.def"@
}

/// The texts of the captures.
proof fn lemma_capture_texts()
    ensures
        "function.name"@.len() == 13,
        "interface.name"@.len() == 14,
        "method.name"@.len() == 11 && "method.name"@[0] == 'm',
        "struct.name"@.len() == 11 && "struct.name"@[0] == 's' && "struct.name"@[2] == 'r',
        "static.name"@.len() == 11 && "static.name"@[0] == 's' && "static.name"@[2] == 'a',
        "import.name"@.len() == 11 && "import.name"@[0] == 'i',
        "trait.name"@.len() == 10 && "trait.name"@[0] == 't',
        "class.name"@.len() == 10 && "class.name"@[0] == 'c' && "class.name"@[1] == 'l',
        "const.name"@.len() == 10 && "const.name"@[0] == 'c' && "const.name"@[1] == 'o',
        "enum.name"@.len() == 9 && "enum.name"@[0] == 'e',
        "type.name"@.len() == 9 && "type.name"@[0] == 't' && "type.name"@[1] == 'y',
        "test.name"@.len() == 9 && "test.name"@[0] == 't' && "test.name"@[1] == 'e',
        "mod.name"@.len() == 8,
{
    reveal_strlit("function.name");
    reveal_strlit("interface.name");
    reveal_strlit("method.name");
    reveal_strlit("struct.name");
    reveal_strlit("static.name");
    reveal_strlit("import.name");
    reveal_strlit("trait.name");
    reveal_strlit("class.name");
    reveal_strlit("const.name");
    reveal_strlit("enum.name");
    reveal_strlit("type.name");
    reveal_strlit("test.name");
    reveal_strlit("mod.name");
}

/// A capture says one kind, and the one that its name stands for; no two kinds are
/// confused.
pub proof fn law_kind_of_a_capture(capture: Seq<char>, kind: SymbolKind)
    ensures
        named_kind(capture) == Some(kind) <==> says_kind(capture, kind),
        holds_definition(capture) <==> has_definition(capture),
{
    lemma_capture_texts();
}

/// A capture with a name does not hold a definition, nor the type of an implementation.
proof fn lemma_names_are_no_definitions(capture: Seq<char>)
    requires
        named_kind(capture) is Some,
    ensures
        !has_definition(capture),
        capture != "impl.type"@,
{
    assert(capture.last() == 'e' && capture[capture.len() - 2] == 'm') by {
        reveal_strlit("function.name");
        reveal_strlit("interface.name");
        reveal_strlit("method.name");
        reveal_strlit("struct.name");
        reveal_strlit("static.name");
        reveal_strlit("import.name");
        reveal_strlit("trait.name");
        reveal_strlit("class.name");
        reveal_strlit("const.name");
        reveal_strlit("enum.name");
        reveal_strlit("type.name");
        reveal_strlit("test.name");
        reveal_strlit("mod.name");
    }
    if has_definition(capture) {
        lemma_definition_texts(capture);
    }
    reveal_strlit("impl.type");
}

/// How the captures with a definition end.
proof fn lemma_definition_texts(capture: Seq<char>)
    requires
        has_definition(capture),
    ensures
        capture.last() == 'f',
{
    reveal_strlit("function.def");
    reveal_strlit("method.def");
    reveal_strlit("struct.def");
    reveal_strlit("enum.def");
    reveal_strlit("trait.def");
    reveal_strlit("class.def");
    reveal_strlit("interface.def");
    reveal_strlit("type.def");
    reveal_strlit("const.def");
    reveal_strlit("static.def");
    reveal_strlit("mod.def");
    reveal_strlit("import.def");
    reveal_strlit("test.def");
}

// ---------------------------------------------------------------------------
// A symbol and its match
// ---------------------------------------------------------------------------

/// The name of a capture.
pub open spec fn name_of(names: Seq<Seq<char>>, c: CaptureView) -> Seq<char> {
    names[c.index as int]
}

/// A capture says some kind.
pub open spec fn says_some_kind(capture: Seq<char>) -> bool {
    exists|kind: SymbolKind| #[trigger] says_kind(capture, kind)
}

/// The last capture of a match that says a kind.
pub open spec fn is_name_at(
    names: Seq<Seq<char>>,
    captures: Seq<CaptureView>,
    j: int,
    kind: SymbolKind,
) -> bool {
    &&& 0 <= j < captures.len()
    &&& says_kind(name_of(names, captures[j]), kind)
    &&& forall|k: int|
        j < k < captures.len() ==> !says_some_kind(name_of(names, #[trigger] captures[k]))
}

/// The last capture of a match with a definition.
pub open spec fn is_definition_at(
    names: Seq<Seq<char>>,
    captures: Seq<CaptureView>,
    d: int,
) -> bool {
    &&& 0 <= d < captures.len()
    &&& has_definition(name_of(names, captures[d]))
    &&& forall|k: int|
        d < k < captures.len() ==> !has_definition(name_of(names, #[trigger] captures[k]))
}

/// A symbol is what a match says: its kind and name are those of the capture that names it,
/// its bytes, lines and signature those of the node that defines it.
pub open spec fn is_said_by(
    s: SymbolView,
    names: Seq<Seq<char>>,
    captures: Seq<CaptureView>,
    j: int,
    d: int,
    file: Seq<char>,
    language: Language,
) -> bool {
    &&& is_name_at(names, captures, j, s.kind)
    &&& is_definition_at(names, captures, d)
    &&& {
        let node = captures[d].node;
        &&& reads_as(captures[j].node, s.name)
        &&& s.byte_range == (node.start_byte, node.end_byte)
        &&& s.line_range == ((node.start_row + 1) as usize, (node.end_row + 1) as usize)
        &&& s.signature == line_text(node_text(node), 0)
        &&& s.file == file
        &&& s.language == language
        &&& s.definition is None
    }
}

/// A match says a symbol.
pub open spec fn says(
    names: Seq<Seq<char>>,
    captures: Seq<CaptureView>,
    s: SymbolView,
    file: Seq<char>,
    language: Language,
) -> bool {
    exists|j: int, d: int| #[trigger] is_said_by(s, names, captures, j, d, file, language)
}

/// The names among the first captures and among all of them.
proof fn lemma_name_at(
    names: Seq<Seq<char>>,
    captures: Seq<CaptureView>,
    j: int,
    kind: SymbolKind,
)
    requires
        captures.len() > 0,
    ensures
        is_name_at(names, captures, j, kind) <==> if says_some_kind(
            name_of(names, captures.last()),
        ) {
            j == captures.len() - 1 && says_kind(name_of(names, captures.last()), kind)
        } else {
            is_name_at(names, captures.drop_last(), j, kind)
        },
{
    let rest = captures.drop_last();
    let n = captures.len() - 1;
    assert(captures[n] == captures.last());
    if is_name_at(names, captures, j, kind) && j < n {
        assert(!says_some_kind(name_of(names, captures[n])));
        assert(rest[j] == captures[j]);
        assert forall|k: int| j < k < rest.len() implies !says_some_kind(
            name_of(names, #[trigger] rest[k]),
        ) by {
            assert(rest[k] == captures[k]);
        }
    }
    if is_name_at(names, captures, j, kind) && j == n {
        assert(says_kind(name_of(names, captures.last()), kind));
    }
    if !says_some_kind(name_of(names, captures.last())) && is_name_at(names, rest, j, kind) {
        assert(rest[j] == captures[j]);
        assert forall|k: int| j < k < captures.len() implies !says_some_kind(
            name_of(names, #[trigger] captures[k]),
        ) by {
            if k < n {
                assert(rest[k] == captures[k]);
            }
        }
    }
}

/// The definitions among the first captures and among all of them.
proof fn lemma_definition_at(names: Seq<Seq<char>>, captures: Seq<CaptureView>, d: int)
    requires
        captures.len() > 0,
    ensures
        is_definition_at(names, captures, d) <==> if has_definition(
            name_of(names, captures.last()),
        ) {
            d == captures.len() - 1
        } else {
            is_definition_at(names, captures.drop_last(), d)
        },
{
    let rest = captures.drop_last();
    let n = captures.len() - 1;
    assert(captures[n] == captures.last());
    if is_definition_at(names, captures, d) && d < n {
        assert(!has_definition(name_of(names, captures[n])));
        assert(rest[d] == captures[d]);
        assert forall|k: int| d < k < rest.len() implies !has_definition(
            name_of(names, #[trigger] rest[k]),
        ) by {
            assert(rest[k] == captures[k]);
        }
    }
    if !has_definition(name_of(names, captures.last())) && is_definition_at(names, rest, d) {
        assert(rest[d] == captures[d]);
        assert forall|k: int| d < k < captures.len() implies !has_definition(
            name_of(names, #[trigger] captures[k]),
        ) by {
            if k < n {
                assert(rest[k] == captures[k]);
            }
        }
    }
}

/// What is gathered from a match is what its captures say.
proof fn lemma_gathered(
    names: Seq<Seq<char>>,
    captures: Seq<CaptureView>,
    impl_type: Option<Seq<char>>,
)
    ensures
        ({
            let g = gathered(names, captures, impl_type);
            &&& g.kind is Some <==> g.name is Some
            &&& g.kind matches Some(kind) ==> exists|j: int| #[trigger]
                is_name_at(names, captures, j, kind)
            &&& forall|j: int, kind: SymbolKind| #[trigger]
                is_name_at(names, captures, j, kind) ==> g.kind == Some(kind) && g.name == Some(
                    node_text(captures[j].node),
                )
            &&& g.definition is Some ==> exists|d: int| #[trigger]
                is_definition_at(names, captures, d)
            &&& forall|d: int| #[trigger]
                is_definition_at(names, captures, d) ==> g.definition == Some(captures[d].node)
        }),
    decreases captures.len(),
{
    let g = gathered(names, captures, impl_type);
    if captures.len() > 0 {
        let rest = captures.drop_last();
        let last = captures.last();
        let n = captures.len() - 1;
        let before = gathered(names, rest, impl_type);
        lemma_gathered(names, rest, impl_type);
        let name = name_of(names, last);
        assert forall|kind: SymbolKind| #[trigger]
            says_kind(name, kind) <==> named_kind(name) == Some(kind) by {
            law_kind_of_a_capture(name, kind);
        }
        law_kind_of_a_capture(name, SymbolKind::Other);
        assert(says_some_kind(name) <==> named_kind(name) is Some) by {
            if let Some(kind) = named_kind(name) {
                assert(says_kind(name, kind));
            }
        }
        if named_kind(name) is Some {
            lemma_names_are_no_definitions(name);
        }
        assert forall|j: int, kind: SymbolKind| #[trigger]
            is_name_at(names, captures, j, kind) implies g.kind == Some(kind) && g.name == Some(
            node_text(captures[j].node),
        ) by {
            lemma_name_at(names, captures, j, kind);
        }
        if let Some(kind) = g.kind {
            if named_kind(name) is Some {
                lemma_name_at(names, captures, n, kind);
            } else {
                let j = choose|j: int| #[trigger] is_name_at(names, rest, j, kind);
                lemma_name_at(names, captures, j, kind);
            }
        }
        assert forall|d: int| #[trigger] is_definition_at(names, captures, d) implies g.definition
            == Some(captures[d].node) by {
            lemma_definition_at(names, captures, d);
        }
        if g.definition is Some {
            if has_definition(name) {
                lemma_definition_at(names, captures, n);
            } else {
                let d = choose|d: int| #[trigger] is_definition_at(names, rest, d);
                lemma_definition_at(names, captures, d);
            }
        }
    }
}

/// There is a symbol, and it is this one but for what it belongs to.
pub open spec fn is_but_for_parent(found: Option<SymbolView>, s: SymbolView) -> bool {
    found matches Some(f) && s == (SymbolView { parent: s.parent, ..f })
}

/// A match gives a symbol exactly where it has a capture that names one and a capture that
/// defines it, and the symbol is the one that these say.
pub proof fn law_symbol_of_a_match(
    names: Seq<Seq<char>>,
    captures: Seq<CaptureView>,
    impl_type: Option<Seq<char>>,
    file: Seq<char>,
    language: Language,
)
    ensures
        match symbol_of(gathered(names, captures, impl_type), file, language) {
            Some(s) => says(names, captures, s, file, language),
            None => forall|j: int, d: int, kind: SymbolKind|
                !(#[trigger] is_name_at(names, captures, j, kind) && #[trigger] is_definition_at(
                    names,
                    captures,
                    d,
                )),
        },
        forall|t: SymbolView| #[trigger]
            says(names, captures, t, file, language) ==> is_but_for_parent(
                symbol_of(gathered(names, captures, impl_type), file, language),
                t,
            ),
{
    lemma_gathered(names, captures, impl_type);
    let g = gathered(names, captures, impl_type);
    if let Some(s) = symbol_of(g, file, language) {
        let j = choose|j: int| #[trigger] is_name_at(names, captures, j, s.kind);
        let d = choose|d: int| #[trigger] is_definition_at(names, captures, d);
        law_node_text(captures[j].node, s.name);
        assert(is_said_by(s, names, captures, j, d, file, language));
    }
    assert forall|t: SymbolView| #[trigger] says(names, captures, t, file, language) implies is_but_for_parent(
        symbol_of(g, file, language),
        t,
    ) by {
        let (j, d) = choose|j: int, d: int| #[trigger]
            is_said_by(t, names, captures, j, d, file, language);
        law_node_text(captures[j].node, t.name);
        assert(is_name_at(names, captures, j, t.kind));
        assert(is_definition_at(names, captures, d));
    }
}

// ---------------------------------------------------------------------------
// What a symbol belongs to
// ---------------------------------------------------------------------------

/// The last of the first `n` captures of a match with a name.
pub open spec fn is_last_called(
    names: Seq<Seq<char>>,
    name: Seq<char>,
    captures: Seq<CaptureView>,
    n: int,
    j: int,
) -> bool {
    &&& 0 <= j < n <= captures.len()
    &&& name_of(names, captures[j]) == name
    &&& forall|k: int| j < k < n ==> name_of(names, #[trigger] captures[k]) != name
}

/// None of the first `n` captures has a name.
pub open spec fn is_none_called(
    names: Seq<Seq<char>>,
    name: Seq<char>,
    captures: Seq<CaptureView>,
    n: int,
) -> bool {
    forall|k: int| 0 <= k < n ==> name_of(names, #[trigger] captures[k]) != name
}

/// The type of the implementation that is known after the first `n` captures: that of the
/// last capture `impl.type` among them, or the one known before.
pub open spec fn is_impl_known(
    names: Seq<Seq<char>>,
    captures: Seq<CaptureView>,
    n: int,
    before: Option<Seq<char>>,
    known: Option<Seq<char>>,
) -> bool {
    ||| is_none_called(names, "impl.type"@, captures, n) && known == before
    ||| exists|j: int| #[trigger]
        is_last_called(names, "impl.type"@, captures, n, j) && known == Some(
            node_text(captures[j].node),
        )
}

/// What is gathered of the first captures.
proof fn lemma_gathered_parent(
    names: Seq<Seq<char>>,
    captures: Seq<CaptureView>,
    impl_type: Option<Seq<char>>,
    n: int,
)
    requires
        0 <= n <= captures.len(),
    ensures
        ({
            let g = gathered(names, captures.take(n), impl_type);
            &&& is_impl_known(names, captures, n, impl_type, g.impl_type)
            &&& is_none_called(names, "method.name"@, captures, n) ==> g.parent is None
            &&& forall|m: int| #[trigger]
                is_last_called(names, "method.name"@, captures, n, m) ==> is_impl_known(
                    names,
                    captures,
                    m,
                    impl_type,
                    g.parent,
                )
        }),
    decreases n,
{
    if n > 0 {
        let g = gathered(names, captures.take(n), impl_type);
        let before = gathered(names, captures.take(n - 1), impl_type);
        let last = captures[n - 1];
        let name = name_of(names, last);
        lemma_gathered_parent(names, captures, impl_type, n - 1);
        assert(captures.take(n).drop_last() =~= captures.take(n - 1));
        assert(captures.take(n).last() == last);
        law_kind_of_a_capture(name, SymbolKind::Method);
        if named_kind(name) is Some {
            lemma_names_are_no_definitions(name);
        }
        if name == "impl.type"@ {
            assert(named_kind(name) is None);
            assert(!has_definition(name)) by {
                reveal_strlit("impl.type");
                if has_definition(name) {
                    lemma_definition_texts(name);
                }
            }
            assert(is_last_called(names, "impl.type"@, captures, n, n - 1));
        } else {
            assert(g.impl_type == before.impl_type);
            if is_none_called(names, "impl.type"@, captures, n - 1) {
                assert(is_none_called(names, "impl.type"@, captures, n));
            } else {
                let j = choose|j: int| #[trigger]
                    is_last_called(names, "impl.type"@, captures, n - 1, j) && before.impl_type
                        == Some(node_text(captures[j].node));
                assert(is_last_called(names, "impl.type"@, captures, n, j));
            }
        }
        if name == "method.name"@ {
            assert(g.parent == before.impl_type);
            assert forall|m: int| #[trigger]
                is_last_called(names, "method.name"@, captures, n, m) implies is_impl_known(
                names,
                captures,
                m,
                impl_type,
                g.parent,
            ) by {
                if m < n - 1 {
                    assert(name_of(names, captures[n - 1]) != "method.name"@);
                }
            }
            assert(!is_none_called(names, "method.name"@, captures, n));
        } else {
            assert(g.parent == before.parent);
            if is_none_called(names, "method.name"@, captures, n) {
                assert(is_none_called(names, "method.name"@, captures, n - 1));
            }
            assert forall|m: int| #[trigger]
                is_last_called(names, "method.name"@, captures, n, m) implies is_impl_known(
                names,
                captures,
                m,
                impl_type,
                g.parent,
            ) by {
                assert(m < n - 1);
                assert(is_last_called(names, "method.name"@, captures, n - 1, m));
            }
        }
    } else {
        assert(captures.take(0).len() == 0);
        assert(is_none_called(names, "impl.type"@, captures, 0));
    }
}

/// What a symbol belongs to: a method to the type of the implementation that is known where
/// it is named, and anything that is not named as a method to nothing. A match hands the
/// last type that it knows on to the next.
pub proof fn law_parent_of_a_match(
    names: Seq<Seq<char>>,
    captures: Seq<CaptureView>,
    impl_type: Option<Seq<char>>,
    m: int,
)
    ensures
        ({
            let g = gathered(names, captures, impl_type);
            let n = captures.len() as int;
            &&& is_none_called(names, "method.name"@, captures, n) ==> g.parent is None
            &&& is_last_called(names, "method.name"@, captures, n, m) ==> is_impl_known(
                names,
                captures,
                m,
                impl_type,
                g.parent,
            )
            &&& is_impl_known(names, captures, n, impl_type, g.impl_type)
        }),
{
    lemma_gathered_parent(names, captures, impl_type, captures.len() as int);
    assert(captures.take(captures.len() as int) =~= captures);
}

/// The matches of a file know the types of implementations one behind the other, from none.
pub proof fn law_known_types(
    names: Seq<Seq<char>>,
    matches: Seq<Seq<CaptureView>>,
    captures: Seq<CaptureView>,
    file: Seq<char>,
    language: Language,
)
    ensures
        defined(names, Seq::empty(), file, language).1 is None,
        is_impl_known(
            names,
            captures,
            captures.len() as int,
            defined(names, matches, file, language).1,
            defined(names, matches.push(captures), file, language).1,
        ),
{
    let impl_type = defined(names, matches, file, language).1;
    assert(matches.push(captures).drop_last() =~= matches);
    law_parent_of_a_match(names, captures, impl_type, 0);
}

/// In Python a function that belongs to nothing and stands in a class is a method of that
/// class, and every other symbol stays as it is.
pub proof fn law_methods(symbols: Seq<SymbolView>, k: int)
    requires
        0 <= k < symbols.len(),
    ensures
        with_methods(symbols).len() == symbols.len(),
        ({
            let s = symbols[k];
            let t = with_methods(symbols)[k];
            let is_function = s.kind == SymbolKind::Function && s.parent is None;
            let stands_alone = forall|j: int|
                0 <= j < symbols.len() ==> !#[trigger] is_class_around(symbols[j], s);
            &&& !is_function || stands_alone ==> t == s
            &&& is_function && !stands_alone ==> t.kind == SymbolKind::Method && t == (SymbolView {
                kind: t.kind,
                parent: t.parent,
                ..s
            }) && exists|j: int|
                0 <= j < symbols.len() && #[trigger] is_class_around(symbols[j], s) && t.parent
                    == Some(symbols[j].name)
        }),
{
    law_enclosing_class(symbols, symbols[k]);
}

// ---------------------------------------------------------------------------
// All symbols of a file
// ---------------------------------------------------------------------------

/// A symbol is said by the match with a number.
pub open spec fn is_said_at(
    s: SymbolView,
    names: Seq<Seq<char>>,
    matches: Seq<Seq<CaptureView>>,
    i: int,
    file: Seq<char>,
    language: Language,
) -> bool {
    0 <= i < matches.len() && says(names, matches[i], s, file, language)
}

/// A list has a symbol, but for what it belongs to.
pub open spec fn has_symbol(found: Seq<SymbolView>, s: SymbolView) -> bool {
    exists|k: int| 0 <= k < found.len() && #[trigger] is_but_for_parent(Some(found[k]), s)
}

/// A symbol is said by one of the matches.
pub open spec fn is_said(
    s: SymbolView,
    names: Seq<Seq<char>>,
    matches: Seq<Seq<CaptureView>>,
    file: Seq<char>,
    language: Language,
) -> bool {
    exists|i: int| #[trigger] is_said_at(s, names, matches, i, file, language)
}

/// The symbols that the matches define are those that they say.
proof fn lemma_defined(
    names: Seq<Seq<char>>,
    matches: Seq<Seq<CaptureView>>,
    file: Seq<char>,
    language: Language,
)
    ensures
        forall|k: int|
            0 <= k < defined(names, matches, file, language).0.len() ==> is_said(
                #[trigger] defined(names, matches, file, language).0[k],
                names,
                matches,
                file,
                language,
            ),
        forall|t: SymbolView, i: int| #[trigger]
            is_said_at(t, names, matches, i, file, language) ==> has_symbol(
                defined(names, matches, file, language).0,
                t,
            ),
    decreases matches.len(),
{
    let found = defined(names, matches, file, language).0;
    if matches.len() == 0 {
        assert(found.len() == 0);
    } else {
        let rest = matches.drop_last();
        let last = matches.last();
        let n = matches.len() - 1;
        assert(matches[n] == last);
        let (before, impl_type) = defined(names, rest, file, language);
        lemma_defined(names, rest, file, language);
        law_symbol_of_a_match(names, last, impl_type, file, language);
        assert forall|k: int| 0 <= k < found.len() implies is_said(
            #[trigger] found[k],
            names,
            matches,
            file,
            language,
        ) by {
            if k < before.len() {
                assert(found[k] == before[k]);
                assert(is_said(before[k], names, rest, file, language));
                let i = choose|i: int| #[trigger]
                    is_said_at(before[k], names, rest, i, file, language);
                assert(rest[i] == matches[i]);
                assert(is_said_at(found[k], names, matches, i, file, language));
            } else {
                assert(is_said_at(found[k], names, matches, n, file, language));
            }
        }
        assert forall|t: SymbolView, i: int| #[trigger]
            is_said_at(t, names, matches, i, file, language) implies has_symbol(found, t) by {
            if i < n {
                assert(rest[i] == matches[i]);
                assert(is_said_at(t, names, rest, i, file, language));
                let k = choose|k: int|
                    0 <= k < before.len() && #[trigger] is_but_for_parent(Some(before[k]), t);
                assert(found[k] == before[k]);
                assert(is_but_for_parent(Some(found[k]), t));
            } else {
                assert(says(names, last, t, file, language));
                assert(is_but_for_parent(Some(found[before.len() as int]), t));
            }
        }
    }
}

/// The number of bytes that a symbol spans.
pub open spec fn span(s: SymbolView) -> int {
    if s.byte_range.0 <= s.byte_range.1 {
        s.byte_range.1 - s.byte_range.0
    } else {
        0
    }
}

/// The kinds that give way to others.
pub open spec fn gives_way(kind: SymbolKind) -> bool {
    ||| kind == SymbolKind::Other
    ||| kind == SymbolKind::Variable
    ||| kind == SymbolKind::Constant
    ||| kind == SymbolKind::Import
}

/// A symbol is a class whose bytes enclose those of another.
pub open spec fn is_class_around(class: SymbolView, s: SymbolView) -> bool {
    &&& class.kind == SymbolKind::Class
    &&& class.byte_range.0 <= s.byte_range.0
    &&& s.byte_range.1 <= class.byte_range.1
}

/// The class that a symbol is put in is the first of the list around it.
pub proof fn law_enclosing_class(symbols: Seq<SymbolView>, s: SymbolView)
    ensures
        match enclosing_class(symbols, s) {
            Some(name) => exists|k: int|
                0 <= k < symbols.len() && #[trigger] is_class_around(symbols[k], s)
                    && symbols[k].name == name && forall|j: int|
                    0 <= j < k ==> !#[trigger] is_class_around(symbols[j], s),
            None => forall|j: int|
                0 <= j < symbols.len() ==> !#[trigger] is_class_around(symbols[j], s),
        },
    decreases symbols.len(),
{
    if symbols.len() > 0 {
        let rest = symbols.drop_first();
        law_enclosing_class(rest, s);
        if is_class_around(symbols[0], s) {
            assert(enclosing_class(symbols, s) == Some(symbols[0].name));
        } else {
            match enclosing_class(rest, s) {
                Some(name) => {
                    let k = choose|k: int|
                        0 <= k < rest.len() && #[trigger] is_class_around(rest[k], s)
                            && rest[k].name == name && forall|j: int|
                            0 <= j < k ==> !#[trigger] is_class_around(rest[j], s);
                    assert(symbols[k + 1] == rest[k]);
                    assert forall|j: int| 0 <= j < k + 1 implies !#[trigger] is_class_around(
                        symbols[j],
                        s,
                    ) by {
                        if j > 0 {
                            assert(rest[j - 1] == symbols[j]);
                        }
                    }
                    assert(is_class_around(symbols[k + 1], s));
                },
                None => {
                    assert forall|j: int| 0 <= j < symbols.len() implies !#[trigger]
                        is_class_around(symbols[j], s) by {
                        if j > 0 {
                            assert(rest[j - 1] == symbols[j]);
                        }
                    }
                },
            }
        }
    }
}

/// A symbol as a file is left with it: in Elixir a function has its arity behind its name;
/// in Python a function that stands in a class is a method of the class; anything else is
/// as it was said.
pub open spec fn is_form_of(s: SymbolView, said: SymbolView, language: Language) -> bool {
    if language == Language::Elixir && said.kind == SymbolKind::Function {
        starts(s.name, said.name + "/"@) && s == (SymbolView { name: s.name, ..said })
    } else if language == Language::Python && said.kind == SymbolKind::Function && said.parent
        is None {
        ||| s == said
        ||| s.parent is Some && s == (SymbolView {
            kind: SymbolKind::Method,
            parent: s.parent,
            ..said
        })
    } else {
        s == said
    }
}

/// A symbol is better than another of the same name: it spans more, or as much and does not
/// give way to the other, which would give way to it.
pub open spec fn is_better(a: SymbolView, b: SymbolView) -> bool {
    ||| span(a) > span(b)
    ||| span(a) == span(b) && !gives_way(a.kind) && gives_way(b.kind)
}

/// Two symbols have the same file and name.
pub open spec fn have_same_name(a: SymbolView, b: SymbolView) -> bool {
    a.file + "::"@ + a.name == b.file + "::"@ + b.name
}

/// The symbol with a number is the first of the best of its name.
pub open spec fn is_first_best(symbols: Seq<SymbolView>, i: int) -> bool {
    forall|j: int|
        0 <= j < symbols.len() && #[trigger] have_same_name(symbols[j], symbols[i]) ==> {
            &&& !is_better(symbols[j], symbols[i])
            &&& j < i ==> is_better(symbols[i], symbols[j])
        }
}

/// Of the symbols of one name the best is left, and of several that are as good the first;
/// nothing else is left, and what is left keeps its order.
pub proof fn law_one_symbol_for_a_name(symbols: Seq<SymbolView>, n: int)
    requires
        0 <= n < symbols.len(),
    ensures
        deduplicated(symbols) == symbols_left(symbols, symbols.len() as int),
        symbols_left(symbols, 0).len() == 0,
        symbols_left(symbols, n + 1) == if is_first_best(symbols, n) {
            symbols_left(symbols, n).push(symbols[n])
        } else {
            symbols_left(symbols, n)
        },
{
    lemma_left(symbols, symbols.len() as int);
}

/// Of the first `n` symbols, those that are the first of the best of their names.
pub open spec fn symbols_left(symbols: Seq<SymbolView>, n: int) -> Seq<SymbolView>
    decreases n,
{
    if n <= 0 {
        Seq::empty()
    } else if is_first_best(symbols, n - 1) {
        symbols_left(symbols, n - 1).push(symbols[n - 1])
    } else {
        symbols_left(symbols, n - 1)
    }
}

/// What is kept is what is left.
proof fn lemma_left(symbols: Seq<SymbolView>, n: int)
    requires
        n <= symbols.len(),
    ensures
        kept(symbols, n) == symbols_left(symbols, n),
    decreases n,
{
    if n > 0 {
        lemma_left(symbols, n - 1);
        let i = n - 1;
        assert forall|j: int| #[trigger] have_same_name(symbols[j], symbols[i]) == same_key(
            symbols[j],
            symbols[i],
        ) by {}
        assert forall|j: int| is_better(symbols[j], symbols[i]) == #[trigger] outranks(
            symbols[j],
            symbols[i],
        ) by {}
        if is_first_best(symbols, i) {
            assert forall|j: int|
                0 <= j < symbols.len() && #[trigger] same_key(symbols[j], symbols[i]) implies
                !outranks(symbols[j], symbols[i]) && (j < i ==> outranks(
                symbols[i],
                symbols[j],
            )) by {
                assert(have_same_name(symbols[j], symbols[i]));
                assert(!is_better(symbols[j], symbols[i]));
            }
        }
        if is_kept(symbols, i) {
            assert forall|j: int|
                0 <= j < symbols.len() && #[trigger] have_same_name(
                    symbols[j],
                    symbols[i],
                ) implies {
                &&& !is_better(symbols[j], symbols[i])
                &&& j < i ==> is_better(symbols[i], symbols[j])
            } by {
                assert(same_key(symbols[j], symbols[i]));
            }
        }
    }
}

/// A symbol has the form of one that the matches say.
pub open spec fn is_made_from(
    s: SymbolView,
    names: Seq<Seq<char>>,
    matches: Seq<Seq<CaptureView>>,
    file: Seq<char>,
    language: Language,
) -> bool {
    exists|said: SymbolView| #[trigger]
        is_said(said, names, matches, file, language) && is_form_of(s, said, language)
}

/// A symbol stands for one that was said: it has its name, spans at least as much, and its
/// kind does not give way where both span as much.
pub open spec fn stands_for(s: SymbolView, said: SymbolView) -> bool {
    &&& s.name == said.name
    &&& s.file == said.file
    &&& span(s) >= span(said)
    &&& span(s) == span(said) ==> !(gives_way(s.kind) && !gives_way(said.kind))
}

/// Something in a list stands for a symbol.
pub open spec fn has_stand_in(symbols: Seq<SymbolView>, said: SymbolView) -> bool {
    exists|k: int| 0 <= k < symbols.len() && #[trigger] stands_for(symbols[k], said)
}

/// Each symbol that is left has the form of one that was there.
proof fn lemma_form(found: Seq<SymbolView>, language: Language, k: int) -> (i: int)
    requires
        0 <= k < finished(found, language).len(),
    ensures
        0 <= i < found.len(),
        is_form_of(finished(found, language)[k], found[i], language),
{
    let named = if language == Language::Elixir {
        identities(found)
    } else {
        found
    };
    let i = lemma_kept_origin(named, named.len() as int, k);
    assert(deduplicated(named)[k] == named[i]);
    if language == Language::Elixir && found[i].kind == SymbolKind::Function {
        let name = named[i].name;
        let front = found[i].name + "/"@;
        let rest = name.skip(front.len() as int);
        assert(name =~= Seq::<char>::empty() + front + rest);
        assert(is_around(name, Seq::empty(), front, rest));
    }
    i
}

/// Something in a list of symbols of Elixir stands for a symbol.
pub open spec fn has_elixir_stand_in(symbols: Seq<SymbolView>, said: SymbolView) -> bool {
    exists|k: int| 0 <= k < symbols.len() && #[trigger] stands_for_elixir(symbols[k], said)
}

/// A symbol of Elixir stands for one that was said: it has its name, with an arity where it
/// is a function, and spans at least as much.
pub open spec fn stands_for_elixir(s: SymbolView, said: SymbolView) -> bool {
    &&& s.file == said.file
    &&& span(s) >= span(said)
    &&& if said.kind == SymbolKind::Function {
        starts(s.name, said.name + "/"@)
    } else {
        s.name == said.name
    }
}

/// For each symbol of a file of Elixir something is left.
proof fn lemma_elixir_stand_in(found: Seq<SymbolView>, file: Seq<char>, k: int)
    requires
        0 <= k < found.len(),
        forall|i: int| 0 <= i < found.len() ==> (#[trigger] found[i]).file == file,
    ensures
        has_elixir_stand_in(finished(found, Language::Elixir), found[k]),
{
    let named = identities(found);
    let unique = deduplicated(named);
    law_keys_are_kept(named, k);
    let b = choose|b: int|
        0 <= b < unique.len() && #[trigger] same_key(unique[b], named[k]) && !outranks(
            named[k],
            unique[b],
        );
    let o = lemma_kept_origin(named, named.len() as int, b);
    assert(found[o].file == file && found[k].file == file);
    let front = file + "::"@;
    assert((front + named[o].name).skip(front.len() as int) =~= named[o].name);
    assert((front + named[k].name).skip(front.len() as int) =~= named[k].name);
    assert(named[o].name == named[k].name);
    if found[k].kind == SymbolKind::Function {
        let name = named[k].name;
        let head = found[k].name + "/"@;
        let rest = name.skip(head.len() as int);
        assert(name =~= Seq::<char>::empty() + head + rest);
        assert(is_around(name, Seq::empty(), head, rest));
    }
    assert(stands_for_elixir(finished(found, Language::Elixir)[b], found[k]));
}

/// For each symbol of a file something is left.
proof fn lemma_stand_in(found: Seq<SymbolView>, language: Language, file: Seq<char>, k: int)
    requires
        0 <= k < found.len(),
        language != Language::Elixir,
        forall|i: int| 0 <= i < found.len() ==> (#[trigger] found[i]).file == file,
    ensures
        has_stand_in(finished(found, language), found[k]),
{
    let unique = deduplicated(found);
    law_keys_are_kept(found, k);
    let b = choose|b: int|
        0 <= b < unique.len() && #[trigger] same_key(unique[b], found[k]) && !outranks(
            found[k],
            unique[b],
        );
    let o = lemma_kept_origin(found, found.len() as int, b);
    assert(found[o].file == file && found[k].file == file);
    let front = file + "::"@;
    assert((front + found[o].name).skip(front.len() as int) =~= found[o].name);
    assert((front + found[k].name).skip(front.len() as int) =~= found[k].name);
    assert(stands_for(finished(found, language)[b], found[k]));
}

/// The symbols that are left of those that the matches say.
proof fn lemma_finished(
    names: Seq<Seq<char>>,
    matches: Seq<Seq<CaptureView>>,
    file: Seq<char>,
    language: Language,
    symbols: Seq<SymbolView>,
)
    requires
        symbols == finished(defined(names, matches, file, language).0, language),
    ensures
        forall|k: int|
            0 <= k < symbols.len() ==> is_made_from(
                #[trigger] symbols[k],
                names,
                matches,
                file,
                language,
            ),
        language != Language::Elixir ==> forall|t: SymbolView, i: int| #[trigger]
            is_said_at(t, names, matches, i, file, language) ==> has_stand_in(symbols, t),
        language == Language::Elixir ==> forall|t: SymbolView, i: int| #[trigger]
            is_said_at(t, names, matches, i, file, language) ==> has_elixir_stand_in(symbols, t),
{
    lemma_defined(names, matches, file, language);
    let found = defined(names, matches, file, language).0;
    assert forall|k: int| 0 <= k < symbols.len() implies is_made_from(
        #[trigger] symbols[k],
        names,
        matches,
        file,
        language,
    ) by {
        let i = lemma_form(found, language, k);
        assert(is_said(found[i], names, matches, file, language));
    }
    assert forall|i: int| 0 <= i < found.len() implies (#[trigger] found[i]).file == file by {
        assert(is_said(found[i], names, matches, file, language));
        let p = choose|p: int| #[trigger] is_said_at(found[i], names, matches, p, file, language);
        assert(says(names, matches[p], found[i], file, language));
    }
    if language != Language::Elixir {
        assert forall|t: SymbolView, i: int| #[trigger]
            is_said_at(t, names, matches, i, file, language) implies has_stand_in(symbols, t) by {
            let k = choose|k: int|
                0 <= k < found.len() && #[trigger] is_but_for_parent(Some(found[k]), t);
            lemma_stand_in(found, language, file, k);
            let b = choose|b: int|
                0 <= b < symbols.len() && #[trigger] stands_for(symbols[b], found[k]);
            assert(stands_for(symbols[b], t));
        }
    } else {
        assert forall|t: SymbolView, i: int| #[trigger]
            is_said_at(t, names, matches, i, file, language) implies has_elixir_stand_in(
            symbols,
            t,
        ) by {
            let k = choose|k: int|
                0 <= k < found.len() && #[trigger] is_but_for_parent(Some(found[k]), t);
            lemma_elixir_stand_in(found, file, k);
            let b = choose|b: int|
                0 <= b < symbols.len() && #[trigger] stands_for_elixir(symbols[b], found[k]);
            assert(stands_for_elixir(symbols[b], t));
        }
    }
}

/// What the extraction of symbols gives. Without a configuration for the language, or
/// without a tree, there are none; a file that cannot be read, a grammar or a query that
/// cannot be used is an error. Otherwise each symbol is one that a match of the query says:
/// its kind is the one that the name of the capture stands for. Every symbol that a match
/// says is there, or one of the same name that spans at least as much, functions of Elixir
/// with an arity behind their names; no name is there twice.
pub proof fn law_extraction(
    c: ConfigView,
    cache: Queries,
    source: ReadView,
    file: Seq<char>,
    language: Language,
)
    ensures
        extraction(None, cache, source, file, language) matches Ok(none) && none.len() == 0,
        match extraction(Some(c), cache, source, file, language) {
            Err(ExtractErrorView::Read(e)) => source == Err::<Seq<char>, Seq<char>>(e),
            Err(ExtractErrorView::Grammar(e)) => source matches Ok(text) && parse_outcome(
                c.language,
                text,
            ) == Err::<tree_sitter::Tree, ParseFailureView>(ParseFailureView::Grammar(e)),
            Err(ExtractErrorView::Query(e)) => query_for(
                cache,
                language,
                QueryKind::Symbols,
                c.language,
                c.symbols_query,
            ) matches Err(why) && e == query_error_message(why) && (source matches Ok(text)
                && parse_outcome(c.language, text) is Ok),
            Ok(symbols) => source matches Ok(text) && match parse_outcome(c.language, text) {
                Err(why) => why is NoTree && symbols.len() == 0,
                Ok(tree) => query_for(
                    cache,
                    language,
                    QueryKind::Symbols,
                    c.language,
                    c.symbols_query,
                ) matches Ok(query) && {
                    let names = query_captures(query);
                    let matches = query_matches(tree, query, text, None);
                    &&& forall|k: int|
                        0 <= k < symbols.len() ==> is_made_from(
                            #[trigger] symbols[k],
                            names,
                            matches,
                            file,
                            language,
                        )
                    &&& language != Language::Elixir ==> forall|t: SymbolView, i: int| #[trigger]
                        is_said_at(t, names, matches, i, file, language) ==> has_stand_in(
                            symbols,
                            t,
                        )
                    &&& language == Language::Elixir ==> forall|t: SymbolView, i: int| #[trigger]
                        is_said_at(t, names, matches, i, file, language) ==> has_elixir_stand_in(
                            symbols,
                            t,
                        )
                    &&& forall|i: int, j: int|
                        0 <= i < j < symbols.len() ==> (#[trigger] symbols[i]).name != (
                        #[trigger] symbols[j]).name
                },
            },
        },
{
    if let Ok(symbols) = extraction(Some(c), cache, source, file, language) {
        let text = source->Ok_0;
        if let Ok(tree) = parse_outcome(c.language, text) {
            let query = query_for(
                cache,
                language,
                QueryKind::Symbols,
                c.language,
                c.symbols_query,
            )->Ok_0;
            lemma_finished(
                query_captures(query),
                query_matches(tree, query, text, None),
                file,
                language,
                symbols,
            );
            law_extracted_keys_are_unique(Some(c), cache, source, file, language);
            law_extracted_symbols_belong_to_file(Some(c), cache, source, file, language);
            assert forall|i: int, j: int| 0 <= i < j < symbols.len() implies (
            #[trigger] symbols[i]).name != (#[trigger] symbols[j]).name by {
                assert(!same_key(symbols[i], symbols[j]));
            }
        }
    }
}

} // verus!
