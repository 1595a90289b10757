//! The symbols that the files of a project define.
use vstd::prelude::*;
use crate::index::file_entry::Language;
use crate::index::file_tree::{parsed_pairs, path_pairs, with_extracted, FileTree, FileTreeView};
use crate::sources::{read_of, ReadView, Sources};
use crate::symbols::identity::{apply_elixir_function_identities, identities};
use crate::symbols::queries::{
    cache_after_tree, config_of, get_cached_query, get_language_config, query_for, ConfigView,
    LanguageConfigs, Queries, QueryCache, QueryKind,
};
use crate::symbols::symbol::{symbol_views, Symbol, SymbolKind, SymbolView};
use crate::symbols::syntax::{
    all_lie_in, are_bounds, capture_views, lemma_rows_fit, lies_in, match_views, matches_of,
    message_of, node_text, parse_outcome, parse_source, query_captures, query_error_message,
    query_matches, Capture, CaptureView, NodeView, ParseFailure, ParseFailureView, SyntaxNode,
};
use crate::symbols::table::{key_of, well_keyed, with_symbol, SymbolTable};
use crate::text::{
    byte_len, byte_slice, copy_opt, is_on_row, line_at, line_text, opt_view, same, views,
};
use tree_sitter::Query;

verus! {

// ---------------------------------------------------------------------------
// What a query found
// ---------------------------------------------------------------------------

/// The kind of symbol whose name a capture holds.
pub open spec fn named_kind(capture: Seq<char>) -> Option<SymbolKind> {
    if capture == "function.name"@ {
        Some(SymbolKind::Function)
    } else if capture == "method.name"@ {
        Some(SymbolKind::Method)
    } else if capture == "struct.name"@ {
        Some(SymbolKind::Struct)
    } else if capture == "enum.name"@ {
        Some(SymbolKind::Enum)
    } else if capture == "trait.name"@ {
        Some(SymbolKind::Trait)
    } else if capture == "class.name"@ {
        Some(SymbolKind::Class)
    } else if capture == "interface.name"@ {
        Some(SymbolKind::Interface)
    } else if capture == "type.name"@ {
        Some(SymbolKind::Type)
    } else if capture == "const.name"@ || capture == "static.name"@ {
        Some(SymbolKind::Constant)
    } else if capture == "mod.name"@ {
        Some(SymbolKind::Module)
    } else if capture == "import.name"@ {
        Some(SymbolKind::Import)
    } else if capture == "test.name"@ {
        Some(SymbolKind::Test)
    } else {
        None
    }
}

/// A capture holds the definition of a symbol.
pub open spec fn holds_definition(capture: Seq<char>) -> bool {
    ||| capture == "function.def"@
    ||| capture == "method.def"@
    ||| capture == "struct.def"@
    ||| capture == "enum.def"@
    ||| capture == "trait.def"@
    ||| capture == "class.def"@
    ||| capture == "interface.def"@
    ||| capture == "type.def"@
    ||| capture == "const.def"@
    ||| capture == "static.def"@
    ||| capture == "mod.def"@
    ||| capture == "import.def"@
    ||| capture == "test.def"@
}

/// The kind of symbol whose name a capture holds.
fn kind_of_capture(capture: &str) -> (r: Option<SymbolKind>)
    ensures
        r == named_kind(capture@),
{
    if same(capture, "function.name") {
        Some(SymbolKind::Function)
    } else if same(capture, "method.name") {
        Some(SymbolKind::Method)
    } else if same(capture, "struct.name") {
        Some(SymbolKind::Struct)
    } else if same(capture, "enum.name") {
        Some(SymbolKind::Enum)
    } else if same(capture, "trait.name") {
        Some(SymbolKind::Trait)
    } else if same(capture, "class.name") {
        Some(SymbolKind::Class)
    } else if same(capture, "interface.name") {
        Some(SymbolKind::Interface)
    } else if same(capture, "type.name") {
        Some(SymbolKind::Type)
    } else if same(capture, "const.name") || same(capture, "static.name") {
        Some(SymbolKind::Constant)
    } else if same(capture, "mod.name") {
        Some(SymbolKind::Module)
    } else if same(capture, "import.name") {
        Some(SymbolKind::Import)
    } else if same(capture, "test.name") {
        Some(SymbolKind::Test)
    } else {
        None
    }
}

/// Whether a capture holds the definition of a symbol.
fn is_definition_capture(capture: &str) -> (r: bool)
    ensures
        r == holds_definition(capture@),
{
    same(capture, "function.def") || same(capture, "method.def") || same(capture, "struct.def")
        || same(capture, "enum.def") || same(capture, "trait.def") || same(capture, "class.def")
        || same(capture, "interface.def") || same(capture, "type.def") || same(
        capture,
        "const.def",
    ) || same(capture, "static.def") || same(capture, "mod.def") || same(capture, "import.def")
        || same(capture, "test.def")
}

/// What the captures of a match say of a symbol, and the type whose
/// implementation was entered last.
pub struct Gathered {
    pub name: Option<Seq<char>>,
    pub kind: Option<SymbolKind>,
    pub definition: Option<NodeView>,
    pub parent: Option<Seq<char>>,
    pub impl_type: Option<Seq<char>>,
}

/// Nothing gathered yet in a match.
pub open spec fn nothing(impl_type: Option<Seq<char>>) -> Gathered {
    Gathered { name: None, kind: None, definition: None, parent: None, impl_type }
}

/// What is known after one more capture. The name of a method brings its parent:
/// the type whose implementation was entered last.
pub open spec fn with_capture(g: Gathered, capture: Seq<char>, node: NodeView) -> Gathered {
    match named_kind(capture) {
        Some(kind) => Gathered {
            name: Some(node_text(node)),
            kind: Some(kind),
            parent: if kind == SymbolKind::Method {
                g.impl_type
            } else {
                g.parent
            },
            ..g
        },
        None => if holds_definition(capture) {
            Gathered { definition: Some(node), ..g }
        } else if capture == "impl.type"@ {
            Gathered { impl_type: Some(node_text(node)), ..g }
        } else {
            g
        },
    }
}

/// What is known after the captures of a match.
pub open spec fn gathered(
    names: Seq<Seq<char>>,
    captures: Seq<CaptureView>,
    impl_type: Option<Seq<char>>,
) -> Gathered
    decreases captures.len(),
{
    if captures.len() == 0 {
        nothing(impl_type)
    } else {
        with_capture(
            gathered(names, captures.drop_last(), impl_type),
            names[captures.last().index as int],
            captures.last().node,
        )
    }
}

/// The symbol that a match defines: one with a name, a kind and a definition.
/// Its signature is the first line of the definition.
pub open spec fn symbol_of(g: Gathered, file: Seq<char>, language: Language) -> Option<SymbolView> {
    match (g.name, g.kind, g.definition) {
        (Some(name), Some(kind), Some(node)) => Some(
            SymbolView {
                name,
                kind,
                file,
                byte_range: (node.start_byte, node.end_byte),
                line_range: ((node.start_row + 1) as usize, (node.end_row + 1) as usize),
                language,
                signature: line_text(node_text(node), 0),
                definition: None,
                parent: g.parent,
            },
        ),
        _ => None,
    }
}

/// The symbols that the matches define, in their order, and the type whose
/// implementation was entered last.
pub open spec fn defined(
    names: Seq<Seq<char>>,
    matches: Seq<Seq<CaptureView>>,
    file: Seq<char>,
    language: Language,
) -> (Seq<SymbolView>, Option<Seq<char>>)
    decreases matches.len(),
{
    if matches.len() == 0 {
        (Seq::empty(), None)
    } else {
        let (symbols, impl_type) = defined(names, matches.drop_last(), file, language);
        let g = gathered(names, matches.last(), impl_type);
        match symbol_of(g, file, language) {
            Some(s) => (symbols.push(s), g.impl_type),
            None => (symbols, g.impl_type),
        }
    }
}

/// What a match of the query on symbols defines.
fn read_match(
    names: &Vec<String>,
    captures: &Vec<Capture>,
    impl_type: &Option<String>,
    file: &str,
    language: Language,
) -> (r: (Option<Symbol>, Option<String>))
    requires
        forall|k: int|
            0 <= k < captures@.len() ==> (#[trigger] captures@[k]).index < names@.len()
                && captures@[k].node.start_row < usize::MAX && captures@[k].node.end_row
                < usize::MAX,
    ensures
        ({
            let g = gathered(views(names@), capture_views(captures@), opt_view(*impl_type));
            &&& opt_view(r.1) == g.impl_type
            &&& match r.0 {
                Some(s) => symbol_of(g, file@, language) == Some(s@),
                None => symbol_of(g, file@, language) is None,
            }
        }),
{
    let ghost caps = capture_views(captures@);
    let ghost labels = views(names@);
    let mut name: Option<String> = None;
    let mut kind: Option<SymbolKind> = None;
    let mut at: Option<usize> = None;
    let mut parent: Option<String> = None;
    let mut current = copy_opt(impl_type);
    let mut i: usize = 0;
    assert(caps.take(0) =~= Seq::empty());
    while i < captures.len()
        invariant
            i <= captures@.len(),
            caps == capture_views(captures@),
            labels == views(names@),
            forall|k: int|
                0 <= k < captures@.len() ==> (#[trigger] captures@[k]).index < names@.len(),
            at is Some ==> at->0 < i,
            ({
                let g = gathered(labels, caps.take(i as int), opt_view(*impl_type));
                &&& opt_view(name) == g.name
                &&& kind == g.kind
                &&& opt_view(parent) == g.parent
                &&& opt_view(current) == g.impl_type
                &&& match at {
                    Some(k) => g.definition == Some(captures@[k as int].node@),
                    None => g.definition is None,
                }
            }),
        decreases captures@.len() - i,
    {
        let label = names[captures[i].index].as_str();
        assert(caps.take(i + 1).drop_last() =~= caps.take(i as int));
        assert(caps.take(i + 1).last() == captures@[i as int]@);
        assert(labels[captures@[i as int].index as int] == label@);
        match kind_of_capture(label) {
            Some(k) => {
                name = Some(captures[i].node.text_or_empty());
                kind = Some(k);
                if k == SymbolKind::Method {
                    parent = copy_opt(&current);
                }
            },
            None => if is_definition_capture(label) {
                at = Some(i);
            } else if same(label, "impl.type") {
                current = Some(captures[i].node.text_or_empty());
            },
        }
        i = i + 1;
    }
    assert(caps.take(i as int) =~= caps);
    let symbol = match (name, kind, at) {
        (Some(name), Some(kind), Some(k)) => {
            let node: &SyntaxNode = &captures[k].node;
            let text = node.text_or_empty();
            let signature = line_at(text.as_str(), 0);
            Some(
                Symbol {
                    name,
                    kind,
                    file: file.to_owned(),
                    byte_range: (node.start_byte, node.end_byte),
                    line_range: (node.start_row + 1, node.end_row + 1),
                    language,
                    signature,
                    definition: None,
                    parent,
                },
            )
        },
        _ => None,
    };
    (symbol, current)
}

/// The symbols that the matches of a query define. The captures carry numbers of
/// `names`, and rows that can be counted from 1.
pub fn symbols_from_matches(
    names: &Vec<String>,
    matches: &Vec<Vec<Capture>>,
    file: &str,
    language: Language,
) -> (r: Vec<Symbol>)
    requires
        forall|i: int, k: int|
            0 <= i < matches@.len() && 0 <= k < matches@[i]@.len() ==> (
            #[trigger] matches@[i]@[k]).index < names@.len() && matches@[i]@[k].node.start_row
                < usize::MAX && matches@[i]@[k].node.end_row < usize::MAX,
    ensures
        symbol_views(r@) == defined(views(names@), match_views(matches@), file@, language).0,
{
    let ghost all = match_views(matches@);
    let ghost labels = views(names@);
    let mut out: Vec<Symbol> = Vec::new();
    let mut impl_type: Option<String> = None;
    let mut i: usize = 0;
    assert(all.take(0) =~= Seq::empty());
    assert(symbol_views(out@) =~= Seq::empty());
    while i < matches.len()
        invariant
            i <= matches@.len(),
            all == match_views(matches@),
            labels == views(names@),
            forall|i: int, k: int|
                0 <= i < matches@.len() && 0 <= k < matches@[i]@.len() ==> (
                #[trigger] matches@[i]@[k]).index < names@.len() && matches@[i]@[k].node.start_row
                    < usize::MAX && matches@[i]@[k].node.end_row < usize::MAX,
            (symbol_views(out@), opt_view(impl_type)) == defined(
                labels,
                all.take(i as int),
                file@,
                language,
            ),
        decreases matches@.len() - i,
    {
        let ghost before = symbol_views(out@);
        assert(all.take(i + 1).drop_last() =~= all.take(i as int));
        assert(all.take(i + 1).last() == capture_views(matches@[i as int]@));
        let (symbol, next) = read_match(names, &matches[i], &impl_type, file, language);
        match symbol {
            Some(s) => {
                out.push(s);
                assert(symbol_views(out@) =~= before.push(s@));
            },
            None => {},
        }
        impl_type = next;
        i = i + 1;
    }
    assert(all.take(i as int) =~= all);
    out
}

// ---------------------------------------------------------------------------
// One symbol for each name
// ---------------------------------------------------------------------------

/// The number of bytes of a definition.
pub open spec fn extent(s: SymbolView) -> int {
    if s.byte_range.1 >= s.byte_range.0 {
        s.byte_range.1 - s.byte_range.0
    } else {
        0
    }
}

/// The kind says little of what the symbol is.
pub open spec fn generic_kind(kind: SymbolKind) -> bool {
    match kind {
        SymbolKind::Other | SymbolKind::Variable | SymbolKind::Constant | SymbolKind::Import => true,
        _ => false,
    }
}

/// `a` is the better definition of the two: the larger one, or one of the same
/// size with a more specific kind. Some grammars give both for one node.
pub open spec fn outranks(a: SymbolView, b: SymbolView) -> bool {
    ||| extent(a) > extent(b)
    ||| extent(a) == extent(b) && !generic_kind(a.kind) && generic_kind(b.kind)
}

/// Both have the same file and name.
pub open spec fn same_key(a: SymbolView, b: SymbolView) -> bool {
    key_of(a.file, a.name) == key_of(b.file, b.name)
}

/// Symbol `i` is kept: of those with its file and name, none is better, and none
/// that is as good comes before it.
pub open spec fn is_kept(symbols: Seq<SymbolView>, i: int) -> bool {
    forall|j: int|
        0 <= j < symbols.len() && #[trigger] same_key(symbols[j], symbols[i]) ==> !outranks(
            symbols[j],
            symbols[i],
        ) && (j < i ==> outranks(symbols[i], symbols[j]))
}

/// Those of the first `n` symbols that are kept.
pub open spec fn kept(symbols: Seq<SymbolView>, n: int) -> Seq<SymbolView>
    decreases n,
{
    if n <= 0 {
        Seq::empty()
    } else if is_kept(symbols, n - 1) {
        kept(symbols, n - 1).push(symbols[n - 1])
    } else {
        kept(symbols, n - 1)
    }
}

/// One symbol for each file and name.
pub open spec fn deduplicated(symbols: Seq<SymbolView>) -> Seq<SymbolView> {
    kept(symbols, symbols.len() as int)
}

/// Whether `a` is the better definition of the two.
fn is_better(a: &Symbol, b: &Symbol) -> (r: bool)
    ensures
        r == outranks(a@, b@),
{
    let x: usize = a.byte_range.1.saturating_sub(a.byte_range.0);
    let y: usize = b.byte_range.1.saturating_sub(b.byte_range.0);
    x > y || (x == y && !is_generic(a.kind) && is_generic(b.kind))
}

/// Whether the kind says little of what the symbol is.
fn is_generic(kind: SymbolKind) -> (r: bool)
    ensures
        r == generic_kind(kind),
{
    match kind {
        SymbolKind::Other | SymbolKind::Variable | SymbolKind::Constant | SymbolKind::Import => true,
        _ => false,
    }
}

/// Keeps one symbol for each file and name: the one with the larger definition,
/// and of those of one size the first with a specific kind.
pub fn deduplicate(symbols: &Vec<Symbol>) -> (r: Vec<Symbol>)
    ensures
        symbol_views(r@) == deduplicated(symbol_views(symbols@)),
{
    let ghost all = symbol_views(symbols@);
    let total: usize = symbols.len();
    let mut keys: Vec<String> = Vec::new();
    let mut i: usize = 0;
    while i < total
        invariant
            i <= total == symbols@.len(),
            all == symbol_views(symbols@),
            keys@.len() == i,
            forall|k: int| 0 <= k < i ==> (#[trigger] keys@[k])@ == key_of(all[k].file, all[k].name),
        decreases total - i,
    {
        let key = SymbolTable::make_key(symbols[i].file.as_str(), symbols[i].name.as_str());
        assert(all[i as int] == symbols@[i as int]@);
        keys.push(key);
        i = i + 1;
    }
    let mut out: Vec<Symbol> = Vec::new();
    let mut i: usize = 0;
    assert(symbol_views(out@) =~= Seq::empty());
    while i < total
        invariant
            i <= total == symbols@.len(),
            all == symbol_views(symbols@),
            keys@.len() == total,
            forall|k: int|
                0 <= k < total ==> (#[trigger] keys@[k])@ == key_of(all[k].file, all[k].name),
            symbol_views(out@) == kept(all, i as int),
        decreases total - i,
    {
        let mut keep = true;
        let mut j: usize = 0;
        assert(all[i as int] == symbols@[i as int]@);
        while j < total && keep
            invariant
                j <= total == symbols@.len(),
                i < total,
                all == symbol_views(symbols@),
                keys@.len() == total,
                forall|k: int|
                    0 <= k < total ==> (#[trigger] keys@[k])@ == key_of(all[k].file, all[k].name),
                keep ==> forall|k: int|
                    0 <= k < j && #[trigger] same_key(all[k], all[i as int]) ==> !outranks(
                        all[k],
                        all[i as int],
                    ) && (k < i ==> outranks(all[i as int], all[k])),
                !keep ==> !is_kept(all, i as int),
            decreases total - j,
        {
            assert(keys@[j as int]@ == key_of(all[j as int].file, all[j as int].name));
            assert(keys@[i as int]@ == key_of(all[i as int].file, all[i as int].name));
            assert(all[j as int] == symbols@[j as int]@);
            assert(all[i as int] == symbols@[i as int]@);
            if keys[j] == keys[i] {
                assert(same_key(all[j as int], all[i as int]));
                if is_better(&symbols[j], &symbols[i]) || (j < i && !is_better(
                    &symbols[i],
                    &symbols[j],
                )) {
                    keep = false;
                }
            }
            j = j + 1;
        }
        if keep {
            let ghost before = symbol_views(out@);
            out.push(symbols[i].clone());
            assert(symbol_views(out@) =~= before.push(all[i as int]));
        }
        i = i + 1;
    }
    out
}

/// A symbol that is kept comes from the input, at a place where it is kept.
pub proof fn lemma_kept_origin(symbols: Seq<SymbolView>, n: int, k: int) -> (i: int)
    requires
        0 <= n <= symbols.len(),
        0 <= k < kept(symbols, n).len(),
    ensures
        0 <= i < n,
        is_kept(symbols, i),
        symbols[i] == kept(symbols, n)[k],
        k == kept(symbols, i).len(),
    decreases n,
{
    if is_kept(symbols, n - 1) && k == kept(symbols, n - 1).len() {
        n - 1
    } else {
        lemma_kept_origin(symbols, n - 1, k)
    }
}

/// A place that is kept has its symbol in the output.
pub proof fn lemma_kept_place(symbols: Seq<SymbolView>, n: int, i: int)
    requires
        0 <= i < n <= symbols.len(),
        is_kept(symbols, i),
    ensures
        kept(symbols, i).len() < kept(symbols, n).len(),
        kept(symbols, n)[kept(symbols, i).len() as int] == symbols[i],
    decreases n,
{
    if i < n - 1 {
        lemma_kept_place(symbols, n - 1, i);
    }
}

/// Among the first `n` symbols with the file and name of `s`, one is the best.
proof fn lemma_best(symbols: Seq<SymbolView>, n: int, s: SymbolView) -> (best: int)
    requires
        0 <= n <= symbols.len(),
        exists|i: int| 0 <= i < n && same_key(symbols[i], s),
    ensures
        0 <= best < n,
        same_key(symbols[best], s),
        forall|j: int|
            0 <= j < n && #[trigger] same_key(symbols[j], s) ==> !outranks(
                symbols[j],
                symbols[best],
            ) && (j < best ==> outranks(symbols[best], symbols[j])),
    decreases n,
{
    let last = n - 1;
    if exists|i: int| 0 <= i < last && same_key(symbols[i], s) {
        let before = lemma_best(symbols, last, s);
        if same_key(symbols[last], s) && outranks(symbols[last], symbols[before]) {
            last
        } else {
            before
        }
    } else {
        last
    }
}

/// After `deduplicated`, no two symbols share file and name.
pub proof fn law_keys_are_unique(symbols: Seq<SymbolView>, a: int, b: int)
    requires
        0 <= a < b < deduplicated(symbols).len(),
    ensures
        !same_key(deduplicated(symbols)[a], deduplicated(symbols)[b]),
{
    let i = lemma_kept_origin(symbols, symbols.len() as int, a);
    let j = lemma_kept_origin(symbols, symbols.len() as int, b);
    assert(i != j);
    if same_key(symbols[i], symbols[j]) {
        assert(same_key(symbols[j], symbols[i]));
    }
}

/// No file and name is lost by `deduplicated`, and what is kept for it is not
/// outranked.
pub proof fn law_keys_are_kept(symbols: Seq<SymbolView>, i: int)
    requires
        0 <= i < symbols.len(),
    ensures
        exists|k: int|
            0 <= k < deduplicated(symbols).len() && #[trigger] same_key(
                deduplicated(symbols)[k],
                symbols[i],
            ) && !outranks(symbols[i], deduplicated(symbols)[k]),
{
    assert(same_key(symbols[i], symbols[i]));
    let best = lemma_best(symbols, symbols.len() as int, symbols[i]);
    assert(is_kept(symbols, best)) by {
        assert forall|j: int|
            0 <= j < symbols.len() && #[trigger] same_key(
                symbols[j],
                symbols[best],
            ) implies !outranks(symbols[j], symbols[best]) && (j < best ==> outranks(
            symbols[best],
            symbols[j],
        )) by {
            assert(same_key(symbols[j], symbols[i]));
        }
    }
    lemma_kept_place(symbols, symbols.len() as int, best);
    assert(same_key(deduplicated(symbols)[kept(symbols, best).len() as int], symbols[i]));
}

// ---------------------------------------------------------------------------
// Methods of Python
// ---------------------------------------------------------------------------

/// The first class whose definition contains that of `s`.
pub open spec fn enclosing_class(symbols: Seq<SymbolView>, s: SymbolView) -> Option<Seq<char>>
    decreases symbols.len(),
{
    if symbols.len() == 0 {
        None
    } else if symbols[0].kind == SymbolKind::Class && s.byte_range.0 >= symbols[0].byte_range.0
        && s.byte_range.1 <= symbols[0].byte_range.1 {
        Some(symbols[0].name)
    } else {
        enclosing_class(symbols.drop_first(), s)
    }
}

/// A function that stands in a class is a method of it.
pub open spec fn as_method(symbols: Seq<SymbolView>, s: SymbolView) -> SymbolView {
    if s.kind == SymbolKind::Function && s.parent is None {
        match enclosing_class(symbols, s) {
            Some(class) => SymbolView { kind: SymbolKind::Method, parent: Some(class), ..s },
            None => s,
        }
    } else {
        s
    }
}

/// The symbols, with the functions that stand in classes as methods.
pub open spec fn with_methods(symbols: Seq<SymbolView>) -> Seq<SymbolView> {
    symbols.map_values(|s: SymbolView| as_method(symbols, s))
}

/// The first class whose definition contains that of `s`.
fn find_class(symbols: &Vec<Symbol>, s: &Symbol) -> (r: Option<String>)
    ensures
        opt_view(r) == enclosing_class(symbol_views(symbols@), s@),
{
    let ghost all = symbol_views(symbols@);
    let mut i: usize = 0;
    assert(all.skip(0) =~= all);
    while i < symbols.len()
        invariant
            i <= symbols@.len(),
            all == symbol_views(symbols@),
            enclosing_class(all, s@) == enclosing_class(all.skip(i as int), s@),
        decreases symbols@.len() - i,
    {
        let class = &symbols[i];
        assert(all.skip(i as int)[0] == class@);
        assert(all.skip(i as int).drop_first() =~= all.skip(i + 1));
        if class.kind == SymbolKind::Class && s.byte_range.0 >= class.byte_range.0
            && s.byte_range.1 <= class.byte_range.1 {
            return Some(class.name.clone());
        }
        i = i + 1;
    }
    None
}

/// Makes methods of the functions of a Python file that stand in classes.
pub fn associate_methods(symbols: &Vec<Symbol>) -> (r: Vec<Symbol>)
    ensures
        symbol_views(r@) == with_methods(symbol_views(symbols@)),
{
    let ghost all = symbol_views(symbols@);
    let mut out: Vec<Symbol> = Vec::new();
    let mut i: usize = 0;
    while i < symbols.len()
        invariant
            i <= symbols@.len(),
            all == symbol_views(symbols@),
            out@.len() == i,
            forall|k: int| 0 <= k < i ==> (#[trigger] out@[k])@ == as_method(all, all[k]),
        decreases symbols@.len() - i,
    {
        let mut s = symbols[i].clone();
        assert(all[i as int] == s@);
        if s.kind == SymbolKind::Function && s.parent.is_none() {
            match find_class(symbols, &s) {
                Some(class) => {
                    s.kind = SymbolKind::Method;
                    s.parent = Some(class);
                },
                None => {},
            }
        }
        assert(s@ == as_method(all, all[i as int]));
        out.push(s);
        i = i + 1;
    }
    assert(symbol_views(out@) =~= with_methods(all));
    out
}

// ---------------------------------------------------------------------------
// Extraction
// ---------------------------------------------------------------------------

/// The symbols of a file, from what the query found in it.
pub open spec fn finished(symbols: Seq<SymbolView>, language: Language) -> Seq<SymbolView> {
    let named = if language == Language::Elixir {
        identities(symbols)
    } else {
        symbols
    };
    let unique = deduplicated(named);
    if language == Language::Python {
        with_methods(unique)
    } else {
        unique
    }
}

/// The symbols of a file, from what the query found in it.
pub fn finish_symbols(symbols: Vec<Symbol>, language: Language) -> (r: Vec<Symbol>)
    ensures
        symbol_views(r@) == finished(symbol_views(symbols@), language),
{
    let mut named = symbols;
    if language == Language::Elixir {
        apply_elixir_function_identities(&mut named);
    }
    let unique = deduplicate(&named);
    if language == Language::Python {
        associate_methods(&unique)
    } else {
        unique
    }
}

/// Why the symbols of a file could not be extracted.
pub enum ExtractErrorView {
    Read(Seq<char>),
    Grammar(Seq<char>),
    Query(Seq<char>),
}

/// Why the symbols of a file could not be extracted.
#[derive(Debug, PartialEq, Eq)]
pub enum ExtractError {
    /// The file could not be read.
    Read(String),
    /// The grammar does not fit the parser.
    Grammar(String),
    /// The query on symbols does not fit the grammar.
    Query(String),
}

impl View for ExtractError {
    type V = ExtractErrorView;

    open spec fn view(&self) -> ExtractErrorView {
        match self {
            ExtractError::Read(e) => ExtractErrorView::Read(e@),
            ExtractError::Grammar(e) => ExtractErrorView::Grammar(e@),
            ExtractError::Query(e) => ExtractErrorView::Query(e@),
        }
    }
}

/// The symbols that a query finds in a text.
pub open spec fn symbols_found(
    tree: tree_sitter::Tree,
    query: Query,
    source: Seq<char>,
    file: Seq<char>,
    language: Language,
) -> Seq<SymbolView> {
    finished(
        defined(
            query_captures(query),
            query_matches(tree, query, source, None),
            file,
            language,
        ).0,
        language,
    )
}

/// What extracting the symbols of a file gives. A language without a
/// configuration has no symbols, and neither has a file without a tree.
pub open spec fn extraction(
    config: Option<ConfigView>,
    cache: Queries,
    source: ReadView,
    file: Seq<char>,
    language: Language,
) -> Result<Seq<SymbolView>, ExtractErrorView> {
    match (config, source) {
        (None, _) => Ok(Seq::empty()),
        (Some(_), Err(e)) => Err(ExtractErrorView::Read(e)),
        (Some(c), Ok(text)) => match parse_outcome(c.language, text) {
            Err(ParseFailureView::Grammar(e)) => Err(ExtractErrorView::Grammar(e)),
            Err(ParseFailureView::NoTree) => Ok(Seq::empty()),
            Ok(tree) => match query_for(
                cache,
                language,
                QueryKind::Symbols,
                c.language,
                c.symbols_query,
            ) {
                Err(e) => Err(ExtractErrorView::Query(query_error_message(e))),
                Ok(query) => Ok(symbols_found(tree, query, text, file, language)),
            },
        },
    }
}

/// The cache of queries after an extraction: a query is asked for once there is
/// a tree.
pub open spec fn cache_after_extraction(
    config: Option<ConfigView>,
    cache: Queries,
    source: ReadView,
    language: Language,
) -> Queries {
    match (config, source) {
        (Some(c), Ok(text)) => cache_after_tree(
            cache,
            language,
            QueryKind::Symbols,
            c.language,
            c.symbols_query,
            text,
        ),
        _ => cache,
    }
}

/// What an extraction gave.
pub open spec fn extracted_view(r: Result<Vec<Symbol>, ExtractError>) -> Result<
    Seq<SymbolView>,
    ExtractErrorView,
> {
    match r {
        Ok(symbols) => Ok(symbol_views(symbols@)),
        Err(e) => Err(e@),
    }
}

/// The text of bytes of a text; nothing where they are not whole characters.
pub open spec fn text_of_bytes(source: Seq<char>, range: (usize, usize)) -> Seq<char> {
    if range.0 < range.1 {
        match byte_slice(source, range.0 as int, range.1 as int) {
            Some(t) => t,
            None => Seq::empty(),
        }
    } else {
        Seq::empty()
    }
}

/// A symbol stands in a text: its bytes are bytes of the text, its signature is the first
/// line of what they hold, and its lines are those on which they start and end. Its bytes
/// are whole characters, where there are fewer than a `u32` can count.
pub open spec fn is_signed(s: SymbolView, source: Seq<char>) -> bool {
    &&& s.byte_range.0 <= s.byte_range.1 <= byte_len(source)
    &&& s.signature == line_text(text_of_bytes(source, s.byte_range), 0)
    &&& s.line_range.0 >= 1 && is_on_row(
        source,
        s.byte_range.0 as int,
        s.line_range.0 - 1,
    )
    &&& s.line_range.1 >= 1 && is_on_row(
        source,
        s.byte_range.1 as int,
        s.line_range.1 - 1,
    )
    &&& s.line_range.0 <= s.line_range.1
    &&& byte_len(source) < u32::MAX ==> are_bounds(source, s.byte_range.0, s.byte_range.1)
}

/// What is gathered of nodes that lie in a text has its definition there.
proof fn lemma_gathered_lies(
    names: Seq<Seq<char>>,
    captures: Seq<CaptureView>,
    impl_type: Option<Seq<char>>,
    source: Seq<char>,
)
    requires
        forall|j: int| 0 <= j < captures.len() ==> lies_in((#[trigger] captures[j]).node, source),
    ensures
        gathered(names, captures, impl_type).definition matches Some(node) ==> lies_in(
            node,
            source,
        ),
    decreases captures.len(),
{
    if captures.len() > 0 {
        let rest = captures.drop_last();
        assert forall|j: int| 0 <= j < rest.len() implies lies_in(
            (#[trigger] rest[j]).node,
            source,
        ) by {
            assert(rest[j] == captures[j]);
        }
        lemma_gathered_lies(names, rest, impl_type, source);
        assert(lies_in(captures[captures.len() - 1].node, source));
    }
}

/// The symbols that matches in a text define stand in it.
proof fn lemma_defined_signed(
    names: Seq<Seq<char>>,
    matches: Seq<Seq<CaptureView>>,
    file: Seq<char>,
    language: Language,
    source: Seq<char>,
)
    requires
        all_lie_in(matches, source),
    ensures
        forall|i: int|
            0 <= i < defined(names, matches, file, language).0.len() ==> is_signed(
                #[trigger] defined(names, matches, file, language).0[i],
                source,
            ),
    decreases matches.len(),
{
    if matches.len() > 0 {
        let rest = matches.drop_last();
        let n = matches.len() - 1;
        assert forall|i: int, j: int|
            0 <= i < rest.len() && 0 <= j < rest[i].len() implies lies_in(
            (#[trigger] rest[i][j]).node,
            source,
        ) by {
            assert(rest[i][j] == matches[i][j]);
        }
        lemma_defined_signed(names, rest, file, language, source);
        assert forall|j: int| 0 <= j < matches[n].len() implies lies_in(
            (#[trigger] matches[n][j]).node,
            source,
        ) by {}
        let impl_type = defined(names, rest, file, language).1;
        lemma_gathered_lies(names, matches[n], impl_type, source);
    }
}

/// Finishing the symbols of a file leaves them where they stand.
proof fn lemma_finished_signed(symbols: Seq<SymbolView>, language: Language, source: Seq<char>)
    requires
        forall|i: int| 0 <= i < symbols.len() ==> is_signed(#[trigger] symbols[i], source),
    ensures
        forall|i: int|
            0 <= i < finished(symbols, language).len() ==> is_signed(
                #[trigger] finished(symbols, language)[i],
                source,
            ),
{
    let named = if language == Language::Elixir {
        identities(symbols)
    } else {
        symbols
    };
    let unique = deduplicated(named);
    let done = finished(symbols, language);
    assert forall|i: int| 0 <= i < done.len() implies is_signed(#[trigger] done[i], source) by {
        let k = lemma_kept_origin(named, named.len() as int, i);
        assert(unique[i] == named[k]);
        assert(is_signed(symbols[k], source));
    }
}

/// Extracts the symbols of a single file. Each stands in its text.
pub fn extract_symbols_from_file(
    configs: &LanguageConfigs,
    cache: &mut QueryCache,
    sources: &Sources,
    rel_path: &str,
    language: Language,
) -> (r: Result<Vec<Symbol>, ExtractError>)
    ensures
        extracted_view(r) == extraction(
            config_of(configs@, language),
            old(cache)@,
            read_of(sources@, rel_path@),
            rel_path@,
            language,
        ),
        final(cache)@ == cache_after_extraction(
            config_of(configs@, language),
            old(cache)@,
            read_of(sources@, rel_path@),
            language,
        ),
        r matches Ok(symbols) ==> (read_of(sources@, rel_path@) matches Ok(text)
            ==> forall|i: int|
                0 <= i < symbols@.len() ==> is_signed((#[trigger] symbols@[i])@, text)),
{
    let config = match get_language_config(configs, language) {
        Some(c) => c,
        None => {
            let none: Vec<Symbol> = Vec::new();
            assert(symbol_views(none@) =~= Seq::empty());
            return Ok(none);
        },
    };
    let source = match sources.read(rel_path) {
        Ok(s) => s,
        Err(e) => return Err(ExtractError::Read(e)),
    };
    let tree = match parse_source(&config.language, source.as_str()) {
        Ok(t) => t,
        Err(ParseFailure::Grammar(e)) => return Err(ExtractError::Grammar(e)),
        Err(ParseFailure::NoTree) => {
            let none: Vec<Symbol> = Vec::new();
            assert(symbol_views(none@) =~= Seq::empty());
            return Ok(none);
        },
    };
    let query = match get_cached_query(
        cache,
        language,
        QueryKind::Symbols,
        &config.language,
        config.symbols_query,
    ) {
        Ok(q) => q,
        Err(e) => return Err(ExtractError::Query(message_of(&e))),
    };
    let matches = matches_of(&tree, query.query(), source.as_str(), None);
    proof {
        lemma_rows_fit(matches@, source@);
    }
    let names = query.capture_names();
    assert(views(names@).len() == names@.len());
    let found = symbols_from_matches(names, &matches, rel_path, language);
    proof {
        lemma_defined_signed(
            views(names@),
            match_views(matches@),
            rel_path@,
            language,
            source@,
        );
        lemma_finished_signed(symbol_views(found@), language, source@);
    }
    let symbols = finish_symbols(found, language);
    assert forall|i: int| 0 <= i < symbols@.len() implies is_signed(
        (#[trigger] symbols@[i])@,
        source@,
    ) by {
        assert(symbol_views(symbols@)[i] == symbols@[i]@);
    }
    Ok(symbols)
}

/// The symbols that matches define are those of the file.
proof fn lemma_defined_file(
    names: Seq<Seq<char>>,
    matches: Seq<Seq<CaptureView>>,
    file: Seq<char>,
    language: Language,
)
    ensures
        forall|i: int|
            0 <= i < defined(names, matches, file, language).0.len() ==> (#[trigger] defined(
                names,
                matches,
                file,
                language,
            ).0[i]).file == file,
    decreases matches.len(),
{
    if matches.len() > 0 {
        lemma_defined_file(names, matches.drop_last(), file, language);
    }
}

/// Every symbol that is extracted from a file carries the path of that file.
pub proof fn law_extracted_symbols_belong_to_file(
    config: Option<ConfigView>,
    cache: Queries,
    source: ReadView,
    file: Seq<char>,
    language: Language,
)
    ensures
        extraction(config, cache, source, file, language) matches Ok(symbols) ==> forall|i: int|
            0 <= i < symbols.len() ==> (#[trigger] symbols[i]).file == file,
{
    if let Ok(symbols) = extraction(config, cache, source, file, language) {
        if symbols.len() > 0 {
            let c = config->0;
            let text = source->Ok_0;
            let tree = parse_outcome(c.language, text)->Ok_0;
            let query = query_for(
                cache,
                language,
                QueryKind::Symbols,
                c.language,
                c.symbols_query,
            )->Ok_0;
            let found = defined(
                query_captures(query),
                query_matches(tree, query, text, None),
                file,
                language,
            ).0;
            lemma_defined_file(
                query_captures(query),
                query_matches(tree, query, text, None),
                file,
                language,
            );
            let named = if language == Language::Elixir {
                identities(found)
            } else {
                found
            };
            assert forall|i: int| 0 <= i < symbols.len() implies (#[trigger] symbols[i]).file
                == file by {
                let unique = deduplicated(named);
                let k = lemma_kept_origin(named, named.len() as int, i);
                assert(unique[i] == named[k]);
                assert(found[k].file == file);
            }
        }
    }
}

/// No two symbols that are extracted from a file share file and name, so that none
/// takes the place of another in the table.
pub proof fn law_extracted_keys_are_unique(
    config: Option<ConfigView>,
    cache: Queries,
    source: ReadView,
    file: Seq<char>,
    language: Language,
)
    ensures
        extraction(config, cache, source, file, language) matches Ok(symbols) ==> forall|
            i: int,
            j: int,
        |
            0 <= i < j < symbols.len() ==> !#[trigger] same_key(symbols[i], symbols[j]),
{
    if let Ok(symbols) = extraction(config, cache, source, file, language) {
        if symbols.len() > 0 {
            let c = config->0;
            let text = source->Ok_0;
            let tree = parse_outcome(c.language, text)->Ok_0;
            let query = query_for(
                cache,
                language,
                QueryKind::Symbols,
                c.language,
                c.symbols_query,
            )->Ok_0;
            let found = defined(
                query_captures(query),
                query_matches(tree, query, text, None),
                file,
                language,
            ).0;
            let named = if language == Language::Elixir {
                identities(found)
            } else {
                found
            };
            assert forall|i: int, j: int| 0 <= i < j < symbols.len() implies !#[trigger] same_key(
                symbols[i],
                symbols[j],
            ) by {
                law_keys_are_unique(named, i, j);
            }
        }
    }
}

/// Extracting the symbols of a file once more gives the same, though the query then
/// comes from the cache.
pub proof fn law_extraction_is_repeatable(
    config: Option<ConfigView>,
    cache: Queries,
    source: ReadView,
    file: Seq<char>,
    language: Language,
)
    ensures
        extraction(
            config,
            cache_after_extraction(config, cache, source, language),
            source,
            file,
            language,
        ) == extraction(config, cache, source, file, language),
{
}

// ---------------------------------------------------------------------------
// All files
// ---------------------------------------------------------------------------

/// The table with symbols put in, one after the other.
pub open spec fn with_symbols(
    table: Map<Seq<char>, SymbolView>,
    symbols: Seq<SymbolView>,
) -> Map<Seq<char>, SymbolView>
    decreases symbols.len(),
{
    if symbols.len() == 0 {
        table
    } else {
        with_symbol(with_symbols(table, symbols.drop_last()), symbols.last())
    }
}

/// What the table holds once symbols are put in: each value is one of them, or was
/// there before.
pub proof fn lemma_with_symbols(
    table: Map<Seq<char>, SymbolView>,
    symbols: Seq<SymbolView>,
    key: Seq<char>,
)
    requires
        with_symbols(table, symbols).contains_key(key),
    ensures
        (exists|i: int| 0 <= i < symbols.len() && with_symbols(table, symbols)[key] == symbols[i])
            || (table.contains_key(key) && with_symbols(table, symbols)[key] == table[key]),
    decreases symbols.len(),
{
    if symbols.len() > 0 {
        let rest = symbols.drop_last();
        let last = symbols.last();
        if key == key_of(last.file, last.name) {
            assert(with_symbols(table, symbols)[key] == symbols[symbols.len() - 1]);
        } else {
            lemma_with_symbols(table, rest, key);
            if exists|i: int| 0 <= i < rest.len() && with_symbols(table, rest)[key] == rest[i] {
                let i = choose|i: int|
                    0 <= i < rest.len() && with_symbols(table, rest)[key] == rest[i];
                assert(symbols[i] == rest[i]);
            }
        }
    }
}

/// Symbols with different keys are all found once they are put in.
pub proof fn lemma_symbols_are_found(
    table: Map<Seq<char>, SymbolView>,
    symbols: Seq<SymbolView>,
    i: int,
)
    requires
        0 <= i < symbols.len(),
        forall|j: int, k: int|
            0 <= j < k < symbols.len() ==> !#[trigger] same_key(symbols[j], symbols[k]),
    ensures
        with_symbols(table, symbols).contains_key(key_of(symbols[i].file, symbols[i].name)),
        with_symbols(table, symbols)[key_of(symbols[i].file, symbols[i].name)] == symbols[i],
    decreases symbols.len(),
{
    let rest = symbols.drop_last();
    if i < rest.len() {
        assert forall|j: int, k: int| 0 <= j < k < rest.len() implies !#[trigger] same_key(
            rest[j],
            rest[k],
        ) by {
            assert(!same_key(symbols[j], symbols[k]));
        }
        lemma_symbols_are_found(table, rest, i);
        assert(rest[i] == symbols[i]);
        assert(!same_key(symbols[i], symbols[symbols.len() - 1]));
    }
}

/// What the table held under a key is still there once symbols are put in, where none
/// of them has that key.
pub proof fn lemma_others_are_kept(
    table: Map<Seq<char>, SymbolView>,
    symbols: Seq<SymbolView>,
    key: Seq<char>,
)
    requires
        table.contains_key(key),
    ensures
        with_symbols(table, symbols).contains_key(key),
        with_symbols(table, symbols)[key] == table[key] || exists|i: int|
            0 <= i < symbols.len() && with_symbols(table, symbols)[key] == symbols[i],
    decreases symbols.len(),
{
    if symbols.len() > 0 {
        lemma_others_are_kept(table, symbols.drop_last(), key);
    }
    lemma_with_symbols(table, symbols, key);
}

/// Puts symbols into the table, one after the other.
pub fn insert_symbols(table: &mut SymbolTable, symbols: &Vec<Symbol>)
    ensures
        final(table)@ == with_symbols(old(table)@, symbol_views(symbols@)),
        well_keyed(old(table)@) ==> well_keyed(final(table)@),
{
    let ghost start = table@;
    let ghost all = symbol_views(symbols@);
    let mut i: usize = 0;
    assert(all.take(0) =~= Seq::empty());
    while i < symbols.len()
        invariant
            i <= symbols@.len(),
            all == symbol_views(symbols@),
            table@ == with_symbols(start, all.take(i as int)),
            well_keyed(start) ==> well_keyed(table@),
        decreases symbols@.len() - i,
    {
        assert(all.take(i + 1).drop_last() =~= all.take(i as int));
        assert(all.take(i + 1).last() == symbols@[i as int]@);
        table.insert(symbols[i].clone());
        i = i + 1;
    }
    assert(all.take(i as int) =~= all);
}

/// What indexing works on: the compiled queries, the files, the symbols, and the
/// number of symbols found.
pub struct Indexing {
    pub cache: Queries,
    pub tree: FileTreeView,
    pub table: Map<Seq<char>, SymbolView>,
    pub total: nat,
}

/// `n`, but no more than a `usize` can hold.
pub open spec fn capped(n: nat) -> nat {
    if n > usize::MAX {
        usize::MAX as nat
    } else {
        n
    }
}

/// What indexing one more file makes of the state. A file whose symbols cannot be
/// extracted is passed over.
pub open spec fn with_indexed(
    state: Indexing,
    configs: Map<Language, ConfigView>,
    reads: Map<Seq<char>, ReadView>,
    path: Seq<char>,
    language: Language,
) -> Indexing {
    let config = config_of(configs, language);
    let source = read_of(reads, path);
    let cache = cache_after_extraction(config, state.cache, source, language);
    match extraction(config, state.cache, source, path, language) {
        Ok(symbols) => Indexing {
            cache,
            tree: with_extracted(state.tree, path),
            table: with_symbols(state.table, symbols),
            total: capped(state.total + symbols.len()),
        },
        Err(_) => Indexing { cache, ..state },
    }
}

/// What indexing files one after the other makes of the state.
pub open spec fn indexed(
    state: Indexing,
    configs: Map<Language, ConfigView>,
    reads: Map<Seq<char>, ReadView>,
    files: Seq<(Seq<char>, Language)>,
) -> Indexing
    decreases files.len(),
{
    if files.len() == 0 {
        state
    } else {
        with_indexed(
            indexed(state, configs, reads, files.drop_last()),
            configs,
            reads,
            files.last().0,
            files.last().1,
        )
    }
}

/// Extracts the symbols of the given files, one after the other. Returns the
/// number of symbols found.
pub fn extract_symbols_of(
    configs: &LanguageConfigs,
    cache: &mut QueryCache,
    sources: &Sources,
    file_tree: &mut FileTree,
    symbol_table: &mut SymbolTable,
    files: &Vec<(String, Language)>,
) -> (r: usize)
    ensures
        (Indexing {
            cache: final(cache)@,
            tree: final(file_tree)@,
            table: final(symbol_table)@,
            total: r as nat,
        }) == indexed(
            Indexing {
                cache: old(cache)@,
                tree: old(file_tree)@,
                table: old(symbol_table)@,
                total: 0,
            },
            configs@,
            sources@,
            path_pairs(files@),
        ),
        well_keyed(old(symbol_table)@) ==> well_keyed(final(symbol_table)@),
{
    let ghost start = Indexing {
        cache: cache@,
        tree: file_tree@,
        table: symbol_table@,
        total: 0,
    };
    let ghost all = path_pairs(files@);
    let mut total: usize = 0;
    let mut i: usize = 0;
    assert(all.take(0) =~= Seq::empty());
    while i < files.len()
        invariant
            i <= files@.len(),
            all == path_pairs(files@),
            (Indexing {
                cache: cache@,
                tree: file_tree@,
                table: symbol_table@,
                total: total as nat,
            }) == indexed(start, configs@, sources@, all.take(i as int)),
            well_keyed(start.table) ==> well_keyed(symbol_table@),
        decreases files@.len() - i,
    {
        assert(all.take(i + 1).drop_last() =~= all.take(i as int));
        assert(all.take(i + 1).last() == (files@[i as int].0@, files@[i as int].1));
        match extract_symbols_from_file(
            configs,
            cache,
            sources,
            files[i].0.as_str(),
            files[i].1,
        ) {
            Ok(symbols) => {
                insert_symbols(symbol_table, &symbols);
                file_tree.mark_extracted(files[i].0.as_str());
                let count: usize = symbols.len();
                assert(symbol_views(symbols@).len() == count);
                total = total.saturating_add(count);
            },
            Err(_) => {},
        }
        i = i + 1;
    }
    assert(all.take(i as int) =~= all);
    total
}

/// Extracts the symbols of all files of the tree that are parsed, in the order of
/// their paths. Returns the number of symbols found.
pub fn extract_all_symbols(
    configs: &LanguageConfigs,
    cache: &mut QueryCache,
    sources: &Sources,
    file_tree: &mut FileTree,
    symbol_table: &mut SymbolTable,
) -> (r: usize)
    ensures
        (Indexing {
            cache: final(cache)@,
            tree: final(file_tree)@,
            table: final(symbol_table)@,
            total: r as nat,
        }) == indexed(
            Indexing {
                cache: old(cache)@,
                tree: old(file_tree)@,
                table: old(symbol_table)@,
                total: 0,
            },
            configs@,
            sources@,
            parsed_pairs(old(file_tree)@.files),
        ),
        well_keyed(old(symbol_table)@) ==> well_keyed(final(symbol_table)@),
{
    let files = file_tree.parsed_files();
    extract_symbols_of(configs, cache, sources, file_tree, symbol_table, &files)
}

} // verus!
