//! Listing the local variables of a function.
use vstd::prelude::*;
use crate::index::file_entry::{parsed_language, Language};
use crate::maps::min;
use crate::ops::content::{not_readable, not_readable_message};
use crate::ops::symbol_ops::lookup::{
    call_name, callable_name_for_symbol, find_symbol_for_lookup, looked_up, no_symbol,
    no_symbol_message,
};
use crate::ops::symbol_ops::{body_of, take_body};
use crate::pattern::{captures, compile, opt_views, regex_captures, regex_outcome};
use crate::sorting::{law_ordered_names, order_names, ordered_names};
use crate::sources::{read_of, ReadView, Sources};
use crate::symbols::queries::{
    cache_after_tree, config_of, get_language_config, open_tree, tree_and_query, ConfigView,
    LanguageConfigs, Queries, QueryCache, QueryKind,
};
use crate::symbols::symbol::{Symbol, SymbolView};
use crate::symbols::syntax::{
    all_lie_in, capture_number, capture_views, find_capture, is_within, lies_in, match_views,
    matches_of, node_text, query_captures, query_matches, Capture, CaptureView,
};
use crate::symbols::table::SymbolTable;
use crate::text::{
    begins_with, byte_len, byte_slice, has_text, is_among, is_upper_case, lemma_has_text_in,
    lemma_slice_in, lemma_slice_within, lemma_split_in, len_bytes, opt_view, same, split, split_of,
    starts_with, to_chars, upper_case, views,
};

verus! {

/// A variable of a function.
pub struct VariableView {
    pub name: Seq<char>,
    pub function: Seq<char>,
}

/// A variable of a function.
#[derive(Debug, PartialEq, Eq)]
pub struct VariableInfo {
    pub name: String,
    pub function: String,
}

impl View for VariableInfo {
    type V = VariableView;

    open spec fn view(&self) -> VariableView {
        VariableView { name: self.name@, function: self.function@ }
    }
}

/// The variables of a list.
pub open spec fn variable_views(v: Seq<VariableInfo>) -> Seq<VariableView> {
    v.map_values(|x: VariableInfo| x@)
}

/// The names as variables of a function.
pub open spec fn variables_of(names: Seq<Seq<char>>, function: Seq<char>) -> Seq<VariableView> {
    names.map_values(|n: Seq<char>| VariableView { name: n, function })
}

/// The names as variables of a function.
fn make_variables(names: &Vec<String>, function: &str) -> (r: Vec<VariableInfo>)
    ensures
        variable_views(r@) == variables_of(views(names@), function@),
{
    let ghost all = views(names@);
    let mut out: Vec<VariableInfo> = Vec::new();
    let mut i: usize = 0;
    while i < names.len()
        invariant
            i <= names@.len(),
            all == views(names@),
            out@.len() == i,
            forall|k: int|
                0 <= k < i ==> (#[trigger] out@[k])@ == (VariableView {
                    name: all[k],
                    function: function@,
                }),
        decreases names@.len() - i,
    {
        out.push(VariableInfo { name: names[i].clone(), function: function.to_owned() });
        i = i + 1;
    }
    assert(variable_views(out@) =~= variables_of(all, function@));
    out
}

// ---------------------------------------------------------------------------
// Variables in a text
// ---------------------------------------------------------------------------

/// The texts that are there.
pub open spec fn present(groups: Seq<Option<Seq<char>>>) -> Seq<Seq<char>>
    decreases groups.len(),
{
    if groups.len() == 0 {
        Seq::empty()
    } else {
        match groups.last() {
            Some(t) => present(groups.drop_last()).push(t),
            None => present(groups.drop_last()),
        }
    }
}

/// What a group of a pattern takes in a text, match by match.
pub open spec fn grasped(pattern: Seq<char>, text: Seq<char>, group: usize) -> Seq<Seq<char>> {
    match regex_outcome(pattern) {
        Ok(re) => present(regex_captures(re, text, group)),
        Err(_) => Seq::empty(),
    }
}

/// Every name stands in a text.
pub open spec fn all_in(names: Seq<Seq<char>>, text: Seq<char>) -> bool {
    forall|i: int| 0 <= i < names.len() ==> has_text(text, #[trigger] names[i])
}

/// What a group of a pattern takes in a text, match by match.
fn grasp(pattern: &str, text: &str, group: usize) -> (r: Vec<String>)
    ensures
        views(r@) == grasped(pattern@, text@, group),
        all_in(views(r@), text@),
{
    let mut out: Vec<String> = Vec::new();
    assert(views(out@) =~= Seq::empty());
    let re = match compile(pattern) {
        Ok(re) => re,
        Err(_) => return out,
    };
    let groups = captures(&re, text, group);
    let ghost all = opt_views(groups@);
    let mut i: usize = 0;
    assert(all.take(0) =~= Seq::empty());
    while i < groups.len()
        invariant
            i <= groups@.len(),
            all == opt_views(groups@),
            views(out@) == present(all.take(i as int)),
            all_in(views(out@), text@),
            forall|k: int|
                0 <= k < groups@.len() ==> match #[trigger] groups@[k] {
                    Some(t) => has_text(text@, t@),
                    None => true,
                },
        decreases groups@.len() - i,
    {
        let ghost before = views(out@);
        assert(all.take(i + 1).drop_last() =~= all.take(i as int));
        assert(all.take(i + 1).last() == opt_view(groups@[i as int]));
        match &groups[i] {
            Some(t) => {
                out.push(t.clone());
                assert(views(out@) =~= before.push(t@));
            },
            None => {},
        }
        i = i + 1;
    }
    assert(all.take(i as int) =~= all);
    out
}

/// A name that is listed for a language; none is empty. In Python the names of fields and private
/// names are left out, in Ruby constants, in PHP the object itself.
pub open spec fn is_listed(name: Seq<char>, language: Language) -> bool {
    name.len() > 0 && match language {
        Language::Python => name != "self"@ && !begins_with(name, "_"@),
        Language::Ruby => name != "self"@ && !upper_case(name[0]),
        Language::Php => name != "this"@,
        _ => true,
    }
}

/// Whether a name is listed for a language.
fn lists_name(name: &str, language: Language) -> (r: bool)
    ensures
        r == is_listed(name@, language),
{
    let chars = to_chars(name);
    if chars.len() == 0 {
        return false;
    }
    match language {
        Language::Python => !same(name, "self") && !starts_with(name, "_"),
        Language::Ruby => !same(name, "self") && !is_upper_case(chars[0]),
        Language::Php => !same(name, "this"),
        _ => true,
    }
}

/// The names that are listed for a language.
pub open spec fn listed_names(names: Seq<Seq<char>>, language: Language) -> Seq<Seq<char>>
    decreases names.len(),
{
    if names.len() == 0 {
        Seq::empty()
    } else if is_listed(names.last(), language) {
        listed_names(names.drop_last(), language).push(names.last())
    } else {
        listed_names(names.drop_last(), language)
    }
}

/// The names that are listed for a language.
fn keep_listed(names: &Vec<String>, language: Language) -> (r: Vec<String>)
    ensures
        views(r@) == listed_names(views(names@), language),
{
    let ghost all = views(names@);
    let mut out: Vec<String> = Vec::new();
    let mut i: usize = 0;
    assert(all.take(0) =~= Seq::empty());
    assert(views(out@) =~= Seq::empty());
    while i < names.len()
        invariant
            i <= names@.len(),
            all == views(names@),
            views(out@) == listed_names(all.take(i as int), language),
        decreases names@.len() - i,
    {
        let ghost before = views(out@);
        assert(all.take(i + 1).drop_last() =~= all.take(i as int));
        assert(all.take(i + 1).last() == names@[i as int]@);
        if lists_name(names[i].as_str(), language) {
            out.push(names[i].clone());
            assert(views(out@) =~= before.push(names@[i as int]@));
        }
        i = i + 1;
    }
    assert(all.take(i as int) =~= all);
    out
}

/// A `let` of Rust; the second group is the name.
pub const RUST_LET: &'static str = r"let\s+(mut\s+)?(\w+)";

/// An indented assignment of Python or Ruby.
pub const INDENTED_ASSIGNMENT: &'static str = r"^\s+(\w+)\s*=";

/// A declaration of TypeScript or JavaScript.
pub const SCRIPT_DECLARATION: &'static str = r"(?:let|const|var)\s+(\w+)";

/// A short declaration of Go.
pub const GO_SHORT: &'static str = r"(\w+)\s*:=";

/// A `var` of Go.
pub const GO_VAR: &'static str = r"var\s+(\w+)";

/// A declaration of Java.
pub const JAVA_DECLARATION: &'static str = r"\b(?:int|long|float|double|boolean|char|byte|short|String|var|final\s+\w+)\s+(\w+)\s*[=;,)]";

/// A `val` or `var` of Scala.
pub const SCALA_DECLARATION: &'static str = r"\b(?:val|var)\s+(\w+)";

/// The parameters of a definition of Elixir.
pub const ELIXIR_PARAMETERS: &'static str = r"\bdef(?:p|macro|macrop|guard|guardp)?\s+\w+\s*\(([^)]*)\)";

/// An assignment of Elixir.
pub const ELIXIR_ASSIGNMENT: &'static str = r"\b([a-z_][a-zA-Z0-9_]*)\s*=";

/// A binding of a generator of Elixir.
pub const ELIXIR_BINDING: &'static str = r"\b([a-z_][a-zA-Z0-9_]*)\s*<-";

/// An identifier of Elixir.
pub const ELIXIR_IDENTIFIER: &'static str = r"\b([a-z_][a-zA-Z0-9_]*)\b";

/// A variable of PHP.
pub const PHP_VARIABLE: &'static str = r"\$(\w+)";

/// A `var` or `const` of Zig.
pub const ZIG_DECLARATION: &'static str = r"\b(?:var|const)\s+(\w+)";

/// A `DECLARE` of SQL.
pub const SQL_DECLARE: &'static str = r"(?i)DECLARE\s+@?(\w+)";

/// A declaration of PL/SQL with a value.
pub const SQL_ASSIGNMENT: &'static str = r"(\w+)\s+\w+\s*:=";

/// The first identifier in each piece of a parameter list between commas.
pub open spec fn identifiers_in(pieces: Seq<Seq<char>>) -> Seq<Seq<char>>
    decreases pieces.len(),
{
    if pieces.len() == 0 {
        Seq::empty()
    } else {
        let before = identifiers_in(pieces.drop_last());
        let here = grasped(ELIXIR_IDENTIFIER@, pieces.last(), 1);
        if here.len() > 0 {
            before.push(here[0])
        } else {
            before
        }
    }
}

/// The parameters in lists of parameters.
pub open spec fn parameters_in(lists: Seq<Seq<char>>) -> Seq<Seq<char>>
    decreases lists.len(),
{
    if lists.len() == 0 {
        Seq::empty()
    } else {
        parameters_in(lists.drop_last()) + identifiers_in(split_of(lists.last(), ','))
    }
}

/// The first identifier in each piece of a parameter list, which stands in `text`.
fn list_identifiers(pieces: &Vec<String>, Ghost(text): Ghost<Seq<char>>) -> (r: Vec<String>)
    requires
        all_in(views(pieces@), text),
    ensures
        views(r@) == identifiers_in(views(pieces@)),
        all_in(views(r@), text),
{
    let ghost all = views(pieces@);
    let mut out: Vec<String> = Vec::new();
    let mut i: usize = 0;
    assert(all.take(0) =~= Seq::empty());
    assert(views(out@) =~= Seq::empty());
    while i < pieces.len()
        invariant
            i <= pieces@.len(),
            all == views(pieces@),
            views(out@) == identifiers_in(all.take(i as int)),
            all_in(all, text),
            all_in(views(out@), text),
        decreases pieces@.len() - i,
    {
        let ghost before = views(out@);
        assert(all.take(i + 1).drop_last() =~= all.take(i as int));
        assert(all.take(i + 1).last() == pieces@[i as int]@);
        let here = grasp(ELIXIR_IDENTIFIER, pieces[i].as_str(), 1);
        assert(views(here@).len() == here@.len());
        if here.len() > 0 {
            out.push(here[0].clone());
            assert(views(out@) =~= before.push(views(here@)[0]));
            proof {
                lemma_has_text_in(text, all[i as int], views(here@)[0]);
            }
        }
        i = i + 1;
    }
    assert(all.take(i as int) =~= all);
    out
}

/// The parameters in lists of parameters, which stand in `text`.
fn list_parameters(lists: &Vec<String>, Ghost(text): Ghost<Seq<char>>) -> (r: Vec<String>)
    requires
        all_in(views(lists@), text),
    ensures
        views(r@) == parameters_in(views(lists@)),
        all_in(views(r@), text),
{
    let ghost all = views(lists@);
    let mut out: Vec<String> = Vec::new();
    let mut i: usize = 0;
    assert(all.take(0) =~= Seq::empty());
    assert(views(out@) =~= Seq::empty());
    while i < lists.len()
        invariant
            i <= lists@.len(),
            all == views(lists@),
            views(out@) == parameters_in(all.take(i as int)),
            all_in(all, text),
            all_in(views(out@), text),
        decreases lists@.len() - i,
    {
        assert(all.take(i + 1).drop_last() =~= all.take(i as int));
        assert(all.take(i + 1).last() == lists@[i as int]@);
        let pieces = split(lists[i].as_str(), ',');
        proof {
            let parts = views(pieces@);
            assert forall|k: int| 0 <= k < parts.len() implies has_text(
                text,
                #[trigger] parts[k],
            ) by {
                lemma_split_in(all[i as int], ',', k);
                lemma_has_text_in(text, all[i as int], parts[k]);
            }
        }
        let here = list_identifiers(&pieces, Ghost(text));
        out = joined(out, here, Ghost(text));
        i = i + 1;
    }
    assert(all.take(i as int) =~= all);
    out
}

/// One list behind the other, both of names that stand in `text`.
fn joined(a: Vec<String>, b: Vec<String>, Ghost(text): Ghost<Seq<char>>) -> (r: Vec<String>)
    requires
        all_in(views(a@), text),
        all_in(views(b@), text),
    ensures
        views(r@) == views(a@) + views(b@),
        all_in(views(r@), text),
{
    let ghost x = views(a@);
    let ghost y = views(b@);
    let mut out = a;
    let mut rest = b;
    out.append(&mut rest);
    assert(views(out@) =~= x + y);
    out
}

/// The names that patterns find in the text of a function, as they come.
pub open spec fn names_by_pattern(body: Seq<char>, language: Language) -> Seq<Seq<char>> {
    match language {
        Language::Rust => grasped(RUST_LET@, body, 2),
        Language::Python | Language::Ruby => grasped(INDENTED_ASSIGNMENT@, body, 1),
        Language::TypeScript | Language::JavaScript => grasped(SCRIPT_DECLARATION@, body, 1),
        Language::Go => grasped(GO_SHORT@, body, 1) + grasped(GO_VAR@, body, 1),
        Language::Java => grasped(JAVA_DECLARATION@, body, 1),
        Language::Scala => grasped(SCALA_DECLARATION@, body, 1),
        Language::Elixir => parameters_in(grasped(ELIXIR_PARAMETERS@, body, 1)) + grasped(
            ELIXIR_ASSIGNMENT@,
            body,
            1,
        ) + grasped(ELIXIR_BINDING@, body, 1),
        Language::Php => grasped(PHP_VARIABLE@, body, 1),
        Language::Zig => grasped(ZIG_DECLARATION@, body, 1),
        Language::Sql => grasped(SQL_DECLARE@, body, 1) + grasped(SQL_ASSIGNMENT@, body, 1),
        _ => Seq::empty(),
    }
}

/// The names that patterns find in the text of a function, as they come.
fn find_names(body: &str, language: Language) -> (r: Vec<String>)
    ensures
        views(r@) == names_by_pattern(body@, language),
        all_in(views(r@), body@),
{
    match language {
        Language::Rust => grasp(RUST_LET, body, 2),
        Language::Python | Language::Ruby => grasp(INDENTED_ASSIGNMENT, body, 1),
        Language::TypeScript | Language::JavaScript => grasp(SCRIPT_DECLARATION, body, 1),
        Language::Go => joined(grasp(GO_SHORT, body, 1), grasp(GO_VAR, body, 1), Ghost(body@)),
        Language::Java => grasp(JAVA_DECLARATION, body, 1),
        Language::Scala => grasp(SCALA_DECLARATION, body, 1),
        Language::Elixir => {
            let lists = grasp(ELIXIR_PARAMETERS, body, 1);
            let parameters = list_parameters(&lists, Ghost(body@));
            let assigned = grasp(ELIXIR_ASSIGNMENT, body, 1);
            let bound = grasp(ELIXIR_BINDING, body, 1);
            joined(joined(parameters, assigned, Ghost(body@)), bound, Ghost(body@))
        },
        Language::Php => grasp(PHP_VARIABLE, body, 1),
        Language::Zig => grasp(ZIG_DECLARATION, body, 1),
        Language::Sql => joined(
            grasp(SQL_DECLARE, body, 1),
            grasp(SQL_ASSIGNMENT, body, 1),
            Ghost(body@),
        ),
        _ => {
            let none: Vec<String> = Vec::new();
            assert(views(none@) =~= Seq::empty());
            none
        },
    }
}

/// The variables that patterns find in the text of a function.
pub open spec fn text_variables(
    body: Seq<char>,
    language: Language,
    function: Seq<char>,
) -> Seq<VariableView> {
    variables_of(
        ordered_names(listed_names(names_by_pattern(body, language), language)),
        function,
    )
}

/// Lists the variables in the text of a function by patterns, in the order of their
/// names and each once. Each stands in the text, and none is empty.
pub fn list_variables_regex(body: &str, language: Language, function_name: &str) -> (r: Vec<
    VariableInfo,
>)
    ensures
        variable_views(r@) == text_variables(body@, language, function_name@),
        forall|i: int|
            0 <= i < r@.len() ==> has_text(body@, (#[trigger] r@[i]).name@) && r@[i].name@.len() > 0,
{
    let found = find_names(body, language);
    let kept = keep_listed(&found, language);
    let ghost listed = views(kept@);
    proof {
        lemma_listed_in(views(found@), language, body@);
        law_ordered_names(listed);
    }
    let names = order_names(kept);
    let ghost ordered = views(names@);
    let variables = make_variables(&names, function_name);
    assert(variable_views(variables@).len() == variables@.len());
    assert forall|i: int| 0 <= i < variables@.len() implies has_text(
        body@,
        (#[trigger] variables@[i]).name@,
    ) && variables@[i].name@.len() > 0 by {
        assert(variable_views(variables@)[i] == variables@[i]@);
        assert(ordered.contains(ordered[i]));
        let k = choose|k: int| 0 <= k < listed.len() && listed[k] == ordered[i];
        assert(has_text(body@, listed[k]) && listed[k].len() > 0);
    }
    variables
}

/// Leaving names out leaves the others where they stand; the empty ones are left out.
proof fn lemma_listed_in(names: Seq<Seq<char>>, language: Language, text: Seq<char>)
    requires
        all_in(names, text),
    ensures
        all_in(listed_names(names, language), text),
        forall|i: int|
            0 <= i < listed_names(names, language).len() ==> (
            #[trigger] listed_names(names, language)[i]).len() > 0,
    decreases names.len(),
{
    if names.len() > 0 {
        let rest = names.drop_last();
        assert forall|i: int| 0 <= i < rest.len() implies has_text(text, #[trigger] rest[i]) by {
            assert(has_text(text, names[i]));
        }
        lemma_listed_in(rest, language, text);
        assert(has_text(text, names[names.len() - 1]));
    }
}

// ---------------------------------------------------------------------------
// Variables in a tree
// ---------------------------------------------------------------------------

/// The names with one more: a captured name that is a variable's, within the bytes of the
/// function, and not there yet.
pub open spec fn with_name(
    names: Seq<Seq<char>>,
    capture: CaptureView,
    number: Option<int>,
    range: (usize, usize),
) -> Seq<Seq<char>> {
    let text = node_text(capture.node);
    if number == Some(capture.index as int) && is_within(capture.node, range) && text.len() > 0
        && text != "self"@ && text != "_"@ && !names.contains(text) {
        names.push(text)
    } else {
        names
    }
}

/// The names with those that the captures of a match add.
pub open spec fn with_match(
    names: Seq<Seq<char>>,
    captures: Seq<CaptureView>,
    number: Option<int>,
    range: (usize, usize),
) -> Seq<Seq<char>>
    decreases captures.len(),
{
    if captures.len() == 0 {
        names
    } else {
        with_name(
            with_match(names, captures.drop_last(), number, range),
            captures.last(),
            number,
            range,
        )
    }
}

/// The names of variables that the matches hold within the bytes of a function, each once,
/// in the order in which they come.
pub open spec fn captured_names(
    matches: Seq<Seq<CaptureView>>,
    number: Option<int>,
    range: (usize, usize),
) -> Seq<Seq<char>>
    decreases matches.len(),
{
    if matches.len() == 0 {
        Seq::empty()
    } else {
        with_match(
            captured_names(matches.drop_last(), number, range),
            matches.last(),
            number,
            range,
        )
    }
}

/// The names of variables that the matches of a query hold within the bytes of a function,
/// each once. `number` is that of the capture of variable names.
pub fn names_from_matches(
    matches: &Vec<Vec<Capture>>,
    number: Option<usize>,
    range: (usize, usize),
) -> (r: Vec<String>)
    ensures
        views(r@) == captured_names(
            match_views(matches@),
            match number {
                Some(k) => Some(k as int),
                None => None,
            },
            range,
        ),
{
    let ghost n = match number {
        Some(k) => Some(k as int),
        None => None,
    };
    let ghost all = match_views(matches@);
    let mut out: Vec<String> = Vec::new();
    let mut i: usize = 0;
    assert(all.take(0) =~= Seq::empty());
    assert(views(out@) =~= Seq::empty());
    while i < matches.len()
        invariant
            i <= matches@.len(),
            all == match_views(matches@),
            n == (match number {
                Some(k) => Some(k as int),
                None => None,
            }),
            views(out@) == captured_names(all.take(i as int), n, range),
        decreases matches@.len() - i,
    {
        let ghost before = views(out@);
        let ghost caps = capture_views(matches@[i as int]@);
        let mut j: usize = 0;
        assert(caps.take(0) =~= Seq::empty());
        while j < matches[i].len()
            invariant
                i < matches@.len(),
                j <= matches@[i as int]@.len(),
                caps == capture_views(matches@[i as int]@),
                n == (match number {
                    Some(k) => Some(k as int),
                    None => None,
                }),
                views(out@) == with_match(before, caps.take(j as int), n, range),
            decreases matches@[i as int]@.len() - j,
        {
            let ghost seen = views(out@);
            assert(caps.take(j + 1).drop_last() =~= caps.take(j as int));
            assert(caps.take(j + 1).last() == matches@[i as int]@[j as int]@);
            let is_name = match number {
                Some(k) => matches[i][j].index == k,
                None => false,
            };
            let node = &matches[i][j].node;
            if is_name && range.0 <= node.start_byte && node.end_byte <= range.1 {
                let text = node.text_or_empty();
                if !text.as_str().is_empty() && !same(text.as_str(), "self") && !same(
                    text.as_str(),
                    "_",
                ) && !is_among(&out, text.as_str()) {
                    out.push(text);
                    assert(views(out@) =~= seen.push(text@));
                }
            }
            j = j + 1;
        }
        assert(caps.take(j as int) =~= caps);
        assert(all.take(i + 1).drop_last() =~= all.take(i as int));
        assert(all.take(i + 1).last() == caps);
        i = i + 1;
    }
    assert(all.take(i as int) =~= all);
    out
}

/// The tree of a text and the query on variables, where there are both.
pub open spec fn variables_tree(
    config: Option<ConfigView>,
    cache: Queries,
    source: Seq<char>,
    language: Language,
) -> Option<(tree_sitter::Tree, tree_sitter::Query)> {
    match config {
        Some(c) => tree_and_query(
            cache,
            language,
            QueryKind::Variables,
            c.language,
            c.variables_query,
            source,
        ),
        None => None,
    }
}

/// The cache of queries once the variables of a function have been looked for.
pub open spec fn cache_after_variables(
    config: Option<ConfigView>,
    cache: Queries,
    source: Seq<char>,
    language: Language,
) -> Queries {
    match config {
        Some(c) => cache_after_tree(
            cache,
            language,
            QueryKind::Variables,
            c.language,
            c.variables_query,
            source,
        ),
        None => cache,
    }
}

/// The bytes of a symbol, as far as the text goes.
pub open spec fn bytes_of(symbol: SymbolView, source: Seq<char>) -> (usize, usize) {
    (
        symbol.byte_range.0,
        min(symbol.byte_range.1 as int, byte_len(source) as int) as usize,
    )
}

/// The variables of a function, by its tree or else by patterns in its text.
pub open spec fn function_variables(
    config: Option<ConfigView>,
    cache: Queries,
    source: Seq<char>,
    symbol: SymbolView,
) -> Seq<VariableView> {
    match (
        parsed_language(symbol.language),
        variables_tree(config, cache, source, symbol.language),
    ) {
        (true, Some((tree, query))) => variables_of(
            captured_names(
                query_matches(tree, query, source, Some(bytes_of(symbol, source))),
                capture_number(query_captures(query), "var.name"@),
                bytes_of(symbol, source),
            ),
            call_name(symbol),
        ),
        _ => text_variables(
            body_of(symbol, source)->Some_0,
            symbol.language,
            call_name(symbol),
        ),
    }
}

/// The variables of a function can be listed: there is a tree to search, or the
/// text of the function can be taken from the source.
pub open spec fn can_list(
    configs: Map<Language, ConfigView>,
    cache: Queries,
    reads: Map<Seq<char>, ReadView>,
    symbol: SymbolView,
) -> bool {
    read_of(reads, symbol.file) matches Ok(source) ==> variables_tree(
        config_of(configs, symbol.language),
        cache,
        source,
        symbol.language,
    ) is Some || body_of(symbol, source) is Some
}

/// The text of bytes, where it can be taken, holds a text; and so does the whole.
pub open spec fn stands_within(source: Seq<char>, range: (usize, usize), t: Seq<char>) -> bool {
    &&& has_text(source, t)
    &&& byte_slice(source, range.0 as int, range.1 as int) matches Some(part) ==> has_text(part, t)
}

/// Every name stands within bytes of a text, and none is empty.
pub open spec fn all_within(
    names: Seq<Seq<char>>,
    source: Seq<char>,
    range: (usize, usize),
) -> bool {
    forall|i: int|
        0 <= i < names.len() ==> stands_within(source, range, #[trigger] names[i])
            && names[i].len() > 0
}

/// The names that captures within bytes of a text hold stand there.
proof fn lemma_match_names_in(
    names: Seq<Seq<char>>,
    captures: Seq<CaptureView>,
    number: Option<int>,
    range: (usize, usize),
    source: Seq<char>,
)
    requires
        all_within(names, source, range),
        forall|j: int| 0 <= j < captures.len() ==> lies_in((#[trigger] captures[j]).node, source),
    ensures
        all_within(with_match(names, captures, number, range), source, range),
    decreases captures.len(),
{
    if captures.len() > 0 {
        let rest = captures.drop_last();
        assert forall|j: int| 0 <= j < rest.len() implies lies_in(
            (#[trigger] rest[j]).node,
            source,
        ) by {
            assert(rest[j] == captures[j]);
        }
        lemma_match_names_in(names, rest, number, range, source);
        let node = captures[captures.len() - 1].node;
        assert(lies_in(node, source));
        if node_text(node).len() > 0 && is_within(node, range) {
            lemma_slice_in(source, node.start_byte as int, node.end_byte as int);
            if byte_slice(source, range.0 as int, range.1 as int) is Some {
                lemma_slice_within(
                    source,
                    range.0 as int,
                    range.1 as int,
                    node.start_byte as int,
                    node.end_byte as int,
                );
            }
            assert(stands_within(source, range, node_text(node)));
        }
    }
}

/// The names that captures within bytes of a text hold stand there.
proof fn lemma_captured_names_in(
    matches: Seq<Seq<CaptureView>>,
    number: Option<int>,
    range: (usize, usize),
    source: Seq<char>,
)
    requires
        all_lie_in(matches, source),
    ensures
        all_within(captured_names(matches, number, range), source, range),
    decreases matches.len(),
{
    if matches.len() > 0 {
        let rest = matches.drop_last();
        let n = matches.len() - 1;
        assert forall|i: int, j: int|
            0 <= i < rest.len() && 0 <= j < rest[i].len() implies lies_in(
            (#[trigger] rest[i][j]).node,
            source,
        ) by {
            assert(rest[i][j] == matches[i][j]);
        }
        lemma_captured_names_in(rest, number, range, source);
        assert forall|j: int| 0 <= j < matches[n].len() implies lies_in(
            (#[trigger] matches[n][j]).node,
            source,
        ) by {}
        lemma_match_names_in(
            captured_names(rest, number, range),
            matches[n],
            number,
            range,
            source,
        );
    }
}

/// Lists the variables of a function by its tree, and by patterns where there is
/// none. Each stands in the function, and none is empty.
pub fn list_variables_ast(
    configs: &LanguageConfigs,
    cache: &mut QueryCache,
    source: &str,
    symbol: &Symbol,
) -> (r: Vec<VariableInfo>)
    requires
        variables_tree(
            config_of(configs@, symbol.language),
            old(cache)@,
            source@,
            symbol.language,
        ) is Some || body_of(symbol@, source@) is Some,
    ensures
        variable_views(r@) == function_variables(
            config_of(configs@, symbol.language),
            old(cache)@,
            source@,
            symbol@,
        ),
        final(cache)@ == cache_after_variables(
            config_of(configs@, symbol.language),
            old(cache)@,
            source@,
            symbol.language,
        ),
        forall|i: int|
            0 <= i < r@.len() ==> stands_within(
                source@,
                bytes_of(symbol@, source@),
                (#[trigger] r@[i]).name@,
            ) && r@[i].name@.len() > 0,
{
    let function = callable_name_for_symbol(symbol);
    match get_language_config(configs, symbol.language) {
        Some(config) => match open_tree(
            cache,
            symbol.language,
            QueryKind::Variables,
            &config.language,
            config.variables_query,
            source,
        ) {
            Some((tree, query)) => {
                let number = find_capture(query.capture_names(), "var.name");
                let total: usize = len_bytes(source);
                let end: usize = if symbol.byte_range.1 <= total {
                    symbol.byte_range.1
                } else {
                    total
                };
                let matches = matches_of(
                    &tree,
                    query.query(),
                    source,
                    Some((symbol.byte_range.0, end)),
                );
                let found = names_from_matches(&matches, number, (symbol.byte_range.0, end));
                proof {
                    lemma_captured_names_in(
                        match_views(matches@),
                        match number {
                            Some(k) => Some(k as int),
                            None => None,
                        },
                        bytes_of(symbol@, source@),
                        source@,
                    );
                }
                let variables = make_variables(&found, function.as_str());
                assert(variable_views(variables@).len() == variables@.len());
                assert forall|i: int| 0 <= i < variables@.len() implies stands_within(
                    source@,
                    bytes_of(symbol@, source@),
                    (#[trigger] variables@[i]).name@,
                ) && variables@[i].name@.len() > 0 by {
                    assert(variable_views(variables@)[i] == variables@[i]@);
                    assert(stands_within(
                        source@,
                        bytes_of(symbol@, source@),
                        views(found@)[i],
                    ));
                }
                return variables;
            },
            None => {},
        },
        None => {},
    }
    let body = take_body(symbol, source).unwrap();
    let variables = list_variables_regex(body.as_str(), symbol.language, function.as_str());
    proof {
        lemma_slice_in(
            source@,
            symbol.byte_range.0 as int,
            min(symbol.byte_range.1 as int, byte_len(source@) as int),
        );
        assert forall|i: int| 0 <= i < variables@.len() implies stands_within(
            source@,
            bytes_of(symbol@, source@),
            (#[trigger] variables@[i]).name@,
        ) && variables@[i].name@.len() > 0 by {
            assert(has_text(body@, variables@[i].name@));
            lemma_has_text_in(source@, body@, variables@[i].name@);
        }
    }
    variables
}

/// The cache of queries once the variables of a function have been asked for.
pub open spec fn cache_after_listing(
    contents: Map<Seq<char>, SymbolView>,
    configs: Map<Language, ConfigView>,
    cache: Queries,
    reads: Map<Seq<char>, ReadView>,
    name: Seq<char>,
    file: Seq<char>,
) -> Queries {
    match looked_up(contents, file, name) {
        None => cache,
        Some(s) => match read_of(reads, s.file) {
            Err(_) => cache,
            Ok(source) => cache_after_variables(
                config_of(configs, s.language),
                cache,
                source,
                s.language,
            ),
        },
    }
}

/// What asking for the variables of a function gives.
pub open spec fn variables_in(
    contents: Map<Seq<char>, SymbolView>,
    configs: Map<Language, ConfigView>,
    cache: Queries,
    reads: Map<Seq<char>, ReadView>,
    name: Seq<char>,
    file: Seq<char>,
) -> Result<Seq<VariableView>, Seq<char>> {
    match looked_up(contents, file, name) {
        None => Err(no_symbol(name, file)),
        Some(s) => match read_of(reads, s.file) {
            Err(e) => Err(not_readable(s.file, e)),
            Ok(source) => Ok(
                function_variables(config_of(configs, s.language), cache, source, s),
            ),
        },
    }
}

/// The outcome of asking for variables.
pub open spec fn variables_view(r: Result<Vec<VariableInfo>, String>) -> Result<
    Seq<VariableView>,
    Seq<char>,
> {
    match r {
        Ok(v) => Ok(variable_views(v@)),
        Err(e) => Err(e@),
    }
}

/// Lists the local variables of a function; each name stands in it. Where there is
/// no tree to search, the bytes of the function have to lie in the file as it is now.
pub fn list_variables(
    configs: &LanguageConfigs,
    cache: &mut QueryCache,
    sources: &Sources,
    symbol_table: &SymbolTable,
    function_name: &str,
    file: &str,
) -> (r: Result<Vec<VariableInfo>, String>)
    requires
        looked_up(symbol_table@, file@, function_name@) matches Some(s) ==> can_list(
            configs@,
            old(cache)@,
            sources@,
            s,
        ),
    ensures
        variables_view(r) == variables_in(
            symbol_table@,
            configs@,
            old(cache)@,
            sources@,
            function_name@,
            file@,
        ),
        final(cache)@ == cache_after_listing(
            symbol_table@,
            configs@,
            old(cache)@,
            sources@,
            function_name@,
            file@,
        ),
        r matches Ok(found) ==> (looked_up(symbol_table@, file@, function_name@) matches Some(s)
            ==> (read_of(sources@, s.file) matches Ok(source) ==> forall|i: int|
            0 <= i < found@.len() ==> stands_within(
                source,
                bytes_of(s, source),
                (#[trigger] found@[i]).name@,
            ) && found@[i].name@.len() > 0)),
{
    let symbol = match find_symbol_for_lookup(symbol_table, file, function_name) {
        Some(s) => s,
        None => return Err(no_symbol_message(function_name, file)),
    };
    let source = match sources.read(symbol.file.as_str()) {
        Ok(s) => s,
        Err(e) => return Err(not_readable_message(symbol.file.as_str(), e.as_str())),
    };
    Ok(list_variables_ast(configs, cache, source.as_str(), &symbol))
}

/// Whether the variables of a function can be listed from its source.
fn check_variables(
    configs: &LanguageConfigs,
    cache: &mut QueryCache,
    source: &str,
    symbol: &Symbol,
) -> (r: bool)
    ensures
        r == (variables_tree(
            config_of(configs@, symbol.language),
            old(cache)@,
            source@,
            symbol.language,
        ) is Some || body_of(symbol@, source@) is Some),
        final(cache)@ == cache_after_variables(
            config_of(configs@, symbol.language),
            old(cache)@,
            source@,
            symbol.language,
        ),
{
    match get_language_config(configs, symbol.language) {
        Some(config) => match open_tree(
            cache,
            symbol.language,
            QueryKind::Variables,
            &config.language,
            config.variables_query,
            source,
        ) {
            Some(_) => return true,
            None => {},
        },
        None => {},
    }
    take_body(symbol, source).is_some()
}

/// Looking for variables once more uses the same query and changes nothing.
proof fn lemma_variables_twice(
    config: Option<ConfigView>,
    cache: Queries,
    source: Seq<char>,
    symbol: SymbolView,
)
    ensures
        ({
            let next = cache_after_variables(config, cache, source, symbol.language);
            &&& variables_tree(config, next, source, symbol.language) == variables_tree(
                config,
                cache,
                source,
                symbol.language,
            )
            &&& cache_after_variables(config, next, source, symbol.language) == next
            &&& function_variables(config, next, source, symbol) == function_variables(
                config,
                cache,
                source,
                symbol,
            )
        }),
{
    let next = cache_after_variables(config, cache, source, symbol.language);
    assert(cache_after_variables(config, next, source, symbol.language) =~= next);
}

/// Lists the local variables of a function; nothing where there is no tree to
/// search and the bytes of the function do not lie in the file as it is now.
pub fn try_list_variables(
    configs: &LanguageConfigs,
    cache: &mut QueryCache,
    sources: &Sources,
    symbol_table: &SymbolTable,
    function_name: &str,
    file: &str,
) -> (r: Option<Result<Vec<VariableInfo>, String>>)
    ensures
        match r {
            Some(outcome) => {
                &&& looked_up(symbol_table@, file@, function_name@) matches Some(s) ==> can_list(
                    configs@,
                    old(cache)@,
                    sources@,
                    s,
                )
                &&& variables_view(outcome) == variables_in(
                    symbol_table@,
                    configs@,
                    old(cache)@,
                    sources@,
                    function_name@,
                    file@,
                )
            },
            None => looked_up(symbol_table@, file@, function_name@) matches Some(s) && !can_list(
                configs@,
                old(cache)@,
                sources@,
                s,
            ),
        },
        final(cache)@ == cache_after_listing(
            symbol_table@,
            configs@,
            old(cache)@,
            sources@,
            function_name@,
            file@,
        ),
{
    match find_symbol_for_lookup(symbol_table, file, function_name) {
        Some(symbol) => match sources.read(symbol.file.as_str()) {
            Ok(source) => {
                proof {
                    lemma_variables_twice(
                        config_of(configs@, symbol.language),
                        cache@,
                        source@,
                        symbol@,
                    );
                }
                if !check_variables(configs, cache, source.as_str(), &symbol) {
                    return None;
                }
            },
            Err(_) => {},
        },
        None => {},
    }
    Some(list_variables(configs, cache, sources, symbol_table, function_name, file))
}

// ---------------------------------------------------------------------------
// Laws
// ---------------------------------------------------------------------------

/// The names that a match adds are new.
proof fn lemma_match_adds_new(
    names: Seq<Seq<char>>,
    captures: Seq<CaptureView>,
    number: Option<int>,
    range: (usize, usize),
)
    requires
        names.no_duplicates(),
    ensures
        with_match(names, captures, number, range).no_duplicates(),
    decreases captures.len(),
{
    if captures.len() > 0 {
        lemma_match_adds_new(names, captures.drop_last(), number, range);
        let before = with_match(names, captures.drop_last(), number, range);
        let after = with_match(names, captures, number, range);
        assert forall|i: int, j: int|
            0 <= i < after.len() && 0 <= j < after.len() && i != j implies after[i] != after[j] by {
            if i < before.len() && j < before.len() {
                assert(before[i] != before[j]);
            } else if i < before.len() {
                assert(before.contains(before[i]));
            } else {
                assert(before.contains(before[j]));
            }
        }
    }
}

proof fn lemma_captured_names_once(
    matches: Seq<Seq<CaptureView>>,
    number: Option<int>,
    range: (usize, usize),
)
    ensures
        captured_names(matches, number, range).no_duplicates(),
    decreases matches.len(),
{
    if matches.len() > 0 {
        lemma_captured_names_once(matches.drop_last(), number, range);
        lemma_match_adds_new(
            captured_names(matches.drop_last(), number, range),
            matches.last(),
            number,
            range,
        );
    }
}

/// A variable of a function is listed once, however often it is bound.
pub proof fn law_variables_are_listed_once(
    config: Option<ConfigView>,
    cache: Queries,
    source: Seq<char>,
    symbol: SymbolView,
    i: int,
    j: int,
)
    requires
        0 <= i < j < function_variables(config, cache, source, symbol).len(),
    ensures
        function_variables(config, cache, source, symbol)[i].name != function_variables(
            config,
            cache,
            source,
            symbol,
        )[j].name,
{
    if parsed_language(symbol.language) {
        if let Some((tree, query)) = variables_tree(config, cache, source, symbol.language) {
            lemma_captured_names_once(
                query_matches(tree, query, source, Some(bytes_of(symbol, source))),
                capture_number(query_captures(query), "var.name"@),
                bytes_of(symbol, source),
            );
        }
    }
    law_ordered_names(
        listed_names(
            names_by_pattern(body_of(symbol, source)->Some_0, symbol.language),
            symbol.language,
        ),
    );
}

} // verus!
