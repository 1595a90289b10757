//! Which variables a function has.
use vstd::prelude::*;
use vstd::utf8::encode_utf8;
use crate::index::file_entry::{parsed_language, Language};
use crate::laws::captures::{is_first_named, law_capture_number, law_node_text, reads_as};
use crate::laws::text::{between_bytes, law_piece_between_bytes, law_texts_are_found, starts};
use crate::ops::symbol_ops::body_of;
use crate::ops::symbol_ops::lookup::{call_name, looked_up};
use crate::ops::symbol_ops::variables::{
    bytes_of, captured_names, function_variables, grasped, identifiers_in, is_listed, listed_names,
    names_by_pattern, parameters_in, present, text_variables, variables_in, variables_of,
    with_match, with_name, VariableView,
};
use crate::pattern::{regex_captures, regex_outcome};
use crate::sorting::{law_ordered_names, ordered_names, text_order};
use crate::sources::{read_of, ReadView};
use crate::symbols::queries::{config_of, query_for, ConfigView, Queries, QueryKind};
use crate::symbols::symbol::SymbolView;
use crate::symbols::syntax::{
    capture_number, is_within, node_text, parse_outcome, query_captures, query_matches,
    CaptureView,
};
use crate::text::{split_of, text_le, upper_case};

verus! {

// ---------------------------------------------------------------------------
// Variables that a query captures
// ---------------------------------------------------------------------------

/// A capture is a variable of a range of bytes: it is what the query names `var.name`, lies
/// within the bytes, and its text is the name, which is neither empty nor `self` nor `_`.
pub open spec fn is_variable_at(
    names: Seq<Seq<char>>,
    matches: Seq<Seq<CaptureView>>,
    i: int,
    j: int,
    start: int,
    end: int,
    name: Seq<char>,
) -> bool {
    &&& 0 <= i < matches.len()
    &&& 0 <= j < matches[i].len()
    &&& is_variable_capture(names, matches[i][j], start, end, name)
}

/// A capture is a variable.
pub open spec fn is_variable_capture(
    names: Seq<Seq<char>>,
    capture: CaptureView,
    start: int,
    end: int,
    name: Seq<char>,
) -> bool {
    &&& is_first_named(names, "var.name"@, capture.index as int)
    &&& start <= capture.node.start_byte
    &&& capture.node.end_byte <= end
    &&& reads_as(capture.node, name)
    &&& name.len() > 0
    &&& name != "self"@
    &&& name != "_"@
}

/// The names among the captures of one match.
proof fn lemma_match_names(
    names: Seq<Seq<char>>,
    before: Seq<Seq<char>>,
    captures: Seq<CaptureView>,
    range: (usize, usize),
    name: Seq<char>,
)
    ensures
        with_match(before, captures, capture_number(names, "var.name"@), range).contains(name)
            <==> before.contains(name) || exists|j: int| #![trigger captures[j]]
            0 <= j < captures.len() && is_variable_capture(
                names,
                captures[j],
                range.0 as int,
                range.1 as int,
                name,
            ),
    decreases captures.len(),
{
    let number = capture_number(names, "var.name"@);
    if captures.len() > 0 {
        let rest = captures.drop_last();
        let last = captures.last();
        let n = captures.len() - 1;
        lemma_match_names(names, before, rest, range, name);
        law_capture_number(names, "var.name"@);
        law_node_text(last.node, name);
        let so_far = with_match(before, rest, number, range);
        let all = with_match(before, captures, number, range);
        assert(all == with_name(so_far, last, number, range));
        assert(captures[n] == last);
        let text = node_text(last.node);
        let adds = number == Some(last.index as int) && is_within(last.node, range) && text.len()
            > 0 && text != "self"@ && text != "_"@;
        assert(all.contains(name) <==> so_far.contains(name) || (adds && text == name)) by {
            if so_far.contains(name) {
                let k = choose|k: int| 0 <= k < so_far.len() && so_far[k] == name;
                assert(all[k] == name);
            }
            if adds && text == name && !so_far.contains(text) {
                assert(all[so_far.len() as int] == name);
            }
            if all.contains(name) {
                let k = choose|k: int| 0 <= k < all.len() && all[k] == name;
                if k < so_far.len() {
                    assert(so_far[k] == name);
                }
            }
        }
        assert((adds && text == name) <==> is_variable_capture(
            names,
            last,
            range.0 as int,
            range.1 as int,
            name,
        ));
        if exists|j: int| #![trigger captures[j]]
            0 <= j < captures.len() && is_variable_capture(
                names,
                captures[j],
                range.0 as int,
                range.1 as int,
                name,
            ) {
            let j = choose|j: int| #![trigger captures[j]]
                0 <= j < captures.len() && is_variable_capture(
                    names,
                    captures[j],
                    range.0 as int,
                    range.1 as int,
                    name,
                );
            if j < n {
                assert(rest[j] == captures[j]);
            }
        }
        if exists|j: int| #![trigger rest[j]]
            0 <= j < rest.len() && is_variable_capture(
                names,
                rest[j],
                range.0 as int,
                range.1 as int,
                name,
            ) {
            let j = choose|j: int| #![trigger rest[j]]
                0 <= j < rest.len() && is_variable_capture(
                    names,
                    rest[j],
                    range.0 as int,
                    range.1 as int,
                    name,
                );
            assert(rest[j] == captures[j]);
        }
    }
}

/// The names that are captured are those of the variables among the captures, all of them
/// and nothing else.
pub proof fn law_captured_variables(
    names: Seq<Seq<char>>,
    matches: Seq<Seq<CaptureView>>,
    range: (usize, usize),
    name: Seq<char>,
)
    ensures
        captured_names(matches, capture_number(names, "var.name"@), range).contains(name)
            <==> exists|i: int, j: int| #[trigger]
            is_variable_at(names, matches, i, j, range.0 as int, range.1 as int, name),
    decreases matches.len(),
{
    let number = capture_number(names, "var.name"@);
    let (start, end) = (range.0 as int, range.1 as int);
    if matches.len() > 0 {
        let rest = matches.drop_last();
        let last = matches.last();
        let n = matches.len() - 1;
        assert(matches[n] == last);
        let before = captured_names(rest, number, range);
        law_captured_variables(names, rest, range, name);
        lemma_match_names(names, before, last, range, name);
        if before.contains(name) {
            let (i, j) = choose|i: int, j: int| #[trigger]
                is_variable_at(names, rest, i, j, start, end, name);
            assert(rest[i] == matches[i]);
            assert(is_variable_at(names, matches, i, j, start, end, name));
        }
        if exists|j: int| #![trigger last[j]]
            0 <= j < last.len() && is_variable_capture(names, last[j], start, end, name) {
            let j = choose|j: int| #![trigger last[j]]
                0 <= j < last.len() && is_variable_capture(names, last[j], start, end, name);
            assert(is_variable_at(names, matches, n, j, start, end, name));
        }
        if exists|i: int, j: int| #[trigger]
            is_variable_at(names, matches, i, j, start, end, name) {
            let (i, j) = choose|i: int, j: int| #[trigger]
                is_variable_at(names, matches, i, j, start, end, name);
            if i < n {
                assert(rest[i] == matches[i]);
                assert(is_variable_at(names, rest, i, j, start, end, name));
            } else {
                assert(last[j] == matches[i][j]);
            }
        }
    } else {
        assert(captured_names(matches, number, range).len() == 0);
    }
}

/// The names of matches that follow one another follow one another in the order in which
/// they are first captured: one more capture gives one more name at the end where it is a
/// variable whose name is not there yet.
pub proof fn law_variables_in_turn(
    names: Seq<Seq<char>>,
    matches: Seq<Seq<CaptureView>>,
    captures: Seq<CaptureView>,
    capture: CaptureView,
    range: (usize, usize),
    name: Seq<char>,
)
    ensures
        ({
            let number = capture_number(names, "var.name"@);
            let before = captured_names(matches, number, range);
            let here = with_match(before, captures, number, range);
            &&& captured_names(Seq::empty(), number, range).len() == 0
            &&& captured_names(matches.push(captures), number, range) == here
            &&& with_match(before, Seq::empty(), number, range) == before
            &&& is_variable_capture(names, capture, range.0 as int, range.1 as int, name)
                && !here.contains(name) ==> with_match(
                before,
                captures.push(capture),
                number,
                range,
            ) == here.push(name)
            &&& is_variable_capture(names, capture, range.0 as int, range.1 as int, name)
                && here.contains(name) ==> with_match(
                before,
                captures.push(capture),
                number,
                range,
            ) == here
            &&& (forall|n: Seq<char>|
                !#[trigger] is_variable_capture(
                    names,
                    capture,
                    range.0 as int,
                    range.1 as int,
                    n,
                )) ==> with_match(before, captures.push(capture), number, range) == here
        }),
{
    law_capture_number(names, "var.name"@);
    law_node_text(capture.node, name);
    law_node_text(capture.node, node_text(capture.node));
    assert(matches.push(captures).drop_last() =~= matches);
    assert(captures.push(capture).drop_last() =~= captures);
    assert(captures.push(capture).last() == capture);
    if forall|n: Seq<char>|
        !#[trigger] is_variable_capture(names, capture, range.0 as int, range.1 as int, n) {
        assert(!is_variable_capture(
            names,
            capture,
            range.0 as int,
            range.1 as int,
            node_text(capture.node),
        ));
    }
}

// ---------------------------------------------------------------------------
// Variables that patterns find
// ---------------------------------------------------------------------------

/// A name is what a group of a pattern takes of a text, in one of the matches.
pub open spec fn is_taken(
    pattern: Seq<char>,
    group: usize,
    text: Seq<char>,
    name: Seq<char>,
) -> bool {
    regex_outcome(pattern) matches Ok(re) && regex_captures(re, text, group).contains(Some(name))
}

/// The groups that took part are those of a list.
proof fn lemma_present(groups: Seq<Option<Seq<char>>>, name: Seq<char>)
    ensures
        present(groups).contains(name) <==> groups.contains(Some(name)),
    decreases groups.len(),
{
    if groups.len() > 0 {
        let rest = groups.drop_last();
        lemma_present(rest, name);
        let before = present(rest);
        let all = present(groups);
        assert(groups[groups.len() - 1] == groups.last());
        if all.contains(name) {
            let k = choose|k: int| 0 <= k < all.len() && all[k] == name;
            if k < before.len() {
                assert(before[k] == name);
                let i = choose|i: int| 0 <= i < rest.len() && rest[i] == Some(name);
                assert(groups[i] == Some(name));
            }
        }
        if groups.contains(Some(name)) {
            let i = choose|i: int| 0 <= i < groups.len() && groups[i] == Some(name);
            if i < rest.len() {
                assert(rest[i] == Some(name));
                let k = choose|k: int| 0 <= k < before.len() && before[k] == name;
                assert(all[k] == name);
            } else {
                assert(all[before.len() as int] == name);
            }
        }
    } else {
        assert(present(groups).len() == 0);
    }
}

/// What a pattern grasps is what its group takes.
proof fn lemma_grasped(pattern: Seq<char>, group: usize, text: Seq<char>, name: Seq<char>)
    ensures
        grasped(pattern, text, group).contains(name) <==> is_taken(pattern, group, text, name),
{
    if let Ok(re) = regex_outcome(pattern) {
        lemma_present(regex_captures(re, text, group), name);
    }
}

/// The first name that a group of a pattern takes of a text.
pub open spec fn is_first_taken(
    pattern: Seq<char>,
    group: usize,
    text: Seq<char>,
    name: Seq<char>,
    k: int,
) -> bool {
    regex_outcome(pattern) matches Ok(re) && {
        let groups = regex_captures(re, text, group);
        &&& 0 <= k < groups.len()
        &&& groups[k] == Some(name)
        &&& forall|j: int| 0 <= j < k ==> (#[trigger] groups[j]) is None
    }
}

/// The first of the groups that took part.
proof fn lemma_first_present(groups: Seq<Option<Seq<char>>>, name: Seq<char>)
    ensures
        present(groups).len() > 0 && present(groups)[0] == name <==> exists|k: int|
            0 <= k < groups.len() && (#[trigger] groups[k]) == Some(name) && forall|j: int|
                0 <= j < k ==> (#[trigger] groups[j]) is None,
        present(groups).len() == 0 <==> forall|j: int|
            0 <= j < groups.len() ==> (#[trigger] groups[j]) is None,
    decreases groups.len(),
{
    if groups.len() > 0 {
        let rest = groups.drop_last();
        let n = groups.len() - 1;
        lemma_first_present(rest, name);
        let before = present(rest);
        let all = present(groups);
        assert(groups[n] == groups.last());
        assert(forall|j: int| 0 <= j < n ==> rest[j] == groups[j]);
        if before.len() > 0 {
            assert(all[0] == before[0]);
            let some = choose|j: int| 0 <= j < rest.len() && (#[trigger] rest[j]) is Some;
            assert(groups[some] is Some);
            if before[0] == name {
                let k = choose|k: int|
                    0 <= k < rest.len() && (#[trigger] rest[k]) == Some(name) && forall|j: int|
                        0 <= j < k ==> (#[trigger] rest[j]) is None;
                assert(groups[k] == Some(name));
                assert forall|j: int| 0 <= j < k implies (#[trigger] groups[j]) is None by {
                    assert(rest[j] is None);
                }
            }
            if exists|k: int|
                0 <= k < groups.len() && (#[trigger] groups[k]) == Some(name) && forall|j: int|
                    0 <= j < k ==> (#[trigger] groups[j]) is None {
                let k = choose|k: int|
                    0 <= k < groups.len() && (#[trigger] groups[k]) == Some(name) && forall|
                        j: int,
                    |
                        0 <= j < k ==> (#[trigger] groups[j]) is None;
                assert(k <= some);
                assert(rest[k] == Some(name));
                assert forall|j: int| 0 <= j < k implies (#[trigger] rest[j]) is None by {
                    assert(groups[j] is None);
                }
            }
        } else {
            assert forall|j: int| 0 <= j < n implies (#[trigger] groups[j]) is None by {
                assert(rest[j] is None);
            }
            if groups[n] is Some {
                assert(all[0] == groups[n]->0);
            }
        }
    } else {
        assert(present(groups).len() == 0);
    }
}

/// A name is the first identifier of one of the pieces of a parameter list.
pub open spec fn is_identifier_of(pieces: Seq<Seq<char>>, i: int, k: int, name: Seq<char>) -> bool {
    &&& 0 <= i < pieces.len()
    &&& is_first_taken(r"\b([a-z_][a-zA-Z0-9_]*)\b"@, 1, pieces[i], name, k)
}

/// The identifiers of the pieces of a list.
proof fn lemma_identifiers(pieces: Seq<Seq<char>>, name: Seq<char>)
    ensures
        identifiers_in(pieces).contains(name) <==> exists|i: int, k: int| #[trigger]
            is_identifier_of(pieces, i, k, name),
    decreases pieces.len(),
{
    let all = identifiers_in(pieces);
    let pattern = r"\b([a-z_][a-zA-Z0-9_]*)\b"@;
    if pieces.len() > 0 {
        let rest = pieces.drop_last();
        let last = pieces.last();
        let n = pieces.len() - 1;
        assert(pieces[n] == last);
        lemma_identifiers(rest, name);
        let before = identifiers_in(rest);
        let here = grasped(pattern, last, 1);
        if let Ok(re) = regex_outcome(pattern) {
            lemma_first_present(regex_captures(re, last, 1), name);
        }
        if all.contains(name) {
            let m = choose|m: int| 0 <= m < all.len() && all[m] == name;
            if m < before.len() {
                assert(before[m] == name);
                let (i, k) = choose|i: int, k: int| #[trigger] is_identifier_of(rest, i, k, name);
                assert(rest[i] == pieces[i]);
                assert(is_identifier_of(pieces, i, k, name));
            } else {
                assert(here.len() > 0 && here[0] == name);
                let groups = regex_captures(regex_outcome(pattern)->Ok_0, last, 1);
                let k = choose|k: int|
                    0 <= k < groups.len() && (#[trigger] groups[k]) == Some(name) && forall|
                        j: int,
                    |
                        0 <= j < k ==> (#[trigger] groups[j]) is None;
                assert(is_identifier_of(pieces, n, k, name));
            }
        }
        if exists|i: int, k: int| #[trigger] is_identifier_of(pieces, i, k, name) {
            let (i, k) = choose|i: int, k: int| #[trigger] is_identifier_of(pieces, i, k, name);
            if i < n {
                assert(rest[i] == pieces[i]);
                assert(is_identifier_of(rest, i, k, name));
                let m = choose|m: int| 0 <= m < before.len() && before[m] == name;
                assert(all[m] == name);
            } else {
                let groups = regex_captures(regex_outcome(pattern)->Ok_0, last, 1);
                assert(groups[k] == Some(name));
                assert(here.len() > 0 && here[0] == name);
                assert(all[before.len() as int] == name);
            }
        }
    } else {
        assert(all.len() == 0);
    }
}

/// A name is an identifier of one of the parameter lists.
pub open spec fn is_parameter_of(
    lists: Seq<Seq<char>>,
    l: int,
    i: int,
    k: int,
    name: Seq<char>,
) -> bool {
    0 <= l < lists.len() && is_identifier_of(split_of(lists[l], ','), i, k, name)
}

/// The identifiers of all parameter lists.
proof fn lemma_parameters(lists: Seq<Seq<char>>, name: Seq<char>)
    ensures
        parameters_in(lists).contains(name) <==> exists|l: int, i: int, k: int| #[trigger]
            is_parameter_of(lists, l, i, k, name),
    decreases lists.len(),
{
    let all = parameters_in(lists);
    if lists.len() > 0 {
        let rest = lists.drop_last();
        let n = lists.len() - 1;
        let last = lists.last();
        assert(lists[n] == last);
        lemma_parameters(rest, name);
        lemma_identifiers(split_of(last, ','), name);
        let before = parameters_in(rest);
        let here = identifiers_in(split_of(last, ','));
        assert(all == before + here);
        if all.contains(name) {
            let m = choose|m: int| 0 <= m < all.len() && all[m] == name;
            if m < before.len() {
                assert(before[m] == name);
                let (l, i, k) = choose|l: int, i: int, k: int| #[trigger]
                    is_parameter_of(rest, l, i, k, name);
                assert(rest[l] == lists[l]);
                assert(is_parameter_of(lists, l, i, k, name));
            } else {
                assert(here[m - before.len()] == name);
                let (i, k) = choose|i: int, k: int| #[trigger]
                    is_identifier_of(split_of(last, ','), i, k, name);
                assert(is_parameter_of(lists, n, i, k, name));
            }
        }
        if exists|l: int, i: int, k: int| #[trigger] is_parameter_of(lists, l, i, k, name) {
            let (l, i, k) = choose|l: int, i: int, k: int| #[trigger]
                is_parameter_of(lists, l, i, k, name);
            if l < n {
                assert(rest[l] == lists[l]);
                assert(is_parameter_of(rest, l, i, k, name));
                let m = choose|m: int| 0 <= m < before.len() && before[m] == name;
                assert(all[m] == name);
            } else {
                assert(is_identifier_of(split_of(last, ','), i, k, name));
                let m = choose|m: int| 0 <= m < here.len() && here[m] == name;
                assert(all[before.len() + m] == name);
            }
        }
    } else {
        assert(all.len() == 0);
    }
}

/// A name is a parameter of a definition of Elixir: the first identifier of a piece between
/// commas of a list that stands in brackets behind the name of a function.
pub open spec fn is_elixir_parameter(body: Seq<char>, name: Seq<char>) -> bool {
    exists|list: Seq<char>, i: int, k: int| #[trigger]
        is_elixir_parameter_in(body, list, i, k, name)
}

/// A name is a parameter in a list of parameters of Elixir.
pub open spec fn is_elixir_parameter_in(
    body: Seq<char>,
    list: Seq<char>,
    i: int,
    k: int,
    name: Seq<char>,
) -> bool {
    &&& is_taken(
        r"\bdef(?:p|macro|macrop|guard|guardp)?\s+\w+\s*\(([^)]*)\)"@,
        1,
        body,
        list,
    )
    &&& is_identifier_of(split_of(list, ','), i, k, name)
}

/// The names that a text of a language gives, by the patterns of the language.
pub open spec fn is_found_by_pattern(
    body: Seq<char>,
    language: Language,
    name: Seq<char>,
) -> bool {
    match language {
        Language::Rust => is_taken(r"let\s+(mut\s+)?(\w+)"@, 2, body, name),
        Language::Python | Language::Ruby => is_taken(r"^\s+(\w+)\s*="@, 1, body, name),
        Language::TypeScript | Language::JavaScript => is_taken(
            r"(?:let|const|var)\s+(\w+)"@,
            1,
            body,
            name,
        ),
        Language::Go => {
            ||| is_taken(r"(\w+)\s*:="@, 1, body, name)
            ||| is_taken(r"var\s+(\w+)"@, 1, body, name)
        },
        Language::Java => is_taken(
            r"\b(?:int|long|float|double|boolean|char|byte|short|String|var|final\s+\w+)\s+(\w+)\s*[=;,)]"@,
            1,
            body,
            name,
        ),
        Language::Scala => is_taken(r"\b(?:val|var)\s+(\w+)"@, 1, body, name),
        Language::Elixir => {
            ||| is_elixir_parameter(body, name)
            ||| is_taken(r"\b([a-z_][a-zA-Z0-9_]*)\s*="@, 1, body, name)
            ||| is_taken(r"\b([a-z_][a-zA-Z0-9_]*)\s*<-"@, 1, body, name)
        },
        Language::Php => is_taken(r"\$(\w+)"@, 1, body, name),
        Language::Zig => is_taken(r"\b(?:var|const)\s+(\w+)"@, 1, body, name),
        Language::Sql => {
            ||| is_taken(r"(?i)DECLARE\s+@?(\w+)"@, 1, body, name)
            ||| is_taken(r"(\w+)\s+\w+\s*:="@, 1, body, name)
        },
        _ => false,
    }
}

/// A list of two has what either has.
proof fn lemma_of_two(a: Seq<Seq<char>>, b: Seq<Seq<char>>, name: Seq<char>)
    ensures
        (a + b).contains(name) <==> a.contains(name) || b.contains(name),
{
    let all = a + b;
    if a.contains(name) {
        let i = choose|i: int| 0 <= i < a.len() && a[i] == name;
        assert(all[i] == name);
    }
    if b.contains(name) {
        let i = choose|i: int| 0 <= i < b.len() && b[i] == name;
        assert(all[a.len() + i] == name);
    }
    if all.contains(name) {
        let i = choose|i: int| 0 <= i < all.len() && all[i] == name;
        if i < a.len() {
            assert(a[i] == name);
        } else {
            assert(b[i - a.len()] == name);
        }
    }
}

/// The parameters that patterns find in a text of Elixir.
proof fn lemma_elixir_parameters(body: Seq<char>, name: Seq<char>)
    ensures
        parameters_in(
            grasped(r"\bdef(?:p|macro|macrop|guard|guardp)?\s+\w+\s*\(([^)]*)\)"@, body, 1),
        ).contains(name) <==> is_elixir_parameter(body, name),
{
    let pattern = r"\bdef(?:p|macro|macrop|guard|guardp)?\s+\w+\s*\(([^)]*)\)"@;
    let lists = grasped(pattern, body, 1);
    lemma_parameters(lists, name);
    if exists|l: int, i: int, k: int| #[trigger] is_parameter_of(lists, l, i, k, name) {
        let (l, i, k) = choose|l: int, i: int, k: int| #[trigger]
            is_parameter_of(lists, l, i, k, name);
        assert(lists.contains(lists[l]));
        lemma_grasped(pattern, 1, body, lists[l]);
        assert(is_elixir_parameter_in(body, lists[l], i, k, name));
    }
    if is_elixir_parameter(body, name) {
        let (list, i, k) = choose|list: Seq<char>, i: int, k: int| #[trigger]
            is_elixir_parameter_in(body, list, i, k, name);
        lemma_grasped(pattern, 1, body, list);
        let l = choose|l: int| 0 <= l < lists.len() && lists[l] == list;
        assert(is_parameter_of(lists, l, i, k, name));
    }
}

/// Which names patterns find.
pub proof fn law_names_by_pattern(body: Seq<char>, language: Language, name: Seq<char>)
    ensures
        names_by_pattern(body, language).contains(name) <==> is_found_by_pattern(
            body,
            language,
            name,
        ),
{
    match language {
        Language::Rust => lemma_grasped(r"let\s+(mut\s+)?(\w+)"@, 2, body, name),
        Language::Python | Language::Ruby => lemma_grasped(r"^\s+(\w+)\s*="@, 1, body, name),
        Language::TypeScript | Language::JavaScript => lemma_grasped(
            r"(?:let|const|var)\s+(\w+)"@,
            1,
            body,
            name,
        ),
        Language::Go => {
            lemma_grasped(r"(\w+)\s*:="@, 1, body, name);
            lemma_grasped(r"var\s+(\w+)"@, 1, body, name);
            lemma_of_two(
                grasped(r"(\w+)\s*:="@, body, 1),
                grasped(r"var\s+(\w+)"@, body, 1),
                name,
            );
        },
        Language::Java => lemma_grasped(
            r"\b(?:int|long|float|double|boolean|char|byte|short|String|var|final\s+\w+)\s+(\w+)\s*[=;,)]"@,
            1,
            body,
            name,
        ),
        Language::Scala => lemma_grasped(r"\b(?:val|var)\s+(\w+)"@, 1, body, name),
        Language::Elixir => {
            let a = parameters_in(
                grasped(r"\bdef(?:p|macro|macrop|guard|guardp)?\s+\w+\s*\(([^)]*)\)"@, body, 1),
            );
            let b = grasped(r"\b([a-z_][a-zA-Z0-9_]*)\s*="@, body, 1);
            let c = grasped(r"\b([a-z_][a-zA-Z0-9_]*)\s*<-"@, body, 1);
            lemma_elixir_parameters(body, name);
            lemma_grasped(r"\b([a-z_][a-zA-Z0-9_]*)\s*="@, 1, body, name);
            lemma_grasped(r"\b([a-z_][a-zA-Z0-9_]*)\s*<-"@, 1, body, name);
            lemma_of_two(a, b, name);
            lemma_of_two(a + b, c, name);
        },
        Language::Php => lemma_grasped(r"\$(\w+)"@, 1, body, name),
        Language::Zig => lemma_grasped(r"\b(?:var|const)\s+(\w+)"@, 1, body, name),
        Language::Sql => {
            lemma_grasped(r"(?i)DECLARE\s+@?(\w+)"@, 1, body, name);
            lemma_grasped(r"(\w+)\s+\w+\s*:="@, 1, body, name);
            lemma_of_two(
                grasped(r"(?i)DECLARE\s+@?(\w+)"@, body, 1),
                grasped(r"(\w+)\s+\w+\s*:="@, body, 1),
                name,
            );
        },
        _ => {
            assert(names_by_pattern(body, language).len() == 0);
        },
    }
}

/// A name that is found is listed: it is not empty, and not what the language calls the
/// object itself; in Python it does not start with `_`, in Ruby not with a capital.
pub open spec fn is_own_name(name: Seq<char>, language: Language) -> bool {
    &&& name.len() > 0
    &&& language == Language::Python ==> name != "self"@ && !starts(name, "_"@)
    &&& language == Language::Ruby ==> name != "self"@ && !upper_case(name[0])
    &&& language == Language::Php ==> name != "this"@
}

/// The names of a list that are listed.
proof fn lemma_listed(names: Seq<Seq<char>>, language: Language, name: Seq<char>)
    ensures
        listed_names(names, language).contains(name) <==> names.contains(name) && is_own_name(
            name,
            language,
        ),
    decreases names.len(),
{
    law_texts_are_found(name, "_"@);
    assert(is_listed(name, language) <==> is_own_name(name, language));
    let all = listed_names(names, language);
    if names.len() > 0 {
        let rest = names.drop_last();
        let n = names.len() - 1;
        assert(names[n] == names.last());
        lemma_listed(rest, language, name);
        let before = listed_names(rest, language);
        if all.contains(name) {
            let k = choose|k: int| 0 <= k < all.len() && all[k] == name;
            if k < before.len() {
                assert(before[k] == name);
                let i = choose|i: int| 0 <= i < rest.len() && rest[i] == name;
                assert(names[i] == name);
            }
        }
        if names.contains(name) && is_own_name(name, language) {
            let i = choose|i: int| 0 <= i < names.len() && names[i] == name;
            if i < n {
                assert(rest[i] == name);
                let k = choose|k: int| 0 <= k < before.len() && before[k] == name;
                assert(all[k] == name);
            } else {
                assert(all[before.len() as int] == name);
            }
        }
    } else {
        assert(all.len() == 0);
    }
}

/// The variables that patterns find in the text of a function: the names that they find and
/// that are listed, in order, each once, and each for the function.
pub proof fn law_text_variables(
    body: Seq<char>,
    language: Language,
    function: Seq<char>,
    v: VariableView,
)
    ensures
        ({
            let found = text_variables(body, language, function);
            &&& found.contains(v) <==> v.function == function && is_found_by_pattern(
                body,
                language,
                v.name,
            ) && is_own_name(v.name, language)
            &&& forall|i: int, j: int|
                0 <= i < j < found.len() ==> text_le(
                    (#[trigger] found[i]).name,
                    (#[trigger] found[j]).name,
                ) && found[i].name != found[j].name
        }),
{
    let names = listed_names(names_by_pattern(body, language), language);
    let ordered = ordered_names(names);
    let found = text_variables(body, language, function);
    law_names_by_pattern(body, language, v.name);
    lemma_listed(names_by_pattern(body, language), language, v.name);
    law_ordered_names(names);
    assert(ordered.contains(v.name) <==> names.contains(v.name));
    lemma_variables_of(ordered, function, v);
    assert forall|i: int, j: int| 0 <= i < j < found.len() implies text_le(
        (#[trigger] found[i]).name,
        (#[trigger] found[j]).name,
    ) && found[i].name != found[j].name by {
        assert(text_order()(ordered[i], ordered[j]));
    }
}

/// The names as variables of a function.
proof fn lemma_variables_of(names: Seq<Seq<char>>, function: Seq<char>, v: VariableView)
    ensures
        variables_of(names, function).contains(v) <==> names.contains(v.name) && v.function
            == function,
{
    let all = variables_of(names, function);
    if all.contains(v) {
        let i = choose|i: int| 0 <= i < all.len() && all[i] == v;
        assert(names[i] == v.name);
    }
    if names.contains(v.name) && v.function == function {
        let i = choose|i: int| 0 <= i < names.len() && names[i] == v.name;
        assert(all[i] == v);
    }
}

// ---------------------------------------------------------------------------
// The variables of a function
// ---------------------------------------------------------------------------

/// The matches of the query for variables in the bytes of a function, with the names of its
/// captures: none where the language is not parsed or not configured, or the text or the
/// query cannot be had.
pub open spec fn variables_captured(
    configs: Map<Language, ConfigView>,
    cache: Queries,
    source: Seq<char>,
    s: SymbolView,
    end: usize,
) -> Option<(Seq<Seq<char>>, Seq<Seq<CaptureView>>)> {
    let language = s.language;
    if parsed_language(language) && configs.contains_key(language) {
        let c = configs[language];
        match (
            parse_outcome(c.language, source),
            query_for(cache, language, QueryKind::Variables, c.language, c.variables_query),
        ) {
            (Ok(tree), Ok(query)) => Some(
                (
                    query_captures(query),
                    query_matches(tree, query, source, Some((s.byte_range.0, end))),
                ),
            ),
            _ => None,
        }
    } else {
        None
    }
}

/// The byte at which a function ends, as far as its file goes.
pub open spec fn end_in(s: SymbolView, source: Seq<char>) -> int {
    if s.byte_range.1 <= encode_utf8(source).len() {
        s.byte_range.1 as int
    } else {
        encode_utf8(source).len() as int
    }
}

/// A name is that of a variable of a function: a capture of the query for variables within
/// the bytes of the function, or, where nothing can be captured, a name that patterns find
/// in its text.
pub open spec fn is_variable_of(
    name: Seq<char>,
    configs: Map<Language, ConfigView>,
    cache: Queries,
    source: Seq<char>,
    s: SymbolView,
) -> bool {
    let end = end_in(s, source);
    match variables_captured(configs, cache, source, s, end as usize) {
        Some((names, matches)) => exists|i: int, j: int| #[trigger]
            is_variable_at(names, matches, i, j, s.byte_range.0 as int, end, name),
        None => exists|body: Seq<char>| #[trigger]
            between_bytes(source, body, s.byte_range.0 as int, end) && is_found_by_pattern(
                body,
                s.language,
                name,
            ) && is_own_name(name, s.language),
    }
}

/// The variables of a function are those of the symbol that the name means, all of them and
/// nothing else, each under the name by which the function is called. Errors say what was
/// asked for, or why the file cannot be read.
pub proof fn law_variables(
    contents: Map<Seq<char>, SymbolView>,
    configs: Map<Language, ConfigView>,
    cache: Queries,
    reads: Map<Seq<char>, ReadView>,
    name: Seq<char>,
    file: Seq<char>,
    v: VariableView,
)
    requires
        looked_up(contents, file, name) matches Some(s) ==> (read_of(reads, s.file) matches Ok(
            source,
        ) ==> body_of(s, source) is Some),
    ensures
        match variables_in(contents, configs, cache, reads, name, file) {
            Ok(found) => looked_up(contents, file, name) matches Some(s) && read_of(
                reads,
                s.file,
            ) matches Ok(source) && {
                found.contains(v) <==> v.function == call_name(s) && is_variable_of(
                    v.name,
                    configs,
                    cache,
                    source,
                    s,
                )
            },
            Err(e) => match looked_up(contents, file, name) {
                None => e == "Symbol '"@ + name + "' not found in '"@ + file + "'"@,
                Some(s) => read_of(reads, s.file) matches Err(why) && e == "Failed to read '"@
                    + s.file + "': "@ + why,
            },
        },
{
    if let Some(s) = looked_up(contents, file, name) {
        if let Ok(source) = read_of(reads, s.file) {
            let end = end_in(s, source);
            let found = function_variables(config_of(configs, s.language), cache, source, s);
            assert(bytes_of(s, source) == (s.byte_range.0, end as usize));
            match variables_captured(configs, cache, source, s, end as usize) {
                Some((names, matches)) => {
                    let range = (s.byte_range.0, end as usize);
                    law_captured_variables(names, matches, range, v.name);
                    lemma_variables_of(
                        captured_names(matches, capture_number(names, "var.name"@), range),
                        call_name(s),
                        v,
                    );
                },
                None => {
                    let body = body_of(s, source)->Some_0;
                    law_text_variables(body, s.language, call_name(s), v);
                    assert forall|b: Seq<char>| #[trigger]
                        between_bytes(source, b, s.byte_range.0 as int, end) <==> b == body by {
                        law_piece_between_bytes(source, b, s.byte_range.0 as int, end);
                    }
                    assert(between_bytes(source, body, s.byte_range.0 as int, end));
                },
            }
        }
    }
}

} // verus!
