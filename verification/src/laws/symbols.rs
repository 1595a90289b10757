//! Which symbols are listed, found and read.
use vstd::prelude::*;
use vstd::utf8::encode_utf8;
use crate::laws::lists::{law_first_of, lemma_filter_members, lemma_first_members};
use crate::laws::lookup::{lemma_values, law_symbols_of_a_file};
use crate::laws::text::{
    between_bytes, holds, is_around, law_piece_between_bytes, law_texts_are_found,
};
use crate::maps::{first_of, lists_in_order, sorted_keys, values_in_order};
use crate::ops::symbol_ops::lookup::{lemma_place_order, place_order};
use crate::ops::symbol_ops::{
    body_of, define_error, found_by_name, found_by_signature, found_symbols, has_key_of,
    implementation, listed, meant_symbol, of_kind, passes, redefine_error, with_definition,
};
use crate::sorting::{lemma_sorted_by, lemma_sorted_members, sorted_by};
use crate::sources::{read_of, ReadView};
use crate::symbols::symbol::{SymbolKind, SymbolView};
use crate::symbols::table::{
    in_file, key_of, name_matches, named, well_keyed, with_symbol, without_file,
};
use crate::text::{has_text, lowercase, text_le};

verus! {

/// A symbol is one of a table.
pub open spec fn is_in(contents: Map<Seq<char>, SymbolView>, s: SymbolView) -> bool {
    exists|k: Seq<char>| #[trigger] contents.contains_key(k) && contents[k] == s
}

/// The values of a table are its symbols.
proof fn lemma_is_in(contents: Map<Seq<char>, SymbolView>, s: SymbolView)
    requires
        lists_in_order(sorted_keys(contents), contents),
    ensures
        values_in_order(contents).contains(s) <==> is_in(contents, s),
        contents.values().contains(s) <==> is_in(contents, s),
{
    lemma_values(contents);
    let all = values_in_order(contents);
    if all.contains(s) {
        let i = choose|i: int| 0 <= i < all.len() && all[i] == s;
        assert(contents.contains_key(sorted_keys(contents)[i]));
    }
    if is_in(contents, s) {
        let k = choose|k: Seq<char>| #[trigger] contents.contains_key(k) && contents[k] == s;
        assert(all.contains(contents[k]));
    }
}

// ---------------------------------------------------------------------------
// Listing
// ---------------------------------------------------------------------------

/// A symbol is one to list: of the kind and of the file that were asked for.
pub open spec fn is_asked_for(
    s: SymbolView,
    kind: Option<SymbolKind>,
    file: Option<Seq<char>>,
) -> bool {
    &&& kind matches Some(k) ==> s.kind == k
    &&& file matches Some(f) ==> s.file == f
}

/// The symbols that are listed are those of the kind and the file that were asked for, by
/// file and then by line, no more than were asked for, and all of them where fewer are
/// listed.
pub proof fn law_listed(
    contents: Map<Seq<char>, SymbolView>,
    kind: Option<SymbolKind>,
    file: Option<Seq<char>>,
    limit: int,
    s: SymbolView,
)
    requires
        lists_in_order(sorted_keys(contents), contents),
        0 <= limit,
    ensures
        ({
            let found = listed(contents, kind, file, limit);
            &&& found.len() <= limit
            &&& found.contains(s) ==> is_in(contents, s) && is_asked_for(s, kind, file)
            &&& is_in(contents, s) && is_asked_for(s, kind, file) && found.len() < limit
                ==> found.contains(s)
            &&& forall|i: int, j: int|
                0 <= i < j < found.len() ==> {
                    let (a, b) = (#[trigger] found[i], #[trigger] found[j]);
                    if a.file == b.file {
                        a.line_range.0 <= b.line_range.0
                    } else {
                        text_le(a.file, b.file)
                    }
                }
        }),
{
    let base = match file {
        Some(f) => in_file(contents, f),
        None => values_in_order(contents),
    };
    let p = |s: SymbolView| kind is None || kind == Some(s.kind);
    let all = of_kind(contents, kind, file);
    assert(all == base.filter(p));
    lemma_is_in(contents, s);
    if let Some(f) = file {
        law_symbols_of_a_file(contents, f);
        assert(in_file(contents, f).contains(s) <==> contents.values().contains(s) && s.file
            == f);
    }
    lemma_filter_members(base, p);
    assert(all.contains(s) <==> base.contains(s) && p(s));
    let ordered = sorted_by(all, place_order());
    lemma_place_order();
    lemma_sorted_by(all, place_order());
    lemma_sorted_members(all, place_order());
    assert(ordered.contains(s) <==> all.contains(s));
    law_first_of(ordered, limit);
    lemma_first_members(ordered, limit, s);
    let found = listed(contents, kind, file, limit);
    assert forall|i: int, j: int| 0 <= i < j < found.len() implies {
        let (a, b) = (#[trigger] found[i], #[trigger] found[j]);
        if a.file == b.file {
            a.line_range.0 <= b.line_range.0
        } else {
            text_le(a.file, b.file)
        }
    } by {
        assert(found[i] == ordered[i] && found[j] == ordered[j]);
        assert(place_order()(ordered[i], ordered[j]));
    }
}

// ---------------------------------------------------------------------------
// Searching
// ---------------------------------------------------------------------------

/// Letter case aside, the name of a symbol has the text searched for.
pub open spec fn has_in_name(s: SymbolView, query: Seq<char>) -> bool {
    holds(lowercase(s.name), lowercase(query))
}

/// Letter case aside, the signature of a symbol has the text searched for.
pub open spec fn has_in_signature(s: SymbolView, query: Seq<char>) -> bool {
    holds(lowercase(s.signature), lowercase(query))
}

/// The path of a symbol's file has the text that files are filtered by.
pub open spec fn is_in_files(s: SymbolView, filter: Option<Seq<char>>) -> bool {
    filter matches Some(f) ==> holds(s.file, f)
}

/// Which files pass a filter.
proof fn lemma_passes(s: SymbolView, filter: Option<Seq<char>>)
    ensures
        passes(s.file, filter) <==> is_in_files(s, filter),
{
    if let Some(f) = filter {
        law_texts_are_found(s.file, f);
        if s.file == f {
            let none = Seq::<char>::empty();
            assert(s.file =~= none + f + none);
            assert(is_around(s.file, none, f, none));
        }
    }
}

/// How many of the symbols with the text in their names are looked through: as many as were
/// asked for, and five times as many where files are filtered.
pub open spec fn looked_through(limit: int, filter: Option<Seq<char>>) -> int {
    if filter is Some {
        5 * limit
    } else {
        limit
    }
}

/// Which symbols a search finds by name.
proof fn lemma_named(
    contents: Map<Seq<char>, SymbolView>,
    query: Seq<char>,
    limit: int,
    filter: Option<Seq<char>>,
    s: SymbolView,
)
    requires
        lists_in_order(sorted_keys(contents), contents),
        0 <= limit,
    ensures
        named(contents, query).contains(s) <==> is_in(contents, s) && has_in_name(s, query),
        found_by_name(contents, query, limit, filter).contains(s) ==> is_in(contents, s)
            && has_in_name(s, query) && is_in_files(s, filter),
        is_in(contents, s) && has_in_name(s, query) && is_in_files(s, filter) ==> found_by_name(
            contents,
            query,
            limit,
            filter,
        ).contains(s) || named(contents, query).len() > looked_through(limit, filter),
{
    let all = values_in_order(contents);
    let p = |s: SymbolView| name_matches(s, query);
    let q = |s: SymbolView| passes(s.file, filter);
    let many = looked_through(limit, filter);
    lemma_is_in(contents, s);
    lemma_filter_members(all, p);
    law_texts_are_found(lowercase(s.name), lowercase(query));
    assert(named(contents, query).contains(s) <==> all.contains(s) && p(s));
    let first = first_of(named(contents, query), many);
    lemma_first_members(named(contents, query), many, s);
    lemma_filter_members(first, q);
    lemma_passes(s, filter);
    assert(first.filter(q).contains(s) <==> first.contains(s) && q(s));
    if first.len() == many && !first.contains(s) {
        assert(named(contents, query).len() >= many);
        if named(contents, query).len() == many {
            assert(first =~= named(contents, query));
        }
    }
}

/// What a search finds. Each symbol found is one of the table in a file that was asked for,
/// with the text in its name or in its signature, letter case aside; those found by name
/// come first. Where fewer are found than asked for, every symbol with the text in its
/// signature is found, and every symbol with the text in its name as long as no more have
/// it than are looked through.
pub proof fn law_found_symbols(
    contents: Map<Seq<char>, SymbolView>,
    query: Seq<char>,
    limit: int,
    filter: Option<Seq<char>>,
    s: SymbolView,
)
    requires
        lists_in_order(sorted_keys(contents), contents),
        well_keyed(contents),
        0 <= limit,
    ensures
        ({
            let found = found_symbols(contents, query, limit, filter);
            &&& found.len() <= limit
            &&& found.contains(s) ==> is_in(contents, s) && is_in_files(s, filter) && (has_in_name(
                s,
                query,
            ) || has_in_signature(s, query))
            &&& is_in(contents, s) && is_in_files(s, filter) && has_in_signature(s, query)
                && found.len() < limit ==> found.contains(s)
            &&& is_in(contents, s) && is_in_files(s, filter) && has_in_name(s, query)
                && found.len() < limit && named(contents, query).len() <= looked_through(limit, filter)
                ==> found.contains(s)
            &&& forall|i: int, j: int|
                0 <= i < j < found.len() && has_in_name(#[trigger] found[j], query) && named(
                    contents,
                    query,
                ).len() <= looked_through(limit, filter) ==> has_in_name(#[trigger] found[i], query)
        }),
{
    let by_name = found_by_name(contents, query, limit, filter);
    let p = |t: SymbolView|
        !has_key_of(by_name, t) && has_text(lowercase(t.signature), lowercase(query)) && passes(
            t.file,
            filter,
        );
    let by_signature = found_by_signature(contents, query, filter, by_name);
    let all = values_in_order(contents);
    assert(by_signature == all.filter(p));
    let both = by_name + by_signature;
    let found = found_symbols(contents, query, limit, filter);
    law_first_of(both, limit);
    lemma_first_members(both, limit, s);
    lemma_named(contents, query, limit, filter, s);
    lemma_is_in(contents, s);
    lemma_filter_members(all, p);
    lemma_passes(s, filter);
    law_texts_are_found(lowercase(s.signature), lowercase(query));
    assert(by_signature.contains(s) <==> all.contains(s) && p(s));
    assert(both.contains(s) <==> by_name.contains(s) || by_signature.contains(s)) by {
        if by_name.contains(s) {
            let i = choose|i: int| 0 <= i < by_name.len() && by_name[i] == s;
            assert(both[i] == s);
        }
        if by_signature.contains(s) {
            let i = choose|i: int| 0 <= i < by_signature.len() && by_signature[i] == s;
            assert(both[by_name.len() + i] == s);
        }
        if both.contains(s) {
            let i = choose|i: int| 0 <= i < both.len() && both[i] == s;
            if i < by_name.len() {
                assert(by_name[i] == s);
            } else {
                assert(by_signature[i - by_name.len()] == s);
            }
        }
    }
    if is_in(contents, s) && has_key_of(by_name, s) {
        lemma_one_key(contents, query, limit, filter, s);
    }
    assert forall|i: int, j: int|
        0 <= i < j < found.len() && has_in_name(#[trigger] found[j], query) && named(
            contents,
            query,
        ).len() <= looked_through(limit, filter) implies has_in_name(#[trigger] found[i], query) by {
        assert(found[i] == both[i] && found[j] == both[j]);
        if i < by_name.len() {
            assert(by_name.contains(by_name[i]));
            lemma_named(contents, query, limit, filter, by_name[i]);
        } else {
            let t = both[j];
            assert(by_signature[j - by_name.len()] == t);
            assert(by_signature.contains(t));
            lemma_is_in(contents, t);
            lemma_passes(t, filter);
            lemma_named(contents, query, limit, filter, t);
            assert(by_name.contains(t));
            let k = choose|k: int| 0 <= k < by_name.len() && by_name[k] == t;
            assert(key_of(by_name[k].file, by_name[k].name) == key_of(t.file, t.name));
            assert(has_key_of(by_name, t));
        }
    }
}

/// A symbol with the key of one found by name was found by name.
proof fn lemma_one_key(
    contents: Map<Seq<char>, SymbolView>,
    query: Seq<char>,
    limit: int,
    filter: Option<Seq<char>>,
    s: SymbolView,
)
    requires
        lists_in_order(sorted_keys(contents), contents),
        well_keyed(contents),
        0 <= limit,
        is_in(contents, s),
        has_key_of(found_by_name(contents, query, limit, filter), s),
    ensures
        found_by_name(contents, query, limit, filter).contains(s),
{
    let by_name = found_by_name(contents, query, limit, filter);
    let i = choose|i: int|
        0 <= i < by_name.len() && key_of((#[trigger] by_name[i]).file, by_name[i].name) == key_of(
            s.file,
            s.name,
        );
    let t = by_name[i];
    assert(by_name.contains(t));
    lemma_named(contents, query, limit, filter, t);
    let a = choose|k: Seq<char>| #[trigger] contents.contains_key(k) && contents[k] == s;
    let b = choose|k: Seq<char>| #[trigger] contents.contains_key(k) && contents[k] == t;
    assert(a == b);
}

// ---------------------------------------------------------------------------
// Reading
// ---------------------------------------------------------------------------

/// The implementation of a symbol is the piece of its file between its bytes, as far as the
/// file goes. Errors say what was asked for, or why the file cannot be read.
pub proof fn law_implementation(
    contents: Map<Seq<char>, SymbolView>,
    reads: Map<Seq<char>, ReadView>,
    name: Seq<char>,
    file: Seq<char>,
)
    requires
        meant_symbol(contents, file, name) matches Some(s) ==> (read_of(reads, s.file) matches Ok(
            text,
        ) ==> body_of(s, text) is Some),
    ensures
        match implementation(contents, reads, name, file) {
            Ok(body) => meant_symbol(contents, file, name) matches Some(s) && read_of(
                reads,
                s.file,
            ) matches Ok(text) && between_bytes(
                text,
                body,
                s.byte_range.0 as int,
                if s.byte_range.1 <= encode_utf8(text).len() {
                    s.byte_range.1 as int
                } else {
                    encode_utf8(text).len() as int
                },
            ),
            Err(e) => match meant_symbol(contents, file, name) {
                None => e == "Symbol '"@ + name + "' not found in '"@ + file + "'"@,
                Some(s) => read_of(reads, s.file) matches Err(why) && e == "Failed to read '"@
                    + s.file + "': "@ + why,
            },
        },
{
    if let Some(s) = meant_symbol(contents, file, name) {
        if let Ok(text) = read_of(reads, s.file) {
            let end = if s.byte_range.1 <= encode_utf8(text).len() {
                s.byte_range.1 as int
            } else {
                encode_utf8(text).len() as int
            };
            law_piece_between_bytes(text, body_of(s, text)->Some_0, s.byte_range.0 as int, end);
        }
    }
}

// ---------------------------------------------------------------------------
// Definitions
// ---------------------------------------------------------------------------

/// A definition can be noted once, and noted anew whenever there is the symbol. Afterwards
/// the symbol has it, cannot have another noted without asking for a change, and nothing
/// else of the table is touched.
pub proof fn law_definitions(
    contents: Map<Seq<char>, SymbolView>,
    name: Seq<char>,
    file: Seq<char>,
    definition: Seq<char>,
    other: Seq<char>,
)
    ensures
        ({
            let key = file + "::"@ + name;
            let after = with_definition(contents, key, definition);
            &&& match define_error(contents, name, file) {
                None => contents.contains_key(key) && contents[key].definition is None,
                Some(e) => if contents.contains_key(key) {
                    &&& contents[key].definition is Some
                    &&& e == "Symbol '"@ + name + "' in '"@ + file
                        + "' already has a definition. Use redefine."@
                } else {
                    e == "Symbol '"@ + name + "' not found in '"@ + file + "'"@
                },
            }
            &&& match redefine_error(contents, name, file) {
                None => contents.contains_key(key),
                Some(e) => !contents.contains_key(key) && e == "Symbol '"@ + name
                    + "' not found in '"@ + file + "'"@,
            }
            &&& contents.contains_key(key) ==> {
                &&& after[key].definition == Some(definition)
                &&& after[key] == (SymbolView { definition: Some(definition), ..contents[key] })
                &&& define_error(after, name, file) is Some
                &&& redefine_error(after, name, file) is None
                &&& after.contains_key(other) <==> contents.contains_key(other)
                &&& other != key ==> after[other] == contents[other]
            }
        }),
{
}

/// A symbol that is put into a table is found under its file and name and nothing else is
/// touched; taking a file out takes out its symbols and no others.
pub proof fn law_table(
    contents: Map<Seq<char>, SymbolView>,
    s: SymbolView,
    file: Seq<char>,
    other: Seq<char>,
)
    ensures
        ({
            let key = s.file + "::"@ + s.name;
            let with = with_symbol(contents, s);
            let without = without_file(contents, file);
            &&& with.contains_key(key) && with[key] == s
            &&& other != key ==> (with.contains_key(other) <==> contents.contains_key(other))
                && with[other] == contents[other]
            &&& without.contains_key(other) <==> contents.contains_key(other)
                && contents[other].file != file
            &&& without.contains_key(other) ==> without[other] == contents[other]
        }),
{
}

} // verus!
