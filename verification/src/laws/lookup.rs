//! Which symbol a name means.
use vstd::prelude::*;
use crate::index::file_entry::Language;
use crate::laws::text::{holds, law_first_place_of_a_character, law_texts_are_found, starts};
use crate::maps::{first_where, lists_in_order, sorted_keys, values_in_order};
use crate::ops::symbol_ops::lookup::{
    bare_name, before_mark, call_name, is_meant, lemma_place_order, looked_up, place_order,
};
use crate::ops::symbol_ops::meant_symbol;
use crate::sorting::{lemma_sorted_by, lemma_sorted_members, sorted_by};
use crate::symbols::symbol::SymbolView;
use crate::symbols::table::in_file;
use crate::text::{
    first_place, has_text, index_of_char, is_first_occurrence, lemma_has_first_place, lowercase,
    occurs_at,
};

verus! {

/// A name of Elixir is made of a bare name and what tells functions of that name apart: an
/// arity behind a slash, a clause mark, or nothing. The bare name has neither.
pub open spec fn is_bare_of(bare: Seq<char>, name: Seq<char>) -> bool {
    &&& starts(name, bare)
    &&& !bare.contains('/')
    &&& !holds(bare, "#clause"@)
    &&& {
        let rest = name.skip(bare.len() as int);
        ||| rest.len() == 0
        ||| rest[0] == '/'
        ||| starts(rest, "#clause"@)
    }
}

/// Letter case aside, a symbol has a name, or it is of Elixir and has it as its bare name.
pub open spec fn answers_to(s: SymbolView, name: Seq<char>) -> bool {
    ||| lowercase(s.name) == lowercase(name)
    ||| s.language == Language::Elixir && is_bare_of(lowercase(name), lowercase(s.name))
}

/// Where a mark stands first.
proof fn lemma_before_mark(s: Seq<char>, mark: Seq<char>)
    requires
        mark.len() > 0,
    ensures
        ({
            let base = before_mark(s, mark);
            &&& base == s.take(base.len() as int)
            &&& base.len() <= s.len()
            &&& !has_text(base, mark)
            &&& base.len() < s.len() ==> occurs_at(s, mark, base.len() as int)
            &&& forall|j: int| 0 <= j < base.len() ==> !occurs_at(s, mark, j)
        }),
{
    let base = before_mark(s, mark);
    if has_text(s, mark) {
        let i = choose|i: int| occurs_at(s, mark, i);
        lemma_has_first_place(s, mark, i);
        let k = first_place(s, mark);
        assert(is_first_occurrence(s, mark, 0, k));
        assert(base == s.take(k));
        if has_text(base, mark) {
            let j = choose|j: int| occurs_at(base, mark, j);
            assert(base.subrange(j, j + mark.len()) =~= s.subrange(j, j + mark.len()));
            assert(occurs_at(s, mark, j));
        }
    } else {
        assert(s.take(s.len() as int) =~= s);
        assert forall|j: int| 0 <= j < base.len() implies !occurs_at(s, mark, j) by {
            if occurs_at(s, mark, j) {
                assert(has_text(s, mark));
            }
        }
    }
}

/// What a name is cut down to is a bare name of it.
proof fn lemma_is_bare(name: Seq<char>)
    ensures
        is_bare_of(bare_name(name), name),
{
    let mark = "#clause"@;
    reveal_strlit("#clause");
    assert(mark.len() == 7);
    let base = before_mark(name, mark);
    let b = bare_name(name);
    lemma_before_mark(name, mark);
    law_first_place_of_a_character(base, '/');
    let n = index_of_char(base, '/');
    assert(b =~= name.take(n));
    let rest = name.skip(n);
    law_texts_are_found(name, b);
    law_texts_are_found(b, mark);
    law_texts_are_found(rest, mark);
    assert(name.subrange(0, n) =~= b);
    if has_text(b, mark) {
        let j = choose|j: int| occurs_at(b, mark, j);
        assert(b.subrange(j, j + 7) =~= base.subrange(j, j + 7));
        assert(occurs_at(base, mark, j));
    }
    if n < base.len() {
        assert(rest[0] == base[n]);
    } else if n < name.len() {
        assert(occurs_at(name, mark, n));
        assert(rest.subrange(0, 7) =~= name.subrange(n, n + 7));
        assert(occurs_at(rest, mark, 0));
    }
}

/// A name is cut off at `n`: at a slash, at a mark or at the end, with none of these before.
spec fn is_cut(name: Seq<char>, mark: Seq<char>, n: int) -> bool {
    &&& 0 <= n <= name.len()
    &&& forall|j: int| 0 <= j < n ==> name[j] != '/'
    &&& forall|j: int| 0 <= j && j + mark.len() <= n ==> !occurs_at(name, mark, j)
    &&& n == name.len() || name[n] == '/' || occurs_at(name, mark, n)
}

proof fn lemma_bare_is_cut(bare: Seq<char>, name: Seq<char>)
    requires
        is_bare_of(bare, name),
    ensures
        is_cut(name, "#clause"@, bare.len() as int),
        bare == name.take(bare.len() as int),
{
    let mark = "#clause"@;
    let n = bare.len() as int;
    let rest = name.skip(n);
    law_texts_are_found(name, bare);
    law_texts_are_found(bare, mark);
    law_texts_are_found(rest, mark);
    assert(name.subrange(0, n) =~= name.take(n));
    assert forall|j: int| 0 <= j < n implies name[j] != '/' by {
        assert(bare.contains(bare[j]));
    }
    assert forall|j: int| 0 <= j && j + mark.len() <= n implies !occurs_at(name, mark, j) by {
        if occurs_at(name, mark, j) {
            assert(bare.subrange(j, j + mark.len()) =~= name.subrange(j, j + mark.len()));
            assert(occurs_at(bare, mark, j));
        }
    }
    if n < name.len() && name[n] != '/' {
        assert(rest.subrange(0, mark.len() as int) =~= name.subrange(n, n + mark.len()));
    }
}

/// There is one place where a name is cut off.
proof fn lemma_one_cut(name: Seq<char>, m: int, n: int)
    requires
        is_cut(name, "#clause"@, m),
        is_cut(name, "#clause"@, n),
    ensures
        m >= n,
{
    let mark = "#clause"@;
    reveal_strlit("#clause");
    assert(mark.len() == 7);
    if m < n {
        assert(name[m] != '/');
        assert(occurs_at(name, mark, m));
        assert(m + 7 > n);
        assert(name.subrange(m, m + 7)[n - m] == name[n]);
        assert(mark[n - m] != '/' && mark[n - m] != '#');
        assert(occurs_at(name, mark, n));
        assert(name.subrange(n, n + 7)[0] == name[n]);
    }
}

/// A name has one bare name: the one that it is made of.
pub proof fn law_bare_name(name: Seq<char>, bare: Seq<char>)
    ensures
        bare_name(name) == bare <==> is_bare_of(bare, name),
{
    lemma_is_bare(name);
    if is_bare_of(bare, name) {
        let b = bare_name(name);
        lemma_bare_is_cut(b, name);
        lemma_bare_is_cut(bare, name);
        lemma_one_cut(name, b.len() as int, bare.len() as int);
        lemma_one_cut(name, bare.len() as int, b.len() as int);
    }
}

/// A symbol of Elixir is called by its bare name, every other by its name.
pub proof fn law_call_name(s: SymbolView)
    ensures
        s.language == Language::Elixir ==> is_bare_of(call_name(s), s.name),
        s.language != Language::Elixir ==> call_name(s) == s.name,
{
    law_bare_name(s.name, bare_name(s.name));
}

/// The first item for which a property holds has it, and none before it has; without one,
/// no item has it.
pub proof fn law_first_where<V>(s: Seq<V>, p: spec_fn(V) -> bool)
    ensures
        match first_where(s, p) {
            Some(x) => exists|i: int|
                0 <= i < s.len() && #[trigger] s[i] == x && p(x) && forall|j: int|
                    0 <= j < i ==> !p(#[trigger] s[j]),
            None => forall|j: int| 0 <= j < s.len() ==> !p(#[trigger] s[j]),
        },
    decreases s.len(),
{
    if s.len() > 0 && !p(s[0]) {
        let rest = s.drop_first();
        law_first_where(rest, p);
        match first_where(rest, p) {
            Some(x) => {
                let i = choose|i: int|
                    0 <= i < rest.len() && #[trigger] rest[i] == x && p(x) && forall|j: int|
                        0 <= j < i ==> !p(#[trigger] rest[j]);
                assert(s[i + 1] == x);
                assert forall|j: int| 0 <= j < i + 1 implies !p(#[trigger] s[j]) by {
                    if j > 0 {
                        assert(rest[j - 1] == s[j]);
                    }
                }
            },
            None => {
                assert forall|j: int| 0 <= j < s.len() implies !p(#[trigger] s[j]) by {
                    if j > 0 {
                        assert(rest[j - 1] == s[j]);
                    }
                }
            },
        }
    } else if s.len() > 0 {
        assert(s[0] == s[0]);
    }
}

/// The values of a map, in the order of their keys, are its values.
pub proof fn lemma_values<V>(contents: Map<Seq<char>, V>)
    requires
        lists_in_order(sorted_keys(contents), contents),
    ensures
        forall|i: int|
            0 <= i < values_in_order(contents).len() ==> (#[trigger] values_in_order(contents)[i])
                == contents[sorted_keys(contents)[i]] && contents.contains_key(
                sorted_keys(contents)[i],
            ),
        values_in_order(contents).len() == sorted_keys(contents).len(),
        forall|k: Seq<char>| #[trigger]
            contents.contains_key(k) ==> values_in_order(contents).contains(contents[k]),
{
    let keys = sorted_keys(contents);
    let values = values_in_order(contents);
    assert forall|i: int| 0 <= i < values.len() implies (#[trigger] values[i]) == contents[keys[i]]
        && contents.contains_key(keys[i]) by {
        assert(keys.contains(keys[i]));
    }
    assert forall|k: Seq<char>| #[trigger] contents.contains_key(k) implies values.contains(
        contents[k],
    ) by {
        assert(keys.contains(k));
        let i = choose|i: int| 0 <= i < keys.len() && keys[i] == k;
        assert(values[i] == contents[k]);
    }
}

/// The symbols of a file are those of the table that are of the file.
pub proof fn law_symbols_of_a_file(contents: Map<Seq<char>, SymbolView>, file: Seq<char>)
    requires
        lists_in_order(sorted_keys(contents), contents),
    ensures
        forall|s: SymbolView| #[trigger]
            in_file(contents, file).contains(s) <==> contents.values().contains(s) && s.file
                == file,
{
    broadcast use vstd::seq_lib::group_filter_ensures;

    lemma_values(contents);
    let all = values_in_order(contents);
    let p = |s: SymbolView| s.file == file;
    assert forall|s: SymbolView| #[trigger]
        in_file(contents, file).contains(s) <==> contents.values().contains(s) && s.file
            == file by {
        if in_file(contents, file).contains(s) {
            let i = choose|i: int|
                0 <= i < in_file(contents, file).len() && in_file(contents, file)[i] == s;
            assert(p(all.filter(p)[i]));
            all.lemma_filter_contains_rev(p, s);
            let j = choose|j: int| 0 <= j < all.len() && all[j] == s;
            assert(contents.contains_key(sorted_keys(contents)[j]));
        }
        if contents.values().contains(s) && s.file == file {
            let k = choose|k: Seq<char>| contents.contains_key(k) && contents[k] == s;
            assert(all.contains(contents[k]));
            let j = choose|j: int| 0 <= j < all.len() && all[j] == s;
            assert(p(all[j]));
            assert(all.filter(p).contains(all[j]));
        }
    }
}

/// The symbol that is looked up for a name is the one kept under the file and exactly this
/// name. Without one it is a symbol of the file that answers to the name, and none of the
/// file that answers to it stands on an earlier line; nothing is found exactly where there
/// is no such symbol.
pub proof fn law_lookup(
    contents: Map<Seq<char>, SymbolView>,
    file: Seq<char>,
    name: Seq<char>,
)
    requires
        lists_in_order(sorted_keys(contents), contents),
    ensures
        ({
            let key = file + "::"@ + name;
            let found = looked_up(contents, file, name);
            if contents.contains_key(key) {
                found == Some(contents[key])
            } else {
                match found {
                    Some(s) => {
                        &&& contents.values().contains(s)
                        &&& s.file == file
                        &&& answers_to(s, name)
                        &&& forall|t: SymbolView| #[trigger]
                            contents.values().contains(t) && t.file == file && answers_to(t, name)
                                ==> s.line_range.0 <= t.line_range.0
                    },
                    None => forall|t: SymbolView| #[trigger]
                        contents.values().contains(t) && t.file == file ==> !answers_to(t, name),
                }
            }
        }),
{
    let key = file + "::"@ + name;
    if !contents.contains_key(key) {
        let here = in_file(contents, file);
        let sorted = sorted_by(here, place_order());
        let p = |s: SymbolView| is_meant(s, name);
        lemma_place_order();
        lemma_sorted_by(here, place_order());
        lemma_sorted_members(here, place_order());
        law_symbols_of_a_file(contents, file);
        law_first_where(sorted, p);
        assert forall|s: SymbolView| #[trigger] p(s) == answers_to(s, name) by {
            law_bare_name(lowercase(s.name), lowercase(name));
        }
        match first_where(sorted, p) {
            Some(s) => {
                let i = choose|i: int|
                    0 <= i < sorted.len() && #[trigger] sorted[i] == s && p(s) && forall|j: int|
                        0 <= j < i ==> !p(#[trigger] sorted[j]);
                assert(sorted.contains(s));
                assert(here.contains(s));
                assert(p(s));
                assert forall|t: SymbolView| #[trigger]
                    contents.values().contains(t) && t.file == file && answers_to(
                        t,
                        name,
                    ) implies s.line_range.0 <= t.line_range.0 by {
                    assert(here.contains(t));
                    assert(sorted.contains(t));
                    let j = choose|j: int| 0 <= j < sorted.len() && sorted[j] == t;
                    assert(p(sorted[j]));
                    if i < j {
                        assert(place_order()(sorted[i], sorted[j]));
                    }
                }
            },
            None => {
                assert forall|t: SymbolView| #[trigger]
                    contents.values().contains(t) && t.file == file implies !answers_to(
                    t,
                    name,
                ) by {
                    assert(here.contains(t));
                    assert(sorted.contains(t));
                    let j = choose|j: int| 0 <= j < sorted.len() && sorted[j] == t;
                    assert(!p(sorted[j]));
                }
            },
        }
    }
}

/// The symbol whose implementation is asked for is the one kept under the file and exactly
/// this name, or else one of the file that answers to the name; nothing is found exactly
/// where there is no such symbol.
pub proof fn law_meant_symbol(
    contents: Map<Seq<char>, SymbolView>,
    file: Seq<char>,
    name: Seq<char>,
)
    requires
        lists_in_order(sorted_keys(contents), contents),
    ensures
        ({
            let key = file + "::"@ + name;
            let found = meant_symbol(contents, file, name);
            if contents.contains_key(key) {
                found == Some(contents[key])
            } else {
                match found {
                    Some(s) => contents.values().contains(s) && s.file == file && answers_to(
                        s,
                        name,
                    ),
                    None => forall|t: SymbolView| #[trigger]
                        contents.values().contains(t) && t.file == file ==> !answers_to(t, name),
                }
            }
        }),
{
    let key = file + "::"@ + name;
    if !contents.contains_key(key) {
        let here = in_file(contents, file);
        let p = |s: SymbolView| is_meant(s, name);
        law_symbols_of_a_file(contents, file);
        law_first_where(here, p);
        assert forall|s: SymbolView| #[trigger] p(s) == answers_to(s, name) by {
            law_bare_name(lowercase(s.name), lowercase(name));
        }
        match first_where(here, p) {
            Some(s) => {
                assert(here.contains(s));
                assert(p(s));
            },
            None => {
                assert forall|t: SymbolView| #[trigger]
                    contents.values().contains(t) && t.file == file implies !answers_to(
                    t,
                    name,
                ) by {
                    assert(here.contains(t));
                    let j = choose|j: int| 0 <= j < here.len() && here[j] == t;
                    assert(!p(here[j]));
                }
            },
        }
    }
}

} // verus!
