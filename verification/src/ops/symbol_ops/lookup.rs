//! Finding the symbol that a name means.
use vstd::prelude::*;
use crate::index::file_entry::Language;
use crate::maps::first_where;
use crate::sorting::{lemma_sorted_by_map, rank_order, sort, sorted_by, total_order, Ranked};
use crate::symbols::identity::{identities, with_arity};
use crate::symbols::symbol::{symbol_views, Symbol, SymbolKind, SymbolView};
use crate::symbols::table::{in_file, key_of, SymbolTable};
use crate::text::{
    find_char, find_from, first_place, from_chars, has_text, index_of_char, lemma_first_place,
    lemma_has_first_place, lemma_index_of_char, lemma_text_le_antisymmetric, lemma_text_le_total,
    lemma_text_le_transitive, lowercase, not_after, occurs_at, same, text_le, to_chars, to_lower,
};

verus! {

/// A text up to where a mark stands in it first; the whole text where it does
/// not.
pub open spec fn before_mark(s: Seq<char>, mark: Seq<char>) -> Seq<char> {
    if has_text(s, mark) {
        s.take(first_place(s, mark))
    } else {
        s
    }
}

/// The name of a function of Elixir without its clause number and arity.
pub open spec fn bare_name(name: Seq<char>) -> Seq<char> {
    let base = before_mark(name, "#clause"@);
    base.take(index_of_char(base, '/'))
}

/// A query means a symbol, letter case aside: by its name, and in Elixir also by
/// its name without arity.
pub open spec fn is_meant(symbol: SymbolView, query: Seq<char>) -> bool {
    let name = lowercase(symbol.name);
    let wanted = lowercase(query);
    name == wanted || (symbol.language == Language::Elixir && bare_name(name) == wanted)
}

/// The name by which a symbol is called.
pub open spec fn call_name(symbol: SymbolView) -> Seq<char> {
    if symbol.language == Language::Elixir {
        bare_name(symbol.name)
    } else {
        symbol.name
    }
}

/// Where a symbol stands: by its file, then by its first line.
pub open spec fn place_le(a: SymbolView, b: SymbolView) -> bool {
    if a.file == b.file {
        a.line_range.0 <= b.line_range.0
    } else {
        text_le(a.file, b.file)
    }
}

impl Ranked for Symbol {
    open spec fn rank_le(self, other: Self) -> bool {
        place_le(self@, other@)
    }

    proof fn rank_total(a: Self, b: Self) {
        lemma_text_le_total(a.file@, b.file@);
    }

    proof fn rank_transitive(a: Self, b: Self, c: Self) {
        if a.file@ != b.file@ && b.file@ != c.file@ {
            lemma_text_le_transitive(a.file@, b.file@, c.file@);
            if a.file@ == c.file@ {
                lemma_text_le_antisymmetric(a.file@, b.file@);
            }
        }
    }

    fn may_precede(&self, other: &Self) -> (r: bool) {
        if same(self.file.as_str(), other.file.as_str()) {
            self.line_range.0 <= other.line_range.0
        } else {
            not_after(self.file.as_str(), other.file.as_str())
        }
    }
}

/// The order of places, as a relation.
pub open spec fn place_order() -> spec_fn(SymbolView, SymbolView) -> bool {
    |a: SymbolView, b: SymbolView| place_le(a, b)
}

/// The order of places is total and transitive.
pub proof fn lemma_place_order()
    ensures
        total_order(place_order()),
{
    let le = place_order();
    assert forall|a: SymbolView, b: SymbolView| #[trigger] le(a, b) || le(b, a) by {
        lemma_text_le_total(a.file, b.file);
    }
    assert forall|a: SymbolView, b: SymbolView, c: SymbolView| #[trigger]
        le(a, b) && #[trigger] le(b, c) implies le(a, c) by {
        if a.file != b.file && b.file != c.file {
            lemma_text_le_transitive(a.file, b.file, c.file);
            if a.file == c.file {
                lemma_text_le_antisymmetric(a.file, b.file);
            }
        }
    }
}

/// The symbols by where they stand; those at one place as they came.
pub(crate) fn sort_by_place(symbols: Vec<Symbol>) -> (r: Vec<Symbol>)
    ensures
        symbol_views(r@) == sorted_by(symbol_views(symbols@), place_order()),
{
    let ghost before = symbols@;
    let out = sort(symbols);
    proof {
        lemma_sorted_by_map(
            before,
            rank_order::<Symbol>(),
            |s: Symbol| s@,
            place_order(),
        );
    }
    out
}

/// The symbol that a name means in a file: the one with exactly this name, or else
/// the first in the file that the name means.
pub open spec fn looked_up(
    contents: Map<Seq<char>, SymbolView>,
    file: Seq<char>,
    name: Seq<char>,
) -> Option<SymbolView> {
    if contents.contains_key(key_of(file, name)) {
        Some(contents[key_of(file, name)])
    } else {
        first_where(
            sorted_by(in_file(contents, file), place_order()),
            |s: SymbolView| is_meant(s, name),
        )
    }
}

/// The message for a symbol that is not there.
pub open spec fn no_symbol(name: Seq<char>, file: Seq<char>) -> Seq<char> {
    "Symbol '"@ + name + "' not found in '"@ + file + "'"@
}

/// The message for a symbol that is not there.
pub(crate) fn no_symbol_message(name: &str, file: &str) -> (r: String)
    ensures
        r@ == no_symbol(name@, file@),
{
    let mut m = "Symbol '".to_string();
    m.append(name);
    m.append("' not found in '");
    m.append(file);
    m.append("'");
    m
}

/// The name of a function of Elixir without its clause number and arity.
pub fn elixir_bare_symbol_name(name: &str) -> (r: String)
    ensures
        r@ == bare_name(name@),
{
    let chars = to_chars(name);
    let mark = to_chars("#clause");
    let end: usize = match find_from(&chars, &mark, 0) {
        Some(i) => {
            proof {
                lemma_first_place(name@, "#clause"@, i as int);
            }
            i
        },
        None => {
            assert(!has_text(name@, "#clause"@));
            chars.len()
        },
    };
    let base = from_chars(&chars, 0, end);
    assert(base@ =~= before_mark(name@, "#clause"@));
    let rest = to_chars(base.as_str());
    let slash = find_char(&rest, '/', 0);
    assert(rest@.skip(0) =~= rest@);
    let bare = from_chars(&rest, 0, slash);
    assert(bare@ =~= bare_name(name@));
    bare
}

/// Whether a query means a symbol, letter case aside.
pub fn symbol_matches_query(symbol: &Symbol, query: &str) -> (r: bool)
    ensures
        r == is_meant(symbol@, query@),
{
    let name = to_lower(symbol.name.as_str());
    let wanted = to_lower(query);
    if same(name.as_str(), wanted.as_str()) {
        return true;
    }
    if symbol.language == Language::Elixir {
        let bare = elixir_bare_symbol_name(name.as_str());
        same(bare.as_str(), wanted.as_str())
    } else {
        false
    }
}

/// The name by which a symbol is called.
pub fn callable_name_for_symbol(symbol: &Symbol) -> (r: String)
    ensures
        r@ == call_name(symbol@),
{
    if symbol.language == Language::Elixir {
        elixir_bare_symbol_name(symbol.name.as_str())
    } else {
        symbol.name.clone()
    }
}

/// The first of the symbols that a query means.
pub(crate) fn find_meant(symbols: &Vec<Symbol>, query: &str) -> (r: Option<Symbol>)
    ensures
        match r {
            Some(s) => first_where(
                symbol_views(symbols@),
                |s: SymbolView| is_meant(s, query@),
            ) == Some(s@),
            None => first_where(symbol_views(symbols@), |s: SymbolView| is_meant(s, query@)) is None,
        },
{
    let ghost all = symbol_views(symbols@);
    let ghost p = |s: SymbolView| is_meant(s, query@);
    let mut i: usize = 0;
    assert(all.skip(0) =~= all);
    while i < symbols.len()
        invariant
            i <= symbols@.len(),
            all == symbol_views(symbols@),
            p == (|s: SymbolView| is_meant(s, query@)),
            first_where(all, p) == first_where(all.skip(i as int), p),
        decreases symbols@.len() - i,
    {
        assert(all.skip(i as int)[0] == symbols@[i as int]@);
        assert(all.skip(i as int).drop_first() =~= all.skip(i + 1));
        if symbol_matches_query(&symbols[i], query) {
            return Some(symbols[i].clone());
        }
        i = i + 1;
    }
    None
}

/// The symbol that a name means in a file.
pub fn find_symbol_for_lookup(
    symbol_table: &SymbolTable,
    file: &str,
    symbol_name: &str,
) -> (r: Option<Symbol>)
    ensures
        match r {
            Some(s) => looked_up(symbol_table@, file@, symbol_name@) == Some(s@),
            None => looked_up(symbol_table@, file@, symbol_name@) is None,
        },
{
    match symbol_table.get(file, symbol_name) {
        Some(s) => Some(s),
        None => {
            let symbols = symbol_table.list_by_file(file);
            let sorted = sort_by_place(symbols);
            find_meant(&sorted, symbol_name)
        },
    }
}

/// In a name with a slash at `n`, and no clause mark before it, the first clause
/// mark stands behind the slash.
proof fn lemma_mark_behind_slash(name: Seq<char>, n: int, at: int)
    requires
        0 <= n < name.len(),
        name[n] == '/',
        !has_text(name.take(n), "#clause"@),
        occurs_at(name, "#clause"@, at),
    ensures
        at > n,
{
    let mark = "#clause"@;
    reveal_strlit("#clause");
    assert(mark.len() == 7);
    if at + 7 <= n {
        assert(name.take(n).subrange(at, at + 7) =~= name.subrange(at, at + 7));
        assert(occurs_at(name.take(n), mark, at));
    } else if at <= n {
        assert(name.subrange(at, at + 7)[n - at] == '/');
        assert(mark[n - at] == '/');
        assert(forall|k: int| 0 <= k < 7 ==> mark[k] != '/');
    }
}

/// The bare name of a name is what stands before its first slash, where no clause
/// mark comes before that.
proof fn lemma_bare_name(name: Seq<char>, n: int)
    requires
        0 <= n < name.len(),
        name[n] == '/',
        forall|k: int| 0 <= k < n ==> name[k] != '/',
        !has_text(name.take(n), "#clause"@),
    ensures
        bare_name(name) == name.take(n),
{
    let base = before_mark(name, "#clause"@);
    if has_text(name, "#clause"@) {
        let j = choose|j: int| occurs_at(name, "#clause"@, j);
        lemma_has_first_place(name, "#clause"@, j);
        lemma_mark_behind_slash(name, n, first_place(name, "#clause"@));
    }
    lemma_index_of_char(base, '/', n);
    assert(base.take(n) =~= name.take(n));
}

/// A function of Elixir can be asked for by its plain name: the name by which it is
/// kept comes down to the plain name again. Plain names hold no slash and no clause
/// mark.
pub proof fn law_bare_name_of_identity(symbols: Seq<SymbolView>, i: int)
    requires
        0 <= i < symbols.len(),
        symbols[i].kind == SymbolKind::Function,
        !symbols[i].name.contains('/'),
        !has_text(symbols[i].name, "#clause"@),
    ensures
        bare_name(identities(symbols)[i].name) == symbols[i].name,
{
    let plain = symbols[i].name;
    let full = with_arity(symbols[i]);
    let kept = identities(symbols)[i].name;
    let n = plain.len() as int;
    assert(full[n] == '/') by {
        reveal_strlit("/");
    }
    assert(kept.take(full.len() as int) =~= full);
    assert(kept[n] == full[n]);
    assert(kept.take(n) =~= plain);
    assert forall|k: int| 0 <= k < n implies kept[k] != '/' by {
        assert(kept[k] == plain[k]);
    }
    lemma_bare_name(kept, n);
}

} // verus!
