//! What agents ask of symbols.
pub mod callers;
pub mod lookup;
pub mod tests_of;
pub mod variables;

use vstd::prelude::*;
use crate::maps::{
    first_of, first_where, lemma_filter_next, lemma_filter_start, lists_in_order, min, sorted_keys,
    values_in_order,
};
use crate::ops::content::{not_readable, not_readable_message, opt_str};
use crate::ops::symbol_ops::lookup::{
    find_meant, is_meant, lemma_place_order, no_symbol, no_symbol_message, place_le, place_order,
    sort_by_place,
};
use crate::sorting::{lemma_sorted_by, lemma_sorted_members, sorted_by};
use crate::sources::{read_of, read_view, ReadView, Sources};
use crate::symbols::symbol::{symbol_views, Symbol, SymbolKind, SymbolView};
use crate::symbols::table::{in_file, key_of, named, well_keyed, SymbolTable};
use crate::text::{
    byte_len, byte_slice, contains, has_text, len_bytes, lowercase, opt_view, same, slice_bytes,
    to_lower,
};

verus! {

// ---------------------------------------------------------------------------
// Listing
// ---------------------------------------------------------------------------

/// The symbols of a file, or of all files, that are of a kind, or of any.
pub open spec fn of_kind(
    contents: Map<Seq<char>, SymbolView>,
    kind: Option<SymbolKind>,
    file: Option<Seq<char>>,
) -> Seq<SymbolView> {
    let base = match file {
        Some(f) => in_file(contents, f),
        None => values_in_order(contents),
    };
    base.filter(|s: SymbolView| kind is None || kind == Some(s.kind))
}

/// The first `limit` symbols of a kind, by file and line.
pub open spec fn listed(
    contents: Map<Seq<char>, SymbolView>,
    kind: Option<SymbolKind>,
    file: Option<Seq<char>>,
    limit: int,
) -> Seq<SymbolView> {
    first_of(sorted_by(of_kind(contents, kind, file), place_order()), limit)
}

/// Those of the symbols that are of a kind.
fn keep_kind(symbols: Vec<Symbol>, kind: Option<SymbolKind>) -> (r: Vec<Symbol>)
    ensures
        symbol_views(r@) == symbol_views(symbols@).filter(
            |s: SymbolView| kind is None || kind == Some(s.kind),
        ),
{
    let ghost all = symbol_views(symbols@);
    let ghost p = |s: SymbolView| kind is None || kind == Some(s.kind);
    let mut out: Vec<Symbol> = Vec::new();
    let mut i: usize = 0;
    proof {
        lemma_filter_start(all, p);
        assert(symbol_views(out@) =~= Seq::empty());
    }
    while i < symbols.len()
        invariant
            i <= symbols@.len(),
            all == symbol_views(symbols@),
            p == (|s: SymbolView| kind is None || kind == Some(s.kind)),
            symbol_views(out@) == all.take(i as int).filter(p),
        decreases symbols@.len() - i,
    {
        let ghost before = symbol_views(out@);
        proof {
            lemma_filter_next(all, p, i as int);
            assert(all[i as int] == symbols@[i as int]@);
        }
        let keep = match kind {
            Some(k) => symbols[i].kind == k,
            None => true,
        };
        if keep {
            out.push(symbols[i].clone());
            assert(symbol_views(out@) =~= before.push(all[i as int]));
        }
        i = i + 1;
    }
    assert(all.take(i as int) =~= all);
    out
}

/// The first `limit` of the symbols.
fn cut_off(symbols: Vec<Symbol>, limit: usize) -> (r: Vec<Symbol>)
    ensures
        symbol_views(r@) == first_of(symbol_views(symbols@), limit as int),
{
    let ghost all = symbol_views(symbols@);
    let mut out = symbols;
    if limit < out.len() {
        out.truncate(limit);
    }
    assert(symbol_views(out@) =~= first_of(all, limit as int));
    out
}

/// Lists symbols by file and line, at most `limit` of them: of one kind or of any,
/// of one file or of all.
pub fn list_symbols(
    symbol_table: &SymbolTable,
    kind_filter: Option<SymbolKind>,
    file_filter: Option<&str>,
    limit: usize,
) -> (r: Vec<Symbol>)
    ensures
        symbol_views(r@) == listed(
            symbol_table@,
            kind_filter,
            opt_str(file_filter),
            limit as int,
        ),
        lists_in_order(sorted_keys(symbol_table@), symbol_table@),
{
    let symbols = match file_filter {
        Some(file) => symbol_table.list_by_file(file),
        None => symbol_table.all_symbols(),
    };
    let kept = keep_kind(symbols, kind_filter);
    let sorted = sort_by_place(kept);
    cut_off(sorted, limit)
}

// ---------------------------------------------------------------------------
// Searching
// ---------------------------------------------------------------------------

/// A file passes a filter: it is the filter, or its path contains it.
pub open spec fn passes(file: Seq<char>, filter: Option<Seq<char>>) -> bool {
    match filter {
        Some(f) => file == f || has_text(file, f),
        None => true,
    }
}

/// The symbols that are found by their names: at most `limit` of them, or, where a
/// filter is to thin them out, those of five times as many that pass it.
pub open spec fn found_by_name(
    contents: Map<Seq<char>, SymbolView>,
    query: Seq<char>,
    limit: int,
    filter: Option<Seq<char>>,
) -> Seq<SymbolView> {
    first_of(
        named(contents, query),
        if filter is Some {
            limit * 5
        } else {
            limit
        },
    ).filter(|s: SymbolView| passes(s.file, filter))
}

/// A symbol has the file and name of one of the list.
pub open spec fn has_key_of(symbols: Seq<SymbolView>, s: SymbolView) -> bool {
    exists|i: int|
        0 <= i < symbols.len() && key_of((#[trigger] symbols[i]).file, symbols[i].name) == key_of(
            s.file,
            s.name,
        )
}

/// The symbols that are found by their signatures, those that were found already
/// aside.
pub open spec fn found_by_signature(
    contents: Map<Seq<char>, SymbolView>,
    query: Seq<char>,
    filter: Option<Seq<char>>,
    already: Seq<SymbolView>,
) -> Seq<SymbolView> {
    values_in_order(contents).filter(
        |s: SymbolView|
            !has_key_of(already, s) && has_text(lowercase(s.signature), lowercase(query)) && passes(
                s.file,
                filter,
            ),
    )
}

/// What a search for symbols gives: those found by their names, then those found
/// by their signatures, at most `limit` of them.
pub open spec fn found_symbols(
    contents: Map<Seq<char>, SymbolView>,
    query: Seq<char>,
    limit: int,
    filter: Option<Seq<char>>,
) -> Seq<SymbolView> {
    let by_name = found_by_name(contents, query, limit, filter);
    first_of(by_name + found_by_signature(contents, query, filter, by_name), limit)
}

/// Whether a file passes a filter.
fn file_passes(file: &str, filter: Option<&str>) -> (r: bool)
    ensures
        r == passes(file@, opt_str(filter)),
{
    match filter {
        Some(f) => same(file, f) || contains(file, f),
        None => true,
    }
}

/// Those of the symbols whose files pass a filter.
fn keep_passing(symbols: Vec<Symbol>, filter: Option<&str>) -> (r: Vec<Symbol>)
    ensures
        symbol_views(r@) == symbol_views(symbols@).filter(
            |s: SymbolView| passes(s.file, opt_str(filter)),
        ),
{
    let ghost all = symbol_views(symbols@);
    let ghost p = |s: SymbolView| passes(s.file, opt_str(filter));
    let mut out: Vec<Symbol> = Vec::new();
    let mut i: usize = 0;
    proof {
        lemma_filter_start(all, p);
        assert(symbol_views(out@) =~= Seq::empty());
    }
    while i < symbols.len()
        invariant
            i <= symbols@.len(),
            all == symbol_views(symbols@),
            p == (|s: SymbolView| passes(s.file, opt_str(filter))),
            symbol_views(out@) == all.take(i as int).filter(p),
        decreases symbols@.len() - i,
    {
        let ghost before = symbol_views(out@);
        proof {
            lemma_filter_next(all, p, i as int);
            assert(all[i as int] == symbols@[i as int]@);
        }
        if file_passes(symbols[i].file.as_str(), filter) {
            out.push(symbols[i].clone());
            assert(symbol_views(out@) =~= before.push(all[i as int]));
        }
        i = i + 1;
    }
    assert(all.take(i as int) =~= all);
    out
}

/// Whether a symbol has the file and name of one of the list.
fn shares_key(symbols: &Vec<Symbol>, s: &Symbol) -> (r: bool)
    ensures
        r == has_key_of(symbol_views(symbols@), s@),
{
    let key = SymbolTable::make_key(s.file.as_str(), s.name.as_str());
    let ghost all = symbol_views(symbols@);
    let mut i: usize = 0;
    while i < symbols.len()
        invariant
            i <= symbols@.len(),
            all == symbol_views(symbols@),
            key@ == key_of(s.file@, s.name@),
            forall|k: int| 0 <= k < i ==> key_of((#[trigger] all[k]).file, all[k].name) != key@,
        decreases symbols@.len() - i,
    {
        let other = SymbolTable::make_key(symbols[i].file.as_str(), symbols[i].name.as_str());
        assert(all[i as int] == symbols@[i as int]@);
        if same(other.as_str(), key.as_str()) {
            return true;
        }
        i = i + 1;
    }
    false
}

/// Adds symbols that are found by their signatures, until there are `limit`.
fn add_by_signature(
    symbol_table: &SymbolTable,
    found: Vec<Symbol>,
    query: &str,
    limit: usize,
    filter: Option<&str>,
) -> (r: Vec<Symbol>)
    requires
        found@.len() < limit,
    ensures
        symbol_views(r@) == first_of(
            symbol_views(found@) + found_by_signature(
                symbol_table@,
                query@,
                opt_str(filter),
                symbol_views(found@),
            ),
            limit as int,
        ),
{
    let wanted = to_lower(query);
    let symbols = symbol_table.all_symbols();
    let ghost all = symbol_views(symbols@);
    let ghost already = symbol_views(found@);
    let ghost p = |s: SymbolView|
        !has_key_of(already, s) && has_text(lowercase(s.signature), lowercase(query@)) && passes(
            s.file,
            opt_str(filter),
        );
    let mut more: Vec<Symbol> = Vec::new();
    let room: usize = limit - found.len();
    let mut i: usize = 0;
    proof {
        lemma_filter_start(all, p);
        assert(symbol_views(more@) =~= Seq::empty());
    }
    while i < symbols.len()
        invariant
            i <= symbols@.len(),
            all == symbol_views(symbols@),
            already == symbol_views(found@),
            wanted@ == lowercase(query@),
            p == (|s: SymbolView|
                !has_key_of(already, s) && has_text(lowercase(s.signature), lowercase(query@))
                    && passes(s.file, opt_str(filter))),
            symbol_views(more@) == first_of(all.take(i as int).filter(p), room as int),
        decreases symbols@.len() - i,
    {
        let ghost before = symbol_views(more@);
        let ghost sofar = all.take(i as int).filter(p);
        proof {
            lemma_filter_next(all, p, i as int);
            assert(all[i as int] == symbols@[i as int]@);
            assert(symbol_views(more@).len() == more@.len());
        }
        let s = &symbols[i];
        let signature = to_lower(s.signature.as_str());
        if !shares_key(&found, s) && contains(signature.as_str(), wanted.as_str()) && file_passes(
            s.file.as_str(),
            filter,
        ) {
            if more.len() < room {
                more.push(s.clone());
                assert(symbol_views(more@) =~= before.push(all[i as int]));
                assert(first_of(sofar.push(all[i as int]), room as int) =~= before.push(
                    all[i as int],
                ));
            } else {
                assert(first_of(sofar.push(all[i as int]), room as int) =~= before);
            }
        }
        i = i + 1;
    }
    assert(all.take(i as int) =~= all);
    let ghost rest = all.filter(p);
    let ghost added = symbol_views(more@);
    let mut out = found;
    out.append(&mut more);
    assert(symbol_views(out@) =~= already + added);
    assert(already.len() == limit - room);
    assert(already + first_of(rest, room as int) =~= first_of(already + rest, limit as int));
    out
}

/// Searches symbols by their names, and by their signatures where that gives too
/// few; at most `limit` of them.
pub fn search_symbols(
    symbol_table: &SymbolTable,
    query: &str,
    limit: usize,
    file_filter: Option<&str>,
) -> (r: Vec<Symbol>)
    requires
        file_filter is Some ==> limit * 5 <= usize::MAX,
    ensures
        symbol_views(r@) == found_symbols(
            symbol_table@,
            query@,
            limit as int,
            opt_str(file_filter),
        ),
        lists_in_order(sorted_keys(symbol_table@), symbol_table@),
{
    let reach: usize = if file_filter.is_some() {
        limit * 5
    } else {
        limit
    };
    let hits = symbol_table.search(query, reach);
    let found = keep_passing(hits, file_filter);
    let ghost by_name = symbol_views(found@);
    if found.len() < limit {
        add_by_signature(symbol_table, found, query, limit, file_filter)
    } else {
        let ghost rest = found_by_signature(
            symbol_table@,
            query@,
            opt_str(file_filter),
            by_name,
        );
        assert(by_name.len() == found@.len());
        assert(first_of(by_name + rest, limit as int) =~= first_of(by_name, limit as int));
        cut_off(found, limit)
    }
}

// ---------------------------------------------------------------------------
// Implementations
// ---------------------------------------------------------------------------

/// The symbol whose implementation is asked for: the one with exactly this name, or
/// else the first of the file, in the order of keys, that the name means.
pub open spec fn meant_symbol(
    contents: Map<Seq<char>, SymbolView>,
    file: Seq<char>,
    name: Seq<char>,
) -> Option<SymbolView> {
    if contents.contains_key(key_of(file, name)) {
        Some(contents[key_of(file, name)])
    } else {
        first_where(in_file(contents, file), |s: SymbolView| is_meant(s, name))
    }
}

/// The text of a symbol in its file, as far as the file goes; nothing where its
/// bytes cannot be taken from the text.
pub open spec fn body_of(s: SymbolView, text: Seq<char>) -> Option<Seq<char>> {
    byte_slice(
        text,
        s.byte_range.0 as int,
        min(s.byte_range.1 as int, byte_len(text) as int),
    )
}

/// Where the file of a symbol can be read, the text of the symbol can be taken from
/// it.
pub open spec fn has_body(s: SymbolView, reads: Map<Seq<char>, ReadView>) -> bool {
    read_of(reads, s.file) matches Ok(text) ==> body_of(s, text) is Some
}

/// The text of a symbol in its file.
pub(crate) fn take_body(s: &Symbol, text: &str) -> (r: Option<String>)
    ensures
        opt_view(r) == body_of(s@, text@),
{
    let total: usize = len_bytes(text);
    let end: usize = if s.byte_range.1 <= total {
        s.byte_range.1
    } else {
        total
    };
    slice_bytes(text, s.byte_range.0, end)
}

/// What asking for an implementation gives.
pub open spec fn implementation(
    contents: Map<Seq<char>, SymbolView>,
    reads: Map<Seq<char>, ReadView>,
    name: Seq<char>,
    file: Seq<char>,
) -> Result<Seq<char>, Seq<char>> {
    match meant_symbol(contents, file, name) {
        None => Err(no_symbol(name, file)),
        Some(s) => match read_of(reads, s.file) {
            Err(e) => Err(not_readable(s.file, e)),
            Ok(text) => Ok(body_of(s, text)->Some_0),
        },
    }
}

/// The symbol whose implementation is asked for.
fn find_implementation(symbol_table: &SymbolTable, file: &str, symbol_name: &str) -> (r: Option<
    Symbol,
>)
    ensures
        match r {
            Some(s) => meant_symbol(symbol_table@, file@, symbol_name@) == Some(s@),
            None => meant_symbol(symbol_table@, file@, symbol_name@) is None,
        },
{
    match symbol_table.get(file, symbol_name) {
        Some(s) => Some(s),
        None => {
            let symbols = symbol_table.list_by_file(file);
            find_meant(&symbols, symbol_name)
        },
    }
}

/// The text of a symbol. Its bytes have to lie in the file as it is now.
pub fn get_implementation(
    sources: &Sources,
    symbol_table: &SymbolTable,
    symbol_name: &str,
    file: &str,
) -> (r: Result<String, String>)
    requires
        meant_symbol(symbol_table@, file@, symbol_name@) matches Some(s) ==> has_body(s, sources@),
    ensures
        read_view(r) == implementation(symbol_table@, sources@, symbol_name@, file@),
{
    let symbol = match find_implementation(symbol_table, file, symbol_name) {
        Some(s) => s,
        None => return Err(no_symbol_message(symbol_name, file)),
    };
    let source = match sources.read(symbol.file.as_str()) {
        Ok(s) => s,
        Err(e) => return Err(not_readable_message(symbol.file.as_str(), e.as_str())),
    };
    Ok(take_body(&symbol, source.as_str()).unwrap())
}

/// The text of a symbol; nothing where its bytes do not lie in the file as it is
/// now.
pub fn try_get_implementation(
    sources: &Sources,
    symbol_table: &SymbolTable,
    symbol_name: &str,
    file: &str,
) -> (r: Option<Result<String, String>>)
    ensures
        match r {
            Some(outcome) => {
                &&& meant_symbol(symbol_table@, file@, symbol_name@) matches Some(s) ==> has_body(
                    s,
                    sources@,
                )
                &&& read_view(outcome) == implementation(
                    symbol_table@,
                    sources@,
                    symbol_name@,
                    file@,
                )
            },
            None => meant_symbol(symbol_table@, file@, symbol_name@) matches Some(s) && !has_body(
                s,
                sources@,
            ),
        },
{
    match find_implementation(symbol_table, file, symbol_name) {
        Some(symbol) => match sources.read(symbol.file.as_str()) {
            Ok(source) => if take_body(&symbol, source.as_str()).is_none() {
                return None;
            },
            Err(_) => {},
        },
        None => {},
    }
    Some(get_implementation(sources, symbol_table, symbol_name, file))
}

// ---------------------------------------------------------------------------
// Definitions
// ---------------------------------------------------------------------------

/// The message for a symbol that has a definition already.
pub open spec fn has_definition(name: Seq<char>, file: Seq<char>) -> Seq<char> {
    "Symbol '"@ + name + "' in '"@ + file + "' already has a definition. Use redefine."@
}

/// The table with the definition of a symbol set.
pub open spec fn with_definition(
    contents: Map<Seq<char>, SymbolView>,
    key: Seq<char>,
    definition: Seq<char>,
) -> Map<Seq<char>, SymbolView> {
    contents.insert(key, SymbolView { definition: Some(definition), ..contents[key] })
}

/// Why a symbol cannot be defined.
pub open spec fn define_error(
    contents: Map<Seq<char>, SymbolView>,
    name: Seq<char>,
    file: Seq<char>,
) -> Option<Seq<char>> {
    let key = key_of(file, name);
    if !contents.contains_key(key) {
        Some(no_symbol(name, file))
    } else if contents[key].definition is Some {
        Some(has_definition(name, file))
    } else {
        None
    }
}

/// Why a symbol cannot be redefined.
pub open spec fn redefine_error(
    contents: Map<Seq<char>, SymbolView>,
    name: Seq<char>,
    file: Seq<char>,
) -> Option<Seq<char>> {
    if contents.contains_key(key_of(file, name)) {
        None
    } else {
        Some(no_symbol(name, file))
    }
}

/// Sets the definition of a symbol that has none.
pub fn define_symbol(
    symbol_table: &mut SymbolTable,
    symbol_name: &str,
    file: &str,
    definition: &str,
) -> (r: Result<(), String>)
    ensures
        match r {
            Ok(_) => define_error(old(symbol_table)@, symbol_name@, file@) is None && final(symbol_table)@ == with_definition(
                old(symbol_table)@,
                key_of(file@, symbol_name@),
                definition@,
            ),
            Err(e) => define_error(old(symbol_table)@, symbol_name@, file@) == Some(e@) && final(symbol_table)@ == old(symbol_table)@,
        },
{
    match symbol_table.get(file, symbol_name) {
        Some(mut symbol) => {
            if symbol.definition.is_some() {
                let mut m = "Symbol '".to_string();
                m.append(symbol_name);
                m.append("' in '");
                m.append(file);
                m.append("' already has a definition. Use redefine.");
                return Err(m);
            }
            symbol.definition = Some(definition.to_owned());
            symbol_table.replace(file, symbol_name, symbol);
            Ok(())
        },
        None => Err(no_symbol_message(symbol_name, file)),
    }
}

/// Sets the definition of a symbol, whether it has one or not.
pub fn redefine_symbol(
    symbol_table: &mut SymbolTable,
    symbol_name: &str,
    file: &str,
    definition: &str,
) -> (r: Result<(), String>)
    ensures
        match r {
            Ok(_) => redefine_error(old(symbol_table)@, symbol_name@, file@) is None && final(symbol_table)@ == with_definition(
                old(symbol_table)@,
                key_of(file@, symbol_name@),
                definition@,
            ),
            Err(e) => redefine_error(old(symbol_table)@, symbol_name@, file@) == Some(e@) && final(symbol_table)@ == old(symbol_table)@,
        },
{
    match symbol_table.get(file, symbol_name) {
        Some(mut symbol) => {
            symbol.definition = Some(definition.to_owned());
            symbol_table.replace(file, symbol_name, symbol);
            Ok(())
        },
        None => Err(no_symbol_message(symbol_name, file)),
    }
}

// ---------------------------------------------------------------------------
// Laws
// ---------------------------------------------------------------------------

/// A definition that was set is read back; nothing else of the symbol changes, and
/// no other symbol does.
pub proof fn law_definition_is_read_back(
    contents: Map<Seq<char>, SymbolView>,
    name: Seq<char>,
    file: Seq<char>,
    definition: Seq<char>,
    other: Seq<char>,
)
    requires
        contents.contains_key(key_of(file, name)),
    ensures
        ({
            let key = key_of(file, name);
            let next = with_definition(contents, key, definition);
            &&& next[key].definition == Some(definition)
            &&& next[key] == (SymbolView { definition: Some(definition), ..contents[key] })
            &&& next.dom() == contents.dom()
            &&& other != key ==> next[other] == contents[other]
            &&& well_keyed(contents) ==> well_keyed(next)
        }),
{
    let key = key_of(file, name);
    let next = with_definition(contents, key, definition);
    assert(next.dom() =~= contents.dom());
}

/// A symbol can be defined once: the second time is refused, and says to redefine.
/// Redefining is never refused then, and the last definition holds.
pub proof fn law_defined_once(
    contents: Map<Seq<char>, SymbolView>,
    name: Seq<char>,
    file: Seq<char>,
    first: Seq<char>,
    second: Seq<char>,
)
    requires
        define_error(contents, name, file) is None,
    ensures
        ({
            let key = key_of(file, name);
            let next = with_definition(contents, key, first);
            &&& define_error(next, name, file) == Some(has_definition(name, file))
            &&& redefine_error(next, name, file) is None
            &&& with_definition(next, key, second) == with_definition(contents, key, second)
        }),
{
    let key = key_of(file, name);
    let next = with_definition(contents, key, first);
    assert(with_definition(next, key, second) =~= with_definition(contents, key, second));
}

/// A listing stands in the order of files and lines, has at most `limit` symbols, and
/// holds only symbols of the kind and the file asked for.
pub proof fn law_listing(
    contents: Map<Seq<char>, SymbolView>,
    kind: Option<SymbolKind>,
    file: Option<Seq<char>>,
    limit: int,
    i: int,
)
    requires
        0 <= limit,
        0 <= i < listed(contents, kind, file, limit).len(),
    ensures
        ({
            let items = listed(contents, kind, file, limit);
            &&& items.len() <= limit
            &&& i > 0 ==> place_le(items[i - 1], items[i])
            &&& kind matches Some(k) ==> items[i].kind == k
            &&& file matches Some(f) ==> items[i].file == f
        }),
{
    broadcast use vstd::seq_lib::group_filter_ensures;

    let base = match file {
        Some(f) => in_file(contents, f),
        None => values_in_order(contents),
    };
    let p = |s: SymbolView| kind is None || kind == Some(s.kind);
    let chosen = base.filter(p);
    let sorted = sorted_by(chosen, place_order());
    let items = listed(contents, kind, file, limit);
    lemma_place_order();
    lemma_sorted_by(chosen, place_order());
    lemma_sorted_members(chosen, place_order());
    assert(items[i] == sorted[i]);
    if i > 0 {
        assert(items[i - 1] == sorted[i - 1]);
        assert(place_order()(sorted[i - 1], sorted[i]));
    }
    assert(sorted.contains(items[i]));
    let m = choose|m: int| 0 <= m < chosen.len() && chosen[m] == items[i];
    assert(p(chosen[m]));
    base.lemma_filter_contains_rev(p, chosen[m]);
    if let Some(f) = file {
        let q = |s: SymbolView| s.file == f;
        let all = values_in_order(contents);
        let n = choose|n: int| 0 <= n < base.len() && base[n] == items[i];
        assert(q(base[n]));
    }
}

} // verus!
