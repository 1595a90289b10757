//! The symbol table of a project.
use dashmap::DashMap;
use vstd::prelude::*;
use crate::maps::{
    first_of, lemma_filter_next, lemma_filter_start, lemma_sorted_keys, lists_in_order, lists_keys,
    sorted_keys, values_in_order,
};
use crate::sorting::sort_texts;
use crate::symbols::symbol::{symbol_views, Symbol, SymbolView};
use crate::text::{contains, has_text, lowercase, same, to_lower, views};

verus! {

/// The key under which a symbol is kept.
pub open spec fn key_of(file: Seq<char>, name: Seq<char>) -> Seq<char> {
    file + "::"@ + name
}

/// The name of a symbol contains the query, letter case aside.
pub open spec fn name_matches(symbol: SymbolView, query: Seq<char>) -> bool {
    has_text(lowercase(symbol.name), lowercase(query))
}

// ---------------------------------------------------------------------------
// The map
// ---------------------------------------------------------------------------

/// What a map of symbols holds.
pub uninterp spec fn symbol_contents(map: DashMap<String, Symbol>) -> Map<Seq<char>, SymbolView>;

/// The keys of a list of entries.
pub open spec fn entry_keys(entries: Seq<(String, Symbol)>) -> Seq<Seq<char>> {
    Seq::new(entries.len(), |i: int| entries[i].0@)
}

/// Calls `DashMap::new`: the map is empty.
#[verifier::external_body]
fn new_symbols() -> (r: DashMap<String, Symbol>)
    ensures
        (symbol_contents(r) == Map::<Seq<char>, SymbolView>::empty()),
{
    DashMap::new()
}

/// Calls `DashMap::insert`: the value takes the place of any other under its key.
#[verifier::external_body]
fn put_symbol(map: &mut DashMap<String, Symbol>, key: String, value: Symbol)
    ensures
        symbol_contents(*final(map)) == symbol_contents(*old(map)).insert(key@, value@),
{
    map.insert(key, value);
}

/// Calls `DashMap::get`: a copy of the value under the key, if there is one.
#[verifier::external_body]
fn look_up_symbol(map: &DashMap<String, Symbol>, key: &str) -> (r: Option<Symbol>)
    ensures
        match r {
            Some(s) => symbol_contents(*map).contains_key(key@) && symbol_contents(*map)[key@]
                == s@,
            None => !symbol_contents(*map).contains_key(key@),
        },
{
    map.get(key).map(|entry| entry.value().clone())
}

/// Calls `DashMap::remove`: nothing is left under the key.
#[verifier::external_body]
fn drop_symbol(map: &mut DashMap<String, Symbol>, key: &str)
    ensures
        symbol_contents(*final(map)) == symbol_contents(*old(map)).remove(key@),
{
    map.remove(key);
}

/// Calls `DashMap::len`: the number of keys.
#[verifier::external_body]
fn count_symbols(map: &DashMap<String, Symbol>) -> (r: usize)
    ensures
        r == symbol_contents(*map).len(),
{
    map.len()
}

/// Calls `DashMap::iter`: each entry once, in no particular order.
#[verifier::external_body]
fn all_entries(map: &DashMap<String, Symbol>) -> (r: Vec<(String, Symbol)>)
    ensures
        lists_keys(entry_keys(r@), symbol_contents(*map)),
        forall|i: int|
            0 <= i < r@.len() ==> (#[trigger] r@[i]).1@ == symbol_contents(*map)[r@[i].0@],
{
    map.iter().map(|entry| (entry.key().clone(), entry.value().clone())).collect()
}

// ---------------------------------------------------------------------------
// The table
// ---------------------------------------------------------------------------

/// The symbols of a project, each under the key made of its file and name.
pub struct SymbolTable {
    symbols: DashMap<String, Symbol>,
}

impl View for SymbolTable {
    type V = Map<Seq<char>, SymbolView>;

    closed spec fn view(&self) -> Map<Seq<char>, SymbolView> {
        symbol_contents(self.symbols)
    }
}

/// Every symbol is kept under its own key.
pub open spec fn well_keyed(contents: Map<Seq<char>, SymbolView>) -> bool {
    forall|k: Seq<char>| #[trigger]
        contents.contains_key(k) ==> k == key_of(contents[k].file, contents[k].name)
}

/// The table with `symbol` put in.
pub open spec fn with_symbol(
    contents: Map<Seq<char>, SymbolView>,
    symbol: SymbolView,
) -> Map<Seq<char>, SymbolView> {
    contents.insert(key_of(symbol.file, symbol.name), symbol)
}

/// The table without the symbols of `file`.
pub open spec fn without_file(
    contents: Map<Seq<char>, SymbolView>,
    file: Seq<char>,
) -> Map<Seq<char>, SymbolView> {
    Map::new(
        |k: Seq<char>| contents.contains_key(k) && contents[k].file != file,
        |k: Seq<char>| contents[k],
    )
}

/// The symbols whose names contain the query, letter case aside, in the order of
/// their keys.
pub open spec fn named(contents: Map<Seq<char>, SymbolView>, query: Seq<char>) -> Seq<SymbolView> {
    values_in_order(contents).filter(|s: SymbolView| name_matches(s, query))
}

/// The symbols of a file, in the order of their keys.
pub open spec fn in_file(contents: Map<Seq<char>, SymbolView>, file: Seq<char>) -> Seq<SymbolView> {
    values_in_order(contents).filter(|s: SymbolView| s.file == file)
}

impl SymbolTable {
    /// A table without symbols.
    pub fn new() -> (r: Self)
        ensures
            r@ == Map::<Seq<char>, SymbolView>::empty(),
            well_keyed(r@),
    {
        SymbolTable { symbols: new_symbols() }
    }

    /// The key of the symbol `name` of `file`.
    pub fn make_key(file: &str, name: &str) -> (r: String)
        ensures
            r@ == key_of(file@, name@),
    {
        let mut key = file.to_owned();
        key.append("::");
        key.append(name);
        key
    }

    /// Puts a symbol into the table, in place of any other of the same file and
    /// name.
    pub fn insert(&mut self, symbol: Symbol)
        ensures
            final(self)@ == with_symbol(old(self)@, symbol@),
            well_keyed(old(self)@) ==> well_keyed(final(self)@),
    {
        let key = SymbolTable::make_key(symbol.file.as_str(), symbol.name.as_str());
        put_symbol(&mut self.symbols, key, symbol);
    }

    /// The symbol `name` of `file`.
    pub fn get(&self, file: &str, name: &str) -> (r: Option<Symbol>)
        ensures
            match r {
                Some(s) => self@.contains_key(key_of(file@, name@)) && self@[key_of(file@, name@)]
                    == s@,
                None => !self@.contains_key(key_of(file@, name@)),
            },
    {
        let key = SymbolTable::make_key(file, name);
        look_up_symbol(&self.symbols, key.as_str())
    }

    /// Puts `symbol` under the key of `file` and `name`.
    pub(crate) fn replace(&mut self, file: &str, name: &str, symbol: Symbol)
        ensures
            final(self)@ == old(self)@.insert(key_of(file@, name@), symbol@),
    {
        let key = SymbolTable::make_key(file, name);
        put_symbol(&mut self.symbols, key, symbol);
    }

    /// The number of symbols.
    pub fn len(&self) -> (r: usize)
        ensures
            r == self@.len(),
    {
        count_symbols(&self.symbols)
    }

    /// All symbols, in the order of their keys.
    pub fn all_symbols(&self) -> (r: Vec<Symbol>)
        ensures
            symbol_views(r@) == values_in_order(self@),
            lists_in_order(sorted_keys(self@), self@),
    {
        let entries = all_entries(&self.symbols);
        let mut keys: Vec<String> = Vec::new();
        let mut i: usize = 0;
        while i < entries.len()
            invariant
                i <= entries@.len(),
                keys@.len() == i,
                forall|k: int| 0 <= k < i ==> (#[trigger] keys@[k])@ == entries@[k].0@,
            decreases entries@.len() - i,
        {
            keys.push(entries[i].0.clone());
            i = i + 1;
        }
        assert(views(keys@) =~= entry_keys(entries@));
        proof {
            lemma_sorted_keys(views(keys@), self@);
        }
        let sorted = sort_texts(keys);
        let mut out: Vec<Symbol> = Vec::new();
        let mut i: usize = 0;
        while i < sorted.len()
            invariant
                i <= sorted@.len(),
                lists_keys(views(sorted@), self@),
                out@.len() == i,
                forall|k: int| 0 <= k < i ==> (#[trigger] out@[k])@ == self@[sorted@[k]@],
            decreases sorted@.len() - i,
        {
            assert(views(sorted@)[i as int] == sorted@[i as int]@);
            assert(views(sorted@).contains(sorted@[i as int]@));
            match look_up_symbol(&self.symbols, sorted[i].as_str()) {
                Some(symbol) => out.push(symbol),
                None => {},
            }
            i = i + 1;
        }
        assert(symbol_views(out@) =~= values_in_order(self@));
        out
    }

    /// The symbols of `file`, in the order of their keys.
    pub fn list_by_file(&self, file: &str) -> (r: Vec<Symbol>)
        ensures
            symbol_views(r@) == in_file(self@, file@),
            lists_in_order(sorted_keys(self@), self@),
    {
        let symbols = self.all_symbols();
        let ghost all = symbol_views(symbols@);
        let ghost p = |s: SymbolView| s.file == file@;
        let mut out: Vec<Symbol> = Vec::new();
        let mut i: usize = 0;
        proof {
            lemma_filter_start(all, p);
            assert(symbol_views(out@) =~= Seq::empty());
        }
        while i < symbols.len()
            invariant
                i <= symbols@.len(),
                all == symbol_views(symbols@),
                p == (|s: SymbolView| s.file == file@),
                symbol_views(out@) == all.take(i as int).filter(p),
            decreases symbols@.len() - i,
        {
            let ghost before = symbol_views(out@);
            proof {
                lemma_filter_next(all, p, i as int);
                assert(all[i as int] == symbols@[i as int]@);
            }
            if same(symbols[i].file.as_str(), file) {
                out.push(symbols[i].clone());
                assert(symbol_views(out@) =~= before.push(all[i as int]));
            }
            i = i + 1;
        }
        assert(all.take(i as int) =~= all);
        out
    }

    /// The first `limit` symbols whose names contain `query`, letter case aside, in
    /// the order of their keys.
    pub fn search(&self, query: &str, limit: usize) -> (r: Vec<Symbol>)
        ensures
            symbol_views(r@) == first_of(named(self@, query@), limit as int),
            lists_in_order(sorted_keys(self@), self@),
    {
        let symbols = self.all_symbols();
        let wanted = to_lower(query);
        let ghost all = symbol_views(symbols@);
        let ghost p = |s: SymbolView| name_matches(s, query@);
        let mut out: Vec<Symbol> = Vec::new();
        let mut i: usize = 0;
        proof {
            lemma_filter_start(all, p);
            assert(symbol_views(out@) =~= Seq::empty());
        }
        while i < symbols.len()
            invariant
                i <= symbols@.len(),
                all == symbol_views(symbols@),
                wanted@ == lowercase(query@),
                p == (|s: SymbolView| name_matches(s, query@)),
                symbol_views(out@) == first_of(all.take(i as int).filter(p), limit as int),
            decreases symbols@.len() - i,
        {
            let ghost before = symbol_views(out@);
            let ghost sofar = all.take(i as int).filter(p);
            proof {
                lemma_filter_next(all, p, i as int);
                assert(all[i as int] == symbols@[i as int]@);
                assert(symbol_views(out@).len() == out@.len());
            }
            let name = to_lower(symbols[i].name.as_str());
            if contains(name.as_str(), wanted.as_str()) {
                if out.len() < limit {
                    out.push(symbols[i].clone());
                    assert(symbol_views(out@) =~= before.push(all[i as int]));
                    assert(first_of(sofar.push(all[i as int]), limit as int) =~= before.push(
                        all[i as int],
                    ));
                } else {
                    assert(first_of(sofar.push(all[i as int]), limit as int) =~= before);
                }
            }
            i = i + 1;
        }
        assert(all.take(i as int) =~= all);
        out
    }

    /// Takes the symbols of `file` out of the table.
    pub fn remove_file(&mut self, file: &str)
        ensures
            final(self)@ == without_file(old(self)@, file@),
            well_keyed(old(self)@) ==> well_keyed(final(self)@),
    {
        let entries = all_entries(&self.symbols);
        let ghost before = self@;
        let ghost all = entry_keys(entries@);
        let mut i: usize = 0;
        while i < entries.len()
            invariant
                i <= entries@.len(),
                all == entry_keys(entries@),
                lists_keys(all, before),
                forall|k: int|
                    0 <= k < entries@.len() ==> (#[trigger] entries@[k]).1@
                        == before[entries@[k].0@],
                forall|k: Seq<char>| #[trigger]
                    self@.contains_key(k) <==> before.contains_key(k) && !(before[k].file == file@
                        && exists|j: int| 0 <= j < i && all[j] == k),
                forall|k: Seq<char>| #[trigger] self@.contains_key(k) ==> self@[k] == before[k],
            decreases entries@.len() - i,
        {
            let ghost key = all[i as int];
            assert(entries@[i as int].1@ == before[entries@[i as int].0@]);
            let ghost prev = self@;
            if same(entries[i].1.file.as_str(), file) {
                drop_symbol(&mut self.symbols, entries[i].0.as_str());
            }
            assert forall|k: Seq<char>| #[trigger] self@.contains_key(k) <==> before.contains_key(k)
                && !(before[k].file == file@ && exists|j: int| 0 <= j < i + 1 && all[j] == k) by {
                if k == key {
                    assert(all[i as int] == k);
                } else {
                    assert(prev.contains_key(k) == self@.contains_key(k));
                }
            }
            i = i + 1;
        }
        assert(self@ =~= without_file(before, file@)) by {
            assert forall|k: Seq<char>| #[trigger] self@.contains_key(k) <==> without_file(
                before,
                file@,
            ).contains_key(k) by {
                if before.contains_key(k) {
                    assert(all.contains(k));
                }
            }
        }
    }
}

// ---------------------------------------------------------------------------
// Laws
// ---------------------------------------------------------------------------

/// A symbol that is put into the table is found under its file and name, and
/// every other key keeps what it had.
pub proof fn law_insert_is_read_back(
    contents: Map<Seq<char>, SymbolView>,
    symbol: SymbolView,
    other: Seq<char>,
)
    ensures
        ({
            let next = with_symbol(contents, symbol);
            &&& next.contains_key(key_of(symbol.file, symbol.name))
            &&& next[key_of(symbol.file, symbol.name)] == symbol
            &&& other != key_of(symbol.file, symbol.name) ==> next.contains_key(other)
                == contents.contains_key(other) && next[other] == contents[other]
        }),
{
}

/// Once a file is removed, the table holds no symbol of it, and it still holds
/// every symbol of other files.
pub proof fn law_removed_file_has_no_symbols(
    contents: Map<Seq<char>, SymbolView>,
    file: Seq<char>,
    key: Seq<char>,
)
    ensures
        ({
            let next = without_file(contents, file);
            &&& next.contains_key(key) ==> next[key].file != file
            &&& contents.contains_key(key) && contents[key].file != file ==> next.contains_key(key)
                && next[key] == contents[key]
        }),
{
}

/// Putting symbols in and taking files out keeps every symbol under its own key.
pub proof fn law_stays_well_keyed(
    contents: Map<Seq<char>, SymbolView>,
    symbol: SymbolView,
    file: Seq<char>,
)
    requires
        well_keyed(contents),
    ensures
        well_keyed(with_symbol(contents, symbol)),
        well_keyed(without_file(contents, file)),
{
}

} // verus!
