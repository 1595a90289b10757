//! The names under which functions of Elixir are kept.
//!
//! A function of Elixir is known by its name and its arity, and its clauses are
//! definitions of their own. The first clause of `run` with two arguments is
//! named `run/2`, the second `run/2#clause2`, and so on.
use vstd::prelude::*;
use crate::symbols::symbol::{symbol_views, Symbol, SymbolKind, SymbolView};
use crate::text::{
    decimal, decimal_of, digit_of, find_char, find_from, first_place, from_chars, has_text,
    index_of_char, lemma_first_place, lemma_trimmed_away, to_chars, trim, trim_of, white_space,
};

verus! {

// ---------------------------------------------------------------------------
// Nesting
// ---------------------------------------------------------------------------

/// Where a scan stands: in a string that ends at `quote`, and right behind a
/// backslash in it.
pub struct Quoting {
    pub quote: Option<char>,
    pub escaped: bool,
}

/// Where a scan stands after the characters of `s`. A string starts at a double
/// or single quote and ends at the next such quote that no backslash precedes.
pub open spec fn quoting(s: Seq<char>) -> Quoting
    decreases s.len(),
{
    if s.len() == 0 {
        Quoting { quote: None, escaped: false }
    } else {
        let before = quoting(s.drop_last());
        match before.quote {
            Some(q) => if before.escaped {
                Quoting { quote: Some(q), escaped: false }
            } else if s.last() == '\\' {
                Quoting { quote: Some(q), escaped: true }
            } else if s.last() == q {
                Quoting { quote: None, escaped: false }
            } else {
                before
            },
            None => if s.last() == '"' || s.last() == '\'' {
                Quoting { quote: Some(s.last()), escaped: before.escaped }
            } else {
                before
            },
        }
    }
}

/// How many brackets are open after the characters of `s`, those in strings
/// aside. A closing bracket that closes nothing does not count.
pub open spec fn depth_of(s: Seq<char>, open: char, close: char) -> nat
    decreases s.len(),
{
    if s.len() == 0 {
        0
    } else {
        let before = depth_of(s.drop_last(), open, close);
        if quoting(s.drop_last()).quote is Some {
            before
        } else if s.last() == open {
            before + 1
        } else if s.last() == close && before > 0 {
            (before - 1) as nat
        } else {
            before
        }
    }
}

/// A parenthesis at `i` closes what is open since `open`.
pub open spec fn closes_at(text: Seq<char>, open: int, i: int) -> bool {
    &&& open <= i < text.len()
    &&& text[i] == ')'
    &&& quoting(text.subrange(open, i)).quote is None
    &&& depth_of(text.subrange(open, i + 1), '(', ')') == 0
}

/// The first parenthesis that closes what is open since `open`.
pub open spec fn is_matching_paren(text: Seq<char>, open: int, i: int) -> bool {
    &&& closes_at(text, open, i)
    &&& forall|j: int| open <= j < i ==> !closes_at(text, open, j)
}

/// The first parenthesis that closes what is open since `open`.
pub open spec fn matching_paren(text: Seq<char>, open: int) -> Option<int> {
    if exists|i: int| is_matching_paren(text, open, i) {
        Some(choose|i: int| is_matching_paren(text, open, i))
    } else {
        None
    }
}

/// The state of a scan after one more character.
fn next_quote(quote: Option<char>, escaped: bool, c: char) -> (r: (Option<char>, bool))
    ensures
        forall|s: Seq<char>|
            s.len() > 0 && s.last() == c && quoting(s.drop_last()) == (Quoting { quote, escaped })
                ==> #[trigger] quoting(s) == (Quoting { quote: r.0, escaped: r.1 }),
{
    match quote {
        Some(q) => if escaped {
            (Some(q), false)
        } else if c == '\\' {
            (Some(q), true)
        } else if c == q {
            (None, false)
        } else {
            (Some(q), escaped)
        },
        None => if c == '"' || c == '\'' {
            (Some(c), escaped)
        } else {
            (None, escaped)
        },
    }
}

/// The parenthesis that closes the one at `open`, in characters.
pub fn find_matching_paren(text: &Vec<char>, open: usize) -> (r: Option<usize>)
    requires
        open <= text@.len(),
    ensures
        match r {
            Some(i) => matching_paren(text@, open as int) == Some(i as int) && is_matching_paren(
                text@,
                open as int,
                i as int,
            ),
            None => matching_paren(text@, open as int) is None,
        },
{
    let mut depth: usize = 0;
    let mut quote: Option<char> = None;
    let mut escaped = false;
    let mut i: usize = open;
    while i < text.len()
        invariant
            open <= i <= text@.len(),
            quoting(text@.subrange(open as int, i as int)) == (Quoting { quote, escaped }),
            depth == depth_of(text@.subrange(open as int, i as int), '(', ')'),
            depth <= i - open,
            forall|j: int| open <= j < i ==> !closes_at(text@, open as int, j),
        decreases text@.len() - i,
    {
        let c = text[i];
        let ghost seen = text@.subrange(open as int, i as int);
        let ghost next = text@.subrange(open as int, i + 1);
        assert(next.drop_last() =~= seen);
        assert(next.last() == c);
        let (q, e) = next_quote(quote, escaped, c);
        if quote.is_none() {
            if c == '(' {
                depth = depth + 1;
            } else if c == ')' {
                if depth > 0 {
                    depth = depth - 1;
                }
                if depth == 0 {
                    assert(is_matching_paren(text@, open as int, i as int));
                    proof {
                        let k = choose|k: int| is_matching_paren(text@, open as int, k);
                        assert(k == i);
                    }
                    return Some(i);
                }
            }
        }
        quote = q;
        escaped = e;
        i = i + 1;
    }
    None
}

// ---------------------------------------------------------------------------
// Arity
// ---------------------------------------------------------------------------

/// A comma at `i` that separates arguments: in no string and in no brackets.
pub open spec fn separates(args: Seq<char>, i: int) -> bool {
    let before = args.take(i);
    &&& args[i] == ','
    &&& quoting(before).quote is None
    &&& depth_of(before, '(', ')') == 0
    &&& depth_of(before, '[', ']') == 0
    &&& depth_of(before, '{', '}') == 0
}

/// The number of separating commas among the first `n` characters.
pub open spec fn separators(args: Seq<char>, n: int) -> nat
    decreases n,
{
    if n <= 0 {
        0
    } else {
        separators(args, n - 1) + if separates(args, n - 1) {
            1nat
        } else {
            0
        }
    }
}

/// The number of arguments in a list: one more than there are separating
/// commas, and none where there is only white space.
pub open spec fn argument_count(args: Seq<char>) -> nat {
    if trim_of(args).len() == 0 {
        0
    } else {
        separators(args, args.len() as int) + 1
    }
}

/// The depth of one kind of brackets after one more character outside strings.
fn next_depth(depth: usize, c: char, open: char, close: char) -> (r: usize)
    requires
        depth < usize::MAX,
    ensures
        r <= depth + 1,
        r == (if c == open {
            depth + 1
        } else if c == close && depth > 0 {
            depth - 1
        } else {
            depth as int
        }),
{
    if c == open {
        depth + 1
    } else if c == close && depth > 0 {
        depth - 1
    } else {
        depth
    }
}

/// The number of arguments in a list.
pub fn count_elixir_arguments(args: &str) -> (r: usize)
    requires
        args@.len() < usize::MAX,
    ensures
        r == argument_count(args@),
{
    let trimmed = trim(args);
    if trimmed.as_str().is_empty() {
        return 0;
    }
    let chars = to_chars(args);
    let mut count: usize = 0;
    let mut parens: usize = 0;
    let mut brackets: usize = 0;
    let mut braces: usize = 0;
    let mut quote: Option<char> = None;
    let mut escaped = false;
    let mut i: usize = 0;
    let total: usize = chars.len();
    assert(args@.take(0) =~= Seq::empty());
    while i < total
        invariant
            chars@ == args@,
            total == chars@.len(),
            i <= total,
            quoting(args@.take(i as int)) == (Quoting { quote, escaped }),
            parens == depth_of(args@.take(i as int), '(', ')'),
            brackets == depth_of(args@.take(i as int), '[', ']'),
            braces == depth_of(args@.take(i as int), '{', '}'),
            parens <= i,
            brackets <= i,
            braces <= i,
            count == separators(args@, i as int),
            count <= i,
        decreases total - i,
    {
        let c = chars[i];
        let ghost next = args@.take(i + 1);
        assert(next.drop_last() =~= args@.take(i as int));
        assert(next.last() == c);
        let (q, e) = next_quote(quote, escaped, c);
        if quote.is_none() {
            if c == ',' && parens == 0 && brackets == 0 && braces == 0 {
                count = count + 1;
            }
            parens = next_depth(parens, c, '(', ')');
            brackets = next_depth(brackets, c, '[', ']');
            braces = next_depth(braces, c, '{', '}');
        }
        quote = q;
        escaped = e;
        i = i + 1;
    }
    count + 1
}

/// Outside strings nothing is escaped.
proof fn lemma_not_escaped(s: Seq<char>)
    ensures
        quoting(s).quote is None ==> !quoting(s).escaped,
    decreases s.len(),
{
    if s.len() > 0 {
        lemma_not_escaped(s.drop_last());
    }
}

/// Behind a text that ends outside strings and with all brackets closed, a scan goes on as
/// if nothing had been before.
proof fn lemma_scan_starts_anew(p: Seq<char>, t: Seq<char>, open: char, close: char)
    requires
        quoting(p).quote is None,
        depth_of(p, open, close) == 0,
    ensures
        quoting(p + t) == quoting(t),
        depth_of(p + t, open, close) == depth_of(t, open, close),
    decreases t.len(),
{
    lemma_not_escaped(p);
    if t.len() == 0 {
        assert(p + t =~= p);
    } else {
        assert((p + t).drop_last() =~= p + t.drop_last());
        assert((p + t).last() == t.last());
        lemma_scan_starts_anew(p, t.drop_last(), open, close);
    }
}

/// The commas in front do not depend on what follows.
proof fn lemma_separators_of_front(p: Seq<char>, t: Seq<char>, n: int)
    requires
        0 <= n <= p.len(),
    ensures
        separators(p + t, n) == separators(p, n),
    decreases n,
{
    if n > 0 {
        lemma_separators_of_front(p, t, n - 1);
        assert((p + t).take(n - 1) =~= p.take(n - 1));
        assert((p + t)[n - 1] == p[n - 1]);
    }
}

/// The commas behind a text in which everything is closed are those of what follows.
proof fn lemma_separators_of_rest(p: Seq<char>, t: Seq<char>, n: int)
    requires
        is_closed(p),
        0 <= n <= t.len(),
    ensures
        separators(p + t, p.len() + n) == separators(p, p.len() as int) + separators(t, n),
    decreases n,
{
    if n == 0 {
        lemma_separators_of_front(p, t, p.len() as int);
    } else {
        lemma_separators_of_rest(p, t, n - 1);
        let front = t.take(n - 1);
        assert((p + t).take(p.len() + n - 1) =~= p + front);
        assert((p + t)[p.len() + n - 1] == t[n - 1]);
        lemma_scan_starts_anew(p, front, '(', ')');
        lemma_scan_starts_anew(p, front, '[', ']');
        lemma_scan_starts_anew(p, front, '{', '}');
    }
}

/// A text ends outside strings, and with all brackets closed.
pub open spec fn is_closed(s: Seq<char>) -> bool {
    &&& quoting(s).quote is None
    &&& depth_of(s, '(', ')') == 0
    &&& depth_of(s, '[', ']') == 0
    &&& depth_of(s, '{', '}') == 0
}

/// A text is blank: it holds nothing but white space.
pub open spec fn is_blank(s: Seq<char>) -> bool {
    forall|i: int| 0 <= i < s.len() ==> white_space(#[trigger] s[i])
}

/// A list has no arguments exactly where it is blank; and where it is not, and holds no
/// comma, it has one.
pub proof fn law_blank_list_has_no_arguments(args: Seq<char>)
    ensures
        argument_count(args) == 0 <==> is_blank(args),
        !is_blank(args) && !args.contains(',') ==> argument_count(args) == 1,
{
    lemma_trimmed_away(args);
    if !args.contains(',') {
        lemma_no_separators(args, args.len() as int);
    }
}

proof fn lemma_no_separators(args: Seq<char>, n: int)
    requires
        !args.contains(','),
        n <= args.len(),
    ensures
        separators(args, n) == 0,
    decreases n,
{
    if n > 0 {
        lemma_no_separators(args, n - 1);
        assert(args.contains(args[n - 1]));
    }
}

/// Two lists with a comma between them have the arguments of both, where neither is blank
/// and everything that the first one opens is closed in it.
pub proof fn law_arguments_add_up(a: Seq<char>, b: Seq<char>)
    requires
        !is_blank(a),
        !is_blank(b),
        is_closed(a),
    ensures
        argument_count(a + ","@ + b) == argument_count(a) + argument_count(b),
{
    reveal_strlit(",");
    let p = a.push(',');
    assert(a + ","@ + b =~= p + b);
    assert(p.drop_last() =~= a);
    assert(is_closed(p));
    lemma_separators_of_rest(p, b, b.len() as int);
    assert(p =~= a + seq![',']);
    lemma_separators_of_front(a, seq![','], a.len() as int);
    assert(p.take(a.len() as int) =~= a);
    assert(separates(p, a.len() as int));
    lemma_trimmed_away(a);
    lemma_trimmed_away(b);
    lemma_trimmed_away(p + b);
    let i = choose|i: int| 0 <= i < a.len() && !white_space(#[trigger] a[i]);
    assert((p + b)[i] == a[i]);
}

/// A text closes no bracket of this kind that it does not open, those in strings aside.
pub open spec fn closes_its_own(s: Seq<char>, open: char, close: char) -> bool {
    forall|k: int|
        #![trigger s[k]]
        0 <= k < s.len() && s[k] == close && quoting(s.take(k)).quote is None ==> depth_of(
            s.take(k),
            open,
            close,
        ) > 0
}

/// Brackets of one kind.
pub open spec fn are_brackets(open: char, close: char) -> bool {
    ||| open == '(' && close == ')'
    ||| open == '[' && close == ']'
    ||| open == '{' && close == '}'
}

/// Behind an open bracket everything is one deeper.
pub proof fn lemma_one_deeper(s: Seq<char>, open: char, close: char, n: int)
    requires
        are_brackets(open, close),
        closes_its_own(s, open, close),
        0 <= n <= s.len(),
    ensures
        quoting(seq![open] + s.take(n)) == quoting(s.take(n)),
        depth_of(seq![open] + s.take(n), open, close) == 1 + depth_of(s.take(n), open, close),
    decreases n,
{
    let front = seq![open];
    if n == 0 {
        let none = Seq::<char>::empty();
        assert(s.take(0) =~= none);
        assert(front + s.take(0) =~= front);
        assert(front.drop_last() =~= none);
        assert(front.last() == open);
        assert(quoting(none) == (Quoting { quote: None, escaped: false }));
        assert(depth_of(none, open, close) == 0);
        assert(quoting(front) == quoting(none));
        assert(depth_of(front, open, close) == 1);
    } else {
        lemma_one_deeper(s, open, close, n - 1);
        let before = s.take(n - 1);
        let now = s.take(n);
        assert(now.drop_last() =~= before);
        assert((front + now).drop_last() =~= front + before);
        assert((front + now).last() == s[n - 1]);
        assert(now.last() == s[n - 1]);
    }
}

/// Commas within brackets separate nothing: a list in brackets is one argument, where all
/// that is closed in it is opened in it.
pub proof fn law_brackets_hold_one_argument(s: Seq<char>, open: char, close: char)
    requires
        are_brackets(open, close),
        closes_its_own(s, open, close),
    ensures
        argument_count(seq![open] + s + seq![close]) == 1,
{
    let whole = seq![open] + s + seq![close];
    lemma_trimmed_away(whole);
    assert(whole[0] == open);
    assert(!white_space(open));
    lemma_bracketed(s, open, close, whole.len() as int);
}

proof fn lemma_bracketed(s: Seq<char>, open: char, close: char, n: int)
    requires
        are_brackets(open, close),
        closes_its_own(s, open, close),
        0 <= n <= s.len() + 2,
    ensures
        separators(seq![open] + s + seq![close], n) == 0,
    decreases n,
{
    let whole = seq![open] + s + seq![close];
    if n > 0 {
        lemma_bracketed(s, open, close, n - 1);
        if n == 1 {
            assert(whole[0] == open);
        } else if n == s.len() + 2 {
            assert(whole[n - 1] == close);
        } else {
            assert(whole.take(n - 1) =~= seq![open] + s.take(n - 2));
            lemma_one_deeper(s, open, close, n - 2);
        }
    }
}

/// Commas within a string separate nothing: a string that holds neither its quote nor a
/// backslash is one argument.
pub proof fn law_string_is_one_argument(s: Seq<char>, quote: char)
    requires
        quote == '"' || quote == '\'',
        !s.contains(quote),
        !s.contains('\\'),
    ensures
        argument_count(seq![quote] + s + seq![quote]) == 1,
{
    let whole = seq![quote] + s + seq![quote];
    lemma_trimmed_away(whole);
    assert(whole[0] == quote);
    assert(!white_space(quote));
    lemma_quoted(s, quote, whole.len() as int);
}

proof fn lemma_quoted(s: Seq<char>, quote: char, n: int)
    requires
        quote == '"' || quote == '\'',
        !s.contains(quote),
        !s.contains('\\'),
        0 <= n <= s.len() + 2,
    ensures
        separators(seq![quote] + s + seq![quote], n) == 0,
        1 <= n <= s.len() + 1 ==> quoting((seq![quote] + s + seq![quote]).take(n)) == (Quoting {
            quote: Some(quote),
            escaped: false,
        }),
    decreases n,
{
    let whole = seq![quote] + s + seq![quote];
    if n > 0 {
        lemma_quoted(s, quote, n - 1);
        assert(whole.take(n).drop_last() =~= whole.take(n - 1));
        assert(whole.take(n).last() == whole[n - 1]);
        if n == 1 {
            assert(whole[0] == quote);
            assert(whole.take(0) =~= Seq::empty());
        } else if n <= s.len() + 1 {
            assert(whole[n - 1] == s[n - 2]);
            assert(s.contains(s[n - 2]));
        } else {
            assert(whole[n - 1] == quote);
        }
    }
}

/// The arity of the function `name` in the first line of its definition: the
/// number of arguments between the first parenthesis behind the name and the one
/// that closes it; 0 where there are no such parentheses.
pub open spec fn arity_of(signature: Seq<char>, name: Seq<char>) -> nat {
    if !has_text(signature, name) {
        0
    } else {
        let behind = first_place(signature, name) + name.len();
        let open = behind + index_of_char(signature.skip(behind), '(');
        if open >= signature.len() {
            0
        } else {
            match matching_paren(signature, open) {
                Some(close) => argument_count(signature.subrange(open + 1, close)),
                None => 0,
            }
        }
    }
}

/// The arity of the function `name` in the first line of its definition.
pub fn elixir_arity_from_signature(signature: &str, name: &str) -> (r: usize)
    ensures
        r == arity_of(signature@, name@),
{
    let text = to_chars(signature);
    let wanted = to_chars(name);
    let at: usize = match find_from(&text, &wanted, 0) {
        Some(at) => at,
        None => {
            assert(!has_text(signature@, name@));
            return 0;
        },
    };
    proof {
        lemma_first_place(signature@, name@, at as int);
    }
    let total: usize = text.len();
    assert(at + wanted@.len() <= total);
    let behind: usize = at + wanted.len();
    let open = find_char(&text, '(', behind);
    if open == text.len() {
        return 0;
    }
    match find_matching_paren(&text, open) {
        Some(close) => {
            assert(close != open);
            let args = from_chars(&text, open + 1, close);
            count_elixir_arguments(args.as_str())
        },
        None => 0,
    }
}

// ---------------------------------------------------------------------------
// Identities
// ---------------------------------------------------------------------------

/// The name of a function with its arity.
pub open spec fn with_arity(symbol: SymbolView) -> Seq<char> {
    symbol.name + "/"@ + decimal_of(arity_of(symbol.signature, symbol.name))
}

/// How many of the first `n` symbols are functions with the name and arity
/// `base`.
pub open spec fn clauses(symbols: Seq<SymbolView>, base: Seq<char>, n: int) -> nat
    decreases n,
{
    if n <= 0 {
        0
    } else {
        clauses(symbols, base, n - 1) + if symbols[n - 1].kind == SymbolKind::Function
            && with_arity(symbols[n - 1]) == base {
            1nat
        } else {
            0
        }
    }
}

/// The name of clause number `k` of the function `base`.
pub open spec fn clause_name(base: Seq<char>, k: nat) -> Seq<char> {
    if k == 1 {
        base
    } else {
        base + "#clause"@ + decimal_of(k)
    }
}

/// Symbol `i` under the name by which it is kept: only functions are renamed.
pub open spec fn identified(symbols: Seq<SymbolView>, i: int) -> SymbolView {
    let symbol = symbols[i];
    if symbol.kind == SymbolKind::Function {
        let base = with_arity(symbol);
        SymbolView { name: clause_name(base, clauses(symbols, base, i + 1)), ..symbol }
    } else {
        symbol
    }
}

/// The symbols under the names by which they are kept.
pub open spec fn identities(symbols: Seq<SymbolView>) -> Seq<SymbolView> {
    Seq::new(symbols.len(), |i: int| identified(symbols, i))
}

/// The name of a function with its arity.
fn name_with_arity(symbol: &Symbol) -> (r: String)
    ensures
        r@ == with_arity(symbol@),
{
    let arity = elixir_arity_from_signature(symbol.signature.as_str(), symbol.name.as_str());
    let digits = decimal(arity);
    let mut base = symbol.name.clone();
    base.append("/");
    base.append(digits.as_str());
    base
}

/// Gives each function of a file of Elixir the name by which it is kept.
pub fn apply_elixir_function_identities(symbols: &mut Vec<Symbol>)
    ensures
        symbol_views(final(symbols)@) == identities(symbol_views(old(symbols)@)),
{
    let ghost before = symbol_views(symbols@);
    let total: usize = symbols.len();
    let mut bases: Vec<String> = Vec::new();
    let mut i: usize = 0;
    while i < total
        invariant
            i <= total == symbols@.len(),
            before == symbol_views(symbols@),
            bases@.len() == i,
            forall|k: int| 0 <= k < i ==> (#[trigger] bases@[k])@ == with_arity(before[k]),
        decreases total - i,
    {
        let base = name_with_arity(&symbols[i]);
        assert(before[i as int] == symbols@[i as int]@);
        bases.push(base);
        i = i + 1;
    }
    let mut out: Vec<Symbol> = Vec::new();
    let mut i: usize = 0;
    while i < total
        invariant
            i <= total == symbols@.len(),
            before == symbol_views(symbols@),
            bases@.len() == total,
            forall|k: int| 0 <= k < total ==> (#[trigger] bases@[k])@ == with_arity(before[k]),
            out@.len() == i,
            forall|k: int| 0 <= k < i ==> (#[trigger] out@[k])@ == identified(before, k),
        decreases total - i,
    {
        let mut symbol = symbols[i].clone();
        assert(before[i as int] == symbol@);
        assert(bases@[i as int]@ == with_arity(before[i as int]));
        if symbol.kind == SymbolKind::Function {
            let mut count: usize = 1;
            let mut j: usize = 0;
            let ghost base = bases@[i as int]@;
            while j < i
                invariant
                    j <= i < total == symbols@.len(),
                    before == symbol_views(symbols@),
                    bases@.len() == total,
                    base == bases@[i as int]@,
                    forall|k: int|
                        0 <= k < total ==> (#[trigger] bases@[k])@ == with_arity(before[k]),
                    count == clauses(before, base, j as int) + 1,
                    count <= j + 1,
                decreases i - j,
            {
                assert(bases@[j as int]@ == with_arity(before[j as int]));
                assert(before[j as int] == symbols@[j as int]@);
                if symbols[j].kind == SymbolKind::Function && bases[j] == bases[i] {
                    count = count + 1;
                }
                j = j + 1;
            }
            let mut name = bases[i].clone();
            if count != 1 {
                let number = decimal(count);
                name.append("#clause");
                name.append(number.as_str());
            }
            symbol.name = name;
            assert(symbol@ == identified(before, i as int));
        }
        out.push(symbol);
        i = i + 1;
    }
    *symbols = out;
    assert(symbol_views(symbols@) =~= identities(before));
}

// ---------------------------------------------------------------------------
// No two functions share a name
// ---------------------------------------------------------------------------

/// A decimal digit.
pub open spec fn is_digit(c: char) -> bool {
    '0' <= c && c <= '9'
}

/// A number in decimal is made of digits.
proof fn lemma_decimal_is_digits(n: nat)
    ensures
        decimal_of(n).len() >= 1,
        forall|i: int| 0 <= i < decimal_of(n).len() ==> is_digit(#[trigger] decimal_of(n)[i]),
    decreases n,
{
    if n >= 10 {
        lemma_decimal_is_digits(n / 10);
    }
}

/// Numbers that read the same are the same.
proof fn lemma_decimal_injective(a: nat, b: nat)
    requires
        decimal_of(a) == decimal_of(b),
    ensures
        a == b,
    decreases a,
{
    lemma_decimal_is_digits(a / 10);
    lemma_decimal_is_digits(b / 10);
    assert(decimal_of(a).last() == digit_of(a % 10));
    assert(decimal_of(b).last() == digit_of(b % 10));
    assert(digit_of(a % 10) as int == 48 + a % 10);
    assert(digit_of(b % 10) as int == 48 + b % 10);
    if a >= 10 && b >= 10 {
        assert(decimal_of(a).drop_last() =~= decimal_of(a / 10));
        assert(decimal_of(b).drop_last() =~= decimal_of(b / 10));
        lemma_decimal_injective(a / 10, b / 10);
    } else if a >= 10 {
        assert(decimal_of(a).len() >= 2);
    } else if b >= 10 {
        assert(decimal_of(b).len() >= 2);
    }
}

/// Where the digits at the end of a text begin is settled by the text.
proof fn lemma_trailing_digits(a: Seq<char>, x: Seq<char>, b: Seq<char>, y: Seq<char>)
    requires
        a + x == b + y,
        a.len() > 0,
        b.len() > 0,
        !is_digit(a.last()),
        !is_digit(b.last()),
        forall|i: int| 0 <= i < x.len() ==> is_digit(#[trigger] x[i]),
        forall|i: int| 0 <= i < y.len() ==> is_digit(#[trigger] y[i]),
    ensures
        a == b,
        x == y,
{
    let whole = a + x;
    assert(whole.len() == a.len() + x.len());
    assert((b + y).len() == b.len() + y.len());
    if x.len() > y.len() {
        assert(whole[b.len() - 1] == b.last());
        assert(whole[b.len() - 1] == x[b.len() - 1 - a.len()]);
        assert(false);
    }
    if y.len() > x.len() {
        assert(whole[a.len() - 1] == a.last());
        assert((b + y)[a.len() - 1] == y[a.len() - 1 - b.len()]);
        assert(false);
    }
    assert(a =~= whole.take(a.len() as int));
    assert(b =~= (b + y).take(b.len() as int));
    assert(x =~= whole.skip(a.len() as int));
    assert(y =~= (b + y).skip(b.len() as int));
}

/// The number of clauses grows from symbol to symbol.
proof fn lemma_clauses_grow(symbols: Seq<SymbolView>, base: Seq<char>, m: int, n: int)
    requires
        m <= n,
    ensures
        clauses(symbols, base, m) <= clauses(symbols, base, n),
    decreases n - m,
{
    if m < n {
        lemma_clauses_grow(symbols, base, m, n - 1);
    }
}

/// No two functions of a file are kept under one name.
pub proof fn law_identities_are_distinct(symbols: Seq<SymbolView>, i: int, j: int)
    requires
        0 <= i < j < symbols.len(),
        symbols[i].kind == SymbolKind::Function,
        symbols[j].kind == SymbolKind::Function,
    ensures
        identities(symbols)[i].name != identities(symbols)[j].name,
{
    let a = with_arity(symbols[i]);
    let b = with_arity(symbols[j]);
    let m = clauses(symbols, a, i + 1);
    let n = clauses(symbols, b, j + 1);
    let da = decimal_of(arity_of(symbols[i].signature, symbols[i].name));
    let db = decimal_of(arity_of(symbols[j].signature, symbols[j].name));
    let pa = symbols[i].name + "/"@;
    let pb = symbols[j].name + "/"@;
    reveal_strlit("/");
    reveal_strlit("#clause");
    lemma_decimal_is_digits(arity_of(symbols[i].signature, symbols[i].name));
    lemma_decimal_is_digits(arity_of(symbols[j].signature, symbols[j].name));
    lemma_decimal_is_digits(m);
    lemma_decimal_is_digits(n);
    lemma_clauses_grow(symbols, a, 0, i);
    lemma_clauses_grow(symbols, b, 0, j);
    if a == b {
        lemma_clauses_grow(symbols, a, i + 1, j);
        assert(m < n);
    }
    assert(pa.last() == '/' && pb.last() == '/');
    let qa = a + "#clause"@;
    let qb = b + "#clause"@;
    assert(qa.last() == 'e' && qb.last() == 'e');
    if clause_name(a, m) == clause_name(b, n) {
        if m == 1 && n == 1 {
            assert(false);
        } else if m == 1 {
            lemma_trailing_digits(pa, da, qb, decimal_of(n));
            assert(false);
        } else if n == 1 {
            lemma_trailing_digits(qa, decimal_of(m), pb, db);
            assert(false);
        } else {
            lemma_trailing_digits(qa, decimal_of(m), qb, decimal_of(n));
            lemma_decimal_injective(m, n);
            assert(a =~= qa.take(a.len() as int));
            assert(b =~= qb.take(b.len() as int));
            assert(false);
        }
    }
}

} // verus!
