//! How functions of one name are told apart.
use vstd::prelude::*;
use crate::laws::text::{holds, is_around, law_decimal, law_texts_are_found, number_said};
use crate::maps::{lemma_filter_next, lemma_filter_start};
use crate::symbols::identity::{
    argument_count, arity_of, clauses, closes_at, closes_its_own, depth_of, identities,
    is_matching_paren, lemma_one_deeper, matching_paren, quoting, with_arity,
};
use crate::symbols::symbol::{SymbolKind, SymbolView};
use crate::text::{
    decimal_of, first_place, has_text, is_first_occurrence, lemma_first_place, lemma_index_of_char,
    occurs_at,
};

verus! {

/// A name stands in a text behind `front`, and nowhere before.
pub open spec fn stands_first(
    text: Seq<char>,
    front: Seq<char>,
    name: Seq<char>,
    back: Seq<char>,
) -> bool {
    &&& is_around(text, front, name, back)
    &&& forall|f: Seq<char>, b: Seq<char>| #[trigger]
        is_around(text, f, name, b) ==> front.len() <= f.len()
}

/// The first place of a name.
proof fn lemma_stands_first(
    text: Seq<char>,
    front: Seq<char>,
    name: Seq<char>,
    back: Seq<char>,
)
    requires
        stands_first(text, front, name, back),
    ensures
        has_text(text, name),
        first_place(text, name) == front.len(),
        text.skip((front.len() + name.len()) as int) == back,
{
    let n = front.len() as int;
    let m = name.len() as int;
    assert(text.subrange(n, n + m) =~= name);
    assert(occurs_at(text, name, n));
    assert forall|j: int| 0 <= j < n implies !occurs_at(text, name, j) by {
        if occurs_at(text, name, j) {
            assert(text.subrange(j, j + m) == name);
            assert(text =~= text.take(j) + name + text.skip(j + m));
            assert(is_around(text, text.take(j), name, text.skip(j + m)));
        }
    }
    assert(is_first_occurrence(text, name, 0, n));
    lemma_first_place(text, name, n);
    assert(text.skip(n + m) =~= back);
}

/// Arguments that are closed: no string is left open, and every bracket that closes one was
/// opened in them.
pub open spec fn are_whole(args: Seq<char>) -> bool {
    &&& quoting(args).quote is None
    &&& depth_of(args, '(', ')') == 0
    &&& closes_its_own(args, '(', ')')
}

/// The arity of a function whose name is followed by arguments in brackets is their number;
/// a name without brackets behind it, and a name that does not stand in the signature, have
/// no arguments.
pub proof fn law_arity(
    front: Seq<char>,
    name: Seq<char>,
    gap: Seq<char>,
    args: Seq<char>,
    back: Seq<char>,
)
    requires
        !gap.contains('('),
        are_whole(args),
    ensures
        ({
            let rest = gap + seq!['('] + args + seq![')'] + back;
            stands_first(front + name + rest, front, name, rest) ==> arity_of(
                front + name + rest,
                name,
            ) == argument_count(args)
        }),
        stands_first(front + name + gap, front, name, gap) ==> arity_of(front + name + gap, name)
            == 0,
        !holds(front, name) ==> arity_of(front, name) == 0,
{
    law_texts_are_found(front, name);
    let n = gap.len() as int;
    assert forall|j: int| 0 <= j < n implies gap[j] != '(' by {
        assert(gap.contains(gap[j]));
    }
    if stands_first(front + name + gap, front, name, gap) {
        lemma_stands_first(front + name + gap, front, name, gap);
        lemma_index_of_char(gap, '(', n);
    }
    let rest = gap + seq!['('] + args + seq![')'] + back;
    let text = front + name + rest;
    if stands_first(text, front, name, rest) {
        lemma_stands_first(text, front, name, rest);
        assert(rest[n] == '(');
        assert forall|j: int| 0 <= j < n implies rest[j] != '(' by {
            assert(rest[j] == gap[j]);
        }
        lemma_index_of_char(rest, '(', n);
        let open = front.len() + name.len() + n;
        let close = open + 1 + args.len();
        assert(text.subrange(open + 1, close) =~= args);
        assert(has_brackets_at(text, args, open));
        lemma_closing(text, args, open);
    }
}

/// A text has arguments in brackets from a place on.
spec fn has_brackets_at(text: Seq<char>, args: Seq<char>, open: int) -> bool {
    &&& 0 <= open
    &&& open + args.len() + 2 <= text.len()
    &&& text[open] == '('
    &&& text[open + 1 + args.len()] == ')'
    &&& text.subrange(open + 1, open + 1 + args.len()) == args
}

/// The bracket behind the arguments closes the one before them.
proof fn lemma_closes_there(text: Seq<char>, args: Seq<char>, open: int)
    requires
        quoting(seq!['('] + args).quote is None,
        depth_of(seq!['('] + args, '(', ')') == 1,
        has_brackets_at(text, args, open),
    ensures
        closes_at(text, open, open + 1 + args.len()),
{
    let n = args.len() as int;
    let close = open + 1 + n;
    assert(text.subrange(open, close) =~= seq!['('] + args) by {
        assert forall|i: int| 0 <= i < n implies text[open + 1 + i] == args[i] by {
            assert(text.subrange(open + 1, close)[i] == text[open + 1 + i]);
        }
    }
    let upto = text.subrange(open, close);
    let whole = text.subrange(open, close + 1);
    assert(whole =~= upto.push(')'));
    lemma_closed_by(upto);
}

/// A closing bracket ends the only bracket that is open.
proof fn lemma_closed_by(s: Seq<char>)
    requires
        quoting(s).quote is None,
        depth_of(s, '(', ')') == 1,
    ensures
        depth_of(s.push(')'), '(', ')') == 0,
{
    assert(s.push(')').drop_last() =~= s);
}

/// No bracket among the arguments does.
proof fn lemma_closes_nowhere_before(text: Seq<char>, args: Seq<char>, open: int, j: int)
    requires
        are_whole(args),
        has_brackets_at(text, args, open),
        open <= j < open + 1 + args.len(),
    ensures
        !closes_at(text, open, j),
{
    if closes_at(text, open, j) {
        let k = j - open - 1;
        let n = args.len() as int;
        assert(0 <= k < n);
        assert(text.subrange(open + 1, open + 1 + n)[k] == text[j]);
        assert(args[k] == ')');
        lemma_one_deeper(args, '(', ')', k);
        assert(text.subrange(open, j) =~= seq!['('] + args.take(k)) by {
            assert forall|i: int| 0 <= i < k implies text[open + 1 + i] == args[i] by {
                assert(text.subrange(open + 1, open + 1 + n)[i] == text[open + 1 + i]);
            }
        }
        let upto = text.subrange(open, j + 1);
        assert(upto.drop_last() =~= text.subrange(open, j));
        assert(upto.last() == ')');
        assert(quoting(args.take(k)).quote is None);
        assert(depth_of(args.take(k), '(', ')') > 0);
        assert(depth_of(upto.drop_last(), '(', ')') > 1);
        assert(depth_of(upto, '(', ')') > 0);
    }
}

/// Arguments in brackets end with the bracket behind them.
proof fn lemma_closing(text: Seq<char>, args: Seq<char>, open: int)
    requires
        are_whole(args),
        has_brackets_at(text, args, open),
    ensures
        matching_paren(text, open) == Some(open + 1 + args.len()),
{
    let close = open + 1 + args.len();
    assert(quoting(seq!['('] + args).quote is None && depth_of(seq!['('] + args, '(', ')') == 1)
        by {
        let n = args.len() as int;
        lemma_one_deeper(args, '(', ')', n);
        assert(args.take(n) =~= args);
    }
    lemma_closes_there(text, args, open);
    assert forall|j: int| open <= j < close implies !closes_at(text, open, j) by {
        lemma_closes_nowhere_before(text, args, open, j);
    }
    assert(is_matching_paren(text, open, close));
    let found = choose|i: int| is_matching_paren(text, open, i);
    assert(is_matching_paren(text, open, found));
    assert(found == close);
}

/// Reading on by one character: outside of strings a quote opens one; within one a
/// backslash escapes what follows it, and its quote closes it unless it is escaped. Outside
/// of strings an opening bracket leads one deeper and a closing one back, but not below the
/// start; within strings brackets do not count.
pub proof fn law_reading_on(s: Seq<char>, c: char, open: char, close: char)
    requires
        open != close,
    ensures
        quoting(Seq::<char>::empty()).quote is None,
        depth_of(Seq::<char>::empty(), open, close) == 0,
        ({
            let now = quoting(s);
            let next = quoting(s.push(c));
            let depth = depth_of(s, open, close);
            let deeper = depth_of(s.push(c), open, close);
            &&& now.quote is None && (c == '"' || c == '\'') ==> next.quote == Some(c)
            &&& now.quote is None && c != '"' && c != '\'' ==> next == now
            &&& now.quote is Some && now.escaped ==> next.quote == now.quote && !next.escaped
            &&& now.quote is Some && !now.escaped && c == '\\' ==> next.quote == now.quote
                && next.escaped
            &&& now.quote is Some && !now.escaped && c != '\\' && now.quote == Some(c)
                ==> next.quote is None
            &&& now.quote is Some && !now.escaped && c != '\\' && now.quote != Some(c) ==> next
                == now
            &&& now.quote is Some ==> deeper == depth
            &&& now.quote is None && c == open ==> deeper == depth + 1
            &&& now.quote is None && c == close && depth > 0 ==> deeper == depth - 1
            &&& now.quote is None && c == close && depth == 0 ==> deeper == 0
            &&& now.quote is None && c != open && c != close ==> deeper == depth
        }),
{
    assert(s.push(c).drop_last() =~= s);
}

/// A symbol is a function with a name and an arity.
pub open spec fn is_function_of(base: Seq<char>) -> spec_fn(SymbolView) -> bool {
    |s: SymbolView| s.kind == SymbolKind::Function && with_arity(s) == base
}

/// The clauses of a function among the first symbols.
proof fn lemma_clauses(symbols: Seq<SymbolView>, base: Seq<char>, n: int)
    requires
        0 <= n <= symbols.len(),
    ensures
        clauses(symbols, base, n) == symbols.take(n).filter(is_function_of(base)).len(),
    decreases n,
{
    let p = is_function_of(base);
    if n > 0 {
        lemma_clauses(symbols, base, n - 1);
        lemma_filter_next(symbols, p, n - 1);
    } else {
        lemma_filter_start(symbols, p);
    }
}

/// A symbol that is no function stays as it is. A function gets its arity behind a slash,
/// and from the second of the same name and arity on also the number that it is among
/// these; nothing else of it changes.
pub proof fn law_identity(symbols: Seq<SymbolView>, i: int)
    requires
        0 <= i < symbols.len(),
    ensures
        identities(symbols).len() == symbols.len(),
        ({
            let s = symbols[i];
            let t = identities(symbols)[i];
            let base = s.name + "/"@ + decimal_of(arity_of(s.signature, s.name));
            let number = symbols.take(i + 1).filter(is_function_of(base)).len();
            &&& t == (SymbolView { name: t.name, ..s })
            &&& s.kind != SymbolKind::Function ==> t.name == s.name
            &&& s.kind == SymbolKind::Function ==> number >= 1
            &&& s.kind == SymbolKind::Function && number == 1 ==> t.name == base
            &&& s.kind == SymbolKind::Function && number > 1 ==> t.name == base + "#clause"@
                + decimal_of(number)
            &&& number_said(decimal_of(number)) == number
            &&& number_said(decimal_of(arity_of(s.signature, s.name))) == arity_of(
                s.signature,
                s.name,
            )
        }),
{
    let s = symbols[i];
    let base = s.name + "/"@ + decimal_of(arity_of(s.signature, s.name));
    assert(base == with_arity(s));
    lemma_clauses(symbols, base, i + 1);
    lemma_clauses(symbols, base, i);
    law_decimal(symbols.take(i + 1).filter(is_function_of(base)).len());
    law_decimal(arity_of(s.signature, s.name));
}

} // verus!
