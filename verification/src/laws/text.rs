//! What the operations on texts give.
use vstd::prelude::*;
use vstd::utf8::encode_utf8;
use crate::text::{
    begins_with, byte_len, byte_slice, char_at_byte, decimal_of, finishes_with, has_text,
    index_of_char, is_ascii_text, join_of, just, lemma_bytes_before, lemma_encode_concat,
    lemma_index_of_char, lemma_index_of_char_bounds, lemma_prefix_bytes, line_text, lines_from,
    lines_of, lowercase, occurs_at, pad_left_of, split_of, text_le, trim_by, trim_char_of,
    trim_end_by, trim_of, trim_start_by, unicode_lowercase, upper_case,
    white_space, without_return, LineView,
};

verus! {

/// A text is made of three pieces, the second of which is `middle`.
pub open spec fn is_around(
    whole: Seq<char>,
    front: Seq<char>,
    middle: Seq<char>,
    back: Seq<char>,
) -> bool {
    whole == front + middle + back
}

/// A text holds another: something, maybe nothing, stands in front of it and behind it.
pub open spec fn holds(whole: Seq<char>, part: Seq<char>) -> bool {
    exists|front: Seq<char>, back: Seq<char>| #[trigger] is_around(whole, front, part, back)
}

/// A text starts with another.
pub open spec fn starts(whole: Seq<char>, part: Seq<char>) -> bool {
    exists|back: Seq<char>| #[trigger] is_around(whole, Seq::empty(), part, back)
}

/// A text ends with another.
pub open spec fn ends(whole: Seq<char>, part: Seq<char>) -> bool {
    exists|front: Seq<char>| #[trigger] is_around(whole, front, part, Seq::empty())
}

/// A text is found in another exactly where that one is made of something, the text, and
/// something; in front where nothing stands before it, and at the end where nothing stands
/// behind it.
pub proof fn law_texts_are_found(whole: Seq<char>, part: Seq<char>)
    ensures
        has_text(whole, part) == holds(whole, part),
        begins_with(whole, part) == starts(whole, part),
        finishes_with(whole, part) == ends(whole, part),
{
    let none = Seq::<char>::empty();
    let n = part.len() as int;
    if has_text(whole, part) {
        let i = choose|i: int| occurs_at(whole, part, i);
        assert(whole =~= whole.take(i) + part + whole.skip(i + n)) by {
            assert(whole.subrange(i, i + n) == part);
        }
        assert(is_around(whole, whole.take(i), part, whole.skip(i + n)));
    }
    if holds(whole, part) {
        let (a, b) = choose|a: Seq<char>, b: Seq<char>| #[trigger] is_around(whole, a, part, b);
        assert(whole.subrange(a.len() as int, a.len() + n) =~= part);
        assert(occurs_at(whole, part, a.len() as int));
    }
    if begins_with(whole, part) {
        assert(whole.subrange(0, n) == part);
        assert(whole =~= none + part + whole.skip(n));
        assert(is_around(whole, none, part, whole.skip(n)));
    }
    if starts(whole, part) {
        let b = choose|b: Seq<char>| #[trigger] is_around(whole, none, part, b);
        assert(whole.subrange(0, n) =~= part);
    }
    if finishes_with(whole, part) {
        let i = whole.len() - n;
        assert(whole.subrange(i, i + n) == part);
        assert(whole =~= whole.take(i) + part + none);
        assert(is_around(whole, whole.take(i), part, none));
    }
    if ends(whole, part) {
        let a = choose|a: Seq<char>| #[trigger] is_around(whole, a, part, none);
        assert(whole.len() == a.len() + n);
        assert(whole.subrange(a.len() as int, a.len() + n) =~= part);
    }
}

/// The first place of a character is where it stands and nowhere before; the end where it
/// stands nowhere.
pub proof fn law_first_place_of_a_character(s: Seq<char>, c: char)
    ensures
        ({
            let k = index_of_char(s, c);
            &&& 0 <= k <= s.len()
            &&& !s.take(k).contains(c)
            &&& k < s.len() ==> s[k] == c
            &&& k == s.len() <==> !s.contains(c)
        }),
{
    lemma_index_of_char_bounds(s, c);
    let k = index_of_char(s, c);
    if s.contains(c) && k == s.len() {
        let i = choose|i: int| 0 <= i < s.len() && s[i] == c;
        assert(s[i] != c);
    }
    if k < s.len() {
        assert(s.contains(s[k]));
    }
}

/// A character starts at the byte behind all bytes of the characters before it.
proof fn lemma_char_at(s: Seq<char>, k: int)
    requires
        0 <= k <= s.len(),
    ensures
        char_at_byte(s, byte_len(s.take(k)) as int) == Some(k),
    decreases k,
{
    if k == 0 {
        assert(s.take(0) =~= Seq::empty());
    } else {
        let rest = s.drop_first();
        lemma_char_at(rest, k - 1);
        assert(s.take(k).drop_first() =~= rest.take(k - 1));
        assert(s.take(k)[0] == s[0]);
        lemma_prefix_bytes(s, 0, k);
    }
}

/// A piece of a text, with as many bytes before it as `start` says, and as many before its
/// end as `end` says.
pub open spec fn is_piece(
    whole: Seq<char>,
    front: Seq<char>,
    piece: Seq<char>,
    back: Seq<char>,
    start: int,
    end: int,
) -> bool {
    &&& is_around(whole, front, piece, back)
    &&& encode_utf8(front).len() == start
    &&& encode_utf8(front + piece).len() == end
}

/// The piece of a text between two bytes.
pub open spec fn between_bytes(whole: Seq<char>, piece: Seq<char>, start: int, end: int) -> bool {
    exists|front: Seq<char>, back: Seq<char>| #[trigger]
        is_piece(whole, front, piece, back, start, end)
}

/// What is taken from a text between two bytes is the piece that stands there. There is one
/// wherever characters start at both, and there is never another.
pub proof fn law_piece_between_bytes(whole: Seq<char>, piece: Seq<char>, start: int, end: int)
    ensures
        0 <= start && 0 <= end ==> (byte_slice(whole, start, end) == Some(piece)
            <==> between_bytes(whole, piece, start, end)),
{
    if 0 <= start && 0 <= end {
        if byte_slice(whole, start, end) == Some(piece) {
            lemma_bytes_before(whole, start);
            lemma_bytes_before(whole, end);
            let a = char_at_byte(whole, start)->0;
            let b = char_at_byte(whole, end)->0;
            assert(whole.take(a) + piece =~= whole.take(b));
            assert(whole =~= whole.take(a) + piece + whole.skip(b));
            assert(is_piece(whole, whole.take(a), piece, whole.skip(b), start, end));
        }
        if between_bytes(whole, piece, start, end) {
            let (front, back) = choose|front: Seq<char>, back: Seq<char>| #[trigger]
                is_piece(whole, front, piece, back, start, end);
            let a = front.len() as int;
            let b = (front + piece).len() as int;
            assert(whole.take(a) =~= front);
            assert(whole.take(b) =~= front + piece);
            lemma_char_at(whole, a);
            lemma_char_at(whole, b);
            lemma_encode_concat(front, piece);
            assert(whole.subrange(a, b) =~= piece);
        }
    }
}

// ---------------------------------------------------------------------------
// Pieces
// ---------------------------------------------------------------------------

/// A text has a piece between two places where a character stands, or the ends.
pub open spec fn is_cut_out(
    s: Seq<char>,
    c: char,
    front: Seq<char>,
    piece: Seq<char>,
    back: Seq<char>,
) -> bool {
    &&& is_around(s, front, piece, back)
    &&& !piece.contains(c)
    &&& front.len() == 0 || front.last() == c
    &&& back.len() == 0 || back[0] == c
}

/// The pieces between the characters `c` put together again with `c` between them are the
/// text, none of them has the character, and there is at least one.
pub proof fn law_pieces(s: Seq<char>, c: char)
    ensures
        join_of(split_of(s, c), seq![c]) == s,
        split_of(s, c).len() >= 1,
        forall|i: int| 0 <= i < split_of(s, c).len() ==> !(#[trigger] split_of(s, c)[i]).contains(c),
    decreases s.len(),
{
    law_first_place_of_a_character(s, c);
    let k = index_of_char(s, c);
    let pieces = split_of(s, c);
    if k >= s.len() {
        assert(pieces =~= seq![s]);
    } else {
        let rest = s.skip(k + 1);
        let others = split_of(rest, c);
        law_pieces(rest, c);
        assert(pieces =~= seq![s.take(k)] + others);
        law_join_of_two(seq![s.take(k)], others, seq![c]);
        assert(join_of(seq![s.take(k)], seq![c]) == s.take(k));
        assert(s =~= s.take(k) + seq![c] + rest);
        assert forall|i: int| 0 <= i < pieces.len() implies !(#[trigger] pieces[i]).contains(c) by {
            if i > 0 {
                assert(pieces[i] == others[i - 1]);
            }
        }
    }
}

/// One list of texts put together is the text; of two lists, the one, what stands between,
/// and the other.
pub proof fn law_join_of_two(a: Seq<Seq<char>>, b: Seq<Seq<char>>, sep: Seq<char>)
    requires
        a.len() > 0,
        b.len() > 0,
    ensures
        join_of(Seq::<Seq<char>>::empty(), sep).len() == 0,
        a.len() == 1 ==> join_of(a, sep) == a[0],
        join_of(a + b, sep) == join_of(a, sep) + sep + join_of(b, sep),
    decreases b.len(),
{
    let all = a + b;
    assert(all.last() == b.last());
    if b.len() == 1 {
        assert(all.drop_last() =~= a);
    } else {
        assert(all.drop_last() =~= a + b.drop_last());
        law_join_of_two(a, b.drop_last(), sep);
        let front = join_of(a, sep) + sep;
        let middle = join_of(b.drop_last(), sep);
        assert(front + middle + sep + b.last() =~= front + (middle + sep + b.last()));
    }
}

/// Texts without a character that are put together with it come apart into the same texts.
pub proof fn law_pieces_come_back(parts: Seq<Seq<char>>, c: char)
    requires
        parts.len() > 0,
        forall|i: int| 0 <= i < parts.len() ==> !(#[trigger] parts[i]).contains(c),
    ensures
        split_of(join_of(parts, seq![c]), c) == parts,
    decreases parts.len(),
{
    let whole = join_of(parts, seq![c]);
    let first = parts[0];
    if parts.len() == 1 {
        law_first_place_of_a_character(first, c);
        assert(split_of(whole, c) =~= parts);
    } else {
        let others = parts.drop_first();
        assert forall|i: int| 0 <= i < others.len() implies !(#[trigger] others[i]).contains(c) by {
            assert(others[i] == parts[i + 1]);
        }
        law_pieces_come_back(others, c);
        law_join_of_two(seq![first], others, seq![c]);
        assert(seq![first] + others =~= parts);
        let rest = join_of(others, seq![c]);
        assert(whole == first + seq![c] + rest);
        let n = first.len() as int;
        assert forall|j: int| 0 <= j < n implies whole[j] != c by {
            assert(whole[j] == first[j]);
            assert(first.contains(first[j]));
        }
        lemma_index_of_char(whole, c, n);
        assert(whole.take(n) =~= first);
        assert(whole.skip(n + 1) =~= rest);
        assert(split_of(whole, c) =~= parts);
    }
}

/// What stands around a piece.
pub proof fn lemma_around_piece(s: Seq<char>, c: char, i: int) -> (r: (Seq<char>, Seq<char>))
    requires
        0 <= i < split_of(s, c).len(),
    ensures
        is_cut_out(s, c, r.0, split_of(s, c)[i], r.1),
        r.0.len() == 0 <==> i == 0,
        r.1.len() == 0 <==> i == split_of(s, c).len() - 1,
    decreases s.len(),
{
    let none = Seq::<char>::empty();
    let k = index_of_char(s, c);
    let pieces = split_of(s, c);
    law_first_place_of_a_character(s, c);
    if k >= s.len() {
        assert(pieces =~= seq![s]);
        assert(s =~= none + s + none);
        (none, none)
    } else {
        let first = s.take(k);
        let rest = s.skip(k + 1);
        let others = split_of(rest, c);
        assert(pieces =~= seq![first] + others);
        law_pieces(rest, c);
        if i == 0 {
            assert(s =~= none + first + s.skip(k));
            (none, s.skip(k))
        } else {
            let (f, b) = lemma_around_piece(rest, c, i - 1);
            assert(pieces[i] == others[i - 1]);
            let front = first + seq![c] + f;
            assert(s =~= first + seq![c] + rest);
            assert(first + seq![c] + (f + pieces[i] + b) =~= front + pieces[i] + b);
            assert(f.len() == 0 ==> front.last() == c);
            assert(f.len() > 0 ==> front.last() == f.last());
            (front, b)
        }
    }
}

/// Which piece stands in a place.
pub proof fn lemma_piece_at(
    s: Seq<char>,
    c: char,
    front: Seq<char>,
    piece: Seq<char>,
    back: Seq<char>,
) -> (i: int)
    requires
        is_cut_out(s, c, front, piece, back),
    ensures
        0 <= i < split_of(s, c).len(),
        split_of(s, c)[i] == piece,
        i == 0 <==> front.len() == 0,
        i == split_of(s, c).len() - 1 <==> back.len() == 0,
    decreases s.len(),
{
    let k = index_of_char(s, c);
    let pieces = split_of(s, c);
    law_first_place_of_a_character(s, c);
    if k >= s.len() {
        assert(pieces =~= seq![s]);
        if front.len() > 0 {
            assert(s[front.len() - 1] == c);
            assert(s.contains(c));
        }
        if back.len() > 0 {
            assert(s[front.len() + piece.len() as int] == c);
            assert(s.contains(c));
        }
        assert(piece =~= s);
        0
    } else {
        let first = s.take(k);
        let rest = s.skip(k + 1);
        let others = split_of(rest, c);
        assert(pieces =~= seq![first] + others);
        law_pieces(rest, c);
        if front.len() == 0 {
            if piece.len() > k {
                assert(piece[k] == s[k]);
                assert(piece.contains(c));
            }
            if piece.len() < k {
                assert(back.len() > 0);
                assert(s[piece.len() as int] == c);
                assert(first[piece.len() as int] == c);
                assert(first.contains(c));
            }
            assert(piece =~= first);
            0
        } else {
            assert(front.len() > k) by {
                if front.len() <= k {
                    assert(s[front.len() - 1] == c);
                    assert(first[front.len() - 1] == c);
                    assert(first.contains(c));
                }
            }
            let f = front.skip(k + 1);
            assert(rest =~= f + piece + back);
            assert(f.len() > 0 ==> f.last() == front.last());
            assert(is_cut_out(rest, c, f, piece, back));
            let i = lemma_piece_at(rest, c, f, piece, back);
            assert(pieces[i + 1] == others[i]);
            i + 1
        }
    }
}

/// The pieces of a text between the characters `c` are what is cut out of it there.
pub proof fn law_piece_is_cut_out(s: Seq<char>, c: char, piece: Seq<char>)
    ensures
        split_of(s, c).contains(piece) <==> exists|front: Seq<char>, back: Seq<char>| #[trigger]
            is_cut_out(s, c, front, piece, back),
{
    let pieces = split_of(s, c);
    if pieces.contains(piece) {
        let i = choose|i: int| 0 <= i < pieces.len() && pieces[i] == piece;
        let (front, back) = lemma_around_piece(s, c, i);
        assert(is_cut_out(s, c, front, piece, back));
    }
    if exists|front: Seq<char>, back: Seq<char>| #[trigger]
        is_cut_out(s, c, front, piece, back) {
        let (front, back) = choose|front: Seq<char>, back: Seq<char>| #[trigger]
            is_cut_out(s, c, front, piece, back);
        let i = lemma_piece_at(s, c, front, piece, back);
        assert(pieces[i] == piece);
    }
}

// ---------------------------------------------------------------------------
// Lines
// ---------------------------------------------------------------------------

/// An empty text has no line. A text without a newline is one line. A text whose first
/// newline stands behind `line` has that line, without a carriage return at its end, and
/// behind it the lines of what follows, which start as many bytes later as stand before.
pub proof fn law_lines(line: Seq<char>, rest: Seq<char>)
    requires
        !line.contains('\n'),
    ensures
        lines_of(Seq::<char>::empty()).len() == 0,
        line.len() > 0 ==> lines_of(line) == seq![LineView { start: 0, text: line }],
        ({
            let rows = lines_of(line.push('\n') + rest);
            let others = lines_of(rest);
            &&& rows.len() == 1 + others.len()
            &&& rows[0].start == 0
            &&& rows[0].text == (if line.len() > 0 && line.last() == '\r' {
                line.drop_last()
            } else {
                line
            })
            &&& forall|k: int|
                0 <= k < others.len() ==> {
                    &&& (#[trigger] rows[k + 1]).text == others[k].text
                    &&& rows[k + 1].start == encode_utf8(line.push('\n')).len() + others[k].start
                }
        }),
{
    assert forall|j: int| 0 <= j < line.len() implies line[j] != '\n' by {
        assert(line.contains(line[j]));
    }
    lemma_index_of_char(line, '\n', line.len() as int);
    let whole = line.push('\n') + rest;
    let n = line.len() as int;
    assert(whole[n] == '\n');
    assert forall|j: int| 0 <= j < n implies whole[j] != '\n' by {
        assert(whole[j] == line[j]);
    }
    lemma_index_of_char(whole, '\n', n);
    assert(whole.take(n) =~= line);
    assert(whole.take(n + 1) =~= line.push('\n'));
    assert(whole.skip(n + 1) =~= rest);
    lemma_lines_shift(rest, byte_len(line.push('\n')));
    assert(lines_of(whole) == seq![
        LineView { start: 0, text: without_return(line) },
    ] + lines_from(rest, 0 + byte_len(line.push('\n'))));
}

/// Lines that start later start later by as much.
proof fn lemma_lines_shift(s: Seq<char>, base: nat)
    ensures
        lines_from(s, base).len() == lines_from(s, 0).len(),
        forall|k: int|
            0 <= k < lines_from(s, 0).len() ==> {
                &&& (#[trigger] lines_from(s, base)[k]).text == lines_from(s, 0)[k].text
                &&& lines_from(s, base)[k].start == base + lines_from(s, 0)[k].start
            },
    decreases s.len(),
{
    lemma_index_of_char_bounds(s, '\n');
    let k = index_of_char(s, '\n');
    if s.len() > 0 && k < s.len() {
        let rest = s.skip(k + 1);
        let step = byte_len(s.take(k + 1));
        lemma_lines_shift(rest, base + step);
        lemma_lines_shift(rest, step);
        let a = lines_from(s, base);
        let b = lines_from(s, 0);
        assert forall|i: int| 0 <= i < b.len() implies (#[trigger] a[i]).text == b[i].text
            && a[i].start == base + b[i].start by {
            if i > 0 {
                assert(a[i] == lines_from(rest, base + step)[i - 1]);
                assert(b[i] == lines_from(rest, 0 + step)[i - 1]);
            }
        }
    }
}

/// The text of a row is the text of that line, and nothing behind the last.
pub proof fn law_line_text(s: Seq<char>, row: int)
    ensures
        0 <= row < lines_of(s).len() ==> line_text(s, row) == lines_of(s)[row].text,
        lines_of(s).len() <= row ==> line_text(s, row).len() == 0,
{
}

// ---------------------------------------------------------------------------
// White space
// ---------------------------------------------------------------------------

/// Among the characters of ASCII, white space is the tab, the newline, the vertical tab, the
/// form feed, the carriage return and the space.
pub proof fn law_white_space(c: char)
    ensures
        c as u32 <= 0x7F ==> (white_space(c) <==> c == '\t' || c == '\n' || c == '\u{b}' || c
            == '\u{c}' || c == '\r' || c == ' '),
{
}

/// The white space.
pub open spec fn blank() -> spec_fn(char) -> bool {
    |x: char| white_space(x)
}

/// All characters of a text are of a sort.
pub open spec fn is_all(s: Seq<char>, p: spec_fn(char) -> bool) -> bool {
    forall|i: int| 0 <= i < s.len() ==> p(#[trigger] s[i])
}

/// A text is what is left of another without the characters of a sort at its ends.
pub open spec fn is_trimmed(
    s: Seq<char>,
    front: Seq<char>,
    middle: Seq<char>,
    back: Seq<char>,
    p: spec_fn(char) -> bool,
) -> bool {
    &&& is_around(s, front, middle, back)
    &&& is_all(front, p)
    &&& is_all(back, p)
    &&& middle.len() > 0 ==> !p(middle[0]) && !p(middle.last())
}

/// What trimming takes off in front.
proof fn lemma_trimmed_front(s: Seq<char>, p: spec_fn(char) -> bool) -> (front: Seq<char>)
    ensures
        s == front + trim_start_by(s, p),
        is_all(front, p),
        trim_start_by(s, p).len() > 0 ==> !p(trim_start_by(s, p)[0]),
    decreases s.len(),
{
    if s.len() > 0 && p(s[0]) {
        let front = lemma_trimmed_front(s.drop_first(), p);
        let whole = seq![s[0]] + front;
        let left = trim_start_by(s, p);
        assert(s =~= seq![s[0]] + s.drop_first());
        assert(seq![s[0]] + (front + left) =~= whole + left);
        assert forall|i: int| 0 <= i < whole.len() implies p(#[trigger] whole[i]) by {
            if i > 0 {
                assert(whole[i] == front[i - 1]);
            }
        }
        whole
    } else {
        assert(s =~= Seq::<char>::empty() + s);
        Seq::empty()
    }
}

/// What trimming takes off at the end.
proof fn lemma_trimmed_back(s: Seq<char>, p: spec_fn(char) -> bool) -> (back: Seq<char>)
    ensures
        s == trim_end_by(s, p) + back,
        is_all(back, p),
        trim_end_by(s, p).len() > 0 ==> !p(trim_end_by(s, p).last()),
    decreases s.len(),
{
    if s.len() > 0 && p(s.last()) {
        let back = lemma_trimmed_back(s.drop_last(), p);
        let whole = back.push(s.last());
        let left = trim_end_by(s, p);
        assert(s =~= s.drop_last().push(s.last()));
        assert((left + back).push(s.last()) =~= left + whole);
        assert forall|i: int| 0 <= i < whole.len() implies p(#[trigger] whole[i]) by {
            if i < back.len() {
                assert(whole[i] == back[i]);
            }
        }
        whole
    } else {
        assert(s =~= s + Seq::<char>::empty());
        Seq::empty()
    }
}

/// Trimming takes off all characters of a sort at both ends, and nothing else.
proof fn lemma_trimmed(s: Seq<char>, p: spec_fn(char) -> bool)
    ensures
        exists|front: Seq<char>, back: Seq<char>| #[trigger]
            is_trimmed(s, front, trim_by(s, p), back, p),
{
    let front = lemma_trimmed_front(s, p);
    let rest = trim_start_by(s, p);
    let back = lemma_trimmed_back(rest, p);
    let middle = trim_by(s, p);
    assert(s =~= front + middle + back);
    if middle.len() > 0 {
        assert(middle[0] == rest[0]);
    }
    assert(is_trimmed(s, front, middle, back, p));
}

/// Trimming a text takes off its white space at both ends, trimming it of a character that
/// character, and neither takes off anything else.
pub proof fn law_trimming(s: Seq<char>, c: char)
    ensures
        exists|front: Seq<char>, back: Seq<char>| #[trigger]
            is_trimmed(s, front, trim_of(s), back, blank()),
        exists|front: Seq<char>, back: Seq<char>| #[trigger]
            is_trimmed(s, front, trim_char_of(s, c), back, just(c)),
        forall|x: char| #[trigger] just(c)(x) <==> x == c,
{
    let p = |x: char| white_space(x);
    lemma_trimmed(s, p);
    let (front, back) = choose|front: Seq<char>, back: Seq<char>| #[trigger]
        is_trimmed(s, front, trim_by(s, p), back, p);
    assert forall|i: int| 0 <= i < front.len() implies blank()(#[trigger] front[i]) by {
        assert(p(front[i]));
    }
    assert forall|i: int| 0 <= i < back.len() implies blank()(#[trigger] back[i]) by {
        assert(p(back[i]));
    }
    assert(is_trimmed(s, front, trim_of(s), back, blank()));
    lemma_trimmed(s, just(c));
    let (front, back) = choose|front: Seq<char>, back: Seq<char>| #[trigger]
        is_trimmed(s, front, trim_by(s, just(c)), back, just(c));
    assert(is_trimmed(s, front, trim_char_of(s, c), back, just(c)));
}

// ---------------------------------------------------------------------------
// Letters and numbers
// ---------------------------------------------------------------------------

/// In a text of ASCII the capital letters become small ones, and nothing else changes.
pub proof fn law_lowercase(s: Seq<char>)
    requires
        forall|i: int| 0 <= i < s.len() ==> s[i] as u32 <= 0x7F,
    ensures
        lowercase(s).len() == s.len(),
        forall|i: int|
            0 <= i < s.len() ==> if 'A' <= s[i] && s[i] <= 'Z' {
                (#[trigger] lowercase(s)[i]) as u32 == s[i] as u32 + 32
            } else {
                lowercase(s)[i] == s[i]
            },
        lowercase(lowercase(s)) == lowercase(s),
{
    assert(is_ascii_text(s));
    let t = lowercase(s);
    assert forall|i: int| 0 <= i < t.len() implies t[i] as u32 <= 0x7F && !('A' <= t[i] && t[i]
        <= 'Z') by {}
    assert(is_ascii_text(t));
    assert(lowercase(t) =~= t);
}

/// A text with a character beyond ASCII becomes what its lower case is in Unicode.
pub proof fn law_lowercase_beyond_ascii(s: Seq<char>, i: int)
    requires
        0 <= i < s.len(),
        s[i] as u32 > 0x7F,
    ensures
        lowercase(s) == unicode_lowercase(s),
{
}

/// Among the characters of ASCII the capitals are the letters from A to Z.
pub proof fn law_upper_case(c: char)
    ensures
        c as u32 <= 0x7F ==> (upper_case(c) <==> 'A' <= c && c <= 'Z'),
{
}

/// The number that digits say.
pub open spec fn number_said(digits: Seq<char>) -> int
    decreases digits.len(),
{
    if digits.len() == 0 {
        0
    } else {
        10 * number_said(digits.drop_last()) + (digits.last() as int - '0' as int)
    }
}

/// A number written down says the number, in digits, without a zero in front of another
/// digit.
pub proof fn law_decimal(n: nat)
    ensures
        number_said(decimal_of(n)) == n,
        decimal_of(n).len() >= 1,
        forall|i: int|
            0 <= i < decimal_of(n).len() ==> '0' <= #[trigger] decimal_of(n)[i] && decimal_of(n)[i]
                <= '9',
        decimal_of(n).len() > 1 ==> decimal_of(n)[0] != '0',
    decreases n,
{
    if n < 10 {
        assert(decimal_of(n).drop_last() =~= Seq::empty());
        assert(number_said(decimal_of(n).drop_last()) == 0);
    } else {
        law_decimal(n / 10);
        assert(decimal_of(n).drop_last() =~= decimal_of(n / 10));
        assert(decimal_of(n)[0] == decimal_of(n / 10)[0]);
        if decimal_of(n / 10).len() == 1 {
            assert(number_said(decimal_of(n / 10).drop_last()) == 0) by {
                assert(decimal_of(n / 10).drop_last() =~= Seq::empty());
            }
        }
    }
}

/// A text that is padded has spaces in front of it up to the width, and is left alone where
/// it is as wide.
pub proof fn law_padding(s: Seq<char>, width: nat)
    ensures
        pad_left_of(s, width).len() == if s.len() < width {
            width
        } else {
            s.len()
        },
        ends(pad_left_of(s, width), s),
        forall|i: int|
            0 <= i < pad_left_of(s, width).len() - s.len() ==> (#[trigger] pad_left_of(s, width)[i])
                == ' ',
{
    let t = pad_left_of(s, width);
    let front = t.take(t.len() - s.len());
    assert(t =~= front + s + Seq::<char>::empty());
    assert(is_around(t, front, s, Seq::empty()));
}

/// Two texts differ first at a place.
pub open spec fn differ_first_at(a: Seq<char>, b: Seq<char>, i: int) -> bool {
    &&& 0 <= i < a.len()
    &&& i < b.len()
    &&& a[i] != b[i]
    &&& a.take(i) == b.take(i)
}

/// A text stands before another where the other goes on behind it, or where at the first
/// place at which they differ it has the smaller character.
pub proof fn law_text_order(a: Seq<char>, b: Seq<char>)
    ensures
        text_le(a, b) <==> a.is_prefix_of(b) || exists|i: int| #[trigger]
            differ_first_at(a, b, i) && a[i] < b[i],
    decreases a.len(),
{
    if a.len() == 0 {
        assert(a.is_prefix_of(b)) by {
            assert(a =~= b.subrange(0, 0));
        }
    } else if b.len() == 0 {
    } else if a[0] != b[0] {
        assert(a.take(0) =~= b.take(0));
        assert(differ_first_at(a, b, 0));
        if a.is_prefix_of(b) {
            assert(a[0] == b.subrange(0, a.len() as int)[0]);
        }
        assert forall|i: int| #[trigger] differ_first_at(a, b, i) implies i == 0 by {
            if i > 0 {
                assert(a.take(i)[0] == b.take(i)[0]);
            }
        }
    } else {
        let (x, y) = (a.drop_first(), b.drop_first());
        law_text_order(x, y);
        assert(a.is_prefix_of(b) <==> x.is_prefix_of(y)) by {
            if a.is_prefix_of(b) {
                assert forall|i: int| 0 <= i < x.len() implies x[i] == y[i] by {
                    assert(a[i + 1] == b.subrange(0, a.len() as int)[i + 1]);
                }
                assert(x =~= y.subrange(0, x.len() as int));
            }
            if x.is_prefix_of(y) {
                assert forall|i: int| 0 <= i < a.len() implies a[i] == b[i] by {
                    if i > 0 {
                        assert(x[i - 1] == y.subrange(0, x.len() as int)[i - 1]);
                    }
                }
                assert(a =~= b.subrange(0, a.len() as int));
            }
        }
        assert forall|i: int| #[trigger] differ_first_at(a, b, i) implies i > 0
            && differ_first_at(x, y, i - 1) by {
            assert(x.take(i - 1) =~= y.take(i - 1)) by {
                assert forall|j: int| 0 <= j < i - 1 implies x[j] == y[j] by {
                    assert(a.take(i)[j + 1] == b.take(i)[j + 1]);
                }
            }
        }
        assert forall|i: int| #[trigger] differ_first_at(x, y, i) implies differ_first_at(
            a,
            b,
            i + 1,
        ) by {
            assert(a.take(i + 1) =~= b.take(i + 1)) by {
                assert forall|j: int| 0 <= j < i + 1 implies a[j] == b[j] by {
                    if j > 0 {
                        assert(x.take(i)[j - 1] == y.take(i)[j - 1]);
                    }
                }
            }
        }
    }
}

} // verus!
