//! Text as sequences of characters.
//!
//! Every contract of the crate speaks of a string by its sequence of
//! characters. This module says what searching, splitting, trimming, ordering
//! and formatting mean on such sequences, and carries them out.
use vstd::prelude::*;
use vstd::utf8::{encode_utf8, encode_scalar};

verus! {

/// The characters of each string of a list.
pub open spec fn views(v: Seq<String>) -> Seq<Seq<char>> {
    Seq::new(v.len(), |i: int| v[i]@)
}

/// The characters of an optional string.
pub open spec fn opt_view(s: Option<String>) -> Option<Seq<char>> {
    match s {
        Some(t) => Some(t@),
        None => None,
    }
}

// ---------------------------------------------------------------------------
// Conversions
// ---------------------------------------------------------------------------

/// Calls `String::push`: the character is appended.
#[verifier::external_body]
fn push_char(s: &mut String, c: char)
    ensures
        final(s)@ == old(s)@.push(c),
{
    s.push(c)
}

/// The characters of `s`, in order.
pub fn to_chars(s: &str) -> (r: Vec<char>)
    ensures
        r@ == s@,
{
    let mut r: Vec<char> = Vec::new();
    for c in it: s.chars()
        invariant
            it.seq() == s@,
            r@ == s@.take(it.index()),
    {
        r.push(c);
    }
    assert(s@.take(s@.len() as int) =~= s@);
    r
}

/// The string of the characters `from..to` of `chars`.
pub fn from_chars(chars: &Vec<char>, from: usize, to: usize) -> (r: String)
    requires
        from <= to <= chars@.len(),
    ensures
        r@ == chars@.subrange(from as int, to as int),
{
    let mut r = String::new();
    let mut i: usize = from;
    while i < to
        invariant
            from <= i <= to <= chars@.len(),
            r@ == chars@.subrange(from as int, i as int),
        decreases to - i,
    {
        push_char(&mut r, chars[i]);
        i = i + 1;
        assert(chars@.subrange(from as int, i as int) =~= chars@.subrange(
            from as int,
            i - 1,
        ).push(chars@[i - 1]));
    }
    r
}

/// A copy of an optional string.
pub fn copy_opt(s: &Option<String>) -> (r: Option<String>)
    ensures
        opt_view(r) == opt_view(*s),
{
    match s {
        Some(t) => Some(t.clone()),
        None => None,
    }
}

/// Whether two strings hold the same characters.
pub fn same(a: &str, b: &str) -> (r: bool)
    ensures
        r == (a@ == b@),
{
    if a.as_bytes().len() != b.as_bytes().len() {
        return false;
    }
    a.to_owned() == b.to_owned()
}

// ---------------------------------------------------------------------------
// Searching
// ---------------------------------------------------------------------------

/// Whether `name` is one of `names`.
pub(crate) fn is_among(names: &Vec<String>, name: &str) -> (r: bool)
    ensures
        r == views(names@).contains(name@),
{
    let mut i: usize = 0;
    while i < names.len()
        invariant
            i <= names@.len(),
            forall|k: int| 0 <= k < i ==> names@[k]@ != name@,
        decreases names@.len() - i,
    {
        if same(names[i].as_str(), name) {
            assert(views(names@)[i as int] == name@);
            return true;
        }
        i = i + 1;
    }
    assert forall|k: int| 0 <= k < views(names@).len() implies views(names@)[k] != name@ by {
        assert(names@[k]@ != name@);
    }
    false
}

/// `needle` stands in `hay` at character `i`.
pub open spec fn occurs_at(hay: Seq<char>, needle: Seq<char>, i: int) -> bool {
    &&& 0 <= i
    &&& i + needle.len() <= hay.len()
    &&& hay.subrange(i, i + needle.len()) == needle
}

/// `needle` stands somewhere in `hay`.
pub open spec fn has_text(hay: Seq<char>, needle: Seq<char>) -> bool {
    exists|i: int| occurs_at(hay, needle, i)
}

/// `s` begins with `prefix`.
pub open spec fn begins_with(s: Seq<char>, prefix: Seq<char>) -> bool {
    occurs_at(s, prefix, 0)
}

/// `s` ends with `suffix`.
pub open spec fn finishes_with(s: Seq<char>, suffix: Seq<char>) -> bool {
    occurs_at(s, suffix, s.len() - suffix.len())
}

/// The first position at or after `from` where `needle` stands in `hay`.
pub open spec fn is_first_occurrence(
    hay: Seq<char>,
    needle: Seq<char>,
    from: int,
    i: int,
) -> bool {
    &&& from <= i
    &&& occurs_at(hay, needle, i)
    &&& forall|j: int| from <= j < i ==> !occurs_at(hay, needle, j)
}

/// The first place where `needle` stands in `hay`.
pub open spec fn first_place(hay: Seq<char>, needle: Seq<char>) -> int {
    choose|i: int| is_first_occurrence(hay, needle, 0, i)
}

/// There is only one first place.
pub proof fn lemma_first_place(hay: Seq<char>, needle: Seq<char>, i: int)
    requires
        is_first_occurrence(hay, needle, 0, i),
    ensures
        has_text(hay, needle),
        first_place(hay, needle) == i,
{
    let k = first_place(hay, needle);
    assert(is_first_occurrence(hay, needle, 0, k));
    assert(occurs_at(hay, needle, i));
}

/// Where a text stands somewhere, it has a first place.
pub proof fn lemma_has_first_place(hay: Seq<char>, needle: Seq<char>, i: int)
    requires
        occurs_at(hay, needle, i),
    ensures
        is_first_occurrence(hay, needle, 0, first_place(hay, needle)),
        0 <= first_place(hay, needle) <= i,
    decreases i,
{
    if forall|j: int| 0 <= j < i ==> !occurs_at(hay, needle, j) {
        assert(is_first_occurrence(hay, needle, 0, i));
        lemma_first_place(hay, needle, i);
    } else {
        let j = choose|j: int| 0 <= j < i && occurs_at(hay, needle, j);
        lemma_has_first_place(hay, needle, j);
    }
}

/// Whether `needle` stands in `hay` at character `i`.
fn matches_at(hay: &Vec<char>, needle: &Vec<char>, i: usize) -> (r: bool)
    ensures
        r == occurs_at(hay@, needle@, i as int),
{
    if i > hay.len() || needle.len() > hay.len() - i {
        return false;
    }
    let total: usize = hay.len();
    let mut k: usize = 0;
    while k < needle.len()
        invariant
            k <= needle@.len(),
            total == hay@.len(),
            i + needle@.len() <= total,
            forall|m: int| 0 <= m < k ==> hay@[i + m] == needle@[m],
        decreases needle@.len() - k,
    {
        if hay[i + k] != needle[k] {
            assert(hay@.subrange(i as int, i + needle@.len())[k as int] != needle@[k as int]);
            return false;
        }
        k = k + 1;
    }
    assert(hay@.subrange(i as int, i + needle@.len()) =~= needle@);
    true
}

/// The first position at or after `from` where `needle` stands in `hay`.
pub fn find_from(hay: &Vec<char>, needle: &Vec<char>, from: usize) -> (r: Option<usize>)
    ensures
        match r {
            Some(i) => is_first_occurrence(hay@, needle@, from as int, i as int),
            None => forall|i: int| from <= i ==> !occurs_at(hay@, needle@, i),
        },
{
    let mut i: usize = from;
    while i <= hay.len() && needle.len() <= hay.len() - i
        invariant
            from <= i,
            forall|j: int| from <= j < i ==> !occurs_at(hay@, needle@, j),
        decreases hay@.len() + 1 - i,
    {
        if matches_at(hay, needle, i) {
            return Some(i);
        }
        if i == hay.len() {
            return None;
        }
        i = i + 1;
    }
    None
}

/// Whether `needle` stands somewhere in `hay`.
pub fn contains(hay: &str, needle: &str) -> (r: bool)
    ensures
        r == has_text(hay@, needle@),
{
    let h = to_chars(hay);
    let n = to_chars(needle);
    match find_from(&h, &n, 0) {
        Some(i) => true,
        None => false,
    }
}

/// Whether `s` begins with `prefix`.
pub fn starts_with(s: &str, prefix: &str) -> (r: bool)
    ensures
        r == begins_with(s@, prefix@),
{
    let h = to_chars(s);
    let n = to_chars(prefix);
    matches_at(&h, &n, 0)
}

/// Whether `s` ends with `suffix`.
pub fn ends_with(s: &str, suffix: &str) -> (r: bool)
    ensures
        r == finishes_with(s@, suffix@),
{
    let h = to_chars(s);
    let n = to_chars(suffix);
    if n.len() > h.len() {
        return false;
    }
    let at: usize = h.len() - n.len();
    matches_at(&h, &n, at)
}

/// The position of the first `c` in `s`, or the length of `s` if there is none.
pub open spec fn index_of_char(s: Seq<char>, c: char) -> int
    decreases s.len(),
{
    if s.len() == 0 || s[0] == c {
        0
    } else {
        1 + index_of_char(s.drop_first(), c)
    }
}

/// `index_of_char` is the only position that has no `c` before it and either
/// holds a `c` or is the end.
pub proof fn lemma_index_of_char(s: Seq<char>, c: char, k: int)
    requires
        0 <= k <= s.len(),
        forall|j: int| 0 <= j < k ==> s[j] != c,
        k == s.len() || s[k] == c,
    ensures
        index_of_char(s, c) == k,
    decreases s.len(),
{
    if s.len() > 0 && s[0] != c {
        let t = s.drop_first();
        assert forall|j: int| 0 <= j < k - 1 implies t[j] != c by {
            assert(t[j] == s[j + 1]);
        }
        lemma_index_of_char(t, c, k - 1);
    }
}

/// What `index_of_char` is.
pub proof fn lemma_index_of_char_bounds(s: Seq<char>, c: char)
    ensures
        0 <= index_of_char(s, c) <= s.len(),
        forall|j: int| 0 <= j < index_of_char(s, c) ==> s[j] != c,
        index_of_char(s, c) < s.len() ==> s[index_of_char(s, c)] == c,
    decreases s.len(),
{
    if s.len() > 0 && s[0] != c {
        let t = s.drop_first();
        lemma_index_of_char_bounds(t, c);
        assert forall|j: int| 0 <= j < index_of_char(s, c) implies s[j] != c by {
            if j > 0 {
                assert(t[j - 1] == s[j]);
            }
        }
    }
}

/// The position of the first `c` at or after `from`, or the length.
pub fn find_char(s: &Vec<char>, c: char, from: usize) -> (r: usize)
    requires
        from <= s@.len(),
    ensures
        from <= r <= s@.len(),
        r == from + index_of_char(s@.skip(from as int), c),
        r < s@.len() ==> s@[r as int] == c,
        forall|j: int| from <= j < r ==> s@[j] != c,
{
    let mut i: usize = from;
    while i < s.len() && s[i] != c
        invariant
            from <= i <= s@.len(),
            forall|j: int| from <= j < i ==> s@[j] != c,
        decreases s@.len() - i,
    {
        i = i + 1;
    }
    proof {
        let t = s@.skip(from as int);
        assert forall|j: int| 0 <= j < i - from implies t[j] != c by {
            assert(t[j] == s@[from + j]);
        }
        lemma_index_of_char(t, c, i - from);
    }
    i
}

// ---------------------------------------------------------------------------
// Splitting and joining
// ---------------------------------------------------------------------------

/// The pieces of `s` between the characters `c`: always one more than there are
/// such characters.
pub open spec fn split_of(s: Seq<char>, c: char) -> Seq<Seq<char>>
    decreases s.len(),
    via split_of_decreases
{
    let k = index_of_char(s, c);
    if k >= s.len() {
        seq![s]
    } else {
        seq![s.take(k)] + split_of(s.skip(k + 1), c)
    }
}

#[via_fn]
proof fn split_of_decreases(s: Seq<char>, c: char) {
    lemma_index_of_char_bounds(s, c);
}

/// The pieces of `s` between the characters `c`.
pub fn split(s: &str, c: char) -> (r: Vec<String>)
    ensures
        views(r@) == split_of(s@, c),
        r@.len() >= 1,
{
    let chars = to_chars(s);
    let mut out: Vec<String> = Vec::new();
    let mut start: usize = 0;
    let mut going = true;
    assert(s@.skip(0) =~= s@);
    while going
        invariant
            chars@ == s@,
            start <= chars@.len(),
            going ==> split_of(s@, c) == views(out@) + split_of(s@.skip(start as int), c),
            !going ==> split_of(s@, c) == views(out@) && out@.len() >= 1,
        decreases (if going { 1int } else { 0int }), chars@.len() - start,
    {
        let end = find_char(&chars, c, start);
        let piece = from_chars(&chars, start, end);
        let ghost before = out@;
        let ghost rest = s@.skip(start as int);
        out.push(piece);
        assert(views(out@) =~= views(before).push(piece@));
        if end == chars.len() {
            assert(rest =~= piece@);
            assert(views(before) + seq![rest] =~= views(out@));
            going = false;
        } else {
            assert(rest.take(end - start) =~= piece@);
            assert(rest.skip(end - start + 1) =~= s@.skip(end + 1));
            assert(views(before) + (seq![piece@] + split_of(s@.skip(end + 1), c)) =~= views(out@)
                + split_of(s@.skip(end + 1), c));
            start = end + 1;
        }
    }
    out
}

/// The pieces, with `sep` between each two of them.
pub open spec fn join_of(parts: Seq<Seq<char>>, sep: Seq<char>) -> Seq<char>
    decreases parts.len(),
{
    if parts.len() == 0 {
        Seq::empty()
    } else if parts.len() == 1 {
        parts[0]
    } else {
        join_of(parts.drop_last(), sep) + sep + parts.last()
    }
}

/// The pieces, with `sep` between each two of them.
pub fn join(parts: &Vec<String>, sep: &str) -> (r: String)
    ensures
        r@ == join_of(views(parts@), sep@),
{
    let mut r = String::new();
    let mut i: usize = 0;
    let ghost all = views(parts@);
    assert(all.take(0) =~= Seq::empty());
    while i < parts.len()
        invariant
            i <= parts@.len(),
            all == views(parts@),
            r@ == join_of(all.take(i as int), sep@),
        decreases parts@.len() - i,
    {
        if i > 0 {
            r.append(sep);
        }
        r.append(parts[i].as_str());
        i = i + 1;
        assert(all.take(i as int).drop_last() =~= all.take(i - 1));
        if i == 1 {
            assert(r@ =~= all.take(1)[0]);
        }
    }
    assert(all.take(all.len() as int) =~= all);
    r
}

// ---------------------------------------------------------------------------
// Lines and byte offsets
// ---------------------------------------------------------------------------

/// The number of bytes that `s` takes in UTF-8.
pub open spec fn byte_len(s: Seq<char>) -> nat {
    encode_utf8(s).len()
}

/// The encoding of a concatenation is the concatenation of the encodings.
pub proof fn lemma_encode_concat(a: Seq<char>, b: Seq<char>)
    ensures
        encode_utf8(a + b) == encode_utf8(a) + encode_utf8(b),
    decreases a.len(),
{
    if a.len() == 0 {
        assert(a + b =~= b);
        assert(encode_utf8(a) + encode_utf8(b) =~= encode_utf8(b));
    } else {
        lemma_encode_concat(a.drop_first(), b);
        assert((a + b).drop_first() =~= a.drop_first() + b);
        assert(encode_utf8(a + b) =~= encode_scalar(a[0] as u32) + (encode_utf8(a.drop_first())
            + encode_utf8(b)));
        assert(encode_utf8(a) + encode_utf8(b) =~= encode_scalar(a[0] as u32) + (encode_utf8(
            a.drop_first(),
        ) + encode_utf8(b)));
    }
}

/// The number of bytes of `s`.
pub fn len_bytes(s: &str) -> (r: usize)
    ensures
        r == byte_len(s@),
{
    s.as_bytes().len()
}

/// One line of a text: the byte at which it starts, and its characters without
/// the line ending.
pub struct LineView {
    pub start: nat,
    pub text: Seq<char>,
}

/// One line of a text: the byte at which it starts, and its characters without
/// the line ending.
pub struct Line {
    pub start: usize,
    pub text: String,
}

impl View for Line {
    type V = LineView;

    open spec fn view(&self) -> LineView {
        LineView { start: self.start as nat, text: self.text@ }
    }
}

/// The lines of a list.
pub open spec fn line_views(v: Seq<Line>) -> Seq<LineView> {
    Seq::new(v.len(), |i: int| v[i]@)
}

/// A line that ended in a newline, without the carriage return before it.
pub open spec fn without_return(s: Seq<char>) -> Seq<char> {
    if s.len() > 0 && s.last() == '\r' {
        s.drop_last()
    } else {
        s
    }
}

/// The lines of `s`, which itself starts at byte `base`: a line ends at `\n` or
/// `\r\n`, or at the end of a text that does not end in a newline.
pub open spec fn lines_from(s: Seq<char>, base: nat) -> Seq<LineView>
    decreases s.len(),
    via lines_from_decreases
{
    let k = index_of_char(s, '\n');
    if s.len() == 0 {
        seq![]
    } else if k >= s.len() {
        seq![LineView { start: base, text: s }]
    } else {
        seq![LineView { start: base, text: without_return(s.take(k)) }] + lines_from(
            s.skip(k + 1),
            base + byte_len(s.take(k + 1)),
        )
    }
}

#[via_fn]
proof fn lines_from_decreases(s: Seq<char>, base: nat) {
    lemma_index_of_char_bounds(s, '\n');
}

/// The lines of a text.
pub open spec fn lines_of(s: Seq<char>) -> Seq<LineView> {
    lines_from(s, 0)
}

/// The characters of line `row` of a text, counted from 0; nothing past the end.
pub open spec fn line_text(s: Seq<char>, row: int) -> Seq<char> {
    if 0 <= row < lines_of(s).len() {
        lines_of(s)[row].text
    } else {
        Seq::empty()
    }
}

/// The number of bytes of a character in UTF-8.
fn char_width(c: char) -> (r: usize)
    ensures
        r == encode_scalar(c as u32).len(),
        1 <= r <= 4,
{
    let n: u32 = c as u32;
    if n <= 0x7F {
        1
    } else if n <= 0x7FF {
        2
    } else if n <= 0xFFFF {
        3
    } else {
        4
    }
}

/// How `lines_of` goes on after the lines that start before character `start`,
/// where the next line ending stands at `end`.
proof fn lemma_next_line(s: Seq<char>, start: int, end: int, base: nat)
    requires
        0 <= start <= end < s.len(),
        base == byte_len(s.take(start)),
        s[end] == '\n',
        forall|j: int| start <= j < end ==> s[j] != '\n',
    ensures
        lines_from(s.skip(start), base) == seq![
            LineView { start: base, text: without_return(s.subrange(start, end)) },
        ] + lines_from(s.skip(end + 1), byte_len(s.take(end + 1))),
{
    let rest = s.skip(start);
    assert forall|j: int| 0 <= j < end - start implies rest[j] != '\n' by {
        assert(rest[j] == s[start + j]);
    }
    lemma_index_of_char(rest, '\n', end - start);
    assert(rest.take(end - start) =~= s.subrange(start, end));
    assert(rest.skip(end - start + 1) =~= s.skip(end + 1));
    assert(s.take(end + 1) =~= s.take(start) + rest.take(end - start + 1));
    lemma_encode_concat(s.take(start), rest.take(end - start + 1));
}

/// How `lines_of` ends where no line ending follows character `start`.
proof fn lemma_last_line(s: Seq<char>, start: int, base: nat)
    requires
        0 <= start < s.len(),
        forall|j: int| start <= j < s.len() ==> s[j] != '\n',
    ensures
        lines_from(s.skip(start), base) == seq![LineView { start: base, text: s.skip(start) }],
{
    let rest = s.skip(start);
    assert forall|j: int| 0 <= j < rest.len() implies rest[j] != '\n' by {
        assert(rest[j] == s[start + j]);
    }
    lemma_index_of_char(rest, '\n', rest.len() as int);
}

/// The lines of a text.
pub fn lines(s: &str) -> (r: Vec<Line>)
    ensures
        line_views(r@) == lines_of(s@),
{
    let chars = to_chars(s);
    let total: usize = len_bytes(s);
    let mut out: Vec<Line> = Vec::new();
    let mut start: usize = 0;
    let mut base: usize = 0;
    assert(s@.skip(0) =~= s@);
    assert(s@.take(0) =~= Seq::empty());
    while start < chars.len()
        invariant
            chars@ == s@,
            total == byte_len(s@),
            start <= chars@.len(),
            base == byte_len(s@.take(start as int)),
            lines_of(s@) == line_views(out@) + lines_from(s@.skip(start as int), base as nat),
        decreases chars@.len() - start,
    {
        let end = find_char(&chars, '\n', start);
        let ghost before = line_views(out@);
        if end == chars.len() {
            let line = Line { start: base, text: from_chars(&chars, start, end) };
            proof {
                lemma_last_line(s@, start as int, base as nat);
                assert(line.text@ =~= s@.skip(start as int));
                assert(s@.take(end as int) =~= s@);
            }
            out.push(line);
            assert(line_views(out@) =~= before + seq![line@]);
            base = total;
            start = end;
            assert(lines_from(s@.skip(start as int), base as nat) =~= seq![]);
            assert(line_views(out@) + lines_from(s@.skip(start as int), base as nat)
                =~= line_views(out@));
        } else {
            let mut stop: usize = end;
            if end > start && chars[end - 1] == '\r' {
                stop = end - 1;
            }
            let line = Line { start: base, text: from_chars(&chars, start, stop) };
            proof {
                lemma_next_line(s@, start as int, end as int, base as nat);
                assert(line.text@ =~= without_return(s@.subrange(start as int, end as int)));
            }
            out.push(line);
            assert(line_views(out@) =~= before + seq![line@]);
            base = byte_offset_after(s, &chars, start, base, end + 1);
            start = end + 1;
            assert(before + (seq![line@] + lines_from(s@.skip(start as int), base as nat))
                =~= line_views(out@) + lines_from(s@.skip(start as int), base as nat));
        }
    }
    assert(s@.skip(start as int).len() == 0);
    assert(line_views(out@) + lines_from(s@.skip(start as int), base as nat) =~= line_views(out@));
    out
}

/// The byte offset of character `to`, where character `from` has offset `base`.
fn byte_offset_after(s: &str, chars: &Vec<char>, from: usize, base: usize, to: usize) -> (r: usize)
    requires
        chars@ == s@,
        from <= to <= chars@.len(),
        base == byte_len(s@.take(from as int)),
    ensures
        r == byte_len(s@.take(to as int)),
{
    let total: usize = len_bytes(s);
    let mut i: usize = from;
    let mut at: usize = base;
    while i < to
        invariant
            chars@ == s@,
            total == byte_len(s@),
            from <= i <= to <= chars@.len(),
            at == byte_len(s@.take(i as int)),
        decreases to - i,
    {
        let w = char_width(chars[i]);
        proof {
            let one = seq![chars@[i as int]];
            assert(s@.take(i + 1) =~= s@.take(i as int) + one);
            lemma_encode_concat(s@.take(i as int), one);
            assert(one.drop_first() =~= Seq::empty());
            assert(encode_utf8(one) =~= encode_scalar(chars@[i as int] as u32) + encode_utf8(
                Seq::empty(),
            ));
            assert(byte_len(one) == w);
            assert(s@ =~= s@.take(i + 1) + s@.skip(i + 1));
            lemma_encode_concat(s@.take(i + 1), s@.skip(i + 1));
        }
        at = at + w;
        i = i + 1;
    }
    at
}

/// The characters of line `row` of a text, counted from 0; nothing past the end.
pub fn line_at(s: &str, row: usize) -> (r: String)
    ensures
        r@ == line_text(s@, row as int),
{
    let all = lines(s);
    if row < all.len() {
        assert(line_views(all@)[row as int] == all@[row as int]@);
        all[row].text.clone()
    } else {
        String::new()
    }
}

/// The text of row `row` of `source`, whose lines are `rows`; nothing past the end.
pub(crate) fn row_text(source: &str, rows: &Vec<Line>, row: usize) -> (r: String)
    requires
        line_views(rows@) == lines_of(source@),
    ensures
        r@ == line_text(source@, row as int),
{
    assert(line_views(rows@).len() == rows@.len());
    if row < rows.len() {
        assert(line_views(rows@)[row as int] == rows@[row as int]@);
        rows[row].text.clone()
    } else {
        String::new()
    }
}

/// The character that starts at byte `b` of `s`; the length of `s` at its very
/// end; nothing where `b` lies inside a character or past the end.
pub open spec fn char_at_byte(s: Seq<char>, b: int) -> Option<int>
    decreases s.len(),
{
    if b == 0 {
        Some(0)
    } else if b < 0 || s.len() == 0 {
        None
    } else {
        match char_at_byte(s.drop_first(), b - encode_scalar(s[0] as u32).len()) {
            Some(k) => Some(k + 1),
            None => None,
        }
    }
}

/// The number of newlines in `s`.
pub open spec fn newlines(s: Seq<char>) -> nat
    decreases s.len(),
{
    if s.len() == 0 {
        0
    } else if s[0] == '\n' {
        1 + newlines(s.drop_first())
    } else {
        newlines(s.drop_first())
    }
}

/// Byte `b` of `s` stands on row `row`, counted from 0: so many newlines stand before it.
/// Told only of bytes at which a character starts, and of the end.
pub open spec fn is_on_row(s: Seq<char>, b: int, row: int) -> bool {
    char_at_byte(s, b) matches Some(k) ==> row == newlines(s.take(k))
}

/// The bytes before the character that starts at byte `b` are `b` many.
pub proof fn lemma_bytes_before(s: Seq<char>, b: int)
    requires
        0 <= b,
    ensures
        char_at_byte(s, b) matches Some(k) ==> 0 <= k <= s.len() && byte_len(s.take(k)) == b,
    decreases s.len(),
{
    if b == 0 {
        assert(s.take(0) =~= Seq::empty());
    } else if s.len() > 0 {
        let width = encode_scalar(s[0] as u32).len();
        let rest = s.drop_first();
        if b >= width {
            lemma_bytes_before(rest, b - width);
            if let Some(k) = char_at_byte(rest, b - width) {
                assert(s.take(k + 1).drop_first() =~= rest.take(k));
                assert(s.take(k + 1)[0] == s[0]);
            }
        }
    }
}

/// A longer prefix has more bytes.
pub proof fn lemma_prefix_bytes(s: Seq<char>, m: int, n: int)
    requires
        0 <= m < n <= s.len(),
    ensures
        byte_len(s.take(m)) < byte_len(s.take(n)),
{
    let between = s.subrange(m, n);
    assert(s.take(n) =~= s.take(m) + between);
    lemma_encode_concat(s.take(m), between);
    assert(between.len() > 0);
    assert(encode_scalar(between[0] as u32).len() >= 1);
}

/// Without a newline there is none to count.
proof fn lemma_no_newlines(s: Seq<char>)
    requires
        forall|i: int| 0 <= i < s.len() ==> s[i] != '\n',
    ensures
        newlines(s) == 0,
    decreases s.len(),
{
    if s.len() > 0 {
        let rest = s.drop_first();
        assert forall|i: int| 0 <= i < rest.len() implies rest[i] != '\n' by {
            assert(rest[i] == s[i + 1]);
        }
        lemma_no_newlines(rest);
    }
}

/// The newlines of two texts, one behind the other.
proof fn lemma_newlines_add(a: Seq<char>, b: Seq<char>)
    ensures
        newlines(a + b) == newlines(a) + newlines(b),
    decreases a.len(),
{
    if a.len() == 0 {
        assert(a + b =~= b);
    } else {
        assert((a + b).drop_first() =~= a.drop_first() + b);
        lemma_newlines_add(a.drop_first(), b);
    }
}

/// Where the line of character `k` starts, and the next one.
proof fn lemma_line_of_char(s: Seq<char>, base: nat, k: int)
    requires
        0 <= k < s.len(),
    ensures
        ({
            let rows = lines_from(s, base);
            let row = newlines(s.take(k)) as int;
            let at = base + byte_len(s.take(k));
            &&& row < rows.len()
            &&& rows[row].start <= at
            &&& row + 1 < rows.len() ==> at < rows[row + 1].start
        }),
    decreases s.len(),
{
    let rows = lines_from(s, base);
    let n = index_of_char(s, '\n');
    lemma_index_of_char_bounds(s, '\n');
    assert(rows.len() > 0 && rows[0].start == base);
    if k <= n {
        assert forall|i: int| 0 <= i < s.take(k).len() implies s.take(k)[i] != '\n' by {
            assert(s[i] != '\n');
        }
        lemma_no_newlines(s.take(k));
        if n < s.len() {
            let rest = lines_from(s.skip(n + 1), base + byte_len(s.take(n + 1)));
            if rest.len() > 0 {
                assert(rows[1] == rest[0]);
                lemma_index_of_char_bounds(s.skip(n + 1), '\n');
                assert(rest[0].start == base + byte_len(s.take(n + 1)));
                lemma_prefix_bytes(s, k, n + 1);
            }
        }
    } else {
        let behind = s.skip(n + 1);
        let next = base + byte_len(s.take(n + 1));
        let rest = lines_from(behind, next);
        lemma_line_of_char(behind, next, k - n - 1);
        let front = s.take(n + 1);
        let more = behind.take(k - n - 1);
        assert(s.take(k) =~= front + more);
        lemma_encode_concat(front, more);
        lemma_newlines_add(front, more);
        assert(front =~= s.take(n) + seq!['\n']);
        lemma_newlines_add(s.take(n), seq!['\n']);
        assert forall|i: int| 0 <= i < s.take(n).len() implies s.take(n)[i] != '\n' by {
            assert(s[i] != '\n');
        }
        lemma_no_newlines(s.take(n));
        let end = seq!['\n'];
        assert(end.drop_first() =~= Seq::empty());
        assert(newlines(end.drop_first()) == 0);
        assert(end[0] == '\n');
        assert(newlines(end) == 1);
        let row = newlines(more) as int;
        assert(rows[row + 1] == rest[row]);
        if row + 1 < rest.len() {
            assert(rows[row + 2] == rest[row + 1]);
        }
    }
}

/// A byte at which a character starts stands in the line of its row: the line starts at
/// it or before it, and the next line behind it.
pub proof fn law_row_is_the_line(s: Seq<char>, b: int, row: int)
    requires
        0 <= b < byte_len(s),
        char_at_byte(s, b) is Some,
        is_on_row(s, b, row),
    ensures
        0 <= row < lines_of(s).len(),
        lines_of(s)[row].start <= b,
        row + 1 < lines_of(s).len() ==> b < lines_of(s)[row + 1].start,
{
    lemma_bytes_before(s, b);
    let k = char_at_byte(s, b)->0;
    if k == s.len() {
        assert(s.take(k) =~= s);
    }
    lemma_line_of_char(s, 0, k);
}

/// The characters of the bytes `start..end` of `s`; nothing where this range is
/// not in order, does not lie on character boundaries or reaches past the end.
pub open spec fn byte_slice(s: Seq<char>, start: int, end: int) -> Option<Seq<char>> {
    match (char_at_byte(s, start), char_at_byte(s, end)) {
        (Some(a), Some(b)) => if start <= end && a <= b {
            Some(s.subrange(a, b))
        } else {
            None
        },
        _ => None,
    }
}

/// A character that starts at a byte of `s` is one of `s`, or its end.
proof fn lemma_char_at_byte(s: Seq<char>, b: int)
    ensures
        char_at_byte(s, b) matches Some(k) ==> 0 <= k <= s.len(),
    decreases s.len(),
{
    if b > 0 && s.len() > 0 {
        lemma_char_at_byte(s.drop_first(), b - encode_scalar(s[0] as u32).len());
    }
}

/// Bytes that lie within others stand in the text of these.
pub proof fn lemma_slice_within(s: Seq<char>, from: int, to: int, start: int, end: int)
    requires
        0 <= from <= start,
        end <= to,
        byte_slice(s, from, to) is Some,
    ensures
        byte_slice(s, start, end) matches Some(t) ==> has_text(byte_slice(s, from, to)->0, t),
{
    if byte_slice(s, start, end) is Some {
        lemma_bytes_before(s, from);
        lemma_bytes_before(s, to);
        lemma_bytes_before(s, start);
        lemma_bytes_before(s, end);
        let a = char_at_byte(s, from)->0;
        let b = char_at_byte(s, to)->0;
        let c = char_at_byte(s, start)->0;
        let d = char_at_byte(s, end)->0;
        if c < a {
            lemma_prefix_bytes(s, c, a);
        }
        if b < d {
            lemma_prefix_bytes(s, b, d);
        }
        let whole = s.subrange(a, b);
        let part = s.subrange(c, d);
        assert(whole.subrange(c - a, c - a + part.len()) =~= part);
        assert(occurs_at(whole, part, c - a));
    }
}

/// Bytes that can be taken from a text stand in it.
pub proof fn lemma_slice_in(s: Seq<char>, start: int, end: int)
    ensures
        byte_slice(s, start, end) matches Some(t) ==> has_text(s, t),
{
    if let Some(t) = byte_slice(s, start, end) {
        lemma_char_at_byte(s, start);
        lemma_char_at_byte(s, end);
        let a = char_at_byte(s, start)->0;
        let b = char_at_byte(s, end)->0;
        assert(a + t.len() == b);
        assert(occurs_at(s, t, a));
    }
}

/// What stands in a part of a text stands in the text.
pub proof fn lemma_has_text_in(whole: Seq<char>, part: Seq<char>, t: Seq<char>)
    requires
        has_text(whole, part),
        has_text(part, t),
    ensures
        has_text(whole, t),
{
    let i = choose|i: int| occurs_at(whole, part, i);
    let j = choose|j: int| occurs_at(part, t, j);
    assert(whole.subrange(i + j, i + j + t.len()) =~= part.subrange(j, j + t.len()));
    assert(occurs_at(whole, t, i + j));
}

/// The pieces of a text between separators stand in it.
pub proof fn lemma_split_in(s: Seq<char>, c: char, k: int)
    requires
        0 <= k < split_of(s, c).len(),
    ensures
        has_text(s, split_of(s, c)[k]),
    decreases s.len(),
{
    lemma_index_of_char_bounds(s, c);
    let n = index_of_char(s, c);
    if k == 0 {
        assert(s.subrange(0, n) =~= split_of(s, c)[0]);
        assert(occurs_at(s, split_of(s, c)[0], 0));
    } else {
        let rest = s.skip(n + 1);
        lemma_split_in(rest, c, k - 1);
        assert(s.subrange(n + 1, n + 1 + rest.len()) =~= rest);
        assert(occurs_at(s, rest, n + 1));
        assert(split_of(s, c)[k] == split_of(rest, c)[k - 1]);
        lemma_has_text_in(s, rest, split_of(s, c)[k]);
    }
}

/// The character that starts at byte `b`.
fn char_at(chars: &Vec<char>, b: usize) -> (r: Option<usize>)
    ensures
        match r {
            Some(k) => char_at_byte(chars@, b as int) == Some(k as int) && k <= chars@.len(),
            None => char_at_byte(chars@, b as int) is None,
        },
{
    let mut i: usize = 0;
    let mut left: usize = b;
    assert(chars@.skip(0) =~= chars@);
    while left > 0
        invariant
            i <= chars@.len(),
            char_at_byte(chars@, b as int) == (match char_at_byte(
                chars@.skip(i as int),
                left as int,
            ) {
                Some(k) => Some(k + i),
                None => None,
            }),
        decreases left,
    {
        if i == chars.len() {
            return None;
        }
        let w = char_width(chars[i]);
        assert(chars@.skip(i as int).drop_first() =~= chars@.skip(i + 1));
        if left < w {
            assert(char_at_byte(chars@.skip(i + 1), left - w) is None);
            return None;
        }
        left = left - w;
        i = i + 1;
    }
    Some(i)
}

/// The text of the bytes `start..end` of `s`, where that range can be taken.
pub fn slice_bytes(s: &str, start: usize, end: usize) -> (r: Option<String>)
    ensures
        opt_view(r) == byte_slice(s@, start as int, end as int),
{
    let chars = to_chars(s);
    let a = char_at(&chars, start);
    let b = char_at(&chars, end);
    match (a, b) {
        (Some(a), Some(b)) => if start <= end && a <= b {
            Some(from_chars(&chars, a, b))
        } else {
            None
        },
        _ => None,
    }
}

// ---------------------------------------------------------------------------
// Trimming
// ---------------------------------------------------------------------------

/// `s` without the characters in front for which `p` holds.
pub open spec fn trim_start_by(s: Seq<char>, p: spec_fn(char) -> bool) -> Seq<char>
    decreases s.len(),
{
    if s.len() > 0 && p(s[0]) {
        trim_start_by(s.drop_first(), p)
    } else {
        s
    }
}

/// `s` without the characters at the end for which `p` holds.
pub open spec fn trim_end_by(s: Seq<char>, p: spec_fn(char) -> bool) -> Seq<char>
    decreases s.len(),
{
    if s.len() > 0 && p(s.last()) {
        trim_end_by(s.drop_last(), p)
    } else {
        s
    }
}

/// `s` without the characters at either end for which `p` holds.
pub open spec fn trim_by(s: Seq<char>, p: spec_fn(char) -> bool) -> Seq<char> {
    trim_end_by(trim_start_by(s, p), p)
}

/// The characters with the Unicode property `White_Space`.
pub open spec fn white_space(c: char) -> bool {
    let n = c as u32;
    9 <= n <= 13 || n == 0x20 || n == 0x85 || n == 0xA0 || n == 0x1680 || 0x2000 <= n <= 0x200A || n
        == 0x2028 || n == 0x2029 || n == 0x202F || n == 0x205F || n == 0x3000
}

/// Calls `char::is_whitespace`: whether the character has the Unicode property
/// `White_Space`.
#[verifier::external_body]
fn is_white_space(c: char) -> (r: bool)
    ensures
        r == white_space(c),
{
    c.is_whitespace()
}

/// `s` without white space at either end.
pub open spec fn trim_of(s: Seq<char>) -> Seq<char> {
    trim_by(s, |c: char| white_space(c))
}

/// Nothing is left of a text without white space at either end exactly where it holds
/// nothing else.
pub proof fn lemma_trimmed_away(s: Seq<char>)
    ensures
        trim_of(s).len() == 0 <==> forall|i: int| 0 <= i < s.len() ==> white_space(#[trigger] s[i]),
{
    let p = |c: char| white_space(c);
    lemma_trim_start(s, p);
    let rest = trim_start_by(s, p);
    lemma_trim_end(rest, p);
    if forall|i: int| 0 <= i < s.len() ==> white_space(#[trigger] s[i]) {
        assert forall|i: int| 0 <= i < s.len() implies p(#[trigger] s[i]) by {}
    }
    if trim_of(s).len() == 0 {
        assert forall|i: int| 0 <= i < s.len() implies white_space(#[trigger] s[i]) by {
            if rest.len() > 0 {
                assert(p(rest[0]));
            }
            assert(p(s[i]));
        }
    }
}

/// What is left in front starts with a character that stays, or is nothing.
proof fn lemma_trim_start(s: Seq<char>, p: spec_fn(char) -> bool)
    ensures
        trim_start_by(s, p).len() > 0 ==> !p(trim_start_by(s, p)[0]),
        trim_start_by(s, p).len() == 0 <==> forall|i: int| 0 <= i < s.len() ==> p(#[trigger] s[i]),
    decreases s.len(),
{
    if s.len() > 0 && p(s[0]) {
        let rest = s.drop_first();
        lemma_trim_start(rest, p);
        if trim_start_by(s, p).len() == 0 {
            assert forall|i: int| 0 <= i < s.len() implies p(#[trigger] s[i]) by {
                if i > 0 {
                    assert(rest[i - 1] == s[i]);
                }
            }
        }
        if forall|i: int| 0 <= i < s.len() ==> p(#[trigger] s[i]) {
            assert forall|i: int| 0 <= i < rest.len() implies p(#[trigger] rest[i]) by {
                assert(rest[i] == s[i + 1]);
            }
        }
    }
}

/// Nothing is left at the end exactly where no character stays.
proof fn lemma_trim_end(s: Seq<char>, p: spec_fn(char) -> bool)
    ensures
        trim_end_by(s, p).len() == 0 <==> forall|i: int| 0 <= i < s.len() ==> p(#[trigger] s[i]),
    decreases s.len(),
{
    if s.len() > 0 && p(s.last()) {
        let rest = s.drop_last();
        lemma_trim_end(rest, p);
        if trim_end_by(s, p).len() == 0 {
            assert forall|i: int| 0 <= i < s.len() implies p(#[trigger] s[i]) by {
                if i < rest.len() {
                    assert(rest[i] == s[i]);
                }
            }
        }
        if forall|i: int| 0 <= i < s.len() ==> p(#[trigger] s[i]) {
            assert forall|i: int| 0 <= i < rest.len() implies p(#[trigger] rest[i]) by {
                assert(rest[i] == s[i]);
            }
        }
    }
}

/// `s` without white space at either end.
pub fn trim(s: &str) -> (r: String)
    ensures
        r@ == trim_of(s@),
{
    let chars = to_chars(s);
    let ghost p = |c: char| white_space(c);
    let mut from: usize = 0;
    assert(s@.skip(0) =~= s@);
    while from < chars.len() && is_white_space(chars[from])
        invariant
            chars@ == s@,
            from <= chars@.len(),
            p == (|c: char| white_space(c)),
            trim_start_by(s@, p) == trim_start_by(s@.skip(from as int), p),
        decreases chars@.len() - from,
    {
        assert(s@.skip(from as int).drop_first() =~= s@.skip(from + 1));
        from = from + 1;
    }
    let ghost rest = s@.skip(from as int);
    assert(trim_start_by(s@, p) == rest);
    let mut to: usize = chars.len();
    assert(s@.subrange(from as int, to as int) =~= rest);
    while to > from && is_white_space(chars[to - 1])
        invariant
            chars@ == s@,
            from <= to <= chars@.len(),
            p == (|c: char| white_space(c)),
            trim_end_by(rest, p) == trim_end_by(s@.subrange(from as int, to as int), p),
        decreases to - from,
    {
        let ghost cur = s@.subrange(from as int, to as int);
        assert(cur.drop_last() =~= s@.subrange(from as int, to - 1));
        assert(cur.last() == s@[to - 1]);
        to = to - 1;
    }
    assert(to > from ==> s@.subrange(from as int, to as int).last() == s@[to - 1]);
    from_chars(&chars, from, to)
}

/// The property of being the character `c`.
pub open spec fn just(c: char) -> spec_fn(char) -> bool {
    |x: char| x == c
}

/// `s` without the characters `c` at either end.
pub open spec fn trim_char_of(s: Seq<char>, c: char) -> Seq<char> {
    trim_by(s, just(c))
}

/// `s` without the characters `c` at either end.
pub fn trim_char(s: &str, c: char) -> (r: String)
    ensures
        r@ == trim_char_of(s@, c),
{
    let chars = to_chars(s);
    let ghost p = just(c);
    let mut from: usize = 0;
    assert(s@.skip(0) =~= s@);
    while from < chars.len() && chars[from] == c
        invariant
            chars@ == s@,
            from <= chars@.len(),
            p == just(c),
            trim_start_by(s@, p) == trim_start_by(s@.skip(from as int), p),
        decreases chars@.len() - from,
    {
        assert(s@.skip(from as int).drop_first() =~= s@.skip(from + 1));
        from = from + 1;
    }
    let ghost rest = s@.skip(from as int);
    assert(trim_start_by(s@, p) == rest);
    let mut to: usize = chars.len();
    assert(s@.subrange(from as int, to as int) =~= rest);
    while to > from && chars[to - 1] == c
        invariant
            chars@ == s@,
            from <= to <= chars@.len(),
            p == just(c),
            trim_end_by(rest, p) == trim_end_by(s@.subrange(from as int, to as int), p),
        decreases to - from,
    {
        let ghost cur = s@.subrange(from as int, to as int);
        assert(cur.drop_last() =~= s@.subrange(from as int, to - 1));
        assert(cur.last() == s@[to - 1]);
        to = to - 1;
    }
    assert(to > from ==> s@.subrange(from as int, to as int).last() == s@[to - 1]);
    from_chars(&chars, from, to)
}

// ---------------------------------------------------------------------------
// Letter case
// ---------------------------------------------------------------------------

/// A text of ASCII characters.
pub open spec fn is_ascii_text(s: Seq<char>) -> bool {
    forall|i: int| 0 <= i < s.len() ==> s[i] as u32 <= 0x7F
}

/// The lower-case form of an ASCII character.
pub open spec fn ascii_lowercase(c: char) -> char {
    if 'A' <= c && c <= 'Z' {
        (c as u32 + 32) as char
    } else {
        c
    }
}

/// An ASCII text in lower case.
pub open spec fn ascii_lower(s: Seq<char>) -> Seq<char> {
    Seq::new(s.len(), |i: int| ascii_lowercase(s[i]))
}

/// What `str::to_lowercase` gives for a text that is not ASCII.
pub uninterp spec fn unicode_lowercase(s: Seq<char>) -> Seq<char>;

/// A text in lower case.
pub open spec fn lowercase(s: Seq<char>) -> Seq<char> {
    if is_ascii_text(s) {
        ascii_lower(s)
    } else {
        unicode_lowercase(s)
    }
}

/// Calls `str::to_lowercase`. On ASCII text it replaces each upper-case letter
/// and leaves the rest as it is.
#[verifier::external_body]
pub(crate) fn to_lower(s: &str) -> (r: String)
    ensures
        r@ == (if is_ascii_text(s@) {
            ascii_lower(s@)
        } else {
            unicode_lowercase(s@)
        }),
{
    s.to_lowercase()
}

/// What `char::is_uppercase` answers for a character that is not ASCII: whether it has
/// the Unicode property `Uppercase`.
pub uninterp spec fn unicode_uppercase(c: char) -> bool;

/// A character is upper-case.
pub open spec fn upper_case(c: char) -> bool {
    if c as u32 <= 0x7F {
        'A' <= c && c <= 'Z'
    } else {
        unicode_uppercase(c)
    }
}

/// Calls `char::is_uppercase`. Of the ASCII characters, the letters from `A` to
/// `Z` have the property.
#[verifier::external_body]
pub(crate) fn is_upper_case(c: char) -> (r: bool)
    ensures
        r == (if c as u32 <= 0x7F {
            'A' <= c && c <= 'Z'
        } else {
            unicode_uppercase(c)
        }),
{
    c.is_uppercase()
}

// ---------------------------------------------------------------------------
// Numbers
// ---------------------------------------------------------------------------

/// The decimal digit of `d`.
pub open spec fn digit_of(d: nat) -> char {
    (48 + d) as char
}

/// `n` in decimal.
pub open spec fn decimal_of(n: nat) -> Seq<char>
    decreases n,
{
    if n < 10 {
        seq![digit_of(n)]
    } else {
        decimal_of(n / 10).push(digit_of(n % 10))
    }
}

/// `n` in decimal.
pub fn decimal(n: usize) -> (r: String)
    ensures
        r@ == decimal_of(n as nat),
    decreases n,
{
    let d: u8 = (n % 10) as u8;
    let digit: char = (48u8 + d) as char;
    if n < 10 {
        let mut r = String::new();
        push_char(&mut r, digit);
        assert(r@ =~= seq![digit_of(n as nat)]);
        r
    } else {
        let mut r = decimal(n / 10);
        push_char(&mut r, digit);
        r
    }
}

/// `s` right-aligned in `width` characters.
pub open spec fn pad_left_of(s: Seq<char>, width: nat) -> Seq<char> {
    if s.len() >= width {
        s
    } else {
        Seq::new((width - s.len()) as nat, |i: int| ' ') + s
    }
}

/// `s` right-aligned in `width` characters.
pub fn pad_left(s: &str, width: usize) -> (r: String)
    ensures
        r@ == pad_left_of(s@, width as nat),
{
    let have: usize = s.unicode_len();
    if have >= width {
        return s.to_owned();
    }
    let mut r = String::new();
    let mut i: usize = have;
    while i < width
        invariant
            have == s@.len(),
            have <= i <= width,
            r@ == Seq::new((i - have) as nat, |k: int| ' '),
        decreases width - i,
    {
        push_char(&mut r, ' ');
        i = i + 1;
        assert(r@ =~= Seq::new((i - have) as nat, |k: int| ' '));
    }
    r.append(s);
    r
}

// ---------------------------------------------------------------------------
// Order
// ---------------------------------------------------------------------------

/// Lexicographic order by code point, as `str` is ordered.
pub open spec fn text_le(a: Seq<char>, b: Seq<char>) -> bool
    decreases a.len(),
{
    if a.len() == 0 {
        true
    } else if b.len() == 0 {
        false
    } else if a[0] != b[0] {
        a[0] < b[0]
    } else {
        text_le(a.drop_first(), b.drop_first())
    }
}

/// The order is total.
pub proof fn lemma_text_le_total(a: Seq<char>, b: Seq<char>)
    ensures
        text_le(a, b) || text_le(b, a),
    decreases a.len(),
{
    if a.len() > 0 && b.len() > 0 && a[0] == b[0] {
        lemma_text_le_total(a.drop_first(), b.drop_first());
    }
}

/// The order is transitive.
pub proof fn lemma_text_le_transitive(a: Seq<char>, b: Seq<char>, c: Seq<char>)
    requires
        text_le(a, b),
        text_le(b, c),
    ensures
        text_le(a, c),
    decreases a.len(),
{
    if a.len() > 0 && b.len() > 0 && c.len() > 0 && a[0] == b[0] && b[0] == c[0] {
        lemma_text_le_transitive(a.drop_first(), b.drop_first(), c.drop_first());
    }
}

/// Texts of which neither comes before the other are the same.
pub proof fn lemma_text_le_antisymmetric(a: Seq<char>, b: Seq<char>)
    requires
        text_le(a, b),
        text_le(b, a),
    ensures
        a == b,
    decreases a.len(),
{
    if a.len() > 0 && b.len() > 0 {
        lemma_text_le_antisymmetric(a.drop_first(), b.drop_first());
        assert(a =~= seq![a[0]] + a.drop_first());
        assert(b =~= seq![b[0]] + b.drop_first());
    }
}

/// Whether `a` comes before `b` or is the same.
pub fn not_after(a: &str, b: &str) -> (r: bool)
    ensures
        r == text_le(a@, b@),
{
    let x = to_chars(a);
    let y = to_chars(b);
    let mut i: usize = 0;
    assert(a@.skip(0) =~= a@);
    assert(b@.skip(0) =~= b@);
    while i < x.len() && i < y.len()
        invariant
            x@ == a@,
            y@ == b@,
            i <= x@.len(),
            i <= y@.len(),
            text_le(a@, b@) == text_le(a@.skip(i as int), b@.skip(i as int)),
        decreases x@.len() - i,
    {
        if x[i] != y[i] {
            return x[i] < y[i];
        }
        assert(a@.skip(i as int).drop_first() =~= a@.skip(i + 1));
        assert(b@.skip(i as int).drop_first() =~= b@.skip(i + 1));
        i = i + 1;
    }
    i == x.len()
}

} // verus!
