//! Stable sorting by an order that the element type supplies.
use std::collections::VecDeque;
use vstd::prelude::*;
use crate::text::{
    lemma_text_le_antisymmetric, lemma_text_le_total, lemma_text_le_transitive, not_after, same,
    text_le, views,
};

verus! {

/// Types whose values can be put in order. Different values may be of the same
/// rank: a stable sort keeps those in the order in which they came.
pub trait Ranked: Sized {
    /// `self` may stand before `other`.
    spec fn rank_le(self, other: Self) -> bool;

    /// Of two values, one may stand before the other.
    proof fn rank_total(a: Self, b: Self)
        ensures
            a.rank_le(b) || b.rank_le(a),
    ;

    /// The order is transitive.
    proof fn rank_transitive(a: Self, b: Self, c: Self)
        requires
            a.rank_le(b),
            b.rank_le(c),
        ensures
            a.rank_le(c),
    ;

    /// Whether `self` may stand before `other`.
    fn may_precede(&self, other: &Self) -> (r: bool)
        ensures
            r == self.rank_le(*other),
    ;
}

/// `x` put into `s` in front of the first element that may follow it.
pub open spec fn insert_ranked<T>(x: T, s: Seq<T>, le: spec_fn(T, T) -> bool) -> Seq<T>
    decreases s.len(),
{
    if s.len() == 0 || le(x, s[0]) {
        seq![x] + s
    } else {
        seq![s[0]] + insert_ranked(x, s.drop_first(), le)
    }
}

/// `s` in the order `le`, elements of the same rank as they came.
pub open spec fn sorted_by<T>(s: Seq<T>, le: spec_fn(T, T) -> bool) -> Seq<T>
    decreases s.len(),
{
    if s.len() == 0 {
        s
    } else {
        insert_ranked(s[0], sorted_by(s.drop_first(), le), le)
    }
}

/// Two sequences, each in order, put together in order; the first goes first
/// where the ranks are the same.
pub open spec fn merged<T>(a: Seq<T>, b: Seq<T>, le: spec_fn(T, T) -> bool) -> Seq<T>
    decreases a.len() + b.len(),
{
    if a.len() == 0 {
        b
    } else if b.len() == 0 {
        a
    } else if le(a[0], b[0]) {
        seq![a[0]] + merged(a.drop_first(), b, le)
    } else {
        seq![b[0]] + merged(a, b.drop_first(), le)
    }
}

/// Every element may stand before each later one.
pub open spec fn in_order<T>(s: Seq<T>, le: spec_fn(T, T) -> bool) -> bool {
    forall|i: int, j: int| 0 <= i < j < s.len() ==> le(#[trigger] s[i], #[trigger] s[j])
}

/// A total and transitive order.
pub open spec fn total_order<T>(le: spec_fn(T, T) -> bool) -> bool {
    &&& forall|a: T, b: T| #[trigger] le(a, b) || le(b, a)
    &&& forall|a: T, b: T, c: T| #[trigger] le(a, b) && #[trigger] le(b, c) ==> le(a, c)
}

proof fn lemma_insert_elements<T>(x: T, s: Seq<T>, le: spec_fn(T, T) -> bool)
    ensures
        insert_ranked(x, s, le).len() == s.len() + 1,
        insert_ranked(x, s, le).to_multiset() == s.to_multiset().insert(x),
        forall|k: int|
            0 <= k < s.len() + 1 ==> #[trigger] insert_ranked(x, s, le)[k] == x || exists|j: int|
                0 <= j < s.len() && insert_ranked(x, s, le)[k] == s[j],
    decreases s.len(),
{
    broadcast use vstd::seq_lib::group_to_multiset_ensures;

    let r = insert_ranked(x, s, le);
    if s.len() == 0 || le(x, s[0]) {
        assert(s =~= Seq::empty() + s);
        assert(r =~= s.insert(0, x));
        assert forall|k: int| 0 <= k < s.len() + 1 implies #[trigger] r[k] == x || exists|j: int|
            0 <= j < s.len() && r[k] == s[j] by {
            if k > 0 {
                assert(r[k] == s[k - 1]);
            }
        }
    } else {
        let t = s.drop_first();
        lemma_insert_elements(x, t, le);
        let u = insert_ranked(x, t, le);
        assert(r =~= u.insert(0, s[0]));
        assert(s =~= t.insert(0, s[0]));
        assert forall|k: int| 0 <= k < s.len() + 1 implies #[trigger] r[k] == x || exists|j: int|
            0 <= j < s.len() && r[k] == s[j] by {
            if k > 0 {
                assert(r[k] == u[k - 1]);
                if u[k - 1] != x {
                    let j = choose|j: int| 0 <= j < t.len() && u[k - 1] == t[j];
                    assert(t[j] == s[j + 1]);
                }
            }
        }
        assert(r.to_multiset() =~= s.to_multiset().insert(x));
    }
}

proof fn lemma_insert_in_order<T>(x: T, s: Seq<T>, le: spec_fn(T, T) -> bool)
    requires
        total_order(le),
        in_order(s, le),
    ensures
        in_order(insert_ranked(x, s, le), le),
    decreases s.len(),
{
    let r = insert_ranked(x, s, le);
    if s.len() == 0 || le(x, s[0]) {
        assert forall|i: int, j: int| 0 <= i < j < r.len() implies le(
            #[trigger] r[i],
            #[trigger] r[j],
        ) by {
            assert(r[j] == s[j - 1]);
            if i > 0 {
                assert(r[i] == s[i - 1]);
            } else if j > 1 {
                assert(le(s[0], s[j - 1]));
            }
        }
    } else {
        let t = s.drop_first();
        assert(in_order(t, le)) by {
            assert forall|i: int, j: int| 0 <= i < j < t.len() implies le(
                #[trigger] t[i],
                #[trigger] t[j],
            ) by {
                assert(t[i] == s[i + 1] && t[j] == s[j + 1]);
            }
        }
        lemma_insert_in_order(x, t, le);
        lemma_insert_elements(x, t, le);
        let u = insert_ranked(x, t, le);
        assert forall|i: int, j: int| 0 <= i < j < r.len() implies le(
            #[trigger] r[i],
            #[trigger] r[j],
        ) by {
            assert(r[j] == u[j - 1]);
            if i > 0 {
                assert(r[i] == u[i - 1]);
            } else {
                assert(r[0] == s[0]);
                if u[j - 1] != x {
                    let m = choose|m: int| 0 <= m < t.len() && u[j - 1] == t[m];
                    assert(t[m] == s[m + 1]);
                    assert(le(s[0], s[m + 1]));
                } else {
                    assert(le(s[0], x) || le(x, s[0]));
                }
            }
        }
    }
}

/// Sorting puts the same elements in order.
pub proof fn lemma_sorted_by<T>(s: Seq<T>, le: spec_fn(T, T) -> bool)
    requires
        total_order(le),
    ensures
        in_order(sorted_by(s, le), le),
        sorted_by(s, le).to_multiset() == s.to_multiset(),
        sorted_by(s, le).len() == s.len(),
    decreases s.len(),
{
    broadcast use vstd::seq_lib::group_to_multiset_ensures;

    if s.len() > 0 {
        let t = s.drop_first();
        lemma_sorted_by(t, le);
        lemma_insert_in_order(s[0], sorted_by(t, le), le);
        lemma_insert_elements(s[0], sorted_by(t, le), le);
        assert(s =~= t.insert(0, s[0]));
    }
}

/// A sequence that is in order already stays as it is.
pub proof fn lemma_sorted_by_fixed<T>(s: Seq<T>, le: spec_fn(T, T) -> bool)
    requires
        in_order(s, le),
    ensures
        sorted_by(s, le) == s,
    decreases s.len(),
{
    if s.len() > 0 {
        let t = s.drop_first();
        assert forall|i: int, j: int| 0 <= i < j < t.len() implies le(
            #[trigger] t[i],
            #[trigger] t[j],
        ) by {
            assert(t[i] == s[i + 1] && t[j] == s[j + 1]);
        }
        lemma_sorted_by_fixed(t, le);
        if t.len() > 0 {
            assert(t[0] == s[1]);
            assert(le(s[0], s[1]));
        }
        assert(seq![s[0]] + t =~= s);
    }
}

/// Sorting depends only on what decides the order: where `f` carries the one
/// order into the other, sorting and then applying `f` is applying `f` and then
/// sorting.
pub proof fn lemma_sorted_by_map<T, U>(
    s: Seq<T>,
    le: spec_fn(T, T) -> bool,
    f: spec_fn(T) -> U,
    le2: spec_fn(U, U) -> bool,
)
    requires
        forall|a: T, b: T| #[trigger] le(a, b) == le2(f(a), f(b)),
    ensures
        sorted_by(s, le).map_values(f) == sorted_by(s.map_values(f), le2),
    decreases s.len(),
{
    if s.len() > 0 {
        let t = s.drop_first();
        lemma_sorted_by_map(t, le, f, le2);
        assert(s.map_values(f).drop_first() =~= t.map_values(f));
        lemma_insert_map(s[0], sorted_by(t, le), le, f, le2);
    } else {
        assert(s.map_values(f) =~= Seq::empty());
        assert(sorted_by(s, le).map_values(f) =~= Seq::empty());
    }
}

proof fn lemma_insert_map<T, U>(
    x: T,
    s: Seq<T>,
    le: spec_fn(T, T) -> bool,
    f: spec_fn(T) -> U,
    le2: spec_fn(U, U) -> bool,
)
    requires
        forall|a: T, b: T| #[trigger] le(a, b) == le2(f(a), f(b)),
    ensures
        insert_ranked(x, s, le).map_values(f) == insert_ranked(f(x), s.map_values(f), le2),
    decreases s.len(),
{
    if s.len() == 0 || le(x, s[0]) {
        assert((seq![x] + s).map_values(f) =~= seq![f(x)] + s.map_values(f));
    } else {
        let t = s.drop_first();
        lemma_insert_map(x, t, le, f, le2);
        assert(s.map_values(f).drop_first() =~= t.map_values(f));
        assert((seq![s[0]] + insert_ranked(x, t, le)).map_values(f) =~= seq![f(s[0])]
            + insert_ranked(x, t, le).map_values(f));
    }
}

/// Inserting into the merged sequence is inserting into the first of the two.
proof fn lemma_insert_merged<T>(x: T, a: Seq<T>, b: Seq<T>, le: spec_fn(T, T) -> bool)
    requires
        total_order(le),
    ensures
        insert_ranked(x, merged(a, b, le), le) == merged(insert_ranked(x, a, le), b, le),
    decreases a.len() + b.len(),
{
    let m = merged(a, b, le);
    let ia = insert_ranked(x, a, le);
    if a.len() == 0 {
        assert(ia =~= seq![x]);
        assert(ia.drop_first() =~= Seq::empty());
        if b.len() > 0 && !le(x, b[0]) {
            lemma_insert_merged(x, a, b.drop_first(), le);
            assert(merged(a, b.drop_first(), le) =~= b.drop_first());
        } else if b.len() > 0 {
            assert(merged(ia.drop_first(), b, le) == b);
        } else {
            assert(merged(ia, b, le) =~= ia);
            assert(seq![x] + b =~= seq![x]);
        }
    } else if b.len() == 0 {
        assert(m =~= a);
    } else if le(a[0], b[0]) {
        assert(m[0] == a[0]);
        assert(m.drop_first() =~= merged(a.drop_first(), b, le));
        if le(x, a[0]) {
            assert(le(x, b[0]));
            assert(ia[0] == x);
            assert(ia.drop_first() =~= a);
            assert(merged(ia, b, le) =~= seq![x] + merged(a, b, le));
        } else {
            lemma_insert_merged(x, a.drop_first(), b, le);
            assert(ia[0] == a[0]);
            assert(ia.drop_first() =~= insert_ranked(x, a.drop_first(), le));
        }
    } else {
        assert(m[0] == b[0]);
        assert(m.drop_first() =~= merged(a, b.drop_first(), le));
        if le(x, b[0]) {
            assert(le(b[0], a[0]));
            assert(le(x, a[0]));
            assert(ia[0] == x);
            assert(ia.drop_first() =~= a);
        } else {
            lemma_insert_merged(x, a, b.drop_first(), le);
            assert(!le(ia[0], b[0]));
        }
    }
}

/// Sorting the two halves and merging them is sorting the whole.
proof fn lemma_sorted_halves<T>(a: Seq<T>, b: Seq<T>, le: spec_fn(T, T) -> bool)
    requires
        total_order(le),
    ensures
        sorted_by(a + b, le) == merged(sorted_by(a, le), sorted_by(b, le), le),
    decreases a.len(),
{
    if a.len() == 0 {
        assert(a + b =~= b);
    } else {
        lemma_sorted_halves(a.drop_first(), b, le);
        assert((a + b).drop_first() =~= a.drop_first() + b);
        lemma_insert_merged(a[0], sorted_by(a.drop_first(), le), sorted_by(b, le), le);
    }
}

/// The order of `T`, as a relation.
pub open spec fn rank_order<T: Ranked>() -> spec_fn(T, T) -> bool {
    |a: T, b: T| a.rank_le(b)
}

/// The order of `T` is total and transitive.
pub proof fn lemma_rank_order<T: Ranked>()
    ensures
        total_order(rank_order::<T>()),
{
    let le = rank_order::<T>();
    assert forall|a: T, b: T| #[trigger] le(a, b) || le(b, a) by {
        T::rank_total(a, b);
    }
    assert forall|a: T, b: T, c: T| #[trigger] le(a, b) && #[trigger] le(b, c) implies le(
        a,
        c,
    ) by {
        T::rank_transitive(a, b, c);
    }
}

fn merge<T: Ranked>(left: VecDeque<T>, right: VecDeque<T>) -> (r: VecDeque<T>)
    ensures
        r@ == merged(left@, right@, rank_order::<T>()),
{
    let ghost le = rank_order::<T>();
    let ghost whole = merged(left@, right@, le);
    let mut a = left;
    let mut b = right;
    let mut out: VecDeque<T> = VecDeque::new();
    assert(out@ + merged(a@, b@, le) =~= whole);
    while a.len() > 0 && b.len() > 0
        invariant
            le == rank_order::<T>(),
            out@ + merged(a@, b@, le) == whole,
        decreases a@.len() + b@.len(),
    {
        let ghost before = out@;
        let ghost a0 = a@;
        let ghost b0 = b@;
        if a[0].may_precede(&b[0]) {
            if let Some(x) = a.pop_front() {
                out.push_back(x);
                assert(a@ =~= a0.drop_first());
                assert(out@ + merged(a@, b@, le) =~= before + (seq![x] + merged(a@, b@, le)));
            }
        } else {
            if let Some(x) = b.pop_front() {
                out.push_back(x);
                assert(b@ =~= b0.drop_first());
                assert(out@ + merged(a@, b@, le) =~= before + (seq![x] + merged(a@, b@, le)));
            }
        }
    }
    if a.len() == 0 {
        out.append(&mut b);
    } else {
        out.append(&mut a);
    }
    assert(out@ =~= whole);
    out
}

fn sort_deque<T: Ranked>(items: VecDeque<T>) -> (r: VecDeque<T>)
    ensures
        r@ == sorted_by(items@, rank_order::<T>()),
    decreases items@.len(),
{
    let ghost le = rank_order::<T>();
    let ghost whole = items@;
    let mut front = items;
    if front.len() <= 1 {
        if front.len() == 1 {
            assert(sorted_by(whole.drop_first(), le) =~= Seq::empty());
            assert(seq![whole[0]] + Seq::empty() =~= whole);
        }
        return front;
    }
    let half: usize = front.len() / 2;
    let back = front.split_off(half);
    assert(whole =~= front@ + back@);
    proof {
        lemma_rank_order::<T>();
        lemma_sorted_halves(front@, back@, le);
    }
    let a = sort_deque(front);
    let b = sort_deque(back);
    merge(a, b)
}

/// The items in the order of their type; items of the same rank as they came.
pub fn sort<T: Ranked>(items: Vec<T>) -> (r: Vec<T>)
    ensures
        r@ == sorted_by(items@, rank_order::<T>()),
        r@.len() == items@.len(),
{
    let mut rest = items;
    let ghost whole = rest@;
    let mut queue: VecDeque<T> = VecDeque::new();
    while rest.len() > 0
        invariant
            rest@ + queue@ == whole,
        decreases rest@.len(),
    {
        if let Some(x) = rest.pop() {
            queue.push_front(x);
            assert(rest@ + queue@ =~= whole);
        }
    }
    assert(queue@ =~= whole);
    let mut sorted = sort_deque(queue);
    let ghost result = sorted@;
    let mut out: Vec<T> = Vec::new();
    assert(out@ + sorted@ =~= result);
    while sorted.len() > 0
        invariant
            out@ + sorted@ == result,
        decreases sorted@.len(),
    {
        if let Some(x) = sorted.pop_front() {
            out.push(x);
            assert(out@ + sorted@ =~= result);
        }
    }
    assert(out@ =~= result);
    proof {
        lemma_rank_order::<T>();
        lemma_sorted_by(whole, rank_order::<T>());
    }
    out
}

// ---------------------------------------------------------------------------
// Texts
// ---------------------------------------------------------------------------

impl Ranked for String {
    open spec fn rank_le(self, other: Self) -> bool {
        text_le(self@, other@)
    }

    proof fn rank_total(a: Self, b: Self) {
        lemma_text_le_total(a@, b@);
    }

    proof fn rank_transitive(a: Self, b: Self, c: Self) {
        lemma_text_le_transitive(a@, b@, c@);
    }

    fn may_precede(&self, other: &Self) -> (r: bool) {
        not_after(self.as_str(), other.as_str())
    }
}

/// The order of texts, as a relation.
pub open spec fn text_order() -> spec_fn(Seq<char>, Seq<char>) -> bool {
    |a: Seq<char>, b: Seq<char>| text_le(a, b)
}

/// The order of texts is total and transitive.
pub proof fn lemma_text_order()
    ensures
        total_order(text_order()),
{
    let le = text_order();
    assert forall|a: Seq<char>, b: Seq<char>| #[trigger] le(a, b) || le(b, a) by {
        lemma_text_le_total(a, b);
    }
    assert forall|a: Seq<char>, b: Seq<char>, c: Seq<char>| #[trigger]
        le(a, b) && #[trigger] le(b, c) implies le(a, c) by {
        lemma_text_le_transitive(a, b, c);
    }
}

/// The texts in their order.
pub fn sort_texts(items: Vec<String>) -> (r: Vec<String>)
    ensures
        views(r@) == sorted_by(views(items@), text_order()),
        r@.len() == items@.len(),
{
    let ghost before = items@;
    let out = sort(items);
    proof {
        let f = |s: String| s@;
        lemma_sorted_by_map(before, rank_order::<String>(), f, text_order());
        assert(before.map_values(f) =~= views(before));
        assert(out@.map_values(f) =~= views(out@));
    }
    out
}

/// What sorting keeps: which elements there are, and that none is there twice.
pub proof fn lemma_sorted_members<T>(s: Seq<T>, le: spec_fn(T, T) -> bool)
    requires
        total_order(le),
    ensures
        forall|x: T| #[trigger] sorted_by(s, le).contains(x) <==> s.contains(x),
        s.no_duplicates() ==> sorted_by(s, le).no_duplicates(),
{
    broadcast use vstd::seq_lib::group_to_multiset_ensures;

    let t = sorted_by(s, le);
    lemma_sorted_by(s, le);
    assert forall|x: T| #[trigger] t.contains(x) <==> s.contains(x) by {
        assert(t.to_multiset().count(x) == s.to_multiset().count(x));
    }
    if s.no_duplicates() {
        s.lemma_multiset_has_no_duplicates();
        assert forall|x: T| t.to_multiset().contains(x) implies t.to_multiset().count(x) == 1 by {
            assert(s.to_multiset().contains(x));
        }
        t.lemma_multiset_has_no_duplicates_conv();
    }
}

/// A list without what repeats the item before it.
pub open spec fn without_repeats(s: Seq<Seq<char>>) -> Seq<Seq<char>>
    decreases s.len(),
{
    if s.len() == 0 {
        Seq::empty()
    } else if s.len() > 1 && s[s.len() - 2] == s.last() {
        without_repeats(s.drop_last())
    } else {
        without_repeats(s.drop_last()).push(s.last())
    }
}

/// The texts in order, each once.
pub open spec fn ordered_names(names: Seq<Seq<char>>) -> Seq<Seq<char>> {
    without_repeats(sorted_by(names, text_order()))
}

/// The texts in order, each once.
pub fn order_names(names: Vec<String>) -> (r: Vec<String>)
    ensures
        views(r@) == ordered_names(views(names@)),
{
    let sorted = sort_texts(names);
    let ghost all = views(sorted@);
    let mut out: Vec<String> = Vec::new();
    let mut i: usize = 0;
    assert(all.take(0) =~= Seq::empty());
    assert(views(out@) =~= Seq::empty());
    while i < sorted.len()
        invariant
            i <= sorted@.len(),
            all == views(sorted@),
            views(out@) == without_repeats(all.take(i as int)),
        decreases sorted@.len() - i,
    {
        let ghost before = views(out@);
        let ghost next = all.take(i + 1);
        assert(next.drop_last() =~= all.take(i as int));
        assert(next.last() == sorted@[i as int]@);
        assert(i > 0 ==> next[next.len() - 2] == sorted@[i - 1]@);
        if i == 0 || !same(sorted[i - 1].as_str(), sorted[i].as_str()) {
            out.push(sorted[i].clone());
            assert(views(out@) =~= before.push(sorted@[i as int]@));
        }
        i = i + 1;
    }
    assert(all.take(i as int) =~= all);
    out
}

/// What `without_repeats` makes of an ordered list: strictly ordered, the same
/// items, and the same last one.
proof fn lemma_without_repeats(s: Seq<Seq<char>>)
    requires
        in_order(s, text_order()),
    ensures
        in_order(without_repeats(s), text_order()),
        without_repeats(s).no_duplicates(),
        forall|x: Seq<char>| #[trigger] without_repeats(s).contains(x) <==> s.contains(x),
        s.len() > 0 ==> without_repeats(s).len() > 0 && without_repeats(s).last() == s.last(),
    decreases s.len(),
{
    if s.len() > 0 {
        let le = text_order();
        let rest = s.drop_last();
        let x = s.last();
        let before = without_repeats(rest);
        let out = without_repeats(s);
        assert(in_order(rest, le)) by {
            assert forall|i: int, j: int| 0 <= i < j < rest.len() implies le(
                #[trigger] rest[i],
                #[trigger] rest[j],
            ) by {
                assert(le(s[i], s[j]));
            }
        }
        lemma_without_repeats(rest);
        assert(s =~= rest.push(x));
        let repeats = s.len() > 1 && s[s.len() - 2] == x;
        if repeats {
            assert(rest.last() == x);
            assert forall|y: Seq<char>| #[trigger] out.contains(y) <==> s.contains(y) by {
                if s.contains(y) {
                    let i = choose|i: int| 0 <= i < s.len() && s[i] == y;
                    if i < rest.len() {
                        assert(rest[i] == y);
                        assert(before.contains(y));
                    } else {
                        assert(before.contains(before.last()));
                    }
                }
                if out.contains(y) {
                    assert(rest.contains(y));
                    let i = choose|i: int| 0 <= i < rest.len() && rest[i] == y;
                    assert(s[i] == y);
                }
            }
        } else {
            assert forall|i: int| 0 <= i < before.len() implies le(#[trigger] before[i], x)
                && before[i] != x by {
                assert(before.contains(before[i]));
                let k = choose|k: int| 0 <= k < rest.len() && rest[k] == before[i];
                assert(le(s[k], s[s.len() - 1]));
                if before[i] == x {
                    let last = rest.last();
                    assert(last == s[s.len() - 2]);
                    if k < rest.len() - 1 {
                        assert(le(s[k], s[s.len() - 2]));
                    }
                    assert(le(s[s.len() - 2], s[s.len() - 1]));
                    if k < rest.len() - 1 {
                        lemma_text_le_antisymmetric(x, last);
                    }
                }
            }
            assert forall|y: Seq<char>| #[trigger] out.contains(y) <==> s.contains(y) by {
                if s.contains(y) {
                    let i = choose|i: int| 0 <= i < s.len() && s[i] == y;
                    if i < rest.len() {
                        assert(rest[i] == y);
                        assert(before.contains(y));
                        let j = choose|j: int| 0 <= j < before.len() && before[j] == y;
                        assert(out[j] == y);
                    } else {
                        assert(out.last() == y);
                    }
                }
                if out.contains(y) {
                    let j = choose|j: int| 0 <= j < out.len() && out[j] == y;
                    if j < before.len() {
                        assert(before[j] == y);
                        assert(before.contains(y));
                        let i = choose|i: int| 0 <= i < rest.len() && rest[i] == y;
                        assert(s[i] == y);
                    } else {
                        assert(s[s.len() - 1] == y);
                    }
                }
            }
        }
    }
}

/// `ordered_names` puts texts in order, has none twice, and loses none.
pub proof fn law_ordered_names(names: Seq<Seq<char>>)
    ensures
        in_order(ordered_names(names), text_order()),
        ordered_names(names).no_duplicates(),
        forall|n: Seq<char>| #[trigger] ordered_names(names).contains(n) <==> names.contains(n),
{
    lemma_text_order();
    lemma_sorted_by(names, text_order());
    lemma_sorted_members(names, text_order());
    lemma_without_repeats(sorted_by(names, text_order()));
}

/// Putting in order what is in order already changes nothing.
pub proof fn law_ordering_twice(names: Seq<Seq<char>>)
    ensures
        ordered_names(ordered_names(names)) == ordered_names(names),
{
    let once = ordered_names(names);
    law_ordered_names(names);
    lemma_sorted_by_fixed(once, text_order());
    lemma_nothing_repeats(once);
}

/// A list without duplicates has no repeats.
proof fn lemma_nothing_repeats(s: Seq<Seq<char>>)
    requires
        s.no_duplicates(),
    ensures
        without_repeats(s) == s,
    decreases s.len(),
{
    if s.len() > 0 {
        lemma_nothing_repeats(s.drop_last());
        assert(s =~= s.drop_last().push(s.last()));
    } else {
        assert(s =~= Seq::empty());
    }
}

/// Putting texts in order, each once, leaves no more than there were, and as many where
/// none repeats.
pub proof fn lemma_ordered_length(names: Seq<Seq<char>>)
    ensures
        ordered_names(names).len() <= names.len(),
        ordered_names(names).len() == names.len() <==> names.no_duplicates(),
{
    lemma_text_order();
    lemma_sorted_by(names, text_order());
    lemma_repeats_length(sorted_by(names, text_order()));
    law_ordered_names(names);
    let ordered = ordered_names(names);
    assert(ordered.to_set() =~= names.to_set()) by {
        assert forall|n: Seq<char>| ordered.to_set().contains(n) <==> #[trigger] names.to_set()
            .contains(n) by {
            assert(ordered.contains(n) <==> names.contains(n));
        }
    }
    ordered.unique_seq_to_set();
    if names.no_duplicates() {
        names.unique_seq_to_set();
    }
    if ordered.len() == names.len() {
        names.lemma_no_dup_set_cardinality();
    }
}

proof fn lemma_repeats_length(s: Seq<Seq<char>>)
    ensures
        without_repeats(s).len() <= s.len(),
    decreases s.len(),
{
    if s.len() > 0 {
        lemma_repeats_length(s.drop_last());
    }
}

} // verus!
