//! What is taken of a list.
use vstd::prelude::*;
use crate::maps::first_of;
use crate::sorting::{in_order, insert_ranked, lemma_sorted_by, sorted_by, total_order};

verus! {

/// What a condition leaves of a list are the members that meet it.
pub proof fn lemma_filter_members<T>(s: Seq<T>, p: spec_fn(T) -> bool)
    ensures
        forall|x: T| #[trigger] s.filter(p).contains(x) <==> s.contains(x) && p(x),
{
    broadcast use vstd::seq_lib::group_filter_ensures;

    assert forall|x: T| #[trigger] s.filter(p).contains(x) <==> s.contains(x) && p(x) by {
        if s.filter(p).contains(x) {
            let i = choose|i: int| 0 <= i < s.filter(p).len() && s.filter(p)[i] == x;
            assert(p(s.filter(p)[i]));
            s.lemma_filter_contains_rev(p, x);
        }
        if s.contains(x) && p(x) {
            let j = choose|j: int| 0 <= j < s.len() && s[j] == x;
            assert(s.filter(p).contains(s[j]));
        }
    }
}

/// The first members of a list are as many as were asked for, or all where there are fewer,
/// each in its place.
pub proof fn law_first_of<T>(s: Seq<T>, n: int)
    requires
        0 <= n,
    ensures
        first_of(s, n).len() <= n,
        first_of(s, n).len() < n ==> first_of(s, n) == s,
        first_of(s, n).is_prefix_of(s),
{
    if first_of(s, n).len() < n {
        assert(first_of(s, n) =~= s);
    }
}

/// What is among the first members is in the list; where fewer were taken than asked for,
/// what is in the list was taken.
pub proof fn lemma_first_members<T>(s: Seq<T>, n: int, x: T)
    requires
        0 <= n,
    ensures
        first_of(s, n).contains(x) ==> s.contains(x),
        s.contains(x) ==> first_of(s, n).contains(x) || first_of(s, n).len() == n,
{
    let t = first_of(s, n);
    if t.contains(x) {
        let i = choose|i: int| 0 <= i < t.len() && t[i] == x;
        assert(s[i] == x);
    }
    if s.contains(x) && t.len() < n {
        assert(t =~= s);
    }
}

/// Two values stand in no order: each may stand before the other.
pub open spec fn are_level<T>(a: T, le: spec_fn(T, T) -> bool) -> spec_fn(T) -> bool {
    |x: T| le(a, x) && le(x, a)
}

/// Putting a value into its place leaves it in front of all that are level with it.
proof fn lemma_inserted_level<T>(x: T, s: Seq<T>, a: T, le: spec_fn(T, T) -> bool)
    requires
        total_order(le),
        in_order(s, le),
    ensures
        insert_ranked(x, s, le).filter(are_level(a, le)) == (if are_level(a, le)(x) {
            seq![x] + s.filter(are_level(a, le))
        } else {
            s.filter(are_level(a, le))
        }),
    decreases s.len(),
{
    let p = are_level(a, le);
    if s.len() == 0 || le(x, s[0]) {
        lemma_filter_front(x, s, p);
    } else {
        let rest = s.drop_first();
        assert forall|i: int, j: int| 0 <= i < j < rest.len() implies le(
            #[trigger] rest[i],
            #[trigger] rest[j],
        ) by {
            assert(rest[i] == s[i + 1] && rest[j] == s[j + 1]);
        }
        lemma_inserted_level(x, rest, a, le);
        lemma_filter_front(s[0], insert_ranked(x, rest, le), p);
        lemma_filter_front(s[0], rest, p);
        assert(seq![s[0]] + rest =~= s);
        assert(le(s[0], x));
        if p(x) && p(s[0]) {
            assert(le(x, a) && le(a, s[0]));
            assert(le(x, s[0]));
        }
    }
}

/// A condition on a list with one more value in front.
proof fn lemma_filter_front<T>(x: T, s: Seq<T>, p: spec_fn(T) -> bool)
    ensures
        (seq![x] + s).filter(p) == (if p(x) {
            seq![x] + s.filter(p)
        } else {
            s.filter(p)
        }),
    decreases s.len(),
{
    reveal(Seq::filter);
    let all = seq![x] + s;
    if s.len() == 0 {
        assert(all =~= seq![x]);
        assert(all.drop_last() =~= Seq::empty());
        assert(Seq::<T>::empty().filter(p) =~= Seq::empty());
        assert(s.filter(p) =~= Seq::empty());
        assert(all.last() == x);
        assert(all.filter(p) =~= if p(x) {
            seq![x] + s.filter(p)
        } else {
            s.filter(p)
        });
    } else {
        let rest = s.drop_last();
        assert(all.drop_last() =~= seq![x] + rest);
        assert(all.last() == s.last());
        lemma_filter_front(x, rest, p);
        assert(all.filter(p) =~= if p(x) {
            seq![x] + s.filter(p)
        } else {
            s.filter(p)
        });
    }
}

/// Putting a list in order gives the same values, as often as they are there, in order;
/// values that are level with one another keep the order in which they were.
pub proof fn law_sorting<T>(s: Seq<T>, le: spec_fn(T, T) -> bool, a: T)
    requires
        total_order(le),
    ensures
        sorted_by(s, le).to_multiset() == s.to_multiset(),
        forall|i: int, j: int|
            0 <= i < j < sorted_by(s, le).len() ==> le(
                #[trigger] sorted_by(s, le)[i],
                #[trigger] sorted_by(s, le)[j],
            ),
        sorted_by(s, le).filter(are_level(a, le)) == s.filter(are_level(a, le)),
    decreases s.len(),
{
    lemma_sorted_by(s, le);
    if s.len() > 0 {
        let rest = s.drop_first();
        law_sorting(rest, le, a);
        lemma_sorted_by(rest, le);
        lemma_inserted_level(s[0], sorted_by(rest, le), a, le);
        lemma_filter_front(s[0], rest, are_level(a, le));
        assert(seq![s[0]] + rest =~= s);
    }
}

} // verus!
