//! The concurrent maps of `dashmap`, keyed by strings.
//!
//! A map is shared by locking, not by its own interior mutability: whoever
//! changes one holds it exclusively, so that a map that is only read does not
//! change.
use vstd::prelude::*;
use crate::sorting::{
    in_order, lemma_sorted_by, lemma_sorted_members, lemma_text_order, sorted_by, text_order,
};
use crate::text::lemma_text_le_antisymmetric;

verus! {

#[verifier::external_type_specification]
#[verifier::external_body]
#[verifier::reject_recursive_types(K)]
#[verifier::reject_recursive_types(V)]
#[verifier::reject_recursive_types(S)]
pub struct ExDashMap<K, V, S>(dashmap::DashMap<K, V, S>);

/// `keys` holds each key of `contents` once, and nothing else.
pub open spec fn lists_keys<V>(keys: Seq<Seq<char>>, contents: Map<Seq<char>, V>) -> bool {
    &&& keys.no_duplicates()
    &&& forall|k: Seq<char>| #[trigger] keys.contains(k) <==> contents.contains_key(k)
}

/// `keys` holds each key of `contents` once, in the order of texts.
pub open spec fn lists_in_order<V>(keys: Seq<Seq<char>>, contents: Map<Seq<char>, V>) -> bool {
    &&& lists_keys(keys, contents)
    &&& in_order(keys, text_order())
}

/// The keys of `contents`, in the order of texts.
pub open spec fn sorted_keys<V>(contents: Map<Seq<char>, V>) -> Seq<Seq<char>> {
    choose|keys: Seq<Seq<char>>| lists_in_order(keys, contents)
}

/// Sequences without duplicates that are in order and have the same elements are
/// the same.
pub proof fn lemma_one_order(a: Seq<Seq<char>>, b: Seq<Seq<char>>)
    requires
        a.no_duplicates(),
        b.no_duplicates(),
        in_order(a, text_order()),
        in_order(b, text_order()),
        forall|k: Seq<char>| #[trigger] a.contains(k) <==> b.contains(k),
    ensures
        a == b,
    decreases a.len(),
{
    if a.len() == 0 {
        if b.len() > 0 {
            assert(b.contains(b[0]));
            assert(a.contains(b[0]));
        }
        assert(a =~= b);
    } else {
        assert(a.contains(a[0]));
        let i = choose|i: int| 0 <= i < b.len() && b[i] == a[0];
        assert(b.contains(b[0]));
        assert(a.contains(b[0]));
        let j = choose|j: int| 0 <= j < a.len() && a[j] == b[0];
        if i > 0 && j > 0 {
            assert(text_order()(b[0], b[i]));
            assert(text_order()(a[0], a[j]));
            lemma_text_le_antisymmetric(a[0], b[0]);
        }
        assert(a[0] == b[0]);
        let c = a.drop_first();
        let d = b.drop_first();
        assert forall|k: Seq<char>| #[trigger] c.contains(k) <==> d.contains(k) by {
            if c.contains(k) {
                let m = choose|m: int| 0 <= m < c.len() && c[m] == k;
                assert(a[m + 1] == k);
                assert(a.contains(k));
                let n = choose|n: int| 0 <= n < b.len() && b[n] == k;
                assert(n > 0);
                assert(d[n - 1] == k);
            }
            if d.contains(k) {
                let m = choose|m: int| 0 <= m < d.len() && d[m] == k;
                assert(b[m + 1] == k);
                assert(b.contains(k));
                assert(a.contains(k));
                let n = choose|n: int| 0 <= n < a.len() && a[n] == k;
                assert(n > 0);
                assert(c[n - 1] == k);
            }
        }
        assert(in_order(c, text_order())) by {
            assert forall|x: int, y: int| 0 <= x < y < c.len() implies text_order()(
                #[trigger] c[x],
                #[trigger] c[y],
            ) by {
                assert(text_order()(a[x + 1], a[y + 1]));
            }
        }
        assert(in_order(d, text_order())) by {
            assert forall|x: int, y: int| 0 <= x < y < d.len() implies text_order()(
                #[trigger] d[x],
                #[trigger] d[y],
            ) by {
                assert(text_order()(b[x + 1], b[y + 1]));
            }
        }
        lemma_one_order(c, d);
        assert(a =~= seq![a[0]] + c);
        assert(b =~= seq![b[0]] + d);
    }
}

/// However the keys of a map are listed, sorting them gives the same sequence.
pub proof fn lemma_sorted_keys<V>(keys: Seq<Seq<char>>, contents: Map<Seq<char>, V>)
    requires
        lists_keys(keys, contents),
    ensures
        sorted_by(keys, text_order()) == sorted_keys(contents),
        lists_in_order(sorted_keys(contents), contents),
{
    let s = sorted_by(keys, text_order());
    lemma_text_order();
    lemma_sorted_by(keys, text_order());
    lemma_sorted_members(keys, text_order());
    assert(lists_in_order(s, contents));
    let t = sorted_keys(contents);
    assert(lists_in_order(t, contents));
    assert forall|k: Seq<char>| #[trigger] s.contains(k) <==> t.contains(k) by {
        assert(s.contains(k) <==> contents.contains_key(k));
    }
    lemma_one_order(s, t);
}

/// The values of a map, in the order of their keys.
pub open spec fn values_in_order<V>(contents: Map<Seq<char>, V>) -> Seq<V> {
    sorted_keys(contents).map_values(|k: Seq<char>| contents[k])
}

/// The first item for which `p` holds.
pub open spec fn first_where<V>(s: Seq<V>, p: spec_fn(V) -> bool) -> Option<V>
    decreases s.len(),
{
    if s.len() == 0 {
        None
    } else if p(s[0]) {
        Some(s[0])
    } else {
        first_where(s.drop_first(), p)
    }
}

/// The smaller of two numbers.
pub open spec fn min(a: int, b: int) -> int {
    if a <= b {
        a
    } else {
        b
    }
}

/// A list cut off after `n` items.
pub open spec fn first_of<T>(s: Seq<T>, n: int) -> Seq<T> {
    s.take(min(n, s.len() as int))
}

/// How a filter goes on with one more item.
pub proof fn lemma_filter_next<V>(s: Seq<V>, p: spec_fn(V) -> bool, n: int)
    requires
        0 <= n < s.len(),
    ensures
        s.take(n + 1).filter(p) == (if p(s[n]) {
            s.take(n).filter(p).push(s[n])
        } else {
            s.take(n).filter(p)
        }),
{
    reveal(Seq::filter);
    assert(s.take(n + 1).drop_last() =~= s.take(n));
    assert(s.take(n + 1).last() == s[n]);
}

/// A filter of nothing gives nothing.
pub proof fn lemma_filter_start<V>(s: Seq<V>, p: spec_fn(V) -> bool)
    ensures
        s.take(0).filter(p) == Seq::<V>::empty(),
{
    reveal(Seq::filter);
    assert(s.take(0).filter(p) =~= Seq::<V>::empty());
}

} // verus!
