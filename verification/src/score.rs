//! Scores of lists of values.
use vstd::prelude::*;
use crate::text::{decimal, decimal_of};

verus! {

/// The label under which scores are published.
pub const RUST_FIXTURE_LABEL: &'static str = "mixed-rust-target";

/// The score of values: twice their sum.
pub open spec fn score_of(values: Seq<i32>) -> int
    decreases values.len(),
{
    if values.len() == 0 {
        0
    } else {
        score_of(values.drop_last()) + values.last() * 2
    }
}

/// Every value can be doubled, and the score of the values so far always fits.
pub open spec fn score_fits(values: Seq<i32>) -> bool {
    &&& forall|i: int|
        0 <= i < values.len() ==> i32::MIN <= #[trigger] values[i] * 2 <= i32::MAX
    &&& forall|n: int|
        0 <= n <= values.len() ==> i32::MIN <= #[trigger] score_of(values.take(n)) <= i32::MAX
}

/// An integer in decimal.
pub open spec fn signed_decimal_of(n: int) -> Seq<char> {
    if n < 0 {
        "-"@ + decimal_of((-n) as nat)
    } else {
        decimal_of(n as nat)
    }
}

/// The score of values: twice their sum.
pub fn calculate_score(values: &[i32]) -> (r: i32)
    requires
        score_fits(values@),
    ensures
        r == score_of(values@),
{
    let mut total: i32 = 0;
    let mut i: usize = 0;
    assert(values@.take(0) =~= Seq::empty());
    while i < values.len()
        invariant
            i <= values@.len(),
            score_fits(values@),
            total == score_of(values@.take(i as int)),
        decreases values@.len() - i,
    {
        assert(values@.take(i + 1).drop_last() =~= values@.take(i as int));
        assert(values@.take(i + 1).last() == values@[i as int]);
        assert(i32::MIN <= values@[i as int] * 2 <= i32::MAX);
        assert(i32::MIN <= score_of(values@.take(i + 1)) <= i32::MAX);
        total = total + values[i] * 2;
        i = i + 1;
    }
    assert(values@.take(i as int) =~= values@);
    total
}

/// An integer in decimal.
fn signed_decimal(n: i32) -> (r: String)
    ensures
        r@ == signed_decimal_of(n as int),
{
    if n < 0 {
        let size: i64 = -(n as i64);
        let digits = decimal(size as usize);
        let mut r = "-".to_string();
        r.append(digits.as_str());
        r
    } else {
        decimal(n as usize)
    }
}

/// The score of values, as it is published.
pub fn publish_score(values: &[i32]) -> (r: String)
    requires
        score_fits(values@),
    ensures
        r@ == "score:"@ + signed_decimal_of(score_of(values@)),
{
    let number = signed_decimal(calculate_score(values));
    let mut r = "score:".to_string();
    r.append(number.as_str());
    r
}

/// The score of two lists behind each other is the sum of their scores.
pub proof fn law_scores_add(a: Seq<i32>, b: Seq<i32>)
    ensures
        score_of(a + b) == score_of(a) + score_of(b),
    decreases b.len(),
{
    if b.len() == 0 {
        assert(a + b =~= a);
    } else {
        law_scores_add(a, b.drop_last());
        assert((a + b).drop_last() =~= a + b.drop_last());
    }
}

} // verus!
