//! What a score is.
use vstd::prelude::*;
use crate::laws::text::{law_decimal, number_said};
use crate::score::{score_of, signed_decimal_of};
use crate::text::decimal_of;

verus! {

/// Nothing scores nothing, and each further value scores twice itself.
pub proof fn law_score(values: Seq<i32>, v: i32)
    ensures
        score_of(Seq::<i32>::empty()) == 0,
        score_of(values.push(v)) == score_of(values) + v + v,
{
    assert(values.push(v).drop_last() =~= values);
}

/// A number is written in digits that say it, behind a minus where it is below zero.
pub proof fn law_signed_decimal(n: int)
    ensures
        n >= 0 ==> number_said(signed_decimal_of(n)) == n,
        n < 0 ==> signed_decimal_of(n).len() >= 1 && signed_decimal_of(n)[0] == '-' && number_said(
            signed_decimal_of(n).skip(1),
        ) == -n,
{
    if n >= 0 {
        law_decimal(n as nat);
    } else {
        law_decimal((-n) as nat);
        reveal_strlit("-");
        assert(signed_decimal_of(n).skip(1) =~= decimal_of((-n) as nat));
    }
}

} // verus!
