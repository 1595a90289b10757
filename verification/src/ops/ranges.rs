//! Ranges of bytes.
use vstd::prelude::*;
use crate::sorting::{
    in_order, lemma_rank_order, lemma_sorted_by, lemma_sorted_by_fixed, lemma_sorted_members,
    rank_order, sort, sorted_by, Ranked,
};

verus! {

/// Ranges are ordered by where they start.
impl Ranked for (usize, usize) {
    open spec fn rank_le(self, other: Self) -> bool {
        self.0 <= other.0
    }

    proof fn rank_total(a: Self, b: Self) {
    }

    proof fn rank_transitive(a: Self, b: Self, c: Self) {
    }

    fn may_precede(&self, other: &Self) -> (r: bool) {
        self.0 <= other.0
    }
}

/// Byte `b` lies in one of the ranges.
pub open spec fn covers(ranges: Seq<(usize, usize)>, b: int) -> bool {
    exists|i: int| 0 <= i < ranges.len() && (#[trigger] ranges[i]).0 <= b < ranges[i].1
}

/// Both lists cover the same bytes.
pub open spec fn same_cover(x: Seq<(usize, usize)>, y: Seq<(usize, usize)>) -> bool {
    forall|b: int| #[trigger] covers(x, b) == covers(y, b)
}

/// The ranges stand in order and do not overlap. They may touch, and be empty.
pub open spec fn is_merged(ranges: Seq<(usize, usize)>) -> bool {
    &&& forall|i: int| 0 <= i < ranges.len() ==> (#[trigger] ranges[i]).0 <= ranges[i].1
    &&& forall|i: int, j: int|
        0 <= i < j < ranges.len() ==> (#[trigger] ranges[i]).1 <= (#[trigger] ranges[j]).0
}

/// Ranges with one more, which starts behind the start of the last: where the two
/// overlap they are joined. A range that ends before it starts is left out.
pub open spec fn with_range(out: Seq<(usize, usize)>, next: (usize, usize)) -> Seq<(usize, usize)> {
    if next.0 > next.1 {
        out
    } else if out.len() > 0 && next.0 < out.last().1 {
        let end = if next.1 > out.last().1 {
            next.1
        } else {
            out.last().1
        };
        out.drop_last().push((out.last().0, end))
    } else {
        out.push(next)
    }
}

/// Ranges that stand in order, joined where they overlap.
pub open spec fn merged_in_turn(sorted: Seq<(usize, usize)>) -> Seq<(usize, usize)>
    decreases sorted.len(),
{
    if sorted.len() == 0 {
        Seq::empty()
    } else {
        with_range(merged_in_turn(sorted.drop_last()), sorted.last())
    }
}

/// The ranges in the order of their starts, joined where they overlap.
pub open spec fn merged_ranges(ranges: Seq<(usize, usize)>) -> Seq<(usize, usize)> {
    merged_in_turn(sorted_by(ranges, rank_order::<(usize, usize)>()))
}

/// How the cover changes with one more range.
proof fn lemma_cover_push(ranges: Seq<(usize, usize)>, r: (usize, usize), b: int)
    ensures
        covers(ranges.push(r), b) == (covers(ranges, b) || r.0 <= b < r.1),
{
    let all = ranges.push(r);
    if covers(all, b) {
        let i = choose|i: int| 0 <= i < all.len() && (#[trigger] all[i]).0 <= b < all[i].1;
        if i < ranges.len() {
            assert(ranges[i] == all[i]);
        }
    }
    if covers(ranges, b) {
        let i = choose|i: int| 0 <= i < ranges.len() && (#[trigger] ranges[i]).0 <= b < ranges[i].1;
        assert(all[i] == ranges[i]);
    }
    if r.0 <= b < r.1 {
        assert(all[ranges.len() as int] == r);
    }
}

/// Merging one after the other gives merged ranges that cover the same bytes.
proof fn lemma_merged_in_turn(sorted: Seq<(usize, usize)>)
    requires
        in_order(sorted, rank_order::<(usize, usize)>()),
    ensures
        is_merged(merged_in_turn(sorted)),
        same_cover(merged_in_turn(sorted), sorted),
        merged_in_turn(sorted).len() > 0 ==> sorted.len() > 0 && merged_in_turn(sorted).last().0
            <= sorted.last().0,
    decreases sorted.len(),
{
    if sorted.len() > 0 {
        let seen = sorted.drop_last();
        let next = sorted.last();
        let before = merged_in_turn(seen);
        let out = merged_in_turn(sorted);
        let le = rank_order::<(usize, usize)>();
        assert(in_order(seen, le)) by {
            assert forall|i: int, j: int| 0 <= i < j < seen.len() implies le(
                #[trigger] seen[i],
                #[trigger] seen[j],
            ) by {
                assert(le(sorted[i], sorted[j]));
            }
        }
        lemma_merged_in_turn(seen);
        assert(sorted =~= seen.push(next));
        assert(before.len() > 0 ==> before.last().0 <= next.0) by {
            if before.len() > 0 {
                assert(le(sorted[sorted.len() - 2], sorted[sorted.len() - 1]));
            }
        }
        if next.0 > next.1 {
            assert forall|b: int| #[trigger] covers(out, b) == covers(sorted, b) by {
                lemma_cover_push(seen, next, b);
                assert(covers(before, b) == covers(seen, b));
            }
        } else if before.len() > 0 && next.0 < before.last().1 {
            let front = before.drop_last();
            let last = before.last();
            let joined = out.last();
            assert(before =~= front.push(last));
            assert forall|b: int| #[trigger] covers(out, b) == covers(sorted, b) by {
                lemma_cover_push(seen, next, b);
                assert(covers(before, b) == covers(seen, b));
                lemma_cover_push(front, last, b);
                lemma_cover_push(front, joined, b);
            }
            assert forall|x: int, y: int| 0 <= x < y < out.len() implies (#[trigger] out[x]).1 <= (
            #[trigger] out[y]).0 by {
                assert(before[x].1 <= before[y].0);
            }
        } else {
            assert forall|b: int| #[trigger] covers(out, b) == covers(sorted, b) by {
                lemma_cover_push(seen, next, b);
                lemma_cover_push(before, next, b);
                assert(covers(before, b) == covers(seen, b));
            }
            let n = before.len();
            assert forall|x: int, y: int| 0 <= x < y < out.len() implies (#[trigger] out[x]).1 <= (
            #[trigger] out[y]).0 by {
                if y == n && x < n - 1 {
                    assert(before[x].1 <= before[n - 1].0);
                }
            }
        }
    }
}

/// The merged form of ranges is merged, and covers the same bytes.
proof fn lemma_merging(ranges: Seq<(usize, usize)>)
    ensures
        is_merged(merged_ranges(ranges)),
        same_cover(merged_ranges(ranges), ranges),
{
    let le = rank_order::<(usize, usize)>();
    let sorted = sorted_by(ranges, le);
    lemma_rank_order::<(usize, usize)>();
    lemma_sorted_by(ranges, le);
    lemma_sorted_members(ranges, le);
    lemma_merged_in_turn(sorted);
    let m = merged_in_turn(sorted);
    assert forall|b: int| #[trigger] covers(m, b) == covers(ranges, b) by {
        assert(covers(m, b) == covers(sorted, b));
        if covers(sorted, b) {
            let k = choose|k: int| 0 <= k < sorted.len() && (#[trigger] sorted[k]).0 <= b
                < sorted[k].1;
            assert(sorted.contains(sorted[k]));
            let n = choose|n: int| 0 <= n < ranges.len() && ranges[n] == sorted[k];
            assert(ranges[n].0 <= b < ranges[n].1);
        }
        if covers(ranges, b) {
            let k = choose|k: int| 0 <= k < ranges.len() && (#[trigger] ranges[k]).0 <= b
                < ranges[k].1;
            assert(ranges.contains(ranges[k]));
            assert(sorted.contains(ranges[k]));
            let n = choose|n: int| 0 <= n < sorted.len() && sorted[n] == ranges[k];
            assert(sorted[n].0 <= b < sorted[n].1);
        }
    }
}

/// Ranges that do not overlap are left as they are when they are joined in turn.
proof fn lemma_merged_stays(ranges: Seq<(usize, usize)>)
    requires
        is_merged(ranges),
    ensures
        merged_in_turn(ranges) == ranges,
    decreases ranges.len(),
{
    if ranges.len() > 0 {
        let front = ranges.drop_last();
        let last = ranges.last();
        assert(is_merged(front)) by {
            assert forall|i: int, j: int| 0 <= i < j < front.len() implies (#[trigger] front[i]).1
                <= (#[trigger] front[j]).0 by {
                assert(ranges[i].1 <= ranges[j].0);
            }
            assert forall|i: int| 0 <= i < front.len() implies (#[trigger] front[i]).0
                <= front[i].1 by {
                assert(ranges[i].0 <= ranges[i].1);
            }
        }
        lemma_merged_stays(front);
        assert(ranges[ranges.len() - 1].0 <= ranges[ranges.len() - 1].1);
        if front.len() > 0 {
            assert(ranges[ranges.len() - 2].1 <= ranges[ranges.len() - 1].0);
        }
        assert(merged_in_turn(ranges) =~= ranges);
    } else {
        assert(merged_in_turn(ranges) =~= ranges);
    }
}

/// Merging ranges that do not overlap and stand in order changes nothing.
pub proof fn law_merging_twice(ranges: Seq<(usize, usize)>)
    requires
        is_merged(ranges),
    ensures
        merged_ranges(ranges) == ranges,
{
    let le = rank_order::<(usize, usize)>();
    lemma_rank_order::<(usize, usize)>();
    assert(in_order(ranges, le)) by {
        assert forall|i: int, j: int| 0 <= i < j < ranges.len() implies le(
            #[trigger] ranges[i],
            #[trigger] ranges[j],
        ) by {
            assert(ranges[i].0 <= ranges[i].1);
            assert(ranges[i].1 <= ranges[j].0);
        }
    }
    lemma_sorted_by_fixed(ranges, le);
    lemma_merged_stays(ranges);
}

/// The merged form of ranges covers the bytes that they cover, and no others.
pub proof fn law_merging_keeps_cover(ranges: Seq<(usize, usize)>, b: int)
    ensures
        is_merged(merged_ranges(ranges)),
        covers(merged_ranges(ranges), b) == covers(ranges, b),
{
    lemma_merging(ranges);
}

/// Merging leaves ranges where they end within a bound.
pub(crate) proof fn lemma_merged_within(ranges: Seq<(usize, usize)>, bound: int)
    requires
        forall|i: int| 0 <= i < ranges.len() ==> (#[trigger] ranges[i]).1 <= bound,
    ensures
        forall|i: int|
            0 <= i < merged_ranges(ranges).len() ==> (#[trigger] merged_ranges(ranges)[i]).1
                <= bound,
{
    let le = rank_order::<(usize, usize)>();
    let sorted = sorted_by(ranges, le);
    lemma_rank_order::<(usize, usize)>();
    lemma_sorted_members(ranges, le);
    assert forall|i: int| 0 <= i < sorted.len() implies (#[trigger] sorted[i]).1 <= bound by {
        assert(sorted.contains(sorted[i]));
        assert(ranges.contains(sorted[i]));
    }
    lemma_merged_in_turn_within(sorted, bound);
}

proof fn lemma_merged_in_turn_within(sorted: Seq<(usize, usize)>, bound: int)
    requires
        forall|i: int| 0 <= i < sorted.len() ==> (#[trigger] sorted[i]).1 <= bound,
    ensures
        forall|i: int|
            0 <= i < merged_in_turn(sorted).len() ==> (#[trigger] merged_in_turn(sorted)[i]).1
                <= bound,
    decreases sorted.len(),
{
    if sorted.len() > 0 {
        let rest = sorted.drop_last();
        assert forall|i: int| 0 <= i < rest.len() implies (#[trigger] rest[i]).1 <= bound by {
            assert(rest[i] == sorted[i]);
        }
        lemma_merged_in_turn_within(rest, bound);
        let before = merged_in_turn(rest);
        let out = merged_in_turn(sorted);
        let next = sorted[sorted.len() - 1];
        assert(next.1 <= bound);
        assert forall|i: int| 0 <= i < out.len() implies (#[trigger] out[i]).1 <= bound by {
            if i < before.len() {
                assert(before[i].1 <= bound);
                assert(out[i] == before[i] || out[i].1 == next.1 || out[i].1 == before[i].1);
            }
        }
    }
}

/// Puts the ranges in order and joins those that overlap; ranges that only touch stay
/// apart.
pub fn merge_ranges(ranges: Vec<(usize, usize)>) -> (r: Vec<(usize, usize)>)
    ensures
        r@ == merged_ranges(ranges@),
        is_merged(r@),
        same_cover(r@, ranges@),
{
    proof {
        lemma_merging(ranges@);
    }
    let sorted = sort(ranges);
    let mut out: Vec<(usize, usize)> = Vec::new();
    let mut i: usize = 0;
    assert(sorted@.take(0) =~= Seq::empty());
    while i < sorted.len()
        invariant
            i <= sorted@.len(),
            out@ == merged_in_turn(sorted@.take(i as int)),
        decreases sorted@.len() - i,
    {
        let next = sorted[i];
        let n: usize = out.len();
        assert(sorted@.take(i + 1).drop_last() =~= sorted@.take(i as int));
        assert(sorted@.take(i + 1).last() == next);
        let ghost before = out@;
        if next.0 <= next.1 {
            if n > 0 && next.0 < out[n - 1].1 {
                let last = out[n - 1];
                if next.1 > last.1 {
                    out.set(n - 1, (last.0, next.1));
                }
                assert(out@ =~= with_range(before, next));
            } else {
                out.push(next);
            }
        }
        i = i + 1;
    }
    assert(sorted@.take(i as int) =~= sorted@);
    out
}

/// Whether a byte lies in one of the ranges, which stand in order and do not overlap.
pub fn is_in_excluded_range(byte_offset: usize, ranges: &Vec<(usize, usize)>) -> (r: bool)
    requires
        is_merged(ranges@),
    ensures
        r == covers(ranges@, byte_offset as int),
{
    let mut low: usize = 0;
    let mut high: usize = ranges.len();
    while low < high
        invariant
            low <= high <= ranges@.len(),
            is_merged(ranges@),
            forall|i: int| 0 <= i < low ==> (#[trigger] ranges@[i]).1 <= byte_offset,
            forall|i: int| high <= i < ranges@.len() ==> byte_offset < (#[trigger] ranges@[i]).0,
        decreases high - low,
    {
        let mid: usize = low + (high - low) / 2;
        let (start, end) = ranges[mid];
        if byte_offset < start {
            assert forall|i: int| mid <= i < ranges@.len() implies byte_offset < (
            #[trigger] ranges@[i]).0 by {
                if i > mid {
                    assert(ranges@[mid as int].1 <= ranges@[i].0);
                }
            }
            high = mid;
        } else if byte_offset >= end {
            assert forall|i: int| 0 <= i < mid + 1 implies (#[trigger] ranges@[i]).1
                <= byte_offset by {
                if i < mid {
                    assert(ranges@[i].1 <= ranges@[mid as int].0);
                }
            }
            low = mid + 1;
        } else {
            assert(ranges@[mid as int].0 <= byte_offset < ranges@[mid as int].1);
            return true;
        }
    }
    false
}

} // verus!
