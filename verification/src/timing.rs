//! How the time budget of a path is divided among its segments.
//!
//! Every segment receives the share of the total time that its length is of
//! the total length, so that the path is travelled at one average speed.

use vstd::prelude::*;

verus! {

/// The sum of the lengths in `lengths`.
pub open spec fn total_length(lengths: Seq<int>) -> int
    decreases lengths.len(),
{
    if lengths.len() == 0 {
        0
    } else {
        total_length(lengths.drop_last()) + lengths.last()
    }
}

/// The time allotted to a segment of length `length` on a path of length
/// `total` that is to take `time`: `time * length / total`, rounded down.
/// On a path of no length every segment takes no time.
pub open spec fn share_spec(time: int, length: int, total: int) -> int {
    if total <= 0 {
        0
    } else {
        (time * length) / total
    }
}

/// The sum of the times allotted to segments of the given lengths on a path
/// of length `total`.
pub open spec fn total_share(time: int, lengths: Seq<int>, total: int) -> int
    decreases lengths.len(),
{
    if lengths.len() == 0 {
        0
    } else {
        total_share(time, lengths.drop_last(), total) + share_spec(time, lengths.last(), total)
    }
}

/// No length in `lengths` is negative.
pub open spec fn all_non_negative(lengths: Seq<int>) -> bool {
    forall|i: int| 0 <= i < lengths.len() ==> lengths[i] >= 0
}

/// The sum of the first `i + 1` lengths is the sum of the first `i` and the
/// one that follows them.
pub proof fn lemma_total_length_step(lengths: Seq<int>, i: int)
    requires
        0 <= i < lengths.len(),
    ensures
        total_length(lengths.take(i + 1)) == total_length(lengths.take(i)) + lengths[i],
        total_length(lengths.take(0)) == 0,
        lengths.take(lengths.len() as int) == lengths,
{
    assert(lengths.take(i + 1).drop_last() =~= lengths.take(i));
    assert(lengths.take(lengths.len() as int) =~= lengths);
}

/// Where no length is negative, none is more than the sum of all.
pub proof fn lemma_length_within_total(lengths: Seq<int>, i: int)
    requires
        all_non_negative(lengths),
        0 <= i < lengths.len(),
    ensures
        0 <= lengths[i] <= total_length(lengths),
    decreases lengths.len(),
{
    let front = lengths.drop_last();
    lemma_total_non_negative(front);
    if i < lengths.len() - 1 {
        lemma_length_within_total(front, i);
    }
}

/// Where no length is negative, neither is the sum.
pub proof fn lemma_total_non_negative(lengths: Seq<int>)
    requires
        all_non_negative(lengths),
    ensures
        0 <= total_length(lengths),
    decreases lengths.len(),
{
    if lengths.len() > 0 {
        lemma_total_non_negative(lengths.drop_last());
    }
}

/// Lengths that are all zero add up to zero.
pub proof fn lemma_total_of_nothing(lengths: Seq<int>)
    requires
        forall|i: int| 0 <= i < lengths.len() ==> lengths[i] == 0,
    ensures
        total_length(lengths) == 0,
    decreases lengths.len(),
{
    if lengths.len() > 0 {
        lemma_total_of_nothing(lengths.drop_last());
    }
}

/// The time allotted to a segment of length `length` on a path of length
/// `total` that is to take `time`.
pub fn segment_time(time: u64, length: u64, total: u128) -> (t: u64)
    requires
        length <= total,
    ensures
        t == share_spec(time as int, length as int, total as int),
        t <= time,
{
    if total == 0 {
        return 0;
    }
    proof {
        lemma_share_bounds(time as int, length as int, total as int);
    }
    let scaled: u128 = (time as u128) * (length as u128);
    let t: u128 = scaled / total;
    t as u64
}

/// A share is never negative and never more than the whole time.
pub proof fn lemma_share_bounds(time: int, length: int, total: int)
    requires
        0 <= time,
        0 <= length <= total,
    ensures
        0 <= share_spec(time, length, total) <= time,
        0 <= time * length,
        time <= u64::MAX && length <= u64::MAX ==> time * length <= u128::MAX,
{
    assert(0 <= time * length <= time * total) by (nonlinear_arith)
        requires
            0 <= time,
            0 <= length <= total,
    ;
    if time <= u64::MAX && length <= u64::MAX {
        assert(time * length <= u128::MAX) by (nonlinear_arith)
            requires
                0 <= time <= u64::MAX,
                0 <= length <= u64::MAX,
        ;
    }
    if total > 0 {
        lemma_share_brackets(time, length, total);
        let q = share_spec(time, length, total);
        assert(q <= time) by (nonlinear_arith)
            requires
                total * q <= time * length,
                time * length <= time * total,
                total > 0,
        ;
        assert(q >= 0) by (nonlinear_arith)
            requires
                time * length < total * q + total,
                0 <= time * length,
                total > 0,
        ;
    }
}

/// A share, multiplied back by the total length, misses `time * length` by
/// less than the total length.
pub proof fn lemma_share_brackets(time: int, length: int, total: int)
    requires
        total > 0,
    ensures
        total * share_spec(time, length, total) <= time * length,
        time * length < total * share_spec(time, length, total) + total,
{
    let m = time * length;
    assert(total * (m / total) <= m < total * (m / total) + total) by (nonlinear_arith)
        requires
            total > 0,
    ;
}

/// The shares of a run of segments, multiplied back by the total length, miss
/// `time` times the run's length by less than one total length per segment.
proof fn lemma_total_share_brackets(time: int, lengths: Seq<int>, total: int)
    requires
        total > 0,
    ensures
        total * total_share(time, lengths, total) <= time * total_length(lengths),
        time * total_length(lengths) < total * total_share(time, lengths, total) + total
            * lengths.len() || lengths.len() == 0,
    decreases lengths.len(),
{
    if lengths.len() == 0 {
        assert(total * 0 == 0);
        assert(time * 0 == 0);
    } else {
        let front = lengths.drop_last();
        let last = lengths.last();
        lemma_total_share_brackets(time, front, total);
        lemma_share_brackets(time, last, total);
        let sf = total_share(time, front, total);
        let sl = share_spec(time, last, total);
        let lf = total_length(front);
        assert(total * (sf + sl) == total * sf + total * sl) by (nonlinear_arith);
        assert(time * (lf + last) == time * lf + time * last) by (nonlinear_arith);
        assert(total * lengths.len() == total * front.len() + total) by (nonlinear_arith)
            requires
                lengths.len() == front.len() + 1,
        ;
        if front.len() == 0 {
            assert(total * sf == 0) by (nonlinear_arith)
                requires
                    sf == 0,
            ;
            assert(time * lf == 0) by (nonlinear_arith)
                requires
                    lf == 0,
            ;
        }
    }
}

/// The times allotted to the segments of a path add up to the time of the
/// whole path, short of it by less than one time unit per segment (what the
/// roundings down have dropped).
pub proof fn lemma_shares_add_up(time: int, lengths: Seq<int>)
    requires
        0 <= time,
        total_length(lengths) > 0,
    ensures
        time - lengths.len() < total_share(time, lengths, total_length(lengths)) <= time,
{
    let total = total_length(lengths);
    let sum = total_share(time, lengths, total);
    let n = lengths.len() as int;
    lemma_total_share_brackets(time, lengths, total);
    assert(sum <= time) by (nonlinear_arith)
        requires
            total * sum <= time * total,
            total > 0,
    ;
    assert(n > 0);
    assert(time < sum + n) by (nonlinear_arith)
        requires
            time * total < total * sum + total * n,
            total > 0,
    ;
}

/// On a path of no length every segment is allotted no time.
pub proof fn lemma_shares_of_nothing(time: int, lengths: Seq<int>)
    ensures
        total_share(time, lengths, 0) == 0,
    decreases lengths.len(),
{
    if lengths.len() > 0 {
        lemma_shares_of_nothing(time, lengths.drop_last());
    }
}

} // verus!
