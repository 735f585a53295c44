//! Summing up how long a batch of puzzles took to solve.

use vstd::prelude::*;

verus! {

/// The total, the average, the longest and the shortest of a batch of
/// times, in nanoseconds.
#[derive(Debug, Clone, Copy, PartialEq, Eq)]
pub struct TimingSummary {
    /// The sum of all times.
    pub total: u128,
    /// The total divided by the number of times, rounded down.
    pub average: u128,
    /// The longest time.
    pub max: u128,
    /// The shortest time.
    pub min: u128,
}

/// The sum of the times.
pub open spec fn total_of(times: Seq<u128>) -> int
    decreases times.len(),
{
    if times.len() == 0 {
        0
    } else {
        total_of(times.drop_last()) + times.last()
    }
}

/// `m` is one of the times, and none is longer.
pub open spec fn is_longest(times: Seq<u128>, m: u128) -> bool {
    times.contains(m) && forall|i: int| 0 <= i < times.len() ==> #[trigger] times[i] <= m
}

/// `m` is one of the times, and none is shorter.
pub open spec fn is_shortest(times: Seq<u128>, m: u128) -> bool {
    times.contains(m) && forall|i: int| 0 <= i < times.len() ==> #[trigger] times[i] >= m
}

/// The sum of the first times is no more than the sum of all.
proof fn lemma_total_grows(times: Seq<u128>, k: int)
    requires
        0 <= k <= times.len(),
    ensures
        total_of(times.take(k)) <= total_of(times),
    decreases times.len() - k,
{
    if k < times.len() {
        lemma_total_grows(times, k + 1);
        assert(times.take(k + 1).drop_last() == times.take(k));
    } else {
        assert(times.take(k) == times);
    }
}

/// Sums up a batch of times. There is no summary of an empty batch, nor of
/// one whose total does not fit in 128 bits.
pub fn summarize(times: &Vec<u128>) -> (summary: Option<TimingSummary>)
    ensures
        match summary {
            Some(s) => {
                &&& times@.len() > 0
                &&& s.total == total_of(times@)
                &&& s.average == total_of(times@) / (times@.len() as int)
                &&& is_longest(times@, s.max)
                &&& is_shortest(times@, s.min)
            },
            None => times@.len() == 0 || total_of(times@) > u128::MAX,
        },
{
    let count: usize = times.len();
    if count == 0 {
        return None;
    }
    let mut total: u128 = 0;
    let mut max: u128 = times[0];
    let mut min: u128 = times[0];
    assert(times@.take(1)[0] == times@[0]);
    for i in 0..count
        invariant
            count == times@.len(),
            count > 0,
            total == total_of(times@.take(i as int)),
            is_longest(times@.take(if i == 0 { 1int } else { i as int }), max),
            is_shortest(times@.take(if i == 0 { 1int } else { i as int }), min),
    {
        let time: u128 = times[i];
        proof {
            assert(times@.take(i + 1).drop_last() == times@.take(i as int));
            lemma_total_grows(times@, i + 1);
        }
        match total.checked_add(time) {
            Some(sum) => {
                total = sum;
            },
            None => {
                return None;
            },
        }
        let ghost seen = times@.take(if i == 0 { 1int } else { i as int });
        let ghost old_max = max;
        let ghost old_min = min;
        if time > max {
            max = time;
        }
        if time < min {
            min = time;
        }
        proof {
            let now = times@.take(i + 1);
            assert(now[i as int] == time);
            assert(seen.contains(old_max) && seen.contains(old_min));
            let a = choose|a: int| 0 <= a < seen.len() && seen[a] == old_max;
            let b = choose|b: int| 0 <= b < seen.len() && seen[b] == old_min;
            assert(now[a] == old_max && now[b] == old_min);
            assert forall|j: int| 0 <= j < now.len() implies #[trigger] now[j] <= max && now[j]
                >= min by {
                if j < seen.len() {
                    assert(seen[j] == now[j]);
                }
            }
        }
    }
    assert(times@.take(count as int) == times@);
    Some(TimingSummary { total, average: total / (count as u128), max, min })
}

} // verus!
