//! Aggregation of timed trials: the recorded durations are sorted ascending
//! and reduced to the lowest, the middle and the highest.
use vstd::prelude::*;
use vstd::relations::{sorted_by, total_ordering};
use vstd::seq_lib::{lemma_sorted_unique, to_multiset_build, to_multiset_insert, to_multiset_len};

verus! {

/// The order on recorded durations (in nanoseconds).
pub open spec fn duration_order() -> spec_fn(u64, u64) -> bool {
    |a: u64, b: u64| a <= b
}

/// The recorded durations in ascending order.
pub open spec fn sorted_durations(times: Seq<u64>) -> Seq<u64> {
    times.sort_by(duration_order())
}

proof fn lemma_duration_order_total()
    ensures
        total_ordering(duration_order()),
{
}

/// The ascending order of a series of durations is unique: any sorted
/// arrangement of the same durations is `sorted_durations` of them, which is
/// itself sorted and holds the same durations.
pub proof fn lemma_sorted_durations(times: Seq<u64>, s: Seq<u64>)
    requires
        sorted_by(s, duration_order()),
        s.to_multiset() == times.to_multiset(),
    ensures
        s == sorted_durations(times),
        sorted_by(sorted_durations(times), duration_order()),
        sorted_durations(times).to_multiset() == times.to_multiset(),
{
    lemma_duration_order_total();
    times.lemma_sort_by_ensures(duration_order());
    lemma_sorted_unique(s, sorted_durations(times), duration_order());
}

/// Sorts the recorded durations ascending, in place.
pub fn sort_ascending(times: &mut Vec<u64>)
    ensures
        final(times)@ == sorted_durations(old(times)@),
        sorted_by(final(times)@, duration_order()),
        final(times)@.to_multiset() == old(times)@.to_multiset(),
        final(times)@.len() == old(times)@.len(),
{
    let mut out: Vec<u64> = Vec::new();
    let mut i: usize = 0;
    proof {
        assert(times@.take(0) =~= out@);
    }
    while i < times.len()
        invariant
            i <= times.len(),
            times@ == old(times)@,
            sorted_by(out@, duration_order()),
            out@.to_multiset() == times@.take(i as int).to_multiset(),
        decreases times.len() - i,
    {
        let x = times[i];
        let mut j: usize = 0;
        while j < out.len() && out[j] <= x
            invariant
                j <= out.len(),
                forall|k: int| 0 <= k < j ==> out@[k] <= x,
            decreases out.len() - j,
        {
            j = j + 1;
        }
        let ghost before = out@;
        out.insert(j, x);
        proof {
            assert forall|a: int, b: int| 0 <= a < b < out@.len() implies #[trigger] (
            duration_order())(out@[a], out@[b]) by {
                if b < j {
                    assert((duration_order())(before[a], before[b]));
                } else if b == j {
                } else if a < j {
                    assert(before[a] <= x);
                    assert((duration_order())(before[j as int], before[b - 1]));
                } else if a == j {
                    assert((duration_order())(before[j as int], before[b - 1]));
                } else {
                    assert((duration_order())(before[a - 1], before[b - 1]));
                }
            }
            assert(times@.take(i + 1) =~= times@.take(i as int).push(x));
            to_multiset_build(times@.take(i as int), x);
            to_multiset_insert(before, j as int, x);
        }
        i = i + 1;
    }
    proof {
        assert(times@.take(i as int) =~= times@);
        lemma_sorted_durations(times@, out@);
        to_multiset_len(times@);
        to_multiset_len(out@);
    }
    *times = out;
}

/// The low, middle and high duration of a series of trials.
#[derive(Clone, Copy, Debug, PartialEq, Eq)]
pub struct Summary {
    pub low: u64,
    pub mid: u64,
    pub high: u64,
}

/// Sorts the durations and takes the first, the one at index `len / 2` (no
/// averaging for an even count) and the last.
pub fn summarize(times: Vec<u64>) -> (r: Summary)
    requires
        times.len() > 0,
    ensures
        r.low == sorted_durations(times@)[0],
        r.mid == sorted_durations(times@)[times.len() as int / 2],
        r.high == sorted_durations(times@)[times.len() - 1],
        r.low <= r.mid <= r.high,
        times@.contains(r.low),
        times@.contains(r.mid),
        times@.contains(r.high),
{
    let ghost recorded = times@;
    let mut sorted = times;
    sort_ascending(&mut sorted);
    let n = sorted.len();
    let r = Summary { low: sorted[0], mid: sorted[n / 2], high: sorted[n - 1] };
    proof {
        let s = sorted@;
        let m = (n / 2) as int;
        let last = (n - 1) as int;
        if 0 < m {
            assert((duration_order())(s[0], s[m]));
        }
        if m < last {
            assert((duration_order())(s[m], s[last]));
        }
        assert forall|k: int| 0 <= k < n implies recorded.contains(#[trigger] s[k]) by {
            s.to_multiset_ensures();
            recorded.to_multiset_ensures();
            assert(s.contains(s[k]));
            assert(s.to_multiset().count(s[k]) > 0);
            assert(recorded.to_multiset().count(s[k]) > 0);
        }
        assert(recorded.contains(s[0]));
        assert(recorded.contains(s[m]));
        assert(recorded.contains(s[last]));
    }
    r
}

} // verus!
