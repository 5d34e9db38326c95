//! The sorted index of fixed intervals and its overlap test.

use vstd::prelude::*;
use crate::model::{Interval, Task, fixed_intervals, within_limit};

verus! {

/// The query range `[start, end)` meets the interval: it neither ends at or
/// before the interval's start nor starts at or after its end.
pub open spec fn hits(iv: Interval, start: int, end: int) -> bool {
    !(end <= iv.start) && !(start >= iv.end)
}

pub open spec fn sorted_by_start(s: Seq<Interval>) -> bool {
    forall|i: int, j: int| 0 <= i <= j < s.len() ==> (#[trigger] s[i]).start <= (#[trigger] s[j]).start
}

/// Each interval is well formed and ends no later than any later one starts.
pub open spec fn chained(s: Seq<Interval>) -> bool {
    &&& forall|i: int| 0 <= i < s.len() ==> (#[trigger] s[i]).start <= s[i].end
    &&& forall|i: int, j: int| 0 <= i < j < s.len() ==> (#[trigger] s[i]).end <= (#[trigger] s[j]).start
}

/// Intervals that are each non-empty and share no instant, in any order.
pub open spec fn mutually_apart(s: Seq<Interval>) -> bool {
    &&& forall|i: int| 0 <= i < s.len() ==> (#[trigger] s[i]).start < s[i].end
    &&& forall|i: int, j: int| 0 <= i < s.len() && 0 <= j < s.len() && i != j
        ==> (#[trigger] s[i]).end <= (#[trigger] s[j]).start || s[j].end <= s[i].start
}

/// Some position of `o` holds `j`.
pub open spec fn covers(o: Seq<int>, j: int) -> bool {
    exists|k: int| 0 <= k < o.len() && o[k] == j
}

pub open spec fn intervals_in_range(s: Seq<Interval>) -> bool {
    forall|i: int| 0 <= i < s.len() ==> within_limit((#[trigger] s[i]).start) && within_limit(s[i].end)
}

/// `out` is `src` reordered: entry `k` of `out` is entry `from[k]` of
/// `src`, each entry of `src` used once, and entries with equal starts in
/// their order in `src`.
pub open spec fn stable_reorder(out: Seq<Interval>, src: Seq<Interval>, from: Seq<int>) -> bool {
    &&& out.len() == src.len()
    &&& from.len() == out.len()
    &&& forall|k: int| 0 <= k < out.len() ==> 0 <= #[trigger] from[k] < src.len() && out[k] == src[from[k]]
    &&& forall|k1: int, k2: int| 0 <= k1 < out.len() && 0 <= k2 < out.len() && k1 != k2
        ==> #[trigger] from[k1] != #[trigger] from[k2]
    &&& forall|a: int, b: int| 0 <= a < b < out.len() && (#[trigger] out[a]).start == (#[trigger] out[b]).start
        ==> from[a] < from[b]
}

pub struct FixedIndex {
    pub intervals: Vec<Interval>,
}

impl FixedIndex {
    pub open spec fn view(&self) -> Seq<Interval> {
        self.intervals@
    }

    /// Builds the index from the fixed tasks, ordered by start; tasks with
    /// equal starts keep their order.
    pub fn build(tasks: &[Task]) -> (r: FixedIndex)
        ensures
            sorted_by_start(r@),
            r@.len() == fixed_intervals(tasks@).len(),
            forall|j: int| 0 <= j < fixed_intervals(tasks@).len()
                ==> r@.contains(#[trigger] fixed_intervals(tasks@)[j]),
            exists|from: Seq<int>| #[trigger] stable_reorder(r@, fixed_intervals(tasks@), from),
            mutually_apart(fixed_intervals(tasks@)) ==> chained(r@),
            intervals_in_range(fixed_intervals(tasks@)) ==> intervals_in_range(r@),
    {
        let mut src: Vec<Interval> = Vec::new();
        let mut i: usize = 0;
        while i < tasks.len()
            invariant
                0 <= i <= tasks@.len(),
                src@ == fixed_intervals(tasks@.subrange(0, i as int)),
            decreases tasks@.len() - i,
        {
            proof {
                assert(tasks@.subrange(0, i + 1).drop_last() == tasks@.subrange(0, i as int));
            }
            match &tasks[i] {
                Task::Fixed { start, end, leisure, .. } => {
                    src.push(Interval { start: *start, end: *end, leisure: *leisure });
                },
                _ => {},
            }
            i = i + 1;
        }
        assert(tasks@.subrange(0, tasks@.len() as int) == tasks@);
        let ghost f = src@;
        // Insertion sort; `from` maps each sorted entry to its place in `f`.
        let mut out: Vec<Interval> = Vec::new();
        let ghost mut from: Seq<int> = seq![];
        let mut n: usize = 0;
        while n < src.len()
            invariant
                src@ == f,
                0 <= n <= f.len(),
                out@.len() == n,
                from.len() == n,
                sorted_by_start(out@),
                forall|k: int| 0 <= k < n ==> 0 <= #[trigger] from[k] < n && out@[k] == f[from[k]],
                forall|k1: int, k2: int| 0 <= k1 < n && 0 <= k2 < n && k1 != k2
                    ==> #[trigger] from[k1] != #[trigger] from[k2],
                forall|j: int| 0 <= j < n ==> #[trigger] covers(from, j),
                forall|a: int, b: int| 0 <= a < b < n && (#[trigger] out@[a]).start == (#[trigger] out@[b]).start
                    ==> from[a] < from[b],
            decreases f.len() - n,
        {
            let item = src[n];
            out.push(item);
            proof {
                let o = from;
                from = from.push(n as int);
                assert forall|j: int| 0 <= j < n + 1 implies #[trigger] covers(from, j) by {
                    if j == n {
                        assert(from[n as int] == j);
                    } else {
                        assert(covers(o, j));
                        let k = choose|k: int| 0 <= k < o.len() && o[k] == j;
                        assert(from[k] == j);
                    }
                }
            }
            let mut p: usize = n;
            while p > 0 && out[p - 1].start > item.start
                invariant
                    0 <= p <= n,
                    out@.len() == n + 1,
                    from.len() == n + 1,
                    out@[p as int] == item,
                    forall|a: int, b: int| 0 <= a <= b < n + 1 && a != p && b != p ==> (#[trigger] out@[a]).start <= (#[trigger] out@[b]).start,
                    forall|b: int| p < b < n + 1 ==> item.start < (#[trigger] out@[b]).start,
                    forall|k: int| 0 <= k < n + 1 ==> 0 <= #[trigger] from[k] < n + 1 && out@[k] == f[from[k]],
                    forall|k1: int, k2: int| 0 <= k1 < n + 1 && 0 <= k2 < n + 1 && k1 != k2
                        ==> #[trigger] from[k1] != #[trigger] from[k2],
                    forall|j: int| 0 <= j < n + 1 ==> #[trigger] covers(from, j),
                    from[p as int] == n,
                    forall|a: int, b: int| 0 <= a < b < n + 1 && a != p && b != p
                        && (#[trigger] out@[a]).start == (#[trigger] out@[b]).start ==> from[a] < from[b],
                decreases p,
            {
                let prev = out[p - 1];
                out.set(p, prev);
                out.set(p - 1, item);
                proof {
                    let o = from;
                    from = from.update(p as int, o[p - 1]).update(p - 1, o[p as int]);
                    assert forall|j: int| 0 <= j < n + 1 implies #[trigger] covers(from, j) by {
                        assert(covers(o, j));
                        let k0 = choose|k: int| 0 <= k < o.len() && o[k] == j;
                        if k0 == p {
                            assert(from[p - 1] == j);
                        } else if k0 == p - 1 {
                            assert(from[p as int] == j);
                        } else {
                            assert(from[k0] == j);
                        }
                    }
                }
                p = p - 1;
            }
            n = n + 1;
        }
        let r = FixedIndex { intervals: out };
        proof {
            assert(stable_reorder(r@, f, from));
            assert forall|j: int| 0 <= j < f.len() implies r@.contains(#[trigger] f[j]) by {
                assert(covers(from, j));
                let k = choose|k: int| 0 <= k < from.len() && from[k] == j;
                assert(r@[k] == f[j]);
            }
            if intervals_in_range(f) {
                assert forall|a: int| 0 <= a < r@.len() implies within_limit((#[trigger] r@[a]).start) && within_limit(r@[a].end) by {
                    assert(r@[a] == f[from[a]]);
                }
            }
            if mutually_apart(f) {
                assert forall|a: int, b: int| 0 <= a < b < r@.len() implies (#[trigger] r@[a]).end <= (#[trigger] r@[b]).start by {
                    assert(from[a] != from[b]);
                    assert(r@[a] == f[from[a]]);
                    assert(r@[b] == f[from[b]]);
                    assert(f[from[a]].start < f[from[a]].end);
                    assert(f[from[b]].start < f[from[b]].end);
                    assert(r@[a].start <= r@[b].start);
                }
                assert forall|a: int| 0 <= a < r@.len() implies (#[trigger] r@[a]).start <= r@[a].end by {
                    assert(r@[a] == f[from[a]]);
                }
            }
        }
        r
    }

    /// Binary search for some interval that `[start, end)` meets. With
    /// `start == end` it finds an interval that strictly contains `start`.
    pub fn overlaps(&self, start: i64, end: i64) -> (r: Option<usize>)
        requires
            sorted_by_start(self@),
        ensures
            r matches Some(k) ==> k < self@.len() && hits(self@[k as int], start as int, end as int),
            chained(self@) ==> (r is None <==> forall|k: int| 0 <= k < self@.len() ==> !hits(#[trigger] self@[k], start as int, end as int)),
    {
        let ghost s = self@;
        let mut lo: usize = 0;
        let mut hi: usize = self.intervals.len();
        while lo < hi
            invariant
                s == self@,
                sorted_by_start(s),
                0 <= lo <= hi <= s.len(),
                forall|k: int| hi <= k < s.len() ==> !hits(#[trigger] s[k], start as int, end as int),
                chained(s) ==> forall|k: int| 0 <= k < lo ==> !hits(#[trigger] s[k], start as int, end as int),
            decreases hi - lo,
        {
            let mid: usize = lo + (hi - lo) / 2;
            let iv = self.intervals[mid];
            if end <= iv.start {
                proof {
                    assert forall|k: int| mid <= k < s.len() implies !hits(#[trigger] s[k], start as int, end as int) by {
                        assert(s[mid as int].start <= s[k].start);
                    }
                }
                hi = mid;
            } else if start >= iv.end {
                proof {
                    if chained(s) {
                        assert forall|k: int| 0 <= k < mid + 1 implies !hits(#[trigger] s[k], start as int, end as int) by {
                            if k < mid {
                                assert(s[k].end <= s[mid as int].start);
                            }
                        }
                    }
                }
                lo = mid + 1;
            } else {
                return Some(mid);
            }
        }
        None
    }
}

} // verus!
