//! Finite integer domains as sorted lists of disjoint closed intervals.

use vstd::prelude::*;

verus! {

/// A finite, nonempty set of integers, stored as an ordered list of
/// disjoint, non-touching closed intervals, with the overall bounds
/// cached for constant-time access.
pub struct Domain {
    pub min: i64,
    pub max: i64,
    pub intervals: Vec<(i64, i64)>,
}

impl Domain {
    /// Structural invariant: the list is nonempty, every interval is
    /// proper, any two intervals leave a gap of at least one value
    /// between them (so merging is never pending), and the cached
    /// bounds agree with the first and last interval.
    pub open spec fn wf(self) -> bool {
        &&& self.intervals@.len() > 0
        &&& (forall|i: int|
            0 <= i < self.intervals@.len() ==> (#[trigger] self.intervals@[i]).0
                <= self.intervals@[i].1)
        &&& (forall|i: int, j: int|
            0 <= i < j < self.intervals@.len() ==> (#[trigger] self.intervals@[i]).1 + 1 < (
            #[trigger] self.intervals@[j]).0)
        &&& self.min == self.intervals@[0].0
        &&& self.max == self.intervals@[self.intervals@.len() - 1].1
    }

    /// The set of values the domain holds.
    pub open spec fn contains(self, v: int) -> bool {
        exists|i: int|
            0 <= i < self.intervals@.len() && (#[trigger] self.intervals@[i]).0 <= v
                && v <= self.intervals@[i].1
    }

    /// Width of the bounding interval; propagation shrinks it strictly
    /// whenever a bound moves, which bounds the fixed-point iteration.
    pub open spec fn span(self) -> int {
        self.max - self.min
    }

    /// Every value the domain holds lies between the cached bounds.
    pub proof fn lemma_contains_bounds(self, v: int)
        requires
            self.wf(),
            self.contains(v),
        ensures
            self.min <= v <= self.max,
    {
        let i = choose|i: int|
            0 <= i < self.intervals@.len() && (#[trigger] self.intervals@[i]).0 <= v
                && v <= self.intervals@[i].1;
        if i > 0 {
            assert(self.intervals@[0].1 + 1 < self.intervals@[i].0);
        }
        if i < self.intervals@.len() - 1 {
            assert(self.intervals@[i].1 + 1 < self.intervals@[self.intervals@.len() - 1].0);
        }
    }

    /// The cached bounds are themselves held, so the domain is nonempty
    /// and `min <= max`.
    pub proof fn lemma_bounds_contained(self)
        requires
            self.wf(),
        ensures
            self.contains(self.min as int),
            self.contains(self.max as int),
            self.min <= self.max,
    {
        let n = self.intervals@.len() - 1;
        assert(self.intervals@[0].0 <= self.min as int <= self.intervals@[0].1);
        assert(self.intervals@[n].0 <= self.max as int <= self.intervals@[n].1);
        if n > 0 {
            assert(self.intervals@[0].1 + 1 < self.intervals@[n].0);
        }
    }

    /// Whatever one domain holds, a superset domain bounds at least as
    /// widely.
    pub proof fn lemma_subset_bounds(a: Domain, b: Domain)
        requires
            a.wf(),
            b.wf(),
            forall|x: int| a.contains(x) ==> b.contains(x),
        ensures
            b.min <= a.min,
            a.max <= b.max,
    {
        a.lemma_bounds_contained();
        b.lemma_contains_bounds(a.min as int);
        b.lemma_contains_bounds(a.max as int);
    }

    /// A domain holding a single interval `[min, max]`.
    pub fn new(min: i64, max: i64) -> (d: Domain)
        requires
            min <= max,
        ensures
            d.wf(),
            d.min == min,
            d.max == max,
            forall|v: int| d.contains(v) <==> min <= v <= max,
    {
        let mut intervals: Vec<(i64, i64)> = Vec::new();
        intervals.push((min, max));
        let d = Domain { min, max, intervals };
        proof {
            assert forall|v: int| min <= v <= max implies d.contains(v) by {
                assert(d.intervals@[0].0 <= v <= d.intervals@[0].1);
            }
        }
        d
    }

    pub fn get_min(&self) -> (r: i64)
        ensures
            r == self.min,
    {
        self.min
    }

    pub fn get_max(&self) -> (r: i64)
        ensures
            r == self.max,
    {
        self.max
    }

    /// The shape of a domain after its head has been clamped at `v`:
    /// the intervals before `k` are dropped, later ones kept, and the
    /// interval at `k` starts at `v` when `v` lands inside it.
    proof fn lemma_clamped_head(orig: Domain, cur: Domain, k: int, v: i64)
        requires
            orig.wf(),
            orig.min < v <= orig.max,
            0 <= k < orig.intervals@.len(),
            orig.intervals@[k].1 >= v,
            forall|j: int| 0 <= j < k ==> (#[trigger] orig.intervals@[j]).1 < v,
            cur.max == orig.max,
            cur.intervals@.len() == orig.intervals@.len() - k,
            forall|i: int|
                0 < i < cur.intervals@.len() ==> #[trigger] cur.intervals@[i]
                    == orig.intervals@[k + i],
            v < orig.intervals@[k].0 ==> cur.intervals@[0] == orig.intervals@[k] && cur.min
                == orig.intervals@[k].0,
            v >= orig.intervals@[k].0 ==> cur.intervals@[0] == (v, orig.intervals@[k].1)
                && cur.min == v,
        ensures
            cur.wf(),
            cur.min >= v,
            cur.min >= orig.min,
            forall|x: int| cur.contains(x) <==> (orig.contains(x) && x >= v),
            orig.contains(v as int) ==> cur.min == v,
    {
        let iv = cur.intervals@;
        let on = orig.intervals@.len();
        assert(iv[iv.len() - 1].1 == orig.intervals@[on - 1].1);
        assert forall|i: int, j: int| 0 <= i < j < iv.len() implies (#[trigger] iv[i]).1 + 1 < (
        #[trigger] iv[j]).0 by {
            assert(iv[j] == orig.intervals@[k + j]);
            if i > 0 {
                assert(iv[i] == orig.intervals@[k + i]);
            } else {
                assert(iv[0].1 == orig.intervals@[k].1);
            }
        }
        assert(cur.wf());
        assert forall|x: int| cur.contains(x) implies (orig.contains(x) && x >= v) by {
            let i = choose|i: int| 0 <= i < iv.len() && (#[trigger] iv[i]).0 <= x && x <= iv[i].1;
            if i == 0 {
                assert(orig.intervals@[k].0 <= x <= orig.intervals@[k].1);
            } else {
                assert(iv[i] == orig.intervals@[k + i]);
                assert(orig.intervals@[k + i].0 <= x <= orig.intervals@[k + i].1);
                assert(orig.intervals@[k].1 + 1 < orig.intervals@[k + i].0);
            }
        }
        assert forall|x: int| orig.contains(x) && x >= v implies cur.contains(x) by {
            let j = choose|j: int|
                0 <= j < on && (#[trigger] orig.intervals@[j]).0 <= x && x
                    <= orig.intervals@[j].1;
            if j < k {
                assert(orig.intervals@[j].1 < v);
                assert(false);
            } else if j == k {
                assert(iv[0].0 <= x <= iv[0].1);
            } else {
                assert(iv[j - k] == orig.intervals@[j]);
                assert(iv[j - k].0 <= x <= iv[j - k].1);
            }
        }
        if orig.contains(v as int) {
            let j = choose|j: int|
                0 <= j < on && (#[trigger] orig.intervals@[j]).0 <= v as int && v as int
                    <= orig.intervals@[j].1;
            if j < k {
                assert(false);
            } else if j > k {
                assert(orig.intervals@[k].1 + 1 < orig.intervals@[j].0);
                assert(false);
            }
            assert(orig.intervals@[k].0 <= v as int);
        }
    }

    /// Tightens the lower bound to `v`.  A request at or below the
    /// current minimum is a no-op, and so is a request above the current
    /// maximum (the caller treats that case as a failure); otherwise the
    /// result holds exactly the old values that are `>= v`, and the new
    /// minimum lands on `v` itself when `v` was held, or on the start of
    /// the next interval when `v` fell in a hole.
    pub fn set_min(&mut self, v: i64)
        requires
            old(self).wf(),
        ensures
            final(self).wf(),
            final(self).max == old(self).max,
            final(self).min >= old(self).min,
            v <= old(self).min ==> *final(self) == *old(self),
            v > old(self).max ==> *final(self) == *old(self),
            old(self).min < v <= old(self).max ==> (forall|x: int|
                final(self).contains(x) <==> (old(self).contains(x) && x >= v)),
            old(self).min < v <= old(self).max ==> final(self).min >= v,
            old(self).min < v <= old(self).max && old(self).contains(v as int) ==> final(self).min
                == v,
    {
        if v <= self.min {
            return ;
        }
        if v > self.max {
            return ;
        }
        let ghost orig = *self;
        let n = self.intervals.len();
        // Find the first interval that reaches `v`; everything before it
        // lies entirely below `v` and will be dropped.
        let mut k: usize = 0;
        while self.intervals[k].1 < v
            invariant
                *self == orig,
                orig.wf(),
                orig.min < v <= orig.max,
                n == orig.intervals@.len(),
                k < n,
                forall|j: int| 0 <= j < k ==> (#[trigger] orig.intervals@[j]).1 < v,
            decreases n - k,
        {
            k = k + 1;
            proof {
                if k == n {
                    assert(orig.intervals@[k - 1].1 == orig.max);
                    assert(false);
                }
            }
        }
        assert(orig.intervals@[k as int].1 >= v);
        // Drop the `k` leading intervals.
        let mut t: usize = 0;
        while t < k
            invariant
                t <= k,
                k < n,
                n == orig.intervals@.len(),
                orig.wf(),
                self.min == orig.min,
                self.max == orig.max,
                self.intervals@ == orig.intervals@.subrange(t as int, n as int),
            decreases k - t,
        {
            self.intervals.remove(0);
            t = t + 1;
            proof {
                assert(self.intervals@ =~= orig.intervals@.subrange(t as int, n as int));
            }
        }
        // Adjust the now-first interval and the cached minimum.
        let lo = self.intervals[0].0;
        let hi = self.intervals[0].1;
        if v < lo {
            // `v` fell in a hole: the minimum jumps to the next interval.
            self.min = lo;
        } else {
            self.intervals[0] = (v, hi);
            self.min = v;
        }
        proof {
            assert forall|i: int|
                0 < i < self.intervals@.len() implies #[trigger] self.intervals@[i]
                == orig.intervals@[k + i] by {
                assert(orig.intervals@.subrange(k as int, n as int)[i] == orig.intervals@[k + i]);
            }
            Self::lemma_clamped_head(orig, *self, k as int, v);
        }
    }

    /// The shape of a domain after its tail has been clamped at `v`:
    /// the intervals up to `k` are kept, later ones dropped, and the
    /// interval at `k` is cut back to `v` when `v` lands inside it.
    proof fn lemma_clamped_tail(orig: Domain, cur: Domain, k: int, v: i64)
        requires
            orig.wf(),
            orig.min <= v < orig.max,
            0 <= k < orig.intervals@.len(),
            orig.intervals@[k].0 <= v,
            forall|j: int|
                k < j < orig.intervals@.len() ==> (#[trigger] orig.intervals@[j]).0 > v,
            cur.min == orig.min,
            cur.intervals@.len() == k + 1,
            forall|i: int| 0 <= i < k ==> #[trigger] cur.intervals@[i] == orig.intervals@[i],
            v > orig.intervals@[k].1 ==> cur.intervals@[k] == orig.intervals@[k] && cur.max
                == orig.intervals@[k].1,
            v <= orig.intervals@[k].1 ==> cur.intervals@[k] == (orig.intervals@[k].0, v)
                && cur.max == v,
        ensures
            cur.wf(),
            cur.max <= v,
            cur.max <= orig.max,
            forall|x: int| cur.contains(x) <==> (orig.contains(x) && x <= v),
            orig.contains(v as int) ==> cur.max == v,
    {
        let iv = cur.intervals@;
        let on = orig.intervals@.len();
        assert(orig.intervals@[k].1 <= orig.max) by {
            if k < on - 1 {
                assert(orig.intervals@[k].1 + 1 < orig.intervals@[on - 1].0);
            }
        }
        assert forall|i: int, j: int| 0 <= i < j < iv.len() implies (#[trigger] iv[i]).1 + 1 < (
        #[trigger] iv[j]).0 by {
            assert(iv[i] == orig.intervals@[i]);
            if j < k {
                assert(iv[j] == orig.intervals@[j]);
            } else {
                assert(iv[k as int].0 == orig.intervals@[k].0);
            }
        }
        assert(cur.wf());
        assert forall|x: int| cur.contains(x) implies (orig.contains(x) && x <= v) by {
            let i = choose|i: int| 0 <= i < iv.len() && (#[trigger] iv[i]).0 <= x && x <= iv[i].1;
            if i == k {
                assert(orig.intervals@[k].0 <= x <= orig.intervals@[k].1);
            } else {
                assert(iv[i] == orig.intervals@[i]);
                assert(orig.intervals@[i].0 <= x <= orig.intervals@[i].1);
                assert(orig.intervals@[i].1 + 1 < orig.intervals@[k].0);
            }
        }
        assert forall|x: int| orig.contains(x) && x <= v implies cur.contains(x) by {
            let j = choose|j: int|
                0 <= j < on && (#[trigger] orig.intervals@[j]).0 <= x && x
                    <= orig.intervals@[j].1;
            if j > k {
                assert(orig.intervals@[j].0 > v);
                assert(false);
            } else if j == k {
                assert(iv[k as int].0 <= x <= iv[k as int].1);
            } else {
                assert(iv[j] == orig.intervals@[j]);
                assert(iv[j].0 <= x <= iv[j].1);
            }
        }
        if orig.contains(v as int) {
            let j = choose|j: int|
                0 <= j < on && (#[trigger] orig.intervals@[j]).0 <= v as int && v as int
                    <= orig.intervals@[j].1;
            if j > k {
                assert(false);
            } else if j < k {
                assert(orig.intervals@[j].1 + 1 < orig.intervals@[k].0);
                assert(false);
            }
            assert(v as int <= orig.intervals@[k].1);
        }
    }

    /// Tightens the upper bound to `v`; the mirror image of
    /// [`Domain::set_min`].
    pub fn set_max(&mut self, v: i64)
        requires
            old(self).wf(),
        ensures
            final(self).wf(),
            final(self).min == old(self).min,
            final(self).max <= old(self).max,
            v >= old(self).max ==> *final(self) == *old(self),
            v < old(self).min ==> *final(self) == *old(self),
            old(self).min <= v < old(self).max ==> (forall|x: int|
                final(self).contains(x) <==> (old(self).contains(x) && x <= v)),
            old(self).min <= v < old(self).max ==> final(self).max <= v,
            old(self).min <= v < old(self).max && old(self).contains(v as int) ==> final(self).max
                == v,
    {
        if v >= self.max {
            return ;
        }
        if v < self.min {
            return ;
        }
        let ghost orig = *self;
        let n = self.intervals.len();
        // Find the last interval that reaches down to `v`; everything
        // after it lies entirely above `v` and will be dropped.
        let mut k: usize = n - 1;
        while self.intervals[k].0 > v
            invariant
                *self == orig,
                orig.wf(),
                orig.min <= v < orig.max,
                n == orig.intervals@.len(),
                k < n,
                forall|j: int| k < j < n ==> (#[trigger] orig.intervals@[j]).0 > v,
            decreases k,
        {
            proof {
                if k == 0 {
                    assert(orig.intervals@[0].0 == orig.min);
                    assert(false);
                }
            }
            k = k - 1;
        }
        assert(orig.intervals@[k as int].0 <= v);
        // Drop the trailing intervals.
        self.intervals.truncate(k + 1);
        // Adjust the now-last interval and the cached maximum.
        let lo = self.intervals[k].0;
        let hi = self.intervals[k].1;
        if v > hi {
            // `v` fell in a hole: the maximum drops to this interval.
            self.max = hi;
        } else {
            self.intervals[k] = (lo, v);
            self.max = v;
        }
        proof {
            assert forall|i: int| 0 <= i < k implies #[trigger] self.intervals@[i]
                == orig.intervals@[i] by {
                assert(orig.intervals@.subrange(0, k + 1)[i] == orig.intervals@[i]);
            }
            Self::lemma_clamped_tail(orig, *self, k as int, v);
        }
    }

    /// A value below some interval, with every earlier interval entirely
    /// below the value, is not held.
    proof fn lemma_gap_before(self, t: int, v: i64)
        requires
            self.wf(),
            0 <= t < self.intervals@.len(),
            forall|j: int| 0 <= j < t ==> (#[trigger] self.intervals@[j]).1 < v,
            self.intervals@[t].0 > v,
        ensures
            !self.contains(v as int),
    {
        if self.contains(v as int) {
            let j = choose|j: int|
                0 <= j < self.intervals@.len() && (#[trigger] self.intervals@[j]).0 <= v as int
                    && v as int <= self.intervals@[j].1;
            if t < j {
                assert(self.intervals@[t].1 + 1 < self.intervals@[j].0);
            }
        }
    }

    /// A value above some interval, with every later interval entirely
    /// above the value, is not held.
    proof fn lemma_gap_after(self, t: int, v: i64)
        requires
            self.wf(),
            0 <= t < self.intervals@.len(),
            forall|j: int| t < j < self.intervals@.len() ==> (#[trigger] self.intervals@[j]).0 > v,
            self.intervals@[t].1 < v,
        ensures
            !self.contains(v as int),
    {
        if self.contains(v as int) {
            let j = choose|j: int|
                0 <= j < self.intervals@.len() && (#[trigger] self.intervals@[j]).0 <= v as int
                    && v as int <= self.intervals@[j].1;
            if j < t {
                assert(self.intervals@[j].1 + 1 < self.intervals@[t].0);
            }
        }
    }

    /// Binary search for the interval holding `v`.  Returns the index
    /// and `true` when one holds it; otherwise `v` lies in a hole.
    fn locate(&self, v: i64) -> (r: (usize, bool))
        requires
            self.wf(),
            self.min <= v <= self.max,
        ensures
            r.1 ==> r.0 < self.intervals@.len() && self.intervals@[r.0 as int].0 <= v
                && v <= self.intervals@[r.0 as int].1,
            !r.1 ==> !self.contains(v as int),
    {
        let mut down: usize = 0;
        let mut up: usize = self.intervals.len();
        loop
            invariant
                self.wf(),
                self.min <= v <= self.max,
                down < up <= self.intervals@.len(),
                forall|j: int| 0 <= j < down ==> (#[trigger] self.intervals@[j]).1 < v,
                forall|j: int|
                    up <= j < self.intervals@.len() ==> (#[trigger] self.intervals@[j]).0 > v,
            decreases up - down,
        {
            let test = down + (up - down) / 2;
            let lo = self.intervals[test].0;
            let hi = self.intervals[test].1;
            if v < lo {
                if test > down {
                    up = test;
                } else {
                    // `v` sits in the gap just before interval `test`.
                    proof {
                        assert forall|j: int| 0 <= j < test implies (
                        #[trigger] self.intervals@[j]).1 < v by {
                            assert(self.intervals@[j].1 + 1 < self.intervals@[test as int].0);
                        }
                        self.lemma_gap_before(test as int, v);
                    }
                    return (test, false);
                }
            } else if v > hi {
                if test < up - 1 {
                    down = test + 1;
                } else {
                    // `v` sits in the gap just after interval `test`.
                    proof {
                        assert forall|j: int|
                            test < j < self.intervals@.len() implies (
                        #[trigger] self.intervals@[j]).0 > v by {
                            assert(self.intervals@[test as int].1 + 1 < self.intervals@[j].0);
                        }
                        self.lemma_gap_after(test as int, v);
                    }
                    return (test, false);
                }
            } else {
                return (test, true);
            }
        }
    }

    /// Whether some interval of the run `mid` holds `x`.
    spec fn covers(mid: Seq<(i64, i64)>, x: int) -> bool {
        exists|p: int| 0 <= p < mid.len() && (#[trigger] mid[p]).0 <= x && x <= mid[p].1
    }

    /// The shape of a domain after the interval at `t` has been
    /// replaced by `mid`, a run of intervals holding exactly the old
    /// interval's values other than `v`.
    #[verifier::rlimit(100)]
    proof fn lemma_replace_interval(orig: Domain, cur: Domain, t: int, mid: Seq<(i64, i64)>, v: i64)
        requires
            orig.wf(),
            0 <= t < orig.intervals@.len(),
            orig.intervals@[t].0 <= v <= orig.intervals@[t].1,
            forall|p: int| 0 <= p < mid.len() ==> (#[trigger] mid[p]).0 <= mid[p].1,
            forall|p: int, q: int|
                0 <= p < q < mid.len() ==> (#[trigger] mid[p]).1 + 1 < (#[trigger] mid[q]).0,
            mid.len() > 0 ==> mid[0].0 >= orig.intervals@[t].0 && mid[mid.len() - 1].1
                <= orig.intervals@[t].1,
            forall|x: int| #[trigger] Self::covers(mid, x) <==> (orig.intervals@[t].0 <= x
                <= orig.intervals@[t].1 && x != v),
            cur.intervals@.len() == orig.intervals@.len() - 1 + mid.len(),
            cur.intervals@.len() > 0,
            forall|i: int| 0 <= i < t ==> #[trigger] cur.intervals@[i] == orig.intervals@[i],
            forall|i: int| t <= i < t + mid.len() ==> #[trigger] cur.intervals@[i] == mid[i - t],
            forall|i: int|
                t + mid.len() <= i < cur.intervals@.len() ==> #[trigger] cur.intervals@[i]
                    == orig.intervals@[i + 1 - mid.len()],
            cur.min == cur.intervals@[0].0,
            cur.max == cur.intervals@[cur.intervals@.len() - 1].1,
        ensures
            cur.wf(),
            forall|x: int| cur.contains(x) <==> (orig.contains(x) && x != v),
    {
        let n = orig.intervals@.len();
        let m = mid.len() as int;
        let lo = orig.intervals@[t].0;
        let hi = orig.intervals@[t].1;
        assert forall|i: int|
            0 <= i < cur.intervals@.len() implies (#[trigger] cur.intervals@[i]).0
            <= cur.intervals@[i].1 by {
            if t <= i < t + m {
                assert(cur.intervals@[i] == mid[i - t]);
            } else if t + m <= i {
                assert(cur.intervals@[i] == orig.intervals@[i + 1 - m]);
            }
        }
        assert forall|i: int, j: int|
            0 <= i < j < cur.intervals@.len() implies (#[trigger] cur.intervals@[i]).1 + 1 < (
        #[trigger] cur.intervals@[j]).0 by {
            // Relate each side to `orig` or `mid` by region.
            if i < t {
                assert(cur.intervals@[i] == orig.intervals@[i]);
            } else if i < t + m {
                assert(cur.intervals@[i] == mid[i - t]);
                if i - t < m - 1 {
                    assert(mid[i - t].1 + 1 < mid[m - 1].0);
                }
            } else {
                assert(cur.intervals@[i] == orig.intervals@[i + 1 - m]);
            }
            if j < t {
                assert(cur.intervals@[j] == orig.intervals@[j]);
            } else if j < t + m {
                assert(cur.intervals@[j] == mid[j - t]);
                if 0 < j - t {
                    assert(mid[0].1 + 1 < mid[j - t].0);
                }
            } else {
                assert(cur.intervals@[j] == orig.intervals@[j + 1 - m]);
            }
        }
        assert(cur.wf());
        assert forall|x: int| cur.contains(x) implies (orig.contains(x) && x != v) by {
            let i = choose|i: int|
                0 <= i < cur.intervals@.len() && (#[trigger] cur.intervals@[i]).0 <= x && x
                    <= cur.intervals@[i].1;
            if i < t {
                assert(orig.intervals@[i].0 <= x <= orig.intervals@[i].1);
                assert(orig.intervals@[i].1 + 1 < orig.intervals@[t].0);
            } else if i < t + m {
                assert(mid[i - t].0 <= x <= mid[i - t].1);
                assert(Self::covers(mid, x));
                assert(orig.intervals@[t].0 <= x <= orig.intervals@[t].1);
            } else {
                assert(orig.intervals@[i + 1 - m].0 <= x <= orig.intervals@[i + 1 - m].1);
                assert(orig.intervals@[t].1 + 1 < orig.intervals@[i + 1 - m].0);
            }
        }
        assert forall|x: int| orig.contains(x) && x != v implies cur.contains(x) by {
            let j = choose|j: int|
                0 <= j < n && (#[trigger] orig.intervals@[j]).0 <= x && x
                    <= orig.intervals@[j].1;
            if j < t {
                assert(cur.intervals@[j].0 <= x <= cur.intervals@[j].1);
            } else if j == t {
                assert(Self::covers(mid, x));
                let p = choose|p: int| 0 <= p < m && (#[trigger] mid[p]).0 <= x && x <= mid[p].1;
                assert(cur.intervals@[t + p] == mid[p]);
                assert(cur.intervals@[t + p].0 <= x <= cur.intervals@[t + p].1);
            } else {
                assert(cur.intervals@[j - 1 + m] == orig.intervals@[j]);
                assert(cur.intervals@[j - 1 + m].0 <= x <= cur.intervals@[j - 1 + m].1);
            }
        }
    }

    /// Removes the single value `v`.  A value outside the bounds or in
    /// a hole is not held, so the domain is unchanged; removing the
    /// last remaining value is ruled out, since a domain never becomes
    /// empty.
    #[verifier::rlimit(100)]
    pub fn remove(&mut self, v: i64)
        requires
            old(self).wf(),
            !(old(self).min == old(self).max && v == old(self).min),
        ensures
            final(self).wf(),
            !old(self).contains(v as int) ==> *final(self) == *old(self),
            forall|x: int| final(self).contains(x) <==> (old(self).contains(x) && x != v),
            final(self).min >= old(self).min,
            final(self).max <= old(self).max,
            v != old(self).min ==> final(self).min == old(self).min,
            v != old(self).max ==> final(self).max == old(self).max,
    {
        proof {
            old(self).lemma_bounds_contained();
        }
        if v < self.min || v > self.max {
            proof {
                if old(self).contains(v as int) {
                    old(self).lemma_contains_bounds(v as int);
                }
            }
            return ;
        }
        let (t, found) = self.locate(v);
        if !found {
            return ;
        }
        let ghost orig = *self;
        let lo = self.intervals[t].0;
        let hi = self.intervals[t].1;
        let ghost mid: Seq<(i64, i64)>;
        if lo == v && hi == v {
            self.intervals.remove(t);
            proof {
                mid = Seq::empty();
                // a second interval exists, else the whole domain was `{v}`
                if orig.intervals@.len() == 1 {
                    assert(orig.min == orig.intervals@[0].0 && orig.max == orig.intervals@[0].1);
                    assert(false);
                }
                orig.intervals@.remove_ensures(t as int);
                assert forall|i: int|
                    t + mid.len() <= i < self.intervals@.len() implies #[trigger] self.intervals@[i]
                    == orig.intervals@[i + 1 - mid.len()] by {
                    assert(orig.intervals@.remove(t as int)[i] == orig.intervals@[i + 1]);
                }
            }
        } else if v == lo {
            self.intervals[t] = (lo + 1, hi);
            proof {
                mid = seq![(((lo + 1) as i64), hi)];
                assert(self.intervals@[t as int] == mid[0]);
            }
        } else if v == hi {
            self.intervals[t] = (lo, hi - 1);
            proof {
                mid = seq![(lo, ((hi - 1) as i64))];
                assert(self.intervals@[t as int] == mid[0]);
            }
        } else {
            self.intervals[t] = (lo, v - 1);
            let len_now = self.intervals.len();
            assert(t < len_now);
            let ghost cut = self.intervals@;
            self.intervals.insert(t + 1, (v + 1, hi));
            proof {
                mid = seq![(lo, ((v - 1) as i64)), (((v + 1) as i64), hi)];
                cut.insert_ensures(t as int + 1, (((v + 1) as i64), hi));
                assert forall|i: int| 0 <= i < t implies #[trigger] self.intervals@[i]
                    == orig.intervals@[i] by {
                    assert(self.intervals@[i] == cut[i]);
                }
                assert(self.intervals@[t as int] == mid[0]);
                assert(self.intervals@[t as int + 1] == mid[1]);
                assert forall|i: int|
                    t + mid.len() <= i < self.intervals@.len() implies #[trigger] self.intervals@[i]
                    == orig.intervals@[i + 1 - mid.len()] by {
                    assert(self.intervals@[(i - 1) + 1] == cut[i - 1]);
                    assert(cut[i - 1] == orig.intervals@[i - 1]);
                }
            }
        }
        // Refresh the cached bounds; only mutations of the first or
        // last interval can move them.
        let first = self.intervals[0].0;
        self.min = first;
        let last = self.intervals[self.intervals.len() - 1].1;
        self.max = last;
        proof {
            assert forall|x: int| #[trigger] Self::covers(mid, x) <==> (lo as int <= x
                <= hi as int && x != v) by {
                if lo as int <= x <= hi as int && x != v {
                    if x < v {
                        assert(mid[0].0 <= x <= mid[0].1);
                    } else {
                        assert(mid[mid.len() - 1].0 <= x <= mid[mid.len() - 1].1);
                    }
                    assert(Self::covers(mid, x));
                }
            }
            Self::lemma_replace_interval(orig, *self, t as int, mid, v);
            Self::lemma_subset_bounds(*self, orig);
            orig.lemma_bounds_contained();
            if v != orig.min {
                self.lemma_contains_bounds(orig.min as int);
            }
            if v != orig.max {
                self.lemma_contains_bounds(orig.max as int);
            }
        }
    }
}

} // verus!
