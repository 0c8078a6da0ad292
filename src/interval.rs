//! Disjoint, maximally coalesced sets of closed integer intervals.
use vstd::prelude::*;
use crate::fragment::{Fragment, index_of_path, lemma_names_index_step, names_index};

verus! {

/// A closed interval `[start..end]` of chunk indices.
#[derive(Clone, Copy, Debug, PartialEq, Eq, Structural)]
pub struct Interval {
    pub start: i32,
    pub end: i32,
}

impl Interval {
    /// Whether the interval holds `x`.
    pub open spec fn holds(self, x: int) -> bool {
        self.start <= x <= self.end
    }

    /// Whether the two intervals share a point.
    pub open spec fn meets(self, other: Interval) -> bool {
        self.start <= other.end && other.start <= self.end
    }

    /// Builds `[start..end]`, swapping the bounds when they come in reverse.
    pub fn new(start: i32, end: i32) -> (r: Self)
        ensures
            end < start ==> r == (Interval { start: end, end: start }),
            start <= end ==> r == (Interval { start, end }),
    {
        if end < start {
            Self { start: end, end: start }
        } else {
            Self { start, end }
        }
    }

    /// The interval `[p..p]`.
    pub fn point(p: i32) -> (r: Self)
        ensures
            r == (Interval { start: p, end: p }),
    {
        Self { start: p, end: p }
    }

    /// The interval of the half-open range `start..end`.
    pub fn from_range(r: core::ops::Range<i32>) -> (res: Self)
        requires
            r.end > i32::MIN,
        ensures
            res == (if r.end - 1 < r.start {
                Interval { start: (r.end - 1) as i32, end: r.start }
            } else {
                Interval { start: r.start, end: (r.end - 1) as i32 }
            }),
    {
        Interval::new(r.start, r.end - 1)
    }

    /// The smallest interval from the lower of `self` and `left` to the upper of
    /// `self` and `right`.
    pub fn envelope(&self, left: &Interval, right: &Interval) -> (r: Self)
        ensures
            ({
                let lo = if self.start <= left.start { self.start } else { left.start };
                let hi = if self.end >= right.end { self.end } else { right.end };
                r == (if hi < lo {
                    Interval { start: hi, end: lo }
                } else {
                    Interval { start: lo, end: hi }
                })
            }),
    {
        let lo = if self.start <= left.start { self.start } else { left.start };
        let hi = if self.end >= right.end { self.end } else { right.end };
        Interval::new(lo, hi)
    }
}

/// Whether some interval of `s` holds `x`.
pub open spec fn covers(s: Seq<Interval>, x: int) -> bool {
    exists|i: int| 0 <= i < s.len() && #[trigger] s[i].holds(x)
}

/// Intervals ordered from the highest down, each non-empty, with a gap of at
/// least one point between neighbours.
pub open spec fn well_formed(s: Seq<Interval>) -> bool {
    &&& forall|i: int| 0 <= i < s.len() ==> #[trigger] s[i].start <= s[i].end
    &&& forall|i: int, j: int|
        0 <= i < j < s.len() ==> #[trigger] s[j].end + 1 < #[trigger] s[i].start
}

/// Tracks which indices have been seen, as maximal runs.
///
/// The runs are kept from the highest down: `first` is the highest run and
/// `last` the lowest.
#[derive(Debug)]
pub struct IntervalSet {
    intervals: Vec<Interval>,
}

impl View for IntervalSet {
    type V = Seq<Interval>;

    closed spec fn view(&self) -> Seq<Interval> {
        self.intervals@
    }
}

/// Index of the first interval of `s` that meets `v`, if any.
pub open spec fn first_meeting(s: Seq<Interval>, v: Interval) -> Option<int>
    decreases s.len(),
{
    if s.len() == 0 {
        None
    } else if s[0].meets(v) {
        Some(0)
    } else {
        match first_meeting(s.drop_first(), v) {
            Some(i) => Some(i + 1),
            None => None,
        }
    }
}

impl IntervalSet {
    pub open spec fn wf(&self) -> bool {
        well_formed(self@)
    }

    /// The empty set.
    pub fn new() -> (r: Self)
        ensures
            r@ == Seq::<Interval>::empty(),
            r.wf(),
    {
        Self { intervals: Vec::new() }
    }

    /// Number of maximal runs.
    pub fn len(&self) -> (r: usize)
        ensures
            r == self@.len(),
    {
        self.intervals.len()
    }

    /// Whether no index has been seen.
    pub fn is_empty(&self) -> (r: bool)
        ensures
            r == (self@.len() == 0),
    {
        self.intervals.len() == 0
    }

    /// The highest run.
    pub fn first(&self) -> (r: Option<&Interval>)
        ensures
            self@.len() == 0 ==> r.is_none(),
            self@.len() > 0 ==> r == Some(&self@[0]),
    {
        if self.intervals.len() == 0 {
            None
        } else {
            Some(&self.intervals[0])
        }
    }

    /// The lowest run.
    pub fn last(&self) -> (r: Option<&Interval>)
        ensures
            self@.len() == 0 ==> r.is_none(),
            self@.len() > 0 ==> r == Some(&self@[self@.len() - 1]),
    {
        let n = self.intervals.len();
        if n == 0 {
            None
        } else {
            Some(&self.intervals[n - 1])
        }
    }
}


/// `first_meeting` is the least index whose interval meets `v`.
proof fn lemma_first_meeting(s: Seq<Interval>, v: Interval, i: int)
    requires
        0 <= i <= s.len(),
        forall|j: int| 0 <= j < i ==> !#[trigger] s[j].meets(v),
    ensures
        i < s.len() && s[i].meets(v) ==> first_meeting(s, v) == Some(i),
        i == s.len() ==> first_meeting(s, v).is_none(),
    decreases s.len(),
{
    if s.len() > 0 && i > 0 {
        let t = s.drop_first();
        assert forall|j: int| 0 <= j < i - 1 implies !#[trigger] t[j].meets(v) by {
            assert(t[j] == s[j + 1]);
        }
        lemma_first_meeting(t, v, i - 1);
    }
}


/// Facts on the block `s[p..q]` of runs that meet `interval` or touch it.
pub open spec fn merge_block(s: Seq<Interval>, interval: Interval, p: int, q: int) -> bool {
    &&& well_formed(s)
    &&& interval.start <= interval.end
    &&& 0 <= p <= q <= s.len()
    &&& forall|j: int| 0 <= j < p ==> #[trigger] s[j].start > interval.end + 1
    &&& forall|j: int| p <= j < q ==> #[trigger] s[j].start <= interval.end + 1 && s[j].end + 1
        >= interval.start
    &&& forall|j: int| q <= j < s.len() ==> #[trigger] s[j].end + 1 < interval.start
}

/// The lower end of the merged run.
pub open spec fn merged_start(s: Seq<Interval>, interval: Interval, p: int, q: int) -> i32 {
    if q > p && s[q - 1].start < interval.start {
        s[q - 1].start
    } else {
        interval.start
    }
}

/// The upper end of the merged run.
pub open spec fn merged_end(s: Seq<Interval>, interval: Interval, p: int, q: int) -> i32 {
    if q > p && s[p].end > interval.end {
        s[p].end
    } else {
        interval.end
    }
}

/// `s` with the block `s[p..q]` and `interval` replaced by their union.
pub open spec fn merged(s: Seq<Interval>, interval: Interval, p: int, q: int) -> Seq<Interval> {
    s.subrange(0, p).push(
        Interval {
            start: merged_start(s, interval, p, q),
            end: merged_end(s, interval, p, q),
        },
    ) + s.subrange(q, s.len() as int)
}

proof fn lemma_block_order(s: Seq<Interval>, interval: Interval, p: int, q: int)
    requires
        merge_block(s, interval, p, q),
        q > p,
    ensures
        forall|j: int| p <= j < q ==> s[q - 1].start <= #[trigger] s[j].start && s[j].end <= s[p].end,
{
    assert forall|j: int| p <= j < q implies s[q - 1].start <= #[trigger] s[j].start && s[j].end
        <= s[p].end by {
        if j < q - 1 {
            assert(s[q - 1].end + 1 < s[j].start);
            assert(s[q - 1].start <= s[q - 1].end);
        }
        if j > p {
            assert(s[j].end + 1 < s[p].start);
            assert(s[p].start <= s[p].end);
        }
    }
}

proof fn lemma_merge_wf(s: Seq<Interval>, interval: Interval, p: int, q: int)
    requires
        merge_block(s, interval, p, q),
    ensures
        well_formed(merged(s, interval, p, q)),
{
    let t = merged(s, interval, p, q);
    let n = s.len();
    let lo = merged_start(s, interval, p, q);
    let hi = merged_end(s, interval, p, q);
    assert(t.len() == p + 1 + (n - q));
    assert forall|j: int| 0 <= j < p implies #[trigger] t[j] == s[j] by {}
    assert(t[p] == Interval { start: lo, end: hi });
    assert forall|j: int| p < j < t.len() implies #[trigger] t[j] == s[j - p - 1 + q] by {}
    assert forall|j: int| 0 <= j < p implies #[trigger] s[j].start > hi + 1 by {
        if q > p {
            assert(s[p].end + 1 < s[j].start);
        }
    }
    assert forall|j: int| q <= j < n implies #[trigger] s[j].end + 1 < lo by {
        if q > p {
            assert(s[j].end + 1 < s[q - 1].start);
        }
    }
    assert forall|i: int, j: int| 0 <= i < j < t.len() implies #[trigger] t[j].end + 1
        < #[trigger] t[i].start by {
        if j < p {
        } else if j == p {
        } else if i < p {
            assert(s[j - p - 1 + q].end + 1 < lo);
            assert(s[i].start > hi + 1);
        } else if i == p {
        } else {
            assert(s[j - p - 1 + q].end + 1 < s[i - p - 1 + q].start);
        }
    }
    assert forall|j: int| 0 <= j < t.len() implies #[trigger] t[j].start <= t[j].end by {
        if j > p {
            assert(t[j] == s[j - p - 1 + q]);
        }
    }
}

proof fn lemma_merge_covers(s: Seq<Interval>, interval: Interval, p: int, q: int)
    requires
        merge_block(s, interval, p, q),
    ensures
        forall|x: int| #[trigger]
            covers(merged(s, interval, p, q), x) <==> (covers(s, x) || interval.holds(x)),
{
    let t = merged(s, interval, p, q);
    let n = s.len();
    let lo = merged_start(s, interval, p, q);
    let hi = merged_end(s, interval, p, q);
    assert(t.len() == p + 1 + (n - q));
    assert forall|j: int| 0 <= j < p implies #[trigger] t[j] == s[j] by {}
    assert forall|j: int| p < j < t.len() implies #[trigger] t[j] == s[j - p - 1 + q] by {}
    if q > p {
        lemma_block_order(s, interval, p, q);
    }
    assert forall|x: int| covers(s, x) || interval.holds(x) implies #[trigger] covers(t, x) by {
        if interval.holds(x) {
            assert(t[p].holds(x));
        } else {
            let j = choose|j: int| 0 <= j < s.len() && #[trigger] s[j].holds(x);
            if j < p {
                assert(t[j].holds(x));
            } else if j >= q {
                assert(t[j - q + p + 1] == s[j]);
                assert(t[j - q + p + 1].holds(x));
            } else {
                assert(s[q - 1].start <= s[j].start && s[j].end <= s[p].end);
                assert(t[p].holds(x));
            }
        }
    }
    assert forall|x: int| #[trigger] covers(t, x) implies (covers(s, x) || interval.holds(x)) by {
        let j = choose|j: int| 0 <= j < t.len() && #[trigger] t[j].holds(x);
        if j < p {
            assert(s[j].holds(x));
        } else if j == p {
            if x < interval.start {
                assert(s[q - 1].holds(x));
            } else if x > interval.end {
                assert(s[p].holds(x));
            }
        } else {
            assert(s[j - p - 1 + q].holds(x));
        }
    }
}

impl IntervalSet {
    /// The highest run that shares a point with `value`.
    pub fn get(&self, value: &Interval) -> (r: Option<&Interval>)
        ensures
            match first_meeting(self@, *value) {
                Some(i) => r == Some(&self@[i]),
                None => r.is_none(),
            },
    {
        let n = self.intervals.len();
        let mut i: usize = 0;
        while i < n
            invariant
                i <= n,
                n == self@.len(),
                forall|j: int| 0 <= j < i ==> !#[trigger] self@[j].meets(*value),
            decreases n - i,
        {
            let iv = &self.intervals[i];
            if iv.start <= value.end && value.start <= iv.end {
                proof {
                    lemma_first_meeting(self@, *value, i as int);
                }
                return Some(iv);
            }
            i += 1;
        }
        proof {
            lemma_first_meeting(self@, *value, i as int);
        }
        None
    }

    /// Adds the points of `interval`, merging it with every run that it
    /// meets or that ends just below or starts just above it.
    pub fn insert(&mut self, interval: Interval)
        requires
            old(self).wf(),
            interval.start <= interval.end,
        ensures
            final(self).wf(),
            forall|x: int| #[trigger]
                covers(final(self)@, x) <==> (covers(old(self)@, x) || interval.holds(x)),
            exists|p: int, q: int|
                merge_block(old(self)@, interval, p, q) && final(self)@ == merged(
                    old(self)@,
                    interval,
                    p,
                    q,
                ),
    {
        let ghost s = self@;
        let n = self.intervals.len();
        let start = interval.start as i64;
        let end = interval.end as i64;
        let mut p: usize = 0;
        while p < n && self.intervals[p].start as i64 > end + 1
            invariant
                p <= n,
                n == s.len(),
                s == self@,
                end == interval.end,
                forall|j: int| 0 <= j < p ==> #[trigger] s[j].start > interval.end + 1,
            decreases n - p,
        {
            p += 1;
        }
        let mut q: usize = p;
        while q < n && self.intervals[q].end as i64 + 1 >= start
            invariant
                p <= q <= n,
                n == s.len(),
                s == self@,
                start == interval.start,
                well_formed(s),
                interval.start <= interval.end,
                p < n ==> s[p as int].start <= interval.end + 1,
                forall|j: int| p <= j < q ==> #[trigger] s[j].start <= interval.end + 1 && s[j].end
                    + 1 >= interval.start,
            decreases n - q,
        {
            proof {
                if q > p {
                    assert(s[q as int].end + 1 < s[p as int].start);
                    assert(s[q as int].start <= s[q as int].end);
                }
            }
            q += 1;
        }
        proof {
            assert forall|j: int| q <= j < n implies #[trigger] s[j].end + 1 < interval.start by {
                if j > q {
                    assert(s[j].end + 1 < s[q as int].start);
                    assert(s[q as int].start <= s[q as int].end);
                }
            }
        }
        let lo = if q > p && self.intervals[q - 1].start < interval.start {
            self.intervals[q - 1].start
        } else {
            interval.start
        };
        let hi = if q > p && self.intervals[p].end > interval.end {
            self.intervals[p].end
        } else {
            interval.end
        };
        let joined = Interval { start: lo, end: hi };
        let mut out: Vec<Interval> = Vec::new();
        let mut i: usize = 0;
        while i < p
            invariant
                i <= p <= n,
                n == s.len(),
                s == self@,
                out@ == s.subrange(0, i as int),
            decreases p - i,
        {
            out.push(self.intervals[i]);
            i += 1;
        }
        out.push(joined);
        let mut k: usize = q;
        while k < n
            invariant
                p <= q <= k <= n,
                n == s.len(),
                s == self@,
                out@ == s.subrange(0, p as int).push(joined) + s.subrange(q as int, k as int),
            decreases n - k,
        {
            out.push(self.intervals[k]);
            k += 1;
        }
        proof {
            assert(out@ == merged(s, interval, p as int, q as int));
            assert(merge_block(s, interval, p as int, q as int));
            lemma_merge_wf(s, interval, p as int, q as int);
            lemma_merge_covers(s, interval, p as int, q as int);
        }
        self.intervals = out;
    }
}

proof fn lemma_below_run_uncovered(t: Seq<Interval>, k: int)
    requires
        well_formed(t),
        0 <= k < t.len(),
    ensures
        !covers(t, t[k].start - 1),
        !covers(t, t[k].end + 1),
{
    assert forall|m: int| 0 <= m < t.len() implies !#[trigger] t[m].holds(t[k].start - 1) by {
        if m < k {
            assert(t[k].end + 1 < t[m].start);
        } else if m > k {
            assert(t[m].end + 1 < t[k].start);
        }
    }
    assert forall|m: int| 0 <= m < t.len() implies !#[trigger] t[m].holds(t[k].end + 1) by {
        if m < k {
            assert(t[k].end + 1 < t[m].start);
        } else if m > k {
            assert(t[m].end + 1 < t[k].start);
        }
    }
}

/// A run that holds a point of a fully covered stretch `[lo..hi]`, whose outer
/// neighbours are uncovered, is that stretch.
proof fn lemma_run_is_stretch(t: Seq<Interval>, k: int, x: int, lo: int, hi: int)
    requires
        well_formed(t),
        0 <= k < t.len(),
        t[k].holds(x),
        lo <= x <= hi,
        forall|y: int| lo <= y <= hi ==> #[trigger] covers(t, y),
        !covers(t, lo - 1),
        !covers(t, hi + 1),
    ensures
        t[k].start == lo,
        t[k].end == hi,
{
    lemma_below_run_uncovered(t, k);
    if t[k].start > lo {
        assert(covers(t, t[k].start - 1));
    }
    if t[k].start < lo {
        assert(t[k].holds(lo - 1));
    }
    if t[k].end < hi {
        assert(covers(t, t[k].end + 1));
    }
    if t[k].end > hi {
        assert(t[k].holds(hi + 1));
    }
}

proof fn lemma_point_lands_in_stretch(
    before: Seq<Interval>,
    after: Seq<Interval>,
    p: int,
    lo: int,
    hi: int,
)
    requires
        well_formed(before),
        well_formed(after),
        forall|x: int| #[trigger] covers(after, x) <==> (covers(before, x) || x == p),
        lo <= p <= hi,
        forall|y: int| lo <= y <= hi && y != p ==> #[trigger] covers(before, y),
        !covers(before, lo - 1),
        !covers(before, hi + 1),
    ensures
        after.contains(Interval { start: lo as i32, end: hi as i32 }),
        lo == lo as i32 && hi == hi as i32,
{
    assert(covers(after, p));
    let k = choose|k: int| 0 <= k < after.len() && #[trigger] after[k].holds(p);
    assert forall|y: int| lo <= y <= hi implies #[trigger] covers(after, y) by {
        if y != p {
            assert(covers(before, y));
        }
    }
    lemma_run_is_stretch(after, k, p, lo, hi);
    assert(after[k] == Interval { start: lo as i32, end: hi as i32 });
}

/// Adding the point `p` between the runs `[a..p-1]` and `[p+1..b]` joins them
/// into the single run `[a..b]`.
pub proof fn lemma_insert_joins_neighbours(
    before: Seq<Interval>,
    after: Seq<Interval>,
    p: int,
    left: int,
    right: int,
)
    requires
        well_formed(before),
        well_formed(after),
        0 <= left < before.len(),
        0 <= right < before.len(),
        before[left].end == p - 1,
        before[right].start == p + 1,
        forall|x: int| #[trigger] covers(after, x) <==> (covers(before, x) || x == p),
    ensures
        after.contains(Interval { start: before[left].start, end: before[right].end }),
{
    let lo = before[left].start as int;
    let hi = before[right].end as int;
    lemma_below_run_uncovered(before, left);
    lemma_below_run_uncovered(before, right);
    assert forall|y: int| lo <= y <= hi && y != p implies #[trigger] covers(before, y) by {
        if y < p {
            assert(before[left].holds(y));
        } else {
            assert(before[right].holds(y));
        }
    }
    lemma_point_lands_in_stretch(before, after, p, lo, hi);
}

/// Adding a point `p` whose neighbours `p-1` and `p+1` are both unseen gives
/// the run `[p..p]`.
pub proof fn lemma_insert_isolated_point(before: Seq<Interval>, after: Seq<Interval>, p: i32)
    requires
        well_formed(before),
        well_formed(after),
        !covers(before, p - 1),
        !covers(before, p as int),
        !covers(before, p + 1),
        forall|x: int| #[trigger] covers(after, x) <==> (covers(before, x) || x == p),
    ensures
        after.contains(Interval { start: p, end: p }),
{
    lemma_point_lands_in_stretch(before, after, p as int, p as int, p as int);
}

/// Whether the runs are the single run `[0..N]`: the sentinel and every
/// chunk below the highest one are there.
pub open spec fn is_complete(s: Seq<Interval>) -> bool {
    s.len() == 1 && s[0].start == 0
}

/// The decision part of walking the freeze queue: records the chunk index of
/// each file found (others are passed over), and tells whether the backup is
/// complete.
pub fn freeze_progress(paths: &Vec<String>) -> (r: (IntervalSet, bool))
    ensures
        r.0.wf(),
        forall|x: int| #[trigger] covers(r.0@, x) <==> names_index(paths@, x),
        r.1 == is_complete(r.0@),
{
    let mut set = IntervalSet::new();
    let mut i: usize = 0;
    while i < paths.len()
        invariant
            i <= paths.len(),
            set.wf(),
            forall|x: int| #[trigger] covers(set@, x) <==> names_index(paths@.subrange(0, i as int), x),
        decreases paths.len() - i,
    {
        let ghost before = set@;
        let ghost sub = paths@.subrange(0, i as int);
        let ghost next = paths@.subrange(0, i + 1);
        proof {
            lemma_names_index_step(paths@, i as int);
        }
        let path = paths[i].clone();
        assert(path@ == paths@[i as int]@);
        match Fragment::new(path) {
            Some(fragment) => {
                let p = Interval::point(fragment.index);
                set.insert(p);
                assert forall|x: int| #[trigger] covers(set@, x) <==> names_index(next, x) by {
                    assert(covers(set@, x) <==> (covers(before, x) || p.holds(x)));
                }
            },
            None => {},
        }
        i += 1;
    }
    assert(paths@.subrange(0, paths@.len() as int) == paths@);
    let complete = set.len() == 1 && set.intervals[0].start == 0;
    (set, complete)
}

/// A complete freeze queue holds exactly the chunks `0 ..= N`.
pub proof fn lemma_complete_is_prefix(s: Seq<Interval>)
    requires
        well_formed(s),
        is_complete(s),
    ensures
        forall|x: int| #[trigger] covers(s, x) <==> 0 <= x <= s[0].end,
{
    assert forall|x: int| 0 <= x <= s[0].end implies #[trigger] covers(s, x) by {
        assert(s[0].holds(x));
    }
}

/// A run of a well-formed sequence that holds `x` is the only one that does.
proof fn lemma_sole_holder(s: Seq<Interval>, i: int, j: int, x: int)
    requires
        well_formed(s),
        0 <= i < s.len(),
        0 <= j < s.len(),
        s[i].holds(x),
        s[j].holds(x),
    ensures
        i == j,
{
    if i < j {
        assert(s[j].end + 1 < s[i].start);
    } else if j < i {
        assert(s[i].end + 1 < s[j].start);
    }
}

/// Every run of the merged block holds `p - 1`, `p` or `p + 1` when the
/// block is that of the point `p`.
proof fn lemma_block_near_point(s: Seq<Interval>, pt: i32, pb: int, qb: int, j: int)
    requires
        merge_block(s, Interval { start: pt, end: pt }, pb, qb),
        pb <= j < qb,
    ensures
        s[j].holds(pt - 1) || s[j].holds(pt as int) || s[j].holds(pt + 1),
{
    assert(s[j].start <= s[j].end);
}

proof fn lemma_block_member(
    before: Seq<Interval>,
    pt: i32,
    pb: int,
    qb: int,
    left: int,
    right: int,
    j: int,
)
    requires
        well_formed(before),
        merge_block(before, Interval { start: pt, end: pt }, pb, qb),
        0 <= left < before.len(),
        0 <= right < before.len(),
        before[left].holds(pt - 1),
        before[right].holds(pt + 1),
        !covers(before, pt as int),
        pb <= j < qb,
    ensures
        j == left || j == right,
{
    lemma_block_near_point(before, pt, pb, qb, j);
    if before[j].holds(pt - 1) {
        lemma_sole_holder(before, j, left, pt - 1);
    } else if before[j].holds(pt + 1) {
        lemma_sole_holder(before, j, right, pt + 1);
    } else {
        assert(covers(before, pt as int));
    }
}

/// Adding the point `p` between the runs `[a..p-1]` and `[p+1..b]` replaces
/// both by `[a..b]`: one run fewer, and every other run stays as it was.
pub proof fn lemma_insert_between_keeps_others(
    before: Seq<Interval>,
    after: Seq<Interval>,
    pt: i32,
    left: int,
    right: int,
)
    requires
        well_formed(before),
        exists|p: int, q: int|
            merge_block(before, Interval { start: pt, end: pt }, p, q) && after == merged(
                before,
                Interval { start: pt, end: pt },
                p,
                q,
            ),
        0 <= left < before.len(),
        0 <= right < before.len(),
        before[left].end == pt - 1,
        before[right].start == pt + 1,
        !covers(before, pt as int),
    ensures
        after.len() == before.len() - 1,
        after.contains(Interval { start: before[left].start, end: before[right].end }),
        forall|j: int|
            0 <= j < before.len() && j != left && j != right ==> after.contains(#[trigger] before[j]),
{
    let iv = Interval { start: pt, end: pt };
    let (pb, qb) = choose|p: int, q: int|
        merge_block(before, iv, p, q) && after == merged(before, iv, p, q);
    assert(before[left].holds(pt - 1));
    assert(before[right].holds(pt + 1));
    assert(right < left) by {
        if left < right {
            assert(before[right].end + 1 < before[left].start);
        }
    }
    // both neighbours are in the block, and nothing else is
    assert(pb <= right < qb) by {
        if right < pb {
            assert(before[right].start > pt + 1);
        }
        if right >= qb {
            assert(before[right].end + 1 < pt);
        }
    }
    assert(pb <= left < qb) by {
        if left < pb {
            assert(before[left].start > pt + 1);
        }
        if left >= qb {
            assert(before[left].end + 1 < pt);
        }
    }
    assert(qb - pb == 2) by {
        if qb - pb > 2 {
            lemma_block_member(before, pt, pb, qb, left, right, pb);
            lemma_block_member(before, pt, pb, qb, left, right, pb + 1);
            lemma_block_member(before, pt, pb, qb, left, right, pb + 2);
        }
    }
    lemma_block_member(before, pt, pb, qb, left, right, pb);
    lemma_block_member(before, pt, pb, qb, left, right, pb + 1);
    assert(pb == right && left == pb + 1);
    lemma_block_order(before, iv, pb, qb);
    assert(merged_start(before, iv, pb, qb) == before[left].start);
    assert(merged_end(before, iv, pb, qb) == before[right].end);
    assert(after[pb] == Interval { start: before[left].start, end: before[right].end });
    assert forall|j: int| 0 <= j < before.len() && j != left && j != right implies after.contains(
        #[trigger] before[j],
    ) by {
        if j < pb {
            assert(after[j] == before[j]);
        } else {
            assert(after[j - 1] == before[j]);
        }
    }
}

/// Adding a point `p` while neither `p - 1`, `p` nor `p + 1` is seen adds the
/// run `[p..p]`: one run more, and every other run stays as it was.
pub proof fn lemma_insert_isolated_keeps_others(before: Seq<Interval>, after: Seq<Interval>, pt: i32)
    requires
        well_formed(before),
        exists|p: int, q: int|
            merge_block(before, Interval { start: pt, end: pt }, p, q) && after == merged(
                before,
                Interval { start: pt, end: pt },
                p,
                q,
            ),
        !covers(before, pt - 1),
        !covers(before, pt as int),
        !covers(before, pt + 1),
    ensures
        after.len() == before.len() + 1,
        after.contains(Interval { start: pt, end: pt }),
        forall|j: int| 0 <= j < before.len() ==> after.contains(#[trigger] before[j]),
{
    let iv = Interval { start: pt, end: pt };
    let (pb, qb) = choose|p: int, q: int|
        merge_block(before, iv, p, q) && after == merged(before, iv, p, q);
    if qb > pb {
        lemma_block_near_point(before, pt, pb, qb, pb);
    }
    assert(qb == pb);
    assert(after[pb] == iv);
    assert forall|j: int| 0 <= j < before.len() implies after.contains(#[trigger] before[j]) by {
        if j < pb {
            assert(after[j] == before[j]);
        } else {
            assert(after[j + 1] == before[j]);
        }
    }
}

} // verus!
