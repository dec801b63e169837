//! Sets of versions, kept as sorted ranges that neither overlap nor touch.

use vstd::prelude::*;
use crate::errors::ProtoverError;
use crate::text::{MAX_VERSION, decimal, join, push_decimal, string_of};

verus! {

/// One revision of a protocol.
pub type Version = u32;

/// The versions from `low` to `high`, both included.
#[derive(Clone, Copy, Debug, PartialEq, Eq, Structural)]
pub struct VersionRange {
    pub low: Version,
    pub high: Version,
}

impl VersionRange {
    /// The bounds are in order and within the limit.
    pub open spec fn wf(self) -> bool {
        self.low <= self.high <= MAX_VERSION
    }

    /// Whether `v` lies in the range.
    pub open spec fn covers(self, v: int) -> bool {
        self.low <= v <= self.high
    }

    /// The range from `low` to `high`, if that is one.
    pub fn new(low: Version, high: Version) -> (r: Result<VersionRange, ProtoverError>)
        ensures
            r == checked_range(low, high),
    {
        if low > MAX_VERSION || high > MAX_VERSION {
            Err(ProtoverError::ExceedsMax)
        } else if low > high {
            Err(ProtoverError::LowGreaterThanHigh)
        } else {
            Ok(VersionRange { low, high })
        }
    }
}

/// The range from `low` to `high`, or why there is none: a bound above
/// the limit is reported before bounds out of order.
pub open spec fn checked_range(low: Version, high: Version) -> Result<VersionRange, ProtoverError> {
    if low > MAX_VERSION || high > MAX_VERSION {
        Err(ProtoverError::ExceedsMax)
    } else if low > high {
        Err(ProtoverError::LowGreaterThanHigh)
    } else {
        Ok(VersionRange { low, high })
    }
}

/// The integers from `low` to `high`.
pub open spec fn range_set(low: int, high: int) -> Set<int> {
    Set::new(|v: int| low <= v <= high)
}

/// Whether some range of `r` covers `v`.
pub open spec fn ranges_cover(r: Seq<VersionRange>, v: int) -> bool {
    exists|i: int| 0 <= i < r.len() && (#[trigger] r[i]).covers(v)
}

/// The versions that the ranges of `r` cover.
pub open spec fn ranges_set(r: Seq<VersionRange>) -> Set<int> {
    Set::new(|v: int| ranges_cover(r, v))
}

/// The canonical form: every range is in order and within the limit, the
/// ranges ascend, and between two of them at least one version is missing.
pub open spec fn ranges_wf(r: Seq<VersionRange>) -> bool {
    &&& forall|i: int| 0 <= i < r.len() ==> (#[trigger] r[i]).wf()
    &&& forall|i: int, j: int| 0 <= i < j < r.len() ==> (#[trigger] r[i]).high + 1 < (#[trigger] r[j]).low
}

/// The canonical ranges that cover exactly `s`, where there are such.
pub open spec fn canonical_ranges(s: Set<int>) -> Seq<VersionRange> {
    choose|r: Seq<VersionRange>| ranges_wf(r) && ranges_set(r) == s
}

/// Whether some canonical sequence of ranges covers exactly `s`.
pub open spec fn representable(s: Set<int>) -> bool {
    exists|r: Seq<VersionRange>| ranges_wf(r) && ranges_set(r) == s
}

/// Versions covered by canonical ranges are within the limit.
pub proof fn lemma_ranges_bounded(r: Seq<VersionRange>, v: int)
    requires
        ranges_wf(r),
        ranges_cover(r, v),
    ensures
        0 <= v <= MAX_VERSION,
{
    let i = choose|i: int| 0 <= i < r.len() && (#[trigger] r[i]).covers(v);
    assert(r[i].wf());
}

/// Adding a range at the end adds what it covers.
pub proof fn lemma_cover_push(r: Seq<VersionRange>, x: VersionRange, v: int)
    ensures
        ranges_cover(r.push(x), v) == (ranges_cover(r, v) || x.covers(v)),
{
    let q = r.push(x);
    if ranges_cover(q, v) {
        let i = choose|i: int| 0 <= i < q.len() && (#[trigger] q[i]).covers(v);
        if i < r.len() {
            assert(r[i].covers(v));
        }
    }
    if ranges_cover(r, v) {
        let i = choose|i: int| 0 <= i < r.len() && (#[trigger] r[i]).covers(v);
        assert(q[i].covers(v));
    }
    if x.covers(v) {
        assert(q[r.len() as int].covers(v));
    }
}

/// What a prefix covers, one range longer.
pub proof fn lemma_cover_take(r: Seq<VersionRange>, k: int, v: int)
    requires
        0 <= k < r.len(),
    ensures
        ranges_cover(r.take(k + 1), v) == (ranges_cover(r.take(k), v) || r[k].covers(v)),
{
    assert(r.take(k + 1) =~= r.take(k).push(r[k]));
    lemma_cover_push(r.take(k), r[k], v);
}

/// Without its first range, a canonical sequence covers what lies above
/// that range.
proof fn lemma_cover_tail(r: Seq<VersionRange>, v: int)
    requires
        ranges_wf(r),
        r.len() > 0,
    ensures
        ranges_wf(r.skip(1)),
        ranges_cover(r.skip(1), v) == (ranges_cover(r, v) && v > r[0].high),
{
    let t = r.skip(1);
    assert forall|i: int| 0 <= i < t.len() implies (#[trigger] t[i]).wf() by {
        assert(t[i] == r[i + 1]);
    }
    assert forall|i: int, j: int| 0 <= i < j < t.len() implies (#[trigger] t[i]).high + 1 < (
    #[trigger] t[j]).low by {
        assert(t[i] == r[i + 1]);
        assert(t[j] == r[j + 1]);
    }
    if ranges_cover(t, v) {
        let i = choose|i: int| 0 <= i < t.len() && (#[trigger] t[i]).covers(v);
        assert(t[i] == r[i + 1]);
        assert(r[i + 1].covers(v));
        assert(r[0].high + 1 < r[i + 1].low);
    }
    if ranges_cover(r, v) && v > r[0].high {
        let i = choose|i: int| 0 <= i < r.len() && (#[trigger] r[i]).covers(v);
        assert(i > 0);
        assert(t[i - 1] == r[i]);
        assert(t[i - 1].covers(v));
    }
}

/// The first range of a canonical sequence starts at the least version covered.
proof fn lemma_first_is_least(r: Seq<VersionRange>, v: int)
    requires
        ranges_wf(r),
        ranges_cover(r, v),
    ensures
        r.len() > 0,
        r[0].low <= v,
{
    let i = choose|i: int| 0 <= i < r.len() && (#[trigger] r[i]).covers(v);
    assert(r[0].wf());
    if i > 0 {
        assert(r[0].high + 1 < r[i].low);
    }
}

/// The version just above the first range is not covered.
proof fn lemma_gap_after_first(r: Seq<VersionRange>)
    requires
        ranges_wf(r),
        r.len() > 0,
    ensures
        !ranges_cover(r, r[0].high + 1),
{
    let v = r[0].high + 1;
    if ranges_cover(r, v) {
        let i = choose|i: int| 0 <= i < r.len() && (#[trigger] r[i]).covers(v);
        if i > 0 {
            assert(r[0].high + 1 < r[i].low);
        }
    }
}

/// A set of versions has at most one canonical sequence of ranges.
pub proof fn lemma_ranges_unique(a: Seq<VersionRange>, b: Seq<VersionRange>)
    requires
        ranges_wf(a),
        ranges_wf(b),
        ranges_set(a) == ranges_set(b),
    ensures
        a == b,
    decreases a.len(),
{
    assert forall|v: int| ranges_cover(a, v) == ranges_cover(b, v) by {
        assert(ranges_set(a).contains(v) == ranges_cover(a, v));
        assert(ranges_set(b).contains(v) == ranges_cover(b, v));
    }
    if a.len() == 0 {
        if b.len() > 0 {
            assert(b[0].wf());
            assert(b[0].covers(b[0].low as int));
            assert(ranges_cover(b, b[0].low as int));
            lemma_first_is_least(a, b[0].low as int);
        }
        assert(a =~= b);
    } else {
        assert(a[0].wf());
        assert(a[0].covers(a[0].low as int));
        assert(ranges_cover(a, a[0].low as int));
        lemma_first_is_least(b, a[0].low as int);
        assert(b[0].wf());
        assert(b[0].covers(b[0].low as int));
        assert(ranges_cover(b, b[0].low as int));
        lemma_first_is_least(a, b[0].low as int);
        assert(a[0].low == b[0].low);
        lemma_gap_after_first(a);
        lemma_gap_after_first(b);
        if a[0].high < b[0].high {
            assert(b[0].covers(a[0].high + 1));
            assert(ranges_cover(b, a[0].high + 1));
        }
        if b[0].high < a[0].high {
            assert(a[0].covers(b[0].high + 1));
            assert(ranges_cover(a, b[0].high + 1));
        }
        assert(a[0] == b[0]);
        assert forall|v: int| ranges_cover(a.skip(1), v) == ranges_cover(b.skip(1), v) by {
            lemma_cover_tail(a, v);
            lemma_cover_tail(b, v);
        }
        lemma_cover_tail(a, 0);
        lemma_cover_tail(b, 0);
        assert(ranges_set(a.skip(1)) =~= ranges_set(b.skip(1)));
        lemma_ranges_unique(a.skip(1), b.skip(1));
        assert(a =~= seq![a[0]] + a.skip(1));
        assert(b =~= seq![b[0]] + b.skip(1));
    }
}

/// A canonical sequence is the canonical sequence of what it covers.
pub proof fn lemma_canonical_ranges(r: Seq<VersionRange>)
    requires
        ranges_wf(r),
    ensures
        representable(ranges_set(r)),
        canonical_ranges(ranges_set(r)) == r,
{
    let c = canonical_ranges(ranges_set(r));
    lemma_ranges_unique(c, r);
}

/// A set of versions. Two sets are equal exactly if they hold the same
/// versions, since a set is kept in one way only.
#[derive(Debug, PartialEq, Eq)]
pub struct ProtoSet {
    ranges: Vec<VersionRange>,
}

impl View for ProtoSet {
    type V = Set<int>;

    /// The versions in the set.
    open spec fn view(&self) -> Set<int> {
        ranges_set(self.ranges())
    }
}

impl ProtoSet {
    /// The ranges that the set is kept as.
    pub closed spec fn ranges(&self) -> Seq<VersionRange> {
        self.ranges@
    }

    /// The ranges are in canonical form.
    pub open spec fn wf(&self) -> bool {
        ranges_wf(self.ranges())
    }

    /// The set of no versions.
    pub fn new() -> (s: ProtoSet)
        ensures
            s.wf(),
            s.ranges() == Seq::<VersionRange>::empty(),
            s@ == Set::<int>::empty(),
    {
        let s = ProtoSet { ranges: Vec::new() };
        assert(s@ =~= Set::<int>::empty());
        s
    }

    /// A copy of the set.
    pub fn duplicate(&self) -> (s: ProtoSet)
        ensures
            s.ranges() == self.ranges(),
            s@ == self@,
            s.wf() == self.wf(),
    {
        ProtoSet { ranges: self.ranges.clone() }
    }

    /// How many ranges the set is kept as.
    pub fn range_count(&self) -> (n: usize)
        ensures
            n == self.ranges().len(),
    {
        self.ranges.len()
    }

    /// The range at position `i`, counted from the lowest.
    pub fn range_at(&self, i: usize) -> (r: VersionRange)
        requires
            i < self.ranges().len(),
        ensures
            r == self.ranges()[i as int],
    {
        self.ranges[i]
    }

    /// Whether the set holds no version.
    pub fn is_empty(&self) -> (b: bool)
        requires
            self.wf(),
        ensures
            b == (self@ == Set::<int>::empty()),
            b == (self.ranges().len() == 0),
    {
        proof {
            if self.ranges@.len() > 0 {
                assert(self.ranges@[0].wf());
                assert(self.ranges@[0].covers(self.ranges@[0].low as int));
                assert(self@.contains(self.ranges@[0].low as int));
            } else {
                assert(self@ =~= Set::<int>::empty());
            }
        }
        self.ranges.len() == 0
    }

    /// Whether `v` is in the set.
    pub fn contains(&self, v: Version) -> (b: bool)
        ensures
            b == self@.contains(v as int),
    {
        let mut i: usize = 0;
        while i < self.ranges.len()
            invariant
                i <= self.ranges.len(),
                forall|k: int| 0 <= k < i ==> !(#[trigger] self.ranges@[k]).covers(v as int),
            decreases self.ranges.len() - i,
        {
            let r = self.ranges[i];
            if r.low <= v && v <= r.high {
                assert(self.ranges@[i as int].covers(v as int));
                return true;
            }
            i = i + 1;
        }
        false
    }

    /// The highest version in the set, if it has any.
    pub fn max(&self) -> (m: Option<Version>)
        requires
            self.wf(),
        ensures
            m is None <==> self@ == Set::<int>::empty(),
            m matches Some(h) ==> self@.contains(h as int) && forall|v: int|
                self@.contains(v) ==> v <= h,
    {
        let n = self.ranges.len();
        if n == 0 {
            assert(self@ =~= Set::<int>::empty());
            None
        } else {
            let last = self.ranges[n - 1];
            proof {
                assert(self.ranges@[n - 1].wf());
                assert(self.ranges@[n - 1].covers(last.high as int));
                assert(self@.contains(last.high as int));
                assert forall|v: int| self@.contains(v) implies v <= last.high by {
                    let i = choose|i: int|
                        0 <= i < self.ranges@.len() && (#[trigger] self.ranges@[i]).covers(v);
                    if i < n - 1 {
                        assert(self.ranges@[i].high + 1 < self.ranges@[n - 1].low);
                    }
                }
            }
            Some(last.high)
        }
    }

    /// Whether the set holds a version between `low` and `high`.
    pub fn overlaps(&self, low: Version, high: Version) -> (b: bool)
        ensures
            b == exists|v: int| low <= v <= high && self@.contains(v),
    {
        let mut i: usize = 0;
        while i < self.ranges.len()
            invariant
                i <= self.ranges.len(),
                forall|k: int, v: int|
                    0 <= k < i && low <= v <= high ==> !#[trigger] self.ranges@[k].covers(v),
            decreases self.ranges.len() - i,
        {
            let r = self.ranges[i];
            let from = if r.low > low {
                r.low
            } else {
                low
            };
            let to = if r.high < high {
                r.high
            } else {
                high
            };
            if from <= to {
                assert(self.ranges@[i as int].covers(from as int));
                assert(low <= from <= high && self@.contains(from as int));
                return true;
            }
            i = i + 1;
        }
        proof {
            if exists|v: int| low <= v <= high && self@.contains(v) {
                let v = choose|v: int| low <= v <= high && self@.contains(v);
                let k = choose|k: int|
                    0 <= k < self.ranges@.len() && (#[trigger] self.ranges@[k]).covers(v);
                assert(!self.ranges@[k].covers(v));
            }
        }
        false
    }

    /// Where the stretch of versions that starts at `v` and is wholly
    /// inside or wholly outside the set comes to an end: every version from
    /// `v` up to the one before the result is in the set exactly if `v` is.
    pub(crate) fn run_end(&self, v: Version) -> (e: Version)
        requires
            self.wf(),
            v <= MAX_VERSION,
        ensures
            v < e <= MAX_VERSION + 1,
            forall|w: int| v <= w < e ==> self@.contains(w) == self@.contains(v as int),
            e <= MAX_VERSION ==> self@.contains(e as int) != self@.contains(v as int),
    {
        let mut i: usize = 0;
        while i < self.ranges.len()
            invariant
                i <= self.ranges.len(),
                self.wf(),
                v <= MAX_VERSION,
                forall|k: int| 0 <= k < i ==> (#[trigger] self.ranges@[k]).high < v,
            decreases self.ranges.len() - i,
        {
            let r = self.ranges[i];
            assert(self.ranges@[i as int].wf());
            if r.low <= v && v <= r.high {
                proof {
                    assert forall|w: int| v <= w < r.high + 1 implies self@.contains(w) by {
                        assert(self.ranges@[i as int].covers(w));
                    }
                    assert(self.ranges@[i as int].covers(v as int));
                    if self@.contains(r.high + 1) {
                        let k = choose|k: int|
                            0 <= k < self.ranges@.len() && (#[trigger] self.ranges@[k]).covers(
                                r.high + 1,
                            );
                        if k > i {
                            assert(self.ranges@[i as int].high + 1 < self.ranges@[k].low);
                        }
                    }
                }
                return r.high + 1;
            }
            if r.low > v {
                proof {
                    assert forall|w: int| v <= w < r.low implies !self@.contains(w) by {
                        if self@.contains(w) {
                            let k = choose|k: int|
                                0 <= k < self.ranges@.len() && (#[trigger] self.ranges@[k]).covers(
                                    w,
                                );
                            if k > i {
                                assert(self.ranges@[i as int].high + 1 < self.ranges@[k].low);
                            }
                        }
                    }
                    assert(self.ranges@[i as int].covers(r.low as int));
                }
                return r.low;
            }
            i = i + 1;
        }
        proof {
            assert forall|w: int| v <= w implies !self@.contains(w) by {
                if self@.contains(w) {
                    let k = choose|k: int|
                        0 <= k < self.ranges@.len() && (#[trigger] self.ranges@[k]).covers(w);
                    assert(self.ranges@[k].high < v);
                }
            }
        }
        MAX_VERSION + 1
    }

    /// Adds the versions from `low` to `high`, all of which are above
    /// every version already in the set. A range that touches the last one
    /// is merged into it.
    pub(crate) fn push_range(&mut self, low: Version, high: Version)
        requires
            old(self).wf(),
            low <= high <= MAX_VERSION,
            forall|v: int| old(self)@.contains(v) ==> v < low,
        ensures
            final(self).wf(),
            final(self)@ == old(self)@.union(range_set(low as int, high as int)),
    {
        let n = self.ranges.len();
        let ghost before = self.ranges@;
        proof {
            if n > 0 {
                assert(before[n - 1].wf());
                assert(before[n - 1].covers(before[n - 1].high as int));
                assert(old(self)@.contains(before[n - 1].high as int));
            }
        }
        if n > 0 && self.ranges[n - 1].high + 1 == low {
            let merged = VersionRange { low: self.ranges[n - 1].low, high };
            self.ranges.set(n - 1, merged);
            proof {
                let after = self.ranges@;
                assert forall|i: int| 0 <= i < after.len() implies (#[trigger] after[i]).wf() by {
                    if i < n - 1 {
                        assert(after[i] == before[i]);
                    }
                }
                assert forall|i: int, j: int| 0 <= i < j < after.len() implies (
                #[trigger] after[i]).high + 1 < (#[trigger] after[j]).low by {
                    assert(after[i] == before[i]);
                    assert(after[j].low == before[j].low);
                }
                assert forall|v: int|
                    ranges_cover(after, v) == (ranges_cover(before, v) || low <= v <= high) by {
                    if ranges_cover(after, v) {
                        let i = choose|i: int|
                            0 <= i < after.len() && (#[trigger] after[i]).covers(v);
                        if i < n - 1 {
                            assert(before[i].covers(v));
                        } else if v < low {
                            assert(before[n - 1].covers(v));
                        }
                    }
                    if ranges_cover(before, v) {
                        let i = choose|i: int|
                            0 <= i < before.len() && (#[trigger] before[i]).covers(v);
                        if i < n - 1 {
                            assert(after[i].covers(v));
                        } else {
                            assert(after[n - 1].covers(v));
                        }
                    }
                    if low <= v <= high {
                        assert(after[n - 1].covers(v));
                    }
                }
                assert(self@ =~= old(self)@.union(range_set(low as int, high as int)));
            }
        } else {
            let x = VersionRange { low, high };
            self.ranges.push(x);
            proof {
                let after = self.ranges@;
                assert forall|i: int| 0 <= i < after.len() implies (#[trigger] after[i]).wf() by {
                    if i < n {
                        assert(after[i] == before[i]);
                    }
                }
                assert forall|i: int, j: int| 0 <= i < j < after.len() implies (
                #[trigger] after[i]).high + 1 < (#[trigger] after[j]).low by {
                    assert(after[i] == before[i]);
                    if j < n {
                        assert(after[j] == before[j]);
                    } else {
                        assert(before[i].wf());
                        assert(before[i].covers(before[i].high as int));
                        assert(old(self)@.contains(before[i].high as int));
                        if i < n - 1 {
                            assert(before[i].high + 1 < before[n - 1].low);
                            assert(before[n - 1].wf());
                        }
                    }
                }
                assert forall|v: int|
                    ranges_cover(after, v) == (ranges_cover(before, v) || low <= v <= high) by {
                    lemma_cover_push(before, x, v);
                }
                assert(self@ =~= old(self)@.union(range_set(low as int, high as int)));
            }
        }
    }

    /// Adds the versions from `low` to `high`, none of which may be in
    /// the set yet. Nothing changes when the range is refused.
    pub fn insert_range(&mut self, low: Version, high: Version) -> (r: Result<(), ProtoverError>)
        requires
            old(self).wf(),
        ensures
            final(self).wf(),
            match inserted(old(self)@, low, high) {
                Ok(s) => r is Ok && final(self)@ == s,
                Err(e) => r == Err::<(), ProtoverError>(e) && final(self)@ == old(self)@
                    && final(self).ranges() == old(self).ranges(),
            },
    {
        if low > MAX_VERSION || high > MAX_VERSION {
            return Err(ProtoverError::ExceedsMax);
        }
        if low > high {
            return Err(ProtoverError::LowGreaterThanHigh);
        }
        if self.overlaps(low, high) {
            return Err(ProtoverError::Overlap);
        }
        let n = self.ranges.len();
        let mut out = ProtoSet::new();
        let mut i: usize = 0;
        while i < n && self.ranges[i].high < low
            invariant
                i <= n,
                n == self.ranges@.len(),
                self.wf(),
                out.wf(),
                low <= high <= MAX_VERSION,
                forall|k: int| 0 <= k < i ==> (#[trigger] self.ranges@[k]).high < low,
                forall|v: int| out@.contains(v) == ranges_cover(self.ranges@.take(i as int), v),
            decreases n - i,
        {
            let x = self.ranges[i];
            proof {
                assert(self.ranges@[i as int].wf());
                assert forall|v: int| out@.contains(v) implies v < x.low by {
                    let k = choose|k: int|
                        0 <= k < self.ranges@.take(i as int).len() && (
                        #[trigger] self.ranges@.take(i as int)[k]).covers(v);
                    assert(self.ranges@.take(i as int)[k] == self.ranges@[k]);
                    assert(self.ranges@[k].high + 1 < self.ranges@[i as int].low);
                }
                assert forall|v: int|
                    ranges_cover(self.ranges@.take(i + 1), v) == (ranges_cover(
                        self.ranges@.take(i as int),
                        v,
                    ) || x.covers(v)) by {
                    lemma_cover_take(self.ranges@, i as int, v);
                }
            }
            let ghost prev = out@;
            out.push_range(x.low, x.high);
            proof {
                assert forall|v: int|
                    out@.contains(v) == ranges_cover(self.ranges@.take(i + 1), v) by {
                    assert(range_set(x.low as int, x.high as int).contains(v) == x.covers(v));
                    assert(prev.contains(v) == ranges_cover(self.ranges@.take(i as int), v));
                    lemma_cover_take(self.ranges@, i as int, v);
                }
            }
            i = i + 1;
        }
        proof {
            assert forall|v: int| out@.contains(v) implies v < low by {
                let k = choose|k: int|
                    0 <= k < self.ranges@.take(i as int).len() && (#[trigger] self.ranges@.take(
                        i as int,
                    )[k]).covers(v);
                assert(self.ranges@.take(i as int)[k] == self.ranges@[k]);
                assert(self.ranges@[k].high < low);
            }
            assert forall|k: int| i <= k < n implies (#[trigger] self.ranges@[k]).low > high by {
                let x = self.ranges@[k];
                assert(x.wf());
                if k > i {
                    assert(self.ranges@[i as int].high + 1 < x.low);
                }
                assert(x.high >= low);
                if x.low <= high {
                    let v: int = if x.low > low {
                        x.low as int
                    } else {
                        low as int
                    };
                    assert(x.covers(v));
                    assert(self@.contains(v));
                }
            }
        }
        let ghost prev = out@;
        out.push_range(low, high);
        proof {
            assert forall|v: int| out@.contains(v) == (prev.contains(v) || low <= v <= high) by {
                assert(range_set(low as int, high as int).contains(v) == (low <= v <= high));
            }
        }
        while i < n
            invariant
                i <= n,
                n == self.ranges@.len(),
                self.wf(),
                out.wf(),
                low <= high <= MAX_VERSION,
                forall|k: int| i <= k < n ==> (#[trigger] self.ranges@[k]).low > high,
                forall|v: int|
                    out@.contains(v) == (ranges_cover(self.ranges@.take(i as int), v) || low <= v
                        <= high),
            decreases n - i,
        {
            let x = self.ranges[i];
            proof {
                assert(self.ranges@[i as int].wf());
                assert forall|v: int| out@.contains(v) implies v < x.low by {
                    if ranges_cover(self.ranges@.take(i as int), v) {
                        let k = choose|k: int|
                            0 <= k < self.ranges@.take(i as int).len() && (
                            #[trigger] self.ranges@.take(i as int)[k]).covers(v);
                        assert(self.ranges@.take(i as int)[k] == self.ranges@[k]);
                        assert(self.ranges@[k].high + 1 < self.ranges@[i as int].low);
                    }
                }
                assert forall|v: int|
                    ranges_cover(self.ranges@.take(i + 1), v) == (ranges_cover(
                        self.ranges@.take(i as int),
                        v,
                    ) || x.covers(v)) by {
                    lemma_cover_take(self.ranges@, i as int, v);
                }
            }
            let ghost prev = out@;
            out.push_range(x.low, x.high);
            proof {
                assert forall|v: int|
                    out@.contains(v) == (ranges_cover(self.ranges@.take(i + 1), v) || low <= v
                        <= high) by {
                    assert(range_set(x.low as int, x.high as int).contains(v) == x.covers(v));
                    assert(prev.contains(v) == (ranges_cover(self.ranges@.take(i as int), v) || low
                        <= v <= high));
                    lemma_cover_take(self.ranges@, i as int, v);
                }
            }
            i = i + 1;
        }
        proof {
            assert(self.ranges@.take(n as int) =~= self.ranges@);
            assert(out@ =~= old(self)@.union(range_set(low as int, high as int)));
        }
        *self = out;
        Ok(())
    }

    /// The set that holds the ranges of `pairs`, each given as its lowest
    /// and its highest version, in any order. The first pair that cannot be
    /// added decides the error.
    pub fn from_slice(pairs: &[(Version, Version)]) -> (r: Result<ProtoSet, ProtoverError>)
        ensures
            match set_of_pairs(pairs@) {
                Ok(s) => r is Ok && r->Ok_0.wf() && r->Ok_0@ == s,
                Err(e) => r is Err && r->Err_0 == e,
            },
    {
        let mut out = ProtoSet::new();
        let mut i: usize = 0;
        while i < pairs.len()
            invariant
                i <= pairs.len(),
                out.wf(),
                set_of_pairs(pairs@.take(i as int)) == Ok::<Set<int>, ProtoverError>(out@),
            decreases pairs.len() - i,
        {
            let (low, high) = pairs[i];
            proof {
                assert(pairs@.take(i + 1).drop_last() =~= pairs@.take(i as int));
                assert(pairs@.take(i + 1).last() == pairs@[i as int]);
            }
            match out.insert_range(low, high) {
                Ok(()) => {},
                Err(e) => {
                    proof {
                        lemma_set_of_pairs_fails(pairs@, i + 1);
                    }
                    return Err(e);
                },
            }
            i = i + 1;
        }
        assert(pairs@.take(pairs.len() as int) =~= pairs@);
        Ok(out)
    }

    /// The versions of this set that are not in `other`.
    pub fn difference(&self, other: &ProtoSet) -> (d: ProtoSet)
        requires
            self.wf(),
            other.wf(),
        ensures
            d.wf(),
            d@ == self@.difference(other@),
    {
        let mut out = ProtoSet::new();
        let mut from: Version = 0;
        while from <= MAX_VERSION
            invariant
                self.wf(),
                other.wf(),
                out.wf(),
                from <= MAX_VERSION + 1,
                forall|v: int|
                    out@.contains(v) == (v < from && self@.contains(v) && !other@.contains(v)),
            decreases MAX_VERSION + 1 - from,
        {
            let e1 = self.run_end(from);
            let e2 = other.run_end(from);
            let end = if e1 < e2 {
                e1
            } else {
                e2
            };
            if self.contains(from) && !other.contains(from) {
                out.push_range(from, end - 1);
            }
            from = end;
        }
        proof {
            assert forall|v: int| self@.contains(v) implies v <= MAX_VERSION by {
                lemma_ranges_bounded(self.ranges(), v);
            }
            assert(out@ =~= self@.difference(other@));
        }
        out
    }

    /// The set written as text: its ranges in ascending order with commas
    /// between them, a range of one version as that number, a longer one as
    /// its two bounds with a hyphen between.
    pub fn to_string(&self) -> (s: String)
        requires
            self.wf(),
        ensures
            s@ == set_text(self@),
    {
        let mut out: Vec<char> = Vec::new();
        self.write(&mut out);
        proof {
            lemma_canonical_ranges(self.ranges());
            assert(Seq::<char>::empty() + ranges_text(self.ranges()) =~= ranges_text(
                self.ranges(),
            ));
        }
        string_of(&out)
    }

    /// Appends the text of the set to `out`.
    pub fn write(&self, out: &mut Vec<char>)
        ensures
            final(out)@ == old(out)@ + ranges_text(self.ranges()),
    {
        let n = self.ranges.len();
        let mut i: usize = 0;
        assert(ranges_pieces(self.ranges@.take(0)) =~= Seq::<Seq<char>>::empty());
        assert(old(out)@ + Seq::<char>::empty() =~= old(out)@);
        while i < n
            invariant
                i <= n,
                n == self.ranges@.len(),
                out@ == old(out)@ + ranges_text(self.ranges@.take(i as int)),
            decreases n - i,
        {
            let ghost front = ranges_pieces(self.ranges@.take(i as int));
            let ghost next = ranges_pieces(self.ranges@.take(i + 1));
            let ghost start = out@;
            proof {
                assert(next.drop_last() =~= front);
                assert(next.last() == range_text(self.ranges@[i as int]));
            }
            if i > 0 {
                out.push(',');
            }
            write_range(out, self.ranges[i]);
            proof {
                if i == 0 {
                    assert(front =~= Seq::<Seq<char>>::empty());
                    assert(join(next, ',') == next[0]);
                } else {
                    assert(join(next, ',') == join(front, ',').push(',') + next.last());
                    assert(start.push(',') + next.last() =~= old(out)@ + (join(front, ',').push(
                        ',',
                    ) + next.last()));
                }
                assert(out@ =~= old(out)@ + ranges_text(self.ranges@.take(i + 1)));
            }
            i = i + 1;
        }
        assert(self.ranges@.take(n as int) =~= self.ranges@);
    }
}

/// What a set becomes when the range from `low` to `high` is added to it,
/// or why the range is refused: bounds above the limit first, bounds out of
/// order next, a version that the set already holds last.
pub open spec fn inserted(s: Set<int>, low: Version, high: Version) -> Result<
    Set<int>,
    ProtoverError,
> {
    match checked_range(low, high) {
        Err(e) => Err(e),
        Ok(_) => if exists|v: int| low <= v <= high && s.contains(v) {
            Err(ProtoverError::Overlap)
        } else {
            Ok(s.union(range_set(low as int, high as int)))
        },
    }
}

/// The set that the pairs build when they are added one after another.
pub open spec fn set_of_pairs(pairs: Seq<(Version, Version)>) -> Result<Set<int>, ProtoverError>
    decreases pairs.len(),
{
    if pairs.len() == 0 {
        Ok(Set::<int>::empty())
    } else {
        match set_of_pairs(pairs.drop_last()) {
            Err(e) => Err(e),
            Ok(s) => inserted(s, pairs.last().0, pairs.last().1),
        }
    }
}

/// Once a prefix of the pairs is refused, so is the whole.
pub proof fn lemma_set_of_pairs_fails(pairs: Seq<(Version, Version)>, k: int)
    requires
        0 <= k <= pairs.len(),
        set_of_pairs(pairs.take(k)) is Err,
    ensures
        set_of_pairs(pairs) == set_of_pairs(pairs.take(k)),
    decreases pairs.len(),
{
    if k == pairs.len() {
        assert(pairs.take(k) =~= pairs);
    } else {
        assert(pairs.drop_last().take(k) =~= pairs.take(k));
        lemma_set_of_pairs_fails(pairs.drop_last(), k);
    }
}

/// A range as text: one number, or two with a hyphen between.
pub open spec fn range_text(r: VersionRange) -> Seq<char> {
    if r.low == r.high {
        decimal(r.low as int)
    } else {
        decimal(r.low as int).push('-') + decimal(r.high as int)
    }
}

/// The texts of the ranges, in order.
pub open spec fn ranges_pieces(r: Seq<VersionRange>) -> Seq<Seq<char>> {
    Seq::new(r.len(), |i: int| range_text(r[i]))
}

/// The ranges as text, with commas between them.
pub open spec fn ranges_text(r: Seq<VersionRange>) -> Seq<char> {
    join(ranges_pieces(r), ',')
}

/// A set of versions as text, in the canonical form.
pub open spec fn set_text(s: Set<int>) -> Seq<char> {
    ranges_text(canonical_ranges(s))
}

/// Appends the text of `r` to `out`.
pub fn write_range(out: &mut Vec<char>, r: VersionRange)
    ensures
        final(out)@ == old(out)@ + range_text(r),
{
    push_decimal(out, r.low);
    if r.low != r.high {
        out.push('-');
        push_decimal(out, r.high);
        assert((old(out)@ + decimal(r.low as int)).push('-') + decimal(r.high as int) =~= old(
            out,
        )@ + range_text(r));
    }
}

} // verus!
