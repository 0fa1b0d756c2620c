//! Ranges and sets of ranges over source-buffer indices.

use vstd::prelude::*;
use vstd::set_lib::set_int_range;

verus! {

/// A contiguous, half-open byte range `start..end` within a source buffer.
#[derive(Clone, Copy, Debug, PartialEq, Eq, Hash, Structural)]
pub struct ByteRange {
    /// The first index of the range.
    pub start: usize,
    /// One past the last index of the range.
    pub end: usize,
}

impl ByteRange {
    /// The range is well formed: the start does not exceed the end.
    pub open spec fn wf(self) -> bool {
        self.start <= self.end
    }

    /// The set of indices the range covers.
    pub open spec fn to_set(self) -> Set<int> {
        set_int_range(self.start as int, self.end as int)
    }

    /// The number of indices the range covers.
    pub open spec fn spec_len(self) -> int {
        self.end - self.start
    }

    /// Creates a new range covering `start..end`.
    pub fn new(start: usize, end: usize) -> (r: ByteRange)
        requires
            start <= end,
        ensures
            r == (ByteRange { start, end }),
    {
        ByteRange { start, end }
    }

    /// Returns the number of indices in the range.
    pub fn len(&self) -> (r: usize)
        requires
            self.wf(),
        ensures
            r == self.spec_len(),
    {
        self.end - self.start
    }

    /// Returns `true` if the range covers no indices.
    pub fn is_empty(&self) -> (r: bool)
        ensures
            r == (self.spec_len() <= 0),
    {
        self.end <= self.start
    }
}

/// The set of indices covered by a sequence of ranges.
pub open spec fn ranges_to_set(rs: Seq<ByteRange>) -> Set<int>
    decreases rs.len(),
{
    if rs.len() == 0 {
        Set::empty()
    } else {
        ranges_to_set(rs.drop_last()).union(rs.last().to_set())
    }
}

/// The total number of indices covered by a sequence of ranges,
/// counted range by range.
pub open spec fn ranges_total_len(rs: Seq<ByteRange>) -> int
    decreases rs.len(),
{
    if rs.len() == 0 {
        0
    } else {
        ranges_total_len(rs.drop_last()) + rs.last().spec_len()
    }
}

/// A sequence of ranges is normalized: each range is non-empty, and the
/// ranges are sorted with a gap of at least one index between neighbours.
pub open spec fn ranges_wf(rs: Seq<ByteRange>) -> bool {
    &&& forall|i: int| 0 <= i < rs.len() ==> (#[trigger] rs[i]).start < rs[i].end
    &&& forall|i: int, j: int| 0 <= i < j < rs.len() ==> (#[trigger] rs[i]).end < (#[trigger] rs[j]).start
}

/// An index is in the set of a range sequence exactly when some range
/// of the sequence covers it.
pub proof fn lemma_to_set_contains(rs: Seq<ByteRange>, x: int)
    ensures
        ranges_to_set(rs).contains(x) <==> exists|i: int|
            0 <= i < rs.len() && (#[trigger] rs[i]).start <= x < rs[i].end,
    decreases rs.len(),
{
    if rs.len() > 0 {
        lemma_to_set_contains(rs.drop_last(), x);
        let n = rs.len() - 1;
        if ranges_to_set(rs).contains(x) {
            if ranges_to_set(rs.drop_last()).contains(x) {
                let i = choose|i: int|
                    0 <= i < rs.drop_last().len() && (#[trigger] rs.drop_last()[i]).start <= x
                        < rs.drop_last()[i].end;
                assert(rs[i].start <= x < rs[i].end);
            } else {
                assert(rs[n].start <= x < rs[n].end);
            }
        }
        if exists|i: int| 0 <= i < rs.len() && (#[trigger] rs[i]).start <= x < rs[i].end {
            let i = choose|i: int| 0 <= i < rs.len() && (#[trigger] rs[i]).start <= x < rs[i].end;
            if i < n {
                assert(rs.drop_last()[i].start <= x < rs.drop_last()[i].end);
            } else {
                assert(rs.last().to_set().contains(x));
            }
        }
    }
}

/// A prefix of a normalized range sequence is normalized.
pub proof fn lemma_wf_take(rs: Seq<ByteRange>, n: int)
    requires
        ranges_wf(rs),
        0 <= n <= rs.len(),
    ensures
        ranges_wf(rs.take(n)),
{
    assert forall|i: int| 0 <= i < n implies (#[trigger] rs.take(n)[i]).start < rs.take(
        n,
    )[i].end by {
        assert(rs.take(n)[i] == rs[i]);
    }
    assert forall|i: int, j: int| 0 <= i < j < n implies (#[trigger] rs.take(n)[i]).end < (
    #[trigger] rs.take(n)[j]).start by {
        assert(rs.take(n)[i] == rs[i] && rs.take(n)[j] == rs[j]);
    }
}

/// The set covered by a normalized range sequence is finite and its
/// cardinality is the sum of the lengths of the ranges.
pub proof fn lemma_to_set_card(rs: Seq<ByteRange>)
    requires
        ranges_wf(rs),
    ensures
        ranges_to_set(rs).finite(),
        ranges_to_set(rs).len() == ranges_total_len(rs),
    decreases rs.len(),
{
    if rs.len() == 0 {
    } else {
        let prefix = rs.drop_last();
        let last = rs.last();
        assert(ranges_wf(prefix)) by {
            assert(forall|i: int| 0 <= i < prefix.len() ==> prefix[i] == rs[i]);
        }
        lemma_to_set_card(prefix);
        vstd::set_lib::lemma_int_range(last.start as int, last.end as int);
        assert(ranges_to_set(prefix).disjoint(last.to_set())) by {
            assert forall|x: int| ranges_to_set(prefix).contains(x) implies !last.to_set()
                .contains(x) by {
                lemma_to_set_contains(prefix, x);
                let i = choose|i: int|
                    0 <= i < prefix.len() && (#[trigger] prefix[i]).start <= x < prefix[i].end;
                assert(rs[i].end < last.start);
            }
        }
        vstd::set_lib::lemma_set_disjoint_lens(ranges_to_set(prefix), last.to_set());
        assert(ranges_to_set(prefix) + last.to_set() =~= ranges_to_set(rs));
    }
}

/// Every index covered by a normalized range sequence lies between the
/// start of the first range and the end of the last.
pub proof fn lemma_to_set_bounds(rs: Seq<ByteRange>)
    requires
        ranges_wf(rs),
        rs.len() > 0,
    ensures
        forall|x: int| #[trigger]
            ranges_to_set(rs).contains(x) ==> rs[0].start <= x < rs[rs.len() - 1].end,
        ranges_to_set(rs).contains(rs[0].start as int),
        ranges_to_set(rs).contains(rs[rs.len() - 1].end - 1),
{
    assert forall|x: int| #[trigger] ranges_to_set(rs).contains(x) implies rs[0].start <= x < rs[rs.len()
        - 1].end by {
        lemma_to_set_contains(rs, x);
        let i = choose|i: int| 0 <= i < rs.len() && (#[trigger] rs[i]).start <= x < rs[i].end;
        if i > 0 {
            assert(rs[0].end < rs[i].start);
        }
        if i < rs.len() - 1 {
            assert(rs[i].end < rs[rs.len() - 1].start);
        }
    }
    lemma_to_set_contains(rs, rs[0].start as int);
    lemma_to_set_contains(rs, rs[rs.len() - 1].end - 1);
}

/// The total length of a normalized range sequence fits between its
/// first start and its last end.
pub proof fn lemma_total_len_bound(rs: Seq<ByteRange>)
    requires
        ranges_wf(rs),
    ensures
        0 <= ranges_total_len(rs),
        rs.len() > 0 ==> rs[0].start + ranges_total_len(rs) <= rs.last().end,
    decreases rs.len(),
{
    if rs.len() > 0 {
        let prefix = rs.drop_last();
        assert(ranges_wf(prefix)) by {
            assert(forall|i: int| 0 <= i < prefix.len() ==> prefix[i] == rs[i]);
        }
        lemma_total_len_bound(prefix);
        if prefix.len() > 0 {
            assert(prefix.last() == rs[rs.len() - 2]);
            assert(rs[rs.len() - 2].end < rs.last().start);
        }
    }
}

/// A sorted set of disjoint, non-empty, non-adjacent byte ranges,
/// representing a possibly non-contiguous set of source indices.
#[derive(Debug, PartialEq, Eq, Hash)]
pub struct RangeSet {
    /// The underlying sorted, disjoint ranges.
    pub ranges: Vec<ByteRange>,
}

impl View for RangeSet {
    type V = Seq<ByteRange>;

    open spec fn view(&self) -> Seq<ByteRange> {
        self.ranges@
    }
}

impl Clone for RangeSet {
    fn clone(&self) -> (r: Self)
        ensures
            r@ == self@,
    {
        let mut ranges: Vec<ByteRange> = Vec::new();
        let mut i: usize = 0;
        while i < self.ranges.len()
            invariant
                0 <= i <= self@.len(),
                ranges@ =~= self@.take(i as int),
            decreases self@.len() - i,
        {
            ranges.push(self.ranges[i]);
            i = i + 1;
        }
        proof {
            assert(ranges@ =~= self@);
        }
        RangeSet { ranges }
    }
}

impl RangeSet {
    /// The range set is well formed: normalized, sorted and disjoint.
    pub open spec fn wf(self) -> bool {
        ranges_wf(self@)
    }

    /// The set of indices covered by the range set.
    pub open spec fn to_set(self) -> Set<int> {
        ranges_to_set(self@)
    }

    /// Creates an empty range set.
    pub fn empty() -> (r: RangeSet)
        ensures
            r.wf(),
            r.to_set() =~= Set::<int>::empty(),
            r@.len() == 0,
    {
        RangeSet { ranges: Vec::new() }
    }

    /// Creates a range set covering the single range `range`.
    pub fn from_range(range: ByteRange) -> (r: RangeSet)
        requires
            range.wf(),
        ensures
            r.wf(),
            r.to_set() =~= range.to_set(),
            range.spec_len() > 0 ==> r@ =~= seq![range],
            range.spec_len() <= 0 ==> r@ =~= Seq::<ByteRange>::empty(),
            ranges_total_len(r@) == if range.spec_len() > 0 { range.spec_len() } else { 0int },
    {
        let mut ranges: Vec<ByteRange> = Vec::new();
        if range.start < range.end {
            ranges.push(range);
            proof {
                assert(ranges@.drop_last() =~= Seq::<ByteRange>::empty());
                assert(ranges@.last() == range);
                assert(ranges_to_set(Seq::<ByteRange>::empty()) =~= Set::<int>::empty());
                assert(ranges_to_set(ranges@) =~= range.to_set());
                assert(ranges_total_len(Seq::<ByteRange>::empty()) == 0);
                assert(ranges_total_len(ranges@) == range.spec_len());
            }
        } else {
            proof {
                assert(ranges_to_set(ranges@) =~= range.to_set());
            }
        }
        RangeSet { ranges }
    }

    /// Returns the number of indices in the set.
    pub fn len(&self) -> (r: usize)
        requires
            self.wf(),
        ensures
            r == self.to_set().len(),
            self.to_set().finite(),
    {
        let mut total: usize = 0;
        let mut i: usize = 0;
        proof {
            assert(self@.take(0) =~= Seq::<ByteRange>::empty());
        }
        while i < self.ranges.len()
            invariant
                self.wf(),
                0 <= i <= self@.len(),
                total == ranges_total_len(self@.take(i as int)),
            decreases self@.len() - i,
        {
            let r = self.ranges[i];
            proof {
                lemma_wf_take(self@, i + 1);
                assert(self@.take(i + 1).drop_last() =~= self@.take(i as int));
                assert(self@.take(i + 1).last() == r);
                lemma_total_len_bound(self@.take(i + 1));
            }
            total = total + (r.end - r.start);
            i = i + 1;
        }
        proof {
            assert(self@.take(self@.len() as int) =~= self@);
            lemma_to_set_card(self@);
        }
        total
    }

    /// Returns `true` if the set covers no indices.
    pub fn is_empty(&self) -> (r: bool)
        requires
            self.wf(),
        ensures
            r == self.to_set().is_empty(),
    {
        proof {
            if self@.len() > 0 {
                lemma_to_set_bounds(self@);
            } else {
                assert(self.to_set() =~= Set::<int>::empty());
            }
        }
        self.ranges.len() == 0
    }

    /// Returns the smallest index in the set, or `None` if the set is empty.
    pub fn min(&self) -> (r: Option<usize>)
        requires
            self.wf(),
        ensures
            match r {
                Some(m) => self.to_set().contains(m as int) && forall|x: int|
                    self.to_set().contains(x) ==> m <= x,
                None => self.to_set().is_empty(),
            },
    {
        proof {
            if self@.len() > 0 {
                lemma_to_set_bounds(self@);
            } else {
                assert(self.to_set() =~= Set::<int>::empty());
            }
        }
        if self.ranges.len() == 0 {
            None
        } else {
            Some(self.ranges[0].start)
        }
    }

    /// Returns the largest index in the set, or `None` if the set is empty.
    pub fn max(&self) -> (r: Option<usize>)
        requires
            self.wf(),
        ensures
            match r {
                Some(m) => self.to_set().contains(m as int) && forall|x: int|
                    self.to_set().contains(x) ==> x <= m,
                None => self.to_set().is_empty(),
            },
    {
        proof {
            if self@.len() > 0 {
                lemma_to_set_bounds(self@);
            } else {
                assert(self.to_set() =~= Set::<int>::empty());
            }
        }
        if self.ranges.len() == 0 {
            None
        } else {
            Some(self.ranges[self.ranges.len() - 1].end - 1)
        }
    }

    /// Shifts every index in the set right by `offset`.
    pub fn shift_right(&mut self, offset: usize)
        requires
            old(self).wf(),
            old(self)@.len() > 0 ==> old(self)@.last().end + offset <= usize::MAX,
        ensures
            final(self).wf(),
            forall|x: int| #[trigger]
                final(self).to_set().contains(x) <==> old(self).to_set().contains(x - offset),
            final(self)@.len() == old(self)@.len(),
            forall|j: int| 0 <= j < old(self)@.len() ==> (#[trigger] final(self)@[j])
                == (ByteRange {
                start: (old(self)@[j].start + offset) as usize,
                end: (old(self)@[j].end + offset) as usize,
            }),
    {
        let ghost orig = self@;
        let mut shifted: Vec<ByteRange> = Vec::new();
        let mut i: usize = 0;
        while i < self.ranges.len()
            invariant
                self@ == orig,
                ranges_wf(orig),
                orig.len() > 0 ==> orig.last().end + offset <= usize::MAX,
                0 <= i <= orig.len(),
                shifted@.len() == i,
                forall|j: int| 0 <= j < i ==> (#[trigger] shifted@[j]) == (ByteRange {
                    start: (orig[j].start + offset) as usize,
                    end: (orig[j].end + offset) as usize,
                }),
            decreases orig.len() - i,
        {
            let r = self.ranges[i];
            proof {
                if i + 1 < orig.len() {
                    assert(orig[i as int].end < orig[orig.len() - 1].start);
                    assert(orig[orig.len() - 1].start < orig.last().end);
                }
            }
            shifted.push(ByteRange { start: r.start + offset, end: r.end + offset });
            i = i + 1;
        }
        proof {
            assert(ranges_wf(shifted@)) by {
                assert forall|a: int, b: int| 0 <= a < b < shifted@.len() implies (
                #[trigger] shifted@[a]).end < (#[trigger] shifted@[b]).start by {
                    assert(orig[a].end < orig[b].start);
                }
            }
        }
        self.ranges = shifted;
        proof {
            assert forall|x: int| #[trigger]
                self.to_set().contains(x) <==> ranges_to_set(orig).contains(x - offset) by {
                lemma_to_set_contains(self@, x);
                lemma_to_set_contains(orig, x - offset);
                if self.to_set().contains(x) {
                    let i = choose|i: int|
                        0 <= i < self@.len() && (#[trigger] self@[i]).start <= x < self@[i].end;
                    assert(orig[i].start <= x - offset < orig[i].end);
                }
                if ranges_to_set(orig).contains(x - offset) {
                    let i = choose|i: int|
                        0 <= i < orig.len() && (#[trigger] orig[i]).start <= x - offset
                            < orig[i].end;
                    assert(self@[i].start <= x < self@[i].end);
                }
            }
        }
    }

    /// Removes the indices of a single range from the set.
    fn subtract_range(&self, o: ByteRange) -> (r: RangeSet)
        requires
            self.wf(),
        ensures
            r.wf(),
            r.to_set() =~= self.to_set().difference(o.to_set()),
    {
        if o.end <= o.start {
            let r = self.clone();
            proof {
                assert(r.to_set() =~= self.to_set().difference(o.to_set()));
            }
            return r;
        }
        let mut out: Vec<ByteRange> = Vec::new();
        let mut i: usize = 0;
        proof {
            assert(self@.take(0) =~= Seq::<ByteRange>::empty());
            assert(ranges_to_set(out@) =~= ranges_to_set(self@.take(0)).difference(o.to_set()));
        }
        while i < self.ranges.len()
            invariant
                self.wf(),
                o.start < o.end,
                0 <= i <= self@.len(),
                ranges_wf(out@),
                ranges_to_set(out@) =~= ranges_to_set(self@.take(i as int)).difference(o.to_set()),
                forall|j: int| 0 <= j < out@.len() ==> (#[trigger] out@[j]).end <= self@[i - 1].end,
                i == 0 ==> out@.len() == 0,
            decreases self@.len() - i,
        {
            let r = self.ranges[i];
            let ghost out0 = out@;
            let ghost pre = self@.take(i as int);
            proof {
                assert(self@.take(i + 1).drop_last() =~= pre);
                assert(self@.take(i + 1).last() == r);
                if i > 0 {
                    assert(self@[i - 1].end < self@[i as int].start);
                }
            }
            if o.end <= r.start || r.end <= o.start {
                out.push(r);
                proof {
                    assert(out@.drop_last() =~= out0);
                    assert(ranges_to_set(out@) =~= ranges_to_set(self@.take(i + 1)).difference(
                        o.to_set(),
                    ));
                }
            } else {
                if r.start < o.start {
                    let piece = ByteRange { start: r.start, end: o.start };
                    out.push(piece);
                    proof {
                        assert(out@.drop_last() =~= out0);
                        assert(out@.last() == piece);
                        assert(ranges_to_set(out@) == ranges_to_set(out0).union(piece.to_set()));
                    }
                }
                let ghost out1 = out@;
                if o.end < r.end {
                    let piece = ByteRange { start: o.end, end: r.end };
                    out.push(piece);
                    proof {
                        assert(out@.drop_last() =~= out1);
                        assert(out@.last() == piece);
                        assert(ranges_to_set(out@) == ranges_to_set(out1).union(piece.to_set()));
                    }
                }
                proof {
                    assert(ranges_to_set(out@) =~= ranges_to_set(self@.take(i + 1)).difference(
                        o.to_set(),
                    ));
                }
            }
            i = i + 1;
        }
        proof {
            assert(self@.take(self@.len() as int) =~= self@);
        }
        RangeSet { ranges: out }
    }

    /// Returns a new set covering the indices of `self` that are not
    /// indices of `other`.
    pub fn difference(&self, other: &RangeSet) -> (r: RangeSet)
        requires
            self.wf(),
            other.wf(),
        ensures
            r.wf(),
            r.to_set() =~= self.to_set().difference(other.to_set()),
    {
        let mut acc = self.clone();
        let mut i: usize = 0;
        proof {
            assert(other@.take(0) =~= Seq::<ByteRange>::empty());
            assert(acc.to_set() =~= self.to_set().difference(ranges_to_set(other@.take(0))));
        }
        while i < other.ranges.len()
            invariant
                self.wf(),
                other.wf(),
                0 <= i <= other@.len(),
                acc.wf(),
                acc.to_set() =~= self.to_set().difference(ranges_to_set(other@.take(i as int))),
            decreases other@.len() - i,
        {
            let o = other.ranges[i];
            let next = acc.subtract_range(o);
            proof {
                assert(other@.take(i + 1).drop_last() =~= other@.take(i as int));
                assert(other@.take(i + 1).last() == o);
                assert(next.to_set() =~= self.to_set().difference(
                    ranges_to_set(other@.take(i + 1)),
                ));
            }
            acc = next;
            i = i + 1;
        }
        proof {
            assert(other@.take(other@.len() as int) =~= other@);
        }
        acc
    }

    /// Returns a new set covering the indices of `self` together with
    /// the indices of `other`.
    pub fn union(&self, other: &RangeSet) -> (r: RangeSet)
        requires
            self.wf(),
            other.wf(),
        ensures
            r.wf(),
            r.to_set() =~= self.to_set().union(other.to_set()),
    {
        let d = self.difference(other);
        proof {
            assert(d.to_set().disjoint(other.to_set()));
        }
        let mut out: Vec<ByteRange> = Vec::new();
        let mut i: usize = 0;
        let mut j: usize = 0;
        proof {
            assert(d@.take(0) =~= Seq::<ByteRange>::empty());
            assert(other@.take(0) =~= Seq::<ByteRange>::empty());
        }
        while i < d.ranges.len() || j < other.ranges.len()
            invariant
                d.wf(),
                other.wf(),
                d.to_set().disjoint(other.to_set()),
                0 <= i <= d@.len(),
                0 <= j <= other@.len(),
                ranges_wf(out@),
                ranges_to_set(out@) =~= ranges_to_set(d@.take(i as int)).union(
                    ranges_to_set(other@.take(j as int)),
                ),
                out@.len() > 0 && i < d@.len() ==> out@.last().end <= d@[i as int].start,
                out@.len() > 0 && j < other@.len() ==> out@.last().end <= other@[j as int].start,
            decreases d@.len() - i + other@.len() - j,
        {
            let take_d = if j >= other.ranges.len() {
                true
            } else if i >= d.ranges.len() {
                false
            } else {
                d.ranges[i].start <= other.ranges[j].start
            };
            let next = if take_d {
                d.ranges[i]
            } else {
                other.ranges[j]
            };
            proof {
                // The chosen range does not overlap the other list's next range,
                // because the two sets are disjoint.
                if take_d && i < d@.len() && j < other@.len() {
                    if d@[i as int].end > other@[j as int].start {
                        lemma_to_set_contains(d@, other@[j as int].start as int);
                        lemma_to_set_contains(other@, other@[j as int].start as int);
                        assert(d.to_set().contains(other@[j as int].start as int));
                        assert(other.to_set().contains(other@[j as int].start as int));
                        assert(false);
                    }
                }
                if !take_d && i < d@.len() {
                    if other@[j as int].end > d@[i as int].start {
                        lemma_to_set_contains(d@, d@[i as int].start as int);
                        lemma_to_set_contains(other@, d@[i as int].start as int);
                        assert(false);
                    }
                }
            }
            let ghost out0 = out@;
            if out.len() > 0 && out[out.len() - 1].end == next.start {
                let last = out[out.len() - 1];
                let merged = ByteRange { start: last.start, end: next.end };
                let _ = out.pop();
                out.push(merged);
                proof {
                    assert(out@.drop_last() =~= out0.drop_last());
                    assert(out@.last() == merged);
                    assert(ranges_to_set(out@) == ranges_to_set(out0.drop_last()).union(
                        merged.to_set(),
                    ));
                    assert(ranges_to_set(out0) == ranges_to_set(out0.drop_last()).union(
                        last.to_set(),
                    ));
                    assert(merged.to_set() =~= last.to_set().union(next.to_set()));
                    assert(ranges_to_set(out@) =~= ranges_to_set(out0).union(next.to_set()));
                }
            } else {
                out.push(next);
                proof {
                    assert(out@.drop_last() =~= out0);
                    assert(out@.last() == next);
                    assert(ranges_to_set(out@) == ranges_to_set(out0).union(next.to_set()));
                }
            }
            if take_d {
                proof {
                    assert(d@.take(i + 1).drop_last() =~= d@.take(i as int));
                    assert(d@.take(i + 1).last() == next);
                    assert(ranges_to_set(d@.take(i + 1)) == ranges_to_set(d@.take(i as int)).union(
                        next.to_set(),
                    ));
                }
                i = i + 1;
            } else {
                proof {
                    assert(other@.take(j + 1).drop_last() =~= other@.take(j as int));
                    assert(other@.take(j + 1).last() == next);
                    assert(ranges_to_set(other@.take(j + 1)) == ranges_to_set(
                        other@.take(j as int),
                    ).union(next.to_set()));
                }
                j = j + 1;
            }
        }
        proof {
            assert(d@.take(d@.len() as int) =~= d@);
            assert(other@.take(other@.len() as int) =~= other@);
            assert(ranges_to_set(out@) =~= d.to_set().union(other.to_set()));
            assert(d.to_set().union(other.to_set()) =~= self.to_set().union(other.to_set()));
        }
        RangeSet { ranges: out }
    }
}

/// Shifting every range of a sequence by a fixed offset keeps the total
/// number of covered indices.
pub proof fn lemma_shift_total_len(a: Seq<ByteRange>, b: Seq<ByteRange>, offset: int)
    requires
        a.len() == b.len(),
        forall|j: int| 0 <= j < a.len() ==> (#[trigger] b[j]).start == a[j].start + offset && b[j].end
            == a[j].end + offset,
    ensures
        ranges_total_len(b) == ranges_total_len(a),
    decreases a.len(),
{
    if a.len() > 0 {
        assert(forall|j: int| 0 <= j < a.drop_last().len() ==> a.drop_last()[j] == a[j]);
        assert(forall|j: int| 0 <= j < b.drop_last().len() ==> b.drop_last()[j] == b[j]);
        lemma_shift_total_len(a.drop_last(), b.drop_last(), offset);
    }
}

/// The indices of a range, in ascending order.
pub open spec fn range_idx_seq(r: ByteRange) -> Seq<usize> {
    Seq::new((r.end - r.start) as nat, |k: int| (r.start + k) as usize)
}

/// The indices of a sequence of ranges, range by range.
pub open spec fn ranges_idx_seq(rs: Seq<ByteRange>) -> Seq<usize>
    decreases rs.len(),
{
    if rs.len() == 0 {
        Seq::empty()
    } else {
        ranges_idx_seq(rs.drop_last()) + range_idx_seq(rs.last())
    }
}

/// A range within the source bytes.
///
/// This can be either a contiguous range or a range set.
#[derive(Debug, PartialEq, Eq, Hash)]
pub enum SourceRange {
    /// A contiguous range.
    Range(ByteRange),
    /// A set of ranges.
    RangeSet(RangeSet),
}

impl Clone for SourceRange {
    fn clone(&self) -> (r: Self)
        ensures
            r.to_set() == self.to_set(),
            r.wf() == self.wf(),
            r is Range == self is Range,
    {
        match self {
            SourceRange::Range(range) => SourceRange::Range(*range),
            SourceRange::RangeSet(set) => SourceRange::RangeSet(set.clone()),
        }
    }
}

impl SourceRange {
    /// The source range is well formed.
    pub open spec fn wf(self) -> bool {
        match self {
            SourceRange::Range(range) => range.wf(),
            SourceRange::RangeSet(set) => set.wf(),
        }
    }

    /// The set of indices the source range covers.
    pub open spec fn to_set(self) -> Set<int> {
        match self {
            SourceRange::Range(range) => range.to_set(),
            SourceRange::RangeSet(set) => set.to_set(),
        }
    }

    /// The ranges making up the source range, sorted and disjoint.
    pub open spec fn spec_ranges(self) -> Seq<ByteRange> {
        match self {
            SourceRange::Range(range) => if range.spec_len() > 0 {
                seq![range]
            } else {
                Seq::empty()
            },
            SourceRange::RangeSet(set) => set@,
        }
    }

    /// Returns an iterator over the indices of the range.
    pub fn iter(&self) -> (r: SourceRangeIter)
        requires
            self.wf(),
        ensures
            r.wf(),
            r.remaining() == ranges_idx_seq(self.spec_ranges()),
    {
        let ranges = self.to_ranges_vec();
        let mut items: Vec<usize> = Vec::new();
        let mut i: usize = 0;
        proof {
            assert(ranges@.take(0) =~= Seq::<ByteRange>::empty());
            assert(items@ =~= ranges_idx_seq(ranges@.take(0)));
        }
        while i < ranges.len()
            invariant
                ranges_wf(ranges@),
                0 <= i <= ranges@.len(),
                items@ =~= ranges_idx_seq(ranges@.take(i as int)),
            decreases ranges@.len() - i,
        {
            let r = ranges[i];
            let ghost items0 = items@;
            let mut k: usize = r.start;
            proof {
                assert(items@ =~= items0 + range_idx_seq(r).take(0));
            }
            while k < r.end
                invariant
                    r.start <= k <= r.end,
                    items@ =~= items0 + range_idx_seq(r).take(k - r.start),
                decreases r.end - k,
            {
                items.push(k);
                proof {
                    assert(items@ =~= items0 + range_idx_seq(r).take(k + 1 - r.start));
                }
                k = k + 1;
            }
            proof {
                assert(range_idx_seq(r).take(r.end - r.start) =~= range_idx_seq(r));
                assert(ranges@.take(i + 1).drop_last() =~= ranges@.take(i as int));
                assert(ranges@.take(i + 1).last() == r);
            }
            i = i + 1;
        }
        proof {
            assert(ranges@.take(ranges@.len() as int) =~= ranges@);
        }
        SourceRangeIter { items, pos: 0 }
    }

    /// Returns an iterator over the ranges of the range.
    pub fn iter_ranges(&self) -> (r: SourceRangesIter)
        requires
            self.wf(),
        ensures
            r.wf(),
            r.remaining() == self.spec_ranges(),
    {
        SourceRangesIter { items: self.to_ranges_vec(), pos: 0 }
    }

    /// Copies the underlying sorted, disjoint ranges into a vector.
    fn to_ranges_vec(&self) -> (r: Vec<ByteRange>)
        requires
            self.wf(),
        ensures
            r@ == self.spec_ranges(),
            ranges_wf(r@),
    {
        match self {
            SourceRange::Range(range) => {
                let mut v: Vec<ByteRange> = Vec::new();
                if range.start < range.end {
                    v.push(*range);
                }
                proof {
                    assert(v@ =~= self.spec_ranges());
                }
                v
            },
            SourceRange::RangeSet(set) => {
                let c = set.clone();
                c.ranges
            },
        }
    }

    /// Returns the number of bytes in the range.
    pub fn len(&self) -> (r: usize)
        requires
            self.wf(),
        ensures
            r == self.to_set().len(),
            self.to_set().finite(),
    {
        match self {
            SourceRange::Range(range) => {
                proof {
                    vstd::set_lib::lemma_int_range(range.start as int, range.end as int);
                }
                range.len()
            },
            SourceRange::RangeSet(set) => set.len(),
        }
    }

    /// Returns `true` if the range is empty.
    pub fn is_empty(&self) -> (r: bool)
        requires
            self.wf(),
        ensures
            r == self.to_set().is_empty(),
    {
        match self {
            SourceRange::Range(range) => {
                proof {
                    if range.spec_len() > 0 {
                        assert(range.to_set().contains(range.start as int));
                    } else {
                        assert(range.to_set() =~= Set::<int>::empty());
                    }
                }
                range.is_empty()
            },
            SourceRange::RangeSet(set) => set.is_empty(),
        }
    }

    /// Converts the source range into an explicit range set.
    pub fn into_range_set(self) -> (r: RangeSet)
        requires
            self.wf(),
        ensures
            r.wf(),
            r.to_set() =~= self.to_set(),
    {
        match self {
            SourceRange::Range(range) => RangeSet::from_range(range),
            SourceRange::RangeSet(set) => set,
        }
    }

    /// Returns `true` if the source range is the contiguous range
    /// `start..end`.
    ///
    /// A range set never equals a single range, whatever indices it
    /// covers.
    pub fn is_range(&self, start: usize, end: usize) -> (r: bool)
        ensures
            r == match self {
                SourceRange::Range(range) => range == (ByteRange { start, end }),
                SourceRange::RangeSet(_) => false,
            },
    {
        match self {
            SourceRange::Range(range) => range.start == start && range.end == end,
            SourceRange::RangeSet(_) => false,
        }
    }

    /// Shifts the range right by the given offset.
    pub fn offset(&mut self, offset: usize)
        requires
            old(self).wf(),
            forall|x: int| #[trigger] old(self).to_set().contains(x) ==> x + offset < usize::MAX,
        ensures
            final(self).wf(),
            forall|x: int| #[trigger]
                final(self).to_set().contains(x) <==> old(self).to_set().contains(x - offset),
    {
        let new_val = match &*self {
            SourceRange::Range(range) => {
                proof {
                    assert(old(self).to_set() == range.to_set());
                    if range.spec_len() > 0 {
                        assert(range.to_set().contains(range.end - 1));
                        assert(range.end - 1 + offset < usize::MAX);
                    }
                }
                if range.start < range.end {
                    SourceRange::Range(
                        ByteRange { start: range.start + offset, end: range.end + offset },
                    )
                } else {
                    SourceRange::Range(ByteRange { start: 0, end: 0 })
                }
            },
            SourceRange::RangeSet(set) => {
                proof {
                    assert(old(self).to_set() == set.to_set());
                    if set@.len() > 0 {
                        lemma_to_set_bounds(set@);
                        assert(set.to_set().contains(set@[set@.len() - 1].end - 1));
                        assert(set@[set@.len() - 1].end - 1 + offset < usize::MAX);
                    }
                }
                let mut shifted = set.clone();
                shifted.shift_right(offset);
                SourceRange::RangeSet(shifted)
            },
        };
        *self = new_val;
    }
}

/// An iterator over the indices of a source range, in ascending order.
#[derive(Debug)]
pub struct SourceRangeIter {
    /// The indices still to be yielded, in order.
    pub items: Vec<usize>,
    /// The position of the next index to yield.
    pub pos: usize,
}

impl SourceRangeIter {
    /// The iterator position has not run past the items.
    pub open spec fn wf(self) -> bool {
        self.pos <= self.items@.len()
    }

    /// The indices still to be yielded.
    pub open spec fn remaining(self) -> Seq<usize> {
        self.items@.skip(self.pos as int)
    }

    /// Returns the next index, or `None` if the iterator is exhausted.
    pub fn next(&mut self) -> (r: Option<usize>)
        requires
            old(self).wf(),
        ensures
            final(self).wf(),
            match r {
                Some(x) => old(self).remaining().len() > 0 && x == old(self).remaining()[0]
                    && final(self).remaining() == old(self).remaining().drop_first(),
                None => old(self).remaining().len() == 0 && final(self).remaining()
                    == old(self).remaining(),
            },
    {
        if self.pos < self.items.len() {
            let x = self.items[self.pos];
            self.pos = self.pos + 1;
            proof {
                assert(final(self).remaining() =~= old(self).remaining().drop_first());
            }
            Some(x)
        } else {
            None
        }
    }
}

/// An iterator over the ranges of a source range, in ascending order.
#[derive(Debug)]
pub struct SourceRangesIter {
    /// The ranges still to be yielded, in order.
    pub items: Vec<ByteRange>,
    /// The position of the next range to yield.
    pub pos: usize,
}

impl SourceRangesIter {
    /// The iterator position has not run past the items.
    pub open spec fn wf(self) -> bool {
        self.pos <= self.items@.len()
    }

    /// The ranges still to be yielded.
    pub open spec fn remaining(self) -> Seq<ByteRange> {
        self.items@.skip(self.pos as int)
    }

    /// Returns the next range, or `None` if the iterator is exhausted.
    pub fn next(&mut self) -> (r: Option<ByteRange>)
        requires
            old(self).wf(),
        ensures
            final(self).wf(),
            match r {
                Some(x) => old(self).remaining().len() > 0 && x == old(self).remaining()[0]
                    && final(self).remaining() == old(self).remaining().drop_first(),
                None => old(self).remaining().len() == 0 && final(self).remaining()
                    == old(self).remaining(),
            },
    {
        if self.pos < self.items.len() {
            let x = self.items[self.pos];
            self.pos = self.pos + 1;
            proof {
                assert(final(self).remaining() =~= old(self).remaining().drop_first());
            }
            Some(x)
        } else {
            None
        }
    }
}

} // verus!
