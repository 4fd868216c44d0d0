//! Temporal data of a single octree node.

use crate::gps_time::GpsTime;
use crate::types::VoxelKey;
use std::ops::Range;
use vstd::prelude::*;

verus! {

/// Whether exactly the first `n` samples are earlier than `t`.
pub open spec fn parts_before(samples: Seq<GpsTime>, t: GpsTime, n: int) -> bool {
    &&& 0 <= n <= samples.len()
    &&& forall|k: int| 0 <= k < samples.len() ==> ((#[trigger] samples[k]).below(t) <==> k < n)
}

/// Whether exactly the first `n` samples are not later than `t`.
pub open spec fn parts_through(samples: Seq<GpsTime>, t: GpsTime, n: int) -> bool {
    &&& 0 <= n <= samples.len()
    &&& forall|k: int| 0 <= k < samples.len() ==> ((#[trigger] samples[k]).at_most(t) <==> k < n)
}

/// Whether the times are in non-decreasing order.
pub open spec fn in_order(times: Seq<GpsTime>) -> bool {
    forall|i: int, j: int|
        #![trigger times[i], times[j]]
        0 <= i <= j < times.len() ==> times[i].at_most(times[j])
}

/// Whether a node with these samples may hold points in the window: its last sample is not before
/// the window and its first sample not after it.
pub open spec fn may_hold(samples: Seq<GpsTime>, start: GpsTime, end: GpsTime) -> bool {
    start.at_most(samples.last()) && samples[0].at_most(end)
}

/// The smaller of two numbers.
pub open spec fn min(a: int, b: int) -> int {
    if a <= b {
        a
    } else {
        b
    }
}

/// The point indices, from the first to before the second, that samples `i` up to before `e`
/// stand for, where every `stride`-th of `count` points is sampled.
pub open spec fn point_range(i: int, e: int, stride: int, count: int) -> (int, int) {
    if count == 0 || i >= e {
        (0, 0)
    } else {
        (min(i * stride, count), min(e * stride, count))
    }
}

/// Whether `range` is the range of points that the samples in the window `[start, end]` stand for.
/// Nothing but its bounds is said of a range where the samples before the window, or those not
/// after it, are not the first ones; in a node whose samples are in order they are.
pub open spec fn estimated(
    samples: Seq<GpsTime>,
    start: GpsTime,
    end: GpsTime,
    stride: u32,
    point_count: u32,
    range: Range<u32>,
) -> bool {
    &&& range.start <= range.end <= point_count
    &&& forall|i: int, e: int| #[trigger]
        parts_before(samples, start, i) && #[trigger] parts_through(samples, end, e) ==> (
        range.start as int,
        range.end as int,
    ) == point_range(i, e, stride as int, point_count as int)
}

/// The point indices, from the first to before the second, of the points that may lie in the
/// window, where samples `i` up to before `e` do: a point before sample `i` may lie in it too, if
/// it comes behind the sample before.
pub open spec fn covering_range(i: int, e: int, stride: int, count: int) -> (int, int) {
    if i > e {
        (0, 0)
    } else {
        let before = if i > 0 {
            i - 1
        } else {
            0
        };
        (min(before * stride, count), min(e * stride, count))
    }
}

/// Whether `range` is the range of the points that may lie in the window `[start, end]`. Nothing
/// but its bounds is said of a range where the samples before the window, or those not after it,
/// are not the first ones; in a node whose samples are in order they are.
pub open spec fn covering(
    samples: Seq<GpsTime>,
    start: GpsTime,
    end: GpsTime,
    stride: u32,
    point_count: u32,
    range: Range<u32>,
) -> bool {
    &&& range.start <= range.end <= point_count
    &&& forall|i: int, e: int| #[trigger]
        parts_before(samples, start, i) && #[trigger] parts_through(samples, end, e) ==> (
        range.start as int,
        range.end as int,
    ) == covering_range(i, e, stride as int, point_count as int)
}

/// Per-node temporal data: a set of sampled GPS timestamps.
#[derive(Debug)]
pub struct NodeTemporalEntry {
    key: VoxelKey,
    samples: Vec<GpsTime>,
}

impl NodeTemporalEntry {
    /// Every node has at least one sample.
    #[verifier::type_invariant]
    spec fn sampled(self) -> bool {
        self.samples@.len() >= 1
    }

    /// The octree node this entry describes.
    pub closed spec fn node(self) -> VoxelKey {
        self.key
    }

    /// The sampled times.
    pub closed spec fn times(self) -> Seq<GpsTime> {
        self.samples@
    }

    /// Create a new entry with the given key and samples.
    ///
    /// Every node must have at least one sample.
    pub fn new(key: VoxelKey, samples: Vec<GpsTime>) -> (r: NodeTemporalEntry)
        requires
            samples@.len() >= 1,
        ensures
            r.node() == key,
            r.times() == samples@,
    {
        NodeTemporalEntry { key, samples }
    }

    /// The octree node this entry describes.
    pub fn key(&self) -> (r: VoxelKey)
        ensures
            r == self.node(),
    {
        self.key
    }

    /// The sampled GPS time values for this node; there is at least one.
    pub fn samples(&self) -> (r: &[GpsTime])
        ensures
            r@ == self.times(),
            r@.len() >= 1,
    {
        proof {
            use_type_invariant(self);
        }
        self.samples.as_slice()
    }

    /// Returns (min_time, max_time) for this node.
    pub fn time_range(&self) -> (r: (GpsTime, GpsTime))
        ensures
            r.0 == self.times()[0],
            r.1 == self.times().last(),
    {
        proof {
            use_type_invariant(self);
        }
        (self.samples[0], self.samples[self.samples.len() - 1])
    }

    /// Returns true if this node may contain points in [start, end].
    pub fn overlaps(&self, start: GpsTime, end: GpsTime) -> (r: bool)
        ensures
            r == may_hold(self.times(), start, end),
    {
        let (min, max) = self.time_range();
        start.0.le(&max.0) && min.0.le(&end.0)
    }

    /// Estimate the point index range within the decompressed chunk for a time range.
    ///
    /// 1. Find the first sample index `i` where `samples[i] >= start`.
    /// 2. Find the last sample index `j` where `samples[j] <= end`.
    /// 3. Start point = `i * stride`.
    /// 4. End point = `min(j * stride + stride - 1, point_count - 1)`.
    ///
    /// Where no sample is in the window, the range is empty. Both indices are found by binary
    /// search, which means something only where the samples that it looks for come before the
    /// others, as they do in a node whose samples are in order.
    pub fn estimate_point_range(
        &self,
        start: GpsTime,
        end: GpsTime,
        stride: u32,
        point_count: u32,
    ) -> (r: Range<u32>)
        requires
            stride >= 1 || point_count == 0 || exists|i: int, e: int|
                i >= e && #[trigger] parts_before(self.times(), start, i)
                    && #[trigger] parts_through(self.times(), end, e),
        ensures
            estimated(self.times(), start, end, stride, point_count, r),
    {
        if point_count == 0 {
            return 0..0;
        }
        // First index i where samples[i] >= start
        let i: usize = count_before(&self.samples, start);
        // First index where samples[past_end] > end
        let past_end: usize = count_through(&self.samples, end);
        if i >= past_end {
            // No samples in range
            return 0..0;
        }
        let j: usize = past_end - 1;

        proof {
            assert(i * stride <= usize::MAX * u32::MAX) by (nonlinear_arith)
                requires
                    i <= usize::MAX,
                    stride <= u32::MAX,
            ;
            assert(j * stride + stride == past_end * stride) by (nonlinear_arith)
                requires
                    j + 1 == past_end,
            ;
            assert(past_end * stride <= usize::MAX * u32::MAX) by (nonlinear_arith)
                requires
                    past_end <= usize::MAX,
                    stride <= u32::MAX,
            ;
            assert(i * stride < past_end * stride) by (nonlinear_arith)
                requires
                    i < past_end,
                    stride >= 1,
            ;
        }
        let first: u128 = i as u128 * stride as u128;
        let last: u128 = j as u128 * stride as u128 + stride as u128 - 1;
        let start_point: u32 = if first < point_count as u128 {
            first as u32
        } else {
            point_count
        };
        let end_point: u32 = if last < point_count as u128 - 1 {
            last as u32
        } else {
            point_count - 1
        };
        start_point..(end_point + 1)
    }

    /// The point index range within the decompressed chunk outside of which no point lies in a
    /// time range.
    ///
    /// It begins at the sample before the first that is not earlier than `start`, since the points
    /// between the two may lie in the time range, and ends before the first sample later than
    /// `end`. Like [`estimate_point_range`](Self::estimate_point_range), which it encloses, it
    /// means something only where the samples are in order.
    pub fn candidate_point_range(
        &self,
        start: GpsTime,
        end: GpsTime,
        stride: u32,
        point_count: u32,
    ) -> (r: Range<u32>)
        ensures
            covering(self.times(), start, end, stride, point_count, r),
    {
        let i: usize = count_before(&self.samples, start);
        let past_end: usize = count_through(&self.samples, end);
        if i > past_end {
            return 0..0;
        }
        let before: usize = if i > 0 {
            i - 1
        } else {
            0
        };
        proof {
            assert(before * stride <= past_end * stride <= usize::MAX * u32::MAX)
                by (nonlinear_arith)
                requires
                    before <= past_end <= usize::MAX,
                    stride <= u32::MAX,
            ;
        }
        first_points(before, stride, point_count)..first_points(past_end, stride, point_count)
    }
}

/// How many points come before sample `k`, of as many as there are.
fn first_points(k: usize, stride: u32, point_count: u32) -> (r: u32)
    ensures
        r == min(k * stride, point_count as int),
{
    proof {
        assert(k * stride <= usize::MAX * u32::MAX) by (nonlinear_arith)
            requires
                k <= usize::MAX,
                stride <= u32::MAX,
        ;
    }
    let first: u128 = k as u128 * stride as u128;
    if first < point_count as u128 {
        first as u32
    } else {
        point_count
    }
}

impl Clone for NodeTemporalEntry {
    fn clone(&self) -> (r: NodeTemporalEntry)
        ensures
            r.node() == self.node(),
            r.times() == self.times(),
    {
        proof {
            use_type_invariant(self);
        }
        let samples = self.samples.clone();
        assert(samples@ =~= self.samples@);
        NodeTemporalEntry { key: self.key, samples }
    }
}

/// How many samples there are before the first that is not earlier than `t`.
fn count_before(samples: &Vec<GpsTime>, t: GpsTime) -> (r: usize)
    ensures
        r <= samples@.len(),
        forall|n: int| #[trigger] parts_before(samples@, t, n) ==> n == r,
{
    let mut lo: usize = 0;
    let mut hi: usize = samples.len();
    while lo < hi
        invariant
            lo <= hi <= samples@.len(),
            forall|n: int| #[trigger] parts_before(samples@, t, n) ==> lo <= n <= hi,
        decreases hi - lo,
    {
        let mid: usize = lo + (hi - lo) / 2;
        if samples[mid].0.lt(&t.0) {
            lo = mid + 1;
        } else {
            hi = mid;
        }
    }
    lo
}

/// How many samples there are before the first that is later than `t`.
fn count_through(samples: &Vec<GpsTime>, t: GpsTime) -> (r: usize)
    ensures
        r <= samples@.len(),
        forall|n: int| #[trigger] parts_through(samples@, t, n) ==> n == r,
{
    let mut lo: usize = 0;
    let mut hi: usize = samples.len();
    while lo < hi
        invariant
            lo <= hi <= samples@.len(),
            forall|n: int| #[trigger] parts_through(samples@, t, n) ==> lo <= n <= hi,
        decreases hi - lo,
    {
        let mid: usize = lo + (hi - lo) / 2;
        if samples[mid].0.le(&t.0) {
            lo = mid + 1;
        } else {
            hi = mid;
        }
    }
    lo
}

/// Samples in order part at every time, which is what makes them searchable.
pub proof fn law_ordered_samples_part(samples: Seq<GpsTime>, t: GpsTime)
    requires
        in_order(samples),
    ensures
        exists|n: int| parts_before(samples, t, n),
        exists|n: int| parts_through(samples, t, n),
    decreases samples.len(),
{
    if samples.len() == 0 {
        assert(parts_before(samples, t, 0));
        assert(parts_through(samples, t, 0));
    } else {
        let rest = samples.drop_last();
        let m = samples.len() - 1;
        assert(in_order(rest)) by {
            assert forall|i: int, j: int|
                #![trigger rest[i], rest[j]]
                0 <= i <= j < rest.len() implies rest[i].at_most(rest[j]) by {
                assert(rest[i] == samples[i] && rest[j] == samples[j]);
            }
        }
        law_ordered_samples_part(rest, t);
        assert forall|k: int| 0 <= k < m implies samples[k] == rest[k] by {}
        if samples[m].below(t) {
            assert(parts_before(samples, t, m + 1)) by {
                assert forall|k: int| 0 <= k < samples.len() implies (#[trigger] samples[k]).below(
                    t,
                ) by {
                    assert(samples[k].at_most(samples[m]));
                }
            }
        } else {
            let n = choose|n: int| parts_before(rest, t, n);
            assert(parts_before(samples, t, n)) by {
                assert forall|k: int| 0 <= k < samples.len() implies ((#[trigger] samples[k]).below(
                    t,
                ) <==> k < n) by {
                    if k < m {
                        assert(rest[k] == samples[k]);
                    }
                }
            }
        }
        if samples[m].at_most(t) {
            assert(parts_through(samples, t, m + 1)) by {
                assert forall|k: int| 0 <= k < samples.len() implies (
                #[trigger] samples[k]).at_most(t) by {
                    assert(samples[k].at_most(samples[m]));
                }
            }
        } else {
            let n = choose|n: int| parts_through(rest, t, n);
            assert(parts_through(samples, t, n)) by {
                assert forall|k: int| 0 <= k < samples.len() implies ((
                #[trigger] samples[k]).at_most(t) <==> k < n) by {
                    if k < m {
                        assert(rest[k] == samples[k]);
                    }
                }
            }
        }
    }
}

/// The samples that a writer records of a node's points: those at the multiples of the stride,
/// and the last point.
pub open spec fn samples_of(points: Seq<GpsTime>, stride: int) -> Seq<GpsTime> {
    let last = points.len() - 1;
    let regular = last / stride + 1;
    Seq::new(
        (if last % stride == 0 {
            regular
        } else {
            regular + 1
        }) as nat,
        |k: int|
            if k < regular {
                points[k * stride]
            } else {
                points[last]
            },
    )
}

/// Where sample `k` was taken.
spec fn sampled_at(count: int, stride: int, k: int) -> int {
    if k <= (count - 1) / stride {
        k * stride
    } else {
        count - 1
    }
}

proof fn lemma_sampled_at(points: Seq<GpsTime>, stride: int, k: int)
    requires
        points.len() >= 1,
        stride >= 1,
        0 <= k < samples_of(points, stride).len(),
    ensures
        0 <= sampled_at(points.len() as int, stride, k) < points.len(),
        samples_of(points, stride)[k] == points[sampled_at(points.len() as int, stride, k)],
        k == 0 ==> sampled_at(points.len() as int, stride, k) == 0,
        k == samples_of(points, stride).len() - 1 ==> sampled_at(points.len() as int, stride, k)
            == points.len() - 1,
{
    let last = points.len() - 1;
    let q = last / stride;
    vstd::arithmetic::div_mod::lemma_fundamental_div_mod(last, stride);
    vstd::arithmetic::div_mod::lemma_mod_bound(last, stride);
    assert(q >= 0) by (nonlinear_arith)
        requires
            q == last / stride,
            last >= 0,
            stride >= 1,
    ;
    if k <= q {
        assert(0 <= k * stride <= q * stride) by (nonlinear_arith)
            requires
                0 <= k <= q,
                stride >= 1,
        ;
        assert(q * stride == stride * q) by (nonlinear_arith);
    }
    assert(0 * stride == 0);
}

/// The samples of points in order are in order; the first is the node's earliest time and the
/// last its latest. A single point has a single sample.
pub proof fn law_samples_in_order(points: Seq<GpsTime>, stride: int)
    requires
        points.len() >= 1,
        stride >= 1,
        in_order(points),
    ensures
        in_order(samples_of(points, stride)),
        samples_of(points, stride).len() >= 1,
        samples_of(points, stride)[0] == points[0],
        samples_of(points, stride).last() == points.last(),
        points.len() == 1 ==> samples_of(points, stride).len() == 1,
{
    let samples = samples_of(points, stride);
    let count = points.len() as int;
    vstd::arithmetic::div_mod::lemma_div_pos_is_pos(count - 1, stride);
    assert(0int / stride == 0 && 0int % stride == 0) by (nonlinear_arith)
        requires
            stride >= 1,
    ;
    lemma_sampled_at(points, stride, 0);
    lemma_sampled_at(points, stride, samples.len() - 1);
    assert forall|i: int, j: int|
        #![trigger samples[i], samples[j]]
        0 <= i <= j < samples.len() implies samples[i].at_most(samples[j]) by {
        lemma_sampled_at(points, stride, i);
        lemma_sampled_at(points, stride, j);
        let (a, b) = (sampled_at(count, stride, i), sampled_at(count, stride, j));
        assert(a <= b) by {
            assert(i * stride <= j * stride) by (nonlinear_arith)
                requires
                    i <= j,
                    stride >= 1,
            ;
        }
        assert(points[a].at_most(points[b]));
    }
}

/// A node that holds a point in the window is found to overlap the window.
pub proof fn law_overlap_misses_no_point(
    points: Seq<GpsTime>,
    stride: int,
    start: GpsTime,
    end: GpsTime,
    p: int,
)
    requires
        stride >= 1,
        in_order(points),
        0 <= p < points.len(),
        points[p].within(start, end),
    ensures
        may_hold(samples_of(points, stride), start, end),
{
    law_samples_in_order(points, stride);
    assert(points[0].at_most(points[p]) && points[p].at_most(points[points.len() - 1]));
}

/// Where a point in the window lies among the samples: the last sample at or before it is not
/// later than the window, and the next one is not earlier.
proof fn lemma_samples_around(
    points: Seq<GpsTime>,
    stride: int,
    start: GpsTime,
    end: GpsTime,
    p: int,
    i: int,
    e: int,
)
    requires
        stride >= 1,
        in_order(points),
        0 <= p < points.len(),
        points[p].within(start, end),
        parts_before(samples_of(points, stride), start, i),
        parts_through(samples_of(points, stride), end, e),
    ensures
        0 <= p / stride < e,
        i <= p / stride + 1,
        p / stride * stride <= p < (p / stride + 1) * stride <= e * stride,
        p / stride * stride < points.len(),
        i <= p / stride <==> start.at_most(points[p / stride * stride]),
{
    let samples = samples_of(points, stride);
    let count = points.len() as int;
    let q = p / stride;
    vstd::arithmetic::div_mod::lemma_fundamental_div_mod(p, stride);
    vstd::arithmetic::div_mod::lemma_mod_bound(p, stride);
    vstd::arithmetic::div_mod::lemma_div_is_ordered(p, count - 1, stride);
    vstd::arithmetic::div_mod::lemma_div_pos_is_pos(p, stride);
    assert(stride * q == q * stride) by (nonlinear_arith);
    assert((q + 1) * stride == q * stride + stride) by (nonlinear_arith);
    lemma_sampled_at(points, stride, q);
    assert(samples[q] == points[q * stride]);
    assert(points[q * stride].at_most(points[p]));
    assert(samples[q].at_most(end));
    assert((q + 1) * stride <= e * stride) by (nonlinear_arith)
        requires
            q + 1 <= e,
            stride >= 1,
    ;
    if i > q {
        // All samples up to the one at or before p are before the window, so p is no sample,
        // and the next sample is at or after p, thus not before the window.
        assert(samples[q].below(start));
        assert(q * stride != p);
        assert(q + 1 < samples.len()) by {
            if q + 1 >= samples.len() {
                lemma_sampled_at(points, stride, samples.len() - 1);
                assert(points[p].at_most(points[count - 1]));
            }
        }
        lemma_sampled_at(points, stride, q + 1);
        let next = sampled_at(count, stride, q + 1);
        assert(p <= next);
        assert(points[p].at_most(points[next]));
        assert(!samples[q + 1].below(start));
    }
}

/// The estimated range covers a point in the window if and only if the last sample at or before
/// it is not itself earlier than the window.
pub proof fn law_range_covers_points(
    points: Seq<GpsTime>,
    stride: int,
    start: GpsTime,
    end: GpsTime,
    p: int,
    i: int,
    e: int,
)
    requires
        stride >= 1,
        in_order(points),
        0 <= p < points.len(),
        points[p].within(start, end),
        parts_before(samples_of(points, stride), start, i),
        parts_through(samples_of(points, stride), end, e),
    ensures
        start.at_most(points[p / stride * stride]) <==> point_range(
            i,
            e,
            stride,
            points.len() as int,
        ).0 <= p < point_range(i, e, stride, points.len() as int).1,
{
    let q = p / stride;
    lemma_samples_around(points, stride, start, end, p, i, e);
    if i <= q {
        assert(i * stride <= q * stride) by (nonlinear_arith)
            requires
                i <= q,
                stride >= 1,
        ;
    }
}

/// No point in the window lies more than `stride - 1` places before the estimated range, nor
/// after it; where no sample is in the window, such points lie between two samples.
pub proof fn law_range_is_near(
    points: Seq<GpsTime>,
    stride: int,
    start: GpsTime,
    end: GpsTime,
    p: int,
    i: int,
    e: int,
)
    requires
        stride >= 1,
        in_order(points),
        0 <= p < points.len(),
        points[p].within(start, end),
        parts_before(samples_of(points, stride), start, i),
        parts_through(samples_of(points, stride), end, e),
    ensures
        i < e ==> point_range(i, e, stride, points.len() as int).0 - stride < p < point_range(
            i,
            e,
            stride,
            points.len() as int,
        ).1,
        i >= e ==> i == e && (i - 1) * stride < p < i * stride,
{
    let q = p / stride;
    lemma_samples_around(points, stride, start, end, p, i, e);
    assert((q + 1) * stride == q * stride + stride) by (nonlinear_arith);
    if i <= q {
        assert(i * stride <= q * stride) by (nonlinear_arith)
            requires
                i <= q,
                stride >= 1,
        ;
    } else {
        assert(q * stride != p);
    }
}

/// Every point in the window lies in the candidate range: a point outside of it can be passed over.
pub proof fn law_candidates_miss_no_point(
    points: Seq<GpsTime>,
    stride: int,
    start: GpsTime,
    end: GpsTime,
    p: int,
    i: int,
    e: int,
)
    requires
        stride >= 1,
        in_order(points),
        0 <= p < points.len(),
        points[p].within(start, end),
        parts_before(samples_of(points, stride), start, i),
        parts_through(samples_of(points, stride), end, e),
    ensures
        covering_range(i, e, stride, points.len() as int).0 <= p < covering_range(
            i,
            e,
            stride,
            points.len() as int,
        ).1,
{
    let q = p / stride;
    lemma_samples_around(points, stride, start, end, p, i, e);
    if i > 0 {
        assert((i - 1) * stride <= q * stride) by (nonlinear_arith)
            requires
                i - 1 <= q,
                stride >= 1,
        ;
    }
}

/// The candidate range of a node that overlaps the window is not empty.
pub proof fn law_candidates_are_some(
    points: Seq<GpsTime>,
    stride: int,
    start: GpsTime,
    end: GpsTime,
    i: int,
    e: int,
)
    requires
        stride >= 1,
        points.len() >= 1,
        in_order(points),
        start.at_most(end),
        may_hold(samples_of(points, stride), start, end),
        parts_before(samples_of(points, stride), start, i),
        parts_through(samples_of(points, stride), end, e),
    ensures
        covering_range(i, e, stride, points.len() as int).0 < covering_range(
            i,
            e,
            stride,
            points.len() as int,
        ).1,
{
    let samples = samples_of(points, stride);
    let count = points.len() as int;
    law_samples_in_order(points, stride);
    let last = samples.len() - 1;
    assert(!samples[last].below(start));
    assert(samples[0].at_most(end));
    assert(i <= e) by {
        if i > e {
            assert(samples[e].below(start));
            assert(samples[e].at_most(end));
        }
    }
    assert(e * stride >= stride) by (nonlinear_arith)
        requires
            e >= 1,
            stride >= 1,
    ;
    if i > 0 {
        // The sample before the window is not the last, so it was taken at its multiple.
        vstd::arithmetic::div_mod::lemma_fundamental_div_mod(count - 1, stride);
        vstd::arithmetic::div_mod::lemma_mod_bound(count - 1, stride);
        let regular = (count - 1) / stride;
        assert(i - 1 <= regular);
        assert((i - 1) * stride <= stride * regular) by (nonlinear_arith)
            requires
                i - 1 <= regular,
                stride >= 1,
        ;
        assert((i - 1) * stride < e * stride) by (nonlinear_arith)
            requires
                i - 1 < e,
                stride >= 1,
        ;
    }
}

/// The candidate range encloses the estimated range, where that is not empty.
pub proof fn law_estimate_is_among_candidates(i: int, e: int, stride: int, count: int)
    requires
        0 <= i,
        stride >= 1,
        count >= 0,
        point_range(i, e, stride, count).0 < point_range(i, e, stride, count).1,
    ensures
        covering_range(i, e, stride, count).0 <= point_range(i, e, stride, count).0,
        point_range(i, e, stride, count).1 <= covering_range(i, e, stride, count).1,
{
    if i > 0 {
        assert((i - 1) * stride <= i * stride) by (nonlinear_arith)
            requires
                stride >= 1,
        ;
    }
}

} // verus!
