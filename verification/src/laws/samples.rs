//! The samples of a node, and the points that they stand for.

use crate::gps_time::GpsTime;
use crate::temporal_node::{
    in_order, law_candidates_miss_no_point, parts_before, parts_through,
    samples_of, NodeTemporalEntry,
};
use crate::types::VoxelKey;
use std::ops::Range;
use vstd::prelude::*;

verus! {

/// An entry keeps its key and its samples; its time range goes from its first sample to its last.
pub proof fn law_entry_keeps_its_parts(
    key: VoxelKey,
    samples: Vec<GpsTime>,
    entry: NodeTemporalEntry,
    told_key: VoxelKey,
    told: &[GpsTime],
    range: (GpsTime, GpsTime),
)
    requires
        call_ensures(NodeTemporalEntry::new, (key, samples), entry),
        call_ensures(NodeTemporalEntry::key, (&entry,), told_key),
        call_ensures(NodeTemporalEntry::samples, (&entry,), told),
        call_ensures(NodeTemporalEntry::time_range, (&entry,), range),
    ensures
        told_key == key,
        told@ == samples@,
        range.0 == samples@[0],
        range.1 == samples@[samples@.len() - 1],
        entry.node() == key,
        entry.times() == samples@,
{
}

/// A node overlaps a time range if and only if its last sample is not before the start and its
/// first sample not after the end.
pub proof fn law_overlap_is_by_first_and_last(
    entry: NodeTemporalEntry,
    start: GpsTime,
    end: GpsTime,
    range: (GpsTime, GpsTime),
    told: &[GpsTime],
    r: bool,
)
    requires
        call_ensures(NodeTemporalEntry::overlaps, (&entry, start, end), r),
        call_ensures(NodeTemporalEntry::time_range, (&entry,), range),
        call_ensures(NodeTemporalEntry::samples, (&entry,), told),
    ensures
        range == (told@[0], told@[told@.len() - 1]),
        r <==> start.0.at_most(range.1.0) && range.0.0.at_most(end.0),
{
}

/// Whether the times are in order: none is greater than a later one.
pub open spec fn ascend(times: Seq<GpsTime>) -> bool {
    forall|i: int, j: int|
        #![trigger times[i], times[j]]
        0 <= i <= j < times.len() ==> times[i].0.at_most(times[j].0)
}

/// Whether the first `i` samples are before `start`, and none of the others is.
pub open spec fn is_first(samples: Seq<GpsTime>, start: GpsTime, i: int) -> bool {
    &&& 0 <= i <= samples.len()
    &&& forall|k: int|
        0 <= k < samples.len() ==> ((#[trigger] samples[k]).0.below(start.0) <==> k < i)
}

/// Whether the samples up to sample `j` are not after `end`, and all of the others are; `j` is -1
/// where all of them are.
pub open spec fn is_last(samples: Seq<GpsTime>, end: GpsTime, j: int) -> bool {
    &&& -1 <= j < samples.len()
    &&& forall|k: int|
        0 <= k < samples.len() ==> ((#[trigger] samples[k]).0.at_most(end.0) <==> k <= j)
}

/// Samples in order have a first that is not before a time, and a last that is not after one.
pub proof fn law_samples_in_order_part(samples: Seq<GpsTime>, start: GpsTime, end: GpsTime)
    requires
        ascend(samples),
    ensures
        exists|i: int| is_first(samples, start, i),
        exists|j: int| is_last(samples, end, j),
{
    assert(in_order(samples)) by {
        assert forall|i: int, j: int|
            #![trigger samples[i], samples[j]]
            0 <= i <= j < samples.len() implies samples[i].at_most(samples[j]) by {}
    }
    crate::temporal_node::law_ordered_samples_part(samples, start);
    crate::temporal_node::law_ordered_samples_part(samples, end);
    let i = choose|n: int| parts_before(samples, start, n);
    let e = choose|n: int| parts_through(samples, end, n);
    assert forall|k: int| 0 <= k < samples.len() implies ((#[trigger] samples[k]).0.below(start.0)
        <==> k < i) by {
        assert(samples[k].below(start) <==> k < i);
    }
    assert(is_first(samples, start, i));
    assert forall|k: int| 0 <= k < samples.len() implies ((#[trigger] samples[k]).0.at_most(end.0)
        <==> k <= e - 1) by {
        assert(samples[k].at_most(end) <==> k < e);
    }
    assert(is_last(samples, end, e - 1));
}

/// What parts samples parts them.
pub(crate) proof fn lemma_parts(
    samples: Seq<GpsTime>,
    start: GpsTime,
    end: GpsTime,
    i: int,
    j: int,
)
    requires
        is_first(samples, start, i),
        is_last(samples, end, j),
    ensures
        parts_before(samples, start, i),
        parts_through(samples, end, j + 1),
{
    assert forall|k: int| 0 <= k < samples.len() implies ((#[trigger] samples[k]).below(start) <==> k
        < i) by {}
    assert forall|k: int| 0 <= k < samples.len() implies ((#[trigger] samples[k]).at_most(end)
        <==> k < j + 1) by {}
}

/// The estimate of a node whose samples are parted by the time range, as samples in order are: from
/// the point of the first sample that is not before the start, to the last point before the sample
/// behind the last that is not after the end, as far as there are points. Where there is no sample
/// in between, or no point, it is empty.
pub proof fn law_estimate_goes_by_samples(
    entry: NodeTemporalEntry,
    start: GpsTime,
    end: GpsTime,
    stride: u32,
    count: u32,
    i: int,
    j: int,
    r: Range<u32>,
)
    requires
        call_ensures(
            NodeTemporalEntry::estimate_point_range,
            (&entry, start, end, stride, count),
            r,
        ),
        is_first(entry.times(), start, i),
        is_last(entry.times(), end, j),
    ensures
        count == 0 || i > j ==> r.start == 0 && r.end == 0,
        count > 0 && i <= j ==> {
            &&& r.start == if i * stride < count {
                i * stride
            } else {
                count as int
            }
            &&& r.end - 1 == if j * stride + stride - 1 < count - 1 {
                j * stride + stride - 1
            } else {
                count - 1
            }
        },
{
    lemma_parts(entry.times(), start, end, i, j);
    assert((j + 1) * stride == j * stride + stride) by (nonlinear_arith);
    assert(parts_before(entry.times(), start, i) && parts_through(entry.times(), end, j + 1));
}

/// The candidate range of a node whose samples are parted by the time range, as samples in order
/// are: from the sample before the first that is not before the start, to the sample behind the last
/// that is not after the end, as far as there are points. It is empty where the first is behind that
/// sample.
pub proof fn law_candidates_go_by_samples(
    entry: NodeTemporalEntry,
    start: GpsTime,
    end: GpsTime,
    stride: u32,
    count: u32,
    i: int,
    j: int,
    r: Range<u32>,
)
    requires
        call_ensures(
            NodeTemporalEntry::candidate_point_range,
            (&entry, start, end, stride, count),
            r,
        ),
        is_first(entry.times(), start, i),
        is_last(entry.times(), end, j),
    ensures
        i > j + 1 ==> r.start == 0 && r.end == 0,
        i <= j + 1 ==> {
            let before = if i > 0 {
                i - 1
            } else {
                0
            };
            &&& r.start == if before * stride < count {
                before * stride
            } else {
                count as int
            }
            &&& r.end == if j * stride + stride < count {
                j * stride + stride
            } else {
                count as int
            }
        },
{
    lemma_parts(entry.times(), start, end, i, j);
    assert((j + 1) * stride == j * stride + stride) by (nonlinear_arith);
    assert(parts_before(entry.times(), start, i) && parts_through(entry.times(), end, j + 1));
}

/// Whatever the samples, both ranges are ranges of points.
pub proof fn law_ranges_are_of_points(
    entry: NodeTemporalEntry,
    start: GpsTime,
    end: GpsTime,
    stride: u32,
    count: u32,
    candidates: Range<u32>,
    estimate: Range<u32>,
)
    requires
        call_ensures(
            NodeTemporalEntry::candidate_point_range,
            (&entry, start, end, stride, count),
            candidates,
        ),
        call_ensures(
            NodeTemporalEntry::estimate_point_range,
            (&entry, start, end, stride, count),
            estimate,
        ),
    ensures
        candidates.start <= candidates.end <= count,
        estimate.start <= estimate.end <= count,
{
}

/// No point of a node lies in a time range and outside of the candidate range, where the points are
/// in order, and the samples are those at the multiples of the stride, and the last point.
pub proof fn law_candidates_hold_the_window(
    entry: NodeTemporalEntry,
    points: Seq<GpsTime>,
    start: GpsTime,
    end: GpsTime,
    stride: u32,
    p: int,
    r: Range<u32>,
)
    requires
        stride >= 1,
        1 <= points.len() <= u32::MAX,
        ascend(points),
        are_samples_of(entry.times(), points, stride as int),
        call_ensures(
            NodeTemporalEntry::candidate_point_range,
            (&entry, start, end, stride, points.len() as u32),
            r,
        ),
        0 <= p < points.len(),
        start.0.at_most(points[p].0),
        points[p].0.at_most(end.0),
    ensures
        r.start <= p < r.end,
{
    assert(entry.times() =~= samples_of(points, stride as int));
    assert(in_order(points)) by {
        assert forall|i: int, j: int|
            #![trigger points[i], points[j]]
            0 <= i <= j < points.len() implies points[i].at_most(points[j]) by {}
    }
    crate::temporal_node::law_samples_in_order(points, stride as int);
    crate::temporal_node::law_ordered_samples_part(entry.times(), start);
    crate::temporal_node::law_ordered_samples_part(entry.times(), end);
    let i = choose|n: int| parts_before(entry.times(), start, n);
    let e = choose|n: int| parts_through(entry.times(), end, n);
    law_candidates_miss_no_point(points, stride as int, start, end, p, i, e);
}

/// Whether these are the samples of the points: those at the multiples of the stride, and the last
/// point where it is not at one.
pub open spec fn are_samples_of(
    samples: Seq<GpsTime>,
    points: Seq<GpsTime>,
    stride: int,
) -> bool {
    let regular = (points.len() - 1) / stride + 1;
    &&& forall|q: int| 0 <= q < regular ==> #[trigger] samples[q] == points[q * stride]
    &&& if (points.len() - 1) % stride == 0 {
        samples.len() == regular
    } else {
        samples.len() == regular + 1 && samples[regular] == points[points.len() - 1]
    }
}

} // verus!
