//! Queries by time: which chunks to read, and which of their points to take.

use crate::chunk::{
    holds_point, indices_where, law_indices_select, law_inside_points_are_placed,
    law_origins_are_picks, law_picks_are_origins, law_points_are_where_records_are,
    law_record_has_one_point, lemma_filter_picks, lemma_indices_in_range, low_half, origins, Chunk,
};
use crate::error::{CopcError, TemporalError};
use crate::fields::{Fields, ALL, GPS_TIME, Z};
use crate::gps_time::GpsTime;
use crate::hierarchy::{HierarchyCache, HierarchyEntry};
use crate::point_cloud::{cloud_format, point_time, time_of};
use crate::point_list::{
    are_among, is_among, keys_of, lemma_filter_counts, lemma_picked_once, lemma_points_among,
    lemma_sources_differ, same_points, sources,
};
use crate::reader::{
    are_inside, are_visible, inside_indices, law_region_query_is_exact, lemma_inside_origin,
    lemma_inside_sources_differ, lemma_same_inside, shown,
};
use crate::temporal_cache::TemporalCache;
use crate::temporal_index::lists_overlapping;
use crate::temporal_node::{
    covering, in_order, law_candidates_are_some, law_candidates_miss_no_point,
    law_ordered_samples_part, law_overlap_misses_no_point, law_samples_in_order, may_hold,
    parts_before, parts_through, samples_of,
};
use crate::types::{has_box, one_box, region_test, Aabb, VoxelKey};
use std::ops::Range;
use vstd::prelude::*;

verus! {

impl Chunk {
    /// Whether the point with this number has a GPS time, and it is within the window.
    pub open spec fn point_within(self, start: GpsTime, end: GpsTime, i: int) -> bool {
        &&& cloud_format(self.cloud).has_gps_time
        &&& GpsTime(cloud_format(self.cloud).gps_time(self.record(i))).within(start, end)
    }
}

/// Indices of points whose GPS time falls within `[start, end]`.
///
/// Returns `None` if the chunk was not decoded with [`Fields::gps_time`] or the underlying format
/// does not include GPS time. Pair the returned indices with any other column on the chunk to
/// build a filtered view without materializing `las::Point` values.
pub fn indices_in_time_range(chunk: &Chunk, start: GpsTime, end: GpsTime) -> (r: Option<Vec<u32>>)
    ensures
        r is Some <==> chunk.fields.has(GPS_TIME) && cloud_format(chunk.cloud).has_gps_time,
        r matches Some(indices) ==> indices@ == indices_where(
            chunk.count(),
            |i: int| chunk.point_within(start, end, i),
        ),
{
    let times = match chunk.gps_time() {
        Some(times) => times,
        None => return None,
    };
    let ghost within = |i: int| chunk.point_within(start, end, i);
    let mut indices: Vec<u32> = Vec::new();
    let mut i: usize = 0;
    while i < times.len()
        invariant
            i <= times@.len(),
            times@.len() == chunk.count(),
            cloud_format(chunk.cloud).has_gps_time,
            forall|k: int|
                0 <= k < times@.len() ==> (#[trigger] times@[k]).same(
                    cloud_format(chunk.cloud).gps_time(chunk.record(k)),
                ),
            within == (|i: int| chunk.point_within(start, end, i)),
            indices@ == indices_where(i as int, within),
        decreases times@.len() - i,
    {
        let time = GpsTime(times[i]);
        if time.is_within(start, end) {
            indices.push(low_half(i));
        }
        i = i + 1;
    }
    Some(indices)
}

/// Whether the point has a GPS time, and it is within the window.
pub open spec fn in_window(point: las::Point, start: GpsTime, end: GpsTime) -> bool {
    point_time(point) matches Some(t) && GpsTime(t).within(start, end)
}

/// Filter points to only those whose GPS time falls within `[start, end]`.
///
/// Points without a GPS time are excluded. Convenience for the simple `Vec<las::Point>` API;
/// prefer [`indices_in_time_range`] on a [`Chunk`] when you're already on the column-oriented
/// path.
pub fn filter_points_by_time(points: Vec<las::Point>, start: GpsTime, end: GpsTime) -> (r: Vec<
    las::Point,
>)
    ensures
        r@ == points@.filter(|p: las::Point| in_window(p, start, end)),
{
    let ghost all = points@;
    let ghost wanted = |p: las::Point| in_window(p, start, end);
    let mut r: Vec<las::Point> = Vec::new();
    assert(r@ =~= all.take(0).filter(wanted)) by {
        reveal(Seq::filter);
    }
    for point in it: points.into_iter()
        invariant
            it.seq() == all,
            wanted == (|p: las::Point| in_window(p, start, end)),
            r@ == all.take(it.index()).filter(wanted),
    {
        let ghost n = it.index();
        proof {
            reveal(Seq::filter);
            assert(all.take(n + 1).drop_last() =~= all.take(n));
            assert(all.take(n + 1).last() == point);
        }
        let keep = match time_of(&point) {
            Some(time) => GpsTime(time).is_within(start, end),
            None => false,
        };
        if keep {
            r.push(point);
        }
    }
    assert(all.take(all.len() as int) =~= all);
    r
}

/// Whether `range` is what of a node's chunk to look at for the window: the node is known to the
/// index and to the hierarchy, overlaps the window, has points, and outside of the range no point
/// lies in the window.
pub open spec fn candidate(
    cache: TemporalCache,
    nodes: Map<VoxelKey, HierarchyEntry>,
    start: GpsTime,
    end: GpsTime,
    key: VoxelKey,
    range: Range<u32>,
) -> bool {
    &&& overlaps_and_known(cache, nodes, start, end, key)
    &&& nodes[key].point_count > 0
    &&& start.at_most(end)
    &&& covering(
        cache.nodes()[key],
        start,
        end,
        cache.sampling(),
        nodes[key].point_count,
        range,
    )
}

/// Whether the node is known to the index and to the hierarchy, and overlaps the window.
pub open spec fn overlaps_and_known(
    cache: TemporalCache,
    nodes: Map<VoxelKey, HierarchyEntry>,
    start: GpsTime,
    end: GpsTime,
    key: VoxelKey,
) -> bool {
    &&& cache.nodes().contains_key(key)
    &&& may_hold(cache.nodes()[key], start, end)
    &&& nodes.contains_key(key)
}

/// Whether the pairs have different nodes.
pub open spec fn distinct_keys(pairs: Seq<(VoxelKey, Range<u32>)>) -> bool {
    forall|i: int, j: int|
        #![trigger pairs[i], pairs[j]]
        0 <= i < j < pairs.len() ==> pairs[i].0 != pairs[j].0
}

/// Whether one of the pairs is this node's.
pub open spec fn has_key(pairs: Seq<(VoxelKey, Range<u32>)>, key: VoxelKey) -> bool {
    exists|i: int| 0 <= i < pairs.len() && (#[trigger] pairs[i]).0 == key
}

/// Whether these are the nodes to look at for the window, each with its range: all of them and each
/// once.
pub open spec fn are_candidates(
    cache: TemporalCache,
    nodes: Map<VoxelKey, HierarchyEntry>,
    start: GpsTime,
    end: GpsTime,
    pairs: Seq<(VoxelKey, Range<u32>)>,
) -> bool {
    &&& distinct_keys(pairs)
    &&& forall|i: int|
        0 <= i < pairs.len() ==> candidate(
            cache,
            nodes,
            start,
            end,
            (#[trigger] pairs[i]).0,
            pairs[i].1,
        )
    &&& forall|key: VoxelKey| #[trigger]
        overlaps_and_known(cache, nodes, start, end, key) && nodes[key].point_count > 0
            && start.at_most(end) ==> has_key(pairs, key)
}

/// Whether these are the nodes to look at for the window whose box overlaps the region, each with
/// its range: all of them and each once.
pub open spec fn are_candidates_inside<F: Fn(VoxelKey) -> Aabb>(
    cache: TemporalCache,
    nodes: Map<VoxelKey, HierarchyEntry>,
    bounds: Aabb,
    node_bounds: &F,
    start: GpsTime,
    end: GpsTime,
    pairs: Seq<(VoxelKey, Range<u32>)>,
) -> bool {
    &&& distinct_keys(pairs)
    &&& forall|i: int|
        0 <= i < pairs.len() ==> {
            &&& candidate(cache, nodes, start, end, (#[trigger] pairs[i]).0, pairs[i].1)
            &&& region_test(node_bounds, pairs[i].0, bounds, true)
        }
    &&& forall|key: VoxelKey| #[trigger]
        overlaps_and_known(cache, nodes, start, end, key) && nodes[key].point_count > 0
            && start.at_most(end) ==> has_key(pairs, key) || region_test(
            node_bounds,
            key,
            bounds,
            false,
        )
}

impl TemporalCache {
    /// The chunks to read for a time range, each with the range of its points that may be within
    /// it: the chunks of all loaded nodes that overlap `[start, end]`, are in the hierarchy and
    /// have points. Points outside the range are guaranteed not to match and can be passed over.
    /// Where `start` is after `end`, there are none.
    pub fn chunks_by_time(
        &self,
        hierarchy: &HierarchyCache,
        start: GpsTime,
        end: GpsTime,
    ) -> (r: Vec<(VoxelKey, Range<u32>)>)
        ensures
            are_candidates(*self, hierarchy.nodes(), start, end, r@),
    {
        let all = |key: VoxelKey| -> (keep: bool)
            ensures
                keep,
            { true };
        self.candidates(hierarchy, start, end, all)
    }

    /// The chunks to read for a time range and a region: like
    /// [`chunks_by_time`](Self::chunks_by_time), but only those of nodes whose box overlaps
    /// `bounds`. `node_bounds` gives the box of a node.
    pub fn chunks_in_bounds<F: Fn(VoxelKey) -> Aabb>(
        &self,
        hierarchy: &HierarchyCache,
        bounds: &Aabb,
        node_bounds: F,
        start: GpsTime,
        end: GpsTime,
    ) -> (r: Vec<(VoxelKey, Range<u32>)>)
        requires
            forall|key: VoxelKey| #[trigger]
                self.nodes().contains_key(key) ==> has_box(&node_bounds, key),
        ensures
            are_candidates_inside(
                *self,
                hierarchy.nodes(),
                *bounds,
                &node_bounds,
                start,
                end,
                r@,
            ),
    {
        let node_box = &node_bounds;
        let overlapping = |key: VoxelKey| -> (keep: bool)
            requires
                has_box(node_box, key),
            ensures
                region_test(node_box, key, *bounds, keep),
            { node_box(key).intersects(bounds) };
        self.candidates(hierarchy, start, end, overlapping)
    }

    /// The chunks to read for a time range, of the nodes that `keep` keeps.
    fn candidates<K: Fn(VoxelKey) -> bool>(
        &self,
        hierarchy: &HierarchyCache,
        start: GpsTime,
        end: GpsTime,
        keep: K,
    ) -> (r: Vec<(VoxelKey, Range<u32>)>)
        requires
            forall|key: VoxelKey| #[trigger]
                self.nodes().contains_key(key) ==> call_requires(keep, (key,)),
        ensures
            distinct_keys(r@),
            forall|i: int|
                0 <= i < r@.len() ==> candidate(
                    *self,
                    hierarchy.nodes(),
                    start,
                    end,
                    (#[trigger] r@[i]).0,
                    r@[i].1,
                ) && call_ensures(keep, (r@[i].0,), true),
            forall|key: VoxelKey| #[trigger]
                overlaps_and_known(*self, hierarchy.nodes(), start, end, key)
                    && hierarchy.nodes()[key].point_count > 0 && start.at_most(end) ==> has_key(
                    r@,
                    key,
                ) || call_ensures(keep, (key,), false),
    {
        let stride: u32 = self.stride();
        let entries = self.nodes_in_range(start, end);
        let ghost nodes = hierarchy.nodes();
        let mut r: Vec<(VoxelKey, Range<u32>)> = Vec::new();
        if !start.0.le(&end.0) {
            return r;
        }
        let mut n: usize = 0;
        while n < entries.len()
            invariant
                n <= entries@.len(),
                nodes == hierarchy.nodes(),
                stride == self.sampling(),
                start.at_most(end),
                lists_overlapping(entries@, self.nodes(), start, end),
                forall|key: VoxelKey| #[trigger]
                    self.nodes().contains_key(key) ==> call_requires(keep, (key,)),
                distinct_keys(r@),
                forall|i: int|
                    0 <= i < r@.len() ==> candidate(
                        *self,
                        nodes,
                        start,
                        end,
                        (#[trigger] r@[i]).0,
                        r@[i].1,
                    ) && call_ensures(keep, (r@[i].0,), true) && exists|k: int|
                        0 <= k < n && (#[trigger] entries@[k]).node() == r@[i].0,
                forall|k: int|
                    #![trigger entries@[k]]
                    0 <= k < n && nodes.contains_key(entries@[k].node())
                        && nodes[entries@[k].node()].point_count > 0 ==> has_key(
                        r@,
                        entries@[k].node(),
                    ) || call_ensures(keep, (entries@[k].node(),), false),
            decreases entries@.len() - n,
        {
            let entry = entries[n];
            let key = entry.key();
            let ghost before = r@;
            assert(self.nodes().contains_key(entries@[n as int].node()));
            if keep(key) {
                if let Some(found) = hierarchy.get(&key) {
                    if found.point_count > 0 {
                        let range = entry.candidate_point_range(
                            start,
                            end,
                            stride,
                            found.point_count,
                        );
                        assert(candidate(*self, nodes, start, end, key, range));
                        r.push((key, range));
                    }
                }
            }
            proof {
                assert forall|i: int| 0 <= i < before.len() implies (#[trigger] before[i]).0
                    != key by {
                    let k = choose|k: int|
                        0 <= k < n && (#[trigger] entries@[k]).node() == before[i].0;
                    assert(entries@[k].node() != entries@[n as int].node());
                }
                assert forall|i: int| 0 <= i < r@.len() implies exists|k: int|
                    0 <= k < n + 1 && (#[trigger] entries@[k]).node() == (#[trigger] r@[i]).0 by {
                    if i < before.len() {
                        assert(r@[i] == before[i]);
                        let k = choose|k: int|
                            0 <= k < n && (#[trigger] entries@[k]).node() == before[i].0;
                        assert(entries@[k].node() == r@[i].0);
                    } else {
                        assert(entries@[n as int].node() == r@[i].0);
                    }
                }
                assert forall|k: VoxelKey| has_key(before, k) implies #[trigger] has_key(r@, k) by {
                    let i = choose|i: int| 0 <= i < before.len() && (#[trigger] before[i]).0 == k;
                    assert(r@[i].0 == k);
                }
                if r@.len() > before.len() {
                    assert(r@[r@.len() - 1].0 == key);
                    assert(has_key(r@, key));
                }
            }
            n = n + 1;
        }
        proof {
            assert forall|key: VoxelKey| #[trigger]
                overlaps_and_known(*self, nodes, start, end, key) && nodes[key].point_count
                > 0 implies has_key(r@, key) || call_ensures(keep, (key,), false) by {
                assert(self.nodes().contains_key(key));
                let k = choose|k: int|
                    #![trigger entries@[k]]
                    0 <= k < entries@.len() && entries@[k].node() == key;
                assert(entries@[k].node() == key);
            }
        }
        r
    }
}

/// Whether the point with this number is to be taken: it is within the window and, where there is
/// one, inside the region.
pub open spec fn wanted(
    chunk: Chunk,
    bounds: Option<Aabb>,
    start: GpsTime,
    end: GpsTime,
    i: int,
) -> bool {
    &&& chunk.point_within(start, end, i)
    &&& bounds matches Some(region) ==> chunk.point_inside(region, i)
}

/// The numbers of the points to be taken of a chunk: those of the candidate range that are wanted.
pub open spec fn wanted_indices(
    chunk: Chunk,
    range: Range<u32>,
    bounds: Option<Aabb>,
    start: GpsTime,
    end: GpsTime,
) -> Seq<u32> {
    indices_where(
        if range.end <= chunk.count() {
            range.end as int
        } else {
            chunk.count()
        },
        |i: int| range.start <= i && wanted(chunk, bounds, start, end, i),
    )
}

/// Whether the candidate range begins within the chunk.
pub open spec fn begins_within(chunk: Chunk, range: Range<u32>) -> bool {
    range.start <= range.end && range.start <= chunk.count()
}

/// Whether `r` is the chunk's points with these numbers, in order, or the error that the chunk was
/// decoded with a partial field mask.
pub open spec fn taken(
    chunk: Chunk,
    indices: Seq<u32>,
    r: Result<Vec<las::Point>, CopcError>,
) -> bool {
    &&& r is Ok <==> chunk.fields.bits == ALL
    &&& r matches Err(e) ==> e == CopcError::PartialDecode(chunk.fields)
    &&& r matches Ok(points) ==> points@.len() == indices.len() && forall|k: int|
        0 <= k < points@.len() ==> chunk.has_point(indices[k] as int, #[trigger] points@[k])
}

/// The points of a chunk that are wanted, of those in the candidate range.
fn wanted_points(
    chunk: &Chunk,
    range: &Range<u32>,
    bounds: Option<&Aabb>,
    start: GpsTime,
    end: GpsTime,
) -> (r: Result<Vec<las::Point>, CopcError>)
    requires
        begins_within(*chunk, *range),
    ensures
        taken(
            *chunk,
            wanted_indices(
                *chunk,
                *range,
                match bounds {
                    Some(b) => Some(*b),
                    None => None,
                },
                start,
                end,
            ),
            r,
        ),
{
    let ghost region = match bounds {
        Some(b) => Some(*b),
        None => None,
    };
    let ghost pred = |i: int| range.start <= i && wanted(*chunk, region, start, end, i);
    if chunk.fields != Fields::all() {
        return Err(CopcError::PartialDecode(chunk.fields));
    }
    proof {
        assert(ALL & GPS_TIME == GPS_TIME && ALL & Z == Z) by (bit_vector);
    }
    let count: usize = chunk.point_count();
    let end_idx: usize = if range.end as usize <= count {
        range.end as usize
    } else {
        count
    };
    let mut matching: Vec<u32> = Vec::new();
    let times = chunk.gps_time();
    let positions = chunk.positions();
    proof {
        lemma_none_before(range.start as int, pred);
        if times is None {
            lemma_none_before(end_idx as int, pred);
        }
    }
    if let (Some(times), Some(positions)) = (times, positions) {
        let mut i: usize = range.start as usize;
        while i < end_idx
            invariant
                range.start <= i <= end_idx <= count,
                end_idx <= u32::MAX,
                count == chunk.count(),
                times@.len() == count,
                positions@.len() == count,
                cloud_format(chunk.cloud).has_gps_time,
                forall|k: int|
                    0 <= k < times@.len() ==> (#[trigger] times@[k]).same(
                        cloud_format(chunk.cloud).gps_time(chunk.record(k)),
                    ),
                forall|k: int|
                    0 <= k < positions@.len() ==> chunk.has_position(k, #[trigger] positions@[k]),
                region == (match bounds {
                    Some(b) => Some(*b),
                    None => None,
                }),
                pred == (|i: int| range.start <= i && wanted(*chunk, region, start, end, i)),
                matching@ == indices_where(i as int, pred),
                forall|k: int|
                    0 <= k < matching@.len() ==> (#[trigger] matching@[k]) < i,
            decreases end_idx - i,
        {
            let in_window = GpsTime(times[i]).is_within(start, end);
            let in_region = match bounds {
                Some(b) => b.contains(&positions[i]),
                None => true,
            };
            proof {
                if let Some(b) = region {
                    chunk.lemma_one_position(b, i as int, positions@[i as int]);
                }
            }
            if in_window && in_region {
                matching.push(i as u32);
            }
            i = i + 1;
        }
    }
    chunk.points_at(matching.as_slice())
}

/// Nothing is selected below a number below which nothing satisfies the predicate.
proof fn lemma_none_before(n: int, pred: spec_fn(int) -> bool)
    requires
        forall|i: int| 0 <= i < n ==> !#[trigger] pred(i),
    ensures
        indices_where(n, pred) == Seq::<u32>::empty(),
    decreases n,
{
    if n > 0 {
        lemma_none_before(n - 1, pred);
    }
}

/// Whether chunk `n` is the first that was decoded with a partial field mask.
pub open spec fn first_partial(chunks: Seq<(Chunk, Range<u32>)>, n: int) -> bool {
    &&& 0 <= n < chunks.len()
    &&& chunks[n].0.fields.bits != ALL
    &&& forall|k: int| 0 <= k < n ==> (#[trigger] chunks[k]).0.fields.bits == ALL
}

/// The numbers of the points to be taken of each chunk.
pub open spec fn wanted_of_chunks(
    chunks: Seq<(Chunk, Range<u32>)>,
    bounds: Option<Aabb>,
    start: GpsTime,
    end: GpsTime,
) -> Seq<Seq<u32>> {
    chunks.map_values(
        |c: (Chunk, Range<u32>)| wanted_indices(c.0, c.1, bounds, start, end),
    )
}

/// Whether `r` is the wanted points of the chunks, chunk by chunk and in order, or the error that
/// the first chunk with a partial field mask gives.
pub open spec fn query_outcome(
    chunks: Seq<(Chunk, Range<u32>)>,
    bounds: Option<Aabb>,
    start: GpsTime,
    end: GpsTime,
    r: Result<Vec<las::Point>, TemporalError>,
) -> bool {
    let from = origins(wanted_of_chunks(chunks, bounds, start, end));
    &&& r is Ok <==> forall|k: int|
        0 <= k < chunks.len() ==> (#[trigger] chunks[k]).0.fields.bits == ALL
    &&& forall|n: int| #[trigger]
        first_partial(chunks, n) ==> r == Err::<Vec<las::Point>, TemporalError>(
            TemporalError::Copc(CopcError::PartialDecode(chunks[n].0.fields)),
        )
    &&& r matches Ok(points) ==> points@.len() == from.len() && forall|k: int|
        0 <= k < points@.len() ==> chunks[from[k].0].0.has_point(
            from[k].1,
            #[trigger] points@[k],
        )
}

/// Points by time range and spatial bounds: of chunks that were decoded with all fields, each with
/// its candidate range, only the points that fall inside both the time window and the bounding box.
pub fn query_points_in_bounds(
    chunks: &[(Chunk, Range<u32>)],
    bounds: &Aabb,
    start: GpsTime,
    end: GpsTime,
) -> (r: Result<Vec<las::Point>, TemporalError>)
    requires
        forall|k: int|
            0 <= k < chunks@.len() ==> begins_within((#[trigger] chunks@[k]).0, chunks@[k].1),
    ensures
        query_outcome(chunks@, Some(*bounds), start, end, r),
{
    wanted_points_of_chunks(chunks, Some(bounds), start, end)
}

/// Points by time range only (no spatial filtering): of chunks that were decoded with all fields,
/// each with its candidate range, only the points that fall inside the time window.
pub fn query_points_by_time(chunks: &[(Chunk, Range<u32>)], start: GpsTime, end: GpsTime) -> (r:
    Result<Vec<las::Point>, TemporalError>)
    requires
        forall|k: int|
            0 <= k < chunks@.len() ==> begins_within((#[trigger] chunks@[k]).0, chunks@[k].1),
    ensures
        query_outcome(chunks@, None, start, end, r),
{
    wanted_points_of_chunks(chunks, None, start, end)
}

/// The wanted points of all chunks.
fn wanted_points_of_chunks(
    chunks: &[(Chunk, Range<u32>)],
    bounds: Option<&Aabb>,
    start: GpsTime,
    end: GpsTime,
) -> (r: Result<Vec<las::Point>, TemporalError>)
    requires
        forall|k: int|
            0 <= k < chunks@.len() ==> begins_within((#[trigger] chunks@[k]).0, chunks@[k].1),
    ensures
        query_outcome(
            chunks@,
            match bounds {
                Some(b) => Some(*b),
                None => None,
            },
            start,
            end,
            r,
        ),
{
    let ghost region = match bounds {
        Some(b) => Some(*b),
        None => None,
    };
    let ghost picks = wanted_of_chunks(chunks@, region, start, end);
    let mut all_points: Vec<las::Point> = Vec::new();
    let mut n: usize = 0;
    while n < chunks.len()
        invariant
            n <= chunks@.len(),
            forall|k: int|
                0 <= k < chunks@.len() ==> begins_within((#[trigger] chunks@[k]).0, chunks@[k].1),
            region == (match bounds {
                Some(b) => Some(*b),
                None => None,
            }),
            picks == wanted_of_chunks(chunks@, region, start, end),
            forall|k: int| 0 <= k < n ==> (#[trigger] chunks@[k]).0.fields.bits == ALL,
            all_points@.len() == origins(picks.take(n as int)).len(),
            forall|k: int|
                0 <= k < all_points@.len() ==> chunks@[origins(
                    picks.take(n as int),
                )[k].0].0.has_point(origins(picks.take(n as int))[k].1, #[trigger] all_points@[k]),
        decreases chunks@.len() - n,
    {
        let ghost before = all_points@;
        let ghost from = origins(picks.take(n as int));
        let ghost next = picks.take(n + 1);
        proof {
            assert(next.drop_last() =~= picks.take(n as int));
            assert(next.last() == picks[n as int]);
        }
        match wanted_points(&chunks[n].0, &chunks[n].1, bounds, start, end) {
            Ok(points) => {
                let mut points = points;
                let ghost more = points@;
                all_points.append(&mut points);
                proof {
                    assert forall|k: int| 0 <= k < all_points@.len() implies chunks@[origins(
                        next,
                    )[k].0].0.has_point(origins(next)[k].1, #[trigger] all_points@[k]) by {
                        if k < before.len() {
                            assert(all_points@[k] == before[k]);
                            assert(origins(next)[k] == from[k]);
                        } else {
                            assert(all_points@[k] == more[k - before.len()]);
                        }
                    }
                }
            },
            Err(e) => {
                assert forall|m: int| #[trigger] first_partial(chunks@, m) implies m == n by {
                    assert(chunks@[m].0.fields.bits != ALL);
                }
                return Err(TemporalError::Copc(e));
            },
        }
        n = n + 1;
    }
    assert(picks.take(picks.len() as int) =~= picks);
    assert forall|m: int| !#[trigger] first_partial(chunks@, m) by {}
    Ok(all_points)
}

/// A query takes only points inside its window and, where it has one, its region.
pub proof fn law_query_takes_only_wanted(
    chunks: Seq<(Chunk, Range<u32>)>,
    bounds: Option<Aabb>,
    start: GpsTime,
    end: GpsTime,
    k: int,
)
    requires
        0 <= k < origins(wanted_of_chunks(chunks, bounds, start, end)).len(),
    ensures
        ({
            let (c, i) = origins(wanted_of_chunks(chunks, bounds, start, end))[k];
            &&& 0 <= c < chunks.len()
            &&& chunks[c].1.start <= i < chunks[c].1.end
            &&& i < chunks[c].0.count()
            &&& wanted(chunks[c].0, bounds, start, end, i)
        }),
{
    let picks = wanted_of_chunks(chunks, bounds, start, end);
    law_origins_are_picks(picks, k);
    let (c, i) = origins(picks)[k];
    let j = choose|j: int| 0 <= j < picks[c].len() && #[trigger] picks[c][j] == i;
    let (chunk, range) = chunks[c];
    let n = if range.end <= chunk.count() {
        range.end as int
    } else {
        chunk.count()
    };
    let pred = |i: int| range.start <= i && wanted(chunk, bounds, start, end, i);
    if n > 0 {
        law_indices_select(n, pred);
    }
    assert(picks[c] == indices_where(n, pred));
    assert(pred(indices_where(n, pred)[j] as int));
}

/// A query takes every point of the candidate ranges that is inside its window and its region.
pub proof fn law_query_takes_all_wanted(
    chunks: Seq<(Chunk, Range<u32>)>,
    bounds: Option<Aabb>,
    start: GpsTime,
    end: GpsTime,
    c: int,
    i: int,
)
    requires
        0 <= c < chunks.len(),
        chunks[c].1.start <= i < chunks[c].1.end,
        i < chunks[c].0.count(),
        wanted(chunks[c].0, bounds, start, end, i),
    ensures
        origins(wanted_of_chunks(chunks, bounds, start, end)).contains((c, i)),
{
    let picks = wanted_of_chunks(chunks, bounds, start, end);
    let (chunk, range) = chunks[c];
    let n = if range.end <= chunk.count() {
        range.end as int
    } else {
        chunk.count()
    };
    let pred = |i: int| range.start <= i && wanted(chunk, bounds, start, end, i);
    law_indices_select(n, pred);
    assert(pred(i));
    assert(picks[c] == indices_where(n, pred));
    let j = choose|j: int| 0 <= j < picks[c].len() && picks[c][j] == i as u32;
    law_picks_are_origins(picks, c, j);
}

/// The GPS times of a chunk's points.
pub open spec fn times_in(chunk: Chunk) -> Seq<GpsTime> {
    Seq::new(
        chunk.count() as nat,
        |i: int| GpsTime(cloud_format(chunk.cloud).gps_time(chunk.record(i))),
    )
}

/// The candidate range of a chunk covers every point within the window: where the points are in
/// order of time, and the index holds their samples.
pub proof fn law_candidates_cover(
    chunk: Chunk,
    stride: u32,
    start: GpsTime,
    end: GpsTime,
    range: Range<u32>,
    p: int,
)
    requires
        stride >= 1,
        0 <= p < chunk.count() <= u32::MAX,
        in_order(times_in(chunk)),
        covering(
            samples_of(times_in(chunk), stride as int),
            start,
            end,
            stride,
            chunk.count() as u32,
            range,
        ),
        chunk.point_within(start, end, p),
    ensures
        range.start <= p < range.end,
{
    let points = times_in(chunk);
    let samples = samples_of(points, stride as int);
    law_samples_in_order(points, stride as int);
    law_ordered_samples_part(samples, start);
    law_ordered_samples_part(samples, end);
    let i = choose|i: int| parts_before(samples, start, i);
    let e = choose|e: int| parts_through(samples, end, e);
    law_candidates_miss_no_point(points, stride as int, start, end, p, i, e);
}

/// The candidate range of a chunk whose node overlaps the window is not empty: where the points are
/// in order of time, and the index holds their samples.
pub proof fn law_candidates_are_not_empty(
    chunk: Chunk,
    stride: u32,
    start: GpsTime,
    end: GpsTime,
    range: Range<u32>,
)
    requires
        stride >= 1,
        1 <= chunk.count() <= u32::MAX,
        in_order(times_in(chunk)),
        covering(
            samples_of(times_in(chunk), stride as int),
            start,
            end,
            stride,
            chunk.count() as u32,
            range,
        ),
        start.at_most(end),
        may_hold(samples_of(times_in(chunk), stride as int), start, end),
    ensures
        range.start < range.end,
{
    let points = times_in(chunk);
    let samples = samples_of(points, stride as int);
    law_samples_in_order(points, stride as int);
    law_ordered_samples_part(samples, start);
    law_ordered_samples_part(samples, end);
    let i = choose|i: int| parts_before(samples, start, i);
    let e = choose|e: int| parts_through(samples, end, e);
    law_candidates_are_some(points, stride as int, start, end, i, e);
}

/// A query of a time range finds every point within it: where the chunk's node is known to the
/// index, with the samples of the chunk's points in order of time, and to the hierarchy. The node
/// is among those to read, and the point is within its candidate range.
pub proof fn law_query_finds_point(
    cache: TemporalCache,
    nodes: Map<VoxelKey, HierarchyEntry>,
    found: Seq<(VoxelKey, Range<u32>)>,
    chunk: Chunk,
    start: GpsTime,
    end: GpsTime,
    p: int,
)
    requires
        cache.sampling() >= 1,
        0 <= p < chunk.count() <= u32::MAX,
        in_order(times_in(chunk)),
        cache.nodes().contains_key(chunk.key),
        cache.nodes()[chunk.key] == samples_of(times_in(chunk), cache.sampling() as int),
        nodes.contains_key(chunk.key),
        nodes[chunk.key].point_count == chunk.count(),
        chunk.point_within(start, end, p),
        forall|i: int|
            0 <= i < found.len() ==> candidate(
                cache,
                nodes,
                start,
                end,
                (#[trigger] found[i]).0,
                found[i].1,
            ),
        forall|key: VoxelKey| #[trigger]
            overlaps_and_known(cache, nodes, start, end, key) && nodes[key].point_count > 0
                && start.at_most(end) ==> has_key(found, key),
    ensures
        exists|i: int|
            {
                &&& 0 <= i < found.len()
                &&& (#[trigger] found[i]).0 == chunk.key
                &&& found[i].1.start <= p < found[i].1.end
            },
{
    let stride = cache.sampling();
    law_overlap_misses_no_point(times_in(chunk), stride as int, start, end, p);
    assert(overlaps_and_known(cache, nodes, start, end, chunk.key));
    assert(has_key(found, chunk.key));
    let i = choose|i: int| 0 <= i < found.len() && (#[trigger] found[i]).0 == chunk.key;
    assert(candidate(cache, nodes, start, end, found[i].0, found[i].1));
    law_candidates_cover(chunk, stride, start, end, found[i].1, p);
}

/// A query returns every point of a chunk that is within its time range and, where it has one, its
/// region: where the chunk's node is known to the index, with the samples of the chunk's points in
/// order of time, and the chunk stands with its candidate range.
pub proof fn law_query_returns_every_point(
    cache: TemporalCache,
    nodes: Map<VoxelKey, HierarchyEntry>,
    chunks: Seq<(Chunk, Range<u32>)>,
    bounds: Option<Aabb>,
    start: GpsTime,
    end: GpsTime,
    c: int,
    p: int,
)
    requires
        0 <= c < chunks.len(),
        cache.sampling() >= 1,
        0 <= p < chunks[c].0.count() <= u32::MAX,
        in_order(times_in(chunks[c].0)),
        candidate(cache, nodes, start, end, chunks[c].0.key, chunks[c].1),
        cache.nodes()[chunks[c].0.key] == samples_of(
            times_in(chunks[c].0),
            cache.sampling() as int,
        ),
        nodes[chunks[c].0.key].point_count == chunks[c].0.count(),
        wanted(chunks[c].0, bounds, start, end, p),
    ensures
        origins(wanted_of_chunks(chunks, bounds, start, end)).contains((c, p)),
{
    law_candidates_cover(chunks[c].0, cache.sampling(), start, end, chunks[c].1, p);
    law_query_takes_all_wanted(chunks, bounds, start, end, c, p);
}

/// A point has a GPS time within a window if and only if its record has.
pub proof fn law_points_are_when_records_are(
    chunk: Chunk,
    start: GpsTime,
    end: GpsTime,
    i: int,
    point: las::Point,
)
    requires
        chunk.has_point(i, point),
    ensures
        in_window(point, start, end) <==> chunk.point_within(start, end, i),
{
}

/// A query returns only points that fall inside its time window and, where it has one, its region.
pub proof fn law_query_returns_only_inside(
    chunks: Seq<(Chunk, Range<u32>)>,
    bounds: Option<Aabb>,
    start: GpsTime,
    end: GpsTime,
    points: Vec<las::Point>,
    k: int,
)
    requires
        query_outcome(chunks, bounds, start, end, Ok(points)),
        0 <= k < points@.len(),
    ensures
        in_window(points@[k], start, end),
        bounds matches Some(region) ==> holds_point(region, points@[k]),
{
    law_query_takes_only_wanted(chunks, bounds, start, end, k);
    let (c, i) = origins(wanted_of_chunks(chunks, bounds, start, end))[k];
    law_points_are_when_records_are(chunks[c].0, start, end, i, points@[k]);
    if let Some(region) = bounds {
        law_points_are_where_records_are(chunks[c].0, region, i, points@[k]);
    }
}

/// Filtering the points of a chunk by time is taking the points at the indices within the time
/// range: both come from the same records, one after the other. The points must be few enough to
/// count with 32 bits.
pub proof fn law_filtered_points_are_at_indices(
    chunk: Chunk,
    start: GpsTime,
    end: GpsTime,
    points: Seq<las::Point>,
)
    requires
        points.len() == chunk.count() <= 0x1_0000_0000,
        forall|i: int| 0 <= i < points.len() ==> chunk.has_point(i, #[trigger] points[i]),
    ensures
        ({
            let filtered = points.filter(|p: las::Point| in_window(p, start, end));
            let indices = indices_where(
                chunk.count(),
                |i: int| chunk.point_within(start, end, i),
            );
            &&& filtered.len() == indices.len()
            &&& forall|k: int|
                0 <= k < filtered.len() ==> chunk.has_point(
                    indices[k] as int,
                    #[trigger] filtered[k],
                )
        }),
{
    let wanted = |p: las::Point| in_window(p, start, end);
    let within = |i: int| chunk.point_within(start, end, i);
    assert forall|i: int| 0 <= i < points.len() implies wanted(#[trigger] points[i]) == within(
        i,
    ) by {
        law_points_are_when_records_are(chunk, start, end, i, points[i]);
    }
    lemma_filter_picks(points, wanted, within);
    lemma_indices_in_range(points.len() as int, within);
    let (filtered, indices) = (points.filter(wanted), indices_where(points.len() as int, within));
    assert forall|k: int| 0 <= k < filtered.len() implies chunk.has_point(
        indices[k] as int,
        #[trigger] filtered[k],
    ) by {
        assert(indices[k] < points.len());
        assert(filtered[k] == points[indices[k] as int]);
    }
}

/// Every node that a query of a time range and a region reads, a query of the region sees: where
/// both look at the same hierarchy, and `node_bounds` gives each node one box.
pub proof fn law_candidates_are_visible<F: Fn(VoxelKey) -> Aabb>(
    cache: TemporalCache,
    nodes: Map<VoxelKey, HierarchyEntry>,
    bounds: Aabb,
    node_bounds: F,
    start: GpsTime,
    end: GpsTime,
    found: Seq<(VoxelKey, Range<u32>)>,
    keys: Seq<VoxelKey>,
)
    requires
        one_box(&node_bounds),
        forall|i: int|
            0 <= i < found.len() ==> candidate(
                cache,
                nodes,
                start,
                end,
                (#[trigger] found[i]).0,
                found[i].1,
            ) && region_test(&node_bounds, found[i].0, bounds, true),
        are_visible(nodes, keys, bounds, &node_bounds, None),
    ensures
        forall|i: int| 0 <= i < found.len() ==> keys.contains((#[trigger] found[i]).0),
{
    assert forall|i: int| 0 <= i < found.len() implies keys.contains((#[trigger] found[i]).0) by {
        assert(candidate(cache, nodes, start, end, found[i].0, found[i].1));
        assert(shown(nodes, found[i].0, None));
    }
}

/// The chunks of a query, without their candidate ranges.
pub open spec fn chunks_of(chunks: Seq<(Chunk, Range<u32>)>) -> Seq<Chunk> {
    chunks.map_values(|c: (Chunk, Range<u32>)| c.0)
}

/// A query of a time range and a region returns only points that are left of those that a query of
/// the region returns, when those outside the time range are left out, each at most as often: where
/// its chunks are among those of the other, and both take chunks of different nodes, whose points
/// can be counted with 32 bits.
pub proof fn law_query_is_among_region_query(
    chunks: Seq<(Chunk, Range<u32>)>,
    more: Seq<Chunk>,
    bounds: Aabb,
    start: GpsTime,
    end: GpsTime,
    points: Vec<las::Point>,
    others: Seq<las::Point>,
)
    requires
        keys_of(chunks_of(chunks)).no_duplicates(),
        keys_of(more).no_duplicates(),
        are_among(chunks_of(chunks), more),
        forall|c: int| 0 <= c < more.len() ==> (#[trigger] more[c]).count() <= 0x1_0000_0000,
        query_outcome(chunks, Some(bounds), start, end, Ok(points)),
        are_inside(more, bounds, others),
    ensures
        points@.to_multiset().subset_of(
            others.filter(|p: las::Point| in_window(p, start, end)).to_multiset(),
        ),
{
    let picks = wanted_of_chunks(chunks, Some(bounds), start, end);
    let more_picks = more.map_values(|c: Chunk| inside_indices(c, bounds));
    let keys = keys_of(chunks_of(chunks));
    let from = sources(keys, picks);
    let more_from = sources(keys_of(more), more_picks);
    assert forall|c: int| 0 <= c < picks.len() implies (#[trigger] picks[c]).no_duplicates() by {
        let (chunk, range) = chunks[c];
        let n = if range.end <= chunk.count() {
            range.end as int
        } else {
            chunk.count()
        };
        let pred = |i: int| range.start <= i && wanted(chunk, Some(bounds), start, end, i);
        lemma_picked_once(n, pred);
        assert(picks[c] == indices_where(n, pred));
    }
    lemma_sources_differ(keys, picks);
    lemma_inside_sources_differ(more, bounds);
    assert forall|k: int| 0 <= k < from.len() implies more_from.contains(#[trigger] from[k]) by {
        let (c, i) = origins(picks)[k];
        law_query_takes_only_wanted(chunks, Some(bounds), start, end, k);
        assert(is_among(chunks_of(chunks)[c], more));
        let d = choose|d: int| 0 <= d < more.len() && same_points(chunks[c].0, #[trigger] more[d]);
        lemma_same_inside(chunks[c].0, more[d], bounds, i);
        assert(more[d].count() <= 0x1_0000_0000);
        law_region_query_is_exact(more, bounds, d, i);
        let l = choose|l: int|
            0 <= l < origins(more_picks).len() && origins(more_picks)[l] == (d, i);
        assert(more_from[l] == from[k]);
    }
    assert forall|k: int, l: int|
        #![trigger from[k], more_from[l]]
        0 <= k < from.len() && 0 <= l < more_from.len() && from[k]
            == more_from[l] implies points@[k] == others[l] by {
        let (c, i) = origins(picks)[k];
        let (e, j) = origins(more_picks)[l];
        law_query_takes_only_wanted(chunks, Some(bounds), start, end, k);
        lemma_inside_origin(more, bounds, l);
        assert(is_among(chunks_of(chunks)[c], more));
        let d = choose|d: int| 0 <= d < more.len() && same_points(chunks[c].0, #[trigger] more[d]);
        assert(keys_of(more)[d] == keys_of(more)[e]);
        assert(d == e);
        lemma_same_inside(chunks[c].0, more[d], bounds, i);
        assert(chunks[c].0.has_point(i, points@[k]));
        assert(more[e].has_point(j, others[l]));
        law_inside_points_are_placed(more[d], bounds, i);
        law_record_has_one_point(more[d], i, points@[k], others[l]);
    }
    lemma_points_among(from, points@, more_from, others);
    let keep = |p: las::Point| in_window(p, start, end);
    assert forall|p: las::Point| points@.to_multiset().count(p) <= others.filter(
        keep,
    ).to_multiset().count(p) by {
        broadcast use vstd::seq_lib::group_to_multiset_ensures;

        lemma_filter_counts(others, keep, p);
        assert(points@.to_multiset().count(p) <= others.to_multiset().count(p));
        if points@.contains(p) {
            let k = choose|k: int| 0 <= k < points@.len() && points@[k] == p;
            law_query_returns_only_inside(chunks, Some(bounds), start, end, points, k);
        }
    }
}

} // verus!
