//! Queries for points: by region, by time, by both.

use crate::chunk::{
    indices_where, law_indices_select, law_inside_points_are_placed, law_origins_are_picks,
    law_points_are_where_records_are, law_record_has_one_point, origins, Chunk,
};
use crate::error::{CopcError, TemporalError};
use crate::gps_time::GpsTime;
use crate::laws::points::{is_of_record, lemma_record};
use crate::point_cloud::{point_coordinate, point_time};
use crate::reader::{inside_indices, points_inside};
use crate::temporal_query::{
    law_points_are_when_records_are, query_points_by_time, query_points_in_bounds, wanted,
    wanted_of_chunks,
};
use crate::types::Aabb;
use std::ops::Range;
use vstd::prelude::*;

verus! {

/// Whether each coordinate of the point is between those of the box's corners.
pub open spec fn is_between(bounds: Aabb, p: las::Point) -> bool {
    &&& bounds.min[0].at_most(point_coordinate(p, 0)) && point_coordinate(p, 0).at_most(
        bounds.max[0],
    )
    &&& bounds.min[1].at_most(point_coordinate(p, 1)) && point_coordinate(p, 1).at_most(
        bounds.max[1],
    )
    &&& bounds.min[2].at_most(point_coordinate(p, 2)) && point_coordinate(p, 2).at_most(
        bounds.max[2],
    )
}

/// Whether the point has a GPS time that is not before `start` nor after `end`.
pub open spec fn is_timed(start: GpsTime, end: GpsTime, p: las::Point) -> bool {
    point_time(p) is Some && start.0.at_most(point_time(p)->0) && point_time(p)->0.at_most(end.0)
}

/// Whether each coordinate of the point is a number.
pub open spec fn has_position(p: las::Point) -> bool {
    !point_coordinate(p, 0).nan() && !point_coordinate(p, 1).nan() && !point_coordinate(p, 2).nan()
}

/// Points that are picked of several lists are the picks of each list, one list after the other.
proof fn lemma_flatten_origins<P>(all: Seq<Seq<P>>, picks: Seq<Seq<u32>>, points: Seq<P>)
    requires
        all.len() == picks.len(),
        points.len() == origins(picks).len(),
        forall|k: int|
            0 <= k < points.len() ==> #[trigger] points[k] == all[origins(picks)[k].0][origins(
                picks,
            )[k].1],
    ensures
        points == Seq::new(
            all.len(),
            |c: int| picks[c].map_values(|i: u32| all[c][i as int]),
        ).flatten(),
    decreases all.len(),
{
    let parts = Seq::new(all.len(), |c: int| picks[c].map_values(|i: u32| all[c][i as int]));
    parts.lemma_flatten_and_flatten_alt_are_equivalent();
    if all.len() == 0 {
        assert(points =~= parts.flatten());
    } else {
        let last = all.len() - 1;
        let (rest_all, rest) = (all.drop_last(), picks.drop_last());
        let n = origins(rest).len() as int;
        let before = points.take(n);
        assert forall|k: int| 0 <= k < before.len() implies #[trigger] before[k] == rest_all[origins(
            rest,
        )[k].0][origins(rest)[k].1] by {
            law_origins_are_picks(rest, k);
            assert(origins(picks)[k] == origins(rest)[k]);
            assert(before[k] == points[k]);
        }
        lemma_flatten_origins(rest_all, rest, before);
        let rest_parts = Seq::new(
            rest_all.len(),
            |c: int| rest[c].map_values(|i: u32| rest_all[c][i as int]),
        );
        assert forall|c: int| 0 <= c < last implies #[trigger] rest_parts[c] == parts[c] by {
            assert(rest_parts[c] =~= parts[c]);
        }
        assert(parts.drop_last() =~= rest_parts);
        rest_parts.lemma_flatten_and_flatten_alt_are_equivalent();
        assert forall|k: int| 0 <= k < parts[last].len() implies #[trigger] points[n + k]
            == parts[last][k] by {
            assert(origins(picks)[n + k] == (last, picks[last][k] as int));
        }
        assert(points =~= before + parts[last]);
    }
}

/// Picking the items of a range that satisfy a predicate is filtering the range.
proof fn lemma_filter_range<P>(
    items: Seq<P>,
    low: int,
    high: int,
    keep: spec_fn(P) -> bool,
    pred: spec_fn(int) -> bool,
)
    requires
        0 <= low <= high <= items.len(),
        high <= 0x1_0000_0000,
        forall|i: int| 0 <= i < low ==> !#[trigger] pred(i),
        forall|i: int| low <= i < high ==> #[trigger] pred(i) == keep(items[i]),
    ensures
        indices_where(high, pred).map_values(|i: u32| items[i as int]) == items.subrange(
            low,
            high,
        ).filter(keep),
    decreases high,
{
    reveal(Seq::filter);
    let picked = indices_where(high, pred).map_values(|i: u32| items[i as int]);
    let range = items.subrange(low, high);
    if high == low {
        lemma_none(low, pred);
        assert(range =~= Seq::empty());
        assert(picked =~= range.filter(keep));
    } else {
        lemma_filter_range(items, low, high - 1, keep, pred);
        assert(range.drop_last() =~= items.subrange(low, high - 1));
        assert(range.last() == items[high - 1]);
        assert(pred(high - 1) == keep(items[high - 1]));
        let before = indices_where(high - 1, pred);
        if pred(high - 1) {
            assert(picked =~= before.map_values(|i: u32| items[i as int]).push(items[high - 1]));
        }
    }
}

/// Nothing is picked below a number below which nothing satisfies the predicate.
proof fn lemma_none(n: int, pred: spec_fn(int) -> bool)
    requires
        forall|i: int| 0 <= i < n ==> !#[trigger] pred(i),
    ensures
        indices_where(n, pred) == Seq::<u32>::empty(),
    decreases n,
{
    if n > 0 {
        lemma_none(n - 1, pred);
    }
}

/// A query of a region returns, chunk by chunk and in order, the points of each chunk that are
/// between the corners of the region along every axis, and no others: of the chunks that were
/// decoded with all fields, where their points can be counted with 32 bits. It returns nothing of
/// the other chunks.
pub proof fn law_region_query_keeps_what_is_between(
    chunks: &[Chunk],
    bounds: Aabb,
    all: Seq<Vec<las::Point>>,
    points: Vec<las::Point>,
)
    requires
        call_ensures(points_inside, (chunks, &bounds), Ok(points)),
        all.len() == chunks@.len(),
        forall|c: int|
            0 <= c < chunks@.len() && (#[trigger] chunks@[c]).fields.bits == 0xfff ==> call_ensures(
                Chunk::to_points,
                (&chunks@[c],),
                Ok(all[c]),
            ),
        forall|c: int| 0 <= c < chunks@.len() ==> (#[trigger] chunks@[c]).count() <= 0x1_0000_0000,
    ensures
        points@ == Seq::new(
            all.len(),
            |c: int|
                if chunks@[c].fields.bits == 0xfff {
                    all[c]@.filter(|p: las::Point| is_between(bounds, p))
                } else {
                    Seq::empty()
                },
        ).flatten(),
{
    let keep = |p: las::Point| is_between(bounds, p);
    let picks = chunks@.map_values(|c: Chunk| inside_indices(c, bounds));
    let lists = Seq::new(all.len(), |c: int| all[c]@);
    let kept = |c: int|
        if chunks@[c].fields.bits == 0xfff {
            all[c]@.filter(keep)
        } else {
            Seq::empty()
        };
    assert forall|c: int| 0 <= c < chunks@.len() implies (#[trigger] picks[c]).map_values(
        |i: u32| lists[c][i as int],
    ) == kept(c) by {
        let chunk = chunks@[c];
        if chunk.fields.bits == 0xfff {
            assert(call_ensures(Chunk::to_points, (&chunks@[c],), Ok(all[c])));
            let inside = |i: int| chunk.point_inside(bounds, i);
            assert forall|i: int| 0 <= i < all[c]@.len() implies #[trigger] inside(i) == keep(
                all[c]@[i],
            ) by {
                assert(chunk.has_point(i, all[c]@[i]));
                law_points_are_where_records_are(chunk, bounds, i, all[c]@[i]);
                lemma_between(bounds, all[c]@[i]);
            }
            lemma_filter_range(all[c]@, 0, all[c]@.len() as int, keep, inside);
            assert(all[c]@.subrange(0, all[c]@.len() as int) =~= all[c]@);
            assert(picks[c] == indices_where(chunk.count(), inside));
        } else {
            assert(!crate::reader::refused(chunks@[c], bounds));
            assert(picks[c].len() == 0);
            assert(picks[c].map_values(|i: u32| lists[c][i as int]) =~= kept(c));
        }
    }
    assert forall|k: int| 0 <= k < points@.len() implies #[trigger] points@[k] == lists[origins(
        picks,
    )[k].0][origins(picks)[k].1] by {
        let (c, i) = origins(picks)[k];
        law_origins_are_picks(picks, k);
        let chunk = chunks@[c];
        assert(chunks@[c].count() <= 0x1_0000_0000);
        let inside = |i: int| chunk.point_inside(bounds, i);
        law_indices_select(chunk.count(), inside);
        assert(picks[c] == indices_where(chunk.count(), inside));
        let j = choose|j: int| 0 <= j < picks[c].len() && #[trigger] picks[c][j] == i;
        assert(inside(picks[c][j] as int));
        assert(!crate::reader::refused(chunks@[c], bounds));
        assert(call_ensures(Chunk::to_points, (&chunks@[c],), Ok(all[c])));
        assert(chunk.has_point(i, points@[k]));
        assert(chunk.has_point(i, all[c]@[i]));
        law_inside_points_are_placed(chunk, bounds, i);
        law_record_has_one_point(chunk, i, points@[k], all[c]@[i]);
    }
    lemma_flatten_origins(lists, picks, points@);
    assert(Seq::new(lists.len(), |c: int| picks[c].map_values(|i: u32| lists[c][i as int]))
        =~= Seq::new(
        all.len(),
        |c: int|
            if chunks@[c].fields.bits == 0xfff {
                all[c]@.filter(|p: las::Point| is_between(bounds, p))
            } else {
                Seq::empty()
            },
    ));
}

/// What it means for a box to hold a point, axis by axis.
proof fn lemma_between(bounds: Aabb, p: las::Point)
    ensures
        crate::chunk::holds_point(bounds, p) <==> is_between(bounds, p),
{
    if crate::chunk::holds_point(bounds, p) {
        assert(bounds.min[0].at_most(point_coordinate(p, 0)));
        assert(bounds.min[1].at_most(point_coordinate(p, 1)));
        assert(bounds.min[2].at_most(point_coordinate(p, 2)));
    }
}

/// A query of a region is refused if and only if a chunk that was decoded with a partial mask has
/// indices inside the region: with the mask of the first such chunk.
pub proof fn law_region_query_refuses_partial_masks(
    chunks: &[Chunk],
    bounds: Aabb,
    inside: Seq<Vec<u32>>,
    r: Result<Vec<las::Point>, CopcError>,
)
    requires
        call_ensures(points_inside, (chunks, &bounds), r),
        inside.len() == chunks@.len(),
        forall|c: int|
            0 <= c < chunks@.len() ==> call_ensures(
                Chunk::indices_in_bounds,
                (&(#[trigger] chunks@[c]), &bounds),
                Some(inside[c]),
            ),
    ensures
        r is Ok <==> forall|c: int|
            0 <= c < chunks@.len() ==> (#[trigger] chunks@[c]).fields.bits == 0xfff
                || inside[c]@.len() == 0,
        forall|n: int|
            0 <= n < chunks@.len() && (#[trigger] chunks@[n]).fields.bits != 0xfff
                && inside[n]@.len() > 0 && (forall|c: int|
                0 <= c < n ==> (#[trigger] chunks@[c]).fields.bits == 0xfff || inside[c]@.len()
                    == 0) ==> r == Err::<Vec<las::Point>, _>(
                CopcError::PartialDecode(chunks@[n].fields),
            ),
{
    assert forall|c: int| 0 <= c < chunks@.len() implies crate::reader::refused(
        #[trigger] chunks@[c],
        bounds,
    ) == (chunks@[c].fields.bits != 0xfff && inside[c]@.len() > 0) by {
        assert(call_ensures(Chunk::indices_in_bounds, (&chunks@[c], &bounds), Some(inside[c])));
    }
    assert forall|n: int|
        0 <= n < chunks@.len() && (#[trigger] chunks@[n]).fields.bits != 0xfff && inside[n]@.len()
            > 0 && (forall|c: int|
            0 <= c < n ==> (#[trigger] chunks@[c]).fields.bits == 0xfff || inside[c]@.len()
                == 0) implies r == Err::<Vec<las::Point>, _>(
        CopcError::PartialDecode(chunks@[n].fields),
    ) by {
        assert forall|k: int| 0 <= k < n implies !crate::reader::refused(
            #[trigger] chunks@[k],
            bounds,
        ) by {}
        assert(crate::reader::first_refused(chunks@, bounds, n));
    }
}

/// The part of a chunk's points that a candidate range selects.
pub open spec fn in_range(points: Seq<las::Point>, range: Range<u32>) -> Seq<las::Point> {
    points.subrange(
        range.start as int,
        if range.end <= points.len() {
            range.end as int
        } else {
            points.len() as int
        },
    )
}

/// A query of a time range returns, chunk by chunk and in order, the points of each candidate range
/// that have a GPS time in the time range, and no others: where the chunks were decoded with all
/// fields, and arithmetic makes a number of each coordinate.
pub proof fn law_time_query_keeps_the_times(
    chunks: &[(Chunk, Range<u32>)],
    start: GpsTime,
    end: GpsTime,
    all: Seq<Vec<las::Point>>,
    r: Result<Vec<las::Point>, TemporalError>,
)
    requires
        call_ensures(query_points_by_time, (chunks, start, end), r),
        all.len() == chunks@.len(),
        forall|c: int|
            0 <= c < chunks@.len() ==> call_ensures(
                Chunk::to_points,
                (&(#[trigger] chunks@[c]).0,),
                Ok(all[c]),
            ),
        forall|c: int|
            0 <= c < chunks@.len() ==> (#[trigger] chunks@[c]).1.start <= chunks@[c].1.end
                && chunks@[c].1.start <= all[c]@.len(),
        forall|c: int, i: int|
            0 <= c < chunks@.len() && 0 <= i < all[c]@.len() ==> has_position(
                #[trigger] all[c]@[i],
            ),
    ensures
        r matches Ok(points) && points@ == Seq::new(
            all.len(),
            |c: int|
                in_range(all[c]@, chunks@[c].1).filter(|p: las::Point| is_timed(start, end, p)),
        ).flatten(),
{
    let keep = |p: las::Point| is_timed(start, end, p);
    lemma_time_query(chunks@, None, start, end, all, keep, r);
}

/// A query of a time range and a region returns, chunk by chunk and in order, the points of each
/// candidate range that have a GPS time in the time range and are between the corners of the region
/// along every axis, and no others: where the chunks were decoded with all fields.
pub proof fn law_time_and_region_query_keeps_both(
    chunks: &[(Chunk, Range<u32>)],
    bounds: Aabb,
    start: GpsTime,
    end: GpsTime,
    all: Seq<Vec<las::Point>>,
    r: Result<Vec<las::Point>, TemporalError>,
)
    requires
        call_ensures(query_points_in_bounds, (chunks, &bounds, start, end), r),
        all.len() == chunks@.len(),
        forall|c: int|
            0 <= c < chunks@.len() ==> call_ensures(
                Chunk::to_points,
                (&(#[trigger] chunks@[c]).0,),
                Ok(all[c]),
            ),
        forall|c: int|
            0 <= c < chunks@.len() ==> (#[trigger] chunks@[c]).1.start <= chunks@[c].1.end
                && chunks@[c].1.start <= all[c]@.len(),
    ensures
        r matches Ok(points) && points@ == Seq::new(
            all.len(),
            |c: int|
                in_range(all[c]@, chunks@[c].1).filter(
                    |p: las::Point| is_timed(start, end, p) && is_between(bounds, p),
                ),
        ).flatten(),
{
    let keep = |p: las::Point| is_timed(start, end, p) && is_between(bounds, p);
    lemma_time_query(chunks@, Some(bounds), start, end, all, keep, r);
}

/// What a query of a time range comes to, with or without a region.
proof fn lemma_time_query(
    chunks: Seq<(Chunk, Range<u32>)>,
    bounds: Option<Aabb>,
    start: GpsTime,
    end: GpsTime,
    all: Seq<Vec<las::Point>>,
    keep: spec_fn(las::Point) -> bool,
    r: Result<Vec<las::Point>, TemporalError>,
)
    requires
        crate::temporal_query::query_outcome(chunks, bounds, start, end, r),
        all.len() == chunks.len(),
        forall|c: int|
            0 <= c < chunks.len() ==> call_ensures(
                Chunk::to_points,
                (&(#[trigger] chunks[c]).0,),
                Ok(all[c]),
            ),
        forall|c: int|
            0 <= c < chunks.len() ==> (#[trigger] chunks[c]).1.start <= chunks[c].1.end
                && chunks[c].1.start <= all[c]@.len(),
        bounds is None ==> forall|c: int, i: int|
            0 <= c < chunks.len() && 0 <= i < all[c]@.len() ==> has_position(
                #[trigger] all[c]@[i],
            ),
        forall|p: las::Point| #[trigger]
            keep(p) <==> is_timed(start, end, p) && (bounds matches Some(b) ==> is_between(b, p)),
    ensures
        r matches Ok(points) && points@ == Seq::new(
            all.len(),
            |c: int| in_range(all[c]@, chunks[c].1).filter(keep),
        ).flatten(),
{
    assert forall|c: int| 0 <= c < chunks.len() implies (#[trigger] chunks[c]).0.fields.bits
        == crate::fields::ALL by {
        assert(call_ensures(Chunk::to_points, (&chunks[c].0,), Ok(all[c])));
    }
    let picks = wanted_of_chunks(chunks, bounds, start, end);
    let lists = Seq::new(all.len(), |c: int| all[c]@);
    let points = r->Ok_0@;
    assert forall|c: int| 0 <= c < chunks.len() implies (#[trigger] picks[c]).map_values(
        |i: u32| lists[c][i as int],
    ) == in_range(all[c]@, chunks[c].1).filter(keep) by {
        let (chunk, range) = chunks[c];
        assert(call_ensures(Chunk::to_points, (&chunks[c].0,), Ok(all[c])));
        let high = if range.end <= chunk.count() {
            range.end as int
        } else {
            chunk.count()
        };
        let pred = |i: int| range.start <= i && wanted(chunk, bounds, start, end, i);
        assert forall|i: int| range.start <= i < high implies #[trigger] pred(i) == keep(
            all[c]@[i],
        ) by {
            lemma_wanted(chunk, bounds, start, end, i, all[c]@[i]);
        }
        lemma_filter_range(all[c]@, range.start as int, high, keep, pred);
        assert(picks[c] == indices_where(high, pred));
    }
    assert forall|k: int| 0 <= k < points.len() implies #[trigger] points[k] == lists[origins(
        picks,
    )[k].0][origins(picks)[k].1] by {
        let (c, i) = origins(picks)[k];
        crate::temporal_query::law_query_takes_only_wanted(chunks, bounds, start, end, k);
        let chunk = chunks[c].0;
        assert(call_ensures(Chunk::to_points, (&chunks[c].0,), Ok(all[c])));
        assert(chunk.has_point(i, points[k]));
        assert(chunk.has_point(i, all[c]@[i]));
        if let Some(b) = bounds {
            law_inside_points_are_placed(chunk, b, i);
        } else {
            assert(has_position(all[c]@[i]));
        }
        law_record_has_one_point(chunk, i, points[k], all[c]@[i]);
    }
    lemma_flatten_origins(lists, picks, points);
    assert(Seq::new(lists.len(), |c: int| picks[c].map_values(|i: u32| lists[c][i as int]))
        =~= Seq::new(all.len(), |c: int| in_range(all[c]@, chunks[c].1).filter(keep)));
}

/// A point is taken by its time and its position.
proof fn lemma_wanted(
    chunk: Chunk,
    bounds: Option<Aabb>,
    start: GpsTime,
    end: GpsTime,
    i: int,
    p: las::Point,
)
    requires
        chunk.has_point(i, p),
    ensures
        wanted(chunk, bounds, start, end, i) <==> is_timed(start, end, p) && (bounds matches Some(
            b,
        ) ==> is_between(b, p)),
{
    law_points_are_when_records_are(chunk, start, end, i, p);
    if let Some(b) = bounds {
        law_points_are_where_records_are(chunk, b, i, p);
        lemma_between(b, p);
    }
}

/// A query of a time range, with or without a region, misses no point of a candidate range that has
/// a GPS time in the time range and, where there is one, is between the corners of the region: the
/// point of its record is among those returned. This holds of points without a position too.
pub proof fn law_time_query_misses_no_point(
    chunks: &[(Chunk, Range<u32>)],
    bounds: Aabb,
    start: GpsTime,
    end: GpsTime,
    by_time: Result<Vec<las::Point>, TemporalError>,
    by_both: Result<Vec<las::Point>, TemporalError>,
    c: int,
    all: Vec<las::Point>,
    i: int,
)
    requires
        call_ensures(query_points_by_time, (chunks, start, end), by_time),
        call_ensures(query_points_in_bounds, (chunks, &bounds, start, end), by_both),
        0 <= c < chunks@.len(),
        call_ensures(Chunk::to_points, (&chunks@[c].0,), Ok(all)),
        chunks@[c].1.start <= i < chunks@[c].1.end,
        i < all@.len(),
        is_timed(start, end, all@[i]),
    ensures
        by_time matches Ok(points) ==> exists|k: int|
            0 <= k < points@.len() && is_of_record(chunks@[c].0, i, #[trigger] points@[k]),
        by_both matches Ok(points) ==> is_between(bounds, all@[i]) ==> exists|k: int|
            0 <= k < points@.len() && is_of_record(chunks@[c].0, i, #[trigger] points@[k]),
{
    let p = all@[i];
    let chunk = chunks@[c].0;
    assert(chunk.has_point(i, p));
    lemma_record(chunk, i);
    if let Ok(points) = by_time {
        lemma_wanted(chunks@[c].0, None, start, end, i, p);
        crate::temporal_query::law_query_takes_all_wanted(chunks@, None, start, end, c, i);
        let from = origins(wanted_of_chunks(chunks@, None, start, end));
        let k = choose|k: int| 0 <= k < from.len() && from[k] == (c, i);
        assert(chunks@[c].0.has_point(i, points@[k]));
        assert(is_of_record(chunk, i, points@[k]));
    }
    if let Ok(points) = by_both {
        if is_between(bounds, p) {
            lemma_wanted(chunks@[c].0, Some(bounds), start, end, i, p);
            crate::temporal_query::law_query_takes_all_wanted(
                chunks@,
                Some(bounds),
                start,
                end,
                c,
                i,
            );
            let from = origins(wanted_of_chunks(chunks@, Some(bounds), start, end));
            let k = choose|k: int| 0 <= k < from.len() && from[k] == (c, i);
            assert(chunks@[c].0.has_point(i, points@[k]));
            assert(is_of_record(chunk, i, points@[k]));
        }
    }
}

/// A query of a time range is refused if and only if a chunk was decoded with a partial mask: with
/// the mask of the first that was.
pub proof fn law_time_query_refuses_partial_masks(
    chunks: &[(Chunk, Range<u32>)],
    bounds: Aabb,
    start: GpsTime,
    end: GpsTime,
    by_time: Result<Vec<las::Point>, TemporalError>,
    by_both: Result<Vec<las::Point>, TemporalError>,
)
    requires
        call_ensures(query_points_by_time, (chunks, start, end), by_time),
        call_ensures(query_points_in_bounds, (chunks, &bounds, start, end), by_both),
    ensures
        by_time is Ok <==> forall|c: int|
            0 <= c < chunks@.len() ==> (#[trigger] chunks@[c]).0.fields.bits == 0xfff,
        by_both is Ok <==> by_time is Ok,
        forall|n: int|
            0 <= n < chunks@.len() && (#[trigger] chunks@[n]).0.fields.bits != 0xfff && (forall|
                c: int,
            |
                0 <= c < n ==> (#[trigger] chunks@[c]).0.fields.bits == 0xfff) ==> {
                let refusal = TemporalError::Copc(CopcError::PartialDecode(chunks@[n].0.fields));
                by_time == Err::<Vec<las::Point>, _>(refusal) && by_both == Err::<
                    Vec<las::Point>,
                    _,
                >(refusal)
            },
{
    assert forall|n: int|
        0 <= n < chunks@.len() && (#[trigger] chunks@[n]).0.fields.bits != 0xfff && (forall|c: int|
            0 <= c < n ==> (#[trigger] chunks@[c]).0.fields.bits == 0xfff) implies {
        let refusal = TemporalError::Copc(CopcError::PartialDecode(chunks@[n].0.fields));
        by_time == Err::<Vec<las::Point>, _>(refusal) && by_both == Err::<Vec<las::Point>, _>(
            refusal,
        )
    } by {
        assert(crate::temporal_query::first_partial(chunks@, n));
    }
}

} // verus!
