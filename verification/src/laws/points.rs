//! The points of a chunk.
//!
//! A chunk holds its points as records of bytes, one after the other, all of the same length. The
//! laws say where in a record each column finds its values, by what stands there.

use crate::binary64::{Binary32, Binary64};
use crate::bytes::{
    i32_at, i32_bytes, law_i32_reads_back, law_u16_reads_back, law_u64_reads_back, stands_at,
    u16_at, u16_bytes, u64_at, u64_bytes,
};
use crate::chunk::{indices_where, law_indices_select, Chunk};
use crate::error::CopcError;
use crate::fields::Fields;
use crate::gps_time::GpsTime;
use crate::laws::masks::lemma_single_bits;
use crate::point_cloud::{
    cloud_bytes, cloud_format, cloud_transforms, degrees, is_point, point_coordinate, point_time,
    world,
};
use crate::temporal_query::{filter_points_by_time, in_window, indices_in_time_range};
use crate::types::{Aabb, VoxelKey};
use vstd::prelude::*;

verus! {

/// The length of a chunk's records.
pub open spec fn record_len(chunk: Chunk) -> int {
    cloud_format(chunk.cloud).record_len()
}

/// Records stand one after the other, without a gap and with nothing left over.
pub proof fn law_records_fill_the_chunk(chunk: Chunk, n: usize, empty: bool, whole: usize)
    requires
        call_ensures(Chunk::point_count, (&chunk,), n),
        call_ensures(Chunk::is_empty, (&chunk,), empty),
        call_ensures(las::PointData::len, (&chunk.cloud,), whole),
    ensures
        n * record_len(chunk) == cloud_bytes(chunk.cloud).len(),
        empty <==> cloud_bytes(chunk.cloud).len() == 0,
        empty <==> n == 0,
{
    assert(n == 0 <==> n * record_len(chunk) == 0) by (nonlinear_arith)
        requires
            record_len(chunk) > 0,
            n >= 0,
    ;
}

/// The bytes of a record are those at its place in the chunk.
pub(crate) proof fn lemma_record(chunk: Chunk, i: int)
    requires
        0 <= i < chunk.count(),
    ensures
        0 <= i * record_len(chunk),
        i * record_len(chunk) + record_len(chunk) <= cloud_bytes(chunk.cloud).len(),
        chunk.record(i) == cloud_bytes(chunk.cloud).subrange(
            i * record_len(chunk),
            i * record_len(chunk) + record_len(chunk),
        ),
        forall|k: int|
            0 <= k && k + 2 <= record_len(chunk) ==> #[trigger] u16_at(chunk.record(i), k)
                == u16_at(cloud_bytes(chunk.cloud), i * record_len(chunk) + k),
        forall|k: int|
            0 <= k && k + 4 <= record_len(chunk) ==> #[trigger] i32_at(chunk.record(i), k)
                == i32_at(cloud_bytes(chunk.cloud), i * record_len(chunk) + k),
        forall|k: int|
            0 <= k && k + 8 <= record_len(chunk) ==> #[trigger] u64_at(chunk.record(i), k)
                == u64_at(cloud_bytes(chunk.cloud), i * record_len(chunk) + k),
        forall|k: int|
            0 <= k < record_len(chunk) ==> #[trigger] chunk.record(i)[k] == cloud_bytes(
                chunk.cloud,
            )[i * record_len(chunk) + k],
{
    let len = record_len(chunk);
    let bytes = cloud_bytes(chunk.cloud);
    let n = chunk.count();
    vstd::arithmetic::div_mod::lemma_fundamental_div_mod(bytes.len() as int, len);
    vstd::arithmetic::div_mod::lemma_mod_bound(bytes.len() as int, len);
    assert(0 <= i * len && i * len + len <= len * n) by (nonlinear_arith)
        requires
            0 <= i < n,
            len > 0,
    ;
}

/// The columns that every record has: they are there if and only if the mask has the field, one
/// value for each point, and hold what stands in the records.
pub proof fn law_common_columns(
    chunk: Chunk,
    positions: Option<Vec<[Binary64; 3]>>,
    intensity: Option<Vec<u16>>,
    user_data: Option<Vec<u8>>,
    i: int,
    x: i32,
    y: i32,
    z: i32,
    level: u16,
)
    requires
        call_ensures(Chunk::positions, (&chunk,), positions),
        call_ensures(Chunk::intensity, (&chunk,), intensity),
        call_ensures(Chunk::user_data, (&chunk,), user_data),
        0 <= i < chunk.count(),
        stands_at(
            cloud_bytes(chunk.cloud),
            i * record_len(chunk),
            i32_bytes(x) + i32_bytes(y) + i32_bytes(z) + u16_bytes(level),
        ),
    ensures
        positions is Some <==> chunk.fields.bits & 0x1 != 0,
        intensity is Some <==> chunk.fields.bits & 0x2 != 0,
        user_data is Some <==> chunk.fields.bits & 0x20 != 0,
        positions matches Some(column) ==> column@.len() == chunk.count() && {
            let transforms = cloud_transforms(chunk.cloud);
            &&& column@[i][0].same(world(transforms, 0, x))
            &&& column@[i][1].same(world(transforms, 1, y))
            &&& column@[i][2].same(world(transforms, 2, z))
        },
        intensity matches Some(column) ==> column@.len() == chunk.count() && column@[i] == level,
        user_data matches Some(column) ==> column@.len() == chunk.count() && column@[i]
            == cloud_bytes(chunk.cloud)[i * record_len(chunk) + 17],
{
    let bytes = cloud_bytes(chunk.cloud);
    let at = i * record_len(chunk);
    lemma_single_bits(chunk.fields.bits);
    lemma_record(chunk, i);
    lemma_common(bytes, at, x, y, z, level);
    if let Some(column) = positions {
        assert(chunk.has_position(i, column@[i]));
    }
}

/// Coordinates and intensity are read back from the beginning of a record.
proof fn lemma_common(bytes: Seq<u8>, at: int, x: i32, y: i32, z: i32, level: u16)
    requires
        stands_at(bytes, at, i32_bytes(x) + i32_bytes(y) + i32_bytes(z) + u16_bytes(level)),
    ensures
        i32_at(bytes, at) == x,
        i32_at(bytes, at + 4) == y,
        i32_at(bytes, at + 8) == z,
        u16_at(bytes, at + 12) == level,
{
    crate::bytes::lemma_number_sizes();
    let (bx, by, bz) = (i32_bytes(x), i32_bytes(y), i32_bytes(z));
    crate::bytes::lemma_stands_split(bytes, at, bx + by + bz, u16_bytes(level));
    crate::bytes::lemma_stands_split(bytes, at, bx + by, bz);
    crate::bytes::lemma_stands_split(bytes, at, bx, by);
    law_i32_reads_back(bytes, at, x);
    law_i32_reads_back(bytes, at + 4, y);
    law_i32_reads_back(bytes, at + 8, z);
    law_u16_reads_back(bytes, at + 12, level);
}

/// The columns of extended records (formats 6 to 10): flags of three bytes, then user data, a scan
/// angle of two bytes, the point source id, the GPS time, the colour, near infrared.
pub proof fn law_extended_columns(
    chunk: Chunk,
    classification: Option<Vec<u8>>,
    scan_angle: Option<Vec<Binary32>>,
    point_source_id: Option<Vec<u16>>,
    gps_time: Option<Vec<Binary64>>,
    i: int,
    angle: i16,
    source: u16,
    time: u64,
)
    requires
        call_ensures(Chunk::classification, (&chunk,), classification),
        call_ensures(Chunk::scan_angle, (&chunk,), scan_angle),
        call_ensures(Chunk::point_source_id, (&chunk,), point_source_id),
        call_ensures(Chunk::gps_time, (&chunk,), gps_time),
        0 <= i < chunk.count(),
        cloud_format(chunk.cloud).is_extended,
        cloud_format(chunk.cloud).has_gps_time,
        stands_at(
            cloud_bytes(chunk.cloud),
            i * record_len(chunk) + 18,
            u16_bytes(
                (if angle >= 0 {
                    angle as int
                } else {
                    angle + 0x1_0000
                }) as u16,
            ) + u16_bytes(source) + u64_bytes(time),
        ),
    ensures
        classification is Some <==> chunk.fields.bits & 0x4 != 0,
        scan_angle is Some <==> chunk.fields.bits & 0x10 != 0,
        point_source_id is Some <==> chunk.fields.bits & 0x40 != 0,
        gps_time is Some <==> chunk.fields.bits & 0x80 != 0,
        classification matches Some(column) ==> column@.len() == chunk.count() && column@[i]
            == cloud_bytes(chunk.cloud)[i * record_len(chunk) + 16],
        scan_angle matches Some(column) ==> column@.len() == chunk.count() && column@[i]
            == degrees(true, angle as int),
        point_source_id matches Some(column) ==> column@.len() == chunk.count() && column@[i]
            == source,
        gps_time matches Some(column) ==> column@.len() == chunk.count() && column@[i].same(
            Binary64 { bits: time },
        ),
{
    let bytes = cloud_bytes(chunk.cloud);
    let at = i * record_len(chunk);
    let stored = (if angle >= 0 {
        angle as int
    } else {
        angle + 0x1_0000
    }) as u16;
    lemma_single_bits(chunk.fields.bits);
    lemma_record(chunk, i);
    crate::bytes::lemma_number_sizes();
    let (a, s) = (u16_bytes(stored), u16_bytes(source));
    crate::bytes::lemma_stands_split(bytes, at + 18, a + s, u64_bytes(time));
    crate::bytes::lemma_stands_split(bytes, at + 18, a, s);
    law_u16_reads_back(bytes, at + 18, stored);
    law_u16_reads_back(bytes, at + 20, source);
    law_u64_reads_back(bytes, at + 22, time);
}

/// Colour and near infrared of extended records stand behind the GPS time, in this order.
pub proof fn law_color_columns(
    chunk: Chunk,
    rgb: Option<Vec<(u16, u16, u16)>>,
    nir: Option<Vec<u16>>,
    i: int,
    red: u16,
    green: u16,
    blue: u16,
)
    requires
        call_ensures(Chunk::rgb, (&chunk,), rgb),
        call_ensures(Chunk::nir, (&chunk,), nir),
        0 <= i < chunk.count(),
        cloud_format(chunk.cloud).is_extended,
        cloud_format(chunk.cloud).has_gps_time,
        cloud_format(chunk.cloud).has_color,
        stands_at(
            cloud_bytes(chunk.cloud),
            i * record_len(chunk) + 30,
            u16_bytes(red) + u16_bytes(green) + u16_bytes(blue),
        ),
    ensures
        rgb is Some <==> chunk.fields.bits & 0x100 != 0,
        nir is Some <==> chunk.fields.bits & 0x200 != 0 && cloud_format(chunk.cloud).has_nir,
        rgb matches Some(column) ==> column@.len() == chunk.count() && column@[i] == (
            red,
            green,
            blue,
        ),
        nir matches Some(column) ==> column@.len() == chunk.count() && forall|value: u16|
            #[trigger] stands_at(
                cloud_bytes(chunk.cloud),
                i * record_len(chunk) + 36,
                u16_bytes(value),
            ) ==> column@[i] == value,
{
    let bytes = cloud_bytes(chunk.cloud);
    let at = i * record_len(chunk);
    lemma_single_bits(chunk.fields.bits);
    lemma_record(chunk, i);
    let (r, g, b) = (u16_bytes(red), u16_bytes(green), u16_bytes(blue));
    crate::bytes::lemma_stands_split(bytes, at + 30, r + g, b);
    crate::bytes::lemma_stands_split(bytes, at + 30, r, g);
    law_u16_reads_back(bytes, at + 30, red);
    law_u16_reads_back(bytes, at + 32, green);
    law_u16_reads_back(bytes, at + 34, blue);
    assert forall|value: u16| #[trigger] stands_at(bytes, at + 36, u16_bytes(value)) implies u16_at(
        bytes,
        at + 36,
    ) == value by {
        law_u16_reads_back(bytes, at + 36, value);
    }
}

/// The columns of legacy records (formats 0 to 5): the classification is the low five bits of a
/// byte, the scan angle a byte before the user data; the GPS time follows the point source id, the
/// colour follows that, or the point source id where there is no GPS time.
pub proof fn law_legacy_columns(
    chunk: Chunk,
    classification: Option<Vec<u8>>,
    scan_angle: Option<Vec<Binary32>>,
    point_source_id: Option<Vec<u16>>,
    gps_time: Option<Vec<Binary64>>,
    rgb: Option<Vec<(u16, u16, u16)>>,
    i: int,
    source: u16,
    time: u64,
    red: u16,
    green: u16,
    blue: u16,
)
    requires
        call_ensures(Chunk::classification, (&chunk,), classification),
        call_ensures(Chunk::scan_angle, (&chunk,), scan_angle),
        call_ensures(Chunk::point_source_id, (&chunk,), point_source_id),
        call_ensures(Chunk::gps_time, (&chunk,), gps_time),
        call_ensures(Chunk::rgb, (&chunk,), rgb),
        0 <= i < chunk.count(),
        !cloud_format(chunk.cloud).is_extended,
        stands_at(
            cloud_bytes(chunk.cloud),
            i * record_len(chunk) + 18,
            u16_bytes(source) + (if cloud_format(chunk.cloud).has_gps_time {
                u64_bytes(time)
            } else {
                Seq::empty()
            }) + (if cloud_format(chunk.cloud).has_color {
                u16_bytes(red) + u16_bytes(green) + u16_bytes(blue)
            } else {
                Seq::empty()
            }),
        ),
    ensures
        gps_time is Some <==> chunk.fields.bits & 0x80 != 0 && cloud_format(
            chunk.cloud,
        ).has_gps_time,
        rgb is Some <==> chunk.fields.bits & 0x100 != 0 && cloud_format(chunk.cloud).has_color,
        classification matches Some(column) ==> column@[i] as int == cloud_bytes(chunk.cloud)[i
            * record_len(chunk) + 15] % 32,
        scan_angle matches Some(column) ==> column@[i] == ({
            let stored = cloud_bytes(chunk.cloud)[i * record_len(chunk) + 16] as int;
            degrees(
                false,
                if stored < 0x80 {
                    stored
                } else {
                    stored - 0x100
                },
            )
        }),
        point_source_id matches Some(column) ==> column@[i] == source,
        gps_time matches Some(column) ==> column@.len() == chunk.count() && column@[i].same(
            Binary64 { bits: time },
        ),
        rgb matches Some(column) ==> column@.len() == chunk.count() && column@[i] == (
            red,
            green,
            blue,
        ),
{
    let bytes = cloud_bytes(chunk.cloud);
    let at = i * record_len(chunk);
    let format = cloud_format(chunk.cloud);
    lemma_single_bits(chunk.fields.bits);
    lemma_record(chunk, i);
    crate::bytes::lemma_number_sizes();
    let s = u16_bytes(source);
    let t = if format.has_gps_time {
        u64_bytes(time)
    } else {
        Seq::empty()
    };
    let (r, g, b) = (u16_bytes(red), u16_bytes(green), u16_bytes(blue));
    let c = if format.has_color {
        r + g + b
    } else {
        Seq::empty()
    };
    crate::bytes::lemma_stands_split(bytes, at + 18, s + t, c);
    crate::bytes::lemma_stands_split(bytes, at + 18, s, t);
    law_u16_reads_back(bytes, at + 18, source);
    if format.has_gps_time {
        law_u64_reads_back(bytes, at + 20, time);
    }
    if format.has_color {
        let from = at + 20 + t.len();
        crate::bytes::lemma_stands_split(bytes, from, r + g, b);
        crate::bytes::lemma_stands_split(bytes, from, r, g);
        law_u16_reads_back(bytes, from, red);
        law_u16_reads_back(bytes, from + 2, green);
        law_u16_reads_back(bytes, from + 4, blue);
    }
}

/// A column is there if and only if the mask has its field and the format has its values; each
/// column has one value for each point.
pub proof fn law_columns_are_by_mask_and_format(
    chunk: Chunk,
    n: usize,
    classification: Option<Vec<u8>>,
    scan_angle: Option<Vec<Binary32>>,
    point_source_id: Option<Vec<u16>>,
    gps_time: Option<Vec<Binary64>>,
    rgb: Option<Vec<(u16, u16, u16)>>,
    nir: Option<Vec<u16>>,
)
    requires
        call_ensures(Chunk::point_count, (&chunk,), n),
        call_ensures(Chunk::classification, (&chunk,), classification),
        call_ensures(Chunk::scan_angle, (&chunk,), scan_angle),
        call_ensures(Chunk::point_source_id, (&chunk,), point_source_id),
        call_ensures(Chunk::gps_time, (&chunk,), gps_time),
        call_ensures(Chunk::rgb, (&chunk,), rgb),
        call_ensures(Chunk::nir, (&chunk,), nir),
    ensures
        ({
            let (bits, format) = (chunk.fields.bits, cloud_format(chunk.cloud));
            &&& classification is Some <==> bits & 0x4 != 0
            &&& scan_angle is Some <==> bits & 0x10 != 0
            &&& point_source_id is Some <==> bits & 0x40 != 0
            &&& gps_time is Some <==> bits & 0x80 != 0 && format.has_gps_time
            &&& rgb is Some <==> bits & 0x100 != 0 && format.has_color
            &&& nir is Some <==> bits & 0x200 != 0 && format.has_nir
        }),
        classification matches Some(column) ==> column@.len() == n,
        scan_angle matches Some(column) ==> column@.len() == n,
        point_source_id matches Some(column) ==> column@.len() == n,
        gps_time matches Some(column) ==> column@.len() == n,
        rgb matches Some(column) ==> column@.len() == n,
        nir matches Some(column) ==> column@.len() == n,
{
    lemma_single_bits(chunk.fields.bits);
}

/// A chunk is made of what it is given, and shows it.
pub proof fn law_chunk_keeps_its_parts(
    key: VoxelKey,
    fields: Fields,
    cloud: las::PointData,
    chunk: Chunk,
    shown: &las::PointData,
)
    requires
        call_ensures(Chunk::new, (key, fields, cloud), chunk),
        call_ensures(Chunk::cloud, (&chunk,), shown),
    ensures
        chunk.key == key,
        chunk.fields == fields,
        *shown == cloud,
        chunk.cloud == cloud,
{
}

/// All points of a chunk are made of its records, one after the other; the points at indices of the
/// records with those numbers. A partial mask refuses both, and nothing else does.
pub proof fn law_points_are_made_of_records(
    chunk: Chunk,
    indices: &[u32],
    n: usize,
    all: Result<Vec<las::Point>, CopcError>,
    some: Result<Vec<las::Point>, CopcError>,
)
    requires
        call_ensures(Chunk::point_count, (&chunk,), n),
        call_ensures(Chunk::to_points, (&chunk,), all),
        call_ensures(Chunk::points_at, (&chunk, indices), some),
        forall|k: int| 0 <= k < indices@.len() ==> (#[trigger] indices@[k]) < chunk.count(),
    ensures
        all is Ok <==> chunk.fields.bits == 0xfff,
        some is Ok <==> chunk.fields.bits == 0xfff,
        all matches Err(e) ==> e == CopcError::PartialDecode(chunk.fields),
        some matches Err(e) ==> e == CopcError::PartialDecode(chunk.fields),
        all matches Ok(points) ==> {
            &&& points@.len() == n
            &&& forall|i: int|
                0 <= i < points@.len() ==> is_of_record(chunk, i, #[trigger] points@[i])
        },
        some matches Ok(points) ==> {
            &&& points@.len() == indices@.len()
            &&& forall|k: int|
                0 <= k < points@.len() ==> is_of_record(
                    chunk,
                    indices@[k] as int,
                    #[trigger] points@[k],
                )
        },
{
    if let Ok(points) = all {
        assert forall|i: int| 0 <= i < points@.len() implies is_of_record(
            chunk,
            i,
            #[trigger] points@[i],
        ) by {
            lemma_record(chunk, i);
        }
    }
    if let Ok(points) = some {
        assert forall|k: int| 0 <= k < points@.len() implies is_of_record(
            chunk,
            indices@[k] as int,
            #[trigger] points@[k],
        ) by {
            assert(indices@[k] < chunk.count());
            lemma_record(chunk, indices@[k] as int);
        }
    }
}

/// Whether the point is made of the bytes of the record with this number, with the format and the
/// transforms of the chunk, and has the time and the position that stand there.
pub open spec fn is_of_record(chunk: Chunk, i: int, point: las::Point) -> bool {
    let bytes = cloud_bytes(chunk.cloud);
    let at = i * record_len(chunk);
    let format = cloud_format(chunk.cloud);
    let transforms = cloud_transforms(chunk.cloud);
    &&& is_point(point, bytes.subrange(at, at + record_len(chunk)), format, transforms)
    &&& point_time(point) is Some <==> format.has_gps_time
    &&& point_time(point) matches Some(t) ==> t.same(
        Binary64 {
            bits: u64_at(
                bytes,
                at + if format.is_extended {
                    22int
                } else {
                    20
                },
            ),
        },
    )
    &&& point_coordinate(point, 0).same(world(transforms, 0, i32_at(bytes, at)))
    &&& point_coordinate(point, 1).same(world(transforms, 1, i32_at(bytes, at + 4)))
    &&& point_coordinate(point, 2).same(world(transforms, 2, i32_at(bytes, at + 8)))
}

/// The indices inside a box are those of the positions between its corners along every axis, each
/// once and in order; they are there if and only if positions are.
pub proof fn law_indices_in_bounds(
    chunk: Chunk,
    bounds: Aabb,
    positions: Option<Vec<[Binary64; 3]>>,
    indices: Option<Vec<u32>>,
)
    requires
        call_ensures(Chunk::positions, (&chunk,), positions),
        call_ensures(Chunk::indices_in_bounds, (&chunk, &bounds), indices),
        chunk.count() <= 0x1_0000_0000,
    ensures
        indices is Some <==> positions is Some,
        indices matches Some(picked) ==> {
            let at = positions->0@;
            &&& forall|k: int, l: int|
                0 <= k < l < picked@.len() ==> (#[trigger] picked@[k]) < (#[trigger] picked@[l])
            &&& forall|i: int|
                0 <= i < at.len() ==> (picked@.contains(i as u32) <==> {
                    &&& bounds.min[0].at_most((#[trigger] at[i])[0]) && at[i][0].at_most(
                        bounds.max[0],
                    )
                    &&& bounds.min[1].at_most(at[i][1]) && at[i][1].at_most(bounds.max[1])
                    &&& bounds.min[2].at_most(at[i][2]) && at[i][2].at_most(bounds.max[2])
                })
            &&& forall|k: int|
                0 <= k < picked@.len() ==> (#[trigger] picked@[k]) < at.len()
        },
{
    if let Some(picked) = indices {
        let at = positions->0@;
        let inside = |i: int| chunk.point_inside(bounds, i);
        let n = chunk.count();
        assert(n >= 0) by {
            vstd::arithmetic::div_mod::lemma_div_pos_is_pos(
                cloud_bytes(chunk.cloud).len() as int,
                record_len(chunk),
            );
        }
        law_indices_select(n, inside);
        assert(picked@ == indices_where(n, inside));
        assert forall|i: int| 0 <= i < at.len() implies (picked@.contains(i as u32) <==> {
            &&& bounds.min[0].at_most((#[trigger] at[i])[0]) && at[i][0].at_most(bounds.max[0])
            &&& bounds.min[1].at_most(at[i][1]) && at[i][1].at_most(bounds.max[1])
            &&& bounds.min[2].at_most(at[i][2]) && at[i][2].at_most(bounds.max[2])
        }) by {
            assert(chunk.has_position(i, at[i]));
            chunk.lemma_one_position(bounds, i, at[i]);
            assert(inside(i) == bounds.holds(at[i]));
            lemma_holds(bounds, at[i]);
            if picked@.contains(i as u32) {
                let k = choose|k: int| 0 <= k < picked@.len() && picked@[k] == i as u32;
                assert(inside(picked@[k] as int));
            }
        }
    }
}

/// What a box holds, axis by axis.
proof fn lemma_holds(bounds: Aabb, p: [Binary64; 3])
    ensures
        bounds.holds(p) <==> {
            &&& bounds.min[0].at_most(p[0]) && p[0].at_most(bounds.max[0])
            &&& bounds.min[1].at_most(p[1]) && p[1].at_most(bounds.max[1])
            &&& bounds.min[2].at_most(p[2]) && p[2].at_most(bounds.max[2])
        },
{
    if bounds.holds(p) {
        assert(bounds.min[0].at_most(p[0]));
        assert(bounds.min[1].at_most(p[1]));
        assert(bounds.min[2].at_most(p[2]));
    }
}

/// The indices within a time range are those of the GPS times in it, each once and in order; they
/// are there if and only if GPS times are.
pub proof fn law_indices_in_time_range(
    chunk: Chunk,
    start: GpsTime,
    end: GpsTime,
    times: Option<Vec<Binary64>>,
    indices: Option<Vec<u32>>,
)
    requires
        call_ensures(Chunk::gps_time, (&chunk,), times),
        call_ensures(indices_in_time_range, (&chunk, start, end), indices),
        chunk.count() <= 0x1_0000_0000,
    ensures
        indices is Some <==> times is Some,
        indices matches Some(picked) ==> {
            let at = times->0@;
            &&& forall|k: int, l: int|
                0 <= k < l < picked@.len() ==> (#[trigger] picked@[k]) < (#[trigger] picked@[l])
            &&& forall|i: int|
                0 <= i < at.len() ==> (picked@.contains(i as u32) <==> start.0.at_most(
                    #[trigger] at[i],
                ) && at[i].at_most(end.0))
            &&& forall|k: int|
                0 <= k < picked@.len() ==> (#[trigger] picked@[k]) < at.len()
        },
{
    if let Some(picked) = indices {
        let at = times->0@;
        let within = |i: int| chunk.point_within(start, end, i);
        let n = chunk.count();
        assert(n >= 0) by {
            vstd::arithmetic::div_mod::lemma_div_pos_is_pos(
                cloud_bytes(chunk.cloud).len() as int,
                record_len(chunk),
            );
        }
        law_indices_select(n, within);
        assert(picked@ == indices_where(n, within));
        assert forall|i: int| 0 <= i < at.len() implies (picked@.contains(i as u32)
            <==> start.0.at_most(#[trigger] at[i]) && at[i].at_most(end.0)) by {
            assert(at[i].same(cloud_format(chunk.cloud).gps_time(chunk.record(i))));
            assert(within(i) == (start.0.at_most(at[i]) && at[i].at_most(end.0)));
            if picked@.contains(i as u32) {
                let k = choose|k: int| 0 <= k < picked@.len() && picked@[k] == i as u32;
                assert(within(picked@[k] as int));
            }
        }
    }
}

/// Filtering points by time keeps, in order, those that have a GPS time in the time range.
pub proof fn law_time_filter_keeps_the_times(
    points: Vec<las::Point>,
    start: GpsTime,
    end: GpsTime,
    kept: Vec<las::Point>,
)
    requires
        call_ensures(filter_points_by_time, (points, start, end), kept),
    ensures
        kept@ == points@.filter(
            |p: las::Point|
                point_time(p) is Some && start.0.at_most(point_time(p)->0)
                    && point_time(p)->0.at_most(end.0),
        ),
{
    let inline = |p: las::Point|
        point_time(p) is Some && start.0.at_most(point_time(p)->0) && point_time(p)->0.at_most(
            end.0,
        );
    assert(inline =~= (|p: las::Point| in_window(p, start, end)));
}

} // verus!
