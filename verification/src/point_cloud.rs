//! Blocks of point records, as the `las` crate holds them.
//!
//! A [`las::PointData`] is a run of bytes, a point format and the transforms from stored
//! coordinates to world coordinates. The format fixes the length of a point record and where each
//! field stands in it; [`PointFormat`] says how.

use crate::binary64::{Binary32, Binary64};
use crate::bytes::{i32_at, u16_at, u64_at};
use vstd::prelude::*;

verus! {

/// Blocks of point records, of the `las` crate.
#[verifier::external_type_specification]
#[verifier::external_body]
pub struct ExPointData(las::PointData);

/// Point formats, of the `las` crate.
#[verifier::external_type_specification]
#[verifier::external_body]
pub struct ExFormat(las::point::Format);

/// Scale and offset of a coordinate, of the `las` crate.
#[verifier::external_type_specification]
#[verifier::external_body]
pub struct ExTransform(las::Transform);

/// One value for each axis, of the `las` crate.
#[verifier::external_type_specification]
#[verifier::external_body]
#[verifier::reject_recursive_types(T)]
pub struct ExVector<T>(las::Vector<T>);

/// Points, of the `las` crate.
#[verifier::external_type_specification]
#[verifier::external_body]
pub struct ExPoint(las::Point);

/// What a point format says of the records.
pub struct PointFormat {
    /// Whether records have a GPS time.
    pub has_gps_time: bool,
    /// Whether records have red, green and blue.
    pub has_color: bool,
    /// Whether records have three bytes of flags and a scan angle of two bytes.
    pub is_extended: bool,
    /// Whether records have a waveform.
    pub has_waveform: bool,
    /// Whether records have near infrared.
    pub has_nir: bool,
    /// How many extra bytes end a record.
    pub extra_bytes: u16,
}

impl PointFormat {
    /// The length of what all records have: coordinates, intensity, flags, scan angle, user data,
    /// point source id. The GPS time follows, where there is one.
    pub open spec fn base_len(self) -> int {
        if self.is_extended {
            22
        } else {
            20
        }
    }

    /// Where the colour stands, if there is one: behind the GPS time.
    pub open spec fn color_at(self) -> int {
        self.base_len() + if self.has_gps_time {
            8int
        } else {
            0
        }
    }

    /// Where near infrared stands, if there is any: behind the colour.
    pub open spec fn nir_at(self) -> int {
        self.color_at() + if self.has_color {
            6int
        } else {
            0
        }
    }

    /// The length of a record: a waveform and extra bytes end it.
    pub open spec fn record_len(self) -> int {
        self.nir_at() + (if self.has_nir {
            2int
        } else {
            0
        }) + (if self.has_waveform {
            29int
        } else {
            0
        }) + self.extra_bytes
    }

    /// Where the user data stands.
    pub open spec fn user_data_at(self) -> int {
        17
    }

    /// Where the scan angle stands: before the user data, or behind it in extended records.
    pub open spec fn scan_angle_at(self) -> int {
        if self.is_extended {
            18
        } else {
            16
        }
    }

    /// Where the point source id stands.
    pub open spec fn point_source_id_at(self) -> int {
        self.base_len() - 2
    }

    /// The classification in a record: a byte, or five bits of one.
    pub open spec fn classification(self, record: Seq<u8>) -> u8 {
        if self.is_extended {
            record[16]
        } else {
            (record[15] % 32) as u8
        }
    }

    /// The scan angle in a record, as it is stored: in two's complement, in two bytes or one.
    pub open spec fn stored_scan_angle(self, record: Seq<u8>) -> int {
        if self.is_extended {
            signed(u16_at(record, self.scan_angle_at()) as int, 0x1_0000)
        } else {
            signed(record[self.scan_angle_at()] as int, 0x100)
        }
    }

    /// The GPS time in a record.
    pub open spec fn gps_time(self, record: Seq<u8>) -> Binary64 {
        Binary64 { bits: u64_at(record, self.base_len()) }
    }

    /// The colour in a record.
    pub open spec fn color(self, record: Seq<u8>) -> (u16, u16, u16) {
        let at = self.color_at();
        (u16_at(record, at), u16_at(record, at + 2), u16_at(record, at + 4))
    }
}

/// The number that an unsigned number below `range` stands for in two's complement.
pub open spec fn signed(n: int, range: int) -> int {
    if 2 * n < range {
        n
    } else {
        n - range
    }
}

/// What a point format of the `las` crate says.
pub uninterp spec fn format_fields(f: las::point::Format) -> PointFormat;

/// The bytes of a block.
pub uninterp spec fn cloud_bytes(cloud: las::PointData) -> Seq<u8>;

/// The point format of a block.
pub uninterp spec fn cloud_format(cloud: las::PointData) -> PointFormat;

/// The transforms of a block.
pub uninterp spec fn cloud_transforms(cloud: las::PointData) -> las::Vector<las::Transform>;

/// The point format of a LAS header.
pub uninterp spec fn header_format(h: las::Header) -> las::point::Format;

/// The transforms of a LAS header.
pub uninterp spec fn header_transforms(h: las::Header) -> las::Vector<las::Transform>;

/// What `las::Transform::direct` of the axis (0, 1, 2 for x, y, z) makes of a stored coordinate.
pub uninterp spec fn world(transforms: las::Vector<las::Transform>, axis: int, n: i32) -> Binary64;

/// What `las::PointData::scan_angle_degrees` makes of a stored scan angle.
pub uninterp spec fn degrees(extended: bool, stored: int) -> Binary32;

/// Whether `point` is what `las::raw::Point::read_from` and `las::Point::new` make of a record.
pub uninterp spec fn is_point(
    point: las::Point,
    record: Seq<u8>,
    format: PointFormat,
    transforms: las::Vector<las::Transform>,
) -> bool;

/// The GPS time of a point.
pub uninterp spec fn point_time(point: las::Point) -> Option<Binary64>;

/// The coordinate of a point along an axis (0, 1, 2 for x, y, z).
pub uninterp spec fn point_coordinate(point: las::Point, axis: int) -> Binary64;

/// Whether arithmetic makes a number of each coordinate of the record.
pub open spec fn placed(record: Seq<u8>, transforms: las::Vector<las::Transform>) -> bool {
    &&& !world(transforms, 0, i32_at(record, 0)).nan()
    &&& !world(transforms, 1, i32_at(record, 4)).nan()
    &&& !world(transforms, 2, i32_at(record, 8)).nan()
}

/// Whether `point` is the point of a record: what is made of the record, with its GPS time and its
/// position. Where a coordinate is a `NaN`, which one it is, is left open; where none is, the point
/// is the only one that is made of the record.
pub open spec fn shows(
    point: las::Point,
    record: Seq<u8>,
    format: PointFormat,
    transforms: las::Vector<las::Transform>,
) -> bool {
    &&& is_point(point, record, format, transforms)
    &&& placed(record, transforms) ==> forall|q: las::Point| #[trigger]
        is_point(q, record, format, transforms) ==> q == point
    &&& point_time(point) is Some <==> format.has_gps_time
    &&& point_time(point) matches Some(t) ==> t.same(format.gps_time(record))
    &&& point_coordinate(point, 0).same(world(transforms, 0, i32_at(record, 0)))
    &&& point_coordinate(point, 1).same(world(transforms, 1, i32_at(record, 4)))
    &&& point_coordinate(point, 2).same(world(transforms, 2, i32_at(record, 8)))
}

/// How many records a block holds.
pub open spec fn record_count(cloud: las::PointData) -> int {
    cloud_bytes(cloud).len() as int / cloud_format(cloud).record_len()
}

/// The record with this number.
pub open spec fn record(cloud: las::PointData, i: int) -> Seq<u8> {
    let len = cloud_format(cloud).record_len();
    cloud_bytes(cloud).subrange(i * len, i * len + len)
}

/// The position of the record with this number: where arithmetic makes no number of it, which
/// `NaN` it is, is left open.
pub open spec fn is_position(cloud: las::PointData, i: int, p: [Binary64; 3]) -> bool {
    let transforms = cloud_transforms(cloud);
    &&& p[0].same(world(transforms, 0, i32_at(record(cloud, i), 0)))
    &&& p[1].same(world(transforms, 1, i32_at(record(cloud, i), 4)))
    &&& p[2].same(world(transforms, 2, i32_at(record(cloud, i), 8)))
}

/// `las::Header::point_format`: the point format of the header.
pub assume_specification[ las::Header::point_format ](h: &las::Header) -> (r: &las::point::Format)
    ensures
        *r == header_format(*h),
;

/// `las::Header::transforms`: the transforms of the header.
pub assume_specification[ las::Header::transforms ](h: &las::Header) -> (r: &las::Vector<
    las::Transform,
>)
    ensures
        *r == header_transforms(*h),
;

/// `las::point::Format::len`: the length of a record, extra bytes and all, as a 16-bit number that
/// wraps where extra bytes make a record too long for it.
pub assume_specification[ las::point::Format::len ](f: &las::point::Format) -> (r: u16)
    ensures
        r == format_fields(*f).record_len() % 0x1_0000,
;

/// `las::PointData::len`: how many records the block holds. A block holds whole records only.
pub assume_specification[ las::PointData::len ](p: &las::PointData) -> (r: usize)
    ensures
        r == record_count(*p),
        cloud_bytes(*p).len() == r * cloud_format(*p).record_len(),
;

/// `las::PointData::is_empty`: whether there are no bytes.
pub assume_specification[ las::PointData::is_empty ](p: &las::PointData) -> (r: bool)
    ensures
        r == (cloud_bytes(*p).len() == 0),
;

/// `las::PointData::record_len`: the length of a record.
pub assume_specification[ las::PointData::record_len ](p: &las::PointData) -> (r: usize)
    ensures
        r == cloud_format(*p).record_len(),
;

/// `las::PointData::raw_bytes`: the bytes of the block.
pub assume_specification[ las::PointData::raw_bytes ](p: &las::PointData) -> (r: &[u8])
    ensures
        r@ == cloud_bytes(*p),
;

/// `las::PointDataBuilder::build_from_bytes`, with this format and these transforms: a block of
/// these bytes; an error where they are not a whole number of records.
#[verifier::external_body]
pub(crate) fn cloud_of(
    f: &las::point::Format,
    transforms: &las::Vector<las::Transform>,
    bytes: Vec<u8>,
) -> (r: Result<las::PointData, las::Error>)
    ensures
        r is Ok <==> bytes@.len() as int % format_fields(*f).record_len() == 0,
        r matches Ok(cloud) ==> {
            &&& cloud_bytes(cloud) == bytes@
            &&& cloud_format(cloud) == format_fields(*f)
            &&& cloud_transforms(cloud) == *transforms
        },
{
    let builder = las::PointDataBuilder::new().with_format(*f).with_transforms(*transforms);
    builder.build_from_bytes(bytes)
}

/// `las::PointData::points`: every record as a point, with the record's GPS time and position. A
/// whole record can always be read, and always into the same point, unless arithmetic makes no
/// number of a coordinate.
#[verifier::external_body]
pub(crate) fn all_points(cloud: &las::PointData) -> (r: Result<Vec<las::Point>, las::Error>)
    ensures
        r is Ok,
        r matches Ok(points) ==> points@.len() == record_count(*cloud) && forall|i: int|
            0 <= i < points@.len() ==> shows(
                #[trigger] points@[i],
                record(*cloud, i),
                cloud_format(*cloud),
                cloud_transforms(*cloud),
            ),
{
    cloud.points().collect()
}

/// `las::raw::Point::read_from` on a record, with the format of the block, and `las::Point::new` of
/// it, with the transforms of the block: a point with the record's GPS time and position, the same
/// each time, unless arithmetic makes no number of a coordinate. It succeeds where the record is
/// all there.
#[verifier::external_body]
pub(crate) fn point_of(record: &[u8], cloud: &las::PointData) -> (r: Result<
    las::Point,
    las::Error,
>)
    ensures
        r is Ok <==> record@.len() >= cloud_format(*cloud).record_len(),
        r matches Ok(point) ==> {
            let format = cloud_format(*cloud);
            let transforms = cloud_transforms(*cloud);
            let one = record@.take(format.record_len());
            &&& is_point(point, one, format, transforms)
            &&& placed(one, transforms) ==> forall|q: las::Point| #[trigger]
                is_point(q, one, format, transforms) ==> q == point
            &&& point_time(point) is Some <==> format.has_gps_time
            &&& point_time(point) matches Some(t) ==> t.same(format.gps_time(one))
            &&& point_coordinate(point, 0).same(world(transforms, 0, i32_at(one, 0)))
            &&& point_coordinate(point, 1).same(world(transforms, 1, i32_at(one, 4)))
            &&& point_coordinate(point, 2).same(world(transforms, 2, i32_at(one, 8)))
        },
{
    let raw = las::raw::Point::read_from(record, cloud.format())?;
    Ok(las::Point::new(raw, cloud.transforms()))
}

/// The GPS time that a `las::Point` has, which may be none.
#[verifier::external_body]
pub(crate) fn time_of(point: &las::Point) -> (r: Option<Binary64>)
    ensures
        r is Some <==> point_time(*point) is Some,
        r matches Some(t) ==> t.same(point_time(*point)->0),
{
    point.gps_time.map(|t| Binary64 { bits: t.to_bits() })
}

/// `las::PointData::x`: the x coordinate of every record, in world coordinates.
#[verifier::external_body]
pub(crate) fn x_column(cloud: &las::PointData) -> (r: Vec<Binary64>)
    ensures
        r@.len() == record_count(*cloud),
        forall|i: int|
            0 <= i < r@.len() ==> (#[trigger] r@[i]).same(
                world(cloud_transforms(*cloud), 0, i32_at(record(*cloud, i), 0)),
            ),
{
    cloud.x().map(|v| Binary64 { bits: v.to_bits() }).collect()
}

/// `las::PointData::y`: the y coordinate of every record, in world coordinates.
#[verifier::external_body]
pub(crate) fn y_column(cloud: &las::PointData) -> (r: Vec<Binary64>)
    ensures
        r@.len() == record_count(*cloud),
        forall|i: int|
            0 <= i < r@.len() ==> (#[trigger] r@[i]).same(
                world(cloud_transforms(*cloud), 1, i32_at(record(*cloud, i), 4)),
            ),
{
    cloud.y().map(|v| Binary64 { bits: v.to_bits() }).collect()
}

/// `las::PointData::z`: the z coordinate of every record, in world coordinates.
#[verifier::external_body]
pub(crate) fn z_column(cloud: &las::PointData) -> (r: Vec<Binary64>)
    ensures
        r@.len() == record_count(*cloud),
        forall|i: int|
            0 <= i < r@.len() ==> (#[trigger] r@[i]).same(
                world(cloud_transforms(*cloud), 2, i32_at(record(*cloud, i), 8)),
            ),
{
    cloud.z().map(|v| Binary64 { bits: v.to_bits() }).collect()
}

/// `las::PointData::intensity`: the intensity of every record.
#[verifier::external_body]
pub(crate) fn intensity_column(cloud: &las::PointData) -> (r: Vec<u16>)
    ensures
        r@.len() == record_count(*cloud),
        forall|i: int|
            0 <= i < r@.len() ==> #[trigger] r@[i] == u16_at(record(*cloud, i), 12),
{
    cloud.intensity().collect()
}

/// `las::PointData::classification`: the classification of every record.
#[verifier::external_body]
pub(crate) fn classification_column(cloud: &las::PointData) -> (r: Vec<u8>)
    ensures
        r@.len() == record_count(*cloud),
        forall|i: int|
            0 <= i < r@.len() ==> #[trigger] r@[i] == cloud_format(*cloud).classification(
                record(*cloud, i),
            ),
{
    cloud.classification().collect()
}

/// `las::PointData::scan_angle_degrees`: the scan angle of every record, in degrees, a function of
/// the stored angle.
#[verifier::external_body]
pub(crate) fn scan_angle_column(cloud: &las::PointData) -> (r: Vec<Binary32>)
    ensures
        r@.len() == record_count(*cloud),
        forall|i: int|
            0 <= i < r@.len() ==> #[trigger] r@[i] == degrees(
                cloud_format(*cloud).is_extended,
                cloud_format(*cloud).stored_scan_angle(record(*cloud, i)),
            ),
{
    cloud.scan_angle_degrees().map(|v| Binary32 { bits: v.to_bits() }).collect()
}

/// `las::PointData::user_data`: the user data of every record.
#[verifier::external_body]
pub(crate) fn user_data_column(cloud: &las::PointData) -> (r: Vec<u8>)
    ensures
        r@.len() == record_count(*cloud),
        forall|i: int|
            0 <= i < r@.len() ==> #[trigger] r@[i] == record(
                *cloud,
                i,
            )[cloud_format(*cloud).user_data_at()],
{
    cloud.user_data().collect()
}

/// `las::PointData::point_source_id`: the point source id of every record.
#[verifier::external_body]
pub(crate) fn point_source_id_column(cloud: &las::PointData) -> (r: Vec<u16>)
    ensures
        r@.len() == record_count(*cloud),
        forall|i: int|
            0 <= i < r@.len() ==> #[trigger] r@[i] == u16_at(
                record(*cloud, i),
                cloud_format(*cloud).point_source_id_at(),
            ),
{
    cloud.point_source_id().collect()
}

/// `las::PointData::gps_time`: the GPS time of every record; `None` where records have none.
#[verifier::external_body]
pub(crate) fn gps_time_column(cloud: &las::PointData) -> (r: Option<Vec<Binary64>>)
    ensures
        r is Some <==> cloud_format(*cloud).has_gps_time,
        r matches Some(times) ==> times@.len() == record_count(*cloud) && forall|i: int|
            0 <= i < times@.len() ==> (#[trigger] times@[i]).same(
                cloud_format(*cloud).gps_time(record(*cloud, i)),
            ),
{
    cloud.gps_time().map(|times| times.map(|v| Binary64 { bits: v.to_bits() }).collect())
}

/// `las::PointData::rgb`: the colour of every record; `None` where records have none.
#[verifier::external_body]
pub(crate) fn rgb_column(cloud: &las::PointData) -> (r: Option<Vec<(u16, u16, u16)>>)
    ensures
        r is Some <==> cloud_format(*cloud).has_color,
        r matches Some(colors) ==> colors@.len() == record_count(*cloud) && forall|i: int|
            0 <= i < colors@.len() ==> #[trigger] colors@[i] == cloud_format(*cloud).color(
                record(*cloud, i),
            ),
{
    cloud.rgb().map(|colors| colors.collect())
}

/// `las::PointData::nir`: the near infrared of every record; `None` where records have none.
#[verifier::external_body]
pub(crate) fn nir_column(cloud: &las::PointData) -> (r: Option<Vec<u16>>)
    ensures
        r is Some <==> cloud_format(*cloud).has_nir,
        r matches Some(values) ==> values@.len() == record_count(*cloud) && forall|i: int|
            0 <= i < values@.len() ==> #[trigger] values@[i] == u16_at(
                record(*cloud, i),
                cloud_format(*cloud).nir_at(),
            ),
{
    cloud.nir().map(|values| values.collect())
}

} // verus!
