//! Point chunks and their LAZ decompression.

use crate::binary64::{Binary32, Binary64};
use crate::bytes::u16_at;
use crate::error::CopcError;
use crate::fields::{
    selected_layers, Fields, ALL, CLASSIFICATION, GPS_TIME, INTENSITY, NIR, POINT_SOURCE_ID, RGB,
    SCAN_ANGLE, USER_DATA, Z,
};
use crate::hierarchy::HierarchyEntry;
use crate::point_cloud::{
    all_points, classification_column, cloud_bytes, cloud_format, cloud_of, cloud_transforms,
    degrees, format_fields, gps_time_column, header_format, header_transforms, intensity_column,
    is_position, nir_column, placed, point_coordinate, point_of, point_source_id_column, record,
    record_count, rgb_column, scan_angle_column, shows, user_data_column, x_column, y_column,
    z_column,
};
use crate::types::{Aabb, VoxelKey};
use laz::record::RecordDecompressor;
use vstd::prelude::*;
use vstd::slice::slice_subrange;

verus! {

/// A decompressed point data chunk.
///
/// A `Chunk` wraps a [`las::PointData`] along with the [`VoxelKey`] of the octree node it came
/// from and the [`Fields`] mask that was used to decode it. Column accessors (`intensity`,
/// `gps_time`, `rgb`, ...) are guarded by the mask and return `None` for fields that were not
/// decoded.
pub struct Chunk {
    /// The octree node this chunk belongs to.
    pub key: VoxelKey,
    /// Which fields were actually decompressed into this chunk.
    pub fields: Fields,
    /// The point records, whatever was decoded into them; see [`Chunk::cloud`].
    pub cloud: las::PointData,
}

/// The numbers below `n` that satisfy the predicate, in order, each taken modulo 2^32.
pub open spec fn indices_where(n: int, pred: spec_fn(int) -> bool) -> Seq<u32>
    decreases n,
{
    if n <= 0 {
        Seq::empty()
    } else if pred(n - 1) {
        indices_where(n - 1, pred).push(((n - 1) % 0x1_0000_0000) as u32)
    } else {
        indices_where(n - 1, pred)
    }
}

impl Chunk {
    /// How many points there are.
    pub open spec fn count(self) -> int {
        record_count(self.cloud)
    }

    /// The record of a point.
    pub open spec fn record(self, i: int) -> Seq<u8> {
        record(self.cloud, i)
    }

    /// Whether `p` is the point with this number.
    pub open spec fn has_point(self, i: int, p: las::Point) -> bool {
        shows(p, self.record(i), cloud_format(self.cloud), cloud_transforms(self.cloud))
    }

    /// Whether `p` is the position of the point with this number.
    pub open spec fn has_position(self, i: int, p: [Binary64; 3]) -> bool {
        is_position(self.cloud, i, p)
    }

    /// Whether the box holds the position of the point with this number.
    pub open spec fn point_inside(self, bounds: Aabb, i: int) -> bool {
        exists|p: [Binary64; 3]| #[trigger] self.has_position(i, p) && bounds.holds(p)
    }

    /// Construct a `Chunk` from a [`VoxelKey`], a [`Fields`] mask, and a [`las::PointData`].
    ///
    /// This constructor exists for callers that drive their own decompression pipeline (and for
    /// tests). The caller is responsible for ensuring that `fields` accurately describes which LAZ
    /// layers were decoded into `cloud`; otherwise the chunk's field guards will hide columns that
    /// are actually valid, or (worse) expose columns that mean nothing.
    pub fn new(key: VoxelKey, fields: Fields, cloud: las::PointData) -> (r: Chunk)
        ensures
            r.key == key,
            r.fields == fields,
            r.cloud == cloud,
    {
        Chunk { key, fields, cloud }
    }

    /// Borrow the underlying [`las::PointData`], an **unchecked** escape hatch to the raw
    /// byte-level accessors in `las`.
    ///
    /// Its accessors do not check whether the underlying layer was actually decoded. Prefer the
    /// [`Chunk`] methods ([`rgb`](Self::rgb), [`gps_time`](Self::gps_time), etc.): they return
    /// `None` when the field is absent.
    pub fn cloud(&self) -> (r: &las::PointData)
        ensures
            *r == self.cloud,
    {
        &self.cloud
    }

    /// Number of points in this chunk.
    pub fn point_count(&self) -> (r: usize)
        ensures
            r == self.count(),
    {
        self.cloud.len()
    }

    /// Whether this chunk contains zero points.
    pub fn is_empty(&self) -> (r: bool)
        ensures
            r == (self.count() == 0),
    {
        let n: usize = self.cloud.len();
        proof {
            let len = cloud_format(self.cloud).record_len();
            assert(n > 0 ==> n * len > 0) by (nonlinear_arith)
                requires
                    len > 0,
            ;
        }
        self.cloud.is_empty()
    }

    /// Materialize every point in this chunk as an owned [`las::Point`].
    ///
    /// Returns [`CopcError::PartialDecode`] if this chunk was decoded with a partial field mask;
    /// otherwise the resulting `las::Point`s would have made-up values for skipped fields.
    pub fn to_points(&self) -> (r: Result<Vec<las::Point>, CopcError>)
        ensures
            r is Ok <==> self.fields.bits == ALL,
            r matches Err(e) ==> e == CopcError::PartialDecode(self.fields),
            r matches Ok(points) ==> points@.len() == self.count() && forall|i: int|
                0 <= i < points@.len() ==> self.has_point(i, #[trigger] points@[i]),
    {
        if self.fields != Fields::all() {
            return Err(CopcError::PartialDecode(self.fields));
        }
        match all_points(&self.cloud) {
            Ok(points) => Ok(points),
            Err(e) => Err(CopcError::Las(e)),
        }
    }

    /// Materialize `las::Point` values only at the given indices.
    ///
    /// Pair with [`indices_in_bounds`](Self::indices_in_bounds) or any other index-producing
    /// filter to skip the materialization cost for rejected points entirely.
    ///
    /// Returns [`CopcError::PartialDecode`] if the chunk was decoded with a partial field mask,
    /// same as [`to_points`](Self::to_points).
    pub fn points_at(&self, indices: &[u32]) -> (r: Result<Vec<las::Point>, CopcError>)
        requires
            self.fields.bits == ALL ==> forall|k: int|
                0 <= k < indices@.len() ==> (#[trigger] indices@[k]) < self.count(),
        ensures
            r is Ok <==> self.fields.bits == ALL,
            r matches Err(e) ==> e == CopcError::PartialDecode(self.fields),
            r matches Ok(points) ==> points@.len() == indices@.len() && forall|k: int|
                0 <= k < points@.len() ==> self.has_point(
                    indices@[k] as int,
                    #[trigger] points@[k],
                ),
    {
        if self.fields != Fields::all() {
            return Err(CopcError::PartialDecode(self.fields));
        }
        let count: usize = self.cloud.len();
        let record_len: usize = self.cloud.record_len();
        let bytes = self.cloud.raw_bytes();
        let size: usize = bytes.len();
        let mut points: Vec<las::Point> = Vec::new();
        let mut k: usize = 0;
        while k < indices.len()
            invariant
                k <= indices@.len(),
                self.fields.bits == ALL,
                count == self.count(),
                record_len == cloud_format(self.cloud).record_len(),
                bytes@ == cloud_bytes(self.cloud),
                bytes@.len() == count * record_len,
                size == bytes@.len(),
                forall|j: int|
                    0 <= j < indices@.len() ==> (#[trigger] indices@[j]) < self.count(),
                points@.len() == k,
                forall|j: int|
                    0 <= j < k ==> self.has_point(indices@[j] as int, #[trigger] points@[j]),
            decreases indices@.len() - k,
        {
            let i: usize = indices[k] as usize;
            proof {
                assert(indices@[k as int] < self.count());
                lemma_record_fits(i as int, count as int, record_len as int);
            }
            let start: usize = i * record_len;
            let end: usize = start + record_len;
            let one = slice_subrange(bytes, start, end);
            assert(one@.take(record_len as int) =~= record(self.cloud, i as int));
            match point_of(one, &self.cloud) {
                Ok(point) => points.push(point),
                Err(e) => return Err(CopcError::Las(e)),
            }
            k = k + 1;
        }
        Ok(points)
    }

    /// `(x, y, z)` world coordinates of every point, or `None` if [`Fields::z`] was not set.
    ///
    /// `x` and `y` are always decoded on LAS 1.4 layered formats (they share the always-on base
    /// layer with `return_number`, `number_of_returns` and `scanner_channel`), but `z` is its own
    /// skippable layer. A chunk without it has nothing meaningful in the `z` slots.
    pub fn positions(&self) -> (r: Option<Vec<[Binary64; 3]>>)
        ensures
            r is Some <==> self.fields.has(Z),
            r matches Some(positions) ==> positions@.len() == self.count() && forall|i: int|
                0 <= i < positions@.len() ==> self.has_position(i, #[trigger] positions@[i]),
    {
        if !self.fields.contains(Fields::z()) {
            return None;
        }
        let (x, y, z) = (x_column(&self.cloud), y_column(&self.cloud), z_column(&self.cloud));
        let mut positions: Vec<[Binary64; 3]> = Vec::new();
        let mut i: usize = 0;
        while i < x.len()
            invariant
                i <= x@.len(),
                x@.len() == self.count(),
                y@.len() == self.count(),
                z@.len() == self.count(),
                forall|k: int|
                    0 <= k < x@.len() ==> self.has_position(
                        k,
                        [#[trigger] x@[k], y@[k], z@[k]],
                    ),
                positions@.len() == i,
                forall|k: int|
                    0 <= k < i ==> self.has_position(k, #[trigger] positions@[k]),
            decreases x@.len() - i,
        {
            positions.push([x[i], y[i], z[i]]);
            i = i + 1;
        }
        Some(positions)
    }

    /// Intensity column, or `None` if [`Fields::intensity`] was not set.
    pub fn intensity(&self) -> (r: Option<Vec<u16>>)
        ensures
            r is Some <==> self.fields.has(INTENSITY),
            r matches Some(column) ==> column@.len() == self.count() && forall|i: int|
                0 <= i < column@.len() ==> #[trigger] column@[i] == u16_at(self.record(i), 12),
    {
        if !self.fields.contains(Fields::intensity()) {
            return None;
        }
        Some(intensity_column(&self.cloud))
    }

    /// Classification byte column, or `None` if [`Fields::classification`] was not set.
    pub fn classification(&self) -> (r: Option<Vec<u8>>)
        ensures
            r is Some <==> self.fields.has(CLASSIFICATION),
            r matches Some(column) ==> column@.len() == self.count() && forall|i: int|
                0 <= i < column@.len() ==> #[trigger] column@[i] == cloud_format(
                    self.cloud,
                ).classification(self.record(i)),
    {
        if !self.fields.contains(Fields::classification()) {
            return None;
        }
        Some(classification_column(&self.cloud))
    }

    /// Scan angle column in degrees, or `None` if [`Fields::scan_angle`] was not set.
    pub fn scan_angle(&self) -> (r: Option<Vec<Binary32>>)
        ensures
            r is Some <==> self.fields.has(SCAN_ANGLE),
            r matches Some(column) ==> column@.len() == self.count() && forall|i: int|
                0 <= i < column@.len() ==> #[trigger] column@[i] == degrees(
                    cloud_format(self.cloud).is_extended,
                    cloud_format(self.cloud).stored_scan_angle(self.record(i)),
                ),
    {
        if !self.fields.contains(Fields::scan_angle()) {
            return None;
        }
        Some(scan_angle_column(&self.cloud))
    }

    /// User data byte column, or `None` if [`Fields::user_data`] was not set.
    pub fn user_data(&self) -> (r: Option<Vec<u8>>)
        ensures
            r is Some <==> self.fields.has(USER_DATA),
            r matches Some(column) ==> column@.len() == self.count() && forall|i: int|
                0 <= i < column@.len() ==> #[trigger] column@[i] == self.record(
                    i,
                )[cloud_format(self.cloud).user_data_at()],
    {
        if !self.fields.contains(Fields::user_data()) {
            return None;
        }
        Some(user_data_column(&self.cloud))
    }

    /// Point source ID column, or `None` if [`Fields::point_source_id`] was not set.
    pub fn point_source_id(&self) -> (r: Option<Vec<u16>>)
        ensures
            r is Some <==> self.fields.has(POINT_SOURCE_ID),
            r matches Some(column) ==> column@.len() == self.count() && forall|i: int|
                0 <= i < column@.len() ==> #[trigger] column@[i] == u16_at(
                    self.record(i),
                    cloud_format(self.cloud).point_source_id_at(),
                ),
    {
        if !self.fields.contains(Fields::point_source_id()) {
            return None;
        }
        Some(point_source_id_column(&self.cloud))
    }

    /// GPS time column, or `None` if [`Fields::gps_time`] was not set or the format does not
    /// include GPS time.
    pub fn gps_time(&self) -> (r: Option<Vec<Binary64>>)
        ensures
            r is Some <==> self.fields.has(GPS_TIME) && cloud_format(self.cloud).has_gps_time,
            r matches Some(column) ==> column@.len() == self.count() && forall|i: int|
                0 <= i < column@.len() ==> (#[trigger] column@[i]).same(
                    cloud_format(self.cloud).gps_time(self.record(i)),
                ),
    {
        if !self.fields.contains(Fields::gps_time()) {
            return None;
        }
        gps_time_column(&self.cloud)
    }

    /// RGB column, or `None` if [`Fields::rgb`] was not set or the format does not include color.
    pub fn rgb(&self) -> (r: Option<Vec<(u16, u16, u16)>>)
        ensures
            r is Some <==> self.fields.has(RGB) && cloud_format(self.cloud).has_color,
            r matches Some(column) ==> column@.len() == self.count() && forall|i: int|
                0 <= i < column@.len() ==> #[trigger] column@[i] == cloud_format(self.cloud).color(
                    self.record(i),
                ),
    {
        if !self.fields.contains(Fields::rgb()) {
            return None;
        }
        rgb_column(&self.cloud)
    }

    /// NIR column, or `None` if [`Fields::nir`] was not set or the format does not include NIR.
    pub fn nir(&self) -> (r: Option<Vec<u16>>)
        ensures
            r is Some <==> self.fields.has(NIR) && cloud_format(self.cloud).has_nir,
            r matches Some(column) ==> column@.len() == self.count() && forall|i: int|
                0 <= i < column@.len() ==> #[trigger] column@[i] == u16_at(
                    self.record(i),
                    cloud_format(self.cloud).nir_at(),
                ),
    {
        if !self.fields.contains(Fields::nir()) {
            return None;
        }
        nir_column(&self.cloud)
    }

    /// Indices of points inside `bounds`, or `None` if [`Fields::z`] was not set.
    ///
    /// A 3D bounding-box intersection requires z, so a chunk without it can't produce meaningful
    /// results; `None` makes that impossible to misuse. Pair the returned indices with any column
    /// on the chunk to produce a filtered view without materializing `las::Point` values.
    pub fn indices_in_bounds(&self, bounds: &Aabb) -> (r: Option<Vec<u32>>)
        ensures
            r is Some <==> self.fields.has(Z),
            r matches Some(indices) ==> indices@ == indices_where(
                self.count(),
                |i: int| self.point_inside(*bounds, i),
            ),
    {
        let positions = match self.positions() {
            Some(positions) => positions,
            None => return None,
        };
        let ghost inside = |i: int| self.point_inside(*bounds, i);
        let mut indices: Vec<u32> = Vec::new();
        let mut i: usize = 0;
        while i < positions.len()
            invariant
                i <= positions@.len(),
                positions@.len() == self.count(),
                forall|k: int|
                    0 <= k < positions@.len() ==> self.has_position(k, #[trigger] positions@[k]),
                inside == (|i: int| self.point_inside(*bounds, i)),
                indices@ == indices_where(i as int, inside),
            decreases positions@.len() - i,
        {
            let is_inside = bounds.contains(&positions[i]);
            proof {
                assert(self.has_position(i as int, positions@[i as int]));
                self.lemma_one_position(*bounds, i as int, positions@[i as int]);
            }
            if is_inside {
                indices.push(low_half(i));
            }
            i = i + 1;
        }
        Some(indices)
    }

    /// All positions that a point may be given are inside a box, or none is.
    pub proof fn lemma_one_position(self, bounds: Aabb, i: int, p: [Binary64; 3])
        requires
            self.has_position(i, p),
        ensures
            self.point_inside(bounds, i) == bounds.holds(p),
    {
        if self.point_inside(bounds, i) {
            let q = choose|q: [Binary64; 3]| #[trigger] self.has_position(i, q) && bounds.holds(q);
            assert(bounds.min[0].at_most(q[0]));
            assert(bounds.min[1].at_most(q[1]));
            assert(bounds.min[2].at_most(q[2]));
            assert(p[0] == q[0] && p[1] == q[1] && p[2] == q[2]);
        }
    }
}

/// The number modulo 2^32.
pub(crate) fn low_half(i: usize) -> (r: u32)
    ensures
        r == i as int % 0x1_0000_0000,
{
    let wide: u64 = i as u64;
    assert(wide as u32 == wide % 0x1_0000_0000) by (bit_vector);
    wide as u32
}

/// Where the picked points of several chunks come from, chunk by chunk: the number of the chunk,
/// and the number of the point in it.
pub open spec fn origins(picks: Seq<Seq<u32>>) -> Seq<(int, int)>
    decreases picks.len(),
{
    if picks.len() == 0 {
        Seq::empty()
    } else {
        origins(picks.drop_last()) + picks.last().map_values(
            |i: u32| (picks.len() - 1, i as int),
        )
    }
}

/// A record with a number below the count lies within the bytes.
proof fn lemma_record_fits(i: int, count: int, len: int)
    requires
        0 <= i < count,
        len >= 0,
    ensures
        0 <= i * len,
        i * len + len <= count * len,
{
    assert(0 <= i * len && i * len + len <= count * len) by (nonlinear_arith)
        requires
            0 <= i < count,
            len >= 0,
    ;
}

/// What decoding a compressed chunk comes to.
pub enum Decoded {
    /// The bytes of the records.
    Bytes(Seq<u8>),
    /// The decoder does not know the items of which the records are made.
    Unknown,
    /// The chunk cannot be decoded.
    Broken,
}

/// What decoding a compressed chunk comes to, with these parameters, of which these layers, into
/// this many bytes: what `laz::record::LayeredPointRecordDecompressor` does with them. `None`
/// stands for the chunks and parameters on which the decoder does not return.
pub uninterp spec fn laz_decoded(
    compressed: Seq<u8>,
    parameters: laz::LazVlr,
    layers: Set<int>,
    size: int,
) -> Option<Decoded>;

/// `laz::record::LayeredPointRecordDecompressor`: with `set_fields_from` the parameters' items,
/// `set_selection` and `decompress_many` into a zeroed buffer of this size. What it comes to is a
/// function of the arguments. It panics where there are no items, and may on a chunk that no
/// encoder makes.
#[verifier::external_body]
fn decode(
    compressed: &[u8],
    parameters: &laz::LazVlr,
    selection: laz::DecompressionSelection,
    size: usize,
) -> (r: Result<Result<Vec<u8>, std::io::Error>, laz::LasZipError>)
    requires
        size <= isize::MAX,
        laz_decoded(compressed@, *parameters, selected_layers(selection), size as int) is Some,
    ensures
        match laz_decoded(compressed@, *parameters, selected_layers(selection), size as int)->0 {
            Decoded::Bytes(bytes) => r matches Ok(Ok(out)) && out@ == bytes && bytes.len() == size,
            Decoded::Unknown => r is Err,
            Decoded::Broken => r matches Ok(Err(_)),
        },
{
    let mut out = vec![0u8; size];
    let source = std::io::Cursor::new(compressed);
    let mut decompressor = laz::record::LayeredPointRecordDecompressor::new(source);
    decompressor.set_fields_from(parameters.items())?;
    decompressor.set_selection(selection);
    Ok(decompressor.decompress_many(&mut out).map(|()| out))
}

/// How many bytes the records of a node take, as the point format counts them.
pub open spec fn records_size(entry: HierarchyEntry, header: las::Header) -> int {
    entry.point_count * (format_fields(header_format(header)).record_len() % 0x1_0000)
}

/// Whether the records of a node are not too many to hold.
pub fn records_fit(entry: &HierarchyEntry, header: &las::Header) -> (r: bool)
    ensures
        r == (records_size(*entry, *header) <= isize::MAX),
{
    let record_len: u64 = header.point_format().len() as u64;
    assert(entry.point_count * record_len <= u32::MAX * u16::MAX) by (nonlinear_arith)
        requires
            entry.point_count <= u32::MAX,
            record_len <= u16::MAX,
    ;
    entry.point_count as u64 * record_len <= isize::MAX as u64
}

/// What decompressing the chunk of a node comes to.
pub open spec fn chunk_decoded(
    data: Seq<u8>,
    entry: HierarchyEntry,
    laz_vlr: laz::LazVlr,
    header: las::Header,
    fields: Fields,
) -> Option<Decoded> {
    laz_decoded(data, laz_vlr, fields.layers(), records_size(entry, header))
}

/// Whether `chunk` is the chunk of a node, with these bytes as its records.
pub open spec fn is_chunk(
    chunk: Chunk,
    bytes: Seq<u8>,
    entry: HierarchyEntry,
    header: las::Header,
    fields: Fields,
) -> bool {
    &&& chunk.key == entry.key
    &&& chunk.fields == fields
    &&& cloud_bytes(chunk.cloud) == bytes
    &&& cloud_format(chunk.cloud) == format_fields(header_format(header))
    &&& cloud_transforms(chunk.cloud) == header_transforms(header)
}

/// Whether the bytes are a whole number of records.
pub open spec fn whole_records(bytes: Seq<u8>, header: las::Header) -> bool {
    bytes.len() as int % format_fields(header_format(header)).record_len() == 0
}

/// Whether `r` is what there is to say of a chunk with these decoded bytes.
pub open spec fn chunk_outcome(
    decoded: Decoded,
    entry: HierarchyEntry,
    header: las::Header,
    fields: Fields,
    r: Result<Chunk, CopcError>,
) -> bool {
    match decoded {
        Decoded::Bytes(bytes) => if whole_records(bytes, header) {
            r matches Ok(chunk) && is_chunk(chunk, bytes, entry, header, fields)
        } else {
            r matches Err(CopcError::Las(_))
        },
        Decoded::Unknown => r matches Err(CopcError::Laz(_)),
        Decoded::Broken => r matches Err(CopcError::Io(_)),
    }
}

/// The chunk of a node, from its decompressed records; an error where they are not a whole number
/// of records.
pub fn chunk_of_records(
    records: Vec<u8>,
    entry: &HierarchyEntry,
    header: &las::Header,
    fields: Fields,
) -> (r: Result<Chunk, CopcError>)
    ensures
        chunk_outcome(Decoded::Bytes(records@), *entry, *header, fields, r),
{
    match cloud_of(header.point_format(), header.transforms(), records) {
        Ok(cloud) => Ok(Chunk { key: entry.key, fields, cloud }),
        Err(e) => Err(CopcError::Las(e)),
    }
}

/// Decompress a single chunk, decoding only the layers requested by `fields`.
///
/// COPC chunks are independently compressed and do NOT start with the 8-byte chunk table offset
/// that standard LAZ files have, so the layered record decompressor is used directly. Layers that
/// are omitted from `fields` are not decoded on LAS 1.4 layered formats (6/7/8, the formats COPC
/// mandates).
///
/// The decoder must return on the chunk. It panics where the LAZ parameters have no items, and it
/// may on a chunk that no encoder makes, which nothing short of decoding tells.
pub fn decompress_chunk(
    data: &[u8],
    entry: &HierarchyEntry,
    laz_vlr: &laz::LazVlr,
    header: &las::Header,
    fields: Fields,
) -> (r: Result<Chunk, CopcError>)
    requires
        records_size(*entry, *header) <= isize::MAX,
        chunk_decoded(data@, *entry, *laz_vlr, *header, fields) is Some,
    ensures
        chunk_outcome(
            chunk_decoded(data@, *entry, *laz_vlr, *header, fields)->0,
            *entry,
            *header,
            fields,
            r,
        ),
        r matches Ok(chunk) ==> cloud_bytes(chunk.cloud).len() == records_size(*entry, *header),
{
    let record_len: usize = header.point_format().len() as usize;
    proof {
        assert(0 <= entry.point_count * record_len) by (nonlinear_arith);
    }
    let size: usize = entry.point_count as usize * record_len;
    match decode(data, laz_vlr, fields.to_laz_selection(), size) {
        Ok(Ok(records)) => chunk_of_records(records, entry, header, fields),
        Ok(Err(e)) => Err(CopcError::Io(e)),
        Err(e) => Err(CopcError::Laz(e)),
    }
}

/// A chunk that could be decompressed has as many points as the hierarchy says: wherever a record
/// is short enough for the point format to count its length.
pub proof fn law_chunk_is_whole(
    chunk: Chunk,
    bytes: Seq<u8>,
    entry: HierarchyEntry,
    header: las::Header,
    fields: Fields,
)
    requires
        format_fields(header_format(header)).record_len() < 0x1_0000,
        bytes.len() == records_size(entry, header),
    ensures
        whole_records(bytes, header),
        is_chunk(chunk, bytes, entry, header, fields) ==> chunk.count() == entry.point_count,
{
    let len = format_fields(header_format(header)).record_len();
    let n = entry.point_count as int;
    assert(bytes.len() == n * len);
    vstd::arithmetic::div_mod::lemma_mod_multiples_basic(n, len);
    vstd::arithmetic::div_mod::lemma_div_multiples_vanish(n, len);
    assert(n * len == len * n) by (nonlinear_arith);
}

/// A chunk that could be decompressed has no more points than the hierarchy says.
pub proof fn law_chunk_is_no_larger(
    chunk: Chunk,
    bytes: Seq<u8>,
    entry: HierarchyEntry,
    header: las::Header,
    fields: Fields,
)
    requires
        bytes.len() == records_size(entry, header),
        is_chunk(chunk, bytes, entry, header, fields),
    ensures
        0 <= chunk.count() <= entry.point_count,
{
    let len = format_fields(header_format(header)).record_len();
    let n = entry.point_count as int;
    let counted = len % 0x1_0000;
    assert(0 <= n * counted <= n * len) by (nonlinear_arith)
        requires
            0 <= counted <= len,
            n >= 0,
    ;
    vstd::arithmetic::div_mod::lemma_div_is_ordered(n * counted, n * len, len);
    vstd::arithmetic::div_mod::lemma_div_multiples_vanish(n, len);
    vstd::arithmetic::div_mod::lemma_div_pos_is_pos(n * counted, len);
    assert(n * len == len * n) by (nonlinear_arith);
}

/// Whether the box holds the point.
pub open spec fn holds_point(bounds: Aabb, point: las::Point) -> bool {
    forall|axis: int|
        0 <= axis < 3 ==> bounds.min[axis].at_most(#[trigger] point_coordinate(point, axis))
            && point_coordinate(point, axis).at_most(bounds.max[axis])
}

/// A point is inside a box if and only if its record is.
pub proof fn law_points_are_where_records_are(
    chunk: Chunk,
    bounds: Aabb,
    i: int,
    point: las::Point,
)
    requires
        chunk.has_point(i, point),
    ensures
        holds_point(bounds, point) <==> chunk.point_inside(bounds, i),
{
    let p = [
        point_coordinate(point, 0),
        point_coordinate(point, 1),
        point_coordinate(point, 2),
    ];
    assert(chunk.has_position(i, p));
    chunk.lemma_one_position(bounds, i, p);
    if holds_point(bounds, point) {
        assert forall|axis: int| 0 <= axis < 3 implies bounds.min[axis].at_most(
            #[trigger] p[axis],
        ) && p[axis].at_most(bounds.max[axis]) by {
            assert(p[axis] == point_coordinate(point, axis));
        }
    }
    if bounds.holds(p) {
        assert forall|axis: int| 0 <= axis < 3 implies bounds.min[axis].at_most(
            #[trigger] point_coordinate(point, axis),
        ) && point_coordinate(point, axis).at_most(bounds.max[axis]) by {
            assert(p[axis] == point_coordinate(point, axis));
        }
    }
}

/// There is one point of a record, wherever arithmetic makes a number of each of its coordinates.
pub proof fn law_record_has_one_point(chunk: Chunk, i: int, p: las::Point, q: las::Point)
    requires
        chunk.has_point(i, p),
        chunk.has_point(i, q),
        placed(chunk.record(i), cloud_transforms(chunk.cloud)),
    ensures
        p == q,
{
}

/// The coordinates of a point inside a box are numbers.
pub proof fn law_inside_points_are_placed(chunk: Chunk, bounds: Aabb, i: int)
    requires
        chunk.point_inside(bounds, i),
    ensures
        placed(chunk.record(i), cloud_transforms(chunk.cloud)),
{
    let p = choose|p: [Binary64; 3]| #[trigger] chunk.has_position(i, p) && bounds.holds(p);
    assert(bounds.min[0].at_most(p[0]));
    assert(bounds.min[1].at_most(p[1]));
    assert(bounds.min[2].at_most(p[2]));
}

/// Materializing points at indices gives, index by index, the points that materializing every point
/// gives there: both are of the same record, and one and the same wherever arithmetic makes a
/// number of each coordinate.
pub proof fn law_points_at_are_those_points(
    chunk: Chunk,
    indices: Seq<u32>,
    some: Seq<las::Point>,
    all: Seq<las::Point>,
    k: int,
)
    requires
        forall|k: int| 0 <= k < indices.len() ==> (#[trigger] indices[k]) < chunk.count(),
        some.len() == indices.len(),
        forall|k: int|
            0 <= k < some.len() ==> chunk.has_point(indices[k] as int, #[trigger] some[k]),
        all.len() == chunk.count(),
        forall|i: int| 0 <= i < all.len() ==> chunk.has_point(i, #[trigger] all[i]),
        0 <= k < some.len(),
    ensures
        chunk.has_point(indices[k] as int, some[k]),
        chunk.has_point(indices[k] as int, all[indices[k] as int]),
        placed(chunk.record(indices[k] as int), cloud_transforms(chunk.cloud)) ==> some[k]
            == all[indices[k] as int],
{
    let i = indices[k] as int;
    assert(indices[k] < chunk.count());
    assert(chunk.has_point(i, all[i]));
    assert(chunk.has_point(i, some[k]));
}

/// Filtering items is picking them at the indices of those that satisfy the predicate: where they
/// can be counted with 32 bits.
pub proof fn lemma_filter_picks<A>(
    items: Seq<A>,
    keep: spec_fn(A) -> bool,
    pred: spec_fn(int) -> bool,
)
    requires
        items.len() <= 0x1_0000_0000,
        forall|i: int| 0 <= i < items.len() ==> keep(#[trigger] items[i]) == pred(i),
    ensures
        items.filter(keep) == indices_where(items.len() as int, pred).map_values(
            |i: u32| items[i as int],
        ),
    decreases items.len(),
{
    reveal(Seq::filter);
    let n = items.len() as int;
    let picked = indices_where(n, pred).map_values(|i: u32| items[i as int]);
    if n > 0 {
        let rest = items.drop_last();
        assert forall|i: int| 0 <= i < rest.len() implies keep(#[trigger] rest[i]) == pred(i) by {
            assert(rest[i] == items[i]);
        }
        lemma_filter_picks(rest, keep, pred);
        lemma_indices_in_range(n - 1, pred);
        let before = indices_where(n - 1, pred);
        assert(before.map_values(|i: u32| rest[i as int]) =~= before.map_values(
            |i: u32| items[i as int],
        ));
        assert(keep(items[n - 1]) == pred(n - 1));
        assert(items.filter(keep) =~= picked);
    } else {
        assert(items.filter(keep) =~= picked);
    }
}

/// The indices that a filter selects are in range.
pub proof fn lemma_indices_in_range(n: int, pred: spec_fn(int) -> bool)
    ensures
        forall|k: int|
            0 <= k < indices_where(n, pred).len() ==> (#[trigger] indices_where(n, pred)[k]) < n,
    decreases n,
{
    if n > 0 {
        lemma_indices_in_range(n - 1, pred);
        let before = indices_where(n - 1, pred);
        let after = indices_where(n, pred);
        assert forall|k: int| 0 <= k < after.len() implies (#[trigger] after[k]) < n by {
            if k < before.len() {
                assert(after[k] == before[k]);
            } else {
                assert((n - 1) % 0x1_0000_0000 <= n - 1);
            }
        }
    }
}

/// Every origin is a pick.
pub proof fn law_origins_are_picks(picks: Seq<Seq<u32>>, k: int)
    requires
        0 <= k < origins(picks).len(),
    ensures
        0 <= origins(picks)[k].0 < picks.len(),
        exists|j: int|
            0 <= j < picks[origins(picks)[k].0].len() && #[trigger] picks[origins(picks)[k].0][j]
                == origins(picks)[k].1,
    decreases picks.len(),
{
    let rest = picks.drop_last();
    if k < origins(rest).len() {
        law_origins_are_picks(rest, k);
        assert(origins(picks)[k] == origins(rest)[k]);
        let c = origins(rest)[k].0;
        assert(rest[c] == picks[c]);
        let j = choose|j: int|
            0 <= j < rest[c].len() && #[trigger] rest[c][j] == origins(rest)[k].1;
        assert(picks[c][j] == origins(picks)[k].1);
    } else {
        let j = k - origins(rest).len();
        assert(picks[picks.len() - 1][j] == origins(picks)[k].1);
    }
}

/// Every pick is an origin.
pub proof fn law_picks_are_origins(picks: Seq<Seq<u32>>, c: int, j: int)
    requires
        0 <= c < picks.len(),
        0 <= j < picks[c].len(),
    ensures
        origins(picks).contains((c, picks[c][j] as int)),
    decreases picks.len(),
{
    let rest = picks.drop_last();
    let pair = (c, picks[c][j] as int);
    if c < rest.len() {
        law_picks_are_origins(rest, c, j);
        assert(rest[c] == picks[c]);
        let k = choose|k: int| 0 <= k < origins(rest).len() && origins(rest)[k] == pair;
        assert(origins(picks)[k] == pair);
    } else {
        assert(origins(picks)[origins(rest).len() + j] == pair);
    }
}

/// The indices that a filter selects are in range, in order, and those of the items that satisfy
/// it: where the items can be counted with 32 bits.
pub proof fn law_indices_select(n: int, pred: spec_fn(int) -> bool)
    requires
        0 <= n <= 0x1_0000_0000,
    ensures
        forall|k: int|
            0 <= k < indices_where(n, pred).len() ==> (#[trigger] indices_where(n, pred)[k]) < n
                && pred(indices_where(n, pred)[k] as int),
        forall|k: int, l: int|
            0 <= k < l < indices_where(n, pred).len() ==> (#[trigger] indices_where(n, pred)[k])
                < (#[trigger] indices_where(n, pred)[l]),
        forall|i: int| 0 <= i < n && #[trigger] pred(i) ==> indices_where(n, pred).contains(
            i as u32,
        ),
    decreases n,
{
    if n > 0 {
        law_indices_select(n - 1, pred);
        let before = indices_where(n - 1, pred);
        let after = indices_where(n, pred);
        assert forall|i: int| 0 <= i < n && #[trigger] pred(i) implies after.contains(
            i as u32,
        ) by {
            if i < n - 1 {
                let k = choose|k: int| 0 <= k < before.len() && before[k] == i as u32;
                assert(after[k] == i as u32);
            } else {
                assert(after[before.len() as int] == i as u32);
            }
        }
    }
}

} // verus!
