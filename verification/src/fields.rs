//! Field selection for selective LAZ decompression.

use vstd::prelude::*;

verus! {

/// Which point fields to decompress.
///
/// On LAS 1.4 layered point formats (6, 7, 8), LAZ decompression is organized as independent
/// per-field byte layers, and the layer of an omitted field is not decoded at all. The fields
/// `x`, `y`, `return_number`, `number_of_returns` and `scanner_channel` share one base layer that
/// is decoded whatever the mask; the least mask with full 3D geometry is [`Fields::z`].
///
/// What stands in the decompressed chunk in place of a field that is not in the mask means nothing.
/// The column accessors of a [`Chunk`](crate::Chunk) return `None` for it.
///
/// Masks are combined with `|`; [`Fields::empty`] and [`Fields::all`] are the extremes.
#[derive(Debug, Clone, Copy, PartialEq, Eq, Structural, Hash)]
pub struct Fields {
    /// One bit for each field.
    pub bits: u32,
}

/// The bit of the z coordinate.
pub const Z: u32 = 0x1;

/// The bit of the intensity.
pub const INTENSITY: u32 = 0x2;

/// The bit of the classification.
pub const CLASSIFICATION: u32 = 0x4;

/// The bit of the flag bits.
pub const FLAGS: u32 = 0x8;

/// The bit of the scan angle.
pub const SCAN_ANGLE: u32 = 0x10;

/// The bit of the user data.
pub const USER_DATA: u32 = 0x20;

/// The bit of the point source id.
pub const POINT_SOURCE_ID: u32 = 0x40;

/// The bit of the GPS time.
pub const GPS_TIME: u32 = 0x80;

/// The bit of the colour.
pub const RGB: u32 = 0x100;

/// The bit of the near infrared.
pub const NIR: u32 = 0x200;

/// The bit of the waveform packet.
pub const WAVEPACKET: u32 = 0x400;

/// The bit of the extra bytes.
pub const EXTRA_BYTES: u32 = 0x800;

/// Every field.
pub const ALL: u32 = 0xfff;

impl Fields {
    /// Whether every bit of `mask` is set.
    pub open spec fn has(self, mask: u32) -> bool {
        self.bits & mask == mask
    }

    /// The LAZ layers of the fields in this mask, numbered as the `laz` crate numbers them.
    pub open spec fn layers(self) -> Set<int> {
        Set::new(
            |layer: int|
                {
                    ||| layer == LAYER_Z && self.has(Z)
                    ||| layer == LAYER_CLASSIFICATION && self.has(CLASSIFICATION)
                    ||| layer == LAYER_FLAGS && self.has(FLAGS)
                    ||| layer == LAYER_INTENSITY && self.has(INTENSITY)
                    ||| layer == LAYER_SCAN_ANGLE && self.has(SCAN_ANGLE)
                    ||| layer == LAYER_USER_DATA && self.has(USER_DATA)
                    ||| layer == LAYER_POINT_SOURCE_ID && self.has(POINT_SOURCE_ID)
                    ||| layer == LAYER_GPS_TIME && self.has(GPS_TIME)
                    ||| layer == LAYER_RGB && self.has(RGB)
                    ||| layer == LAYER_NIR && self.has(NIR)
                    ||| layer == LAYER_WAVEPACKET && self.has(WAVEPACKET)
                    ||| layer == LAYER_EXTRA_BYTES && self.has(EXTRA_BYTES)
                },
        )
    }

    /// The mask that decodes only the base layer.
    pub fn empty() -> (r: Fields)
        ensures
            r.bits == 0,
    {
        Fields { bits: 0 }
    }

    /// Z coordinate.
    pub fn z() -> (r: Fields)
        ensures
            r.bits == Z,
    {
        Fields { bits: Z }
    }

    /// Intensity (return strength).
    pub fn intensity() -> (r: Fields)
        ensures
            r.bits == INTENSITY,
    {
        Fields { bits: INTENSITY }
    }

    /// Classification code.
    pub fn classification() -> (r: Fields)
        ensures
            r.bits == CLASSIFICATION,
    {
        Fields { bits: CLASSIFICATION }
    }

    /// Flag bits (synthetic / key-point / withheld / overlap, etc.).
    pub fn flags() -> (r: Fields)
        ensures
            r.bits == FLAGS,
    {
        Fields { bits: FLAGS }
    }

    /// Scan angle.
    pub fn scan_angle() -> (r: Fields)
        ensures
            r.bits == SCAN_ANGLE,
    {
        Fields { bits: SCAN_ANGLE }
    }

    /// User data byte.
    pub fn user_data() -> (r: Fields)
        ensures
            r.bits == USER_DATA,
    {
        Fields { bits: USER_DATA }
    }

    /// Point source ID.
    pub fn point_source_id() -> (r: Fields)
        ensures
            r.bits == POINT_SOURCE_ID,
    {
        Fields { bits: POINT_SOURCE_ID }
    }

    /// GPS time.
    pub fn gps_time() -> (r: Fields)
        ensures
            r.bits == GPS_TIME,
    {
        Fields { bits: GPS_TIME }
    }

    /// RGB color triple.
    pub fn rgb() -> (r: Fields)
        ensures
            r.bits == RGB,
    {
        Fields { bits: RGB }
    }

    /// Near-infrared value.
    pub fn nir() -> (r: Fields)
        ensures
            r.bits == NIR,
    {
        Fields { bits: NIR }
    }

    /// Full-waveform packet data.
    pub fn wavepacket() -> (r: Fields)
        ensures
            r.bits == WAVEPACKET,
    {
        Fields { bits: WAVEPACKET }
    }

    /// Extra bytes region.
    pub fn extra_bytes() -> (r: Fields)
        ensures
            r.bits == EXTRA_BYTES,
    {
        Fields { bits: EXTRA_BYTES }
    }

    /// Every field: the only mask that lets a chunk be turned back into `las::Point` values.
    pub fn all() -> (r: Fields)
        ensures
            r.bits == ALL,
    {
        Fields { bits: ALL }
    }

    /// Whether every field of `other` is in this mask.
    pub fn contains(&self, other: Fields) -> (r: bool)
        ensures
            r == self.has(other.bits),
    {
        self.bits & other.bits == other.bits
    }

    /// Build the `laz` selection of the layers of these fields.
    pub fn to_laz_selection(self) -> (r: laz::DecompressionSelection)
        ensures
            selected_layers(r) == self.layers(),
    {
        let mut sel = laz::DecompressionSelection::xy_returns_channel();
        if self.contains(Fields::z()) {
            sel = sel.decompress_z();
        }
        if self.contains(Fields::intensity()) {
            sel = sel.decompress_intensity();
        }
        if self.contains(Fields::classification()) {
            sel = sel.decompress_classification();
        }
        if self.contains(Fields::flags()) {
            sel = sel.decompress_flags();
        }
        if self.contains(Fields::scan_angle()) {
            sel = sel.decompress_scan_angle();
        }
        if self.contains(Fields::user_data()) {
            sel = sel.decompress_user_data();
        }
        if self.contains(Fields::point_source_id()) {
            sel = sel.decompress_point_source_id();
        }
        if self.contains(Fields::gps_time()) {
            sel = sel.decompress_gps_time();
        }
        if self.contains(Fields::rgb()) {
            sel = sel.decompress_rgb();
        }
        if self.contains(Fields::nir()) {
            sel = sel.decompress_nir();
        }
        if self.contains(Fields::wavepacket()) {
            sel = sel.decompress_wavepacket();
        }
        if self.contains(Fields::extra_bytes()) {
            sel = sel.decompress_extra_bytes();
        }
        assert(selected_layers(sel) =~= self.layers());
        sel
    }
}

impl core::ops::BitOr for Fields {
    type Output = Fields;

    /// The fields of both masks.
    fn bitor(self, rhs: Fields) -> (r: Fields) {
        Fields { bits: self.bits | rhs.bits }
    }
}

impl vstd::std_specs::ops::BitOrSpecImpl for Fields {
    open spec fn obeys_bitor_spec() -> bool {
        true
    }

    open spec fn bitor_req(self, rhs: Fields) -> bool {
        true
    }

    open spec fn bitor_spec(self, rhs: Fields) -> Fields {
        Fields { bits: self.bits | rhs.bits }
    }
}

/// A combined mask holds the fields of its parts and no others.
pub proof fn law_union_has(a: Fields, b: Fields, flag: u32)
    requires
        exists|i: u32| i < 12 && flag == 1u32 << i,
    ensures
        (Fields { bits: a.bits | b.bits }).has(flag) <==> a.has(flag) || b.has(flag),
{
    let i = choose|i: u32| i < 12 && flag == 1u32 << i;
    let (x, y) = (a.bits, b.bits);
    assert((x | y) & flag == flag <==> x & flag == flag || y & flag == flag) by (bit_vector)
        requires
            i < 12,
            flag == 1u32 << i,
    ;
}

/// The full mask holds every field, and the empty mask none.
pub proof fn law_extremes(flag: u32)
    requires
        exists|i: u32| i < 12 && flag == 1u32 << i,
    ensures
        (Fields { bits: ALL }).has(flag),
        !(Fields { bits: 0 }).has(flag),
{
    let i = choose|i: u32| i < 12 && flag == 1u32 << i;
    assert(0xfffu32 & flag == flag && 0u32 & flag != flag) by (bit_vector)
        requires
            i < 12,
            flag == 1u32 << i,
    ;
}

/// The number of the layer of the z coordinate.
pub const LAYER_Z: u32 = 0;

/// The number of the layer of the classification.
pub const LAYER_CLASSIFICATION: u32 = 1;

/// The number of the layer of the flag bits.
pub const LAYER_FLAGS: u32 = 2;

/// The number of the layer of the intensity.
pub const LAYER_INTENSITY: u32 = 3;

/// The number of the layer of the scan angle.
pub const LAYER_SCAN_ANGLE: u32 = 4;

/// The number of the layer of the user data.
pub const LAYER_USER_DATA: u32 = 5;

/// The number of the layer of the point source id.
pub const LAYER_POINT_SOURCE_ID: u32 = 6;

/// The number of the layer of the GPS time.
pub const LAYER_GPS_TIME: u32 = 7;

/// The number of the layer of the colour.
pub const LAYER_RGB: u32 = 8;

/// The number of the layer of the near infrared.
pub const LAYER_NIR: u32 = 9;

/// The number of the layer of the waveform packet.
pub const LAYER_WAVEPACKET: u32 = 10;

/// The number of the layer of the extra bytes.
pub const LAYER_EXTRA_BYTES: u32 = 11;

/// The set of layers that `laz` is asked to decode.
#[verifier::external_type_specification]
#[verifier::external_body]
pub struct ExDecompressionSelection(laz::DecompressionSelection);

/// The layers in a selection: the positions of the bits that are set in it.
pub uninterp spec fn selected_layers(selection: laz::DecompressionSelection) -> Set<int>;

/// `laz::DecompressionSelection::xy_returns_channel` selects no layer beside the base layer.
pub assume_specification[ laz::DecompressionSelection::xy_returns_channel ]() -> (r:
    laz::DecompressionSelection)
    ensures
        selected_layers(r) == Set::<int>::empty(),
;

/// `laz::DecompressionSelection::decompress_z` adds the layer of the z coordinates.
pub assume_specification[ laz::DecompressionSelection::decompress_z ](
    selection: laz::DecompressionSelection,
) -> (r: laz::DecompressionSelection)
    ensures
        selected_layers(r) == selected_layers(selection).insert(LAYER_Z as int),
;

/// `laz::DecompressionSelection::decompress_classification` adds the layer of that field.
pub assume_specification[ laz::DecompressionSelection::decompress_classification ](
    selection: laz::DecompressionSelection,
) -> (r: laz::DecompressionSelection)
    ensures
        selected_layers(r) == selected_layers(selection).insert(LAYER_CLASSIFICATION as int),
;

/// `laz::DecompressionSelection::decompress_flags` adds the layer of that field.
pub assume_specification[ laz::DecompressionSelection::decompress_flags ](
    selection: laz::DecompressionSelection,
) -> (r: laz::DecompressionSelection)
    ensures
        selected_layers(r) == selected_layers(selection).insert(LAYER_FLAGS as int),
;

/// `laz::DecompressionSelection::decompress_intensity` adds the layer of that field.
pub assume_specification[ laz::DecompressionSelection::decompress_intensity ](
    selection: laz::DecompressionSelection,
) -> (r: laz::DecompressionSelection)
    ensures
        selected_layers(r) == selected_layers(selection).insert(LAYER_INTENSITY as int),
;

/// `laz::DecompressionSelection::decompress_scan_angle` adds the layer of that field.
pub assume_specification[ laz::DecompressionSelection::decompress_scan_angle ](
    selection: laz::DecompressionSelection,
) -> (r: laz::DecompressionSelection)
    ensures
        selected_layers(r) == selected_layers(selection).insert(LAYER_SCAN_ANGLE as int),
;

/// `laz::DecompressionSelection::decompress_user_data` adds the layer of that field.
pub assume_specification[ laz::DecompressionSelection::decompress_user_data ](
    selection: laz::DecompressionSelection,
) -> (r: laz::DecompressionSelection)
    ensures
        selected_layers(r) == selected_layers(selection).insert(LAYER_USER_DATA as int),
;

/// `laz::DecompressionSelection::decompress_point_source_id` adds the layer of that field.
pub assume_specification[ laz::DecompressionSelection::decompress_point_source_id ](
    selection: laz::DecompressionSelection,
) -> (r: laz::DecompressionSelection)
    ensures
        selected_layers(r) == selected_layers(selection).insert(LAYER_POINT_SOURCE_ID as int),
;

/// `laz::DecompressionSelection::decompress_gps_time` adds the layer of that field.
pub assume_specification[ laz::DecompressionSelection::decompress_gps_time ](
    selection: laz::DecompressionSelection,
) -> (r: laz::DecompressionSelection)
    ensures
        selected_layers(r) == selected_layers(selection).insert(LAYER_GPS_TIME as int),
;

/// `laz::DecompressionSelection::decompress_rgb` adds the layer of that field.
pub assume_specification[ laz::DecompressionSelection::decompress_rgb ](
    selection: laz::DecompressionSelection,
) -> (r: laz::DecompressionSelection)
    ensures
        selected_layers(r) == selected_layers(selection).insert(LAYER_RGB as int),
;

/// `laz::DecompressionSelection::decompress_nir` adds the layer of that field.
pub assume_specification[ laz::DecompressionSelection::decompress_nir ](
    selection: laz::DecompressionSelection,
) -> (r: laz::DecompressionSelection)
    ensures
        selected_layers(r) == selected_layers(selection).insert(LAYER_NIR as int),
;

/// `laz::DecompressionSelection::decompress_wavepacket` adds the layer of that field.
pub assume_specification[ laz::DecompressionSelection::decompress_wavepacket ](
    selection: laz::DecompressionSelection,
) -> (r: laz::DecompressionSelection)
    ensures
        selected_layers(r) == selected_layers(selection).insert(LAYER_WAVEPACKET as int),
;

/// `laz::DecompressionSelection::decompress_extra_bytes` adds the layer of that field.
pub assume_specification[ laz::DecompressionSelection::decompress_extra_bytes ](
    selection: laz::DecompressionSelection,
) -> (r: laz::DecompressionSelection)
    ensures
        selected_layers(r) == selected_layers(selection).insert(LAYER_EXTRA_BYTES as int),
;

} // verus!
