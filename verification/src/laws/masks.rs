//! Field masks, and the layers that are decoded for them.

use crate::fields::{
    selected_layers, Fields, LAYER_CLASSIFICATION, LAYER_EXTRA_BYTES, LAYER_FLAGS, LAYER_GPS_TIME,
    LAYER_INTENSITY, LAYER_NIR, LAYER_POINT_SOURCE_ID, LAYER_RGB, LAYER_SCAN_ANGLE,
    LAYER_USER_DATA, LAYER_WAVEPACKET, LAYER_Z,
};
use core::ops::BitOr;
use vstd::prelude::*;

verus! {

/// The layer of a field is decoded if and only if the field is in the mask: each of the twelve
/// fields has its own bit and its own layer, and no other layer is decoded.
pub proof fn law_layers_follow_fields(mask: Fields, sel: laz::DecompressionSelection)
    requires
        call_ensures(Fields::to_laz_selection, (mask,), sel),
    ensures
        selected_layers(sel).contains(LAYER_Z as int) <==> mask.bits & 0x1 != 0,
        selected_layers(sel).contains(LAYER_INTENSITY as int) <==> mask.bits & 0x2 != 0,
        selected_layers(sel).contains(LAYER_CLASSIFICATION as int) <==> mask.bits & 0x4 != 0,
        selected_layers(sel).contains(LAYER_FLAGS as int) <==> mask.bits & 0x8 != 0,
        selected_layers(sel).contains(LAYER_SCAN_ANGLE as int) <==> mask.bits & 0x10 != 0,
        selected_layers(sel).contains(LAYER_USER_DATA as int) <==> mask.bits & 0x20 != 0,
        selected_layers(sel).contains(LAYER_POINT_SOURCE_ID as int) <==> mask.bits & 0x40 != 0,
        selected_layers(sel).contains(LAYER_GPS_TIME as int) <==> mask.bits & 0x80 != 0,
        selected_layers(sel).contains(LAYER_RGB as int) <==> mask.bits & 0x100 != 0,
        selected_layers(sel).contains(LAYER_NIR as int) <==> mask.bits & 0x200 != 0,
        selected_layers(sel).contains(LAYER_WAVEPACKET as int) <==> mask.bits & 0x400 != 0,
        selected_layers(sel).contains(LAYER_EXTRA_BYTES as int) <==> mask.bits & 0x800 != 0,
        forall|layer: int| #[trigger]
            selected_layers(sel).contains(layer) ==> {
                ||| layer == LAYER_Z
                ||| layer == LAYER_INTENSITY
                ||| layer == LAYER_CLASSIFICATION
                ||| layer == LAYER_FLAGS
                ||| layer == LAYER_SCAN_ANGLE
                ||| layer == LAYER_USER_DATA
                ||| layer == LAYER_POINT_SOURCE_ID
                ||| layer == LAYER_GPS_TIME
                ||| layer == LAYER_RGB
                ||| layer == LAYER_NIR
                ||| layer == LAYER_WAVEPACKET
                ||| layer == LAYER_EXTRA_BYTES
            },
{
    lemma_single_bits(mask.bits);
}

/// A bit is set if and only if masking with it leaves something.
pub(crate) proof fn lemma_single_bits(bits: u32)
    ensures
        bits & 0x1 == 0x1 <==> bits & 0x1 != 0,
        bits & 0x2 == 0x2 <==> bits & 0x2 != 0,
        bits & 0x4 == 0x4 <==> bits & 0x4 != 0,
        bits & 0x8 == 0x8 <==> bits & 0x8 != 0,
        bits & 0x10 == 0x10 <==> bits & 0x10 != 0,
        bits & 0x20 == 0x20 <==> bits & 0x20 != 0,
        bits & 0x40 == 0x40 <==> bits & 0x40 != 0,
        bits & 0x80 == 0x80 <==> bits & 0x80 != 0,
        bits & 0x100 == 0x100 <==> bits & 0x100 != 0,
        bits & 0x200 == 0x200 <==> bits & 0x200 != 0,
        bits & 0x400 == 0x400 <==> bits & 0x400 != 0,
        bits & 0x800 == 0x800 <==> bits & 0x800 != 0,
{
    assert((bits & 0x1 == 0x1 <==> bits & 0x1 != 0) && (bits & 0x2 == 0x2 <==> bits & 0x2 != 0)
        && (bits & 0x4 == 0x4 <==> bits & 0x4 != 0) && (bits & 0x8 == 0x8 <==> bits & 0x8 != 0)
        && (bits & 0x10 == 0x10 <==> bits & 0x10 != 0) && (bits & 0x20 == 0x20 <==> bits & 0x20
        != 0) && (bits & 0x40 == 0x40 <==> bits & 0x40 != 0) && (bits & 0x80 == 0x80 <==> bits
        & 0x80 != 0) && (bits & 0x100 == 0x100 <==> bits & 0x100 != 0) && (bits & 0x200 == 0x200
        <==> bits & 0x200 != 0) && (bits & 0x400 == 0x400 <==> bits & 0x400 != 0) && (bits & 0x800
        == 0x800 <==> bits & 0x800 != 0)) by (bit_vector);
}

/// The layers have different numbers.
pub proof fn law_layers_differ()
    ensures
        seq![
            LAYER_Z,
            LAYER_INTENSITY,
            LAYER_CLASSIFICATION,
            LAYER_FLAGS,
            LAYER_SCAN_ANGLE,
            LAYER_USER_DATA,
            LAYER_POINT_SOURCE_ID,
            LAYER_GPS_TIME,
            LAYER_RGB,
            LAYER_NIR,
            LAYER_WAVEPACKET,
            LAYER_EXTRA_BYTES,
        ].no_duplicates(),
{
}

/// Each field is a bit of its own; all of them are in the full mask, and none in the empty one.
pub proof fn law_fields_are_bits()
    ensures
        forall|f: Fields| #[trigger] call_ensures(Fields::z, (), f) ==> f.bits == 0x1,
        forall|f: Fields| #[trigger] call_ensures(Fields::intensity, (), f) ==> f.bits == 0x2,
        forall|f: Fields| #[trigger] call_ensures(Fields::classification, (), f) ==> f.bits == 0x4,
        forall|f: Fields| #[trigger] call_ensures(Fields::flags, (), f) ==> f.bits == 0x8,
        forall|f: Fields| #[trigger] call_ensures(Fields::scan_angle, (), f) ==> f.bits == 0x10,
        forall|f: Fields| #[trigger] call_ensures(Fields::user_data, (), f) ==> f.bits == 0x20,
        forall|f: Fields| #[trigger]
            call_ensures(Fields::point_source_id, (), f) ==> f.bits == 0x40,
        forall|f: Fields| #[trigger] call_ensures(Fields::gps_time, (), f) ==> f.bits == 0x80,
        forall|f: Fields| #[trigger] call_ensures(Fields::rgb, (), f) ==> f.bits == 0x100,
        forall|f: Fields| #[trigger] call_ensures(Fields::nir, (), f) ==> f.bits == 0x200,
        forall|f: Fields| #[trigger] call_ensures(Fields::wavepacket, (), f) ==> f.bits == 0x400,
        forall|f: Fields| #[trigger] call_ensures(Fields::extra_bytes, (), f) ==> f.bits == 0x800,
        forall|f: Fields| #[trigger]
            call_ensures(Fields::all, (), f) ==> f.bits == 0x1 + 0x2 + 0x4 + 0x8 + 0x10 + 0x20
                + 0x40 + 0x80 + 0x100 + 0x200 + 0x400 + 0x800,
        forall|f: Fields| #[trigger] call_ensures(Fields::empty, (), f) ==> f.bits == 0,
{
}

/// A mask contains another if and only if no bit of the other is missing in it.
pub proof fn law_contains_misses_no_bit(a: Fields, b: Fields, r: bool)
    requires
        call_ensures(Fields::contains, (&a, b), r),
    ensures
        r <==> b.bits & !a.bits == 0,
{
    let (x, y) = (a.bits, b.bits);
    assert(x & y == y <==> y & !x == 0) by (bit_vector);
}

/// The union of two masks has every bit of both, and no other.
pub proof fn law_union_has_both(a: Fields, b: Fields, r: Fields)
    requires
        call_ensures(Fields::bitor, (a, b), r),
    ensures
        a.bits & !r.bits == 0,
        b.bits & !r.bits == 0,
        r.bits & !a.bits & !b.bits == 0,
{
    let (x, y) = (a.bits, b.bits);
    assert(x & !(x | y) == 0 && y & !(x | y) == 0 && (x | y) & !x & !y == 0) by (bit_vector);
}

} // verus!
