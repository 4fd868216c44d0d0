//! LAS header + COPC info parsing.
//!
//! The LAS header and the variable length records (VLRs) behind it are read by the `las` crate,
//! the LAZ parameters by the `laz` crate. Which records matter, and what the COPC record says, is
//! decided here.

use crate::binary64::Binary64;
use crate::bytes::{
    law_u16_reads_back, law_u64_reads_back, lemma_number_sizes, lemma_stands_split, stands_at,
    u16_at, u16_bytes, u32_at, u64_at, u64_bytes, ByteCursor,
};
use crate::error::CopcError;
use crate::point_cloud::{format_fields, header_format, PointFormat};
use crate::vlr::VlrData;
use vstd::prelude::*;
use vstd::slice::slice_subrange;

verus! {

/// COPC info VLR payload (160 bytes).
#[derive(Debug, Clone, Copy)]
pub struct CopcInfo {
    /// Centre of the root octree cube `[x, y, z]`.
    pub center: [Binary64; 3],
    /// Half the side length of the root octree cube.
    pub halfsize: Binary64,
    /// Spacing at the finest octree level.
    pub spacing: Binary64,
    /// File offset of the root hierarchy page.
    pub root_hier_offset: u64,
    /// Size of the root hierarchy page in bytes.
    pub root_hier_size: u64,
    /// Minimum GPS time across all points.
    pub gpstime_minimum: Binary64,
    /// Maximum GPS time across all points.
    pub gpstime_maximum: Binary64,
}

/// The size of the COPC info payload.
pub const COPC_INFO_SIZE: usize = 160;

impl CopcInfo {
    /// Whether this is the COPC info that a buffer begins with: nine 64-bit numbers. The rest is
    /// reserved.
    pub open spec fn begins(self, data: Seq<u8>) -> bool {
        &&& self.center[0].bits == u64_at(data, 0)
        &&& self.center[1].bits == u64_at(data, 8)
        &&& self.center[2].bits == u64_at(data, 16)
        &&& self.halfsize.bits == u64_at(data, 24)
        &&& self.spacing.bits == u64_at(data, 32)
        &&& self.root_hier_offset == u64_at(data, 40)
        &&& self.root_hier_size == u64_at(data, 48)
        &&& self.gpstime_minimum.bits == u64_at(data, 56)
        &&& self.gpstime_maximum.bits == u64_at(data, 64)
    }

    /// Parse the COPC info that a buffer begins with.
    pub fn parse(data: &[u8]) -> (r: Result<CopcInfo, CopcError>)
        ensures
            r is Ok <==> data@.len() >= COPC_INFO_SIZE,
            r matches Ok(info) ==> info.begins(data@),
            r matches Err(e) ==> e is CopcInfoNotFound,
    {
        if data.len() < COPC_INFO_SIZE {
            return Err(CopcError::CopcInfoNotFound);
        }
        let mut r = ByteCursor::new(data);
        match CopcInfo::read_fields(&mut r) {
            Ok(info) => Ok(info),
            Err(e) => Err(CopcError::Io(e)),
        }
    }

    /// Read the nine numbers.
    fn read_fields(r: &mut ByteCursor) -> (result: Result<CopcInfo, std::io::Error>)
        requires
            old(r).wf(),
            old(r).pos() == 0,
        ensures
            result is Ok <==> old(r).data().len() >= 72,
            result matches Ok(info) ==> info.begins(old(r).data()),
    {
        let center_x = Binary64::from_bits(r.read_u64()?);
        let center_y = Binary64::from_bits(r.read_u64()?);
        let center_z = Binary64::from_bits(r.read_u64()?);
        let halfsize = Binary64::from_bits(r.read_u64()?);
        let spacing = Binary64::from_bits(r.read_u64()?);
        let root_hier_offset: u64 = r.read_u64()?;
        let root_hier_size: u64 = r.read_u64()?;
        let gpstime_minimum = Binary64::from_bits(r.read_u64()?);
        let gpstime_maximum = Binary64::from_bits(r.read_u64()?);
        Ok(
            CopcInfo {
                center: [center_x, center_y, center_z],
                halfsize,
                spacing,
                root_hier_offset,
                root_hier_size,
                gpstime_minimum,
                gpstime_maximum,
            },
        )
    }
}

/// The bytes of a COPC info, without those that are reserved.
pub open spec fn info_bytes(info: CopcInfo) -> Seq<u8> {
    u64_bytes(info.center[0].bits) + u64_bytes(info.center[1].bits) + u64_bytes(
        info.center[2].bits,
    ) + u64_bytes(info.halfsize.bits) + u64_bytes(info.spacing.bits) + u64_bytes(
        info.root_hier_offset,
    ) + u64_bytes(info.root_hier_size) + u64_bytes(info.gpstime_minimum.bits) + u64_bytes(
        info.gpstime_maximum.bits,
    )
}

/// A COPC info is read back from the buffer that begins with its bytes.
pub proof fn law_info_reads_back(data: Seq<u8>, info: CopcInfo)
    requires
        stands_at(data, 0, info_bytes(info)),
    ensures
        info.begins(data),
{
    lemma_number_sizes();
    let b8 = u64_bytes(info.center[0].bits);
    let b16 = b8 + u64_bytes(info.center[1].bits);
    let b24 = b16 + u64_bytes(info.center[2].bits);
    let b32 = b24 + u64_bytes(info.halfsize.bits);
    let b40 = b32 + u64_bytes(info.spacing.bits);
    let b48 = b40 + u64_bytes(info.root_hier_offset);
    let b56 = b48 + u64_bytes(info.root_hier_size);
    let b64 = b56 + u64_bytes(info.gpstime_minimum.bits);
    lemma_stands_split(data, 0, b64, u64_bytes(info.gpstime_maximum.bits));
    lemma_stands_split(data, 0, b56, u64_bytes(info.gpstime_minimum.bits));
    lemma_stands_split(data, 0, b48, u64_bytes(info.root_hier_size));
    lemma_stands_split(data, 0, b40, u64_bytes(info.root_hier_offset));
    lemma_stands_split(data, 0, b32, u64_bytes(info.spacing.bits));
    lemma_stands_split(data, 0, b24, u64_bytes(info.halfsize.bits));
    lemma_stands_split(data, 0, b16, u64_bytes(info.center[2].bits));
    lemma_stands_split(data, 0, b8, u64_bytes(info.center[1].bits));
    law_u64_reads_back(data, 0, info.center[0].bits);
    law_u64_reads_back(data, 8, info.center[1].bits);
    law_u64_reads_back(data, 16, info.center[2].bits);
    law_u64_reads_back(data, 24, info.halfsize.bits);
    law_u64_reads_back(data, 32, info.spacing.bits);
    law_u64_reads_back(data, 40, info.root_hier_offset);
    law_u64_reads_back(data, 48, info.root_hier_size);
    law_u64_reads_back(data, 56, info.gpstime_minimum.bits);
    law_u64_reads_back(data, 64, info.gpstime_maximum.bits);
}

/// LAS headers as they stand in a file, of the `las` crate.
#[verifier::external_type_specification]
#[verifier::external_body]
pub struct ExRawHeader(las::raw::Header);

/// LAS header builders, of the `las` crate.
#[verifier::external_type_specification]
#[verifier::external_body]
pub struct ExBuilder(las::Builder);

/// LAS headers, of the `las` crate.
#[verifier::external_type_specification]
#[verifier::external_body]
pub struct ExLasHeader(las::Header);

/// Variable length records, of the `las` crate.
#[verifier::external_type_specification]
#[verifier::external_body]
pub struct ExVlr(las::Vlr);

/// LAZ parameters, of the `laz` crate.
#[verifier::external_type_specification]
#[verifier::external_body]
pub struct ExLazVlr(laz::LazVlr);

/// The numbers of a LAS header by which the file is read on.
pub struct HeaderNumbers {
    /// The file source id.
    pub file_source_id: u16,
    /// Flags: among others, whether times are GPS standard times, and whether return numbers are
    /// synthetic.
    pub global_encoding: u16,
    /// The version, major and minor.
    pub version: (u8, u8),
    /// The size of the header, which the first VLR follows.
    pub header_size: u16,
    /// The number of VLRs.
    pub number_of_vlrs: u32,
    /// The number of the point format, which the highest bit marks as compressed.
    pub point_format: u8,
    /// The length of a point record.
    pub record_length: u16,
    /// File offset of the first EVLR, and the number of EVLRs, where there are any.
    pub evlr: Option<(u64, u32)>,
}

/// The numbers that stand in a LAS header. Only headers of version 1.4 tell of EVLRs; an offset or
/// a number of zero says that there are none.
pub open spec fn numbers_in(data: Seq<u8>) -> HeaderNumbers {
    let (offset, count) = (u64_at(data, 235), u32_at(data, 243));
    HeaderNumbers {
        file_source_id: u16_at(data, 4),
        global_encoding: u16_at(data, 6),
        version: (data[24], data[25]),
        header_size: u16_at(data, 94),
        number_of_vlrs: u32_at(data, 100),
        point_format: data[104],
        record_length: u16_at(data, 105),
        evlr: if data[24] == 1 && data[25] == 4 && offset > 0 && count > 0 {
            Some((offset, count))
        } else {
            None
        },
    }
}

impl HeaderNumbers {
    /// The point format of the header: the one with its number, where there is such a format, with
    /// as many extra bytes as a record is longer than the format says. `None` where there is no
    /// such format, or a record is shorter.
    pub open spec fn format(self) -> Option<PointFormat> {
        let id = self.point_format % 64;
        let plain = PointFormat {
            has_gps_time: id == 1 || 3 <= id <= 10,
            has_color: id == 2 || id == 3 || id == 5 || id == 7 || id == 8 || id == 10,
            is_extended: id >= 6,
            has_waveform: id == 4 || id == 5 || id == 9 || id == 10,
            has_nir: id == 8 || id == 10,
            extra_bytes: 0,
        };
        if 10 < self.point_format < 0x80 || self.record_length < plain.record_len() {
            None
        } else {
            Some(
                PointFormat {
                    extra_bytes: (self.record_length - plain.record_len()) as u16,
                    ..plain
                },
            )
        }
    }

    /// Whether the version allows what the header says: the file source id, the flags, the point
    /// format.
    pub open spec fn allowed(self) -> bool {
        let (major, minor) = self.version;
        let format = self.format()->0;
        &&& major == 1 && minor <= 4
        &&& self.file_source_id != 0 ==> minor >= 1
        &&& self.global_encoding % 2 == 1 ==> minor >= 2
        &&& (self.global_encoding / 8) % 2 == 1 ==> minor >= 3
        &&& format.has_color ==> minor >= 2
        &&& format.has_waveform ==> minor >= 3
        &&& format.is_extended || format.has_nir ==> minor >= 4
    }
}

/// The numbers of a LAS header of the `las` crate.
pub uninterp spec fn raw_numbers(header: las::raw::Header) -> HeaderNumbers;

/// How many bytes a header of this version has: as they are read, and as the version says. They
/// differ for versions that do not exist.
pub open spec fn version_sizes(major: u8, minor: u8) -> (int, int) {
    if major == 1 && minor == 4 {
        (375, 375)
    } else if major == 1 && minor == 3 {
        (235, 235)
    } else if major < 1 || (major == 1 && minor < 3) {
        (227, 227)
    } else {
        (227, 375)
    }
}

/// Whether a buffer begins with a LAS header, all of which is there: the signature `LASF`, the
/// fields of the version, and as many more bytes as the size of the header leaves.
pub open spec fn header_fits(data: Seq<u8>) -> bool {
    &&& data.len() >= 227
    &&& data.take(4) == seq![0x4cu8, 0x41, 0x53, 0x46]
    &&& {
        let (read, said) = version_sizes(data[24], data[25]);
        let size = u16_at(data, 94) as int;
        data.len() >= read + if size > said {
            size - said
        } else {
            0
        }
    }
}

/// The LAS header that `las::raw::Header::read_from` finds in a buffer.
pub uninterp spec fn raw_header_in(data: Seq<u8>) -> las::raw::Header;

/// Whether `builder` is what `las::Builder::new` makes of this header.
pub uninterp spec fn made_builder(builder: las::Builder, header: las::raw::Header) -> bool;

/// Whether `result` is what `las::Builder::into_header` makes of what `las::Builder::new` made of
/// this header, with these records.
pub uninterp spec fn made_header(
    result: las::Header,
    header: las::raw::Header,
    vlrs: Seq<las::Vlr>,
) -> bool;

/// What `las::raw::Vlr::read_from` and `las::Vlr::new` make of the record that a buffer begins
/// with.
pub uninterp spec fn vlr_in(bytes: Seq<u8>) -> las::Vlr;

/// The LAZ parameters that a record holds, where `laz::LazVlr::read_from` finds them.
pub uninterp spec fn laz_vlr_in(data: Seq<u8>) -> Option<laz::LazVlr>;

/// `las::raw::Header::read_from` on a byte slice, with the numbers of the header beside it. It
/// succeeds where the slice begins with a header that is all there; the header that it finds
/// depends on the bytes alone, and the numbers are those that stand in the slice at the offsets of
/// the LAS format.
#[verifier::external_body]
fn read_raw_header(data: &[u8]) -> (r: Result<(las::raw::Header, HeaderNumbers), las::Error>)
    ensures
        r is Ok <==> header_fits(data@),
        r matches Ok((header, numbers)) ==> {
            &&& header == raw_header_in(data@)
            &&& raw_numbers(header) == numbers
            &&& numbers == numbers_in(data@)
        },
{
    let header = las::raw::Header::read_from(data)?;
    let numbers = HeaderNumbers {
        file_source_id: header.file_source_id,
        global_encoding: header.global_encoding,
        version: (header.version.major, header.version.minor),
        header_size: header.header_size,
        number_of_vlrs: header.number_of_variable_length_records,
        point_format: header.point_data_record_format,
        record_length: header.point_data_record_length,
        evlr: header.evlr.as_ref().map(|e| (e.start_of_first_evlr, e.number_of_evlrs)),
    };
    Ok((header, numbers))
}

/// `las::Builder::new`: it succeeds where the header's point format is one, and its records are
/// long enough for it. What it makes depends on the header alone.
#[verifier::external_body]
fn new_builder(header: las::raw::Header) -> (r: Result<las::Builder, las::Error>)
    ensures
        r is Ok <==> raw_numbers(header).format() is Some,
        r matches Ok(builder) ==> made_builder(builder, header),
{
    las::Builder::new(header)
}

/// Whether this is a VLR as it is read from a file, which has no more data than a VLR can have.
pub open spec fn is_regular(vlr: las::Vlr) -> bool {
    exists|bytes: Seq<u8>| vlr_fits(bytes) && vlr == #[trigger] vlr_in(bytes)
}

/// `las::Builder::into_header`, with these records as the builder's: it succeeds where the version
/// allows what the header says. What it makes depends on the header that the builder was made of,
/// and on the records; it has that header's point format.
#[verifier::external_body]
fn into_header(builder: las::Builder, vlrs: Vec<las::Vlr>) -> (r: Result<las::Header, las::Error>)
    requires
        forall|i: int| 0 <= i < vlrs@.len() ==> is_regular(#[trigger] vlrs@[i]),
    ensures
        forall|header: las::raw::Header| #[trigger]
            made_builder(builder, header) ==> {
                &&& r is Ok <==> raw_numbers(header).allowed()
                &&& r matches Ok(result) ==> made_header(result, header, vlrs@) && Some(
                    format_fields(header_format(result)),
                ) == raw_numbers(header).format()
            },
{
    let mut builder = builder;
    builder.vlrs = vlrs;
    builder.into_header()
}

/// The size of the header of a VLR.
pub const VLR_HEADER_SIZE: usize = 54;

/// The size of the VLR that a buffer begins with.
pub open spec fn vlr_size(bytes: Seq<u8>) -> int {
    VLR_HEADER_SIZE + u16_at(bytes, 20)
}

/// Whether all of the VLR that a buffer begins with is there.
pub open spec fn vlr_fits(bytes: Seq<u8>) -> bool {
    bytes.len() >= VLR_HEADER_SIZE && bytes.len() >= vlr_size(bytes)
}

/// The data of the VLR that a buffer begins with.
pub open spec fn vlr_payload(bytes: Seq<u8>) -> Seq<u8> {
    bytes.subrange(VLR_HEADER_SIZE as int, vlr_size(bytes))
}

/// How long the text in a NUL-padded field is.
pub open spec fn text_length(field: Seq<u8>) -> int
    decreases field.len(),
{
    if field.len() == 0 || field[0] == 0 {
        0
    } else {
        1 + text_length(field.drop_first())
    }
}

/// Whether `text` is the text in a NUL-padded field: its characters, where they are ASCII; else
/// something that is not ASCII either.
pub open spec fn is_field_text(field: Seq<u8>, text: Seq<char>) -> bool {
    let n = text_length(field);
    if forall|i: int| 0 <= i < n ==> #[trigger] field[i] < 0x80 {
        text == Seq::new(n as nat, |i: int| field[i] as char)
    } else {
        exists|i: int| 0 <= i < text.len() && #[trigger] text[i] as int >= 0x80
    }
}

/// `las::raw::Vlr::read_from` on a byte slice, for a record that is not extended, and
/// `las::Vlr::new` of it, with the user id, the record id and the data beside the record. It
/// succeeds where header and data are all there.
#[verifier::external_body]
fn read_vlr(bytes: &[u8]) -> (r: Result<(las::Vlr, VlrData), las::Error>)
    ensures
        r is Ok <==> vlr_fits(bytes@),
        r matches Ok((vlr, plain)) ==> {
            &&& vlr == vlr_in(bytes@)
            &&& is_field_text(bytes@.subrange(2, 18), plain.user_id@)
            &&& plain.record_id == u16_at(bytes@, 18)
            &&& plain.data@ == vlr_payload(bytes@)
        },
{
    let vlr = las::Vlr::new(las::raw::Vlr::read_from(bytes, false)?);
    let plain = VlrData {
        user_id: vlr.user_id.clone(),
        record_id: vlr.record_id,
        data: vlr.data.clone(),
    };
    Ok((vlr, plain))
}

/// `laz::LazVlr::read_from` on a byte slice: whether it succeeds, and the parameters that it finds,
/// depend on the bytes alone.
#[verifier::external_body]
fn read_laz_vlr(data: &[u8]) -> (r: Result<laz::LazVlr, laz::LasZipError>)
    ensures
        r is Ok <==> laz_vlr_in(data@) is Some,
        r matches Ok(vlr) ==> laz_vlr_in(data@) == Some(vlr),
{
    laz::LazVlr::read_from(data)
}

/// What a VLR is for.
#[derive(Debug, Clone, Copy, PartialEq, Eq, Structural)]
pub enum VlrUse {
    /// It holds the COPC info.
    CopcInfo,
    /// It holds the LAZ parameters.
    Laz,
    /// It is of no use here.
    Other,
}

/// What a VLR with this user id and this record id is for.
pub open spec fn use_of(user_id: Seq<char>, record_id: u16) -> VlrUse {
    if user_id == "copc"@ && record_id == 1 {
        VlrUse::CopcInfo
    } else if user_id == "laszip encoded"@ && record_id == 22204 {
        VlrUse::Laz
    } else {
        VlrUse::Other
    }
}

/// Tell what a VLR is for by its user id and its record id.
pub fn vlr_use(vlr: &VlrData) -> (r: VlrUse)
    ensures
        r == use_of(vlr.user_id@, vlr.record_id),
{
    if vlr.user_id == "copc".to_owned() && vlr.record_id == 1 {
        VlrUse::CopcInfo
    } else if vlr.user_id == "laszip encoded".to_owned() && vlr.record_id == 22204 {
        VlrUse::Laz
    } else {
        VlrUse::Other
    }
}

/// Whether the text in a NUL-padded field is this ASCII text.
pub open spec fn field_is(field: Seq<u8>, text: Seq<char>) -> bool {
    &&& text_length(field) == text.len()
    &&& forall|i: int| 0 <= i < text.len() ==> field[i] as int == #[trigger] text[i] as int
}

/// What the VLR that a buffer begins with is for.
pub open spec fn use_in(bytes: Seq<u8>) -> VlrUse {
    let user_id = bytes.subrange(2, 18);
    if field_is(user_id, "copc"@) && u16_at(bytes, 18) == 1 {
        VlrUse::CopcInfo
    } else if field_is(user_id, "laszip encoded"@) && u16_at(bytes, 18) == 22204 {
        VlrUse::Laz
    } else {
        VlrUse::Other
    }
}

/// The text of a field is ASCII text if and only if its bytes say so.
proof fn lemma_field_text(field: Seq<u8>, text: Seq<char>, ascii: Seq<char>)
    requires
        is_field_text(field, text),
        forall|i: int| 0 <= i < ascii.len() ==> (#[trigger] ascii[i] as int) < 0x80,
    ensures
        text == ascii <==> field_is(field, ascii),
{
    let n = text_length(field);
    lemma_text_length(field);
    if forall|i: int| 0 <= i < n ==> #[trigger] field[i] < 0x80 {
        assert forall|i: int| 0 <= i < n implies #[trigger] text[i] as int == field[i] as int by {}
        if field_is(field, ascii) {
            assert(text =~= ascii) by {
                assert forall|i: int| 0 <= i < n implies text[i] == ascii[i] by {
                    assert(text[i] as int == ascii[i] as int);
                }
            }
        }
    } else {
        let i = choose|i: int| 0 <= i < n && !(#[trigger] field[i] < 0x80);
        if field_is(field, ascii) {
            assert(field[i] as int == ascii[i] as int);
        }
    }
}

/// A text is not longer than its field.
proof fn lemma_text_length(field: Seq<u8>)
    ensures
        0 <= text_length(field) <= field.len(),
    decreases field.len(),
{
    if field.len() > 0 {
        lemma_text_length(field.drop_first());
    }
}

/// The bytes of a file from an offset on.
pub open spec fn bytes_from(data: Seq<u8>, at: int) -> Seq<u8> {
    if 0 <= at <= data.len() {
        data.subrange(at, data.len() as int)
    } else {
        Seq::empty()
    }
}

/// What going through VLRs comes to.
pub enum Scan {
    /// All of them are in order.
    Done {
        /// The VLRs.
        vlrs: Seq<las::Vlr>,
        /// The data of the last one that holds the COPC info.
        info: Option<Seq<u8>>,
        /// The data of the last one that holds the LAZ parameters.
        laz: Option<Seq<u8>>,
        /// Where the next one begins.
        next: int,
    },
    /// One of them is cut off.
    CutOff,
    /// One of them should hold the COPC info, and is too short.
    BadInfo,
    /// One of them should hold the LAZ parameters, and does not.
    BadLaz,
}

/// What going through `n` VLRs comes to, the first of which is at offset `first`: each follows the
/// one before, and the first that is not in order ends it.
pub open spec fn scan(data: Seq<u8>, first: int, n: nat) -> Scan
    decreases n,
{
    if n == 0 {
        Scan::Done { vlrs: Seq::empty(), info: None, laz: None, next: first }
    } else {
        match scan(data, first, (n - 1) as nat) {
            Scan::Done { vlrs, info, laz, next } => {
                let bytes = bytes_from(data, next);
                let payload = vlr_payload(bytes);
                let vlrs = vlrs.push(vlr_in(bytes));
                let next = next + vlr_size(bytes);
                if !vlr_fits(bytes) {
                    Scan::CutOff
                } else if use_in(bytes) == VlrUse::CopcInfo {
                    if payload.len() < COPC_INFO_SIZE {
                        Scan::BadInfo
                    } else {
                        Scan::Done { vlrs, info: Some(payload), laz, next }
                    }
                } else if use_in(bytes) == VlrUse::Laz {
                    if laz_vlr_in(payload) is None {
                        Scan::BadLaz
                    } else {
                        Scan::Done { vlrs, info, laz: Some(payload), next }
                    }
                } else {
                    Scan::Done { vlrs, info, laz, next }
                }
            },
            bad => bad,
        }
    }
}

/// What is not in order stays so.
proof fn lemma_scan_ends(data: Seq<u8>, first: int, m: nat, n: nat)
    requires
        m <= n,
        !(scan(data, first, m) is Done),
    ensures
        scan(data, first, n) == scan(data, first, m),
    decreases n,
{
    if m < n {
        lemma_scan_ends(data, first, m, (n - 1) as nat);
    }
}

/// Parsed COPC file header.
///
/// LAS-standard fields come from `las::Header`.
/// COPC-specific fields are in `copc_info`.
pub struct CopcHeader {
    las_header: las::Header,
    copc_info: CopcInfo,
    laz_vlr: laz::LazVlr,
    evlr_offset: u64,
    evlr_count: u32,
}

impl CopcHeader {
    /// The LAS header.
    pub closed spec fn standard(self) -> las::Header {
        self.las_header
    }

    /// The COPC info.
    pub closed spec fn info(self) -> CopcInfo {
        self.copc_info
    }

    /// The LAZ parameters.
    pub closed spec fn compression(self) -> laz::LazVlr {
        self.laz_vlr
    }

    /// File offset of the first EVLR, and the number of EVLRs; both are 0 where there are none.
    pub closed spec fn evlrs(self) -> (u64, u32) {
        (self.evlr_offset, self.evlr_count)
    }

    /// Put a header together from what was found in the file; an error where the COPC info or the
    /// LAZ parameters were not.
    pub fn new(
        las_header: las::Header,
        copc_info: Option<CopcInfo>,
        laz_vlr: Option<laz::LazVlr>,
        evlr: Option<(u64, u32)>,
    ) -> (r: Result<CopcHeader, CopcError>)
        ensures
            match (copc_info, laz_vlr) {
                (Some(info), Some(laz)) => r matches Ok(header) && {
                    &&& header.standard() == las_header
                    &&& header.info() == info
                    &&& header.compression() == laz
                    &&& header.evlrs() == (match evlr {
                        Some(place) => place,
                        None => (0, 0),
                    })
                },
                (None, _) => r matches Err(CopcError::CopcInfoNotFound),
                (Some(_), None) => r matches Err(CopcError::LazVlrNotFound),
            },
    {
        let copc_info = match copc_info {
            Some(info) => info,
            None => return Err(CopcError::CopcInfoNotFound),
        };
        let laz_vlr = match laz_vlr {
            Some(laz) => laz,
            None => return Err(CopcError::LazVlrNotFound),
        };
        let (evlr_offset, evlr_count) = match evlr {
            Some(place) => place,
            None => (0, 0),
        };
        Ok(CopcHeader { las_header, copc_info, laz_vlr, evlr_offset, evlr_count })
    }

    /// Full LAS header with transforms, bounds, point format, etc.
    pub fn las_header(&self) -> (r: &las::Header)
        ensures
            *r == self.standard(),
    {
        &self.las_header
    }

    /// COPC-specific info (octree center, halfsize, hierarchy location).
    pub fn copc_info(&self) -> (r: &CopcInfo)
        ensures
            *r == self.info(),
    {
        &self.copc_info
    }

    /// LAZ decompression parameters.
    pub fn laz_vlr(&self) -> (r: &laz::LazVlr)
        ensures
            *r == self.compression(),
    {
        &self.laz_vlr
    }

    /// File offset where EVLRs start.
    pub fn evlr_offset(&self) -> (r: u64)
        ensures
            r == self.evlrs().0,
    {
        self.evlr_offset
    }

    /// Number of EVLRs.
    pub fn evlr_count(&self) -> (r: u32)
        ensures
            r == self.evlrs().1,
    {
        self.evlr_count
    }
}

/// Whether `r` is what there is to say of a file that begins with these bytes.
pub open spec fn header_outcome(data: Seq<u8>, r: Result<CopcHeader, CopcError>) -> bool {
    let raw = raw_header_in(data);
    let numbers = numbers_in(data);
    if !header_fits(data) || numbers.format() is None {
        r matches Err(CopcError::Las(_))
    } else {
        match scan(data, numbers.header_size as int, numbers.number_of_vlrs as nat) {
            Scan::CutOff => r matches Err(CopcError::Las(_)),
            Scan::BadInfo => r matches Err(CopcError::CopcInfoNotFound),
            Scan::BadLaz => r matches Err(CopcError::Laz(_)),
            Scan::Done { vlrs, info, laz, .. } => if !numbers.allowed() {
                r matches Err(CopcError::Las(_))
            } else if info is None {
                r matches Err(CopcError::CopcInfoNotFound)
            } else if laz is None {
                r matches Err(CopcError::LazVlrNotFound)
            } else {
                r matches Ok(header) && {
                    &&& made_header(header.standard(), raw, vlrs)
                    &&& Some(format_fields(header_format(header.standard()))) == numbers.format()
                    &&& header.info().begins(info->0)
                    &&& laz_vlr_in(laz->0) == Some(header.compression())
                    &&& header.evlrs() == (match numbers.evlr {
                        Some(place) => place,
                        None => (0, 0),
                    })
                }
            },
        }
    }
}

/// Parse COPC header from a byte buffer.
///
/// The buffer must contain the LAS header and all VLRs (typically first ~64KB).
pub fn parse_header(data: &[u8]) -> (r: Result<CopcHeader, CopcError>)
    ensures
        header_outcome(data@, r),
{
    // Parse the raw LAS header
    let (raw_header, numbers) = match read_raw_header(data) {
        Ok(found) => found,
        Err(e) => return Err(CopcError::Las(e)),
    };
    let ghost raw = raw_header;
    // Build the high-level header (for transforms, point format, etc.)
    let builder = match new_builder(raw_header) {
        Ok(builder) => builder,
        Err(e) => return Err(CopcError::Las(e)),
    };
    // Parse all VLRs, which follow the header
    let ghost first = numbers.header_size as int;
    let mut position: usize = numbers.header_size as usize;
    let mut vlrs: Vec<las::Vlr> = Vec::new();
    let mut copc_info: Option<CopcInfo> = None;
    let mut laz_vlr: Option<laz::LazVlr> = None;
    let ghost mut info_data: Option<Seq<u8>> = None;
    let ghost mut laz_data: Option<Seq<u8>> = None;
    assert(vlrs@ =~= Seq::empty());
    let mut n: u32 = 0;
    while n < numbers.number_of_vlrs
        invariant
            n <= numbers.number_of_vlrs,
            header_fits(data@),
            raw == raw_header_in(data@),
            raw_numbers(raw) == numbers,
            numbers.format() is Some,
            made_builder(builder, raw),
            forall|i: int| 0 <= i < vlrs@.len() ==> is_regular(#[trigger] vlrs@[i]),
            numbers == numbers_in(data@),
            first == numbers.header_size,
            scan(data@, first, n as nat) == (Scan::Done {
                vlrs: vlrs@,
                info: info_data,
                laz: laz_data,
                next: position as int,
            }),
            copc_info is Some <==> info_data is Some,
            copc_info matches Some(info) ==> info.begins(info_data->0),
            laz_vlr is Some <==> laz_data is Some,
            laz_vlr matches Some(laz) ==> laz_vlr_in(laz_data->0) == Some(laz),
        decreases numbers.number_of_vlrs - n,
    {
        let from: usize = if position <= data.len() {
            position
        } else {
            data.len()
        };
        let rest = slice_subrange(data, from, data.len());
        assert(rest@ =~= bytes_from(data@, position as int));
        let ghost total = numbers.number_of_vlrs as nat;
        proof {
            if !(scan(data@, first, (n + 1) as nat) is Done) {
                lemma_scan_ends(data@, first, (n + 1) as nat, total);
            }
        }
        let (vlr, plain) = match read_vlr(rest) {
            Ok(found) => found,
            Err(e) => return Err(CopcError::Las(e)),
        };
        proof {
            lemma_use(rest@, plain);
        }
        match vlr_use(&plain) {
            VlrUse::CopcInfo => match CopcInfo::parse(plain.data.as_slice()) {
                Ok(info) => {
                    copc_info = Some(info);
                    proof {
                        info_data = Some(plain.data@);
                    }
                },
                Err(e) => return Err(e),
            },
            VlrUse::Laz => match read_laz_vlr(plain.data.as_slice()) {
                Ok(laz) => {
                    laz_vlr = Some(laz);
                    proof {
                        laz_data = Some(plain.data@);
                    }
                },
                Err(e) => return Err(CopcError::Laz(e)),
            },
            VlrUse::Other => {},
        }
        vlrs.push(vlr);
        position = from + VLR_HEADER_SIZE + plain.data.len();
        n = n + 1;
    }
    let las_header = match into_header(builder, vlrs) {
        Ok(header) => header,
        Err(e) => return Err(CopcError::Las(e)),
    };
    CopcHeader::new(las_header, copc_info, laz_vlr, numbers.evlr)
}

/// A VLR is for what its bytes say it is for.
proof fn lemma_use(bytes: Seq<u8>, plain: VlrData)
    requires
        is_field_text(bytes.subrange(2, 18), plain.user_id@),
        plain.record_id == u16_at(bytes, 18),
    ensures
        use_of(plain.user_id@, plain.record_id) == use_in(bytes),
{
    reveal_strlit("copc");
    reveal_strlit("laszip encoded");
    lemma_field_text(bytes.subrange(2, 18), plain.user_id@, "copc"@);
    lemma_field_text(bytes.subrange(2, 18), plain.user_id@, "laszip encoded"@);
}

/// A point format counts as many bytes as the header says that a record has.
pub proof fn law_format_has_record_length(numbers: HeaderNumbers)
    requires
        numbers.format() is Some,
    ensures
        numbers.format()->0.record_len() == numbers.record_length,
{
}

/// A VLR as it stands in a file.
pub struct StoredVlr {
    /// The user id, padded with NUL to 16 bytes.
    pub user_id: Seq<u8>,
    /// The record id.
    pub record_id: u16,
    /// The description, padded with NUL to 32 bytes.
    pub description: Seq<u8>,
    /// The data.
    pub data: Seq<u8>,
}

impl StoredVlr {
    /// What the VLR is for.
    pub open spec fn purpose(self) -> VlrUse {
        if field_is(self.user_id, "copc"@) && self.record_id == 1 {
            VlrUse::CopcInfo
        } else if field_is(self.user_id, "laszip encoded"@) && self.record_id == 22204 {
            VlrUse::Laz
        } else {
            VlrUse::Other
        }
    }

    /// Whether the VLR can be written down, and its data can be used for what it is for.
    pub open spec fn sound(self) -> bool {
        &&& self.user_id.len() == 16
        &&& self.description.len() == 32
        &&& self.data.len() <= u16::MAX
        &&& self.purpose() == VlrUse::CopcInfo ==> self.data.len() >= COPC_INFO_SIZE
        &&& self.purpose() == VlrUse::Laz ==> laz_vlr_in(self.data) is Some
    }

    /// The bytes of the VLR; the first two are reserved.
    pub open spec fn bytes(self) -> Seq<u8> {
        u16_bytes(0) + self.user_id + u16_bytes(self.record_id) + u16_bytes(
            self.data.len() as u16,
        ) + self.description + self.data
    }
}

/// The bytes of VLRs, one after the other.
pub open spec fn stored_bytes(vlrs: Seq<StoredVlr>) -> Seq<u8>
    decreases vlrs.len(),
{
    if vlrs.len() == 0 {
        Seq::empty()
    } else {
        stored_bytes(vlrs.drop_last()) + vlrs.last().bytes()
    }
}

/// The data of the last VLR with this purpose.
pub open spec fn last_data(vlrs: Seq<StoredVlr>, purpose: VlrUse) -> Option<Seq<u8>>
    decreases vlrs.len(),
{
    if vlrs.len() == 0 {
        None
    } else if vlrs.last().purpose() == purpose {
        Some(vlrs.last().data)
    } else {
        last_data(vlrs.drop_last(), purpose)
    }
}

/// Where a VLR's bytes stand, it fits, and is read back: its purpose, its data, its size.
pub proof fn law_vlr_reads_back(data: Seq<u8>, at: int, vlr: StoredVlr)
    requires
        vlr.sound(),
        stands_at(data, at, vlr.bytes()),
    ensures
        vlr_fits(bytes_from(data, at)),
        use_in(bytes_from(data, at)) == vlr.purpose(),
        vlr_payload(bytes_from(data, at)) == vlr.data,
        vlr_size(bytes_from(data, at)) == vlr.bytes().len(),
{
    let bytes = bytes_from(data, at);
    let b2 = u16_bytes(0);
    let b18 = b2 + vlr.user_id;
    let b20 = b18 + u16_bytes(vlr.record_id);
    let b22 = b20 + u16_bytes(vlr.data.len() as u16);
    let b54 = b22 + vlr.description;
    assert(stands_at(bytes, 0, vlr.bytes())) by {
        assert(bytes.subrange(0, vlr.bytes().len() as int) =~= data.subrange(
            at,
            at + vlr.bytes().len(),
        ));
    }
    lemma_stands_split(bytes, 0, b54, vlr.data);
    lemma_stands_split(bytes, 0, b22, vlr.description);
    lemma_stands_split(bytes, 0, b20, u16_bytes(vlr.data.len() as u16));
    lemma_stands_split(bytes, 0, b18, u16_bytes(vlr.record_id));
    lemma_stands_split(bytes, 0, b2, vlr.user_id);
    law_u16_reads_back(bytes, 18, vlr.record_id);
    law_u16_reads_back(bytes, 20, vlr.data.len() as u16);
}

/// VLRs are read back from where their bytes stand: going through them finds the data of the last
/// one with the COPC info, and that of the last one with the LAZ parameters.
pub proof fn law_vlrs_read_back(data: Seq<u8>, first: int, vlrs: Seq<StoredVlr>)
    requires
        forall|i: int| 0 <= i < vlrs.len() ==> (#[trigger] vlrs[i]).sound(),
        stands_at(data, first, stored_bytes(vlrs)),
    ensures
        scan(data, first, vlrs.len()) matches Scan::Done { vlrs: found, info, laz, next } && {
            &&& found.len() == vlrs.len()
            &&& info == last_data(vlrs, VlrUse::CopcInfo)
            &&& laz == last_data(vlrs, VlrUse::Laz)
            &&& next == first + stored_bytes(vlrs).len()
        },
    decreases vlrs.len(),
{
    if vlrs.len() > 0 {
        let rest = vlrs.drop_last();
        lemma_stands_split(data, first, stored_bytes(rest), vlrs.last().bytes());
        assert forall|i: int| 0 <= i < rest.len() implies (#[trigger] rest[i]).sound() by {
            assert(rest[i] == vlrs[i]);
        }
        law_vlrs_read_back(data, first, rest);
        assert(vlrs[vlrs.len() - 1].sound());
        law_vlr_reads_back(data, first + stored_bytes(rest).len(), vlrs.last());
    }
}

} // verus!
