//! The header of a file: the LAS header, and the variable length records (VLRs) behind it.

use crate::bytes::{
    law_u16_reads_back, law_u32_reads_back, law_u64_reads_back, lemma_number_sizes,
    lemma_stands_split, stands_at, u16_bytes, u32_bytes, u64_bytes,
};
use crate::error::CopcError;
use crate::header::{
    bytes_from, field_is, laz_vlr_in, made_header, numbers_in, parse_header, raw_header_in, scan,
    text_length, use_in, vlr_fits, vlr_in, vlr_payload, vlr_size, vlr_use, CopcHeader, CopcInfo,
    Scan, VlrUse,
};
use crate::point_cloud::{format_fields, header_format};
use crate::vlr::VlrData;
use vstd::prelude::*;

verus! {

/// Nine 64-bit numbers, one after the other.
pub open spec fn nine_numbers(
    n0: u64,
    n1: u64,
    n2: u64,
    n3: u64,
    n4: u64,
    n5: u64,
    n6: u64,
    n7: u64,
    n8: u64,
) -> Seq<u8> {
    u64_bytes(n0) + u64_bytes(n1) + u64_bytes(n2) + u64_bytes(n3) + u64_bytes(n4) + u64_bytes(n5)
        + u64_bytes(n6) + u64_bytes(n7) + u64_bytes(n8)
}

/// The COPC info is read back from its bytes, number by number and bit by bit: the center along the
/// three axes, half the side length, the spacing, offset and size of the root page, the least and
/// the greatest GPS time. What follows up to the size of the record is not looked at.
pub proof fn law_info_is_what_was_written(
    data: &[u8],
    x: u64,
    y: u64,
    z: u64,
    halfsize: u64,
    spacing: u64,
    offset: u64,
    size: u64,
    first: u64,
    last: u64,
    r: Result<CopcInfo, CopcError>,
)
    requires
        call_ensures(CopcInfo::parse, (data,), r),
        data@.len() >= 160,
        stands_at(
            data@,
            0,
            nine_numbers(x, y, z, halfsize, spacing, offset, size, first, last),
        ),
    ensures
        r matches Ok(info) && {
            &&& info.center[0].bits == x
            &&& info.center[1].bits == y
            &&& info.center[2].bits == z
            &&& info.halfsize.bits == halfsize
            &&& info.spacing.bits == spacing
            &&& info.root_hier_offset == offset
            &&& info.root_hier_size == size
            &&& info.gpstime_minimum.bits == first
            &&& info.gpstime_maximum.bits == last
        },
{
    lemma_info_begins(
        data@,
        r->Ok_0,
        x,
        y,
        z,
        halfsize,
        spacing,
        offset,
        size,
        first,
        last,
    );
}

/// The numbers of the info that a buffer begins with.
proof fn lemma_info_begins(
    data: Seq<u8>,
    info: CopcInfo,
    n0: u64,
    n1: u64,
    n2: u64,
    n3: u64,
    n4: u64,
    n5: u64,
    n6: u64,
    n7: u64,
    n8: u64,
)
    requires
        info.begins(data),
        stands_at(data, 0, nine_numbers(n0, n1, n2, n3, n4, n5, n6, n7, n8)),
    ensures
        info.center[0].bits == n0,
        info.center[1].bits == n1,
        info.center[2].bits == n2,
        info.halfsize.bits == n3,
        info.spacing.bits == n4,
        info.root_hier_offset == n5,
        info.root_hier_size == n6,
        info.gpstime_minimum.bits == n7,
        info.gpstime_maximum.bits == n8,
{
    lemma_number_sizes();
    let b8 = u64_bytes(n0);
    let b16 = b8 + u64_bytes(n1);
    let b24 = b16 + u64_bytes(n2);
    let b32 = b24 + u64_bytes(n3);
    let b40 = b32 + u64_bytes(n4);
    let b48 = b40 + u64_bytes(n5);
    let b56 = b48 + u64_bytes(n6);
    let b64 = b56 + u64_bytes(n7);
    lemma_stands_split(data, 0, b64, u64_bytes(n8));
    lemma_stands_split(data, 0, b56, u64_bytes(n7));
    lemma_stands_split(data, 0, b48, u64_bytes(n6));
    lemma_stands_split(data, 0, b40, u64_bytes(n5));
    lemma_stands_split(data, 0, b32, u64_bytes(n4));
    lemma_stands_split(data, 0, b24, u64_bytes(n3));
    lemma_stands_split(data, 0, b16, u64_bytes(n2));
    lemma_stands_split(data, 0, b8, u64_bytes(n1));
    law_u64_reads_back(data, 0, n0);
    law_u64_reads_back(data, 8, n1);
    law_u64_reads_back(data, 16, n2);
    law_u64_reads_back(data, 24, n3);
    law_u64_reads_back(data, 32, n4);
    law_u64_reads_back(data, 40, n5);
    law_u64_reads_back(data, 48, n6);
    law_u64_reads_back(data, 56, n7);
    law_u64_reads_back(data, 64, n8);
}

/// A record that is shorter than the COPC info does not hold one, and any other does.
pub proof fn law_short_info_is_not_found(data: &[u8], r: Result<CopcInfo, CopcError>)
    requires
        call_ensures(CopcInfo::parse, (data,), r),
    ensures
        data@.len() < 160 <==> r is Err,
        r matches Err(e) ==> e is CopcInfoNotFound,
{
}

/// A VLR holds the COPC info if and only if its user id is `copc` and its record id 1, and the LAZ
/// parameters if and only if its user id is `laszip encoded` and its record id 22204.
pub proof fn law_use_of_a_vlr(vlr: VlrData, r: VlrUse)
    requires
        call_ensures(vlr_use, (&vlr,), r),
    ensures
        r is CopcInfo <==> vlr.record_id == 1 && vlr.user_id@ == seq!['c', 'o', 'p', 'c'],
        r is Laz <==> vlr.record_id == 22204 && vlr.user_id@ == seq![
            'l',
            'a',
            's',
            'z',
            'i',
            'p',
            ' ',
            'e',
            'n',
            'c',
            'o',
            'd',
            'e',
            'd',
        ],
{
    reveal_strlit("copc");
    reveal_strlit("laszip encoded");
    assert("copc"@ =~= seq!['c', 'o', 'p', 'c']);
    assert("laszip encoded"@ =~= seq![
        'l',
        'a',
        's',
        'z',
        'i',
        'p',
        ' ',
        'e',
        'n',
        'c',
        'o',
        'd',
        'e',
        'd',
    ]);
}

/// A VLR as it stands in a file: two reserved bytes, 16 bytes of user id, the record id, the length
/// of the data, 32 bytes of description, the data.
pub struct Written {
    /// What stands in the reserved bytes.
    pub reserved: u16,
    /// The user id.
    pub user_id: Seq<u8>,
    /// The record id.
    pub record_id: u16,
    /// The description.
    pub description: Seq<u8>,
    /// The data.
    pub data: Seq<u8>,
}

impl Written {
    /// User id and description have their sizes, and the length of the data is a 16-bit number.
    pub open spec fn wf(self) -> bool {
        self.user_id.len() == 16 && self.description.len() == 32 && self.data.len() <= 0xffff
    }

    /// The bytes of the VLR.
    pub open spec fn bytes(self) -> Seq<u8> {
        u16_bytes(self.reserved) + self.user_id + u16_bytes(self.record_id) + u16_bytes(
            self.data.len() as u16,
        ) + self.description + self.data
    }

    /// Whether the record id is 1, and the user id is `copc` up to its first NUL.
    pub open spec fn is_info(self) -> bool {
        &&& self.record_id == 1
        &&& self.user_id.take(5) == seq![0x63u8, 0x6f, 0x70, 0x63, 0x00]
    }

    /// Whether the record id is 22204, and the user id is `laszip encoded` up to its first NUL.
    pub open spec fn is_laz(self) -> bool {
        &&& self.record_id == 22204
        &&& self.user_id.take(15) == seq![
            0x6cu8,
            0x61,
            0x73,
            0x7a,
            0x69,
            0x70,
            0x20,
            0x65,
            0x6e,
            0x63,
            0x6f,
            0x64,
            0x65,
            0x64,
            0x00,
        ]
    }
}

/// The text of a field ends before its first NUL.
proof fn lemma_text_ends(field: Seq<u8>, n: int)
    requires
        0 <= n < field.len(),
    ensures
        text_length(field) == n <==> field[n] == 0 && forall|i: int|
            0 <= i < n ==> #[trigger] field[i] != 0,
    decreases n,
{
    lemma_text_is_short(field.drop_first());
    if n > 0 {
        let rest = field.drop_first();
        lemma_text_ends(rest, n - 1);
        assert(rest[n - 1] == field[n]);
        if field[0] != 0 {
            if text_length(field) == n {
                assert forall|i: int| 0 <= i < n implies #[trigger] field[i] != 0 by {
                    if i > 0 {
                        assert(rest[i - 1] != 0);
                    }
                }
            }
            if field[n] == 0 && forall|i: int| 0 <= i < n ==> #[trigger] field[i] != 0 {
                assert forall|i: int| 0 <= i < n - 1 implies #[trigger] rest[i] != 0 by {
                    assert(field[i + 1] != 0);
                }
            }
        }
    }
}

/// The length of a text is not negative.
proof fn lemma_text_is_short(field: Seq<u8>)
    ensures
        text_length(field) >= 0,
    decreases field.len(),
{
    if field.len() > 0 {
        lemma_text_is_short(field.drop_first());
    }
}

/// What a VLR is for is told by the bytes of its user id and its record id.
proof fn lemma_purpose(vlr: Written)
    requires
        vlr.wf(),
    ensures
        field_is(vlr.user_id, "copc"@) <==> vlr.user_id.take(5) == seq![
            0x63u8,
            0x6f,
            0x70,
            0x63,
            0x00,
        ],
        field_is(vlr.user_id, "laszip encoded"@) <==> vlr.user_id.take(15) == seq![
            0x6cu8,
            0x61,
            0x73,
            0x7a,
            0x69,
            0x70,
            0x20,
            0x65,
            0x6e,
            0x63,
            0x6f,
            0x64,
            0x65,
            0x64,
            0x00,
        ],
{
    reveal_strlit("copc");
    reveal_strlit("laszip encoded");
    let id = vlr.user_id;
    lemma_text_ends(id, 4);
    lemma_text_ends(id, 14);
    let copc = seq![0x63u8, 0x6f, 0x70, 0x63, 0x00];
    let laz = seq![
        0x6cu8,
        0x61,
        0x73,
        0x7a,
        0x69,
        0x70,
        0x20,
        0x65,
        0x6e,
        0x63,
        0x6f,
        0x64,
        0x65,
        0x64,
        0x00,
    ];
    assert(forall|i: int| 0 <= i < 4 ==> "copc"@[i] as int == #[trigger] copc[i]);
    assert(forall|i: int| 0 <= i < 14 ==> "laszip encoded"@[i] as int == #[trigger] laz[i]);
    if field_is(id, "copc"@) {
        assert forall|i: int| 0 <= i < 5 implies #[trigger] id.take(5)[i] == copc[i] by {
            if i < 4 {
                assert(id[i] as int == "copc"@[i] as int);
            }
        }
        assert(id.take(5) =~= copc);
    }
    if id.take(5) == copc {
        assert forall|i: int| 0 <= i < 5 implies #[trigger] id[i] == copc[i] by {
            assert(id.take(5)[i] == id[i]);
        }
    }
    if field_is(id, "laszip encoded"@) {
        assert forall|i: int| 0 <= i < 15 implies #[trigger] id.take(15)[i] == laz[i] by {
            if i < 14 {
                assert(id[i] as int == "laszip encoded"@[i] as int);
            }
        }
        assert(id.take(15) =~= laz);
    }
    if id.take(15) == laz {
        assert forall|i: int| 0 <= i < 15 implies #[trigger] id[i] == laz[i] by {
            assert(id.take(15)[i] == id[i]);
        }
    }
}

/// What is found where a VLR's bytes stand.
proof fn lemma_vlr_at(data: Seq<u8>, at: int, vlr: Written)
    requires
        vlr.wf(),
        stands_at(data, at, vlr.bytes()),
    ensures
        vlr_fits(bytes_from(data, at)),
        use_in(bytes_from(data, at)) is CopcInfo <==> vlr.is_info(),
        use_in(bytes_from(data, at)) is Laz <==> vlr.is_laz(),
        vlr_payload(bytes_from(data, at)) == vlr.data,
        vlr_size(bytes_from(data, at)) == 54 + vlr.data.len(),
        vlr.bytes().len() == 54 + vlr.data.len(),
{
    let bytes = bytes_from(data, at);
    let b2 = u16_bytes(vlr.reserved);
    let b18 = b2 + vlr.user_id;
    let b20 = b18 + u16_bytes(vlr.record_id);
    let b22 = b20 + u16_bytes(vlr.data.len() as u16);
    let b54 = b22 + vlr.description;
    assert(bytes.subrange(0, vlr.bytes().len() as int) =~= data.subrange(
        at,
        at + vlr.bytes().len(),
    ));
    assert(stands_at(bytes, 0, vlr.bytes()));
    lemma_stands_split(bytes, 0, b54, vlr.data);
    lemma_stands_split(bytes, 0, b22, vlr.description);
    lemma_stands_split(bytes, 0, b20, u16_bytes(vlr.data.len() as u16));
    lemma_stands_split(bytes, 0, b18, u16_bytes(vlr.record_id));
    lemma_stands_split(bytes, 0, b2, vlr.user_id);
    law_u16_reads_back(bytes, 18, vlr.record_id);
    law_u16_reads_back(bytes, 20, vlr.data.len() as u16);
    lemma_purpose(vlr);
}

/// Where the `n`-th of the VLRs begins, the first of which begins at `start`: each follows the one
/// before.
pub open spec fn vlr_place(vlrs: Seq<Written>, start: int, n: int) -> int
    decreases n,
{
    if n <= 0 {
        start
    } else {
        vlr_place(vlrs, start, n - 1) + 54 + vlrs[n - 1].data.len()
    }
}

/// Whether the VLRs stand in a buffer one after the other, from `start` on.
pub open spec fn vlrs_stand(data: Seq<u8>, vlrs: Seq<Written>, start: int) -> bool {
    forall|n: int|
        0 <= n < vlrs.len() ==> (#[trigger] vlrs[n]).wf() && stands_at(
            data,
            vlr_place(vlrs, start, n),
            vlrs[n].bytes(),
        )
}

/// Whether the data of each VLR can be used for what it is for.
pub open spec fn vlrs_hold(vlrs: Seq<Written>) -> bool {
    forall|n: int|
        0 <= n < vlrs.len() ==> ((#[trigger] vlrs[n]).is_info() ==> vlrs[n].data.len() >= 160) && (
        vlrs[n].is_laz() ==> laz_vlr_in(vlrs[n].data) is Some)
}

/// Whether `found` is the data of the last of the first `n` VLRs that are for this.
#[verifier::opaque]
spec fn is_last(
    vlrs: Seq<Written>,
    n: int,
    is_it: spec_fn(Written) -> bool,
    found: Option<Seq<u8>>,
) -> bool {
    match found {
        Some(data) => exists|j: int|
            {
                &&& 0 <= j < n
                &&& is_it(#[trigger] vlrs[j])
                &&& vlrs[j].data == data
                &&& forall|i: int| j < i < n ==> !is_it(#[trigger] vlrs[i])
            },
        None => forall|i: int| 0 <= i < n ==> !is_it(#[trigger] vlrs[i]),
    }
}

/// Whether a VLR is for the COPC info.
spec fn for_info() -> spec_fn(Written) -> bool {
    |v: Written| v.is_info()
}

/// Whether a VLR is for the LAZ parameters.
spec fn for_laz() -> spec_fn(Written) -> bool {
    |v: Written| v.is_laz()
}

/// The last of one more VLR.
proof fn lemma_last_grows(
    vlrs: Seq<Written>,
    n: int,
    is_it: spec_fn(Written) -> bool,
    found: Option<Seq<u8>>,
)
    requires
        0 <= n < vlrs.len(),
        is_last(vlrs, n, is_it, found),
    ensures
        is_last(
            vlrs,
            n + 1,
            is_it,
            if is_it(vlrs[n]) {
                Some(vlrs[n].data)
            } else {
                found
            },
        ),
{
    reveal(is_last);
}

/// The VLRs that stand at the places of the first `n`.
spec fn found_at(data: Seq<u8>, vlrs: Seq<Written>, start: int, n: int) -> Seq<las::Vlr> {
    Seq::new(n as nat, |i: int| vlr_in(bytes_from(data, vlr_place(vlrs, start, i))))
}

/// What going through the first `n` VLRs comes to.
proof fn lemma_scan(data: Seq<u8>, vlrs: Seq<Written>, start: int, n: int)
    requires
        0 <= n <= vlrs.len(),
        0 <= start,
        vlrs_stand(data, vlrs, start),
        vlrs_hold(vlrs),
    ensures
        scan(data, start, n as nat) matches Scan::Done { vlrs: found, info, laz, next } && {
            &&& found == found_at(data, vlrs, start, n)
            &&& is_last(vlrs, n, for_info(), info)
            &&& is_last(vlrs, n, for_laz(), laz)
            &&& next == vlr_place(vlrs, start, n)
        },
    decreases n,
{
    if n == 0 {
        reveal(is_last);
        assert(Seq::<las::Vlr>::empty() =~= found_at(data, vlrs, start, 0));
    } else {
        let m = n - 1;
        lemma_scan(data, vlrs, start, m);
        let place = vlr_place(vlrs, start, m);
        assert(vlrs[m].wf() && stands_at(data, place, vlrs[m].bytes()));
        lemma_vlr_at(data, place, vlrs[m]);
        if let Scan::Done { vlrs: found, info, laz, next } = scan(data, start, m as nat) {
            lemma_last_grows(vlrs, m, for_info(), info);
            lemma_last_grows(vlrs, m, for_laz(), laz);
            assert(found.push(vlr_in(bytes_from(data, place))) =~= found_at(data, vlrs, start, n));
            lemma_scan_step(data, start, m, vlrs[m], found, info, laz, next);
        }
    }
}

/// What one more VLR adds.
proof fn lemma_scan_step(
    data: Seq<u8>,
    start: int,
    m: int,
    vlr: Written,
    found: Seq<las::Vlr>,
    info: Option<Seq<u8>>,
    laz: Option<Seq<u8>>,
    next: int,
)
    requires
        0 <= m,
        scan(data, start, m as nat) == (Scan::Done { vlrs: found, info, laz, next }),
        vlr_fits(bytes_from(data, next)),
        use_in(bytes_from(data, next)) is CopcInfo <==> vlr.is_info(),
        use_in(bytes_from(data, next)) is Laz <==> vlr.is_laz(),
        vlr_payload(bytes_from(data, next)) == vlr.data,
        vlr_size(bytes_from(data, next)) == 54 + vlr.data.len(),
        vlr.is_info() ==> vlr.data.len() >= 160,
        vlr.is_laz() ==> laz_vlr_in(vlr.data) is Some,
    ensures
        scan(data, start, (m + 1) as nat) == (Scan::Done {
            vlrs: found.push(vlr_in(bytes_from(data, next))),
            info: if vlr.is_info() {
                Some(vlr.data)
            } else {
                info
            },
            laz: if vlr.is_laz() {
                Some(vlr.data)
            } else {
                laz
            },
            next: next + 54 + vlr.data.len(),
        }),
{
    assert(((m + 1) as nat - 1) as nat == m as nat);
}

/// How long the records of a point format are, without extra bytes.
pub open spec fn plain_length(format: int) -> int {
    seq![20int, 28, 26, 34, 57, 63, 30, 36, 38, 59, 67][format]
}

/// What a LAS header of version 1.0 to 1.4 says, where its fields stand at their offsets: the file
/// source id, the flags, the version, the size of the header, the number of VLRs, the point format,
/// which the highest bit marks as compressed, the length of a record. The version allows all that.
/// Offset and number of EVLRs are those of version 1.4 alone.
pub open spec fn says(
    data: Seq<u8>,
    minor: u8,
    header_size: u16,
    vlr_count: u32,
    format: u8,
    record_length: u16,
    evlr_offset: u64,
    evlr_count: u32,
) -> bool {
    &&& data.len() >= if minor == 4 {
        375int
    } else if minor == 3 {
        235
    } else {
        227
    }
    &&& data.len() >= header_size
    &&& stands_at(data, 0, seq![0x4cu8, 0x41, 0x53, 0x46])
    &&& data[24] == 1 && data[25] == minor && minor <= 4
    &&& data[4] != 0 || data[5] != 0 ==> minor >= 1
    &&& data[6] % 2 == 1 ==> minor >= 2
    &&& (data[6] / 8) % 2 == 1 ==> minor >= 3
    &&& stands_at(data, 94, u16_bytes(header_size))
    &&& stands_at(data, 100, u32_bytes(vlr_count))
    &&& data[104] == format || data[104] == 0x80 + format
    &&& format <= 10
    &&& format == 2 || format == 3 ==> minor >= 2
    &&& format == 4 || format == 5 ==> minor >= 3
    &&& format >= 6 ==> minor >= 4
    &&& stands_at(data, 105, u16_bytes(record_length))
    &&& record_length >= plain_length(format as int)
    &&& if minor == 4 {
        stands_at(data, 235, u64_bytes(evlr_offset)) && stands_at(data, 243, u32_bytes(evlr_count))
    } else {
        evlr_offset == 0 && evlr_count == 0
    }
}

/// The numbers of such a header.
proof fn lemma_says(
    data: Seq<u8>,
    minor: u8,
    header_size: u16,
    vlr_count: u32,
    format: u8,
    record_length: u16,
    evlr_offset: u64,
    evlr_count: u32,
)
    requires
        says(data, minor, header_size, vlr_count, format, record_length, evlr_offset, evlr_count),
    ensures
        crate::header::header_fits(data),
        numbers_in(data).allowed(),
        numbers_in(data).header_size == header_size,
        numbers_in(data).number_of_vlrs == vlr_count,
        numbers_in(data).evlr == (if evlr_offset > 0 && evlr_count > 0 {
            Some((evlr_offset, evlr_count))
        } else {
            None
        }),
        numbers_in(data).format() matches Some(f) && {
            &&& f.has_gps_time <==> format != 0 && format != 2
            &&& f.has_color <==> format == 2 || format == 3 || format == 5 || format == 7 || format
                == 8 || format == 10
            &&& f.is_extended <==> format >= 6
            &&& f.has_waveform <==> format == 4 || format == 5 || format == 9 || format == 10
            &&& f.has_nir <==> format == 8 || format == 10
            &&& f.extra_bytes == record_length - plain_length(format as int)
        },
{
    law_u16_reads_back(data, 94, header_size);
    law_u32_reads_back(data, 100, vlr_count);
    law_u16_reads_back(data, 105, record_length);
    if minor == 4 {
        law_u64_reads_back(data, 235, evlr_offset);
        law_u32_reads_back(data, 243, evlr_count);
    }
    assert(data.take(4) =~= data.subrange(0, 4));
}

/// The header of a LAS file whose VLRs stand one after the other behind the LAS header is read
/// back. The LAS header is made of the bytes and of all VLRs, in order; its point format is the one
/// with its number, with as many extra bytes as a record is longer. The COPC info is the one that
/// was written to the last VLR for it, and the LAZ parameters are those of the last VLR for them.
/// The EVLRs are where the header says, if it says that there are any.
pub proof fn law_header_is_what_was_written(
    data: &[u8],
    minor: u8,
    header_size: u16,
    vlrs: Seq<Written>,
    format: u8,
    record_length: u16,
    evlr_offset: u64,
    evlr_count: u32,
    info_at: int,
    laz_at: int,
    numbers: Seq<u64>,
    r: Result<CopcHeader, CopcError>,
)
    requires
        call_ensures(parse_header, (data,), r),
        vlrs.len() <= u32::MAX,
        says(
            data@,
            minor,
            header_size,
            vlrs.len() as u32,
            format,
            record_length,
            evlr_offset,
            evlr_count,
        ),
        vlrs_stand(data@, vlrs, header_size as int),
        vlrs_hold(vlrs),
        0 <= info_at < vlrs.len(),
        vlrs[info_at].is_info(),
        forall|i: int| info_at < i < vlrs.len() ==> !(#[trigger] vlrs[i]).is_info(),
        0 <= laz_at < vlrs.len(),
        vlrs[laz_at].is_laz(),
        forall|i: int| laz_at < i < vlrs.len() ==> !(#[trigger] vlrs[i]).is_laz(),
        numbers.len() == 9,
        stands_at(
            vlrs[info_at].data,
            0,
            nine_numbers(
                numbers[0],
                numbers[1],
                numbers[2],
                numbers[3],
                numbers[4],
                numbers[5],
                numbers[6],
                numbers[7],
                numbers[8],
            ),
        ),
    ensures
        r matches Ok(header) && {
            let info = header.info();
            let fields = format_fields(header_format(header.standard()));
            &&& info.center[0].bits == numbers[0]
            &&& info.center[1].bits == numbers[1]
            &&& info.center[2].bits == numbers[2]
            &&& info.halfsize.bits == numbers[3]
            &&& info.spacing.bits == numbers[4]
            &&& info.root_hier_offset == numbers[5]
            &&& info.root_hier_size == numbers[6]
            &&& info.gpstime_minimum.bits == numbers[7]
            &&& info.gpstime_maximum.bits == numbers[8]
            &&& laz_vlr_in(vlrs[laz_at].data) == Some(header.compression())
            &&& header.evlrs() == (if evlr_offset > 0 && evlr_count > 0 {
                (evlr_offset, evlr_count)
            } else {
                (0, 0)
            })
            &&& made_header(
                header.standard(),
                raw_header_in(data@),
                Seq::new(
                    vlrs.len(),
                    |i: int| vlr_in(bytes_from(data@, vlr_place(vlrs, header_size as int, i))),
                ),
            )
            &&& fields.has_gps_time <==> format != 0 && format != 2
            &&& fields.has_color <==> format == 2 || format == 3 || format == 5 || format == 7
                || format == 8 || format == 10
            &&& fields.is_extended <==> format >= 6
            &&& fields.has_waveform <==> format == 4 || format == 5 || format == 9 || format == 10
            &&& fields.has_nir <==> format == 8 || format == 10
            &&& fields.extra_bytes == record_length - plain_length(format as int)
        },
{
    let start = header_size as int;
    let count = vlrs.len() as int;
    lemma_says(
        data@,
        minor,
        header_size,
        vlrs.len() as u32,
        format,
        record_length,
        evlr_offset,
        evlr_count,
    );
    lemma_scan(data@, vlrs, start, count);
    assert(found_at(data@, vlrs, start, count) =~= Seq::new(
        vlrs.len(),
        |i: int| vlr_in(bytes_from(data@, vlr_place(vlrs, header_size as int, i))),
    ));
    if let Scan::Done { vlrs: found, info, laz, next } = scan(data@, start, count as nat) {
        lemma_last(vlrs, count, for_info(), info, info_at);
        lemma_last(vlrs, count, for_laz(), laz, laz_at);
        let header = r->Ok_0;
        lemma_info_begins(
            vlrs[info_at].data,
            header.info(),
            numbers[0],
            numbers[1],
            numbers[2],
            numbers[3],
            numbers[4],
            numbers[5],
            numbers[6],
            numbers[7],
            numbers[8],
        );
    }
}

/// There is only one last VLR that is for something.
proof fn lemma_last(
    vlrs: Seq<Written>,
    n: int,
    is_it: spec_fn(Written) -> bool,
    found: Option<Seq<u8>>,
    at: int,
)
    requires
        is_last(vlrs, n, is_it, found),
        0 <= at < n,
        is_it(vlrs[at]),
        forall|i: int| at < i < n ==> !is_it(#[trigger] vlrs[i]),
    ensures
        found == Some(vlrs[at].data),
{
    reveal(is_last);
    if let Some(data) = found {
        let j = choose|j: int|
            {
                &&& 0 <= j < n
                &&& is_it(#[trigger] vlrs[j])
                &&& vlrs[j].data == data
                &&& forall|i: int| j < i < n ==> !is_it(#[trigger] vlrs[i])
            };
        assert(j == at);
    }
}

/// A LAS file is refused where none of its VLRs is for the COPC info, and else where none is
/// for the LAZ parameters.
pub proof fn law_header_needs_both_records(
    data: &[u8],
    minor: u8,
    header_size: u16,
    vlrs: Seq<Written>,
    format: u8,
    record_length: u16,
    evlr_offset: u64,
    evlr_count: u32,
    r: Result<CopcHeader, CopcError>,
)
    requires
        call_ensures(parse_header, (data,), r),
        vlrs.len() <= u32::MAX,
        says(
            data@,
            minor,
            header_size,
            vlrs.len() as u32,
            format,
            record_length,
            evlr_offset,
            evlr_count,
        ),
        vlrs_stand(data@, vlrs, header_size as int),
        vlrs_hold(vlrs),
    ensures
        ({
            let has_info = exists|i: int| 0 <= i < vlrs.len() && (#[trigger] vlrs[i]).is_info();
            let has_laz = exists|i: int| 0 <= i < vlrs.len() && (#[trigger] vlrs[i]).is_laz();
            &&& r is Ok <==> has_info && has_laz
            &&& !has_info ==> (r matches Err(e) && e is CopcInfoNotFound)
            &&& has_info && !has_laz ==> (r matches Err(e) && e is LazVlrNotFound)
        }),
{
    lemma_says(
        data@,
        minor,
        header_size,
        vlrs.len() as u32,
        format,
        record_length,
        evlr_offset,
        evlr_count,
    );
    lemma_scan(data@, vlrs, header_size as int, vlrs.len() as int);
    reveal(is_last);
    assert(forall|v: Written| for_info()(v) == #[trigger] v.is_info());
    assert(forall|v: Written| for_laz()(v) == #[trigger] v.is_laz());
}

/// What ends the way through the VLRs early is what it comes to.
proof fn lemma_ended(data: Seq<u8>, first: int, m: nat, n: nat)
    requires
        m <= n,
        !(scan(data, first, m) is Done),
    ensures
        scan(data, first, n) == scan(data, first, m),
    decreases n,
{
    if m < n {
        lemma_ended(data, first, m, (n - 1) as nat);
    }
}

/// A LAS file with more VLRs than those that are in order is refused for the next one: as a LAS
/// file where fewer than 54 bytes are left for it, as without COPC info where it is for the info and
/// too short for it, by the LAZ error where it is for the LAZ parameters and does not hold any.
pub proof fn law_first_bad_record_refuses(
    data: &[u8],
    minor: u8,
    header_size: u16,
    vlr_count: u32,
    good: Seq<Written>,
    bad: Written,
    format: u8,
    record_length: u16,
    evlr_offset: u64,
    evlr_count: u32,
    r: Result<CopcHeader, CopcError>,
)
    requires
        call_ensures(parse_header, (data,), r),
        good.len() < vlr_count,
        says(data@, minor, header_size, vlr_count, format, record_length, evlr_offset, evlr_count),
        vlrs_stand(data@, good, header_size as int),
        vlrs_hold(good),
    ensures
        ({
            let place = vlr_place(good, header_size as int, good.len() as int);
            &&& data@.len() < place + 54 ==> (r matches Err(e) && e is Las)
            &&& bad.wf() && stands_at(data@, place, bad.bytes()) ==> {
                &&& bad.is_info() && bad.data.len() < 160 ==> (r matches Err(e)
                    && e is CopcInfoNotFound)
                &&& bad.is_laz() && laz_vlr_in(bad.data) is None ==> (r matches Err(e) && e is Laz)
            }
        }),
{
    let (start, n) = (header_size as int, good.len());
    let place = vlr_place(good, start, n as int);
    lemma_says(
        data@,
        minor,
        header_size,
        vlr_count,
        format,
        record_length,
        evlr_offset,
        evlr_count,
    );
    lemma_scan(data@, good, start, n as int);
    assert((n + 1 - 1) as nat == n);
    if bad.wf() && stands_at(data@, place, bad.bytes()) {
        lemma_vlr_at(data@, place, bad);
    }
    if !(scan(data@, start, n + 1) is Done) {
        lemma_ended(data@, start, n + 1, vlr_count as nat);
    }
}

/// What does not begin with `LASF`, or is shorter than any LAS header, is refused as a LAS file.
pub proof fn law_other_files_are_refused(data: &[u8], r: Result<CopcHeader, CopcError>)
    requires
        call_ensures(parse_header, (data,), r),
        data@.len() < 227 || !stands_at(data@, 0, seq![0x4cu8, 0x41, 0x53, 0x46]),
    ensures
        r matches Err(e) && e is Las,
{
    assert(data@.len() >= 4 ==> data@.take(4) =~= data@.subrange(0, 4));
}

/// What was put into a header is what its accessors return, and a header needs both the COPC info
/// and the LAZ parameters.
pub proof fn law_header_keeps_its_parts(
    standard: las::Header,
    info: Option<CopcInfo>,
    laz: Option<laz::LazVlr>,
    evlr: Option<(u64, u32)>,
    r: Result<CopcHeader, CopcError>,
)
    requires
        call_ensures(CopcHeader::new, (standard, info, laz, evlr), r),
    ensures
        r is Ok <==> info is Some && laz is Some,
        info is None ==> (r matches Err(e) && e is CopcInfoNotFound),
        info is Some && laz is None ==> (r matches Err(e) && e is LazVlrNotFound),
        r matches Ok(header) ==> {
            &&& forall|s: &las::Header| #[trigger]
                call_ensures(CopcHeader::las_header, (&header,), s) ==> *s == standard
            &&& forall|i: &CopcInfo| #[trigger]
                call_ensures(CopcHeader::copc_info, (&header,), i) ==> info == Some(*i)
            &&& forall|l: &laz::LazVlr| #[trigger]
                call_ensures(CopcHeader::laz_vlr, (&header,), l) ==> laz == Some(*l)
            &&& forall|offset: u64| #[trigger]
                call_ensures(CopcHeader::evlr_offset, (&header,), offset) ==> offset == (
                match evlr {
                    Some((o, _)) => o,
                    None => 0,
                })
            &&& forall|count: u32| #[trigger]
                call_ensures(CopcHeader::evlr_count, (&header,), count) ==> count == (match evlr {
                    Some((_, n)) => n,
                    None => 0,
                })
        },
{
}

/// The accessors of a header tell its parts.
pub proof fn law_accessors_tell_the_parts(
    header: CopcHeader,
    standard: &las::Header,
    info: &CopcInfo,
    laz: &laz::LazVlr,
    offset: u64,
    count: u32,
)
    requires
        call_ensures(CopcHeader::las_header, (&header,), standard),
        call_ensures(CopcHeader::copc_info, (&header,), info),
        call_ensures(CopcHeader::laz_vlr, (&header,), laz),
        call_ensures(CopcHeader::evlr_offset, (&header,), offset),
        call_ensures(CopcHeader::evlr_count, (&header,), count),
    ensures
        *standard == header.standard(),
        *info == header.info(),
        *laz == header.compression(),
        (offset, count) == header.evlrs(),
{
}

} // verus!
