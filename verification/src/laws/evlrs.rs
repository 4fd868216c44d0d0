//! The extended variable length records (EVLRs) of a file, and the header of the temporal index
//! in one of them.

use crate::bytes::{
    law_u16_reads_back, law_u32_reads_back, law_u64_reads_back, lemma_number_sizes,
    lemma_stands_split, stands_at, u16_bytes, u32_bytes, u64_bytes,
};
use crate::error::TemporalError;
use crate::temporal_header::{
    evlr_header_at, parse_temporal_header, temporal_data_in,
    temporal_user_id, EvlrHeader, EvlrSearch, TemporalHeader,
};
use vstd::prelude::*;

verus! {

/// The header of the temporal index is read back from its bytes, field by field: version, stride,
/// number of nodes, number of pages, offset and size of the root page, four reserved bytes. One of
/// another version than 1 is refused with its version, one without a stride with its stride.
pub proof fn law_temporal_header_is_what_was_written(
    data: &[u8],
    version: u32,
    stride: u32,
    nodes: u32,
    pages: u32,
    offset: u64,
    size: u32,
    reserved: u32,
    r: Result<TemporalHeader, TemporalError>,
)
    requires
        call_ensures(parse_temporal_header, (data,), r),
        stands_at(
            data@,
            0,
            u32_bytes(version) + u32_bytes(stride) + u32_bytes(nodes) + u32_bytes(pages)
                + u64_bytes(offset) + u32_bytes(size) + u32_bytes(reserved),
        ),
    ensures
        r is Ok <==> version == 1 && stride > 0,
        version != 1 ==> r == Err::<TemporalHeader, _>(TemporalError::UnsupportedVersion(version)),
        version == 1 && stride == 0 ==> r == Err::<TemporalHeader, _>(
            TemporalError::InvalidStride(0),
        ),
        r matches Ok(h) ==> h.version == version && h.stride == stride && h.node_count == nodes
            && h.page_count == pages && h.root_page_offset == offset && h.root_page_size == size,
{
    lemma_number_sizes();
    let b4 = u32_bytes(version);
    let b8 = b4 + u32_bytes(stride);
    let b12 = b8 + u32_bytes(nodes);
    let b16 = b12 + u32_bytes(pages);
    let b24 = b16 + u64_bytes(offset);
    let b28 = b24 + u32_bytes(size);
    lemma_stands_split(data@, 0, b28, u32_bytes(reserved));
    lemma_stands_split(data@, 0, b24, u32_bytes(size));
    lemma_stands_split(data@, 0, b16, u64_bytes(offset));
    lemma_stands_split(data@, 0, b12, u32_bytes(pages));
    lemma_stands_split(data@, 0, b8, u32_bytes(nodes));
    lemma_stands_split(data@, 0, b4, u32_bytes(stride));
    law_u32_reads_back(data@, 0, version);
    law_u32_reads_back(data@, 4, stride);
    law_u32_reads_back(data@, 8, nodes);
    law_u32_reads_back(data@, 12, pages);
    law_u64_reads_back(data@, 16, offset);
    law_u32_reads_back(data@, 24, size);
}

/// Data that is shorter than the header of the temporal index is refused as truncated, and no
/// other data is.
pub proof fn law_short_temporal_header_is_truncated(
    data: &[u8],
    r: Result<TemporalHeader, TemporalError>,
)
    requires
        call_ensures(parse_temporal_header, (data,), r),
    ensures
        data@.len() < 32 <==> r == Err::<TemporalHeader, _>(TemporalError::TruncatedHeader),
{
}

/// The header of an EVLR: two reserved bytes, 16 bytes of user id, the record id, the length of the
/// data, and 32 bytes of description.
pub struct Record {
    /// What stands in the reserved bytes.
    pub reserved: u16,
    /// The user id.
    pub user_id: Seq<u8>,
    /// The record id.
    pub record_id: u16,
    /// The length of the data that follows.
    pub length: u64,
    /// The description.
    pub description: Seq<u8>,
}

impl Record {
    /// User id and description have their sizes.
    pub open spec fn wf(self) -> bool {
        self.user_id.len() == 16 && self.description.len() == 32
    }

    /// The bytes of the header up to the length of the data.
    pub open spec fn head(self) -> Seq<u8> {
        u16_bytes(self.reserved) + self.user_id + u16_bytes(self.record_id) + u64_bytes(self.length)
    }

    /// The bytes of the header.
    pub open spec fn bytes(self) -> Seq<u8> {
        self.head() + self.description
    }

    /// Whether the record id is 1000, and the user id is `copc_temporal` up to its first NUL.
    pub open spec fn is_temporal(self) -> bool {
        &&& self.record_id == 1000
        &&& self.user_id.take(14) == seq![
            0x63u8,
            0x6f,
            0x70,
            0x63,
            0x5f,
            0x74,
            0x65,
            0x6d,
            0x70,
            0x6f,
            0x72,
            0x61,
            0x6c,
            0x00,
        ]
    }
}

/// What a record's header says is found where its bytes stand.
proof fn lemma_record_at(file: Seq<u8>, at: int, record: Record)
    requires
        record.wf(),
        stands_at(file, at, record.head()),
    ensures
        evlr_header_at(file, at).data_length == record.length,
        evlr_header_at(file, at).temporal == record.is_temporal(),
        record.bytes().len() == 60,
{
    lemma_number_sizes();
    let b2 = u16_bytes(record.reserved);
    let b18 = b2 + record.user_id;
    let b20 = b18 + u16_bytes(record.record_id);
    let b28 = b20 + u64_bytes(record.length);
    assert(b28 == record.head());
    lemma_stands_split(file, at, b20, u64_bytes(record.length));
    lemma_stands_split(file, at, b18, u16_bytes(record.record_id));
    lemma_stands_split(file, at, b2, record.user_id);
    law_u16_reads_back(file, at + 18, record.record_id);
    law_u64_reads_back(file, at + 20, record.length);
    assert(file.subrange(at + 2, at + 16) =~= file.subrange(at + 2, at + 18).take(14));
    assert(temporal_user_id().len() == 14);
}

/// The header of an EVLR is read back from its bytes: the length of the data is the one that was
/// written, and the record is taken for the temporal index if and only if it has the index's record
/// id and user id.
pub proof fn law_evlr_header_is_what_was_written(
    data: &[u8],
    record: Record,
    r: Result<EvlrHeader, TemporalError>,
)
    requires
        call_ensures(EvlrHeader::parse, (data,), r),
        record.wf(),
        stands_at(data@, 0, record.head()),
    ensures
        r matches Ok(h) && h.data_length == record.length && h.temporal == record.is_temporal(),
{
    lemma_record_at(data@, 0, record);
}

/// The header of an EVLR that ends before its length does is an I/O error.
pub proof fn law_short_evlr_header_is_refused(data: &[u8], r: Result<EvlrHeader, TemporalError>)
    requires
        call_ensures(EvlrHeader::parse, (data,), r),
    ensures
        data@.len() < 28 <==> r is Err,
        r matches Err(e) ==> e is Io,
{
}

/// Where the `n`-th of the records begins, the first of which begins at `start`: each follows the
/// data of the one before.
pub open spec fn place(records: Seq<Record>, start: int, n: int) -> int
    decreases n,
{
    if n <= 0 {
        start
    } else {
        place(records, start, n - 1) + 60 + records[n - 1].length
    }
}

/// Whether the records stand in the file one after the other, from `start` on.
pub open spec fn stand_in_file(file: Seq<u8>, records: Seq<Record>, start: int) -> bool {
    forall|n: int|
        0 <= n < records.len() ==> (#[trigger] records[n]).wf() && stands_at(
            file,
            place(records, start, n),
            records[n].bytes(),
        )
}

/// Of records that stand in a file one after the other, the temporal index is the first that is one:
/// its data begins 60 bytes behind where the record begins. Where none is one, there is none.
pub proof fn law_first_temporal_record_is_the_index(
    file: Seq<u8>,
    records: Seq<Record>,
    start: int,
    n: int,
)
    requires
        stand_in_file(file, records, start),
        0 <= n <= records.len(),
        forall|k: int| 0 <= k < n ==> !(#[trigger] records[k]).is_temporal(),
    ensures
        n < records.len() && records[n].is_temporal() ==> temporal_data_in(
            file,
            start,
            records.len(),
        ) == Some(place(records, start, n) + 60),
        n == records.len() ==> temporal_data_in(file, start, records.len()) is None,
{
    lemma_found_from(file, records, start, n, 0);
}

/// What is found from the `k`-th record on.
proof fn lemma_found_from(file: Seq<u8>, records: Seq<Record>, start: int, n: int, k: int)
    requires
        stand_in_file(file, records, start),
        0 <= k <= n <= records.len(),
        forall|k: int| 0 <= k < n ==> !(#[trigger] records[k]).is_temporal(),
    ensures
        n < records.len() && records[n].is_temporal() ==> temporal_data_in(
            file,
            place(records, start, k),
            (records.len() - k) as nat,
        ) == Some(place(records, start, n) + 60),
        n == records.len() ==> temporal_data_in(
            file,
            place(records, start, k),
            (records.len() - k) as nat,
        ) is None,
    decreases n - k,
{
    if k < records.len() {
        assert(records[k].wf());
        lemma_stands_split(
            file,
            place(records, start, k),
            records[k].head(),
            records[k].description,
        );
        lemma_record_at(file, place(records, start, k), records[k]);
    }
    if k < n {
        assert(place(records, start, k + 1) == place(records, start, k) + 60 + records[k].length);
        lemma_found_from(file, records, start, n, k + 1);
    }
}

/// A search through records that stand in a file one after the other asks for the 60 bytes of each
/// header in turn, where it begins, until it finds the temporal index: handed the header of the
/// first record that is one, it returns where the data begins and that the index's header takes 32
/// bytes. Before that it returns nothing, and behind the last record it asks for nothing.
///
/// `states` are the states of the search before each step, `headers` what it takes in, `found` what
/// it returns.
pub proof fn law_search_visits_the_records_in_turn(
    file: Seq<u8>,
    records: Seq<Record>,
    offset: u64,
    count: u32,
    states: Seq<EvlrSearch>,
    headers: Seq<EvlrHeader>,
    found: Seq<Option<(u64, u64)>>,
    n: int,
    asked: Option<(u64, u64)>,
)
    requires
        stand_in_file(file, records, offset as int),
        count == records.len(),
        0 <= n <= count,
        place(records, offset as int, n) + 60 <= u64::MAX,
        forall|k: int| 0 <= k < n ==> !(#[trigger] records[k]).is_temporal(),
        call_ensures(EvlrSearch::new, (offset, count), states[0]),
        forall|k: int|
            0 <= k < count && k <= n ==> #[trigger] read_at(
                file,
                place(records, offset as int, k),
                headers[k],
            ),
        forall|k: int|
            #![trigger headers[k]]
            0 <= k < count && k <= n ==> exists|s: &mut EvlrSearch|
                *s == states[k] && *final(s) == states[k + 1] && #[trigger] call_ensures(
                    EvlrSearch::step,
                    (s, &headers[k]),
                    found[k],
                ),
        call_ensures(EvlrSearch::request, (&states[n],), asked),
    ensures
        n < count ==> asked == Some((place(records, offset as int, n) as u64, 60u64)),
        n < count ==> found[n] == (if records[n].is_temporal() {
            Some(((place(records, offset as int, n) + 60) as u64, 32u64))
        } else {
            None
        }),
        n < count && records[n].is_temporal() ==> states[n + 1] == states[n],
        forall|k: int| 0 <= k < n ==> (#[trigger] found[k]) is None,
        n == count ==> asked is None,
{
    assert forall|k: int| 0 <= k < count && k <= n implies #[trigger] moved(
        states[k],
        headers[k],
        states[k + 1],
        found[k],
    ) by {
        let header = headers[k];
    }
    lemma_search_state(file, records, offset, count, states, headers, found, n);
    if n < count {
        assert(moved(states[n], headers[n], states[n + 1], found[n]));
        assert(records[n].wf());
        assert(read_at(file, place(records, offset as int, n), headers[n]));
        lemma_read(file, place(records, offset as int, n), records[n], headers[n]);
    }
}

/// Whether a header is what is parsed of the 60 bytes of the file from an offset on.
pub open spec fn read_at(file: Seq<u8>, at: int, header: EvlrHeader) -> bool {
    exists|data: &[u8]|
        data@ == file.subrange(at, at + 60) && #[trigger] call_ensures(
            EvlrHeader::parse,
            (data,),
            Ok(header),
        )
}

/// What is read of the place where a record stands.
proof fn lemma_read(file: Seq<u8>, at: int, record: Record, header: EvlrHeader)
    requires
        record.wf(),
        stands_at(file, at, record.bytes()),
        read_at(file, at, header),
    ensures
        header.data_length == record.length,
        header.temporal == record.is_temporal(),
{
    lemma_stands_split(file, at, record.head(), record.description);
    lemma_record_at(file, at, record);
    let data = choose|data: &[u8]|
        data@ == file.subrange(at, at + 60) && #[trigger] call_ensures(
            EvlrHeader::parse,
            (data,),
            Ok(header),
        );
    assert(data@ =~= record.bytes());
    assert(data@.subrange(0, 60) =~= data@);
    assert(stands_at(data@, 0, record.bytes()));
    lemma_stands_split(data@, 0, record.head(), record.description);
    law_evlr_header_is_what_was_written(data, record, Ok(header));
}

/// What a step does to a search.
spec fn moved(
    before: EvlrSearch,
    header: EvlrHeader,
    after: EvlrSearch,
    found: Option<(u64, u64)>,
) -> bool {
    if header.temporal {
        found == Some(((before.position + 60) as u64, 32u64)) && after == before
    } else {
        &&& found is None
        &&& after.position == before.position + 60 + header.data_length
        &&& after.remaining == before.remaining - 1
    }
}

/// Where a search is before its `n`-th step.
proof fn lemma_search_state(
    file: Seq<u8>,
    records: Seq<Record>,
    offset: u64,
    count: u32,
    states: Seq<EvlrSearch>,
    headers: Seq<EvlrHeader>,
    found: Seq<Option<(u64, u64)>>,
    n: int,
)
    requires
        stand_in_file(file, records, offset as int),
        count == records.len(),
        0 <= n <= count,
        forall|k: int| 0 <= k < n ==> !(#[trigger] records[k]).is_temporal(),
        call_ensures(EvlrSearch::new, (offset, count), states[0]),
        forall|k: int|
            0 <= k < count && k <= n ==> #[trigger] read_at(
                file,
                place(records, offset as int, k),
                headers[k],
            ),
        forall|k: int|
            0 <= k < count && k <= n ==> #[trigger] moved(
                states[k],
                headers[k],
                states[k + 1],
                found[k],
            ),
    ensures
        states[n].position == place(records, offset as int, n),
        states[n].remaining == count - n,
        forall|k: int| 0 <= k < n ==> (#[trigger] found[k]) is None,
    decreases n,
{
    if n > 0 {
        let m = n - 1;
        lemma_search_state(file, records, offset, count, states, headers, found, m);
        assert(read_at(file, place(records, offset as int, m), headers[m]));
        assert(moved(states[m], headers[m], states[m + 1], found[m]));
        assert(records[m].wf());
        lemma_read(file, place(records, offset as int, m), records[m], headers[m]);
    }
}

} // verus!
