//! The header of the temporal index, and the record of the file that holds it.

use crate::bytes::{
    law_u32_reads_back, law_u64_reads_back, lemma_number_sizes, lemma_stands_split, stands_at,
    u16_at, u32_at, u32_bytes, u64_at, u64_bytes, ByteCursor,
};
use crate::error::TemporalError;
use vstd::prelude::*;

verus! {

/// Header of the temporal index EVLR (32 bytes).
#[derive(Debug, Clone, Copy)]
pub struct TemporalHeader {
    /// Format version (must be 1).
    pub version: u32,
    /// Sampling stride: every N-th point is recorded.
    pub stride: u32,
    /// Total number of node entries across all pages.
    pub node_count: u32,
    /// Total number of pages.
    pub page_count: u32,
    /// Absolute file offset of the root page.
    pub root_page_offset: u64,
    /// Size of the root page in bytes.
    pub root_page_size: u32,
}

/// The size of the header.
pub const HEADER_SIZE: usize = 32;

impl TemporalHeader {
    /// Whether the header is one that can be read: version 1, with a stride.
    pub open spec fn supported(self) -> bool {
        self.version == 1 && self.stride >= 1
    }
}

/// The header that a buffer begins with. The last four bytes are reserved.
pub open spec fn header_at_start(data: Seq<u8>) -> TemporalHeader {
    TemporalHeader {
        version: u32_at(data, 0),
        stride: u32_at(data, 4),
        node_count: u32_at(data, 8),
        page_count: u32_at(data, 12),
        root_page_offset: u64_at(data, 16),
        root_page_size: u32_at(data, 24),
    }
}

/// Why the header that a buffer begins with cannot be used, if it cannot.
pub open spec fn refused_as(data: Seq<u8>, e: TemporalError) -> bool {
    if data.len() < HEADER_SIZE {
        e is TruncatedHeader
    } else if header_at_start(data).version != 1 {
        e == TemporalError::UnsupportedVersion(header_at_start(data).version)
    } else {
        header_at_start(data).stride < 1 && e == TemporalError::InvalidStride(
            header_at_start(data).stride,
        )
    }
}

/// Parse the header that a buffer begins with.
pub fn parse_temporal_header(data: &[u8]) -> (r: Result<TemporalHeader, TemporalError>)
    ensures
        r is Ok <==> data@.len() >= HEADER_SIZE && header_at_start(data@).supported(),
        r matches Ok(header) ==> header == header_at_start(data@),
        r matches Err(e) ==> refused_as(data@, e),
{
    if data.len() < HEADER_SIZE {
        return Err(TemporalError::TruncatedHeader);
    }
    let mut r = ByteCursor::new(data);
    let version: u32 = match r.read_u32() {
        Ok(v) => v,
        Err(e) => return Err(TemporalError::Io(e)),
    };
    if version != 1 {
        return Err(TemporalError::UnsupportedVersion(version));
    }
    let stride: u32 = match r.read_u32() {
        Ok(v) => v,
        Err(e) => return Err(TemporalError::Io(e)),
    };
    if stride < 1 {
        return Err(TemporalError::InvalidStride(stride));
    }
    match read_locations(&mut r) {
        Ok((node_count, page_count, root_page_offset, root_page_size)) => Ok(
            TemporalHeader {
                version,
                stride,
                node_count,
                page_count,
                root_page_offset,
                root_page_size,
            },
        ),
        Err(e) => Err(TemporalError::Io(e)),
    }
}

/// Read the counts and the location of the root page, which follow version and stride.
fn read_locations(r: &mut ByteCursor) -> (result: Result<(u32, u32, u64, u32), std::io::Error>)
    requires
        old(r).wf(),
        old(r).pos() == 8,
    ensures
        result is Ok <==> old(r).data().len() >= 28,
        result matches Ok((nodes, pages, offset, size)) ==> {
            let header = header_at_start(old(r).data());
            &&& nodes == header.node_count
            &&& pages == header.page_count
            &&& offset == header.root_page_offset
            &&& size == header.root_page_size
        },
{
    let node_count: u32 = r.read_u32()?;
    let page_count: u32 = r.read_u32()?;
    let root_page_offset: u64 = r.read_u64()?;
    let root_page_size: u32 = r.read_u32()?;
    Ok((node_count, page_count, root_page_offset, root_page_size))
}

/// The bytes of a header.
pub open spec fn header_bytes(h: TemporalHeader) -> Seq<u8> {
    u32_bytes(h.version) + u32_bytes(h.stride) + u32_bytes(h.node_count) + u32_bytes(h.page_count)
        + u64_bytes(h.root_page_offset) + u32_bytes(h.root_page_size) + u32_bytes(0)
}

/// A header is read back from the buffer that begins with its bytes.
pub proof fn law_header_reads_back(data: Seq<u8>, h: TemporalHeader)
    requires
        stands_at(data, 0, header_bytes(h)),
    ensures
        header_at_start(data) == h,
        header_bytes(h).len() == HEADER_SIZE,
{
    lemma_number_sizes();
    let b4 = u32_bytes(h.version);
    let b8 = b4 + u32_bytes(h.stride);
    let b12 = b8 + u32_bytes(h.node_count);
    let b16 = b12 + u32_bytes(h.page_count);
    let b24 = b16 + u64_bytes(h.root_page_offset);
    let b28 = b24 + u32_bytes(h.root_page_size);
    lemma_stands_split(data, 0, b28, u32_bytes(0));
    lemma_stands_split(data, 0, b24, u32_bytes(h.root_page_size));
    lemma_stands_split(data, 0, b16, u64_bytes(h.root_page_offset));
    lemma_stands_split(data, 0, b12, u32_bytes(h.page_count));
    lemma_stands_split(data, 0, b8, u32_bytes(h.node_count));
    lemma_stands_split(data, 0, b4, u32_bytes(h.stride));
    law_u32_reads_back(data, 0, h.version);
    law_u32_reads_back(data, 4, h.stride);
    law_u32_reads_back(data, 8, h.node_count);
    law_u32_reads_back(data, 12, h.page_count);
    law_u64_reads_back(data, 16, h.root_page_offset);
    law_u32_reads_back(data, 24, h.root_page_size);
}

/// The size of the header of an extended variable length record (EVLR).
pub const EVLR_HEADER_SIZE: u64 = 60;

/// The record id of the temporal index.
pub const TEMPORAL_RECORD_ID: u16 = 1000;

/// The user id of the temporal index, `copc_temporal`, in bytes, with the NUL that ends it.
pub open spec fn temporal_user_id() -> Seq<u8> {
    seq![
        0x63u8,
        0x6f,
        0x70,
        0x63,
        0x5f,
        0x74,
        0x65,
        0x6d,
        0x70,
        0x6f,
        0x72,
        0x61,
        0x6c,
        0x00,
    ]
}

/// What the header of an EVLR says of the record.
#[derive(Debug, Clone, Copy)]
pub struct EvlrHeader {
    /// Whether the record is the temporal index: it has its user id and its record id.
    pub temporal: bool,
    /// The size of the data that follows the header.
    pub data_length: u64,
}

/// What the header of an EVLR at offset `at` says: two reserved bytes, 16 bytes of user id, the
/// record id, the length of the data. A description follows.
pub open spec fn evlr_header_at(data: Seq<u8>, at: int) -> EvlrHeader {
    EvlrHeader {
        temporal: stands_at(data, at + 2, temporal_user_id()) && u16_at(data, at + 18)
            == TEMPORAL_RECORD_ID,
        data_length: u64_at(data, at + 20),
    }
}

impl EvlrHeader {
    /// Parse the header of an EVLR; an error where the data ends before the length.
    pub fn parse(data: &[u8]) -> (r: Result<EvlrHeader, TemporalError>)
        ensures
            r is Ok <==> data@.len() >= 28,
            r matches Ok(header) ==> header == evlr_header_at(data@, 0),
            r matches Err(e) ==> e is Io,
    {
        match read_evlr_numbers(data) {
            Ok((record_id, data_length)) => {
                let temporal = has_temporal_user_id(data) && record_id == TEMPORAL_RECORD_ID;
                Ok(EvlrHeader { temporal, data_length })
            },
            Err(e) => Err(TemporalError::Io(e)),
        }
    }
}

/// Read record id and data length of an EVLR header.
fn read_evlr_numbers(data: &[u8]) -> (r: Result<(u16, u64), std::io::Error>)
    ensures
        r is Ok <==> data@.len() >= 28,
        r matches Ok((id, length)) ==> id == u16_at(data@, 18) && length == u64_at(data@, 20),
{
    let mut r = ByteCursor::new(data);
    // reserved (2)
    let _reserved: u16 = r.read_u16()?;
    // user id (16)
    let _first: u64 = r.read_u64()?;
    let _second: u64 = r.read_u64()?;
    let record_id: u16 = r.read_u16()?;
    let data_length: u64 = r.read_u64()?;
    Ok((record_id, data_length))
}

/// Whether the user id in an EVLR header, up to its first NUL, is `copc_temporal`.
fn has_temporal_user_id(data: &[u8]) -> (r: bool)
    requires
        data@.len() >= 28,
    ensures
        r == stands_at(data@, 2, temporal_user_id()),
{
    let id: [u8; 14] = [
        0x63,
        0x6f,
        0x70,
        0x63,
        0x5f,
        0x74,
        0x65,
        0x6d,
        0x70,
        0x6f,
        0x72,
        0x61,
        0x6c,
        0x00,
    ];
    assert(id@ =~= temporal_user_id());
    let ghost part = data@.subrange(2, 16);
    let mut i: usize = 0;
    while i < 14
        invariant
            i <= 14,
            data@.len() >= 28,
            id@ == temporal_user_id(),
            part == data@.subrange(2, 16),
            forall|k: int| 0 <= k < i ==> #[trigger] part[k] == id@[k],
        decreases 14 - i,
    {
        if data[2 + i] != id[i] {
            assert(part[i as int] != temporal_user_id()[i as int]);
            return false;
        }
        assert(part[i as int] == id@[i as int]);
        i = i + 1;
    }
    assert(part =~= temporal_user_id());
    true
}

/// Where the data of the first temporal index among `count` EVLRs begins, the first of which is
/// at offset `at` of the file: each EVLR follows the data of the one before.
pub open spec fn temporal_data_in(file: Seq<u8>, at: int, count: nat) -> Option<int>
    decreases count,
{
    if count == 0 {
        None
    } else if evlr_header_at(file, at).temporal {
        Some(at + EVLR_HEADER_SIZE)
    } else {
        temporal_data_in(
            file,
            at + EVLR_HEADER_SIZE + evlr_header_at(file, at).data_length,
            (count - 1) as nat,
        )
    }
}

/// A search through the EVLRs of a file for the temporal index.
///
/// The caller reads what [`EvlrSearch::request`] asks for and hands it, parsed, to
/// [`EvlrSearch::step`], until there is nothing more to ask or the temporal index is found.
#[derive(Debug, Clone, Copy)]
pub struct EvlrSearch {
    /// File offset of the next EVLR.
    pub position: u64,
    /// How many EVLRs have not been looked at.
    pub remaining: u32,
}

impl EvlrSearch {
    /// A search that begins at the first EVLR of a file.
    pub fn new(evlr_offset: u64, evlr_count: u32) -> (r: EvlrSearch)
        ensures
            r.position == evlr_offset,
            r.remaining == evlr_count,
    {
        EvlrSearch { position: evlr_offset, remaining: evlr_count }
    }

    /// Offset and length of the header to read next; `None` where no EVLR is left.
    pub fn request(&self) -> (r: Option<(u64, u64)>)
        ensures
            r == (if self.remaining == 0 {
                None
            } else {
                Some((self.position, EVLR_HEADER_SIZE))
            }),
    {
        if self.remaining == 0 {
            None
        } else {
            Some((self.position, EVLR_HEADER_SIZE))
        }
    }

    /// Take in the header at the search's position. Where the record is the temporal index,
    /// offset and length of its header are returned; else the search goes on behind the record.
    pub fn step(&mut self, header: &EvlrHeader) -> (r: Option<(u64, u64)>)
        requires
            old(self).remaining > 0,
            old(self).position + EVLR_HEADER_SIZE <= u64::MAX,
            header.temporal || old(self).position + EVLR_HEADER_SIZE + header.data_length
                <= u64::MAX,
        ensures
            r is Some <==> header.temporal,
            r matches Some(range) ==> range == (
                (old(self).position + EVLR_HEADER_SIZE) as u64,
                HEADER_SIZE as u64,
            ) && *final(self) == *old(self),
            r is None ==> final(self).position == old(self).position + EVLR_HEADER_SIZE
                + header.data_length && final(self).remaining == old(self).remaining - 1,
    {
        let data_start: u64 = self.position + EVLR_HEADER_SIZE;
        if header.temporal {
            return Some((data_start, HEADER_SIZE as u64));
        }
        self.position = data_start + header.data_length;
        self.remaining = self.remaining - 1;
        None
    }
}

/// The search looks for the right place in the file: where the header that was read is a
/// temporal index's, its data is what is looked for; where it is not, what is looked for is the
/// same from the next EVLR on.
pub proof fn law_search_keeps_its_target(file: Seq<u8>, search: EvlrSearch, read: Seq<u8>)
    requires
        search.remaining > 0,
        read.len() >= 28,
        stands_at(file, search.position as int, read),
    ensures
        ({
            let header = evlr_header_at(read, 0);
            let target = temporal_data_in(file, search.position as int, search.remaining as nat);
            if header.temporal {
                target == Some(search.position + EVLR_HEADER_SIZE)
            } else {
                target == temporal_data_in(
                    file,
                    search.position + EVLR_HEADER_SIZE + header.data_length,
                    (search.remaining - 1) as nat,
                )
            }
        }),
{
    let at = search.position as int;
    assert forall|i: int| 0 <= i < read.len() implies #[trigger] read[i] == file[at + i] by {
        assert(file.subrange(at, at + read.len())[i] == file[at + i]);
    }
    assert(read.subrange(2, 16) =~= file.subrange(at + 2, at + 16));
    assert(evlr_header_at(read, 0) == evlr_header_at(file, at));
}

} // verus!
