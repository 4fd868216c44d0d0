//! The temporal index of a file, loaded page by page.
//!
//! A [`TemporalCache`] says which parts of the file to read and takes in what was read; it does
//! no reading itself. Pages are loaded on demand, and whole subtrees are passed over by their time
//! range before their pages are read.

use crate::bytes::ByteCursor;
use crate::error::TemporalError;
use crate::gps_time::GpsTime;
use crate::temporal_header::{
    header_at_start, parse_temporal_header, refused_as, TemporalHeader, HEADER_SIZE,
};
use crate::temporal_index::{keyed, lists_overlapping, overlapping, times_of};
use crate::temporal_node::NodeTemporalEntry;
use crate::temporal_page::{
    complete_from, entered, lemma_entered_concat, lemma_pointed_to_concat, pointed_to,
    records_from, PageEntry, PendingPage, Record,
};
use crate::types::VoxelKey;
use crate::voxel_map::{lists, VoxelMap};
use vstd::prelude::*;

verus! {

/// Offset and length in the file of each page.
pub open spec fn page_ranges(pages: Seq<PendingPage>) -> Seq<(u64, u64)> {
    pages.map_values(|p: PendingPage| (p.offset, p.size as u64))
}

/// Whether no page has an entry that is cut off.
pub open spec fn all_complete(pages: Seq<Vec<u8>>) -> bool {
    forall|i: int| 0 <= i < pages.len() ==> complete_from(#[trigger] pages[i]@, 0)
}

/// The entries of the pages, one page after the other, up to and with the first page that has an
/// entry cut off.
pub open spec fn loaded_records(pages: Seq<Vec<u8>>) -> Seq<Record>
    decreases pages.len(),
{
    if pages.len() == 0 {
        Seq::empty()
    } else {
        let before = loaded_records(pages.drop_last());
        if all_complete(pages.drop_last()) {
            before + records_from(pages.last()@, 0)
        } else {
            before
        }
    }
}

/// Whether the pairs are entries of nodes with these samples, under their nodes: all of them and
/// each once.
pub open spec fn lists_entries(
    pairs: Seq<(&VoxelKey, &NodeTemporalEntry)>,
    nodes: Map<VoxelKey, Seq<GpsTime>>,
) -> bool {
    exists|entries: Map<VoxelKey, NodeTemporalEntry>|
        keyed(entries) && times_of(entries) == nodes && #[trigger] lists(pairs, entries)
}

/// Incrementally-loaded temporal index cache.
pub struct TemporalCache {
    header: Option<TemporalHeader>,
    entries: VoxelMap<NodeTemporalEntry>,
    pending_pages: Vec<PendingPage>,
    stride: u32,
}

impl TemporalCache {
    /// Every entry stands under its own node, the header is one that is supported, the stride is
    /// the header's, and nothing is known without a header.
    #[verifier::type_invariant]
    closed spec fn wf(self) -> bool {
        &&& keyed(self.entries@)
        &&& match self.header {
            Some(header) => header.supported() && self.stride == header.stride,
            None => self.stride == 0 && self.entries@ == Map::<VoxelKey, NodeTemporalEntry>::empty()
                && self.pending_pages@.len() == 0,
        }
    }

    /// The samples of each loaded node.
    pub closed spec fn nodes(self) -> Map<VoxelKey, Seq<GpsTime>> {
        times_of(self.entries@)
    }

    /// The pages that are known but not loaded, in the order in which they became known.
    pub closed spec fn pending(self) -> Seq<PendingPage> {
        self.pending_pages@
    }

    /// The header, once it is loaded.
    pub closed spec fn loaded_header(self) -> Option<TemporalHeader> {
        self.header
    }

    /// The stride that the header gives, 0 before it is loaded.
    pub open spec fn sampling(self) -> u32 {
        match self.loaded_header() {
            Some(header) => header.stride,
            None => 0,
        }
    }

    /// Whether `self` is `before` with these entries of pages entered.
    pub open spec fn took_in(self, before: TemporalCache, records: Seq<Record>) -> bool {
        &&& self.loaded_header() == before.loaded_header()
        &&& self.nodes() == entered(before.nodes(), records)
        &&& self.pending() == before.pending() + pointed_to(records)
    }

    /// Create an empty temporal cache.
    pub fn new() -> (r: TemporalCache)
        ensures
            r.loaded_header() is None,
            r.nodes() == Map::<VoxelKey, Seq<GpsTime>>::empty(),
            r.pending() == Seq::<PendingPage>::empty(),
    {
        let r = TemporalCache {
            header: None,
            entries: VoxelMap::new(),
            pending_pages: Vec::new(),
            stride: 0,
        };
        assert(r.nodes() =~= Map::<VoxelKey, Seq<GpsTime>>::empty());
        r
    }

    /// Take in the header of the temporal index EVLR.
    pub fn load_header(&mut self, header_data: &[u8]) -> (r: Result<(), TemporalError>)
        ensures
            r is Ok <==> header_data@.len() >= HEADER_SIZE && header_at_start(
                header_data@,
            ).supported(),
            r matches Err(e) ==> refused_as(header_data@, e),
            final(self).loaded_header() == (if r is Ok {
                Some(header_at_start(header_data@))
            } else {
                old(self).loaded_header()
            }),
            final(self).nodes() == old(self).nodes(),
            final(self).pending() == old(self).pending(),
    {
        proof {
            use_type_invariant(&*self);
        }
        match parse_temporal_header(header_data) {
            Ok(header) => {
                let mut entries = VoxelMap::new();
                std::mem::swap(&mut entries, &mut self.entries);
                let mut pending_pages = Vec::new();
                std::mem::swap(&mut pending_pages, &mut self.pending_pages);
                *self = TemporalCache {
                    header: Some(header),
                    entries,
                    pending_pages,
                    stride: header.stride,
                };
                Ok(())
            },
            Err(e) => Err(e),
        }
    }

    /// Offset and length in the file of the root page.
    pub fn root_page_request(&self) -> (r: Result<(u64, u64), TemporalError>)
        ensures
            match self.loaded_header() {
                Some(header) => r == Ok::<(u64, u64), TemporalError>(
                    (header.root_page_offset, header.root_page_size as u64),
                ),
                None => r == Err::<(u64, u64), TemporalError>(TemporalError::TruncatedHeader),
            },
    {
        match &self.header {
            Some(header) => Ok((header.root_page_offset, header.root_page_size as u64)),
            None => Err(TemporalError::TruncatedHeader),
        }
    }

    /// Take in the root page. Where an entry is cut off, the entries before it stay.
    pub fn load_root_page(&mut self, data: &[u8]) -> (r: Result<(), TemporalError>)
        ensures
            match old(self).loaded_header() {
                Some(_) => {
                    &&& r is Ok <==> complete_from(data@, 0)
                    &&& r matches Err(e) ==> e is Io
                    &&& final(self).took_in(*old(self), records_from(data@, 0))
                },
                None => {
                    &&& r == Err::<(), TemporalError>(TemporalError::TruncatedHeader)
                    &&& final(self).took_in(*old(self), Seq::empty())
                },
            },
    {
        proof {
            use_type_invariant(&*self);
        }
        if self.header.is_none() {
            assert(self.pending() + pointed_to(Seq::empty()) =~= self.pending());
            return Err(TemporalError::TruncatedHeader);
        }
        self.parse_page(data)
    }

    /// Take the pages to read for a time range: those whose subtree overlaps `[start, end]`, by
    /// offset and length. The others stay pending.
    pub fn take_pages_for_time_range(
        &mut self,
        start: GpsTime,
        end: GpsTime,
    ) -> (r: Vec<(u64, u64)>)
        ensures
            r@ == page_ranges(old(self).pending().filter(|p: PendingPage| p.reaches(start, end))),
            final(self).pending() == old(self).pending().filter(
                |p: PendingPage| !p.reaches(start, end),
            ),
            final(self).nodes() == old(self).nodes(),
            final(self).loaded_header() == old(self).loaded_header(),
            r@.len() > 0 ==> final(self).loaded_header() is Some,
    {
        proof {
            use_type_invariant(&*self);
        }
        let mut pages = Vec::new();
        std::mem::swap(&mut pages, &mut self.pending_pages);
        let mut ranges: Vec<(u64, u64)> = Vec::new();
        let mut rest: Vec<PendingPage> = Vec::new();
        let ghost hit = |p: PendingPage| p.reaches(start, end);
        let ghost miss = |p: PendingPage| !p.reaches(start, end);
        let mut n: usize = 0;
        assert(ranges@ =~= page_ranges(pages@.take(0).filter(hit))) by {
            reveal(Seq::filter);
        }
        assert(rest@ =~= pages@.take(0).filter(miss)) by {
            reveal(Seq::filter);
        }
        while n < pages.len()
            invariant
                n <= pages@.len(),
                hit == (|p: PendingPage| p.reaches(start, end)),
                miss == (|p: PendingPage| !p.reaches(start, end)),
                ranges@ == page_ranges(pages@.take(n as int).filter(hit)),
                rest@ == pages@.take(n as int).filter(miss),
            decreases pages@.len() - n,
        {
            proof {
                reveal(Seq::filter);
                assert(pages@.take(n + 1).drop_last() =~= pages@.take(n as int));
                assert(pages@.take(n + 1).last() == pages@[n as int]);
            }
            let page = pages[n];
            if page.overlaps(start, end) {
                ranges.push((page.offset, page.size as u64));
                assert(ranges@ =~= page_ranges(pages@.take(n + 1).filter(hit)));
            } else {
                rest.push(page);
            }
            n = n + 1;
        }
        assert(pages@.take(pages@.len() as int) =~= pages@);
        proof {
            pages@.lemma_filter_len(miss);
            pages@.lemma_filter_len(hit);
        }
        self.pending_pages = rest;
        ranges
    }

    /// Take all pending pages, by offset and length.
    pub fn take_all_pages(&mut self) -> (r: Vec<(u64, u64)>)
        ensures
            r@ == page_ranges(old(self).pending()),
            final(self).pending() == Seq::<PendingPage>::empty(),
            final(self).nodes() == old(self).nodes(),
            final(self).loaded_header() == old(self).loaded_header(),
            r@.len() > 0 ==> final(self).loaded_header() is Some,
    {
        let mut pages = Vec::new();
        proof {
            use_type_invariant(&*self);
        }
        std::mem::swap(&mut pages, &mut self.pending_pages);
        let mut ranges: Vec<(u64, u64)> = Vec::new();
        let mut n: usize = 0;
        while n < pages.len()
            invariant
                n <= pages@.len(),
                ranges@ == page_ranges(pages@.take(n as int)),
            decreases pages@.len() - n,
        {
            ranges.push((pages[n].offset, pages[n].size as u64));
            n = n + 1;
            assert(ranges@ =~= page_ranges(pages@.take(n as int)));
        }
        assert(pages@.take(pages@.len() as int) =~= pages@);
        ranges
    }

    /// Take in pages that were read, in order. Where an entry is cut off, the entries before it
    /// stay, and the pages after it are left out.
    pub fn load_pages(&mut self, pages: &[Vec<u8>]) -> (r: Result<(), TemporalError>)
        requires
            old(self).loaded_header() is Some || pages@.len() == 0,
        ensures
            r is Ok <==> all_complete(pages@),
            r matches Err(e) ==> e is Io,
            final(self).took_in(*old(self), loaded_records(pages@)),
    {
        let mut n: usize = 0;
        assert(self.pending() + pointed_to(loaded_records(pages@.take(0))) =~= self.pending());
        while n < pages.len()
            invariant
                n <= pages@.len(),
                old(self).loaded_header() is Some || pages@.len() == 0,
                all_complete(pages@.take(n as int)),
                self.took_in(*old(self), loaded_records(pages@.take(n as int))),
            decreases pages@.len() - n,
        {
            let ghost before = loaded_records(pages@.take(n as int));
            let ghost page = records_from(pages@[n as int]@, 0);
            let r = self.parse_page(pages[n].as_slice());
            proof {
                let next = pages@.take(n + 1);
                assert(next.drop_last() =~= pages@.take(n as int));
                assert(next.last() == pages@[n as int]);
                assert(loaded_records(next) == before + page);
                lemma_entered_concat(old(self).nodes(), before, page);
                lemma_pointed_to_concat(before, page);
                assert(self.pending() =~= old(self).pending() + pointed_to(before + page));
                if r is Ok {
                    assert forall|i: int| 0 <= i < next.len() implies complete_from(
                        #[trigger] next[i]@,
                        0,
                    ) by {
                        if i < n {
                            assert(next[i] == pages@.take(n as int)[i]);
                        }
                    }
                } else {
                    lemma_later_pages_left_out(pages@, n as int);
                }
            }
            if r.is_err() {
                return r;
            }
            n = n + 1;
        }
        assert(pages@.take(pages@.len() as int) =~= pages@);
        Ok(())
    }

    /// Take in a page: enter its nodes, note the pages that it points to.
    fn parse_page(&mut self, data: &[u8]) -> (r: Result<(), TemporalError>)
        requires
            old(self).loaded_header() is Some,
        ensures
            r is Ok <==> complete_from(data@, 0),
            r matches Err(e) ==> e is Io,
            final(self).took_in(*old(self), records_from(data@, 0)),
    {
        proof {
            use_type_invariant(&*self);
        }
        let mut entries = VoxelMap::new();
        std::mem::swap(&mut entries, &mut self.entries);
        let mut pending_pages = Vec::new();
        std::mem::swap(&mut pending_pages, &mut self.pending_pages);
        let r = parse_entries(data, &mut entries, &mut pending_pages);
        self.entries = entries;
        self.pending_pages = pending_pages;
        match r {
            Ok(()) => Ok(()),
            Err(e) => Err(TemporalError::Io(e)),
        }
    }

    /// Look up the temporal entry for a node.
    pub fn get(&self, key: &VoxelKey) -> (r: Option<&NodeTemporalEntry>)
        ensures
            r is Some <==> self.nodes().contains_key(*key),
            r matches Some(entry) ==> entry.node() == *key && entry.times() == self.nodes()[*key],
    {
        proof {
            use_type_invariant(self);
        }
        self.entries.get(key)
    }

    /// Return all loaded nodes whose time range overlaps `[start, end]`.
    pub fn nodes_in_range(&self, start: GpsTime, end: GpsTime) -> (r: Vec<&NodeTemporalEntry>)
        ensures
            lists_overlapping(r@, self.nodes(), start, end),
    {
        proof {
            use_type_invariant(self);
        }
        overlapping(&self.entries, start, end)
    }

    /// The sampling stride (every N-th point is recorded in the index).
    pub fn stride(&self) -> (r: u32)
        ensures
            r == self.sampling(),
            r == 0 <==> self.loaded_header() is None,
            r == 0 ==> self.nodes() == Map::<VoxelKey, Seq<GpsTime>>::empty(),
    {
        proof {
            use_type_invariant(self);
            if self.header is None {
                assert(self.nodes() =~= Map::<VoxelKey, Seq<GpsTime>>::empty());
            }
        }
        self.stride
    }

    /// The parsed temporal index header, if loaded.
    pub fn header(&self) -> (r: Option<&TemporalHeader>)
        ensures
            r is Some <==> self.loaded_header() is Some,
            r matches Some(header) ==> *header == self.loaded_header()->0 && header.supported(),
    {
        proof {
            use_type_invariant(self);
        }
        self.header.as_ref()
    }

    /// Number of loaded node entries.
    pub fn len(&self) -> (r: usize)
        ensures
            r == self.nodes().dom().len(),
    {
        assert(self.nodes().dom() =~= self.entries@.dom());
        self.entries.len()
    }

    /// Whether no node entries have been loaded.
    pub fn is_empty(&self) -> (r: bool)
        ensures
            r == (self.nodes() == Map::<VoxelKey, Seq<GpsTime>>::empty()),
    {
        proof {
            assert(self.nodes().dom() =~= self.entries@.dom());
            if self.nodes() == Map::<VoxelKey, Seq<GpsTime>>::empty() {
                assert(self.entries@ =~= Map::<VoxelKey, NodeTemporalEntry>::empty());
            }
            if self.entries@ == Map::<VoxelKey, NodeTemporalEntry>::empty() {
                assert(self.nodes() =~= Map::<VoxelKey, Seq<GpsTime>>::empty());
            }
        }
        self.entries.is_empty()
    }

    /// All loaded entries with their nodes, in no particular order.
    pub fn iter(&self) -> (r: Vec<(&VoxelKey, &NodeTemporalEntry)>)
        ensures
            lists_entries(r@, self.nodes()),
    {
        proof {
            use_type_invariant(self);
        }
        let r = self.entries.entries();
        assert(lists(r@, self.entries@));
        r
    }
}

impl Default for TemporalCache {
    fn default() -> (r: TemporalCache)
        ensures
            r.loaded_header() is None,
            r.nodes() == Map::<VoxelKey, Seq<GpsTime>>::empty(),
            r.pending() == Seq::<PendingPage>::empty(),
    {
        TemporalCache::new()
    }
}

/// Read the entries of a page into a map and a list of pages.
fn parse_entries(
    data: &[u8],
    entries: &mut VoxelMap<NodeTemporalEntry>,
    pending_pages: &mut Vec<PendingPage>,
) -> (r: Result<(), std::io::Error>)
    requires
        keyed(old(entries)@),
    ensures
        r is Ok <==> complete_from(data@, 0),
        keyed(final(entries)@),
        times_of(final(entries)@) == entered(times_of(old(entries)@), records_from(data@, 0)),
        final(pending_pages)@ == old(pending_pages)@ + pointed_to(records_from(data@, 0)),
{
    let mut cursor = ByteCursor::new(data);
    let ghost all = records_from(data@, 0);
    let ghost mut done: Seq<Record> = Seq::empty();
    proof {
        assert(all =~= done + records_from(data@, cursor.pos()));
        assert(pending_pages@ =~= old(pending_pages)@ + pointed_to(done));
    }
    while cursor.remaining() >= 20
        invariant
            cursor.wf(),
            cursor.data() == data@,
            all == records_from(data@, 0),
            all == done + records_from(data@, cursor.pos()),
            complete_from(data@, 0) == complete_from(data@, cursor.pos()),
            keyed(entries@),
            times_of(entries@) == entered(times_of(old(entries)@), done),
            pending_pages@ == old(pending_pages)@ + pointed_to(done),
        decreases data@.len() - cursor.pos(),
    {
        let ghost before = done;
        match PageEntry::read(&mut cursor) {
            Ok(PageEntry::Node(entry)) => {
                proof {
                    done = done.push(PageEntry::Node(entry).record());
                    assert(done.drop_last() =~= before);
                    assert(times_of(entries@.insert(entry.node(), entry)) =~= times_of(
                        entries@,
                    ).insert(entry.node(), entry.times()));
                }
                entries.insert(entry.key(), entry);
            },
            Ok(PageEntry::Pointer(key, page)) => {
                proof {
                    done = done.push(PageEntry::Pointer(key, page).record());
                    assert(done.drop_last() =~= before);
                }
                pending_pages.push(page);
                assert(pending_pages@ =~= old(pending_pages)@ + pointed_to(done));
            },
            Err(e) => {
                assert(all =~= done);
                return Err(e);
            },
        }
        assert(all =~= done + records_from(data@, cursor.pos()));
    }
    assert(all =~= done);
    Ok(())
}

/// Pages after one that is not complete do not count.
proof fn lemma_later_pages_left_out(pages: Seq<Vec<u8>>, n: int)
    requires
        0 <= n < pages.len(),
        !complete_from(pages[n]@, 0),
    ensures
        !all_complete(pages),
        loaded_records(pages) == loaded_records(pages.take(n + 1)),
    decreases pages.len(),
{
    if pages.len() == n + 1 {
        assert(pages.take(n + 1) =~= pages);
    } else {
        lemma_later_pages_left_out(pages.drop_last(), n);
        assert(pages.drop_last().take(n + 1) =~= pages.take(n + 1));
    }
}

} // verus!
