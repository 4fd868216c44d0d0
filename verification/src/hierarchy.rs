//! The octree hierarchy of a file, loaded page by page.
//!
//! A [`HierarchyCache`] says which parts of the file to read and takes in what was read; it does
//! no reading itself. A page is a sequence of 32-byte entries: the key of a node, an offset, a
//! size, and a point count. A point count of -1 says that the offset and the size are those of the
//! page of the subtree below the node.

use crate::bytes::{
    i32_at, i32_bytes, law_i32_reads_back, law_u64_reads_back, lemma_number_sizes,
    lemma_stands_split, stands_at, u64_at, u64_bytes, ByteCursor,
};
use crate::error::CopcError;
use crate::header::CopcInfo;
use crate::temporal_page::{key_at, key_bytes, law_key_reads_back};
use crate::types::{has_box, region_test, Aabb, VoxelKey};
use crate::voxel_map::{lists, VoxelMap};
use vstd::prelude::*;

verus! {

/// A single hierarchy entry: metadata for one octree node.
///
/// The `key` is duplicated from the hierarchy map for convenience when passing entries around
/// without the map key.
#[derive(Debug, Clone, Copy)]
pub struct HierarchyEntry {
    /// The octree node this entry describes.
    pub key: VoxelKey,
    /// Absolute file offset to the compressed point data.
    pub offset: u64,
    /// Size of compressed data in bytes.
    pub byte_size: u32,
    /// Number of points in this node.
    pub point_count: u32,
}

/// Reference to a hierarchy page that is not loaded.
#[derive(Debug, Clone, Copy)]
pub struct PendingPage {
    /// The voxel key of the node that points to this page.
    pub key: VoxelKey,
    /// Absolute file offset of the page.
    pub offset: u64,
    /// Size of the page in bytes.
    pub size: u64,
}

/// What an entry of a page says.
pub enum Record {
    /// The metadata of a node.
    Node(HierarchyEntry),
    /// Where the page of a subtree is.
    Page(PendingPage),
    /// Nothing: a count or a size is negative.
    Invalid,
}

/// The size of an entry: key (16), offset (8), byte size (4), point count (4).
pub const ENTRY_SIZE: usize = 32;

/// The size of a page, which is not checked for its sign.
pub open spec fn page_size(byte_size: i32) -> int {
    if byte_size >= 0 {
        byte_size as int
    } else {
        byte_size + 0x1_0000_0000_0000_0000
    }
}

/// The entry at offset `at` of a page.
pub open spec fn record_at(data: Seq<u8>, at: int) -> Record {
    let key = key_at(data, at);
    let offset = u64_at(data, at + 16);
    let byte_size = i32_at(data, at + 24);
    let point_count = i32_at(data, at + 28);
    if point_count == -1 {
        Record::Page(PendingPage { key, offset, size: page_size(byte_size) as u64 })
    } else if point_count >= 0 && byte_size >= 0 {
        Record::Node(
            HierarchyEntry {
                key,
                offset,
                byte_size: byte_size as u32,
                point_count: point_count as u32,
            },
        )
    } else {
        Record::Invalid
    }
}

/// The entries of a page. Fewer bytes than an entry, after the last one, are padding.
pub open spec fn page_records(data: Seq<u8>) -> Seq<Record> {
    Seq::new((data.len() / ENTRY_SIZE as nat) as nat, |i: int| record_at(data, ENTRY_SIZE * i))
}

/// What is known of each node after these entries, where `nodes` were known before them: later
/// entries of a node replace earlier ones.
pub open spec fn entered(
    nodes: Map<VoxelKey, HierarchyEntry>,
    records: Seq<Record>,
) -> Map<VoxelKey, HierarchyEntry>
    decreases records.len(),
{
    if records.len() == 0 {
        nodes
    } else {
        let before = entered(nodes, records.drop_last());
        match records.last() {
            Record::Node(entry) => before.insert(entry.key, entry),
            _ => before,
        }
    }
}

/// The pages that these entries point to, in order.
pub open spec fn pointed_to(records: Seq<Record>) -> Seq<PendingPage>
    decreases records.len(),
{
    if records.len() == 0 {
        Seq::empty()
    } else {
        let before = pointed_to(records.drop_last());
        match records.last() {
            Record::Page(page) => before.push(page),
            _ => before,
        }
    }
}

/// Offset and length in the file of each page.
pub open spec fn page_ranges(pages: Seq<PendingPage>) -> Seq<(u64, u64)> {
    pages.map_values(|p: PendingPage| (p.offset, p.size))
}

/// The entries of the first `n` pages, one page after the other.
pub open spec fn loaded_records(pages: Seq<Vec<u8>>, n: int) -> Seq<Record>
    decreases n,
{
    if n <= 0 {
        Seq::empty()
    } else {
        loaded_records(pages, n - 1) + page_records(pages[n - 1]@)
    }
}

/// The items that the mask marks with `want`, in order.
pub open spec fn marked<A>(items: Seq<A>, mask: Seq<bool>, want: bool) -> Seq<A>
    decreases items.len(),
{
    if items.len() == 0 {
        Seq::empty()
    } else {
        let before = marked(items.drop_last(), mask.drop_last(), want);
        if mask.last() == want {
            before.push(items.last())
        } else {
            before
        }
    }
}

/// Whether the page is marked as it should be: if its node is not deeper than `max_level`, where
/// there is such a limit, and the node's box, as `node_bounds` gives it, overlaps the region.
pub open spec fn marks_page<F: Fn(VoxelKey) -> Aabb>(
    mark: bool,
    page: PendingPage,
    bounds: Aabb,
    node_bounds: F,
    max_level: Option<i32>,
) -> bool {
    if within_level(page.key, max_level) {
        region_test(&node_bounds, page.key, bounds, mark)
    } else {
        !mark
    }
}

/// Whether the mask marks each page as it should be.
pub open spec fn marks_region<F: Fn(VoxelKey) -> Aabb>(
    mask: Seq<bool>,
    pages: Seq<PendingPage>,
    bounds: Aabb,
    node_bounds: F,
    max_level: Option<i32>,
) -> bool {
    &&& mask.len() == pages.len()
    &&& forall|i: int|
        0 <= i < pages.len() ==> marks_page(
            #[trigger] mask[i],
            pages[i],
            bounds,
            node_bounds,
            max_level,
        )
}

/// Whether pages were parted as they should be: those that overlap the region, down to the limit if
/// there is one, were taken, by offset and length, and the others are left.
pub open spec fn parted<F: Fn(VoxelKey) -> Aabb>(
    pages: Seq<PendingPage>,
    bounds: Aabb,
    node_bounds: F,
    max_level: Option<i32>,
    taken: Seq<(u64, u64)>,
    left: Seq<PendingPage>,
) -> bool {
    exists|mask: Seq<bool>| #[trigger]
        marks_region(mask, pages, bounds, node_bounds, max_level) && taken == page_ranges(
            marked(pages, mask, true),
        ) && left == marked(pages, mask, false)
}

/// Whether `node_bounds` can be asked for the box of every page's node, down to the limit.
pub open spec fn has_boxes<F: Fn(VoxelKey) -> Aabb>(
    node_bounds: F,
    pages: Seq<PendingPage>,
    max_level: Option<i32>,
) -> bool {
    forall|i: int|
        0 <= i < pages.len() && within_level((#[trigger] pages[i]).key, max_level) ==> has_box(
            &node_bounds,
            pages[i].key,
        )
}

/// Whether a node is not deeper than the limit, if there is one.
pub open spec fn within_level(key: VoxelKey, max_level: Option<i32>) -> bool {
    max_level matches Some(limit) ==> key.level <= limit
}

/// Whether every entry stands under its own node.
pub open spec fn keyed(entries: Map<VoxelKey, HierarchyEntry>) -> bool {
    forall|k: VoxelKey| #[trigger] entries.contains_key(k) ==> entries[k].key == k
}

/// Incrementally-loaded hierarchy cache.
pub struct HierarchyCache {
    /// All loaded node entries.
    entries: VoxelMap<HierarchyEntry>,
    /// Pages that are known but not loaded.
    pending_pages: Vec<PendingPage>,
    /// Whether the root page has been loaded.
    root_loaded: bool,
}

impl HierarchyCache {
    /// Every entry stands under its own node.
    #[verifier::type_invariant]
    closed spec fn wf(self) -> bool {
        keyed(self.entries@)
    }

    /// The entry of each loaded node.
    pub closed spec fn nodes(self) -> Map<VoxelKey, HierarchyEntry> {
        self.entries@
    }

    /// The pages that are known but not loaded, in the order in which they became known.
    pub closed spec fn pending(self) -> Seq<PendingPage> {
        self.pending_pages@
    }

    /// Whether the root page has been loaded.
    pub closed spec fn has_root(self) -> bool {
        self.root_loaded
    }

    /// Whether `self` is `before` with these entries of pages entered.
    pub open spec fn took_in(self, before: HierarchyCache, records: Seq<Record>) -> bool {
        &&& self.nodes() == entered(before.nodes(), records)
        &&& self.pending() == before.pending() + pointed_to(records)
    }

    /// Create an empty hierarchy cache.
    pub fn new() -> (r: HierarchyCache)
        ensures
            r.nodes() == Map::<VoxelKey, HierarchyEntry>::empty(),
            r.pending() == Seq::<PendingPage>::empty(),
            !r.has_root(),
    {
        HierarchyCache { entries: VoxelMap::new(), pending_pages: Vec::new(), root_loaded: false }
    }

    /// Offset and length in the file of the root page; `None` where it has been loaded.
    pub fn root_request(&self, info: &CopcInfo) -> (r: Option<(u64, u64)>)
        ensures
            r == (if self.has_root() {
                None
            } else {
                Some((info.root_hier_offset, info.root_hier_size))
            }),
    {
        if self.root_loaded {
            None
        } else {
            Some((info.root_hier_offset, info.root_hier_size))
        }
    }

    /// Take in the root page, where it has not been loaded before.
    pub fn load_root(&mut self, data: &[u8]) -> (r: Result<(), CopcError>)
        ensures
            r is Ok,
            final(self).has_root(),
            final(self).took_in(
                *old(self),
                if old(self).has_root() {
                    Seq::empty()
                } else {
                    page_records(data@)
                },
            ),
    {
        if self.root_loaded {
            assert(self.pending() + pointed_to(Seq::empty()) =~= self.pending());
            return Ok(());
        }
        let r = self.parse_page(data);
        proof {
            use_type_invariant(&*self);
        }
        self.root_loaded = true;
        r
    }

    /// Take all pending pages, by offset and length.
    pub fn take_pending_pages(&mut self) -> (r: Vec<(u64, u64)>)
        ensures
            r@ == page_ranges(old(self).pending()),
            final(self).pending() == Seq::<PendingPage>::empty(),
            final(self).nodes() == old(self).nodes(),
            final(self).has_root() == old(self).has_root(),
    {
        proof {
            use_type_invariant(&*self);
        }
        let mut pages = Vec::new();
        std::mem::swap(&mut pages, &mut self.pending_pages);
        let mut ranges: Vec<(u64, u64)> = Vec::new();
        let mut n: usize = 0;
        while n < pages.len()
            invariant
                n <= pages@.len(),
                ranges@ == page_ranges(pages@.take(n as int)),
            decreases pages@.len() - n,
        {
            ranges.push((pages[n].offset, pages[n].size));
            n = n + 1;
            assert(ranges@ =~= page_ranges(pages@.take(n as int)));
        }
        assert(pages@.take(pages@.len() as int) =~= pages@);
        ranges
    }

    /// Take the pages to read for a region: those whose subtree overlaps `bounds`, by offset and
    /// length. The others stay pending. `node_bounds` gives the box of a node.
    pub fn take_pages_for_bounds<F: Fn(VoxelKey) -> Aabb>(
        &mut self,
        bounds: &Aabb,
        node_bounds: F,
    ) -> (r: Vec<(u64, u64)>)
        requires
            has_boxes(node_bounds, old(self).pending(), None),
        ensures
            parted(
                old(self).pending(),
                *bounds,
                node_bounds,
                None,
                r@,
                final(self).pending(),
            ),
            final(self).nodes() == old(self).nodes(),
            final(self).has_root() == old(self).has_root(),
    {
        self.take_pages(bounds, node_bounds, None)
    }

    /// Like [`take_pages_for_bounds`](Self::take_pages_for_bounds), but pages of nodes that are
    /// deeper than `max_level` stay pending even if they overlap the region.
    pub fn take_pages_for_bounds_to_level<F: Fn(VoxelKey) -> Aabb>(
        &mut self,
        bounds: &Aabb,
        node_bounds: F,
        max_level: i32,
    ) -> (r: Vec<(u64, u64)>)
        requires
            has_boxes(node_bounds, old(self).pending(), Some(max_level)),
        ensures
            parted(
                old(self).pending(),
                *bounds,
                node_bounds,
                Some(max_level),
                r@,
                final(self).pending(),
            ),
            final(self).nodes() == old(self).nodes(),
            final(self).has_root() == old(self).has_root(),
    {
        self.take_pages(bounds, node_bounds, Some(max_level))
    }

    /// Take the pages whose subtree overlaps the region, down to a level if one is given.
    fn take_pages<F: Fn(VoxelKey) -> Aabb>(
        &mut self,
        bounds: &Aabb,
        node_bounds: F,
        max_level: Option<i32>,
    ) -> (r: Vec<(u64, u64)>)
        requires
            has_boxes(node_bounds, old(self).pending(), max_level),
        ensures
            exists|mask: Seq<bool>| #[trigger]
                marks_region(mask, old(self).pending(), *bounds, node_bounds, max_level) && r@
                    == page_ranges(marked(old(self).pending(), mask, true))
                    && final(self).pending() == marked(old(self).pending(), mask, false),
            final(self).nodes() == old(self).nodes(),
            final(self).has_root() == old(self).has_root(),
    {
        proof {
            use_type_invariant(&*self);
        }
        let mut pages = Vec::new();
        std::mem::swap(&mut pages, &mut self.pending_pages);
        let mut ranges: Vec<(u64, u64)> = Vec::new();
        let mut rest: Vec<PendingPage> = Vec::new();
        let ghost mut mask: Seq<bool> = Seq::empty();
        assert(ranges@ =~= page_ranges(marked(pages@.take(0), mask, true)));
        let mut n: usize = 0;
        while n < pages.len()
            invariant
                n <= pages@.len(),
                has_boxes(node_bounds, pages@, max_level),
                marks_region(mask, pages@.take(n as int), *bounds, node_bounds, max_level),
                ranges@ == page_ranges(marked(pages@.take(n as int), mask, true)),
                rest@ == marked(pages@.take(n as int), mask, false),
            decreases pages@.len() - n,
        {
            let page = pages[n];
            let in_level = match max_level {
                Some(limit) => page.key.level <= limit,
                None => true,
            };
            let wanted = in_level && node_bounds(page.key).intersects(bounds);
            proof {
                let before = pages@.take(n as int);
                let next = pages@.take(n + 1);
                let old_mask = mask;
                mask = mask.push(wanted);
                assert(next.drop_last() =~= before);
                assert(next.last() == page);
                assert(mask.drop_last() =~= old_mask);
                assert forall|i: int| 0 <= i < next.len() implies marks_page(
                    #[trigger] mask[i],
                    next[i],
                    *bounds,
                    node_bounds,
                    max_level,
                ) by {
                    if i < n {
                        assert(mask[i] == old_mask[i]);
                        assert(next[i] == before[i]);
                    }
                }
            }
            if wanted {
                ranges.push((page.offset, page.size));
                assert(ranges@ =~= page_ranges(marked(pages@.take(n + 1), mask, true)));
            } else {
                rest.push(page);
            }
            n = n + 1;
        }
        assert(pages@.take(pages@.len() as int) =~= pages@);
        self.pending_pages = rest;
        ranges
    }

    /// Take in the pages that were read for these ranges, in order.
    pub fn load_pages(&mut self, ranges: &[(u64, u64)], pages: &[Vec<u8>]) -> (r: Result<
        (),
        CopcError,
    >)
        ensures
            r is Ok,
            final(self).took_in(
                *old(self),
                loaded_records(
                    pages@,
                    if ranges@.len() < pages@.len() {
                        ranges@.len() as int
                    } else {
                        pages@.len() as int
                    },
                ),
            ),
            final(self).has_root() == old(self).has_root(),
    {
        let count: usize = if ranges.len() < pages.len() {
            ranges.len()
        } else {
            pages.len()
        };
        let mut n: usize = 0;
        assert(self.pending() + pointed_to(loaded_records(pages@, 0)) =~= self.pending());
        while n < count
            invariant
                n <= count <= pages@.len(),
                self.took_in(*old(self), loaded_records(pages@, n as int)),
                self.has_root() == old(self).has_root(),
            decreases count - n,
        {
            let r = self.parse_page(pages[n].as_slice());
            proof {
                let before = loaded_records(pages@, n as int);
                let page = page_records(pages@[n as int]@);
                lemma_entered_concat(old(self).nodes(), before, page);
                lemma_pointed_to_concat(before, page);
                assert(self.pending() =~= old(self).pending() + pointed_to(before + page));
            }
            if r.is_err() {
                return r;
            }
            n = n + 1;
        }
        Ok(())
    }

    /// Take in a page: enter its nodes, note the pages that it points to. Entries with an invalid
    /// negative number are passed over.
    pub fn parse_page(&mut self, data: &[u8]) -> (r: Result<(), CopcError>)
        ensures
            r is Ok,
            final(self).took_in(*old(self), page_records(data@)),
            final(self).has_root() == old(self).has_root(),
    {
        proof {
            use_type_invariant(&*self);
        }
        let mut entries = VoxelMap::new();
        std::mem::swap(&mut entries, &mut self.entries);
        let mut pending_pages = Vec::new();
        std::mem::swap(&mut pending_pages, &mut self.pending_pages);
        let r = parse_entries(data, &mut entries, &mut pending_pages);
        self.entries = entries;
        self.pending_pages = pending_pages;
        match r {
            Ok(()) => Ok(()),
            Err(e) => Err(CopcError::Io(e)),
        }
    }

    /// The nodes that point to the pending pages, in order.
    pub fn pending_keys(&self) -> (r: Vec<VoxelKey>)
        ensures
            r@ == self.pending().map_values(|p: PendingPage| p.key),
    {
        let mut r: Vec<VoxelKey> = Vec::new();
        let mut n: usize = 0;
        while n < self.pending_pages.len()
            invariant
                n <= self.pending_pages@.len(),
                r@.len() == n,
                forall|i: int| 0 <= i < n ==> #[trigger] r@[i] == self.pending_pages@[i].key,
            decreases self.pending_pages@.len() - n,
        {
            r.push(self.pending_pages[n].key);
            n = n + 1;
        }
        assert(r@ =~= self.pending().map_values(|p: PendingPage| p.key));
        r
    }

    /// Whether there are unloaded hierarchy pages.
    pub fn has_pending_pages(&self) -> (r: bool)
        ensures
            r == (self.pending().len() > 0),
    {
        self.pending_pages.len() > 0
    }

    /// Look up a hierarchy entry by key.
    pub fn get(&self, key: &VoxelKey) -> (r: Option<&HierarchyEntry>)
        ensures
            r is Some <==> self.nodes().contains_key(*key),
            r matches Some(entry) ==> *entry == self.nodes()[*key] && entry.key == *key,
    {
        proof {
            use_type_invariant(self);
        }
        self.entries.get(key)
    }

    /// All loaded entries with their nodes, in no particular order.
    pub fn iter(&self) -> (r: Vec<(&VoxelKey, &HierarchyEntry)>)
        ensures
            lists(r@, self.nodes()),
            keyed(self.nodes()),
    {
        proof {
            use_type_invariant(self);
        }
        self.entries.entries()
    }

    /// Number of loaded entries.
    pub fn len(&self) -> (r: usize)
        ensures
            r == self.nodes().dom().len(),
    {
        self.entries.len()
    }

    /// Whether no entries have been loaded.
    pub fn is_empty(&self) -> (r: bool)
        ensures
            r == (self.nodes() == Map::<VoxelKey, HierarchyEntry>::empty()),
    {
        self.entries.is_empty()
    }
}

impl Default for HierarchyCache {
    fn default() -> (r: HierarchyCache)
        ensures
            r.nodes() == Map::<VoxelKey, HierarchyEntry>::empty(),
            r.pending() == Seq::<PendingPage>::empty(),
            !r.has_root(),
    {
        HierarchyCache::new()
    }
}

/// Read the entries of a page into a map and a list of pages.
fn parse_entries(
    data: &[u8],
    entries: &mut VoxelMap<HierarchyEntry>,
    pending_pages: &mut Vec<PendingPage>,
) -> (r: Result<(), std::io::Error>)
    requires
        keyed(old(entries)@),
    ensures
        r is Ok,
        keyed(final(entries)@),
        final(entries)@ == entered(old(entries)@, page_records(data@)),
        final(pending_pages)@ == old(pending_pages)@ + pointed_to(page_records(data@)),
{
    let mut r = ByteCursor::new(data);
    let ghost all = page_records(data@);
    let ghost mut n: int = 0;
    proof {
        assert(all.take(0) =~= Seq::empty());
        assert(pending_pages@ =~= old(pending_pages)@ + pointed_to(all.take(0)));
    }
    while r.remaining() >= ENTRY_SIZE
        invariant
            r.wf(),
            r.data() == data@,
            all == page_records(data@),
            r.pos() == ENTRY_SIZE * n,
            0 <= n <= all.len(),
            keyed(entries@),
            entries@ == entered(old(entries)@, all.take(n)),
            pending_pages@ == old(pending_pages)@ + pointed_to(all.take(n)),
        decreases data@.len() - r.pos(),
    {
        let level: i32 = r.read_i32()?;
        let x: i32 = r.read_i32()?;
        let y: i32 = r.read_i32()?;
        let z: i32 = r.read_i32()?;
        let offset: u64 = r.read_u64()?;
        let byte_size: i32 = r.read_i32()?;
        let point_count: i32 = r.read_i32()?;
        let key = VoxelKey { level, x, y, z };
        proof {
            assert(all.take(n + 1).drop_last() =~= all.take(n));
            assert(all.take(n + 1).last() == record_at(data@, ENTRY_SIZE * n));
        }
        if point_count == -1 {
            // Page pointer: register for later loading
            assert(byte_size < 0 ==> byte_size as u64 == byte_size + 0x1_0000_0000_0000_0000)
                by (bit_vector);
            pending_pages.push(PendingPage { key, offset, size: byte_size as u64 });
            assert(pending_pages@ =~= old(pending_pages)@ + pointed_to(all.take(n + 1)));
        } else if point_count >= 0 && byte_size >= 0 {
            entries.insert(
                key,
                HierarchyEntry {
                    key,
                    offset,
                    byte_size: byte_size as u32,
                    point_count: point_count as u32,
                },
            );
        }
        proof {
            n = n + 1;
        }
    }
    assert(all.take(n) =~= all);
    Ok(())
}

/// Entering one run of entries after another is entering both as one run.
proof fn lemma_entered_concat(
    nodes: Map<VoxelKey, HierarchyEntry>,
    a: Seq<Record>,
    b: Seq<Record>,
)
    ensures
        entered(nodes, a + b) == entered(entered(nodes, a), b),
    decreases b.len(),
{
    if b.len() == 0 {
        assert(a + b =~= a);
    } else {
        assert((a + b).drop_last() =~= a + b.drop_last());
        lemma_entered_concat(nodes, a, b.drop_last());
    }
}

/// What two runs of entries point to, they point to as one run.
proof fn lemma_pointed_to_concat(a: Seq<Record>, b: Seq<Record>)
    ensures
        pointed_to(a + b) == pointed_to(a) + pointed_to(b),
    decreases b.len(),
{
    if b.len() == 0 {
        assert(a + b =~= a);
    } else {
        assert((a + b).drop_last() =~= a + b.drop_last());
        lemma_pointed_to_concat(a, b.drop_last());
        assert(pointed_to(a + b) =~= pointed_to(a) + pointed_to(b));
    }
}

/// The bytes of an entry.
pub open spec fn record_bytes(record: Record) -> Seq<u8> {
    match record {
        Record::Node(entry) => key_bytes(entry.key) + u64_bytes(entry.offset) + i32_bytes(
            entry.byte_size as i32,
        ) + i32_bytes(entry.point_count as i32),
        Record::Page(page) => key_bytes(page.key) + u64_bytes(page.offset) + i32_bytes(
            page.size as i32,
        ) + i32_bytes((-1int) as i32),
        Record::Invalid => Seq::empty(),
    }
}

/// Whether the entry can be written down: its numbers are in range.
pub open spec fn storable(record: Record) -> bool {
    match record {
        Record::Node(entry) => entry.byte_size <= i32::MAX && entry.point_count <= i32::MAX,
        Record::Page(page) => page.size <= i32::MAX,
        Record::Invalid => false,
    }
}

/// The bytes of entries, one after the other.
pub open spec fn page_bytes(records: Seq<Record>) -> Seq<u8>
    decreases records.len(),
{
    if records.len() == 0 {
        Seq::empty()
    } else {
        page_bytes(records.drop_last()) + record_bytes(records.last())
    }
}

/// An entry is read back from where its bytes stand.
pub proof fn law_record_reads_back(data: Seq<u8>, at: int, record: Record)
    requires
        storable(record),
        stands_at(data, at, record_bytes(record)),
    ensures
        record_at(data, at) == record,
        record_bytes(record).len() == ENTRY_SIZE,
{
    lemma_number_sizes();
    let (key, offset, size, count) = match record {
        Record::Node(e) => (e.key, e.offset, e.byte_size as i32, e.point_count as i32),
        Record::Page(p) => (p.key, p.offset, p.size as i32, (-1int) as i32),
        Record::Invalid => (key_at(data, at), 0u64, 0i32, 0i32),
    };
    let (k, o, b, c) = (key_bytes(key), u64_bytes(offset), i32_bytes(size), i32_bytes(count));
    lemma_stands_split(data, at, k + o + b, c);
    lemma_stands_split(data, at, k + o, b);
    lemma_stands_split(data, at, k, o);
    law_key_reads_back(data, at, key);
    law_u64_reads_back(data, at + 16, offset);
    law_i32_reads_back(data, at + 24, size);
    law_i32_reads_back(data, at + 28, count);
}

/// A page is read back from its bytes, with or without padding after them.
pub proof fn law_page_reads_back(data: Seq<u8>, records: Seq<Record>)
    requires
        forall|i: int| 0 <= i < records.len() ==> storable(#[trigger] records[i]),
        stands_at(data, 0, page_bytes(records)),
        data.len() < page_bytes(records).len() + ENTRY_SIZE,
    ensures
        page_records(data) == records,
{
    lemma_page_reads_back(data, records);
    assert(page_records(data) =~= records);
}

/// Entries are read back from where their bytes stand, whatever follows them.
proof fn lemma_page_reads_back(data: Seq<u8>, records: Seq<Record>)
    requires
        forall|i: int| 0 <= i < records.len() ==> storable(#[trigger] records[i]),
        stands_at(data, 0, page_bytes(records)),
    ensures
        page_bytes(records).len() == ENTRY_SIZE * records.len(),
        forall|i: int|
            0 <= i < records.len() ==> record_at(data, ENTRY_SIZE * i) == #[trigger] records[i],
    decreases records.len(),
{
    if records.len() > 0 {
        let rest = records.drop_last();
        lemma_stands_split(data, 0, page_bytes(rest), record_bytes(records.last()));
        assert forall|i: int| 0 <= i < rest.len() implies storable(#[trigger] rest[i]) by {
            assert(rest[i] == records[i]);
        }
        lemma_page_reads_back(data, rest);
        assert(storable(records[records.len() - 1]));
        law_record_reads_back(data, ENTRY_SIZE * rest.len(), records.last());
        assert forall|i: int| 0 <= i < records.len() implies record_at(data, ENTRY_SIZE * i)
            == #[trigger] records[i] by {
            if i < rest.len() {
                assert(rest[i] == records[i]);
            }
        }
    }
}

/// A mask parts items without loss: each is on the side that its mark says.
pub proof fn law_mask_parts<A>(items: Seq<A>, mask: Seq<bool>, i: int)
    requires
        mask.len() == items.len(),
        0 <= i < items.len(),
    ensures
        marked(items, mask, mask[i]).contains(items[i]),
        marked(items, mask, true).len() + marked(items, mask, false).len() == items.len(),
    decreases items.len(),
{
    let (rest, rest_mask) = (items.drop_last(), mask.drop_last());
    let before = marked(rest, rest_mask, mask[i]);
    if rest.len() == 0 {
        assert(marked(items, mask, mask[i])[0] == items[i]);
        reveal_with_fuel(marked, 2);
    } else if i < rest.len() {
        law_mask_parts(rest, rest_mask, i);
        assert(rest_mask[i] == mask[i]);
        let k = choose|k: int| 0 <= k < before.len() && before[k] == rest[i];
        assert(marked(items, mask, mask[i])[k] == items[i]);
    } else {
        law_mask_parts(rest, rest_mask, 0);
        assert(marked(items, mask, mask[i])[before.len() as int] == items[i]);
    }
}

} // verus!
