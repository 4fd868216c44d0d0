//! Pages of the hierarchy, and what a cache takes in of them.

use crate::bytes::{
    i32_bytes, law_i32_reads_back, law_u64_reads_back, lemma_number_sizes, lemma_stands_split,
    stands_at, u64_bytes,
};
use crate::error::CopcError;
use crate::header::CopcInfo;
use crate::hierarchy::{
    entered, loaded_records, marked, marks_region, page_ranges, page_records, pointed_to,
    record_at, HierarchyCache, HierarchyEntry, PendingPage, Record,
};
use crate::laws::boxes::overlap;
use crate::types::{Aabb, VoxelKey};
use vstd::prelude::*;

verus! {

/// An entry of a page as it stands in a file.
pub struct Line {
    /// The key of the node.
    pub key: VoxelKey,
    /// An offset in the file.
    pub offset: u64,
    /// A size.
    pub size: i32,
    /// A number of points.
    pub count: i32,
}

impl Line {
    /// The bytes of the entry: level, x, y, z, the offset, the size, the number of points.
    pub open spec fn bytes(self) -> Seq<u8> {
        i32_bytes(self.key.level) + i32_bytes(self.key.x) + i32_bytes(self.key.y) + i32_bytes(
            self.key.z,
        ) + u64_bytes(self.offset) + i32_bytes(self.size) + i32_bytes(self.count)
    }

    /// Whether this is the entry of a node: neither its size nor its number of points is negative.
    pub open spec fn is_of(self, key: VoxelKey) -> bool {
        self.key == key && self.size >= 0 && self.count >= 0
    }

    /// The node's entry.
    pub open spec fn node(self) -> HierarchyEntry {
        HierarchyEntry {
            key: self.key,
            offset: self.offset,
            byte_size: self.size as u32,
            point_count: self.count as u32,
        }
    }

    /// The page that the entry points to. A negative size counts from the end of the 64-bit
    /// numbers.
    pub open spec fn page(self) -> PendingPage {
        PendingPage {
            key: self.key,
            offset: self.offset,
            size: (if self.size >= 0 {
                self.size as int
            } else {
                0x1_0000_0000_0000_0000 + self.size
            }) as u64,
        }
    }
}

/// Whether the page consists of these entries, 32 bytes each, and of fewer than 32 bytes of
/// padding.
pub open spec fn is_page(data: Seq<u8>, lines: Seq<Line>) -> bool {
    &&& 32 * lines.len() <= data.len() < 32 * lines.len() + 32
    &&& forall|i: int| 0 <= i < lines.len() ==> stands_at(data, 32 * i, (#[trigger] lines[i]).bytes())
}

/// Whether nodes and pending pages are what they were before, with these entries taken in. What is
/// known of a node is what its last entry says; a node without an entry is as it was. An entry with
/// a number of points of -1 points to a page, which comes behind those that were pending, in order.
/// Entries with other negative numbers are passed over.
pub open spec fn taken_in(
    nodes_before: Map<VoxelKey, HierarchyEntry>,
    pending_before: Seq<PendingPage>,
    lines: Seq<Line>,
    nodes: Map<VoxelKey, HierarchyEntry>,
    pending: Seq<PendingPage>,
) -> bool {
    &&& forall|key: VoxelKey, i: int|
        0 <= i < lines.len() && #[trigger] lines[i].is_of(key) && (forall|j: int|
            i < j < lines.len() ==> !(#[trigger] lines[j]).is_of(key)) ==> nodes.contains_key(key)
            && nodes[key] == lines[i].node()
    &&& forall|key: VoxelKey|
        #![trigger nodes.contains_key(key)]
        (forall|j: int| 0 <= j < lines.len() ==> !(#[trigger] lines[j]).is_of(key)) ==> (
        nodes.contains_key(key) <==> nodes_before.contains_key(key)) && (nodes.contains_key(key)
            ==> nodes[key] == nodes_before[key])
    &&& pending == pending_before + lines.filter(|l: Line| l.count == -1).map_values(
        |l: Line| l.page(),
    )
}

/// What an entry says.
spec fn says(line: Line) -> Record {
    if line.count == -1 {
        Record::Page(line.page())
    } else if line.count >= 0 && line.size >= 0 {
        Record::Node(line.node())
    } else {
        Record::Invalid
    }
}

/// An entry is found where its bytes stand.
proof fn lemma_line(data: Seq<u8>, at: int, line: Line)
    requires
        stands_at(data, at, line.bytes()),
    ensures
        record_at(data, at) == says(line),
{
    lemma_number_sizes();
    let b4 = i32_bytes(line.key.level);
    let b8 = b4 + i32_bytes(line.key.x);
    let b12 = b8 + i32_bytes(line.key.y);
    let b16 = b12 + i32_bytes(line.key.z);
    let b24 = b16 + u64_bytes(line.offset);
    let b28 = b24 + i32_bytes(line.size);
    lemma_stands_split(data, at, b28, i32_bytes(line.count));
    lemma_stands_split(data, at, b24, i32_bytes(line.size));
    lemma_stands_split(data, at, b16, u64_bytes(line.offset));
    lemma_stands_split(data, at, b12, i32_bytes(line.key.z));
    lemma_stands_split(data, at, b8, i32_bytes(line.key.y));
    lemma_stands_split(data, at, b4, i32_bytes(line.key.x));
    law_i32_reads_back(data, at, line.key.level);
    law_i32_reads_back(data, at + 4, line.key.x);
    law_i32_reads_back(data, at + 8, line.key.y);
    law_i32_reads_back(data, at + 12, line.key.z);
    law_u64_reads_back(data, at + 16, line.offset);
    law_i32_reads_back(data, at + 24, line.size);
    law_i32_reads_back(data, at + 28, line.count);
}

/// The entries of a page.
proof fn lemma_page(data: Seq<u8>, lines: Seq<Line>)
    requires
        is_page(data, lines),
    ensures
        page_records(data) == lines.map_values(|l: Line| says(l)),
{
    assert forall|i: int| 0 <= i < lines.len() implies #[trigger] record_at(data, 32 * i) == says(
        lines[i],
    ) by {
        lemma_line(data, 32 * i, lines[i]);
    }
    assert(page_records(data) =~= lines.map_values(|l: Line| says(l)));
}

/// What entering entries comes to.
proof fn lemma_taken_in(
    nodes: Map<VoxelKey, HierarchyEntry>,
    pending: Seq<PendingPage>,
    lines: Seq<Line>,
)
    ensures
        ({
            let records = lines.map_values(|l: Line| says(l));
            taken_in(nodes, pending, lines, entered(nodes, records), pending + pointed_to(records))
        }),
    decreases lines.len(),
{
    reveal(Seq::filter);
    let points = |l: Line| l.count == -1;
    let page = |l: Line| l.page();
    let records = lines.map_values(|l: Line| says(l));
    if lines.len() == 0 {
        assert(pointed_to(records) =~= lines.filter(points).map_values(page));
    } else {
        let rest = lines.drop_last();
        let last = lines.len() - 1;
        let some = rest.map_values(|l: Line| says(l));
        lemma_taken_in(nodes, pending, rest);
        assert(records.drop_last() =~= some);
        assert(pending + pointed_to(some) == pending + rest.filter(points).map_values(page));
        assert(pointed_to(some) =~= (pending + pointed_to(some)).skip(pending.len() as int));
        assert(rest.filter(points).map_values(page) =~= (pending + rest.filter(points).map_values(
            page,
        )).skip(pending.len() as int));
        assert(pointed_to(records) =~= lines.filter(points).map_values(page));
        let after = entered(nodes, records);
        assert forall|key: VoxelKey, i: int|
            0 <= i < lines.len() && #[trigger] lines[i].is_of(key) && (forall|j: int|
                i < j < lines.len() ==> !(#[trigger] lines[j]).is_of(key)) implies after.contains_key(
            key,
        ) && after[key] == lines[i].node() by {
            if i < last {
                assert(!lines[last].is_of(key));
                assert(rest[i].is_of(key));
                assert forall|j: int| i < j < rest.len() implies !(#[trigger] rest[j]).is_of(
                    key,
                ) by {
                    assert(rest[j] == lines[j]);
                }
            }
        }
        assert forall|key: VoxelKey|
            #![trigger after.contains_key(key)]
            forall|j: int|
                0 <= j < lines.len() ==> !(#[trigger] lines[j]).is_of(key) implies (
        after.contains_key(key) <==> nodes.contains_key(key)) && (after.contains_key(key)
            ==> after[key] == nodes[key]) by {
            assert(!lines[last].is_of(key));
            assert forall|j: int| 0 <= j < rest.len() implies !(#[trigger] rest[j]).is_of(key) by {
                assert(rest[j] == lines[j]);
            }
            assert(entered(nodes, some).contains_key(key) == nodes.contains_key(key));
        }
    }
}

/// A cache takes in the entries of a page, one after the other.
pub proof fn law_page_is_taken_in(lines: Seq<Line>)
    ensures
        forall|cache: &mut HierarchyCache, data: &[u8], r: Result<(), CopcError>| #[trigger]
            call_ensures(HierarchyCache::parse_page, (cache, data), r) && is_page(data@, lines) ==> {
                &&& r is Ok
                &&& (*final(cache)).has_root() == (*cache).has_root()
                &&& taken_in(
                    (*cache).nodes(),
                    (*cache).pending(),
                    lines,
                    (*final(cache)).nodes(),
                    (*final(cache)).pending(),
                )
            },
{
    assert forall|cache: &mut HierarchyCache, data: &[u8], r: Result<(), CopcError>| #[trigger]
        call_ensures(HierarchyCache::parse_page, (cache, data), r) && is_page(
            data@,
            lines,
        ) implies {
        &&& r is Ok
        &&& (*final(cache)).has_root() == (*cache).has_root()
        &&& taken_in(
            (*cache).nodes(),
            (*cache).pending(),
            lines,
            (*final(cache)).nodes(),
            (*final(cache)).pending(),
        )
    } by {
        lemma_page(data@, lines);
        lemma_taken_in((*cache).nodes(), (*cache).pending(), lines);
    }
}

/// A cache takes in the root page once: a cache without it takes in its entries and then has it, a
/// cache that has it stays as it is.
pub proof fn law_root_page_is_taken_in_once(lines: Seq<Line>)
    ensures
        forall|cache: &mut HierarchyCache, data: &[u8], r: Result<(), CopcError>| #[trigger]
            call_ensures(HierarchyCache::load_root, (cache, data), r) && is_page(data@, lines) ==> {
                &&& r is Ok
                &&& (*final(cache)).has_root()
                &&& taken_in(
                    (*cache).nodes(),
                    (*cache).pending(),
                    if (*cache).has_root() {
                        Seq::empty()
                    } else {
                        lines
                    },
                    (*final(cache)).nodes(),
                    (*final(cache)).pending(),
                )
            },
{
    assert forall|cache: &mut HierarchyCache, data: &[u8], r: Result<(), CopcError>| #[trigger]
        call_ensures(HierarchyCache::load_root, (cache, data), r) && is_page(
            data@,
            lines,
        ) implies {
        &&& r is Ok
        &&& (*final(cache)).has_root()
        &&& taken_in(
            (*cache).nodes(),
            (*cache).pending(),
            if (*cache).has_root() {
                Seq::empty()
            } else {
                lines
            },
            (*final(cache)).nodes(),
            (*final(cache)).pending(),
        )
    } by {
        lemma_page(data@, lines);
        lemma_taken_in((*cache).nodes(), (*cache).pending(), lines);
        lemma_taken_in((*cache).nodes(), (*cache).pending(), Seq::empty());
        assert(Seq::<Line>::empty().map_values(|l: Line| says(l)) =~= Seq::<Record>::empty());
    }
}

/// A cache asks for the root page where the COPC info says that it is, until it has it.
pub proof fn law_root_page_is_asked_for_once(
    cache: HierarchyCache,
    info: CopcInfo,
    r: Option<(u64, u64)>,
)
    requires
        call_ensures(HierarchyCache::root_request, (&cache, &info), r),
    ensures
        r is None <==> cache.has_root(),
        r matches Some((offset, size)) ==> offset == info.root_hier_offset && size
            == info.root_hier_size,
{
}

/// The entries of several pages.
proof fn lemma_loaded(pages: Seq<Vec<u8>>, lists: Seq<Seq<Line>>, n: int)
    requires
        0 <= n <= pages.len(),
        lists.len() == pages.len(),
        forall|i: int| 0 <= i < n ==> is_page((#[trigger] pages[i])@, lists[i]),
    ensures
        loaded_records(pages, n) == lists.take(n).flatten().map_values(|l: Line| says(l)),
    decreases n,
{
    let say = |l: Line| says(l);
    lists.take(n).lemma_flatten_and_flatten_alt_are_equivalent();
    if n == 0 {
        assert(loaded_records(pages, 0) =~= lists.take(0).flatten().map_values(say));
    } else {
        lemma_loaded(pages, lists, n - 1);
        lists.take(n - 1).lemma_flatten_and_flatten_alt_are_equivalent();
        assert(lists.take(n).drop_last() =~= lists.take(n - 1));
        assert(is_page(pages[n - 1]@, lists[n - 1]));
        lemma_page(pages[n - 1]@, lists[n - 1]);
        assert(lists.take(n).flatten() == lists.take(n - 1).flatten() + lists[n - 1]);
        assert(loaded_records(pages, n) =~= lists.take(n).flatten().map_values(say));
    }
}

/// A cache takes in the entries of pages, page by page: of as many pages as there are ranges that
/// were asked for and pages that were read.
pub proof fn law_pages_are_taken_in(lists: Seq<Seq<Line>>, n: int)
    ensures
        forall|
            cache: &mut HierarchyCache,
            ranges: &[(u64, u64)],
            pages: &[Vec<u8>],
            r: Result<(), CopcError>,
        | #[trigger]
            call_ensures(HierarchyCache::load_pages, (cache, ranges, pages), r) && are_pages(
                pages@,
                lists,
            ) && 0 <= n <= ranges@.len() && n <= pages@.len() && (n == ranges@.len() || n
                == pages@.len()) ==> {
                &&& r is Ok
                &&& (*final(cache)).has_root() == (*cache).has_root()
                &&& taken_in(
                    (*cache).nodes(),
                    (*cache).pending(),
                    lists.take(n).flatten(),
                    (*final(cache)).nodes(),
                    (*final(cache)).pending(),
                )
            },
{
    assert forall|
        cache: &mut HierarchyCache,
        ranges: &[(u64, u64)],
        pages: &[Vec<u8>],
        r: Result<(), CopcError>,
    | #[trigger]
        call_ensures(HierarchyCache::load_pages, (cache, ranges, pages), r) && are_pages(
            pages@,
            lists,
        ) && 0 <= n <= ranges@.len() && n <= pages@.len() && (n == ranges@.len() || n
            == pages@.len()) implies {
        &&& r is Ok
        &&& (*final(cache)).has_root() == (*cache).has_root()
        &&& taken_in(
            (*cache).nodes(),
            (*cache).pending(),
            lists.take(n).flatten(),
            (*final(cache)).nodes(),
            (*final(cache)).pending(),
        )
    } by {
        lemma_loaded(pages@, lists, n);
        lemma_taken_in((*cache).nodes(), (*cache).pending(), lists.take(n).flatten());
    }
}

/// Whether the pages consist of these entries.
pub open spec fn are_pages(pages: Seq<Vec<u8>>, lists: Seq<Seq<Line>>) -> bool {
    &&& lists.len() == pages.len()
    &&& forall|i: int| 0 <= i < pages.len() ==> is_page((#[trigger] pages[i])@, lists[i])
}

/// All pending pages are taken in order, each by its offset and size, and none is left; nothing
/// else changes.
pub proof fn law_all_pages_are_taken()
    ensures
        forall|cache: &mut HierarchyCache, r: Vec<(u64, u64)>| #[trigger]
            call_ensures(HierarchyCache::take_pending_pages, (cache,), r) ==> {
                &&& r@ == (*cache).pending().map_values(|p: PendingPage| (p.offset, p.size))
                &&& (*final(cache)).pending().len() == 0
                &&& (*final(cache)).nodes() == (*cache).nodes()
                &&& (*final(cache)).has_root() == (*cache).has_root()
            },
{
}

/// What a mask marks is what satisfies a predicate, where the mask marks by it.
proof fn lemma_marked(pages: Seq<PendingPage>, mask: Seq<bool>, keep: spec_fn(PendingPage) -> bool)
    requires
        mask.len() == pages.len(),
        forall|i: int| 0 <= i < pages.len() ==> #[trigger] mask[i] == keep(pages[i]),
    ensures
        marked(pages, mask, true) == pages.filter(keep),
        marked(pages, mask, false) == pages.filter(|p: PendingPage| !keep(p)),
    decreases pages.len(),
{
    reveal(Seq::filter);
    if pages.len() > 0 {
        let (rest, some) = (pages.drop_last(), mask.drop_last());
        assert forall|i: int| 0 <= i < rest.len() implies #[trigger] some[i] == keep(rest[i]) by {
            assert(some[i] == mask[i]);
        }
        lemma_marked(rest, some, keep);
        assert(mask[pages.len() - 1] == keep(pages.last()));
    }
}

/// Whether `node_bounds` gives each node the box that `boxes` says.
pub open spec fn gives<F: Fn(VoxelKey) -> Aabb>(
    node_bounds: F,
    boxes: spec_fn(VoxelKey) -> Aabb,
) -> bool {
    forall|key: VoxelKey, b: Aabb| #[trigger]
        call_ensures(node_bounds, (key,), b) ==> b == boxes(key)
}

/// The pages that are taken for a region are those whose node's box overlaps it, in order, each by
/// its offset and size. The others stay pending, and nothing else changes.
pub proof fn law_pages_are_taken_by_their_boxes<F: Fn(VoxelKey) -> Aabb>(
    boxes: spec_fn(VoxelKey) -> Aabb,
)
    ensures
        forall|cache: &mut HierarchyCache, bounds: &Aabb, node_bounds: F, r: Vec<(u64, u64)>|
            #[trigger]
            call_ensures(
                HierarchyCache::take_pages_for_bounds::<F>,
                (cache, bounds, node_bounds),
                r,
            ) && gives(node_bounds, boxes) ==> {
                &&& r@ == (*cache).pending().filter(
                    |p: PendingPage| overlap(boxes(p.key), *bounds),
                ).map_values(|p: PendingPage| (p.offset, p.size))
                &&& (*final(cache)).pending() == (*cache).pending().filter(
                    |p: PendingPage| !overlap(boxes(p.key), *bounds),
                )
                &&& (*final(cache)).nodes() == (*cache).nodes()
                &&& (*final(cache)).has_root() == (*cache).has_root()
            },
{
    assert forall|cache: &mut HierarchyCache, bounds: &Aabb, node_bounds: F, r: Vec<(u64, u64)>|
        #[trigger]
        call_ensures(
            HierarchyCache::take_pages_for_bounds::<F>,
            (cache, bounds, node_bounds),
            r,
        ) && gives(node_bounds, boxes) implies {
        &&& r@ == (*cache).pending().filter(
            |p: PendingPage| overlap(boxes(p.key), *bounds),
        ).map_values(|p: PendingPage| (p.offset, p.size))
        &&& (*final(cache)).pending() == (*cache).pending().filter(
            |p: PendingPage| !overlap(boxes(p.key), *bounds),
        )
        &&& (*final(cache)).nodes() == (*cache).nodes()
        &&& (*final(cache)).has_root() == (*cache).has_root()
    } by {
        let pages = (*cache).pending();
        let keep = |p: PendingPage| overlap(boxes(p.key), *bounds);
        let mask = choose|mask: Seq<bool>| #[trigger]
            marks_region(mask, pages, *bounds, node_bounds, None) && r@ == page_ranges(
                marked(pages, mask, true),
            ) && (*final(cache)).pending() == marked(pages, mask, false);
        assert forall|i: int| 0 <= i < pages.len() implies #[trigger] mask[i] == keep(pages[i]) by {
            assert(crate::hierarchy::marks_page(mask[i], pages[i], *bounds, node_bounds, None));
        }
        lemma_marked(pages, mask, keep);
        assert((|p: PendingPage| !keep(p)) =~= (|p: PendingPage| !overlap(boxes(p.key), *bounds)));
    }
}

/// The pages that are taken for a region down to a level are those whose node is not deeper and
/// whose node's box overlaps it, in order, each by its offset and size. The others stay pending,
/// and nothing else changes.
pub proof fn law_pages_are_taken_to_a_level<F: Fn(VoxelKey) -> Aabb>(
    boxes: spec_fn(VoxelKey) -> Aabb,
)
    ensures
        forall|
            cache: &mut HierarchyCache,
            bounds: &Aabb,
            node_bounds: F,
            limit: i32,
            r: Vec<(u64, u64)>,
        | #[trigger]
            call_ensures(
                HierarchyCache::take_pages_for_bounds_to_level::<F>,
                (cache, bounds, node_bounds, limit),
                r,
            ) && gives(node_bounds, boxes) ==> {
                &&& r@ == (*cache).pending().filter(
                    |p: PendingPage| p.key.level <= limit && overlap(boxes(p.key), *bounds),
                ).map_values(|p: PendingPage| (p.offset, p.size))
                &&& (*final(cache)).pending() == (*cache).pending().filter(
                    |p: PendingPage| !(p.key.level <= limit && overlap(boxes(p.key), *bounds)),
                )
                &&& (*final(cache)).nodes() == (*cache).nodes()
                &&& (*final(cache)).has_root() == (*cache).has_root()
            },
{
    assert forall|
        cache: &mut HierarchyCache,
        bounds: &Aabb,
        node_bounds: F,
        limit: i32,
        r: Vec<(u64, u64)>,
    | #[trigger]
        call_ensures(
            HierarchyCache::take_pages_for_bounds_to_level::<F>,
            (cache, bounds, node_bounds, limit),
            r,
        ) && gives(node_bounds, boxes) implies {
        &&& r@ == (*cache).pending().filter(
            |p: PendingPage| p.key.level <= limit && overlap(boxes(p.key), *bounds),
        ).map_values(|p: PendingPage| (p.offset, p.size))
        &&& (*final(cache)).pending() == (*cache).pending().filter(
            |p: PendingPage| !(p.key.level <= limit && overlap(boxes(p.key), *bounds)),
        )
        &&& (*final(cache)).nodes() == (*cache).nodes()
        &&& (*final(cache)).has_root() == (*cache).has_root()
    } by {
        let pages = (*cache).pending();
        let keep = |p: PendingPage| p.key.level <= limit && overlap(boxes(p.key), *bounds);
        let mask = choose|mask: Seq<bool>| #[trigger]
            marks_region(mask, pages, *bounds, node_bounds, Some(limit)) && r@ == page_ranges(
                marked(pages, mask, true),
            ) && (*final(cache)).pending() == marked(pages, mask, false);
        assert forall|i: int| 0 <= i < pages.len() implies #[trigger] mask[i] == keep(pages[i]) by {
            assert(crate::hierarchy::marks_page(
                mask[i],
                pages[i],
                *bounds,
                node_bounds,
                Some(limit),
            ));
        }
        lemma_marked(pages, mask, keep);
        assert((|p: PendingPage| !keep(p)) =~= (|p: PendingPage|
            !(p.key.level <= limit && overlap(boxes(p.key), *bounds))));
    }
}

/// A new cache has no nodes, nothing pending, and not the root page.
pub proof fn law_new_cache_is_empty(cache: HierarchyCache)
    requires
        call_ensures(HierarchyCache::new, (), cache) || call_ensures(
            HierarchyCache::default,
            (),
            cache,
        ),
    ensures
        forall|key: VoxelKey| !(#[trigger] cache.nodes().contains_key(key)),
        cache.pending().len() == 0,
        !cache.has_root(),
{
}

/// A cache tells what it knows: the entry of each node, how many nodes there are, whether pages are
/// pending, and of which nodes.
pub proof fn law_cache_tells_what_it_knows(
    cache: HierarchyCache,
    key: VoxelKey,
    entry: Option<&HierarchyEntry>,
    count: usize,
    empty: bool,
    some_pending: bool,
    keys: Vec<VoxelKey>,
)
    requires
        call_ensures(HierarchyCache::get, (&cache, &key), entry),
        call_ensures(HierarchyCache::len, (&cache,), count),
        call_ensures(HierarchyCache::is_empty, (&cache,), empty),
        call_ensures(HierarchyCache::has_pending_pages, (&cache,), some_pending),
        call_ensures(HierarchyCache::pending_keys, (&cache,), keys),
    ensures
        entry is Some <==> cache.nodes().contains_key(key),
        entry matches Some(e) ==> *e == cache.nodes()[key] && e.key == key,
        count == cache.nodes().dom().len(),
        empty <==> forall|k: VoxelKey| !(#[trigger] cache.nodes().contains_key(k)),
        some_pending <==> cache.pending().len() > 0,
        keys@.len() == cache.pending().len(),
        forall|i: int| 0 <= i < keys@.len() ==> #[trigger] keys@[i] == cache.pending()[i].key,
{
    if forall|k: VoxelKey| !(#[trigger] cache.nodes().contains_key(k)) {
        assert(cache.nodes() =~= Map::<VoxelKey, HierarchyEntry>::empty());
    }
}

/// The entries of a cache are listed each once, under their nodes.
pub proof fn law_entries_are_listed_once(
    cache: HierarchyCache,
    pairs: Vec<(&VoxelKey, &HierarchyEntry)>,
)
    requires
        call_ensures(HierarchyCache::iter, (&cache,), pairs),
    ensures
        forall|i: int|
            0 <= i < pairs@.len() ==> cache.nodes().contains_key(*(#[trigger] pairs@[i]).0)
                && *pairs@[i].1 == cache.nodes()[*pairs@[i].0] && pairs@[i].1.key == *pairs@[i].0,
        forall|i: int, j: int|
            0 <= i < j < pairs@.len() ==> *(#[trigger] pairs@[i]).0 != *(#[trigger] pairs@[j]).0,
        forall|key: VoxelKey| #[trigger]
            cache.nodes().contains_key(key) ==> exists|i: int|
                0 <= i < pairs@.len() && *(#[trigger] pairs@[i]).0 == key,
{
}

} // verus!
