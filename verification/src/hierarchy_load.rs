//! What loading the pages of the hierarchy comes to, page by page and as a whole.
//!
//! The hierarchy stands in the file as a tree of pages. A [`HierarchyCache`] knows the nodes of the
//! pages that were loaded, and the pages that those point to. Loading goes on in rounds: take the
//! pending pages that a region needs, or all of them, read them from the file, take in what was
//! read; until none is needed.

use crate::hierarchy::{
    entered, law_mask_parts, loaded_records, marked, marks_page, marks_region, page_ranges,
    page_records, pointed_to, within_level, HierarchyCache, HierarchyEntry, PendingPage, Record,
};
use crate::types::{law_enclosing_box_meets, region_test, Aabb, VoxelKey};
use vstd::prelude::*;

verus! {

/// The bytes of a page in a file.
pub open spec fn page_in(file: Seq<u8>, page: PendingPage) -> Seq<u8> {
    file.subrange(page.offset as int, page.offset + page.size)
}

/// Whether this entry stands in the page, or in a page that can be reached from it by following at
/// most `depth` pointers.
pub open spec fn found_under(
    file: Seq<u8>,
    page: PendingPage,
    depth: nat,
    entry: HierarchyEntry,
) -> bool
    decreases depth,
{
    exists|i: int|
        {
            &&& 0 <= i < page_records(page_in(file, page)).len()
            &&& match #[trigger] page_records(page_in(file, page))[i] {
                Record::Node(e) => e == entry,
                Record::Page(next) => depth > 0 && found_under(
                    file,
                    next,
                    (depth - 1) as nat,
                    entry,
                ),
                Record::Invalid => false,
            }
        }
}

/// Whether this entry is known, or can be found from one of the pages.
pub open spec fn covered(
    file: Seq<u8>,
    nodes: Map<VoxelKey, HierarchyEntry>,
    pages: Seq<PendingPage>,
    entry: HierarchyEntry,
) -> bool {
    ||| nodes.contains_key(entry.key) && nodes[entry.key] == entry
    ||| exists|i: int, depth: nat|
        0 <= i < pages.len() && #[trigger] found_under(file, pages[i], depth, entry)
}

/// Whether the node has no other entry.
pub open spec fn agree(records: Seq<Record>, entry: HierarchyEntry) -> bool {
    forall|i: int|
        0 <= i < records.len() && (#[trigger] records[i]) is Node && records[i]->Node_0.key
            == entry.key ==> records[i]->Node_0 == entry
}

/// An entry that is known, or is among `records`, is known after they are entered.
proof fn lemma_entered_keeps(
    nodes: Map<VoxelKey, HierarchyEntry>,
    records: Seq<Record>,
    entry: HierarchyEntry,
)
    requires
        agree(records, entry),
        (nodes.contains_key(entry.key) && nodes[entry.key] == entry) || records.contains(
            Record::Node(entry),
        ),
    ensures
        entered(nodes, records).contains_key(entry.key),
        entered(nodes, records)[entry.key] == entry,
    decreases records.len(),
{
    if records.len() > 0 {
        let rest = records.drop_last();
        let last = records.last();
        assert(records[records.len() - 1] == last);
        if !(last is Node && last->Node_0.key == entry.key) {
            assert(agree(rest, entry)) by {
                assert forall|i: int|
                    0 <= i < rest.len() && (#[trigger] rest[i]) is Node && rest[i]->Node_0.key
                        == entry.key implies rest[i]->Node_0 == entry by {
                    assert(records[i] == rest[i]);
                }
            }
            if records.contains(Record::Node(entry)) {
                let i = choose|i: int|
                    0 <= i < records.len() && records[i] == Record::Node(entry);
                assert(rest[i] == records[i]);
                assert(rest.contains(Record::Node(entry)));
            }
            lemma_entered_keeps(nodes, rest, entry);
        }
    }
}

/// A page that an entry points to is among those that the entries point to.
proof fn lemma_pointer_kept(records: Seq<Record>, i: int)
    requires
        0 <= i < records.len(),
        records[i] is Page,
    ensures
        pointed_to(records).contains(records[i]->Page_0),
    decreases records.len(),
{
    let page = records[i]->Page_0;
    let rest = pointed_to(records.drop_last());
    if i == records.len() - 1 {
        assert(pointed_to(records)[rest.len() as int] == page);
    } else {
        lemma_pointer_kept(records.drop_last(), i);
        let k = choose|k: int| 0 <= k < rest.len() && rest[k] == page;
        assert(pointed_to(records)[k] == page);
    }
}

/// The entries of these pages of a file, one page after the other.
pub open spec fn records_in(file: Seq<u8>, pages: Seq<PendingPage>) -> Seq<Record>
    decreases pages.len(),
{
    if pages.len() == 0 {
        Seq::empty()
    } else {
        records_in(file, pages.drop_last()) + page_records(page_in(file, pages.last()))
    }
}

/// Every entry of a page is among those of all pages.
proof fn lemma_records_in(file: Seq<u8>, pages: Seq<PendingPage>, j: int, i: int)
    requires
        0 <= j < pages.len(),
        0 <= i < page_records(page_in(file, pages[j])).len(),
    ensures
        records_in(file, pages).contains(page_records(page_in(file, pages[j]))[i]),
    decreases pages.len(),
{
    let record = page_records(page_in(file, pages[j]))[i];
    let rest = records_in(file, pages.drop_last());
    if j == pages.len() - 1 {
        assert(records_in(file, pages)[rest.len() + i] == record);
    } else {
        lemma_records_in(file, pages.drop_last(), j, i);
        let k = choose|k: int| 0 <= k < rest.len() && rest[k] == record;
        assert(records_in(file, pages)[k] == record);
    }
}

/// Every entry of the pages is one of a page.
proof fn lemma_record_has_page(file: Seq<u8>, pages: Seq<PendingPage>, k: int)
    requires
        0 <= k < records_in(file, pages).len(),
    ensures
        exists|j: int|
            0 <= j < pages.len() && page_records(page_in(file, #[trigger] pages[j])).contains(
                records_in(file, pages)[k],
            ),
    decreases pages.len(),
{
    let rest = records_in(file, pages.drop_last());
    let record = records_in(file, pages)[k];
    if k < rest.len() {
        lemma_record_has_page(file, pages.drop_last(), k);
        let j = choose|j: int|
            0 <= j < pages.drop_last().len() && page_records(
                page_in(file, #[trigger] pages.drop_last()[j]),
            ).contains(rest[k]);
        assert(pages[j] == pages.drop_last()[j]);
    } else {
        let last = page_records(page_in(file, pages.last()));
        assert(last[k - rest.len()] == record);
        assert(pages[pages.len() - 1] == pages.last());
    }
}

/// What is loaded of pages that were read from a file are the entries of those pages.
proof fn lemma_loaded_is_in_file(file: Seq<u8>, taken: Seq<PendingPage>, pages: Seq<Vec<u8>>)
    requires
        pages.len() == taken.len(),
        forall|j: int| 0 <= j < pages.len() ==> (#[trigger] pages[j])@ == page_in(file, taken[j]),
    ensures
        loaded_records(pages, pages.len() as int) == records_in(file, taken),
{
    lemma_first_loaded(file, taken, pages, pages.len() as int);
    assert(taken.take(taken.len() as int) =~= taken);
}

/// The same of the first `n` pages.
proof fn lemma_first_loaded(
    file: Seq<u8>,
    taken: Seq<PendingPage>,
    pages: Seq<Vec<u8>>,
    n: int,
)
    requires
        0 <= n <= pages.len() == taken.len(),
        forall|j: int| 0 <= j < pages.len() ==> (#[trigger] pages[j])@ == page_in(file, taken[j]),
    ensures
        loaded_records(pages, n) == records_in(file, taken.take(n)),
    decreases n,
{
    if n > 0 {
        lemma_first_loaded(file, taken, pages, n - 1);
        assert(taken.take(n).drop_last() =~= taken.take(n - 1));
        assert(pages[n - 1]@ == page_in(file, taken.take(n).last()));
    }
}

/// Taking in the entries of pages loses no node.
proof fn lemma_taking_in_loses_nothing(
    file: Seq<u8>,
    nodes: Map<VoxelKey, HierarchyEntry>,
    rest: Seq<PendingPage>,
    taken: Seq<PendingPage>,
    entry: HierarchyEntry,
)
    requires
        covered(file, nodes, rest + taken, entry),
        agree(records_in(file, taken), entry),
    ensures
        covered(
            file,
            entered(nodes, records_in(file, taken)),
            rest + pointed_to(records_in(file, taken)),
            entry,
        ),
{
    let records = records_in(file, taken);
    let after = rest + pointed_to(records);
    if nodes.contains_key(entry.key) && nodes[entry.key] == entry {
        lemma_entered_keeps(nodes, records, entry);
    } else {
        let known = rest + taken;
        let (i, depth) = choose|i: int, depth: nat|
            0 <= i < known.len() && #[trigger] found_under(file, known[i], depth, entry);
        if i < rest.len() {
            assert(after[i] == known[i]);
        } else {
            let j = i - rest.len();
            assert(known[i] == taken[j]);
            let page = page_records(page_in(file, taken[j]));
            let r = choose|r: int|
                {
                    &&& 0 <= r < page.len()
                    &&& match #[trigger] page[r] {
                        Record::Node(e) => e == entry,
                        Record::Page(next) => depth > 0 && found_under(
                            file,
                            next,
                            (depth - 1) as nat,
                            entry,
                        ),
                        Record::Invalid => false,
                    }
                };
            lemma_records_in(file, taken, j, r);
            match page[r] {
                Record::Node(e) => {
                    lemma_entered_keeps(nodes, records, entry);
                },
                Record::Page(next) => {
                    let n = choose|n: int| 0 <= n < records.len() && records[n] == page[r];
                    lemma_pointer_kept(records, n);
                    let q = pointed_to(records);
                    let k = choose|k: int| 0 <= k < q.len() && q[k] == next;
                    assert(after[rest.len() + k] == next);
                },
                Record::Invalid => {},
            }
        }
    }
}

/// Loading the pages that were taken loses no node: what could be found before, in the pages taken
/// too, is known or can be found after. No node may have entries that differ among the pages.
pub proof fn law_loading_loses_no_node(
    file: Seq<u8>,
    before: HierarchyCache,
    taken: Seq<PendingPage>,
    pages: Seq<Vec<u8>>,
    after: HierarchyCache,
    entry: HierarchyEntry,
)
    requires
        covered(file, before.nodes(), before.pending() + taken, entry),
        pages.len() == taken.len(),
        forall|j: int| 0 <= j < pages.len() ==> (#[trigger] pages[j])@ == page_in(file, taken[j]),
        agree(loaded_records(pages, pages.len() as int), entry),
        after.took_in(before, loaded_records(pages, pages.len() as int)),
    ensures
        covered(file, after.nodes(), after.pending(), entry),
{
    lemma_loaded_is_in_file(file, taken, pages);
    lemma_taking_in_loses_nothing(file, before.nodes(), before.pending(), taken, entry);
}

/// Taking the pages of a region loses no page: each is among those taken or still pending.
pub proof fn law_taking_loses_no_page(
    file: Seq<u8>,
    nodes: Map<VoxelKey, HierarchyEntry>,
    pending: Seq<PendingPage>,
    mask: Seq<bool>,
    entry: HierarchyEntry,
)
    requires
        covered(file, nodes, pending, entry),
        mask.len() == pending.len(),
    ensures
        covered(file, nodes, marked(pending, mask, false) + marked(pending, mask, true), entry),
{
    let (rest, taken) = (marked(pending, mask, false), marked(pending, mask, true));
    if !(nodes.contains_key(entry.key) && nodes[entry.key] == entry) {
        let (i, depth) = choose|i: int, depth: nat|
            0 <= i < pending.len() && #[trigger] found_under(file, pending[i], depth, entry);
        law_mask_parts(pending, mask, i);
        if mask[i] {
            let k = choose|k: int| 0 <= k < taken.len() && taken[k] == pending[i];
            assert((rest + taken)[rest.len() + k] == pending[i]);
        } else {
            let k = choose|k: int| 0 <= k < rest.len() && rest[k] == pending[i];
            assert((rest + taken)[k] == pending[i]);
        }
    }
}

/// Once no pending page is left to take for a region, every node whose box overlaps the region is
/// known, down to the level asked for: provided that the node of a page encloses with its box
/// those of the nodes in the page and below, and is not deeper than they are.
pub proof fn law_region_is_complete<F: Fn(VoxelKey) -> Aabb>(
    file: Seq<u8>,
    cache: HierarchyCache,
    bounds: Aabb,
    node_bounds: F,
    max_level: Option<i32>,
    mask: Seq<bool>,
    entry: HierarchyEntry,
    node_box: Aabb,
)
    requires
        covered(file, cache.nodes(), cache.pending(), entry),
        marks_region(mask, cache.pending(), bounds, node_bounds, max_level),
        page_ranges(marked(cache.pending(), mask, true)).len() == 0,
        node_box.meets(bounds),
        within_level(entry.key, max_level),
        forall|i: int, depth: nat, b: Aabb|
            0 <= i < cache.pending().len() && #[trigger] found_under(
                file,
                cache.pending()[i],
                depth,
                entry,
            ) && #[trigger] call_ensures(node_bounds, (cache.pending()[i].key,), b) ==> b.encloses(
                node_box,
            ),
        forall|i: int, depth: nat|
            0 <= i < cache.pending().len() && #[trigger] found_under(
                file,
                cache.pending()[i],
                depth,
                entry,
            ) ==> cache.pending()[i].key.level <= entry.key.level,
    ensures
        cache.nodes().contains_key(entry.key),
        cache.nodes()[entry.key] == entry,
{
    let pending = cache.pending();
    if !(cache.nodes().contains_key(entry.key) && cache.nodes()[entry.key] == entry) {
        let (i, depth) = choose|i: int, depth: nat|
            0 <= i < pending.len() && #[trigger] found_under(file, pending[i], depth, entry);
        assert(marks_page(mask[i], pending[i], bounds, node_bounds, max_level));
        let b = choose|b: Aabb| #[trigger]
            call_ensures(node_bounds, (pending[i].key,), b) && mask[i] == b.meets(bounds);
        law_enclosing_box_meets(b, node_box, bounds);
        law_mask_parts(pending, mask, i);
    }
}

/// Whether `after` is `before` with the pending pages that are marked read from the file and taken
/// in; there are some.
pub open spec fn reads_marked(
    file: Seq<u8>,
    before: HierarchyCache,
    mask: Seq<bool>,
    after: HierarchyCache,
) -> bool {
    let taken = marked(before.pending(), mask, true);
    &&& mask.len() == before.pending().len()
    &&& taken.len() > 0
    &&& after.nodes() == entered(before.nodes(), records_in(file, taken))
    &&& after.pending() == marked(before.pending(), mask, false) + pointed_to(
        records_in(file, taken),
    )
}

/// Whether the cache after this one is it after another round.
pub open spec fn reads_on(
    file: Seq<u8>,
    caches: Seq<HierarchyCache>,
    masks: Seq<Seq<bool>>,
    i: int,
) -> bool {
    reads_marked(file, caches[i], masks[i], caches[i + 1])
}

/// Whether the cache after this one is it after another round, in which the pages are marked that a
/// region needs, down to a level if one is given.
pub open spec fn goes_on<F: Fn(VoxelKey) -> Aabb>(
    file: Seq<u8>,
    caches: Seq<HierarchyCache>,
    masks: Seq<Seq<bool>>,
    bounds: Aabb,
    node_bounds: F,
    max_level: Option<i32>,
    i: int,
) -> bool {
    &&& marks_region(masks[i], caches[i].pending(), bounds, node_bounds, max_level)
    &&& reads_on(file, caches, masks, i)
}

/// Whether the caches are those of a load for a region, down to a level if one is given, that goes
/// on, round by round, until the region needs no pending page: from the cache before it to the
/// cache after it. The masks mark the pages that are read in each round, none at the end.
pub open spec fn is_load<F: Fn(VoxelKey) -> Aabb>(
    file: Seq<u8>,
    caches: Seq<HierarchyCache>,
    masks: Seq<Seq<bool>>,
    bounds: Aabb,
    node_bounds: F,
    max_level: Option<i32>,
) -> bool {
    &&& caches.len() >= 1
    &&& masks.len() == caches.len()
    &&& forall|i: int|
        0 <= i < caches.len() - 1 ==> #[trigger] goes_on(
            file,
            caches,
            masks,
            bounds,
            node_bounds,
            max_level,
            i,
        )
    &&& marks_region(masks.last(), caches.last().pending(), bounds, node_bounds, max_level)
    &&& marked(caches.last().pending(), masks.last(), true).len() == 0
}

/// Taking the pages that are marked, reading them from the file and taking in what was read, is
/// what a round does.
pub proof fn law_region_round(
    file: Seq<u8>,
    before: HierarchyCache,
    mask: Seq<bool>,
    between: HierarchyCache,
    after: HierarchyCache,
    pages: Seq<Vec<u8>>,
)
    requires
        mask.len() == before.pending().len(),
        ({
            let taken = marked(before.pending(), mask, true);
            &&& taken.len() > 0
            &&& pages.len() == taken.len()
            &&& forall|j: int|
                0 <= j < pages.len() ==> (#[trigger] pages[j])@ == page_in(file, taken[j])
        }),
        between.nodes() == before.nodes(),
        between.pending() == marked(before.pending(), mask, false),
        after.took_in(between, loaded_records(pages, pages.len() as int)),
    ensures
        reads_marked(file, before, mask, after),
{
    lemma_loaded_is_in_file(file, marked(before.pending(), mask, true), pages);
}

/// A region needs the same pages down to the greatest level as without a limit.
proof fn lemma_greatest_level<F: Fn(VoxelKey) -> Aabb>(
    mask: Seq<bool>,
    pages: Seq<PendingPage>,
    bounds: Aabb,
    node_bounds: F,
)
    ensures
        marks_region(mask, pages, bounds, node_bounds, Some(i32::MAX)) == marks_region(
            mask,
            pages,
            bounds,
            node_bounds,
            None,
        ),
{
    assert forall|i: int|
        0 <= i < pages.len() implies marks_page(
        #[trigger] mask[i],
        pages[i],
        bounds,
        node_bounds,
        Some(i32::MAX),
    ) == marks_page(mask[i], pages[i], bounds, node_bounds, None) by {
        assert(within_level(pages[i].key, Some(i32::MAX)));
    }
}

/// A load down to the greatest level is a load without a limit: it reads the same pages, round by
/// round, and comes to the same nodes and pending pages.
pub proof fn law_greatest_level_is_no_limit<F: Fn(VoxelKey) -> Aabb>(
    file: Seq<u8>,
    caches: Seq<HierarchyCache>,
    masks: Seq<Seq<bool>>,
    bounds: Aabb,
    node_bounds: F,
)
    ensures
        is_load(file, caches, masks, bounds, node_bounds, Some(i32::MAX)) <==> is_load(
            file,
            caches,
            masks,
            bounds,
            node_bounds,
            None,
        ),
{
    assert forall|i: int|
        goes_on(file, caches, masks, bounds, node_bounds, Some(i32::MAX), i) == goes_on(
            file,
            caches,
            masks,
            bounds,
            node_bounds,
            None,
            i,
        ) by {
        lemma_greatest_level(masks[i], caches[i].pending(), bounds, node_bounds);
    }
    lemma_greatest_level(masks.last(), caches.last().pending(), bounds, node_bounds);
    if is_load(file, caches, masks, bounds, node_bounds, None) {
        assert forall|i: int| 0 <= i < caches.len() - 1 implies #[trigger] goes_on(
            file,
            caches,
            masks,
            bounds,
            node_bounds,
            Some(i32::MAX),
            i,
        ) by {
            assert(goes_on(file, caches, masks, bounds, node_bounds, None, i));
        }
    }
    if is_load(file, caches, masks, bounds, node_bounds, Some(i32::MAX)) {
        assert forall|i: int| 0 <= i < caches.len() - 1 implies #[trigger] goes_on(
            file,
            caches,
            masks,
            bounds,
            node_bounds,
            None,
            i,
        ) by {
            assert(goes_on(file, caches, masks, bounds, node_bounds, Some(i32::MAX), i));
        }
    }
}

/// Every item that is marked has a mark.
proof fn lemma_marked_from<A>(items: Seq<A>, mask: Seq<bool>, want: bool, k: int)
    requires
        mask.len() == items.len(),
        0 <= k < marked(items, mask, want).len(),
    ensures
        exists|i: int|
            0 <= i < items.len() && #[trigger] items[i] == marked(items, mask, want)[k] && mask[i]
                == want,
    decreases items.len(),
{
    let (rest, rest_mask) = (items.drop_last(), mask.drop_last());
    let before = marked(rest, rest_mask, want);
    if k < before.len() {
        lemma_marked_from(rest, rest_mask, want, k);
        let i = choose|i: int|
            0 <= i < rest.len() && #[trigger] rest[i] == before[k] && rest_mask[i] == want;
        assert(items[i] == rest[i] && mask[i] == rest_mask[i]);
    } else {
        assert(items[items.len() - 1] == marked(items, mask, want)[k]);
    }
}

/// A load down to a level reads no page of a deeper node, and leaves no page pending that overlaps
/// the region but those of deeper nodes.
pub proof fn law_level_limits_reading<F: Fn(VoxelKey) -> Aabb>(
    file: Seq<u8>,
    caches: Seq<HierarchyCache>,
    masks: Seq<Seq<bool>>,
    bounds: Aabb,
    node_bounds: F,
    max_level: i32,
)
    requires
        is_load(file, caches, masks, bounds, node_bounds, Some(max_level)),
    ensures
        forall|n: int, k: int|
            0 <= n < caches.len() && 0 <= k < marked(caches[n].pending(), masks[n], true).len()
                ==> (#[trigger] marked(caches[n].pending(), masks[n], true)[k]).key.level
                <= max_level,
        forall|k: int|
            0 <= k < caches.last().pending().len() && (
            #[trigger] caches.last().pending()[k]).key.level <= max_level ==> region_test(
                &node_bounds,
                caches.last().pending()[k].key,
                bounds,
                false,
            ),
{
    let limit = Some(max_level);
    assert forall|n: int, k: int|
        0 <= n < caches.len() && 0 <= k < marked(
            caches[n].pending(),
            masks[n],
            true,
        ).len() implies (#[trigger] marked(caches[n].pending(), masks[n], true)[k]).key.level
        <= max_level by {
        let (pending, mask) = (caches[n].pending(), masks[n]);
        if n < caches.len() - 1 {
            assert(goes_on(file, caches, masks, bounds, node_bounds, limit, n));
        }
        lemma_marked_from(pending, mask, true, k);
        let i = choose|i: int|
            0 <= i < pending.len() && #[trigger] pending[i] == marked(pending, mask, true)[k]
                && mask[i];
        assert(marks_page(mask[i], pending[i], bounds, node_bounds, limit));
    }
    let (pending, mask) = (caches.last().pending(), masks.last());
    assert forall|k: int|
        0 <= k < pending.len() && (#[trigger] pending[k]).key.level
            <= max_level implies region_test(&node_bounds, pending[k].key, bounds, false) by {
        law_mask_parts(pending, mask, k);
        assert(marks_page(mask[k], pending[k], bounds, node_bounds, limit));
    }
}

/// Whether the page is reached from one of the pages by following `depth` pointers.
pub open spec fn reached(
    file: Seq<u8>,
    pages: Seq<PendingPage>,
    depth: nat,
    page: PendingPage,
) -> bool
    decreases depth,
{
    if depth == 0 {
        pages.contains(page)
    } else {
        exists|q: PendingPage|
            #[trigger] page_records(page_in(file, q)).contains(Record::Page(page)) && reached(
                file,
                pages,
                (depth - 1) as nat,
                q,
            )
    }
}

/// Whether the page is reached from one of the pages.
pub open spec fn is_reached(file: Seq<u8>, pages: Seq<PendingPage>, page: PendingPage) -> bool {
    exists|depth: nat| reached(file, pages, depth, page)
}

/// Whether the node of every page, of these and of all that they lead to, is not deeper than the
/// nodes in the page and below, and encloses them with its box.
pub open spec fn boxes_hold<F: Fn(VoxelKey) -> Aabb>(
    file: Seq<u8>,
    pages: Seq<PendingPage>,
    node_bounds: F,
) -> bool {
    forall|page: PendingPage, depth: nat, entry: HierarchyEntry| #[trigger]
        is_reached(file, pages, page) && #[trigger] found_under(file, page, depth, entry) ==> {
            &&& page.key.level <= entry.key.level
            &&& forall|b: Aabb, c: Aabb| #[trigger]
                call_ensures(node_bounds, (page.key,), b) && #[trigger] call_ensures(
                    node_bounds,
                    (entry.key,),
                    c,
                ) ==> b.encloses(c)
        }
}

/// Whether no node has entries that differ, among what is known and what can be found.
pub open spec fn unambiguous(
    file: Seq<u8>,
    nodes: Map<VoxelKey, HierarchyEntry>,
    pages: Seq<PendingPage>,
) -> bool {
    forall|a: HierarchyEntry, b: HierarchyEntry| #[trigger]
        covered(file, nodes, pages, a) && #[trigger] covered(file, nodes, pages, b) && a.key
            == b.key ==> a == b
}

/// What is known after entries were entered was known before, or is one of them.
proof fn lemma_entered_from(
    nodes: Map<VoxelKey, HierarchyEntry>,
    records: Seq<Record>,
    key: VoxelKey,
)
    requires
        entered(nodes, records).contains_key(key),
    ensures
        (nodes.contains_key(key) && nodes[key] == entered(nodes, records)[key])
            || records.contains(Record::Node(entered(nodes, records)[key])),
    decreases records.len(),
{
    if records.len() > 0 {
        let rest = records.drop_last();
        let last = records.last();
        assert(records[records.len() - 1] == last);
        if !(last is Node && last->Node_0.key == key) {
            lemma_entered_from(nodes, rest, key);
            let record = Record::Node(entered(nodes, records)[key]);
            if rest.contains(record) {
                let i = choose|i: int| 0 <= i < rest.len() && rest[i] == record;
                assert(records[i] == record);
            }
        }
    }
}

/// A page that the entries point to has an entry that points to it.
proof fn lemma_pointer_from(records: Seq<Record>, k: int)
    requires
        0 <= k < pointed_to(records).len(),
    ensures
        records.contains(Record::Page(pointed_to(records)[k])),
    decreases records.len(),
{
    let rest = records.drop_last();
    let record = Record::Page(pointed_to(records)[k]);
    if k < pointed_to(rest).len() {
        lemma_pointer_from(rest, k);
        let i = choose|i: int| 0 <= i < rest.len() && rest[i] == record;
        assert(records[i] == record);
    } else {
        assert(records[records.len() - 1] == record);
    }
}

/// An entry of a pending page that is read stands in a page that was pending.
proof fn lemma_record_was_pending(
    file: Seq<u8>,
    pending: Seq<PendingPage>,
    mask: Seq<bool>,
    record: Record,
)
    requires
        mask.len() == pending.len(),
        records_in(file, marked(pending, mask, true)).contains(record),
    ensures
        exists|i: int|
            0 <= i < pending.len() && page_records(page_in(file, #[trigger] pending[i])).contains(
                record,
            ),
{
    let taken = marked(pending, mask, true);
    let records = records_in(file, taken);
    let k = choose|k: int| 0 <= k < records.len() && records[k] == record;
    lemma_record_has_page(file, taken, k);
    let j = choose|j: int|
        0 <= j < taken.len() && page_records(page_in(file, #[trigger] taken[j])).contains(record);
    lemma_marked_from(pending, mask, true, j);
    let i = choose|i: int|
        0 <= i < pending.len() && #[trigger] pending[i] == taken[j] && mask[i] == true;
    assert(page_records(page_in(file, pending[i])).contains(record));
}

/// Taking in the entries of pages adds nothing that was not known and could not be found before.
proof fn lemma_taking_in_adds_nothing(
    file: Seq<u8>,
    nodes: Map<VoxelKey, HierarchyEntry>,
    rest: Seq<PendingPage>,
    taken: Seq<PendingPage>,
    entry: HierarchyEntry,
)
    requires
        covered(
            file,
            entered(nodes, records_in(file, taken)),
            rest + pointed_to(records_in(file, taken)),
            entry,
        ),
    ensures
        covered(file, nodes, rest + taken, entry),
{
    let records = records_in(file, taken);
    let after = entered(nodes, records);
    let pending = rest + pointed_to(records);
    let known = rest + taken;
    if after.contains_key(entry.key) && after[entry.key] == entry {
        lemma_entered_from(nodes, records, entry.key);
        if records.contains(Record::Node(entry)) {
            let j = lemma_record_stands(file, taken, Record::Node(entry));
            assert(known[rest.len() + j] == taken[j]);
            assert(found_under(file, known[rest.len() + j], 0, entry));
        }
    } else {
        let (i, depth) = choose|i: int, depth: nat|
            0 <= i < pending.len() && #[trigger] found_under(file, pending[i], depth, entry);
        if i < rest.len() {
            assert(known[i] == pending[i]);
        } else {
            lemma_pointer_from(records, i - rest.len());
            let j = lemma_record_stands(file, taken, Record::Page(pending[i]));
            assert(known[rest.len() + j] == taken[j]);
            assert(found_under(file, known[rest.len() + j], depth + 1, entry));
        }
    }
}

/// An entry of the pages stands in one of them.
proof fn lemma_record_stands(file: Seq<u8>, pages: Seq<PendingPage>, record: Record) -> (j: int)
    requires
        records_in(file, pages).contains(record),
    ensures
        0 <= j < pages.len(),
        exists|r: int|
            0 <= r < page_records(page_in(file, pages[j])).len() && #[trigger] page_records(
                page_in(file, pages[j]),
            )[r] == record,
{
    let records = records_in(file, pages);
    let k = choose|k: int| 0 <= k < records.len() && records[k] == record;
    lemma_record_has_page(file, pages, k);
    let j = choose|j: int|
        0 <= j < pages.len() && page_records(page_in(file, #[trigger] pages[j])).contains(record);
    let page = page_records(page_in(file, pages[j]));
    let r = choose|r: int| 0 <= r < page.len() && page[r] == record;
    assert(page[r] == record);
    j
}

/// A round adds nothing that was not known and could not be found before.
proof fn lemma_round_adds_nothing(
    file: Seq<u8>,
    before: HierarchyCache,
    mask: Seq<bool>,
    after: HierarchyCache,
    entry: HierarchyEntry,
)
    requires
        reads_marked(file, before, mask, after),
        covered(file, after.nodes(), after.pending(), entry),
    ensures
        covered(file, before.nodes(), before.pending(), entry),
{
    let pending = before.pending();
    let (rest, taken) = (marked(pending, mask, false), marked(pending, mask, true));
    lemma_taking_in_adds_nothing(file, before.nodes(), rest, taken, entry);
    if !(before.nodes().contains_key(entry.key) && before.nodes()[entry.key] == entry) {
        let known = rest + taken;
        let (i, depth) = choose|i: int, depth: nat|
            0 <= i < known.len() && #[trigger] found_under(file, known[i], depth, entry);
        let want = i >= rest.len();
        let n = if want {
            i - rest.len()
        } else {
            i
        };
        lemma_marked_from(pending, mask, want, n);
        let k = choose|k: int|
            0 <= k < pending.len() && #[trigger] pending[k] == marked(pending, mask, want)[n]
                && mask[k] == want;
        assert(found_under(file, pending[k], depth, entry));
    }
}

/// Where no node has entries that differ, those of the pages that are taken do not.
proof fn lemma_unambiguous_agrees(
    file: Seq<u8>,
    nodes: Map<VoxelKey, HierarchyEntry>,
    pages: Seq<PendingPage>,
    taken: Seq<PendingPage>,
    entry: HierarchyEntry,
)
    requires
        unambiguous(file, nodes, pages),
        covered(file, nodes, pages, entry),
        forall|k: int| 0 <= k < taken.len() ==> pages.contains(#[trigger] taken[k]),
    ensures
        agree(records_in(file, taken), entry),
{
    let records = records_in(file, taken);
    assert forall|i: int|
        0 <= i < records.len() && (#[trigger] records[i]) is Node && records[i]->Node_0.key
            == entry.key implies records[i]->Node_0 == entry by {
        let other = records[i]->Node_0;
        assert(records.contains(records[i]));
        let j = lemma_record_stands(file, taken, records[i]);
        assert(pages.contains(taken[j]));
        let k = choose|k: int| 0 <= k < pages.len() && pages[k] == taken[j];
        assert(found_under(file, pages[k], 0, other));
        assert(covered(file, nodes, pages, other));
    }
}

/// A round loses nothing that was known or could be found before.
proof fn lemma_round_loses_nothing(
    file: Seq<u8>,
    before: HierarchyCache,
    mask: Seq<bool>,
    after: HierarchyCache,
    entry: HierarchyEntry,
)
    requires
        reads_marked(file, before, mask, after),
        unambiguous(file, before.nodes(), before.pending()),
        covered(file, before.nodes(), before.pending(), entry),
    ensures
        covered(file, after.nodes(), after.pending(), entry),
{
    let pending = before.pending();
    let taken = marked(pending, mask, true);
    assert forall|k: int| 0 <= k < taken.len() implies pending.contains(#[trigger] taken[k]) by {
        lemma_marked_from(pending, mask, true, k);
        let i = choose|i: int|
            0 <= i < pending.len() && #[trigger] pending[i] == taken[k] && mask[i] == true;
        assert(pending.contains(pending[i]));
    }
    lemma_unambiguous_agrees(file, before.nodes(), pending, taken, entry);
    law_taking_loses_no_page(file, before.nodes(), pending, mask, entry);
    lemma_taking_in_loses_nothing(
        file,
        before.nodes(),
        marked(pending, mask, false),
        taken,
        entry,
    );
}

/// Every page that is pending after a round is reached from the first pages, where those before it
/// are.
proof fn lemma_round_reaches(
    file: Seq<u8>,
    first: Seq<PendingPage>,
    before: HierarchyCache,
    mask: Seq<bool>,
    after: HierarchyCache,
    i: int,
)
    requires
        reads_marked(file, before, mask, after),
        forall|k: int|
            0 <= k < before.pending().len() ==> is_reached(
                file,
                first,
                #[trigger] before.pending()[k],
            ),
        0 <= i < after.pending().len(),
    ensures
        is_reached(file, first, after.pending()[i]),
{
    let pending = before.pending();
    let rest = marked(pending, mask, false);
    let records = records_in(file, marked(pending, mask, true));
    let found = after.pending()[i];
    if i < rest.len() {
        lemma_marked_from(pending, mask, false, i);
        let k = choose|k: int|
            0 <= k < pending.len() && #[trigger] pending[k] == rest[i] && mask[k] == false;
        assert(is_reached(file, first, pending[k]));
    } else {
        lemma_pointer_from(records, i - rest.len());
        lemma_record_was_pending(file, pending, mask, Record::Page(found));
        let j = choose|j: int|
            0 <= j < pending.len() && page_records(page_in(file, #[trigger] pending[j])).contains(
                Record::Page(found),
            );
        assert(is_reached(file, first, pending[j]));
        let depth = choose|depth: nat| reached(file, first, depth, pending[j]);
        assert(page_records(page_in(file, pending[j])).contains(Record::Page(found)));
        assert(reached(file, first, depth + 1, found));
    }
}

/// What is known or can be found stays the same from round to round, and every pending page is
/// reached from the first ones.
proof fn lemma_rounds_keep(
    file: Seq<u8>,
    caches: Seq<HierarchyCache>,
    masks: Seq<Seq<bool>>,
    n: int,
)
    requires
        masks.len() == caches.len(),
        forall|i: int| 0 <= i < caches.len() - 1 ==> #[trigger] reads_on(file, caches, masks, i),
        unambiguous(file, caches[0].nodes(), caches[0].pending()),
        0 <= n < caches.len(),
    ensures
        forall|entry: HierarchyEntry|
            covered(file, caches[0].nodes(), caches[0].pending(), entry) <==> #[trigger] covered(
                file,
                caches[n].nodes(),
                caches[n].pending(),
                entry,
            ),
        forall|k: int|
            0 <= k < caches[n].pending().len() ==> is_reached(
                file,
                caches[0].pending(),
                #[trigger] caches[n].pending()[k],
            ),
    decreases n,
{
    let first = caches[0];
    let after = caches[n];
    if n == 0 {
        assert forall|k: int| 0 <= k < first.pending().len() implies is_reached(
            file,
            first.pending(),
            #[trigger] first.pending()[k],
        ) by {
            assert(first.pending().contains(first.pending()[k]));
            assert(reached(file, first.pending(), 0, first.pending()[k]));
        }
    } else {
        let before = caches[n - 1];
        let mask = masks[n - 1];
        lemma_rounds_keep(file, caches, masks, n - 1);
        assert(reads_on(file, caches, masks, n - 1));
        assert forall|entry: HierarchyEntry|
            covered(file, first.nodes(), first.pending(), entry) <==> #[trigger] covered(
                file,
                after.nodes(),
                after.pending(),
                entry,
            ) by {
            if covered(file, after.nodes(), after.pending(), entry) {
                lemma_round_adds_nothing(file, before, mask, after, entry);
            }
            if covered(file, first.nodes(), first.pending(), entry) {
                assert(covered(file, before.nodes(), before.pending(), entry));
                lemma_round_loses_nothing(file, before, mask, after, entry);
            }
        }
        assert forall|k: int| 0 <= k < after.pending().len() implies is_reached(
            file,
            first.pending(),
            #[trigger] after.pending()[k],
        ) by {
            lemma_round_reaches(file, first.pending(), before, mask, after, k);
        }
    }
}

/// The same of a load for a region.
proof fn lemma_load_keeps<F: Fn(VoxelKey) -> Aabb>(
    file: Seq<u8>,
    caches: Seq<HierarchyCache>,
    masks: Seq<Seq<bool>>,
    bounds: Aabb,
    node_bounds: F,
    max_level: Option<i32>,
    n: int,
)
    requires
        is_load(file, caches, masks, bounds, node_bounds, max_level),
        unambiguous(file, caches[0].nodes(), caches[0].pending()),
        0 <= n < caches.len(),
    ensures
        forall|entry: HierarchyEntry|
            covered(file, caches[0].nodes(), caches[0].pending(), entry) <==> #[trigger] covered(
                file,
                caches[n].nodes(),
                caches[n].pending(),
                entry,
            ),
        forall|k: int|
            0 <= k < caches[n].pending().len() ==> is_reached(
                file,
                caches[0].pending(),
                #[trigger] caches[n].pending()[k],
            ),
{
    assert forall|i: int| 0 <= i < caches.len() - 1 implies #[trigger] reads_on(
        file,
        caches,
        masks,
        i,
    ) by {
        assert(goes_on(file, caches, masks, bounds, node_bounds, max_level, i));
    }
    lemma_rounds_keep(file, caches, masks, n);
}

/// A load for a region makes every node known whose box overlaps the region, down to the level
/// asked for, of those that were known or could be found before; and it makes no other node known
/// than those. The node of a page must enclose with its box those of the nodes in the page and
/// below, and not be deeper than they are, and no node may have entries that differ.
pub proof fn law_region_load_is_exact<F: Fn(VoxelKey) -> Aabb>(
    file: Seq<u8>,
    caches: Seq<HierarchyCache>,
    masks: Seq<Seq<bool>>,
    bounds: Aabb,
    node_bounds: F,
    max_level: Option<i32>,
    entry: HierarchyEntry,
)
    requires
        is_load(file, caches, masks, bounds, node_bounds, max_level),
        unambiguous(file, caches[0].nodes(), caches[0].pending()),
        boxes_hold(file, caches[0].pending(), node_bounds),
    ensures
        caches.last().nodes().contains_key(entry.key) && caches.last().nodes()[entry.key] == entry
            ==> covered(file, caches[0].nodes(), caches[0].pending(), entry),
        covered(file, caches[0].nodes(), caches[0].pending(), entry) && within_level(
            entry.key,
            max_level,
        ) && region_test(&node_bounds, entry.key, bounds, true)
            ==> caches.last().nodes().contains_key(entry.key)
            && caches.last().nodes()[entry.key] == entry,
{
    let last = caches.last();
    lemma_load_keeps(file, caches, masks, bounds, node_bounds, max_level, caches.len() - 1);
    assert(caches[caches.len() - 1] == last);
    if last.nodes().contains_key(entry.key) && last.nodes()[entry.key] == entry {
        assert(covered(file, last.nodes(), last.pending(), entry));
    }
    if covered(file, caches[0].nodes(), caches[0].pending(), entry) && within_level(
        entry.key,
        max_level,
    ) && region_test(&node_bounds, entry.key, bounds, true) {
        assert(covered(file, last.nodes(), last.pending(), entry));
        let node_box = choose|b: Aabb| #[trigger]
            call_ensures(node_bounds, (entry.key,), b) && b.meets(bounds);
        assert forall|i: int, depth: nat|
            0 <= i < last.pending().len() && #[trigger] found_under(
                file,
                last.pending()[i],
                depth,
                entry,
            ) implies last.pending()[i].key.level <= entry.key.level && forall|b: Aabb| #[trigger]
            call_ensures(node_bounds, (last.pending()[i].key,), b) ==> b.encloses(node_box) by {
            assert(is_reached(file, caches[0].pending(), last.pending()[i]));
        }
        law_region_is_complete(
            file,
            last,
            bounds,
            node_bounds,
            max_level,
            masks.last(),
            entry,
            node_box,
        );
    }
}

/// A mask that marks every page.
pub open spec fn all_marks(pages: Seq<PendingPage>) -> Seq<bool> {
    Seq::new(pages.len(), |i: int| true)
}

/// Whether the cache after this one is it with all pending pages read from the file and taken in;
/// there are some.
pub open spec fn reads_all(file: Seq<u8>, caches: Seq<HierarchyCache>, i: int) -> bool {
    reads_marked(file, caches[i], all_marks(caches[i].pending()), caches[i + 1])
}

/// Whether the caches are those of a load of all pages that goes on, round by round, until no page
/// is pending: from the cache before it to the cache after it.
pub open spec fn is_load_of_all(file: Seq<u8>, caches: Seq<HierarchyCache>) -> bool {
    &&& caches.len() >= 1
    &&& forall|i: int| 0 <= i < caches.len() - 1 ==> #[trigger] reads_all(file, caches, i)
    &&& caches.last().pending().len() == 0
}

/// Where every item is marked, the marked ones are all, and none is left over.
proof fn lemma_all_marked(pages: Seq<PendingPage>)
    ensures
        marked(pages, all_marks(pages), true) == pages,
        marked(pages, all_marks(pages), false) == Seq::<PendingPage>::empty(),
    decreases pages.len(),
{
    if pages.len() > 0 {
        let rest = pages.drop_last();
        lemma_all_marked(rest);
        assert(all_marks(pages).drop_last() =~= all_marks(rest));
        assert(marked(pages, all_marks(pages), true) =~= pages);
    } else {
        assert(marked(pages, all_marks(pages), true) =~= pages);
    }
}

/// Taking all pending pages, reading them from the file and taking in what was read, is a round of
/// a load of all pages.
pub proof fn law_round_of_all(
    file: Seq<u8>,
    before: HierarchyCache,
    between: HierarchyCache,
    after: HierarchyCache,
    pages: Seq<Vec<u8>>,
)
    requires
        before.pending().len() > 0,
        pages.len() == before.pending().len(),
        forall|j: int|
            0 <= j < pages.len() ==> (#[trigger] pages[j])@ == page_in(file, before.pending()[j]),
        between.nodes() == before.nodes(),
        between.pending() == Seq::<PendingPage>::empty(),
        after.took_in(between, loaded_records(pages, pages.len() as int)),
    ensures
        reads_marked(file, before, all_marks(before.pending()), after),
{
    lemma_all_marked(before.pending());
    law_region_round(file, before, all_marks(before.pending()), between, after, pages);
}

/// Loading all pages makes the whole hierarchy known, and leaves no page pending: every entry that
/// was known or could be found before is known after, and no other. No node may have entries that
/// differ.
pub proof fn law_loading_all_is_exact(
    file: Seq<u8>,
    caches: Seq<HierarchyCache>,
    entry: HierarchyEntry,
)
    requires
        is_load_of_all(file, caches),
        unambiguous(file, caches[0].nodes(), caches[0].pending()),
    ensures
        caches.last().pending() == Seq::<PendingPage>::empty(),
        covered(file, caches[0].nodes(), caches[0].pending(), entry) <==> (
        caches.last().nodes().contains_key(entry.key) && caches.last().nodes()[entry.key] == entry),
{
    let masks = Seq::new(caches.len(), |i: int| all_marks(caches[i].pending()));
    assert forall|i: int| 0 <= i < caches.len() - 1 implies #[trigger] reads_on(
        file,
        caches,
        masks,
        i,
    ) by {
        assert(reads_all(file, caches, i));
    }
    lemma_rounds_keep(file, caches, masks, caches.len() - 1);
    let last = caches.last();
    assert(covered(file, last.nodes(), last.pending(), entry) <==> (last.nodes().contains_key(
        entry.key,
    ) && last.nodes()[entry.key] == entry));
}

/// Loading the root page of a file, and then all pages that are pending, makes the whole hierarchy
/// known, and leaves no page pending: every valid entry of a node in the root page, or in a page
/// that is reached from it, is known, and no other. No node may have entries that differ.
pub proof fn law_whole_hierarchy_is_loaded(
    file: Seq<u8>,
    root: PendingPage,
    empty: HierarchyCache,
    caches: Seq<HierarchyCache>,
    entry: HierarchyEntry,
)
    requires
        empty.nodes() == Map::<VoxelKey, HierarchyEntry>::empty(),
        empty.pending() == Seq::<PendingPage>::empty(),
        is_load_of_all(file, caches),
        caches[0].took_in(empty, page_records(page_in(file, root))),
        unambiguous(file, Map::empty(), seq![root]),
    ensures
        caches.last().pending() == Seq::<PendingPage>::empty(),
        (exists|depth: nat| found_under(file, root, depth, entry)) <==> (
        caches.last().nodes().contains_key(entry.key) && caches.last().nodes()[entry.key] == entry),
{
    let none = Map::<VoxelKey, HierarchyEntry>::empty();
    let pages = seq![root];
    let first = caches[0];
    lemma_root_is_a_page(file, root, first);
    assert forall|e: HierarchyEntry| #[trigger]
        covered(file, first.nodes(), first.pending(), e) <==> covered(file, none, pages, e) by {
        lemma_root_keeps(file, root, first, e);
    }
    assert(unambiguous(file, first.nodes(), first.pending()));
    law_loading_all_is_exact(file, caches, entry);
    assert(covered(file, none, pages, entry) <==> exists|depth: nat|
        found_under(file, root, depth, entry)) by {
        if exists|depth: nat| found_under(file, root, depth, entry) {
            let depth = choose|depth: nat| found_under(file, root, depth, entry);
            assert(found_under(file, pages[0], depth, entry));
        }
    }
}

/// The root page is taken in like a page that was pending.
proof fn lemma_root_is_a_page(file: Seq<u8>, root: PendingPage, first: HierarchyCache)
    requires
        first.nodes() == entered(Map::empty(), page_records(page_in(file, root))),
        first.pending() == Seq::<PendingPage>::empty() + pointed_to(
            page_records(page_in(file, root)),
        ),
    ensures
        first.nodes() == entered(Map::empty(), records_in(file, seq![root])),
        first.pending() == Seq::<PendingPage>::empty() + pointed_to(
            records_in(file, seq![root]),
        ),
{
    let pages = seq![root];
    assert(records_in(file, pages.drop_last()) =~= Seq::empty());
    assert(records_in(file, pages) =~= page_records(page_in(file, root)));
}

/// What can be found from the root page is known or can be found once that is taken in, and nothing
/// else is.
proof fn lemma_root_keeps(
    file: Seq<u8>,
    root: PendingPage,
    first: HierarchyCache,
    entry: HierarchyEntry,
)
    requires
        first.nodes() == entered(Map::empty(), records_in(file, seq![root])),
        first.pending() == Seq::<PendingPage>::empty() + pointed_to(
            records_in(file, seq![root]),
        ),
        unambiguous(file, Map::empty(), seq![root]),
    ensures
        covered(file, first.nodes(), first.pending(), entry) <==> covered(
            file,
            Map::empty(),
            seq![root],
            entry,
        ),
{
    let none = Map::<VoxelKey, HierarchyEntry>::empty();
    let pages = seq![root];
    assert(Seq::<PendingPage>::empty() + pages =~= pages);
    if covered(file, first.nodes(), first.pending(), entry) {
        lemma_taking_in_adds_nothing(file, none, Seq::empty(), pages, entry);
    }
    if covered(file, none, pages, entry) {
        lemma_unambiguous_agrees(file, none, pages, pages, entry);
        lemma_taking_in_loses_nothing(file, none, Seq::empty(), pages, entry);
    }
}

/// Whether the node is known, or has an entry that can be found from one of the pages.
pub open spec fn has_entry(
    file: Seq<u8>,
    nodes: Map<VoxelKey, HierarchyEntry>,
    pages: Seq<PendingPage>,
    key: VoxelKey,
) -> bool {
    ||| nodes.contains_key(key)
    ||| exists|i: int, depth: nat, entry: HierarchyEntry|
        0 <= i < pages.len() && #[trigger] found_under(file, pages[i], depth, entry) && entry.key
            == key
}

/// A node that is known, or has an entry among `records`, is known after they are entered.
proof fn lemma_entered_keeps_node(
    nodes: Map<VoxelKey, HierarchyEntry>,
    records: Seq<Record>,
    entry: HierarchyEntry,
)
    requires
        nodes.contains_key(entry.key) || records.contains(Record::Node(entry)),
    ensures
        entered(nodes, records).contains_key(entry.key),
    decreases records.len(),
{
    if records.len() > 0 {
        let rest = records.drop_last();
        let last = records.last();
        if last != Record::Node(entry) {
            if records.contains(Record::Node(entry)) {
                let i = choose|i: int|
                    0 <= i < records.len() && records[i] == Record::Node(entry);
                assert(rest[i] == records[i]);
                assert(rest.contains(Record::Node(entry)));
            }
            lemma_entered_keeps_node(nodes, rest, entry);
        }
    }
}

/// A round of a load of all pages loses no node.
proof fn lemma_round_of_all_keeps_node(
    file: Seq<u8>,
    before: HierarchyCache,
    after: HierarchyCache,
    key: VoxelKey,
)
    requires
        reads_marked(file, before, all_marks(before.pending()), after),
        has_entry(file, before.nodes(), before.pending(), key),
    ensures
        has_entry(file, after.nodes(), after.pending(), key),
{
    let taken = before.pending();
    let records = records_in(file, taken);
    lemma_all_marked(taken);
    assert(after.pending() =~= pointed_to(records));
    if before.nodes().contains_key(key) {
        let entry = HierarchyEntry { key, offset: 0, byte_size: 0, point_count: 0 };
        lemma_entered_keeps_node(before.nodes(), records, entry);
    } else {
        let (j, depth, entry) = choose|j: int, depth: nat, entry: HierarchyEntry|
            0 <= j < taken.len() && #[trigger] found_under(file, taken[j], depth, entry)
                && entry.key == key;
        let page = page_records(page_in(file, taken[j]));
        let r = choose|r: int|
            {
                &&& 0 <= r < page.len()
                &&& match #[trigger] page[r] {
                    Record::Node(e) => e == entry,
                    Record::Page(next) => depth > 0 && found_under(
                        file,
                        next,
                        (depth - 1) as nat,
                        entry,
                    ),
                    Record::Invalid => false,
                }
            };
        lemma_records_in(file, taken, j, r);
        match page[r] {
            Record::Node(e) => {
                lemma_entered_keeps_node(before.nodes(), records, entry);
            },
            Record::Page(next) => {
                let n = choose|n: int| 0 <= n < records.len() && records[n] == page[r];
                lemma_pointer_kept(records, n);
                let q = pointed_to(records);
                let k = choose|k: int| 0 <= k < q.len() && q[k] == next;
                assert(after.pending()[k] == next);
            },
            Record::Invalid => {},
        }
    }
}

/// Loading all pages makes every node known that was known, or had an entry that could be found,
/// before: whatever entries it had.
pub proof fn law_loading_all_misses_no_node(
    file: Seq<u8>,
    caches: Seq<HierarchyCache>,
    key: VoxelKey,
)
    requires
        is_load_of_all(file, caches),
        has_entry(file, caches[0].nodes(), caches[0].pending(), key),
    ensures
        caches.last().nodes().contains_key(key),
{
    lemma_rounds_keep_node(file, caches, key, caches.len() - 1);
}

/// A load of all pages loses no node, up to any round.
proof fn lemma_rounds_keep_node(
    file: Seq<u8>,
    caches: Seq<HierarchyCache>,
    key: VoxelKey,
    n: int,
)
    requires
        is_load_of_all(file, caches),
        has_entry(file, caches[0].nodes(), caches[0].pending(), key),
        0 <= n < caches.len(),
    ensures
        has_entry(file, caches[n].nodes(), caches[n].pending(), key),
    decreases n,
{
    if n > 0 {
        lemma_rounds_keep_node(file, caches, key, n - 1);
        assert(reads_all(file, caches, n - 1));
        lemma_round_of_all_keeps_node(file, caches[n - 1], caches[n], key);
    }
}

} // verus!
