//! What loading the pages of the temporal index comes to, page by page and as a whole.
//!
//! The index stands in the file as a tree of pages. A [`TemporalCache`] knows the nodes of the
//! pages that were loaded, and the pages that those point to. Loading goes on in rounds: take the
//! pending pages that are wanted, read them from the file, take in what was read; until no page is
//! wanted.

use crate::gps_time::GpsTime;
use crate::temporal_cache::{all_complete, loaded_records, page_ranges, TemporalCache};
use crate::temporal_index::lists_overlapping;
use crate::temporal_node::{may_hold, NodeTemporalEntry};
use crate::temporal_page::{complete_from, entered, pointed_to, records_from, PendingPage, Record};
use crate::types::VoxelKey;
use vstd::prelude::*;

verus! {

/// The bytes of a page in a file.
pub open spec fn page_in(file: Seq<u8>, page: PendingPage) -> Seq<u8> {
    file.subrange(page.offset as int, page.offset + page.size)
}

/// Whether an entry of this node with these samples stands in the page, or in a page that can be
/// reached from it by following at most `depth` pointers.
pub open spec fn found_under(
    file: Seq<u8>,
    page: PendingPage,
    depth: nat,
    key: VoxelKey,
    samples: Seq<GpsTime>,
) -> bool
    decreases depth,
{
    exists|i: int|
        {
            &&& 0 <= i < records_from(page_in(file, page), 0).len()
            &&& match #[trigger] records_from(page_in(file, page), 0)[i] {
                Record::Node { key: k, samples: s } => k == key && s == samples,
                Record::Pointer { page: next, .. } => depth > 0 && found_under(
                    file,
                    next,
                    (depth - 1) as nat,
                    key,
                    samples,
                ),
            }
        }
}

/// Whether the samples of this node are known, or can be found from one of the pages.
pub open spec fn covered(
    file: Seq<u8>,
    nodes: Map<VoxelKey, Seq<GpsTime>>,
    pages: Seq<PendingPage>,
    key: VoxelKey,
    samples: Seq<GpsTime>,
) -> bool {
    ||| nodes.contains_key(key) && nodes[key] == samples
    ||| exists|i: int, depth: nat|
        0 <= i < pages.len() && #[trigger] found_under(file, pages[i], depth, key, samples)
}

/// Whether no entry gives the node other samples.
pub open spec fn agree(records: Seq<Record>, key: VoxelKey, samples: Seq<GpsTime>) -> bool {
    forall|i: int|
        0 <= i < records.len() && (#[trigger] records[i]) is Node && records[i]->Node_key == key
            ==> records[i]->Node_samples == samples
}

/// A node that is known, or has an entry among `records`, is known after they are entered.
proof fn lemma_entered_keeps(
    nodes: Map<VoxelKey, Seq<GpsTime>>,
    records: Seq<Record>,
    key: VoxelKey,
    samples: Seq<GpsTime>,
)
    requires
        agree(records, key, samples),
        (nodes.contains_key(key) && nodes[key] == samples) || records.contains(
            Record::Node { key, samples },
        ),
    ensures
        entered(nodes, records).contains_key(key),
        entered(nodes, records)[key] == samples,
    decreases records.len(),
{
    if records.len() > 0 {
        let rest = records.drop_last();
        let last = records.last();
        assert(records[records.len() - 1] == last);
        if !(last is Node && last->Node_key == key) {
            assert(agree(rest, key, samples)) by {
                assert forall|i: int|
                    0 <= i < rest.len() && (#[trigger] rest[i]) is Node && rest[i]->Node_key
                        == key implies rest[i]->Node_samples == samples by {
                    assert(records[i] == rest[i]);
                }
            }
            if records.contains(Record::Node { key, samples }) {
                let i = choose|i: int|
                    0 <= i < records.len() && records[i] == (Record::Node { key, samples });
                assert(rest[i] == records[i]);
                assert(rest.contains(Record::Node { key, samples }));
            }
            lemma_entered_keeps(nodes, rest, key, samples);
        }
    }
}

/// A page that an entry points to is among those that the entries point to.
proof fn lemma_pointer_kept(records: Seq<Record>, i: int)
    requires
        0 <= i < records.len(),
        records[i] is Pointer,
    ensures
        pointed_to(records).contains(records[i]->Pointer_page),
    decreases records.len(),
{
    let page = records[i]->Pointer_page;
    let rest = pointed_to(records.drop_last());
    if i == records.len() - 1 {
        assert(pointed_to(records)[rest.len() as int] == page);
    } else {
        lemma_pointer_kept(records.drop_last(), i);
        let k = choose|k: int| 0 <= k < rest.len() && rest[k] == page;
        assert(pointed_to(records)[k] == page);
    }
}

/// The entries of these pages of a file, one page after the other.
pub open spec fn records_in(file: Seq<u8>, pages: Seq<PendingPage>) -> Seq<Record>
    decreases pages.len(),
{
    if pages.len() == 0 {
        Seq::empty()
    } else {
        records_in(file, pages.drop_last()) + records_from(page_in(file, pages.last()), 0)
    }
}

/// Every entry of a page is among those of all pages.
proof fn lemma_records_in(file: Seq<u8>, pages: Seq<PendingPage>, j: int, i: int)
    requires
        0 <= j < pages.len(),
        0 <= i < records_from(page_in(file, pages[j]), 0).len(),
    ensures
        records_in(file, pages).contains(records_from(page_in(file, pages[j]), 0)[i]),
    decreases pages.len(),
{
    let record = records_from(page_in(file, pages[j]), 0)[i];
    let rest = records_in(file, pages.drop_last());
    if j == pages.len() - 1 {
        assert(records_in(file, pages)[rest.len() + i] == record);
    } else {
        lemma_records_in(file, pages.drop_last(), j, i);
        let k = choose|k: int| 0 <= k < rest.len() && rest[k] == record;
        assert(records_in(file, pages)[k] == record);
    }
}

/// Every entry of the pages is one of a page.
proof fn lemma_record_has_page(file: Seq<u8>, pages: Seq<PendingPage>, k: int)
    requires
        0 <= k < records_in(file, pages).len(),
    ensures
        exists|j: int|
            0 <= j < pages.len() && records_from(page_in(file, #[trigger] pages[j]), 0).contains(
                records_in(file, pages)[k],
            ),
    decreases pages.len(),
{
    let rest = records_in(file, pages.drop_last());
    let record = records_in(file, pages)[k];
    if k < rest.len() {
        lemma_record_has_page(file, pages.drop_last(), k);
        let j = choose|j: int|
            0 <= j < pages.drop_last().len() && records_from(
                page_in(file, #[trigger] pages.drop_last()[j]),
                0,
            ).contains(rest[k]);
        assert(pages[j] == pages.drop_last()[j]);
    } else {
        let last = records_from(page_in(file, pages.last()), 0);
        assert(last[k - rest.len()] == record);
        assert(pages[pages.len() - 1] == pages.last());
    }
}

/// What is loaded of complete pages that were read from a file are the entries of those pages.
proof fn lemma_loaded_is_in_file(file: Seq<u8>, taken: Seq<PendingPage>, pages: Seq<Vec<u8>>)
    requires
        pages.len() == taken.len(),
        forall|j: int| 0 <= j < pages.len() ==> (#[trigger] pages[j])@ == page_in(file, taken[j]),
        all_complete(pages),
    ensures
        loaded_records(pages) == records_in(file, taken),
    decreases pages.len(),
{
    if pages.len() > 0 {
        let rest = pages.drop_last();
        assert forall|k: int| 0 <= k < rest.len() implies (#[trigger] rest[k])@ == page_in(
            file,
            taken.drop_last()[k],
        ) && complete_from(rest[k]@, 0) by {
            assert(rest[k] == pages[k]);
        }
        lemma_loaded_is_in_file(file, taken.drop_last(), rest);
        assert(pages[pages.len() - 1] == pages.last());
    }
}

/// Taking in the entries of pages loses no node.
proof fn lemma_taking_in_loses_nothing(
    file: Seq<u8>,
    nodes: Map<VoxelKey, Seq<GpsTime>>,
    rest: Seq<PendingPage>,
    taken: Seq<PendingPage>,
    key: VoxelKey,
    samples: Seq<GpsTime>,
)
    requires
        covered(file, nodes, rest + taken, key, samples),
        agree(records_in(file, taken), key, samples),
    ensures
        covered(
            file,
            entered(nodes, records_in(file, taken)),
            rest + pointed_to(records_in(file, taken)),
            key,
            samples,
        ),
{
    let records = records_in(file, taken);
    let after = rest + pointed_to(records);
    if nodes.contains_key(key) && nodes[key] == samples {
        lemma_entered_keeps(nodes, records, key, samples);
    } else {
        let known = rest + taken;
        let (i, depth) = choose|i: int, depth: nat|
            0 <= i < known.len() && #[trigger] found_under(file, known[i], depth, key, samples);
        if i < rest.len() {
            assert(after[i] == known[i]);
        } else {
            let j = i - rest.len();
            assert(known[i] == taken[j]);
            let page = records_from(page_in(file, taken[j]), 0);
            let r = choose|r: int|
                {
                    &&& 0 <= r < page.len()
                    &&& match #[trigger] page[r] {
                        Record::Node { key: k, samples: s } => k == key && s == samples,
                        Record::Pointer { page: next, .. } => depth > 0 && found_under(
                            file,
                            next,
                            (depth - 1) as nat,
                            key,
                            samples,
                        ),
                    }
                };
            lemma_records_in(file, taken, j, r);
            match page[r] {
                Record::Node { key: k, samples: s } => {
                    lemma_entered_keeps(nodes, records, key, samples);
                },
                Record::Pointer { page: next, .. } => {
                    let n = choose|n: int| 0 <= n < records.len() && records[n] == page[r];
                    lemma_pointer_kept(records, n);
                    let q = pointed_to(records);
                    let k = choose|k: int| 0 <= k < q.len() && q[k] == next;
                    assert(after[rest.len() + k] == next);
                },
            }
        }
    }
}

/// Parting pages in two loses none: each is on one of the sides.
proof fn lemma_parting_loses_no_page(
    file: Seq<u8>,
    nodes: Map<VoxelKey, Seq<GpsTime>>,
    pending: Seq<PendingPage>,
    hit: spec_fn(PendingPage) -> bool,
    key: VoxelKey,
    samples: Seq<GpsTime>,
)
    requires
        covered(file, nodes, pending, key, samples),
    ensures
        covered(
            file,
            nodes,
            pending.filter(|p: PendingPage| !hit(p)) + pending.filter(hit),
            key,
            samples,
        ),
{
    let miss = |p: PendingPage| !hit(p);
    let (rest, taken) = (pending.filter(miss), pending.filter(hit));
    if !(nodes.contains_key(key) && nodes[key] == samples) {
        let (i, depth) = choose|i: int, depth: nat|
            0 <= i < pending.len() && #[trigger] found_under(
                file,
                pending[i],
                depth,
                key,
                samples,
            );
        broadcast use vstd::seq_lib::group_filter_ensures;

        if hit(pending[i]) {
            assert(taken.contains(pending[i]));
            let k = choose|k: int| 0 <= k < taken.len() && taken[k] == pending[i];
            assert((rest + taken)[rest.len() + k] == pending[i]);
        } else {
            assert(rest.contains(pending[i]));
            let k = choose|k: int| 0 <= k < rest.len() && rest[k] == pending[i];
            assert((rest + taken)[k] == pending[i]);
        }
    }
}

/// Taking the pages of a time range loses no page: each is among those taken or still pending.
pub proof fn law_taking_loses_no_page(
    file: Seq<u8>,
    nodes: Map<VoxelKey, Seq<GpsTime>>,
    pending: Seq<PendingPage>,
    start: GpsTime,
    end: GpsTime,
    key: VoxelKey,
    samples: Seq<GpsTime>,
)
    requires
        covered(file, nodes, pending, key, samples),
    ensures
        covered(
            file,
            nodes,
            pending.filter(|p: PendingPage| !p.reaches(start, end)) + pending.filter(
                |p: PendingPage| p.reaches(start, end),
            ),
            key,
            samples,
        ),
{
    let hit = |p: PendingPage| p.reaches(start, end);
    lemma_parting_loses_no_page(file, nodes, pending, hit, key, samples);
    assert((|p: PendingPage| !hit(p)) =~= (|p: PendingPage| !p.reaches(start, end)));
}

/// Loading the pages that were taken loses no node: what could be found before, in the pages taken
/// too, is known or can be found after. No node may have entries that differ among the pages.
pub proof fn law_loading_loses_no_node(
    file: Seq<u8>,
    before: TemporalCache,
    taken: Seq<PendingPage>,
    pages: Seq<Vec<u8>>,
    after: TemporalCache,
    key: VoxelKey,
    samples: Seq<GpsTime>,
)
    requires
        covered(file, before.nodes(), before.pending() + taken, key, samples),
        pages.len() == taken.len(),
        forall|j: int| 0 <= j < pages.len() ==> (#[trigger] pages[j])@ == page_in(file, taken[j]),
        all_complete(pages),
        agree(loaded_records(pages), key, samples),
        after.took_in(before, loaded_records(pages)),
    ensures
        covered(file, after.nodes(), after.pending(), key, samples),
{
    lemma_loaded_is_in_file(file, taken, pages);
    lemma_taking_in_loses_nothing(file, before.nodes(), before.pending(), taken, key, samples);
}

/// Once no pending page is left to take for a time range, every node of the index that overlaps
/// the range is known, provided that pointers bound the times of the nodes below them.
pub proof fn law_query_is_complete(
    file: Seq<u8>,
    cache: TemporalCache,
    start: GpsTime,
    end: GpsTime,
    key: VoxelKey,
    samples: Seq<GpsTime>,
)
    requires
        covered(file, cache.nodes(), cache.pending(), key, samples),
        page_ranges(cache.pending().filter(|p: PendingPage| p.reaches(start, end))).len() == 0,
        forall|i: int, depth: nat|
            0 <= i < cache.pending().len() && #[trigger] found_under(
                file,
                cache.pending()[i],
                depth,
                key,
                samples,
            ) ==> cache.pending()[i].subtree_time_min.at_most(samples[0].0)
                && samples.last().0.at_most(cache.pending()[i].subtree_time_max),
        may_hold(samples, start, end),
    ensures
        cache.nodes().contains_key(key),
        cache.nodes()[key] == samples,
{
    let hit = |p: PendingPage| p.reaches(start, end);
    let pending = cache.pending();
    if !(cache.nodes().contains_key(key) && cache.nodes()[key] == samples) {
        let (i, depth) = choose|i: int, depth: nat|
            0 <= i < pending.len() && #[trigger] found_under(
                file,
                pending[i],
                depth,
                key,
                samples,
            );
        assert(pending[i].reaches(start, end));
        broadcast use vstd::seq_lib::group_filter_ensures;

        assert(pending.filter(hit).contains(pending[i]));
    }
}

/// Whether `after` is `before` with the pending pages that `hit` selects read from the file, all of
/// them complete, and taken in.
pub open spec fn is_round(
    file: Seq<u8>,
    before: TemporalCache,
    hit: spec_fn(PendingPage) -> bool,
    after: TemporalCache,
) -> bool {
    let taken = before.pending().filter(hit);
    &&& taken.len() > 0
    &&& forall|i: int| 0 <= i < taken.len() ==> complete_from(page_in(file, #[trigger] taken[i]), 0)
    &&& after.nodes() == entered(before.nodes(), records_in(file, taken))
    &&& after.pending() == before.pending().filter(|p: PendingPage| !hit(p)) + pointed_to(
        records_in(file, taken),
    )
}

/// Whether the cache after this one is it after another round.
pub open spec fn goes_on(
    file: Seq<u8>,
    caches: Seq<TemporalCache>,
    hit: spec_fn(PendingPage) -> bool,
    i: int,
) -> bool {
    is_round(file, caches[i], hit, caches[i + 1])
}

/// Whether the caches are those of a load that goes on, round by round, until no pending page is
/// left that `hit` selects: from the cache before it to the cache after it.
pub open spec fn is_load(
    file: Seq<u8>,
    caches: Seq<TemporalCache>,
    hit: spec_fn(PendingPage) -> bool,
) -> bool {
    &&& caches.len() >= 1
    &&& forall|i: int| 0 <= i < caches.len() - 1 ==> #[trigger] goes_on(file, caches, hit, i)
    &&& caches.last().pending().filter(hit).len() == 0
}

/// Taking the pages of a time range, reading them from the file and taking in what was read, is a
/// round.
pub proof fn law_time_range_round(
    file: Seq<u8>,
    before: TemporalCache,
    between: TemporalCache,
    after: TemporalCache,
    start: GpsTime,
    end: GpsTime,
    pages: Seq<Vec<u8>>,
)
    requires
        ({
            let taken = before.pending().filter(|p: PendingPage| p.reaches(start, end));
            &&& taken.len() > 0
            &&& pages.len() == taken.len()
            &&& forall|j: int|
                0 <= j < pages.len() ==> (#[trigger] pages[j])@ == page_in(file, taken[j])
        }),
        all_complete(pages),
        between.nodes() == before.nodes(),
        between.pending() == before.pending().filter(|p: PendingPage| !p.reaches(start, end)),
        after.took_in(between, loaded_records(pages)),
    ensures
        is_round(file, before, |p: PendingPage| p.reaches(start, end), after),
{
    let hit = |p: PendingPage| p.reaches(start, end);
    let taken = before.pending().filter(hit);
    lemma_loaded_is_in_file(file, taken, pages);
    assert((|p: PendingPage| !hit(p)) =~= (|p: PendingPage| !p.reaches(start, end)));
    assert forall|i: int| 0 <= i < taken.len() implies complete_from(
        page_in(file, #[trigger] taken[i]),
        0,
    ) by {
        assert(complete_from(pages[i]@, 0));
    }
}

/// Taking all pages, reading them from the file and taking in what was read, is a round.
pub proof fn law_round_of_all(
    file: Seq<u8>,
    before: TemporalCache,
    between: TemporalCache,
    after: TemporalCache,
    pages: Seq<Vec<u8>>,
)
    requires
        before.pending().len() > 0,
        pages.len() == before.pending().len(),
        forall|j: int|
            0 <= j < pages.len() ==> (#[trigger] pages[j])@ == page_in(file, before.pending()[j]),
        all_complete(pages),
        between.nodes() == before.nodes(),
        between.pending() == Seq::<PendingPage>::empty(),
        after.took_in(between, loaded_records(pages)),
    ensures
        is_round(file, before, |p: PendingPage| true, after),
{
    let all = |p: PendingPage| true;
    lemma_filter_all(before.pending(), all);
    lemma_loaded_is_in_file(file, before.pending(), pages);
    assert forall|i: int| 0 <= i < before.pending().len() implies complete_from(
        page_in(file, #[trigger] before.pending()[i]),
        0,
    ) by {
        assert(complete_from(pages[i]@, 0));
    }
}

/// A filter that keeps everything changes nothing, and leaves nothing over.
proof fn lemma_filter_all(pages: Seq<PendingPage>, hit: spec_fn(PendingPage) -> bool)
    requires
        forall|p: PendingPage| #[trigger] hit(p),
    ensures
        pages.filter(hit) == pages,
        pages.filter(|p: PendingPage| !hit(p)) == Seq::<PendingPage>::empty(),
    decreases pages.len(),
{
    reveal(Seq::filter);
    if pages.len() > 0 {
        lemma_filter_all(pages.drop_last(), hit);
        assert(pages.filter(hit) =~= pages);
    } else {
        assert(pages.filter(hit) =~= pages);
        assert(pages.filter(|p: PendingPage| !hit(p)) =~= Seq::empty());
    }
}

/// Whether the page is reached from one of the pages by following `depth` pointers.
pub open spec fn reached(
    file: Seq<u8>,
    pages: Seq<PendingPage>,
    depth: nat,
    page: PendingPage,
) -> bool
    decreases depth,
{
    if depth == 0 {
        pages.contains(page)
    } else {
        exists|q: PendingPage, key: VoxelKey|
            #[trigger] records_from(page_in(file, q), 0).contains(Record::Pointer { key, page })
                && reached(file, pages, (depth - 1) as nat, q)
    }
}

/// Whether the page is reached from one of the pages.
pub open spec fn is_reached(file: Seq<u8>, pages: Seq<PendingPage>, page: PendingPage) -> bool {
    exists|depth: nat| reached(file, pages, depth, page)
}

/// Whether every pointer, of the pages and of all that they lead to, bounds the times of the nodes
/// below it.
pub open spec fn bounds_hold(file: Seq<u8>, pages: Seq<PendingPage>) -> bool {
    forall|page: PendingPage, depth: nat, key: VoxelKey, samples: Seq<GpsTime>|
        #[trigger] is_reached(file, pages, page) && #[trigger] found_under(
            file,
            page,
            depth,
            key,
            samples,
        ) ==> page.subtree_time_min.at_most(samples[0].0) && samples.last().0.at_most(
            page.subtree_time_max,
        )
}

/// Whether no node has entries that differ, among what is known and what can be found.
pub open spec fn unambiguous(
    file: Seq<u8>,
    nodes: Map<VoxelKey, Seq<GpsTime>>,
    pages: Seq<PendingPage>,
) -> bool {
    forall|key: VoxelKey, a: Seq<GpsTime>, b: Seq<GpsTime>| #[trigger]
        covered(file, nodes, pages, key, a) && #[trigger] covered(file, nodes, pages, key, b) ==> a
            == b
}

/// What is known after entries were entered was known before, or is one of them.
proof fn lemma_entered_from(
    nodes: Map<VoxelKey, Seq<GpsTime>>,
    records: Seq<Record>,
    key: VoxelKey,
)
    requires
        entered(nodes, records).contains_key(key),
    ensures
        (nodes.contains_key(key) && nodes[key] == entered(nodes, records)[key])
            || records.contains(Record::Node { key, samples: entered(nodes, records)[key] }),
    decreases records.len(),
{
    if records.len() > 0 {
        let rest = records.drop_last();
        let last = records.last();
        assert(records[records.len() - 1] == last);
        if !(last is Node && last->Node_key == key) {
            lemma_entered_from(nodes, rest, key);
            let record = Record::Node { key, samples: entered(nodes, records)[key] };
            if rest.contains(record) {
                let i = choose|i: int| 0 <= i < rest.len() && rest[i] == record;
                assert(records[i] == record);
            }
        }
    }
}

/// A page that the entries point to has an entry that points to it.
proof fn lemma_pointer_from(records: Seq<Record>, k: int)
    requires
        0 <= k < pointed_to(records).len(),
    ensures
        exists|i: int|
            0 <= i < records.len() && (#[trigger] records[i]) is Pointer
                && records[i]->Pointer_page == pointed_to(records)[k],
    decreases records.len(),
{
    let rest = records.drop_last();
    if k < pointed_to(rest).len() {
        lemma_pointer_from(rest, k);
        let i = choose|i: int|
            0 <= i < rest.len() && (#[trigger] rest[i]) is Pointer && rest[i]->Pointer_page
                == pointed_to(rest)[k];
        assert(records[i] == rest[i]);
    } else {
        assert(records[records.len() - 1] is Pointer);
    }
}

/// What a filter keeps was there before.
proof fn lemma_filtered_was_there(
    pages: Seq<PendingPage>,
    hit: spec_fn(PendingPage) -> bool,
    i: int,
)
    requires
        0 <= i < pages.filter(hit).len(),
    ensures
        pages.contains(pages.filter(hit)[i]),
    decreases pages.len(),
{
    reveal(Seq::filter);
    let rest = pages.drop_last();
    if i < rest.filter(hit).len() {
        lemma_filtered_was_there(rest, hit, i);
        let k = choose|k: int| 0 <= k < rest.len() && rest[k] == rest.filter(hit)[i];
        assert(pages[k] == pages.filter(hit)[i]);
    } else {
        assert(pages[pages.len() - 1] == pages.filter(hit)[i]);
    }
}

/// An entry of a pending page that is read stands in a page that was pending.
proof fn lemma_record_was_pending(
    file: Seq<u8>,
    pending: Seq<PendingPage>,
    hit: spec_fn(PendingPage) -> bool,
    record: Record,
)
    requires
        records_in(file, pending.filter(hit)).contains(record),
    ensures
        exists|i: int|
            0 <= i < pending.len() && records_from(
                page_in(file, #[trigger] pending[i]),
                0,
            ).contains(record),
{
    let taken = pending.filter(hit);
    let records = records_in(file, taken);
    let k = choose|k: int| 0 <= k < records.len() && records[k] == record;
    lemma_record_has_page(file, taken, k);
    let j = choose|j: int|
        0 <= j < taken.len() && records_from(page_in(file, #[trigger] taken[j]), 0).contains(
            record,
        );
    lemma_filtered_was_there(pending, hit, j);
    let i = choose|i: int| 0 <= i < pending.len() && pending[i] == taken[j];
    assert(records_from(page_in(file, pending[i]), 0).contains(record));
}

/// A round adds nothing that was not known and could not be found before.
proof fn lemma_round_adds_nothing(
    file: Seq<u8>,
    before: TemporalCache,
    hit: spec_fn(PendingPage) -> bool,
    after: TemporalCache,
    key: VoxelKey,
    samples: Seq<GpsTime>,
)
    requires
        is_round(file, before, hit, after),
        covered(file, after.nodes(), after.pending(), key, samples),
    ensures
        covered(file, before.nodes(), before.pending(), key, samples),
{
    let pending = before.pending();
    let taken = pending.filter(hit);
    let rest = pending.filter(|p: PendingPage| !hit(p));
    let records = records_in(file, taken);
    if after.nodes().contains_key(key) && after.nodes()[key] == samples {
        lemma_entered_from(before.nodes(), records, key);
        let record = Record::Node { key, samples };
        if records.contains(record) {
            lemma_record_was_pending(file, pending, hit, record);
            let i = choose|i: int|
                0 <= i < pending.len() && records_from(
                    page_in(file, #[trigger] pending[i]),
                    0,
                ).contains(record);
            let page = records_from(page_in(file, pending[i]), 0);
            let r = choose|r: int| 0 <= r < page.len() && page[r] == record;
            assert(page[r] == record);
            assert(found_under(file, pending[i], 0, key, samples));
        }
    } else {
        let (i, depth) = choose|i: int, depth: nat|
            0 <= i < after.pending().len() && #[trigger] found_under(
                file,
                after.pending()[i],
                depth,
                key,
                samples,
            );
        let found = after.pending()[i];
        if i < rest.len() {
            lemma_filtered_was_there(pending, |p: PendingPage| !hit(p), i);
            let k = choose|k: int| 0 <= k < pending.len() && pending[k] == found;
            assert(found_under(file, pending[k], depth, key, samples));
        } else {
            let k = i - rest.len();
            assert(found == pointed_to(records)[k]);
            lemma_pointer_from(records, k);
            let n = choose|n: int|
                0 <= n < records.len() && (#[trigger] records[n]) is Pointer
                    && records[n]->Pointer_page == found;
            assert(records.contains(records[n]));
            lemma_record_was_pending(file, pending, hit, records[n]);
            let j = choose|j: int|
                0 <= j < pending.len() && records_from(
                    page_in(file, #[trigger] pending[j]),
                    0,
                ).contains(records[n]);
            let page = records_from(page_in(file, pending[j]), 0);
            let r = choose|r: int| 0 <= r < page.len() && page[r] == records[n];
            assert(page[r] == records[n]);
            assert(found_under(file, pending[j], depth + 1, key, samples));
        }
    }
}

/// A round loses nothing that was known or could be found before.
proof fn lemma_round_loses_nothing(
    file: Seq<u8>,
    before: TemporalCache,
    hit: spec_fn(PendingPage) -> bool,
    after: TemporalCache,
    key: VoxelKey,
    samples: Seq<GpsTime>,
)
    requires
        is_round(file, before, hit, after),
        unambiguous(file, before.nodes(), before.pending()),
        covered(file, before.nodes(), before.pending(), key, samples),
    ensures
        covered(file, after.nodes(), after.pending(), key, samples),
{
    let pending = before.pending();
    let taken = pending.filter(hit);
    let records = records_in(file, taken);
    assert(agree(records, key, samples)) by {
        assert forall|i: int|
            0 <= i < records.len() && (#[trigger] records[i]) is Node && records[i]->Node_key
                == key implies records[i]->Node_samples == samples by {
            let record = records[i];
            assert(records.contains(record));
            lemma_record_was_pending(file, pending, hit, record);
            let j = choose|j: int|
                0 <= j < pending.len() && records_from(
                    page_in(file, #[trigger] pending[j]),
                    0,
                ).contains(record);
            let page = records_from(page_in(file, pending[j]), 0);
            let r = choose|r: int| 0 <= r < page.len() && page[r] == record;
            assert(page[r] == record);
            assert(found_under(file, pending[j], 0, key, record->Node_samples));
            assert(covered(file, before.nodes(), pending, key, record->Node_samples));
        }
    }
    lemma_parting_loses_no_page(file, before.nodes(), pending, hit, key, samples);
    lemma_taking_in_loses_nothing(
        file,
        before.nodes(),
        pending.filter(|p: PendingPage| !hit(p)),
        taken,
        key,
        samples,
    );
}

/// Every page that is pending after a round is reached from the pages before it.
proof fn lemma_round_reaches(
    file: Seq<u8>,
    first: Seq<PendingPage>,
    before: TemporalCache,
    hit: spec_fn(PendingPage) -> bool,
    after: TemporalCache,
    i: int,
)
    requires
        is_round(file, before, hit, after),
        forall|k: int|
            0 <= k < before.pending().len() ==> is_reached(
                file,
                first,
                #[trigger] before.pending()[k],
            ),
        0 <= i < after.pending().len(),
    ensures
        is_reached(file, first, after.pending()[i]),
{
    let pending = before.pending();
    let rest = pending.filter(|p: PendingPage| !hit(p));
    let records = records_in(file, pending.filter(hit));
    let found = after.pending()[i];
    if i < rest.len() {
        lemma_filtered_was_there(pending, |p: PendingPage| !hit(p), i);
        let k = choose|k: int| 0 <= k < pending.len() && pending[k] == found;
        assert(pending[k] == found);
    } else {
        lemma_pointer_from(records, i - rest.len());
        let n = choose|n: int|
            0 <= n < records.len() && (#[trigger] records[n]) is Pointer
                && records[n]->Pointer_page == found;
        assert(records.contains(records[n]));
        lemma_record_was_pending(file, pending, hit, records[n]);
        let j = choose|j: int|
            0 <= j < pending.len() && records_from(
                page_in(file, #[trigger] pending[j]),
                0,
            ).contains(records[n]);
        assert(is_reached(file, first, pending[j]));
        let depth = choose|depth: nat| reached(file, first, depth, pending[j]);
        let key = records[n]->Pointer_key;
        assert(records[n] == Record::Pointer { key, page: found });
        assert(records_from(page_in(file, pending[j]), 0).contains(
            Record::Pointer { key, page: found },
        ));
        assert(reached(file, first, depth + 1, found));
    }
}

/// What is known or can be found stays the same from round to round, and every pending page is
/// reached from the first ones.
proof fn lemma_load_keeps(
    file: Seq<u8>,
    caches: Seq<TemporalCache>,
    hit: spec_fn(PendingPage) -> bool,
    n: int,
)
    requires
        is_load(file, caches, hit),
        unambiguous(file, caches[0].nodes(), caches[0].pending()),
        0 <= n < caches.len(),
    ensures
        forall|key: VoxelKey, samples: Seq<GpsTime>|
            covered(file, caches[0].nodes(), caches[0].pending(), key, samples) <==> #[trigger]
            covered(file, caches[n].nodes(), caches[n].pending(), key, samples),
        forall|k: int|
            0 <= k < caches[n].pending().len() ==> is_reached(
                file,
                caches[0].pending(),
                #[trigger] caches[n].pending()[k],
            ),
    decreases n,
{
    let first = caches[0];
    let after = caches[n];
    if n == 0 {
        assert forall|k: int| 0 <= k < first.pending().len() implies is_reached(
            file,
            first.pending(),
            #[trigger] first.pending()[k],
        ) by {
            assert(first.pending().contains(first.pending()[k]));
            assert(reached(file, first.pending(), 0, first.pending()[k]));
        }
    } else {
        let before = caches[n - 1];
        lemma_load_keeps(file, caches, hit, n - 1);
        assert(goes_on(file, caches, hit, n - 1));
        assert forall|key: VoxelKey, samples: Seq<GpsTime>|
            covered(file, first.nodes(), first.pending(), key, samples) <==> #[trigger] covered(
                file,
                after.nodes(),
                after.pending(),
                key,
                samples,
            ) by {
            if covered(file, after.nodes(), after.pending(), key, samples) {
                lemma_round_adds_nothing(file, before, hit, after, key, samples);
            }
            if covered(file, first.nodes(), first.pending(), key, samples) {
                assert(covered(file, before.nodes(), before.pending(), key, samples));
                lemma_round_loses_nothing(file, before, hit, after, key, samples);
            }
        }
        assert forall|k: int| 0 <= k < after.pending().len() implies is_reached(
            file,
            first.pending(),
            #[trigger] after.pending()[k],
        ) by {
            lemma_round_reaches(file, first.pending(), before, hit, after, k);
        }
    }
}

/// Loading all pages makes the whole index known: every node that was known or could be found, with
/// its samples, and no other. No node may have entries that differ.
pub proof fn law_loading_all_is_exact(
    file: Seq<u8>,
    caches: Seq<TemporalCache>,
    key: VoxelKey,
    samples: Seq<GpsTime>,
)
    requires
        is_load(file, caches, |p: PendingPage| true),
        unambiguous(file, caches[0].nodes(), caches[0].pending()),
    ensures
        covered(file, caches[0].nodes(), caches[0].pending(), key, samples) <==> (
        caches.last().nodes().contains_key(key) && caches.last().nodes()[key] == samples),
{
    let all = |p: PendingPage| true;
    lemma_load_keeps(file, caches, all, caches.len() - 1);
    lemma_filter_all(caches.last().pending(), all);
    assert(covered(file, caches.last().nodes(), caches.last().pending(), key, samples) <==> (
    caches.last().nodes().contains_key(key) && caches.last().nodes()[key] == samples));
}

/// A node that overlaps a time range is known after the pages of the time range were loaded if and
/// only if it is known after all pages were.
proof fn lemma_range_is_enough(
    file: Seq<u8>,
    caches: Seq<TemporalCache>,
    whole: Seq<TemporalCache>,
    start: GpsTime,
    end: GpsTime,
    key: VoxelKey,
    samples: Seq<GpsTime>,
)
    requires
        is_load(file, caches, |p: PendingPage| p.reaches(start, end)),
        is_load(file, whole, |p: PendingPage| true),
        whole[0] == caches[0],
        unambiguous(file, caches[0].nodes(), caches[0].pending()),
        bounds_hold(file, caches[0].pending()),
        may_hold(samples, start, end),
    ensures
        (caches.last().nodes().contains_key(key) && caches.last().nodes()[key] == samples) <==> (
        whole.last().nodes().contains_key(key) && whole.last().nodes()[key] == samples),
{
    let hit = |p: PendingPage| p.reaches(start, end);
    let last = caches.last();
    law_loading_all_is_exact(file, whole, key, samples);
    lemma_load_keeps(file, caches, hit, caches.len() - 1);
    assert(caches[caches.len() - 1] == last);
    if last.nodes().contains_key(key) && last.nodes()[key] == samples {
        assert(covered(file, last.nodes(), last.pending(), key, samples));
    }
    if covered(file, caches[0].nodes(), caches[0].pending(), key, samples) {
        assert(covered(file, last.nodes(), last.pending(), key, samples));
        assert forall|i: int, depth: nat|
            0 <= i < last.pending().len() && #[trigger] found_under(
                file,
                last.pending()[i],
                depth,
                key,
                samples,
            ) implies last.pending()[i].subtree_time_min.at_most(samples[0].0)
            && samples.last().0.at_most(last.pending()[i].subtree_time_max) by {
            assert(is_reached(file, caches[0].pending(), last.pending()[i]));
        }
        law_query_is_complete(file, last, start, end, key, samples);
    }
}

/// Loading the pages of a time range, and then looking at the nodes that overlap it, finds exactly
/// the nodes of the whole index that overlap it, each once and with its samples: of those that
/// loading all pages would make known. Passing over pages never makes the answer incomplete.
/// Pointers must bound the times of the nodes below them, and no node may have entries that differ.
pub proof fn law_query_is_exact(
    file: Seq<u8>,
    caches: Seq<TemporalCache>,
    whole: Seq<TemporalCache>,
    start: GpsTime,
    end: GpsTime,
    found: Seq<&NodeTemporalEntry>,
)
    requires
        is_load(file, caches, |p: PendingPage| p.reaches(start, end)),
        is_load(file, whole, |p: PendingPage| true),
        whole[0] == caches[0],
        unambiguous(file, caches[0].nodes(), caches[0].pending()),
        bounds_hold(file, caches[0].pending()),
        lists_overlapping(found, caches.last().nodes(), start, end),
    ensures
        lists_overlapping(found, whole.last().nodes(), start, end),
{
    let known = caches.last().nodes();
    let all = whole.last().nodes();
    assert forall|i: int|
        #![trigger found[i]]
        0 <= i < found.len() implies all.contains_key(found[i].node()) && all[found[i].node()]
        == found[i].times() by {
        lemma_range_is_enough(
            file,
            caches,
            whole,
            start,
            end,
            found[i].node(),
            found[i].times(),
        );
    }
    assert forall|k: VoxelKey| #[trigger]
        all.contains_key(k) && may_hold(all[k], start, end) implies exists|i: int|
        #![trigger found[i]]
        0 <= i < found.len() && found[i].node() == k by {
        lemma_range_is_enough(file, caches, whole, start, end, k, all[k]);
        assert(known.contains_key(k));
    }
}

} // verus!
