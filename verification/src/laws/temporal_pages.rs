//! Pages of the temporal index, and what a cache takes in of them.

use crate::bytes::{
    i32_bytes, law_i32_reads_back, law_u32_reads_back, law_u64_reads_back, lemma_number_sizes,
    lemma_stands_split, stands_at, u32_bytes, u64_bytes,
};
use crate::error::TemporalError;
use crate::gps_time::GpsTime;
use crate::temporal_cache::{all_complete, loaded_records, TemporalCache};
use crate::temporal_header::TemporalHeader;
use crate::temporal_index::{keyed, times_of};
use crate::temporal_node::NodeTemporalEntry;
use crate::temporal_page::{
    complete_from, entered, number_at, pointed_to, record_at, record_size, records_from,
    PendingPage, Record,
};
use crate::types::VoxelKey;
use crate::voxel_map::lists;
use vstd::prelude::*;

verus! {

/// The bytes of a node key: level, x, y, z.
pub open spec fn four_numbers(key: VoxelKey) -> Seq<u8> {
    i32_bytes(key.level) + i32_bytes(key.x) + i32_bytes(key.y) + i32_bytes(key.z)
}

/// Whether an entry stands at offset `at` of a page. A node's entry is its key, the number of its
/// samples, which is not zero, and the samples. An entry that points to another page is a key, a
/// zero, offset and size of the page, the earliest and the latest time in the subtree.
pub open spec fn entry_stands(data: Seq<u8>, at: int, entry: Record) -> bool {
    match entry {
        Record::Node { key, samples } => {
            &&& 1 <= samples.len() <= u32::MAX
            &&& stands_at(data, at, four_numbers(key) + u32_bytes(samples.len() as u32))
            &&& forall|i: int|
                0 <= i < samples.len() ==> stands_at(
                    data,
                    at + 20 + 8 * i,
                    u64_bytes((#[trigger] samples[i]).0.bits),
                )
        },
        Record::Pointer { key, page } => stands_at(
            data,
            at,
            four_numbers(key) + u32_bytes(0) + u64_bytes(page.offset) + u32_bytes(page.size)
                + u64_bytes(page.subtree_time_min.bits) + u64_bytes(page.subtree_time_max.bits),
        ),
    }
}

/// How many bytes an entry takes.
pub open spec fn entry_size(entry: Record) -> int {
    match entry {
        Record::Node { samples, .. } => 20 + 8 * (samples.len() as int),
        Record::Pointer { .. } => 48,
    }
}

/// Where the `n`-th of the entries begins, the first of which begins at `start`: each follows the
/// one before.
pub open spec fn entry_place(entries: Seq<Record>, start: int, n: int) -> int
    decreases n,
{
    if n <= 0 {
        start
    } else {
        entry_place(entries, start, n - 1) + entry_size(entries[n - 1])
    }
}

/// Whether the entries stand in a page one after the other, from `start` on up to `end`.
pub open spec fn entries_stand(data: Seq<u8>, entries: Seq<Record>, start: int, end: int) -> bool {
    &&& forall|n: int|
        0 <= n < entries.len() ==> entry_stands(
            data,
            entry_place(entries, start, n),
            #[trigger] entries[n],
        )
    &&& end == entry_place(entries, start, entries.len() as int)
}

/// Whether nothing but padding follows at offset `end`: fewer bytes than any entry begins with.
pub open spec fn is_padding(data: Seq<u8>, end: int) -> bool {
    0 <= end <= data.len() < end + 20
}

/// Whether an entry that is cut off follows at offset `end`: it tells by its number of samples that
/// it takes more bytes than there are.
pub open spec fn is_cut_off(data: Seq<u8>, end: int, count: u32) -> bool {
    &&& stands_at(data, end + 16, u32_bytes(count))
    &&& end >= 0
    &&& data.len() < end + if count == 0 {
        48
    } else {
        20 + 8 * count
    }
}

/// Whether nodes and pending pages are what they were before, with these entries taken in. The
/// samples of a node are those of the last entry that it has; a node without an entry is as it was.
/// The pages that entries point to come behind those that were pending, in order.
pub open spec fn taken_in(
    nodes_before: Map<VoxelKey, Seq<GpsTime>>,
    pending_before: Seq<PendingPage>,
    entries: Seq<Record>,
    nodes: Map<VoxelKey, Seq<GpsTime>>,
    pending: Seq<PendingPage>,
) -> bool {
    &&& forall|key: VoxelKey, i: int|
        0 <= i < entries.len() && #[trigger] is_of(entries[i], key) && (forall|j: int|
            i < j < entries.len() ==> !is_of(#[trigger] entries[j], key)) ==> nodes.contains_key(
            key,
        ) && nodes[key] == entries[i]->samples
    &&& forall|key: VoxelKey|
        #![trigger nodes.contains_key(key)]
        (forall|j: int| 0 <= j < entries.len() ==> !is_of(#[trigger] entries[j], key)) ==> (
        nodes.contains_key(key) <==> nodes_before.contains_key(key)) && (nodes.contains_key(key)
            ==> nodes[key] == nodes_before[key])
    &&& pending == pending_before + entries.filter(|e: Record| e is Pointer).map_values(
        |e: Record| e->page,
    )
}

/// Whether this is an entry of this node.
pub open spec fn is_of(entry: Record, key: VoxelKey) -> bool {
    entry is Node && entry->Node_key == key
}

/// What entering entries comes to.
pub(crate) proof fn lemma_taken_in(
    nodes: Map<VoxelKey, Seq<GpsTime>>,
    pending: Seq<PendingPage>,
    entries: Seq<Record>,
)
    ensures
        taken_in(nodes, pending, entries, entered(nodes, entries), pending + pointed_to(entries)),
    decreases entries.len(),
{
    reveal(Seq::filter);
    let points = |e: Record| e is Pointer;
    let page = |e: Record| e->page;
    if entries.len() == 0 {
        assert(pointed_to(entries) =~= entries.filter(points).map_values(page));
    } else {
        let rest = entries.drop_last();
        let last = entries.last();
        lemma_taken_in(nodes, pending, rest);
        assert(pending + pointed_to(rest) == pending + rest.filter(points).map_values(page));
        assert(pointed_to(rest) =~= (pending + pointed_to(rest)).skip(pending.len() as int));
        assert(rest.filter(points).map_values(page) =~= (pending + rest.filter(points).map_values(
            page,
        )).skip(pending.len() as int));
        assert(pointed_to(entries) =~= entries.filter(points).map_values(page));
        let after = entered(nodes, entries);
        assert forall|key: VoxelKey, i: int|
            0 <= i < entries.len() && #[trigger] is_of(entries[i], key) && (forall|j: int|
                i < j < entries.len() ==> !is_of(
                    #[trigger] entries[j],
                    key,
                )) implies after.contains_key(key) && after[key] == entries[i]->samples by {
            if i < rest.len() {
                assert(!is_of(entries[entries.len() - 1], key));
                assert(is_of(rest[i], key));
                assert forall|j: int| i < j < rest.len() implies !is_of(#[trigger] rest[j], key) by {
                    assert(rest[j] == entries[j]);
                }
            }
        }
        assert forall|key: VoxelKey|
            #![trigger after.contains_key(key)]
            forall|j: int|
                0 <= j < entries.len() ==> !is_of(#[trigger] entries[j], key) implies (
        after.contains_key(key) <==> nodes.contains_key(key)) && (after.contains_key(key)
            ==> after[key] == nodes[key]) by {
            assert(!is_of(entries[entries.len() - 1], key));
            assert forall|j: int| 0 <= j < rest.len() implies !is_of(#[trigger] rest[j], key) by {
                assert(rest[j] == entries[j]);
            }
            assert(entered(nodes, rest).contains_key(key) == nodes.contains_key(key));
        }
    }
}

/// A key is found where its numbers stand.
proof fn lemma_key(data: Seq<u8>, at: int, key: VoxelKey)
    requires
        stands_at(data, at, four_numbers(key)),
    ensures
        crate::temporal_page::key_at(data, at) == key,
        four_numbers(key).len() == 16,
{
    lemma_number_sizes();
    let (l, x, y, z) = (
        i32_bytes(key.level),
        i32_bytes(key.x),
        i32_bytes(key.y),
        i32_bytes(key.z),
    );
    lemma_stands_split(data, at, l + x + y, z);
    lemma_stands_split(data, at, l + x, y);
    lemma_stands_split(data, at, l, x);
    law_i32_reads_back(data, at, key.level);
    law_i32_reads_back(data, at + 4, key.x);
    law_i32_reads_back(data, at + 8, key.y);
    law_i32_reads_back(data, at + 12, key.z);
}

/// An entry is found where it stands.
pub(crate) proof fn lemma_entry(data: Seq<u8>, at: int, entry: Record)
    requires
        entry_stands(data, at, entry),
    ensures
        record_at(data, at) == Some(entry),
        record_size(data, at) == entry_size(entry),
        0 <= at,
        at + entry_size(entry) <= data.len(),
{
    lemma_number_sizes();
    match entry {
        Record::Node { key, samples } => {
            let count = u32_bytes(samples.len() as u32);
            lemma_stands_split(data, at, four_numbers(key), count);
            lemma_key(data, at, key);
            law_u32_reads_back(data, at + 16, samples.len() as u32);
            assert forall|i: int| 0 <= i < samples.len() implies #[trigger] samples[i] == GpsTime(
                number_at(data, at + 20 + 8 * i),
            ) by {
                law_u64_reads_back(data, at + 20 + 8 * i, samples[i].0.bits);
            }
            assert(samples =~= Seq::new(
                samples.len(),
                |i: int| GpsTime(number_at(data, at + 20 + 8 * i)),
            ));
            let last = samples.len() - 1;
            assert(stands_at(data, at + 20 + 8 * last, u64_bytes(samples[last].0.bits)));
        },
        Record::Pointer { key, page } => {
            let head = four_numbers(key) + u32_bytes(0);
            let (offset, size) = (u64_bytes(page.offset), u32_bytes(page.size));
            let (min, max) = (
                u64_bytes(page.subtree_time_min.bits),
                u64_bytes(page.subtree_time_max.bits),
            );
            lemma_stands_split(data, at, head + offset + size + min, max);
            lemma_stands_split(data, at, head + offset + size, min);
            lemma_stands_split(data, at, head + offset, size);
            lemma_stands_split(data, at, head, offset);
            lemma_stands_split(data, at, four_numbers(key), u32_bytes(0));
            lemma_key(data, at, key);
            law_u32_reads_back(data, at + 16, 0);
            law_u64_reads_back(data, at + 20, page.offset);
            law_u32_reads_back(data, at + 28, page.size);
            law_u64_reads_back(data, at + 32, page.subtree_time_min.bits);
            law_u64_reads_back(data, at + 40, page.subtree_time_max.bits);
        },
    }
}

/// The entries that are found from the `k`-th on.
proof fn lemma_entries_from(data: Seq<u8>, entries: Seq<Record>, start: int, end: int, k: int)
    requires
        entries_stand(data, entries, start, end),
        0 <= k <= entries.len(),
    ensures
        records_from(data, entry_place(entries, start, k)) == entries.skip(k) + records_from(
            data,
            end,
        ),
        complete_from(data, entry_place(entries, start, k)) == complete_from(data, end),
    decreases entries.len() - k,
{
    let at = entry_place(entries, start, k);
    if k == entries.len() {
        assert(entries.skip(k) + records_from(data, end) =~= records_from(data, end));
    } else {
        assert(entry_stands(data, at, entries[k]));
        lemma_entry(data, at, entries[k]);
        lemma_entries_from(data, entries, start, end, k + 1);
        assert(entry_place(entries, start, k + 1) == at + entry_size(entries[k]));
        assert(seq![entries[k]] + (entries.skip(k + 1) + records_from(data, end)) =~= entries.skip(
            k,
        ) + records_from(data, end));
    }
}

/// The entries of a page, where all of them stand in it.
pub(crate) proof fn lemma_page(
    data: Seq<u8>,
    entries: Seq<Record>,
    start: int,
    end: int,
    count: u32,
)
    requires
        entries_stand(data, entries, start, end),
    ensures
        records_from(data, start) == entries + records_from(data, end),
        is_padding(data, end) ==> records_from(data, start) == entries && complete_from(data, start),
        is_cut_off(data, end, count) ==> records_from(data, start) == entries && !complete_from(
            data,
            start,
        ),
{
    lemma_number_sizes();
    lemma_entries_from(data, entries, start, end, 0);
    assert(entries.skip(0) =~= entries);
    if is_padding(data, end) {
        assert(entries + records_from(data, end) =~= entries);
    }
    if is_cut_off(data, end, count) {
        law_u32_reads_back(data, end + 16, count);
        assert(entries + records_from(data, end) =~= entries);
    }
}

/// A cache with a header takes in the entries that stand in the root page, one after the other. A
/// page that ends in padding is read to its end; one that ends in an entry that is cut off is an
/// I/O error, and the entries before it are taken in.
pub proof fn law_root_page_is_taken_in(entries: Seq<Record>, end: int, count: u32)
    ensures
        forall|cache: &mut TemporalCache, data: &[u8], r: Result<(), TemporalError>| #[trigger]
            call_ensures(TemporalCache::load_root_page, (cache, data), r) && (
            *cache).loaded_header() is Some && entries_stand(data@, entries, 0, end) && (is_padding(
                data@,
                end,
            ) || is_cut_off(data@, end, count)) ==> {
                &&& r is Ok <==> is_padding(data@, end)
                &&& r matches Err(e) ==> e is Io
                &&& (*final(cache)).loaded_header() == (*cache).loaded_header()
                &&& taken_in(
                    (*cache).nodes(),
                    (*cache).pending(),
                    entries,
                    (*final(cache)).nodes(),
                    (*final(cache)).pending(),
                )
            },
{
    assert forall|cache: &mut TemporalCache, data: &[u8], r: Result<(), TemporalError>| #[trigger]
        call_ensures(TemporalCache::load_root_page, (cache, data), r) && (
        *cache).loaded_header() is Some && entries_stand(data@, entries, 0, end) && (is_padding(
            data@,
            end,
        ) || is_cut_off(data@, end, count)) implies {
        &&& r is Ok <==> is_padding(data@, end)
        &&& r matches Err(e) ==> e is Io
        &&& (*final(cache)).loaded_header() == (*cache).loaded_header()
        &&& taken_in(
            (*cache).nodes(),
            (*cache).pending(),
            entries,
            (*final(cache)).nodes(),
            (*final(cache)).pending(),
        )
    } by {
        lemma_number_sizes();
        lemma_page(data@, entries, 0, end, count);
        lemma_taken_in((*cache).nodes(), (*cache).pending(), entries);
    }
}

/// A cache without a header refuses the root page as if the header were truncated, and stays as it
/// was.
pub proof fn law_root_page_needs_a_header()
    ensures
        forall|cache: &mut TemporalCache, data: &[u8], r: Result<(), TemporalError>| #[trigger]
            call_ensures(TemporalCache::load_root_page, (cache, data), r) && (
            *cache).loaded_header() is None ==> {
                &&& r == Err::<(), _>(TemporalError::TruncatedHeader)
                &&& (*final(cache)).loaded_header() is None
                &&& (*final(cache)).nodes() == (*cache).nodes()
                &&& (*final(cache)).pending() == (*cache).pending()
            },
{
    assert forall|cache: &mut TemporalCache, data: &[u8], r: Result<(), TemporalError>| #[trigger]
        call_ensures(TemporalCache::load_root_page, (cache, data), r) && (
        *cache).loaded_header() is None implies {
        &&& r == Err::<(), _>(TemporalError::TruncatedHeader)
        &&& (*final(cache)).loaded_header() is None
        &&& (*final(cache)).nodes() == (*cache).nodes()
        &&& (*final(cache)).pending() == (*cache).pending()
    } by {
        assert((*cache).pending() + pointed_to(Seq::empty()) =~= (*cache).pending());
    }
}

/// What is taken in of pages that are complete.
proof fn lemma_loaded_lists(pages: Seq<Vec<u8>>, lists: Seq<Seq<Record>>)
    requires
        lists.len() == pages.len(),
        forall|i: int|
            0 <= i < pages.len() ==> complete_from((#[trigger] pages[i])@, 0) && records_from(
                pages[i]@,
                0,
            ) == lists[i],
    ensures
        all_complete(pages),
        loaded_records(pages) == lists.flatten(),
    decreases pages.len(),
{
    lists.lemma_flatten_and_flatten_alt_are_equivalent();
    if pages.len() == 0 {
        assert(loaded_records(pages) =~= lists.flatten());
    } else {
        let (rest, some) = (pages.drop_last(), lists.drop_last());
        assert forall|i: int| 0 <= i < rest.len() implies complete_from(
            (#[trigger] rest[i])@,
            0,
        ) && records_from(rest[i]@, 0) == some[i] by {
            assert(rest[i] == pages[i]);
        }
        lemma_loaded_lists(rest, some);
        some.lemma_flatten_and_flatten_alt_are_equivalent();
        assert(pages[pages.len() - 1] == pages.last());
    }
}

/// What is taken in of pages that end in padding.
proof fn lemma_loaded(pages: Seq<Vec<u8>>, lists: Seq<Seq<Record>>, ends: Seq<int>)
    requires
        pages_hold(pages, lists, ends),
    ensures
        all_complete(pages),
        loaded_records(pages) == lists.flatten(),
{
    assert forall|i: int| 0 <= i < pages.len() implies complete_from((#[trigger] pages[i])@, 0)
        && records_from(pages[i]@, 0) == lists[i] by {
        lemma_page(pages[i]@, lists[i], 0, ends[i], 0);
    }
    lemma_loaded_lists(pages, lists);
}

/// A cache takes in the entries that stand in pages, page by page: where each page ends in padding,
/// all of them, one page's behind the other's.
pub proof fn law_pages_are_taken_in(lists: Seq<Seq<Record>>, ends: Seq<int>)
    ensures
        forall|cache: &mut TemporalCache, pages: &[Vec<u8>], r: Result<(), TemporalError>| #[trigger]
            call_ensures(TemporalCache::load_pages, (cache, pages), r) && pages_hold(
                pages@,
                lists,
                ends,
            ) ==> {
                &&& r is Ok
                &&& (*final(cache)).loaded_header() == (*cache).loaded_header()
                &&& taken_in(
                    (*cache).nodes(),
                    (*cache).pending(),
                    lists.flatten(),
                    (*final(cache)).nodes(),
                    (*final(cache)).pending(),
                )
            },
{
    assert forall|cache: &mut TemporalCache, pages: &[Vec<u8>], r: Result<(), TemporalError>|
        #[trigger]
        call_ensures(TemporalCache::load_pages, (cache, pages), r) && pages_hold(
            pages@,
            lists,
            ends,
        ) implies {
        &&& r is Ok
        &&& (*final(cache)).loaded_header() == (*cache).loaded_header()
        &&& taken_in(
            (*cache).nodes(),
            (*cache).pending(),
            lists.flatten(),
            (*final(cache)).nodes(),
            (*final(cache)).pending(),
        )
    } by {
        lemma_loaded(pages@, lists, ends);
        lemma_taken_in((*cache).nodes(), (*cache).pending(), lists.flatten());
    }
}

/// Whether these entries stand in the pages, each of which ends in padding.
pub open spec fn pages_hold(
    pages: Seq<Vec<u8>>,
    lists: Seq<Seq<Record>>,
    ends: Seq<int>,
) -> bool {
    &&& lists.len() == pages.len()
    &&& forall|i: int|
        0 <= i < pages.len() ==> entries_stand((#[trigger] pages[i])@, lists[i], 0, ends[i])
            && is_padding(pages[i]@, ends[i])
}

/// The first page that ends in an entry that is cut off is the last that a cache takes in: an I/O
/// error, with the entries of the pages before it and its own that are whole.
pub proof fn law_cut_off_page_is_the_last(
    lists: Seq<Seq<Record>>,
    ends: Seq<int>,
    n: int,
    count: u32,
)
    ensures
        forall|cache: &mut TemporalCache, pages: &[Vec<u8>], r: Result<(), TemporalError>| #[trigger]
            call_ensures(TemporalCache::load_pages, (cache, pages), r) && 0 <= n < pages@.len()
                && lists.len() == n + 1 && pages_hold(pages@.take(n), lists.take(n), ends)
                && entries_stand(pages@[n]@, lists[n], 0, ends[n]) && is_cut_off(
                pages@[n]@,
                ends[n],
                count,
            ) ==> {
                &&& r matches Err(e) && e is Io
                &&& (*final(cache)).loaded_header() == (*cache).loaded_header()
                &&& taken_in(
                    (*cache).nodes(),
                    (*cache).pending(),
                    lists.flatten(),
                    (*final(cache)).nodes(),
                    (*final(cache)).pending(),
                )
            },
{
    assert forall|cache: &mut TemporalCache, pages: &[Vec<u8>], r: Result<(), TemporalError>|
        #[trigger]
        call_ensures(TemporalCache::load_pages, (cache, pages), r) && 0 <= n < pages@.len()
            && lists.len() == n + 1 && pages_hold(pages@.take(n), lists.take(n), ends)
            && entries_stand(pages@[n]@, lists[n], 0, ends[n]) && is_cut_off(
            pages@[n]@,
            ends[n],
            count,
        ) implies {
        &&& r matches Err(e) && e is Io
        &&& (*final(cache)).loaded_header() == (*cache).loaded_header()
        &&& taken_in(
            (*cache).nodes(),
            (*cache).pending(),
            lists.flatten(),
            (*final(cache)).nodes(),
            (*final(cache)).pending(),
        )
    } by {
        let good = pages@.take(n);
        lemma_loaded(good, lists.take(n), ends);
        lemma_page(pages@[n]@, lists[n], 0, ends[n], count);
        lists.lemma_flatten_and_flatten_alt_are_equivalent();
        lists.take(n).lemma_flatten_and_flatten_alt_are_equivalent();
        assert(lists.drop_last() =~= lists.take(n));
        assert(pages@.take(n + 1).drop_last() =~= good);
        assert(loaded_records(pages@.take(n + 1)) == lists.flatten());
        lemma_rest_is_left(pages@, n, pages@.len() as int);
        assert(pages@.take(pages@.len() as int) =~= pages@);
        lemma_taken_in((*cache).nodes(), (*cache).pending(), lists.flatten());
    }
}

/// What comes behind a page that is cut off is left out.
proof fn lemma_rest_is_left(pages: Seq<Vec<u8>>, n: int, m: int)
    requires
        0 <= n < m <= pages.len(),
        !complete_from(pages[n]@, 0),
    ensures
        !all_complete(pages.take(m)),
        loaded_records(pages.take(m)) == loaded_records(pages.take(n + 1)),
    decreases m,
{
    assert(!complete_from(pages.take(m)[n]@, 0));
    if m > n + 1 {
        lemma_rest_is_left(pages, n, m - 1);
        assert(pages.take(m).drop_last() =~= pages.take(m - 1));
    }
}

/// The pages that are taken for a time range are those whose latest time is not before it and whose
/// earliest time not after it, in order, each by its offset and size. The others stay pending, and
/// nothing else changes.
pub proof fn law_pages_are_taken_by_their_times()
    ensures
        forall|cache: &mut TemporalCache, start: GpsTime, end: GpsTime, r: Vec<(u64, u64)>|
            #[trigger]
            call_ensures(TemporalCache::take_pages_for_time_range, (cache, start, end), r) ==> {
                &&& r@ == (*cache).pending().filter(
                    |p: PendingPage|
                        start.0.at_most(p.subtree_time_max) && p.subtree_time_min.at_most(end.0),
                ).map_values(|p: PendingPage| (p.offset, p.size as u64))
                &&& (*final(cache)).pending() == (*cache).pending().filter(
                    |p: PendingPage|
                        !(start.0.at_most(p.subtree_time_max) && p.subtree_time_min.at_most(end.0)),
                )
                &&& (*final(cache)).nodes() == (*cache).nodes()
                &&& (*final(cache)).loaded_header() == (*cache).loaded_header()
            },
        forall|cache: &mut TemporalCache, r: Vec<(u64, u64)>| #[trigger]
            call_ensures(TemporalCache::take_all_pages, (cache,), r) ==> {
                &&& r@ == (*cache).pending().map_values(|p: PendingPage| (p.offset, p.size as u64))
                &&& (*final(cache)).pending().len() == 0
                &&& (*final(cache)).nodes() == (*cache).nodes()
                &&& (*final(cache)).loaded_header() == (*cache).loaded_header()
            },
{
    assert forall|cache: &mut TemporalCache, start: GpsTime, end: GpsTime, r: Vec<(u64, u64)>|
        #[trigger]
        call_ensures(TemporalCache::take_pages_for_time_range, (cache, start, end), r) implies {
        &&& r@ == (*cache).pending().filter(
            |p: PendingPage|
                start.0.at_most(p.subtree_time_max) && p.subtree_time_min.at_most(end.0),
        ).map_values(|p: PendingPage| (p.offset, p.size as u64))
        &&& (*final(cache)).pending() == (*cache).pending().filter(
            |p: PendingPage|
                !(start.0.at_most(p.subtree_time_max) && p.subtree_time_min.at_most(end.0)),
        )
    } by {
        assert((|p: PendingPage| p.reaches(start, end)) =~= (|p: PendingPage|
            start.0.at_most(p.subtree_time_max) && p.subtree_time_min.at_most(end.0)));
        assert((|p: PendingPage| !p.reaches(start, end)) =~= (|p: PendingPage|
            !(start.0.at_most(p.subtree_time_max) && p.subtree_time_min.at_most(end.0))));
    }
}

/// A cache takes in a header of version 1 with a stride, as it was written, and keeps what it knows
/// else; it refuses any other, and stays as it was.
pub proof fn law_cache_header_is_what_was_written()
    ensures
        forall|
            cache: &mut TemporalCache,
            data: &[u8],
            r: Result<(), TemporalError>,
            h: TemporalHeader,
            reserved: u32,
        |
            #![trigger
                call_ensures(TemporalCache::load_header, (cache, data), r),
                header_stands(data@, h, reserved)
            ]
            call_ensures(TemporalCache::load_header, (cache, data), r) && header_stands(
                data@,
                h,
                reserved,
            ) ==> {
                &&& r is Ok <==> h.version == 1 && h.stride > 0
                &&& h.version != 1 ==> r == Err::<(), _>(
                    TemporalError::UnsupportedVersion(h.version),
                )
                &&& h.version == 1 && h.stride == 0 ==> r == Err::<(), _>(
                    TemporalError::InvalidStride(0),
                )
                &&& r is Ok ==> (*final(cache)).loaded_header() == Some(h)
            },
        forall|cache: &mut TemporalCache, data: &[u8], r: Result<(), TemporalError>| #[trigger]
            call_ensures(TemporalCache::load_header, (cache, data), r) ==> {
                &&& data@.len() < 32 <==> r == Err::<(), _>(TemporalError::TruncatedHeader)
                &&& r is Err ==> (*final(cache)).loaded_header() == (*cache).loaded_header()
                &&& (*final(cache)).nodes() == (*cache).nodes()
                &&& (*final(cache)).pending() == (*cache).pending()
            },
{
    assert forall|
        cache: &mut TemporalCache,
        data: &[u8],
        r: Result<(), TemporalError>,
        h: TemporalHeader,
        reserved: u32,
    |
        #![trigger
            call_ensures(TemporalCache::load_header, (cache, data), r),
            header_stands(data@, h, reserved)
        ]
        call_ensures(TemporalCache::load_header, (cache, data), r) && header_stands(
            data@,
            h,
            reserved,
        ) implies {
        &&& r is Ok <==> h.version == 1 && h.stride > 0
        &&& h.version != 1 ==> r == Err::<(), _>(TemporalError::UnsupportedVersion(h.version))
        &&& h.version == 1 && h.stride == 0 ==> r == Err::<(), _>(TemporalError::InvalidStride(0))
        &&& r is Ok ==> (*final(cache)).loaded_header() == Some(h)
    } by {
        lemma_header(data@, h, reserved);
    }
}

/// Whether the bytes of this header stand at the start of a buffer: version, stride, number of
/// nodes, number of pages, offset and size of the root page, four reserved bytes.
pub open spec fn header_stands(data: Seq<u8>, h: TemporalHeader, reserved: u32) -> bool {
    stands_at(
        data,
        0,
        u32_bytes(h.version) + u32_bytes(h.stride) + u32_bytes(h.node_count) + u32_bytes(
            h.page_count,
        ) + u64_bytes(h.root_page_offset) + u32_bytes(h.root_page_size) + u32_bytes(reserved),
    )
}

/// A header is found where it stands.
pub(crate) proof fn lemma_header(data: Seq<u8>, h: TemporalHeader, reserved: u32)
    requires
        header_stands(data, h, reserved),
    ensures
        crate::temporal_header::header_at_start(data) == h,
        data.len() >= 32,
{
    lemma_number_sizes();
    let b4 = u32_bytes(h.version);
    let b8 = b4 + u32_bytes(h.stride);
    let b12 = b8 + u32_bytes(h.node_count);
    let b16 = b12 + u32_bytes(h.page_count);
    let b24 = b16 + u64_bytes(h.root_page_offset);
    let b28 = b24 + u32_bytes(h.root_page_size);
    lemma_stands_split(data, 0, b28, u32_bytes(reserved));
    lemma_stands_split(data, 0, b24, u32_bytes(h.root_page_size));
    lemma_stands_split(data, 0, b16, u64_bytes(h.root_page_offset));
    lemma_stands_split(data, 0, b12, u32_bytes(h.page_count));
    lemma_stands_split(data, 0, b8, u32_bytes(h.node_count));
    lemma_stands_split(data, 0, b4, u32_bytes(h.stride));
    law_u32_reads_back(data, 0, h.version);
    law_u32_reads_back(data, 4, h.stride);
    law_u32_reads_back(data, 8, h.node_count);
    law_u32_reads_back(data, 12, h.page_count);
    law_u64_reads_back(data, 16, h.root_page_offset);
    law_u32_reads_back(data, 24, h.root_page_size);
}

/// A new cache has no header, no nodes and nothing pending.
pub proof fn law_new_cache_is_empty(cache: TemporalCache)
    requires
        call_ensures(TemporalCache::new, (), cache) || call_ensures(
            TemporalCache::default,
            (),
            cache,
        ),
    ensures
        cache.loaded_header() is None,
        forall|key: VoxelKey| !(#[trigger] cache.nodes().contains_key(key)),
        cache.pending().len() == 0,
{
}

/// A cache tells what it knows: its header, its stride, where the root page is, and how many nodes
/// it has samples of.
pub proof fn law_cache_tells_what_it_knows(
    cache: TemporalCache,
    stride: u32,
    header: Option<&TemporalHeader>,
    root: Result<(u64, u64), TemporalError>,
    count: usize,
    empty: bool,
)
    requires
        call_ensures(TemporalCache::stride, (&cache,), stride),
        call_ensures(TemporalCache::header, (&cache,), header),
        call_ensures(TemporalCache::root_page_request, (&cache,), root),
        call_ensures(TemporalCache::len, (&cache,), count),
        call_ensures(TemporalCache::is_empty, (&cache,), empty),
    ensures
        match cache.loaded_header() {
            Some(h) => {
                &&& stride == h.stride && stride > 0
                &&& header matches Some(told) && *told == h
                &&& root == Ok::<_, TemporalError>((h.root_page_offset, h.root_page_size as u64))
            },
            None => {
                &&& stride == 0
                &&& header is None
                &&& root == Err::<(u64, u64), _>(TemporalError::TruncatedHeader)
                &&& empty
            },
        },
        count == cache.nodes().dom().len(),
        empty <==> forall|key: VoxelKey| !(#[trigger] cache.nodes().contains_key(key)),
{
    if forall|key: VoxelKey| !(#[trigger] cache.nodes().contains_key(key)) {
        assert(cache.nodes() =~= Map::<VoxelKey, Seq<GpsTime>>::empty());
    }
}

/// A cache has an entry of a node if and only if it has samples of it: the node's, with these
/// samples.
pub proof fn law_cache_gives_the_node(
    cache: TemporalCache,
    key: VoxelKey,
    r: Option<&NodeTemporalEntry>,
)
    requires
        call_ensures(TemporalCache::get, (&cache, &key), r),
    ensures
        r is Some <==> cache.nodes().contains_key(key),
        r matches Some(entry) ==> entry.node() == key && entry.times() == cache.nodes()[key],
{
}

/// The entries of a cache are listed each once, under their nodes.
pub proof fn law_entries_are_listed_once(
    cache: TemporalCache,
    pairs: Vec<(&VoxelKey, &NodeTemporalEntry)>,
)
    requires
        call_ensures(TemporalCache::iter, (&cache,), pairs),
    ensures
        forall|i: int|
            0 <= i < pairs@.len() ==> cache.nodes().contains_key(*(#[trigger] pairs@[i]).0)
                && pairs@[i].1.times() == cache.nodes()[*pairs@[i].0] && pairs@[i].1.node()
                == *pairs@[i].0,
        forall|i: int, j: int|
            0 <= i < j < pairs@.len() ==> *(#[trigger] pairs@[i]).0 != *(#[trigger] pairs@[j]).0,
        forall|key: VoxelKey| #[trigger]
            cache.nodes().contains_key(key) ==> exists|i: int|
                0 <= i < pairs@.len() && *(#[trigger] pairs@[i]).0 == key,
{
    let entries = choose|entries: Map<VoxelKey, NodeTemporalEntry>|
        keyed(entries) && times_of(entries) == cache.nodes() && #[trigger] lists(pairs@, entries);
    assert forall|i: int| 0 <= i < pairs@.len() implies cache.nodes().contains_key(
        *(#[trigger] pairs@[i]).0,
    ) && pairs@[i].1.times() == cache.nodes()[*pairs@[i].0] && pairs@[i].1.node()
        == *pairs@[i].0 by {
        assert(entries.contains_key(*pairs@[i].0));
        assert(times_of(entries).contains_key(*pairs@[i].0));
    }
    assert forall|key: VoxelKey| #[trigger] cache.nodes().contains_key(key) implies exists|i: int|
        0 <= i < pairs@.len() && *(#[trigger] pairs@[i]).0 == key by {
        assert(times_of(entries).contains_key(key));
        assert(entries.contains_key(key));
    }
}

/// A page that is pending overlaps a time range if and only if its latest time is not before the
/// start and its earliest time not after the end.
pub proof fn law_page_overlaps_by_its_times(
    page: PendingPage,
    start: GpsTime,
    end: GpsTime,
    r: bool,
)
    requires
        call_ensures(PendingPage::overlaps, (&page, start, end), r),
    ensures
        r <==> start.0.at_most(page.subtree_time_max) && page.subtree_time_min.at_most(end.0),
{
}

} // verus!
