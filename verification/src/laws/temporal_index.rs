//! The temporal index that is parsed at once.

use crate::error::TemporalError;
use crate::gps_time::GpsTime;
use crate::laws::temporal_pages::{
    entries_stand, header_stands, is_cut_off, is_of, is_padding, lemma_header, lemma_page,
    lemma_taken_in, taken_in,
};
use crate::temporal_cache::TemporalCache;
use crate::temporal_header::TemporalHeader;
use crate::temporal_index::{
    distinct_nodes, first_temporal, is_temporal, lemma_counted_nodes_are_all, nodes_of, shortest,
    TemporalIndex,
};
use crate::temporal_node::NodeTemporalEntry;
use crate::temporal_page::{pointed_to, records_from, PendingPage, Record};
use crate::types::VoxelKey;
use crate::vlr::VlrData;
use vstd::prelude::*;

verus! {

/// Whether the record id is 1000 and the user id is `copc_temporal`.
pub open spec fn is_index(vlr: VlrData) -> bool {
    &&& vlr.record_id == 1000
    &&& vlr.user_id@ == seq!['c', 'o', 'p', 'c', '_', 't', 'e', 'm', 'p', 'o', 'r', 'a', 'l']
}

/// What makes a record a temporal index.
proof fn lemma_is_index(vlr: VlrData)
    ensures
        is_temporal(vlr) <==> is_index(vlr),
{
    reveal_strlit("copc_temporal");
    assert("copc_temporal"@ =~= seq![
        'c',
        'o',
        'p',
        'c',
        '_',
        't',
        'e',
        'm',
        'p',
        'o',
        'r',
        'a',
        'l',
    ]);
}

/// There is no index if and only if no record is one.
pub proof fn law_no_index_where_no_record_is_one(
    evlrs: &[VlrData],
    r: Result<Option<TemporalIndex>, TemporalError>,
)
    requires
        call_ensures(TemporalIndex::from_evlrs, (evlrs,), r),
    ensures
        (r matches Ok(None)) <==> forall|i: int|
            0 <= i < evlrs@.len() ==> !is_index(#[trigger] evlrs@[i]),
{
    assert forall|i: int| 0 <= i < evlrs@.len() implies is_index(#[trigger] evlrs@[i])
        == is_temporal(evlrs@[i]) by {
        lemma_is_index(evlrs@[i]);
    }
}

/// Whether no node has two of the entries.
pub open spec fn each_node_once(entries: Seq<Record>) -> bool {
    forall|i: int, j: int, key: VoxelKey|
        0 <= i < j < entries.len() && #[trigger] is_of(entries[i], key) ==> !(#[trigger] is_of(
            entries[j],
            key,
        ))
}

/// What entries tell of nodes, where no node has two.
proof fn lemma_nodes(entries: Seq<Record>)
    requires
        each_node_once(entries),
    ensures
        distinct_nodes(entries),
        nodes_of(entries).dom().finite(),
        nodes_of(entries).dom().len() == entries.filter(|e: Record| e is Node).len(),
        forall|key: VoxelKey| #[trigger]
            nodes_of(entries).contains_key(key) <==> exists|i: int|
                0 <= i < entries.len() && #[trigger] is_of(entries[i], key),
        forall|key: VoxelKey, i: int|
            0 <= i < entries.len() && #[trigger] is_of(entries[i], key) ==> nodes_of(entries)[key]
                == entries[i]->samples,
    decreases entries.len(),
{
    reveal(Seq::filter);
    assert forall|i: int, j: int|
        #![trigger entries[i], entries[j]]
        0 <= i < j < entries.len() && entries[i] is Node && entries[j] is Node implies entries[
        i]->Node_key != entries[j]->Node_key by {
        assert(is_of(entries[i], entries[i]->Node_key));
        assert(!is_of(entries[j], entries[i]->Node_key));
    }
    if entries.len() > 0 {
        let rest = entries.drop_last();
        let last = entries.len() - 1;
        assert forall|i: int, j: int, key: VoxelKey|
            0 <= i < j < rest.len() && #[trigger] is_of(rest[i], key) implies !(#[trigger] is_of(
            rest[j],
            key,
        )) by {
            assert(is_of(entries[i], key));
        }
        lemma_nodes(rest);
        assert forall|key: VoxelKey| #[trigger]
            nodes_of(entries).contains_key(key) implies exists|i: int|
            0 <= i < entries.len() && #[trigger] is_of(entries[i], key) by {
            if !is_of(entries[last], key) {
                let i = choose|i: int| 0 <= i < rest.len() && #[trigger] is_of(rest[i], key);
                assert(is_of(entries[i], key));
            }
        }
        assert forall|key: VoxelKey, i: int|
            0 <= i < entries.len() && #[trigger] is_of(entries[i], key) implies nodes_of(
            entries,
        ).contains_key(key) && nodes_of(entries)[key] == entries[i]->samples by {
            if i < last {
                assert(is_of(rest[i], key));
                assert(!is_of(entries[last], key));
            }
        }
        if entries[last] is Node {
            let key = entries[last]->Node_key;
            assert(is_of(entries[last], key));
            if nodes_of(rest).contains_key(key) {
                let i = choose|i: int| 0 <= i < rest.len() && #[trigger] is_of(rest[i], key);
                assert(is_of(entries[i], key));
            }
            assert(nodes_of(entries).dom() =~= nodes_of(rest).dom().insert(key));
        }
    }
}

/// The index is the first record that is one. It is read back from what was written to it: a header
/// of version 1 with a stride, which counts the nodes, and behind it the entries, one for each node,
/// with or without entries that point to pages among them. The index has the header's version and
/// stride, and of each node the samples that were written for it.
pub proof fn law_index_is_what_was_written(
    evlrs: &[VlrData],
    i: int,
    h: TemporalHeader,
    reserved: u32,
    entries: Seq<Record>,
    end: int,
    r: Result<Option<TemporalIndex>, TemporalError>,
)
    requires
        call_ensures(TemporalIndex::from_evlrs, (evlrs,), r),
        0 <= i < evlrs@.len(),
        is_index(evlrs@[i]),
        forall|k: int| 0 <= k < i ==> !is_index(#[trigger] evlrs@[k]),
        header_stands(evlrs@[i].data@, h, reserved),
        h.version == 1,
        h.stride > 0,
        h.node_count == entries.filter(|e: Record| e is Node).len(),
        entries_stand(evlrs@[i].data@, entries, 32, end),
        each_node_once(entries),
    ensures
        r matches Ok(Some(index)) && {
            &&& index.format() == 1
            &&& index.sampling() == h.stride
            &&& forall|key: VoxelKey| #[trigger]
                index.nodes().contains_key(key) <==> exists|n: int|
                    0 <= n < entries.len() && #[trigger] is_of(entries[n], key)
            &&& forall|key: VoxelKey, n: int|
                0 <= n < entries.len() && #[trigger] is_of(entries[n], key) ==> index.nodes()[key]
                    == entries[n]->samples
        },
{
    let data = evlrs@[i].data@;
    assert forall|k: int| 0 <= k < evlrs@.len() implies is_index(#[trigger] evlrs@[k])
        == is_temporal(evlrs@[k]) by {
        lemma_is_index(evlrs@[k]);
    }
    assert(first_temporal(evlrs@, i));
    lemma_header(data, h, reserved);
    lemma_page(data, entries, 32, end, 0);
    lemma_nodes(entries);
    lemma_counted_nodes_are_all(entries, records_from(data, end));
}

/// The nodes that have one of the entries.
pub open spec fn keys_of(entries: Seq<Record>) -> Set<VoxelKey> {
    Set::new(
        |key: VoxelKey|
            exists|i: int| 0 <= i < entries.len() && is_of(#[trigger] entries[i], key),
    )
}

/// The nodes that entries tell of are those that have one.
proof fn lemma_keys(entries: Seq<Record>)
    ensures
        nodes_of(entries).dom() == keys_of(entries),
        nodes_of(entries).dom().finite(),
    decreases entries.len(),
{
    if entries.len() == 0 {
        assert(nodes_of(entries).dom() =~= keys_of(entries));
    } else {
        let rest = entries.drop_last();
        let last = entries.len() - 1;
        lemma_keys(rest);
        assert forall|key: VoxelKey| nodes_of(entries).dom().contains(key) <==> keys_of(
            entries,
        ).contains(key) by {
            if keys_of(entries).contains(key) && !is_of(entries[last], key) {
                let i = choose|i: int| 0 <= i < entries.len() && is_of(#[trigger] entries[i], key);
                assert(is_of(rest[i], key));
                assert(keys_of(rest).contains(key));
            }
            if nodes_of(entries).dom().contains(key) {
                if is_of(entries[last], key) {
                    assert(keys_of(entries).contains(key));
                } else {
                    assert(keys_of(rest).contains(key));
                    let i = choose|i: int| 0 <= i < rest.len() && is_of(#[trigger] rest[i], key);
                    assert(is_of(entries[i], key));
                }
            }
            if is_of(entries[last], key) {
                assert(nodes_of(entries).dom().contains(key));
            }
        }
        assert(nodes_of(entries).dom() =~= keys_of(entries));
    }
}

/// Entries are read until as many nodes have one as the header counts. Nodes may have several of
/// them, of which the last counts; what follows the entry that makes the number full is not read.
pub proof fn law_index_ends_where_the_count_is_full(
    evlrs: &[VlrData],
    i: int,
    h: TemporalHeader,
    reserved: u32,
    entries: Seq<Record>,
    last: VoxelKey,
    end: int,
    r: Result<Option<TemporalIndex>, TemporalError>,
)
    requires
        call_ensures(TemporalIndex::from_evlrs, (evlrs,), r),
        0 <= i < evlrs@.len(),
        is_index(evlrs@[i]),
        forall|k: int| 0 <= k < i ==> !is_index(#[trigger] evlrs@[k]),
        header_stands(evlrs@[i].data@, h, reserved),
        h.version == 1,
        h.stride > 0,
        h.node_count == keys_of(entries).len(),
        entries_stand(evlrs@[i].data@, entries, 32, end),
        entries.len() > 0,
        is_of(entries.last(), last),
        !keys_of(entries.drop_last()).contains(last),
    ensures
        r matches Ok(Some(index)) && taken_in(
            Map::empty(),
            Seq::empty(),
            entries,
            index.nodes(),
            entries.filter(|e: Record| e is Pointer).map_values(|e: Record| e->page),
        ),
{
    let data = evlrs@[i].data@;
    assert forall|k: int| 0 <= k < evlrs@.len() implies is_index(#[trigger] evlrs@[k])
        == is_temporal(evlrs@[k]) by {
        lemma_is_index(evlrs@[k]);
    }
    assert(first_temporal(evlrs@, i));
    lemma_header(data, h, reserved);
    lemma_page(data, entries, 32, end, 0);
    let all = records_from(data, 32);
    let n = keys_of(entries).len();
    assert(all.take(entries.len() as int) =~= entries);
    lemma_keys(entries);
    lemma_keys(all);
    assert(keys_of(entries).subset_of(keys_of(all))) by {
        assert forall|key: VoxelKey| keys_of(entries).contains(key) implies keys_of(all).contains(
            key,
        ) by {
            let k = choose|k: int| 0 <= k < entries.len() && is_of(#[trigger] entries[k], key);
            assert(is_of(all[k], key));
        }
    }
    vstd::set_lib::lemma_len_subset(keys_of(entries), keys_of(all));
    assert forall|k: int| 0 <= k < entries.len() implies nodes_of(
        #[trigger] all.take(k),
    ).dom().len() < n by {
        let part = all.take(k);
        lemma_keys(part);
        assert forall|key: VoxelKey| keys_of(part).contains(key) implies keys_of(entries).remove(
            last,
        ).contains(key) by {
            let m = choose|m: int| 0 <= m < part.len() && is_of(#[trigger] part[m], key);
            assert(is_of(entries[m], key));
            assert(is_of(entries.drop_last()[m], key));
        }
        assert(is_of(entries[entries.len() - 1], last));
        assert(keys_of(entries).contains(last));
        vstd::set_lib::lemma_len_subset(keys_of(part), keys_of(entries).remove(last));
    }
    assert forall|m: int| #[trigger] shortest(all, n, m) implies m == entries.len() by {
        if m < entries.len() {
            assert(nodes_of(all.take(m)).dom().len() < n);
        }
        if m > entries.len() {
            assert(nodes_of(all.take(entries.len() as int)).dom().len() < n);
        }
    }
    lemma_taken_in(Map::empty(), Seq::empty(), entries);
    assert(Seq::<PendingPage>::empty() + pointed_to(entries) =~= pointed_to(entries));
    assert(Seq::<PendingPage>::empty() + entries.filter(|e: Record| e is Pointer).map_values(
        |e: Record| e->page,
    ) =~= entries.filter(|e: Record| e is Pointer).map_values(|e: Record| e->page));
}

/// An index whose header cannot be used is refused: as truncated where it is shorter than 32 bytes,
/// else with its version where that is not 1, else with its stride where that is zero.
pub proof fn law_index_with_a_bad_header_is_refused(
    evlrs: &[VlrData],
    i: int,
    h: TemporalHeader,
    reserved: u32,
    r: Result<Option<TemporalIndex>, TemporalError>,
)
    requires
        call_ensures(TemporalIndex::from_evlrs, (evlrs,), r),
        0 <= i < evlrs@.len(),
        is_index(evlrs@[i]),
        forall|k: int| 0 <= k < i ==> !is_index(#[trigger] evlrs@[k]),
    ensures
        evlrs@[i].data@.len() < 32 ==> r == Err::<Option<TemporalIndex>, _>(
            TemporalError::TruncatedHeader,
        ),
        header_stands(evlrs@[i].data@, h, reserved) && h.version != 1 ==> r == Err::<
            Option<TemporalIndex>,
            _,
        >(TemporalError::UnsupportedVersion(h.version)),
        header_stands(evlrs@[i].data@, h, reserved) && h.version == 1 && h.stride == 0 ==> r
            == Err::<Option<TemporalIndex>, _>(TemporalError::InvalidStride(0)),
{
    assert forall|k: int| 0 <= k < evlrs@.len() implies is_index(#[trigger] evlrs@[k])
        == is_temporal(evlrs@[k]) by {
        lemma_is_index(evlrs@[k]);
    }
    assert(first_temporal(evlrs@, i));
    if header_stands(evlrs@[i].data@, h, reserved) {
        lemma_header(evlrs@[i].data@, h, reserved);
    }
}

/// An index with entries of fewer nodes than its header counts, up to the padding or to an entry
/// that is cut off, is an I/O error.
pub proof fn law_index_with_too_few_nodes_is_refused(
    evlrs: &[VlrData],
    i: int,
    h: TemporalHeader,
    reserved: u32,
    entries: Seq<Record>,
    end: int,
    count: u32,
    r: Result<Option<TemporalIndex>, TemporalError>,
)
    requires
        call_ensures(TemporalIndex::from_evlrs, (evlrs,), r),
        0 <= i < evlrs@.len(),
        is_index(evlrs@[i]),
        forall|k: int| 0 <= k < i ==> !is_index(#[trigger] evlrs@[k]),
        header_stands(evlrs@[i].data@, h, reserved),
        h.version == 1,
        h.stride > 0,
        h.node_count > entries.filter(|e: Record| e is Node).len(),
        entries_stand(evlrs@[i].data@, entries, 32, end),
        is_padding(evlrs@[i].data@, end) || is_cut_off(evlrs@[i].data@, end, count),
        each_node_once(entries),
    ensures
        r matches Err(e) && e is Io,
{
    let data = evlrs@[i].data@;
    assert forall|k: int| 0 <= k < evlrs@.len() implies is_index(#[trigger] evlrs@[k])
        == is_temporal(evlrs@[k]) by {
        lemma_is_index(evlrs@[k]);
    }
    assert(first_temporal(evlrs@, i));
    lemma_header(data, h, reserved);
    lemma_page(data, entries, 32, end, count);
    lemma_nodes(entries);
}

/// An index tells what it holds: version, stride, the number of its nodes, and of each node its
/// entry.
pub proof fn law_index_tells_what_it_holds(
    index: TemporalIndex,
    version: u32,
    stride: u32,
    count: usize,
    key: VoxelKey,
    entry: Option<&NodeTemporalEntry>,
)
    requires
        call_ensures(TemporalIndex::version, (&index,), version),
        call_ensures(TemporalIndex::stride, (&index,), stride),
        call_ensures(TemporalIndex::len, (&index,), count),
        call_ensures(TemporalIndex::get, (&index, &key), entry),
    ensures
        version == index.format(),
        stride == index.sampling(),
        count == index.nodes().dom().len(),
        entry is Some <==> index.nodes().contains_key(key),
        entry matches Some(e) ==> e.node() == key && e.times() == index.nodes()[key],
{
}

/// Whether these are the entries of the nodes whose last sample is not before `start` and whose
/// first sample is not after `end`, each of them once.
pub open spec fn are_those_in_range(
    entries: Seq<&NodeTemporalEntry>,
    nodes: Map<VoxelKey, Seq<GpsTime>>,
    start: GpsTime,
    end: GpsTime,
) -> bool {
    &&& forall|key: VoxelKey|
        (nodes.contains_key(key) && start.0.at_most(nodes[key][nodes[key].len() - 1].0)
            && nodes[key][0].0.at_most(end.0)) <==> #[trigger] has_entry_of(entries, key)
    &&& forall|i: int|
        0 <= i < entries.len() ==> (#[trigger] entries[i]).times() == nodes[entries[i].node()]
    &&& forall|i: int, j: int|
        0 <= i < j < entries.len() ==> (#[trigger] entries[i]).node() != (
        #[trigger] entries[j]).node()
}

/// Whether one of the entries is this node's.
pub open spec fn has_entry_of(entries: Seq<&NodeTemporalEntry>, key: VoxelKey) -> bool {
    exists|i: int| 0 <= i < entries.len() && (#[trigger] entries[i]).node() == key
}

/// The nodes in a time range are those that have a first sample not after its end and a last sample
/// not before its start, each of them once: of a cache as of an index.
pub proof fn law_nodes_in_range(
    cache: TemporalCache,
    index: TemporalIndex,
    start: GpsTime,
    end: GpsTime,
    of_cache: Vec<&NodeTemporalEntry>,
    of_index: Vec<&NodeTemporalEntry>,
)
    requires
        call_ensures(TemporalCache::nodes_in_range, (&cache, start, end), of_cache),
        call_ensures(TemporalIndex::nodes_in_range, (&index, start, end), of_index),
    ensures
        are_those_in_range(of_cache@, cache.nodes(), start, end),
        are_those_in_range(of_index@, index.nodes(), start, end),
{
    lemma_in_range(of_cache@, cache.nodes(), start, end);
    lemma_in_range(of_index@, index.nodes(), start, end);
}

/// The entries that overlap a time range.
proof fn lemma_in_range(
    entries: Seq<&NodeTemporalEntry>,
    nodes: Map<VoxelKey, Seq<GpsTime>>,
    start: GpsTime,
    end: GpsTime,
)
    requires
        crate::temporal_index::lists_overlapping(entries, nodes, start, end),
    ensures
        are_those_in_range(entries, nodes, start, end),
{
    assert forall|key: VoxelKey|
        (nodes.contains_key(key) && start.0.at_most(nodes[key][nodes[key].len() - 1].0)
            && nodes[key][0].0.at_most(end.0)) == #[trigger] has_entry_of(entries, key) by {
        if nodes.contains_key(key) && crate::temporal_node::may_hold(nodes[key], start, end) {
            let i = choose|i: int|
                #![trigger entries[i]]
                0 <= i < entries.len() && entries[i].node() == key;
            assert(entries[i].node() == key);
        }
    }
}

} // verus!
