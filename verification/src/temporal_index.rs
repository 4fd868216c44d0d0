//! The temporal index of a file that is held in memory.

use crate::bytes::{lemma_stands_split, stands_at, ByteCursor};
use crate::error::TemporalError;
use crate::gps_time::GpsTime;
use crate::temporal_header::{
    header_at_start, header_bytes, law_header_reads_back, parse_temporal_header, refused_as,
    TemporalHeader, HEADER_SIZE, TEMPORAL_RECORD_ID,
};
use crate::temporal_node::{may_hold, NodeTemporalEntry};
use crate::temporal_page::{
    entered, law_page_reads_back, page_bytes, records_from, storable, PageEntry, Record,
};
use crate::types::VoxelKey;
use crate::vlr::VlrData;
use crate::voxel_map::{lists, VoxelMap};
use vstd::prelude::*;

verus! {

/// Whether the record is a temporal index.
pub open spec fn is_temporal(vlr: VlrData) -> bool {
    vlr.user_id@ == "copc_temporal"@ && vlr.record_id == TEMPORAL_RECORD_ID
}

/// Whether record `i` is the first temporal index among the records.
pub open spec fn first_temporal(evlrs: Seq<VlrData>, i: int) -> bool {
    &&& 0 <= i < evlrs.len()
    &&& is_temporal(evlrs[i])
    &&& forall|k: int| 0 <= k < i ==> !is_temporal(#[trigger] evlrs[k])
}

/// Whether `r` is what there is to say of these records: `Ok(None)` if and only if none of them is a
/// temporal index, else what the first that is one holds.
pub open spec fn index_outcome(
    evlrs: Seq<VlrData>,
    r: Result<Option<TemporalIndex>, TemporalError>,
) -> bool {
    &&& r == Ok::<Option<TemporalIndex>, TemporalError>(None) <==> forall|i: int|
        0 <= i < evlrs.len() ==> !is_temporal(#[trigger] evlrs[i])
    &&& forall|i: int| #[trigger]
        first_temporal(evlrs, i) ==> {
            let data = evlrs[i].data@;
            let header = header_at_start(data);
            if data.len() < HEADER_SIZE || !header.supported() {
                r matches Err(e) && refused_as(data, e)
            } else if nodes_of(records_from(data, HEADER_SIZE as int)).dom().len()
                < header.node_count {
                r matches Err(TemporalError::Io(_))
            } else {
                r matches Ok(Some(index)) && index.holds(data)
            }
        }
}

/// The nodes that entries tell of.
pub open spec fn nodes_of(records: Seq<Record>) -> Map<VoxelKey, Seq<GpsTime>> {
    entered(Map::empty(), records)
}

/// Whether the first `m` entries tell of `n` nodes, and fewer entries of fewer.
pub open spec fn shortest(records: Seq<Record>, n: nat, m: int) -> bool {
    &&& 0 <= m <= records.len()
    &&& nodes_of(records.take(m)).dom().len() >= n
    &&& forall|k: int| 0 <= k < m ==> nodes_of(#[trigger] records.take(k)).dom().len() < n
}

/// Whether `entries` are node entries of `nodes` that overlap the window, all of them and each
/// once.
pub open spec fn lists_overlapping(
    entries: Seq<&NodeTemporalEntry>,
    nodes: Map<VoxelKey, Seq<GpsTime>>,
    start: GpsTime,
    end: GpsTime,
) -> bool {
    &&& forall|i: int|
        #![trigger entries[i]]
        0 <= i < entries.len() ==> nodes.contains_key(entries[i].node())
            && nodes[entries[i].node()] == entries[i].times() && may_hold(
            entries[i].times(),
            start,
            end,
        )
    &&& forall|i: int, j: int|
        #![trigger entries[i], entries[j]]
        0 <= i < j < entries.len() ==> entries[i].node() != entries[j].node()
    &&& forall|k: VoxelKey| #[trigger]
        nodes.contains_key(k) && may_hold(nodes[k], start, end) ==> exists|i: int|
            #![trigger entries[i]]
            0 <= i < entries.len() && entries[i].node() == k
}

/// The samples that a map of entries tells of each node.
pub open spec fn times_of(
    entries: Map<VoxelKey, NodeTemporalEntry>,
) -> Map<VoxelKey, Seq<GpsTime>> {
    entries.map_values(|e: NodeTemporalEntry| e.times())
}

/// Whether every entry stands under its own node.
pub open spec fn keyed(entries: Map<VoxelKey, NodeTemporalEntry>) -> bool {
    forall|k: VoxelKey| #[trigger] entries.contains_key(k) ==> entries[k].node() == k
}

/// The entries of a map that overlap the window.
pub fn overlapping(
    entries: &VoxelMap<NodeTemporalEntry>,
    start: GpsTime,
    end: GpsTime,
) -> (r: Vec<&NodeTemporalEntry>)
    requires
        keyed(entries@),
    ensures
        lists_overlapping(r@, times_of(entries@), start, end),
{
    let all = entries.entries();
    let mut r: Vec<&NodeTemporalEntry> = Vec::new();
    let mut n: usize = 0;
    while n < all.len()
        invariant
            n <= all@.len(),
            keyed(entries@),
            lists(all@, entries@),
            forall|i: int|
                0 <= i < r@.len() ==> may_hold((#[trigger] r@[i]).times(), start, end) && among(
                    all@,
                    n as int,
                    r@[i],
                ),
            forall|i: int, j: int|
                #![trigger r@[i], r@[j]]
                0 <= i < j < r@.len() ==> r@[i].node() != r@[j].node(),
            forall|k: int|
                0 <= k < n && may_hold((#[trigger] all@[k]).1.times(), start, end) ==> r@.contains(
                    all@[k].1,
                ),
        decreases all@.len() - n,
    {
        let (_, entry) = all[n];
        let ghost before = r@;
        if entry.overlaps(start, end) {
            r.push(entry);
        }
        proof {
            assert forall|i: int| 0 <= i < before.len() implies among(
                all@,
                n + 1,
                #[trigger] before[i],
            ) && before[i].node() != entry.node() by {
                let k = choose|k: int| 0 <= k < n && (#[trigger] all@[k]).1 == before[i];
                assert(all@[k].1 == before[i]);
                assert(*all@[k].0 != *all@[n as int].0);
            }
            assert(among(all@, n + 1, entry)) by {
                assert(all@[n as int].1 == entry);
            }
            assert forall|k: int|
                0 <= k < n + 1 && may_hold(
                    (#[trigger] all@[k]).1.times(),
                    start,
                    end,
                ) implies r@.contains(all@[k].1) by {
                if k < n {
                    let i = choose|i: int| 0 <= i < before.len() && before[i] == all@[k].1;
                    assert(r@[i] == all@[k].1);
                } else {
                    assert(r@[r@.len() - 1] == all@[k].1);
                }
            }
        }
        n = n + 1;
    }
    proof {
        let nodes = times_of(entries@);
        assert forall|i: int| 0 <= i < r@.len() implies nodes.contains_key(
            (#[trigger] r@[i]).node(),
        ) && nodes[r@[i].node()] == r@[i].times() by {
            let k = choose|k: int| 0 <= k < n && (#[trigger] all@[k]).1 == r@[i];
            assert(entries@.contains_key(*all@[k].0));
        }
        assert forall|k: VoxelKey| #[trigger]
            nodes.contains_key(k) && may_hold(nodes[k], start, end) implies exists|i: int|
            #![trigger r@[i]]
            0 <= i < r@.len() && r@[i].node() == k by {
            assert(entries@.contains_key(k));
            let a = choose|a: int| #![trigger all@[a]] 0 <= a < all@.len() && *all@[a].0 == k;
            assert(r@.contains(all@[a].1));
            let i = choose|i: int| 0 <= i < r@.len() && r@[i] == all@[a].1;
            assert(r@[i].node() == k);
        }
    }
    r
}

/// Whether the entry is one of the first `n` pairs'.
spec fn among(
    pairs: Seq<(&VoxelKey, &NodeTemporalEntry)>,
    n: int,
    entry: &NodeTemporalEntry,
) -> bool {
    exists|k: int| 0 <= k < n && (#[trigger] pairs[k]).1 == entry
}

/// The top-level temporal index parsed from an EVLR.
pub struct TemporalIndex {
    version: u32,
    stride: u32,
    entries: VoxelMap<NodeTemporalEntry>,
}

impl TemporalIndex {
    /// Every entry stands under its own node.
    #[verifier::type_invariant]
    closed spec fn wf(self) -> bool {
        keyed(self.entries@)
    }

    /// The samples of each node.
    pub closed spec fn nodes(self) -> Map<VoxelKey, Seq<GpsTime>> {
        times_of(self.entries@)
    }

    /// The sampling stride.
    pub closed spec fn sampling(self) -> u32 {
        self.stride
    }

    /// The format version.
    pub closed spec fn format(self) -> u32 {
        self.version
    }

    /// Whether the index is what a record's data holds: the header's numbers, and the nodes of
    /// the shortest run of entries behind the header that tells of as many nodes as the header
    /// counts.
    pub open spec fn holds(self, data: Seq<u8>) -> bool {
        let header = header_at_start(data);
        &&& self.format() == header.version
        &&& self.sampling() == header.stride
        &&& exists|m: int| #[trigger]
            shortest(records_from(data, HEADER_SIZE as int), header.node_count as nat, m)
                && self.nodes() == nodes_of(records_from(data, HEADER_SIZE as int).take(m))
    }

    /// Parse the temporal index from a list of EVLRs.
    ///
    /// Returns `Ok(None)` if no temporal EVLR is present.
    /// Returns `Err` if the EVLR is present but malformed: its header is refused, or there are
    /// entries for fewer nodes than the header counts.
    pub fn from_evlrs(evlrs: &[VlrData]) -> (r: Result<Option<TemporalIndex>, TemporalError>)
        ensures
            index_outcome(evlrs@, r),
    {
        let mut n: usize = 0;
        let temporal_id = "copc_temporal".to_owned();
        while n < evlrs.len()
            invariant
                n <= evlrs@.len(),
                temporal_id@ == "copc_temporal"@,
                forall|k: int| 0 <= k < n ==> !is_temporal(#[trigger] evlrs@[k]),
            decreases evlrs@.len() - n,
        {
            if evlrs[n].user_id == temporal_id && evlrs[n].record_id == TEMPORAL_RECORD_ID {
                proof {
                    assert(is_temporal(evlrs@[n as int]));
                    assert forall|i: int| #[trigger] first_temporal(evlrs@, i) implies i == n by {
                        assert(is_temporal(evlrs@[i]));
                    }
                }
                return match TemporalIndex::parse(evlrs[n].data.as_slice()) {
                    Ok(index) => Ok(Some(index)),
                    Err(e) => Err(e),
                };
            }
            n = n + 1;
        }
        Ok(None)
    }

    /// Parse the data of the temporal index.
    fn parse(data: &[u8]) -> (r: Result<TemporalIndex, TemporalError>)
        ensures
            ({
                let header = header_at_start(data@);
                if data@.len() < HEADER_SIZE || !header.supported() {
                    r matches Err(e) && refused_as(data@, e)
                } else if nodes_of(records_from(data@, HEADER_SIZE as int)).dom().len()
                    < header.node_count {
                    r matches Err(TemporalError::Io(_))
                } else {
                    r matches Ok(index) && index.holds(data@)
                }
            }),
    {
        let header = match parse_temporal_header(data) {
            Ok(header) => header,
            Err(e) => return Err(e),
        };
        let mut cursor = ByteCursor::new(data);
        cursor.skip(HEADER_SIZE);
        // All pages are contiguous after the header. Scan sequentially, skipping page pointers.
        let mut entries: VoxelMap<NodeTemporalEntry> = VoxelMap::new();
        let ghost all = records_from(data@, HEADER_SIZE as int);
        let ghost mut done: Seq<Record> = Seq::empty();
        proof {
            assert(all =~= done + records_from(data@, cursor.pos()));
            assert(times_of(entries@) =~= nodes_of(done));
        }
        let mut count: usize = entries.len();
        while count < header.node_count as usize
            invariant
                header == header_at_start(data@),
                header.supported(),
                data@.len() >= HEADER_SIZE,
                cursor.wf(),
                cursor.data() == data@,
                all == records_from(data@, HEADER_SIZE as int),
                all == done + records_from(data@, cursor.pos()),
                keyed(entries@),
                times_of(entries@) == nodes_of(done),
                count == entries@.dom().len(),
                forall|k: int|
                    0 <= k < done.len() ==> nodes_of(#[trigger] all.take(k)).dom().len()
                        < header.node_count,
            decreases data@.len() - cursor.pos(),
        {
            let ghost before = done;
            proof {
                assert(times_of(entries@).dom() =~= entries@.dom());
                assert(all.take(done.len() as int) =~= done);
            }
            match PageEntry::read(&mut cursor) {
                Ok(PageEntry::Node(entry)) => {
                    proof {
                        done = done.push(PageEntry::Node(entry).record());
                        assert(done.drop_last() =~= before);
                        assert(times_of(entries@.insert(entry.node(), entry)) =~= times_of(
                            entries@,
                        ).insert(entry.node(), entry.times()));
                    }
                    entries.insert(entry.key(), entry);
                },
                Ok(PageEntry::Pointer(key, page)) => {
                    proof {
                        done = done.push(PageEntry::Pointer(key, page).record());
                        assert(done.drop_last() =~= before);
                    }
                },
                Err(e) => {
                    assert(all =~= done);
                    return Err(TemporalError::Io(e));
                },
            }
            proof {
                assert(all =~= done + records_from(data@, cursor.pos()));
                assert forall|k: int| 0 <= k < done.len() implies nodes_of(
                    #[trigger] all.take(k),
                ).dom().len() < header.node_count by {
                    if k == before.len() {
                        assert(all.take(k) =~= before);
                    }
                }
            }
            count = entries.len();
        }
        proof {
            assert(times_of(entries@).dom() =~= entries@.dom());
            assert(all.take(done.len() as int) =~= done);
            assert(shortest(all, header.node_count as nat, done.len() as int));
            lemma_more_records(done, records_from(data@, cursor.pos()));
        }
        Ok(TemporalIndex { version: header.version, stride: header.stride, entries })
    }

    /// Look up the temporal entry for a given voxel key.
    pub fn get(&self, key: &VoxelKey) -> (r: Option<&NodeTemporalEntry>)
        ensures
            r is Some <==> self.nodes().contains_key(*key),
            r matches Some(entry) ==> entry.node() == *key && entry.times() == self.nodes()[*key],
    {
        proof {
            use_type_invariant(self);
        }
        self.entries.get(key)
    }

    /// Return all node entries whose time range overlaps [start, end].
    pub fn nodes_in_range(&self, start: GpsTime, end: GpsTime) -> (r: Vec<&NodeTemporalEntry>)
        ensures
            lists_overlapping(r@, self.nodes(), start, end),
    {
        proof {
            use_type_invariant(self);
        }
        overlapping(&self.entries, start, end)
    }

    /// The sampling stride.
    pub fn stride(&self) -> (r: u32)
        ensures
            r == self.sampling(),
    {
        self.stride
    }

    /// The format version.
    pub fn version(&self) -> (r: u32)
        ensures
            r == self.format(),
    {
        self.version
    }

    /// The number of node entries.
    pub fn len(&self) -> (r: usize)
        ensures
            r == self.nodes().dom().len(),
    {
        assert(self.nodes().dom() =~= self.entries@.dom());
        self.entries.len()
    }
}

/// More entries tell of no fewer nodes.
proof fn lemma_more_records(a: Seq<Record>, b: Seq<Record>)
    ensures
        nodes_of(a).dom().finite(),
        nodes_of(a + b).dom().finite(),
        nodes_of(a).dom().len() <= nodes_of(a + b).dom().len(),
    decreases a.len() + b.len(),
{
    if b.len() > 0 {
        assert((a + b).drop_last() =~= a + b.drop_last());
        lemma_more_records(a, b.drop_last());
    } else {
        assert(a + b =~= a);
        if a.len() > 0 {
            lemma_more_records(a.drop_last(), b);
            assert(a.drop_last() + b =~= a.drop_last());
        }
    }
}

/// Whether no node has two entries.
pub open spec fn distinct_nodes(records: Seq<Record>) -> bool {
    forall|i: int, j: int|
        #![trigger records[i], records[j]]
        0 <= i < j < records.len() && records[i] is Node && records[j] is Node
            ==> records[i]->Node_key != records[j]->Node_key
}

/// What is known of a node is known from an entry.
proof fn lemma_node_has_record(records: Seq<Record>, k: VoxelKey)
    requires
        nodes_of(records).contains_key(k),
    ensures
        exists|i: int|
            0 <= i < records.len() && #[trigger] records[i] is Node && records[i]->Node_key == k,
    decreases records.len(),
{
    if records.last() is Node && records.last()->Node_key == k {
        assert(records[records.len() - 1] is Node);
    } else {
        let rest = records.drop_last();
        lemma_node_has_record(rest, k);
        let i = choose|i: int|
            0 <= i < rest.len() && #[trigger] rest[i] is Node && rest[i]->Node_key == k;
        assert(records[i] is Node);
    }
}

/// Where no node has two entries, more entries leave what is known as it is.
proof fn lemma_more_records_agree(a: Seq<Record>, b: Seq<Record>, k: VoxelKey)
    requires
        distinct_nodes(a + b),
        nodes_of(a).contains_key(k),
    ensures
        nodes_of(a + b).contains_key(k),
        nodes_of(a + b)[k] == nodes_of(a)[k],
    decreases b.len(),
{
    if b.len() == 0 {
        assert(a + b =~= a);
    } else {
        let c = a + b.drop_last();
        assert((a + b).drop_last() =~= c);
        assert(distinct_nodes(c)) by {
            assert forall|i: int, j: int|
                #![trigger c[i], c[j]]
                0 <= i < j < c.len() && c[i] is Node && c[j] is Node implies c[i]->Node_key
                != c[j]->Node_key by {
                assert(c[i] == (a + b)[i] && c[j] == (a + b)[j]);
            }
        }
        lemma_more_records_agree(a, b.drop_last(), k);
        lemma_node_has_record(c, k);
        let i = choose|i: int| 0 <= i < c.len() && #[trigger] c[i] is Node && c[i]->Node_key == k;
        assert(c[i] == (a + b)[i]);
        assert((a + b).last() == (a + b)[(a + b).len() - 1]);
    }
}

/// Where no node has two entries, the shortest run of entries that tells of as many nodes as these
/// do tells of the same nodes, whatever follows.
pub proof fn lemma_counted_nodes_are_all(records: Seq<Record>, rest: Seq<Record>)
    requires
        distinct_nodes(records),
    ensures
        nodes_of(records + rest).dom().len() >= nodes_of(records).dom().len(),
        forall|m: int| #[trigger]
            shortest(records + rest, nodes_of(records).dom().len(), m) ==> nodes_of(
                (records + rest).take(m),
            ) == nodes_of(records),
{
    let all = records + rest;
    let n = nodes_of(records).dom().len();
    lemma_more_records(records, rest);
    assert forall|m: int| #[trigger] shortest(all, n, m) implies nodes_of(all.take(m)) == nodes_of(
        records,
    ) by {
        if m > records.len() {
            assert(all.take(records.len() as int) =~= records);
        }
        let part = records.take(m);
        assert(all.take(m) =~= part);
        assert(records =~= part + records.skip(m));
        lemma_more_records(part, records.skip(m));
        assert forall|k: VoxelKey| nodes_of(part).contains_key(k) implies #[trigger] nodes_of(
            records,
        ).contains_key(k) && nodes_of(records)[k] == nodes_of(part)[k] by {
            lemma_more_records_agree(part, records.skip(m), k);
        }
        assert(nodes_of(part).dom().subset_of(nodes_of(records).dom()));
        vstd::set_lib::lemma_subset_equality(nodes_of(part).dom(), nodes_of(records).dom());
        assert(nodes_of(part) =~= nodes_of(records));
    }
}

/// An index is read back from the data that was written for it: a header that counts the nodes,
/// and entries, one for each node, with or without page pointers among them.
pub proof fn law_index_reads_back(data: Seq<u8>, h: TemporalHeader, records: Seq<Record>)
    requires
        stands_at(data, 0, header_bytes(h) + page_bytes(records)),
        forall|i: int| 0 <= i < records.len() ==> storable(#[trigger] records[i]),
        distinct_nodes(records),
        h.node_count == nodes_of(records).dom().len(),
    ensures
        data.len() >= HEADER_SIZE,
        header_at_start(data) == h,
        nodes_of(records_from(data, HEADER_SIZE as int)).dom().len() >= h.node_count,
        forall|index: TemporalIndex| #[trigger]
            index.holds(data) ==> index.nodes() == nodes_of(records) && index.sampling()
                == h.stride && index.format() == h.version,
{
    lemma_stands_split(data, 0, header_bytes(h), page_bytes(records));
    law_header_reads_back(data, h);
    law_page_reads_back(data, HEADER_SIZE as int, records);
    let rest = records_from(data, HEADER_SIZE + page_bytes(records).len());
    assert(records_from(data, HEADER_SIZE as int) == records + rest);
    lemma_counted_nodes_are_all(records, rest);
}

} // verus!
