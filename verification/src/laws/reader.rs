//! What a reader shows of a file, and which chunks it reads.

use crate::chunk::{
    chunk_of_records, decompress_chunk, laz_decoded, records_fit, Chunk, Decoded,
};
use crate::error::CopcError;
use crate::fields::Fields;
use crate::gps_time::GpsTime;
use crate::header::{CopcHeader, CopcInfo};
use crate::hierarchy::{HierarchyCache, HierarchyEntry};
use crate::laws::boxes::overlap;
use crate::laws::hierarchy_pages::gives;
use crate::laws::samples::{is_first, is_last};
use crate::point_cloud::{
    cloud_bytes, cloud_format, cloud_transforms, format_fields, header_format, header_transforms,
};
use crate::reader::{
    are_children, first_missing, header_read_size, loaded_of, shown, CopcStreamingReader,
};
use crate::temporal_cache::TemporalCache;
use crate::temporal_node::{parts_before, parts_through};
use crate::temporal_query::{has_key, overlaps_and_known};
use crate::types::{region_test, Aabb, VoxelKey};
use std::ops::Range;
use vstd::prelude::*;

verus! {

/// The first 65536 bytes of a file are read for its header, or all of a file that has fewer.
pub proof fn law_header_is_in_the_first_bytes(size: Option<u64>, r: u64)
    requires
        call_ensures(header_read_size, (size,), r),
    ensures
        r <= 65536,
        size matches Some(n) ==> r <= n && (r == n || r == 65536),
        size is None ==> r == 65536,
{
}

/// A reader keeps the parts that it is made of, and tells the numbers of its header.
pub proof fn law_reader_keeps_its_parts<S>(
    source: S,
    header: CopcHeader,
    hierarchy: HierarchyCache,
    reader: CopcStreamingReader<S>,
    told_source: &S,
    told_header: &CopcHeader,
    told_hierarchy: &HierarchyCache,
    info: &CopcInfo,
    offset: u64,
    count: u32,
)
    requires
        call_ensures(CopcStreamingReader::<S>::new, (source, header, hierarchy), reader),
        call_ensures(CopcStreamingReader::<S>::source, (&reader,), told_source),
        call_ensures(CopcStreamingReader::<S>::header, (&reader,), told_header),
        call_ensures(CopcStreamingReader::<S>::hierarchy, (&reader,), told_hierarchy),
        call_ensures(CopcStreamingReader::<S>::copc_info, (&reader,), info),
        call_ensures(CopcStreamingReader::<S>::evlr_offset, (&reader,), offset),
        call_ensures(CopcStreamingReader::<S>::evlr_count, (&reader,), count),
    ensures
        *told_source == source,
        *told_header == header,
        *told_hierarchy == hierarchy,
        *info == header.info(),
        (offset, count) == header.evlrs(),
        reader.origin() == source,
        reader.parsed() == header,
        reader.tree() == hierarchy,
{
}

/// A reader tells of the hierarchy what its cache tells.
pub proof fn law_reader_tells_its_hierarchy<S>(
    reader: CopcStreamingReader<S>,
    key: VoxelKey,
    entry: Option<&HierarchyEntry>,
    of_cache: Option<&HierarchyEntry>,
    count: usize,
    some_pending: bool,
)
    requires
        call_ensures(CopcStreamingReader::<S>::get, (&reader, &key), entry),
        call_ensures(HierarchyCache::get, (&reader.tree(), &key), of_cache),
        call_ensures(CopcStreamingReader::<S>::node_count, (&reader,), count),
        call_ensures(CopcStreamingReader::<S>::has_pending_pages, (&reader,), some_pending),
    ensures
        entry is Some <==> of_cache is Some,
        entry is Some ==> *entry->0 == *of_cache->0,
        count == reader.tree().nodes().dom().len(),
        some_pending <==> reader.tree().pending().len() > 0,
{
}

/// The keys that are visible are those of the loaded nodes that have points, are not deeper than
/// the limit if there is one, and whose box overlaps the region: each once.
pub proof fn law_visible_keys<S, F: Fn(VoxelKey) -> Aabb>(
    reader: CopcStreamingReader<S>,
    bounds: Aabb,
    max_level: Option<i32>,
    node_bounds: F,
    boxes: spec_fn(VoxelKey) -> Aabb,
    r: Vec<VoxelKey>,
)
    requires
        call_ensures(
            CopcStreamingReader::<S>::visible_keys::<F>,
            (&reader, &bounds, max_level, node_bounds),
            r,
        ),
        gives(node_bounds, boxes),
    ensures
        forall|i: int, j: int|
            0 <= i < j < r@.len() ==> #[trigger] r@[i] != #[trigger] r@[j],
        forall|key: VoxelKey| #[trigger]
            r@.contains(key) <==> {
                &&& reader.tree().nodes().contains_key(key)
                &&& reader.tree().nodes()[key].point_count > 0
                &&& max_level matches Some(limit) ==> key.level <= limit
                &&& overlap(boxes(key), bounds)
            },
{
    let nodes = reader.tree().nodes();
    assert forall|key: VoxelKey| #[trigger] r@.contains(key) == {
        &&& nodes.contains_key(key)
        &&& nodes[key].point_count > 0
        &&& max_level matches Some(limit) ==> key.level <= limit
        &&& overlap(boxes(key), bounds)
    } by {
        if r@.contains(key) {
            let i = choose|i: int| 0 <= i < r@.len() && r@[i] == key;
            assert(shown(nodes, r@[i], max_level));
            assert(region_test(&node_bounds, r@[i], bounds, true));
        } else if shown(nodes, key, max_level) {
            assert(region_test(&node_bounds, key, bounds, false));
        }
    }
}

/// The entries of a node's children are those of the children in the eight octants, in order, that
/// are loaded.
pub proof fn law_children_are_the_loaded_ones<S>(
    reader: CopcStreamingReader<S>,
    key: VoxelKey,
    children: Seq<VoxelKey>,
    r: Vec<&HierarchyEntry>,
)
    requires
        call_ensures(CopcStreamingReader::<S>::children, (&reader, &key), r),
        children.len() == 8,
        forall|dir: u8|
            dir < 8 ==> #[trigger] call_ensures(
                VoxelKey::child,
                (&key, dir),
                children[dir as int],
            ),
    ensures
        ({
            let nodes = reader.tree().nodes();
            let loaded = children.filter(|c: VoxelKey| nodes.contains_key(c));
            &&& r@.len() == loaded.len()
            &&& forall|i: int| 0 <= i < r@.len() ==> *(#[trigger] r@[i]) == nodes[loaded[i]]
        }),
{
    let nodes = reader.tree().nodes();
    let others = choose|others: Seq<VoxelKey>| #[trigger]
        are_children(key, others) && r@.len() == loaded_of(nodes, others).len() && forall|i: int|
            0 <= i < r@.len() ==> *(#[trigger] r@[i]) == loaded_of(nodes, others)[i];
    assert forall|dir: int| 0 <= dir < 8 implies #[trigger] others[dir] == children[dir] by {
        assert(key.has_child(dir, others[dir]));
        assert(call_ensures(VoxelKey::child, (&key, dir as u8), children[(dir as u8) as int]));
    }
    assert(others =~= children);
    lemma_loaded_of(nodes, children);
}

/// The entries of the nodes that are loaded.
proof fn lemma_loaded_of(nodes: Map<VoxelKey, HierarchyEntry>, keys: Seq<VoxelKey>)
    ensures
        loaded_of(nodes, keys) == keys.filter(|c: VoxelKey| nodes.contains_key(c)).map_values(
            |c: VoxelKey| nodes[c],
        ),
    decreases keys.len(),
{
    reveal(Seq::filter);
    let known = |c: VoxelKey| nodes.contains_key(c);
    let entry = |c: VoxelKey| nodes[c];
    if keys.len() > 0 {
        lemma_loaded_of(nodes, keys.drop_last());
    }
    assert(loaded_of(nodes, keys) =~= keys.filter(known).map_values(entry));
}

/// The chunk of a node is where the node's entry says; a node without an entry is not found.
pub proof fn law_chunk_is_where_the_entry_says<S>(
    reader: CopcStreamingReader<S>,
    key: VoxelKey,
    entry: Option<&HierarchyEntry>,
    r: Result<(u64, u64), CopcError>,
)
    requires
        call_ensures(CopcStreamingReader::<S>::get, (&reader, &key), entry),
        call_ensures(CopcStreamingReader::<S>::chunk_request, (&reader, &key), r),
    ensures
        match entry {
            Some(e) => r matches Ok((offset, size)) && offset == e.offset && size == e.byte_size,
            None => r == Err::<(u64, u64), _>(CopcError::NodeNotFound(key)),
        },
{
}

/// The chunks of several nodes are asked for as those of each node, in order; where some are not
/// found, the first of them is the error.
pub proof fn law_chunks_are_asked_for_one_by_one<S>(
    reader: CopcStreamingReader<S>,
    keys: &[VoxelKey],
    each: Seq<Result<(u64, u64), CopcError>>,
    r: Result<Vec<(u64, u64)>, CopcError>,
)
    requires
        call_ensures(CopcStreamingReader::<S>::chunk_requests, (&reader, keys), r),
        each.len() == keys@.len(),
        forall|k: int|
            0 <= k < keys@.len() ==> call_ensures(
                CopcStreamingReader::<S>::chunk_request,
                (&reader, &(#[trigger] keys@[k])),
                each[k],
            ),
    ensures
        r is Ok <==> forall|k: int| 0 <= k < each.len() ==> (#[trigger] each[k]) is Ok,
        r matches Ok(ranges) ==> ranges@.len() == each.len() && forall|k: int|
            0 <= k < each.len() ==> #[trigger] each[k] == Ok::<_, CopcError>(ranges@[k]),
        forall|n: int|
            0 <= n < each.len() && (#[trigger] each[n]) is Err && (forall|k: int|
                0 <= k < n ==> (#[trigger] each[k]) is Ok) ==> r == Err::<Vec<(u64, u64)>, _>(
                each[n]->Err_0,
            ),
{
    let nodes = reader.tree().nodes();
    assert forall|k: int| 0 <= k < each.len() implies (#[trigger] each[k] is Ok
        <==> nodes.contains_key(keys@[k])) by {
        let key = keys@[k];
    }
    assert forall|k: int| 0 <= k < keys@.len() implies (nodes.contains_key(#[trigger] keys@[k])
        <==> each[k] is Ok) by {}
    assert forall|n: int|
        0 <= n < each.len() && (#[trigger] each[n]) is Err && (forall|k: int|
            0 <= k < n ==> (#[trigger] each[k]) is Ok) implies r == Err::<Vec<(u64, u64)>, _>(
        each[n]->Err_0,
    ) by {
        assert forall|k: int| 0 <= k < n implies nodes.contains_key(#[trigger] keys@[k]) by {
            assert(each[k] is Ok);
        }
        assert(first_missing(nodes, keys@, n));
    }
}

/// Whether a chunk is the chunk of a node, with these bytes as its records.
pub open spec fn has_records(
    chunk: Chunk,
    key: VoxelKey,
    fields: Fields,
    header: las::Header,
    bytes: Seq<u8>,
) -> bool {
    &&& chunk.key == key
    &&& chunk.fields == fields
    &&& cloud_bytes(chunk.cloud) == bytes
    &&& cloud_format(chunk.cloud) == format_fields(header_format(header))
    &&& cloud_transforms(chunk.cloud) == header_transforms(header)
}

/// A chunk is decoded with the layers of its mask into as many records as its node has points. The
/// records that come out are the chunk's, with the node's key and the mask; what the decoder
/// refuses is refused, with its error.
pub proof fn law_chunk_is_what_is_decoded(
    data: &[u8],
    entry: HierarchyEntry,
    parameters: laz::LazVlr,
    header: las::Header,
    fields: Fields,
    length: u16,
    decoded: Decoded,
    r: Result<Chunk, CopcError>,
)
    requires
        call_ensures(decompress_chunk, (data, &entry, &parameters, &header, fields), r),
        length == format_fields(header_format(header)).record_len(),
        laz_decoded(data@, parameters, fields.layers(), entry.point_count * length) == Some(
            decoded,
        ),
    ensures
        match decoded {
            Decoded::Bytes(bytes) => {
                &&& r is Ok <==> bytes.len() as int % (length as int) == 0
                &&& r matches Ok(chunk) ==> has_records(chunk, entry.key, fields, header, bytes)
                    && bytes.len() == entry.point_count * length
                &&& r matches Err(e) ==> e is Las
            },
            Decoded::Unknown => r matches Err(e) && e is Laz,
            Decoded::Broken => r matches Err(e) && e is Io,
        },
{
}

/// A node's chunk is decoded by the node's entry, the file's LAZ parameters and the file's header; a
/// node without an entry is not found.
pub proof fn law_node_is_what_is_decoded<S>(
    reader: CopcStreamingReader<S>,
    key: VoxelKey,
    data: &[u8],
    fields: Fields,
    length: u16,
    decoded: Decoded,
    r: Result<Chunk, CopcError>,
)
    requires
        call_ensures(
            CopcStreamingReader::<S>::decompress_node,
            (&reader, &key, data, fields),
            r,
        ),
        length == format_fields(header_format(reader.parsed().standard())).record_len(),
        reader.tree().nodes().contains_key(key) ==> laz_decoded(
            data@,
            reader.parsed().compression(),
            fields.layers(),
            reader.tree().nodes()[key].point_count * length,
        ) == Some(decoded),
    ensures
        ({
            let nodes = reader.tree().nodes();
            let header = reader.parsed().standard();
            if nodes.contains_key(key) {
                match decoded {
                    Decoded::Bytes(bytes) => {
                        &&& r is Ok <==> bytes.len() as int % (length as int) == 0
                        &&& r matches Ok(chunk) ==> has_records(
                            chunk,
                            nodes[key].key,
                            fields,
                            header,
                            bytes,
                        ) && bytes.len() == nodes[key].point_count * length
                        &&& r matches Err(e) ==> e is Las
                    },
                    Decoded::Unknown => r matches Err(e) && e is Laz,
                    Decoded::Broken => r matches Err(e) && e is Io,
                }
            } else {
                r == Err::<Chunk, _>(CopcError::NodeNotFound(key))
            }
        }),
{
}

/// Whether two chunks are of the same node, with the same mask, records and transforms.
pub open spec fn are_alike(a: Chunk, b: Chunk) -> bool {
    &&& a.key == b.key
    &&& a.fields == b.fields
    &&& cloud_bytes(a.cloud) == cloud_bytes(b.cloud)
    &&& cloud_format(a.cloud) == cloud_format(b.cloud)
    &&& cloud_transforms(a.cloud) == cloud_transforms(b.cloud)
}

/// Several nodes, all of which are loaded, are decoded as each of them is, in order, as far as there
/// are chunks that were read: into one chunk each, if and only if each of them is decoded into one.
pub proof fn law_nodes_are_decoded_one_by_one<S>(
    reader: CopcStreamingReader<S>,
    keys: &[VoxelKey],
    blobs: &[Vec<u8>],
    datas: Seq<&[u8]>,
    fields: Fields,
    each: Seq<Result<Chunk, CopcError>>,
    r: Result<Vec<Chunk>, CopcError>,
)
    requires
        call_ensures(
            CopcStreamingReader::<S>::decompress_nodes,
            (&reader, keys, blobs, fields),
            r,
        ),
        forall|k: int|
            0 <= k < keys@.len() ==> reader.tree().nodes().contains_key(#[trigger] keys@[k]),
        each.len() <= keys@.len(),
        each.len() <= blobs@.len(),
        each.len() == keys@.len() || each.len() == blobs@.len(),
        datas.len() == each.len(),
        forall|k: int| 0 <= k < each.len() ==> (#[trigger] datas[k])@ == blobs@[k]@,
        forall|k: int|
            0 <= k < each.len() ==> call_ensures(
                CopcStreamingReader::<S>::decompress_node,
                (&reader, &keys@[k], #[trigger] datas[k], fields),
                each[k],
            ),
    ensures
        r is Ok <==> forall|k: int| 0 <= k < each.len() ==> (#[trigger] each[k]) is Ok,
        r matches Ok(chunks) ==> chunks@.len() == each.len() && forall|k: int|
            0 <= k < each.len() ==> are_alike(#[trigger] chunks@[k], each[k]->Ok_0),
        forall|n: int|
            0 <= n < each.len() && (#[trigger] each[n]) is Err && (forall|k: int|
                0 <= k < n ==> (#[trigger] each[k]) is Ok) ==> {
                &&& r is Err
                &&& r->Err_0 is Las <==> each[n]->Err_0 is Las
                &&& r->Err_0 is Laz <==> each[n]->Err_0 is Laz
                &&& r->Err_0 is Io <==> each[n]->Err_0 is Io
            },
{
    assert forall|k: int| 0 <= k < each.len() implies #[trigger] reader.node_outcome(
        keys@[k],
        blobs@[k]@,
        fields,
        each[k],
    ) by {
        let data = datas[k];
        let key = keys@[k];
    }
    match r {
        Ok(chunks) => {
            assert forall|k: int| 0 <= k < each.len() implies (#[trigger] each[k]) is Ok by {
                let chunk = chunks@[k];
                assert(reader.node_outcome(keys@[k], blobs@[k]@, fields, each[k]));
            }
            assert forall|k: int| 0 <= k < each.len() implies are_alike(
                #[trigger] chunks@[k],
                each[k]->Ok_0,
            ) by {
                assert(reader.node_outcome(keys@[k], blobs@[k]@, fields, each[k]));
            }
        },
        Err(e) => {
            let m = choose|n: int|
                {
                    &&& 0 <= n < keys@.len() && n < blobs@.len()
                    &&& forall|k: int|
                        0 <= k < n ==> reader.succeeds(#[trigger] keys@[k], blobs@[k]@, fields)
                    &&& reader.node_outcome(
                        #[trigger] keys@[n],
                        blobs@[n]@,
                        fields,
                        Err::<Chunk, CopcError>(e),
                    )
                };
            assert(reader.node_outcome(keys@[m], blobs@[m]@, fields, each[m]));
            assert(each[m] is Err);
            assert forall|n: int|
                0 <= n < each.len() && (#[trigger] each[n]) is Err && (forall|k: int|
                    0 <= k < n ==> (#[trigger] each[k]) is Ok) implies n == m by {
                if n < m {
                    assert(reader.succeeds(keys@[n], blobs@[n]@, fields));
                    assert(reader.node_outcome(keys@[n], blobs@[n]@, fields, each[n]));
                }
            }
        },
    }
}

/// Where a node is not loaded, nothing is decoded: the first such node is not found.
pub proof fn law_missing_node_is_not_found<S>(
    reader: CopcStreamingReader<S>,
    keys: &[VoxelKey],
    blobs: &[Vec<u8>],
    fields: Fields,
    n: int,
    r: Result<Vec<Chunk>, CopcError>,
)
    requires
        call_ensures(
            CopcStreamingReader::<S>::decompress_nodes,
            (&reader, keys, blobs, fields),
            r,
        ),
        0 <= n < keys@.len(),
        !reader.tree().nodes().contains_key(keys@[n]),
        forall|k: int| 0 <= k < n ==> reader.tree().nodes().contains_key(#[trigger] keys@[k]),
    ensures
        r == Err::<Vec<Chunk>, _>(CopcError::NodeNotFound(keys@[n])),
{
    assert(first_missing(reader.tree().nodes(), keys@, n));
}

/// The records of a node fit if and only if all of them together have no more bytes than memory can
/// hold in one piece.
pub proof fn law_records_fit_in_memory(
    entry: HierarchyEntry,
    header: las::Header,
    length: u16,
    r: bool,
)
    requires
        call_ensures(records_fit, (&entry, &header), r),
        length == format_fields(header_format(header)).record_len(),
    ensures
        r <==> entry.point_count * length <= isize::MAX,
{
}

/// A chunk is made of records if and only if they are a whole number of them: with the node's key,
/// the mask, the records as they are, and the header's format and transforms.
pub proof fn law_chunk_has_the_records(
    records: Vec<u8>,
    entry: HierarchyEntry,
    header: las::Header,
    fields: Fields,
    r: Result<Chunk, CopcError>,
)
    requires
        call_ensures(chunk_of_records, (records, &entry, &header, fields), r),
    ensures
        r is Ok <==> records@.len() as int % format_fields(header_format(header)).record_len() == 0,
        r matches Ok(chunk) ==> has_records(chunk, entry.key, fields, header, records@),
        r matches Err(e) ==> e is Las,
{
}

/// The entries that a reader lists are those of its hierarchy, each once, under their nodes.
pub proof fn law_reader_lists_its_hierarchy<S>(
    reader: CopcStreamingReader<S>,
    pairs: Vec<(&VoxelKey, &HierarchyEntry)>,
)
    requires
        call_ensures(CopcStreamingReader::<S>::entries, (&reader,), pairs),
    ensures
        forall|i: int|
            0 <= i < pairs@.len() ==> reader.tree().nodes().contains_key(
                *(#[trigger] pairs@[i]).0,
            ) && *pairs@[i].1 == reader.tree().nodes()[*pairs@[i].0],
        forall|i: int, j: int|
            0 <= i < j < pairs@.len() ==> *(#[trigger] pairs@[i]).0 != *(#[trigger] pairs@[j]).0,
        forall|key: VoxelKey| #[trigger]
            reader.tree().nodes().contains_key(key) ==> exists|i: int|
                0 <= i < pairs@.len() && *(#[trigger] pairs@[i]).0 == key,
{
}

/// What is done to the hierarchy of a reader is done to the reader, and nothing else is.
pub proof fn law_hierarchy_is_loaded_in_place<S>()
    ensures
        forall|reader: &mut CopcStreamingReader<S>, r: &mut HierarchyCache| #[trigger]
            call_ensures(CopcStreamingReader::<S>::hierarchy_mut, (reader,), r) ==> {
                &&& *r == (*reader).tree()
                &&& (*final(reader)).tree() == *final(r)
                &&& (*final(reader)).parsed() == (*reader).parsed()
                &&& (*final(reader)).origin() == (*reader).origin()
            },
{
}

/// Whether a node is to be looked at for a time range: the index has samples of it, the last of
/// which is not before the start and the first not after the end; the hierarchy has an entry of it,
/// with points; and the start is not after the end.
pub open spec fn is_matched(
    times: Map<VoxelKey, Seq<GpsTime>>,
    nodes: Map<VoxelKey, HierarchyEntry>,
    start: GpsTime,
    end: GpsTime,
    key: VoxelKey,
) -> bool {
    &&& times.contains_key(key)
    &&& start.0.at_most(times[key][times[key].len() - 1].0)
    &&& times[key][0].0.at_most(end.0)
    &&& nodes.contains_key(key)
    &&& nodes[key].point_count > 0
    &&& start.0.at_most(end.0)
}

/// Whether the range is the one that a node's samples say: where they are parted by the time range,
/// as samples in order are, from the sample before the first that is not before the start, to the
/// sample behind the last that is not after the end, as far as there are points.
pub open spec fn is_range_of(
    samples: Seq<GpsTime>,
    start: GpsTime,
    end: GpsTime,
    stride: u32,
    count: u32,
    range: Range<u32>,
) -> bool {
    &&& range.start <= range.end <= count
    &&& forall|i: int, j: int|
        #[trigger] is_first(samples, start, i) && #[trigger] is_last(samples, end, j) && i <= j + 1 ==> {
            let before = if i > 0 {
                i - 1
            } else {
                0
            };
            &&& range.start == if before * stride < count {
                before * stride
            } else {
                count as int
            }
            &&& range.end == if j * stride + stride < count {
                j * stride + stride
            } else {
                count as int
            }
        }
}

/// The range of candidates is the one that the samples say.
proof fn lemma_range_of(
    samples: Seq<GpsTime>,
    start: GpsTime,
    end: GpsTime,
    stride: u32,
    count: u32,
    range: Range<u32>,
)
    requires
        crate::temporal_node::covering(samples, start, end, stride, count, range),
    ensures
        is_range_of(samples, start, end, stride, count, range),
{
    assert forall|i: int, j: int|
        #[trigger] is_first(samples, start, i) && #[trigger] is_last(samples, end, j) && i <= j + 1 implies {
        let before = if i > 0 {
            i - 1
        } else {
            0
        };
        &&& range.start == if before * stride < count {
            before * stride
        } else {
            count as int
        }
        &&& range.end == if j * stride + stride < count {
            j * stride + stride
        } else {
            count as int
        }
    } by {
        crate::laws::samples::lemma_parts(samples, start, end, i, j);
        assert((j + 1) * stride == j * stride + stride) by (nonlinear_arith);
        assert(parts_before(samples, start, i) && parts_through(samples, end, j + 1));
    }
}

/// The chunks for a time range are those of the nodes that are to be looked at, each once, with the
/// range that its samples say.
pub proof fn law_chunks_by_time(
    cache: TemporalCache,
    hierarchy: HierarchyCache,
    start: GpsTime,
    end: GpsTime,
    stride: u32,
    r: Vec<(VoxelKey, Range<u32>)>,
)
    requires
        call_ensures(TemporalCache::chunks_by_time, (&cache, &hierarchy, start, end), r),
        call_ensures(TemporalCache::stride, (&cache,), stride),
    ensures
        forall|i: int, j: int|
            0 <= i < j < r@.len() ==> (#[trigger] r@[i]).0 != (#[trigger] r@[j]).0,
        forall|i: int|
            0 <= i < r@.len() ==> is_matched(
                cache.nodes(),
                hierarchy.nodes(),
                start,
                end,
                (#[trigger] r@[i]).0,
            ) && is_range_of(
                cache.nodes()[r@[i].0],
                start,
                end,
                stride,
                hierarchy.nodes()[r@[i].0].point_count,
                r@[i].1,
            ),
        forall|key: VoxelKey| #[trigger]
            is_matched(cache.nodes(), hierarchy.nodes(), start, end, key) ==> exists|i: int|
                0 <= i < r@.len() && (#[trigger] r@[i]).0 == key,
{
    assert forall|i: int| 0 <= i < r@.len() implies is_matched(
        cache.nodes(),
        hierarchy.nodes(),
        start,
        end,
        (#[trigger] r@[i]).0,
    ) && is_range_of(
        cache.nodes()[r@[i].0],
        start,
        end,
        stride,
        hierarchy.nodes()[r@[i].0].point_count,
        r@[i].1,
    ) by {
        lemma_range_of(
            cache.nodes()[r@[i].0],
            start,
            end,
            stride,
            hierarchy.nodes()[r@[i].0].point_count,
            r@[i].1,
        );
    }
    assert forall|key: VoxelKey| #[trigger]
        is_matched(cache.nodes(), hierarchy.nodes(), start, end, key) implies exists|i: int|
        0 <= i < r@.len() && (#[trigger] r@[i]).0 == key by {
        assert(overlaps_and_known(cache, hierarchy.nodes(), start, end, key));
        assert(has_key(r@, key));
    }
}

/// The chunks for a time range and a region are those of the nodes that are to be looked at and
/// whose box overlaps the region, each once, with the range that its samples say.
pub proof fn law_chunks_in_bounds<F: Fn(VoxelKey) -> Aabb>(
    cache: TemporalCache,
    hierarchy: HierarchyCache,
    bounds: Aabb,
    node_bounds: F,
    boxes: spec_fn(VoxelKey) -> Aabb,
    start: GpsTime,
    end: GpsTime,
    stride: u32,
    r: Vec<(VoxelKey, Range<u32>)>,
)
    requires
        call_ensures(
            TemporalCache::chunks_in_bounds::<F>,
            (&cache, &hierarchy, &bounds, node_bounds, start, end),
            r,
        ),
        call_ensures(TemporalCache::stride, (&cache,), stride),
        gives(node_bounds, boxes),
    ensures
        forall|i: int, j: int|
            0 <= i < j < r@.len() ==> (#[trigger] r@[i]).0 != (#[trigger] r@[j]).0,
        forall|i: int|
            0 <= i < r@.len() ==> is_matched(
                cache.nodes(),
                hierarchy.nodes(),
                start,
                end,
                (#[trigger] r@[i]).0,
            ) && overlap(boxes(r@[i].0), bounds) && is_range_of(
                cache.nodes()[r@[i].0],
                start,
                end,
                stride,
                hierarchy.nodes()[r@[i].0].point_count,
                r@[i].1,
            ),
        forall|key: VoxelKey| #[trigger]
            is_matched(cache.nodes(), hierarchy.nodes(), start, end, key) && overlap(
                boxes(key),
                bounds,
            ) ==> exists|i: int| 0 <= i < r@.len() && (#[trigger] r@[i]).0 == key,
{
    assert forall|i: int| 0 <= i < r@.len() implies is_matched(
        cache.nodes(),
        hierarchy.nodes(),
        start,
        end,
        (#[trigger] r@[i]).0,
    ) && overlap(boxes(r@[i].0), bounds) && is_range_of(
        cache.nodes()[r@[i].0],
        start,
        end,
        stride,
        hierarchy.nodes()[r@[i].0].point_count,
        r@[i].1,
    ) by {
        assert(region_test(&node_bounds, r@[i].0, bounds, true));
        lemma_range_of(
            cache.nodes()[r@[i].0],
            start,
            end,
            stride,
            hierarchy.nodes()[r@[i].0].point_count,
            r@[i].1,
        );
    }
    assert forall|key: VoxelKey| #[trigger]
        is_matched(cache.nodes(), hierarchy.nodes(), start, end, key) && overlap(
            boxes(key),
            bounds,
        ) implies exists|i: int| 0 <= i < r@.len() && (#[trigger] r@[i]).0 == key by {
        assert(overlaps_and_known(cache, hierarchy.nodes(), start, end, key));
        assert(has_key(r@, key) || region_test(&node_bounds, key, bounds, false));
        assert(has_key(r@, key));
    }
}

} // verus!
