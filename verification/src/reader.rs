//! A COPC file that is read piece by piece.
//!
//! A [`CopcStreamingReader`] holds the header and the loaded part of the hierarchy. It says which
//! parts of the file to read and takes in what was read; the reading itself is up to the caller.

use crate::binary64::Binary64;
use crate::chunk::{
    chunk_decoded, chunk_outcome, decompress_chunk, holds_point, indices_where,
    law_chunk_is_no_larger, law_chunk_is_whole, law_indices_select, law_inside_points_are_placed,
    law_origins_are_picks, law_picks_are_origins, law_points_are_where_records_are,
    law_record_has_one_point, lemma_filter_picks, lemma_indices_in_range, origins, records_size,
    whole_records, Chunk, Decoded,
};
use crate::error::CopcError;
use crate::fields::{Fields, ALL, Z};
use crate::header::{CopcHeader, CopcInfo};
use crate::hierarchy::{keyed, within_level, HierarchyCache, HierarchyEntry};
use crate::hierarchy_load::{boxes_hold, is_load, law_region_load_is_exact, unambiguous};
use crate::point_cloud::{cloud_bytes, format_fields, header_format};
use crate::point_list::{
    are_among, is_among, keys_of, lemma_picked_once, lemma_points_among, lemma_sources_differ,
    same_points, sources,
};
use crate::types::{has_box, one_box, region_test, Aabb, VoxelKey};
use crate::voxel_map::lists;
use vstd::prelude::*;

verus! {

/// How many bytes at the beginning of a file are read for the header and the VLRs.
pub const HEADER_READ_SIZE: u64 = 65536;

/// How much of a file to read for the header and the VLRs, where the size of the file is known or
/// not.
pub fn header_read_size(size: Option<u64>) -> (r: u64)
    ensures
        r == (match size {
            Some(n) => if n < HEADER_READ_SIZE {
                n
            } else {
                HEADER_READ_SIZE
            },
            None => HEADER_READ_SIZE,
        }),
{
    match size {
        Some(n) => if n < HEADER_READ_SIZE {
            n
        } else {
            HEADER_READ_SIZE
        },
        None => HEADER_READ_SIZE,
    }
}

/// The entries of those of the nodes that are loaded, in order.
pub open spec fn loaded_of(
    nodes: Map<VoxelKey, HierarchyEntry>,
    keys: Seq<VoxelKey>,
) -> Seq<HierarchyEntry>
    decreases keys.len(),
{
    if keys.len() == 0 {
        Seq::empty()
    } else {
        let before = loaded_of(nodes, keys.drop_last());
        if nodes.contains_key(keys.last()) {
            before.push(nodes[keys.last()])
        } else {
            before
        }
    }
}

/// Whether these are the eight children of a node, in the order of their octants.
pub open spec fn are_children(key: VoxelKey, children: Seq<VoxelKey>) -> bool {
    &&& children.len() == 8
    &&& forall|dir: int| 0 <= dir < 8 ==> key.has_child(dir, #[trigger] children[dir])
}

/// Whether these are the entries of those of a node's children that are loaded, in the order of
/// their octants.
pub open spec fn are_loaded_children(
    nodes: Map<VoxelKey, HierarchyEntry>,
    key: VoxelKey,
    entries: Seq<&HierarchyEntry>,
) -> bool {
    exists|children: Seq<VoxelKey>| #[trigger]
        are_children(key, children) && entries.len() == loaded_of(nodes, children).len() && forall|
            i: int,
        |
            0 <= i < entries.len() ==> *(#[trigger] entries[i]) == loaded_of(nodes, children)[i]
}

/// Whether a node has points and is not deeper than the limit, if there is one.
pub open spec fn shown(
    nodes: Map<VoxelKey, HierarchyEntry>,
    key: VoxelKey,
    max_level: Option<i32>,
) -> bool {
    nodes.contains_key(key) && nodes[key].point_count > 0 && within_level(key, max_level)
}

/// Whether these are the nodes that have points, are not deeper than the limit, if there is one,
/// and overlap the region with their box: all of them and each once.
pub open spec fn are_visible<F: Fn(VoxelKey) -> Aabb>(
    nodes: Map<VoxelKey, HierarchyEntry>,
    keys: Seq<VoxelKey>,
    bounds: Aabb,
    node_bounds: &F,
    max_level: Option<i32>,
) -> bool {
    &&& keys.no_duplicates()
    &&& forall|i: int|
        0 <= i < keys.len() ==> shown(nodes, #[trigger] keys[i], max_level) && region_test(
            node_bounds,
            keys[i],
            bounds,
            true,
        )
    &&& forall|key: VoxelKey| #[trigger]
        shown(nodes, key, max_level) ==> keys.contains(key) || region_test(
            node_bounds,
            key,
            bounds,
            false,
        )
}

/// Whether node `n` is the first of the nodes that is not loaded.
pub open spec fn first_missing(
    nodes: Map<VoxelKey, HierarchyEntry>,
    keys: Seq<VoxelKey>,
    n: int,
) -> bool {
    &&& 0 <= n < keys.len()
    &&& !nodes.contains_key(keys[n])
    &&& forall|k: int| 0 <= k < n ==> nodes.contains_key(#[trigger] keys[k])
}

/// Whether `r` is what there is to ask for the chunks of these nodes: offset and length of each, in
/// order, or an error with the first node that is not loaded.
pub open spec fn requests_outcome(
    nodes: Map<VoxelKey, HierarchyEntry>,
    keys: Seq<VoxelKey>,
    r: Result<Vec<(u64, u64)>, CopcError>,
) -> bool {
    &&& r is Ok <==> forall|k: int| 0 <= k < keys.len() ==> nodes.contains_key(#[trigger] keys[k])
    &&& forall|n: int| #[trigger]
        first_missing(nodes, keys, n) ==> r == Err::<Vec<(u64, u64)>, CopcError>(
            CopcError::NodeNotFound(keys[n]),
        )
    &&& r matches Ok(ranges) ==> ranges@ == keys.map_values(
        |key: VoxelKey| (nodes[key].offset, nodes[key].byte_size as u64),
    )
}

/// Streaming COPC reader.
///
/// Opening a file takes the LAS header, VLRs, and root hierarchy page. Deeper hierarchy pages and
/// point chunks are loaded on demand.
pub struct CopcStreamingReader<S> {
    source: S,
    header: CopcHeader,
    hierarchy: HierarchyCache,
}

impl<S> CopcStreamingReader<S> {
    /// Where the file is read from.
    pub closed spec fn origin(self) -> S {
        self.source
    }

    /// The header of the file.
    pub closed spec fn parsed(self) -> CopcHeader {
        self.header
    }

    /// The loaded part of the hierarchy.
    pub closed spec fn tree(self) -> HierarchyCache {
        self.hierarchy
    }

    /// A reader of a file whose header and, as far as it is loaded, hierarchy are given.
    pub fn new(source: S, header: CopcHeader, hierarchy: HierarchyCache) -> (r:
        CopcStreamingReader<S>)
        ensures
            r.origin() == source,
            r.parsed() == header,
            r.tree() == hierarchy,
    {
        CopcStreamingReader { source, header, hierarchy }
    }

    /// The parsed COPC file header.
    pub fn header(&self) -> (r: &CopcHeader)
        ensures
            *r == self.parsed(),
    {
        &self.header
    }

    /// Shortcut for `header().copc_info()`.
    pub fn copc_info(&self) -> (r: &CopcInfo)
        ensures
            *r == self.parsed().info(),
    {
        self.header.copc_info()
    }

    /// File offset where EVLRs start.
    pub fn evlr_offset(&self) -> (r: u64)
        ensures
            r == self.parsed().evlrs().0,
    {
        self.header.evlr_offset()
    }

    /// Number of EVLRs in the file.
    pub fn evlr_count(&self) -> (r: u32)
        ensures
            r == self.parsed().evlrs().1,
    {
        self.header.evlr_count()
    }

    /// The underlying byte source.
    pub fn source(&self) -> (r: &S)
        ensures
            *r == self.origin(),
    {
        &self.source
    }

    /// The loaded part of the hierarchy.
    pub fn hierarchy(&self) -> (r: &HierarchyCache)
        ensures
            *r == self.tree(),
    {
        &self.hierarchy
    }

    /// The loaded part of the hierarchy, to load more of it.
    pub fn hierarchy_mut(&mut self) -> (r: &mut HierarchyCache)
        ensures
            *r == old(self).tree(),
            final(self).tree() == *final(r),
            final(self).parsed() == old(self).parsed(),
            final(self).origin() == old(self).origin(),
    {
        &mut self.hierarchy
    }

    /// Look up a hierarchy entry by voxel key.
    pub fn get(&self, key: &VoxelKey) -> (r: Option<&HierarchyEntry>)
        ensures
            r is Some <==> self.tree().nodes().contains_key(*key),
            r matches Some(entry) ==> *entry == self.tree().nodes()[*key] && entry.key == *key,
    {
        self.hierarchy.get(key)
    }

    /// All loaded hierarchy entries with their nodes, in no particular order.
    pub fn entries(&self) -> (r: Vec<(&VoxelKey, &HierarchyEntry)>)
        ensures
            lists(r@, self.tree().nodes()),
    {
        self.hierarchy.iter()
    }

    /// Return loaded child entries for a given node, in the order of their octants.
    ///
    /// Only returns children that are already in the hierarchy cache. If deeper hierarchy pages
    /// haven't been loaded yet, this may return fewer children than actually exist in the file.
    pub fn children(&self, key: &VoxelKey) -> (r: Vec<&HierarchyEntry>)
        requires
            key.level < i32::MAX,
        ensures
            are_loaded_children(self.tree().nodes(), *key, r@),
    {
        let children = key.children();
        let ghost keys = children@;
        let mut r: Vec<&HierarchyEntry> = Vec::new();
        let mut n: usize = 0;
        while n < 8
            invariant
                n <= 8,
                keys == children@,
                keys.len() == 8,
                r@.len() == loaded_of(self.tree().nodes(), keys.take(n as int)).len(),
                forall|i: int|
                    0 <= i < r@.len() ==> *(#[trigger] r@[i]) == loaded_of(
                        self.tree().nodes(),
                        keys.take(n as int),
                    )[i],
            decreases 8 - n,
        {
            proof {
                assert(keys.take(n + 1).drop_last() =~= keys.take(n as int));
                assert(keys.take(n + 1).last() == children@[n as int]);
            }
            if let Some(entry) = self.hierarchy.get(&children[n]) {
                r.push(entry);
            }
            n = n + 1;
        }
        proof {
            assert(keys.take(8) =~= keys);
            assert(are_children(*key, keys));
        }
        r
    }

    /// Number of loaded hierarchy entries.
    pub fn node_count(&self) -> (r: usize)
        ensures
            r == self.tree().nodes().dom().len(),
    {
        self.hierarchy.len()
    }

    /// Whether there are hierarchy pages that haven't been loaded yet.
    pub fn has_pending_pages(&self) -> (r: bool)
        ensures
            r == (self.tree().pending().len() > 0),
    {
        self.hierarchy.has_pending_pages()
    }

    /// Keys in the currently-loaded hierarchy that have points, whose box intersects `bounds` and
    /// whose level is at most `max_level` (if provided). `node_bounds` gives the box of a node.
    ///
    /// Use this to drive your own fetch loop, for parallelism, cancellation, prioritization, or
    /// streaming.
    pub fn visible_keys<F: Fn(VoxelKey) -> Aabb>(
        &self,
        bounds: &Aabb,
        max_level: Option<i32>,
        node_bounds: F,
    ) -> (r: Vec<VoxelKey>)
        requires
            forall|key: VoxelKey| #[trigger]
                shown(self.tree().nodes(), key, max_level) ==> has_box(&node_bounds, key),
        ensures
            are_visible(self.tree().nodes(), r@, *bounds, &node_bounds, max_level),
    {
        let all = self.hierarchy.iter();
        let ghost nodes = self.tree().nodes();
        let mut r: Vec<VoxelKey> = Vec::new();
        let mut n: usize = 0;
        while n < all.len()
            invariant
                n <= all@.len(),
                nodes == self.tree().nodes(),
                lists(all@, nodes),
                forall|key: VoxelKey| #[trigger]
                    shown(nodes, key, max_level) ==> has_box(&node_bounds, key),
                r@.no_duplicates(),
                forall|i: int|
                    0 <= i < r@.len() ==> shown(nodes, #[trigger] r@[i], max_level) && region_test(
                        &node_bounds,
                        r@[i],
                        *bounds,
                        true,
                    ) && exists|k: int| 0 <= k < n && *(#[trigger] all@[k]).0 == r@[i],
                forall|k: int|
                    #![trigger all@[k]]
                    0 <= k < n && shown(nodes, *all@[k].0, max_level) ==> r@.contains(*all@[k].0)
                        || region_test(&node_bounds, *all@[k].0, *bounds, false),
            decreases all@.len() - n,
        {
            let (key, entry) = all[n];
            let ghost before = r@;
            let in_level = match max_level {
                Some(limit) => key.level <= limit,
                None => true,
            };
            if entry.point_count > 0 && in_level {
                assert(shown(nodes, *key, max_level));
                if node_bounds(*key).intersects(bounds) {
                    r.push(*key);
                }
            }
            proof {
                assert forall|i: int| 0 <= i < before.len() implies #[trigger] before[i]
                    != *key by {
                    let k = choose|k: int| 0 <= k < n && *(#[trigger] all@[k]).0 == before[i];
                    assert(*all@[k].0 != *all@[n as int].0);
                }
                assert forall|i: int| 0 <= i < r@.len() implies exists|k: int|
                    0 <= k < n + 1 && *(#[trigger] all@[k]).0 == #[trigger] r@[i] by {
                    if i < before.len() {
                        assert(r@[i] == before[i]);
                        let k = choose|k: int| 0 <= k < n && *(#[trigger] all@[k]).0 == before[i];
                        assert(*all@[k].0 == r@[i]);
                    } else {
                        assert(*all@[n as int].0 == r@[i]);
                    }
                }
                assert forall|k: VoxelKey| before.contains(k) implies #[trigger] r@.contains(k) by {
                    let i = choose|i: int| 0 <= i < before.len() && before[i] == k;
                    assert(r@[i] == k);
                }
                if r@.len() > before.len() {
                    assert(r@[r@.len() - 1] == *key);
                    assert(r@.contains(*key));
                }
            }
            n = n + 1;
        }
        proof {
            assert forall|key: VoxelKey| #[trigger]
                shown(nodes, key, max_level) implies r@.contains(key) || region_test(
                &node_bounds,
                key,
                *bounds,
                false,
            ) by {
                assert(nodes.contains_key(key));
                let k = choose|k: int|
                    #![trigger all@[k]]
                    0 <= k < all@.len() && *all@[k].0 == key;
                assert(*all@[k].0 == key);
            }
        }
        r
    }

    /// Offset and length in the file of a node's compressed chunk.
    pub fn chunk_request(&self, key: &VoxelKey) -> (r: Result<(u64, u64), CopcError>)
        ensures
            r == (if self.tree().nodes().contains_key(*key) {
                let entry = self.tree().nodes()[*key];
                Ok::<(u64, u64), CopcError>((entry.offset, entry.byte_size as u64))
            } else {
                Err(CopcError::NodeNotFound(*key))
            }),
    {
        match self.hierarchy.get(key) {
            Some(entry) => Ok((entry.offset, entry.byte_size as u64)),
            None => Err(CopcError::NodeNotFound(*key)),
        }
    }

    /// Offset and length in the file of each node's compressed chunk, in order.
    ///
    /// All keys must already be present in the loaded hierarchy.
    pub fn chunk_requests(&self, keys: &[VoxelKey]) -> (r: Result<Vec<(u64, u64)>, CopcError>)
        ensures
            requests_outcome(self.tree().nodes(), keys@, r),
    {
        let ghost nodes = self.tree().nodes();
        let mut ranges: Vec<(u64, u64)> = Vec::new();
        let mut n: usize = 0;
        while n < keys.len()
            invariant
                n <= keys@.len(),
                nodes == self.tree().nodes(),
                forall|k: int| 0 <= k < n ==> nodes.contains_key(#[trigger] keys@[k]),
                ranges@.len() == n,
                forall|k: int|
                    0 <= k < n ==> #[trigger] ranges@[k] == (
                        nodes[keys@[k]].offset,
                        nodes[keys@[k]].byte_size as u64,
                    ),
            decreases keys@.len() - n,
        {
            match self.chunk_request(&keys[n]) {
                Ok(range) => ranges.push(range),
                Err(e) => {
                    assert forall|m: int| #[trigger] first_missing(nodes, keys@, m) implies m
                        == n by {
                        assert(!nodes.contains_key(keys@[m]));
                    }
                    return Err(e);
                },
            }
            n = n + 1;
        }
        assert forall|m: int| !#[trigger] first_missing(nodes, keys@, m) by {}
        assert(ranges@ =~= keys@.map_values(
            |key: VoxelKey| (nodes[key].offset, nodes[key].byte_size as u64),
        ));
        Ok(ranges)
    }

    /// What decoding the chunk of a node comes to.
    pub open spec fn node_decoded(self, key: VoxelKey, data: Seq<u8>, fields: Fields) -> Option<
        Decoded,
    > {
        chunk_decoded(
            data,
            self.tree().nodes()[key],
            self.parsed().compression(),
            self.parsed().standard(),
            fields,
        )
    }

    /// Whether the decoder returns on the chunk of a node, and its records are not too many to
    /// hold.
    pub open spec fn decodable(self, key: VoxelKey, data: Seq<u8>, fields: Fields) -> bool {
        &&& records_size(self.tree().nodes()[key], self.parsed().standard()) <= isize::MAX
        &&& self.node_decoded(key, data, fields) is Some
    }

    /// Whether decompressing the chunk of a node succeeds.
    pub open spec fn succeeds(self, key: VoxelKey, data: Seq<u8>, fields: Fields) -> bool {
        self.node_decoded(key, data, fields) matches Some(Decoded::Bytes(bytes)) && whole_records(
            bytes,
            self.parsed().standard(),
        )
    }

    /// Whether `r` is what there is to say of the chunk of a node.
    pub open spec fn node_outcome(
        self,
        key: VoxelKey,
        data: Seq<u8>,
        fields: Fields,
        r: Result<Chunk, CopcError>,
    ) -> bool {
        chunk_outcome(
            self.node_decoded(key, data, fields)->0,
            self.tree().nodes()[key],
            self.parsed().standard(),
            fields,
            r,
        )
    }

    /// Whether `r` is what there is to say of the chunks of these nodes: an error with the first node
    /// that is not loaded; else the chunks, in order, or the error of the first that is none.
    pub open spec fn nodes_outcome(
        self,
        keys: Seq<VoxelKey>,
        blobs: Seq<Vec<u8>>,
        fields: Fields,
        r: Result<Vec<Chunk>, CopcError>,
    ) -> bool {
        &&& forall|n: int| #[trigger]
            first_missing(self.tree().nodes(), keys, n) ==> r == Err::<Vec<Chunk>, CopcError>(
                CopcError::NodeNotFound(keys[n]),
            )
        &&& (forall|k: int|
            0 <= k < keys.len() ==> self.tree().nodes().contains_key(#[trigger] keys[k]))
            ==> match r {
            Ok(chunks) => {
                &&& chunks@.len() == if keys.len() < blobs.len() {
                    keys.len()
                } else {
                    blobs.len()
                }
                &&& forall|n: int|
                    0 <= n < chunks@.len() ==> self.node_outcome(
                        keys[n],
                        blobs[n]@,
                        fields,
                        Ok(#[trigger] chunks@[n]),
                    ) && self.is_sized(keys[n], chunks@[n])
            },
            Err(e) => exists|n: int|
                {
                    &&& 0 <= n < keys.len() && n < blobs.len()
                    &&& forall|k: int|
                        0 <= k < n ==> self.succeeds(#[trigger] keys[k], blobs[k]@, fields)
                    &&& self.node_outcome(
                        #[trigger] keys[n],
                        blobs[n]@,
                        fields,
                        Err::<Chunk, CopcError>(e),
                    )
                },
        }
    }

    /// Whether the records of the chunk take as many bytes as the node's number of points and the
    /// length of a record come to.
    pub open spec fn is_sized(self, key: VoxelKey, chunk: Chunk) -> bool {
        cloud_bytes(chunk.cloud).len() == records_size(
            self.tree().nodes()[key],
            self.parsed().standard(),
        )
    }

    /// Decompress the chunk of a node, decoding only the fields in `fields`.
    ///
    /// On LAS 1.4 layered formats (6/7/8, the formats COPC mandates) omitted layers are not
    /// arithmetically decoded at all. The decoder must return on the chunk, as it must in
    /// [`decompress_chunk`].
    pub fn decompress_node(&self, key: &VoxelKey, data: &[u8], fields: Fields) -> (r: Result<
        Chunk,
        CopcError,
    >)
        requires
            self.tree().nodes().contains_key(*key) ==> self.decodable(*key, data@, fields),
        ensures
            if self.tree().nodes().contains_key(*key) {
                self.node_outcome(*key, data@, fields, r)
            } else {
                r == Err::<Chunk, CopcError>(CopcError::NodeNotFound(*key))
            },
            r matches Ok(chunk) ==> self.is_sized(*key, chunk),
    {
        match self.hierarchy.get(key) {
            Some(entry) => decompress_chunk(
                data,
                entry,
                self.header.laz_vlr(),
                self.header.las_header(),
                fields,
            ),
            None => Err(CopcError::NodeNotFound(*key)),
        }
    }

    /// Decompress the chunks that were read for these nodes, in order, decoding only the fields in
    /// `fields`. The first chunk that cannot be decompressed ends it with its error.
    ///
    /// All keys must already be present in the loaded hierarchy.
    pub fn decompress_nodes(&self, keys: &[VoxelKey], blobs: &[Vec<u8>], fields: Fields) -> (r:
        Result<Vec<Chunk>, CopcError>)
        requires
            forall|n: int|
                0 <= n < keys@.len() && n < blobs@.len() && (forall|k: int|
                    0 <= k < n ==> self.succeeds(#[trigger] keys@[k], blobs@[k]@, fields)) ==> (
                self.tree().nodes().contains_key(#[trigger] keys@[n]) ==> self.decodable(
                    keys@[n],
                    blobs@[n]@,
                    fields,
                )),
        ensures
            self.nodes_outcome(keys@, blobs@, fields, r),
    {
        match self.chunk_requests(keys) {
            Ok(_) => {},
            Err(e) => return Err(e),
        }
        assert forall|m: int| !#[trigger] first_missing(self.tree().nodes(), keys@, m) by {}
        let count: usize = if keys.len() < blobs.len() {
            keys.len()
        } else {
            blobs.len()
        };
        let mut chunks: Vec<Chunk> = Vec::new();
        let mut n: usize = 0;
        while n < count
            invariant
                n <= count <= keys@.len(),
                count <= blobs@.len(),
                forall|k: int|
                    0 <= k < keys@.len() ==> self.tree().nodes().contains_key(#[trigger] keys@[k]),
                forall|n: int|
                    0 <= n < keys@.len() && n < blobs@.len() && (forall|k: int|
                        0 <= k < n ==> self.succeeds(#[trigger] keys@[k], blobs@[k]@, fields)) ==> (
                    self.tree().nodes().contains_key(#[trigger] keys@[n]) ==> self.decodable(
                        keys@[n],
                        blobs@[n]@,
                        fields,
                    )),
                forall|m: int| !#[trigger] first_missing(self.tree().nodes(), keys@, m),
                forall|k: int|
                    0 <= k < n ==> self.succeeds(#[trigger] keys@[k], blobs@[k]@, fields),
                chunks@.len() == n,
                forall|k: int|
                    0 <= k < n ==> self.node_outcome(
                        keys@[k],
                        blobs@[k]@,
                        fields,
                        Ok(#[trigger] chunks@[k]),
                    ) && self.is_sized(keys@[k], chunks@[k]),
            decreases count - n,
        {
            assert(self.tree().nodes().contains_key(keys@[n as int]));
            match self.decompress_node(&keys[n], blobs[n].as_slice(), fields) {
                Ok(chunk) => chunks.push(chunk),
                Err(e) => return Err(e),
            }
            n = n + 1;
        }
        Ok(chunks)
    }
}

/// The numbers of a chunk's points that are inside the region.
pub open spec fn inside_indices(chunk: Chunk, bounds: Aabb) -> Seq<u32> {
    indices_where(chunk.count(), |i: int| chunk.point_inside(bounds, i))
}

/// Whether chunk `n` is the first that has points inside the region and was decoded with a partial
/// field mask.
pub open spec fn first_refused(chunks: Seq<Chunk>, bounds: Aabb, n: int) -> bool {
    &&& 0 <= n < chunks.len()
    &&& refused(chunks[n], bounds)
    &&& forall|k: int| 0 <= k < n ==> !refused(#[trigger] chunks[k], bounds)
}

/// Whether the chunk has points inside the region and was decoded with a partial field mask.
pub open spec fn refused(chunk: Chunk, bounds: Aabb) -> bool {
    chunk.fields.bits != ALL && inside_indices(chunk, bounds).len() > 0
}

/// Whether these are the points of the chunks that are inside the region, chunk by chunk and in
/// order.
pub open spec fn are_inside(chunks: Seq<Chunk>, bounds: Aabb, points: Seq<las::Point>) -> bool {
    let from = origins(chunks.map_values(|c: Chunk| inside_indices(c, bounds)));
    points.len() == from.len() && forall|k: int|
        0 <= k < points.len() ==> chunks[from[k].0].has_point(from[k].1, #[trigger] points[k])
}

/// The points of all chunks that are inside `bounds`, chunk by chunk and in order; an error where a
/// chunk with points inside was decoded with a partial field mask.
pub fn points_inside(chunks: &[Chunk], bounds: &Aabb) -> (r: Result<Vec<las::Point>, CopcError>)
    requires
        forall|k: int| 0 <= k < chunks@.len() ==> (#[trigger] chunks@[k]).fields.has(Z),
    ensures
        r is Ok <==> forall|k: int|
            0 <= k < chunks@.len() ==> !refused(#[trigger] chunks@[k], *bounds),
        forall|n: int| #[trigger]
            first_refused(chunks@, *bounds, n) ==> r == Err::<Vec<las::Point>, CopcError>(
                CopcError::PartialDecode(chunks@[n].fields),
            ),
        r matches Ok(points) ==> are_inside(chunks@, *bounds, points@),
{
    let ghost picks = chunks@.map_values(|c: Chunk| inside_indices(c, *bounds));
    let mut out: Vec<las::Point> = Vec::new();
    let mut n: usize = 0;
    while n < chunks.len()
        invariant
            n <= chunks@.len(),
            forall|k: int| 0 <= k < chunks@.len() ==> (#[trigger] chunks@[k]).fields.has(Z),
            picks == chunks@.map_values(|c: Chunk| inside_indices(c, *bounds)),
            forall|k: int| 0 <= k < n ==> !refused(#[trigger] chunks@[k], *bounds),
            out@.len() == origins(picks.take(n as int)).len(),
            forall|k: int|
                0 <= k < out@.len() ==> chunks@[origins(picks.take(n as int))[k].0].has_point(
                    origins(picks.take(n as int))[k].1,
                    #[trigger] out@[k],
                ),
        decreases chunks@.len() - n,
    {
        let ghost before = out@;
        let ghost from = origins(picks.take(n as int));
        let ghost next = picks.take(n + 1);
        let chunk = &chunks[n];
        proof {
            assert(next.drop_last() =~= picks.take(n as int));
            assert(next.last() == picks[n as int]);
            assert(picks[n as int] == inside_indices(*chunk, *bounds));
            assert(chunks@[n as int].fields.has(Z));
            lemma_indices_in_range(chunk.count(), |i: int| chunk.point_inside(*bounds, i));
        }
        if let Some(indices) = chunk.indices_in_bounds(bounds) {
            if indices.len() > 0 {
                match chunk.points_at(indices.as_slice()) {
                    Ok(points) => {
                        let mut points = points;
                        let ghost more = points@;
                        out.append(&mut points);
                        proof {
                            assert forall|k: int| 0 <= k < out@.len() implies chunks@[origins(
                                next,
                            )[k].0].has_point(origins(next)[k].1, #[trigger] out@[k]) by {
                                if k < before.len() {
                                    assert(out@[k] == before[k]);
                                    assert(origins(next)[k] == from[k]);
                                } else {
                                    assert(out@[k] == more[k - before.len()]);
                                }
                            }
                        }
                    },
                    Err(e) => {
                        assert forall|m: int| #[trigger]
                            first_refused(chunks@, *bounds, m) implies m == n by {
                            assert(refused(chunks@[m], *bounds));
                        }
                        return Err(e);
                    },
                }
            } else {
                assert(origins(next) =~= from);
            }
        }
        n = n + 1;
    }
    assert(picks.take(picks.len() as int) =~= picks);
    assert forall|m: int| !#[trigger] first_refused(chunks@, *bounds, m) by {}
    Ok(out)
}

/// A region query takes a point if and only if it is inside the region: where the chunks' points
/// can be counted with 32 bits.
pub proof fn law_region_query_is_exact(chunks: Seq<Chunk>, bounds: Aabb, c: int, i: int)
    requires
        0 <= c < chunks.len(),
        0 <= i < chunks[c].count() <= 0x1_0000_0000,
    ensures
        origins(chunks.map_values(|c: Chunk| inside_indices(c, bounds))).contains((c, i))
            <==> chunks[c].point_inside(bounds, i),
{
    let picks = chunks.map_values(|c: Chunk| inside_indices(c, bounds));
    let pred = |i: int| chunks[c].point_inside(bounds, i);
    law_indices_select(chunks[c].count(), pred);
    assert(picks[c] == indices_where(chunks[c].count(), pred));
    if chunks[c].point_inside(bounds, i) {
        assert(pred(i));
        let j = choose|j: int| 0 <= j < picks[c].len() && picks[c][j] == i as u32;
        law_picks_are_origins(picks, c, j);
    }
    if origins(picks).contains((c, i)) {
        let k = choose|k: int| 0 <= k < origins(picks).len() && origins(picks)[k] == (c, i);
        law_origins_are_picks(picks, k);
        let j = choose|j: int| 0 <= j < picks[c].len() && #[trigger] picks[c][j] == i;
        assert(pred(indices_where(chunks[c].count(), pred)[j] as int));
    }
}

/// A region query returns only points inside the region: where the chunks' points can be counted
/// with 32 bits.
pub proof fn law_region_query_returns_only_inside(
    chunks: Seq<Chunk>,
    bounds: Aabb,
    points: Seq<las::Point>,
    k: int,
)
    requires
        forall|c: int| 0 <= c < chunks.len() ==> (#[trigger] chunks[c]).count() <= 0x1_0000_0000,
        are_inside(chunks, bounds, points),
        0 <= k < points.len(),
    ensures
        holds_point(bounds, points[k]),
{
    let (c, i) = origins(chunks.map_values(|c: Chunk| inside_indices(c, bounds)))[k];
    lemma_inside_origin(chunks, bounds, k);
    law_points_are_where_records_are(chunks[c], bounds, i, points[k]);
}

/// The points inside the region, of the points of several chunks: chunk by chunk and in order.
pub open spec fn filtered_inside(all: Seq<Seq<las::Point>>, bounds: Aabb) -> Seq<las::Point>
    decreases all.len(),
{
    if all.len() == 0 {
        Seq::empty()
    } else {
        filtered_inside(all.drop_last(), bounds) + all.last().filter(
            |p: las::Point| holds_point(bounds, p),
        )
    }
}

/// A region query returns what is left of the points of each chunk, chunk by chunk and in order,
/// when those outside the region are left out: where the chunks' points can be counted with 32
/// bits.
pub proof fn law_region_query_filters(
    chunks: Seq<Chunk>,
    bounds: Aabb,
    all: Seq<Seq<las::Point>>,
    points: Seq<las::Point>,
)
    requires
        all.len() == chunks.len(),
        forall|c: int| 0 <= c < chunks.len() ==> (#[trigger] chunks[c]).count() <= 0x1_0000_0000,
        forall|c: int|
            0 <= c < chunks.len() ==> (#[trigger] all[c]).len() == chunks[c].count(),
        forall|c: int, i: int|
            0 <= c < chunks.len() && 0 <= i < all[c].len() ==> chunks[c].has_point(
                i,
                #[trigger] all[c][i],
            ),
        are_inside(chunks, bounds, points),
    ensures
        points == filtered_inside(all, bounds),
    decreases chunks.len(),
{
    let picks = chunks.map_values(|c: Chunk| inside_indices(c, bounds));
    if chunks.len() == 0 {
        assert(points =~= filtered_inside(all, bounds));
    } else {
        let last = chunks.len() - 1;
        let chunk = chunks[last];
        let (rest, rest_all) = (chunks.drop_last(), all.drop_last());
        let rest_picks = rest.map_values(|c: Chunk| inside_indices(c, bounds));
        assert(picks.drop_last() =~= rest_picks);
        let n = origins(rest_picks).len() as int;
        let before = points.take(n);
        assert(are_inside(rest, bounds, before)) by {
            assert forall|k: int| 0 <= k < before.len() implies rest[origins(
                rest_picks,
            )[k].0].has_point(origins(rest_picks)[k].1, #[trigger] before[k]) by {
                assert(before[k] == points[k]);
                assert(origins(picks)[k] == origins(rest_picks)[k]);
                law_origins_are_picks(rest_picks, k);
            }
        }
        assert forall|c: int| 0 <= c < rest.len() implies (#[trigger] rest[c]).count()
            <= 0x1_0000_0000 by {
            assert(rest[c] == chunks[c]);
        }
        assert forall|c: int| 0 <= c < rest.len() implies (#[trigger] rest_all[c]).len()
            == rest[c].count() by {
            assert(rest_all[c] == all[c] && rest[c] == chunks[c]);
        }
        assert forall|c: int, i: int|
            0 <= c < rest.len() && 0 <= i < rest_all[c].len() implies rest[c].has_point(
            i,
            #[trigger] rest_all[c][i],
        ) by {
            assert(rest_all[c] == all[c]);
            assert(chunks[c].has_point(i, all[c][i]));
        }
        law_region_query_filters(rest, bounds, rest_all, before);
        let keep = |p: las::Point| holds_point(bounds, p);
        let inside = |i: int| chunk.point_inside(bounds, i);
        assert(all[last].len() == chunk.count());
        assert forall|i: int| 0 <= i < all[last].len() implies keep(#[trigger] all[last][i])
            == inside(i) by {
            assert(chunks[last].has_point(i, all[last][i]));
            law_points_are_where_records_are(chunk, bounds, i, all[last][i]);
        }
        assert(chunks[last].count() <= 0x1_0000_0000);
        lemma_filter_picks(all[last], keep, inside);
        law_indices_select(chunk.count(), inside);
        let kept = all[last].filter(keep);
        let indices = inside_indices(chunk, bounds);
        assert(picks.last() == indices);
        assert(points.len() == n + kept.len());
        assert forall|k: int| 0 <= k < kept.len() implies points[n + k] == #[trigger] kept[k] by {
            let i = indices[k] as int;
            assert(origins(picks)[n + k] == (last, i));
            assert(chunk.has_point(i, points[n + k]));
            assert(inside(i));
            assert(kept[k] == all[last][i]);
            assert(chunks[last].has_point(i, all[last][i]));
            law_inside_points_are_placed(chunk, bounds, i);
            law_record_has_one_point(chunk, i, points[n + k], kept[k]);
        }
        assert(points =~= before + kept);
    }
}

/// A region query of more chunks returns at least the points that one of some of them returns, each
/// as often: where the chunks of each are of different nodes, and their points can be counted with
/// 32 bits.
pub proof fn law_more_chunks_have_more_points(
    chunks: Seq<Chunk>,
    more: Seq<Chunk>,
    bounds: Aabb,
    points: Seq<las::Point>,
    others: Seq<las::Point>,
)
    requires
        keys_of(chunks).no_duplicates(),
        keys_of(more).no_duplicates(),
        are_among(chunks, more),
        forall|c: int| 0 <= c < chunks.len() ==> (#[trigger] chunks[c]).count() <= 0x1_0000_0000,
        forall|c: int| 0 <= c < more.len() ==> (#[trigger] more[c]).count() <= 0x1_0000_0000,
        are_inside(chunks, bounds, points),
        are_inside(more, bounds, others),
    ensures
        points.to_multiset().subset_of(others.to_multiset()),
{
    let picks = chunks.map_values(|c: Chunk| inside_indices(c, bounds));
    let more_picks = more.map_values(|c: Chunk| inside_indices(c, bounds));
    let from = sources(keys_of(chunks), picks);
    let more_from = sources(keys_of(more), more_picks);
    lemma_inside_sources_differ(chunks, bounds);
    lemma_inside_sources_differ(more, bounds);
    assert forall|k: int| 0 <= k < from.len() implies more_from.contains(#[trigger] from[k]) by {
        let (c, i) = origins(picks)[k];
        lemma_inside_origin(chunks, bounds, k);
        assert(chunks[c].count() <= 0x1_0000_0000);
        assert(is_among(chunks[c], more));
        let d = choose|d: int| 0 <= d < more.len() && same_points(chunks[c], #[trigger] more[d]);
        lemma_same_inside(chunks[c], more[d], bounds, i);
        law_region_query_is_exact(more, bounds, d, i);
        let l = choose|l: int|
            0 <= l < origins(more_picks).len() && origins(more_picks)[l] == (d, i);
        assert(more_from[l] == from[k]);
    }
    assert forall|k: int, l: int|
        #![trigger from[k], more_from[l]]
        0 <= k < from.len() && 0 <= l < more_from.len() && from[k] == more_from[l] implies points[k]
        == others[l] by {
        let (c, i) = origins(picks)[k];
        let (e, j) = origins(more_picks)[l];
        lemma_inside_origin(chunks, bounds, k);
        lemma_inside_origin(more, bounds, l);
        assert(is_among(chunks[c], more));
        let d = choose|d: int| 0 <= d < more.len() && same_points(chunks[c], #[trigger] more[d]);
        assert(keys_of(more)[d] == keys_of(more)[e]);
        assert(d == e);
        lemma_same_inside(chunks[c], more[d], bounds, i);
        assert(chunks[c].has_point(i, points[k]));
        assert(more[e].has_point(j, others[l]));
        law_inside_points_are_placed(more[d], bounds, i);
        law_record_has_one_point(more[d], i, points[k], others[l]);
    }
    lemma_points_among(from, points, more_from, others);
}

/// The origin of a point that a region query takes is inside the region.
pub proof fn lemma_inside_origin(chunks: Seq<Chunk>, bounds: Aabb, k: int)
    requires
        forall|c: int| 0 <= c < chunks.len() ==> (#[trigger] chunks[c]).count() <= 0x1_0000_0000,
        0 <= k < origins(chunks.map_values(|c: Chunk| inside_indices(c, bounds))).len(),
    ensures
        ({
            let (c, i) = origins(chunks.map_values(|c: Chunk| inside_indices(c, bounds)))[k];
            &&& 0 <= c < chunks.len()
            &&& 0 <= i < chunks[c].count()
            &&& chunks[c].point_inside(bounds, i)
        }),
{
    let picks = chunks.map_values(|c: Chunk| inside_indices(c, bounds));
    let (c, i) = origins(picks)[k];
    law_origins_are_picks(picks, k);
    let j = choose|j: int| 0 <= j < picks[c].len() && #[trigger] picks[c][j] == i;
    assert(chunks[c].count() <= 0x1_0000_0000);
    let pred = |i: int| chunks[c].point_inside(bounds, i);
    assert(picks[c] == indices_where(chunks[c].count(), pred));
    lemma_indices_in_range(chunks[c].count(), pred);
    law_region_query_is_exact(chunks, bounds, c, i);
}

/// A region query takes no point twice of chunks of different nodes.
pub proof fn lemma_inside_sources_differ(chunks: Seq<Chunk>, bounds: Aabb)
    requires
        keys_of(chunks).no_duplicates(),
        forall|c: int| 0 <= c < chunks.len() ==> (#[trigger] chunks[c]).count() <= 0x1_0000_0000,
    ensures
        sources(
            keys_of(chunks),
            chunks.map_values(|c: Chunk| inside_indices(c, bounds)),
        ).no_duplicates(),
{
    let picks = chunks.map_values(|c: Chunk| inside_indices(c, bounds));
    assert forall|c: int| 0 <= c < picks.len() implies (#[trigger] picks[c]).no_duplicates() by {
        let pred = |i: int| chunks[c].point_inside(bounds, i);
        assert(chunks[c].count() <= 0x1_0000_0000);
        lemma_picked_once(chunks[c].count(), pred);
        assert(picks[c] == indices_where(chunks[c].count(), pred));
    }
    lemma_sources_differ(keys_of(chunks), picks);
}

/// A point is inside a region in each of two chunks with the same points, or in neither.
pub proof fn lemma_same_inside(a: Chunk, b: Chunk, bounds: Aabb, i: int)
    requires
        same_points(a, b),
    ensures
        a.count() == b.count(),
        a.record(i) == b.record(i),
        a.point_inside(bounds, i) == b.point_inside(bounds, i),
{
    if a.point_inside(bounds, i) {
        let p = choose|p: [Binary64; 3]| #[trigger] a.has_position(i, p) && bounds.holds(p);
        assert(b.has_position(i, p));
    }
    if b.point_inside(bounds, i) {
        let p = choose|p: [Binary64; 3]| #[trigger] b.has_position(i, p) && bounds.holds(p);
        assert(a.has_position(i, p));
    }
}

/// A region query sees the nodes that another one sees, with the same entries, wherever they are
/// within its own level: where both load the hierarchy from the same state. So one down to a level
/// sees at least what one down to a smaller level sees, and what one without a limit sees, if no
/// node is deeper. `node_bounds` must give each node one box; the node of a page must enclose with
/// its box those of the nodes in the page and below, and not be deeper than they are; and no node
/// may have entries that differ.
pub proof fn law_deeper_query_sees_more<F: Fn(VoxelKey) -> Aabb>(
    file: Seq<u8>,
    bounds: Aabb,
    node_bounds: F,
    caches: Seq<HierarchyCache>,
    masks: Seq<Seq<bool>>,
    max_level: Option<i32>,
    keys: Seq<VoxelKey>,
    deeper: Seq<HierarchyCache>,
    deeper_masks: Seq<Seq<bool>>,
    deeper_level: Option<i32>,
    more: Seq<VoxelKey>,
)
    requires
        one_box(&node_bounds),
        is_load(file, caches, masks, bounds, node_bounds, max_level),
        is_load(file, deeper, deeper_masks, bounds, node_bounds, deeper_level),
        deeper[0] == caches[0],
        unambiguous(file, caches[0].nodes(), caches[0].pending()),
        boxes_hold(file, caches[0].pending(), node_bounds),
        keyed(caches.last().nodes()),
        are_visible(caches.last().nodes(), keys, bounds, &node_bounds, max_level),
        are_visible(deeper.last().nodes(), more, bounds, &node_bounds, deeper_level),
        forall|k: int| 0 <= k < keys.len() ==> within_level(#[trigger] keys[k], deeper_level),
    ensures
        forall|k: int|
            0 <= k < keys.len() ==> more.contains(#[trigger] keys[k])
                && deeper.last().nodes()[keys[k]] == caches.last().nodes()[keys[k]],
{
    assert forall|k: int| 0 <= k < keys.len() implies more.contains(#[trigger] keys[k])
        && deeper.last().nodes()[keys[k]] == caches.last().nodes()[keys[k]] by {
        let key = keys[k];
        assert(shown(caches.last().nodes(), key, max_level));
        assert(caches.last().nodes().contains_key(key));
        let entry = caches.last().nodes()[key];
        assert(entry.key == key);
        law_region_load_is_exact(file, caches, masks, bounds, node_bounds, max_level, entry);
        law_region_load_is_exact(
            file,
            deeper,
            deeper_masks,
            bounds,
            node_bounds,
            deeper_level,
            entry,
        );
        assert(shown(deeper.last().nodes(), key, deeper_level));
    }
}

/// Whether these are the chunks of the nodes, decompressed from the file.
pub open spec fn are_chunks_of<S>(
    reader: CopcStreamingReader<S>,
    file: Seq<u8>,
    keys: Seq<VoxelKey>,
    fields: Fields,
    chunks: Seq<Chunk>,
) -> bool {
    &&& chunks.len() == keys.len()
    &&& forall|n: int|
        0 <= n < chunks.len() ==> reader.node_outcome(
            keys[n],
            chunk_in(file, reader.tree().nodes()[keys[n]]),
            fields,
            Ok(#[trigger] chunks[n]),
        ) && reader.is_sized(keys[n], chunks[n])
}

/// The bytes of a node's compressed chunk in a file.
pub open spec fn chunk_in(file: Seq<u8>, entry: HierarchyEntry) -> Seq<u8> {
    file.subrange(entry.offset as int, entry.offset + entry.byte_size)
}

/// Chunks of the same node, decompressed from the same file, hold the same points.
proof fn lemma_same_chunk<S>(
    one: CopcStreamingReader<S>,
    other: CopcStreamingReader<S>,
    key: VoxelKey,
    data: Seq<u8>,
    fields: Fields,
    chunk: Chunk,
    same: Chunk,
)
    requires
        one.parsed() == other.parsed(),
        one.tree().nodes()[key] == other.tree().nodes()[key],
        one.node_outcome(key, data, fields, Ok(chunk)),
        other.node_outcome(key, data, fields, Ok(same)),
    ensures
        chunk.key == one.tree().nodes()[key].key,
        same_points(chunk, same),
{
}

/// A chunk that was decompressed has as many points as the hierarchy says, wherever a record is
/// short enough for the point format to count its length; and never more.
pub proof fn law_node_has_its_points<S>(
    reader: CopcStreamingReader<S>,
    key: VoxelKey,
    data: Seq<u8>,
    fields: Fields,
    chunk: Chunk,
)
    requires
        reader.node_outcome(key, data, fields, Ok(chunk)),
        reader.is_sized(key, chunk),
    ensures
        0 <= chunk.count() <= reader.tree().nodes()[key].point_count,
        format_fields(header_format(reader.parsed().standard())).record_len() < 0x1_0000
            ==> chunk.count() == reader.tree().nodes()[key].point_count,
{
    let entry = reader.tree().nodes()[key];
    let header = reader.parsed().standard();
    let bytes = cloud_bytes(chunk.cloud);
    law_chunk_is_no_larger(chunk, bytes, entry, header, fields);
    if format_fields(header_format(header)).record_len() < 0x1_0000 {
        law_chunk_is_whole(chunk, bytes, entry, header, fields);
    }
}

/// The points of decompressed chunks can be counted with 32 bits.
pub proof fn law_chunks_are_countable<S>(
    reader: CopcStreamingReader<S>,
    file: Seq<u8>,
    keys: Seq<VoxelKey>,
    fields: Fields,
    chunks: Seq<Chunk>,
)
    requires
        are_chunks_of(reader, file, keys, fields, chunks),
    ensures
        forall|c: int| 0 <= c < chunks.len() ==> (#[trigger] chunks[c]).count() <= u32::MAX,
{
    assert forall|c: int| 0 <= c < chunks.len() implies (#[trigger] chunks[c]).count()
        <= u32::MAX by {
        let data = chunk_in(file, reader.tree().nodes()[keys[c]]);
        law_node_has_its_points(reader, keys[c], data, fields, chunks[c]);
    }
}

/// The chunks of nodes have the keys of the nodes.
proof fn lemma_chunks_have_keys<S>(
    reader: CopcStreamingReader<S>,
    file: Seq<u8>,
    keys: Seq<VoxelKey>,
    fields: Fields,
    chunks: Seq<Chunk>,
)
    requires
        forall|k: int|
            0 <= k < keys.len() ==> reader.tree().nodes()[#[trigger] keys[k]].key == keys[k],
        are_chunks_of(reader, file, keys, fields, chunks),
    ensures
        keys_of(chunks) == keys,
{
    assert forall|n: int| 0 <= n < chunks.len() implies (#[trigger] chunks[n]).key == keys[n] by {
        let data = chunk_in(file, reader.tree().nodes()[keys[n]]);
        lemma_same_chunk(reader, reader, keys[n], data, fields, chunks[n], chunks[n]);
    }
    assert(keys_of(chunks) =~= keys);
}

/// The chunks of some nodes are among those of more nodes, and each has its node's key: where both
/// are decompressed from the same file, with the same entries.
pub proof fn law_chunks_of_some_nodes<S>(
    file: Seq<u8>,
    one: CopcStreamingReader<S>,
    other: CopcStreamingReader<S>,
    keys: Seq<VoxelKey>,
    more: Seq<VoxelKey>,
    fields: Fields,
    chunks: Seq<Chunk>,
    more_chunks: Seq<Chunk>,
)
    requires
        one.parsed() == other.parsed(),
        forall|k: int|
            0 <= k < keys.len() ==> one.tree().nodes()[#[trigger] keys[k]].key == keys[k]
                && more.contains(keys[k]) && other.tree().nodes()[keys[k]]
                == one.tree().nodes()[keys[k]],
        forall|k: int|
            0 <= k < more.len() ==> other.tree().nodes()[#[trigger] more[k]].key == more[k],
        are_chunks_of(one, file, keys, fields, chunks),
        are_chunks_of(other, file, more, fields, more_chunks),
    ensures
        keys_of(chunks) == keys,
        keys_of(more_chunks) == more,
        are_among(chunks, more_chunks),
{
    lemma_chunks_have_keys(one, file, keys, fields, chunks);
    lemma_chunks_have_keys(other, file, more, fields, more_chunks);
    assert forall|c: int| 0 <= c < chunks.len() implies is_among(
        #[trigger] chunks[c],
        more_chunks,
    ) by {
        assert(more.contains(keys[c]));
        let d = choose|d: int| 0 <= d < more.len() && more[d] == keys[c];
        let data = chunk_in(file, one.tree().nodes()[keys[c]]);
        assert(other.node_outcome(more[d], data, fields, Ok(more_chunks[d])));
        lemma_same_chunk(one, other, keys[c], data, fields, chunks[c], more_chunks[d]);
        assert(same_points(chunks[c], more_chunks[d]));
    }
}

/// A region query that sees more nodes returns at least the points that one which sees some of them
/// returns, each as often: where both decompress the chunks of their nodes from the same file.
pub proof fn law_more_nodes_have_more_points<S>(
    file: Seq<u8>,
    one: CopcStreamingReader<S>,
    other: CopcStreamingReader<S>,
    keys: Seq<VoxelKey>,
    more: Seq<VoxelKey>,
    fields: Fields,
    chunks: Seq<Chunk>,
    more_chunks: Seq<Chunk>,
    bounds: Aabb,
    points: Seq<las::Point>,
    others: Seq<las::Point>,
)
    requires
        one.parsed() == other.parsed(),
        keys.no_duplicates(),
        more.no_duplicates(),
        forall|k: int|
            0 <= k < keys.len() ==> one.tree().nodes()[#[trigger] keys[k]].key == keys[k]
                && more.contains(keys[k]) && other.tree().nodes()[keys[k]]
                == one.tree().nodes()[keys[k]],
        forall|k: int|
            0 <= k < more.len() ==> other.tree().nodes()[#[trigger] more[k]].key == more[k],
        are_chunks_of(one, file, keys, fields, chunks),
        are_chunks_of(other, file, more, fields, more_chunks),
        are_inside(chunks, bounds, points),
        are_inside(more_chunks, bounds, others),
    ensures
        points.to_multiset().subset_of(others.to_multiset()),
{
    law_chunks_of_some_nodes(file, one, other, keys, more, fields, chunks, more_chunks);
    law_chunks_are_countable(one, file, keys, fields, chunks);
    law_chunks_are_countable(other, file, more, fields, more_chunks);
    law_more_chunks_have_more_points(chunks, more_chunks, bounds, points, others);
}

} // verus!
