//! Lists of points that several chunks contribute to.
//!
//! A query takes some points of each of several chunks. Where each of them comes from, by node and
//! number, tells them apart, and tells what the results of two queries have in common.

use crate::chunk::{indices_where, law_indices_select, law_origins_are_picks, origins, Chunk};
use crate::point_cloud::{cloud_bytes, cloud_format, cloud_transforms};
use crate::types::VoxelKey;
use vstd::prelude::*;

verus! {

/// Whether the two chunks are of the same node, and hold the same points.
pub open spec fn same_points(a: Chunk, b: Chunk) -> bool {
    &&& a.key == b.key
    &&& cloud_bytes(a.cloud) == cloud_bytes(b.cloud)
    &&& cloud_format(a.cloud) == cloud_format(b.cloud)
    &&& cloud_transforms(a.cloud) == cloud_transforms(b.cloud)
}

/// Whether the chunk is among the others, as far as its points go.
pub open spec fn is_among(chunk: Chunk, others: Seq<Chunk>) -> bool {
    exists|d: int| 0 <= d < others.len() && same_points(chunk, #[trigger] others[d])
}

/// Whether each of the chunks is among the others, as far as its points go.
pub open spec fn are_among(chunks: Seq<Chunk>, others: Seq<Chunk>) -> bool {
    forall|c: int| 0 <= c < chunks.len() ==> is_among(#[trigger] chunks[c], others)
}

/// The nodes of chunks, in order.
pub open spec fn keys_of(chunks: Seq<Chunk>) -> Seq<VoxelKey> {
    chunks.map_values(|c: Chunk| c.key)
}

/// Where the picked points of several chunks come from: the node, and the number of the point in
/// its chunk.
pub open spec fn sources(keys: Seq<VoxelKey>, picks: Seq<Seq<u32>>) -> Seq<(VoxelKey, int)> {
    origins(picks).map_values(|o: (int, int)| (keys[o.0], o.1))
}

/// No point is picked twice, where the chunks are of different nodes and no number is picked twice
/// of a chunk.
pub proof fn lemma_sources_differ(keys: Seq<VoxelKey>, picks: Seq<Seq<u32>>)
    requires
        keys.len() == picks.len(),
        keys.no_duplicates(),
        forall|c: int| 0 <= c < picks.len() ==> (#[trigger] picks[c]).no_duplicates(),
    ensures
        sources(keys, picks).no_duplicates(),
    decreases picks.len(),
{
    if picks.len() > 0 {
        let (rest_keys, rest) = (keys.drop_last(), picks.drop_last());
        let before = sources(rest_keys, rest);
        let all = sources(keys, picks);
        let last = picks.len() - 1;
        assert forall|c: int| 0 <= c < rest.len() implies (
        #[trigger] rest[c]).no_duplicates() by {
            assert(rest[c] == picks[c]);
        }
        lemma_sources_differ(rest_keys, rest);
        assert forall|k: int| 0 <= k < before.len() implies #[trigger] all[k] == before[k]
            && all[k].0 != keys[last] by {
            law_origins_are_picks(rest, k);
            assert(origins(picks)[k] == origins(rest)[k]);
            assert(keys[origins(rest)[k].0] != keys[last]);
        }
        assert forall|k: int| before.len() <= k < all.len() implies #[trigger] all[k] == (
            keys[last],
            picks[last][k - before.len()] as int,
        ) by {}
        assert(picks[last].no_duplicates());
        assert forall|k: int, l: int|
            0 <= k < all.len() && 0 <= l < all.len() && k != l implies all[k] != all[l] by {
            if k < before.len() && l < before.len() {
                assert(before[k] != before[l]);
            } else if k >= before.len() && l >= before.len() {
                assert(picks[last][k - before.len()] != picks[last][l - before.len()]);
            }
        }
    }
}

/// No number is selected twice, of numbers of 32 bits.
pub proof fn lemma_picked_once(n: int, pred: spec_fn(int) -> bool)
    requires
        n <= 0x1_0000_0000,
    ensures
        indices_where(n, pred).no_duplicates(),
{
    let picked = indices_where(n, pred);
    if n >= 0 {
        law_indices_select(n, pred);
    }
    assert forall|k: int, l: int|
        0 <= k < picked.len() && 0 <= l < picked.len() && k != l implies picked[k] != picked[l] by {
        if k < l {
            assert(picked[k] < picked[l]);
        } else {
            assert(picked[l] < picked[k]);
        }
    }
}

/// Points that come from some of the places that others come from are among those, each as often:
/// where no place comes twice, and a place has one point.
pub proof fn lemma_points_among<K, P>(from: Seq<K>, points: Seq<P>, more: Seq<K>, others: Seq<P>)
    requires
        from.len() == points.len(),
        more.len() == others.len(),
        from.no_duplicates(),
        more.no_duplicates(),
        forall|k: int| 0 <= k < from.len() ==> more.contains(#[trigger] from[k]),
        forall|k: int, l: int|
            #![trigger from[k], more[l]]
            0 <= k < from.len() && 0 <= l < more.len() && from[k] == more[l] ==> points[k]
                == others[l],
    ensures
        points.to_multiset().subset_of(others.to_multiset()),
    decreases from.len(),
{
    broadcast use vstd::seq_lib::group_to_multiset_ensures;

    if from.len() > 0 {
        let last = from.len() - 1;
        assert(more.contains(from[last]));
        let b = choose|b: int| 0 <= b < more.len() && more[b] == from[last];
        let (from1, points1) = (from.drop_last(), points.drop_last());
        let (more1, others1) = (more.remove(b), others.remove(b));
        assert(others[b] == points[last]);
        assert forall|k: int| 0 <= k < from1.len() implies more1.contains(#[trigger] from1[k]) by {
            assert(more.contains(from[k]));
            let l = choose|l: int| 0 <= l < more.len() && more[l] == from[k];
            assert(from[k] != from[last]);
            if l < b {
                assert(more1[l] == from1[k]);
            } else {
                assert(more1[l - 1] == from1[k]);
            }
        }
        assert forall|k: int, l: int|
            #![trigger from1[k], more1[l]]
            0 <= k < from1.len() && 0 <= l < more1.len() && from1[k] == more1[l] implies points1[k]
            == others1[l] by {
            let m = if l < b {
                l
            } else {
                l + 1
            };
            assert(from[k] == more[m]);
        }
        lemma_points_among(from1, points1, more1, others1);
        assert(points1.push(points[last]) =~= points);
        assert(others1.to_multiset() =~= others.to_multiset().remove(others[b]));
        assert(others.contains(others[b]));
    } else {
        assert(points =~= Seq::empty());
    }
}

/// Filtering keeps what satisfies the predicate, each as often as it was there.
pub proof fn lemma_filter_counts<P>(points: Seq<P>, keep: spec_fn(P) -> bool, p: P)
    ensures
        points.filter(keep).to_multiset().count(p) == (if keep(p) {
            points.to_multiset().count(p)
        } else {
            0
        }),
    decreases points.len(),
{
    broadcast use vstd::seq_lib::group_to_multiset_ensures;

    reveal(Seq::filter);
    if points.len() > 0 {
        let rest = points.drop_last();
        lemma_filter_counts(rest, keep, p);
        assert(rest.push(points.last()) =~= points);
    } else {
        assert(points.filter(keep) =~= points);
        assert(points =~= Seq::empty());
    }
}

} // verus!
