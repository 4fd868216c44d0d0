//! Maps from octree nodes to values.

use crate::types::VoxelKey;
use crate::voxel_map::VoxelMap;
use vstd::prelude::*;

verus! {

/// A value that was put into a map under a key is what the map has under it; under every other key
/// the map has what it had.
pub proof fn law_insert_and_get<V>()
    ensures
        forall|
            map: &mut VoxelMap<V>,
            key: VoxelKey,
            value: V,
            other: VoxelKey,
            before: Option<&V>,
            after: Option<&V>,
        |
            #![trigger
                call_ensures(VoxelMap::<V>::insert, (map, key, value), ()),
                call_ensures(VoxelMap::<V>::get, (&(*map), &other), before),
                call_ensures(VoxelMap::<V>::get, (&(*final(map)), &other), after)
            ]
            call_ensures(VoxelMap::<V>::insert, (map, key, value), ()) && call_ensures(
                VoxelMap::<V>::get,
                (&(*map), &other),
                before,
            ) && call_ensures(VoxelMap::<V>::get, (&(*final(map)), &other), after) ==> if other
                == key {
                after matches Some(v) && *v == value
            } else {
                &&& after is Some <==> before is Some
                &&& after matches Some(v) ==> *v == *before->0
            },
{
}

/// A new map has nothing under any key.
pub proof fn law_new_map_is_empty<V>(map: VoxelMap<V>, key: VoxelKey, r: Option<&V>)
    requires
        call_ensures(VoxelMap::<V>::new, (), map),
        call_ensures(VoxelMap::<V>::get, (&map, &key), r),
    ensures
        r is None,
{
}

/// The entries of a map are listed each once, and as many as the map says that it has.
pub proof fn law_entries_are_what_is_got<V>(
    map: VoxelMap<V>,
    pairs: Vec<(&VoxelKey, &V)>,
    count: usize,
    empty: bool,
    key: VoxelKey,
    r: Option<&V>,
)
    requires
        call_ensures(VoxelMap::<V>::entries, (&map,), pairs),
        call_ensures(VoxelMap::<V>::len, (&map,), count),
        call_ensures(VoxelMap::<V>::is_empty, (&map,), empty),
        call_ensures(VoxelMap::<V>::get, (&map, &key), r),
    ensures
        r is Some <==> exists|i: int| 0 <= i < pairs@.len() && *(#[trigger] pairs@[i]).0 == key,
        forall|i: int| 0 <= i < pairs@.len() && *(#[trigger] pairs@[i]).0 == key ==> (r matches Some(
            v,
        ) && *v == *pairs@[i].1),
        forall|i: int, j: int|
            0 <= i < j < pairs@.len() ==> *(#[trigger] pairs@[i]).0 != *(#[trigger] pairs@[j]).0,
        count == pairs@.len(),
        empty <==> count == 0,
{
    assert(crate::voxel_map::lists(pairs@, map@));
    lemma_listed(pairs@, map@);
    if map@ == Map::<VoxelKey, V>::empty() {
        assert(map@.dom() =~= Set::empty());
    } else if count == 0 {
        assert(map@.dom() =~= Set::empty());
        assert(map@ =~= Map::<VoxelKey, V>::empty());
    }
}

/// As many entries are listed as there are.
proof fn lemma_listed<V>(pairs: Seq<(&VoxelKey, &V)>, map: Map<VoxelKey, V>)
    requires
        crate::voxel_map::lists(pairs, map),
    ensures
        map.dom().finite(),
        map.dom().len() == pairs.len(),
{
    let keys = Seq::new(pairs.len(), |i: int| *pairs[i].0);
    assert(keys.no_duplicates()) by {
        assert forall|i: int, j: int|
            0 <= i < keys.len() && 0 <= j < keys.len() && i != j implies keys[i] != keys[j] by {
            if i < j {
                assert(*pairs[i].0 != *pairs[j].0);
            } else {
                assert(*pairs[j].0 != *pairs[i].0);
            }
        }
    }
    keys.unique_seq_to_set();
    assert(keys.to_set() =~= map.dom()) by {
        assert forall|k: VoxelKey| keys.to_set().contains(k) <==> map.dom().contains(k) by {
            if map.contains_key(k) {
                let i = choose|i: int|
                    #![trigger pairs[i]]
                    0 <= i < pairs.len() && *pairs[i].0 == k;
                assert(keys[i] == k);
            }
            if keys.contains(k) {
                let i = choose|i: int| 0 <= i < keys.len() && keys[i] == k;
                assert(map.contains_key(*pairs[i].0));
            }
        }
    }
}

} // verus!
