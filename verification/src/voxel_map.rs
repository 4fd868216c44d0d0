//! Maps from octree nodes to what is known of them.

use crate::types::VoxelKey;
use std::collections::HashMap;
use vstd::prelude::*;

verus! {

/// A key as one number: its four fields, each moved into the range of `u32`, side by side.
pub open spec fn code(k: VoxelKey) -> int {
    (((k.level + 0x8000_0000) * 0x1_0000_0000 + (k.x + 0x8000_0000)) * 0x1_0000_0000 + (k.y
        + 0x8000_0000)) * 0x1_0000_0000 + (k.z + 0x8000_0000)
}

/// Different keys have different codes.
pub proof fn lemma_code_is_injective(a: VoxelKey, b: VoxelKey)
    requires
        code(a) == code(b),
    ensures
        a == b,
{
    let w: int = 0x1_0000_0000;
    let (al, ax, ay, az) = (
        a.level + 0x8000_0000,
        a.x + 0x8000_0000,
        a.y + 0x8000_0000,
        a.z + 0x8000_0000,
    );
    let (bl, bx, by, bz) = (
        b.level + 0x8000_0000,
        b.x + 0x8000_0000,
        b.y + 0x8000_0000,
        b.z + 0x8000_0000,
    );
    lemma_digits((al * w + ax) * w + ay, az, (bl * w + bx) * w + by, bz);
    lemma_digits(al * w + ax, ay, bl * w + bx, by);
    lemma_digits(al, ax, bl, bx);
}

/// A number has one last digit in base 2^32.
proof fn lemma_digits(a: int, r: int, b: int, s: int)
    requires
        a * 0x1_0000_0000 + r == b * 0x1_0000_0000 + s,
        0 <= r < 0x1_0000_0000,
        0 <= s < 0x1_0000_0000,
    ensures
        a == b,
        r == s,
{
}

/// Whether the pairs are the entries of the map, each of them once.
pub open spec fn lists<V>(pairs: Seq<(&VoxelKey, &V)>, m: Map<VoxelKey, V>) -> bool {
    &&& forall|i: int|
        #![trigger pairs[i]]
        0 <= i < pairs.len() ==> m.contains_key(*pairs[i].0) && m[*pairs[i].0] == *pairs[i].1
    &&& forall|i: int, j: int|
        #![trigger pairs[i], pairs[j]]
        0 <= i < j < pairs.len() ==> *pairs[i].0 != *pairs[j].0
    &&& forall|k: VoxelKey| #[trigger]
        m.contains_key(k) ==> exists|i: int|
            #![trigger pairs[i]]
            0 <= i < pairs.len() && *pairs[i].0 == k
}

/// A map from octree nodes to values.
pub struct VoxelMap<V> {
    map: HashMap<u128, (VoxelKey, V)>,
}

impl<V> VoxelMap<V> {
    /// Every entry stands under the code of its key.
    #[verifier::type_invariant]
    closed spec fn wf(self) -> bool {
        forall|c: u128| #[trigger] self.map@.contains_key(c) ==> code(self.map@[c].0) == c
    }

    /// The map as a mathematical map.
    pub closed spec fn view(&self) -> Map<VoxelKey, V> {
        Map::new(
            |k: VoxelKey| self.map@.contains_key(code(k) as u128),
            |k: VoxelKey| self.map@[code(k) as u128].1,
        )
    }

    /// The code of a key.
    fn code_of(key: &VoxelKey) -> (r: u128)
        ensures
            r == code(*key),
    {
        let level: u128 = (key.level as i64 + 0x8000_0000) as u128;
        let x: u128 = (key.x as i64 + 0x8000_0000) as u128;
        let y: u128 = (key.y as i64 + 0x8000_0000) as u128;
        let z: u128 = (key.z as i64 + 0x8000_0000) as u128;
        ((level * 0x1_0000_0000 + x) * 0x1_0000_0000 + y) * 0x1_0000_0000 + z
    }

    /// An empty map.
    pub fn new() -> (r: VoxelMap<V>)
        ensures
            r@ == Map::<VoxelKey, V>::empty(),
    {
        let r = VoxelMap { map: HashMap::new() };
        assert(r@ =~= Map::<VoxelKey, V>::empty());
        r
    }

    /// Enter a value, in place of the one that the key had.
    pub fn insert(&mut self, key: VoxelKey, value: V)
        ensures
            final(self)@ == old(self)@.insert(key, value),
    {
        broadcast use vstd::std_specs::hash::group_hash_axioms;

        proof {
            use_type_invariant(&*self);
        }
        let ghost before = self@;
        let mut map = HashMap::new();
        std::mem::swap(&mut map, &mut self.map);
        map.insert(Self::code_of(&key), (key, value));
        self.map = map;
        assert forall|k: VoxelKey| #[trigger]
            self@.contains_key(k) == before.insert(key, value).contains_key(k) by {
            if code(k) == code(key) {
                lemma_code_is_injective(k, key);
            }
        }
        assert forall|k: VoxelKey| #[trigger] self@.contains_key(k) implies self@[k]
            == before.insert(key, value)[k] by {
            if code(k) == code(key) {
                lemma_code_is_injective(k, key);
            }
        }
        assert(self@ =~= before.insert(key, value));
    }

    /// The value of a key.
    pub fn get(&self, key: &VoxelKey) -> (r: Option<&V>)
        ensures
            r is Some <==> self@.contains_key(*key),
            r matches Some(v) ==> *v == self@[*key],
    {
        broadcast use vstd::std_specs::hash::group_hash_axioms;

        match self.map.get(&Self::code_of(key)) {
            Some(entry) => Some(&entry.1),
            None => None,
        }
    }

    /// The number of entries.
    pub fn len(&self) -> (r: usize)
        ensures
            r == self@.dom().len(),
            self@.dom().finite(),
    {
        broadcast use vstd::std_specs::hash::group_hash_axioms;

        proof {
            use_type_invariant(self);
            self.lemma_size();
        }
        self.map.len()
    }

    /// The map has as many entries as the hash map that holds them.
    proof fn lemma_size(&self)
        requires
            self.wf(),
        ensures
            self@.dom().finite(),
            self@.dom().len() == self.map@.dom().len(),
    {
        broadcast use vstd::std_specs::hash::group_hash_axioms;

        let f = |c: u128| self.map@[c].0;
        assert forall|k: VoxelKey| #[trigger]
            self.map@.dom().map(f).contains(k) == self@.dom().contains(k) by {
            if self@.dom().contains(k) {
                let c = code(k) as u128;
                assert(self.map@.contains_key(c));
                lemma_code_is_injective(self.map@[c].0, k);
                assert(f(c) == k);
            }
            if self.map@.dom().map(f).contains(k) {
                let c = choose|c: u128| self.map@.dom().contains(c) && f(c) == k;
                assert(self.map@.contains_key(c));
            }
        }
        assert(self.map@.dom().map(f) =~= self@.dom());
        assert forall|c: u128, d: u128|
            self.map@.dom().contains(c) && self.map@.dom().contains(d) && #[trigger] f(c)
                == #[trigger] f(d) implies c == d by {
            assert(self.map@.contains_key(c) && self.map@.contains_key(d));
        }
        vstd::set_lib::lemma_map_size(self.map@.dom(), self@.dom(), f);
    }

    /// Whether there are no entries.
    pub fn is_empty(&self) -> (r: bool)
        ensures
            r == (self@ == Map::<VoxelKey, V>::empty()),
    {
        let n: usize = self.len();
        proof {
            if n == 0 {
                self@.dom().lemma_len0_is_empty();
                assert(self@ =~= Map::<VoxelKey, V>::empty());
            }
        }
        n == 0
    }

    /// The entries of the hash map, without their codes, are those of the map.
    proof fn lemma_entries(&self, pairs: Seq<(&VoxelKey, &V)>, all: Seq<(&u128, &(VoxelKey, V))>)
        requires
            self.wf(),
            all.no_duplicates(),
            all == vstd::std_specs::iter::IteratorSpec::remaining(
                &vstd::std_specs::hash::spec_hash_map_iter(&self.map),
            ),
            pairs.len() == all.len(),
            forall|i: int|
                0 <= i < all.len() ==> *(#[trigger] pairs[i]).0 == (*all[i].1).0 && *pairs[i].1 == (
                *all[i].1).1,
        ensures
            lists(pairs, self@),
    {
        broadcast use vstd::std_specs::hash::group_hash_axioms;

        assert forall|i: int|
            #![trigger pairs[i]]
            0 <= i < pairs.len() implies self@.contains_key(*pairs[i].0) && self@[*pairs[i].0]
            == *pairs[i].1 && code(*pairs[i].0) == *all[i].0 by {
            assert(self.map@.contains_key(*all[i].0));
            assert(self.map@[*all[i].0] == *all[i].1);
        }
        assert forall|i: int, j: int|
            #![trigger pairs[i], pairs[j]]
            0 <= i < j < pairs.len() implies *pairs[i].0 != *pairs[j].0 by {
            if *pairs[i].0 == *pairs[j].0 {
                assert(*all[i].0 == *all[j].0);
                assert(self.map@[*all[i].0] == *all[i].1);
                assert(self.map@[*all[j].0] == *all[j].1);
                assert(all[i] == all[j]);
            }
        }
        assert forall|k: VoxelKey| #[trigger] self@.contains_key(k) implies exists|i: int|
            #![trigger pairs[i]]
            0 <= i < pairs.len() && *pairs[i].0 == k by {
            let c = code(k) as u128;
            assert(self.map@.contains_key(c));
            let i = choose|i: int| 0 <= i < all.len() && all[i] == (&c, &self.map@[c]);
            lemma_code_is_injective(self.map@[c].0, k);
            assert(*pairs[i].0 == k);
        }
    }

    /// All entries, in no particular order.
    pub fn entries(&self) -> (r: Vec<(&VoxelKey, &V)>)
        ensures
            lists(r@, self@),
    {
        broadcast use vstd::std_specs::hash::group_hash_axioms;

        proof {
            use_type_invariant(self);
        }
        let mut r: Vec<(&VoxelKey, &V)> = Vec::new();
        let iter = self.map.iter();
        let ghost all = vstd::std_specs::iter::IteratorSpec::remaining(&iter);
        for (c, entry) in it: iter
            invariant
                it.seq() == all,
                r@.len() == it.index(),
                forall|i: int|
                    0 <= i < it.index() ==> *(#[trigger] r@[i]).0 == (*all[i].1).0 && *r@[i].1
                        == (*all[i].1).1,
        {
            r.push((&entry.0, &entry.1));
        }
        proof {
            self.lemma_entries(r@, all);
        }
        r
    }
}

} // verus!
