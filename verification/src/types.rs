//! Octree node keys and bounding boxes.

use crate::binary64::Binary64;
use vstd::prelude::*;

verus! {

/// Octree node key: (level, x, y, z).
///
/// All fields are `i32`, as in the COPC wire format. `level` is nonnegative in every valid file;
/// `x`, `y`, `z` are signed.
#[derive(Debug, Clone, Copy, PartialEq, Eq, Structural, Hash)]
pub struct VoxelKey {
    /// Octree depth (0 = root).
    pub level: i32,
    /// X coordinate at this level.
    pub x: i32,
    /// Y coordinate at this level.
    pub y: i32,
    /// Z coordinate at this level.
    pub z: i32,
}

/// The coordinate `2 * c + bit`, wrapped into the range of `i32`.
pub open spec fn child_coordinate(c: i32, bit: int) -> int {
    if c >= 0x4000_0000 {
        2 * c + bit - 0x1_0000_0000
    } else if c < -0x4000_0000 {
        2 * c + bit + 0x1_0000_0000
    } else {
        2 * c + bit
    }
}

/// Bit `axis` of an octant number: 1 in the upper half along that axis, 0 in the lower.
pub open spec fn octant_bit(dir: int, axis: int) -> int {
    if axis == 0 {
        dir % 2
    } else if axis == 1 {
        (dir / 2) % 2
    } else {
        (dir / 4) % 2
    }
}

impl VoxelKey {
    /// The key of the octree's root.
    pub open spec fn is_root(self) -> bool {
        self == (VoxelKey { level: 0, x: 0, y: 0, z: 0 })
    }

    /// Whether `p` is the node that covers this one a level higher: each coordinate is halved,
    /// rounding down.
    pub open spec fn has_parent(self, p: VoxelKey) -> bool {
        &&& p.level == self.level - 1
        &&& p.x == self.x as int / 2
        &&& p.y == self.y as int / 2
        &&& p.z == self.z as int / 2
    }

    /// Whether `c` is this node's child in octant `dir`.
    pub open spec fn has_child(self, dir: int, c: VoxelKey) -> bool {
        &&& c.level == self.level + 1
        &&& c.x == child_coordinate(self.x, octant_bit(dir, 0))
        &&& c.y == child_coordinate(self.y, octant_bit(dir, 1))
        &&& c.z == child_coordinate(self.z, octant_bit(dir, 2))
    }

    /// Whether the children's coordinates are in the range of `i32` without wrapping.
    pub open spec fn splittable(self) -> bool {
        &&& self.level < i32::MAX
        &&& -0x4000_0000 <= self.x < 0x4000_0000
        &&& -0x4000_0000 <= self.y < 0x4000_0000
        &&& -0x4000_0000 <= self.z < 0x4000_0000
    }

    /// The root octree node.
    pub fn root() -> (k: VoxelKey)
        ensures
            k.is_root(),
    {
        VoxelKey { level: 0, x: 0, y: 0, z: 0 }
    }

    /// Return the parent key, or `None` for a node at level 0.
    pub fn parent(&self) -> (r: Option<VoxelKey>)
        requires
            self.level > i32::MIN,
        ensures
            r is None <==> self.level == 0,
            r matches Some(p) ==> self.has_parent(p),
    {
        if self.level == 0 {
            return None;
        }
        Some(
            VoxelKey {
                level: self.level - 1,
                x: half(self.x),
                y: half(self.y),
                z: half(self.z),
            },
        )
    }

    /// Return the child key in the given octant direction (0 to 7).
    pub fn child(&self, dir: u8) -> (r: VoxelKey)
        requires
            dir < 8,
            self.level < i32::MAX,
        ensures
            self.has_child(dir as int, r),
    {
        assert(dir & 0x1 == dir % 2) by (bit_vector);
        assert((dir >> 1) & 0x1 == (dir / 2) % 2) by (bit_vector);
        assert((dir >> 2) & 0x1 == (dir / 4) % 2) by (bit_vector);
        VoxelKey {
            level: self.level + 1,
            x: double(self.x, dir & 0x1),
            y: double(self.y, (dir >> 1) & 0x1),
            z: double(self.z, (dir >> 2) & 0x1),
        }
    }

    /// Return all eight child keys, in the order of their octants.
    pub fn children(&self) -> (r: [VoxelKey; 8])
        requires
            self.level < i32::MAX,
        ensures
            forall|dir: int| 0 <= dir < 8 ==> self.has_child(dir, #[trigger] r[dir]),
    {
        [
            self.child(0),
            self.child(1),
            self.child(2),
            self.child(3),
            self.child(4),
            self.child(5),
            self.child(6),
            self.child(7),
        ]
    }
}

/// Half of a coordinate, rounded down.
fn half(c: i32) -> (r: i32)
    ensures
        r == c as int / 2,
{
    assert(c >= 0 ==> c >> 1 == c / 2) by (bit_vector);
    assert(c < 0 ==> 2 * (c >> 1) <= c && c <= 2 * (c >> 1) + 1) by (bit_vector);
    c >> 1
}

/// Twice a coordinate plus a bit, wrapped.
fn double(c: i32, bit: u8) -> (r: i32)
    requires
        bit < 2,
    ensures
        r == child_coordinate(c, bit as int),
{
    let b: i32 = bit as i32;
    assert(c >= 0x4000_0000 && (b == 0 || b == 1) ==> (c << 1) | b == 2 * c + b - 0x1_0000_0000)
        by (bit_vector);
    assert(c < -0x4000_0000 && (b == 0 || b == 1) ==> (c << 1) | b == 2 * c + b + 0x1_0000_0000)
        by (bit_vector);
    assert(-0x4000_0000 <= c && c < 0x4000_0000 && (b == 0 || b == 1) ==> (c << 1) | b == 2 * c
        + b) by (bit_vector);
    (c << 1) | b
}

/// A child's parent is the node it is a child of.
pub proof fn law_parent_of_child(k: VoxelKey, dir: int, c: VoxelKey, p: VoxelKey)
    requires
        0 <= dir < 8,
        k.splittable(),
        k.has_child(dir, c),
        c.has_parent(p),
    ensures
        p == k,
{
}

/// Every node is a child of its parent: in the octant that the low bits of its coordinates name.
pub proof fn law_child_of_parent(k: VoxelKey, p: VoxelKey)
    requires
        k.has_parent(p),
    ensures
        p.has_child(k.x % 2 + 2 * (k.y % 2) + 4 * (k.z % 2), k),
{
}

/// The eight children of a node are eight different nodes.
pub proof fn law_children_differ(k: VoxelKey, d1: int, c1: VoxelKey, d2: int, c2: VoxelKey)
    requires
        0 <= d1 < 8,
        0 <= d2 < 8,
        d1 != d2,
        k.has_child(d1, c1),
        k.has_child(d2, c2),
    ensures
        c1 != c2,
{
}

/// Axis-aligned bounding box.
#[derive(Debug, Clone, Copy, PartialEq)]
pub struct Aabb {
    /// Minimum corner `[x, y, z]`.
    pub min: [Binary64; 3],
    /// Maximum corner `[x, y, z]`.
    pub max: [Binary64; 3],
}

impl Aabb {
    /// Whether the two boxes' extents meet along one axis.
    pub open spec fn meets_along(self, other: Aabb, axis: int) -> bool {
        &&& self.min[axis].at_most(other.max[axis])
        &&& other.min[axis].at_most(self.max[axis])
    }

    /// Whether the two boxes have a point in common: their extents meet along every axis.
    pub open spec fn meets(self, other: Aabb) -> bool {
        &&& self.meets_along(other, 0)
        &&& self.meets_along(other, 1)
        &&& self.meets_along(other, 2)
    }

    /// Whether the other box lies within this one.
    pub open spec fn encloses(self, other: Aabb) -> bool {
        forall|axis: int|
            0 <= axis < 3 ==> self.min[axis].at_most(#[trigger] other.min[axis])
                && other.max[axis].at_most(self.max[axis])
    }

    /// Whether the box holds this point; its faces belong to it.
    pub open spec fn holds(self, p: [Binary64; 3]) -> bool {
        forall|axis: int|
            0 <= axis < 3 ==> self.min[axis].at_most(#[trigger] p[axis]) && p[axis].at_most(
                self.max[axis],
            )
    }

    /// Test whether two bounding boxes overlap.
    pub fn intersects(&self, other: &Aabb) -> (r: bool)
        ensures
            r == self.meets(*other),
    {
        self.min[0].le(&other.max[0]) && other.min[0].le(&self.max[0]) && self.min[1].le(
            &other.max[1],
        ) && other.min[1].le(&self.max[1]) && self.min[2].le(&other.max[2]) && other.min[2].le(
            &self.max[2],
        )
    }

    /// Test whether the box holds a point.
    pub fn contains(&self, p: &[Binary64; 3]) -> (r: bool)
        ensures
            r == self.holds(*p),
    {
        let x = self.min[0].le(&p[0]) && p[0].le(&self.max[0]);
        let y = self.min[1].le(&p[1]) && p[1].le(&self.max[1]);
        let z = self.min[2].le(&p[2]) && p[2].le(&self.max[2]);
        x && y && z
    }
}

/// Whether `node_bounds` can be asked for the box of this node.
pub open spec fn has_box<F: Fn(VoxelKey) -> Aabb>(node_bounds: &F, key: VoxelKey) -> bool {
    call_requires(*node_bounds, (key,))
}

/// Whether `answer` says if this node's box, as `node_bounds` gives it, overlaps the region.
pub open spec fn region_test<F: Fn(VoxelKey) -> Aabb>(
    node_bounds: &F,
    key: VoxelKey,
    bounds: Aabb,
    answer: bool,
) -> bool {
    exists|b: Aabb| #[trigger]
        call_ensures(*node_bounds, (key,), b) && answer == b.meets(bounds)
}

/// Whether `node_bounds` gives each node one box.
pub open spec fn one_box<F: Fn(VoxelKey) -> Aabb>(node_bounds: &F) -> bool {
    forall|key: VoxelKey, a: Aabb, b: Aabb| #[trigger]
        call_ensures(*node_bounds, (key,), a) && #[trigger] call_ensures(*node_bounds, (key,), b)
            ==> a == b
}

/// Whether two boxes overlap does not depend on which is asked.
pub proof fn law_meets_is_symmetric(a: Aabb, b: Aabb)
    ensures
        a.meets(b) == b.meets(a),
{
}

/// A box overlaps whatever a box within it overlaps.
pub proof fn law_enclosing_box_meets(outer: Aabb, inner: Aabb, other: Aabb)
    requires
        outer.encloses(inner),
        inner.meets(other),
    ensures
        outer.meets(other),
{
    assert(outer.min[0].at_most(inner.min[0]));
    assert(outer.min[1].at_most(inner.min[1]));
    assert(outer.min[2].at_most(inner.min[2]));
}

/// Boxes with a point in common overlap: a node that holds a point of the query region is never
/// left out.
pub proof fn law_common_point_meets(a: Aabb, b: Aabb, p: [Binary64; 3])
    requires
        a.holds(p),
        b.holds(p),
    ensures
        a.meets(b),
{
    assert(a.min[0].at_most(p[0]) && b.min[0].at_most(p[0]));
    assert(a.min[1].at_most(p[1]) && b.min[1].at_most(p[1]));
    assert(a.min[2].at_most(p[2]) && b.min[2].at_most(p[2]));
}

} // verus!
