//! Octree nodes and boxes.

use crate::binary64::Binary64;
use crate::types::{Aabb, VoxelKey};
use vstd::prelude::*;

verus! {

/// Whether along each of the three axes neither box ends before the other begins.
pub open spec fn overlap(a: Aabb, b: Aabb) -> bool {
    &&& a.min[0].at_most(b.max[0]) && b.min[0].at_most(a.max[0])
    &&& a.min[1].at_most(b.max[1]) && b.min[1].at_most(a.max[1])
    &&& a.min[2].at_most(b.max[2]) && b.min[2].at_most(a.max[2])
}

/// Boxes overlap if and only if along each axis neither ends before the other begins.
pub proof fn law_overlap_is_along_every_axis(a: Aabb, b: Aabb, r: bool)
    requires
        call_ensures(Aabb::intersects, (&a, &b), r),
    ensures
        r <==> overlap(a, b),
{
}

/// Boxes that are apart along some axis do not overlap.
pub proof fn law_boxes_apart(a: Aabb, b: Aabb, axis: int, r: bool)
    requires
        call_ensures(Aabb::intersects, (&a, &b), r),
        0 <= axis < 3,
        a.max[axis].below(b.min[axis]) || b.max[axis].below(a.min[axis]),
    ensures
        !r,
{
}

/// Boxes with proper corners overlap if and only if some point lies in both.
pub proof fn law_overlap_is_a_common_point(a: Aabb, b: Aabb, r: bool)
    requires
        call_ensures(Aabb::intersects, (&a, &b), r),
        forall|axis: int|
            0 <= axis < 3 ==> (#[trigger] a.min[axis]).at_most(a.max[axis])
                && b.min[axis].at_most(b.max[axis]),
    ensures
        r <==> exists|x: Binary64, y: Binary64, z: Binary64|
            #![trigger a.min[0].at_most(x), a.min[1].at_most(y), a.min[2].at_most(z)]
            {
                &&& a.min[0].at_most(x) && x.at_most(a.max[0])
                &&& b.min[0].at_most(x) && x.at_most(b.max[0])
                &&& a.min[1].at_most(y) && y.at_most(a.max[1])
                &&& b.min[1].at_most(y) && y.at_most(b.max[1])
                &&& a.min[2].at_most(z) && z.at_most(a.max[2])
                &&& b.min[2].at_most(z) && z.at_most(b.max[2])
            },
{
    assert(a.min[0].at_most(a.max[0]) && a.min[1].at_most(a.max[1]) && a.min[2].at_most(a.max[2]));
    if r {
        let x = later(a.min[0], b.min[0]);
        let y = later(a.min[1], b.min[1]);
        let z = later(a.min[2], b.min[2]);
        assert(a.min[0].at_most(x) && a.min[1].at_most(y) && a.min[2].at_most(z));
    }
}

/// The greater of two numbers.
spec fn later(a: Binary64, b: Binary64) -> Binary64 {
    if a.at_most(b) {
        b
    } else {
        a
    }
}

/// A box holds a point if and only if each coordinate is between those of its corners.
pub proof fn law_box_holds_what_is_between(a: Aabb, p: [Binary64; 3], r: bool)
    requires
        call_ensures(Aabb::contains, (&a, &p), r),
    ensures
        r <==> {
            &&& a.min[0].at_most(p[0]) && p[0].at_most(a.max[0])
            &&& a.min[1].at_most(p[1]) && p[1].at_most(a.max[1])
            &&& a.min[2].at_most(p[2]) && p[2].at_most(a.max[2])
        },
{
    if r {
        assert(a.min[0].at_most(p[0]) && a.min[1].at_most(p[1]) && a.min[2].at_most(p[2]));
    }
}

/// A child lies one level down, at twice the coordinates, in the upper half along an axis where the
/// octant's bit is set: modulo 2^32, as far as the coordinates of nodes go.
pub proof fn law_child_doubles_coordinates(k: VoxelKey, dir: u8, c: VoxelKey)
    requires
        call_ensures(VoxelKey::child, (&k, dir), c),
        dir < 8,
    ensures
        c.level == k.level + 1,
        (c.x - 2 * k.x - (dir & 1)) % 0x1_0000_0000 == 0,
        (c.y - 2 * k.y - ((dir >> 1) & 1)) % 0x1_0000_0000 == 0,
        (c.z - 2 * k.z - ((dir >> 2) & 1)) % 0x1_0000_0000 == 0,
{
    assert(dir & 1 == dir % 2 && (dir >> 1) & 1 == (dir / 2) % 2 && (dir >> 2) & 1 == (dir / 4)
        % 2) by (bit_vector);
}

/// The eight children are the children in the eight octants, in order.
pub proof fn law_children_are_the_octants(k: VoxelKey, all: [VoxelKey; 8], dir: u8, c: VoxelKey)
    requires
        call_ensures(VoxelKey::children, (&k,), all),
        call_ensures(VoxelKey::child, (&k, dir), c),
        dir < 8,
    ensures
        all[dir as int] == c,
{
    assert(k.has_child(dir as int, all[dir as int]));
}

/// A node of level 0 has no parent; every other has one a level up, at half the coordinates.
pub proof fn law_parent_halves_coordinates(k: VoxelKey, r: Option<VoxelKey>)
    requires
        call_ensures(VoxelKey::parent, (&k,), r),
    ensures
        r is None <==> k.level == 0,
        r matches Some(p) ==> p.level == k.level - 1 && 2 * p.x <= k.x <= 2 * p.x + 1 && 2 * p.y
            <= k.y <= 2 * p.y + 1 && 2 * p.z <= k.z <= 2 * p.z + 1,
{
}

/// The parent of a child is the node, wherever the child's coordinates did not wrap round.
pub proof fn law_parent_undoes_child(k: VoxelKey, dir: u8, c: VoxelKey, r: Option<VoxelKey>)
    requires
        call_ensures(VoxelKey::child, (&k, dir), c),
        call_ensures(VoxelKey::parent, (&c,), r),
        dir < 8,
        k.level != -1,
        -0x4000_0000 <= k.x < 0x4000_0000,
        -0x4000_0000 <= k.y < 0x4000_0000,
        -0x4000_0000 <= k.z < 0x4000_0000,
    ensures
        r == Some(k),
{
}

/// The root is at level 0, with all coordinates 0: the only node of level 0 that is the parent of
/// nodes with coordinates 0 and 1.
pub proof fn law_root_is_at_the_origin(k: VoxelKey)
    requires
        call_ensures(VoxelKey::root, (), k),
    ensures
        k.level == 0 && k.x == 0 && k.y == 0 && k.z == 0,
{
}

} // verus!
