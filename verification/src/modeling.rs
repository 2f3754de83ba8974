//! What the shapes decide by comparison alone: which root of a sphere counts
//! as the hit, and which six faces make up a box.

use vstd::prelude::*;
use crate::aabb::{Aabb, KeyPoint};
use crate::hit_checker::least_root;
use crate::interval::{max_key, min_key, Interval};

verus! {

/// The root that counts as the hit: the nearer one where it lies strictly
/// within the interval, else the farther one where that does, else none.
pub open spec fn spec_nearest_root(ray_t: Interval, near: i64, far: i64) -> Option<i64> {
    if ray_t.spec_surrounds(near) {
        Some(near)
    } else if ray_t.spec_surrounds(far) {
        Some(far)
    } else {
        None
    }
}

/// Chooses among the two distances at which a ray crosses a sphere, given
/// by their keys: the nearer one is tried first, the farther one is fallen
/// back on, and there is no hit where neither lies strictly within
/// `ray_t`.
pub fn nearest_root(ray_t: &Interval, near: i64, far: i64) -> (root: Option<i64>)
    ensures
        root == spec_nearest_root(*ray_t, near, far),
{
    let mut root = near;
    if !ray_t.surrounds(root) {
        root = far;
        if !ray_t.surrounds(root) {
            return None;
        }
    }
    Some(root)
}

/// The root chosen is the least of the two that lies strictly within the
/// interval.
pub proof fn lemma_nearest_root_is_least(ray_t: Interval, near: i64, far: i64)
    requires
        near <= far,
    ensures
        least_root(set![near, far], ray_t, spec_nearest_root(ray_t, near, far)),
{
}

/// One of the two ways along an axis.
#[derive(Clone, Copy, Debug, PartialEq, Eq, Structural)]
pub struct Edge {
    /// 0, 1 or 2 for x, y or z.
    pub axis: usize,
    /// Whether the edge leads from the lower to the upper bound.
    pub forward: bool,
}

/// A face of a box: a parallelogram given by one corner and the two edges
/// that leave it.
#[derive(Clone, Copy, Debug)]
pub struct BoxFace {
    /// For x, y and z: whether the corner lies at the upper bound.
    pub corner: [bool; 3],
    pub u: Edge,
    pub v: Edge,
}

impl BoxFace {
    /// The axis that the face is perpendicular to.
    pub open spec fn normal_axis(self) -> int {
        3 - self.u.axis - self.v.axis
    }

    /// The edges run along two different axes, and each leads away from
    /// the bound at which the corner lies, so that all four corners of the
    /// face are corners of the box.
    pub open spec fn wf(self) -> bool {
        &&& self.u.axis < 3
        &&& self.v.axis < 3
        &&& self.u.axis != self.v.axis
        &&& self.u.forward == !self.corner@[self.u.axis as int]
        &&& self.v.forward == !self.corner@[self.v.axis as int]
    }

    /// Whether the face lies on the upper side of the box along the axis
    /// that it is perpendicular to.
    pub open spec fn on_upper_side(self) -> bool {
        self.corner@[self.normal_axis()]
    }
}

/// The six faces of a box as a value: front, right, back, left, top,
/// bottom.
pub open spec fn spec_box_faces() -> Seq<BoxFace> {
    seq![
        BoxFace {
            corner: [false, false, true],
            u: Edge { axis: 0, forward: true },
            v: Edge { axis: 1, forward: true },
        },
        BoxFace {
            corner: [true, false, true],
            u: Edge { axis: 2, forward: false },
            v: Edge { axis: 1, forward: true },
        },
        BoxFace {
            corner: [true, false, false],
            u: Edge { axis: 0, forward: false },
            v: Edge { axis: 1, forward: true },
        },
        BoxFace {
            corner: [false, false, false],
            u: Edge { axis: 2, forward: true },
            v: Edge { axis: 1, forward: true },
        },
        BoxFace {
            corner: [false, true, true],
            u: Edge { axis: 0, forward: true },
            v: Edge { axis: 2, forward: false },
        },
        BoxFace {
            corner: [false, false, false],
            u: Edge { axis: 0, forward: true },
            v: Edge { axis: 2, forward: true },
        },
    ]
}

/// The six faces of a box, in the order front, right, back, left, top,
/// bottom, where the front is the side of greatest z and the right the
/// side of greatest x.
pub fn box_faces() -> (faces: [BoxFace; 6])
    ensures
        faces@ == spec_box_faces(),
{
    let faces = [
        BoxFace {
            corner: [false, false, true],
            u: Edge { axis: 0, forward: true },
            v: Edge { axis: 1, forward: true },
        },
        BoxFace {
            corner: [true, false, true],
            u: Edge { axis: 2, forward: false },
            v: Edge { axis: 1, forward: true },
        },
        BoxFace {
            corner: [true, false, false],
            u: Edge { axis: 0, forward: false },
            v: Edge { axis: 1, forward: true },
        },
        BoxFace {
            corner: [false, false, false],
            u: Edge { axis: 2, forward: true },
            v: Edge { axis: 1, forward: true },
        },
        BoxFace {
            corner: [false, true, true],
            u: Edge { axis: 0, forward: true },
            v: Edge { axis: 2, forward: false },
        },
        BoxFace {
            corner: [false, false, false],
            u: Edge { axis: 0, forward: true },
            v: Edge { axis: 2, forward: true },
        },
    ];
    assert(faces@ =~= spec_box_faces());
    faces
}

/// The two opposite corners of the box spanned by `a` and `b`: the lower
/// bounds on all axes, and the upper bounds on all axes.
pub fn box_corners(a: KeyPoint, b: KeyPoint) -> (corners: (KeyPoint, KeyPoint))
    ensures
        forall|axis: int|
            0 <= axis < 3 ==> corners.0@[axis] == min_key(a@[axis], b@[axis]) && corners.1@[axis]
                == max_key(a@[axis], b@[axis]),
        Aabb::spec_from_points(corners.0@, corners.1@) == Aabb::spec_from_points(a@, b@),
{
    let bbox = Aabb::from_points(a, b);
    ([bbox.x.min, bbox.y.min, bbox.z.min], [bbox.x.max, bbox.y.max, bbox.z.max])
}

/// The place, among the six faces, of the face on the given side of the box
/// along the given axis.
pub open spec fn face_on(axis: int, upper: bool) -> int {
    if axis == 0 {
        if upper {
            1
        } else {
            3
        }
    } else if axis == 1 {
        if upper {
            4
        } else {
            5
        }
    } else {
        if upper {
            0
        } else {
            2
        }
    }
}

/// The faces of a box fit together: the four corners of every face are
/// corners of the box, and each of the six sides of the box, the lower and
/// the upper one along each axis, is covered by exactly one face.
///
/// So a line along an axis is perpendicular to exactly two faces, one on
/// the side where it enters the box and one on the side where it leaves.
pub proof fn lemma_box_faces_cover_sides()
    ensures
        forall|i: int|
            0 <= i < 6 ==> {
                let face = #[trigger] spec_box_faces()[i];
                &&& face.wf()
                &&& 0 <= face.normal_axis() < 3
                &&& face_on(face.normal_axis(), face.on_upper_side()) == i
            },
        forall|axis: int, upper: bool|
            0 <= axis < 3 ==> 0 <= #[trigger] face_on(axis, upper) < 6 && covers(
                spec_box_faces()[face_on(axis, upper)],
                axis,
                upper,
            ),
{
}

/// Whether the face is the one on the given side of the box along the
/// given axis.
pub open spec fn covers(face: BoxFace, axis: int, upper: bool) -> bool {
    face.normal_axis() == axis && face.on_upper_side() == upper
}

} // verus!
