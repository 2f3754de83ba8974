//! Axis-aligned bounding boxes over order keys.

use vstd::prelude::*;
use crate::interval::{max_key, min_key, Interval};

verus! {

/// A box with faces parallel to the coordinate planes: one key interval for
/// each of the axes x, y and z.
#[derive(Clone, Copy, Debug, PartialEq, Eq, Structural)]
pub struct Aabb {
    pub x: Interval,
    pub y: Interval,
    pub z: Interval,
}

/// A point as three keys, in the order x, y, z.
pub type KeyPoint = [i64; 3];

/// Whether nothing is left of an interval: it ends at or before its
/// beginning.
pub open spec fn is_spent(i: Interval) -> bool {
    i.max <= i.min
}

/// `i` narrowed to the distances between `t0` and `t1`, whichever of them
/// is the smaller.
pub open spec fn clip(i: Interval, t0: i64, t1: i64) -> Interval {
    Interval { min: max_key(i.min, min_key(t0, t1)), max: min_key(i.max, max_key(t0, t1)) }
}

/// `i` narrowed by the crossings of the first `n` axes.
pub open spec fn clipped(i: Interval, crossings: Seq<(i64, i64)>, n: int) -> Interval
    decreases n,
{
    if n <= 0 {
        i
    } else {
        clip(clipped(i, crossings, n - 1), crossings[n - 1].0, crossings[n - 1].1)
    }
}

/// The number of axes after which the slab test stops: the first after
/// which nothing is left of the interval, or all three.
pub open spec fn stopped_after(i: Interval, crossings: Seq<(i64, i64)>) -> int {
    if is_spent(clipped(i, crossings, 1)) {
        1
    } else if is_spent(clipped(i, crossings, 2)) {
        2
    } else {
        3
    }
}

/// Narrowing never widens: an interval of which nothing is left after
/// some axes has nothing left after more.
pub proof fn lemma_spent_stays_spent(i: Interval, crossings: Seq<(i64, i64)>, n: int, m: int)
    requires
        0 <= n <= m,
        is_spent(clipped(i, crossings, n)),
    ensures
        is_spent(clipped(i, crossings, m)),
    decreases m - n,
{
    if n < m {
        lemma_spent_stays_spent(i, crossings, n, m - 1);
    }
}

/// What the slab test leaves is the part of the interval that lies between
/// the crossings of every axis: it begins at the latest entry and ends at
/// the earliest exit.
pub proof fn lemma_clipped_bounds(i: Interval, crossings: Seq<(i64, i64)>)
    requires
        crossings.len() == 3,
    ensures
        clipped(i, crossings, 3).min == max_key(
            max_key(
                max_key(i.min, min_key(crossings[0].0, crossings[0].1)),
                min_key(crossings[1].0, crossings[1].1),
            ),
            min_key(crossings[2].0, crossings[2].1),
        ),
        clipped(i, crossings, 3).max == min_key(
            min_key(
                min_key(i.max, max_key(crossings[0].0, crossings[0].1)),
                max_key(crossings[1].0, crossings[1].1),
            ),
            max_key(crossings[2].0, crossings[2].1),
        ),
{
    reveal_with_fuel(clipped, 4);
}

/// A ray misses the box within an interval that lies wholly before the
/// entry or wholly after the exit on some axis.
pub proof fn lemma_interval_outside_misses(i: Interval, crossings: Seq<(i64, i64)>, axis: int)
    requires
        crossings.len() == 3,
        0 <= axis < 3,
        i.max <= min_key(crossings[axis].0, crossings[axis].1) || max_key(
            crossings[axis].0,
            crossings[axis].1,
        ) <= i.min,
    ensures
        is_spent(clipped(i, crossings, 3)),
{
    reveal_with_fuel(clipped, 4);
}

/// A ray that is inside the box on all three axes at once, somewhere
/// strictly within the interval, meets the box, and the interval left
/// begins at the latest entry, where that lies in the interval asked
/// about.
pub proof fn lemma_passing_through_hits(i: Interval, crossings: Seq<(i64, i64)>, t: i64)
    requires
        crossings.len() == 3,
        i.spec_surrounds(t),
        forall|axis: int|
            0 <= axis < 3 ==> min_key(#[trigger] crossings[axis].0, crossings[axis].1) < t
                < max_key(crossings[axis].0, crossings[axis].1),
    ensures
        !is_spent(clipped(i, crossings, 3)),
        clipped(i, crossings, 3).spec_surrounds(t),
        i.encloses(clipped(i, crossings, 3)),
{
    reveal_with_fuel(clipped, 4);
    assert(min_key(crossings[0].0, crossings[0].1) < t);
    assert(min_key(crossings[1].0, crossings[1].1) < t);
    assert(min_key(crossings[2].0, crossings[2].1) < t);
}

impl Aabb {
    /// The box that holds nothing and leaves every union unchanged.
    pub open spec fn spec_empty() -> Aabb {
        Aabb { x: Interval::spec_empty(), y: Interval::spec_empty(), z: Interval::spec_empty() }
    }

    /// The box that holds every point.
    pub open spec fn spec_universe() -> Aabb {
        Aabb {
            x: Interval::spec_universe(),
            y: Interval::spec_universe(),
            z: Interval::spec_universe(),
        }
    }

    /// The smallest box with both `a` and `b` among its points.
    pub open spec fn spec_from_points(a: Seq<i64>, b: Seq<i64>) -> Aabb {
        Aabb {
            x: Interval { min: min_key(a[0], b[0]), max: max_key(a[0], b[0]) },
            y: Interval { min: min_key(a[1], b[1]), max: max_key(a[1], b[1]) },
            z: Interval { min: min_key(a[2], b[2]), max: max_key(a[2], b[2]) },
        }
    }

    /// The smallest box that holds both boxes.
    pub open spec fn spec_from_box(box1: Aabb, box2: Aabb) -> Aabb {
        Aabb {
            x: Interval::spec_union(box1.x, box2.x),
            y: Interval::spec_union(box1.y, box2.y),
            z: Interval::spec_union(box1.z, box2.z),
        }
    }

    /// The interval of axis 1 (y) or 2 (z); every other index names x.
    pub open spec fn spec_axis_interval(self, axis: usize) -> Interval {
        if axis == 1 {
            self.y
        } else if axis == 2 {
            self.z
        } else {
            self.x
        }
    }

    /// Whether `inner` lies within `self` on every axis, read on the bounds.
    pub open spec fn encloses(self, inner: Aabb) -> bool {
        self.x.encloses(inner.x) && self.y.encloses(inner.y) && self.z.encloses(inner.z)
    }

    /// Whether the point lies in the box.
    pub open spec fn holds(self, p: Seq<i64>) -> bool {
        self.x.spec_contains(p[0]) && self.y.spec_contains(p[1]) && self.z.spec_contains(p[2])
    }

    /// The axis of the greatest of three extents: 0 where x is greater than
    /// both others, else 1 where y is greater than z, else 2.
    pub open spec fn spec_longest_axis(x_size: i64, y_size: i64, z_size: i64) -> usize {
        if x_size > y_size {
            if x_size > z_size {
                0
            } else {
                2
            }
        } else if y_size > z_size {
            1
        } else {
            2
        }
    }

    /// The axis of the greatest extent, given the keys of the extents of
    /// the box along x, y and z: 0 where x is greater than both others, else
    /// 1 where y is greater than z, else 2.
    pub fn longest_axis(x_size: i64, y_size: i64, z_size: i64) -> (axis: usize)
        ensures
            axis == Aabb::spec_longest_axis(x_size, y_size, z_size),
            axis < 3,
            seq![x_size, y_size, z_size][axis as int] >= x_size,
            seq![x_size, y_size, z_size][axis as int] >= y_size,
            seq![x_size, y_size, z_size][axis as int] >= z_size,
    {
        if x_size > y_size {
            if x_size > z_size {
                0
            } else {
                2
            }
        } else if y_size > z_size {
            1
        } else {
            2
        }
    }

    /// The slab test: narrows `ray_t` to the distances at which a ray is
    /// between the two planes of each axis in turn, and answers whether
    /// anything is left.
    ///
    /// `crossings` holds, for x, y and z, the keys of the two distances at
    /// which the ray crosses the planes that bound the box on that axis, in
    /// either order. The test stops at the first axis after which the
    /// interval is empty, that is, ends at or before its beginning.
    pub fn hit(crossings: &[(i64, i64); 3], ray_t: &mut Interval) -> (met: bool)
        ensures
            met == !is_spent(clipped(*old(ray_t), crossings@, 3)),
            *final(ray_t) == clipped(*old(ray_t), crossings@, stopped_after(*old(ray_t), crossings@)),
    {
        let mut axis: usize = 0;
        while axis < 3
            invariant
                axis <= 3,
                *ray_t == clipped(*old(ray_t), crossings@, axis as int),
                forall|n: int| 1 <= n <= axis ==> !is_spent(#[trigger] clipped(*old(ray_t), crossings@, n)),
            decreases 3 - axis,
        {
            let (t0, t1) = crossings[axis];
            if t0 < t1 {
                if t0 > ray_t.min {
                    ray_t.min = t0;
                }
                if t1 < ray_t.max {
                    ray_t.max = t1;
                }
            } else {
                if t1 > ray_t.min {
                    ray_t.min = t1;
                }
                if t0 < ray_t.max {
                    ray_t.max = t0;
                }
            }
            if ray_t.max <= ray_t.min {
                proof {
                    lemma_spent_stays_spent(*old(ray_t), crossings@, axis + 1, 3);
                }
                return false;
            }
            axis += 1;
        }
        true
    }

    /// The box with the given extent on each axis. No thickness is added to
    /// a flat box: widening is arithmetic on the coordinates themselves.
    pub fn new(x: Interval, y: Interval, z: Interval) -> (r: Aabb)
        ensures
            r == (Aabb { x, y, z }),
    {
        Aabb { x, y, z }
    }

    pub fn empty() -> (r: Aabb)
        ensures
            r == Aabb::spec_empty(),
    {
        Aabb { x: Interval::empty(), y: Interval::empty(), z: Interval::empty() }
    }

    pub fn universe() -> (r: Aabb)
        ensures
            r == Aabb::spec_universe(),
    {
        Aabb { x: Interval::universe(), y: Interval::universe(), z: Interval::universe() }
    }

    /// The smallest box with the two corners among its points, whichever
    /// corner is named first.
    pub fn from_points(a: KeyPoint, b: KeyPoint) -> (r: Aabb)
        ensures
            r == Aabb::spec_from_points(a@, b@),
    {
        let (x_min, x_max) = if a[0] <= b[0] {
            (a[0], b[0])
        } else {
            (b[0], a[0])
        };
        let (y_min, y_max) = if a[1] <= b[1] {
            (a[1], b[1])
        } else {
            (b[1], a[1])
        };
        let (z_min, z_max) = if a[2] <= b[2] {
            (a[2], b[2])
        } else {
            (b[2], a[2])
        };
        Aabb {
            x: Interval::new(x_min, x_max),
            y: Interval::new(y_min, y_max),
            z: Interval::new(z_min, z_max),
        }
    }

    /// The smallest box that holds both boxes.
    pub fn from_box(box1: Aabb, box2: Aabb) -> (r: Aabb)
        ensures
            r == Aabb::spec_from_box(box1, box2),
    {
        Aabb {
            x: Interval::union(box1.x, box2.x),
            y: Interval::union(box1.y, box2.y),
            z: Interval::union(box1.z, box2.z),
        }
    }

    /// The interval of axis 1 (y) or 2 (z); every other index names x.
    pub fn axis_interval(&self, axis: usize) -> (r: &Interval)
        ensures
            *r == self.spec_axis_interval(axis),
    {
        match axis {
            1 => &self.y,
            2 => &self.z,
            _ => &self.x,
        }
    }
}

impl Default for Aabb {
    fn default() -> (r: Aabb)
        ensures
            r == Aabb::spec_empty(),
    {
        Aabb::empty()
    }
}

/// A box built from two corners does not depend on which corner comes first.
pub proof fn lemma_from_points_symmetric(a: Seq<i64>, b: Seq<i64>)
    ensures
        Aabb::spec_from_points(a, b) == Aabb::spec_from_points(b, a),
{
}

/// A box built from two corners holds both, and every box that holds both
/// encloses it.
pub proof fn lemma_from_points_minimal(a: Seq<i64>, b: Seq<i64>, other: Aabb)
    ensures
        Aabb::spec_from_points(a, b).holds(a),
        Aabb::spec_from_points(a, b).holds(b),
        other.holds(a) && other.holds(b) ==> other.encloses(Aabb::spec_from_points(a, b)),
{
}

/// The order in which two boxes are united does not matter.
pub proof fn lemma_from_box_commutative(a: Aabb, b: Aabb)
    ensures
        Aabb::spec_from_box(a, b) == Aabb::spec_from_box(b, a),
{
}

/// Uniting three boxes gives the same result however they are grouped.
pub proof fn lemma_from_box_associative(a: Aabb, b: Aabb, c: Aabb)
    ensures
        Aabb::spec_from_box(Aabb::spec_from_box(a, b), c) == Aabb::spec_from_box(
            a,
            Aabb::spec_from_box(b, c),
        ),
{
}

/// The empty box is the neutral element of the union.
pub proof fn lemma_from_box_empty(a: Aabb)
    ensures
        Aabb::spec_from_box(Aabb::spec_empty(), a) == a,
        Aabb::spec_from_box(a, Aabb::spec_empty()) == a,
{
}

/// A union encloses both of its parts, and what encloses both parts
/// encloses the union.
pub proof fn lemma_from_box_encloses(a: Aabb, b: Aabb, other: Aabb)
    ensures
        Aabb::spec_from_box(a, b).encloses(a),
        Aabb::spec_from_box(a, b).encloses(b),
        other.encloses(a) && other.encloses(b) ==> other.encloses(Aabb::spec_from_box(a, b)),
{
}

} // verus!
