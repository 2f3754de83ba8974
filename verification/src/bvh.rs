//! The shape of a bounding-volume hierarchy.
//!
//! A scene's objects enter as `Primitive`s: a number by which the caller
//! finds the object again, and the object's box in order keys. The hierarchy
//! is built by median splits. Along which axis a range is ordered before it is
//! halved is asked of the caller, node by node, because the extent of a box
//! is arithmetic on the coordinates that the keys only stand for.

use vstd::prelude::*;
use vstd::seq_lib::lemma_multiset_commutative;
use crate::aabb::Aabb;
use crate::hit_checker::{
    answer_alike, answers_least_roots, answers_settle, answers_within, box_of, first_least,
    has_root, hit_on, lemma_box_of_concat, lemma_box_of_encloses, lemma_box_of_permuted,
    lemma_first_least_concat, lemma_first_least_same_roots, lemma_first_least_single,
    lemma_scan_alike, lemma_scan_concat, lemma_scan_nothing, lemma_scan_within, nearer,
    object_oracle, reach, scan, up_to, Hit, HittableList, Primitive,
};
use crate::interval::Interval;
use crate::sorting::{
    lemma_stable_sort_is_sorted_by_key, rearranged, sort_range, sorted_by_key, sorted_range,
    stably_sorted,
};

verus! {

/// One side of a node: a scene object, named by its number, or a further
/// node.
pub enum BvhChild {
    Object(usize),
    Node(Box<BvhNode>),
}

/// A node of the hierarchy.
pub struct BvhNode {
    pub left: BvhChild,
    pub right: BvhChild,
    /// The union of the boxes of all objects below the node.
    pub bbox: Aabb,
    /// The axis that the caller chose for this node's box. Where the node
    /// has more than two objects below it, they were ordered along this axis
    /// before being halved.
    pub axis: usize,
}

/// Two to the power `n`.
pub open spec fn pow2(n: nat) -> nat
    decreases n,
{
    if n == 0 {
        1
    } else {
        2 * pow2((n - 1) as nat)
    }
}

/// The union of the boxes of `objs[start..end]`.
pub open spec fn range_box(objs: Seq<Primitive>, start: int, end: int) -> Aabb {
    box_of(objs.subrange(start, end))
}

/// No key of the first `mid` objects along `axis` is above a key of the
/// others.
pub open spec fn partitioned(s: Seq<Primitive>, axis: usize, mid: int) -> bool {
    forall|i: int, j: int|
        0 <= i < mid && mid <= j < s.len() ==> #[trigger] s[i].spec_sort_key(axis)
            <= #[trigger] s[j].spec_sort_key(axis)
}

/// The axes that `axis_of` may answer for a box.
pub open spec fn answers_of<F: Fn(Aabb) -> usize>(axis_of: F) -> spec_fn(Aabb, usize) -> bool {
    |b: Aabb, axis: usize| call_ensures(axis_of, (b,), axis)
}

/// Whatever `box_hit` returns is what `boxes` says.
pub open spec fn box_oracle<B: Fn(Aabb, Interval) -> Option<Interval>>(
    box_hit: B,
    boxes: spec_fn(Aabb, Interval) -> Option<Interval>,
) -> bool {
    forall|b: Aabb, ray_t: Interval, r: Option<Interval>| #[trigger]
        call_ensures(box_hit, (b, ray_t), r) ==> r == boxes(b, ray_t)
}

impl BvhChild {
    /// The nearest hit at or below this child, as the descent finds it.
    pub open spec fn spec_hit(
        self,
        ray_t: Interval,
        boxes: spec_fn(Aabb, Interval) -> Option<Interval>,
        answers: spec_fn(usize, Interval) -> Option<i64>,
    ) -> Option<Hit>
        decreases self,
    {
        match self {
            BvhChild::Object(id) => hit_on(id, answers(id, ray_t)),
            BvhChild::Node(node) => node.spec_hit(ray_t, boxes, answers),
        }
    }

    /// The nearest hit at or below this child: an object is asked itself,
    /// a node is descended into.
    pub fn hit<B: Fn(Aabb, Interval) -> Option<Interval>, H: Fn(usize, Interval) -> Option<i64>>(
        &self,
        ray_t: Interval,
        box_hit: &B,
        object_hit: &H,
    ) -> (r: Option<Hit>)
        requires
            forall|b: Aabb, i: Interval| call_requires(*box_hit, (b, i)),
            forall|id: usize, i: Interval| call_requires(*object_hit, (id, i)),
        ensures
            forall|
                boxes: spec_fn(Aabb, Interval) -> Option<Interval>,
                answers: spec_fn(usize, Interval) -> Option<i64>,
            |
                box_oracle(*box_hit, boxes) && object_oracle(*object_hit, answers) ==> r
                    == #[trigger] self.spec_hit(ray_t, boxes, answers),
        decreases *self,
    {
        match self {
            BvhChild::Object(id) => {
                let found = object_hit(*id, ray_t);
                let r = match found {
                    Some(t) => Some(Hit { id: *id, t }),
                    None => None,
                };
                proof {
                    assert forall|
                        boxes: spec_fn(Aabb, Interval) -> Option<Interval>,
                        answers: spec_fn(usize, Interval) -> Option<i64>,
                    |
                        box_oracle(*box_hit, boxes) && object_oracle(
                            *object_hit,
                            answers,
                        ) implies r == #[trigger] self.spec_hit(ray_t, boxes, answers) by {
                        assert(found == answers(*id, ray_t));
                    }
                }
                r
            },
            BvhChild::Node(node) => {
                let r = node.hit(ray_t, box_hit, object_hit);
                proof {
                    assert forall|
                        boxes: spec_fn(Aabb, Interval) -> Option<Interval>,
                        answers: spec_fn(usize, Interval) -> Option<i64>,
                    |
                        box_oracle(*box_hit, boxes) && object_oracle(
                            *object_hit,
                            answers,
                        ) implies r == #[trigger] self.spec_hit(ray_t, boxes, answers) by {
                        assert(r == node.spec_hit(ray_t, boxes, answers));
                    }
                }
                r
            },
        }
    }

    /// The numbers of the objects at or below this child.
    pub open spec fn object_ids(self) -> Set<usize>
        decreases self,
    {
        match self {
            BvhChild::Object(id) => set![id],
            BvhChild::Node(node) => node.object_ids(),
        }
    }

    /// How many nodes lie on the longest way down from here.
    pub open spec fn depth(self) -> nat
        decreases self,
    {
        match self {
            BvhChild::Object(_) => 0,
            BvhChild::Node(node) => node.depth(),
        }
    }
}

impl BvhNode {
    /// The node is the median-split hierarchy of the objects `s`, in the
    /// order in which `s` holds them.
    ///
    /// One object stands on both sides of its node. Two objects stand one on
    /// each side. More are halved, the left half being the smaller where the
    /// count is odd, with no key of the left half along the node's axis
    /// above a key of the right half, and each half is again such a
    /// hierarchy. Every node's box is the union of the boxes of its objects.
    pub open spec fn splits(self, s: Seq<Primitive>) -> bool
        decreases self,
    {
        &&& self.bbox == box_of(s)
        &&& if s.len() == 1 {
            self.left == BvhChild::Object(s[0].id) && self.right == BvhChild::Object(s[0].id)
        } else if s.len() == 2 {
            self.left == BvhChild::Object(s[0].id) && self.right == BvhChild::Object(s[1].id)
        } else if s.len() >= 3 {
            let mid = s.len() as int / 2;
            &&& partitioned(s, self.axis, mid)
            &&& match self.left {
                BvhChild::Node(l) => l.splits(s.subrange(0, mid)),
                BvhChild::Object(_) => false,
            }
            &&& match self.right {
                BvhChild::Node(r) => r.splits(s.subrange(mid, s.len() as int)),
                BvhChild::Object(_) => false,
            }
        } else {
            false
        }
    }

    /// Every node carries an axis that was chosen for the node's box:
    /// `chosen` says which axes may be the answer for which box.
    pub open spec fn axes_from(self, chosen: spec_fn(Aabb, usize) -> bool) -> bool
        decreases self,
    {
        &&& chosen(self.bbox, self.axis)
        &&& match self.left {
            BvhChild::Node(l) => l.axes_from(chosen),
            BvhChild::Object(_) => true,
        }
        &&& match self.right {
            BvhChild::Node(r) => r.axes_from(chosen),
            BvhChild::Object(_) => true,
        }
    }

    /// The numbers of the objects below the node.
    pub open spec fn object_ids(self) -> Set<usize>
        decreases self,
    {
        self.left.object_ids().union(self.right.object_ids())
    }

    /// How many nodes lie on the longest way from this node down, the node
    /// itself counted.
    pub open spec fn depth(self) -> nat
        decreases self,
    {
        if self.left.depth() >= self.right.depth() {
            1 + self.left.depth()
        } else {
            1 + self.right.depth()
        }
    }

    /// The nearest hit below the node, as the descent finds it.
    ///
    /// The node's box is asked first, with the interval of interest. Where
    /// it is missed there is no hit. Otherwise it answers with a narrower
    /// interval, in which the left side is searched; the right side is
    /// searched in what is left of that interval before the left side's
    /// hit, and wins where it has a hit there.
    pub open spec fn spec_hit(
        self,
        ray_t: Interval,
        boxes: spec_fn(Aabb, Interval) -> Option<Interval>,
        answers: spec_fn(usize, Interval) -> Option<i64>,
    ) -> Option<Hit>
        decreases self,
    {
        match boxes(self.bbox, ray_t) {
            None => None,
            Some(inner) => {
                let left = self.left.spec_hit(inner, boxes, answers);
                let right = self.right.spec_hit(reach(inner, left), boxes, answers);
                nearer(left, right)
            },
        }
    }

    /// The nearest hit below the node.
    ///
    /// `box_hit` is asked whether the ray meets a box within an interval,
    /// and answers with the part of the interval in which it does.
    /// `object_hit` is asked whether the ray meets an object within an
    /// interval, and answers with the distance of the hit.
    pub fn hit<B: Fn(Aabb, Interval) -> Option<Interval>, H: Fn(usize, Interval) -> Option<i64>>(
        &self,
        ray_t: Interval,
        box_hit: &B,
        object_hit: &H,
    ) -> (r: Option<Hit>)
        requires
            forall|b: Aabb, i: Interval| call_requires(*box_hit, (b, i)),
            forall|id: usize, i: Interval| call_requires(*object_hit, (id, i)),
        ensures
            forall|
                boxes: spec_fn(Aabb, Interval) -> Option<Interval>,
                answers: spec_fn(usize, Interval) -> Option<i64>,
            |
                box_oracle(*box_hit, boxes) && object_oracle(*object_hit, answers) ==> r
                    == #[trigger] self.spec_hit(ray_t, boxes, answers),
        decreases *self,
    {
        let narrowed = box_hit(self.bbox, ray_t);
        let inner = match narrowed {
            Some(inner) => inner,
            None => {
                proof {
                    assert forall|
                        boxes: spec_fn(Aabb, Interval) -> Option<Interval>,
                        answers: spec_fn(usize, Interval) -> Option<i64>,
                    |
                        box_oracle(*box_hit, boxes) && object_oracle(
                            *object_hit,
                            answers,
                        ) implies None::<Hit> == #[trigger] self.spec_hit(ray_t, boxes, answers) by {
                        assert(narrowed == boxes(self.bbox, ray_t));
                    }
                }
                return None;
            },
        };
        let hit_left = self.left.hit(inner, box_hit, object_hit);
        let new_max = match hit_left {
            Some(h) => h.t,
            None => inner.max,
        };
        let right_t = Interval::new(inner.min, new_max);
        let hit_right = self.right.hit(right_t, box_hit, object_hit);
        let r = match hit_right {
            Some(_) => hit_right,
            None => hit_left,
        };
        proof {
            assert forall|
                boxes: spec_fn(Aabb, Interval) -> Option<Interval>,
                answers: spec_fn(usize, Interval) -> Option<i64>,
            |
                box_oracle(*box_hit, boxes) && object_oracle(*object_hit, answers) implies r
                == #[trigger] self.spec_hit(ray_t, boxes, answers) by {
                assert(narrowed == boxes(self.bbox, ray_t));
                assert(hit_left == self.left.spec_hit(inner, boxes, answers));
                assert(right_t == reach(inner, hit_left));
                assert(hit_right == self.right.spec_hit(right_t, boxes, answers));
            }
        }
        r
    }

    /// The order in which building the node leaves the objects that it was
    /// given as `s`: up to two objects stay as they are; more are ordered
    /// by their keys along the node's axis, equal keys staying in order, and
    /// then each half is left in the order that its side's node leaves it
    /// in.
    pub open spec fn arranged(self, s: Seq<Primitive>) -> Seq<Primitive>
        decreases self,
    {
        if s.len() <= 2 {
            s
        } else {
            let sorted = sorted_by_key(s, self.axis);
            let mid = s.len() as int / 2;
            let first = sorted.subrange(0, mid);
            let second = sorted.subrange(mid, s.len() as int);
            (match self.left {
                BvhChild::Node(l) => l.arranged(first),
                BvhChild::Object(_) => first,
            }) + (match self.right {
                BvhChild::Node(r) => r.arranged(second),
                BvhChild::Object(_) => second,
            })
        }
    }

    /// The node's bounding box.
    pub fn bounding_box(&self) -> (b: Aabb)
        ensures
            b == self.bbox,
    {
        self.bbox
    }

    /// Builds the hierarchy of all objects of `list`, which it rearranges.
    /// The box of the list stays what it was.
    pub fn from_list<F: Fn(Aabb) -> usize>(list: &mut HittableList, axis_of: &F) -> (node: BvhNode)
        requires
            old(list).view().len() > 0,
            forall|b: Aabb| call_requires(*axis_of, (b,)),
        ensures
            final(list).view().len() == old(list).view().len(),
            final(list).view().to_multiset() == old(list).view().to_multiset(),
            final(list).view() == node.arranged(old(list).view()),
            final(list).bbox == old(list).bbox,
            old(list).wf() ==> final(list).wf(),
            node.splits(final(list).view()),
            node.axes_from(answers_of(*axis_of)),
    {
        let len = list.objects.len();
        let node = BvhNode::from_range(&mut list.objects, 0, len, axis_of);
        proof {
            assert(list.objects@.subrange(0, len as int) =~= list.objects@);
            assert(old(list).objects@.subrange(0, len as int) =~= old(list).objects@);
            lemma_box_of_permuted(old(list).objects@, list.objects@);
        }
        node
    }

    /// Builds the hierarchy of `objects[start..end]`, which it rearranges;
    /// the other objects stay where they are.
    ///
    /// The node's box is the union over the range. `axis_of` is asked for an
    /// axis for that box. A range of one or two objects is not reordered. A
    /// longer one is ordered by the objects' keys along the axis and halved
    /// at `start + (end - start) / 2`, and each half is built in the same
    /// way.
    pub fn from_range<F: Fn(Aabb) -> usize>(
        objects: &mut Vec<Primitive>,
        start: usize,
        end: usize,
        axis_of: &F,
    ) -> (node: BvhNode)
        requires
            start < end <= old(objects).len(),
            forall|b: Aabb| call_requires(*axis_of, (b,)),
        ensures
            rearranged(old(objects)@, final(objects)@, start as int, end as int),
            final(objects)@.subrange(start as int, end as int) == node.arranged(
                old(objects)@.subrange(start as int, end as int),
            ),
            node.splits(final(objects)@.subrange(start as int, end as int)),
            node.axes_from(answers_of(*axis_of)),
        decreases end - start,
    {
        let bbox = range_bbox(objects, start, end);
        let axis = axis_of(bbox);
        let span = end - start;
        if span == 1 {
            let id = objects[start].id;
            proof {
                assert(objects@.subrange(start as int, end as int).len() == 1);
            }
            BvhNode { left: BvhChild::Object(id), right: BvhChild::Object(id), bbox, axis }
        } else if span == 2 {
            let left = objects[start].id;
            let right = objects[start + 1].id;
            proof {
                assert(objects@.subrange(start as int, end as int).len() == 2);
            }
            BvhNode { left: BvhChild::Object(left), right: BvhChild::Object(right), bbox, axis }
        } else {
            let ghost before = objects@;
            sort_range(objects, start, end, axis);
            let ghost sorted = objects@;
            let mid = start + span / 2;
            let left = BvhNode::from_range(objects, start, mid, axis_of);
            let ghost halfway = objects@;
            let right = BvhNode::from_range(objects, mid, end, axis_of);
            proof {
                lemma_halves_rearranged(
                    before,
                    sorted,
                    halfway,
                    objects@,
                    axis,
                    start as int,
                    mid as int,
                    end as int,
                );
                let s = objects@.subrange(start as int, end as int);
                assert(s.subrange(0, mid - start) =~= halfway.subrange(start as int, mid as int));
                assert(s.subrange(mid - start, s.len() as int) =~= objects@.subrange(
                    mid as int,
                    end as int,
                ));
                lemma_box_of_permuted(before.subrange(start as int, end as int), s);
                // The order that is left is the one that the node stands for.
                let given = before.subrange(start as int, end as int);
                let in_order = sorted.subrange(start as int, end as int);
                let from = choose|from: Seq<int>| stably_sorted(given, in_order, from, axis);
                lemma_stable_sort_is_sorted_by_key(given, in_order, from, axis);
                assert(in_order.subrange(0, mid - start) =~= sorted.subrange(
                    start as int,
                    mid as int,
                ));
                assert(in_order.subrange(mid - start, in_order.len() as int) =~= halfway.subrange(
                    mid as int,
                    end as int,
                ));
                assert(s =~= halfway.subrange(start as int, mid as int) + objects@.subrange(
                    mid as int,
                    end as int,
                ));
            }
            BvhNode {
                left: BvhChild::Node(Box::new(left)),
                right: BvhChild::Node(Box::new(right)),
                bbox,
                axis,
            }
        }
    }
}

/// The union of the boxes of `objects[start..end]`.
pub fn range_bbox(objects: &Vec<Primitive>, start: usize, end: usize) -> (b: Aabb)
    requires
        start <= end <= objects.len(),
    ensures
        b == range_box(objects@, start as int, end as int),
{
    let mut bbox = Aabb::empty();
    let mut i = start;
    while i < end
        invariant
            start <= i <= end <= objects.len(),
            bbox == range_box(objects@, start as int, i as int),
        decreases end - i,
    {
        proof {
            assert(objects@.subrange(start as int, i + 1).drop_last() =~= objects@.subrange(
                start as int,
                i as int,
            ));
        }
        bbox = Aabb::from_box(bbox, objects[i].bbox);
        i += 1;
    }
    bbox
}

/// Every object of a rearranged run is an object of the run it was made
/// from.
pub proof fn lemma_member_of_permuted(a: Seq<Primitive>, b: Seq<Primitive>, i: int) -> (j: int)
    requires
        a.to_multiset() == b.to_multiset(),
        0 <= i < a.len(),
    ensures
        0 <= j < b.len(),
        b[j] == a[i],
{
    broadcast use vstd::seq_lib::group_to_multiset_ensures;

    assert(a.contains(a[i]));
    assert(b.to_multiset().count(a[i]) > 0);
    assert(b.contains(a[i]));
    b.index_of(a[i])
}

/// What building the two halves of an ordered range leaves: the range is
/// still a rearrangement of what it was before it was ordered, and still no
/// key of the left half is above a key of the right half.
proof fn lemma_halves_rearranged(
    before: Seq<Primitive>,
    sorted: Seq<Primitive>,
    halfway: Seq<Primitive>,
    after: Seq<Primitive>,
    axis: usize,
    start: int,
    mid: int,
    end: int,
)
    requires
        0 <= start <= mid <= end <= before.len(),
        rearranged(before, sorted, start, end),
        sorted_range(sorted, axis, start, end),
        rearranged(sorted, halfway, start, mid),
        rearranged(halfway, after, mid, end),
    ensures
        rearranged(before, after, start, end),
        partitioned(after.subrange(start, end), axis, mid - start),
        after.subrange(start, mid) == halfway.subrange(start, mid),
{
    let s_left = sorted.subrange(start, mid);
    let s_right = sorted.subrange(mid, end);
    let a_left = after.subrange(start, mid);
    let a_right = after.subrange(mid, end);
    assert(a_left =~= halfway.subrange(start, mid));
    assert(halfway.subrange(mid, end) =~= s_right);
    assert(sorted.subrange(start, end) =~= s_left + s_right);
    assert(after.subrange(start, end) =~= a_left + a_right);
    lemma_multiset_commutative(s_left, s_right);
    lemma_multiset_commutative(a_left, a_right);
    assert(after.subrange(start, end).to_multiset() =~= before.subrange(start, end).to_multiset());
    let s = after.subrange(start, end);
    assert forall|i: int, j: int| 0 <= i < mid - start && mid - start <= j < s.len() implies #[trigger] s[i].spec_sort_key(
        axis,
    ) <= #[trigger] s[j].spec_sort_key(axis) by {
        let i0 = lemma_member_of_permuted(a_left, s_left, i);
        let j0 = lemma_member_of_permuted(a_right, s_right, j - (mid - start));
        assert(s[i] == sorted[start + i0]);
        assert(s[j] == sorted[mid + j0]);
    }
}

/// The objects below a node are exactly the objects it was built from.
pub proof fn lemma_objects_are_leaves(node: BvhNode, s: Seq<Primitive>)
    requires
        node.splits(s),
    ensures
        forall|id: usize|
            node.object_ids().contains(id) <==> exists|i: int|
                0 <= i < s.len() && #[trigger] s[i].id == id,
    decreases node,
{
    if s.len() >= 3 {
        let mid = s.len() as int / 2;
        let a = s.subrange(0, mid);
        let b = s.subrange(mid, s.len() as int);
        match (node.left, node.right) {
            (BvhChild::Node(l), BvhChild::Node(r)) => {
                lemma_objects_are_leaves(*l, a);
                lemma_objects_are_leaves(*r, b);
                assert forall|id: usize| node.object_ids().contains(id) implies exists|i: int|
                    0 <= i < s.len() && #[trigger] s[i].id == id by {
                    assert(node.left.object_ids() == l.object_ids());
                    assert(node.right.object_ids() == r.object_ids());
                    if l.object_ids().contains(id) {
                        let i = choose|i: int| 0 <= i < a.len() && #[trigger] a[i].id == id;
                        assert(s[i].id == id);
                    } else {
                        let i = choose|i: int| 0 <= i < b.len() && #[trigger] b[i].id == id;
                        assert(s[mid + i].id == id);
                    }
                }
                assert forall|id: usize|
                    (exists|i: int|
                        0 <= i < s.len() && #[trigger] s[i].id == id) implies node.object_ids().contains(
                    id,
                ) by {
                    let i = choose|i: int| 0 <= i < s.len() && #[trigger] s[i].id == id;
                    assert(node.left.object_ids() == l.object_ids());
                    assert(node.right.object_ids() == r.object_ids());
                    if i < mid {
                        assert(a[i].id == id);
                    } else {
                        assert(b[i - mid].id == id);
                    }
                }
            },
            _ => {},
        }
    } else if s.len() == 2 {
        assert(s[0].id == s[0].id && s[1].id == s[1].id);
    } else {
        assert(s[0].id == s[0].id);
    }
}

/// A node's box encloses the box of every object below the node.
pub proof fn lemma_node_encloses_objects(node: BvhNode, s: Seq<Primitive>, i: int)
    requires
        node.splits(s),
        0 <= i < s.len(),
    ensures
        node.bbox.encloses(s[i].bbox),
{
    lemma_box_of_encloses(s, i);
}

/// The box of a node with nodes on both sides is the union of their boxes.
pub proof fn lemma_box_is_union_of_children(node: BvhNode, s: Seq<Primitive>)
    requires
        node.splits(s),
        s.len() >= 3,
    ensures
        match (node.left, node.right) {
            (BvhChild::Node(l), BvhChild::Node(r)) => node.bbox == Aabb::spec_from_box(
                l.bbox,
                r.bbox,
            ),
            _ => false,
        },
{
    reveal_with_fuel(BvhNode::splits, 2);
    let mid = s.len() as int / 2;
    let a = s.subrange(0, mid);
    let b = s.subrange(mid, s.len() as int);
    assert(s =~= a + b);
    lemma_box_of_concat(a, b);
}

/// The hierarchy is balanced: a node with `n >= 2` objects below it has
/// depth `d` with `2^(d-1) < n`, and a node with one object has depth 1.
pub proof fn lemma_depth_is_logarithmic(node: BvhNode, s: Seq<Primitive>)
    requires
        node.splits(s),
    ensures
        node.depth() >= 1,
        s.len() <= 2 ==> node.depth() == 1,
        s.len() >= 2 ==> pow2((node.depth() - 1) as nat) < s.len(),
    decreases node,
{
    if s.len() >= 3 {
        let mid = s.len() as int / 2;
        let a = s.subrange(0, mid);
        let b = s.subrange(mid, s.len() as int);
        match (node.left, node.right) {
            (BvhChild::Node(l), BvhChild::Node(r)) => {
                lemma_depth_is_logarithmic(*l, a);
                lemma_depth_is_logarithmic(*r, b);
                assert(pow2(0) == 1);
                assert(pow2(1) == 2) by {
                    reveal_with_fuel(pow2, 2);
                }
                assert(pow2(l.depth()) == 2 * pow2((l.depth() - 1) as nat));
                assert(pow2(r.depth()) == 2 * pow2((r.depth() - 1) as nat));
            },
            _ => {},
        }
    } else {
        assert(pow2(0) == 1);
    }
}

/// The box test is sound for the objects `s`: it only narrows the
/// interval, and where a box encloses the box of an object, no distance at
/// which that object is met within the interval is lost.
pub open spec fn boxes_are_sound(
    boxes: spec_fn(Aabb, Interval) -> Option<Interval>,
    roots: spec_fn(usize) -> Set<i64>,
    s: Seq<Primitive>,
) -> bool {
    &&& forall|bb: Aabb, ray_t: Interval|
        match #[trigger] boxes(bb, ray_t) {
            Some(inner) => ray_t.encloses(inner),
            None => true,
        }
    &&& forall|bb: Aabb, ray_t: Interval, k: int, u: i64|
        0 <= k < s.len() && bb.encloses(s[k].bbox) && #[trigger] has_root(roots, s[k], ray_t, u)
            ==> match #[trigger] boxes(bb, ray_t) {
            Some(inner) => inner.spec_surrounds(u),
            None => false,
        }
}

/// What the descent through a node finds is the nearest hit among the
/// node's objects, the first in their order among equals.
pub proof fn lemma_descent_finds_first_least(
    node: BvhNode,
    s: Seq<Primitive>,
    ray_t: Interval,
    boxes: spec_fn(Aabb, Interval) -> Option<Interval>,
    answers: spec_fn(usize, Interval) -> Option<i64>,
    roots: spec_fn(usize) -> Set<i64>,
)
    requires
        node.splits(s),
        answers_least_roots(answers, roots),
        boxes_are_sound(boxes, roots, s),
    ensures
        first_least(s, ray_t, roots, node.spec_hit(ray_t, boxes, answers)),
    decreases node,
{
    assert forall|k: int| 0 <= k < s.len() implies node.bbox.encloses(#[trigger] s[k].bbox) by {
        lemma_box_of_encloses(s, k);
    }
    match boxes(node.bbox, ray_t) {
        None => {
            assert forall|j: int, u: i64| 0 <= j < s.len() implies !#[trigger] has_root(
                roots,
                s[j],
                ray_t,
                u,
            ) by {
                assert(node.bbox.encloses(s[j].bbox));
            }
            assert(node.spec_hit(ray_t, boxes, answers) is None);
        },
        Some(inner) => {
            let mid = if s.len() == 1 {
                1
            } else {
                s.len() as int / 2
            };
            let a = s.subrange(0, mid);
            let b = if s.len() == 1 {
                s
            } else {
                s.subrange(mid, s.len() as int)
            };
            let l = node.left.spec_hit(inner, boxes, answers);
            let r = node.right.spec_hit(reach(inner, l), boxes, answers);
            assert(forall|j: int| 0 <= j < a.len() ==> a[j] == s[j]);
            assert(forall|j: int|
                0 <= j < b.len() ==> b[j] == s[if s.len() == 1 {
                    j
                } else {
                    mid + j
                }]);
            // The left side finds the nearest of its objects within the
            // narrowed interval, the right side within what is left of it.
            assert(first_least(a, inner, roots, l) && first_least(b, reach(inner, l), roots, r)) by {
                if s.len() == 1 {
                    assert(a =~= seq![s[0]]);
                    lemma_first_least_single(s[0], inner, roots, answers);
                    lemma_first_least_single(s[0], reach(inner, l), roots, answers);
                } else if s.len() == 2 {
                    assert(a =~= seq![s[0]]);
                    assert(b =~= seq![s[1]]);
                    lemma_first_least_single(s[0], inner, roots, answers);
                    lemma_first_least_single(s[1], reach(inner, l), roots, answers);
                } else {
                    match (node.left, node.right) {
                        (BvhChild::Node(ln), BvhChild::Node(rn)) => {
                            lemma_sound_for_part(boxes, roots, s, a, 0);
                            lemma_sound_for_part(boxes, roots, s, b, mid);
                            lemma_descent_finds_first_least(*ln, a, inner, boxes, answers, roots);
                            lemma_descent_finds_first_least(
                                *rn,
                                b,
                                reach(inner, l),
                                boxes,
                                answers,
                                roots,
                            );
                        },
                        _ => {},
                    }
                }
            }
            // Within the node's objects the narrowed interval holds the
            // same distances as the interval asked about.
            assert forall|j: int, u: i64| 0 <= j < a.len() implies (#[trigger] has_root(
                roots,
                a[j],
                inner,
                u,
            ) <==> has_root(roots, a[j], ray_t, u)) by {
                assert(node.bbox.encloses(s[j].bbox));
                if has_root(roots, a[j], ray_t, u) {
                    assert(has_root(roots, s[j], ray_t, u));
                }
            }
            lemma_first_least_same_roots(a, inner, ray_t, roots, l);
            if l is Some {
                let k = choose|k: int| crate::hit_checker::first_least_at(a, ray_t, roots, l->0, k);
                assert(has_root(roots, a[k], ray_t, l->0.t));
            }
            assert forall|j: int, u: i64| 0 <= j < b.len() implies (#[trigger] has_root(
                roots,
                b[j],
                reach(inner, l),
                u,
            ) <==> has_root(roots, b[j], reach(ray_t, l), u)) by {
                let at = if s.len() == 1 {
                    j
                } else {
                    mid + j
                };
                assert(node.bbox.encloses(s[at].bbox));
                if has_root(roots, b[j], reach(ray_t, l), u) {
                    assert(has_root(roots, s[at], ray_t, u));
                }
            }
            lemma_first_least_same_roots(b, reach(inner, l), reach(ray_t, l), roots, r);
            lemma_first_least_concat(a, b, ray_t, roots, l, r);
            if s.len() == 1 {
                // The one object stands on both sides: what holds of it
                // twice in a row holds of it once.
                let twice = a + b;
                assert forall|j: int, u: i64| 0 <= j < s.len() implies (#[trigger] has_root(
                    roots,
                    s[j],
                    ray_t,
                    u,
                ) <==> has_root(roots, twice[j], ray_t, u)) by {}
                assert(twice =~= seq![s[0]] + seq![s[0]]);
                lemma_first_least_once(s[0], ray_t, roots, nearer(l, r));
                assert(s =~= seq![s[0]]);
            } else {
                assert(a + b =~= s);
            }
            assert(node.spec_hit(ray_t, boxes, answers) == nearer(l, r));
            assert(first_least(s, ray_t, roots, nearer(l, r)));
        },
    }
}

/// The nearest hit among an object listed twice is the nearest hit on the
/// object.
proof fn lemma_first_least_once(
    p: Primitive,
    ray_t: Interval,
    roots: spec_fn(usize) -> Set<i64>,
    r: Option<Hit>,
)
    requires
        first_least(seq![p] + seq![p], ray_t, roots, r),
    ensures
        first_least(seq![p], ray_t, roots, r),
{
    let twice = seq![p] + seq![p];
    let once = seq![p];
    assert(twice[0] == p && twice[1] == p && once[0] == p);
    match r {
        Some(h) => {
            let k = choose|k: int| crate::hit_checker::first_least_at(twice, ray_t, roots, h, k);
            assert(has_root(roots, twice[k], ray_t, h.t));
            assert(has_root(roots, twice[0], ray_t, h.t));
            assert forall|j: int, u: i64|
                0 <= j < once.len() && #[trigger] has_root(roots, once[j], ray_t, u) implies h.t
                <= u && (j < 0 ==> h.t < u) by {
                assert(has_root(roots, twice[0], ray_t, u));
            }
            assert(crate::hit_checker::first_least_at(once, ray_t, roots, h, 0));
            crate::hit_checker::lemma_first_least_intro(once, ray_t, roots, h, 0);
        },
        None => {
            assert forall|j: int, u: i64| 0 <= j < once.len() implies !#[trigger] has_root(
                roots,
                once[j],
                ray_t,
                u,
            ) by {
                assert(!has_root(roots, twice[0], ray_t, u));
            }
        },
    }
}

/// A box test that is sound for a list of objects is sound for every run
/// of the list.
proof fn lemma_sound_for_part(
    boxes: spec_fn(Aabb, Interval) -> Option<Interval>,
    roots: spec_fn(usize) -> Set<i64>,
    s: Seq<Primitive>,
    part: Seq<Primitive>,
    from: int,
)
    requires
        boxes_are_sound(boxes, roots, s),
        0 <= from,
        from + part.len() <= s.len(),
        forall|j: int| 0 <= j < part.len() ==> part[j] == s[from + j],
    ensures
        boxes_are_sound(boxes, roots, part),
{
    assert forall|bb: Aabb, ray_t: Interval, k: int, u: i64|
        0 <= k < part.len() && bb.encloses(part[k].bbox) && #[trigger] has_root(
            roots,
            part[k],
            ray_t,
            u,
        ) implies match #[trigger] boxes(bb, ray_t) {
        Some(inner) => inner.spec_surrounds(u),
        None => false,
    } by {
        assert(has_root(roots, s[from + k], ray_t, u));
    }
}

/// The box test is transparent for the objects `s`: where a box encloses
/// the box of an object, a miss of the box means that the object has no
/// answer, and the interval that a hit of the box narrows to draws the same
/// answers from the object as the interval asked about, whole or up to any
/// distance in it.
pub open spec fn boxes_are_transparent(
    boxes: spec_fn(Aabb, Interval) -> Option<Interval>,
    answers: spec_fn(usize, Interval) -> Option<i64>,
    s: Seq<Primitive>,
) -> bool {
    forall|bb: Aabb, ray_t: Interval, k: int|
        0 <= k < s.len() && #[trigger] bb.encloses(s[k].bbox) ==> match #[trigger] boxes(
            bb,
            ray_t,
        ) {
            None => answers(s[k].id, ray_t) is None,
            Some(inner) => {
                &&& ray_t.encloses(inner)
                &&& answers(s[k].id, inner) == answers(s[k].id, ray_t)
                &&& forall|t: i64|
                    inner.spec_contains(t) ==> #[trigger] answers(s[k].id, up_to(inner.min, t))
                        == answers(s[k].id, up_to(ray_t.min, t))
            },
        }
}

/// A box test that is transparent for a list of objects is transparent for
/// every run of the list.
proof fn lemma_transparent_for_part(
    boxes: spec_fn(Aabb, Interval) -> Option<Interval>,
    answers: spec_fn(usize, Interval) -> Option<i64>,
    s: Seq<Primitive>,
    part: Seq<Primitive>,
    from: int,
)
    requires
        boxes_are_transparent(boxes, answers, s),
        0 <= from,
        from + part.len() <= s.len(),
        forall|j: int| 0 <= j < part.len() ==> part[j] == s[from + j],
    ensures
        boxes_are_transparent(boxes, answers, part),
{
    assert forall|bb: Aabb, ray_t: Interval, k: int|
        0 <= k < part.len() && #[trigger] bb.encloses(part[k].bbox) implies match #[trigger] boxes(
        bb,
        ray_t,
    ) {
        None => answers(part[k].id, ray_t) is None,
        Some(inner) => {
            &&& ray_t.encloses(inner)
            &&& answers(part[k].id, inner) == answers(part[k].id, ray_t)
            &&& forall|t: i64|
                inner.spec_contains(t) ==> #[trigger] answers(part[k].id, up_to(inner.min, t))
                    == answers(part[k].id, up_to(ray_t.min, t))
        },
    } by {
        assert(part[k] == s[from + k]);
        assert(bb.encloses(s[from + k].bbox));
    }
}

/// Behind a box that the ray meets, the node's objects answer about the
/// narrowed interval as they answer about the interval asked about, also
/// once a hit `found` within the narrowed interval has cut both short.
proof fn lemma_alike_behind_box(
    bb: Aabb,
    part: Seq<Primitive>,
    ray_t: Interval,
    inner: Interval,
    found: Option<Hit>,
    boxes: spec_fn(Aabb, Interval) -> Option<Interval>,
    answers: spec_fn(usize, Interval) -> Option<i64>,
)
    requires
        boxes_are_transparent(boxes, answers, part),
        forall|k: int| 0 <= k < part.len() ==> bb.encloses(#[trigger] part[k].bbox),
        boxes(bb, ray_t) == Some(inner),
        found is Some ==> inner.spec_contains(found->0.t),
    ensures
        answer_alike(part, reach(inner, found), reach(ray_t, found), answers),
{
    let i1 = reach(inner, found);
    let i2 = reach(ray_t, found);
    assert forall|k: int| 0 <= k < part.len() implies answers(#[trigger] part[k].id, i1) == answers(
        part[k].id,
        i2,
    ) by {
        assert(bb.encloses(part[k].bbox));
        if found is Some {
            assert(i1 == up_to(inner.min, found->0.t));
            assert(i2 == up_to(ray_t.min, found->0.t));
        }
    }
    assert forall|k: int, t: i64|
        0 <= k < part.len() && i1.spec_contains(t) implies #[trigger] answers(
        part[k].id,
        up_to(i1.min, t),
    ) == answers(part[k].id, up_to(i2.min, t)) by {
        assert(bb.encloses(part[k].bbox));
        assert(inner.spec_contains(t));
    }
}

/// The hierarchy finds what a scan of its objects finds.
///
/// Let every object answer within the interval it is asked about and have
/// nothing new to say when asked again before its own answer, and let the
/// box test be transparent for the objects. Then the descent through the
/// hierarchy and the scan of the objects, in the order in which the
/// hierarchy holds them, give the same hit: the same object at the same
/// distance, or none.
pub proof fn lemma_bvh_hit_is_linear_scan(
    node: BvhNode,
    s: Seq<Primitive>,
    ray_t: Interval,
    boxes: spec_fn(Aabb, Interval) -> Option<Interval>,
    answers: spec_fn(usize, Interval) -> Option<i64>,
)
    requires
        node.splits(s),
        answers_within(answers),
        answers_settle(answers),
        boxes_are_transparent(boxes, answers, s),
    ensures
        node.spec_hit(ray_t, boxes, answers) == scan(s, ray_t, answers),
    decreases node,
{
    assert forall|k: int| 0 <= k < s.len() implies node.bbox.encloses(#[trigger] s[k].bbox) by {
        lemma_box_of_encloses(s, k);
    }
    match boxes(node.bbox, ray_t) {
        None => {
            assert forall|k: int| 0 <= k < s.len() implies answers(#[trigger] s[k].id, ray_t) is None by {
                assert(node.bbox.encloses(s[k].bbox));
            }
            lemma_scan_nothing(s, ray_t, answers);
        },
        Some(inner) => {
            let l = node.left.spec_hit(inner, boxes, answers);
            let r = node.right.spec_hit(reach(inner, l), boxes, answers);
            let mid = if s.len() == 1 {
                0
            } else {
                s.len() as int / 2
            };
            let a = if s.len() == 1 {
                s
            } else {
                s.subrange(0, mid)
            };
            let b = s.subrange(mid, s.len() as int);
            lemma_transparent_for_part(boxes, answers, s, a, 0);
            lemma_transparent_for_part(boxes, answers, s, b, mid);
            assert(forall|k: int| 0 <= k < a.len() ==> a[k] == s[k]);
            assert(forall|k: int| 0 <= k < b.len() ==> b[k] == s[mid + k]);
            assert forall|k: int| 0 <= k < a.len() implies node.bbox.encloses(#[trigger] a[k].bbox) by {
                assert(node.bbox.encloses(s[k].bbox));
            }
            assert forall|k: int| 0 <= k < b.len() implies node.bbox.encloses(#[trigger] b[k].bbox) by {
                assert(node.bbox.encloses(s[mid + k].bbox));
            }
            // Each side finds what a scan of its objects finds in the
            // interval that the side was asked about.
            assert(l == scan(a, inner, answers) && r == scan(b, reach(inner, l), answers)) by {
                if s.len() <= 2 {
                    assert(a.drop_last() =~= Seq::<Primitive>::empty());
                    assert(b.drop_last() =~= Seq::<Primitive>::empty());
                    assert(scan(a.drop_last(), inner, answers) is None);
                    assert(scan(b.drop_last(), reach(inner, l), answers) is None);
                    assert(reach(inner, None) == inner);
                    assert(reach(reach(inner, l), None) == reach(inner, l));
                } else {
                    match (node.left, node.right) {
                        (BvhChild::Node(ln), BvhChild::Node(rn)) => {
                            lemma_bvh_hit_is_linear_scan(*ln, a, inner, boxes, answers);
                            lemma_bvh_hit_is_linear_scan(*rn, b, reach(inner, l), boxes, answers);
                        },
                        _ => {},
                    }
                }
            }
            lemma_scan_within(a, inner, answers);
            lemma_alike_behind_box(node.bbox, a, ray_t, inner, None, boxes, answers);
            assert(reach(inner, None) == inner && reach(ray_t, None) == ray_t);
            lemma_scan_alike(a, inner, ray_t, answers);
            lemma_alike_behind_box(node.bbox, b, ray_t, inner, l, boxes, answers);
            lemma_scan_alike(b, reach(inner, l), reach(ray_t, l), answers);
            lemma_scan_concat(a, b, ray_t, answers);
            if s.len() == 1 {
                // The one object stands on both sides, and has nothing new
                // to say the second time.
                let p = s[0];
                assert(s.drop_last() =~= Seq::<Primitive>::empty());
                assert(scan(s.drop_last(), ray_t, answers) is None);
                assert(reach(ray_t, None) == ray_t);
                assert(l == hit_on(p.id, answers(p.id, ray_t)));
                if l is Some {
                    assert(answers(p.id, ray_t) == answers(p.id, inner));
                    assert(reach(inner, l) == (Interval { min: inner.min, max: l->0.t }));
                }
            } else {
                assert(a + b =~= s);
            }
        },
    }
}

} // verus!
