use rand::rngs::StdRng;
use rand::{Rng, SeedableRng};
use raytracer::aabb::Aabb;
use raytracer::bvh::{range_bbox, BvhChild, BvhNode};
use raytracer::hit_checker::{Hit, HittableList, Primitive};
use raytracer::interval::Interval;
use raytracer::modeling::nearest_root;

/// A solid between two planes of x, with a rectangular cross-section.
#[derive(Clone, Copy, Debug)]
struct Slab {
    x: (i64, i64),
    y: (i64, i64),
    z: (i64, i64),
}

impl Slab {
    /// The box of the solid, one unit thicker along x than the solid.
    fn bbox(&self) -> Aabb {
        Aabb::new(
            Interval::new(self.x.0 - 1, self.x.1 + 1),
            Interval::new(self.y.0, self.y.1),
            Interval::new(self.z.0, self.z.1),
        )
    }
}

/// A ray from `(ox, oy, oz)` along x.
#[derive(Clone, Copy, Debug)]
struct XRay {
    ox: i64,
    oy: i64,
    oz: i64,
}

fn object_hit(solids: &[Slab], ray: XRay, id: usize, ray_t: Interval) -> Option<i64> {
    let s = solids[id];
    if s.y.0 <= ray.oy && ray.oy <= s.y.1 && s.z.0 <= ray.oz && ray.oz <= s.z.1 {
        nearest_root(&ray_t, s.x.0 - ray.ox, s.x.1 - ray.ox)
    } else {
        None
    }
}

/// The distances at which a ray along x is between two planes of another
/// axis: all of them or none.
fn across(bounds: Interval, at: i64) -> (i64, i64) {
    if at < bounds.min {
        (i64::MAX, i64::MAX)
    } else if at > bounds.max {
        (i64::MIN, i64::MIN)
    } else {
        (i64::MIN, i64::MAX)
    }
}

fn box_hit(ray: XRay, bb: Aabb, ray_t: Interval) -> Option<Interval> {
    let crossings = [
        (bb.x.min - ray.ox, bb.x.max - ray.ox),
        across(bb.y, ray.oy),
        across(bb.z, ray.oz),
    ];
    let mut narrowed = ray_t;
    if Aabb::hit(&crossings, &mut narrowed) {
        Some(narrowed)
    } else {
        None
    }
}

fn longest(bb: Aabb) -> usize {
    Aabb::longest_axis(bb.x.max - bb.x.min, bb.y.max - bb.y.min, bb.z.max - bb.z.min)
}

fn list_of(solids: &[Slab]) -> HittableList {
    let mut list = HittableList::new();
    for (id, s) in solids.iter().enumerate() {
        list.add(Primitive { id, bbox: s.bbox() });
    }
    list
}

fn random_solids(rng: &mut StdRng, n: usize) -> Vec<Slab> {
    (0..n)
        .map(|_| {
            let x = rng.random_range(-200..200);
            let y = rng.random_range(-50..50);
            let z = rng.random_range(-50..50);
            Slab {
                x: (x, x + rng.random_range(0..40)),
                y: (y, y + rng.random_range(0..30)),
                z: (z, z + rng.random_range(0..30)),
            }
        })
        .collect()
}

fn leaves(node: &BvhNode, out: &mut Vec<usize>) {
    for child in [&node.left, &node.right] {
        match child {
            BvhChild::Object(id) => out.push(*id),
            BvhChild::Node(n) => leaves(n, out),
        }
    }
}

fn depth(node: &BvhNode) -> u32 {
    let side = |c: &BvhChild| match c {
        BvhChild::Object(_) => 0,
        BvhChild::Node(n) => depth(n),
    };
    1 + side(&node.left).max(side(&node.right))
}

/// Checks that `node` is the median split of `objects`, in their order.
fn check_split(node: &BvhNode, objects: &[Primitive]) {
    assert_eq!(node.bbox, range_bbox(&objects.to_vec(), 0, objects.len()));
    match objects.len() {
        1 => {
            assert!(matches!(node.left, BvhChild::Object(id) if id == objects[0].id));
            assert!(matches!(node.right, BvhChild::Object(id) if id == objects[0].id));
        }
        2 => {
            assert!(matches!(node.left, BvhChild::Object(id) if id == objects[0].id));
            assert!(matches!(node.right, BvhChild::Object(id) if id == objects[1].id));
        }
        n => {
            let mid = n / 2;
            for a in &objects[..mid] {
                for b in &objects[mid..] {
                    assert!(a.sort_key(node.axis) <= b.sort_key(node.axis));
                }
            }
            match (&node.left, &node.right) {
                (BvhChild::Node(l), BvhChild::Node(r)) => {
                    assert_eq!(node.bbox, Aabb::from_box(l.bbox, r.bbox));
                    check_split(l, &objects[..mid]);
                    check_split(r, &objects[mid..]);
                }
                _ => panic!("a node over {} objects has an object for a side", n),
            }
        }
    }
}

#[test]
fn list_add_unites_the_boxes() {
    let mut list = HittableList::new();
    assert_eq!(list.len(), 0);
    assert_eq!(list.bounding_box(), Aabb::empty());
    let a = Aabb::from_points([0, 0, 0], [1, 1, 1]);
    let b = Aabb::from_points([5, -3, 2], [6, 0, 4]);
    list.add(Primitive { id: 4, bbox: a });
    assert_eq!(list.bounding_box(), a);
    list.add(Primitive { id: 2, bbox: b });
    assert_eq!(list.len(), 2);
    assert_eq!(list.bounding_box(), Aabb::from_box(a, b));
    assert_eq!(list.objects()[0], Primitive { id: 4, bbox: a });
    assert_eq!(list.objects()[1], Primitive { id: 2, bbox: b });
}

#[test]
fn sort_key_is_the_lower_bound_on_the_axis() {
    let p = Primitive { id: 0, bbox: Aabb::from_points([1, 2, 3], [4, 5, 6]) };
    assert_eq!(p.sort_key(0), 1);
    assert_eq!(p.sort_key(1), 2);
    assert_eq!(p.sort_key(2), 3);
    assert_eq!(p.sort_key(7), 1);
}

#[test]
fn range_bbox_unites_the_boxes_of_the_range() {
    let objects = vec![
        Primitive { id: 0, bbox: Aabb::from_points([0, 0, 0], [1, 1, 1]) },
        Primitive { id: 1, bbox: Aabb::from_points([5, 5, 5], [6, 6, 6]) },
        Primitive { id: 2, bbox: Aabb::from_points([-3, 2, 2], [-2, 3, 3]) },
    ];
    assert_eq!(range_bbox(&objects, 0, 0), Aabb::empty());
    assert_eq!(range_bbox(&objects, 1, 2), objects[1].bbox);
    assert_eq!(range_bbox(&objects, 1, 3), Aabb::from_points([-3, 2, 2], [6, 6, 6]));
    assert_eq!(range_bbox(&objects, 0, 3), Aabb::from_points([-3, 0, 0], [6, 6, 6]));
}

#[test]
fn one_object_stands_on_both_sides_of_its_node() {
    let solids = [Slab { x: (10, 20), y: (0, 5), z: (0, 5) }];
    let mut list = list_of(&solids);
    let node = BvhNode::from_list(&mut list, &longest);
    assert!(matches!(node.left, BvhChild::Object(0)));
    assert!(matches!(node.right, BvhChild::Object(0)));
    assert_eq!(node.bounding_box(), solids[0].bbox());
    assert_eq!(node.axis, 0);
    assert_eq!(depth(&node), 1);
}

#[test]
fn two_objects_stand_one_on_each_side_unsorted() {
    let solids = [
        Slab { x: (100, 120), y: (0, 5), z: (0, 5) },
        Slab { x: (10, 20), y: (0, 5), z: (0, 5) },
    ];
    let mut list = list_of(&solids);
    let node = BvhNode::from_list(&mut list, &longest);
    assert!(matches!(node.left, BvhChild::Object(0)));
    assert!(matches!(node.right, BvhChild::Object(1)));
    assert_eq!(node.bounding_box(), Aabb::from_box(solids[0].bbox(), solids[1].bbox()));
    assert_eq!(list.objects()[0].id, 0);
    assert_eq!(list.objects()[1].id, 1);
}

#[test]
fn three_objects_are_sorted_along_the_longest_axis_and_halved() {
    let solids = [
        Slab { x: (100, 120), y: (0, 5), z: (0, 5) },
        Slab { x: (10, 20), y: (0, 5), z: (0, 5) },
        Slab { x: (50, 60), y: (0, 5), z: (0, 5) },
    ];
    let mut list = list_of(&solids);
    let node = BvhNode::from_list(&mut list, &longest);
    assert_eq!(node.axis, 0);
    let order: Vec<usize> = list.objects().iter().map(|p| p.id).collect();
    assert_eq!(order, vec![1, 2, 0]);
    match (&node.left, &node.right) {
        (BvhChild::Node(l), BvhChild::Node(r)) => {
            assert!(matches!(l.left, BvhChild::Object(1)));
            assert!(matches!(l.right, BvhChild::Object(1)));
            assert!(matches!(r.left, BvhChild::Object(2)));
            assert!(matches!(r.right, BvhChild::Object(0)));
            assert_eq!(l.bbox, solids[1].bbox());
            assert_eq!(r.bbox, Aabb::from_box(solids[2].bbox(), solids[0].bbox()));
        }
        _ => panic!("a node over three objects has an object for a side"),
    }
    assert_eq!(depth(&node), 2);
}

#[test]
fn objects_are_sorted_along_the_axis_that_was_chosen() {
    let solids = [
        Slab { x: (0, 1), y: (30, 31), z: (5, 6) },
        Slab { x: (1, 2), y: (10, 11), z: (9, 10) },
        Slab { x: (2, 3), y: (20, 21), z: (1, 2) },
        Slab { x: (3, 4), y: (0, 1), z: (7, 8) },
    ];
    let mut by_y = list_of(&solids);
    BvhNode::from_list(&mut by_y, &|_| 1);
    let order: Vec<usize> = by_y.objects().iter().map(|p| p.id).collect();
    assert_eq!(order, vec![3, 1, 2, 0]);
    let mut by_z = list_of(&solids);
    BvhNode::from_list(&mut by_z, &|_| 2);
    let order: Vec<usize> = by_z.objects().iter().map(|p| p.id).collect();
    assert_eq!(order, vec![2, 0, 3, 1]);
    let mut by_other = list_of(&solids);
    BvhNode::from_list(&mut by_other, &|_| 17);
    let order: Vec<usize> = by_other.objects().iter().map(|p| p.id).collect();
    assert_eq!(order, vec![0, 1, 2, 3]);
}

#[test]
fn objects_with_equal_keys_keep_their_order() {
    let solids = [
        Slab { x: (5, 6), y: (0, 1), z: (0, 1) },
        Slab { x: (1, 2), y: (0, 1), z: (0, 1) },
        Slab { x: (5, 9), y: (0, 1), z: (0, 1) },
        Slab { x: (1, 7), y: (0, 1), z: (0, 1) },
        Slab { x: (5, 8), y: (0, 1), z: (0, 1) },
    ];
    let mut list = list_of(&solids);
    // Only the top range is longer than two and therefore sorted.
    BvhNode::from_range(&mut list.objects, 0, 5, &|_| 0);
    let order: Vec<usize> = list.objects().iter().map(|p| p.id).collect();
    assert_eq!(order, vec![1, 3, 0, 2, 4]);
}

#[test]
fn from_range_leaves_the_other_objects_alone() {
    let mut rng = StdRng::seed_from_u64(11);
    let solids = random_solids(&mut rng, 40);
    let mut list = list_of(&solids);
    let before: Vec<Primitive> = list.objects().clone();
    let node = BvhNode::from_range(&mut list.objects, 10, 25, &longest);
    assert_eq!(&list.objects()[..10], &before[..10]);
    assert_eq!(&list.objects()[25..], &before[25..]);
    let mut ids: Vec<usize> = list.objects()[10..25].iter().map(|p| p.id).collect();
    ids.sort();
    assert_eq!(ids, (10..25).collect::<Vec<_>>());
    check_split(&node, &list.objects()[10..25]);
}

#[test]
fn hierarchy_is_a_balanced_median_split_of_a_rearrangement() {
    let mut rng = StdRng::seed_from_u64(7);
    for n in [1, 2, 3, 4, 5, 6, 7, 8, 9, 15, 16, 17, 31, 33, 100, 257] {
        let solids = random_solids(&mut rng, n);
        let mut list = list_of(&solids);
        let whole = list.bounding_box();
        let node = BvhNode::from_list(&mut list, &longest);
        // The list holds the same objects, and its box stays.
        let mut ids: Vec<usize> = list.objects().iter().map(|p| p.id).collect();
        ids.sort();
        assert_eq!(ids, (0..n).collect::<Vec<_>>());
        assert_eq!(list.bounding_box(), whole);
        assert_eq!(node.bbox, whole);
        check_split(&node, list.objects());
        // The leaves are the objects.
        let mut found = Vec::new();
        leaves(&node, &mut found);
        found.sort();
        found.dedup();
        assert_eq!(found, (0..n).collect::<Vec<_>>());
        // Depth d with 2^(d-1) < n.
        let d = depth(&node);
        if n >= 2 {
            assert!((1usize << (d - 1)) < n);
        } else {
            assert_eq!(d, 1);
        }
    }
}

#[test]
fn list_hit_finds_the_nearest_object() {
    let solids = [
        Slab { x: (100, 120), y: (0, 5), z: (0, 5) },
        Slab { x: (10, 20), y: (0, 5), z: (0, 5) },
        Slab { x: (50, 60), y: (0, 5), z: (0, 5) },
        Slab { x: (5, 6), y: (40, 50), z: (0, 5) },
    ];
    let list = list_of(&solids);
    let ray = XRay { ox: 0, oy: 2, oz: 2 };
    let ask = |id: usize, i: Interval| object_hit(&solids, ray, id, i);
    assert_eq!(list.hit(Interval::new(0, 1000), &ask), Some(Hit { id: 1, t: 10 }));
    assert_eq!(list.hit(Interval::new(10, 1000), &ask), Some(Hit { id: 1, t: 20 }));
    assert_eq!(list.hit(Interval::new(20, 1000), &ask), Some(Hit { id: 2, t: 50 }));
    assert_eq!(list.hit(Interval::new(60, 100), &ask), None);
    assert_eq!(list.hit(Interval::new(60, 101), &ask), Some(Hit { id: 0, t: 100 }));
    assert_eq!(list.hit(Interval::new(120, 1000), &ask), None);
    let high = XRay { ox: 0, oy: 45, oz: 2 };
    let ask_high = |id: usize, i: Interval| object_hit(&solids, high, id, i);
    assert_eq!(list.hit(Interval::new(0, 1000), &ask_high), Some(Hit { id: 3, t: 5 }));
}

#[test]
fn list_hit_keeps_the_first_of_equally_near_objects() {
    let solids = [
        Slab { x: (10, 20), y: (0, 5), z: (0, 5) },
        Slab { x: (10, 30), y: (0, 5), z: (0, 5) },
    ];
    let list = list_of(&solids);
    let ray = XRay { ox: 0, oy: 2, oz: 2 };
    let ask = |id: usize, i: Interval| object_hit(&solids, ray, id, i);
    assert_eq!(list.hit(Interval::new(0, 1000), &ask), Some(Hit { id: 0, t: 10 }));
}

#[test]
fn list_hit_asks_each_object_up_to_the_nearest_hit_so_far() {
    let asked = std::cell::RefCell::new(Vec::new());
    let mut list = HittableList::new();
    for id in 0..4 {
        list.add(Primitive { id, bbox: Aabb::empty() });
    }
    let answers = [Some(70), None, Some(30), Some(30)];
    let ask = |id: usize, i: Interval| {
        asked.borrow_mut().push((id, i));
        answers[id].filter(|t| i.surrounds(*t))
    };
    assert_eq!(list.hit(Interval::new(1, 100), &ask), Some(Hit { id: 2, t: 30 }));
    assert_eq!(
        *asked.borrow(),
        vec![
            (0, Interval::new(1, 100)),
            (1, Interval::new(1, 70)),
            (2, Interval::new(1, 70)),
            (3, Interval::new(1, 30)),
        ]
    );
}

#[test]
fn empty_list_is_never_hit() {
    let list = HittableList::new();
    assert_eq!(list.hit(Interval::universe(), &|_, _| Some(1)), None);
}

#[test]
fn node_hit_prunes_where_the_box_is_missed() {
    let solids = [
        Slab { x: (10, 20), y: (0, 5), z: (0, 5) },
        Slab { x: (50, 60), y: (0, 5), z: (0, 5) },
        Slab { x: (100, 120), y: (0, 5), z: (0, 5) },
    ];
    let mut list = list_of(&solids);
    let node = BvhNode::from_list(&mut list, &longest);
    let asked = std::cell::RefCell::new(Vec::new());
    let ray = XRay { ox: 0, oy: 99, oz: 2 };
    let r = node.hit(
        Interval::new(0, 1000),
        &|bb, i| box_hit(ray, bb, i),
        &|id, i| {
            asked.borrow_mut().push(id);
            object_hit(&solids, ray, id, i)
        },
    );
    assert_eq!(r, None);
    assert!(asked.borrow().is_empty());
}

#[test]
fn node_hit_searches_the_right_side_only_before_the_left_hit() {
    let mut list = HittableList::new();
    list.add(Primitive { id: 0, bbox: Aabb::universe() });
    list.add(Primitive { id: 1, bbox: Aabb::universe() });
    let node = BvhNode::from_list(&mut list, &|_| 0);
    let asked = std::cell::RefCell::new(Vec::new());
    let r = node.hit(
        Interval::new(0, 1000),
        &|_, i| Some(Interval::new(i.min + 5, i.max - 5)),
        &|id, i| {
            asked.borrow_mut().push((id, i));
            if id == 0 {
                Some(400)
            } else {
                Some(300)
            }
        },
    );
    assert_eq!(r, Some(Hit { id: 1, t: 300 }));
    assert_eq!(
        *asked.borrow(),
        vec![(0, Interval::new(5, 995)), (1, Interval::new(5, 400))]
    );
}

#[test]
fn node_hit_keeps_the_left_hit_where_the_right_side_has_none() {
    let mut list = HittableList::new();
    list.add(Primitive { id: 0, bbox: Aabb::universe() });
    list.add(Primitive { id: 1, bbox: Aabb::universe() });
    let node = BvhNode::from_list(&mut list, &|_| 0);
    let r = node.hit(
        Interval::new(0, 1000),
        &|_, i| Some(i),
        &|id, _| if id == 0 { Some(400) } else { None },
    );
    assert_eq!(r, Some(Hit { id: 0, t: 400 }));
    let missed = node.hit(Interval::new(0, 1000), &|_, _| None, &|_, _| Some(1));
    assert_eq!(missed, None);
}

#[test]
fn hierarchy_finds_what_a_scan_finds() {
    let mut rng = StdRng::seed_from_u64(2024);
    for round in 0..60 {
        let n = if round < 10 { round + 1 } else { rng.random_range(1..=500) };
        let solids = random_solids(&mut rng, n);
        let mut list = list_of(&solids);
        let node = BvhNode::from_list(&mut list, &longest);
        for _ in 0..40 {
            let ray = XRay {
                ox: rng.random_range(-260..260),
                oy: rng.random_range(-60..90),
                oz: rng.random_range(-60..90),
            };
            let low = rng.random_range(-50..200);
            let ray_t = Interval::new(low, low + rng.random_range(0..500));
            let by_scan = list.hit(ray_t, &|id, i| object_hit(&solids, ray, id, i));
            let by_descent = node.hit(
                ray_t,
                &|bb, i| box_hit(ray, bb, i),
                &|id, i| object_hit(&solids, ray, id, i),
            );
            assert_eq!(by_descent, by_scan, "{} solids, {:?}, {:?}", n, ray, ray_t);
            // And both are the nearest crossing within the interval.
            let nearest = solids
                .iter()
                .filter_map(|s| {
                    let inside = s.y.0 <= ray.oy
                        && ray.oy <= s.y.1
                        && s.z.0 <= ray.oz
                        && ray.oz <= s.z.1;
                    [s.x.0 - ray.ox, s.x.1 - ray.ox]
                        .into_iter()
                        .filter(|t| inside && ray_t.surrounds(*t))
                        .min()
                })
                .min();
            assert_eq!(by_scan.map(|h| h.t), nearest);
        }
    }
}

#[test]
fn random_index_names_an_object_of_the_list() {
    let mut list = HittableList::new();
    list.add(Primitive { id: 0, bbox: Aabb::empty() });
    assert_eq!(list.random_index(), 0);
    for id in 1..5 {
        list.add(Primitive { id, bbox: Aabb::empty() });
    }
    let mut seen = [false; 5];
    for _ in 0..2000 {
        let i = list.random_index();
        assert!(i < 5);
        seen[i] = true;
    }
    assert_eq!(seen, [true; 5]);
}
