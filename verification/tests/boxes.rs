use raytracer::aabb::Aabb;
use raytracer::interval::Interval;

#[test]
fn interval_contains_includes_the_bounds() {
    let i = Interval::new(-3, 8);
    assert!(i.contains(-3));
    assert!(i.contains(8));
    assert!(i.contains(0));
    assert!(!i.contains(-4));
    assert!(!i.contains(9));
}

#[test]
fn interval_surrounds_excludes_the_bounds() {
    let i = Interval::new(-3, 8);
    assert!(!i.surrounds(-3));
    assert!(!i.surrounds(8));
    assert!(i.surrounds(-2));
    assert!(i.surrounds(7));
}

#[test]
fn interval_clamp_moves_to_the_nearer_bound() {
    let i = Interval::new(10, 20);
    assert_eq!(i.clamp(5), 10);
    assert_eq!(i.clamp(10), 10);
    assert_eq!(i.clamp(14), 14);
    assert_eq!(i.clamp(20), 20);
    assert_eq!(i.clamp(99), 20);
}

#[test]
fn interval_union_takes_the_outer_bounds() {
    let a = Interval::new(1, 4);
    let b = Interval::new(-2, 3);
    assert_eq!(Interval::union(a, b), Interval::new(-2, 4));
    assert_eq!(Interval::union(b, a), Interval::new(-2, 4));
}

#[test]
fn empty_interval_holds_nothing_and_is_neutral() {
    let e = Interval::empty();
    assert_eq!(e, Interval { min: i64::MAX, max: i64::MIN });
    assert!(!e.contains(0));
    assert!(!e.contains(i64::MAX));
    let a = Interval::new(-7, 7);
    assert_eq!(Interval::union(e, a), a);
    assert_eq!(Interval::union(a, e), a);
}

#[test]
fn universe_interval_holds_everything() {
    let u = Interval::universe();
    assert!(u.contains(i64::MIN));
    assert!(u.contains(i64::MAX));
    assert!(u.surrounds(0));
}

#[test]
fn from_points_does_not_depend_on_the_order_of_the_corners() {
    let a = [3, -1, 9];
    let b = [-2, 5, 9];
    let ab = Aabb::from_points(a, b);
    let ba = Aabb::from_points(b, a);
    assert_eq!(ab, ba);
    assert_eq!(ab.x, Interval::new(-2, 3));
    assert_eq!(ab.y, Interval::new(-1, 5));
    assert_eq!(ab.z, Interval::new(9, 9));
}

#[test]
fn from_box_is_commutative_and_associative() {
    let a = Aabb::from_points([0, 0, 0], [1, 1, 1]);
    let b = Aabb::from_points([5, -3, 2], [6, 0, 4]);
    let c = Aabb::from_points([-9, 2, 2], [-8, 3, 3]);
    assert_eq!(Aabb::from_box(a, b), Aabb::from_box(b, a));
    assert_eq!(
        Aabb::from_box(Aabb::from_box(a, b), c),
        Aabb::from_box(a, Aabb::from_box(b, c))
    );
    let all = Aabb::from_box(Aabb::from_box(a, b), c);
    assert_eq!(all.x, Interval::new(-9, 6));
    assert_eq!(all.y, Interval::new(-3, 3));
    assert_eq!(all.z, Interval::new(0, 4));
}

#[test]
fn empty_box_is_the_default_and_is_neutral() {
    let a = Aabb::from_points([0, 0, 0], [1, 1, 1]);
    assert_eq!(Aabb::default(), Aabb::empty());
    assert_eq!(Aabb::from_box(Aabb::empty(), a), a);
    assert_eq!(Aabb::from_box(a, Aabb::empty()), a);
    assert_eq!(Aabb::universe().x, Interval::universe());
}

#[test]
fn new_keeps_the_intervals_as_given() {
    let b = Aabb::new(Interval::new(1, 1), Interval::new(2, 3), Interval::new(4, 5));
    assert_eq!(b.x, Interval::new(1, 1));
    assert_eq!(b.y, Interval::new(2, 3));
    assert_eq!(b.z, Interval::new(4, 5));
}

#[test]
fn axis_interval_names_x_for_every_other_index() {
    let b = Aabb::from_points([1, 2, 3], [4, 5, 6]);
    assert_eq!(*b.axis_interval(0), Interval::new(1, 4));
    assert_eq!(*b.axis_interval(1), Interval::new(2, 5));
    assert_eq!(*b.axis_interval(2), Interval::new(3, 6));
    assert_eq!(*b.axis_interval(3), Interval::new(1, 4));
    assert_eq!(*b.axis_interval(usize::MAX), Interval::new(1, 4));
}

#[test]
fn longest_axis_picks_the_greatest_extent() {
    assert_eq!(Aabb::longest_axis(9, 2, 3), 0);
    assert_eq!(Aabb::longest_axis(2, 9, 3), 1);
    assert_eq!(Aabb::longest_axis(2, 3, 9), 2);
}

#[test]
fn longest_axis_breaks_ties_towards_the_later_axis() {
    assert_eq!(Aabb::longest_axis(5, 5, 5), 2);
    assert_eq!(Aabb::longest_axis(5, 5, 1), 1);
    assert_eq!(Aabb::longest_axis(5, 1, 5), 2);
    assert_eq!(Aabb::longest_axis(1, 5, 5), 2);
    assert_eq!(Aabb::longest_axis(7, 7, 9), 2);
}

#[test]
fn slab_test_misses_with_an_interval_outside_the_box() {
    // The ray is between the planes of x for 10..20, of y for 5..30, of z for 0..40.
    let crossings = [(10, 20), (5, 30), (0, 40)];
    let mut before = Interval::new(0, 10);
    assert!(!Aabb::hit(&crossings, &mut before));
    let mut after = Interval::new(20, 50);
    assert!(!Aabb::hit(&crossings, &mut after));
    let mut far = Interval::new(100, 200);
    assert!(!Aabb::hit(&crossings, &mut far));
}

#[test]
fn slab_test_narrows_to_the_entry_and_exit() {
    let crossings = [(10, 20), (5, 30), (0, 40)];
    let mut ray_t = Interval::new(1, 1000);
    assert!(Aabb::hit(&crossings, &mut ray_t));
    assert_eq!(ray_t, Interval::new(10, 20));
    let mut short = Interval::new(12, 15);
    assert!(Aabb::hit(&crossings, &mut short));
    assert_eq!(short, Interval::new(12, 15));
}

#[test]
fn slab_test_takes_the_crossings_in_either_order() {
    let crossings = [(20, 10), (5, 30), (40, 0)];
    let mut ray_t = Interval::new(1, 1000);
    assert!(Aabb::hit(&crossings, &mut ray_t));
    assert_eq!(ray_t, Interval::new(10, 20));
}

#[test]
fn slab_test_stops_at_the_first_axis_that_leaves_nothing() {
    // x leaves 10..20, y leaves nothing of it, z is not looked at.
    let crossings = [(10, 20), (30, 50), (12, 14)];
    let mut ray_t = Interval::new(0, 100);
    assert!(!Aabb::hit(&crossings, &mut ray_t));
    assert_eq!(ray_t, Interval::new(30, 20));
}

#[test]
fn slab_test_misses_where_the_slabs_do_not_overlap() {
    let crossings = [(0, 10), (10, 20), (0, 40)];
    let mut ray_t = Interval::new(-100, 100);
    assert!(!Aabb::hit(&crossings, &mut ray_t));
}

#[test]
fn slab_test_with_equal_crossings_leaves_nothing() {
    let crossings = [(7, 7), (0, 40), (0, 40)];
    let mut ray_t = Interval::new(0, 100);
    assert!(!Aabb::hit(&crossings, &mut ray_t));
}
