//! Scene objects as the hierarchy and the hit list see them, and the search
//! for the nearest hit among a list of them.
//!
//! Whether a ray meets an object, and where, is the caller's arithmetic. It
//! is asked of the caller object by object, with the interval of distances
//! that is still of interest, and answered with the order key of the
//! distance of the hit.

use vstd::prelude::*;
use vstd::seq_lib::lemma_fold_left_permutation;
use crate::aabb::{lemma_from_box_associative, lemma_from_box_empty, lemma_from_box_encloses, Aabb};
use crate::interval::Interval;
use crate::random::random_int_range;

verus! {

/// What the hierarchy keeps of a scene object.
#[derive(Clone, Copy, Debug, PartialEq, Eq, Structural)]
pub struct Primitive {
    /// The number by which the caller finds the object again.
    pub id: usize,
    /// The object's bounding box.
    pub bbox: Aabb,
}

impl Primitive {
    /// The key by which objects are ordered along `axis`: the lower bound of
    /// the box on that axis.
    pub open spec fn spec_sort_key(self, axis: usize) -> i64 {
        self.bbox.spec_axis_interval(axis).min
    }

    /// The key by which objects are ordered along `axis`.
    pub fn sort_key(&self, axis: usize) -> (k: i64)
        ensures
            k == self.spec_sort_key(axis),
    {
        self.bbox.axis_interval(axis).min
    }
}

/// One step of a running union.
pub open spec fn grow(b: Aabb, p: Primitive) -> Aabb {
    Aabb::spec_from_box(b, p.bbox)
}

/// The union of the boxes of `s`, taken from the first object to the last.
pub open spec fn box_of(s: Seq<Primitive>) -> Aabb {
    s.fold_left(Aabb::spec_empty(), |b: Aabb, p: Primitive| grow(b, p))
}

/// Uniting boxes one after another gives the same box in any order.
pub proof fn lemma_box_of_permuted(a: Seq<Primitive>, b: Seq<Primitive>)
    requires
        a.to_multiset() == b.to_multiset(),
    ensures
        box_of(a) == box_of(b),
{
    let f = |b: Aabb, p: Primitive| grow(b, p);
    assert forall|x: Primitive, y: Primitive, v: Aabb| #[trigger] f(f(v, x), y) == f(f(v, y), x) by {
        lemma_from_box_associative(v, x.bbox, y.bbox);
        lemma_from_box_associative(v, y.bbox, x.bbox);
    }
    lemma_fold_left_permutation(a, b, f, Aabb::spec_empty());
}

/// The box of two runs of objects, one after the other, is the union of the
/// boxes of the runs.
pub proof fn lemma_box_of_concat(a: Seq<Primitive>, b: Seq<Primitive>)
    ensures
        box_of(a + b) == Aabb::spec_from_box(box_of(a), box_of(b)),
    decreases b.len(),
{
    if b.len() == 0 {
        assert(a + b =~= a);
        lemma_from_box_empty(box_of(a));
    } else {
        lemma_box_of_concat(a, b.drop_last());
        assert((a + b).drop_last() =~= a + b.drop_last());
        lemma_from_box_associative(box_of(a), box_of(b.drop_last()), b.last().bbox);
    }
}

/// The box of a run of objects encloses the box of each of them.
pub proof fn lemma_box_of_encloses(s: Seq<Primitive>, i: int)
    requires
        0 <= i < s.len(),
    ensures
        box_of(s).encloses(s[i].bbox),
    decreases s.len(),
{
    lemma_from_box_encloses(box_of(s.drop_last()), s.last().bbox, box_of(s));
    if i < s.len() - 1 {
        lemma_box_of_encloses(s.drop_last(), i);
    }
}

/// The nearest hit found: which object, and the key of the distance.
#[derive(Clone, Copy, Debug, PartialEq, Eq, Structural)]
pub struct Hit {
    pub id: usize,
    pub t: i64,
}

/// The interval that is still of interest once `best` is found: it ends at
/// the distance of `best`.
pub open spec fn reach(ray_t: Interval, best: Option<Hit>) -> Interval {
    Interval {
        min: ray_t.min,
        max: match best {
            Some(h) => h.t,
            None => ray_t.max,
        },
    }
}

/// The later of two finds where there is one, else the earlier.
pub open spec fn nearer(first: Option<Hit>, second: Option<Hit>) -> Option<Hit> {
    match second {
        Some(_) => second,
        None => first,
    }
}

/// The hit on one object, from the distance that the object answers.
pub open spec fn hit_on(id: usize, answer: Option<i64>) -> Option<Hit> {
    match answer {
        Some(t) => Some(Hit { id, t }),
        None => None,
    }
}

/// Whatever `object_hit` returns is what `answers` says.
pub open spec fn object_oracle<H: Fn(usize, Interval) -> Option<i64>>(
    object_hit: H,
    answers: spec_fn(usize, Interval) -> Option<i64>,
) -> bool {
    forall|id: usize, ray_t: Interval, r: Option<i64>| #[trigger]
        call_ensures(object_hit, (id, ray_t), r) ==> r == answers(id, ray_t)
}

/// The nearest hit among `s` as a scan finds it: the objects are asked in
/// turn, each with the interval that ends at the nearest hit so far.
pub open spec fn scan(
    s: Seq<Primitive>,
    ray_t: Interval,
    answers: spec_fn(usize, Interval) -> Option<i64>,
) -> Option<Hit>
    decreases s.len(),
{
    if s.len() == 0 {
        None
    } else {
        let before = scan(s.drop_last(), ray_t, answers);
        nearer(before, hit_on(s.last().id, answers(s.last().id, reach(ray_t, before))))
    }
}

/// A flat list of scene objects with the union of their boxes.
pub struct HittableList {
    pub objects: Vec<Primitive>,
    pub bbox: Aabb,
}

impl HittableList {
    /// The box of the list is the union of the boxes of its objects.
    pub open spec fn wf(self) -> bool {
        self.bbox == box_of(self.objects@)
    }

    /// The objects of the list, in order.
    pub open spec fn view(self) -> Seq<Primitive> {
        self.objects@
    }

    /// The list without objects.
    pub fn new() -> (list: HittableList)
        ensures
            list.view() == Seq::<Primitive>::empty(),
            list.wf(),
    {
        HittableList { objects: Vec::new(), bbox: Aabb::empty() }
    }

    /// Puts an object at the end of the list, and unites its box with the
    /// box of the list.
    pub fn add(&mut self, object: Primitive)
        ensures
            final(self).view() == old(self).view().push(object),
            final(self).bbox == Aabb::spec_from_box(old(self).bbox, object.bbox),
            old(self).wf() ==> final(self).wf(),
    {
        proof {
            assert(self.objects@.push(object).drop_last() =~= self.objects@);
        }
        self.bbox = Aabb::from_box(self.bbox, object.bbox);
        self.objects.push(object);
    }

    /// The objects of the list.
    pub fn objects(&self) -> (r: &Vec<Primitive>)
        ensures
            r@ == self.view(),
    {
        &self.objects
    }

    /// The number of objects.
    pub fn len(&self) -> (n: usize)
        ensures
            n == self.view().len(),
    {
        self.objects.len()
    }

    /// The box of the list.
    pub fn bounding_box(&self) -> (b: Aabb)
        ensures
            b == self.bbox,
            self.wf() ==> b == box_of(self.view()),
    {
        self.bbox
    }

    /// The nearest hit among the objects of the list.
    ///
    /// The objects are asked in turn, each with the interval from
    /// `ray_t.min` to the nearest hit so far, so that a later object only
    /// wins with a hit that is strictly nearer.
    pub fn hit<H: Fn(usize, Interval) -> Option<i64>>(&self, ray_t: Interval, object_hit: &H) -> (r:
        Option<Hit>)
        requires
            forall|id: usize, i: Interval| call_requires(*object_hit, (id, i)),
        ensures
            forall|answers: spec_fn(usize, Interval) -> Option<i64>| #[trigger]
                object_oracle(*object_hit, answers) ==> r == scan(self.view(), ray_t, answers),
    {
        let mut best: Option<Hit> = None;
        let mut closest_so_far = ray_t.max;
        let mut i: usize = 0;
        while i < self.objects.len()
            invariant
                i <= self.objects.len(),
                forall|id: usize, i: Interval| call_requires(*object_hit, (id, i)),
                (Interval { min: ray_t.min, max: closest_so_far }) == reach(ray_t, best),
                forall|answers: spec_fn(usize, Interval) -> Option<i64>| #[trigger]
                    object_oracle(*object_hit, answers) ==> best == scan(
                        self.objects@.take(i as int),
                        ray_t,
                        answers,
                    ),
            decreases self.objects.len() - i,
        {
            let id = self.objects[i].id;
            let found = object_hit(id, Interval::new(ray_t.min, closest_so_far));
            let ghost before = best;
            proof {
                assert(self.objects@.take(i + 1).drop_last() =~= self.objects@.take(i as int));
            }
            if let Some(t) = found {
                closest_so_far = t;
                best = Some(Hit { id, t });
            }
            proof {
                assert forall|answers: spec_fn(usize, Interval) -> Option<i64>| #[trigger]
                    object_oracle(*object_hit, answers) implies best == scan(
                    self.objects@.take(i + 1),
                    ray_t,
                    answers,
                ) by {
                    assert(before == scan(self.objects@.take(i as int), ray_t, answers));
                    assert(found == answers(id, reach(ray_t, before)));
                }
            }
            i += 1;
        }
        proof {
            assert(self.objects@.take(self.objects.len() as int) =~= self.objects@);
        }
        best
    }

    /// The place of an object of the list, drawn at random.
    pub fn random_index(&self) -> (index: usize)
        requires
            0 < self.view().len() <= i32::MAX,
        ensures
            index < self.view().len(),
    {
        let int_size = self.objects.len() as i32;
        random_int_range(0, int_size - 1) as usize
    }
}

/// Every answer lies in the interval that was asked about, the bounds
/// included.
pub open spec fn answers_within(answers: spec_fn(usize, Interval) -> Option<i64>) -> bool {
    forall|id: usize, ray_t: Interval|
        match #[trigger] answers(id, ray_t) {
            Some(t) => ray_t.spec_contains(t),
            None => true,
        }
}

/// An object that is asked again, about what lies before its own answer,
/// has nothing new to say: no answer, or the same.
pub open spec fn answers_settle(answers: spec_fn(usize, Interval) -> Option<i64>) -> bool {
    forall|id: usize, ray_t: Interval|
        match #[trigger] answers(id, ray_t) {
            Some(t) => {
                let again = answers(id, Interval { min: ray_t.min, max: t });
                again is None || again == Some(t)
            },
            None => true,
        }
}

/// The interval from `min` up to `t`.
pub open spec fn up_to(min: i64, t: i64) -> Interval {
    Interval { min, max: t }
}

/// The objects `s` answer alike about `i1` and `i2`, and about what lies
/// before any distance in `i1`.
pub open spec fn answer_alike(
    s: Seq<Primitive>,
    i1: Interval,
    i2: Interval,
    answers: spec_fn(usize, Interval) -> Option<i64>,
) -> bool {
    &&& forall|k: int| 0 <= k < s.len() ==> answers(#[trigger] s[k].id, i1) == answers(s[k].id, i2)
    &&& forall|k: int, t: i64|
        0 <= k < s.len() && i1.spec_contains(t) ==> #[trigger] answers(s[k].id, up_to(i1.min, t))
            == answers(s[k].id, up_to(i2.min, t))
}

/// A scan's find lies in the interval that was asked about.
pub proof fn lemma_scan_within(
    s: Seq<Primitive>,
    ray_t: Interval,
    answers: spec_fn(usize, Interval) -> Option<i64>,
)
    requires
        answers_within(answers),
    ensures
        match scan(s, ray_t, answers) {
            Some(h) => ray_t.spec_contains(h.t),
            None => true,
        },
    decreases s.len(),
{
    if s.len() > 0 {
        lemma_scan_within(s.drop_last(), ray_t, answers);
        let before = scan(s.drop_last(), ray_t, answers);
        let found = answers(s.last().id, reach(ray_t, before));
        assert(found is Some ==> reach(ray_t, before).spec_contains(found->0));
    }
}

/// A scan of two runs of objects, one after the other, is a scan of the
/// first and then a scan of the second before what the first found.
pub proof fn lemma_scan_concat(
    a: Seq<Primitive>,
    b: Seq<Primitive>,
    ray_t: Interval,
    answers: spec_fn(usize, Interval) -> Option<i64>,
)
    ensures
        scan(a + b, ray_t, answers) == nearer(
            scan(a, ray_t, answers),
            scan(b, reach(ray_t, scan(a, ray_t, answers)), answers),
        ),
    decreases b.len(),
{
    let first = scan(a, ray_t, answers);
    if b.len() == 0 {
        assert(a + b =~= a);
    } else {
        lemma_scan_concat(a, b.drop_last(), ray_t, answers);
        assert((a + b).drop_last() =~= a + b.drop_last());
        let rest = scan(b.drop_last(), reach(ray_t, first), answers);
        assert(reach(ray_t, nearer(first, rest)) == reach(reach(ray_t, first), rest));
    }
}

/// Objects that answer alike about two intervals are scanned alike in
/// them.
pub proof fn lemma_scan_alike(
    s: Seq<Primitive>,
    i1: Interval,
    i2: Interval,
    answers: spec_fn(usize, Interval) -> Option<i64>,
)
    requires
        answers_within(answers),
        answer_alike(s, i1, i2, answers),
    ensures
        scan(s, i1, answers) == scan(s, i2, answers),
    decreases s.len(),
{
    if s.len() > 0 {
        let front = s.drop_last();
        assert forall|k: int| 0 <= k < front.len() implies answers(#[trigger] front[k].id, i1)
            == answers(front[k].id, i2) by {
            assert(front[k] == s[k]);
        }
        assert forall|k: int, t: i64|
            0 <= k < front.len() && i1.spec_contains(t) implies #[trigger] answers(
            front[k].id,
            up_to(i1.min, t),
        ) == answers(front[k].id, up_to(i2.min, t)) by {
            assert(front[k] == s[k]);
        }
        lemma_scan_alike(front, i1, i2, answers);
        lemma_scan_within(front, i1, answers);
        let before = scan(front, i1, answers);
        let last = s[s.len() - 1];
        match before {
            Some(h) => {
                assert(reach(i1, before) == up_to(i1.min, h.t));
                assert(reach(i2, before) == up_to(i2.min, h.t));
                assert(answers(last.id, up_to(i1.min, h.t)) == answers(
                    last.id,
                    up_to(i2.min, h.t),
                ));
            },
            None => {
                assert(reach(i1, before) == i1);
                assert(reach(i2, before) == i2);
                assert(answers(last.id, i1) == answers(last.id, i2));
            },
        }
    }
}

/// Where no object has an answer, a scan finds nothing.
pub proof fn lemma_scan_nothing(
    s: Seq<Primitive>,
    ray_t: Interval,
    answers: spec_fn(usize, Interval) -> Option<i64>,
)
    requires
        forall|k: int| 0 <= k < s.len() ==> answers(#[trigger] s[k].id, ray_t) is None,
    ensures
        scan(s, ray_t, answers) is None,
    decreases s.len(),
{
    if s.len() > 0 {
        assert forall|k: int| 0 <= k < s.drop_last().len() implies answers(
            #[trigger] s.drop_last()[k].id,
            ray_t,
        ) is None by {
            assert(s.drop_last()[k] == s[k]);
        }
        lemma_scan_nothing(s.drop_last(), ray_t, answers);
        assert(reach(ray_t, None) == ray_t);
        assert(answers(s[s.len() - 1].id, ray_t) is None);
    }
}

/// Whether the object is met at distance `u`, strictly within `ray_t`.
/// `roots` gives, for every object, the distances at which the ray meets
/// it.
pub open spec fn has_root(
    roots: spec_fn(usize) -> Set<i64>,
    p: Primitive,
    ray_t: Interval,
    u: i64,
) -> bool {
    roots(p.id).contains(u) && ray_t.spec_surrounds(u)
}

/// `r` is the least of the distances `rs` strictly within `ray_t`, or
/// `None` where there is none.
pub open spec fn least_root(rs: Set<i64>, ray_t: Interval, r: Option<i64>) -> bool {
    match r {
        Some(t) => {
            &&& rs.contains(t)
            &&& ray_t.spec_surrounds(t)
            &&& forall|u: i64| #[trigger] rs.contains(u) && ray_t.spec_surrounds(u) ==> t <= u
        },
        None => forall|u: i64| #[trigger] rs.contains(u) ==> !ray_t.spec_surrounds(u),
    }
}

/// Every object answers with the least distance at which it is met
/// strictly within the interval it is asked about.
pub open spec fn answers_least_roots(
    answers: spec_fn(usize, Interval) -> Option<i64>,
    roots: spec_fn(usize) -> Set<i64>,
) -> bool {
    forall|id: usize, ray_t: Interval| least_root(roots(id), ray_t, #[trigger] answers(id, ray_t))
}

/// `h` is the hit on `s[k]` at the least distance at which any object of
/// `s` is met within `ray_t`, and no object before `s[k]` is met at that
/// distance.
pub open spec fn first_least_at(
    s: Seq<Primitive>,
    ray_t: Interval,
    roots: spec_fn(usize) -> Set<i64>,
    h: Hit,
    k: int,
) -> bool {
    &&& 0 <= k < s.len()
    &&& s[k].id == h.id
    &&& has_root(roots, s[k], ray_t, h.t)
    &&& forall|j: int, u: i64|
        0 <= j < s.len() && #[trigger] has_root(roots, s[j], ray_t, u) ==> h.t <= u && (j < k
            ==> h.t < u)
}

/// `r` is the nearest hit among `s` within `ray_t`, the first of the list
/// where several objects are met at the same distance; or `None` where no
/// object is met.
pub open spec fn first_least(
    s: Seq<Primitive>,
    ray_t: Interval,
    roots: spec_fn(usize) -> Set<i64>,
    r: Option<Hit>,
) -> bool {
    if r is Some {
        exists|k: int| #[trigger] first_least_at(s, ray_t, roots, r->0, k)
    } else {
        forall|j: int, u: i64| 0 <= j < s.len() ==> !#[trigger] has_root(roots, s[j], ray_t, u)
    }
}

/// A hit that is the first at the least distance is the nearest hit.
pub proof fn lemma_first_least_intro(
    s: Seq<Primitive>,
    ray_t: Interval,
    roots: spec_fn(usize) -> Set<i64>,
    h: Hit,
    k: int,
)
    requires
        first_least_at(s, ray_t, roots, h, k),
    ensures
        first_least(s, ray_t, roots, Some(h)),
{
    let r = Some(h);
    assert(first_least_at(s, ray_t, roots, r->0, k));
}

/// There is at most one nearest hit.
pub proof fn lemma_first_least_unique(
    s: Seq<Primitive>,
    ray_t: Interval,
    roots: spec_fn(usize) -> Set<i64>,
    r1: Option<Hit>,
    r2: Option<Hit>,
)
    requires
        first_least(s, ray_t, roots, r1),
        first_least(s, ray_t, roots, r2),
    ensures
        r1 == r2,
{
    match (r1, r2) {
        (Some(h1), Some(h2)) => {
            let k1 = choose|k: int| first_least_at(s, ray_t, roots, h1, k);
            let k2 = choose|k: int| first_least_at(s, ray_t, roots, h2, k);
            assert(has_root(roots, s[k1], ray_t, h1.t));
            assert(has_root(roots, s[k2], ray_t, h2.t));
        },
        (Some(h1), None) => {
            let k1 = choose|k: int| first_least_at(s, ray_t, roots, h1, k);
            assert(has_root(roots, s[k1], ray_t, h1.t));
        },
        (None, Some(h2)) => {
            let k2 = choose|k: int| first_least_at(s, ray_t, roots, h2, k);
            assert(has_root(roots, s[k2], ray_t, h2.t));
        },
        (None, None) => {},
    }
}

/// The nearest hit among two runs of objects, one after the other: find
/// the nearest in the first run, then look in the second run only before
/// that hit.
pub proof fn lemma_first_least_concat(
    a: Seq<Primitive>,
    b: Seq<Primitive>,
    ray_t: Interval,
    roots: spec_fn(usize) -> Set<i64>,
    l: Option<Hit>,
    r: Option<Hit>,
)
    requires
        first_least(a, ray_t, roots, l),
        first_least(b, reach(ray_t, l), roots, r),
    ensures
        first_least(a + b, ray_t, roots, nearer(l, r)),
{
    let s = a + b;
    let n = a.len() as int;
    assert forall|j: int| 0 <= j < s.len() implies s[j] == if j < n {
        a[j]
    } else {
        b[j - n]
    } by {}
    match (l, r) {
        (None, None) => {
            assert forall|j: int, u: i64| 0 <= j < s.len() implies !#[trigger] has_root(
                roots,
                s[j],
                ray_t,
                u,
            ) by {
                if j < n {
                    assert(!has_root(roots, a[j], ray_t, u));
                } else {
                    assert(!has_root(roots, b[j - n], reach(ray_t, l), u));
                }
            }
        },
        (None, Some(h)) => {
            let k = choose|k: int| first_least_at(b, reach(ray_t, l), roots, h, k);
            assert forall|j: int, u: i64|
                0 <= j < s.len() && #[trigger] has_root(roots, s[j], ray_t, u) implies h.t <= u
                && (j < n + k ==> h.t < u) by {
                if j < n {
                    assert(!has_root(roots, a[j], ray_t, u));
                } else {
                    assert(has_root(roots, b[j - n], reach(ray_t, l), u));
                }
            }
            assert(first_least_at(s, ray_t, roots, h, n + k));
            lemma_first_least_intro(s, ray_t, roots, h, n + k);
        },
        (Some(h), None) => {
            let k = choose|k: int| first_least_at(a, ray_t, roots, h, k);
            assert forall|j: int, u: i64|
                0 <= j < s.len() && #[trigger] has_root(roots, s[j], ray_t, u) implies h.t <= u
                && (j < k ==> h.t < u) by {
                if j < n {
                    assert(has_root(roots, a[j], ray_t, u));
                } else {
                    assert(!has_root(roots, b[j - n], reach(ray_t, l), u));
                }
            }
            assert(first_least_at(s, ray_t, roots, h, k));
            lemma_first_least_intro(s, ray_t, roots, h, k);
        },
        (Some(hl), Some(h)) => {
            let kl = choose|k: int| first_least_at(a, ray_t, roots, hl, k);
            let k = choose|k: int| first_least_at(b, reach(ray_t, l), roots, h, k);
            assert(has_root(roots, a[kl], ray_t, hl.t));
            assert(has_root(roots, b[k], reach(ray_t, l), h.t));
            assert forall|j: int, u: i64|
                0 <= j < s.len() && #[trigger] has_root(roots, s[j], ray_t, u) implies h.t <= u
                && (j < n + k ==> h.t < u) by {
                if j < n {
                    assert(has_root(roots, a[j], ray_t, u));
                } else if u < hl.t {
                    assert(has_root(roots, b[j - n], reach(ray_t, l), u));
                }
            }
            assert(first_least_at(s, ray_t, roots, h, n + k));
            lemma_first_least_intro(s, ray_t, roots, h, n + k);
        },
    }
}

/// Among one object alone, the nearest hit is what the object answers.
pub proof fn lemma_first_least_single(
    p: Primitive,
    ray_t: Interval,
    roots: spec_fn(usize) -> Set<i64>,
    answers: spec_fn(usize, Interval) -> Option<i64>,
)
    requires
        answers_least_roots(answers, roots),
    ensures
        first_least(seq![p], ray_t, roots, hit_on(p.id, answers(p.id, ray_t))),
{
    let s = seq![p];
    let found = answers(p.id, ray_t);
    assert(least_root(roots(p.id), ray_t, found));
    assert(s.len() == 1 && s[0] == p);
    if found is Some {
        let h = Hit { id: p.id, t: found->0 };
        assert(first_least_at(s, ray_t, roots, h, 0)) by {
            assert forall|j: int, u: i64|
                0 <= j < s.len() && #[trigger] has_root(roots, s[j], ray_t, u) implies h.t <= u
                && (j < 0 ==> h.t < u) by {
                assert(roots(p.id).contains(u));
            }
        }
        lemma_first_least_intro(s, ray_t, roots, h, 0);
    } else {
        assert forall|j: int, u: i64| 0 <= j < s.len() implies !#[trigger] has_root(
            roots,
            s[j],
            ray_t,
            u,
        ) by {
            if roots(p.id).contains(u) {
            }
        }
        assert(first_least(s, ray_t, roots, None));
    }
}

/// Where objects answer with their least distances, a scan finds the
/// nearest hit of the list, the first of the list among equals.
pub proof fn lemma_scan_finds_first_least(
    s: Seq<Primitive>,
    ray_t: Interval,
    roots: spec_fn(usize) -> Set<i64>,
    answers: spec_fn(usize, Interval) -> Option<i64>,
)
    requires
        answers_least_roots(answers, roots),
    ensures
        first_least(s, ray_t, roots, scan(s, ray_t, answers)),
    decreases s.len(),
{
    if s.len() > 0 {
        let before = scan(s.drop_last(), ray_t, answers);
        lemma_scan_finds_first_least(s.drop_last(), ray_t, roots, answers);
        lemma_first_least_single(s.last(), reach(ray_t, before), roots, answers);
        lemma_first_least_concat(
            s.drop_last(),
            seq![s.last()],
            ray_t,
            roots,
            before,
            hit_on(s.last().id, answers(s.last().id, reach(ray_t, before))),
        );
        assert(s.drop_last() + seq![s.last()] =~= s);
    }
}

/// Whether a hit is the nearest does not depend on the interval beyond the
/// distances of the objects that lie in it.
pub proof fn lemma_first_least_same_roots(
    s: Seq<Primitive>,
    i1: Interval,
    i2: Interval,
    roots: spec_fn(usize) -> Set<i64>,
    r: Option<Hit>,
)
    requires
        forall|j: int, u: i64|
            0 <= j < s.len() ==> (#[trigger] has_root(roots, s[j], i1, u) <==> has_root(
                roots,
                s[j],
                i2,
                u,
            )),
        first_least(s, i1, roots, r),
    ensures
        first_least(s, i2, roots, r),
{
    match r {
        Some(h) => {
            let k = choose|k: int| first_least_at(s, i1, roots, h, k);
            assert(has_root(roots, s[k], i1, h.t));
            assert forall|j: int, u: i64|
                0 <= j < s.len() && #[trigger] has_root(roots, s[j], i2, u) implies h.t <= u && (j
                < k ==> h.t < u) by {
                assert(has_root(roots, s[j], i1, u));
            }
            assert(first_least_at(s, i2, roots, h, k));
            lemma_first_least_intro(s, i2, roots, h, k);
        },
        None => {
            assert forall|j: int, u: i64| 0 <= j < s.len() implies !#[trigger] has_root(
                roots,
                s[j],
                i2,
                u,
            ) by {
                assert(!has_root(roots, s[j], i1, u));
            }
        },
    }
}

} // verus!
