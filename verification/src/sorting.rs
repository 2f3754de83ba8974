//! Ordering scene objects by their keys along an axis.

use vstd::prelude::*;
use crate::hit_checker::Primitive;

verus! {

/// The keys of `s[start..end]` along `axis` never fall from one object to the
/// next.
pub open spec fn sorted_range(s: Seq<Primitive>, axis: usize, start: int, end: int) -> bool {
    forall|i: int, j: int|
        start <= i < j < end ==> #[trigger] s[i].spec_sort_key(axis) <= #[trigger] s[j].spec_sort_key(
            axis,
        )
}

/// `a` and `b` are of one length and agree everywhere but in `start..end`.
pub open spec fn same_outside(a: Seq<Primitive>, b: Seq<Primitive>, start: int, end: int) -> bool {
    &&& a.len() == b.len()
    &&& forall|i: int| 0 <= i < start || end <= i < a.len() ==> #[trigger] a[i] == b[i]
}

/// `after` is `before` with `start..end` rearranged and nothing else touched.
pub open spec fn rearranged(
    before: Seq<Primitive>,
    after: Seq<Primitive>,
    start: int,
    end: int,
) -> bool {
    &&& same_outside(before, after, start, end)
    &&& after.subrange(start, end).to_multiset() == before.subrange(start, end).to_multiset()
}

/// Whether `from` names the place `place`.
pub open spec fn names(from: Seq<int>, place: int) -> bool {
    exists|k: int| 0 <= k < from.len() && #[trigger] from[k] == place
}

/// `after` holds the objects of `before` in rising order of their keys
/// along `axis`, objects with equal keys standing as they stood in
/// `before`: the object at each place `k` of `after` is the one from place
/// `from[k]` of `before`, and `from` names every place of `before` once.
pub open spec fn stably_sorted(
    before: Seq<Primitive>,
    after: Seq<Primitive>,
    from: Seq<int>,
    axis: usize,
) -> bool {
    &&& from.len() == before.len()
    &&& after.len() == before.len()
    &&& forall|k: int|
        0 <= k < from.len() ==> 0 <= #[trigger] from[k] < before.len() && after[k] == before[from[k]]
    &&& forall|place: int| 0 <= place < before.len() ==> #[trigger] names(from, place)
    &&& forall|i: int, j: int|
        0 <= i < j < from.len() ==> {
            let ki = before[#[trigger] from[i]].spec_sort_key(axis);
            let kj = before[#[trigger] from[j]].spec_sort_key(axis);
            ki < kj || (ki == kj && from[i] < from[j])
        }
}

/// `sorted` with `p` put behind the last object whose key is not above the
/// key of `p`.
pub open spec fn insert_by_key(sorted: Seq<Primitive>, p: Primitive, axis: usize) -> Seq<Primitive>
    decreases sorted.len(),
{
    if sorted.len() == 0 || sorted.last().spec_sort_key(axis) <= p.spec_sort_key(axis) {
        sorted.push(p)
    } else {
        insert_by_key(sorted.drop_last(), p, axis).push(sorted.last())
    }
}

/// The objects of `s` in rising order of their keys along `axis`, objects
/// with equal keys in the order in which `s` holds them.
pub open spec fn sorted_by_key(s: Seq<Primitive>, axis: usize) -> Seq<Primitive>
    decreases s.len(),
{
    if s.len() == 0 {
        s
    } else {
        insert_by_key(sorted_by_key(s.drop_last(), axis), s.last(), axis)
    }
}

/// Orders `objects[start..end]` by the objects' keys along `axis`, with
/// `sort_by_key` of the standard library's slices.
///
/// Claimed of it, as its documentation says: the range is sorted in
/// ascending order of the keys; it holds the objects it held, equal keys
/// keeping their order; nothing outside the range moves.
#[verifier::external_body]
pub(crate) fn sort_range(objects: &mut Vec<Primitive>, start: usize, end: usize, axis: usize)
    requires
        start <= end <= old(objects).len(),
    ensures
        rearranged(old(objects)@, final(objects)@, start as int, end as int),
        sorted_range(final(objects)@, axis, start as int, end as int),
        exists|from: Seq<int>|
            stably_sorted(
                old(objects)@.subrange(start as int, end as int),
                final(objects)@.subrange(start as int, end as int),
                from,
                axis,
            ),
{
    objects[start..end].sort_by_key(|p| p.sort_key(axis));
}

/// Where all objects up to place `q` have keys not above the key of `p`
/// and all objects from `q` on have keys above it, `p` is put at place
/// `q`.
pub proof fn lemma_insert_at(t: Seq<Primitive>, p: Primitive, axis: usize, q: int)
    requires
        0 <= q <= t.len(),
        forall|i: int| 0 <= i < q ==> (#[trigger] t[i]).spec_sort_key(axis) <= p.spec_sort_key(axis),
        forall|j: int|
            q <= j < t.len() ==> (#[trigger] t[j]).spec_sort_key(axis) > p.spec_sort_key(axis),
    ensures
        insert_by_key(t, p, axis) == t.insert(q, p),
    decreases t.len(),
{
    if q == t.len() {
        if t.len() > 0 {
            assert(t[t.len() - 1].spec_sort_key(axis) <= p.spec_sort_key(axis));
        }
        assert(t.push(p) =~= t.insert(q, p));
    } else {
        assert(t[t.len() - 1].spec_sort_key(axis) > p.spec_sort_key(axis));
        let front = t.drop_last();
        assert forall|i: int| 0 <= i < q implies (#[trigger] front[i]).spec_sort_key(axis)
            <= p.spec_sort_key(axis) by {
            assert(front[i] == t[i]);
        }
        assert forall|j: int| q <= j < front.len() implies (#[trigger] front[j]).spec_sort_key(axis)
            > p.spec_sort_key(axis) by {
            assert(front[j] == t[j]);
        }
        lemma_insert_at(front, p, axis, q);
        assert(front.insert(q, p).push(t.last()) =~= t.insert(q, p));
    }
}

/// There is one way only to sort objects by their keys and keep equal keys
/// in order.
pub proof fn lemma_stable_sort_is_sorted_by_key(
    before: Seq<Primitive>,
    after: Seq<Primitive>,
    from: Seq<int>,
    axis: usize,
)
    requires
        stably_sorted(before, after, from, axis),
    ensures
        after == sorted_by_key(before, axis),
    decreases before.len(),
{
    let n = before.len() as int;
    if n == 0 {
        assert(after =~= before);
    } else {
        let last = before[n - 1];
        assert(names(from, n - 1));
        let q = choose|k: int| 0 <= k < from.len() && #[trigger] from[k] == n - 1;
        let front = before.drop_last();
        let rest = after.remove(q);
        let from_rest = from.remove(q);
        // No other place of `after` holds the object from the last place.
        assert forall|k: int| 0 <= k < n && k != q implies #[trigger] from[k] < n - 1 by {
            if k < q {
                assert(from[k] != from[q]);
            } else {
                assert(from[q] != from[k]);
            }
        }
        assert forall|k: int| 0 <= k < from_rest.len() implies 0 <= #[trigger] from_rest[k]
            < front.len() && rest[k] == front[from_rest[k]] by {
            let at = if k < q {
                k
            } else {
                k + 1
            };
            assert(from_rest[k] == from[at]);
            assert(rest[k] == after[at]);
        }
        assert forall|place: int| 0 <= place < front.len() implies #[trigger] names(
            from_rest,
            place,
        ) by {
            assert(names(from, place));
            let at = choose|k: int| 0 <= k < from.len() && #[trigger] from[k] == place;
            let k = if at < q {
                at
            } else {
                at - 1
            };
            assert(from_rest[k] == place);
        }
        assert forall|i: int, j: int| 0 <= i < j < from_rest.len() implies {
            let ki = front[#[trigger] from_rest[i]].spec_sort_key(axis);
            let kj = front[#[trigger] from_rest[j]].spec_sort_key(axis);
            ki < kj || (ki == kj && from_rest[i] < from_rest[j])
        } by {
            let i0 = if i < q {
                i
            } else {
                i + 1
            };
            let j0 = if j < q {
                j
            } else {
                j + 1
            };
            assert(from_rest[i] == from[i0]);
            assert(from_rest[j] == from[j0]);
            assert(front[from[i0]] == before[from[i0]]);
            assert(front[from[j0]] == before[from[j0]]);
        }
        assert(stably_sorted(front, rest, from_rest, axis));
        lemma_stable_sort_is_sorted_by_key(front, rest, from_rest, axis);
        // The object from the last place stands behind all keys not above
        // its own and before all keys above.
        assert forall|i: int| 0 <= i < q implies (#[trigger] rest[i]).spec_sort_key(axis)
            <= last.spec_sort_key(axis) by {
            assert(rest[i] == before[from[i]]);
            assert(last == before[from[q]]);
        }
        assert forall|j: int| q <= j < rest.len() implies (#[trigger] rest[j]).spec_sort_key(axis)
            > last.spec_sort_key(axis) by {
            assert(rest[j] == before[from[j + 1]]);
            assert(last == before[from[q]]);
        }
        lemma_insert_at(rest, last, axis, q);
        assert(rest.insert(q, last) =~= after);
    }
}

} // verus!
