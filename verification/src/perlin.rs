//! The integer lattice behind gradient noise: three shuffled tables that
//! send every lattice point to one of 256 gradient slots.

use vstd::prelude::*;
use crate::random::random_int_range;

verus! {

/// The number of gradient slots, and the length of each table.
pub const POINT_COUNT: usize = 256;

/// The table that sends every number to itself.
pub open spec fn identity_table() -> Seq<i32> {
    Seq::new(256, |i: int| i as i32)
}

/// Whether `p` holds every number from 0 to 255 exactly once.
pub open spec fn is_permutation(p: Seq<i32>) -> bool {
    p.to_multiset() == identity_table().to_multiset()
}

/// Whether `p` has 256 entries, each from 0 to 255.
pub open spec fn in_range(p: Seq<i32>) -> bool {
    &&& p.len() == 256
    &&& forall|i: int| 0 <= i < 256 ==> 0 <= #[trigger] p[i] < 256
}

/// `s` with the entries at `i` and `j` exchanged.
pub open spec fn swapped(s: Seq<i32>, i: int, j: int) -> Seq<i32> {
    s.update(i, s[j]).update(j, s[i])
}

/// The slot of the lattice point `(i, j, k)`: each coordinate picks an entry
/// of its table by its low eight bits, and the three entries are combined
/// bit by bit.
pub open spec fn slot(x: Seq<i32>, y: Seq<i32>, z: Seq<i32>, i: i32, j: i32, k: i32) -> i32 {
    x[(i & 255) as int] ^ y[(j & 255) as int] ^ z[(k & 255) as int]
}

/// Exchanging two entries keeps what a table holds.
pub proof fn lemma_swap_keeps_entries(s: Seq<i32>, i: int, j: int)
    requires
        0 <= i < s.len(),
        0 <= j < s.len(),
    ensures
        swapped(s, i, j).to_multiset() == s.to_multiset(),
{
    broadcast use vstd::multiset::group_multiset_axioms;

    if i == j {
        assert(swapped(s, i, j) =~= s);
    } else {
        let s1 = s.update(i, s[j]);
        vstd::seq_lib::to_multiset_update(s, i, s[j]);
        vstd::seq_lib::to_multiset_update(s1, j, s[i]);
        vstd::seq_lib::to_multiset_contains(s, s[i]);
        vstd::seq_lib::to_multiset_contains(s, s[j]);
        assert(s.contains(s[i]));
        assert(s.contains(s[j]));
        assert(swapped(s, i, j).to_multiset() =~= s.to_multiset());
    }
}

/// A table that holds every number from 0 to 255 once has 256 entries, all
/// in that range.
pub proof fn lemma_permutation_in_range(p: Seq<i32>)
    requires
        is_permutation(p),
    ensures
        in_range(p),
{
    broadcast use vstd::seq_lib::group_to_multiset_ensures;

    let id = identity_table();
    assert(p.to_multiset().len() == id.to_multiset().len());
    assert forall|i: int| 0 <= i < 256 implies 0 <= #[trigger] p[i] < 256 by {
        assert(p.contains(p[i]));
        assert(id.to_multiset().count(p[i]) > 0);
        assert(id.contains(p[i]));
        let k = choose|k: int| 0 <= k < id.len() && id[k] == p[i];
        assert(id[k] == k as i32);
    }
}

fn swap_entries(p: &mut [i32; 256], i: usize, j: usize)
    requires
        i < 256,
        j < 256,
    ensures
        final(p)@ == swapped(old(p)@, i as int, j as int),
{
    let t = p[i];
    p[i] = p[j];
    p[j] = t;
}

/// Whether `targets` names, for every place from 1 to 255, a place up to
/// that one.
pub open spec fn valid_targets(targets: Seq<i32>) -> bool {
    &&& targets.len() == 256
    &&& forall|i: int| 1 <= i < 256 ==> 0 <= #[trigger] targets[i] <= i
}

/// The table `s` after the exchanges for the places `i`, `i - 1`, down to 1,
/// made in that order: the entry at each place changes places with the
/// entry at the place that `targets` names for it.
pub open spec fn shuffle_from(s: Seq<i32>, targets: Seq<i32>, i: int) -> Seq<i32>
    decreases i,
{
    if i < 1 {
        s
    } else {
        shuffle_from(swapped(s, i, targets[i] as int), targets, i - 1)
    }
}

/// Draws the places for a shuffle, for the last place first.
pub fn draw_targets() -> (targets: [i32; 256])
    ensures
        valid_targets(targets@),
{
    let mut targets: [i32; 256] = [0; 256];
    let mut i: usize = POINT_COUNT - 1;
    while i >= 1
        invariant
            i < 256,
            forall|k: int| i < k < 256 ==> 0 <= #[trigger] targets@[k] <= k,
        decreases i,
    {
        targets[i] = random_int_range(0, i as i32);
        i -= 1;
    }
    targets
}

/// Shuffles a table with the places given: from the last place down to the
/// second, each entry changes places with the entry at the place named
/// for it.
pub fn shuffle_with(p: &mut [i32; 256], targets: &[i32; 256])
    requires
        valid_targets(targets@),
    ensures
        final(p)@ == shuffle_from(old(p)@, targets@, 255),
        final(p)@.to_multiset() == old(p)@.to_multiset(),
{
    let mut i: usize = POINT_COUNT - 1;
    while i >= 1
        invariant
            i < 256,
            valid_targets(targets@),
            shuffle_from(p@, targets@, i as int) == shuffle_from(old(p)@, targets@, 255),
            p@.to_multiset() == old(p)@.to_multiset(),
        decreases i,
    {
        let target = targets[i];
        proof {
            lemma_swap_keeps_entries(p@, i as int, target as int);
        }
        swap_entries(p, i, target as usize);
        i -= 1;
    }
}

/// Shuffles a table: from the last place down to the second, each entry
/// changes places with one drawn at random from the places up to its own.
pub fn permute(p: &mut [i32; 256])
    ensures
        final(p)@.to_multiset() == old(p)@.to_multiset(),
        exists|targets: Seq<i32>|
            valid_targets(targets) && final(p)@ == #[trigger] shuffle_from(old(p)@, targets, 255),
{
    let targets = draw_targets();
    shuffle_with(p, &targets);
}

/// A freshly shuffled table of the numbers from 0 to 255.
pub fn generate_perm() -> (p: [i32; 256])
    ensures
        is_permutation(p@),
{
    let mut p: [i32; 256] = [0; 256];
    let mut i: usize = 0;
    while i < POINT_COUNT
        invariant
            i <= 256,
            forall|k: int| 0 <= k < i ==> p@[k] == k,
        decreases 256 - i,
    {
        p[i] = i as i32;
        i += 1;
    }
    assert(p@ =~= identity_table());
    permute(&mut p);
    p
}

/// Whether every entry of the table is a slot number.
pub fn table_in_range(p: &[i32; 256]) -> (r: bool)
    ensures
        r == in_range(p@),
{
    let mut i: usize = 0;
    while i < POINT_COUNT
        invariant
            i <= 256,
            forall|k: int| 0 <= k < i ==> 0 <= #[trigger] p@[k] < 256,
        decreases 256 - i,
    {
        if p[i] < 0 || p[i] >= 256 {
            return false;
        }
        i += 1;
    }
    true
}

/// Three tables, one for each axis.
pub struct PerlinLattice {
    perm_x: [i32; 256],
    perm_y: [i32; 256],
    perm_z: [i32; 256],
}

impl PerlinLattice {
    #[verifier::type_invariant]
    spec fn inv(self) -> bool {
        in_range(self.perm_x@) && in_range(self.perm_y@) && in_range(self.perm_z@)
    }

    /// The table of the x axis.
    pub closed spec fn x(self) -> Seq<i32> {
        self.perm_x@
    }

    /// The table of the y axis.
    pub closed spec fn y(self) -> Seq<i32> {
        self.perm_y@
    }

    /// The table of the z axis.
    pub closed spec fn z(self) -> Seq<i32> {
        self.perm_z@
    }

    /// The slot of the lattice point `(i, j, k)`.
    pub open spec fn spec_slot(self, i: i32, j: i32, k: i32) -> i32 {
        slot(self.x(), self.y(), self.z(), i, j, k)
    }

    /// A lattice with three tables shuffled independently.
    pub fn new() -> (l: PerlinLattice)
        ensures
            is_permutation(l.x()),
            is_permutation(l.y()),
            is_permutation(l.z()),
    {
        let perm_x = generate_perm();
        let perm_y = generate_perm();
        let perm_z = generate_perm();
        proof {
            lemma_permutation_in_range(perm_x@);
            lemma_permutation_in_range(perm_y@);
            lemma_permutation_in_range(perm_z@);
        }
        PerlinLattice { perm_x, perm_y, perm_z }
    }

    /// A lattice with the given tables, which are accepted exactly when
    /// every entry of each is a slot number.
    pub fn from_tables(perm_x: [i32; 256], perm_y: [i32; 256], perm_z: [i32; 256]) -> (l: Option<
        PerlinLattice,
    >)
        ensures
            l is Some <==> in_range(perm_x@) && in_range(perm_y@) && in_range(perm_z@),
            l is Some ==> l->0.x() == perm_x@ && l->0.y() == perm_y@ && l->0.z() == perm_z@,
    {
        if table_in_range(&perm_x) && table_in_range(&perm_y) && table_in_range(&perm_z) {
            Some(PerlinLattice { perm_x, perm_y, perm_z })
        } else {
            None
        }
    }

    /// The slot of the lattice point `(i, j, k)`.
    pub fn slot_of(&self, i: i32, j: i32, k: i32) -> (r: usize)
        ensures
            r == self.spec_slot(i, j, k),
            r < 256,
    {
        proof {
            use_type_invariant(self);
        }
        assert(0 <= (i & 255) < 256) by (bit_vector);
        assert(0 <= (j & 255) < 256) by (bit_vector);
        assert(0 <= (k & 255) < 256) by (bit_vector);
        let a = self.perm_x[(i & 255) as usize];
        let b = self.perm_y[(j & 255) as usize];
        let c = self.perm_z[(k & 255) as usize];
        assert(0 <= (a ^ b ^ c) < 256) by (bit_vector)
            requires
                0 <= a < 256,
                0 <= b < 256,
                0 <= c < 256,
        ;
        (a ^ b ^ c) as usize
    }

    /// The slots of the eight corners of the lattice cell whose lowest
    /// corner is `(i, j, k)`. The corner that lies `di`, `dj` and `dk` steps
    /// along x, y and z stands at place `4 * di + 2 * dj + dk`.
    pub fn corner_slots(&self, i: i32, j: i32, k: i32) -> (r: [usize; 8])
        requires
            i < i32::MAX,
            j < i32::MAX,
            k < i32::MAX,
        ensures
            forall|di: int, dj: int, dk: int|
                0 <= di < 2 && 0 <= dj < 2 && 0 <= dk < 2 ==> #[trigger] r@[4 * di + 2 * dj + dk]
                    == self.spec_slot((i + di) as i32, (j + dj) as i32, (k + dk) as i32),
            forall|n: int| 0 <= n < 8 ==> #[trigger] r@[n] < 256,
    {
        let r = [
            self.slot_of(i, j, k),
            self.slot_of(i, j, k + 1),
            self.slot_of(i, j + 1, k),
            self.slot_of(i, j + 1, k + 1),
            self.slot_of(i + 1, j, k),
            self.slot_of(i + 1, j, k + 1),
            self.slot_of(i + 1, j + 1, k),
            self.slot_of(i + 1, j + 1, k + 1),
        ];
        r
    }
}

} // verus!
