use vstd::prelude::*;

use crate::problem::{Cottages, Reservations};

verus! {

/// Classification of one (reservation, cottage) pair: how acceptable it is to
/// serve the reservation with the cottage. The three values are totally
/// ordered, `Free < Upgrade < Impossible`, and independent penalty sources are
/// combined by taking the worst (maximum) classification.
#[derive(Debug, Clone, Copy, PartialEq, Eq, Structural)]
pub enum Penalty {
    Free,
    Upgrade,
    Impossible,
}

impl Penalty {
    /// Position of the variant in the order `Free < Upgrade < Impossible`.
    pub open spec fn rank(self) -> int {
        match self {
            Penalty::Free => 0,
            Penalty::Upgrade => 1,
            Penalty::Impossible => 2,
        }
    }

    /// The worse (larger-rank) of two classifications.
    pub open spec fn spec_worst(self, other: Penalty) -> Penalty {
        if self.rank() >= other.rank() {
            self
        } else {
            other
        }
    }

    pub fn severity(self) -> (r: u8)
        ensures
            r as int == self.rank(),
    {
        match self {
            Penalty::Free => 0,
            Penalty::Upgrade => 1,
            Penalty::Impossible => 2,
        }
    }

    /// Combine two independent penalty sources by taking the maximum.
    pub fn worst(self, other: Penalty) -> (r: Penalty)
        ensures
            r == self.spec_worst(other),
    {
        if self.severity() >= other.severity() {
            self
        } else {
            other
        }
    }
}

/// Fixed-point scale for the per-reservation priority score: a score of
/// `PRIORITY_SCALE` stands for the real value 1.
pub const PRIORITY_SCALE: u64 = 1000000;

/// The precomputed feasibility classification: a dense reservation-major
/// matrix of `Penalty`, the per-reservation candidate cottages, which
/// reservations may still be moved, and a fixed-point priority score telling
/// how contested each reservation's candidates are.
#[derive(Debug, Clone)]
pub struct AllocationPenalty {
    pub allocation_penalty: Vec<Penalty>,
    pub reallocatable: Vec<bool>,
    pub reallocatable_reservations: Vec<usize>,
    pub possible_targets: Vec<Vec<usize>>,
    pub priority: Vec<u64>,
    pub cottages: usize,
    pub reservations: usize,
}

/// The penalty order is total and consistent: the three variants are ranked
/// `Free < Upgrade < Impossible`, equal ranks mean equal variants, and the
/// combination `spec_worst` always yields the maximum of its two arguments
/// and never anything else.
pub proof fn lemma_penalty_order()
    ensures
        Penalty::Free.rank() < Penalty::Upgrade.rank() < Penalty::Impossible.rank(),
        forall|a: Penalty, b: Penalty| a.rank() <= b.rank() || b.rank() <= a.rank(),
        forall|a: Penalty, b: Penalty| a.rank() == b.rank() ==> a == b,
        forall|a: Penalty, b: Penalty| #[trigger] a.spec_worst(b) == b.spec_worst(a),
        forall|a: Penalty, b: Penalty| (#[trigger] a.spec_worst(b)) == a || a.spec_worst(b) == b,
        forall|a: Penalty, b: Penalty| (#[trigger] a.spec_worst(b)).rank() >= a.rank()
            && a.spec_worst(b).rank() >= b.rank(),
{
}


impl AllocationPenalty {
    /// Shape of the derived tables: the matrix is reservation-major with one
    /// cell per (reservation, cottage) pair, and each per-reservation table
    /// has one entry per reservation.
    pub open spec fn dims_ok(self) -> bool {
        &&& self.reservations * self.cottages <= usize::MAX
        &&& self.allocation_penalty@.len() == self.reservations * self.cottages
        &&& self.reallocatable@.len() == self.reservations
        &&& self.possible_targets@.len() == self.reservations
        &&& self.priority@.len() == self.reservations
    }

    /// The matrix cell of one (reservation, cottage) pair.
    pub open spec fn spec_get(self, cottage: int, reservation: int) -> Penalty {
        self.allocation_penalty@[reservation * self.cottages + cottage]
    }

    /// One reservation's row of the penalty matrix.
    pub fn get_penalty_arr(&self, reservation: usize) -> (r: &[Penalty])
        requires
            self.dims_ok(),
            reservation < self.reservations,
        ensures
            r@.len() == self.cottages,
            forall|c: int| 0 <= c < self.cottages ==> r@[c] == self.spec_get(c, reservation as int),
    {
        proof {
            crate::solution::lemma_row_bounds(
                reservation as int,
                self.reservations as int,
                self.cottages as int,
            );
        }
        let base: usize = reservation * self.cottages;
        vstd::slice::slice_subrange(self.allocation_penalty.as_slice(), base, base + self.cottages)
    }

    /// The penalty of serving `reservation` with `cottage`.
    pub fn get(&self, cottage: usize, reservation: usize) -> (r: Penalty)
        requires
            self.dims_ok(),
            reservation < self.reservations,
            cottage < self.cottages,
        ensures
            r == self.spec_get(cottage as int, reservation as int),
    {
        proof {
            crate::solution::lemma_row_bounds(
                reservation as int,
                self.reservations as int,
                self.cottages as int,
            );
        }
        self.allocation_penalty[reservation * self.cottages + cottage]
    }

    /// The candidate cottages of one reservation, in ascending order.
    pub fn possible_targets(&self, reservation: usize) -> (r: &Vec<usize>)
        requires
            self.dims_ok(),
            reservation < self.reservations,
        ensures
            r@ == self.possible_targets@[reservation as int]@,
    {
        &self.possible_targets[reservation]
    }
}


/// State of the constraint propagation: the penalty matrix
/// (reservation-major) and the per-reservation reallocatable flags.
#[verifier::ext_equal]
pub ghost struct PropState {
    pub m: Seq<Penalty>,
    pub realloc: Seq<bool>,
}

/// Day intervals of reservations `i` and `j` intersect (`i != j`).
pub open spec fn res_overlap(arr: Seq<usize>, dep: Seq<usize>, i: int, j: int) -> bool {
    i != j && arr[i] < dep[j] && arr[j] < dep[i]
}

/// The forced-cottage source: a reservation with a fixed cottage is `Free`
/// there and `Impossible` everywhere else.
pub open spec fn base_forced(reservations: Reservations, r: int, c: int) -> Penalty {
    match reservations.cottage_number@[r] {
        Some(f) => if c == f {
            Penalty::Free
        } else {
            Penalty::Impossible
        },
        None => Penalty::Free,
    }
}

/// The amenity source: feasible iff every amenity the reservation requires
/// is present on the cottage.
pub open spec fn base_amenity(cottages: Cottages, reservations: Reservations, r: int, c: int) -> Penalty {
    if forall|j: int| 0 <= j < 10 ==> (reservations.preference@[r][j] ==> cottages.preference@[c][j]) {
        Penalty::Free
    } else {
        Penalty::Impossible
    }
}

/// The quality-class source: an equal class is `Free`, a better cottage an
/// `Upgrade`, a worse one `Impossible`.
pub open spec fn base_class(cottages: Cottages, reservations: Reservations, r: int, c: int) -> Penalty {
    if reservations.class@[r] < cottages.class@[c] {
        Penalty::Upgrade
    } else if reservations.class@[r] == cottages.class@[c] {
        Penalty::Free
    } else {
        Penalty::Impossible
    }
}

/// The size source: an equal capacity is `Free`, a larger cottage an
/// `Upgrade`, a smaller one `Impossible`.
pub open spec fn base_size(cottages: Cottages, reservations: Reservations, r: int, c: int) -> Penalty {
    if reservations.people@[r] < cottages.capacity@[c] {
        Penalty::Upgrade
    } else if reservations.people@[r] == cottages.capacity@[c] {
        Penalty::Free
    } else {
        Penalty::Impossible
    }
}

/// One matrix cell before propagation: the worst classification over the
/// four independent sources.
pub open spec fn base_cell(cottages: Cottages, reservations: Reservations, r: int, c: int) -> Penalty {
    base_forced(reservations, r, c).spec_worst(base_amenity(cottages, reservations, r, c))
        .spec_worst(base_class(cottages, reservations, r, c)).spec_worst(
        base_size(cottages, reservations, r, c),
    )
}

/// The whole matrix before propagation.
pub open spec fn base_matrix(cottages: Cottages, reservations: Reservations) -> Seq<Penalty> {
    Seq::new(
        (reservations.spec_reservations() * cottages.spec_cottages()) as nat,
        |k: int| base_cell(
            cottages,
            reservations,
            k / cottages.spec_cottages(),
            k % cottages.spec_cottages(),
        ),
    )
}

/// Number of non-`Impossible` cells among the first `upto` of row `r`.
pub open spec fn row_possible_count(m: Seq<Penalty>, cc: int, r: int, upto: int) -> int
    decreases upto,
{
    if upto <= 0 {
        0
    } else {
        row_possible_count(m, cc, r, upto - 1) + (if m[r * cc + (upto - 1)] != Penalty::Impossible {
            1int
        } else {
            0int
        })
    }
}

/// Index of the last non-`Impossible` cell among the first `upto` of row
/// `r` (0 when there is none).
pub open spec fn row_last_possible(m: Seq<Penalty>, cc: int, r: int, upto: int) -> int
    decreases upto,
{
    if upto <= 0 {
        0
    } else if m[r * cc + (upto - 1)] != Penalty::Impossible {
        upto - 1
    } else {
        row_last_possible(m, cc, r, upto - 1)
    }
}

/// Force `Impossible` at cottage `cn` for every reservation overlapping `r`.
pub open spec fn flip_row(
    m: Seq<Penalty>,
    cc: int,
    arr: Seq<usize>,
    dep: Seq<usize>,
    r: int,
    cn: int,
) -> Seq<Penalty> {
    Seq::new(
        m.len(),
        |k: int| if k % cc == cn && k / cc != r && res_overlap(arr, dep, k / cc, r) {
            Penalty::Impossible
        } else {
            m[k]
        },
    )
}

/// One propagation pass over rows `r` and up: every row with exactly one
/// remaining candidate is marked non-reallocatable and its candidate is
/// closed for all overlapping reservations, in row order, later rows seeing
/// the effect of earlier flips.
pub open spec fn pass_from(
    st: PropState,
    cc: int,
    arr: Seq<usize>,
    dep: Seq<usize>,
    r: int,
) -> PropState
    decreases st.realloc.len() - r,
{
    if r < 0 || r >= st.realloc.len() {
        st
    } else if row_possible_count(st.m, cc, r, cc) == 1 {
        let cn = row_last_possible(st.m, cc, r, cc);
        let st2 = PropState {
            m: flip_row(st.m, cc, arr, dep, r, cn),
            realloc: st.realloc.update(r, false),
        };
        pass_from(st2, cc, arr, dep, r + 1)
    } else {
        pass_from(st, cc, arr, dep, r + 1)
    }
}

/// Number of non-`Impossible` cells among the first `upto` of the matrix.
pub open spec fn count_possible(m: Seq<Penalty>, upto: int) -> int
    decreases upto,
{
    if upto <= 0 {
        0
    } else {
        count_possible(m, upto - 1) + (if m[upto - 1] != Penalty::Impossible {
            1int
        } else {
            0int
        })
    }
}

/// Number of `true` flags among the first `upto`.
pub open spec fn count_true(s: Seq<bool>, upto: int) -> int
    decreases upto,
{
    if upto <= 0 {
        0
    } else {
        count_true(s, upto - 1) + (if s[upto - 1] {
            1int
        } else {
            0int
        })
    }
}

/// `m2` arises from `m1` by flipping some cells to `Impossible`.
pub open spec fn only_flips(m1: Seq<Penalty>, m2: Seq<Penalty>) -> bool {
    &&& m1.len() == m2.len()
    &&& forall|k: int|
        0 <= k < m1.len() ==> ((#[trigger] m2[k]) == m1[k] || (m1[k] != Penalty::Impossible
            && m2[k] == Penalty::Impossible))
}

/// `s2` arises from `s1` by clearing some flags.
pub open spec fn only_clears(s1: Seq<bool>, s2: Seq<bool>) -> bool {
    &&& s1.len() == s2.len()
    &&& forall|k: int| 0 <= k < s1.len() ==> ((#[trigger] s2[k]) == s1[k] || !s2[k])
}

pub proof fn lemma_count_possible_nonneg(m: Seq<Penalty>, upto: int)
    ensures
        0 <= count_possible(m, upto),
        count_possible(m, upto) <= (if upto >= 0 { upto } else { 0 }),
    decreases upto,
{
    if upto > 0 {
        lemma_count_possible_nonneg(m, upto - 1);
    }
}

pub proof fn lemma_count_true_nonneg(s: Seq<bool>, upto: int)
    ensures
        0 <= count_true(s, upto),
        count_true(s, upto) <= (if upto >= 0 { upto } else { 0 }),
    decreases upto,
{
    if upto > 0 {
        lemma_count_true_nonneg(s, upto - 1);
    }
}

pub proof fn lemma_count_possible_congr(m1: Seq<Penalty>, m2: Seq<Penalty>, upto: int)
    requires
        forall|k: int| 0 <= k < upto ==> m1[k] == m2[k],
    ensures
        count_possible(m1, upto) == count_possible(m2, upto),
    decreases upto,
{
    if upto > 0 {
        lemma_count_possible_congr(m1, m2, upto - 1);
    }
}

pub proof fn lemma_count_possible_mono(m1: Seq<Penalty>, m2: Seq<Penalty>, upto: int)
    requires
        only_flips(m1, m2),
        0 <= upto <= m1.len(),
    ensures
        count_possible(m2, upto) <= count_possible(m1, upto),
        m1.subrange(0, upto) != m2.subrange(0, upto) ==> count_possible(m2, upto) < count_possible(
            m1,
            upto,
        ),
    decreases upto,
{
    if upto == 0 {
        assert(m1.subrange(0, 0) =~= m2.subrange(0, 0));
    } else {
        lemma_count_possible_mono(m1, m2, upto - 1);
        assert(m2[upto - 1] == m1[upto - 1] || (m1[upto - 1] != Penalty::Impossible && m2[upto
            - 1] == Penalty::Impossible));
        if m1.subrange(0, upto) != m2.subrange(0, upto) {
            if m1.subrange(0, upto - 1) =~= m2.subrange(0, upto - 1) {
                assert forall|k: int| 0 <= k < upto - 1 implies m1[k] == m2[k] by {
                    assert(m1.subrange(0, upto - 1)[k] == m2.subrange(0, upto - 1)[k]);
                }
                lemma_count_possible_congr(m1, m2, upto - 1);
                if m1[upto - 1] == m2[upto - 1] {
                    assert(m1.subrange(0, upto) =~= m2.subrange(0, upto));
                    assert(false);
                }
                assert(m1[upto - 1] != Penalty::Impossible && m2[upto - 1]
                    == Penalty::Impossible);
                assert(count_possible(m1, upto) == count_possible(m1, upto - 1) + 1);
                assert(count_possible(m2, upto) == count_possible(m2, upto - 1));
            } else {
                assert(m1.subrange(0, upto - 1) != m2.subrange(0, upto - 1));
            }
        }
    }
}

pub proof fn lemma_count_true_congr(s1: Seq<bool>, s2: Seq<bool>, upto: int)
    requires
        forall|k: int| 0 <= k < upto ==> s1[k] == s2[k],
    ensures
        count_true(s1, upto) == count_true(s2, upto),
    decreases upto,
{
    if upto > 0 {
        lemma_count_true_congr(s1, s2, upto - 1);
    }
}

pub proof fn lemma_count_true_mono(s1: Seq<bool>, s2: Seq<bool>, upto: int)
    requires
        only_clears(s1, s2),
        0 <= upto <= s1.len(),
    ensures
        count_true(s2, upto) <= count_true(s1, upto),
        s1.subrange(0, upto) != s2.subrange(0, upto) ==> count_true(s2, upto) < count_true(
            s1,
            upto,
        ),
    decreases upto,
{
    if upto == 0 {
        assert(s1.subrange(0, 0) =~= s2.subrange(0, 0));
    } else {
        lemma_count_true_mono(s1, s2, upto - 1);
        assert(s2[upto - 1] == s1[upto - 1] || !s2[upto - 1]);
        if s1.subrange(0, upto) != s2.subrange(0, upto) {
            if s1.subrange(0, upto - 1) =~= s2.subrange(0, upto - 1) {
                assert forall|k: int| 0 <= k < upto - 1 implies s1[k] == s2[k] by {
                    assert(s1.subrange(0, upto - 1)[k] == s2.subrange(0, upto - 1)[k]);
                }
                lemma_count_true_congr(s1, s2, upto - 1);
                if s1[upto - 1] == s2[upto - 1] {
                    assert(s1.subrange(0, upto) =~= s2.subrange(0, upto));
                    assert(false);
                }
                assert(s1[upto - 1] && !s2[upto - 1]);
                assert(count_true(s1, upto) == count_true(s1, upto - 1) + 1);
                assert(count_true(s2, upto) == count_true(s2, upto - 1));
            } else {
                assert(s1.subrange(0, upto - 1) != s2.subrange(0, upto - 1));
            }
        }
    }
}

/// A pass never lengthens the tables, only flips cells to `Impossible` and
/// clears flags.
pub proof fn lemma_pass_only_flips(st: PropState, cc: int, arr: Seq<usize>, dep: Seq<usize>, r: int)
    ensures
        only_flips(st.m, pass_from(st, cc, arr, dep, r).m),
        only_clears(st.realloc, pass_from(st, cc, arr, dep, r).realloc),
    decreases st.realloc.len() - r,
{
    if 0 <= r < st.realloc.len() {
        if row_possible_count(st.m, cc, r, cc) == 1 {
            let cn = row_last_possible(st.m, cc, r, cc);
            let st2 = PropState {
                m: flip_row(st.m, cc, arr, dep, r, cn),
                realloc: st.realloc.update(r, false),
            };
            lemma_pass_only_flips(st2, cc, arr, dep, r + 1);
        } else {
            lemma_pass_only_flips(st, cc, arr, dep, r + 1);
        }
    }
}

/// The propagation fixed point: repeat passes until nothing changes.
pub open spec fn propagate(st: PropState, cc: int, arr: Seq<usize>, dep: Seq<usize>) -> PropState
    decreases count_possible(st.m, st.m.len() as int), count_true(st.realloc, st.realloc.len() as int),
    via propagate_decreases
{
    let st2 = pass_from(st, cc, arr, dep, 0);
    if st2 == st {
        st
    } else {
        propagate(st2, cc, arr, dep)
    }
}

#[via_fn]
proof fn propagate_decreases(st: PropState, cc: int, arr: Seq<usize>, dep: Seq<usize>) {
    let st2 = pass_from(st, cc, arr, dep, 0);
    if st2 != st {
        lemma_pass_only_flips(st, cc, arr, dep, 0);
        lemma_count_possible_mono(st.m, st2.m, st.m.len() as int);
        lemma_count_true_mono(st.realloc, st2.realloc, st.realloc.len() as int);
        assert(st.m.subrange(0, st.m.len() as int) =~= st.m);
        assert(st2.m.subrange(0, st2.m.len() as int) =~= st2.m);
        assert(st.realloc.subrange(0, st.realloc.len() as int) =~= st.realloc);
        assert(st2.realloc.subrange(0, st2.realloc.len() as int) =~= st2.realloc);
        if st.m == st2.m && st.realloc == st2.realloc {
            assert(st2 =~= st);
        }
        lemma_count_possible_nonneg(st2.m, st2.m.len() as int);
        lemma_count_true_nonneg(st2.realloc, st2.realloc.len() as int);
    }
}


/// Decomposition of a reservation-major matrix index.
pub proof fn lemma_cell_index(rr: int, cc: int, r: int, c: int)
    requires
        0 <= r < rr,
        0 <= c < cc,
    ensures
        0 <= r * cc + c < rr * cc,
        (r * cc + c) / cc == r,
        (r * cc + c) % cc == c,
{
    crate::solution::lemma_row_bounds(r, rr, cc);
    vstd::arithmetic::div_mod::lemma_fundamental_div_mod_converse(r * cc + c, cc, r, c);
}

/// Flipping one non-`Impossible` cell lowers the possible-cell count by one
/// exactly when the cell lies below `upto`.
pub proof fn lemma_count_possible_update(m: Seq<Penalty>, k: int, upto: int)
    requires
        0 <= k < m.len(),
        0 <= upto <= m.len(),
        m[k] != Penalty::Impossible,
    ensures
        count_possible(m.update(k, Penalty::Impossible), upto) == count_possible(m, upto) - (if k
            < upto {
            1int
        } else {
            0int
        }),
    decreases upto,
{
    if upto > 0 {
        lemma_count_possible_update(m, k, upto - 1);
    }
}

/// Clearing one set flag lowers the set-flag count by one exactly when the
/// flag lies below `upto`.
pub proof fn lemma_count_true_update(s: Seq<bool>, k: int, upto: int)
    requires
        0 <= k < s.len(),
        0 <= upto <= s.len(),
        s[k],
    ensures
        count_true(s.update(k, false), upto) == count_true(s, upto) - (if k < upto {
            1int
        } else {
            0int
        }),
    decreases upto,
{
    if upto > 0 {
        lemma_count_true_update(s, k, upto - 1);
    }
}

impl Reservations {
    /// One matrix cell's forced-cottage source.
    fn penalty_forced(&self, r: usize, c: usize) -> (p: Penalty)
        requires
            r < self.cottage_number@.len(),
        ensures
            p == base_forced(*self, r as int, c as int),
    {
        match self.cottage_number[r] {
            Some(f) => if c == f {
                Penalty::Free
            } else {
                Penalty::Impossible
            },
            None => Penalty::Free,
        }
    }
}

/// One matrix cell's amenity source: feasible iff every amenity the
/// reservation requires is present on the cottage.
fn penalty_amenity(cottages: &Cottages, reservations: &Reservations, r: usize, c: usize) -> (p:
    Penalty)
    requires
        r < reservations.preference@.len(),
        c < cottages.preference@.len(),
    ensures
        p == base_amenity(*cottages, *reservations, r as int, c as int),
{
    let rp: [bool; 10] = reservations.preference[r];
    let cp: [bool; 10] = cottages.preference[c];
    let mut j: usize = 0;
    while j < 10
        invariant
            j <= 10,
            rp == reservations.preference@[r as int],
            cp == cottages.preference@[c as int],
            forall|i: int| 0 <= i < j ==> (rp[i] ==> cp[i]),
        decreases 10 - j,
    {
        if rp[j] && !cp[j] {
            assert(!(rp[j as int] ==> cp[j as int]));
            return Penalty::Impossible;
        }
        j += 1;
    }
    Penalty::Free
}

/// One matrix cell's quality-class source.
fn penalty_class(cottages: &Cottages, reservations: &Reservations, r: usize, c: usize) -> (p:
    Penalty)
    requires
        r < reservations.class@.len(),
        c < cottages.class@.len(),
    ensures
        p == base_class(*cottages, *reservations, r as int, c as int),
{
    if reservations.class[r] < cottages.class[c] {
        Penalty::Upgrade
    } else if reservations.class[r] == cottages.class[c] {
        Penalty::Free
    } else {
        Penalty::Impossible
    }
}

/// One matrix cell's size source.
fn penalty_size(cottages: &Cottages, reservations: &Reservations, r: usize, c: usize) -> (p:
    Penalty)
    requires
        r < reservations.people@.len(),
        c < cottages.capacity@.len(),
    ensures
        p == base_size(*cottages, *reservations, r as int, c as int),
{
    if reservations.people[r] < cottages.capacity[c] {
        Penalty::Upgrade
    } else if reservations.people[r] == cottages.capacity[c] {
        Penalty::Free
    } else {
        Penalty::Impossible
    }
}

/// Whether `v` holds the value `x`.
fn contains_val(v: &Vec<usize>, x: usize) -> (r: bool)
    ensures
        r == v@.contains(x),
{
    let n: usize = v.len();
    let mut i: usize = 0;
    while i < n
        invariant
            i <= n,
            n == v@.len(),
            forall|k: int| 0 <= k < i ==> v@[k] != x,
        decreases n - i,
    {
        if v[i] == x {
            return true;
        }
        i += 1;
    }
    proof {
        if v@.contains(x) {
            let k = choose|k: int| 0 <= k < v@.len() && v@[k] == x;
            assert(v@[k] != x);
        }
    }
    false
}


/// Number of elements among the first `upto` of `a` that `b` also holds.
pub open spec fn inter_count(a: Seq<usize>, b: Seq<usize>, upto: int) -> int
    decreases upto,
{
    if upto <= 0 {
        0
    } else {
        inter_count(a, b, upto - 1) + (if b.contains(a[upto - 1]) {
            1int
        } else {
            0int
        })
    }
}

/// Summed shared-candidate counts of reservation `r` against the
/// reservations below `upto` that overlap it and share at least one
/// candidate.
pub open spec fn prio_num(
    pt: Seq<Vec<usize>>,
    arr: Seq<usize>,
    dep: Seq<usize>,
    r: int,
    upto: int,
) -> int
    decreases upto,
{
    if upto <= 0 {
        0
    } else {
        prio_num(pt, arr, dep, r, upto - 1) + (if res_overlap(arr, dep, upto - 1, r)
            && inter_count(pt[r]@, pt[upto - 1]@, pt[r]@.len() as int) != 0 {
            inter_count(pt[r]@, pt[upto - 1]@, pt[r]@.len() as int)
        } else {
            0int
        })
    }
}

/// Number of reservations below `upto` that overlap `r` and share at least
/// one candidate with it.
pub open spec fn prio_cnt(
    pt: Seq<Vec<usize>>,
    arr: Seq<usize>,
    dep: Seq<usize>,
    r: int,
    upto: int,
) -> int
    decreases upto,
{
    if upto <= 0 {
        0
    } else {
        prio_cnt(pt, arr, dep, r, upto - 1) + (if res_overlap(arr, dep, upto - 1, r)
            && inter_count(pt[r]@, pt[upto - 1]@, pt[r]@.len() as int) != 0 {
            1int
        } else {
            0int
        })
    }
}

/// The fixed-point priority score of reservation `r`: the average, over all
/// overlapping reservations sharing at least one candidate, of the fraction
/// of `r`'s candidates they also claim, scaled by `PRIORITY_SCALE` and
/// rounded down.
pub open spec fn spec_priority(
    pt: Seq<Vec<usize>>,
    arr: Seq<usize>,
    dep: Seq<usize>,
    r: int,
    rr: int,
) -> int {
    let num = prio_num(pt, arr, dep, r, rr);
    let cnt = prio_cnt(pt, arr, dep, r, rr);
    if cnt == 0 {
        0
    } else {
        (num * (PRIORITY_SCALE as int)) / (pt[r]@.len() * cnt)
    }
}

pub proof fn lemma_inter_count_bounds(a: Seq<usize>, b: Seq<usize>, upto: int)
    requires
        upto >= 0,
    ensures
        0 <= inter_count(a, b, upto) <= upto,
    decreases upto,
{
    if upto > 0 {
        lemma_inter_count_bounds(a, b, upto - 1);
    }
}

pub proof fn lemma_prio_bounds(
    pt: Seq<Vec<usize>>,
    arr: Seq<usize>,
    dep: Seq<usize>,
    r: int,
    upto: int,
)
    requires
        upto >= 0,
    ensures
        0 <= prio_cnt(pt, arr, dep, r, upto) <= upto,
        0 <= prio_num(pt, arr, dep, r, upto) <= pt[r]@.len() * prio_cnt(pt, arr, dep, r, upto),
    decreases upto,
{
    if upto > 0 {
        lemma_prio_bounds(pt, arr, dep, r, upto - 1);
        let len = pt[r]@.len() as int;
        let cnt0 = prio_cnt(pt, arr, dep, r, upto - 1);
        lemma_inter_count_bounds(pt[r]@, pt[upto - 1]@, len);
        if res_overlap(arr, dep, upto - 1, r) && inter_count(pt[r]@, pt[upto - 1]@, len) != 0 {
            assert(len * (cnt0 + 1) == len * cnt0 + len) by (nonlinear_arith);
        }
        assert(len * cnt0 >= 0) by (nonlinear_arith)
            requires
                len >= 0,
                cnt0 >= 0,
        {
        }
    }
}

/// No candidate list means no shared candidates with anyone.
pub proof fn lemma_prio_cnt_needs_targets(
    pt: Seq<Vec<usize>>,
    arr: Seq<usize>,
    dep: Seq<usize>,
    r: int,
    upto: int,
)
    requires
        upto >= 0,
        pt[r]@.len() == 0,
    ensures
        prio_cnt(pt, arr, dep, r, upto) == 0,
    decreases upto,
{
    if upto > 0 {
        lemma_prio_cnt_needs_targets(pt, arr, dep, r, upto - 1);
    }
}

/// A strictly ascending sequence of indices.
pub open spec fn strictly_ascending(s: Seq<usize>) -> bool {
    forall|j1: int, j2: int| 0 <= j1 < j2 < s.len() ==> s[j1] < s[j2]
}

/// The matrix and flags after constraint propagation, starting from the
/// base matrix with every reservation reallocatable.
pub open spec fn final_state(cottages: Cottages, reservations: Reservations) -> PropState {
    propagate(
        PropState {
            m: base_matrix(cottages, reservations),
            realloc: Seq::new(reservations.spec_reservations() as nat, |i: int| true),
        },
        cottages.spec_cottages(),
        reservations.arrival@,
        reservations.departure@,
    )
}

/// Everything `calculate` promises about the penalty tables it builds: the
/// matrix and the reallocatable flags are exactly the propagation fixed
/// point over the base matrix; the candidate lists hold exactly the open
/// cottages of each reservation, ascending; the reduced reservation list
/// holds exactly the reallocatable reservations, ascending; and each
/// priority score is the exact scaled shared-candidate average.
pub open spec fn ap_valid(ap: AllocationPenalty, cottages: Cottages, reservations: Reservations) -> bool {
    &&& ap.cottages == cottages.spec_cottages()
    &&& ap.reservations == reservations.spec_reservations()
    &&& ap.dims_ok()
    &&& ap.allocation_penalty@ == final_state(cottages, reservations).m
    &&& ap.reallocatable@ == final_state(cottages, reservations).realloc
    &&& forall|i: int|
        0 <= i < ap.reservations ==> strictly_ascending(#[trigger] ap.possible_targets@[i]@)
    &&& forall|i: int, c: usize|
        0 <= i < ap.reservations ==> ((#[trigger] ap.possible_targets@[i]@.contains(c)) <==> (c
            < ap.cottages && ap.spec_get(c as int, i) != Penalty::Impossible))
    &&& strictly_ascending(ap.reallocatable_reservations@)
    &&& forall|i: usize| #[trigger]
        ap.reallocatable_reservations@.contains(i) <==> (i < ap.reservations
            && ap.reallocatable@[i as int])
    &&& forall|i: int|
        0 <= i < ap.reservations ==> (#[trigger] ap.priority@[i]) == spec_priority(
            ap.possible_targets@,
            reservations.arrival@,
            reservations.departure@,
            i,
            ap.reservations as int,
        )
    &&& forall|i: int| 0 <= i < ap.reservations ==> (#[trigger] ap.priority@[i]) <= PRIORITY_SCALE
}


/// Coordinates of a flat matrix index.
pub proof fn lemma_flat_coords(k: int, rr: int, cc: int)
    requires
        0 <= k < rr * cc,
        cc > 0,
    ensures
        0 <= k / cc < rr,
        0 <= k % cc < cc,
        k == (k / cc) * cc + k % cc,
{
    vstd::arithmetic::div_mod::lemma_fundamental_div_mod(k, cc);
    vstd::arithmetic::div_mod::lemma_mod_bound(k, cc);
    assert(cc * (k / cc) == (k / cc) * cc) by (nonlinear_arith);
    let q = k / cc;
    let rm = k % cc;
    if q < 0 {
        assert(q * cc + rm < 0) by (nonlinear_arith)
            requires
                q <= -1,
                0 <= rm < cc,
        {
        }
    }
    if q >= rr {
        assert(q * cc + rm >= rr * cc) by (nonlinear_arith)
            requires
                q >= rr,
                0 <= rm,
                cc > 0,
        {
        }
    }
}

impl AllocationPenalty {
    /// Build the full penalty structure from the two tables: classify every
    /// (reservation, cottage) pair by the worst of the four sources,
    /// propagate single-candidate knowledge to a fixed point, derive the
    /// candidate lists and the reallocatable reservations, and score each
    /// reservation's priority.
    #[verifier::loop_isolation(false)]
    #[verifier::rlimit(100)]
    pub fn calculate(cottages: &Cottages, reservations: &Reservations) -> (out: AllocationPenalty)
        requires
            cottages.wf(),
            reservations.len_ok(),
            reservations.spec_reservations() * cottages.spec_cottages()
                <= crate::solution::MAX_CELLS,
        ensures
            ap_valid(out, *cottages, *reservations),
    {
        let rr: usize = reservations.reservations();
        let cc: usize = cottages.cottages();
        let cells: usize = rr * cc;
        let ghost arr = reservations.arrival@;
        let ghost dep = reservations.departure@;

        // The base matrix: the worst of the four sources, cell by cell.
        let mut matrix: Vec<Penalty> = Vec::new();
        let mut r: usize = 0;
        while r < rr
            invariant
                r <= rr,
                matrix@.len() == r * cc,
                forall|k: int|
                    0 <= k < matrix@.len() ==> matrix@[k]
                        == base_matrix(*cottages, *reservations)[k],
            decreases rr - r,
        {
            let mut c: usize = 0;
            proof {
                crate::solution::lemma_row_bounds(r as int, rr as int, cc as int);
            }
            while c < cc
                invariant
                    c <= cc,
                    r < rr,
                    matrix@.len() == r * cc + c,
                    forall|k: int|
                        0 <= k < matrix@.len() ==> matrix@[k] == base_matrix(
                            *cottages,
                            *reservations,
                        )[k],
                decreases cc - c,
            {
                let cell = reservations.penalty_forced(r, c).worst(
                    penalty_amenity(cottages, reservations, r, c),
                ).worst(penalty_class(cottages, reservations, r, c)).worst(
                    penalty_size(cottages, reservations, r, c),
                );
                matrix.push(cell);
                proof {
                    lemma_cell_index(rr as int, cc as int, r as int, c as int);
                    assert(matrix@[r * cc + c] == base_matrix(*cottages, *reservations)[r * cc
                        + c]);
                }
                c += 1;
            }
            proof {
                assert((r as int + 1) * (cc as int) == r * cc + cc) by (nonlinear_arith);
            }
            r += 1;
        }
        proof {
            assert(matrix@ =~= base_matrix(*cottages, *reservations));
        }

        let mut reallocatable: Vec<bool> = vec![true; rr];
        let ghost st0 = PropState { m: matrix@, realloc: reallocatable@ };
        proof {
            assert(st0.realloc =~= Seq::new(rr as nat, |i: int| true));
        }

        // Propagate single-candidate knowledge to a fixed point.
        let mut changed: bool = true;
        while changed
            invariant
                matrix@.len() == cells,
                reallocatable@.len() == rr,
                propagate(
                    PropState { m: matrix@, realloc: reallocatable@ },
                    cc as int,
                    arr,
                    dep,
                ) == propagate(st0, cc as int, arr, dep),
                !changed ==> pass_from(
                    PropState { m: matrix@, realloc: reallocatable@ },
                    cc as int,
                    arr,
                    dep,
                    0,
                ) == (PropState { m: matrix@, realloc: reallocatable@ }),
            decreases count_possible(matrix@, cells as int) + count_true(
                reallocatable@,
                rr as int,
            ) + (if changed {
                1int
            } else {
                0int
            }),
        {
            let ghost st_pass = PropState { m: matrix@, realloc: reallocatable@ };
            let mut count: usize = 0;
            let mut r2: usize = 0;
            proof {
                lemma_count_possible_nonneg(st_pass.m, cells as int);
                lemma_count_true_nonneg(st_pass.realloc, rr as int);
            }
            while r2 < rr
                invariant
                    r2 <= rr,
                    matrix@.len() == cells,
                    reallocatable@.len() == rr,
                    pass_from(st_pass, cc as int, arr, dep, 0) == pass_from(
                        PropState { m: matrix@, realloc: reallocatable@ },
                        cc as int,
                        arr,
                        dep,
                        r2 as int,
                    ),
                    only_flips(st_pass.m, matrix@),
                    only_clears(st_pass.realloc, reallocatable@),
                    count as int == (count_possible(st_pass.m, cells as int) + count_true(
                        st_pass.realloc,
                        rr as int,
                    )) - (count_possible(matrix@, cells as int) + count_true(
                        reallocatable@,
                        rr as int,
                    )),
                    count <= cells + rr,
                decreases rr - r2,
            {
                let ghost st_row = PropState { m: matrix@, realloc: reallocatable@ };

                // How many candidates does this row still have?
                let mut possible_count: usize = 0;
                let mut cottage_number: usize = 0;
                let mut c2: usize = 0;
                proof {
                    crate::solution::lemma_row_bounds(r2 as int, rr as int, cc as int);
                }
                while c2 < cc
                    invariant
                        c2 <= cc,
                        r2 < rr,
                        matrix@ == st_row.m,
                        reallocatable@ == st_row.realloc,
                        possible_count as int == row_possible_count(
                            matrix@,
                            cc as int,
                            r2 as int,
                            c2 as int,
                        ),
                        cottage_number as int == row_last_possible(
                            matrix@,
                            cc as int,
                            r2 as int,
                            c2 as int,
                        ),
                        possible_count <= c2,
                        cottage_number < cc || cottage_number == 0,
                    decreases cc - c2,
                {
                    let cell = matrix[r2 * cc + c2];
                    if !matches!(cell, Penalty::Impossible) {
                        possible_count += 1;
                        cottage_number = c2;
                    }
                    c2 += 1;
                }

                if possible_count == 1 {
                    let cn: usize = cottage_number;
                    // Mark the row non-reallocatable.
                    if reallocatable[r2] {
                        proof {
                            lemma_count_true_update(reallocatable@, r2 as int, rr as int);
                            lemma_count_possible_nonneg(matrix@, cells as int);
                            lemma_count_true_nonneg(
                                reallocatable@.update(r2 as int, false),
                                rr as int,
                            );
                            assert(cc >= 1);
                            assert(rr as int <= (rr as int) * (cc as int)) by (nonlinear_arith)
                                requires
                                    cc >= 1,
                                    rr >= 0,
                            {
                            }
                        }
                        count += 1;
                    } else {
                        proof {
                            assert(reallocatable@.update(r2 as int, false) =~= reallocatable@);
                        }
                    }
                    reallocatable[r2] = false;

                    // Close this cottage for every overlapping reservation.
                    let mut o: usize = 0;
                    let ghost m_row = st_row.m;
                    while o < rr
                        invariant
                            o <= rr,
                            r2 < rr,
                            cn < cc,
                            matrix@.len() == cells,
                            reallocatable@ == st_row.realloc.update(r2 as int, false),
                            forall|k: int|
                                0 <= k < cells ==> matrix@[k] == (if k % (cc as int) == cn && k / (
                                cc as int) != r2 && k / (cc as int) < o && res_overlap(
                                    arr,
                                    dep,
                                    k / (cc as int),
                                    r2 as int,
                                ) {
                                    Penalty::Impossible
                                } else {
                                    m_row[k]
                                }),
                            only_flips(st_pass.m, matrix@),
                            only_clears(st_pass.realloc, reallocatable@),
                            count as int == (count_possible(st_pass.m, cells as int) + count_true(
                                st_pass.realloc,
                                rr as int,
                            )) - (count_possible(matrix@, cells as int) + count_true(
                                reallocatable@,
                                rr as int,
                            )),
                            count <= cells + rr,
                        decreases rr - o,
                    {
                        if o != r2 && reservations.arrival[o] < reservations.departure[r2]
                            && reservations.arrival[r2] < reservations.departure[o] {
                            proof {
                                lemma_cell_index(rr as int, cc as int, o as int, cn as int);
                            }
                            let idx: usize = o * cc + cn;
                            let cell = matrix[idx];
                            let ghost m_before = matrix@;
                            if !matches!(cell, Penalty::Impossible) {
                                matrix[idx] = Penalty::Impossible;
                                proof {
                                    lemma_count_possible_update(m_before, idx as int, cells as int);
                                    lemma_count_possible_nonneg(matrix@, cells as int);
                                    lemma_count_true_nonneg(reallocatable@, rr as int);
                                    assert(cc >= 1);
                                    assert(rr as int <= (rr as int) * (cc as int))
                                        by (nonlinear_arith)
                                        requires
                                            cc >= 1,
                                            rr >= 0,
                                    {
                                    }
                                }
                                count += 1;
                            } else {
                                proof {
                                    assert(m_before.update(idx as int, Penalty::Impossible)
                                        =~= m_before);
                                }
                            }
                            proof {
                                assert forall|k: int| 0 <= k < cells implies matrix@[k] == (if k % (
                                cc as int) == cn && k / (cc as int) != r2 && k / (cc as int) < o + 1
                                    && res_overlap(arr, dep, k / (cc as int), r2 as int) {
                                    Penalty::Impossible
                                } else {
                                    m_row[k]
                                }) by {
                                    lemma_flat_coords(k, rr as int, cc as int);
                                    if k == idx as int {
                                    } else {
                                        assert(matrix@[k] == m_before[k]);
                                    }
                                }
                            }
                        } else {
                            proof {
                                assert forall|k: int| 0 <= k < cells implies matrix@[k] == (if k % (
                                cc as int) == cn && k / (cc as int) != r2 && k / (cc as int) < o + 1
                                    && res_overlap(arr, dep, k / (cc as int), r2 as int) {
                                    Penalty::Impossible
                                } else {
                                    m_row[k]
                                }) by {
                                    lemma_flat_coords(k, rr as int, cc as int);
                                }
                            }
                        }
                        o += 1;
                    }
                    proof {
                        assert(matrix@ =~= flip_row(m_row, cc as int, arr, dep, r2 as int, cn as int))
                            by {
                            assert forall|k: int| 0 <= k < cells implies matrix@[k] == flip_row(
                                m_row,
                                cc as int,
                                arr,
                                dep,
                                r2 as int,
                                cn as int,
                            )[k] by {
                                lemma_flat_coords(k, rr as int, cc as int);
                            }
                        }
                        let st2 = PropState {
                            m: flip_row(st_row.m, cc as int, arr, dep, r2 as int, cn as int),
                            realloc: st_row.realloc.update(r2 as int, false),
                        };
                        assert(pass_from(st_row, cc as int, arr, dep, r2 as int) == pass_from(
                            st2,
                            cc as int,
                            arr,
                            dep,
                            r2 as int + 1,
                        ));
                        assert(st2 =~= (PropState { m: matrix@, realloc: reallocatable@ }));
                    }
                } else {
                    proof {
                        assert(pass_from(st_row, cc as int, arr, dep, r2 as int) == pass_from(
                            st_row,
                            cc as int,
                            arr,
                            dep,
                            r2 as int + 1,
                        ));
                    }
                }
                r2 += 1;
            }
            proof {
                let st_end = PropState { m: matrix@, realloc: reallocatable@ };
                assert(pass_from(st_end, cc as int, arr, dep, rr as int) == st_end);
                assert(pass_from(st_pass, cc as int, arr, dep, 0) == st_end);
                if count == 0 {
                    lemma_count_possible_mono(st_pass.m, st_end.m, cells as int);
                    lemma_count_true_mono(st_pass.realloc, st_end.realloc, rr as int);
                    assert(st_pass.m.subrange(0, cells as int) =~= st_pass.m);
                    assert(st_end.m.subrange(0, cells as int) =~= st_end.m);
                    assert(st_pass.realloc.subrange(0, rr as int) =~= st_pass.realloc);
                    assert(st_end.realloc.subrange(0, rr as int) =~= st_end.realloc);
                    assert(st_pass.m == st_end.m);
                    assert(st_pass.realloc == st_end.realloc);
                    assert(st_pass =~= st_end);
                } else {
                    lemma_count_possible_mono(st_pass.m, st_end.m, cells as int);
                    lemma_count_true_mono(st_pass.realloc, st_end.realloc, rr as int);
                    assert(st_end != st_pass) by {
                        if st_end == st_pass {
                            assert(count_possible(st_end.m, cells as int) == count_possible(
                                st_pass.m,
                                cells as int,
                            ));
                        }
                    }
                    assert(propagate(st_pass, cc as int, arr, dep) == propagate(
                        st_end,
                        cc as int,
                        arr,
                        dep,
                    ));
                }
            }
            proof {
                lemma_count_possible_nonneg(matrix@, cells as int);
                lemma_count_true_nonneg(reallocatable@, rr as int);
            }
            changed = count > 0;
        }
        proof {
            let st_fin = PropState { m: matrix@, realloc: reallocatable@ };
            assert(propagate(st_fin, cc as int, arr, dep) == st_fin);
            assert(st_fin == final_state(*cottages, *reservations));
        }

        // Candidate cottages of each reservation, ascending.
        let mut possible_targets: Vec<Vec<usize>> = Vec::new();
        let mut r3: usize = 0;
        while r3 < rr
            invariant
                r3 <= rr,
                matrix@ == final_state(*cottages, *reservations).m,
                matrix@.len() == cells,
                possible_targets@.len() == r3,
                forall|i: int|
                    0 <= i < r3 ==> strictly_ascending(#[trigger] possible_targets@[i]@),
                forall|i: int| 0 <= i < r3 ==> (#[trigger] possible_targets@[i]@).len() <= cc,
                forall|i: int, c: usize|
                    0 <= i < r3 ==> ((#[trigger] possible_targets@[i]@.contains(c)) <==> (c < cc
                        && matrix@[i * cc + c] != Penalty::Impossible)),
            decreases rr - r3,
        {
            let mut v: Vec<usize> = Vec::new();
            let mut c3: usize = 0;
            proof {
                crate::solution::lemma_row_bounds(r3 as int, rr as int, cc as int);
            }
            while c3 < cc
                invariant
                    c3 <= cc,
                    r3 < rr,
                    strictly_ascending(v@),
                    v@.len() <= c3,
                    forall|j: int| 0 <= j < v@.len() ==> v@[j] < c3,
                    forall|c: usize| #[trigger]
                        v@.contains(c) <==> (c < c3 && matrix@[r3 * cc + c as int]
                            != Penalty::Impossible),
                decreases cc - c3,
            {
                let cell = matrix[r3 * cc + c3];
                let ghost prev = v@;
                if !matches!(cell, Penalty::Impossible) {
                    v.push(c3);
                    proof {
                        assert forall|c: usize| #[trigger]
                            v@.contains(c) <==> (prev.contains(c) || c == c3) by {
                            if v@.contains(c) {
                                let j = choose|j: int| 0 <= j < v@.len() && v@[j] == c;
                                if j < prev.len() {
                                    assert(prev[j] == c);
                                }
                            }
                            if prev.contains(c) {
                                let j = choose|j: int| 0 <= j < prev.len() && prev[j] == c;
                                assert(v@[j] == c);
                            }
                            if c == c3 {
                                assert(v@[v@.len() - 1] == c);
                            }
                        }
                    }
                }
                c3 += 1;
            }
            possible_targets.push(v);
            r3 += 1;
        }

        // The reallocatable reservations, ascending.
        let mut reallocatable_reservations: Vec<usize> = Vec::new();
        let mut r4: usize = 0;
        while r4 < rr
            invariant
                r4 <= rr,
                reallocatable@.len() == rr,
                strictly_ascending(reallocatable_reservations@),
                forall|j: int|
                    0 <= j < reallocatable_reservations@.len()
                        ==> reallocatable_reservations@[j] < r4,
                forall|i: usize| #[trigger]
                    reallocatable_reservations@.contains(i) <==> (i < r4
                        && reallocatable@[i as int]),
            decreases rr - r4,
        {
            let ghost prev = reallocatable_reservations@;
            if reallocatable[r4] {
                reallocatable_reservations.push(r4);
                proof {
                    assert forall|i: usize| #[trigger]
                        reallocatable_reservations@.contains(i) <==> (prev.contains(i) || i == r4)
                        by {
                        if reallocatable_reservations@.contains(i) {
                            let j = choose|j: int|
                                0 <= j < reallocatable_reservations@.len()
                                    && reallocatable_reservations@[j] == i;
                            if j < prev.len() {
                                assert(prev[j] == i);
                            }
                        }
                        if prev.contains(i) {
                            let j = choose|j: int| 0 <= j < prev.len() && prev[j] == i;
                            assert(reallocatable_reservations@[j] == i);
                        }
                        if i == r4 {
                            assert(reallocatable_reservations@[reallocatable_reservations@.len()
                                - 1] == i);
                        }
                    }
                }
            }
            r4 += 1;
        }

        // Priority scores.
        let mut priority: Vec<u64> = Vec::new();
        let mut r5: usize = 0;
        while r5 < rr
            invariant
                r5 <= rr,
                possible_targets@.len() == rr,
                reservations.len_ok(),
                rr == reservations.spec_reservations(),
                forall|i: int| 0 <= i < rr ==> (#[trigger] possible_targets@[i]@).len() <= cc,
                priority@.len() == r5,
                forall|i: int|
                    0 <= i < r5 ==> (#[trigger] priority@[i]) == spec_priority(
                        possible_targets@,
                        arr,
                        dep,
                        i,
                        rr as int,
                    ),
                forall|i: int| 0 <= i < r5 ==> (#[trigger] priority@[i]) <= PRIORITY_SCALE,
            decreases rr - r5,
        {
            let tlen: usize = possible_targets[r5].len();
            let mut num: u64 = 0;
            let mut cnt: u64 = 0;
            let mut o2: usize = 0;
            while o2 < rr
                invariant
                    o2 <= rr,
                    r5 < rr,
                    tlen == possible_targets@[r5 as int]@.len(),
                    num as int == prio_num(possible_targets@, arr, dep, r5 as int, o2 as int),
                    cnt as int == prio_cnt(possible_targets@, arr, dep, r5 as int, o2 as int),
                    cnt <= o2,
                    num as int <= tlen * cnt,
                decreases rr - o2,
            {
                proof {
                    lemma_prio_bounds(possible_targets@, arr, dep, r5 as int, o2 as int);
                    lemma_inter_count_bounds(
                        possible_targets@[r5 as int]@,
                        possible_targets@[o2 as int]@,
                        tlen as int,
                    );
                }
                if o2 != r5 && reservations.arrival[o2] < reservations.departure[r5]
                    && reservations.arrival[r5] < reservations.departure[o2] {
                    let mut ic: usize = 0;
                    let mut i2: usize = 0;
                    while i2 < tlen
                        invariant
                            i2 <= tlen,
                            r5 < rr,
                            o2 < rr,
                            tlen == possible_targets@[r5 as int]@.len(),
                            ic as int == inter_count(
                                possible_targets@[r5 as int]@,
                                possible_targets@[o2 as int]@,
                                i2 as int,
                            ),
                            ic <= i2,
                        decreases tlen - i2,
                    {
                        let x: usize = possible_targets[r5][i2];
                        if contains_val(&possible_targets[o2], x) {
                            ic += 1;
                        }
                        i2 += 1;
                    }
                    if ic != 0 {
                        proof {
                            assert((tlen as int) * (cnt as int + 1) == tlen * cnt + tlen)
                                by (nonlinear_arith);
                            assert((tlen as int) * (cnt as int + 1) <= (cc as int) * (rr as int))
                                by (nonlinear_arith)
                                requires
                                    0 <= tlen <= cc,
                                    0 <= cnt as int + 1 <= rr,
                            {
                            }
                            assert((cc as int) * (rr as int) == (rr as int) * (cc as int))
                                by (nonlinear_arith);
                        }
                        num = num + ic as u64;
                        cnt = cnt + 1;
                    }
                }
                o2 += 1;
            }
            let val: u64;
            if cnt == 0 {
                val = 0;
            } else {
                proof {
                    assert(tlen >= 1) by {
                        if tlen == 0 {
                            lemma_prio_cnt_needs_targets(
                                possible_targets@,
                                arr,
                                dep,
                                r5 as int,
                                rr as int,
                            );
                        }
                    }
                    assert((tlen as int) * (cnt as int) >= 1) by (nonlinear_arith)
                        requires
                            tlen >= 1,
                            cnt >= 1,
                    {
                    }
                    assert((num as int) * (PRIORITY_SCALE as int) <= (tlen as int) * (cnt as int)
                        * (PRIORITY_SCALE as int)) by (nonlinear_arith)
                        requires
                            num as int <= (tlen as int) * (cnt as int),
                    {
                    }
                }
                proof {
                    assert(cc >= 1);
                    assert(rr as int <= (rr as int) * (cc as int)) by (nonlinear_arith)
                        requires
                            cc >= 1,
                            rr >= 0,
                    {
                    }
                    assert(cc as int <= (rr as int) * (cc as int)) by (nonlinear_arith)
                        requires
                            rr >= 1,
                            cc >= 0,
                    {
                    }
                    assert((tlen as int) * (cnt as int) <= 0x10000000 * 0x10000000)
                        by (nonlinear_arith)
                        requires
                            0 <= tlen <= 0x10000000,
                            0 <= cnt <= 0x10000000,
                    {
                    }
                }
                let den: u128 = (tlen as u128) * (cnt as u128);
                let q: u128 = (num as u128) * (PRIORITY_SCALE as u128) / den;
                proof {
                    let n_ = num as int;
                    let d_ = (tlen as int) * (cnt as int);
                    let s_ = PRIORITY_SCALE as int;
                    assert(n_ * s_ <= d_ * s_) by (nonlinear_arith)
                        requires
                            0 <= n_ <= d_,
                            s_ >= 0,
                    {
                    }
                    vstd::arithmetic::div_mod::lemma_div_is_ordered(n_ * s_, d_ * s_, d_);
                    vstd::arithmetic::div_mod::lemma_div_multiples_vanish(s_, d_);
                    assert(d_ * s_ == s_ * d_) by (nonlinear_arith);
                    assert(q == n_ * s_ / d_);
                    assert(q <= PRIORITY_SCALE);
                }
                val = q as u64;
            }
            priority.push(val);
            r5 += 1;
        }

        let out = AllocationPenalty {
            allocation_penalty: matrix,
            reallocatable,
            reallocatable_reservations,
            possible_targets,
            priority,
            cottages: cc,
            reservations: rr,
        };
        proof {
            assert forall|i: int, c: usize| 0 <= i < rr implies ((
            #[trigger] out.possible_targets@[i]@.contains(c)) <==> (c < cc && out.spec_get(
                c as int,
                i,
            ) != Penalty::Impossible)) by {
                if c < cc {
                    lemma_cell_index(rr as int, cc as int, i, c as int);
                }
            }
        }
        out
    }
}

} // verus!
