use vstd::prelude::*;

use crate::problem::{lemma_max_slot_ge, spec_max_slot, DayRange, Problem};

verus! {

/// Upper bound on the number of timetable cells and on the number of
/// reservations, so that every cost counter and the weighted objective stay
/// far inside the range of `i64`.
pub const MAX_CELLS: usize = 0x1000_0000;

/// The mutable assignment state: which cottage each reservation is mapped to,
/// a per-cottage per-day occupancy table (flattened cottage-major), a
/// run-length gap table of the same shape, and the currently unassigned
/// reservations.
///
/// In `gap_timetable`, an occupied day stores 0, and every day of a maximal
/// vacant run stores the full length of that run.
#[derive(Debug)]
pub struct Solution {
    pub mapping: Vec<Option<usize>>,
    pub timetable: Vec<Option<usize>>,
    pub gap_timetable: Vec<usize>,
    pub cottages: usize,
    pub timeslots: usize,
    pub unallocated: Vec<usize>,
}

/// Abstract state of a `Solution`: the gap table is omitted because it is
/// uniquely determined by the occupancy table, and the unassigned
/// reservations form a set because their order carries no meaning.
#[verifier::ext_equal]
pub ghost struct SolView {
    pub mapping: Seq<Option<usize>>,
    pub timetable: Seq<Option<usize>>,
    pub cottages: nat,
    pub timeslots: nat,
    pub unallocated: Set<usize>,
}

impl View for Solution {
    type V = SolView;

    open spec fn view(&self) -> SolView {
        SolView {
            mapping: self.mapping@,
            timetable: self.timetable@,
            cottages: self.cottages as nat,
            timeslots: self.timeslots as nat,
            unallocated: self.unallocated@.to_set(),
        }
    }
}

/// First day of the maximal vacant run containing day `d` (assuming `t[d]` is
/// vacant): walk left while the previous day is vacant.
pub open spec fn run_start(t: Seq<Option<usize>>, d: int) -> int
    decreases d,
{
    if d <= 0 {
        0
    } else if t[d - 1] is Some {
        d
    } else {
        run_start(t, d - 1)
    }
}

/// One past the last day of the maximal vacant run containing day `d`
/// (assuming `t[d]` is vacant): walk right while the current day is vacant.
pub open spec fn run_end(t: Seq<Option<usize>>, d: int) -> int
    decreases t.len() - d,
{
    if d >= t.len() {
        t.len() as int
    } else if t[d] is Some {
        d
    } else {
        run_end(t, d + 1)
    }
}

/// The value the gap table must store at day `d` of a row with occupancy `t`:
/// 0 on an occupied day, the length of the surrounding maximal vacant run on
/// a vacant day.
pub open spec fn gap_at(t: Seq<Option<usize>>, d: int) -> int {
    if t[d] is Some {
        0
    } else {
        run_end(t, d) - run_start(t, d)
    }
}

/// The gap row `g` is exactly the run-length encoding of the occupancy row
/// `t`.
pub open spec fn gap_row_ok(t: Seq<Option<usize>>, g: Seq<usize>) -> bool {
    &&& g.len() == t.len()
    &&& forall|d: int| 0 <= d < t.len() ==> (#[trigger] g[d]) == gap_at(t, d)
}

/// `t` with days `lo <= k < hi` replaced by `v`.
pub open spec fn region_fill(
    t: Seq<Option<usize>>,
    lo: int,
    hi: int,
    v: Option<usize>,
) -> Seq<Option<usize>> {
    Seq::new(t.len(), |k: int| if lo <= k < hi { v } else { t[k] })
}

/// Every occupant occupies a contiguous block of days within the row.
pub open spec fn occupant_contiguous(t: Seq<Option<usize>>) -> bool {
    forall|d1: int, d2: int, d3: int|
        0 <= d1 <= d2 <= d3 < t.len() && t[d1] is Some && t[d1] == t[d3] ==> t[d2] == t[d1]
}

impl SolView {
    pub open spec fn dims_ok(self) -> bool {
        self.timetable.len() == self.cottages * self.timeslots
    }

    /// The occupancy row of one cottage.
    pub open spec fn row(self, c: int) -> Seq<Option<usize>> {
        self.timetable.subrange(c * self.timeslots, c * self.timeslots + self.timeslots)
    }

    /// Preconditions of `assign`: the reservation exists and is unmapped, and
    /// the whole (nonempty) day interval is vacant in the target cottage.
    pub open spec fn can_assign(self, cottage: usize, reservation: usize, a: int, b: int) -> bool {
        &&& self.dims_ok()
        &&& reservation < self.mapping.len()
        &&& self.mapping[reservation as int] is None
        &&& cottage < self.cottages
        &&& 0 <= a < b <= self.timeslots
        &&& self.unallocated.contains(reservation)
        &&& forall|d: int| a <= d < b ==> self.row(cottage as int)[d] is None
    }

    /// State after `assign`.
    pub open spec fn do_assign(self, cottage: usize, reservation: usize, a: int, b: int) -> SolView {
        SolView {
            mapping: self.mapping.update(reservation as int, Some(cottage)),
            timetable: region_fill(
                self.timetable,
                cottage * self.timeslots + a,
                cottage * self.timeslots + b,
                Some(reservation),
            ),
            unallocated: self.unallocated.remove(reservation),
            ..self
        }
    }

    /// Preconditions of `unassign`: the reservation is mapped to this cottage
    /// and occupies exactly the given (nonempty) day interval there.
    pub open spec fn can_unassign(self, cottage: usize, reservation: usize, a: int, b: int) -> bool {
        &&& self.dims_ok()
        &&& reservation < self.mapping.len()
        &&& self.mapping[reservation as int] == Some(cottage)
        &&& cottage < self.cottages
        &&& 0 <= a < b <= self.timeslots
        &&& !self.unallocated.contains(reservation)
        &&& forall|d: int| a <= d < b ==> self.row(cottage as int)[d] == Some(reservation)
    }

    /// State after `unassign`.
    pub open spec fn do_unassign(
        self,
        cottage: usize,
        reservation: usize,
        a: int,
        b: int,
    ) -> SolView {
        SolView {
            mapping: self.mapping.update(reservation as int, None),
            timetable: region_fill(
                self.timetable,
                cottage * self.timeslots + a,
                cottage * self.timeslots + b,
                None,
            ),
            unallocated: self.unallocated.insert(reservation),
            ..self
        }
    }
}

impl Solution {
    /// The gap row of one cottage.
    pub open spec fn gap_row(self, c: int) -> Seq<usize> {
        self.gap_timetable@.subrange(c * self.timeslots, c * self.timeslots + self.timeslots)
    }

    /// Structural invariant: tables have matching shapes, sizes stay within
    /// `MAX_CELLS`, each gap row is the run-length encoding of its occupancy
    /// row, occupants and mapped cottages are in range, and `unallocated`
    /// lists exactly the unmapped reservations, without duplicates.
    pub open spec fn wf(self) -> bool {
        &&& self.timetable@.len() == self.cottages * self.timeslots
        &&& self.gap_timetable@.len() == self.timetable@.len()
        &&& self.timetable@.len() <= MAX_CELLS
        &&& self.mapping@.len() <= MAX_CELLS
        &&& forall|c: int| 0 <= c < self.cottages ==> gap_row_ok(self@.row(c), self.gap_row(c))
        &&& forall|k: int|
            0 <= k < self.timetable@.len() && self.timetable@[k] is Some
                ==> (#[trigger] self.timetable@[k])->0 < self.mapping@.len()
        &&& self.unallocated@.no_duplicates()
        &&& forall|r: usize| #[trigger]
            self.unallocated@.contains(r) ==> r < self.mapping@.len()
        &&& forall|r: int|
            0 <= r < self.mapping@.len() ==> ((#[trigger] self.mapping@[r]) is None
                <==> self.unallocated@.contains(r as usize))
        &&& forall|r: int|
            0 <= r < self.mapping@.len() && self.mapping@[r] is Some
                ==> (#[trigger] self.mapping@[r])->0 < self.cottages
    }
}

pub proof fn lemma_mul_mono(a: int, b: int, m: int)
    requires
        a <= b,
        m >= 0,
    ensures
        a * m <= b * m,
{
    broadcast use vstd::arithmetic::mul::lemma_mul_inequality;

}

/// Basic facts about the left end of the vacant run containing `d`.
pub proof fn lemma_run_start_props(t: Seq<Option<usize>>, d: int)
    requires
        0 <= d < t.len(),
        t[d] is None,
    ensures
        0 <= run_start(t, d) <= d,
        forall|i: int| run_start(t, d) <= i <= d ==> t[i] is None,
        run_start(t, d) == 0 || t[run_start(t, d) - 1] is Some,
    decreases d,
{
    if d > 0 && t[d - 1] is None {
        lemma_run_start_props(t, d - 1);
    }
}

/// Basic facts about the right end of the vacant run containing `d`.
pub proof fn lemma_run_end_props(t: Seq<Option<usize>>, d: int)
    requires
        0 <= d < t.len(),
        t[d] is None,
    ensures
        d < run_end(t, d) <= t.len(),
        forall|i: int| d <= i < run_end(t, d) ==> t[i] is None,
        run_end(t, d) == t.len() || t[run_end(t, d)] is Some,
    decreases t.len() - d,
{
    if d + 1 < t.len() && t[d + 1] is None {
        lemma_run_end_props(t, d + 1);
    } else {
        assert(run_end(t, d) == run_end(t, d + 1));
        assert(run_end(t, d + 1) == if d + 1 >= t.len() { t.len() as int } else { d + 1 });
    }
}

/// A vacant interval with an occupied (or out-of-row) day on its left is the
/// left end of the run of every day it contains.
pub proof fn lemma_run_start_char(t: Seq<Option<usize>>, s: int, d: int)
    requires
        0 <= s <= d < t.len(),
        forall|i: int| s <= i <= d ==> t[i] is None,
        s == 0 || t[s - 1] is Some,
    ensures
        run_start(t, d) == s,
    decreases d - s,
{
    if d > s {
        lemma_run_start_char(t, s, d - 1);
    }
}

/// A vacant interval with an occupied (or out-of-row) day on its right is the
/// right end of the run of every day it contains.
pub proof fn lemma_run_end_char(t: Seq<Option<usize>>, d: int, e: int)
    requires
        0 <= d < e <= t.len(),
        forall|i: int| d <= i < e ==> t[i] is None,
        e == t.len() || t[e] is Some,
    ensures
        run_end(t, d) == e,
    decreases e - d,
{
    if d + 1 < e {
        lemma_run_end_char(t, d + 1, e);
    } else {
        assert(run_end(t, d) == run_end(t, e));
        assert(run_end(t, e) == e);
    }
}

/// In a well-formed gap row, every day of the maximal vacant run containing
/// `d` is vacant and stores the full run length, the day left of the run (if
/// any) and the day right of the run (if any) are occupied, and the stored
/// length is positive.
pub proof fn lemma_run_block(t: Seq<Option<usize>>, g: Seq<usize>, d: int)
    requires
        gap_row_ok(t, g),
        0 <= d < t.len(),
        t[d] is None,
    ensures
        0 <= run_start(t, d) <= d < run_end(t, d) <= t.len(),
        forall|i: int|
            run_start(t, d) <= i < run_end(t, d) ==> t[i] is None && (#[trigger] g[i])
                == run_end(t, d) - run_start(t, d),
        forall|i: int| run_start(t, d) <= i < run_end(t, d) ==> (#[trigger] t[i]) is None,
        run_start(t, d) == 0 || t[run_start(t, d) - 1] is Some,
        run_end(t, d) == t.len() || t[run_end(t, d)] is Some,
        g[d] >= 1,
{
    let s = run_start(t, d);
    let e = run_end(t, d);
    lemma_run_start_props(t, d);
    lemma_run_end_props(t, d);
    assert forall|i: int| s <= i < e implies t[i] is None && (#[trigger] g[i]) == e - s by {
        if i <= d {
            lemma_run_start_char(t, s, i);
            lemma_run_end_char(t, i, e);
        } else {
            lemma_run_start_char(t, s, i);
            lemma_run_end_char(t, i, e);
        }
        assert(g[i] == gap_at(t, i));
    }
    assert(g[d] == gap_at(t, d));
    assert forall|i: int| s <= i < e implies (#[trigger] t[i]) is None by {
        assert(g[i] == e - s);
    }
}


/// Window arithmetic for row `c` of a `cc` x `tt` flattened table.
pub proof fn lemma_row_bounds(c: int, cc: int, tt: int)
    requires
        0 <= c < cc,
        0 <= tt,
    ensures
        0 <= c * tt,
        c * tt + tt <= cc * tt,
{
    assert(0 <= c * tt && c * tt + tt <= cc * tt) by (nonlinear_arith)
        requires
            0 <= c < cc,
            0 <= tt,
    {
    }
}

/// Removing index `j` from a duplicate-free sequence keeps it duplicate-free
/// and removes exactly the value stored at `j` from its set of elements.
pub proof fn lemma_remove_to_set(s: Seq<usize>, j: int)
    requires
        0 <= j < s.len(),
        s.no_duplicates(),
    ensures
        s.remove(j).no_duplicates(),
        s.remove(j).to_set() == s.to_set().remove(s[j]),
{
    broadcast use vstd::set::group_set_axioms;

    s.remove_ensures(j);
    let s2 = s.remove(j);
    assert forall|i: int, k: int| 0 <= i < k < s2.len() implies s2[i] != s2[k] by {
        let oi: int = if i < j { i } else { i + 1 };
        let ok: int = if k < j { k } else { k + 1 };
        assert(s2[i] == s[oi] && s2[k] == s[ok]);
    }
    assert(s2.to_set() =~= s.to_set().remove(s[j])) by {
        assert forall|x: usize| #[trigger] s2.to_set().contains(x)
            implies s.to_set().contains(x) && x != s[j] by {
            let i = choose|i: int| 0 <= i < s2.len() && s2[i] == x;
            let oi: int = if i < j { i } else { i + 1 };
            assert(s2[i] == s[oi]);
            assert(oi != j);
        }
        assert forall|x: usize| s.to_set().contains(x) && x != s[j]
            implies #[trigger] s2.to_set().contains(x) by {
            let i = choose|i: int| 0 <= i < s.len() && s[i] == x;
            if i < j {
                assert(s2[i] == s[i]);
            } else {
                assert(s2[i - 1] == s[i]);
            }
        }
    }
}

/// Changes confined to the window of row `c` leave every other row of a
/// flattened table unchanged.
pub proof fn lemma_other_rows<A>(t0: Seq<A>, t1: Seq<A>, c: int, cc: int, tt: int, c2: int)
    requires
        t0.len() == t1.len(),
        t0.len() == cc * tt,
        0 <= c < cc,
        0 <= c2 < cc,
        c2 != c,
        tt >= 0,
        forall|k: int| 0 <= k < t0.len() && !(c * tt <= k < c * tt + tt) ==> t0[k] == t1[k],
    ensures
        t0.subrange(c2 * tt, c2 * tt + tt) == t1.subrange(c2 * tt, c2 * tt + tt),
{
    lemma_row_bounds(c, cc, tt);
    lemma_row_bounds(c2, cc, tt);
    if c2 < c {
        lemma_mul_mono(c2 + 1, c, tt);
        assert((c2 + 1) * tt == c2 * tt + tt) by (nonlinear_arith);
    } else {
        lemma_mul_mono(c + 1, c2, tt);
        assert((c + 1) * tt == c * tt + tt) by (nonlinear_arith);
    }
    assert(t0.subrange(c2 * tt, c2 * tt + tt) =~= t1.subrange(c2 * tt, c2 * tt + tt));
}

impl Solution {
    /// A fully unassigned solution sized for the problem: every reservation
    /// unmapped and listed in `unallocated`, every day of every cottage
    /// vacant, every gap row one full-length run.
    pub fn empty(problem: &Problem) -> (r: Solution)
        requires
            problem.reservations.arrival@.len() == problem.reservations.stay@.len(),
            problem.reservations.arrival@.len() >= 1,
            forall|i: int|
                0 <= i < problem.reservations.arrival@.len() ==> problem.reservations.arrival@[i]
                    + problem.reservations.stay@[i] <= usize::MAX,
            problem.cottages.spec_cottages() * spec_max_slot(
                problem.reservations.arrival@,
                problem.reservations.stay@,
                problem.reservations.arrival@.len() as int,
            ) <= MAX_CELLS,
            problem.reservations.id@.len() <= MAX_CELLS,
        ensures
            r.wf(),
            r.cottages == problem.cottages.spec_cottages(),
            r.timeslots == spec_max_slot(
                problem.reservations.arrival@,
                problem.reservations.stay@,
                problem.reservations.arrival@.len() as int,
            ),
            r.mapping@.len() == problem.reservations.spec_reservations(),
            forall|i: int| 0 <= i < r.mapping@.len() ==> r.mapping@[i] is None,
            forall|k: int| 0 <= k < r.timetable@.len() ==> r.timetable@[k] is None,
            forall|i: int| 0 <= i < r.unallocated@.len() ==> r.unallocated@[i] == i,
            r.unallocated@.len() == r.mapping@.len(),
    {
        let reservations: usize = problem.reservations.reservations();
        let timeslots: usize = problem.reservations.timeslots();
        let cottages: usize = problem.cottages.cottages();
        let cells: usize = cottages * timeslots;

        let mut unallocated: Vec<usize> = Vec::new();
        let mut i: usize = 0;
        while i < reservations
            invariant
                i <= reservations,
                unallocated@.len() == i,
                forall|j: int| 0 <= j < i ==> unallocated@[j] == j,
            decreases reservations - i,
        {
            unallocated.push(i);
            i += 1;
        }

        let out = Solution {
            mapping: vec![None; reservations],
            timetable: vec![None; cells],
            gap_timetable: vec![timeslots; cells],
            cottages,
            timeslots,
            unallocated,
        };
        proof {
            assert forall|c: int| 0 <= c < out.cottages
                implies gap_row_ok(out@.row(c), out.gap_row(c)) by {
                lemma_row_bounds(c, out.cottages as int, out.timeslots as int);
                let t = out@.row(c);
                let g = out.gap_row(c);
                assert forall|d: int| 0 <= d < t.len() implies (#[trigger] g[d]) == gap_at(t, d) by {
                    lemma_run_start_char(t, 0, d);
                    lemma_run_end_char(t, d, t.len() as int);
                }
            }
            assert forall|rr: usize| #[trigger] out.unallocated@.contains(rr)
                implies rr < out.mapping@.len() by {
                let j = choose|j: int| 0 <= j < out.unallocated@.len() && out.unallocated@[j] == rr;
            }
            assert forall|rr: int| 0 <= rr < out.mapping@.len()
                implies out.unallocated@.contains(#[trigger] (rr as usize)) by {
                assert(out.unallocated@[rr] == rr as usize);
            }
        }
        out
    }

    pub fn unallocated(&self) -> (r: &Vec<usize>)
        ensures
            r@ == self.unallocated@,
    {
        &self.unallocated
    }

    pub fn mapping(&self) -> (r: &Vec<Option<usize>>)
        ensures
            r@ == self.mapping@,
    {
        &self.mapping
    }

    /// The mapping with every assigned cottage index replaced by that
    /// cottage's entry in `v` (an id or attribute column).
    pub fn index(&self, v: &Vec<usize>) -> (r: Vec<Option<usize>>)
        requires
            self.wf(),
            self.cottages <= v@.len(),
        ensures
            r@.len() == self.mapping@.len(),
            forall|i: int|
                0 <= i < r@.len() ==> r@[i] == (if self.mapping@[i] is Some {
                    Some(v@[(self.mapping@[i]->0) as int])
                } else {
                    None
                }),
    {
        let n: usize = self.mapping.len();
        let mut out: Vec<Option<usize>> = Vec::new();
        let mut i: usize = 0;
        while i < n
            invariant
                i <= n,
                n == self.mapping@.len(),
                self.wf(),
                self.cottages <= v@.len(),
                out@.len() == i,
                forall|k: int|
                    0 <= k < i ==> out@[k] == (if self.mapping@[k] is Some {
                        Some(v@[(self.mapping@[k]->0) as int])
                    } else {
                        None
                    }),
            decreases n - i,
        {
            match self.mapping[i] {
                Some(cottage) => out.push(Some(v[cottage])),
                None => out.push(None),
            }
            i += 1;
        }
        out
    }

    pub fn mapping_single(&self, reservation: usize) -> (r: Option<usize>)
        requires
            reservation < self.mapping@.len(),
        ensures
            r == self.mapping@[reservation as int],
    {
        self.mapping[reservation]
    }

    pub fn get_cottage(&self, reservation: usize) -> (r: &Option<usize>)
        requires
            reservation < self.mapping@.len(),
        ensures
            *r == self.mapping@[reservation as int],
    {
        &self.mapping[reservation]
    }

    /// The occupancy row of one cottage.
    pub fn get_timetable(&self, cottage: usize) -> (r: &[Option<usize>])
        requires
            self.wf(),
            cottage < self.cottages,
        ensures
            r@ == self@.row(cottage as int),
    {
        proof {
            lemma_row_bounds(cottage as int, self.cottages as int, self.timeslots as int);
        }
        let base: usize = cottage * self.timeslots;
        vstd::slice::slice_subrange(self.timetable.as_slice(), base, base + self.timeslots)
    }

    /// The gap row of one cottage.
    pub fn get_gap_timetable(&self, cottage: usize) -> (r: &[usize])
        requires
            self.wf(),
            cottage < self.cottages,
        ensures
            r@ == self.gap_row(cottage as int),
    {
        proof {
            lemma_row_bounds(cottage as int, self.cottages as int, self.timeslots as int);
        }
        let base: usize = cottage * self.timeslots;
        vstd::slice::slice_subrange(self.gap_timetable.as_slice(), base, base + self.timeslots)
    }

    /// Whether every day of `range` is vacant in the given cottage.
    pub fn is_free(&self, cottage: usize, range: DayRange) -> (r: bool)
        requires
            self.wf(),
            cottage < self.cottages,
            range.start <= range.end,
            range.end <= self.timeslots,
        ensures
            r == (forall|d: int|
                range.start <= d < range.end ==> self@.row(cottage as int)[d] is None),
    {
        proof {
            lemma_row_bounds(cottage as int, self.cottages as int, self.timeslots as int);
        }
        let base: usize = cottage * self.timeslots;
        let mut d: usize = range.start;
        while d < range.end
            invariant
                cottage < self.cottages,
                base == cottage * self.timeslots,
                base + self.timeslots <= self.timetable@.len(),
                self.timetable@.len() == self.cottages * self.timeslots,
                self.timetable@.len() <= MAX_CELLS,
                range.start <= d <= range.end,
                range.end <= self.timeslots,
                forall|k: int| range.start <= k < d ==> self@.row(cottage as int)[k] is None,
            decreases range.end - d,
        {
            if self.timetable[base + d].is_some() {
                assert(self@.row(cottage as int)[d as int] is Some);
                return false;
            }
            assert(self@.row(cottage as int)[d as int] is None);
            d += 1;
        }
        true
    }
}


impl Solution {
    /// Map `reservation` to `cottage` over the days of `range`: drop it from
    /// the unassigned list, record the mapping, occupy the days, and split
    /// the surrounding vacant run in the gap table, touching only the two
    /// remainders of that run.
    #[verifier::loop_isolation(false)]
    #[verifier::rlimit(60)]
    pub fn assign(&mut self, cottage: usize, reservation: usize, range: DayRange)
        requires
            old(self).wf(),
            old(self)@.can_assign(cottage, reservation, range.start as int, range.end as int),
        ensures
            final(self).wf(),
            final(self)@ == old(self)@.do_assign(
                cottage,
                reservation,
                range.start as int,
                range.end as int,
            ),
    {
        let ghost v0 = self@;
        let ghost gall0 = self.gap_timetable@;
        let a: usize = range.start;
        let b: usize = range.end;
        proof {
            lemma_row_bounds(cottage as int, self.cottages as int, self.timeslots as int);
        }
        let base: usize = cottage * self.timeslots;
        let ghost t0 = v0.row(cottage as int);
        let ghost g0 = self.gap_row(cottage as int);
        let ghost cap = self.timetable@.len();

        // Drop the reservation from the unassigned list.
        let n_un: usize = self.unallocated.len();
        let mut j: usize = 0;
        while j < n_un && self.unallocated[j] != reservation
            invariant
                j <= n_un,
                self.unallocated@ == old(self).unallocated@,
                forall|m: int| 0 <= m < j ==> self.unallocated@[m] != reservation,
            decreases n_un - j,
        {
            j += 1;
        }
        proof {
            assert(old(self).unallocated@.contains(reservation));
            if j == n_un {
                let w = choose|w: int|
                    0 <= w < old(self).unallocated@.len() && old(self).unallocated@[w]
                        == reservation;
                assert(old(self).unallocated@[w] != reservation);
            }
            lemma_remove_to_set(old(self).unallocated@, j as int);
        }
        if j < n_un {
            self.unallocated.remove(j);
        }

        // Record the mapping.
        self.mapping[reservation] = Some(cottage);

        let ghost u1 = self.unallocated@;
        let ghost m1 = self.mapping@;

        // Occupy the days.
        let mut d: usize = a;
        while d < b
            invariant
                a <= d <= b,
                self.timetable@.len() == cap,
                self.gap_timetable@ == gall0,
                self.mapping@ == m1,
                self.unallocated@ == u1,
                self.cottages == old(self).cottages,
                self.timeslots == old(self).timeslots,
                forall|k: int|
                    0 <= k < cap ==> self.timetable@[k] == (if base + a <= k < base + d {
                        Some(reservation)
                    } else {
                        v0.timetable[k]
                    }),
            decreases b - d,
        {
            self.timetable[base + d] = Some(reservation);
            d += 1;
        }
        let ghost tfull1 = self.timetable@;

        // Split the surrounding vacant run in the gap table.
        proof {
            lemma_run_block(t0, g0, a as int);
        }
        let ghost s0 = run_start(t0, a as int);
        let ghost e0 = run_end(t0, a as int);
        let gap: usize = self.gap_timetable[base + a];
        proof {
            assert(g0[a as int] == gap_at(t0, a as int));
            assert(gap == e0 - s0);
            if e0 < b {
                assert(t0[e0] is Some);
            }
        }
        let mut e: usize = b;
        while e < self.timeslots && self.gap_timetable[base + e] == gap
            invariant
                b <= e,
                e <= e0,
                self.gap_timetable@ == gall0,
                self.timetable@ == tfull1,
                self.mapping@ == m1,
                self.unallocated@ == u1,
                self.cottages == old(self).cottages,
                self.timeslots == old(self).timeslots,
            decreases self.timeslots - e,
        {
            proof {
                if e >= e0 {
                    assert(g0[e as int] == gap_at(t0, e as int));
                    assert(t0[e0] is Some);
                    assert(g0[e0] == 0);
                }
            }
            e += 1;
        }
        proof {
            if e < e0 {
                assert(g0[e as int] == e0 - s0);
                assert(e < self.timeslots);
            }
            assert(e == e0);
        }
        let s: usize = e - gap;
        proof {
            assert(s == s0);
        }

        // Left remainder of the split run.
        let mut d2: usize = s;
        while d2 < a
            invariant
                s <= d2 <= a,
                self.gap_timetable@.len() == cap,
                self.timetable@ == tfull1,
                self.mapping@ == m1,
                self.unallocated@ == u1,
                self.cottages == old(self).cottages,
                self.timeslots == old(self).timeslots,
                forall|k: int|
                    0 <= k < cap ==> self.gap_timetable@[k] == (if base + s <= k < base + d2 {
                        (a - s) as usize
                    } else {
                        gall0[k]
                    }),
            decreases a - d2,
        {
            self.gap_timetable[base + d2] = a - s;
            d2 += 1;
        }
        let ghost gall1 = self.gap_timetable@;

        // Right remainder of the split run.
        let mut d3: usize = b;
        while d3 < e
            invariant
                b <= d3 <= e,
                self.gap_timetable@.len() == cap,
                self.timetable@ == tfull1,
                self.mapping@ == m1,
                self.unallocated@ == u1,
                self.cottages == old(self).cottages,
                self.timeslots == old(self).timeslots,
                forall|k: int|
                    0 <= k < cap ==> self.gap_timetable@[k] == (if base + b <= k < base + d3 {
                        (e - b) as usize
                    } else {
                        gall1[k]
                    }),
            decreases e - d3,
        {
            self.gap_timetable[base + d3] = e - b;
            d3 += 1;
        }
        let ghost gall2 = self.gap_timetable@;

        // The occupied span itself.
        let mut d4: usize = a;
        while d4 < b
            invariant
                a <= d4 <= b,
                self.gap_timetable@.len() == cap,
                self.timetable@ == tfull1,
                self.mapping@ == m1,
                self.unallocated@ == u1,
                self.cottages == old(self).cottages,
                self.timeslots == old(self).timeslots,
                forall|k: int|
                    0 <= k < cap ==> self.gap_timetable@[k] == (if base + a <= k < base + d4 {
                        0usize
                    } else {
                        gall2[k]
                    }),
            decreases b - d4,
        {
            self.gap_timetable[base + d4] = 0;
            d4 += 1;
        }

        proof {
            let tt = self.timeslots as int;
            let cc = self.cottages as int;
            let v1 = self@;
            let t1 = v1.row(cottage as int);
            let g1 = self.gap_row(cottage as int);

            // The new gap row, day by day.
            assert forall|k: int| 0 <= k < tt implies #[trigger] g1[k] == (if s0 <= k < a {
                a - s0
            } else if a <= k < b {
                0int
            } else if b <= k < e0 {
                e0 - b
            } else {
                g0[k] as int
            }) by {
                assert(g1[k] == self.gap_timetable@[base + k]);
                assert(g0[k] == gall0[base + k]);
            }
            // The new occupancy row, day by day.
            assert forall|k: int| 0 <= k < tt implies #[trigger] t1[k] == (if a <= k < b {
                Some(reservation)
            } else {
                t0[k]
            }) by {
                assert(t1[k] == self.timetable@[base + k]);
                assert(t0[k] == v0.timetable[base + k]);
            }

            // The split gap row matches the run-length encoding of the new row.
            assert forall|k: int| 0 <= k < tt implies (#[trigger] g1[k]) == gap_at(t1, k) by {
                if s0 <= k < a {
                    lemma_run_start_char(t1, s0, k);
                    lemma_run_end_char(t1, k, a as int);
                } else if a <= k < b {
                    assert(t1[k] is Some);
                } else if b <= k < e0 {
                    lemma_run_start_char(t1, b as int, k);
                    lemma_run_end_char(t1, k, e0);
                } else if t0[k] is None {
                    lemma_run_block(t0, g0, k);
                    let sp = run_start(t0, k);
                    let ep = run_end(t0, k);
                    if k < s0 {
                        assert(s0 > 0);
                        if ep > s0 {
                            assert(t0[s0 - 1] is None);
                            assert(false);
                        }
                        lemma_run_start_char(t1, sp, k);
                        lemma_run_end_char(t1, k, ep);
                    } else {
                        assert(k >= e0);
                        assert(e0 < tt);
                        assert(t0[e0] is Some);
                        if sp < e0 {
                            assert(t0[e0] is None);
                            assert(false);
                        }
                        lemma_run_start_char(t1, sp, k);
                        lemma_run_end_char(t1, k, ep);
                    }
                }
            }

            // View equality with the abstract operation.
            let dv = v0.do_assign(cottage, reservation, a as int, b as int);
            assert(v1.timetable =~= dv.timetable);
            assert(v1.unallocated =~= dv.unallocated) by {
                assert(old(self).unallocated@[j as int] == reservation);
            }
            assert(v1.mapping == dv.mapping);
            assert(v1.cottages == dv.cottages);
            assert(v1.timeslots == dv.timeslots);
            assert(v1 =~= dv);

            // Other rows are untouched.
            assert forall|c2: int| 0 <= c2 < cc && c2 != cottage as int implies gap_row_ok(
                v1.row(c2),
                self.gap_row(c2),
            ) by {
                lemma_other_rows(v0.timetable, v1.timetable, cottage as int, cc, tt, c2);
                lemma_other_rows(gall0, self.gap_timetable@, cottage as int, cc, tt, c2);
                assert(v0.row(c2) == v1.row(c2));
                assert(old(self).gap_row(c2) == self.gap_row(c2));
                assert(gap_row_ok(v0.row(c2), old(self).gap_row(c2)));
            }
            assert(gap_row_ok(v1.row(cottage as int), self.gap_row(cottage as int)));
            assert forall|c2: int| 0 <= c2 < cc implies gap_row_ok(v1.row(c2), self.gap_row(c2))
                by {}

            // The remaining well-formedness clauses.
            broadcast use vstd::set::group_set_axioms;

            assert forall|k: int|
                0 <= k < self.timetable@.len() && self.timetable@[k] is Some implies (
            #[trigger] self.timetable@[k])->0 < self.mapping@.len() by {
                if !(base + a <= k < base + b) {
                    assert(self.timetable@[k] == v0.timetable[k]);
                }
            }
            assert forall|rr: usize| #[trigger]
                self.unallocated@.contains(rr) implies rr < self.mapping@.len() by {
                assert(self.unallocated@.to_set().contains(rr));
                assert(old(self).unallocated@.to_set().contains(rr));
                assert(old(self).unallocated@.contains(rr));
            }
            assert forall|rr: int| 0 <= rr < self.mapping@.len() implies ((
            #[trigger] self.mapping@[rr]) is None <==> self.unallocated@.contains(rr as usize))
                by {
                if rr == reservation as int {
                    assert(self.mapping@[rr] is Some);
                    if self.unallocated@.contains(rr as usize) {
                        assert(self.unallocated@.to_set().contains(rr as usize));
                    }
                } else {
                    assert(self.mapping@[rr] == old(self).mapping@[rr]);
                    if old(self).unallocated@.contains(rr as usize) {
                        assert(old(self).unallocated@.to_set().contains(rr as usize));
                        assert(self.unallocated@.to_set().contains(rr as usize));
                        assert(self.unallocated@.contains(rr as usize));
                    }
                    if self.unallocated@.contains(rr as usize) {
                        assert(self.unallocated@.to_set().contains(rr as usize));
                        assert(old(self).unallocated@.to_set().contains(rr as usize));
                        assert(old(self).unallocated@.contains(rr as usize));
                    }
                }
            }
        }
    }
}


impl Solution {
    /// Undo the mapping of `reservation` to `cottage` over the days of
    /// `range`: put it back on the unassigned list, clear the mapping and the
    /// days, and merge the freed span with the adjacent vacant runs in the
    /// gap table.
    #[verifier::loop_isolation(false)]
    #[verifier::rlimit(60)]
    pub fn unassign(&mut self, cottage: usize, reservation: usize, range: DayRange)
        requires
            old(self).wf(),
            old(self)@.can_unassign(cottage, reservation, range.start as int, range.end as int),
        ensures
            final(self).wf(),
            final(self)@ == old(self)@.do_unassign(
                cottage,
                reservation,
                range.start as int,
                range.end as int,
            ),
    {
        broadcast use vstd::set::group_set_axioms;
        broadcast use vstd::seq_lib::lemma_seq_contains_after_push;

        let ghost v0 = self@;
        let ghost gall0 = self.gap_timetable@;
        let a: usize = range.start;
        let b: usize = range.end;
        proof {
            lemma_row_bounds(cottage as int, self.cottages as int, self.timeslots as int);
        }
        let base: usize = cottage * self.timeslots;
        let ghost t0 = v0.row(cottage as int);
        let ghost g0 = self.gap_row(cottage as int);
        let ghost cap = self.timetable@.len();

        // Put the reservation back on the unassigned list.
        proof {
            if old(self).unallocated@.contains(reservation) {
                assert(old(self).unallocated@.to_set().contains(reservation));
            }
        }
        self.unallocated.push(reservation);

        // Clear the mapping.
        self.mapping[reservation] = None;

        let ghost u1 = self.unallocated@;
        let ghost m1 = self.mapping@;

        // Vacate the days.
        let mut d: usize = a;
        while d < b
            invariant
                a <= d <= b,
                self.timetable@.len() == cap,
                self.gap_timetable@ == gall0,
                self.mapping@ == m1,
                self.unallocated@ == u1,
                self.cottages == old(self).cottages,
                self.timeslots == old(self).timeslots,
                forall|k: int|
                    0 <= k < cap ==> self.timetable@[k] == (if base + a <= k < base + d {
                        None::<usize>
                    } else {
                        v0.timetable[k]
                    }),
            decreases b - d,
        {
            self.timetable[base + d] = None;
            d += 1;
        }
        let ghost tfull1 = self.timetable@;

        // Merge with the adjacent vacant runs.
        let ghost start0 = if a > 0 && t0[a as int - 1] is None {
            run_start(t0, a as int - 1)
        } else {
            a as int
        };
        let ghost end0 = if b < self.timeslots && t0[b as int] is None {
            run_end(t0, b as int)
        } else {
            b as int
        };
        proof {
            if a > 0 && t0[a as int - 1] is None {
                lemma_run_block(t0, g0, a as int - 1);
                assert(run_end(t0, a as int - 1) == a) by {
                    lemma_run_end_props(t0, a as int - 1);
                    assert(t0[a as int] is Some);
                }
            } else if a > 0 {
                assert(g0[a as int - 1] == gap_at(t0, a as int - 1));
                assert(g0[a as int - 1] == 0);
            }
            if b < self.timeslots && t0[b as int] is None {
                lemma_run_block(t0, g0, b as int);
                assert(run_start(t0, b as int) == b) by {
                    lemma_run_start_props(t0, b as int);
                    assert(t0[b as int - 1] is Some);
                }
            } else if b < self.timeslots {
                assert(g0[b as int] == gap_at(t0, b as int));
                assert(g0[b as int] == 0);
            }
        }
        let mut start: usize = a;
        if a > 0 {
            let gl: usize = self.gap_timetable[base + a - 1];
            proof {
                assert(g0[a as int - 1] == gl);
                assert(gl == a - start0);
            }
            start = a - gl;
        }
        let mut end: usize = b;
        if end < self.timeslots {
            let gr: usize = self.gap_timetable[base + b];
            proof {
                assert(g0[b as int] == gr);
                assert(gr == end0 - b);
                assert(end0 <= self.timeslots);
            }
            end = b + gr;
        }
        proof {
            assert(start == start0);
            assert(end == end0);
        }

        // Fill the merged run with its new total length.
        let mut d2: usize = start;
        while d2 < end
            invariant
                start <= d2 <= end,
                end <= self.timeslots,
                self.gap_timetable@.len() == cap,
                self.timetable@ == tfull1,
                self.mapping@ == m1,
                self.unallocated@ == u1,
                self.cottages == old(self).cottages,
                self.timeslots == old(self).timeslots,
                forall|k: int|
                    0 <= k < cap ==> self.gap_timetable@[k] == (if base + start <= k < base + d2 {
                        (end - start) as usize
                    } else {
                        gall0[k]
                    }),
            decreases end - d2,
        {
            self.gap_timetable[base + d2] = end - start;
            d2 += 1;
        }

        proof {
            let tt = self.timeslots as int;
            let cc = self.cottages as int;
            let v1 = self@;
            let t1 = v1.row(cottage as int);
            let g1 = self.gap_row(cottage as int);

            // The new rows, day by day.
            assert forall|k: int| 0 <= k < tt implies #[trigger] t1[k] == (if a <= k < b {
                None::<usize>
            } else {
                t0[k]
            }) by {
                assert(t1[k] == self.timetable@[base + k]);
                assert(t0[k] == v0.timetable[base + k]);
            }
            assert forall|k: int| 0 <= k < tt implies #[trigger] g1[k] == (if start0 <= k < end0 {
                end0 - start0
            } else {
                g0[k] as int
            }) by {
                assert(g1[k] == self.gap_timetable@[base + k]);
                assert(g0[k] == gall0[base + k]);
            }

            // The merged gap row matches the run-length encoding of the new
            // row.
            assert forall|k: int| 0 <= k < tt implies (#[trigger] g1[k]) == gap_at(t1, k) by {
                if start0 <= k < end0 {
                    lemma_run_start_char(t1, start0, k);
                    lemma_run_end_char(t1, k, end0);
                } else if t0[k] is Some {
                    assert(t1[k] is Some);
                } else if k < start0 {
                    lemma_run_block(t0, g0, k);
                    let sp = run_start(t0, k);
                    let ep = run_end(t0, k);
                    assert(start0 > 0);
                    assert(t0[start0 - 1] is Some);
                    if ep > start0 - 1 {
                        assert(t0[start0 - 1] is None);
                        assert(false);
                    }
                    lemma_run_start_char(t1, sp, k);
                    lemma_run_end_char(t1, k, ep);
                } else {
                    assert(k >= end0);
                    assert(end0 < tt);
                    assert(t0[end0] is Some);
                    lemma_run_block(t0, g0, k);
                    let sp = run_start(t0, k);
                    let ep = run_end(t0, k);
                    if sp < end0 + 1 {
                        assert(t0[end0] is None);
                        assert(false);
                    }
                    lemma_run_start_char(t1, sp, k);
                    lemma_run_end_char(t1, k, ep);
                }
            }

            // View equality with the abstract operation.
            let dv = v0.do_unassign(cottage, reservation, a as int, b as int);
            assert(v1.timetable =~= dv.timetable);
            assert(v1.unallocated =~= dv.unallocated) by {
                let u0 = old(self).unallocated@;
                assert forall|x: usize| #[trigger]
                    u1.to_set().contains(x) <==> u0.to_set().insert(reservation).contains(x) by {
                    assert(u1.to_set().contains(x) == u1.contains(x));
                    assert(u0.to_set().contains(x) == u0.contains(x));
                    assert(u1.contains(x) <==> u0.contains(x) || x == reservation);
                }
            }
            assert(v1.mapping == dv.mapping);
            assert(v1 =~= dv);

            // Other rows are untouched.
            assert forall|c2: int| 0 <= c2 < cc && c2 != cottage as int implies gap_row_ok(
                v1.row(c2),
                self.gap_row(c2),
            ) by {
                lemma_other_rows(v0.timetable, v1.timetable, cottage as int, cc, tt, c2);
                lemma_other_rows(gall0, self.gap_timetable@, cottage as int, cc, tt, c2);
                assert(v0.row(c2) == v1.row(c2));
                assert(old(self).gap_row(c2) == self.gap_row(c2));
                assert(gap_row_ok(v0.row(c2), old(self).gap_row(c2)));
            }
            assert(gap_row_ok(v1.row(cottage as int), self.gap_row(cottage as int)));
            assert forall|c2: int| 0 <= c2 < cc implies gap_row_ok(v1.row(c2), self.gap_row(c2))
                by {}

            // The remaining well-formedness clauses.
            assert(self.unallocated@.no_duplicates());
            assert forall|k: int|
                0 <= k < self.timetable@.len() && self.timetable@[k] is Some implies (
            #[trigger] self.timetable@[k])->0 < self.mapping@.len() by {
                if !(base + a <= k < base + b) {
                    assert(self.timetable@[k] == v0.timetable[k]);
                }
            }
            assert forall|rr: usize| #[trigger]
                self.unallocated@.contains(rr) implies rr < self.mapping@.len() by {
                if rr != reservation {
                    assert(old(self).unallocated@.contains(rr));
                }
            }
            assert forall|rr: int| 0 <= rr < self.mapping@.len() implies ((
            #[trigger] self.mapping@[rr]) is None <==> self.unallocated@.contains(rr as usize))
                by {
                if rr == reservation as int {
                    assert(self.unallocated@[self.unallocated@.len() - 1] == reservation);
                } else {
                    assert(self.mapping@[rr] == old(self).mapping@[rr]);
                }
            }
        }
    }
}



/// First day in `[a, b)` on which row `t` holds `Some(x)`; `b` when none
/// does.
pub open spec fn first_day_of(t: Seq<Option<usize>>, a: int, b: int, x: usize) -> int
    decreases b - a,
{
    if a >= b {
        b
    } else if t[a] == Some(x) {
        a
    } else {
        first_day_of(t, a + 1, b, x)
    }
}

pub proof fn lemma_first_day_bounds(t: Seq<Option<usize>>, a: int, b: int, x: usize)
    requires
        a <= b,
    ensures
        a <= first_day_of(t, a, b, x) <= b,
    decreases b - a,
{
    if a < b && t[a] != Some(x) {
        lemma_first_day_bounds(t, a + 1, b, x);
    }
}

/// A witness day bounds the first day from above, and the first day really
/// holds the value.
pub proof fn lemma_first_day_le(t: Seq<Option<usize>>, a: int, b: int, x: usize, dd: int)
    requires
        a <= dd < b,
        t[dd] == Some(x),
    ensures
        a <= first_day_of(t, a, b, x) <= dd,
        t[first_day_of(t, a, b, x)] == Some(x),
    decreases dd - a,
{
    if a < dd && t[a] != Some(x) {
        lemma_first_day_le(t, a + 1, b, x, dd);
    }
}

/// Days without the value push the first day past them.
pub proof fn lemma_first_day_ge(t: Seq<Option<usize>>, a: int, b: int, x: usize, e: int)
    requires
        a <= e <= b,
        forall|dd: int| a <= dd < e ==> t[dd] != Some(x),
    ensures
        first_day_of(t, a, b, x) >= e,
    decreases e - a,
{
    if a < e {
        lemma_first_day_ge(t, a + 1, b, x, e);
    } else {
        lemma_first_day_bounds(t, a, b, x);
    }
}

impl Solution {
    /// The reservations occupying any day of `range` in the given cottage,
    /// with consecutive duplicates collapsed. When every occupant's days are
    /// contiguous (as they are in any solution built from whole-reservation
    /// moves), each occupant appears exactly once, in the order of their
    /// first occupied day within the range.
    #[verifier::loop_isolation(false)]
    pub fn is_taken_by(&self, cottage: usize, range: DayRange) -> (out: Vec<usize>)
        requires
            self.wf(),
            cottage < self.cottages,
            range.start <= range.end,
            range.end <= self.timeslots,
        ensures
            forall|x: usize| #[trigger]
                out@.contains(x) <==> (exists|d: int|
                    range.start <= d < range.end && self@.row(cottage as int)[d] == Some(x)),
            forall|i: int| 0 <= i < out@.len() ==> out@[i] < self.mapping@.len(),
            occupant_contiguous(self@.row(cottage as int)) ==> out@.no_duplicates(),
            occupant_contiguous(self@.row(cottage as int)) ==> (forall|i: int, j: int|
                #![trigger out@[i], out@[j]]
                0 <= i < j < out@.len() ==> first_day_of(
                    self@.row(cottage as int),
                    range.start as int,
                    range.end as int,
                    out@[i],
                ) < first_day_of(
                    self@.row(cottage as int),
                    range.start as int,
                    range.end as int,
                    out@[j],
                )),
            out@.len() <= range.end - range.start,
    {
        proof {
            lemma_row_bounds(cottage as int, self.cottages as int, self.timeslots as int);
        }
        let ghost row = self@.row(cottage as int);
        let base: usize = cottage * self.timeslots;
        let mut out: Vec<usize> = Vec::new();
        let mut d: usize = range.start;
        while d < range.end
            invariant
                range.start <= d <= range.end,
                out@.len() <= d - range.start,
                forall|x: usize| #[trigger]
                    out@.contains(x) <==> (exists|dd: int|
                        range.start <= dd < d && row[dd] == Some(x)),
                forall|i: int| 0 <= i < out@.len() ==> out@[i] < self.mapping@.len(),
                (d > range.start && row[d - 1] is Some) ==> (out@.len() > 0 && out@.last()
                    == (row[d - 1])->0),
                occupant_contiguous(row) ==> out@.no_duplicates(),
                occupant_contiguous(row) ==> (forall|i: int|
                    #![trigger out@[i]]
                    0 <= i < out@.len() ==> range.start <= first_day_of(
                        row,
                        range.start as int,
                        range.end as int,
                        out@[i],
                    ) < d),
                occupant_contiguous(row) ==> (forall|i: int, j: int|
                    #![trigger out@[i], out@[j]]
                    0 <= i < j < out@.len() ==> first_day_of(
                        row,
                        range.start as int,
                        range.end as int,
                        out@[i],
                    ) < first_day_of(row, range.start as int, range.end as int, out@[j])),
            decreases range.end - d,
        {
            let cell: Option<usize> = self.timetable[base + d];
            proof {
                assert(cell == row[d as int]);
            }
            match cell {
                None => {},
                Some(x) => {
                    let mut push_it: bool = true;
                    if out.len() > 0 {
                        if *out.last().unwrap() == x {
                            push_it = false;
                        }
                    }
                    if push_it {
                        proof {
                            if occupant_contiguous(row) && out@.contains(x) {
                                let dd = choose|dd: int|
                                    range.start <= dd < d && row[dd] == Some(x);
                                assert(row[d as int - 1] == Some(x));
                                assert(out@.last() == x);
                                assert(false);
                            }
                            if occupant_contiguous(row) {
                                // The new occupant first appears exactly today.
                                let a = range.start as int;
                                let b = range.end as int;
                                lemma_first_day_le(row, a, b, x, d as int);
                                assert forall|dd: int| a <= dd < d implies row[dd] != Some(x)
                                    by {
                                    if row[dd] == Some(x) {
                                        assert(out@.contains(x));
                                    }
                                }
                                lemma_first_day_ge(row, a, b, x, d as int);
                                assert(first_day_of(row, a, b, x) == d);
                            }
                        }
                        let ghost prev = out@;
                        out.push(x);
                        proof {
                            assert forall|y: usize| #[trigger]
                                out@.contains(y) <==> (prev.contains(y) || y == x) by {
                                if out@.contains(y) {
                                    let i = choose|i: int|
                                        0 <= i < out@.len() && out@[i] == y;
                                    if i < prev.len() {
                                        assert(prev[i] == y);
                                    }
                                }
                                if prev.contains(y) {
                                    let i = choose|i: int|
                                        0 <= i < prev.len() && prev[i] == y;
                                    assert(out@[i] == y);
                                }
                                if y == x {
                                    assert(out@[out@.len() - 1] == y);
                                }
                            }
                            assert(self.timetable@[base + d] is Some);
                        }
                    } else {
                        proof {
                            assert(out@.contains(x));
                        }
                    }
                },
            }
            d += 1;
        }
        out
    }

    /// The straightforward complete solution: reservation `i` is assigned to
    /// cottage `i` over its own day interval.
    #[verifier::loop_isolation(false)]
    pub fn naive(problem: &Problem) -> (r: Solution)
        requires
            problem.reservations.wf(),
            problem.reservations.arrival@.len() >= 1,
            problem.reservations.spec_reservations() <= problem.cottages.spec_cottages(),
            problem.cottages.spec_cottages() * spec_max_slot(
                problem.reservations.arrival@,
                problem.reservations.stay@,
                problem.reservations.arrival@.len() as int,
            ) <= MAX_CELLS,
            problem.reservations.id@.len() <= MAX_CELLS,
        ensures
            r.wf(),
            r.cottages == problem.cottages.spec_cottages(),
            r.timeslots == spec_max_slot(
                problem.reservations.arrival@,
                problem.reservations.stay@,
                problem.reservations.arrival@.len() as int,
            ),
            r.mapping@.len() == problem.reservations.spec_reservations(),
            forall|j: int| 0 <= j < r.mapping@.len() ==> r.mapping@[j] == Some(j as usize),
            r.unallocated@.len() == 0,
            forall|c: int, dd: int|
                0 <= c < r.mapping@.len() && 0 <= dd < r.timeslots ==> r@.row(c)[dd] == (if
                problem.reservations.arrival@[c] <= dd < problem.reservations.departure@[c] {
                    Some(c as usize)
                } else {
                    None
                }),
            forall|c: int, dd: int|
                r.mapping@.len() <= c < r.cottages && 0 <= dd < r.timeslots ==> r@.row(c)[dd]
                    is None,
    {
        broadcast use vstd::set::group_set_axioms;

        let reservations: usize = problem.reservations.reservations();
        let mut out = Solution::empty(problem);
        let ghost n = reservations as int;
        let ghost cc = out.cottages as int;
        let ghost tt = out.timeslots as int;
        proof {
            lemma_max_slot_ge(
                problem.reservations.arrival@,
                problem.reservations.stay@,
                n,
            );
            assert forall|c: int, dd: int| 0 <= c < cc && 0 <= dd < tt implies out@.row(c)[dd]
                is None by {
                lemma_row_bounds(c, cc, tt);
            }
        }
        let mut i: usize = 0;
        while i < reservations
            invariant
                i <= reservations,
                out.wf(),
                out.cottages as int == cc,
                out.timeslots as int == tt,
                n <= cc,
                out.mapping@.len() == n,
                forall|j: int| 0 <= j < i ==> out.mapping@[j] == Some(j as usize),
                forall|j: int| i <= j < n ==> out.mapping@[j] is None,
                forall|c: int, dd: int|
                    0 <= c < i && 0 <= dd < tt ==> out@.row(c)[dd] == (if
                    problem.reservations.arrival@[c] <= dd
                        < problem.reservations.departure@[c] {
                        Some(c as usize)
                    } else {
                        None
                    }),
                forall|c: int, dd: int|
                    i <= c < cc && 0 <= dd < tt ==> out@.row(c)[dd] is None,
            decreases reservations - i,
        {
            let range = problem.reservations.range(i);
            let ghost before = out@;
            proof {
                assert(range.start < range.end);
                assert(range.end <= tt);
                assert(out.unallocated@.contains(i)) by {
                    assert(out.mapping@[i as int] is None);
                }
                assert(out@.unallocated.contains(i));
                lemma_row_bounds(i as int, cc, tt);
            }
            out.assign(i, i, range);
            proof {
                let after = out@;
                assert forall|c: int, dd: int|
                    0 <= c < cc && 0 <= dd < tt && c != i implies after.row(c)[dd] == before.row(
                    c,
                )[dd] by {
                    lemma_row_bounds(c, cc, tt);
                    lemma_row_bounds(i as int, cc, tt);
                    lemma_other_rows(before.timetable, after.timetable, i as int, cc, tt, c);
                }
                assert forall|dd: int| 0 <= dd < tt implies after.row(i as int)[dd] == (if
                    range.start <= dd < range.end {
                    Some(i)
                } else {
                    None
                }) by {
                    lemma_row_bounds(i as int, cc, tt);
                    assert(after.row(i as int)[dd] == after.timetable[i * tt + dd]);
                    assert(before.row(i as int)[dd] == before.timetable[i * tt + dd]);
                }
            }
            i += 1;
        }
        proof {
            if out.unallocated@.len() > 0 {
                let rr = out.unallocated@[0];
                assert(out.unallocated@.contains(rr));
                assert(out.mapping@[rr as int] is Some);
            }
        }
        out
    }
}

/// Gap-timeline consistency: in a well-formed solution — in particular after
/// any sequence of `assign`/`unassign` calls, each of which preserves
/// well-formedness — an occupied day stores 0, a vacant day stores exactly
/// the length of the maximal vacant run containing it (the span between the
/// nearest occupied day or row boundary on either side, as an independent
/// rescan of the occupancy row would find them), and every day of that run
/// stores the same value.
pub proof fn lemma_gap_timeline_consistency(s: Solution, c: int, d: int)
    requires
        s.wf(),
        0 <= c < s.cottages,
        0 <= d < s.timeslots,
    ensures
        s@.row(c)[d] is Some ==> s.gap_row(c)[d] == 0,
        s@.row(c)[d] is None ==> s.gap_row(c)[d] == run_end(s@.row(c), d) - run_start(
            s@.row(c),
            d,
        ),
        s@.row(c)[d] is None ==> forall|d2: int|
            run_start(s@.row(c), d) <= d2 < run_end(s@.row(c), d) ==> s.gap_row(c)[d2]
                == s.gap_row(c)[d],
{
    lemma_row_bounds(c, s.cottages as int, s.timeslots as int);
    let t = s@.row(c);
    let g = s.gap_row(c);
    assert(gap_row_ok(t, g));
    assert(g[d] == gap_at(t, d));
    if t[d] is None {
        lemma_run_block(t, g, d);
    }
}

/// Round trip: `assign` immediately followed by `unassign` of the same
/// target is a no-op on the abstract state — mapping, occupancy table and
/// unassigned set are restored exactly, and with them (by well-formedness)
/// the gap table.
pub proof fn lemma_assign_unassign_round_trip(
    v: SolView,
    cottage: usize,
    reservation: usize,
    a: int,
    b: int,
)
    requires
        v.can_assign(cottage, reservation, a, b),
    ensures
        v.do_assign(cottage, reservation, a, b).can_unassign(cottage, reservation, a, b),
        v.do_assign(cottage, reservation, a, b).do_unassign(cottage, reservation, a, b) == v,
{
    broadcast use vstd::set::group_set_axioms;

    let v1 = v.do_assign(cottage, reservation, a, b);
    let v2 = v1.do_unassign(cottage, reservation, a, b);
    let base = cottage * v.timeslots;
    assert forall|d: int| a <= d < b implies v1.row(cottage as int)[d] == Some(reservation) by {
        lemma_row_bounds(cottage as int, v.cottages as int, v.timeslots as int);
    }
    assert(v2.mapping =~= v.mapping);
    assert(v2.timetable =~= v.timetable) by {
        assert forall|k: int| 0 <= k < v.timetable.len() implies v2.timetable[k]
            == v.timetable[k] by {
            if base + a <= k < base + b {
                lemma_row_bounds(cottage as int, v.cottages as int, v.timeslots as int);
                assert(v.row(cottage as int)[k - base] == v.timetable[k]);
            }
        }
    }
    assert(v2.unallocated =~= v.unallocated);
    assert(v2 =~= v);
}

/// The inverse round trip: `unassign` immediately followed by `assign` of
/// the same target restores the abstract state exactly.
pub proof fn lemma_unassign_assign_round_trip(
    v: SolView,
    cottage: usize,
    reservation: usize,
    a: int,
    b: int,
)
    requires
        v.can_unassign(cottage, reservation, a, b),
    ensures
        v.do_unassign(cottage, reservation, a, b).can_assign(cottage, reservation, a, b),
        v.do_unassign(cottage, reservation, a, b).do_assign(cottage, reservation, a, b) == v,
{
    broadcast use vstd::set::group_set_axioms;

    let v1 = v.do_unassign(cottage, reservation, a, b);
    let v2 = v1.do_assign(cottage, reservation, a, b);
    let base = cottage * v.timeslots;
    assert forall|d: int| a <= d < b implies v1.row(cottage as int)[d] is None by {
        lemma_row_bounds(cottage as int, v.cottages as int, v.timeslots as int);
    }
    assert(v2.mapping =~= v.mapping);
    assert(v2.timetable =~= v.timetable) by {
        assert forall|k: int| 0 <= k < v.timetable.len() implies v2.timetable[k]
            == v.timetable[k] by {
            if base + a <= k < base + b {
                lemma_row_bounds(cottage as int, v.cottages as int, v.timeslots as int);
                assert(v.row(cottage as int)[k - base] == v.timetable[k]);
            }
        }
    }
    assert(v2.unallocated =~= v.unallocated);
    assert(v2 =~= v);
}

/// The gap table carries no information of its own: two well-formed
/// solutions with the same shape and the same occupancy table have identical
/// gap tables.
pub proof fn lemma_gap_table_determined(s1: Solution, s2: Solution)
    requires
        s1.wf(),
        s2.wf(),
        s1.cottages == s2.cottages,
        s1.timeslots == s2.timeslots,
        s1.timetable@ == s2.timetable@,
    ensures
        s1.gap_timetable@ == s2.gap_timetable@,
{
    let cc = s1.cottages as int;
    let tt = s1.timeslots as int;
    assert forall|k: int| 0 <= k < s1.gap_timetable@.len() implies s1.gap_timetable@[k]
        == s2.gap_timetable@[k] by {
        vstd::arithmetic::div_mod::lemma_fundamental_div_mod(k, tt);
        let c = k / tt;
        let d = k % tt;
        assert(0 <= d < tt) by {
            vstd::arithmetic::div_mod::lemma_mod_bound(k, tt);
        }
        assert(0 <= c < cc) by {
            if c < 0 {
                assert(c * tt + d < 0) by (nonlinear_arith)
                    requires c <= -1, 0 <= d < tt,
                {}
            }
            if c >= cc {
                assert(c * tt + d >= cc * tt) by (nonlinear_arith)
                    requires c >= cc, 0 <= d, tt >= 0,
                {}
            }
        }
        assert(k == c * tt + d) by {
            assert(tt * c == c * tt) by (nonlinear_arith);
        }
        lemma_row_bounds(c, cc, tt);
        assert(s1.gap_row(c)[d] == s1.gap_timetable@[k]);
        assert(s2.gap_row(c)[d] == s2.gap_timetable@[k]);
        assert(s1@.row(c) =~= s2@.row(c));
        assert(s1.gap_row(c)[d] == gap_at(s1@.row(c), d));
        assert(s2.gap_row(c)[d] == gap_at(s2@.row(c), d));
    }
    assert(s1.gap_timetable@ =~= s2.gap_timetable@);
}

} // verus!
