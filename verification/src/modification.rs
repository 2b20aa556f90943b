use vstd::prelude::*;

use crate::cost::{
    fits, lemma_cost_locality, lemma_spec_cost_single_bounded, spec_cost, spec_cost_single, Cost,
    CostView, COST_BOUND,
};
use crate::problem::{DayRange, Problem};
use crate::solution::{region_fill, SolView, Solution, MAX_CELLS};

verus! {

/// The subject of one atomic move: which reservation, which cottage, and
/// which days.
#[derive(Debug, Clone, Copy, PartialEq, Eq, Structural)]
pub struct Target {
    pub reservation: usize,
    pub cottage: usize,
    pub range: DayRange,
}

impl Target {
    pub fn new(reservation: usize, cottage: usize, range: DayRange) -> (r: Target)
        ensures
            r == (Target { reservation, cottage, range }),
    {
        Target { reservation, cottage, range }
    }

    /// The target names a real reservation, a real cottage, and exactly that
    /// reservation's own day interval.
    pub open spec fn wf_for(self, p: Problem) -> bool {
        &&& self.reservation < p.reservations.arrival@.len()
        &&& self.reservation < p.reservations.departure@.len()
        &&& self.cottage < p.cottages.spec_cottages()
        &&& self.range.start == p.reservations.arrival@[self.reservation as int]
        &&& self.range.end == p.reservations.departure@[self.reservation as int]
    }
}

/// One reversible atomic move over a `Target`; the inverse of `Assign` is
/// `Unassign` over the same target and vice versa.
#[derive(Debug, Clone, Copy)]
pub enum Modification {
    Unassign(Target),
    Assign(Target),
}

/// Mapping and occupancy agree with the problem's day intervals: a mapped
/// reservation occupies exactly its own interval in its cottage and nothing
/// else, and every occupant is mapped.
pub open spec fn linked(p: Problem, v: SolView) -> bool {
    &&& v.mapping.len() == p.reservations.arrival@.len()
    &&& v.mapping.len() == p.reservations.departure@.len()
    &&& forall|r: int|
        0 <= r < v.mapping.len() && (#[trigger] v.mapping[r]) is Some ==> occupies_exactly(p, v, r)
    &&& forall|k: int|
        0 <= k < v.timetable.len() && (#[trigger] v.timetable[k]) is Some ==> ((v.timetable[k]->0)
            < v.mapping.len() && v.mapping[(v.timetable[k]->0) as int] is Some)
}

/// Reservation `r` is mapped to some cottage and its cells are exactly its
/// own day interval in that cottage's row.
pub open spec fn occupies_exactly(p: Problem, v: SolView, r: int) -> bool {
    let c = v.mapping[r]->0;
    &&& c < v.cottages
    &&& p.reservations.arrival@[r] < p.reservations.departure@[r]
    &&& p.reservations.departure@[r] <= v.timeslots
    &&& forall|c2: int, d: int|
        0 <= c2 < v.cottages && 0 <= d < v.timeslots ==> ((#[trigger] v.row(c2)[d]) == Some(
            r as usize,
        ) <==> (c2 == c && p.reservations.arrival@[r] <= d < p.reservations.departure@[r]))
}

/// Filling a window inside row `c` of a flattened table changes exactly the
/// filled days of that row and nothing in any other row.
pub proof fn lemma_fill_rows(
    t0: Seq<Option<usize>>,
    val: Option<usize>,
    cc: int,
    tt: int,
    c: int,
    a: int,
    b: int,
)
    requires
        t0.len() == cc * tt,
        0 <= c < cc,
        0 <= a <= b <= tt,
    ensures
        region_fill(t0, c * tt + a, c * tt + b, val).len() == t0.len(),
        forall|c2: int|
            0 <= c2 < cc && c2 != c ==> #[trigger] region_fill(
                t0,
                c * tt + a,
                c * tt + b,
                val,
            ).subrange(c2 * tt, c2 * tt + tt) == t0.subrange(c2 * tt, c2 * tt + tt),
        forall|d: int|
            0 <= d < tt ==> #[trigger] region_fill(t0, c * tt + a, c * tt + b, val).subrange(
                c * tt,
                c * tt + tt,
            )[d] == (if a <= d < b {
                val
            } else {
                t0.subrange(c * tt, c * tt + tt)[d]
            }),
{
    let t1 = region_fill(t0, c * tt + a, c * tt + b, val);
    crate::solution::lemma_row_bounds(c, cc, tt);
    assert forall|c2: int| 0 <= c2 < cc && c2 != c implies #[trigger] t1.subrange(
        c2 * tt,
        c2 * tt + tt,
    ) == t0.subrange(c2 * tt, c2 * tt + tt) by {
        crate::solution::lemma_other_rows(t0, t1, c, cc, tt, c2);
    }
    assert forall|d: int| 0 <= d < tt implies #[trigger] t1.subrange(c * tt, c * tt + tt)[d] == (
    if a <= d < b {
        val
    } else {
        t0.subrange(c * tt, c * tt + tt)[d]
    }) by {
        assert(t1.subrange(c * tt, c * tt + tt)[d] == t1[c * tt + d]);
    }
}

impl Modification {
    pub open spec fn spec_target(self) -> Target {
        match self {
            Modification::Unassign(t) => t,
            Modification::Assign(t) => t,
        }
    }

    /// The move with the opposite tag over the same target.
    pub open spec fn inverse(self) -> Modification {
        match self {
            Modification::Unassign(t) => Modification::Assign(t),
            Modification::Assign(t) => Modification::Unassign(t),
        }
    }

    /// The move can be applied to this state: its target is the
    /// reservation's own interval, and the underlying `assign`/`unassign`
    /// precondition holds.
    pub open spec fn can_apply(self, p: Problem, v: SolView) -> bool {
        let t = self.spec_target();
        &&& t.wf_for(p)
        &&& match self {
            Modification::Assign(t) => v.can_assign(
                t.cottage,
                t.reservation,
                t.range.start as int,
                t.range.end as int,
            ),
            Modification::Unassign(t) => v.can_unassign(
                t.cottage,
                t.reservation,
                t.range.start as int,
                t.range.end as int,
            ),
        }
    }

    /// The state after applying the move.
    pub open spec fn apply(self, v: SolView) -> SolView {
        let t = self.spec_target();
        match self {
            Modification::Assign(t) => v.do_assign(
                t.cottage,
                t.reservation,
                t.range.start as int,
                t.range.end as int,
            ),
            Modification::Unassign(t) => v.do_unassign(
                t.cottage,
                t.reservation,
                t.range.start as int,
                t.range.end as int,
            ),
        }
    }

    /// The inverse move can be applied, undoing this move.
    pub open spec fn can_unapply(self, p: Problem, v: SolView) -> bool {
        self.inverse().can_apply(p, v)
    }

    /// The state after undoing the move.
    pub open spec fn unapply(self, v: SolView) -> SolView {
        self.inverse().apply(v)
    }
}

/// Applying a move and then its inverse restores the abstract state, and the
/// inverse is applicable as soon as the move has been applied.
pub proof fn lemma_mod_round_trip(m: Modification, p: Problem, v: SolView)
    requires
        m.can_apply(p, v),
    ensures
        m.can_unapply(p, m.apply(v)),
        m.unapply(m.apply(v)) == v,
{
    let t = m.spec_target();
    match m {
        Modification::Assign(t) => {
            crate::solution::lemma_assign_unassign_round_trip(
                v,
                t.cottage,
                t.reservation,
                t.range.start as int,
                t.range.end as int,
            );
        },
        Modification::Unassign(t) => {
            crate::solution::lemma_unassign_assign_round_trip(
                v,
                t.cottage,
                t.reservation,
                t.range.start as int,
                t.range.end as int,
            );
        },
    }
}

/// Applying a move keeps the solution shaped for the problem.
pub proof fn lemma_mod_fits(m: Modification, p: Problem, v: SolView)
    requires
        fits(p, v),
        m.can_apply(p, v),
    ensures
        fits(p, m.apply(v)),
        m.apply(v).cottages == v.cottages,
        m.apply(v).timeslots == v.timeslots,
        m.apply(v).mapping.len() == v.mapping.len(),
        m.apply(v).timetable.len() == v.timetable.len(),
{
}

/// Applying an applicable move preserves the link between mapping,
/// occupancy, and the problem's day intervals.
pub proof fn lemma_mod_linked(m: Modification, p: Problem, v: SolView)
    requires
        fits(p, v),
        m.can_apply(p, v),
        linked(p, v),
    ensures
        linked(p, m.apply(v)),
{
    let t = m.spec_target();
    let v1 = m.apply(v);
    let cc = v.cottages as int;
    let tt = v.timeslots as int;
    let a = t.range.start as int;
    let b = t.range.end as int;
    let c = t.cottage as int;
    let r = t.reservation as int;
    crate::solution::lemma_row_bounds(c, cc, tt);
    match m {
        Modification::Assign(t2) => {
            let val = Some(t.reservation);
            lemma_fill_rows(v.timetable, val, cc, tt, c, a, b);
            assert(v1.timetable == region_fill(v.timetable, c * tt + a, c * tt + b, val));
            assert forall|c2: int| 0 <= c2 < cc && c2 != c implies v1.row(c2) == v.row(c2) by {}
            assert forall|d: int| 0 <= d < tt implies #[trigger] v1.row(c)[d] == (if a <= d < b {
                val
            } else {
                v.row(c)[d]
            }) by {}
            // No cell held the reservation before: it was unmapped.
            assert forall|c2: int, d: int| 0 <= c2 < cc && 0 <= d < tt implies (
            #[trigger] v.row(c2)[d]) != Some(t.reservation) by {
                crate::solution::lemma_row_bounds(c2, cc, tt);
                if v.row(c2)[d] == Some(t.reservation) {
                    assert(v.timetable[c2 * tt + d] == Some(t.reservation));
                    assert(v.mapping[r] is Some);
                }
            }
            assert forall|r2: int|
                0 <= r2 < v1.mapping.len() && (#[trigger] v1.mapping[r2]) is Some
                implies occupies_exactly(p, v1, r2) by {
                if r2 == r {
                    assert forall|c2: int, d: int| 0 <= c2 < cc && 0 <= d < tt implies ((
                    #[trigger] v1.row(c2)[d]) == Some(r2 as usize) <==> (c2 == c
                        && p.reservations.arrival@[r2] <= d < p.reservations.departure@[r2]))
                        by {
                        if c2 == c {
                            assert(v1.row(c)[d] == (if a <= d < b {
                                val
                            } else {
                                v.row(c)[d]
                            }));
                        } else {
                            assert(v1.row(c2) == v.row(c2));
                        }
                    }
                } else {
                    assert(occupies_exactly(p, v, r2));
                    let c3 = (v.mapping[r2]->0) as int;
                    assert forall|c2: int, d: int| 0 <= c2 < cc && 0 <= d < tt implies ((
                    #[trigger] v1.row(c2)[d]) == Some(r2 as usize) <==> (c2 == c3
                        && p.reservations.arrival@[r2] <= d < p.reservations.departure@[r2]))
                        by {
                        assert(v.row(c2)[d] == Some(r2 as usize) <==> (c2 == c3
                            && p.reservations.arrival@[r2] <= d
                            < p.reservations.departure@[r2]));
                        if c2 == c {
                            assert(v1.row(c)[d] == (if a <= d < b {
                                val
                            } else {
                                v.row(c)[d]
                            }));
                            if a <= d < b {
                                assert(v.row(c)[d] is None);
                            }
                        } else {
                            assert(v1.row(c2) == v.row(c2));
                        }
                    }
                }
            }
            assert forall|k: int|
                0 <= k < v1.timetable.len() && (#[trigger] v1.timetable[k]) is Some
                implies v1.mapping[(v1.timetable[k]->0) as int] is Some by {
                if c * tt + a <= k < c * tt + b {
                } else {
                    assert(v1.timetable[k] == v.timetable[k]);
                }
            }
        },
        Modification::Unassign(t2) => {
            lemma_fill_rows(v.timetable, None, cc, tt, c, a, b);
            assert(v1.timetable == region_fill(v.timetable, c * tt + a, c * tt + b, None));
            assert forall|c2: int| 0 <= c2 < cc && c2 != c implies v1.row(c2) == v.row(c2) by {}
            assert forall|d: int| 0 <= d < tt implies #[trigger] v1.row(c)[d] == (if a <= d < b {
                None
            } else {
                v.row(c)[d]
            }) by {}
            assert(occupies_exactly(p, v, r));
            assert forall|r2: int|
                0 <= r2 < v1.mapping.len() && (#[trigger] v1.mapping[r2]) is Some
                implies occupies_exactly(p, v1, r2) by {
                assert(r2 != r);
                assert(v.mapping[r2] is Some);
                assert(occupies_exactly(p, v, r2));
                let c3 = (v.mapping[r2]->0) as int;
                assert forall|c2: int, d: int| 0 <= c2 < cc && 0 <= d < tt implies ((
                #[trigger] v1.row(c2)[d]) == Some(r2 as usize) <==> (c2 == c3
                    && p.reservations.arrival@[r2] <= d < p.reservations.departure@[r2])) by {
                    assert(v.row(c2)[d] == Some(r2 as usize) <==> (c2 == c3
                        && p.reservations.arrival@[r2] <= d < p.reservations.departure@[r2]));
                    if c2 == c {
                        assert(v1.row(c)[d] == (if a <= d < b {
                            None
                        } else {
                            v.row(c)[d]
                        }));
                        if a <= d < b {
                            assert(v.row(c)[d] == Some(t.reservation));
                        }
                    } else {
                        assert(v1.row(c2) == v.row(c2));
                    }
                }
            }
            assert forall|k: int|
                0 <= k < v1.timetable.len() && (#[trigger] v1.timetable[k]) is Some
                implies v1.mapping[(v1.timetable[k]->0) as int] is Some by {
                assert(!(c * tt + a <= k < c * tt + b));
                assert(v1.timetable[k] == v.timetable[k]);
                let x = v.timetable[k]->0;
                assert(v.mapping[x as int] is Some);
                if x as int == r {
                    // The cleared window was exactly r's block, so no cell
                    // outside it can hold r.
                    vstd::arithmetic::div_mod::lemma_fundamental_div_mod(k, tt);
                    let c2 = k / tt;
                    let d = k % tt;
                    assert(0 <= d < tt) by {
                        vstd::arithmetic::div_mod::lemma_mod_bound(k, tt);
                    }
                    assert(0 <= c2 < cc) by {
                        if c2 < 0 {
                            assert(c2 * tt + d < 0) by (nonlinear_arith)
                                requires
                                    c2 <= -1,
                                    0 <= d < tt,
                            {
                            }
                        }
                        if c2 >= cc {
                            assert(c2 * tt + d >= cc * tt) by (nonlinear_arith)
                                requires
                                    c2 >= cc,
                                    0 <= d,
                                    tt >= 0,
                            {
                            }
                        }
                    }
                    assert(k == c2 * tt + d) by {
                        assert(tt * c2 == c2 * tt) by (nonlinear_arith);
                    }
                    crate::solution::lemma_row_bounds(c2, cc, tt);
                    assert(v.row(c2)[d] == Some(t.reservation));
                    assert(c2 == c && a <= d < b);
                    assert(false);
                }
            }
        },
    }
}

impl Modification {
    /// Build the move that takes `reservation` out of the cottage it is
    /// currently mapped to, over its own day interval.
    pub fn unassign(reservation: usize, problem: &Problem, solution: &Solution) -> (r:
        Modification)
        requires
            reservation < solution.mapping@.len(),
            solution.mapping@[reservation as int] is Some,
            reservation < problem.reservations.arrival@.len(),
            reservation < problem.reservations.departure@.len(),
        ensures
            r == Modification::Unassign(
                Target {
                    reservation,
                    cottage: solution.mapping@[reservation as int]->0,
                    range: DayRange {
                        start: problem.reservations.arrival@[reservation as int],
                        end: problem.reservations.departure@[reservation as int],
                    },
                },
            ),
    {
        let cottage: usize = solution.mapping_single(reservation).unwrap();
        let range = problem.reservations.range(reservation);
        Modification::Unassign(Target::new(reservation, cottage, range))
    }

    /// Build the move that puts `reservation` into `cottage` over its own
    /// day interval.
    pub fn assign(reservation: usize, cottage: usize, problem: &Problem) -> (r: Modification)
        requires
            reservation < problem.reservations.arrival@.len(),
            reservation < problem.reservations.departure@.len(),
        ensures
            r == Modification::Assign(
                Target {
                    reservation,
                    cottage,
                    range: DayRange {
                        start: problem.reservations.arrival@[reservation as int],
                        end: problem.reservations.departure@[reservation as int],
                    },
                },
            ),
    {
        let range = problem.reservations.range(reservation);
        Modification::Assign(Target::new(reservation, cottage, range))
    }

    pub fn target(&self) -> (r: &Target)
        ensures
            *r == self.spec_target(),
    {
        match self {
            Modification::Unassign(target) => target,
            Modification::Assign(target) => target,
        }
    }

    /// Apply the move to the live solution and return the cost delta it
    /// caused, measured by the restricted cost of its own (reservation,
    /// cottage) pair — which, by locality, equals the whole-solution delta.
    pub fn progress(&self, problem: &Problem, solution: &mut Solution) -> (r: Cost)
        requires
            old(solution).wf(),
            fits(*problem, old(solution)@),
            self.can_apply(*problem, old(solution)@),
        ensures
            final(solution).wf(),
            fits(*problem, final(solution)@),
            final(solution)@ == self.apply(old(solution)@),
            r@ == spec_cost(*problem, final(solution)@).minus(spec_cost(*problem, old(solution)@)),
            linked(*problem, old(solution)@) ==> linked(*problem, final(solution)@),
    {
        let target = *self.target();
        let cost = Cost::calculate_single(problem, solution, target.reservation, target.cottage);
        match self {
            Modification::Unassign(t) => solution.unassign(t.cottage, t.reservation, t.range),
            Modification::Assign(t) => solution.assign(t.cottage, t.reservation, t.range),
        }
        proof {
            lemma_mod_fits(*self, *problem, old(solution)@);
            let cc = old(solution).cottages as int;
            let tt = old(solution).timeslots as int;
            lemma_fill_rows(
                old(solution)@.timetable,
                if self is Assign {
                    Some(target.reservation)
                } else {
                    None
                },
                cc,
                tt,
                target.cottage as int,
                target.range.start as int,
                target.range.end as int,
            );
            assert(solution@.timetable == region_fill(
                old(solution)@.timetable,
                target.cottage as int * tt + target.range.start as int,
                target.cottage as int * tt + target.range.end as int,
                if self is Assign {
                    Some(target.reservation)
                } else {
                    None
                },
            ));
            assert forall|c2: int|
                0 <= c2 < cc && c2 != target.cottage as int implies old(solution)@.row(c2)
                == solution@.row(c2) by {}
            lemma_cost_locality(
                *problem,
                old(solution)@,
                solution@,
                target.reservation as int,
                target.cottage as int,
            );
            lemma_spec_cost_single_bounded(
                *problem,
                old(solution)@,
                target.reservation as int,
                target.cottage as int,
            );
            lemma_spec_cost_single_bounded(
                *problem,
                solution@,
                target.reservation as int,
                target.cottage as int,
            );
            if linked(*problem, old(solution)@) {
                lemma_mod_linked(*self, *problem, old(solution)@);
            }
        }
        let end_cost = Cost::calculate_single(
            problem,
            solution,
            target.reservation,
            target.cottage,
        );
        end_cost.minus(&cost)
    }

    /// Apply the inverse of the move to the live solution and return the
    /// cost delta, measured the same way as in `progress`.
    pub fn regress(&self, problem: &Problem, solution: &mut Solution) -> (r: Cost)
        requires
            old(solution).wf(),
            fits(*problem, old(solution)@),
            self.can_unapply(*problem, old(solution)@),
        ensures
            final(solution).wf(),
            fits(*problem, final(solution)@),
            final(solution)@ == self.unapply(old(solution)@),
            r@ == spec_cost(*problem, final(solution)@).minus(spec_cost(*problem, old(solution)@)),
            linked(*problem, old(solution)@) ==> linked(*problem, final(solution)@),
    {
        let target = *self.target();
        let cost = Cost::calculate_single(problem, solution, target.reservation, target.cottage);
        match self {
            Modification::Unassign(t) => solution.assign(t.cottage, t.reservation, t.range),
            Modification::Assign(t) => solution.unassign(t.cottage, t.reservation, t.range),
        }
        proof {
            lemma_mod_fits(self.inverse(), *problem, old(solution)@);
            let cc = old(solution).cottages as int;
            let tt = old(solution).timeslots as int;
            lemma_fill_rows(
                old(solution)@.timetable,
                if self is Unassign {
                    Some(target.reservation)
                } else {
                    None
                },
                cc,
                tt,
                target.cottage as int,
                target.range.start as int,
                target.range.end as int,
            );
            assert(solution@.timetable == region_fill(
                old(solution)@.timetable,
                target.cottage as int * tt + target.range.start as int,
                target.cottage as int * tt + target.range.end as int,
                if self is Unassign {
                    Some(target.reservation)
                } else {
                    None
                },
            ));
            assert forall|c2: int|
                0 <= c2 < cc && c2 != target.cottage as int implies old(solution)@.row(c2)
                == solution@.row(c2) by {}
            lemma_cost_locality(
                *problem,
                old(solution)@,
                solution@,
                target.reservation as int,
                target.cottage as int,
            );
            lemma_spec_cost_single_bounded(
                *problem,
                old(solution)@,
                target.reservation as int,
                target.cottage as int,
            );
            lemma_spec_cost_single_bounded(
                *problem,
                solution@,
                target.reservation as int,
                target.cottage as int,
            );
            if linked(*problem, old(solution)@) {
                lemma_mod_linked(self.inverse(), *problem, old(solution)@);
            }
        }
        let end_cost = Cost::calculate_single(
            problem,
            solution,
            target.reservation,
            target.cottage,
        );
        end_cost.minus(&cost)
    }
}


/// A whole sequence of moves is applicable in order, starting from `v`.
pub open spec fn mods_can_apply(p: Problem, v: SolView, mods: Seq<Modification>) -> bool
    decreases mods.len(),
{
    mods.len() == 0 || (mods[0].can_apply(p, v) && mods_can_apply(
        p,
        mods[0].apply(v),
        mods.skip(1),
    ))
}

/// The state after applying a sequence of moves in order.
pub open spec fn mods_apply(v: SolView, mods: Seq<Modification>) -> SolView
    decreases mods.len(),
{
    if mods.len() == 0 {
        v
    } else {
        mods_apply(mods[0].apply(v), mods.skip(1))
    }
}

/// A whole sequence of moves can be undone in reverse order, starting from
/// `v`.
pub open spec fn mods_can_unapply(p: Problem, v: SolView, mods: Seq<Modification>) -> bool
    decreases mods.len(),
{
    mods.len() == 0 || (mods.last().can_unapply(p, v) && mods_can_unapply(
        p,
        mods.last().unapply(v),
        mods.take(mods.len() - 1),
    ))
}

/// The state after undoing a sequence of moves in reverse order.
pub open spec fn mods_unapply(v: SolView, mods: Seq<Modification>) -> SolView
    decreases mods.len(),
{
    if mods.len() == 0 {
        v
    } else {
        mods_unapply(mods.last().unapply(v), mods.take(mods.len() - 1))
    }
}

/// The restricted cost delta one move records: the cost of its own
/// (reservation, cottage) pair after the move minus before.
pub open spec fn mod_delta(p: Problem, v: SolView, m: Modification) -> CostView {
    spec_cost_single(
        p,
        m.apply(v),
        m.spec_target().reservation as int,
        m.spec_target().cottage as int,
    ).minus(spec_cost_single(
        p,
        v,
        m.spec_target().reservation as int,
        m.spec_target().cottage as int,
    ))
}

/// The sum of the per-move restricted deltas along a sequence of moves.
pub open spec fn mods_delta_sum(p: Problem, v: SolView, mods: Seq<Modification>) -> CostView
    decreases mods.len(),
{
    if mods.len() == 0 {
        CostView::zero()
    } else {
        mod_delta(p, v, mods[0]).plus(mods_delta_sum(p, mods[0].apply(v), mods.skip(1)))
    }
}

/// One move's restricted delta equals the whole-solution cost change it
/// causes, and the move keeps the solution shaped for the problem.
pub proof fn lemma_mod_cost(m: Modification, p: Problem, v: SolView)
    requires
        fits(p, v),
        m.can_apply(p, v),
    ensures
        fits(p, m.apply(v)),
        mod_delta(p, v, m) == spec_cost(p, m.apply(v)).minus(spec_cost(p, v)),
{
    lemma_mod_fits(m, p, v);
    let t = m.spec_target();
    let cc = v.cottages as int;
    let tt = v.timeslots as int;
    let v1 = m.apply(v);
    lemma_fill_rows(
        v.timetable,
        if m is Assign {
            Some(t.reservation)
        } else {
            None
        },
        cc,
        tt,
        t.cottage as int,
        t.range.start as int,
        t.range.end as int,
    );
    assert(v1.timetable == region_fill(
        v.timetable,
        t.cottage as int * tt + t.range.start as int,
        t.cottage as int * tt + t.range.end as int,
        if m is Assign {
            Some(t.reservation)
        } else {
            None
        },
    ));
    assert forall|c2: int| 0 <= c2 < cc && c2 != t.cottage as int implies v.row(c2) == v1.row(c2)
        by {}
    lemma_cost_locality(p, v, v1, t.reservation as int, t.cottage as int);
}

/// Appending one applicable move to an applicable sequence keeps the whole
/// sequence applicable, and applying it is the same as applying the sequence
/// and then the move.
pub proof fn lemma_mods_push(p: Problem, v: SolView, mods: Seq<Modification>, m: Modification)
    requires
        mods_can_apply(p, v, mods),
        m.can_apply(p, mods_apply(v, mods)),
    ensures
        mods_can_apply(p, v, mods.push(m)),
        mods_apply(v, mods.push(m)) == m.apply(mods_apply(v, mods)),
        mods_delta_sum(p, v, mods.push(m)) == mods_delta_sum(p, v, mods).plus(
            mod_delta(p, mods_apply(v, mods), m),
        ),
    decreases mods.len(),
{
    if mods.len() == 0 {
        assert(mods.push(m)[0] == m);
        assert(mods.push(m).skip(1) =~= Seq::<Modification>::empty());
        assert(mods_can_apply(p, m.apply(v), mods.push(m).skip(1)));
        assert(mods_apply(m.apply(v), mods.push(m).skip(1)) == m.apply(v));
        assert(mods_delta_sum(p, m.apply(v), mods.push(m).skip(1)) == CostView::zero());
        assert(mods_apply(v, mods) == v);
        assert(mods_delta_sum(p, v, mods) == CostView::zero());
        assert(mods_delta_sum(p, v, mods.push(m)) =~= mods_delta_sum(p, v, mods).plus(
            mod_delta(p, mods_apply(v, mods), m),
        ));
    } else {
        let v1 = mods[0].apply(v);
        assert(mods.push(m).skip(1) =~= mods.skip(1).push(m));
        lemma_mods_push(p, v1, mods.skip(1), m);
        assert(mods.push(m)[0] == mods[0]);
        assert(mods_delta_sum(p, v, mods.push(m)) =~= mods_delta_sum(p, v, mods).plus(
            mod_delta(p, mods_apply(v, mods), m),
        ));
    }
}

/// Decomposing an applicable sequence at its last move: the prefix is
/// applicable, the last move is applicable after the prefix, and the final
/// state factors accordingly.
pub proof fn lemma_mods_snoc(p: Problem, v: SolView, mods: Seq<Modification>)
    requires
        mods.len() > 0,
        mods_can_apply(p, v, mods),
    ensures
        mods_can_apply(p, v, mods.take(mods.len() - 1)),
        mods.last().can_apply(p, mods_apply(v, mods.take(mods.len() - 1))),
        mods_apply(v, mods) == mods.last().apply(mods_apply(v, mods.take(mods.len() - 1))),
    decreases mods.len(),
{
    if mods.len() == 1 {
        assert(mods.take(0) =~= Seq::<Modification>::empty());
        assert(mods.skip(1) =~= Seq::<Modification>::empty());
        assert(mods_can_apply(p, v, mods.take(0)));
        assert(mods_apply(v, mods.take(0)) == v);
        assert(mods_apply(mods[0].apply(v), mods.skip(1)) == mods[0].apply(v));
        assert(mods.last() == mods[0]);
    } else {
        let v1 = mods[0].apply(v);
        lemma_mods_snoc(p, v1, mods.skip(1));
        let n = mods.len();
        assert(mods.take(n - 1)[0] == mods[0]);
        assert(mods.take(n - 1).skip(1) =~= mods.skip(1).take(n - 2));
        assert(mods.skip(1).last() == mods.last());
    }
}

/// A fully applied sequence of moves can be undone in reverse order, and
/// undoing it restores the starting state exactly; with it, the cost deltas
/// accumulated while applying and while undoing cancel to zero.
pub proof fn lemma_mods_round_trip(p: Problem, v: SolView, mods: Seq<Modification>)
    requires
        mods_can_apply(p, v, mods),
    ensures
        mods_can_unapply(p, mods_apply(v, mods), mods),
        mods_unapply(mods_apply(v, mods), mods) == v,
        spec_cost(p, mods_apply(v, mods)).minus(spec_cost(p, v)).plus(
            spec_cost(p, mods_unapply(mods_apply(v, mods), mods)).minus(
                spec_cost(p, mods_apply(v, mods)),
            ),
        ) == CostView::zero(),
    decreases mods.len(),
{
    if mods.len() > 0 {
        let n = mods.len();
        let prefix = mods.take(n - 1);
        lemma_mods_snoc(p, v, mods);
        let w1 = mods_apply(v, prefix);
        let w = mods.last().apply(w1);
        lemma_mod_round_trip(mods.last(), p, w1);
        lemma_mods_round_trip(p, v, prefix);
        assert(spec_cost(p, mods_apply(v, mods)).minus(spec_cost(p, v)).plus(
            spec_cost(p, mods_unapply(mods_apply(v, mods), mods)).minus(
                spec_cost(p, mods_apply(v, mods)),
            ),
        ) =~= CostView::zero());
    } else {
        assert(spec_cost(p, mods_apply(v, mods)).minus(spec_cost(p, v)).plus(
            spec_cost(p, mods_unapply(mods_apply(v, mods), mods)).minus(
                spec_cost(p, mods_apply(v, mods)),
            ),
        ) =~= CostView::zero());
    }
}

/// Cost additivity: the whole-solution cost of the state a chain of moves
/// builds equals the starting cost plus the sum of the per-move restricted
/// deltas recorded along the way. Started from an empty accumulated cost,
/// the accumulated deltas are exactly the from-scratch cost difference.
pub proof fn lemma_cost_additivity(p: Problem, v: SolView, mods: Seq<Modification>)
    requires
        fits(p, v),
        mods_can_apply(p, v, mods),
    ensures
        fits(p, mods_apply(v, mods)),
        spec_cost(p, mods_apply(v, mods)) == spec_cost(p, v).plus(mods_delta_sum(p, v, mods)),
    decreases mods.len(),
{
    if mods.len() == 0 {
        assert(spec_cost(p, v).plus(CostView::zero()) =~= spec_cost(p, v));
    } else {
        let v1 = mods[0].apply(v);
        lemma_mod_cost(mods[0], p, v);
        lemma_cost_additivity(p, v1, mods.skip(1));
        assert(spec_cost(p, v).plus(mods_delta_sum(p, v, mods)) =~= spec_cost(
            p,
            mods_apply(v, mods),
        ));
    }
}

/// An ordered log of atomic moves, a cursor separating the applied prefix
/// from the pending suffix, and the accumulated cost delta of everything
/// applied (and undone) so far.
#[derive(Debug)]
pub struct Chain {
    pub chain: Vec<Modification>,
    pub cost: Cost,
    pub step: usize,
}

impl Chain {
    /// The not-yet-applied suffix of the log.
    pub open spec fn pending(self) -> Seq<Modification> {
        self.chain@.skip(self.step as int)
    }

    pub fn new() -> (r: Chain)
        ensures
            r.chain@.len() == 0,
            r.cost@ == CostView::zero(),
            r.step == 0,
    {
        Chain { chain: Vec::new(), cost: Cost::empty(), step: 0 }
    }

    /// Apply every pending move in order to the live solution, accumulating
    /// each recorded delta; the accumulated cost moves by exactly the
    /// from-scratch cost difference of the live solution.
    #[verifier::loop_isolation(false)]
    pub fn progress(&mut self, problem: &Problem, solution: &mut Solution)
        requires
            old(solution).wf(),
            fits(*problem, old(solution)@),
            old(self).step <= old(self).chain@.len(),
            mods_can_apply(*problem, old(solution)@, old(self).pending()),
            old(self).cost@.bounded(COST_BOUND as int / 4),
        ensures
            final(self).chain == old(self).chain,
            final(self).step == final(self).chain@.len(),
            final(solution).wf(),
            fits(*problem, final(solution)@),
            final(solution)@ == mods_apply(old(solution)@, old(self).pending()),
            final(self).cost@ == old(self).cost@.plus(
                spec_cost(*problem, final(solution)@).minus(spec_cost(*problem, old(solution)@)),
            ),
            linked(*problem, old(solution)@) ==> linked(*problem, final(solution)@),
    {
        let ghost v0 = solution@;
        let ghost pend = self.pending();
        let n: usize = self.chain.len();
        let start: usize = self.step;
        let mut i: usize = start;
        proof {
            lemma_spec_cost_bounded_pair(*problem, v0);
            assert(pend.skip(i - start) =~= self.chain@.skip(i as int));
            assert(mods_apply(v0, pend.take(0)) =~= v0) by {
                assert(pend.take(0) =~= Seq::<Modification>::empty());
            }
            assert(mods_can_apply(*problem, v0, pend.take(0)));
            assert(self.cost@.plus(spec_cost(*problem, solution@).minus(spec_cost(*problem, v0)))
                =~= self.cost@);
        }
        while i < n
            invariant
                start <= i <= n,
                self.chain == old(self).chain,
                self.step == start,
                solution.wf(),
                fits(*problem, solution@),
                mods_can_apply(*problem, v0, pend.take(i - start)),
                solution@ == mods_apply(v0, pend.take(i - start)),
                mods_can_apply(*problem, solution@, self.chain@.skip(i as int)),
                self.cost@ == old(self).cost@.plus(
                    spec_cost(*problem, solution@).minus(spec_cost(*problem, v0)),
                ),
                linked(*problem, v0) ==> linked(*problem, solution@),
            decreases n - i,
        {
            let m: Modification = self.chain[i];
            let ghost rest = self.chain@.skip(i as int);
            proof {
                assert(rest[0] == m);
                assert(rest.len() > 0);
                assert(m.can_apply(*problem, solution@));
            }
            let ghost vprev = solution@;
            let delta = m.progress(problem, solution);
            proof {
                lemma_spec_cost_bounded_pair(*problem, vprev);
                lemma_spec_cost_bounded_pair(*problem, solution@);
                assert(delta@.bounded(2 * MAX_CELLS as int));
                lemma_mods_push(*problem, v0, pend.take(i - start), m);
                assert(pend.take(i + 1 - start) =~= pend.take(i - start).push(m));
                assert(rest.skip(1) =~= self.chain@.skip(i + 1));
            }
            self.cost = self.cost.plus(&delta);
            i += 1;
        }
        proof {
            assert(pend.take(n - start) =~= pend);
        }
        self.step = n;
    }

    /// Undo the whole log in reverse order against the live solution,
    /// accumulating each recorded delta, and reset the cursor. The caller
    /// must have applied the whole log first.
    #[verifier::loop_isolation(false)]
    pub fn regress(&mut self, problem: &Problem, solution: &mut Solution)
        requires
            old(solution).wf(),
            fits(*problem, old(solution)@),
            old(self).step == old(self).chain@.len(),
            mods_can_unapply(*problem, old(solution)@, old(self).chain@),
            old(self).cost@.bounded(COST_BOUND as int / 4),
        ensures
            final(self).chain == old(self).chain,
            final(self).step == 0,
            final(solution).wf(),
            fits(*problem, final(solution)@),
            final(solution)@ == mods_unapply(old(solution)@, old(self).chain@),
            final(self).cost@ == old(self).cost@.plus(
                spec_cost(*problem, final(solution)@).minus(spec_cost(*problem, old(solution)@)),
            ),
            linked(*problem, old(solution)@) ==> linked(*problem, final(solution)@),
    {
        let ghost v0 = solution@;
        let n: usize = self.chain.len();
        let mut i: usize = n;
        proof {
            lemma_spec_cost_bounded_pair(*problem, v0);
            assert(self.chain@.take(n as int) =~= self.chain@);
            assert(self.chain@.skip(n as int) =~= Seq::<Modification>::empty());
            assert(mods_unapply(v0, self.chain@.skip(n as int)) == v0);
            assert(self.cost@.plus(spec_cost(*problem, solution@).minus(spec_cost(*problem, v0)))
                =~= self.cost@);
        }
        while i > 0
            invariant
                0 <= i <= n,
                self.chain == old(self).chain,
                self.step == old(self).step,
                solution.wf(),
                fits(*problem, solution@),
                mods_can_unapply(*problem, solution@, self.chain@.take(i as int)),
                solution@ == mods_unapply(v0, self.chain@.skip(i as int)),
                self.cost@ == old(self).cost@.plus(
                    spec_cost(*problem, solution@).minus(spec_cost(*problem, v0)),
                ),
                linked(*problem, v0) ==> linked(*problem, solution@),
            decreases i,
        {
            let m: Modification = self.chain[i - 1];
            proof {
                let pre = self.chain@.take(i as int);
                assert(pre.last() == m);
                assert(m.can_unapply(*problem, solution@));
            }
            let ghost vprev = solution@;
            let delta = m.regress(problem, solution);
            proof {
                lemma_spec_cost_bounded_pair(*problem, vprev);
                lemma_spec_cost_bounded_pair(*problem, solution@);
                assert(delta@.bounded(2 * MAX_CELLS as int));
                let pre = self.chain@.take(i as int);
                assert(pre.take(i - 1) =~= self.chain@.take(i - 1));
                lemma_mods_unapply_cons(v0, m, self.chain@.skip(i as int));
                assert(self.chain@.skip(i - 1) =~= seq![m] + self.chain@.skip(i as int));
            }
            self.cost = self.cost.plus(&delta);
            i -= 1;
        }
        proof {
            assert(self.chain@.skip(0) =~= self.chain@);
            assert(self.chain@.take(0) =~= Seq::<Modification>::empty());
        }
        self.step = 0;
    }

    /// Append a move without applying it.
    pub fn add(&mut self, modification: Modification)
        ensures
            final(self).chain@ == old(self).chain@.push(modification),
            final(self).cost == old(self).cost,
            final(self).step == old(self).step,
    {
        self.chain.push(modification);
    }

    pub fn len(&self) -> (r: usize)
        ensures
            r == self.chain@.len(),
    {
        self.chain.len()
    }

    /// Discard the log and the accumulated cost; the live solution is left
    /// as it is.
    pub fn clear(&mut self)
        ensures
            final(self).chain@.len() == 0,
            final(self).cost@ == CostView::zero(),
            final(self).step == 0,
    {
        self.chain.clear();
        self.cost = Cost::empty();
        self.step = 0;
    }

    pub fn cost(&self) -> (r: &Cost)
        ensures
            r == &self.cost,
    {
        &self.cost
    }
}

/// Undoing a sequence with one move prepended first undoes the sequence,
/// then the prepended move.
pub proof fn lemma_mods_unapply_cons(v: SolView, m: Modification, mods: Seq<Modification>)
    ensures
        mods_unapply(v, seq![m] + mods) == m.unapply(mods_unapply(v, mods)),
    decreases mods.len(),
{
    let whole = seq![m] + mods;
    if mods.len() == 0 {
        assert(whole.last() == m);
        assert(whole.take(0) =~= Seq::<Modification>::empty());
        assert(mods_unapply(m.unapply(v), whole.take(0)) == m.unapply(v));
        assert(mods_unapply(v, mods) == v);
    } else {
        assert(whole.last() == mods.last());
        assert(whole.take(whole.len() - 1) =~= seq![m] + mods.take(mods.len() - 1));
        lemma_mods_unapply_cons(mods.last().unapply(v), m, mods.take(mods.len() - 1));
    }
}

/// Both the whole-solution cost and the zero cost stay within the bound that
/// makes `Cost` arithmetic safe.
pub proof fn lemma_spec_cost_bounded_pair(p: Problem, v: SolView)
    requires
        fits(p, v),
    ensures
        spec_cost(p, v).bounded(MAX_CELLS as int),
        CostView::zero().bounded(MAX_CELLS as int),
{
    crate::cost::lemma_spec_cost_bounded(p, v);
}


/// Undoing keeps the solution shaped for the problem.
pub proof fn lemma_mods_unapply_fits(p: Problem, v: SolView, mods: Seq<Modification>)
    requires
        fits(p, v),
        mods_can_unapply(p, v, mods),
    ensures
        fits(p, mods_unapply(v, mods)),
    decreases mods.len(),
{
    if mods.len() > 0 {
        lemma_mod_fits(mods.last().inverse(), p, v);
        lemma_mods_unapply_fits(p, mods.last().unapply(v), mods.take(mods.len() - 1));
    }
}

/// Undoing never changes the table shape.
pub proof fn lemma_mods_unapply_dims(p: Problem, v: SolView, mods: Seq<Modification>)
    requires
        mods_can_unapply(p, v, mods),
    ensures
        mods_unapply(v, mods).cottages == v.cottages,
        mods_unapply(v, mods).timeslots == v.timeslots,
        mods_unapply(v, mods).mapping.len() == v.mapping.len(),
        mods_unapply(v, mods).timetable.len() == v.timetable.len(),
    decreases mods.len(),
{
    if mods.len() > 0 {
        let v1 = mods.last().unapply(v);
        match mods.last() {
            Modification::Assign(t) => {
                assert(v1 == v.do_unassign(
                    t.cottage,
                    t.reservation,
                    t.range.start as int,
                    t.range.end as int,
                ));
                assert(v1.timetable.len() == v.timetable.len());
            },
            Modification::Unassign(t) => {
                assert(v1 == v.do_assign(
                    t.cottage,
                    t.reservation,
                    t.range.start as int,
                    t.range.end as int,
                ));
                assert(v1.timetable.len() == v.timetable.len());
            },
        }
        lemma_mods_unapply_dims(p, v1, mods.take(mods.len() - 1));
    }
}

/// Undoing a concatenated log first undoes the appended part, then the log
/// it was appended to; undoability of the whole splits the same way.
pub proof fn lemma_unapply_concat(p: Problem, v: SolView, aa: Seq<Modification>, bb: Seq<
    Modification,
>)
    ensures
        mods_can_unapply(p, v, aa + bb) <==> (mods_can_unapply(p, v, bb) && mods_can_unapply(
            p,
            mods_unapply(v, bb),
            aa,
        )),
        mods_can_unapply(p, v, aa + bb) ==> mods_unapply(v, aa + bb) == mods_unapply(
            mods_unapply(v, bb),
            aa,
        ),
    decreases bb.len(),
{
    let whole = aa + bb;
    if bb.len() == 0 {
        assert(whole =~= aa);
        assert(mods_can_unapply(p, v, bb));
        assert(mods_unapply(v, bb) == v);
    } else {
        assert(whole.len() == aa.len() + bb.len());
        assert(whole.last() == bb.last());
        assert(whole.take(whole.len() - 1) =~= aa + bb.take(bb.len() - 1));
        if bb.last().can_unapply(p, v) {
            lemma_unapply_concat(p, bb.last().unapply(v), aa, bb.take(bb.len() - 1));
        }
    }
}

} // verus!
