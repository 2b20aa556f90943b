use vstd::prelude::*;

use crate::gap_cost::{
    calculate_cottage_gaps2, calculate_gaps, lemma_sol_counts_bounds, row_gaps, row_legionella,
    row_weekly, sol_gaps, sol_legionella, sol_weekly,
};
use crate::problem::Problem;
use crate::solution::{SolView, Solution, MAX_CELLS};
use crate::upgrade_cost::{
    calculate_upgrade, calculate_upgrades, lemma_upgrades_bounds, upgrade_ind, upgrades_upto,
};

verus! {

/// All cost counters proved about real solutions stay far below this, so
/// additions and the weighted objective never overflow `i64`.
pub const COST_BOUND: i64 = 0x8000000000000;

/// Abstract value of a `Cost`: the four counters as unbounded integers.
#[verifier::ext_equal]
pub ghost struct CostView {
    pub gaps: int,
    pub gaps_fri_thu: int,
    pub gaps_legionella: int,
    pub upgrades: int,
}

impl CostView {
    pub open spec fn zero() -> CostView {
        CostView { gaps: 0, gaps_fri_thu: 0, gaps_legionella: 0, upgrades: 0 }
    }

    pub open spec fn plus(self, o: CostView) -> CostView {
        CostView {
            gaps: self.gaps + o.gaps,
            gaps_fri_thu: self.gaps_fri_thu + o.gaps_fri_thu,
            gaps_legionella: self.gaps_legionella + o.gaps_legionella,
            upgrades: self.upgrades + o.upgrades,
        }
    }

    pub open spec fn minus(self, o: CostView) -> CostView {
        CostView {
            gaps: self.gaps - o.gaps,
            gaps_fri_thu: self.gaps_fri_thu - o.gaps_fri_thu,
            gaps_legionella: self.gaps_legionella - o.gaps_legionella,
            upgrades: self.upgrades - o.upgrades,
        }
    }

    pub open spec fn bounded(self, m: int) -> bool {
        &&& -m <= self.gaps <= m
        &&& -m <= self.gaps_fri_thu <= m
        &&& -m <= self.gaps_legionella <= m
        &&& -m <= self.upgrades <= m
    }

    pub open spec fn spec_objective(self) -> int {
        6 * self.gaps - 3 * self.gaps_fri_thu + 12 * self.gaps_legionella + self.upgrades
    }
}

/// The solution is shaped for the problem: table sizes line up with the
/// cottage and reservation counts and the penalty matrix, and the weekly
/// phase is a day-of-cycle.
pub open spec fn fits(p: Problem, v: SolView) -> bool {
    &&& v.dims_ok()
    &&& v.cottages == p.cottages.spec_cottages()
    &&& v.mapping.len() == p.allocation_penalty.reservations
    &&& v.cottages == p.allocation_penalty.cottages
    &&& p.allocation_penalty.dims_ok()
    &&& p.phase < 7
    &&& v.timetable.len() <= MAX_CELLS
    &&& v.mapping.len() <= MAX_CELLS
}

/// The four cost counters of a whole solution.
pub open spec fn spec_cost(p: Problem, v: SolView) -> CostView {
    CostView {
        gaps: sol_gaps(v, v.cottages as int),
        gaps_fri_thu: sol_weekly(v, p.phase as int, v.cottages as int),
        gaps_legionella: sol_legionella(v, v.cottages as int),
        upgrades: upgrades_upto(p, v, v.mapping.len() as int),
    }
}

/// The four cost counters restricted to one cottage's gap structure and one
/// reservation's upgrade status.
pub open spec fn spec_cost_single(p: Problem, v: SolView, reservation: int, cottage: int) -> CostView {
    CostView {
        gaps: row_gaps(v.row(cottage)),
        gaps_fri_thu: row_weekly(v.row(cottage), p.phase as int),
        gaps_legionella: row_legionella(v.row(cottage)),
        upgrades: upgrade_ind(p, v, reservation),
    }
}

pub proof fn lemma_spec_cost_bounded(p: Problem, v: SolView)
    requires
        fits(p, v),
    ensures
        spec_cost(p, v).bounded(MAX_CELLS as int),
        CostView::zero().bounded(MAX_CELLS as int),
{
    lemma_sol_counts_bounds(v, p.phase as int, v.cottages as int);
    lemma_upgrades_bounds(p, v, v.mapping.len() as int);
}

pub proof fn lemma_spec_cost_single_bounded(p: Problem, v: SolView, reservation: int, cottage: int)
    requires
        fits(p, v),
        0 <= cottage < v.cottages,
    ensures
        spec_cost_single(p, v, reservation, cottage).bounded(MAX_CELLS as int),
{
    crate::solution::lemma_row_bounds(cottage, v.cottages as int, v.timeslots as int);
    crate::gap_cost::lemma_counts_bounds(v.row(cottage), p.phase as int, 0);
    assert(v.row(cottage).len() == v.timeslots);
    crate::solution::lemma_mul_mono(1, v.cottages as int, v.timeslots as int);
}

/// A change confined to one cottage's row moves each per-cottage sum by
/// exactly that row's change.
pub proof fn lemma_sums_localized(
    v0: SolView,
    v1: SolView,
    phase: int,
    cottage: int,
    upto: int,
)
    requires
        0 <= cottage < v0.cottages,
        v0.cottages == v1.cottages,
        v0.timeslots == v1.timeslots,
        0 <= upto <= v0.cottages,
        forall|c2: int| 0 <= c2 < v0.cottages && c2 != cottage ==> v0.row(c2) == v1.row(c2),
    ensures
        sol_gaps(v1, upto) - sol_gaps(v0, upto) == (if cottage < upto {
            row_gaps(v1.row(cottage)) - row_gaps(v0.row(cottage))
        } else {
            0int
        }),
        sol_legionella(v1, upto) - sol_legionella(v0, upto) == (if cottage < upto {
            row_legionella(v1.row(cottage)) - row_legionella(v0.row(cottage))
        } else {
            0int
        }),
        sol_weekly(v1, phase, upto) - sol_weekly(v0, phase, upto) == (if cottage < upto {
            row_weekly(v1.row(cottage), phase) - row_weekly(v0.row(cottage), phase)
        } else {
            0int
        }),
    decreases upto,
{
    if upto > 0 {
        lemma_sums_localized(v0, v1, phase, cottage, upto - 1);
    }
}

/// A change confined to one reservation's mapping entry moves the upgrade
/// count by exactly that reservation's change.
pub proof fn lemma_upgrades_localized(
    p: Problem,
    v0: SolView,
    v1: SolView,
    reservation: int,
    upto: int,
)
    requires
        0 <= reservation,
        0 <= upto <= v0.mapping.len(),
        v0.mapping.len() == v1.mapping.len(),
        forall|r2: int|
            0 <= r2 < v0.mapping.len() && r2 != reservation ==> v0.mapping[r2] == v1.mapping[r2],
    ensures
        upgrades_upto(p, v1, upto) - upgrades_upto(p, v0, upto) == (if reservation < upto {
            upgrade_ind(p, v1, reservation) - upgrade_ind(p, v0, reservation)
        } else {
            0int
        }),
    decreases upto,
{
    if upto > 0 {
        lemma_upgrades_localized(p, v0, v1, reservation, upto - 1);
    }
}

/// Cost locality: when a state change touches only one cottage's row and one
/// reservation's mapping entry, the change in the whole-solution cost equals
/// the change in the restricted cost of that (reservation, cottage) pair.
pub proof fn lemma_cost_locality(
    p: Problem,
    v0: SolView,
    v1: SolView,
    reservation: int,
    cottage: int,
)
    requires
        fits(p, v0),
        fits(p, v1),
        0 <= cottage < v0.cottages,
        0 <= reservation < v0.mapping.len(),
        v0.cottages == v1.cottages,
        v0.timeslots == v1.timeslots,
        v0.mapping.len() == v1.mapping.len(),
        forall|c2: int| 0 <= c2 < v0.cottages && c2 != cottage ==> v0.row(c2) == v1.row(c2),
        forall|r2: int|
            0 <= r2 < v0.mapping.len() && r2 != reservation ==> v0.mapping[r2] == v1.mapping[r2],
    ensures
        spec_cost(p, v1).minus(spec_cost(p, v0)) == spec_cost_single(
            p,
            v1,
            reservation,
            cottage,
        ).minus(spec_cost_single(p, v0, reservation, cottage)),
{
    lemma_sums_localized(v0, v1, p.phase as int, cottage, v0.cottages as int);
    lemma_upgrades_localized(p, v0, v1, reservation, v0.mapping.len() as int);
    assert(spec_cost(p, v1).minus(spec_cost(p, v0)) =~= spec_cost_single(
        p,
        v1,
        reservation,
        cottage,
    ).minus(spec_cost_single(p, v0, reservation, cottage)));
}

/// The four incremental cost counters: total vacancy gaps, whole weekly
/// cycles inside gaps (a reward), long health-risk gaps, and quality
/// upgrades. A value stands either for an absolute total or for a delta
/// between two states.
#[derive(Debug, PartialEq, Eq, Clone, Structural)]
pub struct Cost {
    gaps: i64,
    gaps_fri_thu: i64,
    gaps_legionella: i64,
    upgrades: i64,
}

impl View for Cost {
    type V = CostView;

    closed spec fn view(&self) -> CostView {
        CostView {
            gaps: self.gaps as int,
            gaps_fri_thu: self.gaps_fri_thu as int,
            gaps_legionella: self.gaps_legionella as int,
            upgrades: self.upgrades as int,
        }
    }
}

impl Cost {
    /// The whole-solution cost, computed from scratch.
    pub fn calculate(problem: &Problem, solution: &Solution) -> (r: Cost)
        requires
            solution.wf(),
            fits(*problem, solution@),
        ensures
            r@ == spec_cost(*problem, solution@),
    {
        proof {
            lemma_spec_cost_bounded(*problem, solution@);
        }
        let (gaps, gaps_fri_thu, gaps_legionella) = calculate_gaps(problem, solution);
        let upgrades = calculate_upgrades(problem, solution);

        Cost {
            gaps: gaps as i64,
            gaps_fri_thu: gaps_fri_thu as i64,
            gaps_legionella: gaps_legionella as i64,
            upgrades: upgrades as i64,
        }
    }

    /// The whole-solution cost of a search instance's live solution.
    pub fn calculate_instance(instance: &crate::instance::Instance) -> (r: Cost)
        requires
            instance.wf(),
        ensures
            r@ == spec_cost(instance.problem, instance.solution@),
    {
        Self::calculate(&instance.problem, &instance.solution)
    }

    /// The cost restricted to one cottage's gap structure and one
    /// reservation's upgrade status; used for incremental deltas.
    pub fn calculate_single(
        problem: &Problem,
        solution: &Solution,
        reservation: usize,
        cottage: usize,
    ) -> (r: Cost)
        requires
            solution.wf(),
            fits(*problem, solution@),
            reservation < solution.mapping@.len(),
            cottage < solution.cottages,
        ensures
            r@ == spec_cost_single(*problem, solution@, reservation as int, cottage as int),
    {
        proof {
            lemma_spec_cost_single_bounded(
                *problem,
                solution@,
                reservation as int,
                cottage as int,
            );
        }
        let (gaps, gaps_fri_thu, gaps_legionella) = calculate_cottage_gaps2(
            problem,
            solution,
            cottage,
        );
        let upgrades = calculate_upgrade(problem, solution, reservation);

        Cost {
            gaps: gaps as i64,
            gaps_fri_thu: gaps_fri_thu as i64,
            gaps_legionella: gaps_legionella as i64,
            upgrades: upgrades as i64,
        }
    }

    /// The scalar objective: plain gaps, long gaps and upgrades cost,
    /// weekly-aligned vacancy cycles pay back.
    pub fn objective(&self) -> (r: i64)
        requires
            self@.bounded(COST_BOUND as int),
        ensures
            r == self@.spec_objective(),
    {
        6 * self.gaps - 3 * self.gaps_fri_thu + 12 * self.gaps_legionella + self.upgrades
    }

    pub fn new(gaps: i64, gaps_fri_thu: i64, gaps_legionella: i64, upgrades: i64) -> (r: Cost)
        ensures
            r@ == (CostView { gaps: gaps as int, gaps_fri_thu: gaps_fri_thu as int,
                gaps_legionella: gaps_legionella as int, upgrades: upgrades as int }),
    {
        Cost { gaps, gaps_fri_thu, gaps_legionella, upgrades }
    }

    pub fn empty() -> (r: Cost)
        ensures
            r@ == CostView::zero(),
    {
        Cost { gaps: 0, gaps_fri_thu: 0, gaps_legionella: 0, upgrades: 0 }
    }

    /// Componentwise sum.
    pub fn plus(&self, other: &Cost) -> (r: Cost)
        requires
            self@.bounded(COST_BOUND as int),
            other@.bounded(COST_BOUND as int),
        ensures
            r@ == self@.plus(other@),
    {
        Cost {
            gaps: self.gaps + other.gaps,
            gaps_fri_thu: self.gaps_fri_thu + other.gaps_fri_thu,
            gaps_legionella: self.gaps_legionella + other.gaps_legionella,
            upgrades: self.upgrades + other.upgrades,
        }
    }

    /// Componentwise difference.
    pub fn minus(&self, other: &Cost) -> (r: Cost)
        requires
            self@.bounded(COST_BOUND as int),
            other@.bounded(COST_BOUND as int),
        ensures
            r@ == self@.minus(other@),
    {
        Cost {
            gaps: self.gaps - other.gaps,
            gaps_fri_thu: self.gaps_fri_thu - other.gaps_fri_thu,
            gaps_legionella: self.gaps_legionella - other.gaps_legionella,
            upgrades: self.upgrades - other.upgrades,
        }
    }
}

} // verus!
