use vstd::prelude::*;

use crate::allocation_penalty::Penalty;
use crate::problem::Problem;
use crate::solution::{SolView, Solution};

verus! {

/// 1 when `r` is assigned and its matrix cell says the serving cottage is an
/// upgrade, 0 otherwise.
pub open spec fn upgrade_ind(p: Problem, v: SolView, r: int) -> int {
    if v.mapping[r] is Some && p.allocation_penalty.spec_get(v.mapping[r]->0 as int, r)
        == Penalty::Upgrade {
        1
    } else {
        0
    }
}

/// Number of upgraded assignments among the first `upto` reservations.
pub open spec fn upgrades_upto(p: Problem, v: SolView, upto: int) -> int
    decreases upto,
{
    if upto <= 0 {
        0
    } else {
        upgrades_upto(p, v, upto - 1) + upgrade_ind(p, v, upto - 1)
    }
}

pub proof fn lemma_upgrades_bounds(p: Problem, v: SolView, upto: int)
    requires
        upto >= 0,
    ensures
        0 <= upgrades_upto(p, v, upto) <= upto,
    decreases upto,
{
    if upto > 0 {
        lemma_upgrades_bounds(p, v, upto - 1);
    }
}

/// Count every reservation currently served by a cottage its matrix cell
/// classifies as an upgrade.
#[verifier::loop_isolation(false)]
pub fn calculate_upgrades(problem: &Problem, solution: &Solution) -> (r: usize)
    requires
        solution.wf(),
        problem.allocation_penalty.dims_ok(),
        solution.mapping@.len() == problem.allocation_penalty.reservations,
        solution.cottages == problem.allocation_penalty.cottages,
    ensures
        r == upgrades_upto(*problem, solution@, solution.mapping@.len() as int),
{
    let n: usize = solution.mapping.len();
    let mut count: usize = 0;
    let mut i: usize = 0;
    while i < n
        invariant
            i <= n,
            count == upgrades_upto(*problem, solution@, i as int),
            count <= i,
        decreases n - i,
    {
        match solution.mapping[i] {
            None => {},
            Some(cottage) => {
                let p = problem.allocation_penalty.get(cottage, i);
                if p == Penalty::Upgrade {
                    count += 1;
                }
            },
        }
        i += 1;
    }
    count
}

/// The upgrade contribution of a single reservation.
pub fn calculate_upgrade(problem: &Problem, solution: &Solution, reservation: usize) -> (r: usize)
    requires
        solution.wf(),
        problem.allocation_penalty.dims_ok(),
        solution.mapping@.len() == problem.allocation_penalty.reservations,
        solution.cottages == problem.allocation_penalty.cottages,
        reservation < solution.mapping@.len(),
    ensures
        r == upgrade_ind(*problem, solution@, reservation as int),
{
    match solution.mapping[reservation] {
        None => 0,
        Some(cottage) => {
            let p = problem.allocation_penalty.get(cottage, reservation);
            if p == Penalty::Upgrade {
                1
            } else {
                0
            }
        },
    }
}

} // verus!
