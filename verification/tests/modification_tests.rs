use or_challenge::cost::Cost;
use or_challenge::modification::{Chain, Modification};
use or_challenge::problem::{Cottages, Problem, Reservations};
use or_challenge::solution::Solution;

#[test]
fn test_assign_cost() {
    let mut cottages = Cottages::empty(2);
    cottages.class = vec![0, 1];

    let mut reservations = Reservations::empty(2);
    reservations.arrival = vec![0, 5];
    reservations.stay = vec![5, 5];
    reservations.class = vec![0, 0];
    reservations.update();

    let problem = Problem::new(cottages, reservations, 0);
    let mut solution = Solution::naive(&problem);

    let mut chain = Chain::new();
    chain.add(Modification::unassign(0, &problem, &solution));
    chain.add(Modification::unassign(1, &problem, &solution));

    chain.add(Modification::assign(0, 0, &problem));
    chain.add(Modification::assign(1, 0, &problem));

    for _ in 0..100 {
        chain.progress(&problem, &mut solution);
        assert_eq!(chain.cost(), &Cost::new(-1, 1, 0, -1));

        chain.regress(&problem, &mut solution);
        assert_eq!(chain.cost(), &Cost::empty());
    }
}

#[test]
fn chain_cost_additivity_from_scratch() {
    let mut cottages = Cottages::empty(3);
    cottages.class = vec![0, 1, 0];

    let mut reservations = Reservations::empty(3);
    reservations.arrival = vec![0, 2, 5];
    reservations.stay = vec![3, 4, 2];
    reservations.class = vec![0, 0, 0];
    reservations.update();

    let problem = Problem::new(cottages, reservations, 0);
    let mut solution = Solution::empty(&problem);
    let initial_cost = Cost::calculate(&problem, &solution);

    let mut chain = Chain::new();
    chain.add(Modification::assign(0, 0, &problem));
    chain.add(Modification::assign(1, 1, &problem));
    chain.add(Modification::assign(2, 0, &problem));
    chain.progress(&problem, &mut solution);

    // The cost computed from scratch equals the starting cost plus the sum
    // of the per-move deltas the chain recorded.
    let from_scratch = Cost::calculate(&problem, &solution);
    assert_eq!(from_scratch, initial_cost.plus(chain.cost()));
}

#[test]
fn chain_progress_regress_restores() {
    let mut cottages = Cottages::empty(2);
    cottages.class = vec![0, 0];

    let mut reservations = Reservations::empty(2);
    reservations.arrival = vec![0, 2];
    reservations.stay = vec![2, 3];
    reservations.class = vec![0, 0];
    reservations.update();

    let problem = Problem::new(cottages, reservations, 0);
    let mut solution = Solution::naive(&problem);
    let mapping_before = solution.mapping().clone();
    let timetable_before: Vec<Vec<Option<usize>>> =
        (0..2).map(|c| solution.get_timetable(c).to_vec()).collect();

    let mut chain = Chain::new();
    chain.add(Modification::unassign(0, &problem, &solution));
    chain.add(Modification::assign(0, 1, &problem));
    chain.progress(&problem, &mut solution);
    chain.regress(&problem, &mut solution);

    assert_eq!(chain.cost(), &Cost::empty());
    assert_eq!(solution.mapping(), &mapping_before);
    for c in 0..2 {
        assert_eq!(solution.get_timetable(c).to_vec(), timetable_before[c]);
    }
}
