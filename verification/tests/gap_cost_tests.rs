use or_challenge::gap_cost::{calculate_cottage_gaps, calculate_cottage_gaps2, calculate_gaps, calculate_gaps2, fold_gaps, GapFoldState};
use or_challenge::problem::{DayRange, Problem};
use or_challenge::solution::Solution;

#[test]
fn calculate_gap_assign() {
    let size = 1;
    let mut problem = Problem::empty(size, size);
    problem.reservations.stay = vec![5; size];
    let mut solution = Solution::empty(&problem);
    assert_eq!(calculate_gaps(&problem, &solution).0, 1);

    solution.assign(0, 0, DayRange::new(1, 2));
    assert_eq!(calculate_gaps(&problem, &solution).0, 2);

    solution.assign(0, 0, DayRange::new(2, 3));
    assert_eq!(calculate_gaps(&problem, &solution).0, 2);

    solution.assign(0, 0, DayRange::new(0, 1));
    assert_eq!(calculate_gaps(&problem, &solution).0, 1);

    solution.assign(0, 0, DayRange::new(3, 5));
    assert_eq!(calculate_gaps(&problem, &solution).0, 0);
}

#[test]
fn calculate_gap_2_assign() {
    let size = 2;
    let mut problem = Problem::empty(size, size);
    problem.reservations.stay = vec![5; size];
    let mut solution = Solution::empty(&problem);
    assert_eq!(calculate_gaps(&problem, &solution).0, 2);

    solution.assign(0, 0, DayRange::new(1, 2));
    assert_eq!(calculate_gaps(&problem, &solution).0, 3);

    solution.assign(1, 0, DayRange::new(1, 2));
    assert_eq!(calculate_gaps(&problem, &solution).0, 4);

    solution.assign(0, 0, DayRange::new(2, 3));
    assert_eq!(calculate_gaps(&problem, &solution).0, 4);

    solution.assign(1, 0, DayRange::new(2, 3));
    assert_eq!(calculate_gaps(&problem, &solution).0, 4);

    solution.assign(0, 0, DayRange::new(0, 1));
    assert_eq!(calculate_gaps(&problem, &solution).0, 3);

    solution.assign(1, 0, DayRange::new(0, 1));
    assert_eq!(calculate_gaps(&problem, &solution).0, 2);

    solution.assign(0, 0, DayRange::new(3, 5));
    assert_eq!(calculate_gaps(&problem, &solution).0, 1);

    solution.assign(1, 0, DayRange::new(3, 5));
    assert_eq!(calculate_gaps(&problem, &solution).0, 0);
}

#[test]
fn calculate_gap_unassign() {
    let mut problem = Problem::empty(1, 5);
    problem.reservations.arrival = (0..5).collect();
    problem.reservations.update();
    let mut solution = Solution::empty(&problem);

    solution.assign(0, 0, DayRange::new(0, 1));
    solution.assign(0, 1, DayRange::new(1, 2));
    solution.assign(0, 2, DayRange::new(2, 3));
    solution.assign(0, 3, DayRange::new(3, 4));
    solution.assign(0, 4, DayRange::new(4, 5));
    assert_eq!(calculate_gaps(&problem, &solution).0, 0);

    solution.unassign(0, 2, DayRange::new(2, 3));
    assert_eq!(calculate_gaps(&problem, &solution).0, 1);

    solution.unassign(0, 3, DayRange::new(3, 4));
    assert_eq!(calculate_gaps(&problem, &solution).0, 1);

    solution.unassign(0, 0, DayRange::new(0, 1));
    assert_eq!(calculate_gaps(&problem, &solution).0, 2);

    solution.unassign(0, 1, DayRange::new(1, 2));
    assert_eq!(calculate_gaps(&problem, &solution).0, 1);
}

#[test]
fn calculate_legionella_gap() {
    let size = 1;
    let mut problem = Problem::empty(size, size);
    problem.reservations.arrival = vec![42];
    let mut solution = Solution::empty(&problem);

    assert_eq!(calculate_gaps(&problem, &solution).2, 1);

    solution.assign(0, 0, DayRange::new(21, 22));
    assert_eq!(calculate_gaps(&problem, &solution).2, 2);

    solution.assign(0, 0, DayRange::new(20, 21));
    assert_eq!(calculate_gaps(&problem, &solution).2, 1);

    solution.assign(0, 0, DayRange::new(22, 23));
    assert_eq!(calculate_gaps(&problem, &solution).2, 0);
}

#[test]
fn calculate_fr_th_gap() {
    let size = 1;
    let mut problem = Problem::empty(size, size);
    problem.phase = 5;

    problem.reservations.arrival = vec![18];
    let mut solution = Solution::empty(&problem);
    solution.assign(0, 0, DayRange::new(0, 2));

    solution.assign(0, 0, DayRange::new(16, 18));
    assert_eq!(calculate_gaps(&problem, &solution).1, 2);

    solution.assign(0, 0, DayRange::new(2, 3));
    assert_eq!(calculate_gaps(&problem, &solution).1, 1);

    solution.assign(0, 0, DayRange::new(15, 16));
    assert_eq!(calculate_gaps(&problem, &solution).1, 0);
}

#[test]
fn gap_scan_and_fold_agree() {
    let size = 2;
    let mut problem = Problem::empty(size, size);
    problem.phase = 3;
    problem.reservations.stay = vec![30; size];
    let mut solution = Solution::empty(&problem);

    solution.assign(0, 0, DayRange::new(3, 6));
    solution.assign(0, 1, DayRange::new(25, 28));
    solution.assign(1, 0, DayRange::new(0, 1));

    assert_eq!(calculate_gaps(&problem, &solution), calculate_gaps2(&problem, &solution));
    for c in 0..size {
        assert_eq!(
            calculate_cottage_gaps(&problem, &solution, c),
            calculate_cottage_gaps2(&problem, &solution, c)
        );
    }
}

#[test]
fn fold_counts_one_run() {
    // Three vacant days, one occupied day, one vacant day: two runs.
    let mut state = GapFoldState::new(0, 0, 0, 0);
    for (weekday, cell) in [(0, 1), (1, 1), (2, 1), (3, 0), (4, 1)] {
        state = fold_gaps(state, (weekday, cell));
    }
    assert_eq!(state.count, 1);
    assert_eq!(state.gaps, 2);
    assert_eq!(state.legionella_gaps, 0);
    assert_eq!(state.fr_th_gaps, 0);
}
