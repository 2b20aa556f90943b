use or_challenge::problem::{Cottages, Problem, Reservations};
use or_challenge::solution::Solution;
use or_challenge::upgrade_cost::{calculate_upgrade, calculate_upgrades};

#[test]
fn test_class_no_cost() {
    let size = 1;
    let mut problem = Problem::empty(size, size);
    let solution = Solution::naive(&problem);

    problem.cottages.class = vec![1];
    problem.reservations.class = vec![1];

    let upgrade_cost = calculate_upgrades(&problem, &solution);
    assert_eq!(upgrade_cost, 0);

    let upgrade_cost = calculate_upgrade(&problem, &solution, 0);
    assert_eq!(upgrade_cost, 0);
}

#[test]
fn test_class_cost() {
    let size = 1;

    let mut cottages = Cottages::empty(size);
    let mut reservations = Reservations::empty(size);
    cottages.class = vec![4];
    reservations.class = vec![1];

    let problem = Problem::new(cottages, reservations, 0);
    let solution = Solution::naive(&problem);

    let upgrade_cost = calculate_upgrades(&problem, &solution);
    assert_eq!(upgrade_cost, 1);

    let upgrade_cost = calculate_upgrade(&problem, &solution, 0);
    assert_eq!(upgrade_cost, 1);
}

#[test]
fn test_class_mixed_cost() {
    let size = 3;
    let mut cottages = Cottages::empty(size);
    let mut reservations = Reservations::empty(size);
    cottages.class = vec![4, 4, 4];
    reservations.class = vec![1, 3, 4];

    let problem = Problem::new(cottages, reservations, 0);
    let solution = Solution::naive(&problem);

    let upgrade_cost = calculate_upgrades(&problem, &solution);
    assert_eq!(upgrade_cost, 2);

    let upgrade_cost = calculate_upgrade(&problem, &solution, 0);
    assert_eq!(upgrade_cost, 1);

    let upgrade_cost = calculate_upgrade(&problem, &solution, 1);
    assert_eq!(upgrade_cost, 1);

    let upgrade_cost = calculate_upgrade(&problem, &solution, 2);
    assert_eq!(upgrade_cost, 0);
}

#[test]
fn test_capacity_no_cost() {
    let size = 3;

    let mut cottages = Cottages::empty(size);
    let mut reservations = Reservations::empty(size);
    cottages.capacity = vec![2, 4, 6];
    reservations.people = vec![2, 4, 6];

    let problem = Problem::new(cottages, reservations, 0);
    let solution = Solution::naive(&problem);

    let capacity_cost = calculate_upgrades(&problem, &solution);
    assert_eq!(capacity_cost, 0);
}

#[test]
fn test_capacity_cost() {
    let size = 3;

    let mut cottages = Cottages::empty(size);
    let mut reservations = Reservations::empty(size);
    cottages.capacity = vec![4, 40, 400];
    reservations.people = vec![2, 4, 6];

    let problem = Problem::new(cottages, reservations, 0);
    let solution = Solution::naive(&problem);

    let capacity_cost = calculate_upgrades(&problem, &solution);
    assert_eq!(capacity_cost, 3);
}

#[test]
fn test_capacity_mixed_cost() {
    let size = 4;

    let mut cottages = Cottages::empty(size);
    let mut reservations = Reservations::empty(size);
    cottages.capacity = vec![2, 20, 6, 60];
    reservations.people = vec![2, 4, 6, 8];

    let problem = Problem::new(cottages, reservations, 0);
    let solution = Solution::naive(&problem);

    let capacity_cost = calculate_upgrades(&problem, &solution);
    assert_eq!(capacity_cost, 2);
}
