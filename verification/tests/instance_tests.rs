use or_challenge::instance::Instance;
use or_challenge::modification::Modification;
use or_challenge::problem::{Cottages, Problem, Reservations};
use or_challenge::solution::Solution;

#[test]
fn test_neighbor() {
    let problem = Problem::empty(2, 1);
    let solution = Solution::naive(&problem);
    let mut instance = Instance::new(problem, solution);
    instance.rng = fastrand::Rng::with_seed(2);
    instance.neighbor();
    assert_eq!(instance.solution.mapping(), &vec![Some(1)]);
    instance
        .chain
        .regress(&instance.problem, &mut instance.solution);
    assert_eq!(instance.solution.mapping(), &vec![Some(0)]);
    instance
        .chain
        .progress(&instance.problem, &mut instance.solution);
    assert_eq!(instance.solution.mapping(), &vec![Some(1)]);
    instance
        .chain
        .regress(&instance.problem, &mut instance.solution);
    assert_eq!(instance.solution.mapping(), &vec![Some(0)]);
}

#[test]
fn test_neighbor_evicted() {
    let problem = Problem::empty(2, 2);
    let solution = Solution::naive(&problem);
    let mut instance = Instance::new(problem, solution);
    instance.rng = fastrand::Rng::with_seed(3);
    instance.neighbor();
    assert_eq!(instance.solution.mapping(), &vec![Some(1), Some(0)]);
    instance
        .chain
        .regress(&instance.problem, &mut instance.solution);
    assert_eq!(instance.solution.mapping(), &vec![Some(0), Some(1)]);
    instance
        .chain
        .progress(&instance.problem, &mut instance.solution);
    assert_eq!(instance.solution.mapping(), &vec![Some(1), Some(0)]);
    instance
        .chain
        .regress(&instance.problem, &mut instance.solution);
    assert_eq!(instance.solution.mapping(), &vec![Some(0), Some(1)]);
}

#[test]
fn test_repair() {
    let size = 8;

    let mut cottages = Cottages::empty(size);
    let mut reservations = Reservations::empty(size);
    cottages.class = (0..size).collect();
    reservations.class = (0..size).collect();

    let problem = Problem::new(cottages, reservations, 0);
    let solution = Solution::empty(&problem);
    let mut instance = Instance::new(problem, solution);

    instance.repair();
    assert!(instance.solution.unallocated().is_empty());
}

#[test]
fn random_cottage_is_always_a_candidate() {
    let problem = Problem::empty(3, 1);
    let solution = Solution::empty(&problem);
    let mut instance = Instance::new(problem, solution);
    for _ in 0..100 {
        let c = instance.get_random_cottage(0);
        assert!(c < 3);
    }
}

#[test]
fn accept_and_reject_roundtrip() {
    let problem = Problem::empty(2, 2);
    let solution = Solution::naive(&problem);
    let mut instance = Instance::new(problem, solution);
    let mapping_before = instance.solution.mapping().clone();

    for _ in 0..50 {
        instance.neighbor();
        instance.reject_chain();
        assert_eq!(instance.solution.mapping(), &mapping_before);
    }

    instance.neighbor();
    instance.accept_chain();
    assert!(instance.solution.unallocated().is_empty());
}

#[test]
fn repair_reports_completion() {
    let problem = Problem::empty(3, 3);
    let solution = Solution::empty(&problem);
    let mut instance = Instance::new(problem, solution);
    let complete = instance.repair();
    assert_eq!(complete, instance.solution.unallocated().is_empty());
    assert!(complete);
}

#[test]
fn neighbor_first_move_unassigns_reallocatable() {
    let problem = Problem::empty(2, 2);
    let solution = Solution::naive(&problem);
    let mut instance = Instance::new(problem, solution);
    let len_before = instance.chain.chain.len();
    instance.neighbor();
    assert!(instance.chain.chain.len() > len_before);
    match &instance.chain.chain[len_before] {
        Modification::Unassign(t) => {
            assert!(instance
                .problem
                .allocation_penalty
                .reallocatable_reservations
                .contains(&t.reservation));
        }
        Modification::Assign(_) => panic!("the first neighbor move must be an eviction"),
    }
}
