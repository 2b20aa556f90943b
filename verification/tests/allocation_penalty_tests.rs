use or_challenge::allocation_penalty::{AllocationPenalty, Penalty, PRIORITY_SCALE};
use or_challenge::problem::{Cottages, Reservations};

#[test]
fn test_alloc_penalty_forced_cottage() {
    let cottages = Cottages::empty(4);
    let mut reservations = Reservations::empty(3);
    reservations.cottage_number = vec![Some(0), None, Some(2)];

    let allocation_penalty = AllocationPenalty::calculate(&cottages, &reservations);

    assert_eq!(
        allocation_penalty.get_penalty_arr(0),
        vec![
            Penalty::Free,
            Penalty::Impossible,
            Penalty::Impossible,
            Penalty::Impossible,
        ]
    );

    assert_eq!(
        allocation_penalty.get_penalty_arr(1),
        vec![
            Penalty::Impossible,
            Penalty::Free,
            Penalty::Impossible,
            Penalty::Free,
        ]
    );

    assert_eq!(
        allocation_penalty.get_penalty_arr(2),
        vec![
            Penalty::Impossible,
            Penalty::Impossible,
            Penalty::Free,
            Penalty::Impossible,
        ]
    );

    assert_eq!(allocation_penalty.reallocatable, vec![false, true, false]);
    assert_eq!(allocation_penalty.reallocatable_reservations, vec![1]);
}

#[test]
fn test_alloc_penalty_derived() {
    let cottages = Cottages::empty(2);
    let mut reservations = Reservations::empty(2);
    reservations.cottage_number = vec![Some(0), None];

    let allocation_penalty = AllocationPenalty::calculate(&cottages, &reservations);

    assert_eq!(
        allocation_penalty.get_penalty_arr(0),
        vec![Penalty::Free, Penalty::Impossible,]
    );

    assert_eq!(
        allocation_penalty.get_penalty_arr(1),
        vec![Penalty::Impossible, Penalty::Free,]
    );

    assert_eq!(allocation_penalty.reallocatable, vec![false, false]);
    let x: Vec<usize> = vec![];
    assert_eq!(allocation_penalty.reallocatable_reservations, x);
}

#[test]
fn test_alloc_penalty_preferences() {
    let mut preferences = [false; 10];
    preferences[5] = true;

    let mut cottages = Cottages::empty(3);
    cottages.preference = vec![[false; 10], preferences.clone(), [true; 10]];

    let mut reservations = Reservations::empty(1);
    reservations.preference = vec![preferences];

    let allocation_penalty = AllocationPenalty::calculate(&cottages, &reservations);

    assert_eq!(
        allocation_penalty.get_penalty_arr(0),
        vec![Penalty::Impossible, Penalty::Free, Penalty::Free]
    );

    assert_eq!(allocation_penalty.reallocatable, vec![true]);
    assert_eq!(allocation_penalty.reallocatable_reservations, vec![0]);
}

#[test]
fn test_alloc_penalty_sizes() {
    let mut cottages = Cottages::empty(3);
    cottages.capacity = vec![4, 6, 8];

    let mut reservations = Reservations::empty(1);
    reservations.people = vec![6];

    let allocation_penalty = AllocationPenalty::calculate(&cottages, &reservations);

    assert_eq!(
        allocation_penalty.get_penalty_arr(0),
        vec![Penalty::Impossible, Penalty::Free, Penalty::Upgrade]
    );

    assert_eq!(allocation_penalty.reallocatable, vec![true]);
    assert_eq!(allocation_penalty.reallocatable_reservations, vec![0]);
}

#[test]
fn test_alloc_penalty_class() {
    let mut cottages = Cottages::empty(3);
    cottages.class = vec![1, 2, 3];

    let mut reservations = Reservations::empty(1);
    reservations.class = vec![2];

    let allocation_penalty = AllocationPenalty::calculate(&cottages, &reservations);

    assert_eq!(
        allocation_penalty.get_penalty_arr(0),
        vec![Penalty::Impossible, Penalty::Free, Penalty::Upgrade]
    );

    assert_eq!(allocation_penalty.reallocatable, vec![true]);
    assert_eq!(allocation_penalty.reallocatable_reservations, vec![0]);
}

#[test]
fn test_penalty_order_concrete() {
    assert!(Penalty::Free.severity() < Penalty::Upgrade.severity());
    assert!(Penalty::Upgrade.severity() < Penalty::Impossible.severity());
    assert_eq!(Penalty::Free.worst(Penalty::Upgrade), Penalty::Upgrade);
    assert_eq!(Penalty::Upgrade.worst(Penalty::Free), Penalty::Upgrade);
    assert_eq!(Penalty::Impossible.worst(Penalty::Free), Penalty::Impossible);
    assert_eq!(Penalty::Free.worst(Penalty::Impossible), Penalty::Impossible);
    assert_eq!(Penalty::Upgrade.worst(Penalty::Upgrade), Penalty::Upgrade);
    assert_eq!(Penalty::Free.worst(Penalty::Free), Penalty::Free);
}

#[test]
fn test_priority_exact_value() {
    // Two identical overlapping reservations sharing both candidate
    // cottages: each claims the full fraction of the other's candidates,
    // averaged over one competitor.
    let cottages = Cottages::empty(2);
    let reservations = Reservations::empty(2);
    let ap = AllocationPenalty::calculate(&cottages, &reservations);
    assert_eq!(ap.possible_targets, vec![vec![0, 1], vec![0, 1]]);
    assert_eq!(ap.priority, vec![PRIORITY_SCALE, PRIORITY_SCALE]);

    // A reservation with no overlaps keeps priority 0.
    let lone = AllocationPenalty::calculate(&Cottages::empty(2), &Reservations::empty(1));
    assert_eq!(lone.priority, vec![0]);
}

#[test]
fn test_forced_candidates() {
    // Two forced reservations boxing in a free one: the free reservation's
    // candidate list must exclude both forced cottages.
    let cottages = Cottages::empty(4);
    let mut reservations = Reservations::empty(3);
    reservations.cottage_number = vec![Some(0), None, Some(2)];

    let ap = AllocationPenalty::calculate(&cottages, &reservations);
    assert_eq!(ap.possible_targets(1), &vec![1, 3]);
    assert_eq!(ap.possible_targets(0), &vec![0]);
    assert_eq!(ap.possible_targets(2), &vec![2]);
}
