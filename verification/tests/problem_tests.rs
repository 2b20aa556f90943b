use or_challenge::problem::{map_people, Problem};

#[test]
fn timeslots_minimal() {
    let size = 1;
    let mut problem = Problem::empty(size, size);
    problem.reservations.arrival = vec![0];
    problem.reservations.stay = vec![1];

    let timeslots = problem.reservations.timeslots();
    assert_eq!(timeslots, 1);
}

#[test]
fn timeslots_mixed() {
    let size = 3;
    let mut problem = Problem::empty(size, size);
    problem.reservations.arrival = vec![0, 1];
    problem.reservations.stay = vec![2, 2];

    let timeslots = problem.reservations.timeslots();
    assert_eq!(timeslots, 3);
}

#[test]
fn tier_capacity_table() {
    assert_eq!(map_people(1), 2);
    assert_eq!(map_people(2), 2);
    assert_eq!(map_people(3), 4);
    assert_eq!(map_people(4), 4);
    assert_eq!(map_people(5), 5);
    assert_eq!(map_people(6), 6);
    assert_eq!(map_people(7), 8);
    assert_eq!(map_people(8), 8);
    assert_eq!(map_people(9), 12);
    assert_eq!(map_people(12), 12);
}

#[test]
fn clamp_stays_to_latest_arrival() {
    let arrival: Vec<usize> = vec![0, 3, 5];
    let mut stay: Vec<usize> = vec![10, 2, 4];
    or_challenge::problem::clamp_stays(&arrival, &mut stay);
    // The latest arrival is day 5; nothing may extend past day 6.
    assert_eq!(stay, vec![6, 2, 1]);
}
