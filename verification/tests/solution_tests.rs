use or_challenge::problem::{DayRange, Problem};
use or_challenge::solution::Solution;

#[test]
pub fn timetable_independent() {
    let size = 5;
    let problem = Problem::empty(size, size);
    let mut solution = Solution::empty(&problem);
    solution.timetable[0] = Some(0);
    assert_eq!(solution.get_timetable(1)[0], None);
}

#[test]
pub fn assign_then_unassign_0() {
    let size = 5;
    let mut problem = Problem::empty(size, size);
    problem.reservations.stay = vec![10; size];
    let mut solution = Solution::empty(&problem);

    solution.assign(0, 0, DayRange::new(0, 5));
    assert_eq!(
        solution.get_timetable(0),
        [vec![Some(0); 5], vec![None; 5]].concat()
    );

    solution.unassign(0, 0, DayRange::new(0, 3));
    assert_eq!(
        solution.get_timetable(0),
        [vec![None; 3], vec![Some(0); 2], vec![None; 5]].concat()
    );

    solution.unassign(0, 0, DayRange::new(3, 5));
    assert_eq!(solution.get_timetable(0), vec![None; 10]);
}

#[test]
pub fn assign_then_unassign_1() {
    let size = 5;
    let mut problem = Problem::empty(size, size);
    problem.reservations.stay = vec![1; size];
    let mut solution = Solution::empty(&problem);

    assert_eq!(solution.get_timetable(0), vec![None; 1]);

    solution.assign(0, 0, DayRange::new(0, 1));
    assert_eq!(solution.get_timetable(0), vec![Some(0); 1]);

    solution.unassign(0, 0, DayRange::new(0, 1));
    assert_eq!(solution.get_timetable(0), vec![None; 1]);
}

#[test]
pub fn is_free() {
    let size = 5;
    let mut problem = Problem::empty(size, size);
    problem.reservations.stay = vec![10; 5];
    let mut solution = Solution::empty(&problem);
    assert!(solution.is_free(0, DayRange::new(0, 5)));
    assert!(solution.is_free(1, DayRange::new(0, 5)));

    solution.assign(0, 0, DayRange::new(0, 5));
    assert!(!solution.is_free(0, DayRange::new(0, 5)));
    assert!(!solution.is_free(0, DayRange::new(4, 5)));
    assert!(!solution.is_free(0, DayRange::new(1, 5)));
    assert!(solution.is_free(0, DayRange::new(5, 6)));
    assert!(solution.is_free(1, DayRange::new(0, 5)));
}

#[test]
pub fn is_taken_by() {
    let size = 5;
    let mut problem = Problem::empty(size, size);
    problem.reservations.stay = vec![10; 5];
    let mut solution = Solution::empty(&problem);

    assert!(solution.is_taken_by(0, DayRange::new(0, 10)).is_empty());

    solution.assign(0, 0, DayRange::new(0, 1));
    solution.assign(0, 1, DayRange::new(1, 2));
    solution.assign(0, 2, DayRange::new(7, 8));

    assert_eq!(solution.is_taken_by(0, DayRange::new(0, 10)), vec![0, 1, 2]);
}

/// Computes, by a full independent rescan of the occupancy row, the value
/// the gap table should store at every day.
fn rescan_gaps(row: &[Option<usize>]) -> Vec<usize> {
    let n = row.len();
    let mut out = vec![0; n];
    let mut d = 0;
    while d < n {
        if row[d].is_some() {
            d += 1;
            continue;
        }
        let start = d;
        let mut end = d;
        while end < n && row[end].is_none() {
            end += 1;
        }
        for k in start..end {
            out[k] = end - start;
        }
        d = end;
    }
    out
}

#[test]
pub fn gap_timeline_matches_full_rescan() {
    let size = 3;
    let mut problem = Problem::empty(size, size);
    problem.reservations.stay = vec![12; size];
    let mut solution = Solution::empty(&problem);

    solution.assign(0, 0, DayRange::new(2, 5));
    solution.assign(0, 1, DayRange::new(7, 9));
    solution.assign(1, 2, DayRange::new(0, 4));
    solution.unassign(0, 0, DayRange::new(2, 5));
    solution.assign(0, 0, DayRange::new(4, 7));

    for c in 0..size {
        let row = solution.get_timetable(c).to_vec();
        let gaps = solution.get_gap_timetable(c).to_vec();
        assert_eq!(gaps, rescan_gaps(&row));
    }
}

#[test]
pub fn assign_unassign_round_trip_exact() {
    let size = 4;
    let mut problem = Problem::empty(size, size);
    problem.reservations.stay = vec![9; size];
    let mut solution = Solution::empty(&problem);
    solution.assign(1, 2, DayRange::new(1, 4));

    let mapping_before = solution.mapping().clone();
    let timetable_before = solution.get_timetable(1).to_vec();
    let gaps_before = solution.get_gap_timetable(1).to_vec();

    solution.assign(1, 0, DayRange::new(5, 8));
    solution.unassign(1, 0, DayRange::new(5, 8));

    assert_eq!(solution.mapping(), &mapping_before);
    assert_eq!(solution.get_timetable(1).to_vec(), timetable_before);
    assert_eq!(solution.get_gap_timetable(1).to_vec(), gaps_before);
}

#[test]
pub fn index_maps_through_column() {
    let size = 3;
    let mut problem = Problem::empty(size, size);
    problem.reservations.stay = vec![4; size];
    let mut solution = Solution::empty(&problem);
    solution.assign(2, 0, DayRange::new(0, 4));
    solution.assign(1, 1, DayRange::new(0, 4));

    let ids: Vec<usize> = vec![100, 200, 300];
    assert_eq!(solution.index(&ids), vec![Some(300), Some(200), None]);
}
