use or_challenge::cost::Cost;

#[test]
fn test_calculate_cost() {}

#[test]
fn objective_formula_exact() {
    let cost = Cost::new(1, 2, 3, 4);
    assert_eq!(cost.objective(), 6 * 1 - 3 * 2 + 12 * 3 + 4);

    // Weekly-aligned gap cycles pay back, everything else costs.
    assert_eq!(Cost::new(0, 1, 0, 0).objective(), -3);
    assert_eq!(Cost::new(1, 0, 0, 0).objective(), 6);
    assert_eq!(Cost::new(0, 0, 1, 0).objective(), 12);
    assert_eq!(Cost::new(0, 0, 0, 1).objective(), 1);
    assert_eq!(Cost::empty().objective(), 0);
}

#[test]
fn cost_sum_and_difference() {
    let a = Cost::new(5, -2, 1, 0);
    let b = Cost::new(-1, 4, 2, 7);
    assert_eq!(a.plus(&b), Cost::new(4, 2, 3, 7));
    assert_eq!(a.minus(&b), Cost::new(6, -6, -1, -7));
}
