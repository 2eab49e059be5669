use wave_collapse::constraint::{BorderRule, GridConstraint};
use wave_collapse::grid::{Grid, UNDETERMINED};
use wave_collapse::solver::{pick_from_distribution, sum_weights, ConstraintSolver};
use wave_collapse::utils::slice_intersection;

#[test]
fn new_grid_is_all_undetermined() {
    let g = Grid::new(3, 2);
    assert_eq!(g.height(), 3);
    assert_eq!(g.width(), 2);
    for y in 0..3 {
        for x in 0..2 {
            assert_eq!(*g.get_sq(x, y), UNDETERMINED);
        }
    }
}

#[test]
fn get_sqmut_writes_through() {
    let mut g = Grid::new(2, 2);
    *g.get_sqmut(1, 0) = 5;
    assert_eq!(*g.get_sq(1, 0), 5);
    assert_eq!(*g.get_sq(0, 0), UNDETERMINED);
    let copy = g.clone();
    assert_eq!(*copy.get_sq(1, 0), 5);
}

#[test]
fn to_str_exact_rendering() {
    let mut g = Grid::new(2, 3);
    assert_eq!(g.to_str(), "-1,-1,-1\n-1,-1,-1\n");
    *g.get_sqmut(0, 0) = 5;
    *g.get_sqmut(2, 1) = 12;
    assert_eq!(g.to_str(), "5,-1,-1\n-1,-1,12\n");
}

#[test]
fn slice_intersection_keeps_order_and_duplicates() {
    let a = [1, 2, 2, 3, 5];
    let b = [2, 3, 4];
    assert_eq!(slice_intersection(&a, &b), vec![2, 2, 3]);
    let none: [i32; 0] = [];
    assert_eq!(slice_intersection(&a, &none), Vec::<i32>::new());
    assert_eq!(slice_intersection(&none, &b), Vec::<i32>::new());
}

#[test]
fn undefined_count_tracks_writes() {
    let mut solver = ConstraintSolver::new(2, 2, vec![0, 1]);
    assert_eq!(solver.undefined_count(), 4);
    assert!(solver.contains_undefined());
    solver.collapse_unchecked(0, 1, 1);
    assert_eq!(solver.undefined_count(), 3);
    solver.collapse_unchecked(1, 1, 0);
    solver.collapse_unchecked(0, 0, 0);
    solver.collapse_unchecked(1, 0, 1);
    assert_eq!(solver.undefined_count(), 0);
    assert!(!solver.contains_undefined());
}

#[test]
fn solver_without_constraints_allows_everything() {
    let mut solver = ConstraintSolver::new(2, 2, vec![3, 1, 4]);
    assert!(solver.is_state_valid());
    assert_eq!(solver.allowed_states_at(0, 0), vec![3, 1, 4]);
    assert!(solver.check_collapse_allowed(1, 1, 4));
}

#[test]
fn weighted_pick_follows_prefix_sums() {
    let d = vec![(4, 2u64), (7, 3u64)];
    assert_eq!(sum_weights(&d), 5);
    assert_eq!(pick_from_distribution(&d, 0), 4);
    assert_eq!(pick_from_distribution(&d, 1), 4);
    assert_eq!(pick_from_distribution(&d, 2), 7);
    assert_eq!(pick_from_distribution(&d, 4), 7);
    // a zero-weight entry is never chosen
    let z = vec![(9, 0u64), (5, 1u64)];
    assert_eq!(pick_from_distribution(&z, 0), 5);
}

#[test]
fn get_allowed_states_filters_in_order() {
    // tile 0 permits only itself in every direction
    let mut rules = Vec::new();
    for t in 0..2 {
        let mut allowed = Vec::new();
        for _ in 0..8 {
            allowed.push(vec![t]);
        }
        rules.push(BorderRule { tile: t, allowed });
    }
    let c = GridConstraint::new_from_borders(rules);
    let mut g = Grid::new(1, 2);
    *g.get_sqmut(0, 0) = 0;
    let states = [0, 1];
    // next to a fixed 0, only 0 survives
    assert_eq!(c.get_allowed_states(&g, &states, 1, 0), vec![0]);
    // the sentinel always passes
    assert!(c.check_constraint(&g, UNDETERMINED, 1, 0));
    assert!(!c.check_constraint(&g, 1, 1, 0));
}
