use wave_collapse::constraint::{BorderRule, GridConstraint};
use wave_collapse::dirs::{minus_index, offset};
use wave_collapse::grid::UNDETERMINED;
use wave_collapse::solver::{ConstraintSolver, SelectionStrategy};

/// A border rule for a strict checkerboard over tile types {0, 1}:
/// horizontal and vertical neighbors must hold the other type, diagonal
/// neighbors the same type. Directions in reading order: the three cells
/// above, the two beside, the three below.
fn checkerboard_rule(t: i32) -> BorderRule {
    let other = 1 - t;
    BorderRule {
        tile: t,
        allowed: vec![
            vec![t],
            vec![other],
            vec![t],
            vec![other],
            vec![other],
            vec![t],
            vec![other],
            vec![t],
        ],
    }
}

fn checkerboard_solver(height: usize, width: usize) -> ConstraintSolver {
    let rules = vec![checkerboard_rule(0), checkerboard_rule(1)];
    let constraint = GridConstraint::new_from_borders(rules);
    ConstraintSolver::new_with_constraints(height, width, vec![0, 1], vec![constraint])
}

#[test]
fn test_offsets() {
    for i in 0..8 {
        let (x0, y0) = offset(i);
        let (x1, y1) = offset(minus_index(i));
        assert!(x1 == -x0);
        assert!(y1 == -y0);
    }
}

#[test]
fn test_initial_state_is_valid() {
    let height = 10;
    let width = 10;
    let mut data = Vec::new();
    for i in 0..height {
        for j in 0..width {
            data.push(if (i + j) % 2 == 0 { 0i32 } else { 1i32 });
        }
    }
    let mut solve = ConstraintSolver::new_from_data(&data, height, width);
    for i in 0..height {
        for j in 0..width {
            solve.collapse_unchecked(j, i, data[i * width + j]);
        }
    }
    println!("{:#?}", &solve);
    println!("{}", solve.grid().to_str());
    assert!(solve.is_state_valid());
}

#[test]
fn sample_round_trip_non_square() {
    // three rows, two columns: vertical stripes of 4 and 7
    let data = vec![4, 7, 4, 7, 4, 7];
    let height = 3;
    let width = 2;
    let mut solve = ConstraintSolver::new_from_data(&data, height, width);
    // the allowed states carry the sample's first-occurrence order, visible
    // in every legal-value list while no neighbor is determined yet
    assert_eq!(solve.allowed_states_at(0, 0), vec![4, 7]);
    for y in 0..height {
        for x in 0..width {
            solve.collapse_unchecked(x, y, data[y * width + x]);
        }
    }
    assert!(solve.is_state_valid());
}

#[test]
fn scenario_forced_checkerboard_propagation() {
    let mut solver = checkerboard_solver(2, 2);
    let r = solver.attempt_collapse_to_value(0, 0, 0);
    assert_eq!(r, Ok(true));
    assert_eq!(*solver.grid().get_sq(0, 0), 0);
    assert_eq!(*solver.grid().get_sq(1, 0), 1);
    assert_eq!(*solver.grid().get_sq(0, 1), 1);
    assert_eq!(*solver.grid().get_sq(1, 1), 0);
    assert_eq!(solver.undefined_count(), 0);
    assert!(solver.is_state_valid());
}

#[test]
fn scenario_rejected_assignment_leaves_grid_untouched() {
    let mut solver = checkerboard_solver(2, 2);
    // fix the left cell without propagation, then force an incompatible
    // value next to it
    solver.collapse_unchecked(0, 0, 0);
    let r = solver.attempt_collapse_to_value(1, 0, 0);
    assert_eq!(r, Ok(false));
    assert_eq!(*solver.grid().get_sq(1, 0), UNDETERMINED);
    assert_eq!(*solver.grid().get_sq(0, 1), UNDETERMINED);
    assert_eq!(*solver.grid().get_sq(1, 1), UNDETERMINED);
    assert_eq!(*solver.grid().get_sq(0, 0), 0);
}

/// A constraint set where tile type 0 permits nothing to its right; every
/// other direction of both types is unrestricted.
fn dead_end_solver() -> ConstraintSolver {
    let both = vec![0, 1];
    let mut open0 = BorderRule { tile: 0, allowed: Vec::new() };
    let mut open1 = BorderRule { tile: 1, allowed: Vec::new() };
    for d in 0..8 {
        // direction 4 is the middle-right neighbor
        if d == 4 {
            open0.allowed.push(Vec::new());
        } else {
            open0.allowed.push(both.clone());
        }
        open1.allowed.push(both.clone());
    }
    let constraint = GridConstraint::new_from_borders(vec![open0, open1]);
    ConstraintSolver::new_with_constraints(1, 2, vec![0, 1], vec![constraint])
}

#[test]
fn scenario_empty_direction_contradiction() {
    let mut solver = dead_end_solver();
    solver.collapse_unchecked(0, 0, 0);
    // the cell right of the fixed 0 has zero legal values
    assert_eq!(solver.allowed_states_at(1, 0), Vec::<i32>::new());
    let r = solver.collapse_location(1, 0, &SelectionStrategy::PurelyRandom);
    assert_eq!(r, Err(()));
    // the failed collapse did not touch the grid
    assert_eq!(*solver.grid().get_sq(0, 0), 0);
    assert_eq!(*solver.grid().get_sq(1, 0), UNDETERMINED);
}

#[test]
fn scenario_contradiction_restores_snapshot() {
    let mut solver = dead_end_solver();
    solver.collapse_unchecked(0, 0, 0);
    let before = solver.grid().to_str();
    let err = solver.collapse_all_determined();
    assert!(err);
    assert_eq!(solver.grid().to_str(), before);
}

#[test]
fn full_collapse_checkerboard_terminates_complete() {
    let mut solver = checkerboard_solver(4, 4);
    let ok = solver.collapse_fully(&SelectionStrategy::PurelyRandom);
    assert!(ok);
    assert_eq!(solver.undefined_count(), 0);
    assert!(!solver.contains_undefined());
    assert!(solver.is_state_valid());
    // every adjacent pair really alternates
    for y in 0..4usize {
        for x in 0..4usize {
            let v = *solver.grid().get_sq(x, y);
            assert!(v == 0 || v == 1);
            if x + 1 < 4 {
                assert_eq!(*solver.grid().get_sq(x + 1, y), 1 - v);
            }
            if y + 1 < 4 {
                assert_eq!(*solver.grid().get_sq(x, y + 1), 1 - v);
            }
        }
    }
}

#[test]
fn monotonic_narrowing_observed() {
    let mut solver = checkerboard_solver(3, 3);
    let mut counts = Vec::new();
    for y in 0..3 {
        for x in 0..3 {
            counts.push(solver.allowed_states_at(x, y).len());
        }
    }
    let r = solver.attempt_collapse_to_value(0, 0, 0);
    assert_eq!(r, Ok(true));
    for y in 0..3 {
        for x in 0..3 {
            if *solver.grid().get_sq(x, y) == UNDETERMINED {
                let now = solver.allowed_states_at(x, y).len();
                assert!(now <= counts[y * 3 + x]);
            }
        }
    }
}

#[test]
fn cache_reflects_collapse() {
    let mut solver = checkerboard_solver(2, 2);
    // warm the cache everywhere
    assert_eq!(solver.allowed_states_at(0, 0), vec![0, 1]);
    assert_eq!(solver.allowed_states_at(1, 0), vec![0, 1]);
    assert_eq!(solver.allowed_states_at(1, 1), vec![0, 1]);
    solver.collapse_unchecked(0, 0, 0);
    // the collapsed cell's neighborhood is recomputed against the new grid
    assert_eq!(solver.allowed_states_at(1, 0), vec![1]);
    assert_eq!(solver.allowed_states_at(0, 1), vec![1]);
    assert_eq!(solver.allowed_states_at(1, 1), vec![0]);
}

#[test]
fn sentinel_check_always_valid() {
    let solver = checkerboard_solver(2, 2);
    // the sentinel passes the constraint check at every cell whatever the
    // grid holds
    for y in 0..2 {
        for x in 0..2 {
            assert!(solver.check_collapse_allowed(x, y, UNDETERMINED));
        }
    }
    let mut solver = checkerboard_solver(2, 2);
    solver.collapse_unchecked(0, 0, 0);
    for y in 0..2 {
        for x in 0..2 {
            assert!(solver.check_collapse_allowed(x, y, UNDETERMINED));
        }
    }
}

#[test]
fn lowest_entropy_cell_goes_first() {
    let mut solver = checkerboard_solver(1, 3);
    solver.collapse_unchecked(0, 0, 0);
    // (1, 0) has one legal value, (2, 0) still two: the single-choice cell
    // is collapsed first and the wave then forces the rest
    let r = solver.collapse_lowest_entropy(&SelectionStrategy::PurelyRandom);
    assert_eq!(r, Ok(true));
    assert_eq!(*solver.grid().get_sq(1, 0), 1);
    assert_eq!(*solver.grid().get_sq(2, 0), 0);
    assert_eq!(solver.undefined_count(), 0);
}

#[test]
fn from_distribution_picks_positive_weight_entry() {
    // the only positive-weight entry must be chosen
    let mut solver = ConstraintSolver::new(1, 1, vec![0, 1]);
    let strategy = SelectionStrategy::FromDistribution { distribution: vec![(1, 5)] };
    let r = solver.collapse_location(0, 0, &strategy);
    assert_eq!(r, Ok(true));
    assert_eq!(*solver.grid().get_sq(0, 0), 1);
}

#[test]
fn derived_constraints_solve_fresh_grid() {
    // constraints learned from a checkerboard sample collapse a fresh grid
    // completely: every forced wave succeeds
    let height = 6;
    let width = 6;
    let mut data = Vec::new();
    for i in 0..height {
        for j in 0..width {
            data.push(if (i + j) % 2 == 0 { 0i32 } else { 1i32 });
        }
    }
    let mut solve = ConstraintSolver::new_from_data(&data, height, width);
    let ok = solve.collapse_fully(&SelectionStrategy::PurelyRandom);
    assert!(ok);
    assert_eq!(solve.undefined_count(), 0);
    assert!(solve.is_state_valid());
    println!("{}", solve.grid().to_str());
}
