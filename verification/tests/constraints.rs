use arboliva::constraints::active_positions_set::ActivePositionsSet;
use arboliva::constraints::constraint::Constraint;
use arboliva::constraints::constraint_set::{AnyConstraint, ConstraintSet};
use arboliva::constraints::helpers::{
    accumulate, aggregate, decrement_count, increment_count, is_any_true, update_grid_for_position,
};
use arboliva::constraints::variants::killer::Cage;
use arboliva::constraints::variants::little_killer::{Diagonal, Direction};
use arboliva::constraints::variants::thermometer::Thermometer;
use arboliva::constraints::variants::{
    AntiKnightConstraint, ClassicConstraint, KillerConstraint, LittleKillerConstraint, ThermometerConstraint,
};
use arboliva::grid::{CandidateCell, CandidateGrid, Grid, Position};

fn pos(row: usize, col: usize) -> Position {
    Position::new(row, col)
}

fn open_grid(region_rows: usize, region_cols: usize) -> CandidateGrid {
    let n = (region_rows * region_cols) as u8;
    Grid::from_default(region_rows, region_cols, CandidateCell::with_count(n))
}

fn marks(region_rows: usize, region_cols: usize, cells: &[(usize, usize)]) -> Grid<bool> {
    let mut g = Grid::from_default(region_rows, region_cols, false);
    for &(row, col) in cells {
        g.set(pos(row, col), true);
    }
    g
}

fn values(g: &CandidateGrid, row: usize, col: usize) -> Vec<u8> {
    (1..=g.grid_size() as u8).filter(|v| g.get(pos(row, col)).contains(*v)).collect()
}

#[test]
fn is_any_true_sees_a_single_mark() {
    let mut g = Grid::from_default(1, 2, false);
    assert!(!is_any_true(&g));
    g.set(pos(1, 0), true);
    assert!(is_any_true(&g));
}

#[test]
fn counts_go_up_and_down_with_the_marks() {
    let mut counter: Grid<u8> = Grid::from_default(1, 2, 0u8);
    let a = marks(1, 2, &[(0, 0), (1, 1)]);
    let b = marks(1, 2, &[(0, 0)]);
    increment_count(&mut counter, &a);
    increment_count(&mut counter, &b);
    assert_eq!(*counter.get(pos(0, 0)), 2);
    assert_eq!(*counter.get(pos(1, 1)), 1);
    assert_eq!(*counter.get(pos(0, 1)), 0);
    decrement_count(&mut counter, &a);
    assert_eq!(*counter.get(pos(0, 0)), 1);
    assert_eq!(*counter.get(pos(1, 1)), 0);
    let seen = aggregate(&counter);
    assert!(*seen.get(pos(0, 0)));
    assert!(!*seen.get(pos(1, 1)));
}

#[test]
fn accumulate_keeps_old_and_new_marks() {
    let mut acc = marks(1, 2, &[(0, 1)]);
    accumulate(&marks(1, 2, &[(1, 0)]), &mut acc);
    assert!(*acc.get(pos(0, 1)));
    assert!(*acc.get(pos(1, 0)));
    assert!(!*acc.get(pos(0, 0)));
}

#[test]
fn active_positions_set_forgets_the_oldest_entry() {
    let mut set = ActivePositionsSet::new(2, marks(1, 2, &[(0, 0)]));
    assert_eq!(set.max_capacity(), 2);
    set.push(marks(1, 2, &[(0, 1)]));
    let all = set.aggregate();
    assert!(*all.get(pos(0, 0)) && *all.get(pos(0, 1)));
    set.push(marks(1, 2, &[(1, 1)]));
    let all = set.aggregate();
    assert!(!*all.get(pos(0, 0)));
    assert!(*all.get(pos(0, 1)) && *all.get(pos(1, 1)));
    set.set_max_capacity(1);
    assert_eq!(set.max_capacity(), 1);
    let all = set.aggregate();
    assert!(!*all.get(pos(0, 1)));
    assert!(*all.get(pos(1, 1)));
}

#[test]
fn classic_rules_out_a_fixed_value_from_its_row_column_and_region() {
    let mut g = open_grid(2, 2);
    g.set(pos(0, 0), CandidateCell::with_value(1));
    let changed = ClassicConstraint.update(&mut g, marks(2, 2, &[(0, 0)])).unwrap();
    for (row, col) in [(0, 1), (0, 3), (1, 0), (3, 0), (1, 1)] {
        assert_eq!(values(&g, row, col), vec![2, 3, 4]);
        assert!(*changed.get(pos(row, col)));
    }
    assert_eq!(values(&g, 2, 2), vec![1, 2, 3, 4]);
    assert!(!*changed.get(pos(2, 2)));
    assert_eq!(values(&g, 0, 0), vec![1]);
}

#[test]
fn classic_finds_two_equal_values_in_a_row() {
    let mut g = open_grid(2, 2);
    g.set(pos(0, 0), CandidateCell::with_value(3));
    g.set(pos(0, 2), CandidateCell::with_value(3));
    assert!(ClassicConstraint.update(&mut g, marks(2, 2, &[(0, 0), (0, 2)])).is_none());
}

#[test]
fn classic_update_recursive_fills_a_forced_row() {
    let mut g = open_grid(2, 2);
    g.set(pos(0, 0), CandidateCell::with_value(1));
    g.set(pos(0, 1), CandidateCell::with_value(2));
    g.set(pos(0, 2), CandidateCell::with_value(3));
    let all = marks(2, 2, &[(0, 0), (0, 1), (0, 2)]);
    assert!(ClassicConstraint.update_recursive(&mut g, all).is_some());
    assert_eq!(values(&g, 0, 3), vec![4]);
    assert_eq!(values(&g, 1, 3), vec![1, 2]);
}

#[test]
fn anti_knight_rules_out_a_value_a_knight_move_away() {
    let mut g = open_grid(2, 2);
    g.set(pos(0, 0), CandidateCell::with_value(1));
    let changed = AntiKnightConstraint.update(&mut g, marks(2, 2, &[(0, 0)])).unwrap();
    assert_eq!(values(&g, 1, 2), vec![2, 3, 4]);
    assert_eq!(values(&g, 2, 1), vec![2, 3, 4]);
    assert_eq!(values(&g, 0, 1), vec![1, 2, 3, 4]);
    assert!(*changed.get(pos(1, 2)));
    assert!(!*changed.get(pos(1, 1)));
}

#[test]
fn killer_cage_of_sum_three_keeps_one_and_two() {
    let cages = vec![Cage { sum: 3, positions: vec![pos(0, 0), pos(0, 1)] }];
    let killer = KillerConstraint::new(cages, 2, 2);
    let mut g = open_grid(2, 2);
    let changed = killer.update(&mut g, marks(2, 2, &[(0, 0)])).unwrap();
    assert_eq!(values(&g, 0, 0), vec![1, 2]);
    assert_eq!(values(&g, 0, 1), vec![1, 2]);
    assert_eq!(values(&g, 0, 2), vec![1, 2, 3, 4]);
    assert!(*changed.get(pos(0, 1)));
    assert!(!*changed.get(pos(0, 2)));
}

#[test]
fn killer_cage_that_is_not_touched_is_left_alone() {
    let cages = vec![Cage { sum: 3, positions: vec![pos(0, 0), pos(0, 1)] }];
    let killer = KillerConstraint::new(cages, 2, 2);
    let mut g = open_grid(2, 2);
    let changed = killer.update(&mut g, marks(2, 2, &[(3, 3)])).unwrap();
    assert_eq!(values(&g, 0, 0), vec![1, 2, 3, 4]);
    assert!(!is_any_true(&changed));
}

#[test]
fn killer_cage_with_an_impossible_sum_fails() {
    let cages = vec![Cage { sum: 2, positions: vec![pos(1, 0), pos(1, 1)] }];
    let killer = KillerConstraint::new(cages, 2, 2);
    let mut g = open_grid(2, 2);
    assert!(killer.update(&mut g, marks(2, 2, &[(1, 1)])).is_none());
}

#[test]
fn diagonal_runs_to_the_edge_of_the_grid() {
    let d = Diagonal::new(10, Direction::DownRight, pos(0, 0), 4);
    assert_eq!(d.sum, 10);
    assert_eq!(d.positions, vec![pos(0, 0), pos(1, 1), pos(2, 2), pos(3, 3)]);
    let d = Diagonal::new(5, Direction::UpRight, pos(3, 1), 4);
    assert_eq!(d.positions, vec![pos(3, 1), pos(2, 2), pos(1, 3)]);
    let d = Diagonal::new(5, Direction::DownLeft, pos(0, 1), 4);
    assert_eq!(d.positions, vec![pos(0, 1), pos(1, 0)]);
    let d = Diagonal::new(5, Direction::UpLeft, pos(3, 3), 4);
    assert_eq!(d.positions.len(), 4);
}

#[test]
fn little_killer_allows_repeats_across_regions() {
    let d = Diagonal::new(6, Direction::DownRight, pos(0, 0), 4);
    let lk = LittleKillerConstraint::new(vec![d], 2, 2);
    let mut g = open_grid(2, 2);
    assert!(lk.update(&mut g, marks(2, 2, &[(0, 0)])).is_some());
    for k in 0..4 {
        assert_eq!(values(&g, k, k), vec![1, 2]);
    }
}

#[test]
fn little_killer_with_a_sum_too_small_fails() {
    let d = Diagonal::new(4, Direction::DownRight, pos(0, 0), 4);
    let lk = LittleKillerConstraint::new(vec![d], 2, 2);
    let mut g = open_grid(2, 2);
    assert!(lk.update(&mut g, marks(2, 2, &[(2, 2)])).is_none());
}

#[test]
fn thermometer_values_rise_from_the_bulb() {
    let t = Thermometer { positions: vec![pos(0, 0), pos(0, 1), pos(0, 2)] };
    let thermo = ThermometerConstraint::new(vec![t], 2, 2);
    let mut g = open_grid(2, 2);
    assert!(thermo.update(&mut g, marks(2, 2, &[(0, 1)])).is_some());
    assert_eq!(values(&g, 0, 0), vec![1, 2]);
    assert_eq!(values(&g, 0, 1), vec![2, 3]);
    assert_eq!(values(&g, 0, 2), vec![3, 4]);
    assert_eq!(values(&g, 0, 3), vec![1, 2, 3, 4]);
}

#[test]
fn thermometer_longer_than_the_values_fails() {
    let t = Thermometer { positions: vec![pos(0, 0), pos(0, 1), pos(0, 2), pos(0, 3), pos(1, 3)] };
    let thermo = ThermometerConstraint::new(vec![t], 2, 2);
    let mut g = open_grid(2, 2);
    assert!(thermo.update(&mut g, marks(2, 2, &[(0, 0)])).is_none());
}

#[test]
fn constraint_set_combines_its_rules() {
    let cages = vec![Cage { sum: 3, positions: vec![pos(0, 0), pos(0, 1)] }];
    let mut set = ConstraintSet::new(vec![AnyConstraint::Classic(ClassicConstraint)]);
    set.add_constraint(AnyConstraint::Killer(KillerConstraint::new(cages, 2, 2)));
    let mut g = open_grid(2, 2);
    g.set(pos(0, 0), CandidateCell::with_value(2));
    assert!(set.update(&mut g, marks(2, 2, &[(0, 0)])));
    assert_eq!(values(&g, 0, 1), vec![1]);
    assert_eq!(values(&g, 1, 0), vec![3, 4]);
    assert_eq!(values(&g, 0, 2), vec![3, 4]);
}

#[test]
fn constraint_set_reports_a_contradiction() {
    let cages = vec![Cage { sum: 3, positions: vec![pos(0, 0), pos(0, 1)] }];
    let set = ConstraintSet::new(vec![
        AnyConstraint::Classic(ClassicConstraint),
        AnyConstraint::Killer(KillerConstraint::new(cages, 2, 2)),
    ]);
    let mut g = open_grid(2, 2);
    g.set(pos(0, 0), CandidateCell::with_value(4));
    assert!(!set.update(&mut g, marks(2, 2, &[(0, 0)])));
}

#[test]
fn empty_constraint_set_changes_nothing() {
    let set = ConstraintSet::new(Vec::new());
    let mut g = open_grid(2, 2);
    assert!(set.update(&mut g, marks(2, 2, &[(0, 0)])));
    assert_eq!(values(&g, 0, 0), vec![1, 2, 3, 4]);
}

fn line_peers(p: Position) -> Vec<Position> {
    let mut out = Vec::new();
    for row in 0..2 {
        for col in 0..2 {
            if (row == p.row) != (col == p.col) {
                out.push(pos(row, col));
            }
        }
    }
    out
}

#[test]
fn a_cell_fixed_during_the_pass_clears_its_peers_when_visited() {
    let mut g = open_grid(1, 2);
    g.set(pos(0, 0), CandidateCell::with_value(1));
    let active = marks(1, 2, &[(0, 0), (0, 1), (1, 0), (1, 1)]);
    let changed = update_grid_for_position(&mut g, active, line_peers).unwrap();
    assert_eq!(values(&g, 0, 1), vec![2]);
    assert_eq!(values(&g, 1, 0), vec![2]);
    assert_eq!(values(&g, 1, 1), vec![1]);
    assert!(!*changed.get(pos(0, 0)));
    assert!(*changed.get(pos(0, 1)) && *changed.get(pos(1, 0)) && *changed.get(pos(1, 1)));
}

#[test]
fn a_cell_fixed_after_its_visit_waits_for_the_next_pass() {
    let mut g = open_grid(1, 2);
    g.set(pos(1, 1), CandidateCell::with_value(1));
    let active = marks(1, 2, &[(0, 0), (0, 1), (1, 0), (1, 1)]);
    let peers = |p: Position| {
        if p == pos(0, 0) {
            vec![pos(0, 1)]
        } else if p == pos(1, 1) {
            vec![pos(0, 0)]
        } else {
            Vec::new()
        }
    };
    let changed = update_grid_for_position(&mut g, active, peers).unwrap();
    assert_eq!(values(&g, 0, 0), vec![2]);
    assert_eq!(values(&g, 0, 1), vec![1, 2]);
    assert!(*changed.get(pos(0, 0)));
    assert!(!*changed.get(pos(0, 1)));
}

#[test]
fn a_pass_that_empties_a_cell_gives_none() {
    let mut g = open_grid(1, 2);
    g.set(pos(0, 0), CandidateCell::with_value(1));
    g.set(pos(0, 1), CandidateCell::with_value(1));
    let active = marks(1, 2, &[(0, 0)]);
    assert!(update_grid_for_position(&mut g, active, line_peers).is_none());
}

#[test]
fn accumulate_into_a_larger_grid_leaves_the_rest() {
    let mut acc = marks(2, 2, &[(3, 3)]);
    accumulate(&marks(1, 2, &[(1, 0)]), &mut acc);
    assert!(*acc.get(pos(1, 0)));
    assert!(*acc.get(pos(3, 3)));
    assert!(!*acc.get(pos(0, 0)));
    assert!(!*acc.get(pos(2, 2)));
}

#[test]
fn active_positions_set_keeps_the_last_entries_up_to_its_capacity() {
    let mut set = ActivePositionsSet::new(2, marks(1, 2, &[(0, 0)]));
    set.push(marks(1, 2, &[(0, 1)]));
    set.push(marks(1, 2, &[(1, 0)]));
    let a = set.aggregate();
    assert!(!*a.get(pos(0, 0)));
    assert!(*a.get(pos(0, 1)) && *a.get(pos(1, 0)));
    set.set_max_capacity(1);
    assert_eq!(set.max_capacity(), 1);
    let a = set.aggregate();
    assert!(!*a.get(pos(0, 1)) && *a.get(pos(1, 0)));
    set.set_max_capacity(0);
    assert!(!is_any_true(&set.aggregate()));
}

#[test]
fn killer_cages_prune_in_turn_with_what_earlier_cages_left() {
    let cages = vec![
        Cage { sum: 3, positions: vec![pos(0, 0), pos(0, 1)] },
        Cage { sum: 6, positions: vec![pos(0, 1), pos(1, 1)] },
    ];
    let killer = KillerConstraint::new(cages, 2, 2);
    let mut g = open_grid(2, 2);
    killer.update(&mut g, marks(2, 2, &[(0, 1)])).unwrap();
    assert_eq!(values(&g, 0, 0), vec![1, 2]);
    assert_eq!(values(&g, 0, 1), vec![2]);
    assert_eq!(values(&g, 1, 1), vec![4]);
}

#[test]
fn killer_cage_emptied_by_an_earlier_cage_fails() {
    let cages = vec![
        Cage { sum: 3, positions: vec![pos(0, 0), pos(0, 1)] },
        Cage { sum: 7, positions: vec![pos(0, 1), pos(1, 1)] },
    ];
    let killer = KillerConstraint::new(cages, 2, 2);
    let mut g = open_grid(2, 2);
    assert!(killer.update(&mut g, marks(2, 2, &[(0, 1)])).is_none());
    assert_eq!(values(&g, 0, 1), vec![1, 2]);
}

#[test]
fn thermometers_prune_in_turn_with_what_earlier_ones_left() {
    let t1 = Thermometer { positions: vec![pos(0, 0), pos(0, 1)] };
    let t2 = Thermometer { positions: vec![pos(0, 1), pos(0, 2), pos(0, 3)] };
    let thermo = ThermometerConstraint::new(vec![t1, t2], 2, 2);
    let mut g = open_grid(2, 2);
    thermo.update(&mut g, marks(2, 2, &[(0, 1)])).unwrap();
    assert_eq!(values(&g, 0, 0), vec![1, 2, 3]);
    assert_eq!(values(&g, 0, 1), vec![2]);
    assert_eq!(values(&g, 0, 2), vec![3]);
    assert_eq!(values(&g, 0, 3), vec![4]);
}
