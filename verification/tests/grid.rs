use arboliva::grid::{CandidateCell, Grid, Position};

fn pos(row: usize, col: usize) -> Position {
    Position::new(row, col)
}

#[test]
fn from_default_fills_every_cell() {
    let g = Grid::from_default(2, 3, 7usize);
    assert_eq!(g.region_rows(), 2);
    assert_eq!(g.region_cols(), 3);
    assert_eq!(g.grid_size(), 6);
    assert!(g.is_well_formed());
    for row in 0..6 {
        for col in 0..6 {
            assert_eq!(*g.get(pos(row, col)), 7);
        }
    }
}

#[test]
fn set_changes_one_cell_only() {
    let mut g = Grid::from_default(2, 2, 0usize);
    g.set(pos(1, 2), 5);
    assert_eq!(*g.get(pos(1, 2)), 5);
    assert_eq!(*g.get(pos(2, 1)), 0);
    assert_eq!(*g.get(pos(1, 1)), 0);
}

#[test]
fn replace_gives_back_the_old_value() {
    let mut g = Grid::from_default(1, 2, 3usize);
    let old = g.replace(pos(0, 1), 9);
    assert_eq!(old, 3);
    assert_eq!(*g.get(pos(0, 1)), 9);
}

#[test]
fn map_applies_to_every_cell() {
    let mut g = Grid::from_default(2, 2, 1usize);
    g.set(pos(3, 3), 4);
    let doubled = g.map(|v: &usize| *v * 2);
    assert_eq!(doubled.grid_size(), 4);
    assert_eq!(*doubled.get(pos(0, 0)), 2);
    assert_eq!(*doubled.get(pos(3, 3)), 8);
}

#[test]
fn zip_apply_combines_cell_by_cell() {
    let mut a = Grid::from_default(2, 2, 1usize);
    let mut b = Grid::from_default(2, 2, 10usize);
    b.set(pos(0, 1), 20);
    a.zip_apply(&b, |x: &usize, y: &usize| *x + *y);
    assert_eq!(*a.get(pos(0, 1)), 21);
    assert_eq!(*a.get(pos(2, 2)), 11);
}

#[test]
fn clone_grid_is_an_equal_copy() {
    let mut g = Grid::from_default(2, 2, CandidateCell::with_count(4));
    g.set(pos(0, 0), CandidateCell::with_value(2));
    let h = g.clone_grid();
    assert_eq!(*h.get(pos(0, 0)), CandidateCell::with_value(2));
    assert_eq!(h.get(pos(1, 1)).len(), 4);
}

#[test]
fn position_region_of_a_nine_by_nine_grid() {
    assert_eq!(pos(0, 0).region(), 0);
    assert_eq!(pos(4, 7).region(), 5);
    assert_eq!(pos(8, 8).region(), 8);
    assert_eq!(pos(4, 7).row(), 4);
    assert_eq!(pos(4, 7).col(), 7);
}

#[test]
fn position_is_shown_one_based() {
    assert_eq!(pos(0, 2).to_string(), "(1, 3)");
    assert_eq!(pos(10, 0).to_string(), "(11, 1)");
}

#[test]
fn solution_grid_is_drawn_with_region_lines() {
    let values = [[1, 2, 3, 4], [3, 4, 1, 2], [2, 1, 4, 3], [4, 3, 2, 0]];
    let mut g = Grid::from_default(2, 2, 0usize);
    for row in 0..4 {
        for col in 0..4 {
            g.set(pos(row, col), values[row][col]);
        }
    }
    let expected = "+-----+-----+\n\
                    | 1 2 | 3 4 |\n\
                    | 3 4 | 1 2 |\n\
                    +-----+-----+\n\
                    | 2 1 | 4 3 |\n\
                    | 4 3 | 2   |\n\
                    +-----+-----+\n";
    assert_eq!(g.to_string(), expected);
}

#[test]
fn candidate_grid_shows_each_candidate_in_place() {
    let g = Grid::from_default(1, 1, CandidateCell::with_count(1));
    let expected = "++===++\n|| 1 ||\n\
                    ++=======+=======+=======++=======+=======+=======++=======+=======+=======++\n";
    assert_eq!(g.to_string(), expected);
}

#[test]
fn candidate_grid_leaves_removed_candidates_blank() {
    let mut g = Grid::from_default(1, 2, CandidateCell::with_count(2));
    g.set(pos(1, 1), CandidateCell::with_value(2));
    let expected = "++=====+=====++\n|| 1 2 | 1 2 ||\n++=====+=====++\n|| 1 2 |   2 ||\n\
                    ++=======+=======+=======++=======+=======+=======++=======+=======+=======++\n";
    assert_eq!(g.to_string(), expected);
}
