use arboliva::grid::{Grid, Position, SolutionGrid};
use arboliva::model::{Clue, ClueType, Direction, KillerCage, LittleKillerArrow, Puzzle, Rule, Thermometer};
use arboliva::model::puzzle::check_puzzle;
use arboliva::solver::solve;

fn pos(row: usize, col: usize) -> Position {
    Position::new(row, col)
}

const SMALL: [[usize; 4]; 4] = [[1, 2, 3, 4], [3, 4, 1, 2], [2, 1, 4, 3], [4, 3, 2, 1]];

fn puzzle(region_rows: usize, region_cols: usize, givens: &[(usize, usize, u8)]) -> Puzzle {
    let mut puzzle_grid = Grid::from_default(region_rows, region_cols, None);
    for &(row, col, value) in givens {
        puzzle_grid.set(pos(row, col), Some(value));
    }
    Puzzle { puzzle_grid, rules: Vec::new(), clues: Vec::new() }
}

fn small_givens_except(blanks: &[(usize, usize)]) -> Vec<(usize, usize, u8)> {
    let mut givens = Vec::new();
    for row in 0..4 {
        for col in 0..4 {
            if !blanks.contains(&(row, col)) {
                givens.push((row, col, SMALL[row][col] as u8));
            }
        }
    }
    givens
}

fn assert_small_solution(g: &SolutionGrid) {
    assert_eq!(g.grid_size(), 4);
    for row in 0..4 {
        for col in 0..4 {
            assert_eq!(*g.get(pos(row, col)), SMALL[row][col]);
        }
    }
}

#[test]
fn solves_a_small_classic_puzzle() {
    let p = puzzle(2, 2, &small_givens_except(&[(0, 3), (1, 1), (2, 2), (3, 0)]));
    assert!(check_puzzle(&p));
    let g = solve(&p).unwrap();
    assert_small_solution(&g);
}

#[test]
fn solves_a_nine_by_nine_classic_puzzle() {
    let rows = [
        "530070000", "600195000", "098000060", "800060003", "400803001", "700020006", "060000280", "000419005",
        "000080079",
    ];
    let solution = [
        "534678912", "672195348", "198342567", "859761423", "426853791", "713924856", "961537284", "287419635",
        "345286179",
    ];
    let mut givens = Vec::new();
    for (row, line) in rows.iter().enumerate() {
        for (col, ch) in line.chars().enumerate() {
            let v = ch.to_digit(10).unwrap() as u8;
            if v != 0 {
                givens.push((row, col, v));
            }
        }
    }
    let p = puzzle(3, 3, &givens);
    assert!(check_puzzle(&p));
    let g = solve(&p).unwrap();
    for (row, line) in solution.iter().enumerate() {
        for (col, ch) in line.chars().enumerate() {
            assert_eq!(*g.get(pos(row, col)), ch.to_digit(10).unwrap() as usize);
        }
    }
}

#[test]
fn empty_grid_has_many_solutions() {
    let p = puzzle(2, 2, &[]);
    assert_eq!(solve(&p).unwrap_err(), "Multiple solution found");
}

#[test]
fn clashing_givens_are_a_contradiction() {
    let p = puzzle(2, 2, &[(0, 0, 1), (0, 1, 1)]);
    assert_eq!(solve(&p).unwrap_err(), "Contradiction found");
}

#[test]
fn search_that_finds_nothing_reports_no_solution() {
    let mut p = puzzle(2, 2, &[]);
    p.rules.push(Rule::Killer);
    p.clues.push((
        ClueType::KillerCage,
        vec![
            Clue::KillerCage(KillerCage { target_sum: 3, cage_cells: vec![pos(0, 0), pos(0, 1)] }),
            Clue::KillerCage(KillerCage { target_sum: 3, cage_cells: vec![pos(0, 2), pos(0, 3)] }),
        ],
    ));
    assert!(check_puzzle(&p));
    assert_eq!(solve(&p).unwrap_err(), "No solution found");
}

#[test]
fn thermometer_fixes_the_first_row() {
    let mut p = puzzle(2, 2, &[(1, 0, 3), (1, 2, 1), (2, 0, 2), (2, 1, 1)]);
    p.rules.push(Rule::Thermometer);
    p.clues.push((
        ClueType::Thermometer,
        vec![Clue::Thermometer(Thermometer { thermometer_cells: vec![pos(0, 0), pos(0, 1), pos(0, 2), pos(0, 3)] })],
    ));
    assert!(check_puzzle(&p));
    assert_small_solution(&solve(&p).unwrap());
}

#[test]
fn killer_and_anti_knight_rules_together() {
    let expected = [[1, 2, 3, 4], [4, 3, 2, 1], [3, 4, 1, 2], [2, 1, 4, 3]];
    let mut p = puzzle(2, 2, &[(0, 0, 1), (0, 1, 2), (0, 2, 3), (0, 3, 4)]);
    p.rules.push(Rule::Killer);
    p.rules.push(Rule::AntiKnight);
    p.clues.push((
        ClueType::KillerCage,
        vec![Clue::KillerCage(KillerCage { target_sum: 7, cage_cells: vec![pos(1, 0), pos(1, 1)] })],
    ));
    assert!(check_puzzle(&p));
    let g = solve(&p).unwrap();
    for row in 0..4 {
        for col in 0..4 {
            assert_eq!(*g.get(pos(row, col)), expected[row][col]);
        }
    }
}

#[test]
fn anti_knight_rejects_a_plain_sudoku_solution() {
    let mut p = puzzle(2, 2, &small_givens_except(&[]));
    p.rules.push(Rule::AntiKnight);
    assert_eq!(solve(&p).unwrap_err(), "Contradiction found");
}

#[test]
fn little_killer_diagonal_is_checked() {
    let mut p = puzzle(2, 2, &small_givens_except(&[(0, 0), (1, 1)]));
    p.rules.push(Rule::LittleKiller);
    p.clues.push((
        ClueType::LittleKillerArrow,
        vec![Clue::LittleKillerArrow(LittleKillerArrow {
            target_sum: 10,
            first_cell: pos(0, 0),
            direction: Direction::DownRight,
        })],
    ));
    assert!(check_puzzle(&p));
    assert_small_solution(&solve(&p).unwrap());
}

#[test]
fn little_killer_with_a_wrong_sum_has_no_solution() {
    let mut p = puzzle(2, 2, &small_givens_except(&[(0, 0), (1, 1)]));
    p.rules.push(Rule::LittleKiller);
    p.clues.push((
        ClueType::LittleKillerArrow,
        vec![Clue::LittleKillerArrow(LittleKillerArrow {
            target_sum: 11,
            first_cell: pos(0, 0),
            direction: Direction::DownRight,
        })],
    ));
    assert!(solve(&p).is_err());
}

#[test]
fn empty_killer_cage_is_never_checked() {
    let mut p = puzzle(2, 2, &small_givens_except(&[(0, 3)]));
    p.rules.push(Rule::Killer);
    p.clues.push((ClueType::KillerCage, vec![Clue::KillerCage(KillerCage { target_sum: 5, cage_cells: Vec::new() })]));
    assert!(check_puzzle(&p));
    assert_small_solution(&solve(&p).unwrap());
}

#[test]
fn puzzle_with_a_rule_but_no_clues_is_rejected() {
    let mut p = puzzle(2, 2, &[]);
    p.rules.push(Rule::Thermometer);
    assert!(!check_puzzle(&p));
}

#[test]
fn puzzle_naming_a_rule_twice_is_rejected() {
    let mut p = puzzle(2, 2, &[]);
    p.rules.push(Rule::AntiKnight);
    p.rules.push(Rule::AntiKnight);
    assert!(!check_puzzle(&p));
}
