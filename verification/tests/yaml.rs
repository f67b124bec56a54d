use arboliva::grid::Position;
use arboliva::io::yaml::{str_equal, YamlValue};
use arboliva::io::yaml_parser::{
    get_required, parse_puzzle, to_little_killer_arrow, to_position, to_puzzle, to_rules, to_u16, to_u8, to_vec_position,
    LoadError, PuzzleError,
};
use arboliva::model::{Clue, ClueType, Direction, Rule};
use arboliva::solver::solve;

fn text(s: &str) -> YamlValue {
    YamlValue::Text(s.to_string())
}

fn num(n: u64) -> YamlValue {
    YamlValue::Number(n.to_string())
}

fn seq(items: Vec<YamlValue>) -> YamlValue {
    YamlValue::Sequence(items)
}

fn map(entries: Vec<(&str, YamlValue)>) -> YamlValue {
    YamlValue::Mapping(entries.into_iter().map(|(k, v)| (text(k), v)).collect())
}

fn at(row: u64, col: u64) -> YamlValue {
    seq(vec![num(row), num(col)])
}

fn grid_yaml(region_rows: u64, region_cols: u64, cells: Vec<(u64, u64, u64)>) -> YamlValue {
    map(vec![
        ("region_rows", num(region_rows)),
        ("region_cols", num(region_cols)),
        (
            "cells",
            seq(cells.into_iter().map(|(r, c, v)| map(vec![("position", at(r, c)), ("value", num(v))])).collect()),
        ),
    ])
}

fn puzzle_yaml(grid: YamlValue, rules: Vec<&str>, clues: YamlValue) -> YamlValue {
    map(vec![("grid", grid), ("rules", seq(rules.into_iter().map(text).collect())), ("clues", clues)])
}

#[test]
fn keys_are_compared_as_text() {
    assert!(str_equal("grid", "grid"));
    assert!(!str_equal("grid", "grids"));
    let m = map(vec![("a", num(1)), ("b", num(2)), ("a", num(3))]);
    assert!(matches!(m.get("a"), Some(YamlValue::Number(t)) if t == "1"));
    assert!(m.get("c").is_none());
    assert!(matches!(get_required(&m, "b"), Ok(YamlValue::Number(t)) if t == "2"));
    assert!(matches!(get_required(&m, "c"), Err(PuzzleError::MissingKey("c"))));
}

#[test]
fn numbers_must_fit_their_type() {
    assert_eq!(to_u8(&num(255)).ok(), Some(255));
    assert!(matches!(to_u8(&num(256)), Err(PuzzleError::OutOfRangeU8)));
    assert_eq!(to_u16(&num(300)).ok(), Some(300));
    assert!(matches!(to_u16(&num(70000)), Err(PuzzleError::OutOfRangeU16)));
    assert!(matches!(to_u8(&text("7")), Err(PuzzleError::InvalidNumber)));
    assert!(matches!(to_u8(&YamlValue::Number("-1".to_string())), Err(PuzzleError::InvalidNumber)));
}

#[test]
fn positions_are_read_one_based() {
    assert_eq!(to_position(&at(1, 1)).ok(), Some(Position::new(0, 0)));
    assert_eq!(to_position(&at(3, 9)).ok(), Some(Position::new(2, 8)));
    assert!(matches!(to_position(&at(0, 2)), Err(PuzzleError::ZeroIndex)));
    assert!(matches!(to_position(&seq(vec![num(1)])), Err(PuzzleError::PositionLength)));
    assert!(matches!(to_position(&num(1)), Err(PuzzleError::InvalidSequence)));
    let cells = to_vec_position(&seq(vec![at(1, 2), at(2, 1)])).ok().unwrap();
    assert_eq!(cells, vec![Position::new(0, 1), Position::new(1, 0)]);
}

#[test]
fn rules_are_read_by_name() {
    let rules = to_rules(&seq(vec![text("killer"), text("anti_knight")])).ok().unwrap();
    assert_eq!(rules, vec![Rule::Killer, Rule::AntiKnight]);
    match to_rules(&seq(vec![text("sandwich")])) {
        Err(PuzzleError::UnknownRule(name)) => assert_eq!(name, "sandwich"),
        _ => panic!("expected an unknown rule"),
    }
}

#[test]
fn arrow_direction_is_read_by_name() {
    let arrow = map(vec![("target_sum", num(12)), ("first_cell", at(1, 4)), ("direction", text("down_left"))]);
    let a = to_little_killer_arrow(&arrow).ok().unwrap();
    assert_eq!(a.target_sum, 12);
    assert_eq!(a.first_cell, Position::new(0, 3));
    assert_eq!(a.direction, Direction::DownLeft);
    let bad = map(vec![("target_sum", num(12)), ("first_cell", at(1, 4)), ("direction", text("sideways"))]);
    assert!(matches!(to_little_killer_arrow(&bad), Err(PuzzleError::UnknownDirection(_))));
}

#[test]
fn whole_puzzle_is_read() {
    let clues = map(vec![
        ("killer_cage", seq(vec![map(vec![("target_sum", num(3)), ("cage_cells", seq(vec![at(1, 1), at(1, 2)]))])])),
        ("thermometer", seq(vec![map(vec![("thermometer_cells", seq(vec![at(2, 1), at(2, 2)]))])])),
    ]);
    let yaml = puzzle_yaml(grid_yaml(2, 2, vec![(4, 4, 2)]), vec!["killer", "thermometer"], clues);
    let p = to_puzzle(&yaml).ok().unwrap();
    assert_eq!(p.puzzle_grid.grid_size(), 4);
    assert_eq!(*p.puzzle_grid.get(Position::new(3, 3)), Some(2));
    assert_eq!(*p.puzzle_grid.get(Position::new(0, 0)), None);
    assert_eq!(p.rules, vec![Rule::Killer, Rule::Thermometer]);
    assert_eq!(p.clues.len(), 2);
    assert_eq!(p.clues[0].0, ClueType::KillerCage);
    match &p.clues[0].1[0] {
        Clue::KillerCage(k) => {
            assert_eq!(k.target_sum, 3);
            assert_eq!(k.cage_cells, vec![Position::new(0, 0), Position::new(0, 1)]);
        },
        _ => panic!("expected a killer cage"),
    }
    assert_eq!(p.clues[1].0, ClueType::Thermometer);
}

#[test]
fn read_puzzle_can_be_solved() {
    let clues = map(vec![(
        "thermometer",
        seq(vec![map(vec![("thermometer_cells", seq(vec![at(1, 1), at(1, 2), at(1, 3), at(1, 4)]))])]),
    )]);
    let yaml = puzzle_yaml(grid_yaml(2, 2, vec![(2, 1, 3), (2, 3, 1), (3, 1, 2), (3, 2, 1)]), vec!["thermometer"], clues);
    let p = to_puzzle(&yaml).ok().unwrap();
    let g = solve(&p).ok().unwrap();
    assert_eq!(*g.get(Position::new(0, 3)), 4);
    assert_eq!(*g.get(Position::new(3, 3)), 1);
}

#[test]
fn missing_sections_are_reported() {
    let yaml = map(vec![("rules", seq(vec![])), ("clues", map(vec![]))]);
    assert!(matches!(to_puzzle(&yaml), Err(PuzzleError::MissingKey("grid"))));
    let yaml = map(vec![("grid", grid_yaml(2, 2, vec![])), ("clues", map(vec![]))]);
    assert!(matches!(to_puzzle(&yaml), Err(PuzzleError::MissingKey("rules"))));
}

#[test]
fn givens_outside_the_grid_or_out_of_range_are_rejected() {
    let yaml = puzzle_yaml(grid_yaml(2, 2, vec![(5, 1, 1)]), vec![], map(vec![]));
    assert!(matches!(to_puzzle(&yaml), Err(PuzzleError::InvalidPosition(p)) if p == Position::new(4, 0)));
    let yaml = puzzle_yaml(grid_yaml(2, 2, vec![(1, 1, 5)]), vec![], map(vec![]));
    assert!(matches!(to_puzzle(&yaml), Err(PuzzleError::InvalidValue(5, p)) if p == Position::new(0, 0)));
    let yaml = puzzle_yaml(grid_yaml(2, 2, vec![(1, 1, 0)]), vec![], map(vec![]));
    assert!(matches!(to_puzzle(&yaml), Err(PuzzleError::InvalidValue(0, _))));
    let yaml = puzzle_yaml(grid_yaml(2, 2, vec![(1, 1, 1), (1, 1, 2)]), vec![], map(vec![]));
    assert!(matches!(to_puzzle(&yaml), Err(PuzzleError::DuplicateValue(p)) if p == Position::new(0, 0)));
}

#[test]
fn unknown_clue_types_and_bad_keys_are_rejected() {
    let clues = map(vec![("sandwich", seq(vec![]))]);
    let yaml = puzzle_yaml(grid_yaml(2, 2, vec![]), vec![], clues);
    assert!(matches!(to_puzzle(&yaml), Err(PuzzleError::UnknownClueType(_))));
    let clues = YamlValue::Mapping(vec![(num(1), seq(vec![]))]);
    let yaml = puzzle_yaml(grid_yaml(2, 2, vec![]), vec![], clues);
    assert!(matches!(to_puzzle(&yaml), Err(PuzzleError::NonStringKey)));
    let yaml = puzzle_yaml(grid_yaml(2, 2, vec![]), vec![], seq(vec![]));
    assert!(matches!(to_puzzle(&yaml), Err(PuzzleError::InvalidMap)));
    let yaml = map(vec![("grid", grid_yaml(2, 2, vec![])), ("rules", seq(vec![YamlValue::Bool(true)])), ("clues", map(vec![]))]);
    assert!(matches!(to_puzzle(&yaml), Err(PuzzleError::InvalidString)));
}

#[test]
fn numbers_are_read_from_their_digits() {
    assert_eq!(YamlValue::Number("42".to_string()).as_u64(), Some(42));
    assert_eq!(YamlValue::Number("18446744073709551615".to_string()).as_u64(), Some(u64::MAX));
    assert_eq!(YamlValue::Number("18446744073709551616".to_string()).as_u64(), None);
    assert_eq!(YamlValue::Number("-3".to_string()).as_u64(), None);
    assert_eq!(YamlValue::Number("2.5".to_string()).as_u64(), None);
    assert_eq!(YamlValue::Number(String::new()).as_u64(), None);
    assert_eq!(text("7").as_u64(), None);
}

const THERMOMETER_PUZZLE: &str = "
grid:
  region_rows: 2
  region_cols: 2
  cells:
    - position: [2, 1]
      value: 3
    - position: [2, 3]
      value: 1
    - position: [3, 1]
      value: 2
    - position: [3, 2]
      value: 1
rules:
  - thermometer
clues:
  thermometer:
    - thermometer_cells: [[1, 1], [1, 2], [1, 3], [1, 4]]
";

#[test]
fn puzzle_text_is_read_and_solved() {
    let p = match parse_puzzle(THERMOMETER_PUZZLE) {
        Ok(p) => p,
        Err(_) => panic!("the puzzle text should be read"),
    };
    assert_eq!(p.rules, vec![Rule::Thermometer]);
    assert_eq!(*p.puzzle_grid.get(Position::new(1, 0)), Some(3));
    let g = solve(&p).ok().unwrap();
    assert_eq!(*g.get(Position::new(0, 0)), 1);
    assert_eq!(*g.get(Position::new(0, 3)), 4);
    assert_eq!(*g.get(Position::new(3, 3)), 1);
}

#[test]
fn text_that_is_no_yaml_is_refused() {
    assert!(matches!(parse_puzzle("grid: [1, 2"), Err(LoadError::Yaml(_))));
}

#[test]
fn yaml_that_is_no_puzzle_is_refused() {
    assert!(matches!(parse_puzzle("rules: []\nclues: {}\n"), Err(LoadError::Puzzle(PuzzleError::MissingKey("grid")))));
    assert!(matches!(parse_puzzle("grid: {region_rows: 2, region_cols: 2, cells: []}\nrules: [killer, sudoku]\nclues: {}\n"),
        Err(LoadError::Puzzle(PuzzleError::UnknownRule(_)))));
    assert!(matches!(parse_puzzle("grid: {region_rows: -2, region_cols: 2, cells: []}\nrules: []\nclues: {}\n"),
        Err(LoadError::Puzzle(PuzzleError::InvalidNumber))));
}

#[test]
fn tagged_keys_are_not_found_by_their_text() {
    let m = YamlValue::Mapping(vec![(YamlValue::TaggedKey(Box::new(text("a"))), num(1)), (text("b"), num(2))]);
    assert!(m.get("a").is_none());
    assert!(matches!(m.get("b"), Some(YamlValue::Number(t)) if t == "2"));
    assert!(matches!(parse_puzzle("!t grid: {region_rows: 2, region_cols: 2, cells: []}\nrules: []\nclues: {}\n"),
        Err(LoadError::Puzzle(PuzzleError::MissingKey("grid")))));
}

#[test]
fn tagged_clue_keys_are_read_as_text() {
    let clues = YamlValue::Mapping(vec![(YamlValue::TaggedKey(Box::new(text("thermometer"))), seq(vec![]))]);
    let yaml = puzzle_yaml(grid_yaml(2, 2, vec![]), vec![], clues);
    assert!(to_puzzle(&yaml).is_ok());
    let p = parse_puzzle("grid: {region_rows: 2, region_cols: 2, cells: []}\nrules: []\nclues: {!t thermometer: []}\n");
    assert!(p.is_ok());
}

#[test]
fn a_later_clue_group_of_the_same_kind_replaces_an_earlier_one() {
    let bad = seq(vec![YamlValue::Bool(true)]);
    let clues = YamlValue::Mapping(vec![
        (text("thermometer"), bad),
        (YamlValue::TaggedKey(Box::new(text("thermometer"))), seq(vec![])),
    ]);
    let yaml = puzzle_yaml(grid_yaml(2, 2, vec![]), vec![], clues);
    let p = to_puzzle(&yaml).ok().unwrap();
    assert_eq!(p.clues.len(), 1);
    assert!(p.clues[0].1.is_empty());
    let clues = YamlValue::Mapping(vec![
        (YamlValue::TaggedKey(Box::new(text("thermometer"))), seq(vec![])),
        (text("thermometer"), seq(vec![YamlValue::Bool(true)])),
    ]);
    let yaml = puzzle_yaml(grid_yaml(2, 2, vec![]), vec![], clues);
    assert!(to_puzzle(&yaml).is_err());
}
