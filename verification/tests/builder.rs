use arboliva::constraints::builder::to_constraint;
use arboliva::constraints::constraint::Constraint;
use arboliva::constraints::constraint_set::{AnyConstraint, ConstraintSet};
use arboliva::grid::{CandidateCell, CandidateGrid, Grid, Position};
use arboliva::io::yaml::YamlValue;

fn text(s: &str) -> YamlValue {
    YamlValue::Text(s.to_string())
}

fn num(n: u64) -> YamlValue {
    YamlValue::Number(n.to_string())
}

fn seq(items: Vec<YamlValue>) -> YamlValue {
    YamlValue::Sequence(items)
}

fn map(entries: Vec<(&str, YamlValue)>) -> YamlValue {
    YamlValue::Mapping(entries.into_iter().map(|(k, v)| (text(k), v)).collect())
}

fn at(row: u64, col: u64) -> YamlValue {
    seq(vec![num(row), num(col)])
}

fn open_grid() -> CandidateGrid {
    Grid::from_default(2, 2, CandidateCell::with_count(4))
}

fn everything_active() -> Grid<bool> {
    Grid::from_default(2, 2, true)
}

fn values(g: &CandidateGrid, row: usize, col: usize) -> Vec<u8> {
    (1..=4u8).filter(|v| g.get(Position::new(row, col)).contains(*v)).collect()
}

fn error_of(value: &YamlValue) -> String {
    to_constraint(value, 2, 2).err().unwrap()
}

#[test]
fn classic_and_anti_knight_need_only_their_type() {
    assert!(matches!(to_constraint(&map(vec![("type", text("classic"))]), 2, 2), Ok(AnyConstraint::Classic(_))));
    assert!(matches!(to_constraint(&map(vec![("type", text("anti_knight"))]), 2, 2), Ok(AnyConstraint::AntiKnight(_))));
}

#[test]
fn killer_description_builds_its_cages() {
    let cage = map(vec![("sum", num(3)), ("positions", seq(vec![at(1, 1), at(1, 2)]))]);
    let value = map(vec![("type", text("killer")), ("cages", seq(vec![cage]))]);
    let c = to_constraint(&value, 2, 2).ok().unwrap();
    let mut g = open_grid();
    assert!(c.update(&mut g, everything_active()).is_some());
    assert_eq!(values(&g, 0, 0), vec![1, 2]);
    assert_eq!(values(&g, 0, 1), vec![1, 2]);
    assert_eq!(values(&g, 1, 1), vec![1, 2, 3, 4]);
}

#[test]
fn little_killer_description_builds_its_diagonals() {
    let diagonal = map(vec![("sum", num(6)), ("direction", text("down_right")), ("first", at(1, 1))]);
    let value = map(vec![("type", text("little_killer")), ("diagonals", seq(vec![diagonal]))]);
    let c = to_constraint(&value, 2, 2).ok().unwrap();
    let mut g = open_grid();
    assert!(c.update(&mut g, everything_active()).is_some());
    assert_eq!(values(&g, 3, 3), vec![1, 2]);
}

#[test]
fn thermometer_description_builds_its_thermometers() {
    let thermometer = map(vec![("positions", seq(vec![at(1, 1), at(2, 1), at(3, 1), at(4, 1)]))]);
    let value = map(vec![("type", text("thermometer")), ("thermometers", seq(vec![thermometer]))]);
    let c = to_constraint(&value, 2, 2).ok().unwrap();
    let mut g = open_grid();
    assert!(c.update(&mut g, everything_active()).is_some());
    for row in 0..4 {
        assert_eq!(values(&g, row, 0), vec![row as u8 + 1]);
    }
}

#[test]
fn missing_and_unknown_types_are_reported() {
    assert_eq!(error_of(&map(vec![])), "missing or invalid 'type'");
    assert_eq!(error_of(&map(vec![("type", num(1))])), "missing or invalid 'type'");
    assert_eq!(error_of(&map(vec![("type", text("sandwich"))])), "unknown constraint type: sandwich");
    assert_eq!(error_of(&map(vec![("type", text("killer"))])), "missing or invalid 'cages'");
}

#[test]
fn bad_positions_are_reported() {
    let cage = |positions: YamlValue| {
        map(vec![("type", text("killer")), ("cages", seq(vec![map(vec![("sum", num(3)), ("positions", positions)])]))])
    };
    assert_eq!(error_of(&cage(seq(vec![at(0, 1)]))), "row must be >= 1");
    assert_eq!(error_of(&cage(seq(vec![at(1, 0)]))), "col must be >= 1");
    assert_eq!(error_of(&cage(seq(vec![seq(vec![num(1)])]))), "Position must have exactly 2 elements");
    assert_eq!(error_of(&cage(seq(vec![num(1)]))), "each element in 'positions' must be a sequence");
    assert_eq!(error_of(&cage(seq(vec![seq(vec![text("a"), num(1)])]))), "invalid row in Position");
    assert_eq!(error_of(&cage(seq(vec![at(5, 1)]))), "position outside the grid");
    assert_eq!(error_of(&cage(num(2))), "missing or invalid 'positions'");
}

#[test]
fn bad_diagonals_are_reported() {
    let diagonal = |direction: &str, first: YamlValue| {
        map(vec![
            ("type", text("little_killer")),
            ("diagonals", seq(vec![map(vec![("sum", num(6)), ("direction", text(direction)), ("first", first)])])),
        ])
    };
    assert_eq!(error_of(&diagonal("sideways", at(1, 1))), "invalid direction: sideways");
    assert_eq!(error_of(&diagonal("down_right", at(2, 2))), "diagonal does not start on the edge");
    assert_eq!(error_of(&diagonal("up_left", at(4, 9))), "position outside the grid");
    let huge = map(vec![
        ("type", text("little_killer")),
        ("diagonals", seq(vec![map(vec![("sum", num(70000)), ("direction", text("up_left")), ("first", at(4, 4))])])),
    ]);
    assert_eq!(error_of(&huge), "missing or invalid 'sum'");
}

#[test]
fn constraint_set_is_built_in_order() {
    let raw = vec![map(vec![("type", text("classic"))]), map(vec![("type", text("anti_knight"))])];
    let set = ConstraintSet::from_yaml_values(raw, 2, 2).ok().unwrap();
    let mut g = open_grid();
    g.set(Position::new(0, 0), CandidateCell::with_value(1));
    let mut active = Grid::from_default(2, 2, false);
    active.set(Position::new(0, 0), true);
    assert!(set.update(&mut g, active));
    assert_eq!(values(&g, 0, 1), vec![2, 3, 4]);
    assert_eq!(values(&g, 1, 2), vec![2, 3, 4]);
}

#[test]
fn constraint_set_reports_the_first_bad_description() {
    let raw = vec![
        map(vec![("type", text("classic"))]),
        map(vec![("type", text("sudoku"))]),
        map(vec![]),
    ];
    assert_eq!(ConstraintSet::from_yaml_values(raw, 2, 2).err().unwrap(), "unknown constraint type: sudoku");
}
