use vstd::prelude::*;
use crate::constraints::variants::anti_knight::anti_knight_rule;
use crate::constraints::variants::classic::classic_rule;
use crate::constraints::variants::killer::{cages_in_bounds, cells_values, killer_cage_ok};
use crate::constraints::variants::little_killer::{
    diagonal_cells, diagonal_ok, region_groups, starts_on_edge,
};
use crate::constraints::variants::thermometer::thermometer_ok;
use crate::grid::candidate_grid::is_assignment;
use crate::grid::grid::Grid;
use crate::grid::position::Position;
use crate::model::clue::{Clue, ClueType, Direction};

verus! {

/// The givens of a puzzle: a value or nothing in every cell.
pub type PuzzleGrid = Grid<Option<u8>>;

/// The rules that a puzzle adds to the classic ones.
#[derive(Debug, Clone, Copy, PartialEq, Eq, Structural)]
pub enum Rule {
    AntiKnight,
    Killer,
    LittleKiller,
    Thermometer,
}

/// A puzzle: its givens, its extra rules, and its clues grouped by kind.
pub struct Puzzle {
    pub puzzle_grid: PuzzleGrid,
    pub rules: Vec<Rule>,
    pub clues: Vec<(ClueType, Vec<Clue>)>,
}

/// Some group of `clues` has kind `t`.
pub open spec fn has_key(clues: Seq<(ClueType, Vec<Clue>)>, t: ClueType) -> bool {
    exists|i: int| 0 <= i < clues.len() && #[trigger] clues[i].0 == t
}

/// `i` is the first group of `clues` of kind `t`.
pub open spec fn first_with_key(clues: Seq<(ClueType, Vec<Clue>)>, t: ClueType, i: int) -> bool {
    &&& 0 <= i < clues.len()
    &&& clues[i].0 == t
    &&& forall|j: int| 0 <= j < i ==> #[trigger] clues[j].0 != t
}

/// The clues of kind `t`: those of the first group of that kind, if there is one.
pub open spec fn clue_seq(clues: Seq<(ClueType, Vec<Clue>)>, t: ClueType) -> Seq<Clue> {
    if has_key(clues, t) {
        clues[choose|i: int| first_with_key(clues, t, i)].1@
    } else {
        Seq::empty()
    }
}

proof fn lemma_first_with_key(clues: Seq<(ClueType, Vec<Clue>)>, t: ClueType, i: int)
    requires
        first_with_key(clues, t, i),
    ensures
        has_key(clues, t),
        clue_seq(clues, t) == clues[i].1@,
{
    let k = choose|k: int| first_with_key(clues, t, k);
    assert(first_with_key(clues, t, i));
    if k < i {
        assert(clues[k].0 != t);
    } else if i < k {
        assert(clues[i].0 != t);
    }
}

/// The side of the puzzle's grid.
pub open spec fn puzzle_size(p: &Puzzle) -> int {
    p.puzzle_grid.size() as int
}

/// `sol` fills the grid with values `1..=n`, and agrees with every given.
pub open spec fn respects_givens(p: &Puzzle, sol: Seq<Seq<int>>) -> bool {
    &&& is_assignment(sol, p.puzzle_grid.size())
    &&& forall|r: int, c: int|
        0 <= r < puzzle_size(p) && 0 <= c < puzzle_size(p) ==> match #[trigger] p.puzzle_grid@[r][c] {
            Some(v) => sol[r][c] == v,
            None => 1 <= sol[r][c] <= puzzle_size(p),
        }
}

/// The extra rule `rule` holds of `sol`, with the clues of the puzzle.
pub open spec fn rule_holds(p: &Puzzle, rule: Rule, sol: Seq<Seq<int>>) -> bool {
    let n = puzzle_size(p);
    let rr = p.puzzle_grid.rrows() as int;
    let rc = p.puzzle_grid.rcols() as int;
    match rule {
        Rule::AntiKnight => anti_knight_rule(sol, n as nat),
        Rule::Killer => {
            let clues = clue_seq(p.clues@, ClueType::KillerCage);
            forall|c: int|
                0 <= c < clues.len() ==> match #[trigger] clues[c] {
                    Clue::KillerCage(k) => killer_cage_ok(cells_values(sol, k.cage_cells@), n, k.target_sum as int),
                    _ => true,
                }
        },
        Rule::LittleKiller => {
            let clues = clue_seq(p.clues@, ClueType::LittleKillerArrow);
            forall|c: int|
                0 <= c < clues.len() ==> match #[trigger] clues[c] {
                    Clue::LittleKillerArrow(a) => diagonal_ok(
                        cells_values(sol, diagonal_cells(a.direction, a.first_cell, n)),
                        region_groups(diagonal_cells(a.direction, a.first_cell, n), rr, rc),
                        n,
                        a.target_sum as int,
                    ),
                    _ => true,
                }
        },
        Rule::Thermometer => {
            let clues = clue_seq(p.clues@, ClueType::Thermometer);
            forall|c: int|
                0 <= c < clues.len() ==> match #[trigger] clues[c] {
                    Clue::Thermometer(t) => thermometer_ok(cells_values(sol, t.thermometer_cells@), n),
                    _ => true,
                }
        },
    }
}

/// All the rules of the puzzle hold of `sol`: the classic ones and every extra one.
pub open spec fn puzzle_holds(p: &Puzzle, sol: Seq<Seq<int>>) -> bool {
    &&& classic_rule(sol, p.puzzle_grid.size(), p.puzzle_grid.rrows(), p.puzzle_grid.rcols())
    &&& forall|i: int| 0 <= i < p.rules@.len() ==> #[trigger] rule_holds(p, p.rules@[i], sol)
}

/// Every cell of `cells` lies inside a grid of side `n`.
pub open spec fn cells_in_bounds(cells: Seq<Position>, n: int) -> bool {
    forall|k: int| 0 <= k < cells.len() ==> (#[trigger] cells[k]).row < n && cells[k].col < n
}

/// The clues that the extra rule `rule` needs are there, each of the right kind and
/// inside the grid.
pub open spec fn rule_clues_ok(p: &Puzzle, rule: Rule) -> bool {
    let n = puzzle_size(p);
    match rule {
        Rule::AntiKnight => true,
        Rule::Killer => {
            &&& has_key(p.clues@, ClueType::KillerCage)
            &&& forall|c: int|
                0 <= c < clue_seq(p.clues@, ClueType::KillerCage).len() ==> match #[trigger] clue_seq(
                    p.clues@,
                    ClueType::KillerCage,
                )[c] {
                    Clue::KillerCage(k) => cells_in_bounds(k.cage_cells@, n),
                    _ => false,
                }
        },
        Rule::LittleKiller => {
            &&& has_key(p.clues@, ClueType::LittleKillerArrow)
            &&& forall|c: int|
                0 <= c < clue_seq(p.clues@, ClueType::LittleKillerArrow).len() ==> match #[trigger] clue_seq(
                    p.clues@,
                    ClueType::LittleKillerArrow,
                )[c] {
                    Clue::LittleKillerArrow(a) => a.first_cell.row < n && a.first_cell.col < n && starts_on_edge(
                        a.direction,
                        a.first_cell,
                        n,
                    ),
                    _ => false,
                }
        },
        Rule::Thermometer => {
            &&& has_key(p.clues@, ClueType::Thermometer)
            &&& forall|c: int|
                0 <= c < clue_seq(p.clues@, ClueType::Thermometer).len() ==> match #[trigger] clue_seq(
                    p.clues@,
                    ClueType::Thermometer,
                )[c] {
                    Clue::Thermometer(t) => cells_in_bounds(t.thermometer_cells@, n),
                    _ => false,
                }
        },
    }
}

/// The puzzle can be solved without a panic: its grid is well formed, of side below 64
/// with regions of at most 255 rows and columns, its givens are values `1..=64`, and
/// every extra rule has its clues.
pub open spec fn puzzle_wf(p: &Puzzle) -> bool {
    &&& p.puzzle_grid.wf()
    &&& p.puzzle_grid.size() < 64
    &&& p.puzzle_grid.rrows() <= 255
    &&& p.puzzle_grid.rcols() <= 255
    &&& forall|r: int, c: int|
        0 <= r < puzzle_size(p) && 0 <= c < puzzle_size(p) ==> match #[trigger] p.puzzle_grid@[r][c] {
            Some(v) => 1 <= v <= 64,
            None => true,
        }
    &&& p.rules@.no_duplicates()
    &&& forall|i: int| 0 <= i < p.rules@.len() ==> #[trigger] rule_clues_ok(p, p.rules@[i])
}

/// A puzzle names each extra rule at most once, so it has at most four of them.
pub proof fn lemma_rules_bound(rules: Seq<Rule>)
    requires
        rules.no_duplicates(),
    ensures
        rules.len() <= 4,
{
    rules.unique_seq_to_set();
    let all = set![Rule::AntiKnight, Rule::Killer, Rule::LittleKiller, Rule::Thermometer];
    assert(rules.to_set().subset_of(all)) by {
        assert forall|x: Rule| rules.to_set().contains(x) implies all.contains(x) by {
            match x {
                Rule::AntiKnight => {},
                Rule::Killer => {},
                Rule::LittleKiller => {},
                Rule::Thermometer => {},
            }
        }
    }
    assert(all.len() == 4) by {
        let s0 = Set::<Rule>::empty();
        let s1 = s0.insert(Rule::AntiKnight);
        let s2 = s1.insert(Rule::Killer);
        let s3 = s2.insert(Rule::LittleKiller);
        let s4 = s3.insert(Rule::Thermometer);
        assert(s4 == all);
        assert(s1.len() == 1);
        assert(!s1.contains(Rule::Killer));
        assert(s2.len() == 2);
        assert(!s2.contains(Rule::LittleKiller));
        assert(s3.len() == 3);
        assert(!s3.contains(Rule::Thermometer));
    }
    vstd::set_lib::lemma_len_subset(rules.to_set(), all);
}

impl Puzzle {
    /// The clues of kind `clue_type`: those of the first group of that kind.
    pub fn clues_of(&self, clue_type: ClueType) -> (r: Option<&Vec<Clue>>)
        ensures
            r is None <==> !has_key(self.clues@, clue_type),
            r matches Some(l) ==> l@ == clue_seq(self.clues@, clue_type),
    {
        let mut i: usize = 0;
        while i < self.clues.len()
            invariant
                i <= self.clues@.len(),
                forall|j: int| 0 <= j < i ==> #[trigger] self.clues@[j].0 != clue_type,
            decreases self.clues@.len() - i,
        {
            if self.clues[i].0 == clue_type {
                proof {
                    lemma_first_with_key(self.clues@, clue_type, i as int);
                }
                return Some(&self.clues[i].1);
            }
            i = i + 1;
        }
        None
    }
}

fn cells_check(cells: &Vec<Position>, n: usize) -> (r: bool)
    ensures
        r == cells_in_bounds(cells@, n as int),
{
    let mut k: usize = 0;
    while k < cells.len()
        invariant
            k <= cells@.len(),
            forall|j: int| 0 <= j < k ==> (#[trigger] cells@[j]).row < n && cells@[j].col < n,
        decreases cells@.len() - k,
    {
        if cells[k].row >= n || cells[k].col >= n {
            assert(!((cells@[k as int]).row < n && cells@[k as int].col < n));
            return false;
        }
        k = k + 1;
    }
    true
}

fn arrow_check(first: Position, direction: Direction, n: usize) -> (r: bool)
    ensures
        r == (first.row < n && first.col < n && starts_on_edge(direction, first, n as int)),
{
    if first.row >= n || first.col >= n {
        return false;
    }
    let last = n - 1;
    match direction {
        Direction::DownRight => first.row == 0 || first.col == 0,
        Direction::DownLeft => first.row == 0 || first.col == last,
        Direction::UpRight => first.row == last || first.col == 0,
        Direction::UpLeft => first.row == last || first.col == last,
    }
}

fn rule_clues_check(p: &Puzzle, rule: Rule) -> (r: bool)
    requires
        p.puzzle_grid.wf(),
    ensures
        r == rule_clues_ok(p, rule),
{
    let n = p.puzzle_grid.grid_size();
    let clue_type = match rule {
        Rule::AntiKnight => {
            return true;
        },
        Rule::Killer => ClueType::KillerCage,
        Rule::LittleKiller => ClueType::LittleKillerArrow,
        Rule::Thermometer => ClueType::Thermometer,
    };
    let clues = match p.clues_of(clue_type) {
        Some(clues) => clues,
        None => {
            return false;
        },
    };
    let ghost cs = clue_seq(p.clues@, clue_type);
    let mut k: usize = 0;
    while k < clues.len()
        invariant
            clues@ == cs,
            cs == clue_seq(p.clues@, clue_type),
            has_key(p.clues@, clue_type),
            rule == Rule::Killer ==> clue_type == ClueType::KillerCage,
            rule == Rule::LittleKiller ==> clue_type == ClueType::LittleKillerArrow,
            rule == Rule::Thermometer ==> clue_type == ClueType::Thermometer,
            rule != Rule::AntiKnight,
            n == puzzle_size(p),
            k <= cs.len(),
            forall|j: int| 0 <= j < k ==> match #[trigger] cs[j] {
                Clue::KillerCage(kc) => rule == Rule::Killer && cells_in_bounds(kc.cage_cells@, n as int),
                Clue::LittleKillerArrow(a) => rule == Rule::LittleKiller && a.first_cell.row < n && a.first_cell.col < n
                    && starts_on_edge(a.direction, a.first_cell, n as int),
                Clue::Thermometer(t) => rule == Rule::Thermometer && cells_in_bounds(t.thermometer_cells@, n as int),
            },
        decreases cs.len() - k,
    {
        let ok = match (&clues[k], rule) {
            (Clue::KillerCage(kc), Rule::Killer) => cells_check(&kc.cage_cells, n),
            (Clue::LittleKillerArrow(a), Rule::LittleKiller) => arrow_check(a.first_cell, a.direction, n),
            (Clue::Thermometer(t), Rule::Thermometer) => cells_check(&t.thermometer_cells, n),
            _ => false,
        };
        if !ok {
            proof {
                assert(clue_seq(p.clues@, clue_type)[k as int] == cs[k as int]);
                match rule {
                    Rule::Killer => assert(clue_type == ClueType::KillerCage),
                    Rule::LittleKiller => assert(clue_type == ClueType::LittleKillerArrow),
                    Rule::Thermometer => assert(clue_type == ClueType::Thermometer),
                    Rule::AntiKnight => {},
                }
            }
            return false;
        }
        k = k + 1;
    }
    true
}

/// Whether the puzzle can be solved without a panic, as `puzzle_wf` says.
pub fn check_puzzle(p: &Puzzle) -> (r: bool)
    ensures
        r == puzzle_wf(p),
{
    if !p.puzzle_grid.is_well_formed() {
        return false;
    }
    let n = p.puzzle_grid.grid_size();
    if n >= 64 || p.puzzle_grid.region_rows() > 255 || p.puzzle_grid.region_cols() > 255 {
        return false;
    }
    let mut row: usize = 0;
    while row < n
        invariant
            p.puzzle_grid.wf(),
            n == puzzle_size(p),
            row <= n,
            forall|r: int, c: int| 0 <= r < row && 0 <= c < n ==> match #[trigger] p.puzzle_grid@[r][c] {
                Some(v) => 1 <= v <= 64,
                None => true,
            },
        decreases n - row,
    {
        let mut col: usize = 0;
        while col < n
            invariant
                p.puzzle_grid.wf(),
                n == puzzle_size(p),
                row < n,
                col <= n,
                forall|r: int, c: int| 0 <= r < row && 0 <= c < n ==> match #[trigger] p.puzzle_grid@[r][c] {
                    Some(v) => 1 <= v <= 64,
                    None => true,
                },
                forall|c: int| 0 <= c < col ==> match #[trigger] p.puzzle_grid@[row as int][c] {
                    Some(v) => 1 <= v <= 64,
                    None => true,
                },
            decreases n - col,
        {
            if let Some(v) = *p.puzzle_grid.get(Position { row, col }) {
                if v == 0 || v > 64 {
                    return false;
                }
            }
            col = col + 1;
        }
        row = row + 1;
    }
    let mut i: usize = 0;
    while i < p.rules.len()
        invariant
            p.puzzle_grid.wf(),
            i <= p.rules@.len(),
            forall|a: int, b: int| 0 <= a < b < i ==> p.rules@[a] != p.rules@[b],
            forall|a: int| 0 <= a < i ==> #[trigger] rule_clues_ok(p, p.rules@[a]),
        decreases p.rules@.len() - i,
    {
        let mut j: usize = 0;
        while j < i
            invariant
                i < p.rules@.len(),
                j <= i,
                forall|a: int| 0 <= a < j ==> p.rules@[a] != p.rules@[i as int],
            decreases i - j,
        {
            if p.rules[j] == p.rules[i] {
                assert(!p.rules@.no_duplicates());
                return false;
            }
            j = j + 1;
        }
        if !rule_clues_check(p, p.rules[i]) {
            return false;
        }
        i = i + 1;
    }
    true
}

} // verus!
