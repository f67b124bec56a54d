use vstd::prelude::*;
use crate::constraints::constraint::Constraint;
use crate::constraints::constraint_set::{AnyConstraint, ConstraintSet};
use crate::constraints::variants::killer::{cages_in_bounds, Cage};
use crate::constraints::variants::little_killer::{
    diagonal_cells, diagonals_in_bounds, dir_dc, dir_dr, starts_on_edge, step_from, Diagonal, Direction,
};
use crate::constraints::variants::thermometer::{thermometers_in_bounds, Thermometer};
use crate::constraints::variants::{
    AntiKnightConstraint, ClassicConstraint, KillerConstraint, LittleKillerConstraint, ThermometerConstraint,
};
use crate::grid::position::Position;
use crate::io::yaml::{str_equal, yaml_get, yaml_items, yaml_text, yaml_u64, YamlValue};

verus! {

/// The message for a value under `key` that is missing or of the wrong kind.
pub open spec fn missing_message(key: Seq<char>) -> Seq<char> {
    "missing or invalid '"@ + key + "'"@
}

/// The message for a coordinate `name` of a position that is not a number.
pub open spec fn index_message(name: Seq<char>) -> Seq<char> {
    "invalid "@ + name + " in Position"@
}

/// The message for a coordinate `name` of a position that is zero.
pub open spec fn zero_message(name: Seq<char>) -> Seq<char> {
    name + " must be >= 1"@
}

/// The message for an item of the list under `key` that is not itself a list.
pub open spec fn element_message(key: Seq<char>) -> Seq<char> {
    "each element in '"@ + key + "' must be a sequence"@
}

/// The message for a position that lies outside the grid.
pub open spec fn outside_message() -> Seq<char> {
    "position outside the grid"@
}

/// What reading the number under `key` of `v` gives.
pub open spec fn usize_at(v: YamlValue, key: Seq<char>) -> Result<usize, Seq<char>> {
    match yaml_get(v, key) {
        Some(x) => match yaml_u64(x) {
            Some(n) => if n <= usize::MAX {
                Ok(n as usize)
            } else {
                Err(missing_message(key))
            },
            None => Err(missing_message(key)),
        },
        None => Err(missing_message(key)),
    }
}

/// What reading the text under `key` of `v` gives.
pub open spec fn text_at(v: YamlValue, key: Seq<char>) -> Result<Seq<char>, Seq<char>> {
    match yaml_get(v, key) {
        Some(x) => match yaml_text(x) {
            Some(t) => Ok(t),
            None => Err(missing_message(key)),
        },
        None => Err(missing_message(key)),
    }
}

/// What reading the list under `key` of `v` gives.
pub open spec fn items_at(v: YamlValue, key: Seq<char>) -> Result<Seq<YamlValue>, Seq<char>> {
    match yaml_get(v, key) {
        Some(x) => match yaml_items(x) {
            Some(items) => Ok(items),
            None => Err(missing_message(key)),
        },
        None => Err(missing_message(key)),
    }
}

/// What reading `v` as coordinate `name` of a position, counted from one, gives.
pub open spec fn index_result(v: YamlValue, name: Seq<char>) -> Result<usize, Seq<char>> {
    match yaml_u64(v) {
        Some(n) => if n > usize::MAX {
            Err(index_message(name))
        } else if n == 0 {
            Err(zero_message(name))
        } else {
            Ok((n - 1) as usize)
        },
        None => Err(index_message(name)),
    }
}

/// What reading `items` as a position `[row, col]` gives.
pub open spec fn position_of_items(items: Seq<YamlValue>) -> Result<Position, Seq<char>> {
    if items.len() != 2 {
        Err("Position must have exactly 2 elements"@)
    } else {
        match index_result(items[0], "row"@) {
            Err(e) => Err(e),
            Ok(row) => match index_result(items[1], "col"@) {
                Err(e) => Err(e),
                Ok(col) => Ok(Position { row, col }),
            },
        }
    }
}

/// What reading the position under `key` of `v` gives.
pub open spec fn position_at(v: YamlValue, key: Seq<char>) -> Result<Position, Seq<char>> {
    match items_at(v, key) {
        Err(e) => Err(e),
        Ok(items) => position_of_items(items),
    }
}

/// What reading `v`, an item of the list under `key`, as a position gives.
pub open spec fn position_item(v: YamlValue, key: Seq<char>) -> Result<Position, Seq<char>> {
    match yaml_items(v) {
        None => Err(element_message(key)),
        Some(items) => position_of_items(items),
    }
}

/// Item `i` of `items` is the first that `f` fails on.
pub open spec fn first_failing<T>(items: Seq<YamlValue>, f: spec_fn(YamlValue) -> Result<T, Seq<char>>, i: int) -> bool {
    &&& 0 <= i < items.len()
    &&& f(items[i]) is Err
    &&& forall|j: int| 0 <= j < i ==> #[trigger] f(items[j]) is Ok
}

/// What reading every item of `items` with `f` gives: the error of the first item
/// that `f` fails on, or all the results.
pub open spec fn all_of<T>(items: Seq<YamlValue>, f: spec_fn(YamlValue) -> Result<T, Seq<char>>) -> Result<Seq<T>, Seq<char>> {
    if exists|i: int| first_failing(items, f, i) {
        Err(f(items[choose|i: int| first_failing(items, f, i)])->Err_0)
    } else {
        Ok(Seq::new(items.len(), |i: int| f(items[i])->Ok_0))
    }
}

/// The first failing item decides the error.
proof fn lemma_all_of_fails<T>(items: Seq<YamlValue>, f: spec_fn(YamlValue) -> Result<T, Seq<char>>, i: int)
    requires
        first_failing(items, f, i),
    ensures
        all_of(items, f) == Err::<Seq<T>, Seq<char>>(f(items[i])->Err_0),
{
    let k = choose|k: int| first_failing(items, f, k);
    assert(first_failing(items, f, k));
    if k < i {
        assert(f(items[k]) is Ok);
    } else if i < k {
        assert(f(items[i]) is Ok);
    }
}

/// When no item fails, the results are those of the items, in order.
proof fn lemma_all_of_ok<T>(items: Seq<YamlValue>, f: spec_fn(YamlValue) -> Result<T, Seq<char>>, out: Seq<T>)
    requires
        out.len() == items.len(),
        forall|j: int| 0 <= j < items.len() ==> #[trigger] f(items[j]) == Ok::<T, Seq<char>>(out[j]),
    ensures
        all_of(items, f) == Ok::<Seq<T>, Seq<char>>(out),
{
    assert(!exists|i: int| first_failing(items, f, i));
    assert(Seq::new(items.len(), |i: int| f(items[i])->Ok_0) =~= out);
}

/// What reading the list of positions under `key` of `v` gives.
pub open spec fn positions_at(v: YamlValue, key: Seq<char>) -> Result<Seq<Position>, Seq<char>> {
    match items_at(v, key) {
        Err(e) => Err(e),
        Ok(items) => all_of(items, |x: YamlValue| position_item(x, key)),
    }
}

/// What reading `v` as a killer cage gives: its sum and its cells.
pub open spec fn cage_result(v: YamlValue) -> Result<(usize, Seq<Position>), Seq<char>> {
    match usize_at(v, "sum"@) {
        Err(e) => Err(e),
        Ok(sum) => match positions_at(v, "positions"@) {
            Err(e) => Err(e),
            Ok(ps) => Ok((sum, ps)),
        },
    }
}

/// The direction that the text `t` names.
pub open spec fn direction_of_text(t: Seq<char>) -> Option<Direction> {
    if t == "down_right"@ {
        Some(Direction::DownRight)
    } else if t == "down_left"@ {
        Some(Direction::DownLeft)
    } else if t == "up_right"@ {
        Some(Direction::UpRight)
    } else if t == "up_left"@ {
        Some(Direction::UpLeft)
    } else {
        None
    }
}

/// A diagonal is built with the direction that its description names, and only a text
/// that names one of the four directions gives a diagonal: `up_right` goes up and to the
/// right, `up_left` up and to the left, `down_right` down and to the right, `down_left`
/// down and to the left.
pub proof fn law_diagonal_direction_is_named(v: YamlValue)
    ensures
        diagonal_result(v) is Ok ==> ({
            let d = diagonal_result(v)->Ok_0.1;
            let name = text_at(v, "direction"@)->Ok_0;
            &&& text_at(v, "direction"@) is Ok
            &&& (d == Direction::UpRight <==> name == "up_right"@)
            &&& (d == Direction::UpLeft <==> name == "up_left"@)
            &&& (d == Direction::DownRight <==> name == "down_right"@)
            &&& (d == Direction::DownLeft <==> name == "down_left"@)
        }),
{
    reveal_strlit("up_right");
    reveal_strlit("up_left");
    reveal_strlit("down_right");
    reveal_strlit("down_left");
    assert("up_right"@.len() == 8 && "up_left"@.len() == 7 && "down_right"@.len() == 10 && "down_left"@.len() == 9);
}

/// What reading `v` as a little killer diagonal gives: its sum, its direction and its
/// first cell. A sum that no diagonal can reach, above `u16::MAX`, is refused.
pub open spec fn diagonal_result(v: YamlValue) -> Result<(u16, Direction, Position), Seq<char>> {
    match usize_at(v, "sum"@) {
        Err(e) => Err(e),
        Ok(sum) => if sum > u16::MAX {
            Err(missing_message("sum"@))
        } else {
            match text_at(v, "direction"@) {
                Err(e) => Err(e),
                Ok(t) => match direction_of_text(t) {
                    None => Err("invalid direction: "@ + t),
                    Some(d) => match position_at(v, "first"@) {
                        Err(e) => Err(e),
                        Ok(p) => Ok((sum as u16, d, p)),
                    },
                },
            }
        },
    }
}

/// What reading `v` as a thermometer gives: its cells, from the bulb.
pub open spec fn thermometer_result(v: YamlValue) -> Result<Seq<Position>, Seq<char>> {
    positions_at(v, "positions"@)
}

/// Every cell of `cells` lies in a grid of side `n`.
pub open spec fn cells_inside(cells: Seq<Position>, n: int) -> bool {
    forall|k: int| 0 <= k < cells.len() ==> (#[trigger] cells[k]).row < n && cells[k].col < n
}

/// Why the killer constraint that `v` describes cannot be built for a grid of side
/// `n`, if it cannot.
pub open spec fn killer_error(v: YamlValue, n: int) -> Option<Seq<char>> {
    match items_at(v, "cages"@) {
        Err(e) => Some(e),
        Ok(items) => match all_of(items, |x: YamlValue| cage_result(x)) {
            Err(e) => Some(e),
            Ok(cages) => if forall|c: int| 0 <= c < cages.len() ==> cells_inside(#[trigger] cages[c].1, n) {
                None
            } else {
                Some(outside_message())
            },
        },
    }
}

/// `k` is the killer constraint that `v` describes, for grids of `region_rows` x
/// `region_cols` regions.
pub open spec fn killer_read(v: YamlValue, region_rows: nat, region_cols: nat, k: KillerConstraint) -> bool {
    &&& k.built_for(region_rows, region_cols)
    &&& items_at(v, "cages"@) matches Ok(items)
    &&& all_of(items, |x: YamlValue| cage_result(x)) matches Ok(cages)
    &&& k.cage_seq().len() == cages.len()
    &&& forall|i: int|
        0 <= i < cages.len() ==> (#[trigger] k.cage_seq()[i]).sum == cages[i].0 && k.cage_seq()[i].positions@ == cages[i].1
}

/// The message for a diagonal that does not start on the edge its arrow points from.
pub open spec fn edge_message() -> Seq<char> {
    "diagonal does not start on the edge"@
}

/// Why the little killer constraint that `v` describes cannot be built for a grid of
/// side `n`, if it cannot.
pub open spec fn little_killer_error(v: YamlValue, n: int) -> Option<Seq<char>> {
    match items_at(v, "diagonals"@) {
        Err(e) => Some(e),
        Ok(items) => match all_of(items, |x: YamlValue| diagonal_result(x)) {
            Err(e) => Some(e),
            Ok(ds) => if !(forall|c: int| 0 <= c < ds.len() ==> (#[trigger] ds[c]).2.row < n && ds[c].2.col < n) {
                Some(outside_message())
            } else if !(forall|c: int| 0 <= c < ds.len() ==> starts_on_edge((#[trigger] ds[c]).1, ds[c].2, n)) {
                Some(edge_message())
            } else {
                None
            },
        },
    }
}

/// `l` is the little killer constraint that `v` describes, for grids of
/// `region_rows` x `region_cols` regions.
pub open spec fn little_killer_read(v: YamlValue, region_rows: nat, region_cols: nat, l: LittleKillerConstraint) -> bool {
    &&& l.built_for(region_rows, region_cols)
    &&& items_at(v, "diagonals"@) matches Ok(items)
    &&& all_of(items, |x: YamlValue| diagonal_result(x)) matches Ok(ds)
    &&& l.diagonal_seq().len() == ds.len()
    &&& forall|i: int|
        0 <= i < ds.len() ==> (#[trigger] l.diagonal_seq()[i]).sum == ds[i].0 && l.diagonal_seq()[i].positions@
            == diagonal_cells(ds[i].1, ds[i].2, (region_rows * region_cols) as int)
}

/// Why the thermometer constraint that `v` describes cannot be built for a grid of
/// side `n`, if it cannot.
pub open spec fn thermometer_error(v: YamlValue, n: int) -> Option<Seq<char>> {
    match items_at(v, "thermometers"@) {
        Err(e) => Some(e),
        Ok(items) => match all_of(items, |x: YamlValue| thermometer_result(x)) {
            Err(e) => Some(e),
            Ok(ts) => if forall|c: int| 0 <= c < ts.len() ==> cells_inside(#[trigger] ts[c], n) {
                None
            } else {
                Some(outside_message())
            },
        },
    }
}

/// `t` is the thermometer constraint that `v` describes, for grids of `region_rows` x
/// `region_cols` regions.
pub open spec fn thermometer_read(v: YamlValue, region_rows: nat, region_cols: nat, t: ThermometerConstraint) -> bool {
    &&& t.built_for(region_rows, region_cols)
    &&& items_at(v, "thermometers"@) matches Ok(items)
    &&& all_of(items, |x: YamlValue| thermometer_result(x)) matches Ok(ts)
    &&& t.thermometer_seq().len() == ts.len()
    &&& forall|i: int| 0 <= i < ts.len() ==> (#[trigger] t.thermometer_seq()[i]).positions@ == ts[i]
}

/// Why the constraint that `v` describes cannot be built for a grid of side `n`, if it
/// cannot.
pub open spec fn constraint_error(v: YamlValue, n: int) -> Option<Seq<char>> {
    match text_at(v, "type"@) {
        Err(e) => Some(e),
        Ok(t) => if t == "classic"@ || t == "anti_knight"@ {
            None
        } else if t == "killer"@ {
            killer_error(v, n)
        } else if t == "little_killer"@ {
            little_killer_error(v, n)
        } else if t == "thermometer"@ {
            thermometer_error(v, n)
        } else {
            Some("unknown constraint type: "@ + t)
        },
    }
}

/// `c` is the constraint that the description `v` gives for grids of
/// `region_rows` x `region_cols` regions.
pub open spec fn constraint_read(v: YamlValue, region_rows: nat, region_cols: nat, c: AnyConstraint) -> bool {
    &&& c.built_for(region_rows, region_cols)
    &&& text_at(v, "type"@) matches Ok(t)
    &&& if t == "classic"@ {
        c == AnyConstraint::Classic(ClassicConstraint)
    } else if t == "anti_knight"@ {
        c == AnyConstraint::AntiKnight(AntiKnightConstraint)
    } else if t == "killer"@ {
        c matches AnyConstraint::Killer(k) && killer_read(v, region_rows, region_cols, k)
    } else if t == "little_killer"@ {
        c matches AnyConstraint::LittleKiller(l) && little_killer_read(v, region_rows, region_cols, l)
    } else {
        &&& t == "thermometer"@
        &&& c matches AnyConstraint::Thermometer(th) && thermometer_read(v, region_rows, region_cols, th)
    }
}

/// A constraint is built as the kind that its description's type names, and only the
/// five names give a constraint.
pub proof fn law_constraint_kind_is_named(v: YamlValue, region_rows: nat, region_cols: nat, c: AnyConstraint)
    requires
        constraint_read(v, region_rows, region_cols, c),
    ensures
        ({
            let t = text_at(v, "type"@)->Ok_0;
            &&& (c is Classic <==> t == "classic"@)
            &&& (c is AntiKnight <==> t == "anti_knight"@)
            &&& (c is Killer <==> t == "killer"@)
            &&& (c is LittleKiller <==> t == "little_killer"@)
            &&& (c is Thermometer <==> t == "thermometer"@)
        }),
{
    reveal_strlit("classic");
    reveal_strlit("anti_knight");
    reveal_strlit("killer");
    reveal_strlit("little_killer");
    reveal_strlit("thermometer");
    assert("anti_knight"@[0] == 'a' && "thermometer"@[0] == 't');
    assert("classic"@.len() == 7 && "killer"@.len() == 6 && "little_killer"@.len() == 13 && "anti_knight"@.len() == 11
        && "thermometer"@.len() == 11);
}

fn missing_or_invalid(key: &str) -> (r: String)
    ensures
        r@ == missing_message(key@),
{
    let mut s = String::new();
    s.append("missing or invalid '");
    s.append(key);
    s.append("'");
    s
}

fn to_usize(value: &YamlValue, key: &str) -> (r: Result<usize, String>)
    ensures
        match r {
            Ok(n) => usize_at(*value, key@) == Ok::<usize, Seq<char>>(n),
            Err(e) => usize_at(*value, key@) == Err::<usize, Seq<char>>(e@),
        },
{
    let number = match value.get(key) {
        Some(x) => x.as_u64(),
        None => None,
    };
    match number {
        Some(n) => {
            if n <= usize::MAX as u64 {
                Ok(n as usize)
            } else {
                Err(missing_or_invalid(key))
            }
        },
        None => Err(missing_or_invalid(key)),
    }
}

fn to_string(value: &YamlValue, key: &str) -> (r: Result<String, String>)
    ensures
        match r {
            Ok(s) => text_at(*value, key@) == Ok::<Seq<char>, Seq<char>>(s@),
            Err(e) => text_at(*value, key@) == Err::<Seq<char>, Seq<char>>(e@),
        },
{
    match value.get(key) {
        Some(YamlValue::Text(s)) => Ok(s.clone()),
        _ => Err(missing_or_invalid(key)),
    }
}

fn to_vec<'a>(value: &'a YamlValue, key: &str) -> (r: Result<&'a Vec<YamlValue>, String>)
    ensures
        match r {
            Ok(items) => items_at(*value, key@) == Ok::<Seq<YamlValue>, Seq<char>>(items@),
            Err(e) => items_at(*value, key@) == Err::<Seq<YamlValue>, Seq<char>>(e@),
        },
{
    match value.get(key) {
        Some(YamlValue::Sequence(items)) => Ok(items),
        _ => Err(missing_or_invalid(key)),
    }
}

fn parse_index(v: &YamlValue, name: &str) -> (r: Result<usize, String>)
    ensures
        match r {
            Ok(n) => index_result(*v, name@) == Ok::<usize, Seq<char>>(n),
            Err(e) => index_result(*v, name@) == Err::<usize, Seq<char>>(e@),
        },
{
    let bad = match v.as_u64() {
        Some(n) => {
            if n > usize::MAX as u64 {
                true
            } else if n == 0 {
                let mut s = String::new();
                s.append(name);
                s.append(" must be >= 1");
                return Err(s);
            } else {
                return Ok((n - 1) as usize);
            }
        },
        None => true,
    };
    let mut s = String::new();
    s.append("invalid ");
    s.append(name);
    s.append(" in Position");
    assert(bad);
    Err(s)
}

fn parse_position(seq: &Vec<YamlValue>) -> (r: Result<Position, String>)
    ensures
        match r {
            Ok(p) => position_of_items(seq@) == Ok::<Position, Seq<char>>(p),
            Err(e) => position_of_items(seq@) == Err::<Position, Seq<char>>(e@),
        },
{
    if seq.len() != 2 {
        return Err("Position must have exactly 2 elements".to_string());
    }
    let row = match parse_index(&seq[0], "row") {
        Ok(n) => n,
        Err(e) => return Err(e),
    };
    let col = match parse_index(&seq[1], "col") {
        Ok(n) => n,
        Err(e) => return Err(e),
    };
    Ok(Position { row, col })
}

fn to_position(value: &YamlValue, key: &str) -> (r: Result<Position, String>)
    ensures
        match r {
            Ok(p) => position_at(*value, key@) == Ok::<Position, Seq<char>>(p),
            Err(e) => position_at(*value, key@) == Err::<Position, Seq<char>>(e@),
        },
{
    let seq = match to_vec(value, key) {
        Ok(items) => items,
        Err(e) => return Err(e),
    };
    parse_position(seq)
}

fn to_positions(value: &YamlValue, key: &str) -> (r: Result<Vec<Position>, String>)
    ensures
        match r {
            Ok(ps) => positions_at(*value, key@) == Ok::<Seq<Position>, Seq<char>>(ps@),
            Err(e) => positions_at(*value, key@) == Err::<Seq<Position>, Seq<char>>(e@),
        },
{
    let seq = match to_vec(value, key) {
        Ok(items) => items,
        Err(e) => return Err(e),
    };
    let ghost f = |x: YamlValue| position_item(x, key@);
    let mut positions: Vec<Position> = Vec::new();
    let mut i: usize = 0;
    while i < seq.len()
        invariant
            items_at(*value, key@) == Ok::<Seq<YamlValue>, Seq<char>>(seq@),
            f == (|x: YamlValue| position_item(x, key@)),
            i <= seq@.len(),
            positions@.len() == i,
            forall|j: int| 0 <= j < i ==> #[trigger] f(seq@[j]) == Ok::<Position, Seq<char>>(positions@[j]),
        decreases seq@.len() - i,
    {
        let p = match &seq[i] {
            YamlValue::Sequence(pos_seq) => match parse_position(pos_seq) {
                Ok(p) => p,
                Err(e) => {
                    proof {
                        assert(first_failing(seq@, f, i as int));
                        lemma_all_of_fails(seq@, f, i as int);
                    }
                    return Err(e);
                },
            },
            _ => {
                let mut s = String::new();
                s.append("each element in '");
                s.append(key);
                s.append("' must be a sequence");
                proof {
                    assert(first_failing(seq@, f, i as int));
                    lemma_all_of_fails(seq@, f, i as int);
                }
                return Err(s);
            },
        };
        positions.push(p);
        i = i + 1;
    }
    proof {
        lemma_all_of_ok(seq@, f, positions@);
    }
    Ok(positions)
}

fn cells_fit(cells: &Vec<Position>, n: usize) -> (r: bool)
    ensures
        r == cells_inside(cells@, n as int),
{
    let mut k: usize = 0;
    while k < cells.len()
        invariant
            k <= cells@.len(),
            forall|j: int| 0 <= j < k ==> (#[trigger] cells@[j]).row < n && cells@[j].col < n,
        decreases cells@.len() - k,
    {
        if cells[k].row >= n || cells[k].col >= n {
            return false;
        }
        k = k + 1;
    }
    true
}

fn to_killer_constraint(value: &YamlValue, region_rows: u8, region_cols: u8) -> (r: Result<KillerConstraint, String>)
    requires
        region_rows * region_cols <= 255,
    ensures
        match r {
            Ok(k) => killer_error(*value, region_rows * region_cols) is None && killer_read(
                *value,
                region_rows as nat,
                region_cols as nat,
                k,
            ),
            Err(e) => killer_error(*value, region_rows * region_cols) == Some(e@),
        },
{
    let n = (region_rows as usize) * (region_cols as usize);
    let cages_yaml = match to_vec(value, "cages") {
        Ok(items) => items,
        Err(e) => return Err(e),
    };
    let ghost f = |x: YamlValue| cage_result(x);
    let mut cages: Vec<Cage> = Vec::new();
    let mut i: usize = 0;
    while i < cages_yaml.len()
        invariant
            items_at(*value, "cages"@) == Ok::<Seq<YamlValue>, Seq<char>>(cages_yaml@),
            f == (|x: YamlValue| cage_result(x)),
            i <= cages_yaml@.len(),
            cages@.len() == i,
            forall|j: int|
                0 <= j < i ==> #[trigger] f(cages_yaml@[j]) == Ok::<(usize, Seq<Position>), Seq<char>>(
                    (cages@[j].sum, cages@[j].positions@),
                ),
        decreases cages_yaml@.len() - i,
    {
        let sum = match to_usize(&cages_yaml[i], "sum") {
            Ok(n) => n,
            Err(e) => {
                proof {
                    assert(first_failing(cages_yaml@, f, i as int));
                    lemma_all_of_fails(cages_yaml@, f, i as int);
                }
                return Err(e);
            },
        };
        let positions = match to_positions(&cages_yaml[i], "positions") {
            Ok(ps) => ps,
            Err(e) => {
                proof {
                    assert(first_failing(cages_yaml@, f, i as int));
                    lemma_all_of_fails(cages_yaml@, f, i as int);
                }
                return Err(e);
            },
        };
        cages.push(Cage { sum, positions });
        i = i + 1;
    }
    let ghost out = Seq::new(cages@.len(), |j: int| (cages@[j].sum, cages@[j].positions@));
    proof {
        lemma_all_of_ok(cages_yaml@, f, out);
    }
    let mut c: usize = 0;
    while c < cages.len()
        invariant
            c <= cages@.len(),
            out == Seq::new(cages@.len(), |j: int| (cages@[j].sum, cages@[j].positions@)),
            all_of(cages_yaml@, |x: YamlValue| cage_result(x)) == Ok::<Seq<(usize, Seq<Position>)>, Seq<char>>(out),
            items_at(*value, "cages"@) == Ok::<Seq<YamlValue>, Seq<char>>(cages_yaml@),
            n == region_rows * region_cols,
            forall|j: int| 0 <= j < c ==> cells_inside(#[trigger] out[j].1, n as int),
        decreases cages@.len() - c,
    {
        if !cells_fit(&cages[c].positions, n) {
            proof {
                assert(!cells_inside(out[c as int].1, n as int));
                assert(all_of(cages_yaml@, |x: YamlValue| cage_result(x)) == Ok::<Seq<(usize, Seq<Position>)>, Seq<char>>(out));
                assert(n as int == region_rows * region_cols);
            }
            let e = "position outside the grid".to_string();
            assert(e@ == outside_message());
            assert(!cells_inside(out[c as int].1, region_rows * region_cols));
            assert(!(forall|j: int| 0 <= j < out.len() ==> cells_inside(#[trigger] out[j].1, region_rows * region_cols)));
            assert(match all_of(cages_yaml@, |x: YamlValue| cage_result(x)) {
                Err(e) => Some(e),
                Ok(cages) => if forall|c: int| 0 <= c < cages.len() ==> cells_inside(#[trigger] cages[c].1, region_rows * region_cols) {
                    None
                } else {
                    Some(outside_message())
                },
            } == Some(outside_message()));
            assert(killer_error(*value, region_rows * region_cols) == Some(outside_message()));
            return Err(e);
        }
        c = c + 1;
    }
    proof {
        assert(cages_in_bounds(cages@, n as nat)) by {
            assert forall|c: int, k: int| 0 <= c < cages@.len() && 0 <= k < cages@[c].positions@.len() implies (
            #[trigger] cages@[c].positions@[k]).row < n && cages@[c].positions@[k].col < n by {
                assert(cells_inside(out[c].1, n as int));
            }
        }
    }
    let k = KillerConstraint::new(cages, region_rows as usize, region_cols as usize);
    Ok(k)
}

fn to_direction(text: &String) -> (r: Option<Direction>)
    ensures
        r == direction_of_text(text@),
{
    proof {
        reveal_strlit("down_right");
        reveal_strlit("down_left");
        reveal_strlit("up_right");
        reveal_strlit("up_left");
    }
    if str_equal(text.as_str(), "down_right") {
        Some(Direction::DownRight)
    } else if str_equal(text.as_str(), "down_left") {
        Some(Direction::DownLeft)
    } else if str_equal(text.as_str(), "up_right") {
        Some(Direction::UpRight)
    } else if str_equal(text.as_str(), "up_left") {
        Some(Direction::UpLeft)
    } else {
        None
    }
}

fn to_diagonal(value: &YamlValue) -> (r: Result<(u16, Direction, Position), String>)
    ensures
        match r {
            Ok(d) => diagonal_result(*value) == Ok::<(u16, Direction, Position), Seq<char>>(d),
            Err(e) => diagonal_result(*value) == Err::<(u16, Direction, Position), Seq<char>>(e@),
        },
{
    let sum = match to_usize(value, "sum") {
        Ok(n) => n,
        Err(e) => return Err(e),
    };
    if sum > 65535 {
        return Err(missing_or_invalid("sum"));
    }
    let text = match to_string(value, "direction") {
        Ok(t) => t,
        Err(e) => return Err(e),
    };
    let direction = match to_direction(&text) {
        Some(d) => d,
        None => {
            let mut s = String::new();
            s.append("invalid direction: ");
            s.append(text.as_str());
            return Err(s);
        },
    };
    let first = match to_position(value, "first") {
        Ok(p) => p,
        Err(e) => return Err(e),
    };
    Ok((sum as u16, direction, first))
}

fn to_little_killer_constraint(value: &YamlValue, region_rows: u8, region_cols: u8) -> (r: Result<
    LittleKillerConstraint,
    String,
>)
    requires
        region_rows * region_cols <= 255,
    ensures
        match r {
            Ok(l) => little_killer_error(*value, region_rows * region_cols) is None && little_killer_read(
                *value,
                region_rows as nat,
                region_cols as nat,
                l,
            ),
            Err(e) => little_killer_error(*value, region_rows * region_cols) == Some(e@),
        },
{
    let n = (region_rows as usize) * (region_cols as usize);
    let diagonals_yaml = match to_vec(value, "diagonals") {
        Ok(items) => items,
        Err(e) => return Err(e),
    };
    let ghost f = |x: YamlValue| diagonal_result(x);
    let mut parsed: Vec<(u16, Direction, Position)> = Vec::new();
    let mut i: usize = 0;
    while i < diagonals_yaml.len()
        invariant
            items_at(*value, "diagonals"@) == Ok::<Seq<YamlValue>, Seq<char>>(diagonals_yaml@),
            f == (|x: YamlValue| diagonal_result(x)),
            i <= diagonals_yaml@.len(),
            parsed@.len() == i,
            forall|j: int| 0 <= j < i ==> #[trigger] f(diagonals_yaml@[j]) == Ok::<(u16, Direction, Position), Seq<char>>(parsed@[j]),
        decreases diagonals_yaml@.len() - i,
    {
        match to_diagonal(&diagonals_yaml[i]) {
            Ok(d) => parsed.push(d),
            Err(e) => {
                proof {
                    assert(first_failing(diagonals_yaml@, f, i as int));
                    lemma_all_of_fails(diagonals_yaml@, f, i as int);
                }
                return Err(e);
            },
        }
        i = i + 1;
    }
    let ghost ds = parsed@;
    proof {
        lemma_all_of_ok(diagonals_yaml@, f, ds);
    }
    let mut c: usize = 0;
    while c < parsed.len()
        invariant
            ds == parsed@,
            c <= ds.len(),
            all_of(diagonals_yaml@, |x: YamlValue| diagonal_result(x)) == Ok::<Seq<(u16, Direction, Position)>, Seq<char>>(ds),
            items_at(*value, "diagonals"@) == Ok::<Seq<YamlValue>, Seq<char>>(diagonals_yaml@),
            n == region_rows * region_cols,
            forall|j: int| 0 <= j < c ==> (#[trigger] ds[j]).2.row < n && ds[j].2.col < n,
        decreases ds.len() - c,
    {
        if parsed[c].2.row >= n || parsed[c].2.col >= n {
            proof {
                assert(!(forall|j: int| 0 <= j < ds.len() ==> (#[trigger] ds[j]).2.row < n && ds[j].2.col < n)) by {
                    assert(!(ds[c as int].2.row < n && ds[c as int].2.col < n));
                }
                assert(match all_of(diagonals_yaml@, |x: YamlValue| diagonal_result(x)) {
                    Err(e) => Some(e),
                    Ok(ds) => if !(forall|c: int| 0 <= c < ds.len() ==> (#[trigger] ds[c]).2.row < region_rows * region_cols && ds[c].2.col < region_rows * region_cols) {
                        Some(outside_message())
                    } else if !(forall|c: int| 0 <= c < ds.len() ==> starts_on_edge((#[trigger] ds[c]).1, ds[c].2, region_rows * region_cols)) {
                        Some(edge_message())
                    } else {
                        None
                    },
                } == Some(outside_message()));
            }
            return Err("position outside the grid".to_string());
        }
        c = c + 1;
    }
    let mut diagonals: Vec<Diagonal> = Vec::new();
    let mut c: usize = 0;
    while c < parsed.len()
        invariant
            ds == parsed@,
            c <= ds.len(),
            all_of(diagonals_yaml@, |x: YamlValue| diagonal_result(x)) == Ok::<Seq<(u16, Direction, Position)>, Seq<char>>(ds),
            items_at(*value, "diagonals"@) == Ok::<Seq<YamlValue>, Seq<char>>(diagonals_yaml@),
            n == region_rows * region_cols,
            n <= 255,
            forall|j: int| 0 <= j < ds.len() ==> (#[trigger] ds[j]).2.row < n && ds[j].2.col < n,
            forall|j: int| 0 <= j < c ==> starts_on_edge((#[trigger] ds[j]).1, ds[j].2, n as int),
            diagonals@.len() == c,
            forall|j: int|
                0 <= j < c ==> (#[trigger] diagonals@[j]).sum == ds[j].0 && diagonals@[j].positions@ == diagonal_cells(
                    ds[j].1,
                    ds[j].2,
                    n as int,
                ),
            diagonals_in_bounds(diagonals@, n as nat),
        decreases ds.len() - c,
    {
        let (sum, direction, first) = parsed[c];
        let on_edge = match direction {
            Direction::DownRight => first.row == 0 || first.col == 0,
            Direction::DownLeft => first.row == 0 || first.col == n - 1,
            Direction::UpRight => first.row == n - 1 || first.col == 0,
            Direction::UpLeft => first.row == n - 1 || first.col == n - 1,
        };
        if !on_edge {
            proof {
                assert(!(forall|j: int| 0 <= j < ds.len() ==> starts_on_edge((#[trigger] ds[j]).1, ds[j].2, n as int))) by {
                    assert(!starts_on_edge(ds[c as int].1, ds[c as int].2, n as int));
                }
                assert(match all_of(diagonals_yaml@, |x: YamlValue| diagonal_result(x)) {
                    Err(e) => Some(e),
                    Ok(ds) => if !(forall|c: int| 0 <= c < ds.len() ==> (#[trigger] ds[c]).2.row < region_rows * region_cols && ds[c].2.col < region_rows * region_cols) {
                        Some(outside_message())
                    } else if !(forall|c: int| 0 <= c < ds.len() ==> starts_on_edge((#[trigger] ds[c]).1, ds[c].2, region_rows * region_cols)) {
                        Some(edge_message())
                    } else {
                        None
                    },
                } == Some(edge_message()));
            }
            return Err("diagonal does not start on the edge".to_string());
        }
        let diagonal = Diagonal::new(sum, direction, first, n as u8);
        proof {
            assert forall|k: int| 0 <= k < diagonal.positions@.len() implies (#[trigger] diagonal.positions@[k]).row < n
                && diagonal.positions@[k].col < n by {
                assert(0 <= step_from(first.row as int, dir_dr(direction), k) < n);
                assert(0 <= step_from(first.col as int, dir_dc(direction), k) < n);
            }
        }
        let ghost before = diagonals@;
        diagonals.push(diagonal);
        proof {
            assert(diagonals_in_bounds(diagonals@, n as nat)) by {
                assert forall|c2: int, k: int| 0 <= c2 < diagonals@.len() && 0 <= k < diagonals@[c2].positions@.len() implies (
                #[trigger] diagonals@[c2].positions@[k]).row < n && diagonals@[c2].positions@[k].col < n by {
                    if c2 < c {
                        assert(diagonals@[c2] == before[c2]);
                    }
                }
            }
        }
        c = c + 1;
    }
    let l = LittleKillerConstraint::new(diagonals, region_rows, region_cols);
    Ok(l)
}

fn to_thermometer_constraint(value: &YamlValue, region_rows: u8, region_cols: u8) -> (r: Result<
    ThermometerConstraint,
    String,
>)
    requires
        region_rows * region_cols <= 255,
    ensures
        match r {
            Ok(t) => thermometer_error(*value, region_rows * region_cols) is None && thermometer_read(
                *value,
                region_rows as nat,
                region_cols as nat,
                t,
            ),
            Err(e) => thermometer_error(*value, region_rows * region_cols) == Some(e@),
        },
{
    let n = (region_rows as usize) * (region_cols as usize);
    let thermometers_yaml = match to_vec(value, "thermometers") {
        Ok(items) => items,
        Err(e) => return Err(e),
    };
    let ghost f = |x: YamlValue| thermometer_result(x);
    let mut thermometers: Vec<Thermometer> = Vec::new();
    let mut i: usize = 0;
    while i < thermometers_yaml.len()
        invariant
            items_at(*value, "thermometers"@) == Ok::<Seq<YamlValue>, Seq<char>>(thermometers_yaml@),
            f == (|x: YamlValue| thermometer_result(x)),
            i <= thermometers_yaml@.len(),
            thermometers@.len() == i,
            forall|j: int|
                0 <= j < i ==> #[trigger] f(thermometers_yaml@[j]) == Ok::<Seq<Position>, Seq<char>>(thermometers@[j].positions@),
        decreases thermometers_yaml@.len() - i,
    {
        let positions = match to_positions(&thermometers_yaml[i], "positions") {
            Ok(ps) => ps,
            Err(e) => {
                proof {
                    assert(first_failing(thermometers_yaml@, f, i as int));
                    lemma_all_of_fails(thermometers_yaml@, f, i as int);
                }
                return Err(e);
            },
        };
        thermometers.push(Thermometer { positions });
        i = i + 1;
    }
    let ghost out = Seq::new(thermometers@.len(), |j: int| thermometers@[j].positions@);
    proof {
        lemma_all_of_ok(thermometers_yaml@, f, out);
    }
    let mut c: usize = 0;
    while c < thermometers.len()
        invariant
            c <= thermometers@.len(),
            out == Seq::new(thermometers@.len(), |j: int| thermometers@[j].positions@),
            all_of(thermometers_yaml@, |x: YamlValue| thermometer_result(x)) == Ok::<Seq<Seq<Position>>, Seq<char>>(out),
            items_at(*value, "thermometers"@) == Ok::<Seq<YamlValue>, Seq<char>>(thermometers_yaml@),
            n == region_rows * region_cols,
            forall|j: int| 0 <= j < c ==> cells_inside(#[trigger] out[j], n as int),
        decreases thermometers@.len() - c,
    {
        if !cells_fit(&thermometers[c].positions, n) {
            proof {
                assert(!cells_inside(out[c as int], region_rows * region_cols));
                assert(!(forall|j: int| 0 <= j < out.len() ==> cells_inside(#[trigger] out[j], region_rows * region_cols)));
                assert(match all_of(thermometers_yaml@, |x: YamlValue| thermometer_result(x)) {
                    Err(e) => Some(e),
                    Ok(ts) => if forall|c: int| 0 <= c < ts.len() ==> cells_inside(#[trigger] ts[c], region_rows * region_cols) {
                        None
                    } else {
                        Some(outside_message())
                    },
                } == Some(outside_message()));
            }
            return Err("position outside the grid".to_string());
        }
        c = c + 1;
    }
    proof {
        assert(thermometers_in_bounds(thermometers@, n as nat)) by {
            assert forall|c: int, k: int| 0 <= c < thermometers@.len() && 0 <= k < thermometers@[c].positions@.len() implies (
            #[trigger] thermometers@[c].positions@[k]).row < n && thermometers@[c].positions@[k].col < n by {
                assert(cells_inside(out[c], n as int));
            }
        }
    }
    let t = ThermometerConstraint::new(thermometers, region_rows, region_cols);
    Ok(t)
}

/// The constraint that `value` describes, for grids of `region_rows` x `region_cols`
/// regions: its `type` names the rule, and `cages`, `diagonals` or `thermometers` give
/// its clues, positions counted from one. The message says what is missing or wrong.
pub fn to_constraint(value: &YamlValue, region_rows: u8, region_cols: u8) -> (r: Result<AnyConstraint, String>)
    requires
        region_rows * region_cols <= 255,
    ensures
        match r {
            Ok(c) => constraint_error(*value, region_rows * region_cols) is None && constraint_read(
                *value,
                region_rows as nat,
                region_cols as nat,
                c,
            ),
            Err(e) => constraint_error(*value, region_rows * region_cols) == Some(e@),
        },
{
    let constraint_type = match to_string(value, "type") {
        Ok(t) => t,
        Err(e) => return Err(e),
    };
    proof {
        reveal_strlit("classic");
        reveal_strlit("anti_knight");
        reveal_strlit("killer");
        reveal_strlit("little_killer");
        reveal_strlit("thermometer");
    }
    if str_equal(constraint_type.as_str(), "classic") {
        Ok(AnyConstraint::Classic(ClassicConstraint))
    } else if str_equal(constraint_type.as_str(), "anti_knight") {
        Ok(AnyConstraint::AntiKnight(AntiKnightConstraint))
    } else if str_equal(constraint_type.as_str(), "killer") {
        match to_killer_constraint(value, region_rows, region_cols) {
            Ok(k) => Ok(AnyConstraint::Killer(k)),
            Err(e) => Err(e),
        }
    } else if str_equal(constraint_type.as_str(), "little_killer") {
        match to_little_killer_constraint(value, region_rows, region_cols) {
            Ok(l) => Ok(AnyConstraint::LittleKiller(l)),
            Err(e) => Err(e),
        }
    } else if str_equal(constraint_type.as_str(), "thermometer") {
        match to_thermometer_constraint(value, region_rows, region_cols) {
            Ok(t) => Ok(AnyConstraint::Thermometer(t)),
            Err(e) => Err(e),
        }
    } else {
        let mut s = String::new();
        s.append("unknown constraint type: ");
        s.append(constraint_type.as_str());
        Err(s)
    }
}

impl ConstraintSet {
    /// The set of the constraints that the descriptions `raw` give, in order, for grids
    /// of `region_rows` x `region_cols` regions; the message of the first description
    /// that cannot be built, if one cannot.
    pub fn from_yaml_values(raw: Vec<YamlValue>, region_rows: u8, region_cols: u8) -> (r: Result<ConstraintSet, String>)
        requires
            region_rows * region_cols <= 255,
        ensures
            match r {
                Ok(set) => {
                    &&& set.items().len() == raw@.len()
                    &&& forall|i: int|
                        0 <= i < raw@.len() ==> constraint_error(#[trigger] raw@[i], region_rows * region_cols) is None
                            && constraint_read(raw@[i], region_rows as nat, region_cols as nat, set.items()[i])
                },
                Err(e) => exists|i: int|
                    0 <= i < raw@.len() && constraint_error(#[trigger] raw@[i], region_rows * region_cols) == Some(e@)
                        && forall|j: int| 0 <= j < i ==> constraint_error(#[trigger] raw@[j], region_rows * region_cols) is None,
            },
    {
        let mut set = ConstraintSet::new(Vec::new());
        let mut i: usize = 0;
        while i < raw.len()
            invariant
                region_rows * region_cols <= 255,
                i <= raw@.len(),
                set.items().len() == i,
                forall|j: int|
                    0 <= j < i ==> constraint_error(#[trigger] raw@[j], region_rows * region_cols) is None && constraint_read(
                        raw@[j],
                        region_rows as nat,
                        region_cols as nat,
                        set.items()[j],
                    ),
            decreases raw@.len() - i,
        {
            let constraint = match to_constraint(&raw[i], region_rows, region_cols) {
                Ok(c) => c,
                Err(e) => {
                    assert(constraint_error(raw@[i as int], region_rows * region_cols) == Some(e@));
                    return Err(e);
                },
            };
            set.add_constraint(constraint);
            i = i + 1;
        }
        Ok(set)
    }
}

} // verus!
