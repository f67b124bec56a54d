use vstd::prelude::*;
use crate::grid::position::Position;
use crate::io::yaml::{key_text, str_equal, yaml_entries, yaml_get, yaml_items, yaml_text, yaml_u64, YamlValue};
use crate::model::clue::{Clue, ClueType, Direction, KillerCage, LittleKillerArrow, Thermometer};
use crate::grid::grid::Grid;
use crate::model::puzzle::{Puzzle, PuzzleGrid, Rule};

use crate::io::document::{parse_document, yaml_document};

verus! {

/// Why a puzzle could not be read.
pub enum PuzzleError {
    MissingKey(&'static str),
    InvalidNumber,
    OutOfRangeU8,
    OutOfRangeU16,
    InvalidString,
    InvalidSequence,
    InvalidMap,
    NonStringKey,
    PositionLength,
    ZeroIndex,
    InvalidPosition(Position),
    InvalidValue(u8, Position),
    DuplicateValue(Position),
    UnknownRule(String),
    UnknownClueType(String),
    UnknownDirection(String),
}

/// `e` and `f` are the same error, names compared by their text.
pub open spec fn same_error(e: PuzzleError, f: PuzzleError) -> bool {
    match (e, f) {
        (PuzzleError::UnknownRule(a), PuzzleError::UnknownRule(b)) => a@ == b@,
        (PuzzleError::UnknownClueType(a), PuzzleError::UnknownClueType(b)) => a@ == b@,
        (PuzzleError::UnknownDirection(a), PuzzleError::UnknownDirection(b)) => a@ == b@,
        _ => e == f,
    }
}

/// A string whose text is `t`.
pub open spec fn string_of(t: Seq<char>) -> String {
    choose|s: String| s@ == t
}

/// What reading `v` as a whole number gives.
pub open spec fn u64_result(v: YamlValue) -> Result<u64, PuzzleError> {
    match yaml_u64(v) {
        Some(n) => Ok(n),
        None => Err(PuzzleError::InvalidNumber),
    }
}

/// What reading `v` as a `u8` gives.
pub open spec fn u8_result(v: YamlValue) -> Result<u8, PuzzleError> {
    match u64_result(v) {
        Ok(n) => if n <= 255 {
            Ok(n as u8)
        } else {
            Err(PuzzleError::OutOfRangeU8)
        },
        Err(e) => Err(e),
    }
}

/// What reading `v` as a `u16` gives.
pub open spec fn u16_result(v: YamlValue) -> Result<u16, PuzzleError> {
    match u64_result(v) {
        Ok(n) => if n <= 65535 {
            Ok(n as u16)
        } else {
            Err(PuzzleError::OutOfRangeU16)
        },
        Err(e) => Err(e),
    }
}

/// What reading a one-based index from `v` gives: the zero-based index.
pub open spec fn index_result(v: YamlValue) -> Result<usize, PuzzleError> {
    match u8_result(v) {
        Ok(n) => if n == 0 {
            Err(PuzzleError::ZeroIndex)
        } else {
            Ok((n - 1) as usize)
        },
        Err(e) => Err(e),
    }
}

/// What reading `v` as a position `[row, col]`, counted from one, gives.
pub open spec fn position_result(v: YamlValue) -> Result<Position, PuzzleError> {
    match yaml_items(v) {
        None => Err(PuzzleError::InvalidSequence),
        Some(items) => if items.len() != 2 {
            Err(PuzzleError::PositionLength)
        } else {
            match index_result(items[0]) {
                Err(e) => Err(e),
                Ok(row) => match index_result(items[1]) {
                    Err(e) => Err(e),
                    Ok(col) => Ok(Position { row, col }),
                },
            }
        },
    }
}

/// Item `i` of `items` is the first that is not a position.
pub open spec fn first_bad_position(items: Seq<YamlValue>, i: int) -> bool {
    &&& 0 <= i < items.len()
    &&& position_result(items[i]) is Err
    &&& forall|j: int| 0 <= j < i ==> #[trigger] position_result(items[j]) is Ok
}

/// What reading `v` as a list of positions gives.
pub open spec fn positions_result(v: YamlValue) -> Result<Seq<Position>, PuzzleError> {
    match yaml_items(v) {
        None => Err(PuzzleError::InvalidSequence),
        Some(items) => if exists|i: int| first_bad_position(items, i) {
            Err(position_result(items[choose|i: int| first_bad_position(items, i)])->Err_0)
        } else {
            Ok(Seq::new(items.len(), |i: int| position_result(items[i])->Ok_0))
        },
    }
}

/// What reading the value under `key` of `v` as a `u8` gives.
pub open spec fn key_u8_result(v: YamlValue, key: &'static str) -> Result<u8, PuzzleError> {
    match yaml_get(v, key@) {
        None => Err(PuzzleError::MissingKey(key)),
        Some(x) => u8_result(x),
    }
}

/// What reading the value under `key` of `v` as a `u16` gives.
pub open spec fn key_u16_result(v: YamlValue, key: &'static str) -> Result<u16, PuzzleError> {
    match yaml_get(v, key@) {
        None => Err(PuzzleError::MissingKey(key)),
        Some(x) => u16_result(x),
    }
}

/// What reading the value under `key` of `v` as a position gives.
pub open spec fn key_position_result(v: YamlValue, key: &'static str) -> Result<Position, PuzzleError> {
    match yaml_get(v, key@) {
        None => Err(PuzzleError::MissingKey(key)),
        Some(x) => position_result(x),
    }
}

/// What reading the value under `key` of `v` as a list of positions gives.
pub open spec fn key_positions_result(v: YamlValue, key: &'static str) -> Result<Seq<Position>, PuzzleError> {
    match yaml_get(v, key@) {
        None => Err(PuzzleError::MissingKey(key)),
        Some(x) => positions_result(x),
    }
}

/// The value under `key` of `value`.
pub fn get_required<'a>(value: &'a YamlValue, key: &'static str) -> (r: Result<&'a YamlValue, PuzzleError>)
    ensures
        match r {
            Ok(x) => yaml_get(*value, key@) == Some(*x),
            Err(e) => yaml_get(*value, key@) is None && e == PuzzleError::MissingKey(key),
        },
{
    match value.get(key) {
        Some(x) => Ok(x),
        None => Err(PuzzleError::MissingKey(key)),
    }
}

/// `value` as a whole number.
pub fn to_u64(value: &YamlValue) -> (r: Result<u64, PuzzleError>)
    ensures
        r == u64_result(*value),
{
    match value.as_u64() {
        Some(n) => Ok(n),
        None => Err(PuzzleError::InvalidNumber),
    }
}

/// `value` as a `u8`.
pub fn to_u8(value: &YamlValue) -> (r: Result<u8, PuzzleError>)
    ensures
        r == u8_result(*value),
{
    let n = to_u64(value)?;
    if n <= 255 {
        Ok(n as u8)
    } else {
        Err(PuzzleError::OutOfRangeU8)
    }
}

/// `value` as a `u16`.
pub fn to_u16(value: &YamlValue) -> (r: Result<u16, PuzzleError>)
    ensures
        r == u16_result(*value),
{
    let n = to_u64(value)?;
    if n <= 65535 {
        Ok(n as u16)
    } else {
        Err(PuzzleError::OutOfRangeU16)
    }
}

/// `value` as a string.
pub fn to_string(value: &YamlValue) -> (r: Result<String, PuzzleError>)
    ensures
        match r {
            Ok(s) => yaml_text(*value) == Some(s@),
            Err(e) => yaml_text(*value) is None && e == PuzzleError::InvalidString,
        },
{
    match value {
        YamlValue::Text(s) => Ok(s.clone()),
        _ => Err(PuzzleError::InvalidString),
    }
}

/// The items of `value`, a sequence.
pub fn to_vec(value: &YamlValue) -> (r: Result<&Vec<YamlValue>, PuzzleError>)
    ensures
        match r {
            Ok(items) => yaml_items(*value) == Some(items@),
            Err(e) => yaml_items(*value) is None && e == PuzzleError::InvalidSequence,
        },
{
    match value {
        YamlValue::Sequence(items) => Ok(items),
        _ => Err(PuzzleError::InvalidSequence),
    }
}

fn to_index(value: &YamlValue) -> (r: Result<usize, PuzzleError>)
    ensures
        r == index_result(*value),
{
    let n = to_u8(value)?;
    if n == 0 {
        Err(PuzzleError::ZeroIndex)
    } else {
        Ok((n - 1) as usize)
    }
}

/// `value`, a position `[row, col]` counted from one, as a zero-based position.
pub fn to_position(value: &YamlValue) -> (r: Result<Position, PuzzleError>)
    ensures
        r == position_result(*value),
{
    let seq = to_vec(value)?;
    if seq.len() != 2 {
        return Err(PuzzleError::PositionLength);
    }
    let row = to_index(&seq[0])?;
    let col = to_index(&seq[1])?;
    Ok(Position { row, col })
}

/// `value`, a list of positions.
pub fn to_vec_position(value: &YamlValue) -> (r: Result<Vec<Position>, PuzzleError>)
    ensures
        match r {
            Ok(ps) => positions_result(*value) == Ok::<Seq<Position>, PuzzleError>(ps@),
            Err(e) => positions_result(*value) == Err::<Seq<Position>, PuzzleError>(e),
        },
{
    let items = to_vec(value)?;
    let mut positions: Vec<Position> = Vec::new();
    let mut i: usize = 0;
    while i < items.len()
        invariant
            yaml_items(*value) == Some(items@),
            i <= items@.len(),
            positions@.len() == i,
            forall|j: int| 0 <= j < i ==> #[trigger] position_result(items@[j]) == Ok::<Position, PuzzleError>(positions@[j]),
        decreases items@.len() - i,
    {
        match to_position(&items[i]) {
            Ok(p) => positions.push(p),
            Err(e) => {
                proof {
                    assert(first_bad_position(items@, i as int));
                    let k = choose|k: int| first_bad_position(items@, k);
                    if k < i {
                        assert(position_result(items@[k]) is Ok);
                    } else if i < k {
                        assert(position_result(items@[i as int]) is Ok);
                    }
                }
                return Err(e);
            },
        }
        i = i + 1;
    }
    proof {
        assert(!exists|k: int| first_bad_position(items@, k));
        assert(positions@ =~= Seq::new(items@.len(), |k: int| position_result(items@[k])->Ok_0));
    }
    Ok(positions)
}

/// What reading `v` as a killer cage gives: its sum and its cells.
pub open spec fn killer_cage_result(v: YamlValue) -> Result<(u16, Seq<Position>), PuzzleError> {
    match key_u16_result(v, "target_sum") {
        Err(e) => Err(e),
        Ok(t) => match key_positions_result(v, "cage_cells") {
            Err(e) => Err(e),
            Ok(ps) => Ok((t, ps)),
        },
    }
}

/// The direction that the text `t` names.
pub open spec fn direction_of_text(t: Seq<char>) -> Option<Direction> {
    if t == "down_right"@ {
        Some(Direction::DownRight)
    } else if t == "down_left"@ {
        Some(Direction::DownLeft)
    } else if t == "up_right"@ {
        Some(Direction::UpRight)
    } else if t == "up_left"@ {
        Some(Direction::UpLeft)
    } else {
        None
    }
}

/// What reading `v` as a little killer arrow gives: its sum, first cell and direction.
pub open spec fn arrow_result(v: YamlValue) -> Result<(u16, Position, Direction), PuzzleError> {
    match key_u16_result(v, "target_sum") {
        Err(e) => Err(e),
        Ok(t) => match key_position_result(v, "first_cell") {
            Err(e) => Err(e),
            Ok(p) => match yaml_get(v, "direction"@) {
                None => Err(PuzzleError::MissingKey("direction")),
                Some(x) => match yaml_text(x) {
                    None => Err(PuzzleError::InvalidString),
                    Some(name) => match direction_of_text(name) {
                        Some(d) => Ok((t, p, d)),
                        None => Err(PuzzleError::UnknownDirection(string_of(name))),
                    },
                },
            },
        },
    }
}

/// What reading `v` as a thermometer gives: its cells.
pub open spec fn thermometer_result(v: YamlValue) -> Result<Seq<Position>, PuzzleError> {
    key_positions_result(v, "thermometer_cells")
}

/// `value`, a killer cage.
pub fn to_killer_cage(value: &YamlValue) -> (r: Result<KillerCage, PuzzleError>)
    ensures
        match r {
            Ok(k) => killer_cage_result(*value) == Ok::<(u16, Seq<Position>), PuzzleError>((k.target_sum, k.cage_cells@)),
            Err(e) => killer_cage_result(*value) == Err::<(u16, Seq<Position>), PuzzleError>(e),
        },
{
    let target_sum = to_u16(get_required(value, "target_sum")?)?;
    let cage_cells = to_vec_position(get_required(value, "cage_cells")?)?;
    Ok(KillerCage { target_sum, cage_cells })
}

/// An arrow is read with the direction that its text names, and only a text that names
/// one of the four directions gives an arrow: `up_right` goes up and to the right,
/// `up_left` up and to the left, `down_right` down and to the right, `down_left` down
/// and to the left.
pub proof fn law_arrow_direction_is_named(v: YamlValue)
    ensures
        arrow_result(v) is Ok ==> ({
            let d = arrow_result(v)->Ok_0.2;
            let name = yaml_text(yaml_get(v, "direction"@)->0)->0;
            &&& (d == Direction::UpRight <==> name == "up_right"@)
            &&& (d == Direction::UpLeft <==> name == "up_left"@)
            &&& (d == Direction::DownRight <==> name == "down_right"@)
            &&& (d == Direction::DownLeft <==> name == "down_left"@)
        }),
{
    reveal_strlit("up_right");
    reveal_strlit("up_left");
    reveal_strlit("down_right");
    reveal_strlit("down_left");
    assert("up_right"@.len() == 8 && "up_left"@.len() == 7 && "down_right"@.len() == 10 && "down_left"@.len() == 9);
}

/// `value`, a little killer arrow.
pub fn to_little_killer_arrow(value: &YamlValue) -> (r: Result<LittleKillerArrow, PuzzleError>)
    ensures
        match r {
            Ok(a) => arrow_result(*value) == Ok::<(u16, Position, Direction), PuzzleError>(
                (a.target_sum, a.first_cell, a.direction),
            ),
            Err(e) => arrow_result(*value) is Err && same_error(e, arrow_result(*value)->Err_0),
        },
{
    let target_sum = to_u16(get_required(value, "target_sum")?)?;
    let first_cell = to_position(get_required(value, "first_cell")?)?;
    let name = to_string(get_required(value, "direction")?)?;
    let direction = if str_equal(name.as_str(), "down_right") {
        Direction::DownRight
    } else if str_equal(name.as_str(), "down_left") {
        Direction::DownLeft
    } else if str_equal(name.as_str(), "up_right") {
        Direction::UpRight
    } else if str_equal(name.as_str(), "up_left") {
        Direction::UpLeft
    } else {
        return Err(PuzzleError::UnknownDirection(name));
    };
    Ok(LittleKillerArrow { target_sum, first_cell, direction })
}

/// `value`, a thermometer.
pub fn to_thermometer(value: &YamlValue) -> (r: Result<Thermometer, PuzzleError>)
    ensures
        match r {
            Ok(t) => thermometer_result(*value) == Ok::<Seq<Position>, PuzzleError>(t.thermometer_cells@),
            Err(e) => thermometer_result(*value) == Err::<Seq<Position>, PuzzleError>(e),
        },
{
    let thermometer_cells = to_vec_position(get_required(value, "thermometer_cells")?)?;
    Ok(Thermometer { thermometer_cells })
}

/// The rule that the text `t` names.
pub open spec fn rule_of_text(t: Seq<char>) -> Option<Rule> {
    if t == "anti_knight"@ {
        Some(Rule::AntiKnight)
    } else if t == "killer"@ {
        Some(Rule::Killer)
    } else if t == "little_killer"@ {
        Some(Rule::LittleKiller)
    } else if t == "thermometer"@ {
        Some(Rule::Thermometer)
    } else {
        None
    }
}

/// A rule is read as the rule that its text names, and only the four names give a rule.
pub proof fn law_rule_is_named(v: YamlValue)
    ensures
        rule_item_result(v) is Ok ==> ({
            let rule = rule_item_result(v)->Ok_0;
            let name = yaml_text(v)->0;
            &&& (rule == Rule::AntiKnight <==> name == "anti_knight"@)
            &&& (rule == Rule::Killer <==> name == "killer"@)
            &&& (rule == Rule::LittleKiller <==> name == "little_killer"@)
            &&& (rule == Rule::Thermometer <==> name == "thermometer"@)
        }),
{
    reveal_strlit("anti_knight");
    reveal_strlit("killer");
    reveal_strlit("little_killer");
    reveal_strlit("thermometer");
    assert("anti_knight"@[0] == 'a' && "thermometer"@[0] == 't');
    assert("killer"@.len() == 6 && "little_killer"@.len() == 13 && "anti_knight"@.len() == 11 && "thermometer"@.len() == 11);
}

/// What reading `v` as the name of a rule gives.
pub open spec fn rule_item_result(v: YamlValue) -> Result<Rule, PuzzleError> {
    match yaml_text(v) {
        None => Err(PuzzleError::InvalidString),
        Some(t) => match rule_of_text(t) {
            Some(rule) => Ok(rule),
            None => Err(PuzzleError::UnknownRule(string_of(t))),
        },
    }
}

/// Item `i` of `items` is the first that does not name a rule.
pub open spec fn first_bad_rule(items: Seq<YamlValue>, i: int) -> bool {
    &&& 0 <= i < items.len()
    &&& rule_item_result(items[i]) is Err
    &&& forall|j: int| 0 <= j < i ==> #[trigger] rule_item_result(items[j]) is Ok
}

/// `v` is a list of rule names.
pub open spec fn rules_ok(v: YamlValue) -> bool {
    &&& yaml_items(v) is Some
    &&& forall|i: int| 0 <= i < yaml_items(v)->0.len() ==> #[trigger] rule_item_result(yaml_items(v)->0[i]) is Ok
}

/// `rules` holds, each once, the rules that the list `v` names.
pub open spec fn rules_read(v: YamlValue, rules: Seq<Rule>) -> bool {
    &&& rules.no_duplicates()
    &&& forall|x: Rule| rules.contains(x) <==> exists|i: int|
        0 <= i < yaml_items(v)->0.len() && #[trigger] rule_item_result(yaml_items(v)->0[i]) == Ok::<Rule, PuzzleError>(x)
}

/// `e` is the error of reading `v` as a list of rule names: `v` is no list, or `e` is
/// the error of its first item that names no rule.
pub open spec fn rules_error(v: YamlValue, e: PuzzleError) -> bool {
    ||| (yaml_items(v) is None && e == PuzzleError::InvalidSequence)
    ||| (yaml_items(v) is Some && exists|i: int|
        first_bad_rule(yaml_items(v)->0, i) && same_error(e, rule_item_result(yaml_items(v)->0[i])->Err_0))
}

/// `value`, a list of rule names, as the set of the rules, each once.
pub fn to_rules(value: &YamlValue) -> (r: Result<Vec<Rule>, PuzzleError>)
    ensures
        match r {
            Ok(rules) => rules_ok(*value) && rules_read(*value, rules@),
            Err(e) => !rules_ok(*value) && rules_error(*value, e),
        },
{
    let items = to_vec(value)?;
    let mut rules: Vec<Rule> = Vec::new();
    let mut i: usize = 0;
    while i < items.len()
        invariant
            yaml_items(*value) == Some(items@),
            i <= items@.len(),
            forall|j: int| 0 <= j < i ==> #[trigger] rule_item_result(items@[j]) is Ok,
            rules@.no_duplicates(),
            forall|x: Rule| rules@.contains(x) <==> exists|j: int|
                0 <= j < i && #[trigger] rule_item_result(items@[j]) == Ok::<Rule, PuzzleError>(x),
        decreases items@.len() - i,
    {
        let name = match to_string(&items[i]) {
            Ok(name) => name,
            Err(e) => {
                assert(first_bad_rule(items@, i as int));
                return Err(e);
            },
        };
        let rule = if str_equal(name.as_str(), "anti_knight") {
            Rule::AntiKnight
        } else if str_equal(name.as_str(), "killer") {
            Rule::Killer
        } else if str_equal(name.as_str(), "little_killer") {
            Rule::LittleKiller
        } else if str_equal(name.as_str(), "thermometer") {
            Rule::Thermometer
        } else {
            proof {
                assert(first_bad_rule(items@, i as int));
                assert(string_of(name@)@ == name@);
            }
            return Err(PuzzleError::UnknownRule(name));
        };
        assert(rule_item_result(items@[i as int]) == Ok::<Rule, PuzzleError>(rule));
        let mut seen = false;
        let mut k: usize = 0;
        while k < rules.len()
            invariant
                k <= rules@.len(),
                seen <==> exists|m: int| 0 <= m < k && rules@[m] == rule,
            decreases rules@.len() - k,
        {
            if rules[k] == rule {
                seen = true;
            }
            k = k + 1;
        }
        let ghost before = rules@;
        if !seen {
            rules.push(rule);
            proof {
                assert forall|a: int, b: int| 0 <= a < b < rules@.len() implies rules@[a] != rules@[b] by {
                    if b == rules@.len() - 1 {
                        assert(before[a] == rules@[a]);
                    } else {
                        assert(before[a] != before[b]);
                    }
                }
            }
        }
        proof {
            assert forall|x: Rule| rules@.contains(x) <==> exists|j: int|
                0 <= j < i + 1 && #[trigger] rule_item_result(items@[j]) == Ok::<Rule, PuzzleError>(x) by {
                if rules@.contains(x) {
                    let m = choose|m: int| 0 <= m < rules@.len() && rules@[m] == x;
                    if m < before.len() {
                        assert(before.contains(x));
                    }
                }
                if exists|j: int| 0 <= j < i + 1 && #[trigger] rule_item_result(items@[j]) == Ok::<Rule, PuzzleError>(x) {
                    let j = choose|j: int| 0 <= j < i + 1 && #[trigger] rule_item_result(items@[j]) == Ok::<Rule, PuzzleError>(x);
                    if j < i {
                        assert(before.contains(x));
                        let m = choose|m: int| 0 <= m < before.len() && before[m] == x;
                        assert(rules@[m] == x);
                    } else if seen {
                        let m = choose|m: int| 0 <= m < k && rules@[m] == rule;
                        assert(rules@.contains(x));
                    } else {
                        assert(rules@[rules@.len() - 1] == x);
                    }
                }
            }
        }
        i = i + 1;
    }
    Ok(rules)
}

/// `value`, a mapping whose keys are strings, as its entries in order.
pub fn to_map(value: &YamlValue) -> (r: Result<Vec<(String, &YamlValue)>, PuzzleError>)
    ensures
        match r {
            Ok(m) => {
                &&& yaml_entries(*value) is Some
                &&& m@.len() == yaml_entries(*value)->0.len()
                &&& forall|i: int|
                    0 <= i < m@.len() ==> key_text(#[trigger] yaml_entries(*value)->0[i].0) == Some(m@[i].0@)
                        && *m@[i].1 == yaml_entries(*value)->0[i].1
            },
            Err(e) => (yaml_entries(*value) is None && e == PuzzleError::InvalidMap) || (yaml_entries(*value) is Some
                && e == PuzzleError::NonStringKey && exists|i: int|
                0 <= i < yaml_entries(*value)->0.len() && key_text(#[trigger] yaml_entries(*value)->0[i].0) is None),
        },
{
    let entries = match value {
        YamlValue::Mapping(entries) => entries,
        _ => return Err(PuzzleError::InvalidMap),
    };
    let mut m: Vec<(String, &YamlValue)> = Vec::new();
    let mut i: usize = 0;
    while i < entries.len()
        invariant
            yaml_entries(*value) == Some(entries@),
            i <= entries@.len(),
            m@.len() == i,
            forall|j: int| 0 <= j < i ==> key_text(#[trigger] entries@[j].0) == Some(m@[j].0@) && *m@[j].1 == entries@[j].1,
        decreases entries@.len() - i,
    {
        let key = match &entries[i].0 {
            YamlValue::Text(s) => s.clone(),
            YamlValue::TaggedKey(inner) => match &**inner {
                YamlValue::Text(s) => s.clone(),
                _ => {
                    assert(key_text(entries@[i as int].0) is None);
                    return Err(PuzzleError::NonStringKey);
                },
            },
            _ => {
                assert(key_text(entries@[i as int].0) is None);
                return Err(PuzzleError::NonStringKey);
            },
        };
        m.push((key, &entries[i].1));
        i = i + 1;
    }
    Ok(m)
}

/// The kind of clue that the text `t` names.
pub open spec fn clue_type_of_text(t: Seq<char>) -> Option<ClueType> {
    if t == "killer_cage"@ {
        Some(ClueType::KillerCage)
    } else if t == "little_killer_arrow"@ {
        Some(ClueType::LittleKillerArrow)
    } else if t == "thermometer"@ {
        Some(ClueType::Thermometer)
    } else {
        None
    }
}

/// A group of clues is read as the kind that its key names, and only the three names
/// give a kind.
pub proof fn law_clue_kind_is_named(t: Seq<char>)
    ensures
        clue_type_of_text(t) is Some ==> ({
            let kind = clue_type_of_text(t)->0;
            &&& (kind == ClueType::KillerCage <==> t == "killer_cage"@)
            &&& (kind == ClueType::LittleKillerArrow <==> t == "little_killer_arrow"@)
            &&& (kind == ClueType::Thermometer <==> t == "thermometer"@)
        }),
{
    reveal_strlit("killer_cage");
    reveal_strlit("little_killer_arrow");
    reveal_strlit("thermometer");
    assert("killer_cage"@[0] == 'k' && "thermometer"@[0] == 't');
    assert("little_killer_arrow"@.len() == 19 && "killer_cage"@.len() == 11);
}

/// `c` is what reading `v` as a clue of kind `t` gives.
pub open spec fn clue_read(t: ClueType, v: YamlValue, c: Clue) -> bool {
    match (t, c) {
        (ClueType::KillerCage, Clue::KillerCage(k)) => killer_cage_result(v) == Ok::<(u16, Seq<Position>), PuzzleError>(
            (k.target_sum, k.cage_cells@),
        ),
        (ClueType::LittleKillerArrow, Clue::LittleKillerArrow(a)) => arrow_result(v) == Ok::<
            (u16, Position, Direction),
            PuzzleError,
        >((a.target_sum, a.first_cell, a.direction)),
        (ClueType::Thermometer, Clue::Thermometer(th)) => thermometer_result(v) == Ok::<Seq<Position>, PuzzleError>(
            th.thermometer_cells@,
        ),
        _ => false,
    }
}

/// The error that reading `v` as a clue of kind `t` gives, if any.
pub open spec fn clue_error(t: ClueType, v: YamlValue) -> Option<PuzzleError> {
    match t {
        ClueType::KillerCage => match killer_cage_result(v) {
            Err(e) => Some(e),
            Ok(_) => None,
        },
        ClueType::LittleKillerArrow => match arrow_result(v) {
            Err(e) => Some(e),
            Ok(_) => None,
        },
        ClueType::Thermometer => match thermometer_result(v) {
            Err(e) => Some(e),
            Ok(_) => None,
        },
    }
}

/// Item `i` of `items` is the first that is not a clue of kind `t`.
pub open spec fn first_bad_clue(t: ClueType, items: Seq<YamlValue>, i: int) -> bool {
    &&& 0 <= i < items.len()
    &&& clue_error(t, items[i]) is Some
    &&& forall|j: int| 0 <= j < i ==> #[trigger] clue_error(t, items[j]) is None
}

/// The error that reading the entry with key text `key` and value `v` as a group of
/// clues gives, if any: an unknown kind, a value that is not a list, or the first clue
/// that cannot be read.
pub open spec fn group_error(key: Seq<char>, v: YamlValue) -> Option<PuzzleError> {
    match clue_type_of_text(key) {
        None => Some(PuzzleError::UnknownClueType(string_of(key))),
        Some(t) => match yaml_items(v) {
            None => Some(PuzzleError::InvalidSequence),
            Some(items) => if exists|i: int| first_bad_clue(t, items, i) {
                clue_error(t, items[choose|i: int| first_bad_clue(t, items, i)])
            } else {
                None
            },
        },
    }
}

/// `group` is what reading the entry with key text `key` and value `v` gives.
pub open spec fn group_read(key: Seq<char>, v: YamlValue, group: (ClueType, Vec<Clue>)) -> bool {
    &&& clue_type_of_text(key) == Some(group.0)
    &&& yaml_items(v) is Some
    &&& group.1@.len() == yaml_items(v)->0.len()
    &&& forall|j: int| 0 <= j < group.1@.len() ==> #[trigger] clue_read(group.0, yaml_items(v)->0[j], group.1@[j])
}

proof fn lemma_first_bad_clue(t: ClueType, items: Seq<YamlValue>, i: int)
    requires
        first_bad_clue(t, items, i),
    ensures
        (choose|k: int| first_bad_clue(t, items, k)) == i,
{
    let k = choose|k: int| first_bad_clue(t, items, k);
    assert(first_bad_clue(t, items, k));
    if k < i {
        assert(clue_error(t, items[k]) is None);
    } else if i < k {
        assert(clue_error(t, items[i]) is None);
    }
}

/// The clues of one entry of the clue mapping.
fn to_clue_group(key: &String, value: &YamlValue) -> (r: Result<(ClueType, Vec<Clue>), PuzzleError>)
    ensures
        match r {
            Ok(group) => group_read(key@, *value, group) && group_error(key@, *value) is None,
            Err(e) => group_error(key@, *value) is Some && same_error(e, group_error(key@, *value)->0),
        },
{
    let clue_type = if str_equal(key.as_str(), "killer_cage") {
        ClueType::KillerCage
    } else if str_equal(key.as_str(), "little_killer_arrow") {
        ClueType::LittleKillerArrow
    } else if str_equal(key.as_str(), "thermometer") {
        ClueType::Thermometer
    } else {
        let name = key.clone();
        assert(string_of(key@)@ == key@);
        return Err(PuzzleError::UnknownClueType(name));
    };
    let items = to_vec(value)?;
    let mut clues: Vec<Clue> = Vec::new();
    let mut i: usize = 0;
    while i < items.len()
        invariant
            clue_type_of_text(key@) == Some(clue_type),
            yaml_items(*value) == Some(items@),
            i <= items@.len(),
            clues@.len() == i,
            forall|j: int| 0 <= j < i ==> #[trigger] clue_error(clue_type, items@[j]) is None,
            forall|j: int| 0 <= j < i ==> #[trigger] clue_read(clue_type, items@[j], clues@[j]),
        decreases items@.len() - i,
    {
        let item = &items[i];
        let clue = match clue_type {
            ClueType::KillerCage => match to_killer_cage(item) {
                Ok(k) => Clue::KillerCage(k),
                Err(e) => {
                    proof {
                        assert(first_bad_clue(clue_type, items@, i as int));
                        lemma_first_bad_clue(clue_type, items@, i as int);
                    }
                    return Err(e);
                },
            },
            ClueType::LittleKillerArrow => match to_little_killer_arrow(item) {
                Ok(a) => Clue::LittleKillerArrow(a),
                Err(e) => {
                    proof {
                        assert(first_bad_clue(clue_type, items@, i as int));
                        lemma_first_bad_clue(clue_type, items@, i as int);
                    }
                    return Err(e);
                },
            },
            ClueType::Thermometer => match to_thermometer(item) {
                Ok(th) => Clue::Thermometer(th),
                Err(e) => {
                    proof {
                        assert(first_bad_clue(clue_type, items@, i as int));
                        lemma_first_bad_clue(clue_type, items@, i as int);
                    }
                    return Err(e);
                },
            },
        };
        clues.push(clue);
        i = i + 1;
    }
    proof {
        assert(!exists|k: int| first_bad_clue(clue_type, items@, k));
    }
    Ok((clue_type, clues))
}

/// A later entry of `entries` has the same key text as entry `i`, and so replaces it.
pub open spec fn replaced_later(entries: Seq<(YamlValue, YamlValue)>, i: int) -> bool {
    exists|j: int| i < j < entries.len() && key_text(#[trigger] entries[j].0) == key_text(entries[i].0)
}

/// The indices, in order, of the entries among the first `k` of `entries` that no later
/// entry replaces.
pub open spec fn kept_groups(entries: Seq<(YamlValue, YamlValue)>, k: nat) -> Seq<int>
    decreases k,
{
    if k == 0 {
        Seq::empty()
    } else if replaced_later(entries, k - 1) {
        kept_groups(entries, (k - 1) as nat)
    } else {
        kept_groups(entries, (k - 1) as nat).push(k - 1)
    }
}

/// Entry `i` of `entries` is the first, among those that no later entry replaces, whose
/// group cannot be read.
pub open spec fn first_bad_group(entries: Seq<(YamlValue, YamlValue)>, i: int) -> bool {
    &&& 0 <= i < entries.len()
    &&& !replaced_later(entries, i)
    &&& group_error(key_text(entries[i].0)->0, entries[i].1) is Some
    &&& forall|j: int|
        0 <= j < i && !replaced_later(entries, j) ==> #[trigger] group_error(key_text(entries[j].0)->0, entries[j].1) is None
}

/// `v` is a mapping from kinds of clues, by name, to lists of clues, and every list that
/// no later entry with the same name replaces can be read.
pub open spec fn clues_ok(v: YamlValue) -> bool {
    &&& yaml_entries(v) is Some
    &&& forall|i: int| 0 <= i < yaml_entries(v)->0.len() ==> key_text(#[trigger] yaml_entries(v)->0[i].0) is Some
    &&& forall|i: int|
        0 <= i < yaml_entries(v)->0.len() && !replaced_later(yaml_entries(v)->0, i) ==> #[trigger] group_error(
            key_text(yaml_entries(v)->0[i].0)->0,
            yaml_entries(v)->0[i].1,
        ) is None
}

/// `groups` are the groups of clues of the mapping `v`, in its order, one for each entry
/// that no later entry with the same name replaces.
pub open spec fn clues_read(v: YamlValue, groups: Seq<(ClueType, Vec<Clue>)>) -> bool {
    let entries = yaml_entries(v)->0;
    let kept = kept_groups(entries, entries.len());
    &&& groups.len() == kept.len()
    &&& forall|i: int|
        0 <= i < groups.len() ==> group_read(key_text(entries[kept[i]].0)->0, entries[kept[i]].1, #[trigger] groups[i])
}

/// `e` is the error of reading `v` as the clues: `v` is no mapping, or one of its keys
/// is no string, or `e` is the error of its first group that cannot be read.
pub open spec fn clues_error(v: YamlValue, e: PuzzleError) -> bool {
    ||| (yaml_entries(v) is None && e == PuzzleError::InvalidMap)
    ||| (yaml_entries(v) is Some && e == PuzzleError::NonStringKey && exists|i: int|
        0 <= i < yaml_entries(v)->0.len() && key_text(#[trigger] yaml_entries(v)->0[i].0) is None)
    ||| (yaml_entries(v) is Some && (forall|i: int|
        0 <= i < yaml_entries(v)->0.len() ==> key_text(#[trigger] yaml_entries(v)->0[i].0) is Some) && exists|i: int|
        first_bad_group(yaml_entries(v)->0, i) && same_error(
            e,
            group_error(key_text(yaml_entries(v)->0[i].0)->0, yaml_entries(v)->0[i].1)->0,
        ))
}

/// `value`, a mapping from kinds of clues to lists of clues, as the groups of clues in
/// the order of the mapping. Where two entries have the same name, the later one
/// replaces the earlier, which is not read.
pub fn to_clues(value: &YamlValue) -> (r: Result<Vec<(ClueType, Vec<Clue>)>, PuzzleError>)
    ensures
        match r {
            Ok(groups) => clues_ok(*value) && clues_read(*value, groups@),
            Err(e) => !clues_ok(*value) && clues_error(*value, e),
        },
{
    let map = to_map(value)?;
    let ghost entries = yaml_entries(*value)->0;
    let mut groups: Vec<(ClueType, Vec<Clue>)> = Vec::new();
    let mut i: usize = 0;
    while i < map.len()
        invariant
            yaml_entries(*value) == Some(entries),
            map@.len() == entries.len(),
            forall|j: int|
                0 <= j < map@.len() ==> key_text(#[trigger] entries[j].0) == Some(map@[j].0@) && *map@[j].1 == entries[j].1,
            i <= map@.len(),
            groups@.len() == kept_groups(entries, i as nat).len(),
            forall|j: int|
                0 <= j < i && !replaced_later(entries, j) ==> #[trigger] group_error(key_text(entries[j].0)->0, entries[j].1)
                    is None,
            forall|g: int|
                0 <= g < groups@.len() ==> group_read(
                    key_text(entries[kept_groups(entries, i as nat)[g]].0)->0,
                    entries[kept_groups(entries, i as nat)[g]].1,
                    #[trigger] groups@[g],
                ),
        decreases map@.len() - i,
    {
        assert(key_text(entries[i as int].0) == Some(map@[i as int].0@));
        let mut replaced = false;
        let mut j: usize = i + 1;
        while j < map.len()
            invariant
                map@.len() == entries.len(),
                forall|m: int|
                    0 <= m < map@.len() ==> key_text(#[trigger] entries[m].0) == Some(map@[m].0@),
                i < j <= map@.len(),
                replaced == exists|m: int| i < m < j && key_text(#[trigger] entries[m].0) == key_text(entries[i as int].0),
            decreases map@.len() - j,
        {
            if str_equal(map[j].0.as_str(), map[i].0.as_str()) {
                replaced = true;
                assert(key_text(entries[j as int].0) == key_text(entries[i as int].0));
            }
            proof {
                if !replaced {
                    assert forall|m: int| i < m < j + 1 implies key_text(#[trigger] entries[m].0) != key_text(entries[i as int].0) by {
                        if m == j {
                            assert(map@[m].0@ != map@[i as int].0@);
                        }
                    }
                }
            }
            j = j + 1;
        }
        assert(replaced == replaced_later(entries, i as int));
        let ghost kept0 = kept_groups(entries, i as nat);
        assert(((i + 1) - 1) as nat == i as nat);
        if !replaced {
            match to_clue_group(&map[i].0, map[i].1) {
                Ok(group) => {
                    groups.push(group);
                    proof {
                        assert(kept_groups(entries, (i + 1) as nat) == kept0.push(i as int));
                        assert forall|g: int| 0 <= g < groups@.len() implies group_read(
                            key_text(entries[kept_groups(entries, (i + 1) as nat)[g]].0)->0,
                            entries[kept_groups(entries, (i + 1) as nat)[g]].1,
                            #[trigger] groups@[g],
                        ) by {
                            if g < groups@.len() - 1 {
                                assert(kept_groups(entries, (i + 1) as nat)[g] == kept0[g]);
                            }
                        }
                    }
                },
                Err(e) => {
                    proof {
                        assert(first_bad_group(entries, i as int));
                        assert forall|j: int| 0 <= j < entries.len() implies key_text(#[trigger] entries[j].0) is Some by {
                            assert(key_text(entries[j].0) == Some(map@[j].0@));
                        }
                    }
                    return Err(e);
                },
            }
        } else {
            proof {
                assert(kept_groups(entries, (i + 1) as nat) == kept0);
            }
        }
        i = i + 1;
    }
    proof {
        assert forall|j: int| 0 <= j < entries.len() implies key_text(#[trigger] entries[j].0) is Some by {
            assert(key_text(entries[j].0) == Some(map@[j].0@));
        }
        assert(entries.len() == map@.len());
    }
    Ok(groups)
}

/// What reading `v` as a given of the grid gives: its position and its value.
pub open spec fn cell_entry_result(v: YamlValue) -> Result<(Position, u8), PuzzleError> {
    match key_position_result(v, "position") {
        Err(e) => Err(e),
        Ok(p) => match key_u8_result(v, "value") {
            Err(e) => Err(e),
            Ok(value) => Ok((p, value)),
        },
    }
}

/// What reading the first `k` givens of `items` gives, in a grid of side `n`: the
/// values by position, or the error of the first given that is unreadable, outside
/// the grid, not a value `1..=n`, or on a cell that already has one.
pub open spec fn givens_result(n: int, items: Seq<YamlValue>, k: int) -> Result<Map<Position, u8>, PuzzleError>
    decreases k,
{
    if k <= 0 {
        Ok(Map::empty())
    } else {
        match givens_result(n, items, k - 1) {
            Err(e) => Err(e),
            Ok(m) => match cell_entry_result(items[k - 1]) {
                Err(e) => Err(e),
                Ok((p, value)) => if p.row >= n || p.col >= n {
                    Err(PuzzleError::InvalidPosition(p))
                } else if value == 0 || value > n {
                    Err(PuzzleError::InvalidValue(value, p))
                } else if m.contains_key(p) {
                    Err(PuzzleError::DuplicateValue(p))
                } else {
                    Ok(m.insert(p, value))
                },
            },
        }
    }
}

/// What reading `v` as the grid gives: its region rows and columns and its givens.
pub open spec fn grid_result(v: YamlValue) -> Result<(u8, u8, Map<Position, u8>), PuzzleError> {
    match key_u8_result(v, "region_rows") {
        Err(e) => Err(e),
        Ok(rr) => match key_u8_result(v, "region_cols") {
            Err(e) => Err(e),
            Ok(rc) => match yaml_get(v, "cells"@) {
                None => Err(PuzzleError::MissingKey("cells")),
                Some(x) => match yaml_items(x) {
                    None => Err(PuzzleError::InvalidSequence),
                    Some(items) => match givens_result(rr * rc, items, items.len() as int) {
                        Err(e) => Err(e),
                        Ok(m) => Ok((rr, rc, m)),
                    },
                },
            },
        },
    }
}

/// `g` is the grid that `v` describes.
pub open spec fn grid_read(v: YamlValue, g: PuzzleGrid) -> bool {
    &&& grid_result(v) is Ok
    &&& g.wf()
    &&& g.rrows() == grid_result(v)->Ok_0.0
    &&& g.rcols() == grid_result(v)->Ok_0.1
    &&& forall|p: Position|
        g.in_bounds(p) ==> #[trigger] g.at(p) == (if grid_result(v)->Ok_0.2.contains_key(p) {
            Some(grid_result(v)->Ok_0.2[p])
        } else {
            None
        })
}

proof fn lemma_givens_error_stays(n: int, items: Seq<YamlValue>, k: int, l: int)
    requires
        0 <= k <= l,
        givens_result(n, items, k) is Err,
    ensures
        givens_result(n, items, l) == givens_result(n, items, k),
    decreases l - k,
{
    if l > k {
        lemma_givens_error_stays(n, items, k, l - 1);
    }
}

fn read_cell_entry(cell: &YamlValue) -> (r: Result<(Position, u8), PuzzleError>)
    ensures
        r == cell_entry_result(*cell),
{
    let pos = to_position(get_required(cell, "position")?)?;
    let val = to_u8(get_required(cell, "value")?)?;
    Ok((pos, val))
}

/// `value`, the description of the grid, as the grid of its givens.
pub fn to_puzzle_grid(value: &YamlValue) -> (r: Result<PuzzleGrid, PuzzleError>)
    ensures
        match r {
            Ok(g) => grid_read(*value, g),
            Err(e) => grid_result(*value) == Err::<(u8, u8, Map<Position, u8>), PuzzleError>(e),
        },
{
    let region_rows = to_u8(get_required(value, "region_rows")?)?;
    let region_cols = to_u8(get_required(value, "region_cols")?)?;
    assert(region_rows * region_cols <= 255 * 255) by (nonlinear_arith)
        requires region_rows <= 255, region_cols <= 255;
    let mut grid: PuzzleGrid = Grid::from_default(region_rows as usize, region_cols as usize, None);
    let size = grid.grid_size();
    let cells = to_vec(get_required(value, "cells")?)?;
    let ghost n = size as int;
    proof {
        assert forall|p: Position| grid.in_bounds(p) implies #[trigger] grid.at(p) == None::<u8> by {
            assert(cloned(None::<u8>, grid@[p.row as int][p.col as int]));
        }
    }
    let mut i: usize = 0;
    while i < cells.len()
        invariant
            yaml_get(*value, "cells"@) matches Some(x) && yaml_items(x) == Some(cells@),
            key_u8_result(*value, "region_rows") == Ok::<u8, PuzzleError>(region_rows),
            key_u8_result(*value, "region_cols") == Ok::<u8, PuzzleError>(region_cols),
            size == n,
            n == region_rows * region_cols,
            grid.wf(),
            grid.rrows() == region_rows,
            grid.rcols() == region_cols,
            grid.size() == n,
            i <= cells@.len(),
            givens_result(n, cells@, i as int) is Ok,
            forall|p: Position|
                grid.in_bounds(p) ==> #[trigger] grid.at(p) == (if givens_result(n, cells@, i as int)->Ok_0.contains_key(p) {
                    Some(givens_result(n, cells@, i as int)->Ok_0[p])
                } else {
                    None
                }),
        decreases cells@.len() - i,
    {
        let cell = &cells[i];
        let ghost m = givens_result(n, cells@, i as int)->Ok_0;
        let entry = read_cell_entry(cell);
        let (pos, val) = match entry {
            Ok(pv) => pv,
            Err(e) => {
                proof {
                    lemma_givens_error_stays(n, cells@, i as int + 1, cells@.len() as int);
                }
                return Err(e);
            },
        };
        let bad = if pos.row >= size || pos.col >= size {
            Some(PuzzleError::InvalidPosition(pos))
        } else if val == 0 || val as usize > size {
            Some(PuzzleError::InvalidValue(val, pos))
        } else if grid.get(pos).is_some() {
            assert(m.contains_key(pos));
            Some(PuzzleError::DuplicateValue(pos))
        } else {
            None
        };
        if let Some(e) = bad {
            proof {
                assert(givens_result(n, cells@, i as int + 1) == Err::<Map<Position, u8>, PuzzleError>(e));
                lemma_givens_error_stays(n, cells@, i as int + 1, cells@.len() as int);
            }
            return Err(e);
        }
        let ghost g_before = grid;
        grid.set(pos, Some(val));
        i = i + 1;
        proof {
            assert(givens_result(n, cells@, i as int) == Ok::<Map<Position, u8>, PuzzleError>(m.insert(pos, val)));
            assert forall|p: Position| grid.in_bounds(p) implies #[trigger] grid.at(p) == (if m.insert(pos, val).contains_key(p) {
                Some(m.insert(pos, val)[p])
            } else {
                None
            }) by {
                if p != pos {
                    assert(grid.at(p) == g_before.at(p));
                }
            }
        }
    }
    Ok(grid)
}

/// `e` is the error of reading `v` as a puzzle: the error of its grid, else of its
/// rules, else of its clues, each part read only when the ones before it were fine.
pub open spec fn puzzle_error(v: YamlValue, e: PuzzleError) -> bool {
    match yaml_get(v, "grid"@) {
        None => e == PuzzleError::MissingKey("grid"),
        Some(g) => if grid_result(g) is Err {
            grid_result(g) == Err::<(u8, u8, Map<Position, u8>), PuzzleError>(e)
        } else {
            match yaml_get(v, "rules"@) {
                None => e == PuzzleError::MissingKey("rules"),
                Some(rv) => if !rules_ok(rv) {
                    rules_error(rv, e)
                } else {
                    match yaml_get(v, "clues"@) {
                        None => e == PuzzleError::MissingKey("clues"),
                        Some(cv) => !clues_ok(cv) && clues_error(cv, e),
                    }
                },
            }
        },
    }
}

/// `p` is the puzzle that `v` describes: its grid, its rules and its clues.
pub open spec fn puzzle_read(v: YamlValue, p: Puzzle) -> bool {
    &&& yaml_get(v, "grid"@) matches Some(g) && grid_read(g, p.puzzle_grid)
    &&& yaml_get(v, "rules"@) matches Some(rv) && rules_ok(rv) && rules_read(rv, p.rules@)
    &&& yaml_get(v, "clues"@) matches Some(cv) && clues_ok(cv) && clues_read(cv, p.clues@)
}

/// `value`, the description of a puzzle, as the puzzle.
pub fn to_puzzle(value: &YamlValue) -> (r: Result<Puzzle, PuzzleError>)
    ensures
        match r {
            Ok(p) => puzzle_read(*value, p),
            Err(e) => puzzle_error(*value, e),
        },
{
    let puzzle_grid = match to_puzzle_grid(get_required(value, "grid")?) {
        Ok(g) => g,
        Err(e) => return Err(e),
    };
    let rules = match to_rules(get_required(value, "rules")?) {
        Ok(rules) => rules,
        Err(e) => return Err(e),
    };
    let clues = match to_clues(get_required(value, "clues")?) {
        Ok(clues) => clues,
        Err(e) => return Err(e),
    };
    Ok(Puzzle { puzzle_grid, rules, clues })
}

/// Why a puzzle text could not be read: it is no YAML document, with the message of
/// the YAML reader, or the document does not describe a puzzle.
pub enum LoadError {
    Yaml(String),
    Puzzle(PuzzleError),
}

/// The puzzle that the YAML text `text` describes.
pub fn parse_puzzle(text: &str) -> (r: Result<Puzzle, LoadError>)
    ensures
        match yaml_document(text@) {
            Err(m) => r matches Err(LoadError::Yaml(e)) && e@ == m,
            Ok(d) => match r {
                Ok(p) => puzzle_read(d, p),
                Err(LoadError::Puzzle(e)) => puzzle_error(d, e),
                Err(LoadError::Yaml(_)) => false,
            },
        },
{
    let document = match parse_document(text) {
        Ok(d) => d,
        Err(e) => return Err(LoadError::Yaml(e)),
    };
    match to_puzzle(&document) {
        Ok(p) => Ok(p),
        Err(e) => Err(LoadError::Puzzle(e)),
    }
}

} // verus!
