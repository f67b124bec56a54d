use vstd::prelude::*;

verus! {

/// A YAML document, as the puzzle reader sees it.
pub enum YamlValue {
    Null,
    Bool(bool),
    /// A number, by its text: the decimal digits of a whole number that is not
    /// negative, or the text of any other number.
    Number(String),
    Text(String),
    Sequence(Vec<YamlValue>),
    Mapping(Vec<(YamlValue, YamlValue)>),
    /// A key of a mapping that carries a tag. `get` does not find such a key under its
    /// text, while reading the keys of a mapping as strings sees through the tag. Other
    /// values are kept without their tags, since every read of a value sees through them.
    TaggedKey(Box<YamlValue>),
}

/// `t` is a nonempty run of decimal digits.
pub open spec fn all_digits(t: Seq<char>) -> bool {
    &&& t.len() > 0
    &&& forall|i: int| 0 <= i < t.len() ==> '0' <= #[trigger] t[i] <= '9'
}

/// The number that the decimal digits `t` write.
pub open spec fn digits_value(t: Seq<char>) -> int
    decreases t.len(),
{
    if t.len() == 0 {
        0
    } else {
        digits_value(t.drop_last()) * 10 + (t.last() as int - '0' as int)
    }
}

/// The whole number that the text `t` writes, when it is decimal digits alone and the
/// number fits in a `u64`.
pub open spec fn decimal_u64(t: Seq<char>) -> Option<u64> {
    if all_digits(t) && digits_value(t) <= u64::MAX {
        Some(digits_value(t) as u64)
    } else {
        None
    }
}

/// The number that `v` holds, when it is a whole number that fits in a `u64`.
pub open spec fn yaml_u64(v: YamlValue) -> Option<u64> {
    match v {
        YamlValue::Number(t) => decimal_u64(t@),
        _ => None,
    }
}

/// Digits written after others make a number at least as large.
proof fn lemma_digits_grow(t: Seq<char>, k: int)
    requires
        0 <= k <= t.len(),
        forall|i: int| 0 <= i < t.len() ==> '0' <= #[trigger] t[i] <= '9',
    ensures
        digits_value(t.subrange(0, k)) <= digits_value(t),
        0 <= digits_value(t),
    decreases t.len(),
{
    if t.len() > 0 {
        let s = t.drop_last();
        assert forall|i: int| 0 <= i < s.len() implies '0' <= #[trigger] s[i] <= '9' by {
            assert(s[i] == t[i]);
        }
        if k == t.len() {
            assert(t.subrange(0, k) =~= t);
            lemma_digits_grow(s, 0);
        } else {
            assert(t.subrange(0, k) =~= s.subrange(0, k));
            lemma_digits_grow(s, k);
        }
    } else {
        assert(t.subrange(0, k) =~= t);
    }
}

/// The whole number that the text `text` writes in decimal digits, when it fits in a
/// `u64`.
pub fn number_value(text: &String) -> (r: Option<u64>)
    ensures
        r == decimal_u64(text@),
{
    let t = text.as_str();
    let n = t.unicode_len();
    if n == 0 {
        return None;
    }
    let mut acc: u64 = 0;
    let mut i: usize = 0;
    while i < n
        invariant
            n == t@.len(),
            t@ == text@,
            i <= n,
            forall|j: int| 0 <= j < i ==> '0' <= #[trigger] t@[j] <= '9',
            acc == digits_value(t@.subrange(0, i as int)),
        decreases n - i,
    {
        let c = t.get_char(i);
        if c < '0' || c > '9' {
            return None;
        }
        let d = (c as u32 - '0' as u32) as u64;
        proof {
            assert(t@.subrange(0, i + 1).drop_last() =~= t@.subrange(0, i as int));
        }
        if acc > (u64::MAX - d) / 10 {
            proof {
                assert(digits_value(t@.subrange(0, i + 1)) > u64::MAX) by (nonlinear_arith)
                    requires
                        digits_value(t@.subrange(0, i + 1)) == acc * 10 + d,
                        acc > (u64::MAX - d) / 10,
                        d <= 9,
                ;
                if all_digits(t@) {
                    lemma_digits_grow(t@, i + 1);
                }
            }
            return None;
        }
        assert(acc * 10 + d <= u64::MAX) by (nonlinear_arith)
            requires
                acc <= (u64::MAX - d) / 10,
                d <= 9,
        ;
        acc = acc * 10 + d;
        i = i + 1;
    }
    assert(t@.subrange(0, n as int) =~= t@);
    Some(acc)
}

/// The text that `v` holds, when it is a string.
pub open spec fn yaml_text(v: YamlValue) -> Option<Seq<char>> {
    match v {
        YamlValue::Text(s) => Some(s@),
        _ => None,
    }
}

/// The text of the mapping key `k`, when it is a string, tagged or not.
pub open spec fn key_text(k: YamlValue) -> Option<Seq<char>> {
    match k {
        YamlValue::TaggedKey(inner) => yaml_text(*inner),
        _ => yaml_text(k),
    }
}

/// The items of `v`, when it is a sequence.
pub open spec fn yaml_items(v: YamlValue) -> Option<Seq<YamlValue>> {
    match v {
        YamlValue::Sequence(items) => Some(items@),
        _ => None,
    }
}

/// The entries of `v`, when it is a mapping.
pub open spec fn yaml_entries(v: YamlValue) -> Option<Seq<(YamlValue, YamlValue)>> {
    match v {
        YamlValue::Mapping(entries) => Some(entries@),
        _ => None,
    }
}

/// Entry `i` of `entries` is the first whose key is the string `key`.
pub open spec fn first_key(entries: Seq<(YamlValue, YamlValue)>, key: Seq<char>, i: int) -> bool {
    &&& 0 <= i < entries.len()
    &&& yaml_text(entries[i].0) == Some(key)
    &&& forall|j: int| 0 <= j < i ==> yaml_text(#[trigger] entries[j].0) != Some(key)
}

/// The value under the string key `key` of the mapping `v`: that of its first entry
/// with this key.
pub open spec fn yaml_get(v: YamlValue, key: Seq<char>) -> Option<YamlValue> {
    match yaml_entries(v) {
        Some(entries) => if exists|i: int| first_key(entries, key, i) {
            Some(entries[choose|i: int| first_key(entries, key, i)].1)
        } else {
            None
        },
        None => None,
    }
}

/// Whether the strings `a` and `b` are the same.
pub fn str_equal(a: &str, b: &str) -> (r: bool)
    ensures
        r == (a@ == b@),
{
    let n = a.unicode_len();
    if n != b.unicode_len() {
        return false;
    }
    let mut i: usize = 0;
    while i < n
        invariant
            n == a@.len(),
            n == b@.len(),
            i <= n,
            forall|k: int| 0 <= k < i ==> a@[k] == b@[k],
        decreases n - i,
    {
        if a.get_char(i) != b.get_char(i) {
            return false;
        }
        i = i + 1;
    }
    assert(a@ =~= b@);
    true
}

proof fn lemma_first_key_unique(entries: Seq<(YamlValue, YamlValue)>, key: Seq<char>, i: int)
    requires
        first_key(entries, key, i),
    ensures
        (choose|k: int| first_key(entries, key, k)) == i,
{
    let k = choose|k: int| first_key(entries, key, k);
    assert(first_key(entries, key, k));
    if k < i {
        assert(yaml_text(entries[k].0) != Some(key));
    } else if i < k {
        assert(yaml_text(entries[i].0) != Some(key));
    }
}

impl YamlValue {
    /// The number that this value holds, when it is a whole number that fits in a
    /// `u64`.
    pub fn as_u64(&self) -> (r: Option<u64>)
        ensures
            r == yaml_u64(*self),
    {
        match self {
            YamlValue::Number(text) => number_value(text),
            _ => None,
        }
    }

    /// The value under the string key `key`, when this is a mapping that has it.
    pub fn get(&self, key: &str) -> (r: Option<&YamlValue>)
        ensures
            r matches Some(x) ==> yaml_get(*self, key@) == Some(*x),
            r is None ==> yaml_get(*self, key@) is None,
    {
        match self {
            YamlValue::Mapping(entries) => {
                let mut i: usize = 0;
                while i < entries.len()
                    invariant
                        yaml_entries(*self) == Some(entries@),
                        i <= entries@.len(),
                        forall|j: int| 0 <= j < i ==> yaml_text(#[trigger] entries@[j].0) != Some(key@),
                    decreases entries@.len() - i,
                {
                    if let YamlValue::Text(s) = &entries[i].0 {
                        if str_equal(s.as_str(), key) {
                            proof {
                                assert(yaml_text(entries@[i as int].0) == Some(key@));
                                assert(first_key(entries@, key@, i as int));
                                lemma_first_key_unique(entries@, key@, i as int);
                                assert(yaml_entries(*self) == Some(entries@));
                                assert(yaml_get(*self, key@) == Some(entries@[i as int].1));
                            }
                            return Some(&entries[i].1);
                        }
                    }
                    i = i + 1;
                }
                None
            },
            _ => None,
        }
    }
}

} // verus!
