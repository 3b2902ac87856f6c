//! Launch-shape overrides for measurement.
//!
//! A comma-separated `key=value` list names overrides of the kernels' geometry. An unset key
//! is the constant. Nothing in a fit depends on these values but its speed: every kernel
//! gives the same answer at every geometry.

use vstd::prelude::*;

use crate::text::{
    chars_of, decimal, is_digit, lemma_decimal_round_trip, lemma_number_of_decimal, lemma_parted, number,
    parse_number, parted_at, pieces, same_chars, split, split_once, texts, trim, trimmed,
};

verus! {

/// The overrides that a list names, in its order.
#[derive(Clone, Debug)]
pub struct Overrides {
    pub keys: Vec<Vec<char>>,
    pub values: Vec<u64>,
}

/// One override: its key and its value.
pub type Setting = (Seq<char>, u64);

/// What one piece of a list sets: nothing where it has no `=` or no number after it.
pub open spec fn setting(piece: Seq<char>) -> Option<Setting> {
    match parted_at(piece, '=') {
        Some((key, value)) => match number(trimmed(value), u64::MAX as int) {
            Some(v) => Some((trimmed(key), v as u64)),
            None => None,
        },
        None => None,
    }
}

/// What the first `n` pieces of a list set.
pub open spec fn settings(parts: Seq<Seq<char>>, n: int) -> Seq<Setting>
    decreases n,
{
    if n <= 0 {
        Seq::empty()
    } else {
        match setting(parts[n - 1]) {
            Some(s) => settings(parts, n - 1).push(s),
            None => settings(parts, n - 1),
        }
    }
}

/// The value of a key: that of the last setting that names it.
pub open spec fn lookup(table: Seq<Setting>, key: Seq<char>) -> Option<u64>
    decreases table.len(),
{
    if table.len() == 0 {
        None
    } else if table.last().0 == key {
        Some(table.last().1)
    } else {
        lookup(table.drop_last(), key)
    }
}

impl Overrides {
    /// The settings held.
    pub open spec fn table(&self) -> Seq<Setting> {
        Seq::new(self.keys@.len(), |i: int| (self.keys[i]@, self.values[i]))
    }

    pub open spec fn wf(&self) -> bool {
        self.keys.len() == self.values.len()
    }

    /// Read a list of overrides. A piece that sets nothing is passed over.
    pub fn parse(list: &str) -> (overrides: Self)
        ensures
            overrides.wf(),
            overrides.table() == settings(pieces(list@, ','), pieces(list@, ',').len() as int),
    {
        let parts: Vec<Vec<char>> = split(&chars_of(list), ',');
        let ghost all = texts(parts@);
        let mut overrides = Overrides { keys: Vec::new(), values: Vec::new() };
        let mut i: usize = 0;
        assert(overrides.table() =~= Seq::empty());
        while i < parts.len()
            invariant
                all == texts(parts@),
                i <= parts.len(),
                overrides.wf(),
                overrides.table() == settings(all, i as int),
            decreases parts.len() - i,
        {
            let ghost was = overrides.table();
            assert(all[i as int] == parts[i as int]@);
            match split_once(&parts[i], '=') {
                Some((key, value)) => {
                    let key: Vec<char> = trim(&key);
                    match parse_number(&trim(&value), u64::MAX) {
                        Some(v) => {
                            overrides.keys.push(key);
                            overrides.values.push(v);
                            assert(overrides.table() =~= was.push((key@, v)));
                        },
                        None => {},
                    }
                },
                None => {},
            }
            i += 1;
        }
        overrides
    }
}

/// The override for `key`, if the list named one.
pub fn get(overrides: &Overrides, key: &str) -> (value: Option<u64>)
    requires
        overrides.wf(),
    ensures
        value == lookup(overrides.table(), key@),
{
    let name: Vec<char> = chars_of(key);
    let ghost table = overrides.table();
    let mut i: usize = overrides.keys.len();
    assert(table.subrange(0, table.len() as int) =~= table);
    while i > 0
        invariant
            overrides.wf(),
            table == overrides.table(),
            i <= overrides.keys.len(),
            name@ == key@,
            lookup(table, key@) == lookup(table.subrange(0, i as int), key@),
        decreases i,
    {
        proof {
            let head = table.subrange(0, i as int);
            assert(head.drop_last() =~= table.subrange(0, i - 1));
            assert(head.last() == table[i - 1]);
        }
        i -= 1;
        if same_chars(&overrides.keys[i], &name) {
            return Some(overrides.values[i]);
        }
    }
    None
}

/// [`get`], as a 32-bit number, falling back to `default`.
pub fn get_or(overrides: &Overrides, key: &str, default: u32) -> (value: u32)
    requires
        overrides.wf(),
    ensures
        value == (match lookup(overrides.table(), key@) {
            Some(v) => if v > u32::MAX {
                u32::MAX
            } else {
                v as u32
            },
            None => default,
        }),
{
    match get(overrides, key) {
        Some(v) => if v > u32::MAX as u64 {
            u32::MAX
        } else {
            v as u32
        },
        None => default,
    }
}

/// A later setting of a key replaces an earlier one.
pub proof fn lemma_later_wins(table: Seq<Setting>, key: Seq<char>, value: u64)
    ensures
        lookup(table.push((key, value)), key) == Some(value),
        forall|other: Seq<char>| other != key ==> #[trigger] lookup(table.push((key, value)), other) == lookup(table, other),
{
    assert(table.push((key, value)).drop_last() =~= table);
}

/// A key, an equals sign and a number in decimal digits set the key to the number; a piece without
/// an equals sign sets nothing.
pub proof fn lemma_setting(key: Seq<char>, value: u64)
    requires
        !key.contains('='),
        trimmed(key) == key,
    ensures
        setting(key.push('=') + decimal(value as nat)) == Some((key, value)),
        setting(key) is None,
{
    let digits = decimal(value as nat);
    lemma_parted(key, '=', digits);
    lemma_number_of_decimal(value as nat, u64::MAX as int);
    lemma_decimal_round_trip(value as nat);
    assert(is_digit(digits[0]));
    assert(is_digit(digits[digits.len() - 1]));
    assert(trimmed(digits) == digits);
}

/// One piece more adds what it sets at the end, and nothing where it sets nothing.
pub proof fn lemma_settings_grow(parts: Seq<Seq<char>>, piece: Seq<char>)
    ensures
        settings(Seq::empty(), 0).len() == 0,
        setting(piece) matches Some(s) ==> settings(parts.push(piece), parts.len() as int + 1) == settings(
            parts,
            parts.len() as int,
        ).push(s),
        setting(piece) is None ==> settings(parts.push(piece), parts.len() as int + 1) == settings(
            parts,
            parts.len() as int,
        ),
{
    lemma_settings_same(parts, parts.push(piece), parts.len() as int);
}

proof fn lemma_settings_same(a: Seq<Seq<char>>, b: Seq<Seq<char>>, n: int)
    requires
        forall|i: int| 0 <= i < n ==> a[i] == b[i],
    ensures
        settings(a, n) == settings(b, n),
    decreases n,
{
    if n > 0 {
        lemma_settings_same(a, b, n - 1);
    }
}

} // verus!
