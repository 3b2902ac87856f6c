//! Text: splitting it, trimming it, and decimal numbers in it.

use vstd::prelude::*;
use vstd::string::StringExecFns;

verus! {

/// The characters of a text.
pub fn chars_of(s: &str) -> (chars: Vec<char>)
    ensures
        chars@ == s@,
{
    let mut chars: Vec<char> = Vec::new();
    for c in it: s.chars()
        invariant
            it.seq() == s@,
            chars@ == s@.subrange(0, it.index() as int),
    {
        chars.push(c);
        assert(chars@ =~= s@.subrange(0, it.index() + 1));
    }
    assert(s@.subrange(0, s@.len() as int) =~= s@);
    chars
}

/// [`String::push`] appends one character to the end of the text.
pub assume_specification[ String::push ](s: &mut String, c: char)
    ensures
        final(s)@ == old(s)@.push(c),
;

/// The characters as a text.
pub fn text_of(chars: &Vec<char>) -> (s: String)
    ensures
        s@ == chars@,
{
    let mut s: String = String::new();
    let mut i: usize = 0;
    assert(s@ =~= chars@.subrange(0, 0));
    while i < chars.len()
        invariant
            i <= chars.len(),
            s@ == chars@.subrange(0, i as int),
        decreases chars.len() - i,
    {
        s.push(chars[i]);
        assert(s@ =~= chars@.subrange(0, i + 1));
        i += 1;
    }
    assert(chars@.subrange(0, chars.len() as int) =~= chars@);
    s
}

/// White space, as Unicode has it.
pub open spec fn is_space_spec(c: char) -> bool {
    let x = c as u32;
    ||| 0x09 <= x <= 0x0D
    ||| x == 0x20
    ||| x == 0x85
    ||| x == 0xA0
    ||| x == 0x1680
    ||| 0x2000 <= x <= 0x200A
    ||| x == 0x2028
    ||| x == 0x2029
    ||| x == 0x202F
    ||| x == 0x205F
    ||| x == 0x3000
}

pub fn is_space(c: char) -> (yes: bool)
    ensures
        yes == is_space_spec(c),
{
    let x: u32 = c as u32;
    (0x09 <= x && x <= 0x0D) || x == 0x20 || x == 0x85 || x == 0xA0 || x == 0x1680 || (0x2000 <= x && x <= 0x200A) || x
        == 0x2028 || x == 0x2029 || x == 0x202F || x == 0x205F || x == 0x3000
}

/// The text without the white space around it.
pub open spec fn trimmed(s: Seq<char>) -> Seq<char>
    decreases s.len(),
{
    if s.len() == 0 {
        s
    } else if is_space_spec(s[0]) {
        trimmed(s.drop_first())
    } else if is_space_spec(s.last()) {
        trimmed(s.drop_last())
    } else {
        s
    }
}

/// Characters `from..to` of a text, copied.
pub fn slice_of(s: &Vec<char>, from: usize, to: usize) -> (part: Vec<char>)
    requires
        from <= to <= s.len(),
    ensures
        part@ == s@.subrange(from as int, to as int),
{
    let mut part: Vec<char> = Vec::with_capacity(to - from);
    let mut i: usize = from;
    while i < to
        invariant
            from <= i <= to <= s.len(),
            part@ == s@.subrange(from as int, i as int),
        decreases to - i,
    {
        part.push(s[i]);
        assert(part@ =~= s@.subrange(from as int, i + 1));
        i += 1;
    }
    part
}

/// The text without the white space around it.
pub fn trim(s: &Vec<char>) -> (t: Vec<char>)
    ensures
        t@ == trimmed(s@),
{
    let mut from: usize = 0;
    let mut to: usize = s.len();
    assert(s@.subrange(0, s.len() as int) =~= s@);
    while from < to && is_space(s[from])
        invariant
            from <= to <= s.len(),
            trimmed(s@) == trimmed(s@.subrange(from as int, to as int)),
        decreases to - from,
    {
        let ghost rest = s@.subrange(from as int, to as int);
        assert(rest.drop_first() =~= s@.subrange(from + 1, to as int));
        assert(rest[0] == s[from as int]);
        from += 1;
    }
    while from < to && is_space(s[to - 1])
        invariant
            from <= to <= s.len(),
            from < to ==> !is_space_spec(s[from as int]),
            trimmed(s@) == trimmed(s@.subrange(from as int, to as int)),
        decreases to - from,
    {
        let ghost rest = s@.subrange(from as int, to as int);
        assert(rest.drop_last() =~= s@.subrange(from as int, to - 1));
        assert(rest[0] == s[from as int]);
        assert(rest.last() == s[to - 1]);
        to -= 1;
    }
    proof {
        let rest = s@.subrange(from as int, to as int);
        if from < to {
            assert(rest[0] == s[from as int]);
            assert(rest.last() == s[to - 1]);
        }
        assert(trimmed(rest) == rest);
    }
    slice_of(s, from, to)
}

/// The pieces between the separators: one more than there are separators.
pub open spec fn pieces(s: Seq<char>, separator: char) -> Seq<Seq<char>>
    decreases s.len(),
{
    if s.len() == 0 {
        seq![Seq::<char>::empty()]
    } else {
        let rest = pieces(s.drop_last(), separator);
        if s.last() == separator {
            rest.push(Seq::empty())
        } else {
            rest.drop_last().push(rest.last().push(s.last()))
        }
    }
}

/// The views of some texts.
pub open spec fn texts(parts: Seq<Vec<char>>) -> Seq<Seq<char>> {
    Seq::new(parts.len(), |i: int| parts[i]@)
}

proof fn lemma_pieces_some(s: Seq<char>, separator: char)
    ensures
        pieces(s, separator).len() >= 1,
    decreases s.len(),
{
    if s.len() > 0 {
        lemma_pieces_some(s.drop_last(), separator);
    }
}

/// Cut a text at every separator.
pub fn split(s: &Vec<char>, separator: char) -> (parts: Vec<Vec<char>>)
    ensures
        texts(parts@) == pieces(s@, separator),
{
    let mut parts: Vec<Vec<char>> = Vec::new();
    let mut open: Vec<char> = Vec::new();
    let mut i: usize = 0;
    proof {
        assert(s@.subrange(0, 0) =~= Seq::empty());
        assert(texts(parts@).push(open@) =~= pieces(Seq::empty(), separator));
    }
    while i < s.len()
        invariant
            i <= s.len(),
            texts(parts@).push(open@) == pieces(s@.subrange(0, i as int), separator),
        decreases s.len() - i,
    {
        let c: char = s[i];
        let ghost head = s@.subrange(0, i as int);
        let ghost next = s@.subrange(0, i + 1);
        proof {
            assert(next.drop_last() =~= head);
            assert(next.last() == c);
            lemma_pieces_some(head, separator);
        }
        let ghost was = texts(parts@);
        let ghost before = open@;
        if c == separator {
            parts.push(open);
            open = Vec::new();
            proof {
                assert(texts(parts@) =~= was.push(before));
                assert(texts(parts@).push(open@) =~= pieces(head, separator).push(Seq::empty()));
            }
        } else {
            open.push(c);
            proof {
                let rest = was.push(before);
                assert(rest.drop_last() =~= was);
                assert(texts(parts@).push(open@) =~= rest.drop_last().push(rest.last().push(c)));
            }
        }
        i += 1;
    }
    proof {
        assert(s@.subrange(0, s.len() as int) =~= s@);
    }
    let ghost was = texts(parts@);
    let ghost last = open@;
    parts.push(open);
    assert(texts(parts@) =~= was.push(last));
    parts
}

/// Where a character first occurs.
pub open spec fn first_at(s: Seq<char>, c: char, i: int) -> bool {
    &&& 0 <= i < s.len()
    &&& s[i] == c
    &&& forall|j: int| 0 <= j < i ==> #[trigger] s[j] != c
}

/// What stands before and after the first occurrence of a character.
pub open spec fn parted_at(s: Seq<char>, c: char) -> Option<(Seq<char>, Seq<char>)> {
    if exists|i: int| first_at(s, c, i) {
        let i = choose|i: int| first_at(s, c, i);
        Some((s.subrange(0, i), s.subrange(i + 1, s.len() as int)))
    } else {
        None
    }
}

pub fn split_once(s: &Vec<char>, c: char) -> (parts: Option<(Vec<char>, Vec<char>)>)
    ensures
        match parts {
            Some((a, b)) => parted_at(s@, c) == Some((a@, b@)),
            None => parted_at(s@, c) is None,
        },
{
    let mut i: usize = 0;
    while i < s.len()
        invariant
            i <= s.len(),
            forall|j: int| 0 <= j < i ==> #[trigger] s[j] != c,
        decreases s.len() - i,
    {
        if s[i] == c {
            proof {
                assert(first_at(s@, c, i as int));
                let k = choose|k: int| first_at(s@, c, k);
                assert(first_at(s@, c, k));
                if k < i {
                    assert(s[k] != c);
                } else if i < k {
                    assert(s@[i as int] != c);
                }
            }
            return Some((slice_of(s, 0, i), slice_of(s, i + 1, s.len())));
        }
        i += 1;
    }
    assert forall|k: int| !first_at(s@, c, k) by {
        if 0 <= k < s.len() {
            assert(s[k] != c);
        }
    }
    None
}

/// The same characters.
pub fn same_chars(a: &Vec<char>, b: &Vec<char>) -> (same: bool)
    ensures
        same == (a@ == b@),
{
    if a.len() != b.len() {
        return false;
    }
    let mut i: usize = 0;
    while i < a.len()
        invariant
            a.len() == b.len(),
            i <= a.len(),
            forall|j: int| 0 <= j < i ==> #[trigger] a[j] == b[j],
        decreases a.len() - i,
    {
        if a[i] != b[i] {
            assert(a@[i as int] != b@[i as int]);
            return false;
        }
        i += 1;
    }
    assert(a@ =~= b@);
    true
}

/// A decimal digit.
pub open spec fn is_digit(c: char) -> bool {
    0x30 <= c as u32 <= 0x39
}

/// The number that decimal digits write.
pub open spec fn value_of(s: Seq<char>) -> int
    decreases s.len(),
{
    if s.len() == 0 {
        0
    } else {
        10 * value_of(s.drop_last()) + (s.last() as u32 - 0x30)
    }
}

/// All characters are digits, and there is one.
pub open spec fn all_digits(s: Seq<char>) -> bool {
    s.len() > 0 && forall|i: int| 0 <= i < s.len() ==> is_digit(#[trigger] s[i])
}

/// The unsigned number that a text writes: digits, after a plus sign or not, up to `max`.
pub open spec fn number(s: Seq<char>, max: int) -> Option<int> {
    let digits = if s.len() > 0 && s[0] == '+' {
        s.drop_first()
    } else {
        s
    };
    if all_digits(digits) && value_of(digits) <= max {
        Some(value_of(digits))
    } else {
        None
    }
}

proof fn lemma_value_grows(s: Seq<char>, n: int)
    requires
        0 <= n <= s.len(),
        forall|i: int| 0 <= i < s.len() ==> is_digit(#[trigger] s[i]),
    ensures
        0 <= value_of(s.subrange(0, n)) <= value_of(s),
    decreases s.len(),
{
    if n == s.len() {
        assert(s.subrange(0, n) =~= s);
        if s.len() > 0 {
            lemma_value_grows(s.drop_last(), 0);
            assert(s.drop_last().subrange(0, 0) =~= Seq::empty());
            assert(is_digit(s[s.len() - 1]));
        }
    } else {
        lemma_value_grows(s.drop_last(), n);
        assert(s.drop_last().subrange(0, n) =~= s.subrange(0, n));
        assert(is_digit(s[s.len() - 1]));
    }
}

/// A number that was read is not negative, and not above the largest asked for.
pub proof fn lemma_number_range(s: Seq<char>, max: int)
    ensures
        match number(s, max) {
            Some(v) => 0 <= v <= max,
            None => true,
        },
{
    let digits = if s.len() > 0 && s[0] == '+' {
        s.drop_first()
    } else {
        s
    };
    if all_digits(digits) {
        lemma_value_grows(digits, 0);
    }
}

/// Read an unsigned number.
pub fn parse_number(s: &Vec<char>, max: u64) -> (n: Option<u64>)
    ensures
        match n {
            Some(v) => number(s@, max as int) == Some(v as int),
            None => number(s@, max as int) is None,
        },
{
    let from: usize = if s.len() > 0 && s[0] == '+' {
        1
    } else {
        0
    };
    let ghost digits = s@.subrange(from as int, s.len() as int);
    proof {
        if from == 1 {
            assert(digits =~= s@.drop_first());
        } else {
            assert(digits =~= s@);
        }
    }
    if from == s.len() {
        return None;
    }
    let mut v: u64 = 0;
    let mut i: usize = from;
    assert(digits.subrange(0, 0) =~= Seq::empty());
    while i < s.len()
        invariant
            from <= i <= s.len(),
            from <= 1,
            digits == s@.subrange(from as int, s.len() as int),
            number(s@, max as int) == (if all_digits(digits) && value_of(digits) <= max {
                Some(value_of(digits))
            } else {
                None
            }),
            forall|j: int| 0 <= j < i - from ==> is_digit(#[trigger] digits[j]),
            v == value_of(digits.subrange(0, i - from)),
            v <= max,
        decreases s.len() - i,
    {
        let c: char = s[i];
        let x: u32 = c as u32;
        let ghost k = i - from;
        assert(digits[k] == c);
        if x < 0x30 || x > 0x39 {
            assert(!is_digit(digits[k]));
            return None;
        }
        let d: u64 = (x - 0x30) as u64;
        proof {
            assert(digits.subrange(0, k + 1).drop_last() =~= digits.subrange(0, k));
            assert(digits.subrange(0, k + 1).last() == c);
            assert(value_of(digits.subrange(0, k + 1)) == 10 * v + d);
            if all_digits(digits) {
                lemma_value_grows(digits, k + 1);
            }
        }
        if d > max || v > max / 10 || v * 10 > max - d {
            return None;
        }
        v = v * 10 + d;
        i += 1;
    }
    assert(digits.subrange(0, digits.len() as int) =~= digits);
    Some(v)
}

/// A digit of a number, as a character.
pub open spec fn digit_char(d: int) -> char {
    if d == 0 {
        '0'
    } else if d == 1 {
        '1'
    } else if d == 2 {
        '2'
    } else if d == 3 {
        '3'
    } else if d == 4 {
        '4'
    } else if d == 5 {
        '5'
    } else if d == 6 {
        '6'
    } else if d == 7 {
        '7'
    } else if d == 8 {
        '8'
    } else {
        '9'
    }
}

/// A number in decimal digits.
pub open spec fn decimal(n: nat) -> Seq<char>
    decreases n,
{
    if n < 10 {
        seq![digit_char(n as int)]
    } else {
        decimal(n / 10).push(digit_char((n % 10) as int))
    }
}

/// What a number's decimal digits write is the number.
pub proof fn lemma_decimal_round_trip(n: nat)
    ensures
        all_digits(decimal(n)),
        value_of(decimal(n)) == n,
    decreases n,
{
    if n >= 10 {
        lemma_decimal_round_trip(n / 10);
        let s = decimal(n);
        assert(s.drop_last() =~= decimal(n / 10));
        assert forall|i: int| 0 <= i < s.len() implies is_digit(#[trigger] s[i]) by {
            if i < s.len() - 1 {
                assert(s[i] == decimal(n / 10)[i]);
            }
        }
    } else {
        let s = decimal(n);
        assert(s.drop_last() =~= Seq::empty());
        reveal_with_fuel(value_of, 2);
    }
}

fn digit_text(d: u64) -> (s: &'static str)
    requires
        d < 10,
    ensures
        s@ == seq![digit_char(d as int)],
{
    proof {
        reveal_strlit("0");
        reveal_strlit("1");
        reveal_strlit("2");
        reveal_strlit("3");
        reveal_strlit("4");
        reveal_strlit("5");
        reveal_strlit("6");
        reveal_strlit("7");
        reveal_strlit("8");
        reveal_strlit("9");
    }
    let s: &'static str = if d == 0 {
        "0"
    } else if d == 1 {
        "1"
    } else if d == 2 {
        "2"
    } else if d == 3 {
        "3"
    } else if d == 4 {
        "4"
    } else if d == 5 {
        "5"
    } else if d == 6 {
        "6"
    } else if d == 7 {
        "7"
    } else if d == 8 {
        "8"
    } else {
        "9"
    };
    assert(s@ =~= seq![digit_char(d as int)]);
    s
}

/// A number in decimal digits.
pub fn decimal_text(n: u64) -> (s: String)
    ensures
        s@ == decimal(n as nat),
    decreases n,
{
    if n < 10 {
        let mut s: String = String::new();
        s.append(digit_text(n));
        assert(s@ =~= decimal(n as nat));
        s
    } else {
        let mut s: String = decimal_text(n / 10);
        s.append(digit_text(n % 10));
        assert(s@ =~= decimal(n as nat));
        s
    }
}

/// Two numbers in a sentence: what stands before, between and after them.
pub fn sentence(before: &str, a: u64, between: &str, b: u64, after: &str) -> (s: String)
    ensures
        s@ == before@ + decimal(a as nat) + between@ + decimal(b as nat) + after@,
{
    let mut s: String = before.to_owned();
    s.append(decimal_text(a).as_str());
    s.append(between);
    s.append(decimal_text(b).as_str());
    s.append(after);
    s
}

/// A text without the separator is not parted; one that has it is parted at the first: what stands
/// before it holds none, and the two parts round it make the text again.
pub proof fn lemma_parted(before: Seq<char>, c: char, after: Seq<char>)
    requires
        !before.contains(c),
    ensures
        parted_at(before, c) is None,
        parted_at(before.push(c) + after, c) == Some((before, after)),
{
    assert forall|i: int| !first_at(before, c, i) by {
        if 0 <= i < before.len() && before[i] == c {
            assert(before.contains(c));
        }
    }
    let s = before.push(c) + after;
    let n = before.len() as int;
    assert(s[n] == c);
    assert forall|j: int| 0 <= j < n implies #[trigger] s[j] != c by {
        assert(s[j] == before[j]);
        assert(before.contains(before[j]));
    }
    assert(first_at(s, c, n));
    let k = choose|k: int| first_at(s, c, k);
    assert(first_at(s, c, k));
    if k < n {
        assert(s[k] != c);
    } else if n < k {
        assert(s[n] != c);
    }
    assert(s.subrange(0, n) =~= before);
    assert(s.subrange(n + 1, s.len() as int) =~= after);
}

/// A number is read back from its decimal digits, with or without a plus sign before them, as long
/// as it is not above the limit.
pub proof fn lemma_number_of_decimal(n: nat, max: int)
    ensures
        number(decimal(n), max) == (if n <= max { Some(n as int) } else { None }),
        number(seq!['+'] + decimal(n), max) == (if n <= max { Some(n as int) } else { None }),
{
    lemma_decimal_round_trip(n);
    let s = decimal(n);
    assert(is_digit(s[0]));
    let plus = seq!['+'] + s;
    assert(plus.drop_first() =~= s);
}

/// Only digits, after at most one plus sign, are read as a number.
pub proof fn lemma_number_is_digits(s: Seq<char>, max: int, i: int)
    requires
        0 <= i < s.len(),
        number(s, max) is Some,
    ensures
        '0' as u32 <= s[i] as u32 <= '9' as u32 || (i == 0 && s[0] == '+' && s.len() > 1),
{
    let digits = if s[0] == '+' { s.drop_first() } else { s };
    if s[0] == '+' {
        if i > 0 {
            assert(is_digit(digits[i - 1]));
        }
    } else {
        assert(is_digit(digits[i]));
    }
}

/// Trimming takes white space off the two ends and nothing else: what is left neither begins nor
/// ends with white space, and stands in the text with white space alone on either side.
pub proof fn lemma_trimmed(s: Seq<char>) -> (cut: (int, int))
    ensures
        0 <= cut.0 <= cut.1 <= s.len(),
        trimmed(s) == s.subrange(cut.0, cut.1),
        forall|i: int| 0 <= i < cut.0 || cut.1 <= i < s.len() ==> is_space_spec(#[trigger] s[i]),
        trimmed(s).len() > 0 ==> !is_space_spec(trimmed(s)[0]) && !is_space_spec(trimmed(s).last()),
{
    let white = |c: char| is_space_spec(c);
    let cut = lemma_trimmed_by(s, white);
    assert forall|i: int| 0 <= i < cut.0 || cut.1 <= i < s.len() implies is_space_spec(#[trigger] s[i]) by {
        assert(white(s[i]));
    }
    cut
}

proof fn lemma_trimmed_by(s: Seq<char>, white: spec_fn(char) -> bool) -> (cut: (int, int))
    requires
        forall|c: char| #[trigger] white(c) == is_space_spec(c),
    ensures
        0 <= cut.0 <= cut.1 <= s.len(),
        trimmed(s) == s.subrange(cut.0, cut.1),
        forall|i: int| 0 <= i < cut.0 || cut.1 <= i < s.len() ==> white(#[trigger] s[i]),
        trimmed(s).len() > 0 ==> !white(trimmed(s)[0]) && !white(trimmed(s).last()),
    decreases s.len(),
{
    if s.len() == 0 {
        assert(s.subrange(0, 0) =~= s);
        (0, 0)
    } else if white(s[0]) {
        let rest = s.drop_first();
        let inner = lemma_trimmed_by(rest, white);
        assert(rest.subrange(inner.0, inner.1) =~= s.subrange(inner.0 + 1, inner.1 + 1));
        assert forall|i: int| 0 <= i < inner.0 + 1 || inner.1 + 1 <= i < s.len() implies white(#[trigger] s[i]) by {
            if i > 0 {
                assert(rest[i - 1] == s[i]);
            }
        }
        (inner.0 + 1, inner.1 + 1)
    } else if white(s.last()) {
        let rest = s.drop_last();
        let inner = lemma_trimmed_by(rest, white);
        assert(rest.subrange(inner.0, inner.1) =~= s.subrange(inner.0, inner.1));
        assert forall|i: int| 0 <= i < inner.0 || inner.1 <= i < s.len() implies white(#[trigger] s[i]) by {
            if i < s.len() - 1 {
                assert(rest[i] == s[i]);
            }
        }
        inner
    } else {
        assert(s.subrange(0, s.len() as int) =~= s);
        (0, s.len() as int)
    }
}

/// The pieces with the separator between them.
pub open spec fn rejoined(parts: Seq<Seq<char>>, separator: char) -> Seq<char>
    decreases parts.len(),
{
    if parts.len() <= 1 {
        parts[0]
    } else {
        rejoined(parts.drop_last(), separator).push(separator) + parts.last()
    }
}

/// No piece holds the separator, and the pieces with it between them make the text again.
pub proof fn lemma_pieces(s: Seq<char>, separator: char)
    ensures
        forall|i: int| 0 <= i < pieces(s, separator).len() ==> !(#[trigger] pieces(s, separator)[i]).contains(separator),
        rejoined(pieces(s, separator), separator) == s,
    decreases s.len(),
{
    let parts = pieces(s, separator);
    if s.len() == 0 {
        assert(parts[0] =~= s);
    } else {
        let head = s.drop_last();
        lemma_pieces(head, separator);
        lemma_pieces_some(head, separator);
        let rest = pieces(head, separator);
        if s.last() == separator {
            assert(parts.drop_last() =~= rest);
            assert(rejoined(parts, separator) =~= s);
        } else {
            let open = rest.last().push(s.last());
            assert forall|i: int| 0 <= i < parts.len() implies !(#[trigger] parts[i]).contains(separator) by {
                if i < parts.len() - 1 {
                    assert(parts[i] == rest[i]);
                } else if open.contains(separator) {
                    let k = choose|k: int| 0 <= k < open.len() && open[k] == separator;
                    assert(rest.last()[k] == separator);
                    assert(rest[rest.len() - 1].contains(separator));
                }
            }
            if rest.len() == 1 {
                assert(parts[0] =~= open);
                assert(rejoined(rest, separator) == rest[0]);
                assert(rejoined(parts, separator) =~= s);
            } else {
                assert(parts.drop_last() =~= rest.drop_last());
                assert(rejoined(parts, separator) =~= rejoined(rest, separator).push(s.last()));
                assert(head.push(s.last()) =~= s);
            }
        }
    }
}

/// A blank, a tab and the line breaks are white space; no visible character of ASCII is.
pub proof fn lemma_spaces(c: char)
    ensures
        is_space_spec(' ') && is_space_spec('\t') && is_space_spec('\n') && is_space_spec('\r'),
        0x21 <= c as u32 <= 0x7E ==> !is_space_spec(c),
{
}

/// The digits are the ten from zero to nine, and count as what they stand for.
pub proof fn lemma_digits(s: Seq<char>, d: int)
    requires
        0 <= d < 10,
    ensures
        is_digit(digit_char(d)),
        digit_char(d) as u32 == 0x30 + d,
        value_of(s.push(digit_char(d))) == 10 * value_of(s) + d,
        value_of(Seq::empty()) == 0,
        is_digit('0') && is_digit('9') && !is_digit('a') && !is_digit('-') && !is_digit('.'),
{
    assert(s.push(digit_char(d)).drop_last() =~= s);
}

} // verus!
