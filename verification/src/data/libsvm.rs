//! LIBSVM text: a row per line, `label index:value ...`.
//!
//! [`scan`] cuts the text into the numbers it holds, in their order, and finds what is not
//! well formed; the caller reads the numbers, and [`assemble`] makes the matrix of them.

use vstd::prelude::*;

use crate::data::{DMatrix, MetaInfo};
use crate::error::Error;
use crate::text::{
    chars_of, decimal, is_digit, lemma_decimal_round_trip, lemma_number_of_decimal, lemma_parted, number,
    parse_number, parted_at, pieces, split, split_once, text_of, texts,
};

verus! {

/// White space between tokens.
pub open spec fn is_gap_spec(c: char) -> bool {
    let x = c as u32;
    x == 0x20 || x == 0x09 || x == 0x0A || x == 0x0C || x == 0x0D
}

fn is_gap(c: char) -> (yes: bool)
    ensures
        yes == is_gap_spec(c),
{
    let x: u32 = c as u32;
    x == 0x20 || x == 0x09 || x == 0x0A || x == 0x0C || x == 0x0D
}

/// The tokens of a line: the runs of characters between its gaps.
pub open spec fn tokens(line: Seq<char>) -> Seq<Seq<char>>
    decreases line.len(),
{
    if line.len() == 0 {
        Seq::empty()
    } else {
        let rest = tokens(line.drop_last());
        let c = line.last();
        if is_gap_spec(c) {
            rest
        } else if line.len() == 1 || is_gap_spec(line[line.len() - 2]) {
            rest.push(seq![c])
        } else {
            rest.drop_last().push(rest.last().push(c))
        }
    }
}

/// Cut a line into its tokens.
fn split_tokens(line: &Vec<char>) -> (out: Vec<Vec<char>>)
    ensures
        texts(out@) == tokens(line@),
{
    let mut out: Vec<Vec<char>> = Vec::new();
    let mut open: Vec<char> = Vec::new();
    let mut inside: bool = false;
    let mut i: usize = 0;
    assert(line@.subrange(0, 0) =~= Seq::empty());
    assert(texts(out@) =~= tokens(Seq::empty()));
    while i < line.len()
        invariant
            i <= line.len(),
            inside == (i > 0 && !is_gap_spec(line[i - 1])),
            inside ==> texts(out@).push(open@) == tokens(line@.subrange(0, i as int)),
            !inside ==> texts(out@) == tokens(line@.subrange(0, i as int)) && open.len() == 0,
        decreases line.len() - i,
    {
        let c: char = line[i];
        let ghost head = line@.subrange(0, i as int);
        let ghost next = line@.subrange(0, i + 1);
        let ghost was = texts(out@);
        let ghost before = open@;
        proof {
            assert(next.drop_last() =~= head);
            assert(next.last() == c);
            if i > 0 {
                assert(next[next.len() - 2] == line[i - 1]);
            }
        }
        if is_gap(c) {
            if inside {
                out.push(open);
                open = Vec::new();
                assert(texts(out@) =~= was.push(before));
            }
            inside = false;
        } else {
            open.push(c);
            proof {
                if inside {
                    let rest = was.push(before);
                    assert(rest.drop_last() =~= was);
                    assert(texts(out@).push(open@) =~= rest.drop_last().push(rest.last().push(c)));
                } else {
                    assert(open@ =~= seq![c]);
                    assert(texts(out@).push(open@) =~= was.push(seq![c]));
                }
            }
            inside = true;
        }
        i += 1;
    }
    assert(line@.subrange(0, line.len() as int) =~= line@);
    if inside {
        let ghost was = texts(out@);
        let ghost last = open@;
        out.push(open);
        assert(texts(out@) =~= was.push(last));
    }
    out
}

/// A number in the text: the line and the token that hold it, and its own characters.
#[derive(Clone, Debug)]
pub struct NumberText {
    pub line: usize,
    pub token: Vec<char>,
    pub digits: Vec<char>,
}

/// What a number is, apart from how it is held.
pub ghost struct NumberView {
    pub line: int,
    pub token: Seq<char>,
    pub digits: Seq<char>,
}

impl NumberText {
    pub open spec fn view(&self) -> NumberView {
        NumberView { line: self.line as int, token: self.token@, digits: self.digits@ }
    }
}

/// The entry that a token names: an index, and the characters of the value.
pub open spec fn entry(token: Seq<char>) -> Option<(int, Seq<char>)> {
    match parted_at(token, ':') {
        Some((index, value)) => match number(index, usize::MAX as int) {
            Some(k) => Some((k, value)),
            None => None,
        },
        None => None,
    }
}

/// What a text holds, as far as it is well formed.
pub ghost struct TextView {
    /// The labels, one per row.
    pub labels: Seq<NumberView>,
    /// Where each row's entries begin, and where the last row's end.
    pub row_ptr: Seq<int>,
    /// The entries' columns.
    pub index: Seq<int>,
    /// The entries' values.
    pub values: Seq<NumberView>,
    /// The first token that is not well formed, and its line.
    pub stray: Option<(int, Seq<char>)>,
}

/// A text without lines.
pub open spec fn empty_text() -> TextView {
    TextView {
        labels: Seq::empty(),
        row_ptr: seq![0int],
        index: Seq::empty(),
        values: Seq::empty(),
        stray: None,
    }
}

/// One more token of a row.
pub open spec fn add_token(t: TextView, line: int, token: Seq<char>) -> TextView {
    if t.stray is Some {
        t
    } else {
        match entry(token) {
            Some((k, value)) => TextView {
                index: t.index.push(k),
                values: t.values.push(NumberView { line, token, digits: value }),
                ..t
            },
            None => TextView { stray: Some((line, token)), ..t },
        }
    }
}

/// The first `n` tokens of a row after its label.
pub open spec fn add_tokens(t: TextView, line: int, toks: Seq<Seq<char>>, n: int) -> TextView
    decreases n,
{
    if n <= 1 {
        TextView { labels: t.labels.push(NumberView { line, token: toks[0], digits: toks[0] }), ..t }
    } else {
        add_token(add_tokens(t, line, toks, n - 1), line, toks[n - 1])
    }
}

/// One more line: nothing where it is blank or follows a token that is not well formed.
pub open spec fn add_line(t: TextView, line: int, content: Seq<char>) -> TextView {
    let toks = tokens(content);
    if t.stray is Some || toks.len() == 0 {
        t
    } else {
        let row = add_tokens(t, line, toks, toks.len() as int);
        if row.stray is Some {
            row
        } else {
            TextView { row_ptr: row.row_ptr.push(row.index.len() as int), ..row }
        }
    }
}

/// The first `n` lines; lines count from one.
pub open spec fn add_lines(lines: Seq<Seq<char>>, n: int) -> TextView
    decreases n,
{
    if n <= 0 {
        empty_text()
    } else {
        add_line(add_lines(lines, n - 1), n, lines[n - 1])
    }
}

/// What a text holds.
pub open spec fn text_view(text: Seq<char>) -> TextView {
    add_lines(pieces(text, '\n'), pieces(text, '\n').len() as int)
}

/// A text cut into its numbers.
#[derive(Clone, Debug)]
pub struct LibsvmText {
    pub labels: Vec<NumberText>,
    pub row_ptr: Vec<usize>,
    pub index: Vec<usize>,
    pub values: Vec<NumberText>,
    pub stray: Option<(usize, Vec<char>)>,
}

/// The numbers, apart from how they are held.
pub open spec fn numbers(texts: Seq<NumberText>) -> Seq<NumberView> {
    Seq::new(texts.len(), |i: int| texts[i].view())
}

impl LibsvmText {
    pub open spec fn view(&self) -> TextView {
        TextView {
            labels: numbers(self.labels@),
            row_ptr: Seq::new(self.row_ptr@.len(), |i: int| self.row_ptr[i] as int),
            index: Seq::new(self.index@.len(), |i: int| self.index[i] as int),
            values: numbers(self.values@),
            stray: match self.stray {
                Some((line, token)) => Some((line as int, token@)),
                None => None,
            },
        }
    }

    /// As many rows begin as there are labels, one of them perhaps cut short; and as many
    /// values as columns.
    pub open spec fn wf(&self) -> bool {
        &&& self.row_ptr.len() >= 1
        &&& self.row_ptr[0] == 0
        &&& self.values.len() == self.index.len()
        &&& forall|a: int, b: int|
            0 <= a <= b < self.row_ptr.len() ==> #[trigger] self.row_ptr[a] <= #[trigger] self.row_ptr[b]
        &&& self.row_ptr@.last() <= self.index.len()
        &&& self.labels.len() <= self.row_ptr.len()
        &&& self.stray is None ==> self.row_ptr.len() == self.labels.len() + 1 && self.row_ptr@.last()
            == self.index.len()
    }
}

/// The same characters again.
fn copy_chars(s: &Vec<char>) -> (copy: Vec<char>)
    ensures
        copy@ == s@,
{
    let copy: Vec<char> = crate::text::slice_of(s, 0, s.len());
    assert(s@.subrange(0, s.len() as int) =~= s@);
    copy
}

/// Take in one line.
fn scan_line(out: &mut LibsvmText, line: usize, content: &Vec<char>)
    requires
        old(out).wf(),
        old(out).stray is None,
    ensures
        final(out).wf(),
        final(out).view() == add_line(old(out).view(), line as int, content@),
{
    let ghost was = out.view();
    let toks: Vec<Vec<char>> = split_tokens(content);
    let ghost all = texts(toks@);
    if toks.len() == 0 {
        return ;
    }
    assert(all[0] == toks[0]@);
    out.labels.push(NumberText { line, token: copy_chars(&toks[0]), digits: copy_chars(&toks[0]) });
    proof {
        assert(out.view().labels =~= was.labels.push(NumberView { line: line as int, token: all[0], digits: all[0] }));
        assert(out.view() == add_tokens(was, line as int, all, 1));
    }
    let mut i: usize = 1;
    while i < toks.len()
        invariant
            all == texts(toks@),
            1 <= i <= toks.len(),
            out.stray is None,
            out.row_ptr.len() >= 1,
            out.row_ptr[0] == 0,
            out.row_ptr.len() == out.labels.len(),
            out.values.len() == out.index.len(),
            forall|a: int, b: int|
                0 <= a <= b < out.row_ptr.len() ==> #[trigger] out.row_ptr[a] <= #[trigger] out.row_ptr[b],
            out.row_ptr@.last() <= out.index.len(),
            out.view() == add_tokens(was, line as int, all, i as int),
            was.stray is None,
            was == old(out).view(),
            all == tokens(content@),
        decreases toks.len() - i,
    {
        let token: &Vec<char> = &toks[i];
        let ghost before = out.view();
        assert(all[i as int] == token@);
        let mut good: Option<(u64, Vec<char>)> = None;
        match split_once(token, ':') {
            Some((k, v)) => match parse_number(&k, usize::MAX as u64) {
                Some(index) => {
                    good = Some((index, v));
                },
                None => {},
            },
            None => {},
        }
        match good {
            Some((k, v)) => {
                out.index.push(k as usize);
                let ghost digits = v@;
                out.values.push(NumberText { line, token: copy_chars(token), digits: v });
                proof {
                    assert(out.view().index =~= before.index.push(k as int));
                    assert(out.view().values =~= before.values.push(
                        NumberView { line: line as int, token: token@, digits },
                    ));
                    assert(out.view() == add_token(before, line as int, token@));
                }
            },
            None => {
                out.stray = Some((line, copy_chars(token)));
                proof {
                    assert(out.view() == add_token(before, line as int, token@));
                    lemma_stray_stays(was, line as int, all, i + 1, all.len() as int);
                }
                return ;
            },
        }
        i += 1;
    }
    let ghost row = out.view();
    out.row_ptr.push(out.index.len());
    proof {
        assert(out.view().row_ptr =~= row.row_ptr.push(row.index.len() as int));
    }
}

/// What follows a token that is not well formed is not looked at.
proof fn lemma_stray_stays(t: TextView, line: int, toks: Seq<Seq<char>>, n: int, m: int)
    requires
        1 <= n <= m,
        add_tokens(t, line, toks, n).stray is Some,
        t.stray is None,
    ensures
        add_tokens(t, line, toks, m) == add_tokens(t, line, toks, n),
    decreases m,
{
    if n < m {
        lemma_stray_stays(t, line, toks, n, m - 1);
    }
}

proof fn lemma_lines_stay(lines: Seq<Seq<char>>, n: int, m: int)
    requires
        0 <= n <= m,
        add_lines(lines, n).stray is Some,
    ensures
        add_lines(lines, m) == add_lines(lines, n),
    decreases m,
{
    if n < m {
        lemma_lines_stay(lines, n, m - 1);
    }
}

/// Cut a text into its numbers, up to the first token that is not well formed.
pub fn scan(text: &str) -> (out: LibsvmText)
    ensures
        out.wf(),
        out.view() == text_view(text@),
{
    let lines: Vec<Vec<char>> = split(&chars_of(text), '\n');
    let ghost all = texts(lines@);
    let mut row_ptr: Vec<usize> = Vec::new();
    row_ptr.push(0);
    let mut out = LibsvmText {
        labels: Vec::new(),
        row_ptr,
        index: Vec::new(),
        values: Vec::new(),
        stray: None,
    };
    proof {
        assert(out.view().labels =~= Seq::empty());
        assert(out.view().row_ptr =~= seq![0int]);
        assert(out.view().index =~= Seq::empty());
        assert(out.view().values =~= Seq::empty());
    }
    let mut i: usize = 0;
    while i < lines.len()
        invariant
            all == texts(lines@),
            all == pieces(text@, '\n'),
            i <= lines.len(),
            out.wf(),
            out.stray is None,
            out.view() == add_lines(all, i as int),
        decreases lines.len() - i,
    {
        assert(all[i as int] == lines[i as int]@);
        scan_line(&mut out, i + 1, &lines[i]);
        if out.stray.is_some() {
            proof {
                lemma_lines_stay(all, i + 1, all.len() as int);
            }
            return out;
        }
        i += 1;
    }
    out
}

/// The position of the first number that the caller could not read.
pub open spec fn first_unread(bits: Seq<Option<u32>>, i: int) -> bool {
    &&& 0 <= i < bits.len()
    &&& bits[i] is None
    &&& forall|j: int| 0 <= j < i ==> #[trigger] bits[j] is Some
}

/// The numbers of a text in the order they stand in: each row's label, then its values.
pub open spec fn in_order(t: TextView, rows: int) -> Seq<NumberView>
    decreases rows,
{
    if rows <= 0 {
        Seq::empty()
    } else {
        let end = if rows < t.row_ptr.len() {
            t.row_ptr[rows]
        } else {
            t.values.len() as int
        };
        in_order(t, rows - 1).push(t.labels[rows - 1]) + t.values.subrange(t.row_ptr[rows - 1], end)
    }
}

impl LibsvmText {
    /// The numbers in the order they stand in the text, to be read by the caller.
    pub fn numbers(&self) -> (out: Vec<NumberText>)
        requires
            self.wf(),
        ensures
            numbers(out@) == in_order(self.view(), self.labels.len() as int),
    {
        let ghost t = self.view();
        let mut out: Vec<NumberText> = Vec::new();
        let mut r: usize = 0;
        assert(numbers(out@) =~= in_order(t, 0));
        while r < self.labels.len()
            invariant
                self.wf(),
                t == self.view(),
                r <= self.labels.len(),
                numbers(out@) == in_order(t, r as int),
            decreases self.labels.len() - r,
        {
            let ghost before = numbers(out@);
            out.push(copy_number(&self.labels[r]));
            let begin: usize = self.row_ptr[r];
            let end: usize = if r + 1 < self.row_ptr.len() {
                self.row_ptr[r + 1]
            } else {
                self.values.len()
            };
            proof {
                assert(numbers(out@) =~= before.push(t.labels[r as int]));
                if r + 1 < self.row_ptr.len() {
                    assert(self.row_ptr[r as int] <= self.row_ptr[r + 1]);
                    assert(self.row_ptr[r + 1] <= self.row_ptr[self.row_ptr.len() - 1]);
                }
                assert(self.row_ptr[r as int] <= self.row_ptr[self.row_ptr.len() - 1]);
            }
            let ghost head = numbers(out@);
            let mut k: usize = begin;
            assert(head + t.values.subrange(begin as int, begin as int) =~= head);
            while k < end
                invariant
                    self.wf(),
                    t == self.view(),
                    begin <= k <= end <= self.values.len(),
                    numbers(out@) == head + t.values.subrange(begin as int, k as int),
                decreases end - k,
            {
                let ghost was = numbers(out@);
                out.push(copy_number(&self.values[k]));
                proof {
                    assert(numbers(out@) =~= was.push(t.values[k as int]));
                    assert(t.values.subrange(begin as int, k + 1) =~= t.values.subrange(begin as int, k as int).push(
                        t.values[k as int],
                    ));
                    assert(numbers(out@) =~= head + t.values.subrange(begin as int, k + 1));
                }
                k += 1;
            }
            assert(t.row_ptr[r as int] == begin);
            r += 1;
        }
        out
    }
}

fn copy_number(n: &NumberText) -> (copy: NumberText)
    ensures
        copy.view() == n.view(),
{
    NumberText { line: n.line, token: copy_chars(&n.token), digits: copy_chars(&n.digits) }
}

/// The largest column of the first `n` entries, plus one.
pub open spec fn columns_of(index: Seq<int>, n: int) -> int
    decreases n,
{
    if n <= 0 {
        0
    } else {
        let rest = columns_of(index, n - 1);
        if index[n - 1] + 1 > rest {
            index[n - 1] + 1
        } else {
            rest
        }
    }
}

/// The error that a token gives.
pub open spec fn complains(e: Error, line: int, token: Seq<char>) -> bool {
    e matches Error::LibsvmParse { line: l, token: t } && l == line && t@ == token
}

/// The bits of the labels, and of the values, once all are read.
pub open spec fn label_at(t: TextView, r: int) -> int {
    in_order(t, r).len() as int
}

pub open spec fn value_at(t: TextView, r: int, k: int) -> int {
    in_order(t, r).len() + 1 + (k - t.row_ptr[r])
}

/// The matrix of a text whose numbers were read: `bits[i]` is the number that
/// [`LibsvmText::numbers`] lists at `i`, nothing where it is none. The column count is the
/// largest column plus one; of a column only the low 32 bits are kept.
///
/// The first number that could not be read is an error, and so is the token at which the
/// scan ended, which stands after all of them.
pub fn assemble(text: &LibsvmText, bits: &[Option<u32>]) -> (result: Result<DMatrix, Error>)
    requires
        text.wf(),
        bits.len() == in_order(text.view(), text.labels.len() as int).len(),
        forall|k: int| 0 <= k < text.index.len() ==> #[trigger] text.index[k] < usize::MAX,
    ensures
        (exists|i: int| #[trigger] first_unread(bits@, i)) ==> result is Err && exists|i: int|
            #[trigger] first_unread(bits@, i) && complains(
                result->Err_0,
                in_order(text.view(), text.labels.len() as int)[i].line,
                in_order(text.view(), text.labels.len() as int)[i].token,
            ),
        (forall|i: int| 0 <= i < bits.len() ==> #[trigger] bits[i] is Some) && text.stray is Some ==> result is Err
            && match text.stray {
            Some((line, token)) => complains(result->Err_0, line as int, token@),
            None => true,
        },
        (forall|i: int| 0 <= i < bits.len() ==> #[trigger] bits[i] is Some) && text.stray is None ==> result is Ok,
        result matches Ok(d) ==> {
            let t = text.view();
            &&& d.wf()
            &&& d.info.num_row == text.labels.len()
            &&& d.info.num_col == columns_of(t.index, t.index.len() as int)
            &&& d.info.weights is None
            &&& d.info.base_margin is None
            &&& d.row_ptr@ == text.row_ptr@
            &&& d.index.len() == text.index.len()
            &&& forall|k: int| 0 <= k < d.index.len() ==> #[trigger] d.index[k] == text.index[k] as int % 0x1_0000_0000
            &&& d.info.labels.len() == text.labels.len()
            &&& forall|r: int|
                0 <= r < d.info.num_row ==> #[trigger] d.info.labels[r] == bits[label_at(t, r)]->0
            &&& forall|r: int, k: int|
                0 <= r < d.info.num_row && #[trigger] d.in_row(r, k) ==> d.value[k] == bits[value_at(t, r, k)]->0
        },
{
    let ghost t = text.view();
    let ghost rows = text.labels.len() as int;
    let mut i: usize = 0;
    while i < bits.len()
        invariant
            text.wf(),
            t == text.view(),
            rows == text.labels.len(),
            bits.len() == in_order(t, rows).len(),
            i <= bits.len(),
            forall|j: int| 0 <= j < i ==> #[trigger] bits[j] is Some,
        decreases bits.len() - i,
    {
        if bits[i].is_none() {
            let all: Vec<NumberText> = text.numbers();
            let n: &NumberText = &all[i];
            proof {
                assert(first_unread(bits@, i as int));
                assert(numbers(all@)[i as int] == all[i as int].view());
            }
            return Err(Error::LibsvmParse { line: n.line, token: text_of(&n.token) });
        }
        i += 1;
    }
    assert forall|k: int| !first_unread(bits@, k) by {
        if 0 <= k < bits.len() {
            assert(bits[k] is Some);
        }
    }
    match &text.stray {
        Some((line, token)) => {
            return Err(Error::LibsvmParse { line: *line, token: text_of(token) });
        },
        None => {},
    }
    let mut labels: Vec<u32> = Vec::with_capacity(text.labels.len());
    let mut value: Vec<u32> = Vec::with_capacity(text.values.len());
    let mut at: usize = 0;
    let mut r: usize = 0;
    while r < text.labels.len()
        invariant
            text.wf(),
            text.stray is None,
            t == text.view(),
            rows == text.labels.len(),
            bits.len() == in_order(t, rows).len(),
            forall|j: int| 0 <= j < bits.len() ==> #[trigger] bits[j] is Some,
            r <= text.labels.len(),
            at == in_order(t, r as int).len(),
            at <= bits.len(),
            labels.len() == r,
            value.len() == text.row_ptr[r as int],
            forall|q: int| 0 <= q < r ==> #[trigger] labels[q] == bits[label_at(t, q)]->0,
            forall|q: int, k: int|
                0 <= q < r && text.row_ptr[q] <= k < text.row_ptr[q + 1] ==> value[k] == bits[#[trigger] value_at(t, q, k)]->0,
        decreases text.labels.len() - r,
    {
        let begin: usize = text.row_ptr[r];
        let end: usize = text.row_ptr[r + 1];
        proof {
            assert(text.row_ptr[r as int] <= text.row_ptr[r + 1]);
            assert(text.row_ptr[r + 1] <= text.row_ptr[text.row_ptr.len() - 1]);
            lemma_order_len(t, r as int);
            lemma_order_grows(t, r + 1, rows);
            assert(t.row_ptr[r as int] == begin && t.row_ptr[r + 1] == end);
            assert(in_order(t, r + 1).len() == in_order(t, r as int).len() + 1 + (end - begin));
            assert(bits[at as int] is Some);
        }
        match bits[at] {
            Some(b) => labels.push(b),
            None => {},
        }
        at += 1;
        let mut k: usize = begin;
        while k < end
            invariant
                t == text.view(),
                text.wf(),
                text.stray is None,
                rows == text.labels.len(),
                r < text.labels.len(),
                begin == text.row_ptr[r as int],
                end == text.row_ptr[r + 1],
                t.row_ptr[r as int] == begin,
                begin <= k <= end,
                at == in_order(t, r as int).len() + 1 + (k - begin),
                in_order(t, r as int).len() + 1 + (end - begin) <= bits.len(),
                forall|j: int| 0 <= j < bits.len() ==> #[trigger] bits[j] is Some,
                value.len() == k,
                forall|q: int, x: int|
                    0 <= q < r && text.row_ptr[q] <= x < text.row_ptr[q + 1] ==> value[x] == bits[#[trigger] value_at(
                        t,
                        q,
                        x,
                    )]->0,
                forall|x: int| begin <= x < k ==> value[x] == bits[#[trigger] value_at(t, r as int, x)]->0,
            decreases end - k,
        {
            let ghost was = value@;
            assert(bits[at as int] is Some);
            match bits[at] {
                Some(b) => value.push(b),
                None => {},
            }
            proof {
                assert forall|q: int, x: int| 0 <= q < r && text.row_ptr[q] <= x < text.row_ptr[q + 1] implies value[x]
                    == bits[#[trigger] value_at(t, q, x)]->0 by {
                    assert(text.row_ptr[q + 1] <= text.row_ptr[r as int]);
                    assert(was[x] == bits[value_at(t, q, x)]->0);
                }
                assert forall|x: int| begin <= x < k + 1 implies value[x] == bits[#[trigger] value_at(t, r as int, x)]->0 by {
                    if x < k {
                        assert(was[x] == bits[value_at(t, r as int, x)]->0);
                    }
                }
            }
            at += 1;
            k += 1;
        }
        r += 1;
    }
    let mut index: Vec<u32> = Vec::with_capacity(text.index.len());
    let mut ncol: usize = 0;
    let mut k: usize = 0;
    while k < text.index.len()
        invariant
            t == text.view(),
            forall|k: int| 0 <= k < text.index.len() ==> #[trigger] text.index[k] < usize::MAX,
            k <= text.index.len(),
            index.len() == k,
            ncol == columns_of(t.index, k as int),
            forall|j: int| 0 <= j < k ==> #[trigger] index[j] == text.index[j] as int % 0x1_0000_0000,
            forall|j: int| 0 <= j < k ==> #[trigger] index[j] < ncol,
        decreases text.index.len() - k,
    {
        let f: usize = text.index[k];
        assert(t.index[k as int] == f);
        index.push((f as u64 % 0x1_0000_0000) as u32);
        if f + 1 > ncol {
            ncol = f + 1;
        }
        k += 1;
    }
    let row_ptr: Vec<usize> = crate::data::gradient_index::copy_sizes(&text.row_ptr);
    let d = DMatrix {
        row_ptr,
        index,
        value,
        info: MetaInfo {
            num_row: text.labels.len(),
            num_col: ncol,
            labels,
            weights: None,
            base_margin: None,
        },
    };
    proof {
        assert forall|r: int, k: int| 0 <= r < rows && #[trigger] d.in_row(r, k) implies d.value[k] == bits[value_at(
            t,
            r,
            k,
        )]->0 by {
            assert(text.row_ptr[r] <= k < text.row_ptr[r + 1]);
        }
    }
    Ok(d)
}

/// A row's numbers are its label and its values.
proof fn lemma_order_len(t: TextView, r: int)
    requires
        0 <= r,
        r + 1 < t.row_ptr.len(),
        0 <= t.row_ptr[r] <= t.row_ptr[r + 1] <= t.values.len(),
    ensures
        in_order(t, r + 1).len() == in_order(t, r).len() + 1 + (t.row_ptr[r + 1] - t.row_ptr[r]),
{
}

proof fn lemma_order_grows(t: TextView, a: int, b: int)
    requires
        0 <= a <= b,
    ensures
        in_order(t, a).len() <= in_order(t, b).len(),
    decreases b,
{
    if a < b {
        lemma_order_grows(t, a, b - 1);
    }
}

impl DMatrix {
    /// The matrix of a LIBSVM text; `bits` are its numbers as [`LibsvmText::numbers`] of its
    /// [`scan`] lists them, nothing for one that is none.
    pub fn from_libsvm_str(text: &str, bits: &[Option<u32>]) -> (result: Result<Self, Error>)
        requires
            bits.len() == in_order(text_view(text@), text_view(text@).labels.len() as int).len(),
            forall|k: int|
                0 <= k < text_view(text@).index.len() ==> #[trigger] text_view(text@).index[k] < usize::MAX,
        ensures
            ({
                let t = text_view(text@);
                let all = in_order(t, t.labels.len() as int);
                let read = forall|i: int| 0 <= i < bits.len() ==> #[trigger] bits[i] is Some;
                &&& result is Ok <==> read && t.stray is None
                &&& result matches Err(e) ==> if read {
                    match t.stray {
                        Some((line, token)) => complains(e, line, token),
                        None => true,
                    }
                } else {
                    exists|i: int| #[trigger] first_unread(bits@, i) && complains(e, all[i].line, all[i].token)
                }
                &&& result matches Ok(d) ==> {
                    &&& d.wf()
                    &&& d.info.num_row == t.labels.len()
                    &&& d.info.num_col == columns_of(t.index, t.index.len() as int)
                    &&& d.info.labels.len() == t.labels.len()
                    &&& d.index.len() == t.index.len()
                    &&& forall|r: int| 0 <= r < d.row_ptr.len() ==> #[trigger] d.row_ptr[r] == t.row_ptr[r]
                    &&& forall|k: int| 0 <= k < d.index.len() ==> #[trigger] d.index[k] == t.index[k] % 0x1_0000_0000
                    &&& forall|r: int|
                        0 <= r < d.info.num_row ==> #[trigger] d.info.labels[r] == bits[label_at(t, r)]->0
                    &&& forall|r: int, k: int|
                        0 <= r < d.info.num_row && #[trigger] d.in_row(r, k) ==> d.value[k] == bits[value_at(t, r, k)]->0
                }
            }),
    {
        let scanned: LibsvmText = scan(text);
        proof {
            let t = text_view(text@);
            assert(t.labels.len() == scanned.labels.len());
            assert forall|k: int| 0 <= k < scanned.index.len() implies #[trigger] scanned.index[k] < usize::MAX by {
                assert(t.index[k] == scanned.index[k]);
                assert(t.index[k] < usize::MAX);
            }
            if !(forall|i: int| 0 <= i < bits.len() ==> #[trigger] bits[i] is Some) {
                lemma_some_unread(bits@, bits.len() as int);
            }
        }
        let result: Result<Self, Error> = assemble(&scanned, bits);
        proof {
            let t = text_view(text@);
            if result is Ok {
                let d = result->Ok_0;
                assert forall|r: int| 0 <= r < d.row_ptr.len() implies #[trigger] d.row_ptr[r] == t.row_ptr[r] by {
                    assert(t.row_ptr[r] == scanned.row_ptr[r]);
                }
                assert forall|k: int| 0 <= k < d.index.len() implies #[trigger] d.index[k] == t.index[k] % 0x1_0000_0000 by {
                    assert(t.index[k] == scanned.index[k]);
                }
            }
        }
        result
    }
}

/// Where a number was not read there is a first such.
proof fn lemma_some_unread(bits: Seq<Option<u32>>, n: int)
    requires
        0 <= n <= bits.len(),
        exists|i: int| 0 <= i < n && #[trigger] bits[i] is None,
    ensures
        exists|i: int| #[trigger] first_unread(bits, i),
    decreases n,
{
    if exists|i: int| 0 <= i < n - 1 && #[trigger] bits[i] is None {
        lemma_some_unread(bits, n - 1);
    } else {
        assert(first_unread(bits, n - 1));
    }
}

/// A number in decimal digits, a colon and a value make an entry of that column and that value; a
/// token without a colon makes none.
pub proof fn lemma_entry(k: nat, value: Seq<char>)
    requires
        k <= usize::MAX,
    ensures
        entry(decimal(k).push(':') + value) == Some((k as int, value)),
        entry(decimal(k)) is None,
{
    lemma_decimal_round_trip(k);
    let digits = decimal(k);
    if digits.contains(':') {
        let i = choose|i: int| 0 <= i < digits.len() && digits[i] == ':';
        assert(is_digit(digits[i]));
    }
    lemma_parted(digits, ':', value);
    lemma_number_of_decimal(k, usize::MAX as int);
}

/// A word is one token, and a gap and a word after a line add the word as a token of its own; a gap
/// alone adds none.
pub proof fn lemma_tokens(line: Seq<char>, gap: char, word: Seq<char>)
    requires
        is_gap_spec(gap),
        word.len() > 0,
        forall|i: int| 0 <= i < word.len() ==> !is_gap_spec(#[trigger] word[i]),
    ensures
        tokens(line.push(gap)) == tokens(line),
        tokens(line.push(gap) + word) == tokens(line).push(word),
        tokens(word) == seq![word],
{
    assert(line.push(gap).drop_last() =~= line);
    let before = line.push(gap);
    lemma_tokens_after(before, word);
    let none: Seq<char> = Seq::empty();
    lemma_tokens_after(none, word);
    assert(none + word =~= word);
    assert(tokens(none) =~= Seq::empty());
    assert(tokens(word) =~= seq![word]);
}

proof fn lemma_tokens_after(before: Seq<char>, word: Seq<char>)
    requires
        before.len() == 0 || is_gap_spec(before.last()),
        word.len() > 0,
        forall|i: int| 0 <= i < word.len() ==> !is_gap_spec(#[trigger] word[i]),
    ensures
        tokens(before + word) == tokens(before).push(word),
    decreases word.len(),
{
    let line = before + word;
    let head = word.drop_last();
    assert(line.last() == word.last());
    assert(!is_gap_spec(word[word.len() - 1]));
    assert(line.drop_last() =~= before + head);
    if head.len() == 0 {
        assert(before + head =~= before);
        assert(word =~= seq![word.last()]);
        if line.len() > 1 {
            assert(line[line.len() - 2] == before.last());
        }
        assert(tokens(line) =~= tokens(before).push(word));
    } else {
        assert forall|i: int| 0 <= i < head.len() implies !is_gap_spec(#[trigger] head[i]) by {
            assert(head[i] == word[i]);
        }
        lemma_tokens_after(before, head);
        assert(line[line.len() - 2] == word[word.len() - 2]);
        assert(!is_gap_spec(word[word.len() - 2]));
        let rest = tokens(before).push(head);
        assert(rest.last() == head);
        assert(rest.drop_last() =~= tokens(before));
        assert(head.push(word.last()) =~= word);
        assert(tokens(line) =~= tokens(before).push(word));
    }
}

/// A line without tokens adds nothing. Any other adds a row: its first token is the label, and where
/// every other is an entry their columns and values are added in order, and the row ends with them.
pub proof fn lemma_line(t: TextView, line: int, content: Seq<char>, i: int)
    requires
        t.stray is None,
        t.values.len() == t.index.len(),
    ensures
        tokens(content).len() == 0 ==> add_line(t, line, content) == t,
        tokens(content).len() > 0 && (forall|k: int|
            1 <= k < tokens(content).len() ==> entry(#[trigger] tokens(content)[k]) is Some) ==> {
            let toks = tokens(content);
            let now = add_line(t, line, content);
            &&& now.stray is None
            &&& now.labels == t.labels.push(NumberView { line, token: toks[0], digits: toks[0] })
            &&& now.index.len() == t.index.len() + toks.len() - 1 && now.values.len() == now.index.len()
            &&& now.row_ptr == t.row_ptr.push(now.index.len() as int)
            &&& 1 <= i < toks.len() ==> entry(toks[i]) == Some(
                (now.index[t.index.len() + i - 1], now.values[t.index.len() + i - 1].digits),
            ) && now.values[t.index.len() + i - 1].line == line && now.values[t.index.len() + i - 1].token == toks[i]
        },
{
    let toks = tokens(content);
    if toks.len() > 0 && (forall|k: int| 1 <= k < toks.len() ==> entry(#[trigger] toks[k]) is Some) {
        lemma_line_upto(t, line, toks, toks.len() as int, i);
    }
}

proof fn lemma_line_upto(t: TextView, line: int, toks: Seq<Seq<char>>, n: int, i: int)
    requires
        t.stray is None,
        t.values.len() == t.index.len(),
        1 <= n <= toks.len(),
        forall|k: int| 1 <= k < toks.len() ==> entry(#[trigger] toks[k]) is Some,
    ensures
        ({
            let now = add_tokens(t, line, toks, n);
            &&& now.stray is None
            &&& now.labels == t.labels.push(NumberView { line, token: toks[0], digits: toks[0] })
            &&& now.index.len() == t.index.len() + n - 1 && now.values.len() == now.index.len()
            &&& now.row_ptr == t.row_ptr
            &&& 1 <= i < n ==> entry(toks[i]) == Some(
                (now.index[t.index.len() + i - 1], now.values[t.index.len() + i - 1].digits),
            ) && now.values[t.index.len() + i - 1].line == line && now.values[t.index.len() + i - 1].token == toks[i]
        }),
    decreases n,
{
    if n > 1 {
        lemma_line_upto(t, line, toks, n - 1, i);
        assert(entry(toks[n - 1]) is Some);
    }
}

/// The first token of a line that should be an entry and is not is what the text is refused for, and
/// nothing after it is read.
pub proof fn lemma_stray(t: TextView, line: int, content: Seq<char>, bad: int, next: Seq<char>)
    requires
        t.stray is None,
        1 <= bad < tokens(content).len(),
        entry(tokens(content)[bad]) is None,
        forall|k: int| 1 <= k < bad ==> entry(#[trigger] tokens(content)[k]) is Some,
    ensures
        add_line(t, line, content).stray == Some((line, tokens(content)[bad])),
        add_line(add_line(t, line, content), line + 1, next) == add_line(t, line, content),
{
    lemma_stray_upto(t, line, tokens(content), bad, tokens(content).len() as int);
}

proof fn lemma_stray_upto(t: TextView, line: int, toks: Seq<Seq<char>>, bad: int, n: int)
    requires
        t.stray is None,
        1 <= bad < toks.len(),
        1 <= n <= toks.len(),
        entry(toks[bad]) is None,
        forall|k: int| 1 <= k < bad ==> entry(#[trigger] toks[k]) is Some,
    ensures
        n <= bad ==> add_tokens(t, line, toks, n).stray is None,
        n > bad ==> add_tokens(t, line, toks, n).stray == Some((line, toks[bad])),
    decreases n,
{
    if n > 1 {
        lemma_stray_upto(t, line, toks, bad, n - 1);
        if n - 1 < bad {
            assert(entry(toks[n - 1]) is Some);
        }
    }
}

/// A matrix has one column more than the largest that an entry names, and none without entries.
pub proof fn lemma_columns_of(index: Seq<int>, n: int, k: int)
    requires
        0 <= k < n <= index.len(),
        forall|i: int| 0 <= i < index.len() ==> #[trigger] index[i] >= 0,
    ensures
        index[k] < columns_of(index, n),
        exists|i: int| 0 <= i < n && #[trigger] index[i] + 1 == columns_of(index, n),
        columns_of(index, 0) == 0,
    decreases n,
{
    assert(index[n - 1] >= 0);
    if n > 1 {
        lemma_columns_of(index, n - 1, if k < n - 1 { k } else { 0 });
        let i = choose|i: int| 0 <= i < n - 1 && #[trigger] index[i] + 1 == columns_of(index, n - 1);
        assert(index[i] + 1 == columns_of(index, n - 1));
    } else {
        assert(columns_of(index, 0) == 0);
    }
}

/// The numbers of a text are read row by row, each row's label before its values.
pub proof fn lemma_numbers_in_order(t: TextView, r: int, k: int)
    requires
        0 <= r,
        r + 1 < t.row_ptr.len(),
        0 <= t.row_ptr[r] <= k < t.row_ptr[r + 1] <= t.values.len(),
    ensures
        in_order(t, r + 1)[label_at(t, r)] == t.labels[r],
        in_order(t, r + 1)[value_at(t, r, k)] == t.values[k],
        label_at(t, 0) == 0,
        label_at(t, r + 1) == value_at(t, r, t.row_ptr[r + 1]),
{
}

/// The lines of a text count from one and are read in order; a text without a line break is one line.
pub proof fn lemma_lines(lines: Seq<Seq<char>>, line: Seq<char>, text: Seq<char>)
    requires
        !text.contains('\n'),
    ensures
        add_lines(Seq::empty(), 0) == empty_text(),
        add_lines(lines.push(line), lines.len() as int + 1) == add_line(
            add_lines(lines, lines.len() as int),
            lines.len() as int + 1,
            line,
        ),
        text_view(text) == add_line(empty_text(), 1, text),
{
    lemma_lines_same(lines, lines.push(line), lines.len() as int);
    lemma_one_piece(text, '\n');
    let one = seq![text];
    assert(pieces(text, '\n') =~= one);
    assert(add_lines(one, 0) == empty_text());
    assert(add_lines(one, 1) == add_line(add_lines(one, 0), 1, one[0]));
}

proof fn lemma_lines_same(a: Seq<Seq<char>>, b: Seq<Seq<char>>, n: int)
    requires
        forall|i: int| 0 <= i < n ==> a[i] == b[i],
    ensures
        add_lines(a, n) == add_lines(b, n),
    decreases n,
{
    if n > 0 {
        lemma_lines_same(a, b, n - 1);
    }
}

proof fn lemma_one_piece(text: Seq<char>, separator: char)
    requires
        !text.contains(separator),
    ensures
        pieces(text, separator) == seq![text],
    decreases text.len(),
{
    if text.len() == 0 {
        assert(text =~= Seq::empty());
    } else {
        let head = text.drop_last();
        if head.contains(separator) {
            let i = choose|i: int| 0 <= i < head.len() && head[i] == separator;
            assert(text[i] == separator);
        }
        lemma_one_piece(head, separator);
        assert(text[text.len() - 1] != separator);
        assert(head.push(text.last()) =~= text);
        assert(pieces(text, separator) =~= seq![text]);
    }
}

/// Tokens are parted by blanks, tabs and line breaks, and by no visible character of ASCII.
pub proof fn lemma_gaps(c: char)
    ensures
        is_gap_spec(' ') && is_gap_spec('\t') && is_gap_spec('\n') && is_gap_spec('\r'),
        0x21 <= c as u32 <= 0x7E ==> !is_gap_spec(c),
{
}

} // verus!
