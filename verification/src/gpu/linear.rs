//! Coordinate descent over one column at a time: which entries are folded together, and
//! which gradient each of them meets.
//!
//! A sum in parallel has to fix the order it is taken in, or the answer depends on the
//! hardware. A column is folded in blocks of [`LIN_BLOCK`] entries, each from its first to
//! its last, and the blocks are added in block order. The sums themselves are
//! double-precision; what is here are the terms of each block.

use vstd::prelude::*;

use crate::data::csc::{CscPage, CscPages};
use crate::float_bits::{le, le_spec};
use crate::gpu::launch::{ceil_div, div_ceil, lemma_ceil_div, max_of};

verus! {

/// Entries folded per unit.
pub const LIN_BLOCK: usize = 4096;

/// One term of a fold: which gradient pair it meets, and the entry's value.
#[derive(Clone, Copy, Debug, PartialEq, Eq, Structural)]
pub struct Term {
    pub slot: usize,
    pub value: u32,
}

/// The pair of row `row` in group `group`.
pub open spec fn slot_of(row: int, n_groups: int, group: int) -> int {
    row * n_groups + group
}

/// A negative hessian is the objective's marker for a row it has excluded.
pub open spec fn counts(hess: u32) -> bool {
    le_spec(0, hess)
}

/// The terms of entries `from..to` of a column: those whose row is not excluded, in order.
pub open spec fn terms(
    rows: Seq<u32>,
    values: Seq<u32>,
    hess: Seq<u32>,
    n_groups: int,
    group: int,
    from: int,
    to: int,
) -> Seq<(int, u32)>
    decreases to - from,
{
    if to <= from {
        Seq::empty()
    } else {
        let rest = terms(rows, values, hess, n_groups, group, from, to - 1);
        let slot = slot_of(rows[to - 1] as int, n_groups, group);
        if counts(hess[slot]) {
            rest.push((slot, values[to - 1]))
        } else {
            rest
        }
    }
}

/// Some terms, apart from how they are held.
pub open spec fn as_terms(list: Seq<Term>) -> Seq<(int, u32)> {
    Seq::new(list.len(), |i: int| (list[i].slot as int, list[i].value))
}

/// Blocks that a column of `len` entries is folded in.
pub fn n_blocks(len: usize) -> (n: usize)
    ensures
        n == ceil_div(len as int, LIN_BLOCK as int),
{
    div_ceil(len, LIN_BLOCK)
}

/// Block `b` of a column of `len` entries.
pub open spec fn block_begin(b: int) -> int {
    b * LIN_BLOCK
}

pub open spec fn block_end(len: int, b: int) -> int {
    if (b + 1) * LIN_BLOCK < len {
        (b + 1) * LIN_BLOCK
    } else {
        len
    }
}

/// The blocks tile the column: each begins where the one before ends, and the last ends with
/// the column.
pub proof fn lemma_blocks_tile(len: int, b: int)
    requires
        0 <= b < ceil_div(len, LIN_BLOCK as int),
        0 <= len,
    ensures
        0 <= block_begin(b) < block_end(len, b) <= len,
        b + 1 < ceil_div(len, LIN_BLOCK as int) ==> block_end(len, b) == block_begin(b + 1),
        b + 1 == ceil_div(len, LIN_BLOCK as int) ==> block_end(len, b) == len,
{
    lemma_ceil_div(len, LIN_BLOCK as int);
    assert(b * LIN_BLOCK < len);
    if b + 1 < ceil_div(len, LIN_BLOCK as int) {
        assert((b + 1) * LIN_BLOCK < len);
    }
}

/// The transposed matrix and the shape of the gradients.
#[derive(Clone, Debug)]
pub struct GpuLinear {
    pub pages: Vec<CscPage>,
    pub n_rows: usize,
    pub n_groups: usize,
    /// Slots of the widest residual update: the longest column of any page, or every row
    /// for the intercept.
    pub scratch: usize,
}

/// The longest of the first `n` columns of a page.
pub open spec fn longest_column(page: CscPage, n: int) -> int
    decreases n,
{
    if n <= 0 {
        0
    } else {
        max_of(longest_column(page, n - 1), page.col_ptr[n] - page.col_ptr[n - 1])
    }
}

/// The longest column of the first `n` pages.
pub open spec fn longest(pages: Seq<CscPage>, n: int) -> int
    decreases n,
{
    if n <= 0 {
        0
    } else {
        max_of(longest(pages, n - 1), longest_column(pages[n - 1], pages[n - 1].num_col as int))
    }
}

impl GpuLinear {
    /// Every page is in order, and its rows are rows of the matrix.
    pub open spec fn wf(&self) -> bool {
        forall|p: int| 0 <= p < self.pages.len() ==> #[trigger] self.page_ok(p)
    }

    pub open spec fn page_ok(&self, p: int) -> bool {
        let page = self.pages[p];
        &&& page.wf()
        &&& forall|k: int| 0 <= k < page.row_idx.len() ==> #[trigger] page.row_idx[k] < self.n_rows
    }

    pub fn new(pages: CscPages, n_rows: usize, n_groups: usize) -> (linear: Self)
        requires
            forall|p: int| 0 <= p < pages.pages.len() ==> (#[trigger] pages.pages[p]).wf(),
        ensures
            linear.pages == pages.pages,
            linear.n_rows == n_rows,
            linear.n_groups == n_groups,
            linear.scratch == max_of(
                max_of(longest(pages.pages@, pages.pages.len() as int), n_rows as int),
                1,
            ),
    {
        let list: Vec<CscPage> = pages.pages;
        let mut widest: usize = 0;
        let mut p: usize = 0;
        while p < list.len()
            invariant
                p <= list.len(),
                list@ == pages.pages@,
                forall|q: int| 0 <= q < list.len() ==> (#[trigger] list[q]).wf(),
                widest == longest(list@, p as int),
            decreases list.len() - p,
        {
            let page: &CscPage = &list[p];
            assert(list[p as int].wf());
            let mut best: usize = 0;
            let mut c: usize = 0;
            while c < page.num_col
                invariant
                    page.wf(),
                    c <= page.num_col,
                    best == longest_column(*page, c as int),
                decreases page.num_col - c,
            {
                assert(page.col_ptr[c as int] <= page.col_ptr[c + 1]);
                let len: usize = page.col_ptr[c + 1] - page.col_ptr[c];
                if len > best {
                    best = len;
                }
                c += 1;
            }
            if best > widest {
                widest = best;
            }
            p += 1;
        }
        if n_rows > widest {
            widest = n_rows;
        }
        if widest == 0 {
            widest = 1;
        }
        GpuLinear { pages: list, n_rows, n_groups, scratch: widest }
    }

    /// How many pages the matrix was cut into.
    pub fn num_pages(&self) -> (n: usize)
        ensures
            n == self.pages.len(),
    {
        self.pages.len()
    }

    /// The gradients have a pair for every row and group.
    pub open spec fn fits(&self, hess: Seq<u32>, group: int) -> bool {
        &&& hess.len() == self.n_rows * self.n_groups
        &&& group < self.n_groups
    }

    /// The terms of block `b` of a column, in the order they are added.
    pub fn block_terms(&self, page: usize, fidx: usize, group: usize, hess: &[u32], b: usize) -> (list: Vec<Term>)
        requires
            self.wf(),
            page < self.pages.len(),
            fidx < self.pages[page as int].num_col,
            self.fits(hess@, group as int),
            b < ceil_div(self.pages[page as int].rows(fidx as int).len() as int, LIN_BLOCK as int),
        ensures
            as_terms(list@) == terms(
                self.pages[page as int].rows(fidx as int),
                self.pages[page as int].values(fidx as int),
                hess@,
                self.n_groups as int,
                group as int,
                block_begin(b as int),
                block_end(self.pages[page as int].rows(fidx as int).len() as int, b as int),
            ),
    {
        assert(self.page_ok(page as int));
        let (rows, values) = self.pages[page].column(fidx);
        let len: usize = rows.len();
        proof {
            lemma_blocks_tile(len as int, b as int);
            self.lemma_column(page as int, fidx as int);
        }
        let lo: usize = b * LIN_BLOCK;
        let hi: usize = if len - lo > LIN_BLOCK {
            lo + LIN_BLOCK
        } else {
            len
        };
        assert(hi == block_end(len as int, b as int));
        self.range_terms(rows, values, hess, group, lo, hi)
    }

    /// The terms of a whole column: the pairs that a step of its weight corrects.
    pub fn column_terms(&self, page: usize, fidx: usize, group: usize, hess: &[u32]) -> (list: Vec<Term>)
        requires
            self.wf(),
            page < self.pages.len(),
            fidx < self.pages[page as int].num_col,
            self.fits(hess@, group as int),
        ensures
            as_terms(list@) == terms(
                self.pages[page as int].rows(fidx as int),
                self.pages[page as int].values(fidx as int),
                hess@,
                self.n_groups as int,
                group as int,
                0,
                self.pages[page as int].rows(fidx as int).len() as int,
            ),
    {
        assert(self.page_ok(page as int));
        let (rows, values) = self.pages[page].column(fidx);
        proof {
            self.lemma_column(page as int, fidx as int);
        }
        self.range_terms(rows, values, hess, group, 0, rows.len())
    }

    /// The rows of a column are rows of the matrix.
    proof fn lemma_column(&self, p: int, c: int)
        requires
            self.wf(),
            0 <= p < self.pages.len(),
            0 <= c < self.pages[p].num_col,
        ensures
            self.pages[p].values(c).len() == self.pages[p].rows(c).len(),
            forall|k: int| 0 <= k < self.pages[p].rows(c).len() ==> #[trigger] self.pages[p].rows(c)[k] < self.n_rows,
    {
        let page = self.pages[p];
        assert(self.page_ok(p));
        assert(page.col_ptr[c] <= page.col_ptr[c + 1]);
        assert(page.col_ptr[c + 1] <= page.col_ptr[page.num_col as int]);
        assert forall|k: int| 0 <= k < page.rows(c).len() implies #[trigger] page.rows(c)[k] < self.n_rows by {
            assert(page.rows(c)[k] == page.row_idx[page.col_ptr[c] + k]);
        }
    }

    fn range_terms(&self, rows: &[u32], values: &[u32], hess: &[u32], group: usize, lo: usize, hi: usize) -> (list: Vec<Term>)
        requires
            lo <= hi <= rows.len(),
            values.len() == rows.len(),
            self.fits(hess@, group as int),
            forall|k: int| 0 <= k < rows.len() ==> #[trigger] rows[k] < self.n_rows,
        ensures
            as_terms(list@) == terms(
                rows@,
                values@,
                hess@,
                self.n_groups as int,
                group as int,
                lo as int,
                hi as int,
            ),
    {
        let mut list: Vec<Term> = Vec::new();
        let pairs: usize = hess.len();
        let mut k: usize = lo;
        assert(as_terms(list@) =~= Seq::empty());
        while k < hi
            invariant
                lo <= k <= hi <= rows.len(),
                values.len() == rows.len(),
                pairs == hess.len(),
                self.fits(hess@, group as int),
                forall|k: int| 0 <= k < rows.len() ==> #[trigger] rows[k] < self.n_rows,
                as_terms(list@) == terms(
                    rows@,
                    values@,
                    hess@,
                    self.n_groups as int,
                    group as int,
                    lo as int,
                    k as int,
                ),
            decreases hi - k,
        {
            let row: usize = rows[k] as usize;
            let ghost was = as_terms(list@);
            proof {
                assert(rows[k as int] < self.n_rows);
                assert(0 <= row * self.n_groups && row * self.n_groups + group < self.n_rows * self.n_groups)
                    by (nonlinear_arith)
                    requires
                        0 <= row,
                        row + 1 <= self.n_rows,
                        0 <= group < self.n_groups,
                ;
            }
            let slot: usize = row * self.n_groups + group;
            if le(0, hess[slot]) {
                list.push(Term { slot, value: values[k] });
                assert(as_terms(list@) =~= was.push((slot as int, values[k as int])));
            }
            k += 1;
        }
        list
    }

    /// The pairs of the rows `lo..hi` that the intercept's fold adds up, or its step
    /// corrects.
    pub fn bias_slots(&self, group: usize, hess: &[u32], lo: usize, hi: usize) -> (list: Vec<usize>)
        requires
            self.fits(hess@, group as int),
            lo <= hi <= self.n_rows,
        ensures
            list@.map_values(|s: usize| s as int) == bias_terms(
                hess@,
                self.n_groups as int,
                group as int,
                lo as int,
                hi as int,
            ),
    {
        let mut list: Vec<usize> = Vec::new();
        let pairs: usize = hess.len();
        let mut r: usize = lo;
        assert(list@.map_values(|s: usize| s as int) =~= Seq::empty());
        while r < hi
            invariant
                lo <= r <= hi <= self.n_rows,
                pairs == hess.len(),
                self.fits(hess@, group as int),
                list@.map_values(|s: usize| s as int) == bias_terms(
                    hess@,
                    self.n_groups as int,
                    group as int,
                    lo as int,
                    r as int,
                ),
            decreases hi - r,
        {
            let ghost was = list@.map_values(|s: usize| s as int);
            proof {
                assert(0 <= r * self.n_groups && r * self.n_groups + group < self.n_rows * self.n_groups)
                    by (nonlinear_arith)
                    requires
                        0 <= r,
                        r + 1 <= self.n_rows,
                        0 <= group < self.n_groups,
                ;
            }
            let slot: usize = r * self.n_groups + group;
            if le(0, hess[slot]) {
                list.push(slot);
                assert(list@.map_values(|s: usize| s as int) =~= was.push(slot as int));
            }
            r += 1;
        }
        list
    }
}

/// The pairs of rows `from..to` whose row is not excluded.
pub open spec fn bias_terms(hess: Seq<u32>, n_groups: int, group: int, from: int, to: int) -> Seq<int>
    decreases to - from,
{
    if to <= from {
        Seq::empty()
    } else {
        let rest = bias_terms(hess, n_groups, group, from, to - 1);
        let slot = slot_of(to - 1, n_groups, group);
        if counts(hess[slot]) {
            rest.push(slot)
        } else {
            rest
        }
    }
}

/// Folding a column block by block meets every term once, in order: the blocks' terms, one
/// after the other, are the column's.
pub proof fn lemma_blocks_fold(
    rows: Seq<u32>,
    values: Seq<u32>,
    hess: Seq<u32>,
    n_groups: int,
    group: int,
    from: int,
    mid: int,
    to: int,
)
    requires
        from <= mid <= to,
    ensures
        terms(rows, values, hess, n_groups, group, from, to) == terms(rows, values, hess, n_groups, group, from, mid)
            + terms(rows, values, hess, n_groups, group, mid, to),
    decreases to - mid,
{
    if mid < to {
        lemma_blocks_fold(rows, values, hess, n_groups, group, from, mid, to - 1);
        assert(terms(rows, values, hess, n_groups, group, from, to) =~= terms(
            rows,
            values,
            hess,
            n_groups,
            group,
            from,
            mid,
        ) + terms(rows, values, hess, n_groups, group, mid, to));
    } else {
        assert(terms(rows, values, hess, n_groups, group, from, to) =~= terms(
            rows,
            values,
            hess,
            n_groups,
            group,
            from,
            mid,
        ) + terms(rows, values, hess, n_groups, group, mid, to));
    }
}

/// Where a column holds each row once, no pair is met twice, so that a correction does not
/// depend on the order it is made in.
pub proof fn lemma_terms_apart(
    rows: Seq<u32>,
    values: Seq<u32>,
    hess: Seq<u32>,
    n_groups: int,
    group: int,
    to: int,
    i: int,
    j: int,
)
    requires
        0 <= to <= rows.len(),
        0 <= group < n_groups,
        forall|a: int, b: int| 0 <= a < b < rows.len() ==> #[trigger] rows[a] < #[trigger] rows[b],
        0 <= i < j < terms(rows, values, hess, n_groups, group, 0, to).len(),
    ensures
        terms(rows, values, hess, n_groups, group, 0, to)[i].0 < terms(rows, values, hess, n_groups, group, 0, to)[j].0,
    decreases to,
{
    let all = terms(rows, values, hess, n_groups, group, 0, to);
    if to > 0 {
        let rest = terms(rows, values, hess, n_groups, group, 0, to - 1);
        if j < rest.len() {
            lemma_terms_apart(rows, values, hess, n_groups, group, to - 1, i, j);
        } else {
            lemma_term_row(rows, values, hess, n_groups, group, to - 1, i);
            let k = choose|k: int|
                0 <= k < to - 1 && rest[i].0 == slot_of((#[trigger] rows[k]) as int, n_groups, group);
            let a = rows[k] as int;
            let b = rows[to - 1] as int;
            assert(a < b);
            assert(a * n_groups + group < b * n_groups + group) by (nonlinear_arith)
                requires
                    a + 1 <= b,
                    0 < n_groups,
            ;
        }
    }
}

proof fn lemma_term_row(
    rows: Seq<u32>,
    values: Seq<u32>,
    hess: Seq<u32>,
    n_groups: int,
    group: int,
    to: int,
    i: int,
)
    requires
        0 <= i < terms(rows, values, hess, n_groups, group, 0, to).len(),
    ensures
        exists|k: int|
            0 <= k < to && terms(rows, values, hess, n_groups, group, 0, to)[i].0 == slot_of(
                (#[trigger] rows[k]) as int,
                n_groups,
                group,
            ),
    decreases to,
{
    let rest = terms(rows, values, hess, n_groups, group, 0, to - 1);
    if i < rest.len() {
        lemma_term_row(rows, values, hess, n_groups, group, to - 1, i);
        let k = choose|k: int|
            0 <= k < to - 1 && rest[i].0 == slot_of((#[trigger] rows[k]) as int, n_groups, group);
        assert(terms(rows, values, hess, n_groups, group, 0, to)[i].0 == slot_of(rows[k] as int, n_groups, group));
    } else {
        assert(terms(rows, values, hess, n_groups, group, 0, to)[i].0 == slot_of(rows[to - 1] as int, n_groups, group));
    }
}

/// A row counts where its hessian is not below zero, and not where it is no number.
pub proof fn lemma_counts(hess: u32)
    ensures
        counts(hess) <==> !crate::float_bits::is_nan_spec(hess) && crate::float_bits::rank(hess) >= 0,
{
}

/// The groups of a row stand together, in their order, and the rows follow one another.
pub proof fn lemma_slots_follow(row: int, n_groups: int, group: int)
    ensures
        slot_of(0, n_groups, 0) == 0,
        slot_of(row, n_groups, group + 1) == slot_of(row, n_groups, group) + 1,
        slot_of(row + 1, n_groups, 0) == slot_of(row, n_groups, n_groups),
{
    assert((row + 1) * n_groups == row * n_groups + n_groups) by (nonlinear_arith);
    assert(0 * n_groups == 0) by (nonlinear_arith);
}

/// Every entry of the range whose row counts makes a term of its row and its value, and nothing else
/// makes one.
pub proof fn lemma_terms_of(
    rows: Seq<u32>,
    values: Seq<u32>,
    hess: Seq<u32>,
    n_groups: int,
    group: int,
    from: int,
    to: int,
    k: int,
)
    ensures
        from <= k < to && counts(hess[slot_of(rows[k] as int, n_groups, group)]) ==> terms(
            rows,
            values,
            hess,
            n_groups,
            group,
            from,
            to,
        ).contains((slot_of(rows[k] as int, n_groups, group), values[k])),
        forall|i: int|
            0 <= i < terms(rows, values, hess, n_groups, group, from, to).len() ==> counts(
                hess[(#[trigger] terms(rows, values, hess, n_groups, group, from, to)[i]).0],
            ),
        from <= to ==> terms(rows, values, hess, n_groups, group, from, to).len() <= to - from,
    decreases to - from,
{
    if from < to {
        lemma_terms_of(rows, values, hess, n_groups, group, from, to - 1, k);
        let rest = terms(rows, values, hess, n_groups, group, from, to - 1);
        let all = terms(rows, values, hess, n_groups, group, from, to);
        let it = (slot_of(rows[k] as int, n_groups, group), values[k]);
        if from <= k < to && counts(hess[it.0]) {
            if k < to - 1 {
                let i = choose|i: int| 0 <= i < rest.len() && rest[i] == it;
                assert(all[i] == it);
            } else {
                assert(all[rest.len() as int] == it);
            }
        }
        assert forall|i: int| 0 <= i < all.len() implies counts(hess[(#[trigger] all[i]).0]) by {
            if i < rest.len() {
                assert(all[i] == rest[i]);
            }
        }
    }
}

/// The bias is fitted to every row of the range that counts, and to no other.
pub proof fn lemma_bias_of(hess: Seq<u32>, n_groups: int, group: int, from: int, to: int, row: int)
    ensures
        from <= row < to && counts(hess[slot_of(row, n_groups, group)]) ==> bias_terms(
            hess,
            n_groups,
            group,
            from,
            to,
        ).contains(slot_of(row, n_groups, group)),
        forall|i: int|
            0 <= i < bias_terms(hess, n_groups, group, from, to).len() ==> counts(
                hess[#[trigger] bias_terms(hess, n_groups, group, from, to)[i]],
            ),
        from <= to ==> bias_terms(hess, n_groups, group, from, to).len() <= to - from,
    decreases to - from,
{
    if from < to {
        lemma_bias_of(hess, n_groups, group, from, to - 1, row);
        let rest = bias_terms(hess, n_groups, group, from, to - 1);
        let all = bias_terms(hess, n_groups, group, from, to);
        let it = slot_of(row, n_groups, group);
        if from <= row < to && counts(hess[it]) {
            if row < to - 1 {
                let i = choose|i: int| 0 <= i < rest.len() && rest[i] == it;
                assert(all[i] == it);
            } else {
                assert(all[rest.len() as int] == it);
            }
        }
        assert forall|i: int| 0 <= i < all.len() implies counts(hess[#[trigger] all[i]]) by {
            if i < rest.len() {
                assert(all[i] == rest[i]);
            }
        }
    }
}

/// No column of a page is longer than its longest, and none of any page than the longest of all.
pub proof fn lemma_longest(pages: Seq<CscPage>, n: int, p: int, f: int)
    requires
        0 <= p < n,
        0 <= f < pages[p].num_col,
    ensures
        pages[p].col_ptr[f + 1] - pages[p].col_ptr[f] <= longest(pages, n),
    decreases n,
{
    if p < n - 1 {
        lemma_longest(pages, n - 1, p, f);
    } else {
        lemma_longest_column(pages[p], pages[p].num_col as int, f);
    }
}

proof fn lemma_longest_column(page: CscPage, n: int, f: int)
    requires
        0 <= f < n,
    ensures
        page.col_ptr[f + 1] - page.col_ptr[f] <= longest_column(page, n),
    decreases n,
{
    if f < n - 1 {
        lemma_longest_column(page, n - 1, f);
    }
}

/// A term is its slot and its value, in the order of the list.
pub proof fn lemma_as_terms(list: Seq<Term>, i: int)
    requires
        0 <= i < list.len(),
    ensures
        as_terms(list).len() == list.len(),
        as_terms(list)[i].0 == list[i].slot && as_terms(list)[i].1 == list[i].value,
{
}

} // verus!
