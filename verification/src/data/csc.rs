//! Column-major views of a [`DMatrix`].
//!
//! Rows are the right layout for anything that walks a row at a time, and the wrong one for
//! the two algorithms that walk a column at a time: the coordinate solvers of the linear
//! booster, and the exact tree updater, which scans a column in value order. They differ in
//! whether a column is ordered by row or by value, which is what [`CscPage::build`] and
//! [`CscPage::build_sorted`] name.
//!
//! A [`CscPages`] is a sequence of pages, each covering a contiguous range of rows.

use core::ops::Range;

use vstd::prelude::*;

use crate::data::cuts::{lemma_key_order, value_key, value_key_spec};
use crate::data::radix::{comes_before, radix_order, sorts};
use crate::data::DMatrix;
use crate::float_bits::rank;
use crate::gpu::launch::{ceil_div, lemma_ceil_div, max_of, min_of};

verus! {

/// The stored entries `from..to` that are in column `c`, in stored order.
pub open spec fn entries_of(index: Seq<u32>, c: int, from: int, to: int) -> Seq<int>
    decreases to - from,
{
    if to <= from {
        Seq::empty()
    } else {
        let rest = entries_of(index, c, from, to - 1);
        if index[to - 1] == c {
            rest.push(to - 1)
        } else {
            rest
        }
    }
}

/// The entries of columns before `c` among the stored entries `from..to`.
pub open spec fn entries_before(index: Seq<u32>, c: int, from: int, to: int) -> int
    decreases c,
{
    if c <= 0 {
        0
    } else {
        entries_before(index, c - 1, from, to) + entries_of(index, c - 1, from, to).len()
    }
}

/// Two runs of stored entries one after the other.
pub proof fn lemma_entries_concat(index: Seq<u32>, c: int, a: int, b: int, d: int)
    requires
        a <= b <= d,
    ensures
        entries_of(index, c, a, d) == entries_of(index, c, a, b) + entries_of(index, c, b, d),
    decreases d - b,
{
    if b < d {
        lemma_entries_concat(index, c, a, b, d - 1);
        assert(entries_of(index, c, a, d) =~= entries_of(index, c, a, b) + entries_of(index, c, b, d));
    } else {
        assert(entries_of(index, c, a, d) =~= entries_of(index, c, a, b) + entries_of(index, c, b, d));
    }
}

/// The entries of a column are its entries, in ascending order.
pub proof fn lemma_entries_of(index: Seq<u32>, c: int, from: int, to: int)
    ensures
        forall|j: int|
            0 <= j < entries_of(index, c, from, to).len() ==> from <= #[trigger] entries_of(index, c, from, to)[j] < to
                && index[entries_of(index, c, from, to)[j]] == c,
        forall|i: int, j: int|
            0 <= i < j < entries_of(index, c, from, to).len() ==> #[trigger] entries_of(index, c, from, to)[i]
                < #[trigger] entries_of(index, c, from, to)[j],
        forall|k: int| from <= k < to && index[k] == c ==> #[trigger] entries_of(index, c, from, to).contains(k),
    decreases to - from,
{
    if from < to {
        lemma_entries_of(index, c, from, to - 1);
        let rest = entries_of(index, c, from, to - 1);
        let all = entries_of(index, c, from, to);
        assert forall|k: int| from <= k < to && index[k] == c implies #[trigger] all.contains(k) by {
            if k < to - 1 {
                assert(rest.contains(k));
                let i = choose|i: int| 0 <= i < rest.len() && rest[i] == k;
                assert(all[i] == k);
            } else {
                assert(all[all.len() - 1] == k);
            }
        }
    }
}

proof fn lemma_entries_len(index: Seq<u32>, c: int, from: int, a: int, b: int)
    requires
        from <= a <= b,
    ensures
        entries_of(index, c, from, a).len() <= entries_of(index, c, from, b).len(),
{
    lemma_entries_concat(index, c, from, a, b);
}

proof fn lemma_before_grows(index: Seq<u32>, a: int, b: int, from: int, to: int)
    requires
        0 <= a <= b,
    ensures
        0 <= entries_before(index, a, from, to) <= entries_before(index, b, from, to),
        a < b ==> entries_before(index, a, from, to) + entries_of(index, a, from, to).len() <= entries_before(
            index,
            b,
            from,
            to,
        ),
    decreases b,
{
    if a < b {
        lemma_before_grows(index, a, b - 1, from, to);
    } else if a > 0 {
        lemma_before_grows(index, a - 1, b - 1, from, to);
    }
}

/// One stored entry more raises one column's count.
proof fn lemma_before_step(index: Seq<u32>, c: int, from: int, to: int)
    requires
        from < to,
    ensures
        entries_before(index, c, from, to) == entries_before(index, c, from, to - 1) + (if index[to - 1] < c {
            1int
        } else {
            0
        }),
    decreases c,
{
    if c > 0 {
        lemma_before_step(index, c - 1, from, to);
    }
}

/// Every entry has one column.
pub(crate) proof fn lemma_before_total(index: Seq<u32>, n: int, from: int, to: int)
    requires
        from <= to,
        0 <= n,
        forall|k: int| from <= k < to ==> #[trigger] index[k] < n,
    ensures
        entries_before(index, n, from, to) == to - from,
    decreases to - from,
{
    if from < to {
        lemma_before_total(index, n, from, to - 1);
        lemma_before_step(index, n, from, to);
        assert(index[to - 1] < n);
    } else {
        lemma_before_empty(index, n, from);
    }
}

proof fn lemma_before_empty(index: Seq<u32>, n: int, from: int)
    ensures
        entries_before(index, n, from, from) == 0,
    decreases n,
{
    if n > 0 {
        lemma_before_empty(index, n - 1, from);
    }
}

/// One column-major page covering a contiguous range of rows.
///
/// Row indices are absolute, so a caller never has to know which page an entry came from.
#[derive(Clone, Debug)]
pub struct CscPage {
    /// Offsets into `row_idx` and `value`, one more than there are columns.
    pub col_ptr: Vec<usize>,
    pub row_idx: Vec<u32>,
    pub value: Vec<u32>,
    pub num_col: usize,
}

impl CscPage {
    /// The offsets divide the entries among the columns.
    pub open spec fn wf(&self) -> bool {
        &&& self.col_ptr.len() == self.num_col + 1
        &&& self.col_ptr[0] == 0
        &&& self.col_ptr[self.num_col as int] == self.row_idx.len()
        &&& self.value.len() == self.row_idx.len()
        &&& forall|a: int, b: int|
            0 <= a <= b < self.col_ptr.len() ==> #[trigger] self.col_ptr[a] <= #[trigger] self.col_ptr[b]
    }

    /// The row indices of column `c`.
    pub open spec fn rows(&self, c: int) -> Seq<u32> {
        self.row_idx@.subrange(self.col_ptr[c] as int, self.col_ptr[c + 1] as int)
    }

    /// The values of column `c`.
    pub open spec fn values(&self, c: int) -> Seq<u32> {
        self.value@.subrange(self.col_ptr[c] as int, self.col_ptr[c + 1] as int)
    }

    /// Column `c` holds the entries `ks` of the matrix, in that order.
    pub open spec fn holds(&self, dmat: &DMatrix, c: int, ks: Seq<int>) -> bool {
        &&& self.rows(c).len() == ks.len()
        &&& forall|j: int|
            0 <= j < ks.len() ==> (#[trigger] self.rows(c)[j]) < dmat.info.num_row && dmat.in_row(
                self.rows(c)[j] as int,
                ks[j],
            ) && self.values(c)[j] == dmat.value[ks[j]]
    }

    /// The page is the transpose of rows `from..to`: every column holds its entries in row
    /// order.
    pub open spec fn transposes(&self, dmat: &DMatrix, from: int, to: int) -> bool {
        &&& self.wf()
        &&& self.num_col == dmat.info.num_col
        &&& forall|c: int|
            0 <= c < self.num_col ==> #[trigger] self.holds(
                dmat,
                c,
                entries_of(dmat.index@, c, dmat.row_ptr[from] as int, dmat.row_ptr[to] as int),
            )
    }

    /// The page is the transpose of rows `from..to` with every column in ascending value
    /// order, equal values in row order.
    pub open spec fn transposes_sorted(&self, dmat: &DMatrix, from: int, to: int) -> bool {
        &&& self.wf()
        &&& self.num_col == dmat.info.num_col
        &&& forall|c: int| 0 <= c < self.num_col ==> #[trigger] self.sorted_column(dmat, from, to, c)
    }

    pub open spec fn sorted_column(&self, dmat: &DMatrix, from: int, to: int, c: int) -> bool {
        let ks = entries_of(dmat.index@, c, dmat.row_ptr[from] as int, dmat.row_ptr[to] as int);
        exists|order: Seq<usize>|
            #[trigger] sorts(entry_keys(dmat, ks), order) && self.holds(
                dmat,
                c,
                Seq::new(order.len(), |j: int| ks[order[j] as int]),
            )
    }

    /// Transpose `rows` of `dmat`, leaving each column in ascending row order.
    pub fn build(dmat: &DMatrix, rows: Range<usize>) -> (page: Self)
        requires
            dmat.wf(),
            rows.start <= rows.end <= dmat.info.num_row,
            dmat.info.num_row <= u32::MAX,
            dmat.info.num_col < usize::MAX,
        ensures
            page.transposes(dmat, rows.start as int, rows.end as int),
    {
        let num_col: usize = dmat.num_col();
        let k0: usize = dmat.row_ptr[rows.start];
        let k1: usize = dmat.row_ptr[rows.end];
        assert(dmat.row_ptr[rows.start as int] <= dmat.row_ptr[rows.end as int]);
        assert(dmat.row_ptr[rows.end as int] <= dmat.row_ptr[dmat.info.num_row as int]);
        let ghost index = dmat.index@;
        // Count the entries of each column, one place up.
        let mut col_ptr: Vec<usize> = vec![0usize; num_col + 1];
        let mut k: usize = k0;
        while k < k1
            invariant
                dmat.wf(),
                num_col == dmat.info.num_col,
                index == dmat.index@,
                k0 <= k <= k1 <= index.len(),
                col_ptr.len() == num_col + 1,
                col_ptr[0] == 0,
                forall|c: int|
                    0 <= c < num_col ==> #[trigger] col_ptr[c + 1] == entries_of(index, c, k0 as int, k as int).len()
                        && col_ptr[c + 1] <= k - k0,
            decreases k1 - k,
        {
            let c: usize = dmat.index[k] as usize;
            let ghost was = col_ptr@;
            col_ptr[c + 1] = col_ptr[c + 1] + 1;
            proof {
                assert forall|e: int| 0 <= e < num_col implies #[trigger] col_ptr[e + 1] == entries_of(
                    index,
                    e,
                    k0 as int,
                    k + 1,
                ).len() && col_ptr[e + 1] <= k + 1 - k0 by {
                    assert(was[e + 1] == entries_of(index, e, k0 as int, k as int).len());
                }
            }
            k += 1;
        }
        proof {
            lemma_before_total(index, num_col as int, k0 as int, k1 as int);
            assert forall|e: int| 0 < e <= num_col implies #[trigger] col_ptr[e] == entries_of(
                index,
                e - 1,
                k0 as int,
                k1 as int,
            ).len() by {
                assert(col_ptr[(e - 1) + 1] == entries_of(index, e - 1, k0 as int, k1 as int).len());
            }
        }
        let mut c: usize = 0;
        while c < num_col
            invariant
                num_col == dmat.info.num_col,
                index == dmat.index@,
                k0 <= k1,
                entries_before(index, num_col as int, k0 as int, k1 as int) == k1 - k0,
                c <= num_col,
                col_ptr.len() == num_col + 1,
                forall|e: int|
                    0 <= e <= c ==> #[trigger] col_ptr[e] == entries_before(index, e, k0 as int, k1 as int),
                forall|e: int|
                    c < e <= num_col ==> #[trigger] col_ptr[e] == entries_of(index, e - 1, k0 as int, k1 as int).len(),
            decreases num_col - c,
        {
            proof {
                lemma_before_grows(index, c + 1, num_col as int, k0 as int, k1 as int);
            }
            col_ptr[c + 1] = col_ptr[c + 1] + col_ptr[c];
            c += 1;
        }
        let nnz: usize = col_ptr[num_col];
        let mut row_idx: Vec<u32> = vec![0u32; nnz];
        let mut value: Vec<u32> = vec![0u32; nnz];
        // Walks the rows in order, so each column comes out ascending in row index.
        let mut fill: Vec<usize> = Vec::with_capacity(num_col);
        fill.extend_from_slice(col_ptr.as_slice());
        assert(fill@ =~= col_ptr@);
        let mut r: usize = rows.start;
        let mut k: usize = k0;
        proof {
            assert forall|c: int| 0 <= c < num_col implies #[trigger] filled(
                dmat,
                row_idx@,
                value@,
                entries_before(index, c, k0 as int, k1 as int),
                entries_of(index, c, k0 as int, k0 as int),
            ) by {}
        }
        while r < rows.end
            invariant
                dmat.wf(),
                rows.start <= r <= rows.end <= dmat.info.num_row <= u32::MAX,
                num_col == dmat.info.num_col,
                index == dmat.index@,
                k0 <= k <= k1 <= index.len(),
                k == dmat.row_ptr[r as int],
                k1 == dmat.row_ptr[rows.end as int],
                entries_before(index, num_col as int, k0 as int, k1 as int) == k1 - k0,
                nnz == k1 - k0,
                row_idx.len() == nnz,
                value.len() == nnz,
                fill.len() == num_col + 1,
                forall|c: int|
                    0 <= c < num_col ==> #[trigger] fill[c] == entries_before(index, c, k0 as int, k1 as int)
                        + entries_of(index, c, k0 as int, k as int).len(),
                forall|c: int|
                    0 <= c < num_col ==> #[trigger] filled(
                        dmat,
                        row_idx@,
                        value@,
                        entries_before(index, c, k0 as int, k1 as int),
                        entries_of(index, c, k0 as int, k as int),
                    ),
            decreases rows.end - r,
        {
            let end: usize = dmat.row_ptr[r + 1];
            assert(dmat.row_ptr[r as int] <= dmat.row_ptr[r + 1]);
            assert(dmat.row_ptr[r + 1] <= dmat.row_ptr[rows.end as int]);
            while k < end
                invariant
                    dmat.wf(),
                    r < rows.end <= dmat.info.num_row <= u32::MAX,
                    num_col == dmat.info.num_col,
                    index == dmat.index@,
                    end == dmat.row_ptr[r + 1],
                    dmat.row_ptr[r as int] <= k <= end <= k1 <= index.len(),
                    k0 <= k,
                    entries_before(index, num_col as int, k0 as int, k1 as int) == k1 - k0,
                    nnz == k1 - k0,
                    row_idx.len() == nnz,
                    value.len() == nnz,
                    fill.len() == num_col + 1,
                    forall|c: int|
                        0 <= c < num_col ==> #[trigger] fill[c] == entries_before(index, c, k0 as int, k1 as int)
                            + entries_of(index, c, k0 as int, k as int).len(),
                    forall|c: int|
                        0 <= c < num_col ==> #[trigger] filled(
                            dmat,
                            row_idx@,
                            value@,
                            entries_before(index, c, k0 as int, k1 as int),
                            entries_of(index, c, k0 as int, k as int),
                        ),
                decreases end - k,
            {
                let col: usize = dmat.index[k] as usize;
                let ghost b = col as int;
                let ghost rows0 = row_idx@;
                let ghost vals0 = value@;
                let ghost fill0 = fill@;
                proof {
                    lemma_entries_len(index, b, k0 as int, k + 1, k1 as int);
                    lemma_before_grows(index, b, num_col as int, k0 as int, k1 as int);
                }
                let slot: usize = fill[col];
                row_idx[slot] = r as u32;
                value[slot] = dmat.value[k];
                fill[col] = slot + 1;
                proof {
                    assert(dmat.in_row(r as int, k as int));
                    assert forall|c: int| 0 <= c < num_col implies #[trigger] filled(
                        dmat,
                        row_idx@,
                        value@,
                        entries_before(index, c, k0 as int, k1 as int),
                        entries_of(index, c, k0 as int, k + 1),
                    ) by {
                        let base = entries_before(index, c, k0 as int, k1 as int);
                        let ks = entries_of(index, c, k0 as int, k as int);
                        let more = entries_of(index, c, k0 as int, k + 1);
                        assert(filled(dmat, rows0, vals0, base, ks));
                        lemma_entries_len(index, c, k0 as int, k + 1, k1 as int);
                        lemma_before_grows(index, c, num_col as int, k0 as int, k1 as int);
                        if c < b {
                            lemma_before_grows(index, c, b, k0 as int, k1 as int);
                        } else if c > b {
                            lemma_before_grows(index, b, c, k0 as int, k1 as int);
                        }
                        assert forall|j: int| 0 <= j < more.len() implies (#[trigger] row_idx@[base + j])
                            < dmat.info.num_row && dmat.in_row(row_idx@[base + j] as int, more[j]) && value@[base + j]
                            == dmat.value[more[j]] by {
                            if j < ks.len() {
                                assert(base + j != slot);
                                assert(rows0[base + j] == row_idx@[base + j]);
                                assert(dmat.in_row(rows0[base + j] as int, ks[j]));
                            }
                        }
                    }
                    assert forall|c: int| 0 <= c < num_col implies #[trigger] fill[c] == entries_before(
                        index,
                        c,
                        k0 as int,
                        k1 as int,
                    ) + entries_of(index, c, k0 as int, k + 1).len() by {
                        assert(fill0[c] == entries_before(index, c, k0 as int, k1 as int) + entries_of(
                            index,
                            c,
                            k0 as int,
                            k as int,
                        ).len());
                    }
                }
                k += 1;
            }
            r += 1;
        }
        let page = CscPage { col_ptr, row_idx, value, num_col };
        proof {
            assert forall|a: int, b: int| 0 <= a <= b < page.col_ptr.len() implies #[trigger] page.col_ptr[a]
                <= #[trigger] page.col_ptr[b] by {
                lemma_before_grows(index, a, b, k0 as int, k1 as int);
            }
            assert forall|c: int| 0 <= c < num_col implies #[trigger] page.holds(
                dmat,
                c,
                entries_of(index, c, k0 as int, k1 as int),
            ) by {
                let ks = entries_of(index, c, k0 as int, k1 as int);
                let base = entries_before(index, c, k0 as int, k1 as int);
                lemma_before_grows(index, c, num_col as int, k0 as int, k1 as int);
                assert(filled(dmat, page.row_idx@, page.value@, base, ks));
                assert(page.col_ptr[c] == base);
                assert(page.col_ptr[c + 1] == base + ks.len());
                lemma_before_grows(index, c + 1, num_col as int, k0 as int, k1 as int);
                assert forall|j: int| 0 <= j < ks.len() implies (#[trigger] page.rows(c)[j]) < dmat.info.num_row
                    && dmat.in_row(page.rows(c)[j] as int, ks[j]) && page.values(c)[j] == dmat.value[ks[j]] by {
                    assert(page.rows(c)[j] == page.row_idx@[base + j]);
                }
            }
        }
        page
    }

    /// The same transpose, with each column in ascending value order.
    ///
    /// Equal values keep their row order, which makes a scan for split points reproducible.
    pub fn build_sorted(dmat: &DMatrix, rows: Range<usize>) -> (page: Self)
        requires
            dmat.wf(),
            rows.start <= rows.end <= dmat.info.num_row,
            dmat.info.num_row <= u32::MAX,
            dmat.info.num_col < usize::MAX,
        ensures
            page.transposes_sorted(dmat, rows.start as int, rows.end as int),
    {
        let ghost from = rows.start as int;
        let ghost to = rows.end as int;
        let mut page: CscPage = Self::build(dmat, rows);
        let ghost plain = page;
        let n: usize = page.num_col;
        let mut c: usize = 0;
        while c < n
            invariant
                dmat.wf(),
                plain.transposes(dmat, from, to),
                n == plain.num_col,
                c <= n,
                page.num_col == plain.num_col,
                page.col_ptr == plain.col_ptr,
                page.row_idx.len() == plain.row_idx.len(),
                page.value.len() == plain.value.len(),
                forall|e: int| 0 <= e < c ==> #[trigger] page.sorted_column(dmat, from, to, e),
                forall|i: int|
                    plain.col_ptr[c as int] <= i < plain.row_idx.len() ==> #[trigger] page.row_idx[i] == plain.row_idx[i],
                forall|i: int|
                    plain.col_ptr[c as int] <= i < plain.row_idx.len() ==> #[trigger] page.value[i] == plain.value[i],
            decreases n - c,
        {
            let b: usize = page.col_ptr[c];
            let e: usize = page.col_ptr[c + 1];
            assert(plain.col_ptr[c as int] <= plain.col_ptr[c + 1]);
            assert(plain.col_ptr[c + 1] <= plain.col_ptr[n as int]);
            let ghost was = page;
            let ghost ks = entries_of(dmat.index@, c as int, dmat.row_ptr[from] as int, dmat.row_ptr[to] as int);
            assert(plain.holds(dmat, c as int, ks));
            let mut keys: Vec<u32> = Vec::with_capacity(e - b);
            let mut i: usize = b;
            while i < e
                invariant
                    b <= i <= e <= page.value.len(),
                    keys.len() == i - b,
                    forall|j: int| 0 <= j < i - b ==> #[trigger] keys[j] == value_key_spec(page.value[b + j]),
                decreases e - i,
            {
                keys.push(value_key(page.value[i]));
                i += 1;
            }
            proof {
                assert(keys@ =~= entry_keys(dmat, ks)) by {
                    assert forall|j: int| 0 <= j < keys.len() implies keys[j] == entry_keys(dmat, ks)[j] by {
                        assert(plain.rows(c as int)[j] == plain.row_idx[b + j]);
                        assert(plain.values(c as int)[j] == plain.value[b + j]);
                        assert(page.value[b + j] == plain.value[b + j]);
                    }
                }
            }
            let order: Vec<usize> = radix_order(keys.as_slice());
            let moved_rows: Vec<u32> = pick(&page.row_idx, b, &order);
            let moved_values: Vec<u32> = pick(&page.value, b, &order);
            put(&mut page.row_idx, b, &moved_rows);
            put(&mut page.value, b, &moved_values);
            proof {
                let arranged = Seq::new(order@.len(), |j: int| ks[order@[j] as int]);
                assert(page.holds(dmat, c as int, arranged)) by {
                    assert forall|j: int| 0 <= j < arranged.len() implies (#[trigger] page.rows(c as int)[j])
                        < dmat.info.num_row && dmat.in_row(page.rows(c as int)[j] as int, arranged[j]) && page.values(
                        c as int,
                    )[j] == dmat.value[arranged[j]] by {
                        let o = order[j] as int;
                        assert(page.rows(c as int)[j] == page.row_idx[b + j]);
                        assert(page.values(c as int)[j] == page.value[b + j]);
                        assert(page.row_idx[b + j] == moved_rows[j]);
                        assert(page.value[b + j] == moved_values[j]);
                        assert(was.row_idx[b + o] == plain.row_idx[b + o]);
                        assert(was.value[b + o] == plain.value[b + o]);
                        assert(plain.rows(c as int)[o] == plain.row_idx[b + o]);
                        assert(plain.values(c as int)[o] == plain.value[b + o]);
                        assert(dmat.in_row(plain.rows(c as int)[o] as int, ks[o]));
                    }
                }
                assert(page.sorted_column(dmat, from, to, c as int));
                assert forall|g: int| 0 <= g < c + 1 implies #[trigger] page.sorted_column(dmat, from, to, g) by {
                    if g < c {
                        assert(was.sorted_column(dmat, from, to, g));
                        assert(plain.col_ptr[g] <= plain.col_ptr[g + 1]);
                        assert(plain.col_ptr[g + 1] <= plain.col_ptr[c as int]);
                        assert(page.rows(g) =~= was.rows(g));
                        assert(page.values(g) =~= was.values(g));
                        let gs = entries_of(dmat.index@, g, dmat.row_ptr[from] as int, dmat.row_ptr[to] as int);
                        let ord = choose|ord: Seq<usize>|
                            #[trigger] sorts(entry_keys(dmat, gs), ord) && was.holds(
                                dmat,
                                g,
                                Seq::new(ord.len(), |j: int| gs[ord[j] as int]),
                            );
                        assert(page.holds(dmat, g, Seq::new(ord.len(), |j: int| gs[ord[j] as int])));
                    }
                }
            }
            c += 1;
        }
        page
    }

    /// Column `fidx`: its row indices and its values.
    pub fn column(&self, fidx: usize) -> (entries: (&[u32], &[u32]))
        requires
            self.wf(),
            fidx < self.num_col,
        ensures
            entries.0@ == self.rows(fidx as int),
            entries.1@ == self.values(fidx as int),
    {
        let b: usize = self.col_ptr[fidx];
        let e: usize = self.col_ptr[fidx + 1];
        assert(self.col_ptr[fidx as int] <= self.col_ptr[fidx + 1]);
        assert(self.col_ptr[fidx + 1] <= self.col_ptr[self.num_col as int]);
        (
            vstd::slice::slice_subrange(self.row_idx.as_slice(), b, e),
            vstd::slice::slice_subrange(self.value.as_slice(), b, e),
        )
    }

    pub fn num_col(&self) -> (n: usize)
        ensures
            n == self.num_col,
    {
        self.num_col
    }

    /// Stored entries in column `fidx`.
    pub fn column_len(&self, fidx: usize) -> (n: usize)
        requires
            self.wf(),
            fidx < self.num_col,
        ensures
            n == self.rows(fidx as int).len(),
    {
        assert(self.col_ptr[fidx as int] <= self.col_ptr[fidx + 1]);
        assert(self.col_ptr[fidx + 1] <= self.col_ptr[self.num_col as int]);
        self.col_ptr[fidx + 1] - self.col_ptr[fidx]
    }
}

/// The value keys of the entries `ks`.
pub open spec fn entry_keys(dmat: &DMatrix, ks: Seq<int>) -> Seq<u32> {
    Seq::new(ks.len(), |j: int| value_key_spec(dmat.value[ks[j]]))
}

/// The slots from `base` on hold the entries `ks`.
spec fn filled(dmat: &DMatrix, row_idx: Seq<u32>, value: Seq<u32>, base: int, ks: Seq<int>) -> bool {
    forall|j: int|
        0 <= j < ks.len() ==> (#[trigger] row_idx[base + j]) < dmat.info.num_row && dmat.in_row(
            row_idx[base + j] as int,
            ks[j],
        ) && value[base + j] == dmat.value[ks[j]]
}

/// The elements from `base` on in the order `order`.
fn pick(src: &Vec<u32>, base: usize, order: &Vec<usize>) -> (out: Vec<u32>)
    requires
        base + order.len() <= src.len(),
        forall|i: int| 0 <= i < order.len() ==> #[trigger] order[i] < order.len(),
    ensures
        out.len() == order.len(),
        forall|i: int| 0 <= i < order.len() ==> #[trigger] out[i] == src[base + order[i]],
{
    let mut out: Vec<u32> = Vec::with_capacity(order.len());
    let mut i: usize = 0;
    while i < order.len()
        invariant
            base + order.len() <= src.len(),
            forall|k: int| 0 <= k < order.len() ==> #[trigger] order[k] < order.len(),
            i <= order.len(),
            out.len() == i,
            forall|k: int| 0 <= k < i ==> #[trigger] out[k] == src[base + order[k]],
        decreases order.len() - i,
    {
        out.push(src[base + order[i]]);
        i += 1;
    }
    out
}

/// Write `src` over the elements from `base` on.
fn put(dst: &mut Vec<u32>, base: usize, src: &Vec<u32>)
    requires
        base + src.len() <= old(dst).len(),
    ensures
        final(dst).len() == old(dst).len(),
        forall|i: int| 0 <= i < src.len() ==> #[trigger] src[i] == final(dst)[base + i],
        forall|i: int|
            0 <= i < old(dst).len() && !(base <= i < base + src.len()) ==> #[trigger] final(dst)[i] == old(dst)[i],
{
    let ghost before = dst@;
    let mut i: usize = 0;
    while i < src.len()
        invariant
            base + src.len() <= before.len(),
            dst.len() == before.len(),
            i <= src.len(),
            forall|k: int| 0 <= k < i ==> #[trigger] src[k] == dst[base + k],
            forall|k: int|
                0 <= k < before.len() && !(base <= k < base + i) ==> #[trigger] dst[k] == before[k],
        decreases src.len() - i,
    {
        dst[base + i] = src[i];
        i += 1;
    }
}

/// Every column-major page of a matrix, in row order.
#[derive(Clone, Debug)]
pub struct CscPages {
    pub pages: Vec<CscPage>,
}

/// Rows per page.
pub open spec fn batch_rows(n: int, rows_per_batch: Option<usize>) -> int {
    min_of(
        match rows_per_batch {
            Some(b) => max_of(b as int, 1),
            None => usize::MAX as int,
        },
        max_of(n, 1),
    )
}

/// Where page `i` starts.
pub open spec fn page_start(n: int, batch: int, i: int) -> int {
    min_of(i * batch, n)
}

impl CscPages {
    /// Page `i` is the transpose of its batch of rows.
    pub open spec fn page_ok(&self, dmat: &DMatrix, batch: int, sorted: bool, i: int) -> bool {
        let n = dmat.info.num_row as int;
        if sorted {
            self.pages[i].transposes_sorted(dmat, page_start(n, batch, i), page_start(n, batch, i + 1))
        } else {
            self.pages[i].transposes(dmat, page_start(n, batch, i), page_start(n, batch, i + 1))
        }
    }

    /// Transpose `dmat` into pages of at most `rows_per_batch` rows each, one page of
    /// everything for `None`; a matrix without rows still has a page.
    pub fn build(dmat: &DMatrix, rows_per_batch: Option<usize>, sorted: bool) -> (pages: Self)
        requires
            dmat.wf(),
            dmat.info.num_row <= u32::MAX,
            dmat.info.num_col < usize::MAX,
        ensures
            pages.pages.len() == max_of(
                ceil_div(dmat.info.num_row as int, batch_rows(dmat.info.num_row as int, rows_per_batch)),
                1,
            ),
            forall|i: int|
                0 <= i < pages.pages.len() ==> #[trigger] pages.page_ok(
                    dmat,
                    batch_rows(dmat.info.num_row as int, rows_per_batch),
                    sorted,
                    i,
                ),
    {
        let n: usize = dmat.num_row();
        let wanted: usize = match rows_per_batch {
            Some(b) => if b == 0 {
                1
            } else {
                b
            },
            None => usize::MAX,
        };
        let most: usize = if n == 0 {
            1
        } else {
            n
        };
        let batch: usize = if wanted < most {
            wanted
        } else {
            most
        };
        let ghost nn = n as int;
        let ghost bb = batch as int;
        proof {
            lemma_ceil_div(nn, bb);
            assert(0 * bb == 0) by (nonlinear_arith);
            assert(1 * bb == bb) by (nonlinear_arith);
        }
        let mut pages = CscPages { pages: Vec::new() };
        let mut start: usize = 0;
        while start < n
            invariant
                dmat.wf(),
                n == dmat.info.num_row <= u32::MAX,
                dmat.info.num_col < usize::MAX,
                batch == batch_rows(n as int, rows_per_batch),
                0 < batch <= max_of(n as int, 1),
                nn == n,
                bb == batch,
                start == page_start(nn, bb, pages.pages.len() as int),
                start <= n,
                pages.pages.len() <= ceil_div(nn, bb),
                start < n ==> pages.pages.len() < ceil_div(nn, bb),
                nn <= ceil_div(nn, bb) * bb,
                forall|k: int| 0 <= k < ceil_div(nn, bb) ==> #[trigger] (k * bb) < nn,
                forall|i: int| 0 <= i < pages.pages.len() ==> #[trigger] pages.page_ok(dmat, bb, sorted, i),
            decreases n - start,
        {
            let end: usize = if n - start < batch {
                n
            } else {
                start + batch
            };
            let ghost m = pages.pages.len() as int;
            let ghost was = pages;
            proof {
                assert((m + 1) * bb == m * bb + bb) by (nonlinear_arith);
                assert(m * bb < nn);
            }
            let page: CscPage = if sorted {
                CscPage::build_sorted(dmat, start..end)
            } else {
                CscPage::build(dmat, start..end)
            };
            pages.pages.push(page);
            proof {
                assert forall|i: int| 0 <= i < pages.pages.len() implies #[trigger] pages.page_ok(
                    dmat,
                    bb,
                    sorted,
                    i,
                ) by {
                    if i < m {
                        assert(was.page_ok(dmat, bb, sorted, i));
                        assert(pages.pages[i] == was.pages[i]);
                    }
                }
                if end < n {
                    if m + 1 >= ceil_div(nn, bb) {
                        assert((m + 1) * bb >= ceil_div(nn, bb) * bb) by (nonlinear_arith)
                            requires
                                m + 1 >= ceil_div(nn, bb),
                                0 < bb,
                        ;
                    }
                }
            }
            start = end;
        }
        proof {
            let m = pages.pages.len() as int;
            if m < ceil_div(nn, bb) {
                assert(m * bb < nn);
            }
        }
        if pages.pages.len() == 0 {
            let page: CscPage = if sorted {
                CscPage::build_sorted(dmat, 0..0)
            } else {
                CscPage::build(dmat, 0..0)
            };
            pages.pages.push(page);
            assert(pages.page_ok(dmat, bb, sorted, 0));
        }
        pages
    }

    pub fn len(&self) -> (n: usize)
        ensures
            n == self.pages.len(),
    {
        self.pages.len()
    }

    pub fn is_empty(&self) -> (empty: bool)
        ensures
            empty == (self.pages.len() == 0),
    {
        self.pages.len() == 0
    }

    /// The single page, for callers that never batch.
    pub fn single(&self) -> (page: &CscPage)
        requires
            self.pages.len() == 1,
        ensures
            *page == self.pages[0],
    {
        &self.pages[0]
    }
}

/// Every stored entry of a column is in exactly one page: the pages' entries, one page after
/// the other, are the column's.
pub proof fn lemma_pages_cover(dmat: &DMatrix, batch: int, c: int, i: int)
    requires
        dmat.wf(),
        0 < batch,
        0 <= i,
    ensures
        entries_of(dmat.index@, c, 0, dmat.row_ptr[page_start(dmat.info.num_row as int, batch, i + 1)] as int)
            == entries_of(dmat.index@, c, 0, dmat.row_ptr[page_start(dmat.info.num_row as int, batch, i)] as int)
            + entries_of(
            dmat.index@,
            c,
            dmat.row_ptr[page_start(dmat.info.num_row as int, batch, i)] as int,
            dmat.row_ptr[page_start(dmat.info.num_row as int, batch, i + 1)] as int,
        ),
{
    let n = dmat.info.num_row as int;
    assert(0 <= i * batch && (i + 1) * batch == i * batch + batch) by (nonlinear_arith)
        requires
            0 <= i,
            0 < batch,
    ;
    let a = page_start(n, batch, i);
    let b = page_start(n, batch, i + 1);
    assert(dmat.row_ptr[0] <= dmat.row_ptr[a]);
    assert(dmat.row_ptr[a] <= dmat.row_ptr[b]);
    lemma_entries_concat(dmat.index@, c, 0, dmat.row_ptr[a] as int, dmat.row_ptr[b] as int);
}

/// A stored entry has one row.
pub(crate) proof fn lemma_one_row(dmat: &DMatrix, a: int, b: int, k: int)
    requires
        dmat.wf(),
        0 <= a < dmat.info.num_row,
        0 <= b < dmat.info.num_row,
        dmat.in_row(a, k),
        dmat.in_row(b, k),
    ensures
        a == b,
{
    if a < b {
        assert(dmat.row_ptr[a + 1] <= dmat.row_ptr[b]);
    } else if b < a {
        assert(dmat.row_ptr[b + 1] <= dmat.row_ptr[a]);
    }
}

/// Rows do not descend with the stored entries.
proof fn lemma_rows_in_order(dmat: &DMatrix, a: int, b: int, j: int, k: int)
    requires
        dmat.wf(),
        0 <= a < dmat.info.num_row,
        0 <= b < dmat.info.num_row,
        dmat.in_row(a, j),
        dmat.in_row(b, k),
        j <= k,
    ensures
        a <= b,
{
    if b < a {
        assert(dmat.row_ptr[b + 1] <= dmat.row_ptr[a]);
    }
}

/// `order` names every one of the first `n` places once.
pub open spec fn rearranges(order: Seq<usize>, n: int) -> bool {
    &&& order.len() == n
    &&& order.no_duplicates()
    &&& forall|i: int| 0 <= i < order.len() ==> #[trigger] order[i] < n
}

/// One column is another, its entries taken in another order.
pub open spec fn column_rearranged(a: &CscPage, b: &CscPage, c: int, order: Seq<usize>) -> bool {
    &&& rearranges(order, b.rows(c).len() as int)
    &&& a.rows(c) == Seq::new(order.len(), |j: int| b.rows(c)[order[j] as int])
    &&& a.values(c) == Seq::new(order.len(), |j: int| b.values(c)[order[j] as int])
}

/// A sorted page holds the columns of the plain page of the same rows, rearranged: values
/// ascend, and equal values are in row order.
pub proof fn lemma_sorted_rearranges(dmat: &DMatrix, sorted: &CscPage, plain: &CscPage, from: int, to: int, c: int)
    requires
        dmat.wf(),
        0 <= from <= to <= dmat.info.num_row,
        sorted.transposes_sorted(dmat, from, to),
        plain.transposes(dmat, from, to),
        0 <= c < dmat.info.num_col,
    ensures
        sorted.num_col == plain.num_col,
        exists|order: Seq<usize>| #[trigger] column_rearranged(sorted, plain, c, order),
        forall|j: int, k: int|
            0 <= j < k < sorted.rows(c).len() ==> rank(#[trigger] sorted.values(c)[j]) <= rank(
                #[trigger] sorted.values(c)[k],
            ) && (rank(sorted.values(c)[j]) == rank(sorted.values(c)[k]) ==> sorted.rows(c)[j] <= sorted.rows(c)[k]),
{
    let ks = entries_of(dmat.index@, c, dmat.row_ptr[from] as int, dmat.row_ptr[to] as int);
    let keys = entry_keys(dmat, ks);
    assert(sorted.sorted_column(dmat, from, to, c));
    assert(plain.holds(dmat, c, ks));
    let order = choose|order: Seq<usize>|
        #[trigger] sorts(keys, order) && sorted.holds(dmat, c, Seq::new(order.len(), |j: int| ks[order[j] as int]));
    let picked = Seq::new(order.len(), |j: int| ks[order[j] as int]);
    assert(sorted.holds(dmat, c, picked));
    assert(dmat.row_ptr[from] <= dmat.row_ptr[to]);
    assert(dmat.row_ptr[to] <= dmat.row_ptr[dmat.info.num_row as int]);
    lemma_entries_of(dmat.index@, c, dmat.row_ptr[from] as int, dmat.row_ptr[to] as int);
    assert(sorted.wf() && plain.wf());
    assert(sorted.col_ptr[c] <= sorted.col_ptr[c + 1] && sorted.col_ptr[c + 1] <= sorted.col_ptr[sorted.num_col as int]);
    assert(plain.col_ptr[c] <= plain.col_ptr[c + 1] && plain.col_ptr[c + 1] <= plain.col_ptr[plain.num_col as int]);
    assert forall|i: int, j: int| 0 <= i < order.len() && 0 <= j < order.len() && i != j implies order[i] != order[j] by {
        if i < j {
            assert(comes_before(keys, order[i] as int, order[j] as int));
        } else {
            assert(comes_before(keys, order[j] as int, order[i] as int));
        }
    }
    assert forall|j: int| 0 <= j < order.len() implies sorted.rows(c)[j] == #[trigger] plain.rows(c)[order[j] as int]
        && sorted.values(c)[j] == plain.values(c)[order[j] as int] by {
        assert(order[j] < ks.len());
        let a = sorted.rows(c)[j] as int;
        let b = plain.rows(c)[order[j] as int] as int;
        assert(dmat.in_row(a, picked[j]));
        assert(dmat.in_row(b, ks[order[j] as int]));
        lemma_one_row(dmat, a, b, picked[j]);
    }
    assert(sorted.rows(c) =~= Seq::new(order.len(), |j: int| plain.rows(c)[order[j] as int]));
    assert forall|j: int| 0 <= j < order.len() implies #[trigger] sorted.values(c)[j] == plain.values(c)[order[j] as int] by {
        assert(sorted.rows(c)[j] == plain.rows(c)[order[j] as int]);
    }
    assert(sorted.values(c) =~= Seq::new(order.len(), |j: int| plain.values(c)[order[j] as int]));
    assert(column_rearranged(sorted, plain, c, order));
    assert forall|j: int, k: int| 0 <= j < k < sorted.rows(c).len() implies rank(#[trigger] sorted.values(c)[j]) <= rank(
        #[trigger] sorted.values(c)[k],
    ) && (rank(sorted.values(c)[j]) == rank(sorted.values(c)[k]) ==> sorted.rows(c)[j] <= sorted.rows(c)[k]) by {
        let a = order[j] as int;
        let b = order[k] as int;
        assert(comes_before(keys, order[j] as int, order[k] as int));
        assert(sorted.rows(c)[j] < dmat.info.num_row && sorted.values(c)[j] == dmat.value[picked[j]]);
        assert(sorted.rows(c)[k] < dmat.info.num_row && sorted.values(c)[k] == dmat.value[picked[k]]);
        assert(keys[a] == value_key_spec(sorted.values(c)[j]));
        assert(keys[b] == value_key_spec(sorted.values(c)[k]));
        lemma_key_order(sorted.values(c)[j], sorted.values(c)[k]);
        if rank(sorted.values(c)[j]) == rank(sorted.values(c)[k]) {
            assert(a < b);
            assert(ks[a] < ks[b]);
            lemma_rows_in_order(dmat, sorted.rows(c)[j] as int, sorted.rows(c)[k] as int, ks[a], ks[b]);
        }
    }
}

/// The rows of a column over the first `n` pages, one page after the other.
pub open spec fn joined_rows(pages: Seq<CscPage>, c: int, n: int) -> Seq<u32>
    decreases n,
{
    if n <= 0 {
        Seq::empty()
    } else {
        joined_rows(pages, c, n - 1) + pages[n - 1].rows(c)
    }
}

/// The values of a column over the first `n` pages, one page after the other.
pub open spec fn joined_values(pages: Seq<CscPage>, c: int, n: int) -> Seq<u32>
    decreases n,
{
    if n <= 0 {
        Seq::empty()
    } else {
        joined_values(pages, c, n - 1) + pages[n - 1].values(c)
    }
}

/// A column over the first pages holds the column's entries of their rows.
proof fn lemma_joined_holds(dmat: &DMatrix, pages: &CscPages, batch: int, c: int, n: int)
    requires
        dmat.wf(),
        0 < batch,
        0 <= n <= pages.pages.len(),
        0 <= c < dmat.info.num_col,
        forall|i: int| 0 <= i < pages.pages.len() ==> #[trigger] pages.page_ok(dmat, batch, false, i),
    ensures
        ({
            let ks = entries_of(
                dmat.index@,
                c,
                0,
                dmat.row_ptr[page_start(dmat.info.num_row as int, batch, n)] as int,
            );
            let rows = joined_rows(pages.pages@, c, n);
            let values = joined_values(pages.pages@, c, n);
            &&& rows.len() == ks.len()
            &&& values.len() == ks.len()
            &&& forall|j: int|
                0 <= j < ks.len() ==> (#[trigger] rows[j]) < dmat.info.num_row && dmat.in_row(rows[j] as int, ks[j])
                    && values[j] == dmat.value[ks[j]]
        }),
    decreases n,
{
    let total = dmat.info.num_row as int;
    if n > 0 {
        lemma_joined_holds(dmat, pages, batch, c, n - 1);
        lemma_pages_cover(dmat, batch, c, n - 1);
        let a = dmat.row_ptr[page_start(total, batch, n - 1)] as int;
        let b = dmat.row_ptr[page_start(total, batch, n)] as int;
        let head = entries_of(dmat.index@, c, 0, a);
        let part = entries_of(dmat.index@, c, a, b);
        let ks = entries_of(dmat.index@, c, 0, b);
        assert(ks == head + part);
        let page = pages.pages[n - 1];
        assert(pages.page_ok(dmat, batch, false, n - 1));
        assert(page.holds(dmat, c, part));
        assert(page.col_ptr[c] <= page.col_ptr[c + 1] && page.col_ptr[c + 1] <= page.col_ptr[page.num_col as int]);
        let rows = joined_rows(pages.pages@, c, n);
        let values = joined_values(pages.pages@, c, n);
        let before = joined_rows(pages.pages@, c, n - 1);
        assert forall|j: int| 0 <= j < ks.len() implies (#[trigger] rows[j]) < dmat.info.num_row && dmat.in_row(
            rows[j] as int,
            ks[j],
        ) && values[j] == dmat.value[ks[j]] by {
            if j < head.len() {
                assert(rows[j] == before[j]);
            } else {
                assert(rows[j] == page.rows(c)[j - head.len()]);
            }
        }
    } else {
        assert(0 * batch == 0) by (nonlinear_arith);
        assert(entries_of(dmat.index@, c, 0, 0).len() == 0);
    }
}

/// The pages of a matrix, joined one after the other, are the page of all its rows: page `p`
/// covers the rows from `p` batches on, and the last ends with the matrix.
pub proof fn lemma_pages_joined(dmat: &DMatrix, pages: &CscPages, whole: &CscPage, rows_per_batch: Option<usize>, c: int)
    requires
        dmat.wf(),
        0 <= c < dmat.info.num_col,
        ({
            let n = dmat.info.num_row as int;
            let batch = batch_rows(n, rows_per_batch);
            &&& pages.pages.len() == max_of(ceil_div(n, batch), 1)
            &&& forall|i: int| 0 <= i < pages.pages.len() ==> #[trigger] pages.page_ok(dmat, batch, false, i)
        }),
        whole.transposes(dmat, 0, dmat.info.num_row as int),
    ensures
        joined_rows(pages.pages@, c, pages.pages.len() as int) == whole.rows(c),
        joined_values(pages.pages@, c, pages.pages.len() as int) == whole.values(c),
{
    let n = dmat.info.num_row as int;
    let batch = batch_rows(n, rows_per_batch);
    let count = pages.pages.len() as int;
    lemma_joined_holds(dmat, pages, batch, c, count);
    assert(count * batch >= n) by {
        lemma_ceil_div(n, batch);
        if n == 0 {
            assert(count * batch >= 0) by (nonlinear_arith)
                requires
                    count >= 0,
                    batch >= 0,
            ;
        }
    }
    assert(page_start(n, batch, count) == n);
    let ks = entries_of(dmat.index@, c, 0, dmat.row_ptr[n] as int);
    assert(whole.holds(dmat, c, entries_of(dmat.index@, c, dmat.row_ptr[0] as int, dmat.row_ptr[n] as int)));
    assert(whole.col_ptr[c] <= whole.col_ptr[c + 1] && whole.col_ptr[c + 1] <= whole.col_ptr[whole.num_col as int]);
    let rows = joined_rows(pages.pages@, c, count);
    let values = joined_values(pages.pages@, c, count);
    assert forall|j: int| 0 <= j < ks.len() implies #[trigger] rows[j] == whole.rows(c)[j] && values[j]
        == whole.values(c)[j] by {
        let a = rows[j] as int;
        let b = whole.rows(c)[j] as int;
        assert(dmat.in_row(a, ks[j]) && dmat.in_row(b, ks[j]));
        lemma_one_row(dmat, a, b, ks[j]);
    }
    assert(rows =~= whole.rows(c));
    assert forall|j: int| 0 <= j < ks.len() implies #[trigger] values[j] == whole.values(c)[j] by {
        assert(rows[j] == whole.rows(c)[j]);
    }
    assert(values =~= whole.values(c));
}

/// A page takes as many rows as were asked for, one at least and no more than there are; with nothing
/// asked for it takes them all.
pub proof fn lemma_batch_rows(n: int, rows_per_batch: Option<usize>)
    requires
        0 <= n <= usize::MAX,
    ensures
        1 <= batch_rows(n, rows_per_batch),
        n >= 1 ==> batch_rows(n, rows_per_batch) <= n,
        rows_per_batch is None && n >= 1 ==> batch_rows(n, rows_per_batch) == n,
        rows_per_batch matches Some(b) && 1 <= b <= n ==> batch_rows(n, rows_per_batch) == rows_per_batch->0,
{
}

/// The pages begin with the first row, and each but the last is full.
pub proof fn lemma_page_starts(n: int, batch: int, i: int)
    requires
        0 <= n,
        1 <= batch,
        0 <= i,
    ensures
        page_start(n, batch, 0) == 0,
        page_start(n, batch, i) <= page_start(n, batch, i + 1) <= n,
        page_start(n, batch, i + 1) < n ==> page_start(n, batch, i + 1) == page_start(n, batch, i) + batch,
        page_start(n, batch, max_of(ceil_div(n, batch), 1)) == n,
{
    assert((i + 1) * batch == i * batch + batch) by (nonlinear_arith);
    assert(0 * batch == 0) by (nonlinear_arith);
    crate::gpu::launch::lemma_ceil_div(n, batch);
    assert(1 * batch == batch);
}

/// Every entry of the page's rows stands in its column, under its row and with its value.
pub proof fn lemma_transposed(page: &CscPage, dmat: &DMatrix, from: int, to: int, r: int, k: int)
    requires
        dmat.wf(),
        page.transposes(dmat, from, to),
        0 <= from <= r < to <= dmat.info.num_row,
        dmat.in_row(r, k),
    ensures
        exists|j: int|
            0 <= j < page.rows(dmat.index[k] as int).len() && #[trigger] page.rows(dmat.index[k] as int)[j] == r
                && page.values(dmat.index[k] as int)[j] == dmat.value[k],
{
    let c = dmat.index[k] as int;
    let lo = dmat.row_ptr[from] as int;
    let hi = dmat.row_ptr[to] as int;
    let ks = entries_of(dmat.index@, c, lo, hi);
    assert(dmat.row_ptr[from] <= dmat.row_ptr[r] && dmat.row_ptr[r + 1] <= dmat.row_ptr[to]);
    assert(dmat.row_ptr[to] <= dmat.row_ptr[dmat.info.num_row as int]);
    lemma_entries_of(dmat.index@, c, lo, hi);
    assert(dmat.index[k] < dmat.info.num_col);
    assert(page.holds(dmat, c, ks));
    assert(ks.contains(k));
    let j = choose|j: int| 0 <= j < ks.len() && ks[j] == k;
    let q = page.rows(c)[j] as int;
    assert(dmat.in_row(q, k));
    if q < r {
        assert(dmat.row_ptr[q + 1] <= dmat.row_ptr[r]);
    } else if r < q {
        assert(dmat.row_ptr[r + 1] <= dmat.row_ptr[q]);
    }
}

} // verus!
