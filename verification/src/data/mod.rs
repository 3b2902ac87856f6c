//! Training data: [`DMatrix`] and its [`MetaInfo`].
//!
//! Rows are stored one after the other, with missing values simply absent. Dense input is
//! the special case where every row holds an entry for every feature;
//! [`DMatrix::is_dense`] reports it. Numbers are held as their bit patterns.

pub mod csc;
pub mod cuts;
pub mod gradient_index;
pub mod libsvm;
pub mod radix;

use vstd::prelude::*;

use crate::error::Error;
use crate::float_bits::{is_nan_bits, is_nan_spec, lt_spec, same, same_spec};

verus! {

/// The bits of `1.0`.
pub const ONE_BITS: u32 = 0x3F80_0000;

/// Labels and per-row metadata attached to a [`DMatrix`].
#[derive(Clone, Debug, PartialEq, Eq)]
pub struct MetaInfo {
    pub num_row: usize,
    pub num_col: usize,
    pub labels: Vec<u32>,
    pub weights: Option<Vec<u32>>,
    pub base_margin: Option<Vec<u32>>,
}

impl MetaInfo {
    /// Weight of row `i`, one when the matrix is unweighted.
    pub fn weight(&self, i: usize) -> (w: u32)
        requires
            self.weights matches Some(weights) ==> i < weights.len(),
        ensures
            w == (match self.weights {
                Some(weights) => weights[i as int],
                None => ONE_BITS,
            }),
    {
        match &self.weights {
            Some(weights) => weights[i],
            None => ONE_BITS,
        }
    }

    /// Nothing but a shape.
    fn shaped(num_row: usize, num_col: usize) -> (info: Self)
        ensures
            info.num_row == num_row,
            info.num_col == num_col,
            info.labels@ == Seq::<u32>::empty(),
            info.weights is None,
            info.base_margin is None,
    {
        MetaInfo { num_row, num_col, labels: Vec::new(), weights: None, base_margin: None }
    }
}

/// A feature matrix by rows, plus its [`MetaInfo`].
#[derive(Clone, Debug, PartialEq, Eq)]
pub struct DMatrix {
    /// Row offsets into `index` and `value`, one more than there are rows.
    pub row_ptr: Vec<usize>,
    /// Column index of each stored entry.
    pub index: Vec<u32>,
    /// Value of each stored entry.
    pub value: Vec<u32>,
    pub info: MetaInfo,
}

/// A stored entry: its column and its value.
pub type Cell = (u32, u32);

/// A value that is absent from the matrix: not a number, or equal to the value that marks
/// missing ones.
pub open spec fn missing_value(v: u32, missing: u32) -> bool {
    is_nan_spec(v) || same_spec(v, missing)
}

fn is_missing(v: u32, missing: u32) -> (yes: bool)
    ensures
        yes == missing_value(v, missing),
{
    // NaN never compares equal, so it needs the explicit check.
    is_nan_bits(v) || same(v, missing)
}

/// The entries that the first `n` columns of row `r` of a row-major buffer give.
pub open spec fn dense_cells(data: Seq<u32>, ncol: int, missing: u32, r: int, n: int) -> Seq<Cell>
    decreases n,
{
    if n <= 0 {
        Seq::empty()
    } else {
        let rest = dense_cells(data, ncol, missing, r, n - 1);
        let v = data[r * ncol + n - 1];
        if missing_value(v, missing) {
            rest
        } else {
            rest.push(((n - 1) as u32, v))
        }
    }
}

/// The entries that positions `from..to` of the given columns and values give.
pub open spec fn kept_cells(index: Seq<u32>, value: Seq<u32>, missing: u32, from: int, to: int) -> Seq<Cell>
    decreases to - from,
{
    if to <= from {
        Seq::empty()
    } else {
        let rest = kept_cells(index, value, missing, from, to - 1);
        if missing_value(value[to - 1], missing) {
            rest
        } else {
            rest.push((index[to - 1], value[to - 1]))
        }
    }
}

impl DMatrix {
    /// The offsets divide the entries into rows, and every entry has a column of the
    /// matrix.
    pub open spec fn wf(&self) -> bool {
        &&& self.row_ptr.len() == self.info.num_row + 1
        &&& self.row_ptr[0] == 0
        &&& forall|a: int, b: int|
            0 <= a <= b < self.row_ptr.len() ==> #[trigger] self.row_ptr[a] <= #[trigger] self.row_ptr[b]
        &&& self.row_ptr[self.info.num_row as int] == self.index.len()
        &&& self.value.len() == self.index.len()
        &&& forall|k: int| 0 <= k < self.index.len() ==> #[trigger] self.index[k] < self.info.num_col
    }

    /// Stored entry `k`.
    pub open spec fn cell(&self, k: int) -> Cell {
        (self.index[k], self.value[k])
    }

    /// The entries of row `r`, in stored order.
    pub open spec fn cells(&self, r: int) -> Seq<Cell> {
        Seq::new(
            (self.row_ptr[r + 1] - self.row_ptr[r]) as nat,
            |k: int| self.cell(self.row_ptr[r] + k),
        )
    }

    /// Entry `k` of the matrix belongs to row `r`.
    pub open spec fn in_row(&self, r: int, k: int) -> bool {
        self.row_ptr[r] <= k < self.row_ptr[r + 1]
    }

    /// Every row's columns ascend.
    pub open spec fn columns_ascend(&self) -> bool {
        forall|r: int, a: int, b: int|
            0 <= r < self.info.num_row && #[trigger] self.in_row(r, a) && #[trigger] self.in_row(r, b) && a < b
                ==> self.index[a] < self.index[b]
    }

    /// No later entry of row `r` has the column of entry `k`: where a row names a column more
    /// than once, its last value stands.
    pub open spec fn stands(&self, r: int, k: int) -> bool {
        &&& self.in_row(r, k)
        &&& forall|j: int| #[trigger] self.in_row(r, j) && k < j ==> self.index[j] != self.index[k]
    }

    /// Row `r` has a value for column `c`.
    pub open spec fn stores(&self, r: int, c: int) -> bool {
        exists|k: int| #[trigger] self.in_row(r, k) && self.index[k] == c
    }

    /// Every row has a value for every column.
    pub open spec fn dense(&self) -> bool {
        forall|r: int, c: int| 0 <= r < self.info.num_row && 0 <= c < self.info.num_col ==> #[trigger] self.stores(r, c)
    }

    /// Build from a row-major dense buffer, dropping entries equal to `missing` (a NaN for
    /// the default).
    pub fn from_dense(data: &[u32], nrow: usize, ncol: usize, missing: u32) -> (result: Result<Self, Error>)
        requires
            nrow * ncol <= usize::MAX,
            ncol <= u32::MAX,
            nrow < usize::MAX,
        ensures
            result is Ok <==> data.len() == nrow * ncol,
            result matches Err(e) ==> e == (Error::DataShape {
                expected: (nrow * ncol) as usize,
                got: data.len(),
            }),
            result matches Ok(d) ==> {
                &&& d.wf()
                &&& d.columns_ascend()
                &&& d.info.num_row == nrow
                &&& d.info.num_col == ncol
                &&& d.info.labels@ == Seq::<u32>::empty()
                &&& d.info.weights is None
                &&& d.info.base_margin is None
                &&& forall|r: int|
                    0 <= r < nrow ==> #[trigger] d.cells(r) == dense_cells(data@, ncol as int, missing, r, ncol as int)
            },
    {
        if data.len() != nrow * ncol {
            return Err(Error::DataShape { expected: nrow * ncol, got: data.len() });
        }
        let mut row_ptr: Vec<usize> = Vec::with_capacity(nrow);
        let mut index: Vec<u32> = Vec::with_capacity(data.len());
        let mut value: Vec<u32> = Vec::with_capacity(data.len());
        row_ptr.push(0);
        let mut r: usize = 0;
        while r < nrow
            invariant
                data.len() == nrow * ncol,
                ncol <= u32::MAX,
                r <= nrow,
                row_ptr.len() == r + 1,
                row_ptr[0] == 0,
                row_ptr[r as int] == index.len(),
                value.len() == index.len(),
                forall|a: int, b: int|
                    0 <= a <= b < row_ptr.len() ==> #[trigger] row_ptr[a] <= #[trigger] row_ptr[b],
                forall|k: int| 0 <= k < index.len() ==> #[trigger] index[k] < ncol,
                forall|i: int|
                    0 <= i < r ==> #[trigger] row_holds(
                        row_ptr@,
                        index@,
                        value@,
                        i,
                        dense_cells(data@, ncol as int, missing, i, ncol as int),
                    ),
            decreases nrow - r,
        {
            let ghost ptrs = row_ptr@;
            let ghost idx0 = index@;
            let ghost val0 = value@;
            let first: usize = index.len();
            proof {
                assert(0 <= r * ncol && r * ncol + ncol <= nrow * ncol) by (nonlinear_arith)
                    requires
                        0 <= r,
                        r + 1 <= nrow,
                        0 <= ncol,
                ;
            }
            let mut c: usize = 0;
            while c < ncol
                invariant
                    data.len() == nrow * ncol,
                    ncol <= u32::MAX,
                    r < nrow,
                    0 <= r * ncol,
                    r * ncol + ncol <= nrow * ncol,
                    c <= ncol,
                    first == idx0.len(),
                    idx0.len() == val0.len(),
                    value.len() == index.len(),
                    index.len() == first + dense_cells(data@, ncol as int, missing, r as int, c as int).len(),
                    forall|k: int| 0 <= k < index.len() ==> #[trigger] index[k] < ncol,
                    forall|k: int| 0 <= k < first ==> #[trigger] index[k] == idx0[k],
                    forall|k: int| 0 <= k < first ==> #[trigger] value[k] == val0[k],
                    forall|k: int|
                        0 <= k < dense_cells(data@, ncol as int, missing, r as int, c as int).len() ==> (
                            index[first + k],
                            value[first + k],
                        ) == #[trigger] dense_cells(data@, ncol as int, missing, r as int, c as int)[k],
                decreases ncol - c,
            {
                let v: u32 = data[r * ncol + c];
                if !is_missing(v, missing) {
                    index.push(c as u32);
                    value.push(v);
                }
                c += 1;
            }
            row_ptr.push(index.len());
            proof {
                let want = dense_cells(data@, ncol as int, missing, r as int, ncol as int);
                assert(row_holds(row_ptr@, index@, value@, r as int, want)) by {
                    assert forall|k: int| 0 <= k < want.len() implies (
                        index@[row_ptr@[r as int] + k],
                        value@[row_ptr@[r as int] + k],
                    ) == #[trigger] want[k] by {
                        assert((index[first + k], value[first + k]) == want[k]);
                    }
                }
                assert forall|i: int| 0 <= i < r + 1 implies #[trigger] row_holds(
                    row_ptr@,
                    index@,
                    value@,
                    i,
                    dense_cells(data@, ncol as int, missing, i, ncol as int),
                ) by {
                    if i < r {
                        let cells = dense_cells(data@, ncol as int, missing, i, ncol as int);
                        assert(row_holds(ptrs, idx0, val0, i, cells));
                        assert(row_ptr[i] == ptrs[i] && row_ptr[i + 1] == ptrs[i + 1]);
                        assert(ptrs[i + 1] <= ptrs[r as int]);
                        assert forall|k: int| 0 <= k < cells.len() implies (
                            index@[row_ptr@[i] + k],
                            value@[row_ptr@[i] + k],
                        ) == #[trigger] cells[k] by {
                            assert((idx0[ptrs[i] + k], val0[ptrs[i] + k]) == cells[k]);
                        }
                    }
                }
            }
            r += 1;
        }
        let d = DMatrix { row_ptr, index, value, info: MetaInfo::shaped(nrow, ncol) };
        proof {
            assert forall|r: int| 0 <= r < nrow implies #[trigger] d.cells(r) == dense_cells(
                data@,
                ncol as int,
                missing,
                r,
                ncol as int,
            ) by {
                assert(row_holds(
                    row_ptr@,
                    index@,
                    value@,
                    r,
                    dense_cells(data@, ncol as int, missing, r, ncol as int),
                ));
                assert(d.cells(r) =~= dense_cells(data@, ncol as int, missing, r, ncol as int));
            }
            assert forall|r: int, a: int, b: int|
                0 <= r < nrow && #[trigger] d.in_row(r, a) && #[trigger] d.in_row(r, b) && a < b implies d.index[a]
                < d.index[b] by {
                let first = d.row_ptr[r] as int;
                assert(d.cells(r) == dense_cells(data@, ncol as int, missing, r, ncol as int));
                lemma_dense_ascend(data@, ncol as int, missing, r, ncol as int, a - first, b - first);
                assert(d.cells(r)[a - first] == d.cell(a));
                assert(d.cells(r)[b - first] == d.cell(b));
            }
        }
        Ok(d)
    }

    /// Build from row offsets, columns and values, dropping entries equal to `missing`.
    /// `row_ptr` holds one more offset than there are rows.
    pub fn from_csr(row_ptr: &[usize], index: &[u32], value: &[u32], ncol: usize, missing: u32) -> (result: Result<
        Self,
        Error,
    >)
        requires
            index.len() == value.len() ==> forall|a: int|
                0 <= a < row_ptr.len() - 1 ==> #[trigger] row_ptr[a] < row_ptr[a + 1] ==> row_ptr[a + 1]
                    <= value.len(),
        ensures
            result is Ok <==> row_ptr.len() > 0 && index.len() == value.len() && !csr_stray(
                row_ptr@,
                index@,
                value@,
                ncol as int,
                missing,
                row_ptr.len() - 1,
            ),
            row_ptr.len() == 0 ==> result == Err::<Self, Error>(Error::DataShape { expected: 1, got: 0 }),
            row_ptr.len() > 0 && index.len() != value.len() ==> result == Err::<Self, Error>(
                Error::DataShape { expected: index.len(), got: value.len() },
            ),
            row_ptr.len() > 0 && index.len() == value.len() ==> (result matches Err(e) ==> exists|r: int, k: int|
                #[trigger] is_first_stray(row_ptr@, index@, value@, ncol as int, missing, r, k) && e == (
                Error::FeatureIndex { index: index[k] as usize, num_col: ncol })),
            result matches Ok(d) ==> {
                &&& d.wf()
                &&& d.info.num_row == row_ptr.len() - 1
                &&& d.info.num_col == ncol
                &&& d.info.labels@ == Seq::<u32>::empty()
                &&& d.info.weights is None
                &&& d.info.base_margin is None
                &&& forall|r: int|
                    0 <= r < d.info.num_row ==> #[trigger] d.cells(r) == kept_cells(
                        index@,
                        value@,
                        missing,
                        row_ptr[r] as int,
                        row_ptr[r + 1] as int,
                    )
            },
    {
        if row_ptr.len() == 0 {
            return Err(Error::DataShape { expected: 1, got: 0 });
        }
        if index.len() != value.len() {
            return Err(Error::DataShape { expected: index.len(), got: value.len() });
        }
        let nrow: usize = row_ptr.len() - 1;
        let mut out_ptr: Vec<usize> = Vec::with_capacity(nrow);
        let mut out_idx: Vec<u32> = Vec::with_capacity(index.len());
        let mut out_val: Vec<u32> = Vec::with_capacity(value.len());
        out_ptr.push(0);
        let mut r: usize = 0;
        while r < nrow
            invariant
                index.len() == value.len(),
                nrow == row_ptr.len() - 1,
                forall|a: int|
                    0 <= a < row_ptr.len() - 1 ==> #[trigger] row_ptr[a] < row_ptr[a + 1] ==> row_ptr[a + 1]
                        <= value.len(),
                r <= nrow,
                !csr_stray(row_ptr@, index@, value@, ncol as int, missing, r as int),
                out_ptr.len() == r + 1,
                out_ptr[0] == 0,
                out_ptr[r as int] == out_idx.len(),
                out_val.len() == out_idx.len(),
                forall|a: int, b: int|
                    0 <= a <= b < out_ptr.len() ==> #[trigger] out_ptr[a] <= #[trigger] out_ptr[b],
                forall|k: int| 0 <= k < out_idx.len() ==> #[trigger] out_idx[k] < ncol,
                forall|i: int|
                    0 <= i < r ==> #[trigger] row_holds(
                        out_ptr@,
                        out_idx@,
                        out_val@,
                        i,
                        kept_cells(index@, value@, missing, row_ptr[i] as int, row_ptr[i + 1] as int),
                    ),
            decreases nrow - r,
        {
            let ghost ptrs = out_ptr@;
            let ghost idx0 = out_idx@;
            let ghost val0 = out_val@;
            let first: usize = out_idx.len();
            let from: usize = row_ptr[r];
            let to: usize = row_ptr[r + 1];
            let mut k: usize = from;
            while k < to
                invariant
                    index.len() == value.len(),
                    nrow == row_ptr.len() - 1,
                    r < nrow,
                    from == row_ptr[r as int],
                    to == row_ptr[r + 1],
                    from < to ==> to <= value.len(),
                    from <= k,
                    from <= to ==> k <= to,
                    from > to ==> k == from,
                    !csr_stray(row_ptr@, index@, value@, ncol as int, missing, r as int),
                    forall|j: int|
                        from <= j < k ==> !#[trigger] stray(index@, value@, ncol as int, missing, j),
                    first == idx0.len(),
                    idx0.len() == val0.len(),
                    out_val.len() == out_idx.len(),
                    out_idx.len() == first + kept_cells(index@, value@, missing, from as int, k as int).len(),
                    forall|j: int| 0 <= j < out_idx.len() ==> #[trigger] out_idx[j] < ncol,
                    forall|j: int| 0 <= j < first ==> #[trigger] out_idx[j] == idx0[j],
                    forall|j: int| 0 <= j < first ==> #[trigger] out_val[j] == val0[j],
                    forall|j: int|
                        0 <= j < kept_cells(index@, value@, missing, from as int, k as int).len() ==> (
                            out_idx[first + j],
                            out_val[first + j],
                        ) == #[trigger] kept_cells(index@, value@, missing, from as int, k as int)[j],
                decreases to - k,
            {
                let v: u32 = value[k];
                if !is_missing(v, missing) {
                    if index[k] as usize >= ncol {
                        proof {
                            assert(stray(index@, value@, ncol as int, missing, k as int));
                            assert(is_first_stray(
                                row_ptr@,
                                index@,
                                value@,
                                ncol as int,
                                missing,
                                r as int,
                                k as int,
                            ));
                            assert(stray_in(row_ptr@, index@, value@, ncol as int, missing, r as int));
                        }
                        return Err(Error::FeatureIndex { index: index[k] as usize, num_col: ncol });
                    }
                    out_idx.push(index[k]);
                    out_val.push(v);
                }
                k += 1;
            }
            out_ptr.push(out_idx.len());
            proof {
                let want = kept_cells(index@, value@, missing, from as int, to as int);
                assert(row_holds(out_ptr@, out_idx@, out_val@, r as int, want)) by {
                    assert forall|j: int| 0 <= j < want.len() implies (
                        out_idx@[out_ptr@[r as int] + j],
                        out_val@[out_ptr@[r as int] + j],
                    ) == #[trigger] want[j] by {
                        assert((out_idx[first + j], out_val[first + j]) == want[j]);
                    }
                }
                assert forall|i: int| 0 <= i < r + 1 implies #[trigger] row_holds(
                    out_ptr@,
                    out_idx@,
                    out_val@,
                    i,
                    kept_cells(index@, value@, missing, row_ptr[i] as int, row_ptr[i + 1] as int),
                ) by {
                    if i < r {
                        let cells = kept_cells(index@, value@, missing, row_ptr[i] as int, row_ptr[i + 1] as int);
                        assert(row_holds(ptrs, idx0, val0, i, cells));
                        assert(out_ptr[i] == ptrs[i] && out_ptr[i + 1] == ptrs[i + 1]);
                        assert(ptrs[i + 1] <= ptrs[r as int]);
                        assert forall|j: int| 0 <= j < cells.len() implies (
                            out_idx@[out_ptr@[i] + j],
                            out_val@[out_ptr@[i] + j],
                        ) == #[trigger] cells[j] by {
                            assert((idx0[ptrs[i] + j], val0[ptrs[i] + j]) == cells[j]);
                        }
                    }
                }
                assert(!stray_in(row_ptr@, index@, value@, ncol as int, missing, r as int)) by {
                    if stray_in(row_ptr@, index@, value@, ncol as int, missing, r as int) {
                        let j = choose|j: int|
                            row_ptr[r as int] <= j < row_ptr[r + 1] && #[trigger] stray(
                                index@,
                                value@,
                                ncol as int,
                                missing,
                                j,
                            );
                        assert(from <= j < k);
                    }
                }
            }
            r += 1;
        }
        let d = DMatrix { row_ptr: out_ptr, index: out_idx, value: out_val, info: MetaInfo::shaped(nrow, ncol) };
        proof {
            assert forall|r: int| 0 <= r < nrow implies #[trigger] d.cells(r) == kept_cells(
                index@,
                value@,
                missing,
                row_ptr[r] as int,
                row_ptr[r + 1] as int,
            ) by {
                let want = kept_cells(index@, value@, missing, row_ptr[r] as int, row_ptr[r + 1] as int);
                assert(row_holds(out_ptr@, out_idx@, out_val@, r, want));
                assert(d.cells(r) =~= want);
            }
        }
        Ok(d)
    }

    /// Attach one label per row.
    pub fn set_labels(&mut self, y: &[u32]) -> (result: Result<(), Error>)
        ensures
            result is Ok <==> y.len() == old(self).info.num_row,
            result matches Err(e) ==> e == (Error::DataShape { expected: old(self).info.num_row, got: y.len() })
                && *final(self) == *old(self),
            result is Ok ==> final(self).info.labels@ == y@ && final(self).info.weights == old(self).info.weights
                && final(self).info.base_margin == old(self).info.base_margin && final(self).same_cells(old(self)),
    {
        if y.len() != self.info.num_row {
            return Err(Error::DataShape { expected: self.info.num_row, got: y.len() });
        }
        self.info.labels = copy_slice(y);
        Ok(())
    }

    /// Attach several labels per row, a row's targets side by side.
    pub fn set_labels_multi(&mut self, y: &[u32], n_targets: usize) -> (result: Result<(), Error>)
        requires
            old(self).info.num_row * n_targets <= usize::MAX,
        ensures
            result is Ok <==> y.len() == old(self).info.num_row * n_targets,
            result matches Err(e) ==> e == (Error::DataShape {
                expected: (old(self).info.num_row * n_targets) as usize,
                got: y.len(),
            }) && *final(self) == *old(self),
            result is Ok ==> final(self).info.labels@ == y@ && final(self).info.weights == old(self).info.weights
                && final(self).info.base_margin == old(self).info.base_margin && final(self).same_cells(old(self)),
    {
        let expected: usize = self.info.num_row * n_targets;
        if y.len() != expected {
            return Err(Error::DataShape { expected, got: y.len() });
        }
        self.info.labels = copy_slice(y);
        Ok(())
    }

    /// Attach one weight per row.
    pub fn set_weights(&mut self, w: &[u32]) -> (result: Result<(), Error>)
        ensures
            result is Ok <==> w.len() == old(self).info.num_row,
            result matches Err(e) ==> e == (Error::DataShape { expected: old(self).info.num_row, got: w.len() })
                && *final(self) == *old(self),
            result is Ok ==> final(self).info.weights is Some && final(self).info.weights->0@ == w@ && final(self).info.labels == old(self).info.labels && final(self).info.base_margin == old(self).info.base_margin
                && final(self).same_cells(old(self)),
    {
        if w.len() != self.info.num_row {
            return Err(Error::DataShape { expected: self.info.num_row, got: w.len() });
        }
        self.info.weights = Some(copy_slice(w));
        Ok(())
    }

    /// Attach one base margin per row.
    pub fn set_base_margin(&mut self, m: &[u32]) -> (result: Result<(), Error>)
        ensures
            result is Ok <==> m.len() == old(self).info.num_row,
            result matches Err(e) ==> e == (Error::DataShape { expected: old(self).info.num_row, got: m.len() })
                && *final(self) == *old(self),
            result is Ok ==> final(self).info.base_margin is Some && final(self).info.base_margin->0@ == m@
                && final(self).info.labels == old(self).info.labels && final(self).info.weights == old(self).info.weights && final(self).same_cells(old(self)),
    {
        if m.len() != self.info.num_row {
            return Err(Error::DataShape { expected: self.info.num_row, got: m.len() });
        }
        self.info.base_margin = Some(copy_slice(m));
        Ok(())
    }

    /// The same entries in the same shape.
    pub open spec fn same_cells(&self, other: &DMatrix) -> bool {
        &&& self.row_ptr == other.row_ptr
        &&& self.index == other.index
        &&& self.value == other.value
        &&& self.info.num_row == other.info.num_row
        &&& self.info.num_col == other.info.num_col
    }

    pub fn num_row(&self) -> (n: usize)
        ensures
            n == self.info.num_row,
    {
        self.info.num_row
    }

    pub fn num_col(&self) -> (n: usize)
        ensures
            n == self.info.num_col,
    {
        self.info.num_col
    }

    pub fn info(&self) -> (info: &MetaInfo)
        ensures
            *info == self.info,
    {
        &self.info
    }

    pub fn num_nonzero(&self) -> (n: usize)
        ensures
            n == self.index.len(),
    {
        self.index.len()
    }

    /// True when every row stores every feature, so that there are no missing values.
    pub fn is_dense(&self) -> (dense: bool)
        requires
            self.wf(),
        ensures
            dense == self.dense(),
    {
        let mut r: usize = 0;
        while r < self.info.num_row
            invariant
                self.wf(),
                r <= self.info.num_row,
                forall|q: int, c: int| 0 <= q < r && 0 <= c < self.info.num_col ==> #[trigger] self.stores(q, c),
            decreases self.info.num_row - r,
        {
            let seen: Vec<bool> = self.columns_of(r);
            let mut c: usize = 0;
            while c < seen.len()
                invariant
                    r < self.info.num_row,
                    seen.len() == self.info.num_col,
                    c <= seen.len(),
                    forall|d: int| 0 <= d < seen.len() ==> #[trigger] seen[d] == self.stores(r as int, d),
                    forall|d: int| 0 <= d < c ==> #[trigger] self.stores(r as int, d),
                decreases seen.len() - c,
            {
                if !seen[c] {
                    assert(!self.stores(r as int, c as int));
                    return false;
                }
                assert(seen[c as int] == self.stores(r as int, c as int));
                c += 1;
            }
            r += 1;
        }
        true
    }

    /// Which columns row `r` has a value for.
    fn columns_of(&self, r: usize) -> (seen: Vec<bool>)
        requires
            self.wf(),
            r < self.info.num_row,
        ensures
            seen.len() == self.info.num_col,
            forall|c: int| 0 <= c < seen.len() ==> #[trigger] seen[c] == self.stores(r as int, c),
    {
        let mut seen: Vec<bool> = vec![false; self.info.num_col];
        let end: usize = self.row_ptr[r + 1];
        let mut k: usize = self.row_ptr[r];
        assert(self.row_ptr[r as int] <= self.row_ptr[r + 1]);
        assert(self.row_ptr[r + 1] <= self.row_ptr[self.info.num_row as int]);
        while k < end
            invariant
                self.wf(),
                r < self.info.num_row,
                end == self.row_ptr[r + 1],
                end <= self.index.len(),
                self.row_ptr[r as int] <= k <= end,
                seen.len() == self.info.num_col,
                forall|c: int| 0 <= c < seen.len() && #[trigger] seen[c] ==> self.stores(r as int, c),
                forall|j: int| #[trigger] self.in_row(r as int, j) && j < k ==> seen[self.index[j] as int],
            decreases end - k,
        {
            let c: usize = self.index[k] as usize;
            proof {
                assert(self.in_row(r as int, k as int));
                assert(self.stores(r as int, c as int));
            }
            seen[c] = true;
            k += 1;
        }
        seen
    }

    /// The entries of row `i`, in stored order: its columns and its values.
    pub fn row(&self, i: usize) -> (entries: (&[u32], &[u32]))
        requires
            self.wf(),
            i < self.info.num_row,
        ensures
            entries.0@ == self.index@.subrange(self.row_ptr[i as int] as int, self.row_ptr[i + 1] as int),
            entries.1@ == self.value@.subrange(self.row_ptr[i as int] as int, self.row_ptr[i + 1] as int),
            entries.0.len() == self.cells(i as int).len(),
            entries.1.len() == self.cells(i as int).len(),
            forall|k: int|
                0 <= k < entries.0.len() ==> (entries.0[k], entries.1[k]) == #[trigger] self.cells(i as int)[k],
    {
        let b: usize = self.row_ptr[i];
        let e: usize = self.row_ptr[i + 1];
        assert(self.row_ptr[i as int] <= self.row_ptr[i + 1]);
        assert(self.row_ptr[i + 1] <= self.row_ptr[self.info.num_row as int]);
        (
            vstd::slice::slice_subrange(self.index.as_slice(), b, e),
            vstd::slice::slice_subrange(self.value.as_slice(), b, e),
        )
    }

    /// Number of stored entries per column.
    pub fn column_sizes(&self) -> (sizes: Vec<usize>)
        requires
            self.wf(),
        ensures
            sizes.len() == self.info.num_col,
            forall|c: int|
                0 <= c < self.info.num_col ==> #[trigger] sizes[c] == column_count(
                    self.index@,
                    c,
                    self.index.len() as int,
                ),
    {
        let mut sizes: Vec<usize> = vec![0usize; self.info.num_col];
        let mut k: usize = 0;
        while k < self.index.len()
            invariant
                self.wf(),
                k <= self.index.len(),
                sizes.len() == self.info.num_col,
                forall|c: int|
                    0 <= c < self.info.num_col ==> #[trigger] sizes[c] == column_count(self.index@, c, k as int)
                        && sizes[c] <= k,
            decreases self.index.len() - k,
        {
            let c: usize = self.index[k] as usize;
            sizes[c] = sizes[c] + 1;
            k += 1;
        }
        sizes
    }
}

/// How many of the first `n` entries are in column `c`.
pub open spec fn column_count(index: Seq<u32>, c: int, n: int) -> nat
    decreases n,
{
    if n <= 0 {
        0
    } else {
        column_count(index, c, n - 1) + (if index[n - 1] == c {
            1nat
        } else {
            0nat
        })
    }
}

fn copy_slice(s: &[u32]) -> (v: Vec<u32>)
    ensures
        v@ == s@,
{
    let mut v: Vec<u32> = Vec::with_capacity(s.len());
    v.extend_from_slice(s);
    assert(v@ =~= s@);
    v
}

/// Row `r` of the arrays holds `cells`.
spec fn row_holds(row_ptr: Seq<usize>, index: Seq<u32>, value: Seq<u32>, r: int, cells: Seq<Cell>) -> bool {
    &&& row_ptr[r + 1] - row_ptr[r] == cells.len()
    &&& forall|k: int| 0 <= k < cells.len() ==> (index[row_ptr[r] + k], value[row_ptr[r] + k]) == #[trigger] cells[k]
}

/// The entries of a dense row come in column order.
proof fn lemma_dense_ascend(data: Seq<u32>, ncol: int, missing: u32, r: int, n: int, a: int, b: int)
    requires
        0 <= a < b < dense_cells(data, ncol, missing, r, n).len(),
        n <= u32::MAX,
    ensures
        dense_cells(data, ncol, missing, r, n)[a].0 < dense_cells(data, ncol, missing, r, n)[b].0,
        dense_cells(data, ncol, missing, r, n)[b].0 < n,
    decreases n,
{
    if n > 0 {
        let rest = dense_cells(data, ncol, missing, r, n - 1);
        if b < rest.len() {
            lemma_dense_ascend(data, ncol, missing, r, n - 1, a, b);
        } else {
            lemma_dense_below(data, ncol, missing, r, n - 1, a);
        }
    }
}

proof fn lemma_dense_below(data: Seq<u32>, ncol: int, missing: u32, r: int, n: int, a: int)
    requires
        0 <= a < dense_cells(data, ncol, missing, r, n).len(),
        n <= u32::MAX,
    ensures
        dense_cells(data, ncol, missing, r, n)[a].0 < n,
    decreases n,
{
    if n > 0 {
        let rest = dense_cells(data, ncol, missing, r, n - 1);
        if a < rest.len() {
            lemma_dense_below(data, ncol, missing, r, n - 1, a);
        }
    }
}

/// Entry `k` names a column past the last and is not missing.
pub open spec fn stray(index: Seq<u32>, value: Seq<u32>, ncol: int, missing: u32, k: int) -> bool {
    !missing_value(value[k], missing) && index[k] >= ncol
}

/// Row `r` holds a stray entry.
pub open spec fn stray_in(row_ptr: Seq<usize>, index: Seq<u32>, value: Seq<u32>, ncol: int, missing: u32, r: int) -> bool {
    exists|k: int| row_ptr[r] <= k < row_ptr[r + 1] && #[trigger] stray(index, value, ncol, missing, k)
}

/// One of the first `n` rows holds a stray entry.
pub open spec fn csr_stray(row_ptr: Seq<usize>, index: Seq<u32>, value: Seq<u32>, ncol: int, missing: u32, n: int) -> bool {
    exists|r: int| 0 <= r < n && #[trigger] stray_in(row_ptr, index, value, ncol, missing, r)
}

/// Entry `k` of row `r` is the first stray one, in row order.
pub open spec fn is_first_stray(
    row_ptr: Seq<usize>,
    index: Seq<u32>,
    value: Seq<u32>,
    ncol: int,
    missing: u32,
    r: int,
    k: int,
) -> bool {
    &&& 0 <= r < row_ptr.len() - 1
    &&& row_ptr[r] <= k < row_ptr[r + 1]
    &&& stray(index, value, ncol, missing, k)
    &&& !csr_stray(row_ptr, index, value, ncol, missing, r)
    &&& forall|j: int| row_ptr[r] <= j < k ==> !#[trigger] stray(index, value, ncol, missing, j)
}

/// What is no number is missing, and so is what equals the marker; where the marker is no number
/// nothing else is.
pub proof fn lemma_missing(v: u32, missing: u32)
    ensures
        is_nan_spec(v) ==> missing_value(v, missing),
        same_spec(v, missing) ==> missing_value(v, missing),
        is_nan_spec(missing) && !is_nan_spec(v) ==> !missing_value(v, missing),
        lt_spec(v, missing) || lt_spec(missing, v) ==> !missing_value(v, missing),
{
}

/// A row of a dense array keeps the values that are not missing, each under its column, in the order
/// of the columns.
pub proof fn lemma_dense_cells(data: Seq<u32>, ncol: int, missing: u32, r: int, n: int, c: int)
    requires
        0 <= n <= u32::MAX,
        0 <= c,
    ensures
        ({
            let cells = dense_cells(data, ncol, missing, r, n);
            &&& c < n && !missing_value(data[r * ncol + c], missing) ==> cells.contains((c as u32, data[r * ncol + c]))
            &&& forall|k: int|
                0 <= k < cells.len() ==> {
                    let cell = #[trigger] cells[k];
                    cell.0 < n && cell.1 == data[r * ncol + cell.0] && !missing_value(cell.1, missing)
                }
            &&& forall|j: int, k: int| 0 <= j < k < cells.len() ==> (#[trigger] cells[j]).0 < (#[trigger] cells[k]).0
        }),
    decreases n,
{
    if n > 0 {
        lemma_dense_cells(data, ncol, missing, r, n - 1, c);
        let rest = dense_cells(data, ncol, missing, r, n - 1);
        let cells = dense_cells(data, ncol, missing, r, n);
        if c < n && !missing_value(data[r * ncol + c], missing) {
            let it = (c as u32, data[r * ncol + c]);
            if c < n - 1 {
                let k = choose|k: int| 0 <= k < rest.len() && rest[k] == it;
                assert(cells[k] == it);
            } else {
                assert(cells[rest.len() as int] == it);
            }
        }
        assert forall|k: int| 0 <= k < cells.len() implies ({
            let cell = #[trigger] cells[k];
            cell.0 < n && cell.1 == data[r * ncol + cell.0] && !missing_value(cell.1, missing)
        }) by {
            if k < rest.len() {
                assert(cells[k] == rest[k]);
            }
        }
        assert forall|j: int, k: int| 0 <= j < k < cells.len() implies (#[trigger] cells[j]).0 < (
        #[trigger] cells[k]).0 by {
            assert(cells[j] == rest[j]);
            if k < rest.len() {
                assert(cells[k] == rest[k]);
            }
        }
    }
}

/// A row of a sparse array keeps the entries that are not missing, in their order: one entry more is
/// kept at the end, or not at all.
pub proof fn lemma_kept_cells(index: Seq<u32>, value: Seq<u32>, missing: u32, from: int, to: int)
    requires
        from <= to,
    ensures
        kept_cells(index, value, missing, from, from).len() == 0,
        !missing_value(value[to], missing) ==> kept_cells(index, value, missing, from, to + 1) == kept_cells(
            index,
            value,
            missing,
            from,
            to,
        ).push((index[to], value[to])),
        missing_value(value[to], missing) ==> kept_cells(index, value, missing, from, to + 1) == kept_cells(
            index,
            value,
            missing,
            from,
            to,
        ),
{
}

/// The cells of a row are its entries, each column with its value, from the row's first on.
pub proof fn lemma_cells(dmat: &DMatrix, r: int, k: int)
    requires
        dmat.wf(),
        0 <= r < dmat.info.num_row,
        0 <= k < dmat.row_ptr[r + 1] - dmat.row_ptr[r],
    ensures
        dmat.cells(r).len() == dmat.row_ptr[r + 1] - dmat.row_ptr[r],
        dmat.cells(r)[k].0 == dmat.index[dmat.row_ptr[r] + k],
        dmat.cells(r)[k].1 == dmat.value[dmat.row_ptr[r] + k],
        dmat.in_row(r, dmat.row_ptr[r] + k),
{
}

/// Of the entries of a row under one column exactly one stands, the last.
pub proof fn lemma_one_stands(dmat: &DMatrix, r: int, j: int, k: int)
    requires
        dmat.in_row(r, j),
        dmat.stands(r, k),
        dmat.index[j] == dmat.index[k],
    ensures
        j <= k,
        dmat.stands(r, j) ==> j == k,
{
}

/// An entry more counts for its own column and for no other.
pub proof fn lemma_column_counted(index: Seq<u32>, c: u32, other: int)
    ensures
        column_count(Seq::empty(), c as int, 0) == 0,
        column_count(index.push(c), c as int, index.len() as int + 1) == column_count(
            index,
            c as int,
            index.len() as int,
        ) + 1,
        other != c ==> column_count(index.push(c), other, index.len() as int + 1) == column_count(
            index,
            other,
            index.len() as int,
        ),
{
    lemma_column_count_same(index, index.push(c), c as int, index.len() as int);
    lemma_column_count_same(index, index.push(c), other, index.len() as int);
}

proof fn lemma_column_count_same(a: Seq<u32>, b: Seq<u32>, c: int, n: int)
    requires
        forall|i: int| 0 <= i < n ==> a[i] == b[i],
    ensures
        column_count(a, c, n) == column_count(b, c, n),
    decreases n,
{
    if n > 0 {
        lemma_column_count_same(a, b, c, n - 1);
    }
}

/// A matrix is dense exactly where every row has an entry under every column.
pub proof fn lemma_dense(dmat: &DMatrix, r: int, c: int)
    requires
        0 <= r < dmat.info.num_row,
        0 <= c < dmat.info.num_col,
    ensures
        dmat.dense() ==> exists|k: int|
            dmat.row_ptr[r] <= k < dmat.row_ptr[r + 1] && #[trigger] dmat.index[k] == c,
        (forall|k: int| dmat.row_ptr[r] <= k < dmat.row_ptr[r + 1] ==> #[trigger] dmat.index[k] != c) ==> !dmat.dense(),
{
    if dmat.dense() {
        assert(dmat.stores(r, c));
        let k = choose|k: int| #[trigger] dmat.in_row(r, k) && dmat.index[k] == c;
        assert(dmat.index[k] == c);
    }
}

/// An entry is stray where its column is past the last, unless its value is missing.
pub proof fn lemma_stray(index: Seq<u32>, value: Seq<u32>, ncol: int, missing: u32, k: int)
    ensures
        is_nan_spec(value[k]) || same_spec(value[k], missing) ==> !stray(index, value, ncol, missing, k),
        index[k] < ncol ==> !stray(index, value, ncol, missing, k),
        index[k] >= ncol && !is_nan_spec(value[k]) && !same_spec(value[k], missing) ==> stray(
            index,
            value,
            ncol,
            missing,
            k,
        ),
{
}

/// The first stray entry is the only first one, and no row before its own has any.
pub proof fn lemma_first_stray(
    row_ptr: Seq<usize>,
    index: Seq<u32>,
    value: Seq<u32>,
    ncol: int,
    missing: u32,
    r: int,
    k: int,
    s: int,
    j: int,
)
    requires
        is_first_stray(row_ptr, index, value, ncol, missing, r, k),
        0 <= s < row_ptr.len() - 1,
        row_ptr[s] <= j < row_ptr[s + 1],
        stray(index, value, ncol, missing, j),
    ensures
        r < s || (r == s && k <= j),
        csr_stray(row_ptr, index, value, ncol, missing, row_ptr.len() - 1),
{
    assert(stray_in(row_ptr, index, value, ncol, missing, s));
    if s < r {
        assert(csr_stray(row_ptr, index, value, ncol, missing, r));
    }
}

} // verus!
