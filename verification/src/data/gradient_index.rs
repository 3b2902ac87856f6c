//! Binned feature matrix.
//!
//! Every stored value is replaced by the bin it falls into. The index is stored in the
//! narrowest integer that fits: dense matrices store feature-local bins, one entry per
//! feature per row; sparse matrices store global bins, because a row does not visit every
//! feature and the offset is not implied by position.

use vstd::prelude::*;

use crate::data::csc::{
    entries_before, entries_of, lemma_before_total, lemma_entries_concat, lemma_entries_of, lemma_one_row, CscPage,
};
use crate::data::cuts::{
    all_cuts, all_numbers, category, category_spec, cuts_sorted, is_bin_of, lemma_bin_unique, lemma_bins_monotone,
    lemma_summary_ends, strictly_ascend, HistogramCuts,
};
use crate::data::{column_count, DMatrix, MetaInfo};
use crate::error::Error;
use crate::float_bits::{le_spec, rank};

verus! {

/// Bin indices in the narrowest integer type that fits them.
#[derive(Clone, Debug, PartialEq, Eq)]
pub enum BinStorage {
    U8(Vec<u8>),
    U16(Vec<u16>),
    U32(Vec<u32>),
}

impl BinStorage {
    /// The bins, whatever the type.
    pub open spec fn bins(&self) -> Seq<u32> {
        match self {
            BinStorage::U8(v) => Seq::new(v@.len(), |i: int| v[i] as u32),
            BinStorage::U16(v) => Seq::new(v@.len(), |i: int| v[i] as u32),
            BinStorage::U32(v) => v@,
        }
    }

    /// Bytes per stored entry.
    pub open spec fn entry_width(&self) -> int {
        match self {
            BinStorage::U8(_) => 1,
            BinStorage::U16(_) => 2,
            BinStorage::U32(_) => 4,
        }
    }

    /// Bytes per entry of the smallest type that holds `n_values` different bins.
    pub open spec fn width_for(n_values: int) -> int {
        if n_values <= 256 {
            1
        } else if n_values <= 65536 {
            2
        } else {
            4
        }
    }

    /// Build from bin indices below `n_values`, narrowing to the smallest type that holds
    /// them.
    pub fn from_u32(values: Vec<u32>, n_values: usize) -> (storage: Self)
        requires
            n_values <= 65536 ==> forall|i: int| 0 <= i < values.len() ==> #[trigger] values[i] < n_values,
        ensures
            storage.bins() == values@,
            storage.entry_width() == Self::width_for(n_values as int),
    {
        if n_values <= 256 {
            let mut out: Vec<u8> = Vec::with_capacity(values.len());
            let mut i: usize = 0;
            while i < values.len()
                invariant
                    n_values <= 256,
                    forall|k: int| 0 <= k < values.len() ==> #[trigger] values[k] < n_values,
                    i <= values.len(),
                    out.len() == i,
                    forall|k: int| 0 <= k < i ==> #[trigger] out[k] == values[k],
                decreases values.len() - i,
            {
                out.push(values[i] as u8);
                i += 1;
            }
            let storage = BinStorage::U8(out);
            assert(storage.bins() =~= values@);
            storage
        } else if n_values <= 65536 {
            let mut out: Vec<u16> = Vec::with_capacity(values.len());
            let mut i: usize = 0;
            while i < values.len()
                invariant
                    n_values <= 65536,
                    forall|k: int| 0 <= k < values.len() ==> #[trigger] values[k] < n_values,
                    i <= values.len(),
                    out.len() == i,
                    forall|k: int| 0 <= k < i ==> #[trigger] out[k] == values[k],
                decreases values.len() - i,
            {
                out.push(values[i] as u16);
                i += 1;
            }
            let storage = BinStorage::U16(out);
            assert(storage.bins() =~= values@);
            storage
        } else {
            BinStorage::U32(values)
        }
    }

    pub fn len(&self) -> (n: usize)
        ensures
            n == self.bins().len(),
    {
        match self {
            BinStorage::U8(v) => v.len(),
            BinStorage::U16(v) => v.len(),
            BinStorage::U32(v) => v.len(),
        }
    }

    pub fn is_empty(&self) -> (empty: bool)
        ensures
            empty == (self.bins().len() == 0),
    {
        self.len() == 0
    }

    /// Bytes per stored entry.
    pub fn width(&self) -> (w: usize)
        ensures
            w == self.entry_width(),
            *self is U8 ==> w == 1,
            *self is U16 ==> w == 2,
            *self is U32 ==> w == 4,
    {
        match self {
            BinStorage::U8(_) => 1,
            BinStorage::U16(_) => 2,
            BinStorage::U32(_) => 4,
        }
    }

    pub fn get(&self, i: usize) -> (bin: u32)
        requires
            i < self.bins().len(),
        ensures
            bin == self.bins()[i as int],
    {
        match self {
            BinStorage::U8(v) => v[i] as u32,
            BinStorage::U16(v) => v[i] as u32,
            BinStorage::U32(v) => v[i],
        }
    }
}

/// Column-major bins, used when partitioning rows on a single feature.
///
/// A dense column holds one entry per row, so a lookup is one index; a sparse column holds
/// only the rows that have a value, so a lookup is a binary search over that column's row
/// ids. The choice changes speed and memory only: both layouts answer every query
/// identically.
#[derive(Clone, Debug)]
pub struct ColumnIndex {
    /// Per-feature segments of feature-local bins, one after the other.
    pub data: BinStorage,
    /// `data` segment bounds, one more than there are features.
    pub data_ptr: Vec<usize>,
    /// Row ids of the stored entries of every sparse column, in row order within a column.
    /// Dense columns contribute an empty segment.
    pub row_ind: Vec<u32>,
    /// `row_ind` segment bounds, one more than there are features.
    pub row_ptr: Vec<usize>,
    /// Whether each column took the sparse layout.
    pub sparse: Vec<bool>,
    /// Sentinel for an absent value in a dense column.
    pub missing: u32,
    pub n_rows: usize,
}

impl ColumnIndex {
    /// The segments lie one after the other, sparse ones with their row ids in order.
    pub open spec fn wf(&self) -> bool {
        let n = self.sparse.len() as int;
        &&& self.data_ptr.len() == n + 1
        &&& self.row_ptr.len() == n + 1
        &&& self.data_ptr[0] == 0
        &&& self.row_ptr[0] == 0
        &&& self.data_ptr[n] == self.data.bins().len()
        &&& self.row_ptr[n] == self.row_ind.len()
        &&& forall|f: int| 0 <= f < n ==> #[trigger] self.segment_ok(f)
    }

    pub open spec fn segment_ok(&self, f: int) -> bool {
        &&& self.data_ptr[f] <= self.data_ptr[f + 1] <= self.data.bins().len()
        &&& self.row_ptr[f] <= self.row_ptr[f + 1] <= self.row_ind.len()
        &&& !self.sparse[f] ==> self.data_ptr[f + 1] - self.data_ptr[f] == self.n_rows
        &&& self.sparse[f] ==> self.data_ptr[f + 1] - self.data_ptr[f] == self.row_ptr[f + 1] - self.row_ptr[f]
        &&& forall|i: int, j: int|
            self.row_ptr[f] <= i < j < self.row_ptr[f + 1] ==> #[trigger] self.row_ind[i] <= #[trigger] self.row_ind[j]
    }

    /// Entry `j` of a sparse column is row `r`'s, and the last of them.
    pub open spec fn last_of(&self, f: int, r: int, j: int) -> bool {
        &&& self.row_ptr[f] <= j < self.row_ptr[f + 1]
        &&& self.row_ind[j] == r
        &&& forall|i: int| j < i < self.row_ptr[f + 1] ==> #[trigger] self.row_ind[i] != r
    }

    /// What the index says of feature `f` in row `r`: the bin of the row's last entry for it.
    pub open spec fn answers(&self, f: int, r: int, v: Option<u32>) -> bool {
        if !self.sparse[f] {
            let b = self.data.bins()[self.data_ptr[f] + r];
            v == (if b == self.missing {
                None
            } else {
                Some(b)
            })
        } else {
            match v {
                Some(b) => exists|j: int| #[trigger]
                    self.last_of(f, r, j) && self.data.bins()[self.data_ptr[f] + (j - self.row_ptr[f])] == b,
                None => forall|j: int|
                    self.row_ptr[f] <= j < self.row_ptr[f + 1] ==> #[trigger] self.row_ind[j] != r,
            }
        }
    }

    /// The index has one answer to a query.
    pub proof fn lemma_one_answer(&self, f: int, r: int, a: Option<u32>, b: Option<u32>)
        requires
            self.wf(),
            0 <= f < self.sparse.len(),
            self.answers(f, r, a),
            self.answers(f, r, b),
        ensures
            a == b,
    {
        assert(self.segment_ok(f));
        if self.sparse[f] && a is Some && b is Some {
            let i = choose|j: int| #[trigger]
                self.last_of(f, r, j) && self.data.bins()[self.data_ptr[f] + (j - self.row_ptr[f])] == a->0;
            let k = choose|j: int| #[trigger]
                self.last_of(f, r, j) && self.data.bins()[self.data_ptr[f] + (j - self.row_ptr[f])] == b->0;
            if i < k {
                assert(self.row_ind[k] != r);
            } else if k < i {
                assert(self.row_ind[i] != r);
            }
        }
    }

    /// Feature-local bin of row `r`, or `None` when the value is missing.
    pub fn get(&self, fidx: u32, r: usize) -> (bin: Option<u32>)
        requires
            self.wf(),
            fidx < self.sparse.len(),
            r < self.n_rows <= u32::MAX,
        ensures
            self.answers(fidx as int, r as int, bin),
    {
        let f: usize = fidx as usize;
        assert(self.segment_ok(f as int));
        let base: usize = self.data_ptr[f];
        if !self.sparse[f] {
            let v: u32 = self.data.get(base + r);
            return if v == self.missing {
                None
            } else {
                Some(v)
            };
        }
        let first: usize = self.row_ptr[f];
        let want: u32 = r as u32;
        let mut lo: usize = first;
        let mut hi: usize = self.row_ptr[f + 1];
        while lo < hi
            invariant
                self.segment_ok(f as int),
                f < self.sparse.len(),
                self.data_ptr.len() == self.sparse.len() + 1,
                self.row_ptr.len() == self.sparse.len() + 1,
                self.sparse[f as int],
                base == self.data_ptr[f as int],
                first == self.row_ptr[f as int],
                want == r,
                fidx == f,
                first <= lo <= hi <= self.row_ptr[f + 1],
                forall|j: int| first <= j < lo ==> #[trigger] self.row_ind[j] <= want,
                forall|j: int| hi <= j < self.row_ptr[f + 1] ==> #[trigger] self.row_ind[j] > want,
            decreases hi - lo,
        {
            let mid: usize = lo + (hi - lo) / 2;
            if self.row_ind[mid] <= want {
                proof {
                    assert forall|j: int| first <= j < mid + 1 implies #[trigger] self.row_ind[j] <= want by {
                        if j < mid {
                            assert(self.row_ind[j] <= self.row_ind[mid as int]);
                        }
                    }
                }
                lo = mid + 1;
            } else {
                proof {
                    assert forall|j: int| mid <= j < self.row_ptr[f + 1] implies #[trigger] self.row_ind[j] > want by {
                        if j > mid {
                            assert(self.row_ind[mid as int] <= self.row_ind[j]);
                        }
                    }
                }
                hi = mid;
            }
        }
        // The entries before `lo` are of this row or earlier ones: the last of them decides.
        if lo > first && self.row_ind[lo - 1] == want {
            assert(self.last_of(f as int, r as int, lo - 1));
            return Some(self.data.get(base + (lo - 1 - first)));
        }
        proof {
            assert forall|j: int|
                self.row_ptr[f as int] <= j < self.row_ptr[f + 1] implies #[trigger] self.row_ind[j] != r by {
                if j < lo - 1 {
                    assert(self.row_ind[j] <= self.row_ind[lo - 1]);
                }
            }
        }
        None
    }

    /// How many columns took the sparse layout.
    pub fn sparse_columns(&self) -> (n: usize)
        ensures
            n == count_true(self.sparse@, self.sparse.len() as int),
    {
        let mut n: usize = 0;
        let mut f: usize = 0;
        while f < self.sparse.len()
            invariant
                f <= self.sparse.len(),
                n == count_true(self.sparse@, f as int),
                n <= f,
            decreases self.sparse.len() - f,
        {
            if self.sparse[f] {
                n += 1;
            }
            f += 1;
        }
        n
    }

    /// Bytes held by the column index.
    pub fn size_bytes(&self) -> (n: usize)
        requires
            self.data.bins().len() * 4 + self.row_ind.len() * 4 <= usize::MAX,
        ensures
            n == self.data.bins().len() * self.data.entry_width() + self.row_ind.len() * 4,
    {
        let len: usize = self.data.len();
        let width: usize = self.data.width();
        assert(len * width <= len * 4) by (nonlinear_arith)
            requires
                0 <= len,
                width <= 4,
        ;
        len * width + self.row_ind.len() * 4
    }
}

/// How many of the first `n` flags are set.
pub open spec fn count_true(flags: Seq<bool>, n: int) -> nat
    decreases n,
{
    if n <= 0 {
        0
    } else {
        count_true(flags, n - 1) + (if flags[n - 1] {
            1nat
        } else {
            0nat
        })
    }
}

// ----------------------------------------------------------------- binning ----

/// `b` is the feature-local bin of `value`: the bin it falls into, or its category. A value
/// that is no category counts as the first, one past the last as the last.
pub open spec fn is_local_bin(cuts: &HistogramCuts, value: u32, f: int, b: u32) -> bool {
    if cuts.categorical(f) {
        b == ({
            let code = match category_spec(value) {
                Some(code) => code as int,
                None => 0,
            };
            if code < cuts.width(f) {
                code
            } else {
                cuts.width(f) - 1
            }
        })
    } else {
        is_bin_of(cuts, value, f, cuts.cut_ptrs[f] + b)
    }
}

/// Feature-local bin of one stored value.
fn local_bin(cuts: &HistogramCuts, value: u32, fidx: usize) -> (b: u32)
    requires
        cuts.wf(),
        fidx < cuts.cut_ptrs.len() - 1,
    ensures
        is_local_bin(cuts, value, fidx as int, b),
        b < cuts.width(fidx as int),
{
    assert(cuts.cut_ptrs[fidx as int] < cuts.cut_ptrs[fidx + 1]);
    if cuts.is_cat(fidx) {
        let n_bins: u32 = cuts.cut_ptrs[fidx + 1] - cuts.cut_ptrs[fidx];
        let code: u32 = match category(value) {
            Some(code) => code,
            None => 0,
        };
        if code < n_bins {
            code
        } else {
            n_bins - 1
        }
    } else {
        cuts.search_bin(value, fidx) - cuts.cut_ptrs[fidx]
    }
}

/// `local[k]` is the feature-local bin of stored entry `k`.
pub open spec fn bins_entries(dmat: &DMatrix, cuts: &HistogramCuts, local: Seq<u32>) -> bool {
    &&& local.len() == dmat.index.len()
    &&& forall|k: int|
        0 <= k < local.len() ==> is_local_bin(cuts, dmat.value[k], dmat.index[k] as int, #[trigger] local[k])
            && local[k] < cuts.width(dmat.index[k] as int)
}

/// Bin every stored entry.
fn bin_entries(dmat: &DMatrix, cuts: &HistogramCuts) -> (local: Vec<u32>)
    requires
        dmat.wf(),
        cuts.wf(),
        dmat.info.num_col == cuts.cut_ptrs.len() - 1,
    ensures
        bins_entries(dmat, cuts, local@),
{
    let mut local: Vec<u32> = Vec::with_capacity(dmat.index.len());
    let mut k: usize = 0;
    while k < dmat.index.len()
        invariant
            dmat.wf(),
            cuts.wf(),
            dmat.info.num_col == cuts.cut_ptrs.len() - 1,
            k <= dmat.index.len(),
            local.len() == k,
            forall|j: int|
                0 <= j < k ==> is_local_bin(cuts, dmat.value[j], dmat.index[j] as int, #[trigger] local[j])
                    && local[j] < cuts.width(dmat.index[j] as int),
        decreases dmat.index.len() - k,
    {
        let b: u32 = local_bin(cuts, dmat.value[k], dmat.index[k] as usize);
        local.push(b);
        k += 1;
    }
    local
}

/// The widest of the first `n` features' bin counts.
pub open spec fn widest_feature(cuts: &HistogramCuts, n: int) -> int
    decreases n,
{
    if n <= 0 {
        0
    } else {
        let rest = widest_feature(cuts, n - 1);
        if rest >= cuts.width(n - 1) {
            rest
        } else {
            cuts.width(n - 1)
        }
    }
}

pub(crate) proof fn lemma_widest(cuts: &HistogramCuts, n: int, f: int)
    requires
        0 <= f < n,
    ensures
        cuts.width(f) <= widest_feature(cuts, n),
    decreases n,
{
    if f < n - 1 {
        lemma_widest(cuts, n - 1, f);
    }
}

pub(crate) fn max_feature_bins(cuts: &HistogramCuts, n: usize) -> (widest: usize)
    requires
        cuts.wf(),
        n <= cuts.cut_ptrs.len() - 1,
    ensures
        widest == widest_feature(cuts, n as int),
        widest <= u32::MAX,
{
    let mut widest: usize = 0;
    let mut f: usize = 0;
    while f < n
        invariant
            cuts.wf(),
            n <= cuts.cut_ptrs.len() - 1,
            f <= n,
            widest == widest_feature(cuts, f as int),
            widest <= u32::MAX,
        decreases n - f,
    {
        assert(cuts.cut_ptrs[f as int] < cuts.cut_ptrs[f + 1]);
        let bins: usize = cuts.feature_bins(f);
        if bins > widest {
            widest = bins;
        }
        f += 1;
    }
    widest
}

/// The index answers every query as the matrix does: the bin of the row's entry for the
/// feature, the last where there are several, or nothing where the row has none.
pub open spec fn records(columns: &ColumnIndex, dmat: &DMatrix, local: Seq<u32>) -> bool {
    forall|f: int, r: int|
        0 <= f < dmat.info.num_col && 0 <= r < dmat.info.num_row ==> #[trigger] records_cell(
            columns,
            dmat,
            local,
            f,
            r,
        )
}

pub open spec fn records_cell(columns: &ColumnIndex, dmat: &DMatrix, local: Seq<u32>, f: int, r: int) -> bool {
    &&& forall|k: int|
        #[trigger] dmat.stands(r, k) && dmat.index[k] == f ==> columns.answers(f, r, Some(local[k]))
    &&& (forall|k: int| #[trigger] dmat.in_row(r, k) ==> dmat.index[k] != f) ==> columns.answers(f, r, None)
}

/// Which columns are stored sparsely: those with fewer than `sparse_below` entries.
pub open spec fn takes_sparse(dmat: &DMatrix, sparse_below: usize, f: int) -> bool {
    entries_of(dmat.index@, f, 0, dmat.index.len() as int).len() < sparse_below
}

/// A column's layout follows from its size.
pub proof fn lemma_layout_by_size(dmat: &DMatrix, sparse_below: usize, f: int)
    ensures
        takes_sparse(dmat, sparse_below, f) == (column_count(dmat.index@, f, dmat.index.len() as int) < sparse_below),
{
    lemma_entries_counted(dmat.index@, f, dmat.index.len() as int);
}

proof fn lemma_entries_counted(index: Seq<u32>, c: int, to: int)
    ensures
        entries_of(index, c, 0, to).len() == column_count(index, c, to),
    decreases to,
{
    if to > 0 {
        lemma_entries_counted(index, c, to - 1);
    }
}

/// Bins that the first `n` columns hold: a sparse one its entries, a dense one a bin per row.
pub open spec fn column_entries(dmat: &DMatrix, sparse_below: usize, n: int) -> int
    decreases n,
{
    if n <= 0 {
        0
    } else {
        column_entries(dmat, sparse_below, n - 1) + (if takes_sparse(dmat, sparse_below, n - 1) {
            entries_of(dmat.index@, n - 1, 0, dmat.index.len() as int).len() as int
        } else {
            dmat.info.num_row as int
        })
    }
}

/// Row ids that the first `n` columns hold: one per entry of a sparse column.
pub open spec fn column_rows(dmat: &DMatrix, sparse_below: usize, n: int) -> int
    decreases n,
{
    if n <= 0 {
        0
    } else {
        column_rows(dmat, sparse_below, n - 1) + (if takes_sparse(dmat, sparse_below, n - 1) {
            entries_of(dmat.index@, n - 1, 0, dmat.index.len() as int).len() as int
        } else {
            0
        })
    }
}

/// Rows of a column's entries are in order.
proof fn lemma_rows_ascend(dmat: &DMatrix, ks: Seq<int>, f: int, rows: Seq<u32>, i: int, j: int)
    requires
        dmat.wf(),
        ks == entries_of(dmat.index@, f, 0, dmat.index.len() as int),
        rows.len() == ks.len(),
        forall|m: int| 0 <= m < ks.len() ==> dmat.in_row((#[trigger] rows[m]) as int, ks[m]) && rows[m] < dmat.info.num_row,
        0 <= i < j < ks.len(),
    ensures
        rows[i] <= rows[j],
{
    lemma_entries_of(dmat.index@, f, 0, dmat.index.len() as int);
    assert(ks[i] < ks[j]);
    let a = rows[i] as int;
    let b = rows[j] as int;
    assert(dmat.in_row(a, ks[i]) && dmat.in_row(b, ks[j]));
    if b < a {
        assert(dmat.row_ptr[b + 1] <= dmat.row_ptr[a]);
    }
}

/// A row's last entry of a column is the last of the column's entries that are the row's, and
/// the other way round.
proof fn lemma_last_stands(dmat: &DMatrix, ks: Seq<int>, f: int, rows: Seq<u32>, j: int)
    requires
        dmat.wf(),
        ks == entries_of(dmat.index@, f, 0, dmat.index.len() as int),
        rows.len() == ks.len(),
        forall|m: int| 0 <= m < ks.len() ==> dmat.in_row((#[trigger] rows[m]) as int, ks[m]) && rows[m] < dmat.info.num_row,
        0 <= j < ks.len(),
    ensures
        dmat.stands(rows[j] as int, ks[j]) <==> forall|i: int| j < i < ks.len() ==> #[trigger] rows[i] != rows[j],
{
    lemma_entries_of(dmat.index@, f, 0, dmat.index.len() as int);
    let r = rows[j] as int;
    assert(dmat.in_row(r, ks[j]));
    assert(dmat.row_ptr[r + 1] <= dmat.row_ptr[dmat.info.num_row as int]);
    assert(dmat.row_ptr[0] <= dmat.row_ptr[r]);
    if dmat.stands(r, ks[j]) {
        assert forall|i: int| j < i < ks.len() implies #[trigger] rows[i] != rows[j] by {
            if rows[i] == rows[j] {
                assert(dmat.in_row(r, ks[i]));
                assert(ks[j] < ks[i]);
            }
        }
    }
    if forall|i: int| j < i < ks.len() ==> #[trigger] rows[i] != rows[j] {
        assert forall|k: int| #[trigger] dmat.in_row(r, k) && ks[j] < k implies dmat.index[k] != dmat.index[ks[j]] by {
            if dmat.index[k] == f {
                assert(ks.contains(k));
                let i = choose|i: int| 0 <= i < ks.len() && ks[i] == k;
                if i < j {
                    assert(ks[i] < ks[j]);
                }
                assert(dmat.in_row(rows[i] as int, ks[i]));
                lemma_one_row(dmat, rows[i] as int, r, k);
                assert(rows[i] != rows[j]);
            }
        }
    }
}

/// The columns of the first `n` features, as they are laid out before narrowing.
spec fn laid_out(
    dmat: &DMatrix,
    local: Seq<u32>,
    sparse_below: usize,
    missing: u32,
    data: Seq<u32>,
    data_ptr: Seq<usize>,
    row_ind: Seq<u32>,
    row_ptr: Seq<usize>,
    sparse: Seq<bool>,
    f: int,
) -> bool {
    let ks = entries_of(dmat.index@, f, 0, dmat.index.len() as int);
    let d = data_ptr[f] as int;
    let q = row_ptr[f] as int;
    &&& sparse[f] == takes_sparse(dmat, sparse_below, f)
    &&& if sparse[f] {
        &&& data_ptr[f + 1] == d + ks.len() <= data.len()
        &&& row_ptr[f + 1] == q + ks.len() <= row_ind.len()
        &&& forall|j: int|
            0 <= j < ks.len() ==> dmat.in_row((#[trigger] row_ind[q + j]) as int, ks[j]) && row_ind[q + j]
                < dmat.info.num_row && data[d + j] == local[ks[j]]
    } else {
        &&& data_ptr[f + 1] == d + dmat.info.num_row <= data.len()
        &&& row_ptr[f + 1] == q <= row_ind.len()
        &&& forall|r: int|
            0 <= r < dmat.info.num_row ==> #[trigger] dense_slot(dmat, local, missing, f, r, data[d + r])
    }
}

/// `v` is what a dense column holds for row `r`: the bin of its last entry, or the sentinel.
spec fn dense_slot(dmat: &DMatrix, local: Seq<u32>, missing: u32, f: int, r: int, v: u32) -> bool {
    &&& forall|k: int| #[trigger] dmat.stands(r, k) && dmat.index[k] == f ==> v == local[k]
    &&& (forall|k: int| #[trigger] dmat.in_row(r, k) ==> dmat.index[k] != f) ==> v == missing
}

/// Fill a dense column: the bins of the rows that have one, the last where a row has several,
/// and the sentinel elsewhere.
fn dense_column(rows: &[u32], bins: &[u32], n_rows: usize, missing: u32) -> (column: Vec<u32>)
    requires
        rows.len() == bins.len(),
        forall|j: int| 0 <= j < rows.len() ==> #[trigger] rows[j] < n_rows,
    ensures
        column.len() == n_rows,
        forall|r: int| 0 <= r < n_rows ==> #[trigger] filled_slot(rows@, bins@, missing, rows.len() as int, r, column[r]),
{
    let mut column: Vec<u32> = vec![missing; n_rows];
    let mut j: usize = 0;
    while j < rows.len()
        invariant
            rows.len() == bins.len(),
            forall|i: int| 0 <= i < rows.len() ==> #[trigger] rows[i] < n_rows,
            j <= rows.len(),
            column.len() == n_rows,
            forall|r: int| 0 <= r < n_rows ==> #[trigger] filled_slot(rows@, bins@, missing, j as int, r, column[r]),
        decreases rows.len() - j,
    {
        let ghost was = column@;
        let at: usize = rows[j] as usize;
        column[at] = bins[j];
        proof {
            assert forall|r: int| 0 <= r < n_rows implies #[trigger] filled_slot(
                rows@,
                bins@,
                missing,
                j + 1,
                r,
                column[r],
            ) by {
                assert(filled_slot(rows@, bins@, missing, j as int, r, was[r]));
                lemma_filled_step(rows@, bins@, missing, j as int, r, was[r], column[r]);
            }
        }
        j += 1;
    }
    column
}

/// One entry more: it takes its row's slot and leaves the others.
proof fn lemma_filled_step(rows: Seq<u32>, bins: Seq<u32>, missing: u32, n: int, r: int, before: u32, after: u32)
    requires
        0 <= n < rows.len(),
        filled_slot(rows, bins, missing, n, r, before),
        after == (if rows[n] == r {
            bins[n]
        } else {
            before
        }),
    ensures
        filled_slot(rows, bins, missing, n + 1, r, after),
{
    assert forall|j: int|
        0 <= j < n + 1 && #[trigger] rows[j] == r && (forall|i: int| j < i < n + 1 ==> #[trigger] rows[i] != r) implies after
        == bins[j] by {
        if j < n {
            assert(rows[n] != r);
        }
    }
    if forall|j: int| 0 <= j < n + 1 ==> #[trigger] rows[j] != r {
        assert(rows[n] != r);
    }
}

/// `v` is the bin of the last of the first `n` entries that is row `r`'s, or the sentinel where
/// none is.
spec fn filled_slot(rows: Seq<u32>, bins: Seq<u32>, missing: u32, n: int, r: int, v: u32) -> bool {
    &&& forall|j: int|
        0 <= j < n && #[trigger] rows[j] == r && (forall|i: int| j < i < n ==> #[trigger] rows[i] != r) ==> v == bins[j]
    &&& (forall|j: int| 0 <= j < n ==> #[trigger] rows[j] != r) ==> v == missing
}

/// Transpose the feature-local bins into column-major order, giving each column the layout
/// its number of entries selects.
///
/// A column with fewer than `sparse_below` stored values is worth the binary search.
pub fn build_column_index(
    dmat: &DMatrix,
    local: &Vec<u32>,
    max_bins: usize,
    is_dense: bool,
    sparse_below: usize,
) -> (columns: ColumnIndex)
    requires
        dmat.wf(),
        dmat.info.num_row <= u32::MAX,
        dmat.info.num_col < usize::MAX,
        local.len() == dmat.index.len(),
        max_bins < u32::MAX,
        forall|k: int| 0 <= k < local.len() ==> #[trigger] local[k] < max_bins,
        is_dense ==> dmat.dense(),
    ensures
        columns.wf(),
        columns.n_rows == dmat.info.num_row,
        columns.sparse.len() == dmat.info.num_col,
        forall|f: int|
            0 <= f < dmat.info.num_col ==> #[trigger] columns.sparse[f] == takes_sparse(dmat, sparse_below, f),
        records(&columns, dmat, local@),
        columns.missing == (if is_dense {
            u32::MAX as int
        } else {
            max_bins as int
        }),
        columns.data.entry_width() == BinStorage::width_for(
            if is_dense {
                max_bins as int
            } else {
                max_bins + 1
            },
        ),
        forall|f: int|
            0 <= f <= dmat.info.num_col ==> #[trigger] columns.data_ptr[f] == column_entries(dmat, sparse_below, f),
        forall|f: int|
            0 <= f <= dmat.info.num_col ==> #[trigger] columns.row_ptr[f] == column_rows(dmat, sparse_below, f),
        columns.data.bins().len() == column_entries(dmat, sparse_below, dmat.info.num_col as int),
        columns.row_ind.len() == column_rows(dmat, sparse_below, dmat.info.num_col as int),
{
    let n_rows: usize = dmat.num_row();
    let n_features: usize = dmat.num_col();
    // A dense column needs one extra value to mark an absent entry; a matrix with no missing
    // values needs none.
    let missing: u32 = if is_dense {
        u32::MAX
    } else {
        max_bins as u32
    };
    let n_values: usize = if is_dense {
        max_bins
    } else {
        max_bins + 1
    };
    let binned = DMatrix {
        row_ptr: copy_sizes(&dmat.row_ptr),
        index: copy_words(&dmat.index),
        value: copy_words(local),
        info: MetaInfo {
            num_row: n_rows,
            num_col: n_features,
            labels: Vec::new(),
            weights: None,
            base_margin: None,
        },
    };
    proof {
        assert(dmat.row_ptr[0] <= dmat.row_ptr[dmat.info.num_row as int]);
        assert(binned.wf());
    }
    let page: CscPage = CscPage::build(&binned, 0..n_rows);
    let mut data: Vec<u32> = Vec::new();
    let mut row_ind: Vec<u32> = Vec::new();
    let mut data_ptr: Vec<usize> = Vec::new();
    let mut row_ptr: Vec<usize> = Vec::new();
    let mut sparse: Vec<bool> = Vec::new();
    data_ptr.push(0);
    row_ptr.push(0);
    let mut f: usize = 0;
    while f < n_features
        invariant
            dmat.wf(),
            n_rows == dmat.info.num_row,
            n_features == dmat.info.num_col,
            n_rows <= u32::MAX,
            local.len() == dmat.index.len(),
            forall|k: int| 0 <= k < local.len() ==> #[trigger] local[k] < max_bins,
            max_bins < u32::MAX,
            missing == (if is_dense {
                u32::MAX as int
            } else {
                max_bins as int
            }),
            is_dense ==> dmat.dense(),
            binned.wf(),
            binned.index@ == dmat.index@,
            binned.row_ptr@ == dmat.row_ptr@,
            binned.value@ == local@,
            binned.info.num_row == n_rows,
            binned.info.num_col == n_features,
            page.transposes(&binned, 0, n_rows as int),
            f <= n_features,
            data_ptr.len() == f + 1,
            row_ptr.len() == f + 1,
            sparse.len() == f,
            data_ptr[f as int] == data.len(),
            row_ptr[f as int] == row_ind.len(),
            forall|g: int| 0 <= g <= f ==> #[trigger] data_ptr[g] == column_entries(dmat, sparse_below, g),
            forall|g: int| 0 <= g <= f ==> #[trigger] row_ptr[g] == column_rows(dmat, sparse_below, g),
            forall|g: int|
                0 <= g < f ==> #[trigger] laid_out(
                    dmat,
                    local@,
                    sparse_below,
                    missing,
                    data@,
                    data_ptr@,
                    row_ind@,
                    row_ptr@,
                    sparse@,
                    g,
                ),
            forall|i: int| 0 <= i < data.len() ==> #[trigger] data[i] < max_bins || (data[i] == missing && !is_dense),
        decreases n_features - f,
    {
        let ghost (data0, row0, dptr0, rptr0, sp0) = (data@, row_ind@, data_ptr@, row_ptr@, sparse@);
        let ghost ks = entries_of(dmat.index@, f as int, 0, dmat.index.len() as int);
        let (rows, bins) = page.column(f);
        proof {
            assert(page.holds(&binned, f as int, ks));
            lemma_entries_of(dmat.index@, f as int, 0, dmat.index.len() as int);
            assert forall|m: int| 0 <= m < ks.len() implies dmat.in_row((#[trigger] rows[m]) as int, ks[m]) && rows[m]
                < dmat.info.num_row && bins[m] == local[ks[m]] by {
                assert(page.rows(f as int)[m] == rows[m]);
                assert(binned.in_row(rows[m] as int, ks[m]));
            }
        }
        let thin: bool = rows.len() < sparse_below;
        sparse.push(thin);
        if thin {
            data.extend_from_slice(bins);
            row_ind.extend_from_slice(rows);
        } else {
            let column: Vec<u32> = dense_column(rows, bins, n_rows, missing);
            proof {
                assert forall|r: int| 0 <= r < n_rows implies #[trigger] dense_slot(
                    dmat,
                    local@,
                    missing,
                    f as int,
                    r,
                    column[r],
                ) by {
                    assert(filled_slot(rows@, bins@, missing, rows.len() as int, r, column[r]));
                    lemma_dense_slot(dmat, local@, missing, f as int, r, rows@, bins@, column[r]);
                }
                assert forall|r: int| 0 <= r < n_rows implies #[trigger] column[r] < max_bins || (column[r] == missing
                    && !is_dense) by {
                    assert(dense_slot(dmat, local@, missing, f as int, r, column[r]));
                    if is_dense {
                        assert(dmat.stores(r, f as int));
                    }
                    if exists|k: int| #[trigger] dmat.in_row(r, k) && dmat.index[k] == f {
                        let any = choose|k: int| #[trigger] dmat.in_row(r, k) && dmat.index[k] == f;
                        let k = lemma_some_stands(dmat, r, any);
                        assert(dmat.row_ptr[r + 1] <= dmat.row_ptr[dmat.info.num_row as int]);
                        assert(column[r] == local[k]);
                    }
                }
            }
            data.extend_from_slice(column.as_slice());
            proof {
                assert forall|i: int| data0.len() <= i < data.len() implies #[trigger] data[i] < max_bins || (data[i]
                    == missing && !is_dense) by {
                    assert(data[i] == column[i - data0.len()]);
                }
            }
        }
        data_ptr.push(data.len());
        row_ptr.push(row_ind.len());
        proof {
            assert forall|i: int| 0 <= i < data.len() implies #[trigger] data[i] < max_bins || (data[i] == missing
                && !is_dense) by {
                if i < data0.len() {
                    assert(data[i] == data0[i]);
                } else if thin {
                    let m = i - data0.len();
                    assert(data[i] == bins[m]);
                    assert(dmat.in_row(rows[m] as int, ks[m]));
                    assert(local[ks[m]] < max_bins);
                }
            }
            assert(data@.len() >= data0.len());
            assert forall|i: int| 0 <= i < data0.len() implies data@[i] == data0[i] by {}
            assert forall|i: int| 0 <= i < row0.len() implies row_ind@[i] == row0[i] by {}
            assert forall|g: int| 0 <= g < f + 1 implies #[trigger] laid_out(
                dmat,
                local@,
                sparse_below,
                missing,
                data@,
                data_ptr@,
                row_ind@,
                row_ptr@,
                sparse@,
                g,
            ) by {
                if g < f {
                    assert(laid_out(dmat, local@, sparse_below, missing, data0, dptr0, row0, rptr0, sp0, g));
                    assert(data_ptr@[g] == dptr0[g] && data_ptr@[g + 1] == dptr0[g + 1]);
                    assert(row_ptr@[g] == rptr0[g] && row_ptr@[g + 1] == rptr0[g + 1]);
                    assert(sparse@[g] == sp0[g]);
                    let gs = entries_of(dmat.index@, g, 0, dmat.index.len() as int);
                    if sparse@[g] {
                        assert forall|j: int| 0 <= j < gs.len() implies dmat.in_row(
                            (#[trigger] row_ind@[row_ptr@[g] + j]) as int,
                            gs[j],
                        ) && row_ind@[row_ptr@[g] + j] < dmat.info.num_row && data@[data_ptr@[g] + j] == local[gs[j]] by {
                            assert(row0[rptr0[g] + j] == row_ind@[row_ptr@[g] + j]);
                        }
                    } else {
                        assert forall|r: int| 0 <= r < dmat.info.num_row implies #[trigger] dense_slot(
                            dmat,
                            local@,
                            missing,
                            g,
                            r,
                            data@[data_ptr@[g] + r],
                        ) by {
                            assert(dense_slot(dmat, local@, missing, g, r, data0[dptr0[g] + r]));
                        }
                    }
                } else if thin {
                    assert forall|j: int| 0 <= j < ks.len() implies dmat.in_row(
                        (#[trigger] row_ind@[row_ptr@[g] + j]) as int,
                        ks[j],
                    ) && row_ind@[row_ptr@[g] + j] < dmat.info.num_row && data@[data_ptr@[g] + j] == local[ks[j]] by {
                        assert(row_ind@[row_ptr@[g] + j] == rows[j]);
                        assert(data@[data_ptr@[g] + j] == bins[j]);
                    }
                }
            }
        }
        f += 1;
    }
    let columns = ColumnIndex {
        data: BinStorage::from_u32(data, n_values),
        data_ptr,
        row_ind,
        row_ptr,
        sparse,
        missing,
        n_rows,
    };
    proof {
        assert forall|f: int| 0 <= f < n_features implies #[trigger] columns.segment_ok(f) by {
            lemma_segment(dmat, local@, sparse_below, &columns, f);
        }
        assert forall|f: int| 0 <= f < n_features implies #[trigger] columns.sparse[f] == takes_sparse(
            dmat,
            sparse_below,
            f,
        ) by {
            lemma_segment(dmat, local@, sparse_below, &columns, f);
        }
        assert forall|f: int, r: int|
            0 <= f < dmat.info.num_col && 0 <= r < dmat.info.num_row implies #[trigger] records_cell(
            &columns,
            dmat,
            local@,
            f,
            r,
        ) by {
            lemma_cell_recorded(dmat, local@, sparse_below, &columns, max_bins as int, f, r);
        }
    }
    columns
}

proof fn lemma_segment(dmat: &DMatrix, local: Seq<u32>, sparse_below: usize, columns: &ColumnIndex, f: int)
    requires
        dmat.wf(),
        columns.n_rows == dmat.info.num_row,
        laid_out(
            dmat,
            local,
            sparse_below,
            columns.missing,
            columns.data.bins(),
            columns.data_ptr@,
            columns.row_ind@,
            columns.row_ptr@,
            columns.sparse@,
            f,
        ),
    ensures
        columns.segment_ok(f),
        columns.sparse[f] == takes_sparse(dmat, sparse_below, f),
{
    let ks = entries_of(dmat.index@, f, 0, dmat.index.len() as int);
    let q = columns.row_ptr[f] as int;
    assert forall|i: int, j: int|
        columns.row_ptr[f] <= i < j < columns.row_ptr[f + 1] implies #[trigger] columns.row_ind[i]
        <= #[trigger] columns.row_ind[j] by {
        let rows = Seq::new(ks.len(), |m: int| columns.row_ind[q + m]);
        assert forall|m: int| 0 <= m < ks.len() implies dmat.in_row((#[trigger] rows[m]) as int, ks[m]) && rows[m]
            < dmat.info.num_row by {
            assert(columns.row_ind@[q + m] == rows[m]);
        }
        lemma_rows_ascend(dmat, ks, f, rows, i - q, j - q);
        assert(rows[i - q] == columns.row_ind[i]);
        assert(rows[j - q] == columns.row_ind[j]);
    }
}

proof fn lemma_cell_recorded(
    dmat: &DMatrix,
    local: Seq<u32>,
    sparse_below: usize,
    columns: &ColumnIndex,
    max_bins: int,
    f: int,
    r: int,
)
    requires
        dmat.wf(),
        0 <= r < dmat.info.num_row,
        columns.n_rows == dmat.info.num_row,
        local.len() == dmat.index.len(),
        columns.missing >= max_bins,
        forall|k: int| 0 <= k < local.len() ==> #[trigger] local[k] < max_bins,
        laid_out(
            dmat,
            local,
            sparse_below,
            columns.missing,
            columns.data.bins(),
            columns.data_ptr@,
            columns.row_ind@,
            columns.row_ptr@,
            columns.sparse@,
            f,
        ),
    ensures
        records_cell(columns, dmat, local, f, r),
{
    let ks = entries_of(dmat.index@, f, 0, dmat.index.len() as int);
    let q = columns.row_ptr[f] as int;
    let d = columns.data_ptr[f] as int;
    lemma_entries_of(dmat.index@, f, 0, dmat.index.len() as int);
    assert(dmat.row_ptr[r + 1] <= dmat.row_ptr[dmat.info.num_row as int]);
    assert(dmat.row_ptr[0] <= dmat.row_ptr[r]);
    if columns.sparse[f] {
        let rows = Seq::new(ks.len(), |m: int| columns.row_ind[q + m]);
        assert forall|m: int| 0 <= m < ks.len() implies dmat.in_row((#[trigger] rows[m]) as int, ks[m]) && rows[m]
            < dmat.info.num_row by {
            assert(columns.row_ind@[q + m] == rows[m]);
        }
        assert forall|k: int| #[trigger] dmat.stands(r, k) && dmat.index[k] == f implies columns.answers(
            f,
            r,
            Some(local[k]),
        ) by {
            assert(dmat.in_row(r, k));
            assert(ks.contains(k));
            let j = choose|j: int| 0 <= j < ks.len() && ks[j] == k;
            assert(dmat.in_row(rows[j] as int, ks[j]));
            lemma_one_row(dmat, rows[j] as int, r, k);
            lemma_last_stands(dmat, ks, f, rows, j);
            assert forall|i: int| q + j < i < columns.row_ptr[f + 1] implies #[trigger] columns.row_ind[i] != r by {
                assert(rows[i - q] != rows[j]);
            }
            assert(columns.row_ind[q + j] == rows[j]);
            assert(columns.last_of(f, r, q + j));
            assert(columns.data.bins()[d + ((q + j) - q)] == local[k]);
        }
        if forall|k: int| #[trigger] dmat.in_row(r, k) ==> dmat.index[k] != f {
            assert forall|j: int|
                columns.row_ptr[f] <= j < columns.row_ptr[f + 1] implies #[trigger] columns.row_ind[j] != r by {
                let m = j - q;
                assert(dmat.in_row(columns.row_ind@[q + m] as int, ks[m]));
                if columns.row_ind[j] == r {
                    assert(dmat.in_row(r, ks[m]));
                }
            }
        }
    } else {
        assert(dense_slot(dmat, local, columns.missing, f, r, columns.data.bins()[d + r]));
        assert forall|k: int| #[trigger] dmat.stands(r, k) && dmat.index[k] == f implies columns.answers(
            f,
            r,
            Some(local[k]),
        ) by {
            assert(dmat.in_row(r, k));
            assert(local[k] < max_bins);
        }
    }
}

/// Where a row has a column, one of its entries is the last.
proof fn lemma_some_stands(dmat: &DMatrix, r: int, k: int) -> (last: int)
    requires
        dmat.in_row(r, k),
    ensures
        dmat.stands(r, last),
        dmat.index[last] == dmat.index[k],
        k <= last,
    decreases dmat.row_ptr[r + 1] - k,
{
    if exists|j: int| #[trigger] dmat.in_row(r, j) && k < j && dmat.index[j] == dmat.index[k] {
        let j = choose|j: int| #[trigger] dmat.in_row(r, j) && k < j && dmat.index[j] == dmat.index[k];
        lemma_some_stands(dmat, r, j)
    } else {
        k
    }
}

proof fn lemma_dense_slot(
    dmat: &DMatrix,
    local: Seq<u32>,
    missing: u32,
    f: int,
    r: int,
    rows: Seq<u32>,
    bins: Seq<u32>,
    v: u32,
)
    requires
        dmat.wf(),
        0 <= r < dmat.info.num_row,
        rows.len() == bins.len(),
        rows.len() == entries_of(dmat.index@, f, 0, dmat.index.len() as int).len(),
        forall|m: int|
            0 <= m < rows.len() ==> dmat.in_row(
                (#[trigger] rows[m]) as int,
                entries_of(dmat.index@, f, 0, dmat.index.len() as int)[m],
            ) && rows[m] < dmat.info.num_row && bins[m] == local[entries_of(
                dmat.index@,
                f,
                0,
                dmat.index.len() as int,
            )[m]],
        filled_slot(rows, bins, missing, rows.len() as int, r, v),
    ensures
        dense_slot(dmat, local, missing, f, r, v),
{
    let ks = entries_of(dmat.index@, f, 0, dmat.index.len() as int);
    lemma_entries_of(dmat.index@, f, 0, dmat.index.len() as int);
    assert(dmat.row_ptr[r + 1] <= dmat.row_ptr[dmat.info.num_row as int]);
    assert(dmat.row_ptr[0] <= dmat.row_ptr[r]);
    assert forall|k: int| #[trigger] dmat.stands(r, k) && dmat.index[k] == f implies v == local[k] by {
        assert(dmat.in_row(r, k));
        assert(ks.contains(k));
        let j = choose|j: int| 0 <= j < ks.len() && ks[j] == k;
        assert(dmat.in_row(rows[j] as int, ks[j]));
        lemma_one_row(dmat, rows[j] as int, r, k);
        lemma_last_stands(dmat, ks, f, rows, j);
        assert(rows[j] == r);
        assert(bins[j] == local[k]);
    }
    if forall|k: int| #[trigger] dmat.in_row(r, k) ==> dmat.index[k] != f {
        assert forall|j: int| 0 <= j < rows.len() implies #[trigger] rows[j] != r by {
            assert(dmat.in_row(rows[j] as int, ks[j]));
            if rows[j] == r {
                assert(dmat.in_row(r, ks[j]));
            }
        }
    }
}

/// The columns of a row ascend from at least its place in the row.
proof fn lemma_row_places(dmat: &DMatrix, r: int, j: int)
    requires
        dmat.wf(),
        dmat.columns_ascend(),
        0 <= r < dmat.info.num_row,
        0 <= j,
        dmat.in_row(r, dmat.row_ptr[r] + j),
    ensures
        dmat.index[dmat.row_ptr[r] + j] >= j,
    decreases j,
{
    if j > 0 {
        assert(dmat.in_row(r, dmat.row_ptr[r] + (j - 1)));
        lemma_row_places(dmat, r, j - 1);
        assert(dmat.index[dmat.row_ptr[r] + (j - 1)] < dmat.index[dmat.row_ptr[r] + j]);
    }
}

/// A row has at most one entry per column.
proof fn lemma_row_len(dmat: &DMatrix, r: int)
    requires
        dmat.wf(),
        dmat.columns_ascend(),
        0 <= r < dmat.info.num_row,
    ensures
        dmat.row_ptr[r] <= dmat.row_ptr[r + 1] <= dmat.row_ptr[r] + dmat.info.num_col,
{
    assert(dmat.row_ptr[r] <= dmat.row_ptr[r + 1]);
    assert(dmat.row_ptr[r + 1] <= dmat.row_ptr[dmat.info.num_row as int]);
    assert(dmat.row_ptr[0] <= dmat.row_ptr[r]);
    let len = dmat.row_ptr[r + 1] - dmat.row_ptr[r];
    if len > 0 {
        assert(dmat.in_row(r, dmat.row_ptr[r] + (len - 1)));
        lemma_row_places(dmat, r, len - 1);
        assert(dmat.index[dmat.row_ptr[r] + (len - 1)] < dmat.info.num_col);
    }
}

/// The first rows hold at most a full share, and so do the last.
proof fn lemma_row_share(dmat: &DMatrix, a: int, b: int)
    requires
        dmat.wf(),
        dmat.columns_ascend(),
        0 <= a <= b <= dmat.info.num_row,
    ensures
        dmat.row_ptr[b] - dmat.row_ptr[a] <= (b - a) * dmat.info.num_col,
    decreases b - a,
{
    let m = dmat.info.num_col as int;
    if a < b {
        lemma_row_share(dmat, a, b - 1);
        lemma_row_len(dmat, b - 1);
        assert((b - a) * m == (b - 1 - a) * m + m) by (nonlinear_arith);
    } else {
        assert(0 * m == 0) by (nonlinear_arith);
    }
}

/// In a matrix that stores as many entries as it has cells, every row holds every column,
/// in order.
pub proof fn lemma_dense_rows(dmat: &DMatrix, r: int)
    requires
        dmat.wf(),
        dmat.columns_ascend(),
        dmat.index.len() == dmat.info.num_row * dmat.info.num_col,
        0 <= r < dmat.info.num_row,
    ensures
        dmat.row_ptr[r] == r * dmat.info.num_col,
        dmat.row_ptr[r + 1] == dmat.row_ptr[r] + dmat.info.num_col,
        forall|c: int|
            0 <= c < dmat.info.num_col ==> dmat.in_row(r, #[trigger] (dmat.row_ptr[r] + c)) && dmat.index[dmat.row_ptr[r]
                + c] == c,
{
    let n = dmat.info.num_row as int;
    let m = dmat.info.num_col as int;
    lemma_row_share(dmat, 0, r);
    lemma_row_share(dmat, r, n);
    lemma_row_share(dmat, 0, r + 1);
    lemma_row_share(dmat, r + 1, n);
    assert(r * m + (n - r) * m == n * m) by (nonlinear_arith);
    assert((r + 1) * m + (n - (r + 1)) * m == n * m) by (nonlinear_arith);
    assert((r + 1) * m == r * m + m) by (nonlinear_arith);
    assert forall|c: int| 0 <= c < m implies dmat.in_row(r, #[trigger] (dmat.row_ptr[r] + c)) && dmat.index[dmat.row_ptr[r]
        + c] == c by {
        lemma_row_places(dmat, r, c);
        lemma_row_ceiling(dmat, r, c);
    }
}

/// In a full row a column stands no later than its place.
proof fn lemma_row_ceiling(dmat: &DMatrix, r: int, c: int)
    requires
        dmat.wf(),
        dmat.columns_ascend(),
        0 <= r < dmat.info.num_row,
        dmat.row_ptr[r + 1] == dmat.row_ptr[r] + dmat.info.num_col,
        0 <= c < dmat.info.num_col,
    ensures
        dmat.index[dmat.row_ptr[r] + c] <= c,
    decreases dmat.info.num_col - c,
{
    assert(dmat.row_ptr[r + 1] <= dmat.row_ptr[dmat.info.num_row as int]);
    assert(dmat.row_ptr[0] <= dmat.row_ptr[r]);
    assert(dmat.in_row(r, dmat.row_ptr[r] + c));
    if c + 1 < dmat.info.num_col {
        lemma_row_ceiling(dmat, r, c + 1);
        assert(dmat.in_row(r, dmat.row_ptr[r] + (c + 1)));
        assert(dmat.index[dmat.row_ptr[r] + c] < dmat.index[dmat.row_ptr[r] + (c + 1)]);
    } else {
        assert(dmat.index[dmat.row_ptr[r] + c] < dmat.info.num_col);
    }
}

pub(crate) fn copy_sizes(v: &Vec<usize>) -> (out: Vec<usize>)
    ensures
        out@ == v@,
{
    let mut out: Vec<usize> = Vec::with_capacity(v.len());
    out.extend_from_slice(v.as_slice());
    assert(out@ =~= v@);
    out
}

fn copy_words(v: &Vec<u32>) -> (out: Vec<u32>)
    ensures
        out@ == v@,
{
    let mut out: Vec<u32> = Vec::with_capacity(v.len());
    out.extend_from_slice(v.as_slice());
    assert(out@ =~= v@);
    out
}

/// Row-major binned index over a [`DMatrix`].
#[derive(Clone, Debug)]
pub struct GHistIndex {
    /// Dense: feature-local bins, `row_stride` per row. Sparse: global bins.
    pub index: BinStorage,
    /// Row offsets into `index`. Empty for dense matrices, where the offset is
    /// `row * row_stride`.
    pub row_ptr: Vec<usize>,
    /// Global bin offset of each feature; dense matrices only.
    pub offsets: Vec<u32>,
    pub cuts: HistogramCuts,
    /// True when every row holds an entry for every feature.
    pub is_dense: bool,
    pub row_stride: usize,
    /// Transposed view of the same bins, for row partitioning.
    pub columns: ColumnIndex,
    pub num_row: usize,
}

impl GHistIndex {
    /// The rows lie inside the index, and every global bin is a 32-bit number.
    pub open spec fn wf(&self) -> bool {
        &&& self.is_dense ==> {
            &&& self.num_row * self.row_stride <= self.index.bins().len()
            &&& self.offsets.len() == self.row_stride
            &&& forall|r: int, j: int|
                0 <= r < self.num_row && 0 <= j < self.row_stride ==> self.offsets[j] + #[trigger] self.index.bins()[self.entry(
                    r,
                    j,
                )] <= u32::MAX
        }
        &&& !self.is_dense ==> {
            &&& self.row_ptr.len() == self.num_row + 1
            &&& forall|a: int, b: int|
                0 <= a <= b <= self.num_row ==> #[trigger] self.row_ptr[a] <= #[trigger] self.row_ptr[b]
            &&& self.row_ptr[self.num_row as int] <= self.index.bins().len()
        }
    }

    /// Where entry `j` of row `r` stands in the index.
    pub open spec fn entry(&self, r: int, j: int) -> int {
        if self.is_dense {
            r * self.row_stride + j
        } else {
            self.row_ptr[r] + j
        }
    }

    /// How many entries row `r` has.
    pub open spec fn row_len(&self, r: int) -> int {
        if self.is_dense {
            self.row_stride as int
        } else {
            self.row_ptr[r + 1] - self.row_ptr[r]
        }
    }

    /// The global bins of row `r`.
    pub open spec fn global_bins(&self, r: int) -> Seq<u32> {
        Seq::new(
            self.row_len(r) as nat,
            |j: int|
                if self.is_dense {
                    (self.offsets[j] + self.index.bins()[self.entry(r, j)]) as u32
                } else {
                    self.index.bins()[self.entry(r, j)]
                },
        )
    }

    pub fn num_row(&self) -> (n: usize)
        ensures
            n == self.num_row,
    {
        self.num_row
    }

    pub fn total_bins(&self) -> (n: usize)
        ensures
            n == self.cuts.cut_values.len(),
    {
        self.cuts.total_bins()
    }

    /// Bytes held by the binned index.
    pub fn size_bytes(&self) -> (n: usize)
        requires
            self.index.bins().len() * 4 <= usize::MAX,
        ensures
            n == self.index.bins().len() * self.index.entry_width(),
    {
        let len: usize = self.index.len();
        let width: usize = self.index.width();
        assert(len * width <= len * 4) by (nonlinear_arith)
            requires
                0 <= len,
                width <= 4,
        ;
        len * width
    }

    /// Bytes held by the transposed copy.
    pub fn column_size_bytes(&self) -> (n: usize)
        requires
            self.columns.data.bins().len() * 4 + self.columns.row_ind.len() * 4 <= usize::MAX,
        ensures
            n == self.columns.data.bins().len() * self.columns.data.entry_width() + self.columns.row_ind.len() * 4,
    {
        self.columns.size_bytes()
    }

    /// How many columns took the sparse layout.
    pub fn sparse_columns(&self) -> (n: usize)
        ensures
            n == count_true(self.columns.sparse@, self.columns.sparse.len() as int),
    {
        self.columns.sparse_columns()
    }

    /// Range of `index` covered by row `r`.
    pub fn row_range(&self, r: usize) -> (range: (usize, usize))
        requires
            self.wf(),
            r < self.num_row,
        ensures
            range.0 == self.entry(r as int, 0),
            range.1 == self.entry(r as int, 0) + self.row_len(r as int),
            range.0 <= range.1 <= self.index.bins().len(),
    {
        if self.is_dense {
            let len: usize = self.index.len();
            proof {
                let n = self.num_row as int;
                let s = self.row_stride as int;
                assert(0 <= r * s && r * s + s == (r + 1) * s && (r + 1) * s <= n * s) by (nonlinear_arith)
                    requires
                        0 <= r,
                        r + 1 <= n,
                        0 <= s,
                ;
            }
            (r * self.row_stride, (r + 1) * self.row_stride)
        } else {
            assert(self.row_ptr[r as int] <= self.row_ptr[r + 1]);
            assert(self.row_ptr[r + 1] <= self.row_ptr[self.num_row as int]);
            (self.row_ptr[r], self.row_ptr[r + 1])
        }
    }

    /// Global bins of row `r`.
    pub fn row_global_bins(&self, r: usize) -> (bins: Vec<u32>)
        requires
            self.wf(),
            r < self.num_row,
        ensures
            bins@ == self.global_bins(r as int),
    {
        let (b, e) = self.row_range(r);
        let mut bins: Vec<u32> = Vec::with_capacity(e - b);
        let mut k: usize = b;
        while k < e
            invariant
                self.wf(),
                r < self.num_row,
                b == self.entry(r as int, 0),
                e == b + self.row_len(r as int),
                e <= self.index.bins().len(),
                b <= k <= e,
                bins.len() == k - b,
                forall|j: int| 0 <= j < k - b ==> #[trigger] bins[j] == self.global_bins(r as int)[j],
            decreases e - k,
        {
            let ghost j = k - b;
            assert(self.entry(r as int, j) == k);
            let stored: u32 = self.index.get(k);
            let bin: u32 = if self.is_dense {
                assert(self.offsets[j] + self.index.bins()[self.entry(r as int, j)] <= u32::MAX);
                self.offsets[k - b] + stored
            } else {
                stored
            };
            bins.push(bin);
            k += 1;
        }
        assert(bins@ =~= self.global_bins(r as int));
        bins
    }
}

/// Where the bin of row `r`'s stored entry `k` stands among the row's bins: at its column in a
/// dense index, at its place in the row in a sparse one.
pub open spec fn place_of(gi: &GHistIndex, dmat: &DMatrix, r: int, k: int) -> int {
    if gi.is_dense {
        dmat.index[k] as int
    } else {
        k - dmat.row_ptr[r]
    }
}

/// The index holds the matrix: row `r` has a bin for each of its entries, and the columns
/// answer as the rows do.
pub open spec fn indexes(gi: &GHistIndex, dmat: &DMatrix, cuts: &HistogramCuts, local: Seq<u32>) -> bool {
    &&& gi.wf()
    &&& gi.num_row == dmat.info.num_row
    &&& gi.is_dense == dmat.dense()
    &&& gi.columns.wf()
    &&& gi.columns.n_rows == dmat.info.num_row
    &&& gi.columns.sparse.len() == dmat.info.num_col
    &&& bins_entries(dmat, cuts, local)
    &&& records(&gi.columns, dmat, local)
    &&& forall|r: int| 0 <= r < dmat.info.num_row ==> #[trigger] indexes_row(gi, dmat, cuts, local, r)
}

pub open spec fn indexes_row(gi: &GHistIndex, dmat: &DMatrix, cuts: &HistogramCuts, local: Seq<u32>, r: int) -> bool {
    &&& gi.row_len(r) == (if gi.is_dense {
        dmat.info.num_col as int
    } else {
        dmat.row_ptr[r + 1] - dmat.row_ptr[r]
    })
    &&& forall|k: int| #[trigger]
        held(gi, dmat, r, k) ==> gi.global_bins(r)[place_of(gi, dmat, r, k)] == cuts.cut_ptrs[dmat.index[k] as int]
            + local[k]
}

/// The row-major index holds the bin of row `r`'s stored entry `k`: a sparse one of every entry,
/// a dense one, which has a bin per feature, of the row's last entry for a feature.
pub open spec fn held(gi: &GHistIndex, dmat: &DMatrix, r: int, k: int) -> bool {
    dmat.in_row(r, k) && (gi.is_dense ==> dmat.stands(r, k))
}

/// The column-major index agrees with the row-major one: where row `r`'s stored entry `k` is of
/// feature `f`, and no later one is, the column's bin plus the feature's offset is the row's.
pub proof fn lemma_columns_agree(
    gi: &GHistIndex,
    dmat: &DMatrix,
    cuts: &HistogramCuts,
    local: Seq<u32>,
    f: int,
    r: int,
    k: int,
    v: Option<u32>,
)
    requires
        dmat.wf(),
        indexes(gi, dmat, cuts, local),
        0 <= f < dmat.info.num_col,
        0 <= r < dmat.info.num_row,
        dmat.stands(r, k),
        dmat.index[k] == f,
        gi.columns.answers(f, r, v),
    ensures
        v is Some,
        v->0 + cuts.cut_ptrs[f] == gi.global_bins(r)[place_of(gi, dmat, r, k)],
{
    assert(indexes_row(gi, dmat, cuts, local, r));
    assert(records_cell(&gi.columns, dmat, local, f, r));
    gi.columns.lemma_one_answer(f, r, v, Some(local[k]));
    assert(held(gi, dmat, r, k));
}

/// A lookup finds nothing exactly where the row stores nothing for the feature.
pub proof fn lemma_lookup_missing(
    gi: &GHistIndex,
    dmat: &DMatrix,
    cuts: &HistogramCuts,
    local: Seq<u32>,
    f: int,
    r: int,
    v: Option<u32>,
)
    requires
        dmat.wf(),
        indexes(gi, dmat, cuts, local),
        0 <= f < dmat.info.num_col,
        0 <= r < dmat.info.num_row,
        gi.columns.answers(f, r, v),
    ensures
        v is None <==> !dmat.stores(r, f),
{
    assert(records_cell(&gi.columns, dmat, local, f, r));
    if dmat.stores(r, f) {
        let any = choose|k: int| #[trigger] dmat.in_row(r, k) && dmat.index[k] == f;
        let k = lemma_some_stands(dmat, r, any);
        gi.columns.lemma_one_answer(f, r, v, Some(local[k]));
    } else {
        gi.columns.lemma_one_answer(f, r, v, None);
    }
}

/// An entry that is the only one of its row for its feature is the one that stands.
pub proof fn lemma_only_entry_stands(dmat: &DMatrix, r: int, k: int)
    requires
        dmat.in_row(r, k),
        forall|j: int| #[trigger] dmat.in_row(r, j) && j != k ==> dmat.index[j] != dmat.index[k],
    ensures
        dmat.stands(r, k),
{
}

/// Bins of the index do not decrease with the value: of two rows that have a numeric feature,
/// the one with the smaller value has no later bin.
pub proof fn lemma_index_monotone(
    gi: &GHistIndex,
    dmat: &DMatrix,
    cuts: &HistogramCuts,
    local: Seq<u32>,
    r: int,
    j: int,
    s: int,
    k: int,
)
    requires
        dmat.wf(),
        indexes(gi, dmat, cuts, local),
        0 <= r < dmat.info.num_row,
        0 <= s < dmat.info.num_row,
        held(gi, dmat, r, j),
        held(gi, dmat, s, k),
        dmat.index[j] == dmat.index[k],
        !cuts.categorical(dmat.index[j] as int),
        le_spec(dmat.value[j], dmat.value[k]),
    ensures
        gi.global_bins(r)[place_of(gi, dmat, r, j)] <= gi.global_bins(s)[place_of(gi, dmat, s, k)],
{
    let f = dmat.index[j] as int;
    assert(indexes_row(gi, dmat, cuts, local, r));
    assert(indexes_row(gi, dmat, cuts, local, s));
    assert(dmat.row_ptr[r + 1] <= dmat.row_ptr[dmat.info.num_row as int]);
    assert(dmat.row_ptr[s + 1] <= dmat.row_ptr[dmat.info.num_row as int]);
    assert(is_local_bin(cuts, dmat.value[j], f, local[j]));
    assert(is_local_bin(cuts, dmat.value[k], f, local[k]));
    lemma_bins_monotone(
        cuts,
        f,
        dmat.value[j],
        dmat.value[k],
        cuts.cut_ptrs[f] + local[j],
        cuts.cut_ptrs[f] + local[k],
    );
}

/// The bins of a numeric feature reach from its first to its last: a value under the first cut
/// has the feature's first bin, one that the cut before the last does not exceed has its last.
pub proof fn lemma_index_ends(gi: &GHistIndex, dmat: &DMatrix, cuts: &HistogramCuts, local: Seq<u32>, r: int, k: int)
    requires
        dmat.wf(),
        cuts.wf(),
        dmat.info.num_col == cuts.cut_ptrs.len() - 1,
        indexes(gi, dmat, cuts, local),
        0 <= r < dmat.info.num_row,
        held(gi, dmat, r, k),
        !cuts.categorical(dmat.index[k] as int),
    ensures
        ({
            let f = dmat.index[k] as int;
            let first = cuts.cut_ptrs[f] as int;
            let last = cuts.cut_ptrs[f + 1] - 1;
            let bin = gi.global_bins(r)[place_of(gi, dmat, r, k)];
            &&& first <= bin <= last
            &&& !le_spec(cuts.cut_values[first], dmat.value[k]) ==> bin == first
            &&& (first == last || le_spec(cuts.cut_values[last - 1], dmat.value[k])) ==> bin == last
        }),
{
    let f = dmat.index[k] as int;
    assert(indexes_row(gi, dmat, cuts, local, r));
    assert(dmat.row_ptr[r + 1] <= dmat.row_ptr[dmat.info.num_row as int]);
    assert(is_local_bin(cuts, dmat.value[k], f, local[k]));
    let first = cuts.cut_ptrs[f] as int;
    let last = cuts.cut_ptrs[f + 1] - 1;
    let bin = first + local[k];
    if !le_spec(cuts.cut_values[first], dmat.value[k]) && bin > first {
        assert(le_spec(cuts.cut_values[first], dmat.value[k]));
    }
    if first < last && le_spec(cuts.cut_values[last - 1], dmat.value[k]) && bin < last {
        assert(cuts.is_sorted(f));
        assert(cuts_sorted(cuts, f));
        if bin < last - 1 {
            assert(rank(cuts.cut_values[bin]) <= rank(cuts.cut_values[last - 1]));
        }
    }
}

/// Both column layouts answer every query the same way: whatever the number of entries below
/// which a column is stored sparsely, the answer is the matrix's.
pub proof fn lemma_layouts_agree(
    a: &ColumnIndex,
    b: &ColumnIndex,
    dmat: &DMatrix,
    local: Seq<u32>,
    f: int,
    r: int,
    x: Option<u32>,
    y: Option<u32>,
)
    requires
        a.wf(),
        b.wf(),
        a.sparse.len() == dmat.info.num_col,
        b.sparse.len() == dmat.info.num_col,
        records(a, dmat, local),
        records(b, dmat, local),
        0 <= f < dmat.info.num_col,
        0 <= r < dmat.info.num_row,
        a.answers(f, r, x),
        b.answers(f, r, y),
    ensures
        x == y,
{
    assert(records_cell(a, dmat, local, f, r));
    assert(records_cell(b, dmat, local, f, r));
    if exists|k: int| #[trigger] dmat.in_row(r, k) && dmat.index[k] == f {
        let any = choose|k: int| #[trigger] dmat.in_row(r, k) && dmat.index[k] == f;
        let k = lemma_some_stands(dmat, r, any);
        a.lemma_one_answer(f, r, x, Some(local[k]));
        b.lemma_one_answer(f, r, y, Some(local[k]));
    } else {
        a.lemma_one_answer(f, r, x, None);
        b.lemma_one_answer(f, r, y, None);
    }
}

/// A column that every row has a value for has an entry for each at least.
proof fn lemma_full_column(dmat: &DMatrix, f: int, n: int)
    requires
        dmat.wf(),
        0 <= n <= dmat.info.num_row,
        forall|r: int| 0 <= r < dmat.info.num_row ==> #[trigger] dmat.stores(r, f),
    ensures
        entries_of(dmat.index@, f, 0, dmat.row_ptr[n] as int).len() >= n,
    decreases n,
{
    if n > 0 {
        lemma_full_column(dmat, f, n - 1);
        let from = dmat.row_ptr[n - 1] as int;
        let to = dmat.row_ptr[n] as int;
        assert(dmat.row_ptr[0] <= dmat.row_ptr[n - 1] && dmat.row_ptr[n - 1] <= dmat.row_ptr[n]);
        lemma_entries_concat(dmat.index@, f, 0, from, to);
        lemma_entries_of(dmat.index@, f, from, to);
        assert(dmat.stores(n - 1, f));
        let k = choose|k: int| #[trigger] dmat.in_row(n - 1, k) && dmat.index[k] == f;
        assert(entries_of(dmat.index@, f, from, to).contains(k));
    }
}

/// A fully populated column stays dense whatever the threshold, which is at most the number
/// of rows.
pub proof fn lemma_full_column_dense(dmat: &DMatrix, sparse_below: usize, f: int)
    requires
        dmat.wf(),
        sparse_below <= dmat.info.num_row,
        forall|r: int| 0 <= r < dmat.info.num_row ==> #[trigger] dmat.stores(r, f),
    ensures
        !takes_sparse(dmat, sparse_below, f),
{
    lemma_full_column(dmat, f, dmat.info.num_row as int);
}

/// Of the first `n` columns, those with fewer than `sparse_below` entries.
pub open spec fn thin_columns(dmat: &DMatrix, sparse_below: usize, n: int) -> nat
    decreases n,
{
    if n <= 0 {
        0
    } else {
        thin_columns(dmat, sparse_below, n - 1) + (if column_count(dmat.index@, n - 1, dmat.index.len() as int)
            < sparse_below {
            1nat
        } else {
            0nat
        })
    }
}

/// As many columns are stored sparsely as have fewer entries than the layout asks for, which is
/// none where it asks for none.
pub proof fn lemma_sparse_columns(columns: &ColumnIndex, dmat: &DMatrix, sparse_below: usize, n: int)
    requires
        0 <= n <= dmat.info.num_col,
        columns.sparse.len() == dmat.info.num_col,
        forall|f: int|
            0 <= f < dmat.info.num_col ==> #[trigger] columns.sparse[f] == takes_sparse(dmat, sparse_below, f),
    ensures
        count_true(columns.sparse@, n) == thin_columns(dmat, sparse_below, n),
        sparse_below == 0 ==> count_true(columns.sparse@, n) == 0,
    decreases n,
{
    if n > 0 {
        lemma_sparse_columns(columns, dmat, sparse_below, n - 1);
        lemma_layout_by_size(dmat, sparse_below, n - 1);
        assert(columns.sparse[n - 1] == takes_sparse(dmat, sparse_below, n - 1));
    }
}

/// A full matrix has at least as many entries as cells.
proof fn lemma_dense_cells(dmat: &DMatrix)
    requires
        dmat.wf(),
        dmat.dense(),
    ensures
        dmat.info.num_row * dmat.info.num_col <= dmat.index.len(),
{
    lemma_full_columns(dmat, dmat.info.num_col as int);
    lemma_before_total(dmat.index@, dmat.info.num_col as int, 0, dmat.index.len() as int);
}

proof fn lemma_full_columns(dmat: &DMatrix, c: int)
    requires
        dmat.wf(),
        dmat.dense(),
        0 <= c <= dmat.info.num_col,
    ensures
        dmat.info.num_row * c <= entries_before(dmat.index@, c, 0, dmat.index.len() as int),
    decreases c,
{
    let n = dmat.info.num_row as int;
    if c > 0 {
        lemma_full_columns(dmat, c - 1);
        assert forall|r: int| 0 <= r < n implies #[trigger] dmat.stores(r, c - 1) by {}
        lemma_full_column(dmat, c - 1, n);
        assert(n * c == n * (c - 1) + n) by (nonlinear_arith);
    } else {
        assert(n * c == 0) by (nonlinear_arith)
            requires
                c == 0,
        ;
    }
}

/// The smallest value of a column has the feature's first bin and the largest its last, where
/// the cuts were made of a summary that ascends from the one to the other.
pub proof fn lemma_column_ends(
    gi: &GHistIndex,
    dmat: &DMatrix,
    cuts: &HistogramCuts,
    local: Seq<u32>,
    summaries: Seq<Vec<u32>>,
    closing: Seq<u32>,
    max_bins: Seq<usize>,
    r: int,
    k: int,
)
    requires
        dmat.wf(),
        cuts.wf(),
        dmat.info.num_col == summaries.len(),
        indexes(gi, dmat, cuts, local),
        0 <= r < dmat.info.num_row,
        held(gi, dmat, r, k),
        !cuts.categorical(dmat.index[k] as int),
        cuts.cut_values@ == all_cuts(summaries, closing, max_bins, summaries.len() as int),
        cuts.cut_ptrs.len() == summaries.len() + 1,
        forall|g: int|
            0 <= g <= summaries.len() ==> #[trigger] cuts.cut_ptrs[g] == all_cuts(summaries, closing, max_bins, g).len(),
        all_numbers(summaries[dmat.index[k] as int]@),
        strictly_ascend(summaries[dmat.index[k] as int]@),
        summaries[dmat.index[k] as int].len() > 0,
    ensures
        ({
            let f = dmat.index[k] as int;
            let bin = gi.global_bins(r)[place_of(gi, dmat, r, k)];
            &&& le_spec(dmat.value[k], summaries[f]@[0]) ==> bin == cuts.cut_ptrs[f]
            &&& le_spec(summaries[f]@.last(), dmat.value[k]) ==> bin == cuts.cut_ptrs[f + 1] - 1
        }),
{
    let f = dmat.index[k] as int;
    assert(dmat.row_ptr[r + 1] <= dmat.row_ptr[dmat.info.num_row as int]);
    assert(dmat.row_ptr[0] <= dmat.row_ptr[r]);
    assert(dmat.index[k] < dmat.info.num_col);
    assert(indexes_row(gi, dmat, cuts, local, r));
    assert(is_local_bin(cuts, dmat.value[k], f, local[k]));
    lemma_summary_ends(summaries, closing, max_bins, cuts, f, dmat.value[k]);
    let bin = cuts.cut_ptrs[f] + local[k];
    if le_spec(dmat.value[k], summaries[f]@[0]) {
        lemma_bin_unique(cuts, dmat.value[k], f, bin, cuts.cut_ptrs[f] as int);
    }
    if le_spec(summaries[f]@.last(), dmat.value[k]) {
        lemma_bin_unique(cuts, dmat.value[k], f, bin, cuts.cut_ptrs[f + 1] - 1);
    }
}

/// The bins of a full matrix, a row of features after the other; of several entries for a cell
/// the last.
fn dense_bins(dmat: &DMatrix, local: &Vec<u32>, n_values: usize) -> (bins: Vec<u32>)
    requires
        dmat.wf(),
        local.len() == dmat.index.len(),
        dmat.info.num_row * dmat.info.num_col <= usize::MAX,
        dmat.info.num_col > 0 ==> n_values > 0,
        forall|k: int| 0 <= k < local.len() ==> #[trigger] local[k] < n_values,
    ensures
        bins.len() == dmat.info.num_row * dmat.info.num_col,
        forall|i: int| 0 <= i < bins.len() ==> #[trigger] bins[i] < n_values,
        forall|r: int, k: int|
            0 <= r < dmat.info.num_row && #[trigger] dmat.stands(r, k) ==> bins[r * dmat.info.num_col + dmat.index[k]]
                == local[k],
{
    let n: usize = dmat.num_row();
    let m: usize = dmat.num_col();
    let mut bins: Vec<u32> = vec![0u32; n * m];
    let mut r: usize = 0;
    proof {
        if m == 0 {
            assert(n * m == 0) by (nonlinear_arith)
                requires
                    m == 0,
            ;
        }
    }
    while r < n
        invariant
            dmat.wf(),
            n == dmat.info.num_row,
            m == dmat.info.num_col,
            n * m <= usize::MAX,
            local.len() == dmat.index.len(),
            forall|k: int| 0 <= k < local.len() ==> #[trigger] local[k] < n_values,
            bins.len() == n * m,
            forall|i: int| 0 <= i < bins.len() ==> #[trigger] bins[i] < n_values,
            r <= n,
            forall|q: int, k: int| 0 <= q < r && #[trigger] dmat.stands(q, k) ==> bins[q * m + dmat.index[k]] == local[k],
        decreases n - r,
    {
        assert(dmat.row_ptr[r as int] <= dmat.row_ptr[r + 1]);
        assert(dmat.row_ptr[r + 1] <= dmat.row_ptr[n as int]);
        let end: usize = dmat.row_ptr[r + 1];
        let mut k: usize = dmat.row_ptr[r];
        proof {
            assert(0 <= r * m && r * m + m <= n * m) by (nonlinear_arith)
                requires
                    0 <= r,
                    r + 1 <= n,
                    0 <= m,
            ;
        }
        while k < end
            invariant
                dmat.wf(),
                n == dmat.info.num_row,
                m == dmat.info.num_col,
                n * m <= usize::MAX,
                0 <= r * m,
                r * m + m <= n * m,
                local.len() == dmat.index.len(),
                forall|j: int| 0 <= j < local.len() ==> #[trigger] local[j] < n_values,
                bins.len() == n * m,
                forall|i: int| 0 <= i < bins.len() ==> #[trigger] bins[i] < n_values,
                r < n,
                end == dmat.row_ptr[r + 1],
                end <= dmat.index.len(),
                dmat.row_ptr[r as int] <= k <= end,
                forall|q: int, j: int|
                    (0 <= q < r || (q == r && j < k)) && #[trigger] dmat.stands(q, j) ==> bins[q * m + dmat.index[j]]
                        == local[j],
            decreases end - k,
        {
            let ghost was = bins@;
            let at: usize = r * m + dmat.index[k] as usize;
            bins[at] = local[k];
            proof {
                assert(dmat.in_row(r as int, k as int));
                assert forall|q: int, j: int|
                    (0 <= q < r || (q == r && j < k + 1)) && #[trigger] dmat.stands(q, j) implies bins[q * m
                    + dmat.index[j]] == local[j] by {
                    assert(dmat.in_row(q, j));
                    assert(dmat.row_ptr[q + 1] <= dmat.row_ptr[n as int]);
                    assert(dmat.row_ptr[0] <= dmat.row_ptr[q]);
                    let c = dmat.index[j] as int;
                    assert(c < m);
                    assert(0 <= q * m && q * m + m <= n * m) by (nonlinear_arith)
                        requires
                            0 <= q,
                            q + 1 <= n,
                            0 <= m,
                    ;
                    if q < r {
                        assert(q * m + m <= r * m) by (nonlinear_arith)
                            requires
                                q + 1 <= r,
                                0 <= m,
                        ;
                        assert(was[q * m + c] == local[j]);
                    } else if j < k {
                        assert(dmat.index[j] != dmat.index[k as int]);
                        assert(was[q * m + c] == local[j]);
                    }
                }
            }
            k += 1;
        }
        r += 1;
    }
    bins
}

/// What binning a matrix gives: the index and its layout in full.
pub open spec fn gradient_index_of(gi: &GHistIndex, dmat: &DMatrix, cuts: &HistogramCuts, sparse_below: usize) -> bool {
    let n = dmat.info.num_col as int;
    let widest = widest_feature(cuts, n);
    &&& exists|local: Seq<u32>| #[trigger] indexes(gi, dmat, cuts, local)
    &&& gi.is_dense == dmat.dense()
    &&& gi.row_stride == (if gi.is_dense {
        n
    } else {
        0
    })
    &&& gi.row_ptr@ == (if gi.is_dense {
        Seq::empty()
    } else {
        dmat.row_ptr@
    })
    &&& gi.offsets@ == (if gi.is_dense {
        cuts.cut_ptrs@.subrange(0, n)
    } else {
        Seq::empty()
    })
    &&& gi.index.bins().len() == (if gi.is_dense {
        dmat.info.num_row * n
    } else {
        dmat.index.len() as int
    })
    &&& gi.index.entry_width() == BinStorage::width_for(
        if gi.is_dense {
            widest
        } else {
            cuts.cut_values.len() as int
        },
    )
    &&& gi.cuts.cut_ptrs@ == cuts.cut_ptrs@
    &&& gi.cuts.cut_values@ == cuts.cut_values@
    &&& gi.cuts.min_values@ == cuts.min_values@
    &&& gi.cuts.is_categorical@ == cuts.is_categorical@
    &&& forall|f: int| 0 <= f < n ==> #[trigger] gi.columns.sparse[f] == takes_sparse(dmat, sparse_below, f)
    &&& gi.columns.data.entry_width() == BinStorage::width_for(
        if gi.is_dense {
            widest
        } else {
            widest + 1
        },
    )
    &&& gi.columns.data.bins().len() == column_entries(dmat, sparse_below, n)
    &&& gi.columns.row_ind.len() == column_rows(dmat, sparse_below, n)
    &&& gi.columns.missing == (if gi.is_dense {
        u32::MAX as int
    } else {
        widest
    })
}

/// Bin every entry of `dmat` against `cuts`.
///
/// A column with fewer than `sparse_below` stored values takes the sparse layout in the
/// transposed copy. It changes memory and speed, never an answer.
pub fn build_gradient_index_with(dmat: &DMatrix, cuts: &HistogramCuts, sparse_below: usize) -> (result: Result<
    GHistIndex,
    Error,
>)
    requires
        dmat.wf(),
        cuts.wf(),
        dmat.info.num_col == cuts.cut_ptrs.len() - 1,
        dmat.info.num_row <= u32::MAX,
        dmat.info.num_col < usize::MAX,
        cuts.cut_values.len() < u32::MAX,
    ensures
        result is Ok,
        result matches Ok(gi) ==> gradient_index_of(&gi, dmat, cuts, sparse_below),
{
    let is_dense: bool = dmat.is_dense();
    let num_row: usize = dmat.num_row();
    let num_col: usize = dmat.num_col();
    // Bin once, feature-local. Both the row-major index and its transpose are derived from
    // this, so no value is searched for twice.
    let local: Vec<u32> = bin_entries(dmat, cuts);
    let ghost bins = local@;
    let widest: usize = max_feature_bins(cuts, num_col);
    proof {
        assert forall|k: int| 0 <= k < local.len() implies #[trigger] local[k] < widest by {
            lemma_widest(cuts, num_col as int, dmat.index[k] as int);
        }
        lemma_widest_total(cuts, num_col as int);
    }
    let columns: ColumnIndex = build_column_index(dmat, &local, widest, is_dense, sparse_below);
    if is_dense {
        let mut offsets: Vec<u32> = Vec::with_capacity(num_col);
        let mut f: usize = 0;
        while f < num_col
            invariant
                cuts.wf(),
                num_col == cuts.cut_ptrs.len() - 1,
                f <= num_col,
                offsets.len() == f,
                forall|g: int| 0 <= g < f ==> #[trigger] offsets[g] == cuts.cut_ptrs[g],
            decreases num_col - f,
        {
            offsets.push(cuts.cut_ptrs[f]);
            f += 1;
        }
        proof {
            if num_col > 0 {
                lemma_widest(cuts, num_col as int, 0);
                assert(cuts.cut_ptrs[0] < cuts.cut_ptrs[1]);
            }
        }
        proof {
            lemma_dense_cells(dmat);
        }
        let stored: Vec<u32> = dense_bins(dmat, &local, widest);
        let ghost cells = stored@;
        let gi = GHistIndex {
            index: BinStorage::from_u32(stored, widest),
            row_ptr: Vec::new(),
            offsets,
            cuts: cuts.duplicate(),
            is_dense,
            row_stride: num_col,
            columns,
            num_row,
        };
        proof {
            assert forall|r: int, c: int| 0 <= r < num_row && 0 <= c < num_col implies gi.offsets[c]
                + #[trigger] gi.index.bins()[gi.entry(r, c)] <= u32::MAX by {
                assert(dmat.stores(r, c));
                let any = choose|k: int| #[trigger] dmat.in_row(r, k) && dmat.index[k] == c;
                let k = lemma_some_stands(dmat, r, any);
                assert(dmat.row_ptr[r + 1] <= dmat.row_ptr[num_row as int]);
                lemma_global_bin(dmat, cuts, bins, k);
                assert(cells[r * num_col + dmat.index[k]] == bins[k]);
            }
            assert forall|r: int| 0 <= r < num_row implies #[trigger] indexes_row(&gi, dmat, cuts, bins, r) by {
                assert forall|k: int| #[trigger] held(&gi, dmat, r, k) implies gi.global_bins(r)[place_of(&gi, dmat, r, k)]
                    == cuts.cut_ptrs[dmat.index[k] as int] + bins[k] by {
                    assert(dmat.row_ptr[r + 1] <= dmat.row_ptr[num_row as int]);
                    assert(dmat.index[k] < num_col);
                    lemma_global_bin(dmat, cuts, bins, k);
                    assert(cells[r * num_col + dmat.index[k]] == bins[k]);
                    assert(gi.entry(r, dmat.index[k] as int) == r * num_col + dmat.index[k]);
                }
            }
            assert(indexes(&gi, dmat, cuts, bins));
            assert(gi.offsets@ =~= cuts.cut_ptrs@.subrange(0, num_col as int));
            assert(gi.row_ptr@ =~= Seq::<usize>::empty());
        }
        return Ok(gi);
    }
    // Sparse rows do not imply their feature from position, so the row-major index holds
    // global bins.
    let mut global: Vec<u32> = Vec::with_capacity(local.len());
    let mut k: usize = 0;
    while k < local.len()
        invariant
            dmat.wf(),
            cuts.wf(),
            dmat.info.num_col == cuts.cut_ptrs.len() - 1,
            bins_entries(dmat, cuts, local@),
            bins == local@,
            k <= local.len(),
            global.len() == k,
            forall|j: int|
                0 <= j < k ==> #[trigger] global[j] == cuts.cut_ptrs[dmat.index[j] as int] + local[j] && global[j]
                    < cuts.cut_values.len(),
        decreases local.len() - k,
    {
        proof {
            lemma_global_bin(dmat, cuts, bins, k as int);
            assert(dmat.index[k as int] < dmat.info.num_col);
        }
        global.push(cuts.cut_ptrs[dmat.index[k] as usize] + local[k]);
        k += 1;
    }
    let ghost flat = global@;
    let gi = GHistIndex {
        index: BinStorage::from_u32(global, cuts.total_bins()),
        row_ptr: copy_sizes(&dmat.row_ptr),
        offsets: Vec::new(),
        cuts: cuts.duplicate(),
        is_dense,
        row_stride: 0,
        columns,
        num_row,
    };
    proof {
        assert forall|r: int| 0 <= r < num_row implies #[trigger] indexes_row(&gi, dmat, cuts, bins, r) by {
            assert(dmat.row_ptr[r] <= dmat.row_ptr[r + 1]);
            assert(dmat.row_ptr[r + 1] <= dmat.row_ptr[dmat.info.num_row as int]);
            assert(dmat.row_ptr[0] <= dmat.row_ptr[r]);
            assert forall|k: int| #[trigger] held(&gi, dmat, r, k) implies gi.global_bins(r)[place_of(&gi, dmat, r, k)]
                == cuts.cut_ptrs[dmat.index[k] as int] + bins[k] by {
                let j = k - dmat.row_ptr[r];
                assert(gi.entry(r, j) == k);
                assert(gi.index.bins()[k] == flat[k]);
                assert(flat[k] == cuts.cut_ptrs[dmat.index[k] as int] + bins[k]);
            }
        }
        assert(indexes(&gi, dmat, cuts, bins));
        assert(gi.offsets@ =~= Seq::<u32>::empty());
    }
    Ok(gi)
}

/// Entries that a column needs to be stored densely unless the fit asks for another number: a
/// fifth of the rows.
pub open spec fn default_sparse_below(num_row: int) -> int {
    (num_row + 4) / 5
}

/// [`build_gradient_index_with`] the default rule for the columns' layout.
pub fn build_gradient_index(dmat: &DMatrix, cuts: &HistogramCuts) -> (result: Result<GHistIndex, Error>)
    requires
        dmat.wf(),
        cuts.wf(),
        dmat.info.num_col == cuts.cut_ptrs.len() - 1,
        dmat.info.num_row <= u32::MAX,
        dmat.info.num_col < usize::MAX,
        cuts.cut_values.len() < u32::MAX,
    ensures
        result is Ok,
        result matches Ok(gi) ==> gradient_index_of(
            &gi,
            dmat,
            cuts,
            default_sparse_below(dmat.info.num_row as int) as usize,
        ),
{
    let n: usize = dmat.num_row();
    let sparse_below: usize = if n % 5 == 0 {
        n / 5
    } else {
        n / 5 + 1
    };
    build_gradient_index_with(dmat, cuts, sparse_below)
}

/// No feature is wider than all of them.
proof fn lemma_widest_total(cuts: &HistogramCuts, n: int)
    requires
        cuts.wf(),
        0 <= n <= cuts.cut_ptrs.len() - 1,
    ensures
        widest_feature(cuts, n) <= cuts.cut_values.len(),
    decreases n,
{
    if n > 0 {
        lemma_widest_total(cuts, n - 1);
        let last = cuts.cut_ptrs.len() - 1;
        if n < last {
            assert(cuts.cut_ptrs[n] < cuts.cut_ptrs[last]);
        }
        assert(cuts.cut_ptrs[n - 1] < cuts.cut_ptrs[n]);
    }
}

/// A feature's offset plus a local bin is a bin of the total.
proof fn lemma_global_bin(dmat: &DMatrix, cuts: &HistogramCuts, local: Seq<u32>, k: int)
    requires
        dmat.wf(),
        cuts.wf(),
        dmat.info.num_col == cuts.cut_ptrs.len() - 1,
        bins_entries(dmat, cuts, local),
        0 <= k < local.len(),
    ensures
        cuts.cut_ptrs[dmat.index[k] as int] + local[k] < cuts.cut_values.len(),
        cuts.cut_ptrs[dmat.index[k] as int] + local[k] <= u32::MAX,
{
    let f = dmat.index[k] as int;
    assert(dmat.index[k] < dmat.info.num_col);
    let last = cuts.cut_ptrs.len() - 1;
    assert(is_local_bin(cuts, dmat.value[k], f, local[k]));
    assert(local[k] < cuts.width(f));
    if f + 1 < last {
        assert(cuts.cut_ptrs[f + 1] < cuts.cut_ptrs[last]);
    }
}

/// An index is stored in as few bytes as hold all its values.
pub proof fn lemma_width_for(n_values: int)
    ensures
        BinStorage::width_for(n_values) == 1 <==> n_values <= 0x100,
        BinStorage::width_for(n_values) == 2 <==> 0x100 < n_values <= 0x1_0000,
        BinStorage::width_for(n_values) == 4 <==> 0x1_0000 < n_values,
{
}

/// A category keeps its code as its bin, and one past its feature's last bin takes that; what names
/// no category takes the first. A number takes the bin that the cuts give it.
pub proof fn lemma_local_bin_means(cuts: &HistogramCuts, value: u32, f: int, b: u32)
    requires
        is_local_bin(cuts, value, f, b),
        cuts.width(f) > 0,
    ensures
        !cuts.categorical(f) ==> is_bin_of(cuts, value, f, cuts.cut_ptrs[f] + b),
        cuts.categorical(f) && category_spec(value) is None ==> b == 0,
        cuts.categorical(f) && category_spec(value) is Some && category_spec(value)->0 < cuts.width(f) ==> b
            == category_spec(value)->0,
        cuts.categorical(f) && category_spec(value) is Some && category_spec(value)->0 >= cuts.width(f) ==> b
            == cuts.width(f) - 1,
{
}

/// One flag more counts where it is set.
pub proof fn lemma_count_true(flags: Seq<bool>, flag: bool)
    ensures
        count_true(Seq::empty(), 0) == 0,
        count_true(flags.push(flag), flags.len() as int + 1) == count_true(flags, flags.len() as int) + (if flag {
            1int
        } else {
            0
        }),
{
    lemma_count_true_same(flags, flags.push(flag), flags.len() as int);
}

proof fn lemma_count_true_same(a: Seq<bool>, b: Seq<bool>, n: int)
    requires
        forall|i: int| 0 <= i < n ==> a[i] == b[i],
    ensures
        count_true(a, n) == count_true(b, n),
    decreases n,
{
    if n > 0 {
        lemma_count_true_same(a, b, n - 1);
    }
}

/// The rows of a dense index are as long as one another and stand one after another; a bin counted
/// from the first of all is its own column's, counted on from the column's first.
pub proof fn lemma_row_entries(gi: &GHistIndex, r: int, j: int)
    requires
        0 <= j < gi.row_len(r),
    ensures
        gi.is_dense ==> gi.entry(0, 0) == 0 && gi.entry(r + 1, 0) == gi.entry(r, 0) + gi.row_stride,
        !gi.is_dense ==> gi.entry(r, 0) == gi.row_ptr[r] && gi.entry(r, gi.row_len(r)) == gi.row_ptr[r + 1],
        gi.entry(r, j) == gi.entry(r, 0) + j,
        gi.is_dense && gi.offsets[j] + gi.index.bins()[gi.entry(r, j)] <= u32::MAX ==> gi.global_bins(r)[j]
            == gi.offsets[j] + gi.index.bins()[gi.entry(r, j)],
        !gi.is_dense ==> gi.global_bins(r)[j] == gi.index.bins()[gi.entry(r, j)],
        gi.global_bins(r).len() == gi.row_len(r),
{
    assert((r + 1) * gi.row_stride == r * gi.row_stride + gi.row_stride) by (nonlinear_arith);
    assert(0 * gi.row_stride == 0) by (nonlinear_arith);
}

/// A column that is stored sparse takes a place and a row number for each of its entries, and one
/// that is not takes a place for every row and no row numbers.
pub proof fn lemma_column_places(dmat: &DMatrix, sparse_below: usize, f: int)
    requires
        0 <= f,
    ensures
        takes_sparse(dmat, sparse_below, f) ==> column_entries(dmat, sparse_below, f + 1) == column_entries(
            dmat,
            sparse_below,
            f,
        ) + entries_of(dmat.index@, f, 0, dmat.index.len() as int).len() && column_rows(dmat, sparse_below, f + 1)
            == column_rows(dmat, sparse_below, f) + entries_of(dmat.index@, f, 0, dmat.index.len() as int).len(),
        !takes_sparse(dmat, sparse_below, f) ==> column_entries(dmat, sparse_below, f + 1) == column_entries(
            dmat,
            sparse_below,
            f,
        ) + dmat.info.num_row && column_rows(dmat, sparse_below, f + 1) == column_rows(dmat, sparse_below, f),
        column_entries(dmat, sparse_below, 0) == 0 && column_rows(dmat, sparse_below, 0) == 0,
{
}

/// By default a column is stored sparse exactly where fewer than a fifth of the rows have it.
pub proof fn lemma_default_layout(dmat: &DMatrix, f: int)
    ensures
        takes_sparse(dmat, default_sparse_below(dmat.info.num_row as int) as usize, f) <==> 5 * entries_of(
            dmat.index@,
            f,
            0,
            dmat.index.len() as int,
        ).len() < dmat.info.num_row,
{
}

/// An index is made of its own matrix and its own cuts: dense exactly where the matrix is, with as
/// many rows, with the cuts as they are, and with every entry that counts in its own bin.
pub proof fn lemma_index_made(gi: &GHistIndex, dmat: &DMatrix, cuts: &HistogramCuts, sparse_below: usize, r: int, k: int)
    requires
        dmat.wf(),
        gradient_index_of(gi, dmat, cuts, sparse_below),
        0 <= r < dmat.info.num_row,
        dmat.stands(r, k),
        cuts.wf(),
        dmat.info.num_col == cuts.cut_ptrs.len() - 1,
    ensures
        gi.is_dense <==> dmat.dense(),
        gi.num_row == dmat.info.num_row,
        gi.cuts.cut_values@ == cuts.cut_values@ && gi.cuts.cut_ptrs@ == cuts.cut_ptrs@,
        gi.cuts.min_values@ == cuts.min_values@ && gi.cuts.is_categorical@ == cuts.is_categorical@,
        ({
            let f = dmat.index[k] as int;
            let bin = gi.global_bins(r)[if gi.is_dense {
                f
            } else {
                k - dmat.row_ptr[r]
            }];
            &&& cuts.cut_ptrs[f] <= bin < cuts.cut_ptrs[f + 1]
            &&& !cuts.categorical(f) ==> is_bin_of(cuts, dmat.value[k], f, bin as int)
            &&& cuts.categorical(f) && category_spec(dmat.value[k]) is Some && category_spec(dmat.value[k])->0
                < cuts.width(f) ==> bin == cuts.cut_ptrs[f] + category_spec(dmat.value[k])->0
        }),
        dmat.dense() ==> gi.row_stride == dmat.info.num_col,
        !dmat.dense() ==> gi.row_ptr@ == dmat.row_ptr@,
{
    let local = choose|local: Seq<u32>| #[trigger] indexes(gi, dmat, cuts, local);
    assert(indexes_row(gi, dmat, cuts, local, r));
    assert(held(gi, dmat, r, k));
    assert(dmat.row_ptr[r + 1] <= dmat.row_ptr[dmat.info.num_row as int]);
    assert(is_local_bin(cuts, dmat.value[k], dmat.index[k] as int, local[k]));
    assert(dmat.index[k] < dmat.info.num_col);
}

} // verus!
