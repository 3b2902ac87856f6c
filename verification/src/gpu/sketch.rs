//! Exact quantile cuts, read off sorted columns.
//!
//! A sorted column is the exact summary of its values: every distinct value with its true
//! range of ranks. Each column is sorted by order-preserving keys ([`crate::gpu::device_sort`])
//! and the cuts are the answers to evenly spaced rank queries. Row weights, categorical
//! features and a large number of bins are left to the summaries of [`crate::data::cuts`].

use vstd::prelude::*;

use crate::data::cuts::{lemma_key_order, value_key, value_key_spec, HistogramCuts};
use crate::data::gradient_index::lemma_dense_rows;
use crate::data::DMatrix;
use crate::float_bits::{is_nan_bits, is_nan_spec, lt_spec, NEG_INF_BITS, SIGN_BIT};
use crate::gpu::device_sort::{sort_column, sorted_keys, SORT_TILE};
use crate::gpu::launch::{has_planes, Hardware};

verus! {

/// The key above every value: what a missing cell and the padding of a column hold, so that
/// both sort to the end of the column.
pub const SENTINEL: u32 = 0xFFFF_FFFF;

/// Largest number of bins that is cut here.
pub const MAX_DEVICE_BIN: usize = 1024;

/// The bits of one hundred-thousandth: the only cut of a column without values.
pub const EMPTY_CUT: u32 = 0x3727_C5AC;

/// The order-preserving key of a value: the same for both zeros, and the sentinel for a NaN.
pub open spec fn sketch_key_spec(bits: u32) -> u32 {
    if is_nan_spec(bits) {
        SENTINEL
    } else {
        value_key_spec(bits)
    }
}

pub fn sketch_key(bits: u32) -> (key: u32)
    ensures
        key == sketch_key_spec(bits),
{
    if is_nan_bits(bits) {
        SENTINEL
    } else {
        value_key(bits)
    }
}

/// The value of a key below the sentinel.
pub open spec fn key_value_spec(key: u32) -> u32 {
    if key >= SIGN_BIT {
        (key - SIGN_BIT) as u32
    } else {
        (0xFFFF_FFFF - key) as u32
    }
}

pub fn key_value(key: u32) -> (bits: u32)
    ensures
        bits == key_value_spec(key),
{
    if key >= SIGN_BIT {
        key - SIGN_BIT
    } else {
        0xFFFF_FFFF - key
    }
}

/// A key gives its value back, the negative zero as the positive one; keys order as values
/// do, and the sentinel stands above them all.
pub proof fn lemma_key_round_trip(bits: u32, other: u32)
    requires
        !is_nan_spec(bits),
        !is_nan_spec(other),
    ensures
        key_value_spec(sketch_key_spec(bits)) == (if bits == SIGN_BIT {
            0
        } else {
            bits
        }),
        sketch_key_spec(bits) < SENTINEL,
        sketch_key_spec(bits) < sketch_key_spec(other) <==> lt_spec(bits, other),
{
    lemma_key_order(bits, other);
}

/// Whether the sketch on sorted columns applies to a fit.
pub fn applies(host_forced: bool, hardware: &Hardware, dmat: &DMatrix, has_categorical: bool, max_bin: u32) -> (yes: bool)
    ensures
        yes == (!host_forced && hardware.plane_size_max > 1 && dmat.info.weights is None && !has_categorical && max_bin
            <= MAX_DEVICE_BIN && dmat.info.num_col > 0),
{
    !host_forced && has_planes(hardware) && dmat.info.weights.is_none() && !has_categorical && max_bin as usize
        <= MAX_DEVICE_BIN && dmat.num_col() > 0
}

/// Every row holds every column.
pub open spec fn all_full(dmat: &DMatrix) -> bool {
    &&& dmat.index.len() == dmat.info.num_row * dmat.info.num_col
    &&& forall|r: int| 0 <= r < dmat.info.num_row ==> #[trigger] row_full(dmat, r)
}

pub open spec fn row_full(dmat: &DMatrix, r: int) -> bool {
    dmat.row_ptr[r + 1] - dmat.row_ptr[r] == dmat.info.num_col
}

/// Whether every row holds every column, so that an entry's place names its cell.
pub fn dense_input(dmat: &DMatrix) -> (dense: bool)
    requires
        dmat.wf(),
        dmat.info.num_row * dmat.info.num_col <= usize::MAX,
    ensures
        dense == all_full(dmat),
{
    let n_rows: usize = dmat.num_row();
    let n_cols: usize = dmat.num_col();
    if dmat.index.len() != n_rows * n_cols {
        return false;
    }
    let mut r: usize = 0;
    while r < n_rows
        invariant
            dmat.wf(),
            n_rows == dmat.info.num_row,
            n_cols == dmat.info.num_col,
            r <= n_rows,
            forall|k: int| 0 <= k < r ==> #[trigger] row_full(dmat, k),
        decreases n_rows - r,
    {
        assert(dmat.row_ptr[r as int] <= dmat.row_ptr[r + 1]);
        if dmat.row_ptr[r + 1] - dmat.row_ptr[r] != n_cols {
            assert(!row_full(dmat, r as int));
            return false;
        }
        r += 1;
    }
    true
}

/// The columns of row `r` ascend from one stored entry to the next.
pub open spec fn row_ascends(dmat: &DMatrix, r: int) -> bool {
    forall|k: int| dmat.row_ptr[r] <= k && k + 1 < dmat.row_ptr[r + 1] ==> #[trigger] steps_up(dmat, k)
}

pub open spec fn steps_up(dmat: &DMatrix, k: int) -> bool {
    dmat.index[k] < dmat.index[k + 1]
}

/// The matrix as the sketch reads it: row by row, or cell by cell where it is full.
pub struct DeviceValues<'a> {
    pub dmat: &'a DMatrix,
    /// Every cell is present, in column order: an entry's place names its cell.
    pub dense_input: bool,
}

impl<'a> DeviceValues<'a> {
    pub open spec fn wf(&self) -> bool {
        self.dmat.wf() && self.dense_input == all_full(self.dmat)
    }

    pub fn upload(dmat: &'a DMatrix) -> (values: Self)
        requires
            dmat.wf(),
            dmat.info.num_row * dmat.info.num_col <= usize::MAX,
        ensures
            values.wf(),
            *values.dmat == *dmat,
    {
        DeviceValues { dmat, dense_input: dense_input(dmat) }
    }

    /// Whether the sketch can read the matrix: every row's entries have to be in ascending
    /// column order.
    ///
    /// A full matrix can only be in column order, so it is answered from the row lengths alone.
    pub fn readable(dmat: &DMatrix) -> (yes: bool)
        requires
            dmat.wf(),
            dmat.info.num_row * dmat.info.num_col <= usize::MAX,
        ensures
            yes == (all_full(dmat) || forall|r: int| 0 <= r < dmat.info.num_row ==> #[trigger] row_ascends(dmat, r)),
    {
        if dense_input(dmat) {
            return true;
        }
        let n_rows: usize = dmat.num_row();
        let mut r: usize = 0;
        while r < n_rows
            invariant
                dmat.wf(),
                n_rows == dmat.info.num_row,
                r <= n_rows,
                forall|q: int| 0 <= q < r ==> #[trigger] row_ascends(dmat, q),
                !all_full(dmat),
            decreases n_rows - r,
        {
            assert(dmat.row_ptr[r as int] <= dmat.row_ptr[r + 1]);
            assert(dmat.row_ptr[r + 1] <= dmat.row_ptr[n_rows as int]);
            let end: usize = dmat.row_ptr[r + 1];
            let mut k: usize = dmat.row_ptr[r];
            while k < end && k + 1 < end
                invariant
                    dmat.wf(),
                    n_rows == dmat.info.num_row,
                    r < n_rows,
                    !all_full(dmat),
                    end == dmat.row_ptr[r + 1],
                    end <= dmat.index.len(),
                    dmat.row_ptr[r as int] <= k <= end,
                    forall|j: int| dmat.row_ptr[r as int] <= j < k ==> #[trigger] steps_up(dmat, j),
                decreases end - k,
            {
                if dmat.index[k] >= dmat.index[k + 1] {
                    assert(!steps_up(dmat, k as int));
                    assert(!row_ascends(dmat, r as int));
                    return false;
                }
                assert(steps_up(dmat, k as int));
                k += 1;
            }
            r += 1;
        }
        true
    }
}

/// A readable matrix that is not full has ascending columns.
pub proof fn lemma_readable(dmat: &DMatrix)
    requires
        dmat.wf(),
        forall|r: int| 0 <= r < dmat.info.num_row ==> #[trigger] row_ascends(dmat, r),
    ensures
        dmat.columns_ascend(),
{
    assert forall|r: int, a: int, b: int|
        0 <= r < dmat.info.num_row && #[trigger] dmat.in_row(r, a) && #[trigger] dmat.in_row(r, b) && a < b implies dmat.index[a]
        < dmat.index[b] by {
        assert(row_ascends(dmat, r));
        lemma_steps(dmat, r, a, b);
    }
}

proof fn lemma_steps(dmat: &DMatrix, r: int, a: int, b: int)
    requires
        row_ascends(dmat, r),
        dmat.in_row(r, a),
        dmat.in_row(r, b),
        a < b,
    ensures
        dmat.index[a] < dmat.index[b],
    decreases b - a,
{
    assert(steps_up(dmat, b - 1));
    if a < b - 1 {
        lemma_steps(dmat, r, a, b - 1);
    }
}

/// The row that stored entry `e` belongs to, by bisection of the row offsets.
fn row_of(dmat: &DMatrix, e: usize) -> (r: usize)
    requires
        dmat.wf(),
        e < dmat.index.len(),
    ensures
        r < dmat.info.num_row,
        dmat.in_row(r as int, e as int),
{
    let mut lo: usize = 0;
    let mut n: usize = dmat.num_row();
    proof {
        if dmat.info.num_row == 0 {
            assert(dmat.row_ptr[0] == dmat.index.len());
        }
    }
    while n > 1
        invariant
            dmat.wf(),
            1 <= n,
            lo + n <= dmat.info.num_row,
            dmat.row_ptr[lo as int] <= e < dmat.row_ptr[lo + n],
        decreases n,
    {
        let half: usize = n / 2;
        let mid: usize = lo + half;
        if dmat.row_ptr[mid] <= e {
            lo = mid;
            n -= half;
        } else {
            n = half;
        }
    }
    lo
}

/// Column `f` of the matrix as keys: what row `r` stores for it, or the sentinel.
pub open spec fn is_column_keys(dmat: &DMatrix, f: int, keys: Seq<u32>) -> bool {
    &&& forall|r: int, k: int|
        0 <= r < dmat.info.num_row && #[trigger] dmat.in_row(r, k) && dmat.index[k] == f ==> keys[r]
            == sketch_key_spec(dmat.value[k])
    &&& forall|r: int|
        0 <= r < keys.len() && (r < dmat.info.num_row ==> !has_column(dmat, r, f)) ==> #[trigger] keys[r] == SENTINEL
}

/// Row `r` stores a value for column `f`.
pub open spec fn has_column(dmat: &DMatrix, r: int, f: int) -> bool {
    exists|k: int| #[trigger] dmat.in_row(r, k) && dmat.index[k] == f
}

/// The row and the column of stored entry `e`.
fn cell_of(values: &DeviceValues, e: usize) -> (cell: (usize, usize))
    requires
        values.wf(),
        values.dmat.columns_ascend(),
        e < values.dmat.index.len(),
    ensures
        cell.0 < values.dmat.info.num_row,
        values.dmat.in_row(cell.0 as int, e as int),
        cell.1 == values.dmat.index[e as int],
{
    let dmat: &DMatrix = values.dmat;
    if values.dense_input {
        let n: usize = dmat.num_col();
        proof {
            let rows = dmat.info.num_row as int;
            assert(n > 0) by (nonlinear_arith)
                requires
                    e < rows * n,
            ;
            vstd::arithmetic::div_mod::lemma_fundamental_div_mod(e as int, n as int);
            let r = e as int / n as int;
            assert(n * r == r * n) by (nonlinear_arith);
            assert(0 <= r < rows) by (nonlinear_arith)
                requires
                    0 <= e < rows * n,
                    e == r * n + e as int % n as int,
                    0 <= e as int % n as int,
                    n > 0,
            ;
            lemma_dense_rows(dmat, r);
        }
        let r: usize = e / n;
        assert(r * n <= e) by (nonlinear_arith)
            requires
                r == e / n,
                n > 0,
        ;
        (r, e - r * n)
    } else {
        (row_of(dmat, e), dmat.index[e] as usize)
    }
}

/// The keys of one column, padded with the sentinel to `seg` of them.
pub fn float_keys_kernel(values: &DeviceValues, f: usize, seg: usize) -> (keys: Vec<u32>)
    requires
        values.wf(),
        values.dmat.columns_ascend(),
        values.dmat.info.num_row <= seg,
    ensures
        keys.len() == seg,
        is_column_keys(values.dmat, f as int, keys@),
{
    let dmat: &DMatrix = values.dmat;
    let mut keys: Vec<u32> = vec![SENTINEL; seg];
    let mut e: usize = 0;
    while e < dmat.index.len()
        invariant
            values.wf(),
            dmat == values.dmat,
            dmat.wf(),
            dmat.columns_ascend(),
            dmat.info.num_row <= seg,
            keys.len() == seg,
            e <= dmat.index.len(),
            forall|r: int, k: int|
                0 <= r < dmat.info.num_row && #[trigger] dmat.in_row(r, k) && k < e && dmat.index[k] == f ==> keys[r]
                    == sketch_key_spec(dmat.value[k]),
            forall|r: int|
                0 <= r < keys.len() && (r < dmat.info.num_row ==> !has_column(dmat, r, f as int)) ==> #[trigger] keys[r]
                    == SENTINEL,
        decreases dmat.index.len() - e,
    {
        let (r, column) = cell_of(values, e);
        if column == f {
            let ghost was = keys@;
            keys.set(r, sketch_key(dmat.value[e]));
            proof {
                assert(has_column(dmat, r as int, f as int));
                assert forall|q: int, k: int|
                    0 <= q < dmat.info.num_row && #[trigger] dmat.in_row(q, k) && k < e + 1 && dmat.index[k] == f implies keys[q]
                    == sketch_key_spec(dmat.value[k]) by {
                    if k < e {
                        assert(was[q] == sketch_key_spec(dmat.value[k]));
                        if q == r {
                            assert(dmat.index[k] < dmat.index[e as int]);
                        }
                    } else {
                        lemma_one_row(dmat, q, r as int, k);
                    }
                }
            }
        } else {
            proof {
                assert forall|q: int, k: int|
                    0 <= q < dmat.info.num_row && #[trigger] dmat.in_row(q, k) && k < e + 1 && dmat.index[k] == f implies keys[q]
                    == sketch_key_spec(dmat.value[k]) by {}
            }
        }
        e += 1;
    }
    proof {
        assert forall|r: int, k: int|
            0 <= r < dmat.info.num_row && #[trigger] dmat.in_row(r, k) && dmat.index[k] == f implies keys[r]
            == sketch_key_spec(dmat.value[k]) by {
            assert(dmat.row_ptr[r + 1] <= dmat.row_ptr[dmat.info.num_row as int]);
        }
    }
    keys
}

/// An entry belongs to one row.
proof fn lemma_one_row(dmat: &DMatrix, q: int, r: int, k: int)
    requires
        dmat.wf(),
        0 <= q < dmat.info.num_row,
        0 <= r < dmat.info.num_row,
        dmat.in_row(q, k),
        dmat.in_row(r, k),
    ensures
        q == r,
{
    if q < r {
        assert(dmat.row_ptr[q + 1] <= dmat.row_ptr[r]);
    } else if r < q {
        assert(dmat.row_ptr[r + 1] <= dmat.row_ptr[q]);
    }
}

/// Position `i` is where the keys from `key` on begin.
pub open spec fn is_lower_bound(keys: Seq<u32>, n: int, key: u32, i: int) -> bool {
    &&& 0 <= i <= n
    &&& forall|j: int| 0 <= j < i ==> #[trigger] keys[j] < key
    &&& forall|j: int| i <= j < n ==> key <= #[trigger] keys[j]
}

/// Where the first of the `n` keys at or above `key` stands.
fn lower_bound(keys: &Vec<u32>, n: usize, key: u32) -> (i: usize)
    requires
        sorted_keys(keys@),
        n <= keys.len(),
    ensures
        is_lower_bound(keys@, n as int, key, i as int),
{
    let mut lo: usize = 0;
    let mut left: usize = n;
    while left > 0
        invariant
            sorted_keys(keys@),
            n <= keys.len(),
            lo + left <= n,
            forall|j: int| 0 <= j < lo ==> #[trigger] keys[j] < key,
            forall|j: int| lo + left <= j < n ==> key <= #[trigger] keys[j],
        decreases left,
    {
        let half: usize = left / 2;
        if keys[lo + half] < key {
            proof {
                assert forall|j: int| 0 <= j < lo + half + 1 implies #[trigger] keys[j] < key by {
                    assert(keys@[j] <= keys@[lo + half]);
                }
            }
            lo = lo + half + 1;
            left = left - half - 1;
        } else {
            proof {
                assert forall|j: int| lo + half <= j < n implies key <= #[trigger] keys[j] by {
                    assert(keys@[lo + half] <= keys@[j]);
                }
            }
            left = half;
        }
    }
    lo
}

/// The distinct keys among the first `n` of a sorted column.
pub open spec fn distinct(keys: Seq<u32>, n: int) -> Seq<u32>
    decreases n,
{
    if n <= 0 {
        Seq::empty()
    } else {
        let rest = distinct(keys, n - 1);
        if n == 1 || keys[n - 1] != keys[n - 2] {
            rest.push(keys[n - 1])
        } else {
            rest
        }
    }
}

/// The weight of the last digit of `n` in single precision: the power of two that leaves 24
/// bits of it.
pub open spec fn unit_of(n: int, unit: int) -> int
    decreases n / unit,
    when unit >= 1 && n >= 0
    via unit_decreases
{
    if n / unit < 0x0100_0000 {
        unit
    } else {
        unit_of(n, 2 * unit)
    }
}

#[via_fn]
proof fn unit_decreases(n: int, unit: int) {
    if n / unit >= 0x0100_0000 && unit >= 1 && n >= 0 {
        assert(n / (2 * unit) < n / unit) by (nonlinear_arith)
            requires
                n / unit >= 0x0100_0000,
                unit >= 1,
                n >= 0,
        ;
    }
}

/// `n` as single precision holds it: rounded to the nearest multiple of its unit, to the
/// even one on a tie.
pub open spec fn single(n: int) -> int {
    let unit = unit_of(n, 1);
    let q = n / unit;
    let r = n % unit;
    if 2 * r > unit || (2 * r == unit && q % 2 == 1) {
        (q + 1) * unit
    } else {
        q * unit
    }
}

/// A count as single precision holds it.
fn as_single(n: u32) -> (v: u64)
    ensures
        v == single(n as int),
        v <= n + n / 0x80_0000,
        v <= 0x1_0000_0000,
{
    let mut unit: u64 = 1;
    let wide: u64 = n as u64;
    while wide / unit >= 0x0100_0000
        invariant
            wide == n,
            1 <= unit <= 256,
            unit == 1 || unit * 0x80_0000 <= wide,
            unit_of(n as int, 1) == unit_of(n as int, unit as int),
            unit == 1 || unit == 2 || unit == 4 || unit == 8 || unit == 16 || unit == 32 || unit == 64 || unit == 128
                || unit == 256,
        decreases wide / unit,
    {
        proof {
            let w = wide as int;
            let u = unit as int;
            assert(u * 0x0100_0000 <= w) by (nonlinear_arith)
                requires
                    w / u >= 0x0100_0000,
                    u >= 1,
            ;
            assert(w / (2 * u) < w / u) by (nonlinear_arith)
                requires
                    w / u >= 0x0100_0000,
                    u >= 1,
            ;
        }
        unit = unit * 2;
    }
    let q: u64 = wide / unit;
    let r: u64 = wide % unit;
    proof {
        let w = wide as int;
        let u = unit as int;
        let qq = q as int;
        let rr = r as int;
        vstd::arithmetic::div_mod::lemma_fundamental_div_mod(w, u);
        assert(qq * u + rr == w && 0 <= rr < u && (qq + 1) * u == qq * u + u && 0 <= qq * u) by (nonlinear_arith)
            requires
                w == u * qq + rr,
                0 <= rr < u,
                0 <= qq,
        ;
        assert(unit_of(n as int, u) == u);
        if unit > 1 {
            assert(w / 0x80_0000 >= u) by (nonlinear_arith)
                requires
                    u * 0x80_0000 <= w,
                    u >= 1,
            ;
        }
    }
    if 2 * r > unit || (2 * r == unit && q % 2 == 1) {
        (q + 1) * unit
    } else {
        q * unit
    }
}

/// The rank that query `q` of `max_bin` asks for, in a column of `n` values.
pub open spec fn query_rank(n: int, max_bin: int, q: int) -> int {
    q * single(n) / max_bin
}

/// The answers to the first `q` rank queries of a sorted column: the key at the rank, or the
/// next one above the last cut where that is none, as far as there are any.
pub open spec fn queried(keys: Seq<u32>, n: int, max_bin: int, q: int) -> Seq<u32>
    decreases q,
{
    if q <= 0 {
        Seq::empty()
    } else {
        let rest = queried(keys, n, max_bin, q - 1);
        let last = last_cut(keys, rest);
        let key = keys[query_rank(n, max_bin, q)];
        if key > last {
            rest.push(key)
        } else if exists|i: int| above(keys, n, last, i) {
            rest.push(keys[choose|i: int| above(keys, n, last, i)])
        } else {
            rest
        }
    }
}

/// The last cut so far: the smallest value before there is one.
pub open spec fn last_cut(keys: Seq<u32>, cuts: Seq<u32>) -> u32 {
    if cuts.len() == 0 {
        keys[0]
    } else {
        cuts.last()
    }
}

/// Position `i` holds the first of the `n` keys above `last`.
pub open spec fn above(keys: Seq<u32>, n: int, last: u32, i: int) -> bool {
    &&& 0 <= i < n
    &&& keys[i] > last
    &&& forall|j: int| 0 <= j < i ==> #[trigger] keys[j] <= last
}

/// The cuts of a sorted column below the closing one, as keys: every distinct value but the
/// first where there are few, else the answers to the rank queries.
pub open spec fn inner_keys(keys: Seq<u32>, n: int, max_bin: int) -> Seq<u32> {
    if n == 0 {
        Seq::empty()
    } else if distinct(keys, n).len() <= max_bin {
        distinct(keys, n).subrange(1, distinct(keys, n).len() as int)
    } else {
        queried(keys, n, max_bin, max_bin - 1)
    }
}

/// The keys ascend strictly.
pub open spec fn strictly(keys: Seq<u32>) -> bool {
    forall|i: int, j: int| 0 <= i < j < keys.len() ==> #[trigger] keys[i] < #[trigger] keys[j]
}

proof fn lemma_distinct(keys: Seq<u32>, n: int)
    requires
        sorted_keys(keys),
        0 <= n <= keys.len(),
    ensures
        distinct(keys, n).len() <= n,
        strictly(distinct(keys, n)),
        n > 0 ==> distinct(keys, n).len() > 0 && distinct(keys, n)[0] == keys[0] && distinct(keys, n).last() == keys[n - 1],
    decreases n,
{
    if n > 0 {
        lemma_distinct(keys, n - 1);
        if n > 1 {
            assert(keys[n - 2] <= keys[n - 1]);
        }
        let rest = distinct(keys, n - 1);
        let all = distinct(keys, n);
        assert forall|i: int, j: int| 0 <= i < j < all.len() implies #[trigger] all[i] < #[trigger] all[j] by {
            if j < rest.len() {
                assert(all[i] == rest[i] && all[j] == rest[j]);
            } else {
                assert(all[i] == rest[i]);
                if i < rest.len() - 1 {
                    assert(rest[i] < rest[rest.len() - 1]);
                }
            }
        }
    }
}

/// The cuts of a column ascend strictly, each is one of its values and above the smallest,
/// and there are fewer than `max_bin`: with the closing one no more than that.
pub proof fn lemma_inner_keys(keys: Seq<u32>, n: int, max_bin: int)
    requires
        sorted_keys(keys),
        0 <= n <= keys.len(),
        1 <= max_bin,
        forall|q: int| 0 < q < max_bin ==> 0 <= #[trigger] query_rank(n, max_bin, q) < n,
    ensures
        strictly(inner_keys(keys, n, max_bin)),
        inner_keys(keys, n, max_bin).len() < max_bin,
        forall|i: int|
            0 <= i < inner_keys(keys, n, max_bin).len() ==> keys[0] < #[trigger] inner_keys(keys, n, max_bin)[i],
{
    if n > 0 {
        lemma_distinct(keys, n);
        let d = distinct(keys, n);
        if d.len() <= max_bin {
            let inner = d.subrange(1, d.len() as int);
            assert forall|i: int, j: int| 0 <= i < j < inner.len() implies #[trigger] inner[i] < #[trigger] inner[j] by {
                assert(d[i + 1] < d[j + 1]);
            }
            assert forall|i: int| 0 <= i < inner.len() implies keys[0] < #[trigger] inner[i] by {
                assert(d[0] < d[i + 1]);
            }
        } else {
            lemma_queried(keys, n, max_bin, max_bin - 1);
        }
    }
}

proof fn lemma_queried(keys: Seq<u32>, n: int, max_bin: int, q: int)
    requires
        0 < n <= keys.len(),
        0 <= q,
    ensures
        strictly(queried(keys, n, max_bin, q)),
        queried(keys, n, max_bin, q).len() <= q,
        forall|i: int|
            0 <= i < queried(keys, n, max_bin, q).len() ==> keys[0] < #[trigger] queried(keys, n, max_bin, q)[i],
    decreases q,
{
    if q > 0 {
        lemma_queried(keys, n, max_bin, q - 1);
        let rest = queried(keys, n, max_bin, q - 1);
        let all = queried(keys, n, max_bin, q);
        let last = last_cut(keys, rest);
        if all.len() > rest.len() {
            assert(all.last() > last) by {
                if keys[query_rank(n, max_bin, q)] <= last {
                    let i = choose|i: int| above(keys, n, last, i);
                    assert(above(keys, n, last, i));
                }
            }
            assert forall|i: int, j: int| 0 <= i < j < all.len() implies #[trigger] all[i] < #[trigger] all[j] by {
                assert(all[i] == rest[i]);
                if j < rest.len() {
                    assert(all[j] == rest[j]);
                } else if i < rest.len() - 1 {
                    assert(rest[i] < rest[rest.len() - 1]);
                }
            }
            assert forall|i: int| 0 <= i < all.len() implies keys[0] < #[trigger] all[i] by {
                if i < rest.len() {
                    assert(all[i] == rest[i]);
                }
            }
        }
    }
}

/// A query of a column asks for the rank of one of its values: single precision rounds a
/// count up by less than the queries leave above them.
proof fn lemma_query_rank(n: int, max_bin: int, q: int)
    requires
        0 < n <= u32::MAX,
        0 < q < max_bin <= 1024,
        single(n) <= n + n / 0x80_0000,
        0 <= single(n),
    ensures
        0 <= query_rank(n, max_bin, q) < n,
        0 <= q * single(n),
{
    let t = single(n);
    assert(q * t <= (max_bin - 1) * t && 0 <= q * t) by (nonlinear_arith)
        requires
            0 < q <= max_bin - 1,
            0 <= t,
    ;
    assert((max_bin - 1) * t < max_bin * n) by (nonlinear_arith)
        requires
            t <= n + n / 0x80_0000,
            0 < max_bin <= 1024,
            0 < n,
    ;
    let p = q * t;
    assert(0 <= p / max_bin < n) by (nonlinear_arith)
        requires
            0 <= p < max_bin * n,
            max_bin > 0,
    ;
}

/// The cuts of one sorted column: those below the closing one, and the largest value, above
/// which the closing one stands. No largest value where the column has none at all.
pub fn cuts_kernel(sorted: &Vec<u32>, max_bin: u32) -> (cuts: (Vec<u32>, Option<u32>))
    requires
        sorted_keys(sorted@),
        sorted.len() <= u32::MAX,
        1 <= max_bin <= MAX_DEVICE_BIN,
    ensures
        exists|n: int|
            {
                &&& #[trigger] is_lower_bound(sorted@, sorted.len() as int, SENTINEL, n)
                &&& cuts.0.len() == inner_keys(sorted@, n, max_bin as int).len()
                &&& cuts.0.len() < max_bin
                &&& forall|i: int|
                    0 <= i < cuts.0.len() ==> #[trigger] cuts.0[i] == key_value_spec(
                        inner_keys(sorted@, n, max_bin as int)[i],
                    )
                &&& cuts.1 == (if n == 0 {
                    None
                } else {
                    Some(key_value_spec(sorted[n - 1]))
                })
            },
{
    let n: usize = lower_bound(sorted, sorted.len(), SENTINEL);
    let ghost ks = sorted@;
    let ghost mb = max_bin as int;
    let mut out: Vec<u32> = Vec::new();
    if n == 0 {
        assert(is_lower_bound(ks, ks.len() as int, SENTINEL, 0));
        return (out, None);
    }
    // Distinct values: run starts.
    let mut runs: usize = 0;
    let mut i: usize = 0;
    while i < n
        invariant
            ks == sorted@,
            n <= sorted.len(),
            sorted_keys(ks),
            i <= n,
            runs == distinct(ks, i as int).len(),
            runs <= i,
        decreases n - i,
    {
        if i == 0 || sorted[i] != sorted[i - 1] {
            runs += 1;
        }
        i += 1;
    }
    let total: u64 = as_single(n as u32);
    proof {
        assert forall|q: int| 0 < q < mb implies 0 <= #[trigger] query_rank(n as int, mb, q) < n by {
            lemma_query_rank(n as int, mb, q);
        }
        lemma_inner_keys(ks, n as int, mb);
    }
    let ghost inner = inner_keys(ks, n as int, mb);
    if runs <= max_bin as usize {
        // Every distinct value but the first, in order.
        let mut i: usize = 1;
        proof {
            assert(distinct(ks, 1).len() == 1) by {
                reveal_with_fuel(distinct, 2);
            }
        }
        while i < n
            invariant
                ks == sorted@,
                n <= sorted.len(),
                1 <= i <= n,
                out.len() + 1 == distinct(ks, i as int).len(),
                forall|k: int| 0 <= k < out.len() ==> #[trigger] out[k] == key_value_spec(distinct(ks, i as int)[k + 1]),
            decreases n - i,
        {
            if sorted[i] != sorted[i - 1] {
                out.push(key_value(sorted[i]));
            }
            i += 1;
        }
    } else {
        let mut q: u32 = 1;
        let mut last: u32 = sorted[0];
        let mut stop: bool = false;
        let ghost mut kept = Seq::<u32>::empty();
        while q < max_bin && !stop
            invariant
                ks == sorted@,
                mb == max_bin,
                0 < n <= sorted.len(),
                sorted.len() <= u32::MAX,
                sorted_keys(ks),
                is_lower_bound(ks, ks.len() as int, SENTINEL, n as int),
                max_bin <= 1024,
                total == single(n as int),
                total <= n + n / 0x80_0000,
                total <= 0x1_0000_0000,
                forall|q: int| 0 < q < mb ==> 0 <= #[trigger] query_rank(n as int, mb, q) < n,
                1 <= q <= max_bin,
                kept == queried(ks, n as int, mb, if stop {
                    mb - 1
                } else {
                    q - 1
                }),
                last == last_cut(ks, kept),
                last < SENTINEL,
                out.len() == kept.len(),
                forall|k: int| 0 <= k < out.len() ==> #[trigger] out[k] == key_value_spec(kept[k]),
            decreases max_bin - q + (if stop {
                0int
            } else {
                1
            }),
        {
            proof {
                lemma_query_rank(n as int, mb, q as int);
            }
            assert(q * total <= 1024 * 0x1_0000_0000) by (nonlinear_arith)
                requires
                    q <= 1024,
                    total <= 0x1_0000_0000,
            ;
            let at: u64 = q as u64 * total / max_bin as u64;
            assert(at == query_rank(n as int, mb, q as int));
            let mut key: u32 = sorted[at as usize];
            assert(ks[at as int] < SENTINEL);
            if key <= last {
                // The first key above the last cut, or nothing left.
                let next: usize = lower_bound(sorted, n, last + 1);
                if next == n {
                    stop = true;
                    proof {
                        assert forall|i: int| 0 <= i < n implies #[trigger] ks[i] <= last by {
                            assert(ks[i] < last + 1);
                        }
                        lemma_exhausted(ks, n as int, mb, q - 1, mb - 1);
                    }
                } else {
                    key = sorted[next];
                    proof {
                        assert(above(ks, n as int, last, next as int)) by {
                            assert(last + 1 <= ks[next as int]);
                            assert forall|j: int| 0 <= j < next implies #[trigger] ks[j] <= last by {
                                assert(ks[j] < last + 1);
                            }
                        }
                        let c = choose|i: int| above(ks, n as int, last, i);
                        assert(above(ks, n as int, last, c));
                        if c < next {
                            assert(ks[c] <= last);
                        } else if next < c {
                            assert(ks[next as int] <= last);
                        }
                        assert(ks[next as int] < SENTINEL);
                    }
                }
            }
            if !stop {
                out.push(key_value(key));
                last = key;
                proof {
                    kept = kept.push(key);
                    assert(kept == queried(ks, n as int, mb, q as int));
                }
            }
            q += 1;
        }
    }
    let largest: u32 = key_value(sorted[n - 1]);
    assert(out.len() == inner.len());
    (out, Some(largest))
}

/// Where nothing is left above the last cut no further query adds one.
proof fn lemma_exhausted(keys: Seq<u32>, n: int, max_bin: int, from: int, to: int)
    requires
        0 <= from <= to < max_bin,
        forall|i: int| 0 <= i < n ==> #[trigger] keys[i] <= last_cut(keys, queried(keys, n, max_bin, from)),
        forall|q: int| 0 < q < max_bin ==> 0 <= #[trigger] query_rank(n, max_bin, q) < n,
    ensures
        queried(keys, n, max_bin, to) == queried(keys, n, max_bin, from),
    decreases to,
{
    if from < to {
        lemma_exhausted(keys, n, max_bin, from, to - 1);
        let last = last_cut(keys, queried(keys, n, max_bin, from));
        assert(keys[query_rank(n, max_bin, to)] <= last);
        assert forall|i: int| !above(keys, n, last, i) by {
            if 0 <= i < n {
                assert(keys[i] <= last);
            }
        }
    }
}

/// The cuts of one column: those below the closing one, and the largest value of the column.
#[derive(Clone, Debug)]
pub struct ColumnCuts {
    pub inner: Vec<u32>,
    pub largest: Option<u32>,
}

impl ColumnCuts {
    /// The cuts are read off the sorted keys.
    pub open spec fn reads(&self, sorted: Seq<u32>, n: int, max_bin: int) -> bool {
        &&& is_lower_bound(sorted, sorted.len() as int, SENTINEL, n)
        &&& self.inner.len() == inner_keys(sorted, n, max_bin).len()
        &&& self.inner.len() < max_bin
        &&& forall|i: int|
            0 <= i < self.inner.len() ==> #[trigger] self.inner[i] == key_value_spec(inner_keys(sorted, n, max_bin)[i])
        &&& self.largest == (if n == 0 {
            None
        } else {
            Some(key_value_spec(sorted[n - 1]))
        })
    }

    /// The cuts are those of column `f` of the matrix: its keys, padded and sorted.
    pub open spec fn cuts_of(&self, dmat: &DMatrix, f: int, max_bin: int) -> bool {
        exists|keys: Seq<u32>, sorted: Seq<u32>, n: int|
            {
                &&& #[trigger] is_column_keys(dmat, f, keys)
                &&& keys.len() >= dmat.info.num_row
                &&& sorted_keys(sorted)
                &&& sorted.to_multiset() == keys.to_multiset()
                &&& #[trigger] self.reads(sorted, n, max_bin)
            }
    }
}

/// Sort every column and read its cuts off.
pub fn device_cuts(values: &DeviceValues, max_bin: u32) -> (columns: Vec<ColumnCuts>)
    requires
        values.wf(),
        values.dmat.columns_ascend(),
        values.dmat.info.num_row <= u32::MAX - SORT_TILE,
        1 <= max_bin <= MAX_DEVICE_BIN,
    ensures
        columns.len() == values.dmat.info.num_col,
        forall|f: int| 0 <= f < columns.len() ==> (#[trigger] columns[f]).cuts_of(values.dmat, f, max_bin as int),
{
    let dmat: &DMatrix = values.dmat;
    let n_rows: usize = dmat.num_row();
    let tiles: usize = if n_rows % SORT_TILE as usize == 0 {
        n_rows / SORT_TILE as usize
    } else {
        n_rows / SORT_TILE as usize + 1
    };
    let n_tiles: usize = if tiles == 0 {
        1
    } else {
        tiles
    };
    let seg: usize = n_tiles * SORT_TILE as usize;
    let mut columns: Vec<ColumnCuts> = Vec::with_capacity(dmat.num_col());
    let mut f: usize = 0;
    while f < dmat.num_col()
        invariant
            values.wf(),
            dmat == values.dmat,
            dmat.columns_ascend(),
            n_rows == dmat.info.num_row,
            seg == n_tiles * SORT_TILE,
            n_rows <= seg <= u32::MAX,
            1 <= max_bin <= MAX_DEVICE_BIN,
            f <= dmat.info.num_col,
            columns.len() == f,
            forall|g: int| 0 <= g < f ==> (#[trigger] columns[g]).cuts_of(dmat, g, max_bin as int),
        decreases dmat.info.num_col - f,
    {
        let keys: Vec<u32> = float_keys_kernel(values, f, seg);
        let ghost ks = keys@;
        let sorted: Vec<u32> = sort_column(keys, n_tiles);
        let (inner, largest) = cuts_kernel(&sorted, max_bin);
        let cuts = ColumnCuts { inner, largest };
        proof {
            let n = choose|n: int|
                #[trigger] is_lower_bound(sorted@, sorted.len() as int, SENTINEL, n) && cuts.reads(
                    sorted@,
                    n,
                    max_bin as int,
                );
            assert(cuts.reads(sorted@, n, max_bin as int));
            assert(is_column_keys(dmat, f as int, ks));
            assert(cuts.cuts_of(dmat, f as int, max_bin as int));
        }
        columns.push(cuts);
        f += 1;
    }
    columns
}

/// The cuts of one feature: those below the closing one, and the closing one. A column
/// without values has a single cut.
pub open spec fn closed_cuts(column: ColumnCuts, closing: u32) -> Seq<u32> {
    column.inner@.push(if column.largest is None {
        EMPTY_CUT
    } else {
        closing
    })
}

/// The cuts of the first `n` features, one after the other.
pub open spec fn joined_cuts(columns: Seq<ColumnCuts>, closing: Seq<u32>, n: int) -> Seq<u32>
    decreases n,
{
    if n <= 0 {
        Seq::empty()
    } else {
        joined_cuts(columns, closing, n - 1) + closed_cuts(columns[n - 1], closing[n - 1])
    }
}

/// The cuts of a matrix from those of its columns; `closing[f]` is a value above the largest
/// of column `f`.
pub fn join_columns(columns: &[ColumnCuts], closing: &[u32]) -> (cuts: HistogramCuts)
    requires
        closing.len() == columns.len(),
        joined_cuts(columns@, closing@, columns.len() as int).len() <= u32::MAX,
    ensures
        cuts.cut_values@ == joined_cuts(columns@, closing@, columns.len() as int),
        cuts.cut_ptrs.len() == columns.len() + 1,
        forall|f: int|
            0 <= f <= columns.len() ==> #[trigger] cuts.cut_ptrs[f] == joined_cuts(columns@, closing@, f).len(),
        cuts.min_values@ == Seq::new(columns.len() as nat, |f: int| NEG_INF_BITS),
        cuts.is_categorical.len() == 0,
{
    let mut cut_values: Vec<u32> = Vec::new();
    let mut cut_ptrs: Vec<u32> = Vec::new();
    cut_ptrs.push(0);
    let mut f: usize = 0;
    while f < columns.len()
        invariant
            closing.len() == columns.len(),
            joined_cuts(columns@, closing@, columns.len() as int).len() <= u32::MAX,
            f <= columns.len(),
            cut_values@ == joined_cuts(columns@, closing@, f as int),
            cut_ptrs.len() == f + 1,
            forall|g: int| 0 <= g <= f ==> #[trigger] cut_ptrs[g] == joined_cuts(columns@, closing@, g).len(),
        decreases columns.len() - f,
    {
        let ghost was = cut_values@;
        cut_values.extend_from_slice(columns[f].inner.as_slice());
        cut_values.push(
            if columns[f].largest.is_none() {
                EMPTY_CUT
            } else {
                closing[f]
            },
        );
        proof {
            assert(cut_values@ =~= was + closed_cuts(columns[f as int], closing[f as int]));
            lemma_joined_grow(columns@, closing@, f + 1, columns.len() as int);
        }
        cut_ptrs.push(cut_values.len() as u32);
        f += 1;
    }
    let min_values: Vec<u32> = vec![NEG_INF_BITS; columns.len()];
    assert(min_values@ =~= Seq::new(columns.len() as nat, |f: int| NEG_INF_BITS));
    HistogramCuts { cut_ptrs, cut_values, min_values, is_categorical: Vec::new() }
}

proof fn lemma_joined_grow(columns: Seq<ColumnCuts>, closing: Seq<u32>, a: int, b: int)
    requires
        0 <= a <= b,
    ensures
        joined_cuts(columns, closing, a).len() <= joined_cuts(columns, closing, b).len(),
    decreases b,
{
    if a < b {
        lemma_joined_grow(columns, closing, a, b - 1);
    }
}

/// The distinct keys are the keys that there are, each once and in their order.
pub proof fn lemma_distinct_are_keys(keys: Seq<u32>, n: int, x: u32)
    requires
        0 <= n <= keys.len(),
    ensures
        distinct(keys, n).contains(x) <==> exists|i: int| 0 <= i < n && #[trigger] keys[i] == x,
    decreases n,
{
    if n > 0 {
        lemma_distinct_are_keys(keys, n - 1, x);
        let rest = distinct(keys, n - 1);
        let all = distinct(keys, n);
        if all.contains(x) {
            let k = choose|k: int| 0 <= k < all.len() && all[k] == x;
            if k < rest.len() {
                assert(rest[k] == x);
                assert(rest.contains(x));
                let i = choose|i: int| 0 <= i < n - 1 && #[trigger] keys[i] == x;
                assert(keys[i] == x);
            } else {
                assert(keys[n - 1] == x);
            }
        }
        if exists|i: int| 0 <= i < n && #[trigger] keys[i] == x {
            let i = choose|i: int| 0 <= i < n && #[trigger] keys[i] == x;
            if n == 1 || keys[n - 1] != keys[n - 2] {
                if i < n - 1 {
                    assert(rest.contains(x));
                    let k = choose|k: int| 0 <= k < rest.len() && rest[k] == x;
                    assert(all[k] == x);
                } else {
                    assert(all[rest.len() as int] == x);
                }
            } else if i == n - 1 {
                assert(keys[n - 2] == x);
            }
        }
    }
}

/// With no more distinct values than bins every value but the smallest is a cut, and otherwise the
/// cuts are values of the column too.
pub proof fn lemma_cuts_are_values(keys: Seq<u32>, n: int, max_bin: int, x: u32)
    requires
        sorted_keys(keys),
        0 < n <= keys.len(),
        1 <= max_bin,
        forall|q: int| 0 < q < max_bin ==> 0 <= #[trigger] query_rank(n, max_bin, q) < n,
    ensures
        inner_keys(keys, n, max_bin).contains(x) ==> exists|i: int| 0 <= i < n && #[trigger] keys[i] == x,
        distinct(keys, n).len() <= max_bin && x != keys[0] && (exists|i: int| 0 <= i < n && #[trigger] keys[i] == x)
            ==> inner_keys(keys, n, max_bin).contains(x),
{
    lemma_distinct(keys, n);
    lemma_distinct_are_keys(keys, n, x);
    let d = distinct(keys, n);
    let inner = inner_keys(keys, n, max_bin);
    if d.len() <= max_bin {
        if inner.contains(x) {
            let k = choose|k: int| 0 <= k < inner.len() && inner[k] == x;
            assert(d[k + 1] == x);
            assert(d.contains(x));
        }
        if d.contains(x) && x != keys[0] {
            let k = choose|k: int| 0 <= k < d.len() && d[k] == x;
            assert(inner[k - 1] == x);
        }
    } else {
        lemma_queried_are_keys(keys, n, max_bin, max_bin - 1, x);
    }
}

proof fn lemma_queried_are_keys(keys: Seq<u32>, n: int, max_bin: int, q: int, x: u32)
    requires
        0 < n <= keys.len(),
        0 <= q < max_bin,
        forall|p: int| 0 < p < max_bin ==> 0 <= #[trigger] query_rank(n, max_bin, p) < n,
    ensures
        queried(keys, n, max_bin, q).contains(x) ==> exists|i: int| 0 <= i < n && #[trigger] keys[i] == x,
    decreases q,
{
    if q > 0 {
        lemma_queried_are_keys(keys, n, max_bin, q - 1, x);
        let rest = queried(keys, n, max_bin, q - 1);
        let all = queried(keys, n, max_bin, q);
        let last = last_cut(keys, rest);
        let at = query_rank(n, max_bin, q);
        if all.contains(x) {
            let k = choose|k: int| 0 <= k < all.len() && all[k] == x;
            if k < rest.len() {
                assert(rest[k] == x);
                assert(rest.contains(x));
            } else if keys[at] > last {
                assert(keys[at] == x);
            } else {
                let i = choose|i: int| above(keys, n, last, i);
                assert(above(keys, n, last, i));
                assert(keys[i] == x);
            }
        }
    }
}

/// A count that fits a mantissa is kept, so that the ranks asked for are the even shares of it; the
/// ranks never fall.
pub proof fn lemma_ranks(n: int, max_bin: int, q: int)
    requires
        0 <= n < 0x100_0000,
        0 < max_bin,
        0 <= q,
    ensures
        single(n) == n,
        query_rank(n, max_bin, q) == q * n / max_bin,
        query_rank(n, max_bin, 0) == 0,
        query_rank(n, max_bin, q) <= query_rank(n, max_bin, q + 1),
        query_rank(n, max_bin, max_bin) == n,
{
    assert(n / 1 == n);
    assert(unit_of(n, 1) == 1);
    assert(n % 1 == 0);
    assert(single(n) == n) by {
        assert(n * 1 == n);
    }
    assert(0 * n == 0) by (nonlinear_arith);
    assert(q * n <= (q + 1) * n) by (nonlinear_arith)
        requires
            0 <= n,
    ;
    vstd::arithmetic::div_mod::lemma_div_is_ordered(q * n, (q + 1) * n, max_bin);
    assert(max_bin * n == n * max_bin) by (nonlinear_arith);
    vstd::arithmetic::div_mod::lemma_div_multiples_vanish(n, max_bin);
    vstd::arithmetic::div_mod::lemma_fundamental_div_mod_converse(0, max_bin, 0, 0);
}

/// A column's cuts are its inner ones and one that closes it, which an empty column has too; the
/// columns' cuts stand one after another.
pub proof fn lemma_columns_joined(columns: Seq<ColumnCuts>, closing: Seq<u32>, f: int, n: int)
    requires
        0 <= f < n,
    ensures
        ({
            let from = joined_cuts(columns, closing, f).len() as int;
            let inner = columns[f].inner.len() as int;
            let all = joined_cuts(columns, closing, n);
            &&& from + inner + 1 <= all.len()
            &&& joined_cuts(columns, closing, f + 1).len() == from + inner + 1
            &&& forall|i: int| 0 <= i < inner ==> #[trigger] all[from + i] == columns[f].inner[i]
            &&& columns[f].largest is Some ==> all[from + inner] == closing[f]
            &&& columns[f].largest is None ==> all[from + inner] == 0x3727_C5AC
        }),
        joined_cuts(columns, closing, 0).len() == 0,
    decreases n,
{
    let from = joined_cuts(columns, closing, f).len() as int;
    let inner = columns[f].inner.len() as int;
    let all = joined_cuts(columns, closing, n);
    if f < n - 1 {
        lemma_columns_joined(columns, closing, f, n - 1);
        let before = joined_cuts(columns, closing, n - 1);
        assert(all[from + inner] == before[from + inner]);
        assert forall|i: int| 0 <= i < inner implies #[trigger] all[from + i] == columns[f].inner[i] by {
            assert(before[from + i] == columns[f].inner[i]);
        }
    } else {
        let own = closed_cuts(columns[f], closing[f]);
        assert(all[from + inner] == own[inner]);
        assert forall|i: int| 0 <= i < inner implies #[trigger] all[from + i] == columns[f].inner[i] by {
            assert(own[i] == columns[f].inner[i]);
        }
    }
}

/// A matrix counts as full where every row has as many entries as there are columns, and not where
/// some row has more or fewer.
pub proof fn lemma_all_full(dmat: &DMatrix, r: int)
    requires
        0 <= r < dmat.info.num_row,
    ensures
        all_full(dmat) ==> dmat.row_ptr[r + 1] - dmat.row_ptr[r] == dmat.info.num_col,
        dmat.row_ptr[r + 1] - dmat.row_ptr[r] != dmat.info.num_col ==> !all_full(dmat),
        all_full(dmat) ==> dmat.index.len() == dmat.info.num_row * dmat.info.num_col,
{
    if all_full(dmat) {
        assert(row_full(dmat, r));
    }
}

/// A row's key in a column is that of its value, and the largest there is where it has none.
pub proof fn lemma_column_keys(dmat: &DMatrix, f: int, keys: Seq<u32>, r: int, k: int)
    requires
        is_column_keys(dmat, f, keys),
        0 <= r < dmat.info.num_row,
        r < keys.len(),
    ensures
        dmat.row_ptr[r] <= k < dmat.row_ptr[r + 1] && dmat.index[k] == f ==> keys[r] == sketch_key_spec(dmat.value[k]),
        (forall|j: int| dmat.row_ptr[r] <= j < dmat.row_ptr[r + 1] ==> #[trigger] dmat.index[j] != f) ==> keys[r]
            == SENTINEL,
{
    if dmat.row_ptr[r] <= k < dmat.row_ptr[r + 1] && dmat.index[k] == f {
        assert(dmat.in_row(r, k));
    }
    if forall|j: int| dmat.row_ptr[r] <= j < dmat.row_ptr[r + 1] ==> #[trigger] dmat.index[j] != f {
        assert(!has_column(dmat, r, f));
    }
}

} // verus!
