//! What the benchmarks share: a generator that any machine repeats, a checksum, and a dump of
//! the data they ran on.

pub mod args;
pub mod cases;
pub mod sweep;

use vstd::prelude::*;

use crate::data::DMatrix;
use crate::gpu::ellpack::{cell_at, lemma_cell_inside};

verus! {

/// A tiny deterministic generator (xorshift64*), so that two programs can agree on a dataset
/// without shipping one.
#[derive(Clone, Copy, Debug, PartialEq, Eq, Structural)]
pub struct Rng(pub u64);

/// The state that follows `x`.
pub open spec fn shifted(x: u64) -> u64 {
    let a = x ^ (x >> 12);
    let b = a ^ (a << 25);
    b ^ (b >> 27)
}

/// What a state hands out.
pub open spec fn starred(x: u64) -> u64 {
    (x * 0x2545_F491_4F6C_DD1D % 0x1_0000_0000_0000_0000) as u64
}

impl Rng {
    pub fn next_u64(&mut self) -> (v: u64)
        ensures
            final(self).0 == shifted(old(self).0),
            v == starred(shifted(old(self).0)),
    {
        let x: u64 = self.0;
        let a: u64 = x ^ (x >> 12);
        let b: u64 = a ^ (a << 25);
        let c: u64 = b ^ (b >> 27);
        self.0 = c;
        c.wrapping_mul(0x2545_F491_4F6C_DD1D)
    }

    /// The top 24 bits of the next draw: a uniform number below one, in units of `2^-24`.
    pub fn next_bits(&mut self) -> (v: u32)
        ensures
            final(self).0 == shifted(old(self).0),
            v == starred(shifted(old(self).0)) / 0x100_0000_0000,
            v < 0x0100_0000,
    {
        (self.next_u64() / 0x100_0000_0000) as u32
    }
}

/// The checksum of the first `n` bytes.
pub open spec fn checksum(bytes: Seq<u8>, n: int) -> u64
    decreases n,
{
    if n <= 0 {
        0xcbf2_9ce4_8422_2325
    } else {
        (((checksum(bytes, n - 1) ^ (bytes[n - 1] as u64)) * 0x0000_0100_0000_01b3) % 0x1_0000_0000_0000_0000) as u64
    }
}

/// A checksum of a serialised model (64-bit FNV-1a).
pub fn model_hash(bytes: &[u8]) -> (h: u64)
    ensures
        h == checksum(bytes@, bytes.len() as int),
{
    let mut h: u64 = 0xcbf2_9ce4_8422_2325;
    let mut i: usize = 0;
    while i < bytes.len()
        invariant
            i <= bytes.len(),
            h == checksum(bytes@, i as int),
        decreases bytes.len() - i,
    {
        h = (h ^ (bytes[i] as u64)).wrapping_mul(0x0000_0100_0000_01b3);
        i += 1;
    }
    h
}

/// The bits of a NaN, which marks a missing value.
pub const MISSING_BITS: u32 = 0x7FC0_0000;

/// The value that the entries `from..to` of a row hold for column `c`: the last of them, or
/// a NaN.
pub open spec fn dense_value(dmat: &DMatrix, c: int, from: int, to: int) -> u32
    decreases to - from,
{
    if to <= from {
        MISSING_BITS
    } else if dmat.index[to - 1] == c {
        dmat.value[to - 1]
    } else {
        dense_value(dmat, c, from, to - 1)
    }
}

/// The words of a dump: every cell row by row, then the labels.
pub open spec fn dump_words(dmat: &DMatrix) -> Seq<u32> {
    let n = dmat.info.num_col as int;
    Seq::new(
        (dmat.info.num_row * dmat.info.num_col) as nat,
        |i: int| dense_value(dmat, i % n, dmat.row_ptr[i / n] as int, dmat.row_ptr[i / n + 1] as int),
    ) + dmat.info.labels@
}

/// One row with every cell filled.
fn dense_row(dmat: &DMatrix, r: usize) -> (row: Vec<u32>)
    requires
        dmat.wf(),
        r < dmat.info.num_row,
    ensures
        row.len() == dmat.info.num_col,
        forall|c: int|
            0 <= c < row.len() ==> #[trigger] row[c] == dense_value(
                dmat,
                c,
                dmat.row_ptr[r as int] as int,
                dmat.row_ptr[r + 1] as int,
            ),
{
    let mut row: Vec<u32> = vec![MISSING_BITS; dmat.num_col()];
    assert(dmat.row_ptr[r as int] <= dmat.row_ptr[r + 1]);
    assert(dmat.row_ptr[r + 1] <= dmat.row_ptr[dmat.info.num_row as int]);
    let begin: usize = dmat.row_ptr[r];
    let end: usize = dmat.row_ptr[r + 1];
    let mut k: usize = begin;
    while k < end
        invariant
            dmat.wf(),
            begin <= k <= end <= dmat.index.len(),
            row.len() == dmat.info.num_col,
            forall|c: int| 0 <= c < row.len() ==> #[trigger] row[c] == dense_value(dmat, c, begin as int, k as int),
        decreases end - k,
    {
        assert(dmat.index[k as int] < dmat.info.num_col);
        row.set(dmat.index[k] as usize, dmat.value[k]);
        k += 1;
    }
    row
}

/// The words of a dump: every cell row by row, a NaN where a value is missing, then the
/// labels.
pub fn dump_dataset(dmat: &DMatrix) -> (words: Vec<u32>)
    requires
        dmat.wf(),
        dmat.info.num_row * dmat.info.num_col <= usize::MAX,
    ensures
        words@ == dump_words(dmat),
{
    let ghost n = dmat.info.num_col as int;
    let mut words: Vec<u32> = Vec::new();
    let mut r: usize = 0;
    while r < dmat.num_row()
        invariant
            dmat.wf(),
            n == dmat.info.num_col,
            r <= dmat.info.num_row,
            words.len() == r * n,
            forall|q: int, c: int|
                0 <= q < r && 0 <= c < n ==> #[trigger] words[cell_at(n, q, c)] == dense_value(
                    dmat,
                    c,
                    dmat.row_ptr[q] as int,
                    dmat.row_ptr[q + 1] as int,
                ),
        decreases dmat.info.num_row - r,
    {
        let row: Vec<u32> = dense_row(dmat, r);
        let ghost was = words@;
        words.extend_from_slice(row.as_slice());
        proof {
            assert(words@ =~= was + row@);
            assert((r + 1) * n == r * n + n) by (nonlinear_arith);
            assert forall|q: int, c: int| 0 <= q < r + 1 && 0 <= c < n implies #[trigger] words[cell_at(n, q, c)]
                == dense_value(dmat, c, dmat.row_ptr[q] as int, dmat.row_ptr[q + 1] as int) by {
                if q < r {
                    lemma_cell_inside(r as int, n, q, c);
                    assert(was[cell_at(n, q, c)] == dense_value(
                        dmat,
                        c,
                        dmat.row_ptr[q] as int,
                        dmat.row_ptr[q + 1] as int,
                    ));
                }
            }
        }
        r += 1;
    }
    let ghost cells = words@;
    words.extend_from_slice(dmat.info.labels.as_slice());
    proof {
        assert(words@ =~= cells + dmat.info.labels@);
        let rows = dmat.info.num_row as int;
        let all = dump_words(dmat).subrange(0, rows * n);
        assert forall|i: int| 0 <= i < rows * n implies cells[i] == dump_words(dmat)[i] by {
            if n > 0 {
                let q = i / n;
                let c = i % n;
                vstd::arithmetic::div_mod::lemma_fundamental_div_mod(i, n);
                assert(n * q == q * n) by (nonlinear_arith);
                assert(0 <= q < rows) by (nonlinear_arith)
                    requires
                        0 <= i < rows * n,
                        i == q * n + c,
                        0 <= c < n,
                ;
                assert(cells[cell_at(n, q, c)] == dense_value(
                    dmat,
                    c,
                    dmat.row_ptr[q] as int,
                    dmat.row_ptr[q + 1] as int,
                ));
            } else {
                assert(rows * n == 0) by (nonlinear_arith)
                    requires
                        n == 0,
                ;
            }
        }
        assert(words@ =~= dump_words(dmat));
    }
    words
}

/// A cell is the last value that its row has in the column, and missing where it has none.
pub proof fn lemma_dense_value(dmat: &DMatrix, c: int, from: int, to: int)
    ensures
        (forall|k: int| from <= k < to ==> #[trigger] dmat.index[k] != c) ==> dense_value(dmat, c, from, to)
            == MISSING_BITS,
        forall|k: int|
            from <= k < to && #[trigger] dmat.index[k] == c && (forall|j: int|
                k < j < to ==> #[trigger] dmat.index[j] != c) ==> dense_value(dmat, c, from, to) == dmat.value[k],
    decreases to - from,
{
    if from < to {
        lemma_dense_value(dmat, c, from, to - 1);
        if dmat.index[to - 1] == c {
            assert forall|k: int|
                from <= k < to && #[trigger] dmat.index[k] == c && (forall|j: int|
                    k < j < to ==> #[trigger] dmat.index[j] != c) implies dense_value(dmat, c, from, to)
                == dmat.value[k] by {
                if k < to - 1 {
                    assert(dmat.index[to - 1] != c);
                }
            }
        }
    }
}

/// A dump holds the cells row by row, column after column, and then the labels.
pub proof fn lemma_dump(dmat: &DMatrix, r: int, c: int)
    requires
        0 <= r < dmat.info.num_row,
        0 <= c < dmat.info.num_col,
    ensures
        dump_words(dmat).len() == dmat.info.num_row * dmat.info.num_col + dmat.info.labels.len(),
        dump_words(dmat)[r * dmat.info.num_col + c] == dense_value(
            dmat,
            c,
            dmat.row_ptr[r] as int,
            dmat.row_ptr[r + 1] as int,
        ),
        forall|i: int|
            0 <= i < dmat.info.labels.len() ==> dump_words(dmat)[dmat.info.num_row * dmat.info.num_col + i]
                == #[trigger] dmat.info.labels[i],
{
    let n = dmat.info.num_col as int;
    let rows = dmat.info.num_row as int;
    lemma_cell_inside(rows, n, r, c);
    vstd::arithmetic::div_mod::lemma_fundamental_div_mod_converse(r * n + c, n, r, c);
    assert(rows * n >= 0) by (nonlinear_arith)
        requires
            rows >= 0,
            n >= 0,
    ;
}

} // verus!
