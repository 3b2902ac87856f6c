//! The ELLPACK quantile matrix and its bit-packed form.
//!
//! Rows are stored with a fixed `row_stride`; each entry is a quantised bin
//! index. Three layouts exist:
//!
//! * [`EllpackLayout::Dense`]: every entry is a bin, local to its feature.
//! * [`EllpackLayout::DenseCompressed`]: bins local to their feature, a missing
//!   entry holds `null_value`.
//! * [`EllpackLayout::Sparse`]: bins are global (the feature's first bin is
//!   already added), a missing entry holds `null_value`.
//!
//! The training buffers hold the same entries at the narrowest width that fits
//! the largest of them: entry `i` of a buffer packed at `bits` per entry is the
//! `bits` bits from position `i * bits` of the buffer, read as one string of
//! bits from the least significant bit of the first word on.

use vstd::prelude::*;

use crate::data::cuts::{category_spec, is_bin_of, lemma_bin_unique, HistogramCuts};
use crate::float_bits::le_spec;
use crate::data::gradient_index::{is_local_bin, lemma_widest, max_feature_bins, widest_feature};
use crate::data::DMatrix;
use crate::bits::{
    bit, lemma_masked_bit, lemma_or_bit, lemma_same_bits, lemma_shifted_high, lemma_shifted_low,
    lemma_shr_bit, lemma_window_bit, lemma_zero_bits,
};

verus! {

/// Bit `k` of a buffer read as one string of bits.
pub open spec fn packed_bit(words: Seq<u32>, k: int) -> bool {
    bit(words[k / 32], k % 32)
}

/// Bit `j` of entry `i` of a buffer packed at `bits` per entry.
pub open spec fn entry_bit(words: Seq<u32>, bits: int, i: int, j: int) -> bool {
    packed_bit(words, i * bits + j)
}

/// `v` is entry `i` of a buffer packed at `bits` per entry.
pub open spec fn is_entry(words: Seq<u32>, bits: int, i: int, v: u32) -> bool {
    forall|j: int| 0 <= j < 32 ==> #[trigger] bit(v, j) == (j < bits && entry_bit(words, bits, i, j))
}

/// Entry `i` of a buffer packed at `bits` per entry.
pub open spec fn entry_of(words: Seq<u32>, bits: int, i: int) -> u32 {
    choose|v: u32| is_entry(words, bits, i, v)
}

/// `v` can be written with `bits` bits.
pub open spec fn fits(v: u32, bits: int) -> bool {
    forall|j: int| bits <= j < 32 ==> !#[trigger] bit(v, j)
}

/// `words` is what packing `values` at `bits` per entry gives: each value at its
/// place, and nothing after the last.
pub open spec fn packs(words: Seq<u32>, values: Seq<u32>, bits: int) -> bool {
    &&& forall|i: int, j: int|
        0 <= i < values.len() && 0 <= j < bits ==> #[trigger] entry_bit(words, bits, i, j) == bit(
            values[i],
            j,
        )
    &&& forall|k: int|
        values.len() * bits <= k < 32 * words.len() ==> !#[trigger] packed_bit(words, k)
}

/// Words a packed buffer of `n` entries occupies, its padding word included.
pub open spec fn packed_len(n: int, bits: int) -> int {
    if bits == 32 {
        n + 1
    } else {
        (n + 31) / 32 * bits + 1
    }
}

/// The bits that make up an entry determine it.
pub proof fn lemma_entry_unique(words: Seq<u32>, bits: int, i: int, v: u32)
    requires
        is_entry(words, bits, i, v),
    ensures
        entry_of(words, bits, i) == v,
{
    let w = entry_of(words, bits, i);
    assert(is_entry(words, bits, i, w));
    assert forall|j: int| 0 <= j < 32 implies bit(v, j) == bit(w, j) by {}
    lemma_same_bits(v, w);
}

/// Packing loses nothing: at every width that holds the values, entry `i` of the
/// packed buffer is value `i`.
pub proof fn lemma_pack_round_trip(words: Seq<u32>, values: Seq<u32>, bits: int, i: int)
    requires
        1 <= bits <= 32,
        packs(words, values, bits),
        0 <= i < values.len(),
        fits(values[i], bits),
    ensures
        entry_of(words, bits, i) == values[i],
{
    assert(is_entry(words, bits, i, values[i])) by {
        assert forall|j: int| 0 <= j < 32 implies #[trigger] bit(values[i], j) == (j < bits
            && entry_bit(words, bits, i, j)) by {}
    }
    lemma_entry_unique(words, bits, i, values[i]);
}

/// Bits per packed entry for values up to `max_value`: the narrowest width that
/// holds it, and never fewer than one.
pub fn bits_for(max_value: u32) -> (bits: u32)
    ensures
        1 <= bits <= 32,
        fits(max_value, bits as int),
        forall|w: int| 1 <= w < bits ==> !fits(max_value, w),
{
    let zeros: u32 = max_value.leading_zeros();
    proof {
        vstd::std_specs::bits::axiom_u32_leading_zeros(max_value);
        assert forall|j: int| 32 - zeros <= j < 32 implies !#[trigger] bit(max_value, j) by {
            let k: u32 = j as u32;
            assert((max_value >> k) & 1u32 == 0u32);
        }
        if zeros < 32 {
            assert((max_value >> ((31 - zeros) as u32)) & 1 == 0 || (max_value >> ((31 - zeros) as u32))
                & 1 == 1) by (bit_vector);
            assert(bit(max_value, 31 - zeros));
        }
    }
    if zeros == 32 {
        1
    } else {
        32 - zeros
    }
}

/// The words and bits that entry `i` occupies, where 32 entries fill `bits` words.
proof fn lemma_entry_position(i: int, bits: int)
    requires
        0 <= i,
        1 <= bits <= 32,
    ensures
        (i / 32) * bits * 32 + (i % 32) * bits == i * bits,
        0 <= (i % 32) * bits < 32 * bits,
{
    vstd::arithmetic::div_mod::lemma_fundamental_div_mod(i, 32);
    let q = i / 32;
    let r = i % 32;
    assert(q * bits * 32 + r * bits == (32 * q + r) * bits) by (nonlinear_arith);
    assert(0 <= r * bits < 32 * bits) by (nonlinear_arith)
        requires
            0 <= r < 32,
            1 <= bits,
    ;
}

/// Joining a value into a buffer at bit position `start`.
proof fn lemma_store_entry(old_words: Seq<u32>, new_words: Seq<u32>, v: u32, bits: u32, start: int, w: int, off: u32)
    requires
        1 <= bits < 32,
        fits(v, bits as int),
        0 <= w,
        off < 32,
        start == 32 * w + off,
        w + 1 < old_words.len(),
        new_words.len() == old_words.len(),
        new_words[w] == old_words[w] | ((v as u64) << (off as u64)) as u32,
        new_words[w + 1] == (if off + bits > 32 {
            old_words[w + 1] | (((v as u64) << (off as u64)) >> 32u64) as u32
        } else {
            old_words[w + 1]
        }),
        forall|k: int| 0 <= k < old_words.len() && k != w && k != w + 1 ==> new_words[k] == old_words[k],
    ensures
        forall|k: int|
            0 <= k < 32 * old_words.len() ==> #[trigger] packed_bit(new_words, k) == (packed_bit(
                old_words,
                k,
            ) || (start <= k < start + bits && bit(v, k - start))),
{
    assert forall|k: int| 0 <= k < 32 * old_words.len() implies #[trigger] packed_bit(new_words, k) == (
    packed_bit(old_words, k) || (start <= k < start + bits && bit(v, k - start))) by {
        let q = k % 32;
        if k / 32 == w {
            lemma_or_bit(old_words[w], ((v as u64) << (off as u64)) as u32, q);
            lemma_shifted_low(v, off, q);
        } else if k / 32 == w + 1 {
            lemma_or_bit(old_words[w + 1], (((v as u64) << (off as u64)) >> 32u64) as u32, q);
            lemma_shifted_high(v, off, q);
        }
    }
}

/// Pack `values` at `bits` per entry, least-significant bits first within each
/// word and entries running across word boundaries.
///
/// Thirty-two entries occupy exactly `bits` words. One padding word follows the
/// data, so that reading the last entry across two words stays in bounds.
pub fn pack_bins(values: &[u32], bits: u32) -> (words: Vec<u32>)
    requires
        1 <= bits <= 32,
        forall|i: int| 0 <= i < values.len() ==> fits(#[trigger] values[i], bits as int),
        values.len() <= usize::MAX - 64,
    ensures
        packs(words@, values@, bits as int),
        words.len() == packed_len(values.len() as int, bits as int),
{
    if bits == 32 {
        let mut words: Vec<u32> = Vec::with_capacity(values.len() + 1);
        words.extend_from_slice(values);
        words.push(0);
        proof {
            assert forall|i: int, j: int| 0 <= i < values.len() && 0 <= j < 32 implies #[trigger] entry_bit(
                words@,
                32,
                i,
                j,
            ) == bit(values[i], j) by {
                assert((i * 32 + j) / 32 == i);
            }
            assert forall|k: int| values.len() * 32 <= k < 32 * words.len() implies !#[trigger] packed_bit(
                words@,
                k,
            ) by {
                lemma_zero_bits(k % 32);
            }
        }
        return words;
    }
    let chunks: usize = (values.len() + 31) / 32;
    let width: usize = bits as usize;
    assert(chunks * width + 1 <= usize::MAX) by (nonlinear_arith)
        requires
            chunks == (values@.len() + 31) / 32,
            values@.len() <= usize::MAX - 64,
            1 <= width < 32,
    ;
    let mut words: Vec<u32> = vec![0u32; chunks * width + 1];
    proof {
        assert forall|k: int| 0 <= k < 32 * words.len() implies !#[trigger] packed_bit(words@, k) by {
            lemma_zero_bits(k % 32);
        }
    }
    let mut i: usize = 0;
    while i < values.len()
        invariant
            i <= values.len(),
            1 <= bits < 32,
            width == bits,
            chunks == (values.len() + 31) / 32,
            words.len() == chunks * width + 1,
            forall|k: int| 0 <= k < values.len() ==> fits(#[trigger] values[k], bits as int),
            forall|e: int, j: int|
                0 <= e < i && 0 <= j < bits ==> #[trigger] entry_bit(words@, bits as int, e, j) == bit(
                    values[e],
                    j,
                ),
            forall|k: int| i * bits <= k < 32 * words.len() ==> !#[trigger] packed_bit(words@, k),
        decreases values.len() - i,
    {
        let ghost before = words@;
        let v: u32 = values[i];
        let chunk: usize = i / 32;
        assert((i % 32) * bits <= 31 * 31) by (nonlinear_arith)
            requires
                i % 32 <= 31,
                bits <= 31,
        ;
        let local: u32 = (i % 32) as u32 * bits;
        let off: u32 = local % 32;
        proof {
            lemma_entry_position(i as int, bits as int);
            assert(chunk * width + local / 32 + 1 < chunks * width + 1) by (nonlinear_arith)
                requires
                    chunk + 1 <= chunks,
                    local < 32 * width,
            ;
        }
        let w: usize = chunk * width + (local / 32) as usize;
        let wide: u64 = (v as u64) << (off as u64);
        let low: u32 = words[w];
        words[w] = low | #[verifier::truncate] (wide as u32);
        if off + bits > 32 {
            let high: u32 = words[w + 1];
            words[w + 1] = high | #[verifier::truncate] ((wide >> 32u64) as u32);
        }
        proof {
            let start = i * bits;
            assert(start == 32 * w + off) by (nonlinear_arith)
                requires
                    start == (chunk * width) * 32 + local,
                    w == chunk * width + local / 32,
                    off == local % 32,
            ;
            lemma_store_entry(before, words@, v, bits, start, w as int, off);
            assert((i + 1) * bits == start + bits) by (nonlinear_arith)
                requires
                    start == i * bits,
            ;
            assert(0 <= start) by (nonlinear_arith)
                requires
                    start == i * bits,
            ;
            assert(start + bits <= 32 * words.len()) by (nonlinear_arith)
                requires
                    start == 32 * w + off,
                    off < 32,
                    bits < 32,
                    w + 1 < words@.len(),
            ;
            assert forall|e: int, j: int| 0 <= e < i + 1 && 0 <= j < bits implies #[trigger] entry_bit(
                words@,
                bits as int,
                e,
                j,
            ) == bit(values[e], j) by {
                let k = e * bits + j;
                assert(0 <= k) by (nonlinear_arith)
                    requires
                        0 <= e,
                        0 <= j,
                        k == e * bits + j,
                ;
                if e < i {
                    assert(k < start) by (nonlinear_arith)
                        requires
                            e + 1 <= i,
                            j < bits,
                            k == e * bits + j,
                            start == i * bits,
                    ;
                    assert(entry_bit(before, bits as int, e, j) == bit(values[e], j));
                }
                assert(packed_bit(words@, k) == (packed_bit(before, k) || (start <= k < start + bits && bit(
                    v,
                    k - start,
                ))));
            }
            assert forall|k: int| (i + 1) * bits <= k < 32 * words.len() implies !#[trigger] packed_bit(
                words@,
                k,
            ) by {}
        }
        i += 1;
    }
    words
}

/// Read entry `entry` of a [`pack_bins`] buffer at `bits` per entry.
///
/// A word index, a shift and a mask where the width divides a word; a two-word
/// read otherwise, for which the buffer's padding word makes the last entry sound.
pub fn load_bin(words: &[u32], entry: u32, bits: u32) -> (v: u32)
    requires
        1 <= bits <= 32,
        entry * bits / 32 + 1 < words.len() || (32u32 % bits == 0 && entry * bits / 32 < words.len()),
    ensures
        is_entry(words@, bits as int, entry as int, v),
        v == entry_of(words@, bits as int, entry as int),
{
    let ghost first = entry * bits;
    let v: u32 = if bits == 32 {
        assert(first / 32 == entry);
        let v: u32 = words[entry as usize];
        proof {
            assert forall|j: int| 0 <= j < 32 implies #[trigger] bit(v, j) == entry_bit(
                words@,
                32,
                entry as int,
                j,
            ) by {
                assert((entry * 32 + j) / 32 == entry);
            }
        }
        v
    } else if 32 % bits == 0 {
        assert((1u32 << bits) >= 1) by (bit_vector)
            requires
                bits < 32,
        ;
        let mask: u32 = (1u32 << bits) - 1;
        assert(32u32 / bits >= 1) by (nonlinear_arith)
            requires
                1 <= bits <= 32,
        ;
        let per_word: u32 = 32 / bits;
        let word: u32 = entry / per_word;
        let slot: u32 = entry % per_word;
        proof {
            vstd::arithmetic::div_mod::lemma_fundamental_div_mod(entry as int, per_word as int);
            assert(per_word * bits == 32) by (nonlinear_arith)
                requires
                    per_word == 32u32 / bits,
                    32u32 % bits == 0,
                    1 <= bits <= 32,
            ;
            assert(first == 32 * word + slot * bits) by (nonlinear_arith)
                requires
                    first == entry * bits,
                    entry == per_word * word + slot,
                    per_word * bits == 32,
            ;
            assert(0 <= slot * bits && slot * bits + bits <= 32) by (nonlinear_arith)
                requires
                    0 <= slot,
                    slot + 1 <= per_word,
                    per_word * bits == 32,
                    1 <= bits,
            ;
        }
        let off: u32 = slot * bits;
        let v: u32 = (words[word as usize] >> off) & mask;
        proof {
            assert forall|j: int| 0 <= j < 32 implies #[trigger] bit(v, j) == (j < bits && entry_bit(
                words@,
                bits as int,
                entry as int,
                j,
            )) by {
                lemma_masked_bit(words[word as int] >> off, bits, j);
                lemma_shr_bit(words[word as int], off, j);
                if j < bits {
                    assert((first + j) / 32 == word);
                }
            }
        }
        v
    } else {
        assert((1u32 << bits) >= 1) by (bit_vector)
            requires
                bits < 32,
        ;
        let mask: u32 = (1u32 << bits) - 1;
        assert(entry as u64 * bits as u64 <= u32::MAX as u64 * 32) by (nonlinear_arith)
            requires
                entry <= u32::MAX,
                bits <= 32,
        ;
        let position: u64 = entry as u64 * bits as u64;
        let word: usize = (position / 32) as usize;
        let off: u64 = position % 32;
        let lo: u64 = words[word] as u64;
        let hi: u64 = words[word + 1] as u64;
        let window: u32 = #[verifier::truncate] ((((hi << 32u64) | lo) >> off) as u32);
        let v: u32 = window & mask;
        proof {
            assert forall|j: int| 0 <= j < 32 implies #[trigger] bit(v, j) == (j < bits && entry_bit(
                words@,
                bits as int,
                entry as int,
                j,
            )) by {
                lemma_masked_bit(window, bits, j);
                lemma_window_bit(words[word as int], words[word + 1], off as u32, j);
            }
        }
        v
    };
    proof {
        lemma_entry_unique(words@, bits as int, entry as int, v);
    }
    v
}

/// A value no larger than one that fits fits too.
proof fn lemma_fits_below(v: u32, max: u32, bits: int)
    requires
        v <= max,
        0 <= bits <= 32,
        fits(max, bits),
    ensures
        fits(v, bits),
{
    if bits < 32 {
        let w: u32 = bits as u32;
        assert forall|j: int| 0 <= j < 32 implies bit(max >> w, j) == bit(0, j) by {
            lemma_shr_bit(max, w, j);
            lemma_zero_bits(j);
        }
        lemma_same_bits(max >> w, 0);
        assert((v >> w) == 0) by (bit_vector)
            requires
                v <= max,
                (max >> w) == 0,
        ;
        assert forall|j: int| bits <= j < 32 implies !#[trigger] bit(v, j) by {
            lemma_shr_bit(v, w, j - bits);
            lemma_zero_bits(j - bits);
        }
    }
}

/// How a matrix stores its bins.
#[derive(Clone, Copy, Debug, PartialEq, Eq, Structural)]
pub enum EllpackLayout {
    Dense,
    DenseCompressed,
    Sparse,
}

/// A quantised matrix with a fixed number of entries per row.
#[derive(Clone, Debug)]
pub struct EllpackMatrix {
    /// Bin indices, `n_rows * row_stride` entries.
    pub gidx: Vec<u32>,
    /// Number of matrix columns per row (the feature count for dense data).
    pub row_stride: usize,
    /// First row id of this batch.
    pub base_rowid: u32,
    pub n_rows: usize,
    /// Cut pointers: bin range of feature `f` is `cut_ptrs[f]..cut_ptrs[f + 1]`.
    pub cut_ptrs: Vec<u32>,
    /// Sentinel for a missing entry (compared against the stored value).
    pub null_value: u32,
    pub layout: EllpackLayout,
}

impl EllpackMatrix {
    /// The matrix holds one entry per cell.
    pub open spec fn is_full(&self) -> bool {
        self.gidx.len() == self.n_rows * self.row_stride
    }

    /// Entry `k` of row `r`, as stored.
    pub open spec fn stored(&self, r: int, k: int) -> u32 {
        self.gidx[r * self.row_stride + k]
    }

    /// Every value the matrix may store can be written with `bits` bits: its
    /// entries, and the sentinel wherever the layout can store it.
    pub open spec fn fits_in(&self, bits: int) -> bool {
        &&& forall|i: int| 0 <= i < self.gidx.len() ==> fits(#[trigger] self.gidx[i], bits)
        &&& self.layout != EllpackLayout::Dense ==> fits(self.null_value, bits)
    }

    /// The entries in feature-major order: entry `f * n_rows + r` is entry `f`
    /// of row `r`.
    pub open spec fn by_feature(&self) -> Seq<u32> {
        Seq::new(self.gidx@.len(), |i: int| self.stored(i % (self.n_rows as int), i / (self.n_rows as int)))
    }

    pub fn n_features(&self) -> (n: usize)
        requires
            self.cut_ptrs.len() > 0,
        ensures
            n == self.cut_ptrs.len() - 1,
    {
        self.cut_ptrs.len() - 1
    }

    /// Total number of histogram bins across all features.
    pub fn n_bins(&self) -> (n: u32)
        requires
            self.cut_ptrs.len() > 0,
        ensures
            n == self.cut_ptrs@.last(),
    {
        self.cut_ptrs[self.cut_ptrs.len() - 1]
    }

    pub fn is_dense(&self) -> (dense: bool)
        ensures
            dense == (self.layout == EllpackLayout::Dense),
    {
        self.layout == EllpackLayout::Dense
    }

    /// Whether stored bins are feature-local (need `cut_ptrs[fidx]` added).
    pub fn is_compressed(&self) -> (compressed: bool)
        ensures
            compressed == (self.layout != EllpackLayout::Sparse),
    {
        !(self.layout == EllpackLayout::Sparse)
    }
}

/// The global bin of `value` in feature `f`, `None` for a category without a bin.
pub open spec fn bin_at(cuts: &HistogramCuts, value: u32, f: int) -> Option<u32> {
    choose|bin: Option<u32>| cuts.bins_to(value, f, bin)
}

/// A value has one bin.
proof fn lemma_bin_at(cuts: &HistogramCuts, value: u32, f: int, bin: Option<u32>)
    requires
        cuts.bins_to(value, f, bin),
    ensures
        bin == bin_at(cuts, value, f),
{
    let other = bin_at(cuts, value, f);
    assert(cuts.bins_to(value, f, other));
    if !cuts.categorical(f) {
        lemma_bin_unique(cuts, value, f, bin->0 as int, other->0 as int);
    }
}

/// What a row whose entries are `from..to` stores for feature `f`: the local bin of the last
/// of its values for the feature that has one, or else the sentinel.
pub open spec fn row_bin(dmat: &DMatrix, cuts: &HistogramCuts, null: int, f: int, from: int, to: int) -> int
    decreases to - from,
{
    if to <= from {
        null
    } else if dmat.index[to - 1] == f && bin_at(cuts, dmat.value[to - 1], f) is Some {
        bin_at(cuts, dmat.value[to - 1], f)->0 - cuts.cut_ptrs[f]
    } else {
        row_bin(dmat, cuts, null, f, from, to - 1)
    }
}

/// Rows `0..upto` of the buffer are those of the matrix, and the rest is unfilled.
spec fn rows_filled(
    gidx: Seq<u32>,
    dmat: &DMatrix,
    cuts: &HistogramCuts,
    null: u32,
    upto: int,
    part: int,
) -> bool {
    let n = dmat.info.num_col as int;
    forall|r: int, f: int|
        0 <= r < dmat.info.num_row && 0 <= f < n ==> #[trigger] gidx[cell_at(n, r, f)] == row_bin(
            dmat,
            cuts,
            null as int,
            f,
            dmat.row_ptr[r] as int,
            if r < upto {
                dmat.row_ptr[r + 1] as int
            } else if r == upto {
                part
            } else {
                dmat.row_ptr[r] as int
            },
        ) && (gidx[cell_at(n, r, f)] == null || gidx[cell_at(n, r, f)] < cuts.width(f))
}

/// Every number falls into a bin.
proof fn lemma_falls(cuts: &HistogramCuts, value: u32, f: int, from: int) -> (idx: int)
    requires
        cuts.cut_ptrs[f] <= from < cuts.cut_ptrs[f + 1],
        forall|k: int| cuts.cut_ptrs[f] <= k < from ==> le_spec(#[trigger] cuts.cut_values[k], value),
    ensures
        is_bin_of(cuts, value, f, idx),
    decreases cuts.cut_ptrs[f + 1] - from,
{
    if from + 1 < cuts.cut_ptrs[f + 1] && le_spec(cuts.cut_values[from], value) {
        lemma_falls(cuts, value, f, from + 1)
    } else {
        from
    }
}

/// A value has a bin, or is a category that has none.
proof fn lemma_bin_exists(cuts: &HistogramCuts, value: u32, f: int)
    requires
        cuts.wf(),
        0 <= f < cuts.cut_ptrs.len() - 1,
    ensures
        cuts.bins_to(value, f, bin_at(cuts, value, f)),
        bin_at(cuts, value, f) matches Some(b) ==> cuts.cut_ptrs[f] <= b < cuts.cut_ptrs[f + 1],
{
    assert(cuts.cut_ptrs[f] < cuts.cut_ptrs[f + 1]);
    if cuts.categorical(f) {
        let bin: Option<u32> = match category_spec(value) {
            Some(code) => if code < cuts.width(f) {
                Some((cuts.cut_ptrs[f] + code) as u32)
            } else {
                None
            },
            None => None,
        };
        assert(cuts.bins_to(value, f, bin));
    } else {
        let idx = lemma_falls(cuts, value, f, cuts.cut_ptrs[f] as int);
        assert(cuts.bins_to(value, f, Some(idx as u32)));
    }
}

/// `bin` is what the entries `from..to` of a matrix come to for feature `f`: the feature-local
/// bin of the last value that has one, and none where no value has.
pub open spec fn comes_to(dmat: &DMatrix, cuts: &HistogramCuts, f: int, from: int, to: int, bin: Option<int>) -> bool {
    match bin {
        Some(b) => exists|k: int|
            from <= k < to && #[trigger] dmat.index[k] == f && cuts.bins_to(
                dmat.value[k],
                f,
                Some((cuts.cut_ptrs[f] + b) as u32),
            ) && forall|j: int| k < j < to && #[trigger] dmat.index[j] == f ==> cuts.bins_to(dmat.value[j], f, None),
        None => forall|k: int|
            from <= k < to && #[trigger] dmat.index[k] == f ==> cuts.bins_to(dmat.value[k], f, None),
    }
}

/// What a row stores for a feature is what its values come to.
pub proof fn lemma_row_bin_means(dmat: &DMatrix, cuts: &HistogramCuts, null: int, f: int, from: int, to: int)
    requires
        cuts.wf(),
        0 <= f < cuts.cut_ptrs.len() - 1,
        null >= cuts.width(f),
    ensures
        row_bin(dmat, cuts, null, f, from, to) == null ==> comes_to(dmat, cuts, f, from, to, None),
        row_bin(dmat, cuts, null, f, from, to) != null ==> comes_to(
            dmat,
            cuts,
            f,
            from,
            to,
            Some(row_bin(dmat, cuts, null, f, from, to)),
        ),
    decreases to - from,
{
    if from < to {
        let v = dmat.value[to - 1];
        let b = bin_at(cuts, v, f);
        if dmat.index[to - 1] == f {
            lemma_bin_exists(cuts, v, f);
            assert(cuts.bins_to(v, f, b));
        }
        if dmat.index[to - 1] == f && b is Some {
            assert(row_bin(dmat, cuts, null, f, from, to) == b->0 - cuts.cut_ptrs[f]);
            assert(dmat.index[to - 1] == f);
            assert((cuts.cut_ptrs[f] + (b->0 - cuts.cut_ptrs[f])) as u32 == b->0);
        } else {
            lemma_row_bin_means(dmat, cuts, null, f, from, to - 1);
            let r = row_bin(dmat, cuts, null, f, from, to);
            if r != null {
                let k = choose|k: int|
                    from <= k < to - 1 && #[trigger] dmat.index[k] == f && cuts.bins_to(
                        dmat.value[k],
                        f,
                        Some((cuts.cut_ptrs[f] + r) as u32),
                    ) && forall|j: int| k < j < to - 1 && #[trigger] dmat.index[j] == f ==> cuts.bins_to(
                        dmat.value[j],
                        f,
                        None,
                    );
                assert(dmat.index[k] == f);
            }
        }
    }
}

/// Where entry `f` of row `r` stands in a buffer of `n` entries a row.
pub open spec fn cell_at(n: int, r: int, f: int) -> int {
    r * n + f
}

proof fn lemma_cells_apart(n: int, r: int, f: int, q: int, g: int)
    requires
        0 <= f < n,
        0 <= g < n,
        cell_at(n, r, f) == cell_at(n, q, g),
    ensures
        r == q,
        f == g,
{
    assert(r == q) by (nonlinear_arith)
        requires
            0 <= f < n,
            0 <= g < n,
            r * n + f == q * n + g,
    ;
}

/// Entries of other features leave a feature's bin as it was.
proof fn lemma_row_bin_others(dmat: &DMatrix, cuts: &HistogramCuts, null: int, f: int, from: int, mid: int, to: int)
    requires
        from <= mid <= to,
        forall|k: int| mid <= k < to ==> #[trigger] dmat.index[k] != f,
    ensures
        row_bin(dmat, cuts, null, f, from, to) == row_bin(dmat, cuts, null, f, from, mid),
    decreases to - mid,
{
    if mid < to {
        assert(dmat.index[to - 1] != f);
        lemma_row_bin_others(dmat, cuts, null, f, from, mid, to - 1);
    }
}

/// A numeric value has the same bin here as in the gradient index: that of the row's last entry
/// for the feature.
pub proof fn lemma_same_bins(dmat: &DMatrix, cuts: &HistogramCuts, null: int, r: int, k: int, b: u32)
    requires
        dmat.wf(),
        0 <= r < dmat.info.num_row,
        dmat.stands(r, k),
        !cuts.categorical(dmat.index[k] as int),
        is_local_bin(cuts, dmat.value[k], dmat.index[k] as int, b),
        cuts.cut_ptrs[dmat.index[k] as int] + b <= u32::MAX,
    ensures
        row_bin(dmat, cuts, null, dmat.index[k] as int, dmat.row_ptr[r] as int, dmat.row_ptr[r + 1] as int) == b,
{
    let f = dmat.index[k] as int;
    assert forall|j: int| k + 1 <= j < dmat.row_ptr[r + 1] implies #[trigger] dmat.index[j] != f by {
        assert(dmat.in_row(r, j));
    }
    lemma_row_bin_others(dmat, cuts, null, f, dmat.row_ptr[r] as int, k + 1, dmat.row_ptr[r + 1] as int);
    lemma_bin_at(cuts, dmat.value[k], f, Some((cuts.cut_ptrs[f] + b) as u32));
}

/// Build an ELLPACK from a matrix and its quantile cuts.
///
/// It bins with [`HistogramCuts::bin_of`]. The result always has as many entries a row as
/// there are features, which is what lets the partitioner index a row's feature directly
/// instead of searching. A value that has no bin, an unseen category, is stored as missing.
pub fn build_ellpack(dmat: &DMatrix, cuts: &HistogramCuts) -> (matrix: EllpackMatrix)
    requires
        dmat.wf(),
        cuts.wf(),
        0 < dmat.info.num_col <= cuts.cut_ptrs.len() - 1,
        dmat.info.num_row * dmat.info.num_col <= usize::MAX,
    ensures
        matrix.is_full(),
        matrix.n_rows == dmat.info.num_row,
        matrix.row_stride == dmat.info.num_col,
        matrix.base_rowid == 0,
        matrix.cut_ptrs@ == cuts.cut_ptrs@,
        matrix.null_value == widest_feature(cuts, dmat.info.num_col as int),
        forall|r: int, f: int|
            0 <= r < dmat.info.num_row && 0 <= f < dmat.info.num_col ==> #[trigger] matrix.stored(r, f) == row_bin(
                dmat,
                cuts,
                matrix.null_value as int,
                f,
                dmat.row_ptr[r] as int,
                dmat.row_ptr[r + 1] as int,
            ),
        matrix.layout == (if matrix.gidx@.contains(matrix.null_value) {
            EllpackLayout::DenseCompressed
        } else {
            EllpackLayout::Dense
        }),
        dmat.info.num_col == cuts.cut_ptrs.len() - 1 && dmat.info.num_col < u32::MAX ==> matrix.well_binned(),
{
    let n_rows: usize = dmat.num_row();
    let n_features: usize = dmat.num_col();
    // A single sentinel has to be invalid for every feature, so it sits above the widest
    // feature's local bin count.
    let null_value: u32 = max_feature_bins(cuts, n_features) as u32;
    let mut gidx: Vec<u32> = Vec::with_capacity(n_rows * n_features);
    let mut k: usize = 0;
    while k < n_rows * n_features
        invariant
            n_rows * n_features <= usize::MAX,
            k <= n_rows * n_features,
            gidx.len() == k,
            forall|i: int| 0 <= i < k ==> #[trigger] gidx[i] == null_value,
        decreases n_rows * n_features - k,
    {
        gidx.push(null_value);
        k += 1;
    }
    proof {
        assert forall|r: int, f: int| 0 <= r < n_rows && 0 <= f < n_features implies #[trigger] gidx[cell_at(
            n_features as int,
            r,
            f,
        )] == null_value by {
            lemma_cell_inside(n_rows as int, n_features as int, r, f);
        }
        assert(rows_filled(gidx@, dmat, cuts, null_value, 0, dmat.row_ptr[0] as int));
    }
    let mut r: usize = 0;
    while r < n_rows
        invariant
            dmat.wf(),
            cuts.wf(),
            0 < n_features <= cuts.cut_ptrs.len() - 1,
            n_rows == dmat.info.num_row,
            n_features == dmat.info.num_col,
            null_value == widest_feature(cuts, n_features as int),
            n_rows * n_features <= usize::MAX,
            gidx.len() == n_rows * n_features,
            r <= n_rows,
            rows_filled(gidx@, dmat, cuts, null_value, r as int, dmat.row_ptr[r as int] as int),
        decreases n_rows - r,
    {
        assert(dmat.row_ptr[r as int] <= dmat.row_ptr[r + 1]);
        assert(dmat.row_ptr[r + 1] <= dmat.row_ptr[n_rows as int]);
        let end: usize = dmat.row_ptr[r + 1];
        let mut e: usize = dmat.row_ptr[r];
        while e < end
            invariant
                dmat.wf(),
                cuts.wf(),
                0 < n_features <= cuts.cut_ptrs.len() - 1,
                n_rows == dmat.info.num_row,
                n_features == dmat.info.num_col,
                null_value == widest_feature(cuts, n_features as int),
                n_rows * n_features <= usize::MAX,
                gidx.len() == n_rows * n_features,
                r < n_rows,
                end == dmat.row_ptr[r + 1],
                end <= dmat.index.len(),
                dmat.row_ptr[r as int] <= e <= end,
                rows_filled(gidx@, dmat, cuts, null_value, r as int, e as int),
            decreases end - e,
        {
            let f: usize = dmat.index[e] as usize;
            let ghost was = gidx@;
            let ghost n = n_features as int;
            let bin: Option<u32> = cuts.bin_of(dmat.value[e], f);
            proof {
                lemma_bin_at(cuts, dmat.value[e as int], f as int, bin);
                lemma_cell_inside(n_rows as int, n, r as int, f as int);
                lemma_widest(cuts, n, f as int);
            }
            if let Some(b) = bin {
                assert(r * n_features <= n_rows * n_features) by (nonlinear_arith)
                    requires
                        r < n_rows,
                ;
                gidx.set(r * n_features + f, b - cuts.cut_ptrs[f]);
            }
            proof {
                assert forall|q: int, g: int| 0 <= q < dmat.info.num_row && 0 <= g < n implies #[trigger] gidx[cell_at(
                    n,
                    q,
                    g,
                )] == row_bin(
                    dmat,
                    cuts,
                    null_value as int,
                    g,
                    dmat.row_ptr[q] as int,
                    if q < r {
                        dmat.row_ptr[q + 1] as int
                    } else if q == r {
                        e + 1
                    } else {
                        dmat.row_ptr[q] as int
                    },
                ) && (gidx[cell_at(n, q, g)] == null_value || gidx[cell_at(n, q, g)] < cuts.width(g)) by {
                    lemma_cell_inside(n_rows as int, n, q, g);
                    assert(was[cell_at(n, q, g)] == null_value || was[cell_at(n, q, g)] < cuts.width(g));
                    if cell_at(n, q, g) == cell_at(n, r as int, f as int) {
                        lemma_cells_apart(n, q, g, r as int, f as int);
                    }
                }
            }
            e += 1;
        }
        proof {
            if r + 1 < n_rows {
                assert(dmat.row_ptr[r + 1] <= dmat.row_ptr[r + 2]);
            }
        }
        r += 1;
    }
    // `Dense` is the layout with no missing entry at all, which is a property of the filled
    // matrix and not of how the matrix it came from is stored.
    let mut holes: bool = false;
    let mut k: usize = 0;
    while k < gidx.len()
        invariant
            k <= gidx.len(),
            holes == exists|i: int| 0 <= i < k && #[trigger] gidx[i] == null_value,
        decreases gidx.len() - k,
    {
        if gidx[k] == null_value {
            holes = true;
        }
        k += 1;
    }
    let layout: EllpackLayout = if holes {
        EllpackLayout::DenseCompressed
    } else {
        EllpackLayout::Dense
    };
    let cut_ptrs: Vec<u32> = cuts.cut_ptrs.clone();
    assert(cut_ptrs@ =~= cuts.cut_ptrs@);
    let matrix = EllpackMatrix {
        gidx,
        row_stride: n_features,
        base_rowid: 0,
        n_rows,
        cut_ptrs,
        null_value,
        layout,
    };
    proof {
        let n = n_features as int;
        assert(matrix.gidx@.contains(null_value) == holes);
        assert forall|r: int, f: int| 0 <= r < n_rows && 0 <= f < n implies #[trigger] matrix.stored(r, f) == row_bin(
            dmat,
            cuts,
            null_value as int,
            f,
            dmat.row_ptr[r] as int,
            dmat.row_ptr[r + 1] as int,
        ) && (matrix.layout == EllpackLayout::Dense || matrix.stored(r, f) != null_value ==> matrix.stored(r, f)
            < cuts.width(f)) by {
            lemma_cell_inside(n_rows as int, n, r, f);
            assert(matrix.gidx[cell_at(n, r, f)] == matrix.stored(r, f));
        }
    }
    matrix
}

pub(crate) proof fn lemma_cell_inside(rows: int, n: int, r: int, f: int)
    requires
        0 <= r < rows,
        0 <= f < n,
    ensures
        0 <= cell_at(n, r, f) < rows * n,
{
    assert(0 <= r * n + f < rows * n) by (nonlinear_arith)
        requires
            0 <= r < rows,
            0 <= f < n,
    ;
}

/// The narrowest width that holds every entry of `matrix`.
///
/// The sentinel counts as a value wherever the layout can store it.
pub fn natural_bits(matrix: &EllpackMatrix) -> (bits: u32)
    ensures
        1 <= bits <= 32,
        matrix.fits_in(bits as int),
        forall|w: int| 1 <= w < bits ==> !matrix.fits_in(w),
{
    let mut max_value: u32 = 0;
    let mut i: usize = 0;
    while i < matrix.gidx.len()
        invariant
            i <= matrix.gidx.len(),
            forall|k: int| 0 <= k < i ==> #[trigger] matrix.gidx[k] <= max_value,
            max_value == 0 || exists|k: int| 0 <= k < i && #[trigger] matrix.gidx[k] == max_value,
        decreases matrix.gidx.len() - i,
    {
        if matrix.gidx[i] > max_value {
            max_value = matrix.gidx[i];
        }
        i += 1;
    }
    let ghost data_max = max_value;
    if !matrix.is_dense() && matrix.null_value > max_value {
        max_value = matrix.null_value;
    }
    let bits: u32 = bits_for(max_value);
    proof {
        assert forall|k: int| 0 <= k < matrix.gidx.len() implies fits(#[trigger] matrix.gidx[k], bits as int) by {
            lemma_fits_below(matrix.gidx[k], max_value, bits as int);
        }
        lemma_fits_below(0, max_value, bits as int);
        if matrix.layout != EllpackLayout::Dense {
            lemma_fits_below(matrix.null_value, max_value, bits as int);
        }
        assert forall|w: int| 1 <= w < bits implies !matrix.fits_in(w) by {
            if matrix.fits_in(w) {
                if max_value == 0 {
                    assert forall|j: int| w <= j < 32 implies !#[trigger] bit(max_value, j) by {
                        lemma_zero_bits(j);
                    }
                }
                assert(fits(max_value, w));
            }
        }
    }
    bits
}

/// The width the matrix is packed at.
///
/// Packing is a bandwidth trade: fewer bytes per entry, a shift and a mask per
/// read. A runtime with planes streams the matrix from device memory and is on the
/// right side of it; one without keeps whole words, which [`load_bin`] reads with
/// no arithmetic at all.
pub fn device_bits(has_planes: bool, matrix: &EllpackMatrix) -> (bits: u32)
    ensures
        1 <= bits <= 32,
        matrix.fits_in(bits as int),
        has_planes ==> forall|w: int| 1 <= w < bits ==> !matrix.fits_in(w),
        !has_planes ==> bits == 32,
{
    if has_planes {
        natural_bits(matrix)
    } else {
        32
    }
}

/// An [`EllpackMatrix`] packed for the training kernels.
///
/// The histogram kernel reads `gidx` row by row. The row partitioner reads one
/// feature of many rows instead, and for the feature-local layouts it gets
/// `gidx_t`, the same bins feature-major: entry `f * n_rows + r`. The sparse layout,
/// which the partitioner has to search a row for anyway, holds a one-word
/// placeholder.
#[derive(Clone, Debug)]
pub struct DeviceEllpack {
    /// Row-major entries, packed at `bits` per entry.
    pub gidx: Vec<u32>,
    /// Feature-major copy of `gidx` for the feature-local layouts, packed the
    /// same way; a one-word placeholder for the sparse one.
    pub gidx_t: Vec<u32>,
    pub cut_ptrs: Vec<u32>,
    /// Bits per packed entry.
    pub bits: u32,
    pub n_rows: usize,
    pub row_stride: u32,
    pub base_rowid: u32,
    pub null_value: u32,
    pub n_bins: u32,
    pub dense: bool,
    pub compressed: bool,
}

impl DeviceEllpack {
    /// The packed form of `matrix`.
    pub open spec fn holds(&self, matrix: &EllpackMatrix) -> bool {
        &&& packs(self.gidx@, matrix.gidx@, self.bits as int)
        &&& self.gidx.len() == packed_len(matrix.gidx.len() as int, self.bits as int)
        &&& if matrix.layout != EllpackLayout::Sparse && matrix.gidx.len() > 0 {
            &&& packs(self.gidx_t@, matrix.by_feature(), self.bits as int)
            &&& self.gidx_t.len() == packed_len(matrix.gidx.len() as int, self.bits as int)
        } else {
            self.gidx_t@ == seq![0u32]
        }
        &&& self.cut_ptrs@ == matrix.cut_ptrs@
        &&& self.n_rows == matrix.n_rows
        &&& self.row_stride == matrix.row_stride
        &&& self.base_rowid == matrix.base_rowid
        &&& self.null_value == matrix.null_value
        &&& self.n_bins == matrix.cut_ptrs@.last()
        &&& self.dense == (matrix.layout == EllpackLayout::Dense)
        &&& self.compressed == (matrix.layout != EllpackLayout::Sparse)
    }

    /// Entry `k` of row `r`, as stored.
    pub open spec fn stored(&self, r: int, k: int) -> u32 {
        entry_of(self.gidx@, self.bits as int, r * self.row_stride + k)
    }

    /// The same entry, read from the feature-major copy.
    pub open spec fn stored_t(&self, r: int, k: int) -> u32 {
        entry_of(self.gidx_t@, self.bits as int, k * self.n_rows + r)
    }

    /// The buffers hold a whole matrix: every row-major entry, and for the
    /// feature-local layouts the same entries feature-major.
    pub open spec fn wf(&self) -> bool {
        &&& 1 <= self.bits <= 32
        &&& self.n_rows * self.row_stride <= u32::MAX
        &&& self.gidx.len() == packed_len(self.n_rows * self.row_stride, self.bits as int)
        &&& self.dense ==> self.compressed
        &&& self.compressed && self.n_rows * self.row_stride > 0 ==> {
            &&& self.gidx_t.len() == packed_len(self.n_rows * self.row_stride, self.bits as int)
            &&& forall|r: int, k: int|
                0 <= r < self.n_rows && 0 <= k < self.row_stride ==> #[trigger] self.stored_t(r, k)
                    == self.stored(r, k)
        }
    }

    pub fn n_features(&self) -> (n: usize)
        requires
            self.cut_ptrs.len() > 0,
        ensures
            n == self.cut_ptrs.len() - 1,
    {
        self.cut_ptrs.len() - 1
    }

    /// Pack `matrix` at the width [`device_bits`] chooses.
    pub fn upload(has_planes: bool, matrix: &EllpackMatrix) -> (ell: Self)
        requires
            matrix.is_full(),
            matrix.gidx.len() <= u32::MAX,
            matrix.row_stride <= u32::MAX,
            matrix.gidx.len() <= usize::MAX - 64,
            matrix.cut_ptrs.len() > 0,
        ensures
            ell.holds(matrix),
            ell.wf(),
            matrix.fits_in(ell.bits as int),
            has_planes ==> forall|w: int| 1 <= w < ell.bits ==> !matrix.fits_in(w),
            !has_planes ==> ell.bits == 32,
    {
        Self::upload_with_bits(matrix, device_bits(has_planes, matrix))
    }

    /// [`upload`](Self::upload) at an explicit width, which must hold every entry
    /// ([`natural_bits`] or wider).
    pub fn upload_with_bits(matrix: &EllpackMatrix, bits: u32) -> (ell: Self)
        requires
            matrix.is_full(),
            matrix.gidx.len() <= u32::MAX,
            matrix.row_stride <= u32::MAX,
            matrix.gidx.len() <= usize::MAX - 64,
            matrix.cut_ptrs.len() > 0,
            1 <= bits <= 32,
            matrix.fits_in(bits as int),
        ensures
            ell.holds(matrix),
            ell.wf(),
            ell.bits == bits,
    {
        let gidx: Vec<u32> = pack_bins(matrix.gidx.as_slice(), bits);
        let transposed: Vec<u32> = if matrix.is_compressed() && matrix.gidx.len() > 0 {
            let columns: Vec<u32> = transpose(matrix);
            proof {
                assert forall|i: int| 0 <= i < columns.len() implies fits(#[trigger] columns[i], bits as int) by {
                    lemma_transposed_cell(matrix, i);
                }
            }
            pack_bins(columns.as_slice(), bits)
        } else {
            vec![0u32]
        };
        let ell = DeviceEllpack {
            gidx,
            gidx_t: transposed,
            cut_ptrs: matrix.cut_ptrs.clone(),
            bits,
            n_rows: matrix.n_rows,
            row_stride: matrix.row_stride as u32,
            base_rowid: matrix.base_rowid,
            null_value: matrix.null_value,
            n_bins: matrix.n_bins(),
            dense: matrix.is_dense(),
            compressed: matrix.is_compressed(),
        };
        proof {
            assert(ell.cut_ptrs@ =~= matrix.cut_ptrs@);
            if matrix.layout == EllpackLayout::Sparse || matrix.gidx.len() == 0 {
                assert(ell.gidx_t@ =~= seq![0u32]);
            }
            lemma_packed_cells(&ell, matrix);
        }
        ell
    }
}

/// Where entry `i` of the feature-major order stands in the row-major one.
proof fn lemma_transposed_cell(matrix: &EllpackMatrix, i: int)
    requires
        matrix.is_full(),
        0 <= i < matrix.gidx.len(),
    ensures
        matrix.n_rows > 0,
        0 <= i % (matrix.n_rows as int) < matrix.n_rows,
        0 <= i / (matrix.n_rows as int) < matrix.row_stride,
        i == (i / (matrix.n_rows as int)) * matrix.n_rows + i % (matrix.n_rows as int),
        0 <= (i % (matrix.n_rows as int)) * matrix.row_stride + i / (matrix.n_rows as int)
            < matrix.gidx.len(),
{
    let n = matrix.n_rows as int;
    let s = matrix.row_stride as int;
    assert(n > 0) by (nonlinear_arith)
        requires
            0 <= i < n * s,
            0 <= n,
            0 <= s,
    ;
    let r = i % n;
    let f = i / n;
    vstd::arithmetic::div_mod::lemma_fundamental_div_mod(i, n);
    assert(n * f == f * n) by (nonlinear_arith);
    assert(0 <= f < s) by (nonlinear_arith)
        requires
            i == f * n + r,
            0 <= r < n,
            0 <= i < n * s,
    ;
    assert(0 <= r * s + f < n * s) by (nonlinear_arith)
        requires
            0 <= r < n,
            0 <= f < s,
    ;
}

/// The feature-major order of the entries of `matrix`.
fn transpose(matrix: &EllpackMatrix) -> (columns: Vec<u32>)
    requires
        matrix.is_full(),
        matrix.gidx.len() > 0,
    ensures
        columns@ == matrix.by_feature(),
{
    let n_rows: usize = matrix.n_rows;
    let stride: usize = matrix.row_stride;
    let mut columns: Vec<u32> = Vec::with_capacity(matrix.gidx.len());
    proof {
        lemma_transposed_cell(matrix, 0);
    }
    let mut i: usize = 0;
    while i < matrix.gidx.len()
        invariant
            matrix.is_full(),
            n_rows == matrix.n_rows,
            stride == matrix.row_stride,
            n_rows > 0,
            i <= matrix.gidx.len(),
            columns.len() == i,
            forall|k: int| 0 <= k < i ==> columns[k] == #[trigger] matrix.by_feature()[k],
        decreases matrix.gidx.len() - i,
    {
        let r: usize = i % n_rows;
        let f: usize = i / n_rows;
        proof {
            lemma_transposed_cell(matrix, i as int);
            assert(r * stride <= r * stride + f);
        }
        columns.push(matrix.gidx[r * stride + f]);
        i += 1;
    }
    assert(columns@ =~= matrix.by_feature());
    columns
}

/// Both packed copies hold the matrix's entries.
pub proof fn lemma_packed_cells(ell: &DeviceEllpack, matrix: &EllpackMatrix)
    requires
        ell.holds(matrix),
        matrix.is_full(),
        1 <= ell.bits <= 32,
        matrix.fits_in(ell.bits as int),
    ensures
        forall|r: int, k: int|
            0 <= r < matrix.n_rows && 0 <= k < matrix.row_stride ==> #[trigger] ell.stored(r, k)
                == matrix.stored(r, k),
        matrix.layout != EllpackLayout::Sparse ==> forall|r: int, k: int|
            0 <= r < matrix.n_rows && 0 <= k < matrix.row_stride ==> #[trigger] ell.stored_t(r, k)
                == matrix.stored(r, k),
{
    let n = matrix.n_rows as int;
    let s = matrix.row_stride as int;
    let bits = ell.bits as int;
    assert forall|r: int, k: int| 0 <= r < n && 0 <= k < s implies #[trigger] ell.stored(r, k)
        == matrix.stored(r, k) by {
        assert(0 <= r * s + k < n * s) by (nonlinear_arith)
            requires
                0 <= r < n,
                0 <= k < s,
        ;
        assert(fits(matrix.gidx[r * s + k], bits));
        lemma_pack_round_trip(ell.gidx@, matrix.gidx@, bits, r * s + k);
    }
    if matrix.layout != EllpackLayout::Sparse {
        assert forall|r: int, k: int| 0 <= r < n && 0 <= k < s implies #[trigger] ell.stored_t(r, k)
            == matrix.stored(r, k) by {
            assert(0 <= k * n + r < n * s) by (nonlinear_arith)
                requires
                    0 <= r < n,
                    0 <= k < s,
            ;
            assert(0 <= r * s + k < n * s) by (nonlinear_arith)
                requires
                    0 <= r < n,
                    0 <= k < s,
            ;
            let i = k * n + r;
            vstd::arithmetic::div_mod::lemma_fundamental_div_mod_converse(i, n, k, r);
            assert(matrix.by_feature()[i] == matrix.stored(r, k));
            assert(fits(matrix.gidx[r * s + k], bits));
            lemma_pack_round_trip(ell.gidx_t@, matrix.by_feature(), bits, i);
        }
    }
}

} // verus!
