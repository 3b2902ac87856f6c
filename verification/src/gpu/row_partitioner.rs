//! Row partitioning.
//!
//! # Layout
//!
//! Row indices live in one index, and each live tree node owns a contiguous segment
//! of it. Splitting a node rewrites its segment: the rows going left come first, then
//! the rows going right, each side in its old order, so the two children are
//! themselves contiguous segments and a whole level can be partitioned in one pass.
//!
//! # Two passes
//!
//! The level's rows are cut into tiles of a fixed number of rows, and every tile of
//! every segment is an item of work:
//!
//! 1. [`count_tile_kernel`] counts the rows of a tile that go left.
//! 2. [`scatter_tile_kernel`] derives the predicate again and writes each row to its
//!    final slot. Where that is needs the left count of the segment's earlier tiles,
//!    which it sums from the first pass's counts.
//!
//! # Two buffers
//!
//! The scatter writes into a second buffer, and rather than copy the result back the
//! partitioner swaps: the buffer just written becomes the front one, and a per-row
//! table remembers which of the two holds each position's current row. A segment is
//! always written whole, so its first row speaks for all of it.

use vstd::prelude::*;

use crate::bits::bit;
use crate::error::Error;
use crate::gpu::ellpack::{load_bin, packed_len, DeviceEllpack};
use crate::gpu::launch::{
    ceil_div, cooperative, div_ceil_u32, lemma_ceil_div, max_of, min_of, scan_block_1d, Hardware,
};
use crate::seqs::{lemma_filter_counts, lemma_filter_empty, lemma_filter_prefix, lemma_filter_push, lemma_filter_rearranges};

verus! {

/// Rows per tile in the cooperative shape.
pub const PART_BLOCK: u32 = 256;

/// Rows per tile in the serial shape, where one unit walks a whole tile.
pub const SERIAL_TILE_ROWS: u32 = 4096;

/// One node's split, as the partitioner needs it.
#[derive(Clone, Debug)]
pub struct SegmentSplit {
    /// The segment being rewritten, as `(begin, len)` in the row index.
    pub begin: u32,
    pub len: u32,
    pub fidx: u32,
    /// Feature-local bin threshold; rows at or below it go left. Ignored by a
    /// categorical split.
    pub cond: i64,
    pub default_left: bool,
    /// Categories that go right, as a bit set over feature-local bins. Empty for a
    /// numeric split.
    pub cat_bits: Vec<u32>,
}

/// The last of the first `n` entries of row `r` whose global bin lies in
/// `begin..end`, in a matrix that stores global bins.
pub open spec fn entry_in_range(ell: &DeviceEllpack, r: int, begin: u32, end: u32, n: int) -> Option<u32>
    decreases n,
{
    if n <= 0 {
        None
    } else {
        let v = ell.stored(r, n - 1);
        if v != ell.null_value && begin <= v < end {
            Some(v)
        } else {
            entry_in_range(ell, r, begin, end, n - 1)
        }
    }
}

/// The feature-local bin of feature `fidx` in row `row`, `None` where the row has no
/// value for it.
pub open spec fn local_bin(ell: &DeviceEllpack, fidx: int, row: u32) -> Option<int> {
    let r = row - ell.base_rowid;
    if ell.compressed {
        let v = ell.stored(r, fidx);
        if !ell.dense && v == ell.null_value {
            None
        } else {
            Some(v as int)
        }
    } else {
        match entry_in_range(ell, r, ell.cut_ptrs[fidx], ell.cut_ptrs[fidx + 1], ell.row_stride as int) {
            Some(v) => Some(v - ell.cut_ptrs[fidx]),
            None => None,
        }
    }
}

impl SegmentSplit {
    /// Which side of the split a row falls on: a row with no value for the feature
    /// follows `default_left`, a numeric split compares the feature-local bin with
    /// `cond`, and a categorical split tests membership of the right-hand set.
    pub open spec fn sends_left(&self, ell: &DeviceEllpack, row: u32) -> bool {
        match local_bin(ell, self.fidx as int, row) {
            None => self.default_left,
            Some(b) => if self.cat_bits.len() > 0 {
                !bit(self.cat_bits[b / 32], b % 32)
            } else {
                b <= self.cond
            },
        }
    }

    /// The rows that go left.
    pub open spec fn left(&self, ell: &DeviceEllpack) -> spec_fn(u32) -> bool {
        |row: u32| self.sends_left(ell, row)
    }

    /// The rows that go right.
    pub open spec fn right(&self, ell: &DeviceEllpack) -> spec_fn(u32) -> bool {
        |row: u32| !self.sends_left(ell, row)
    }

    /// The split names a feature of the matrix, and a bit set as wide as the bins it
    /// is asked about.
    pub open spec fn applies(&self, ell: &DeviceEllpack) -> bool {
        &&& self.fidx + 1 < ell.cut_ptrs.len()
        &&& ell.compressed ==> self.fidx < ell.row_stride
        &&& self.cat_bits.len() > 0 ==> forall|row: u32|
            has_row(ell, row) ==> match #[trigger] local_bin(ell, self.fidx as int, row) {
                Some(b) => b < 32 * self.cat_bits.len(),
                None => true,
            }
    }

    /// The segment's rows within the row index.
    pub open spec fn segment(&self, rows: Seq<u32>) -> Seq<u32> {
        rows.subrange(self.begin as int, self.begin + self.len)
    }

    /// What the segment's rows become: the left-going ones, then the right-going
    /// ones, each in their old order.
    pub open spec fn parted(&self, ell: &DeviceEllpack, rows: Seq<u32>) -> Seq<u32> {
        self.segment(rows).filter(self.left(ell)) + self.segment(rows).filter(self.right(ell))
    }

    /// Position `i` of the row index belongs to the segment.
    pub open spec fn owns(&self, i: int) -> bool {
        self.begin <= i < self.begin + self.len
    }
}

/// Whether a runtime can search the rows of a matrix that stores global bins.
pub fn supports_sparse_layout(hardware: &Hardware) -> (yes: bool)
    ensures
        yes == (hardware.plane_size_max > 1),
{
    cooperative(hardware)
}

/// `row` is a row of the matrix.
pub open spec fn has_row(ell: &DeviceEllpack, row: u32) -> bool {
    ell.base_rowid <= row < ell.base_rowid + ell.n_rows
}

/// Splitting a segment loses no row and adds none.
pub proof fn lemma_parted_rearranges(sp: &SegmentSplit, ell: &DeviceEllpack, rows: Seq<u32>)
    requires
        sp.begin + sp.len <= rows.len(),
    ensures
        sp.parted(ell, rows).to_multiset() == sp.segment(rows).to_multiset(),
        sp.parted(ell, rows).len() == sp.len,
{
    lemma_filter_rearranges(sp.segment(rows), sp.left(ell), sp.right(ell));
    lemma_filter_counts(sp.segment(rows), sp.left(ell), sp.right(ell));
}

/// Which side of a split one row falls on.
fn goes_left(ell: &DeviceEllpack, sp: &SegmentSplit, fbegin: u32, fend: u32, row: u32) -> (left: bool)
    requires
        ell.wf(),
        sp.applies(ell),
        has_row(ell, row),
        fbegin == ell.cut_ptrs[sp.fidx as int],
        fend == ell.cut_ptrs[sp.fidx + 1],
    ensures
        left == sp.sends_left(ell, row),
{
    let r: u32 = row - ell.base_rowid;
    let ghost cells = ell.n_rows * ell.row_stride;
    let found: Option<u32> = if ell.compressed {
        proof {
            assert(ell.n_rows <= cells) by (nonlinear_arith)
                requires
                    1 <= ell.row_stride,
                    0 <= ell.n_rows,
                    cells == ell.n_rows * ell.row_stride,
            ;
        }
        let n_rows: u32 = ell.n_rows as u32;
        proof {
            assert(0 <= sp.fidx * n_rows + r < cells) by (nonlinear_arith)
                requires
                    0 <= sp.fidx < ell.row_stride,
                    0 <= r < ell.n_rows,
                    cells == ell.n_rows * ell.row_stride,
                    n_rows == ell.n_rows,
            ;
            lemma_entry_in_buffer(cells, ell.bits as int, sp.fidx * n_rows + r);
            assert(ell.stored_t(r as int, sp.fidx as int) == ell.stored(r as int, sp.fidx as int));
            assert(0 <= sp.fidx * n_rows) by (nonlinear_arith)
                requires
                    0 <= sp.fidx,
                    0 <= n_rows,
            ;
        }
        let v: u32 = load_bin(ell.gidx_t.as_slice(), sp.fidx * n_rows + r, ell.bits);
        if !ell.dense && v == ell.null_value {
            None
        } else {
            Some(v)
        }
    } else {
        let mut found: Option<u32> = None;
        let mut k: u32 = 0;
        while k < ell.row_stride
            invariant
                k <= ell.row_stride,
                ell.wf(),
                r < ell.n_rows,
                cells == ell.n_rows * ell.row_stride,
                found == entry_in_range(ell, r as int, fbegin, fend, k as int),
            decreases ell.row_stride - k,
        {
            proof {
                assert(0 <= r * ell.row_stride && r * ell.row_stride + k < cells) by (nonlinear_arith)
                    requires
                        0 <= k < ell.row_stride,
                        0 <= r < ell.n_rows,
                        cells == ell.n_rows * ell.row_stride,
                ;
                lemma_entry_in_buffer(cells, ell.bits as int, r * ell.row_stride + k);
            }
            let v: u32 = load_bin(ell.gidx.as_slice(), r * ell.row_stride + k, ell.bits);
            if v != ell.null_value && v >= fbegin && v < fend {
                found = Some(v);
            }
            k += 1;
        }
        match found {
            Some(v) => {
                proof {
                    lemma_entry_range(ell, r as int, fbegin, fend, ell.row_stride as int);
                }
                Some((v - fbegin) as u32)
            },
            None => None,
        }
    };
    match found {
        None => sp.default_left,
        Some(local) => {
            assert(local_bin(ell, sp.fidx as int, row) == Some(local as int));
            if sp.cat_bits.len() > 0 {
                let word: u32 = sp.cat_bits[(local / 32) as usize];
                (word >> (local % 32)) & 1 != 1
            } else {
                (local as i64) <= sp.cond
            }
        },
    }
}

/// An entry found in a range lies in it.
proof fn lemma_entry_range(ell: &DeviceEllpack, r: int, begin: u32, end: u32, n: int)
    ensures
        entry_in_range(ell, r, begin, end, n) matches Some(v) ==> begin <= v < end,
    decreases n,
{
    if n > 0 {
        lemma_entry_range(ell, r, begin, end, n - 1);
    }
}

/// Every entry of a packed buffer can be read from it.
pub proof fn lemma_entry_in_buffer(n: int, bits: int, i: int)
    requires
        0 <= i < n,
        1 <= bits <= 32,
    ensures
        i * bits / 32 + 1 < packed_len(n, bits),
{
    assert(i * bits + 32 < 32 * packed_len(n, bits)) by (nonlinear_arith)
        requires
            0 <= i < n,
            1 <= bits <= 32,
            packed_len(n, bits) == (if bits == 32 {
                n + 1
            } else {
                (n + 31) / 32 * bits + 1
            }),
    ;
}

/// The tiles of a level: every segment cut into runs of `block` rows.
pub struct TileTable {
    /// Which segment each tile belongs to.
    pub seg: Vec<u32>,
    /// Each tile's first row within its segment.
    pub off: Vec<u32>,
    /// The tiles of segment `s` are `seg_begin[s]..seg_begin[s + 1]`.
    pub seg_begin: Vec<u32>,
}

/// How many tiles a segment of `len` rows is cut into; an empty one still has a tile.
pub open spec fn tiles_of(len: int, block: int) -> int {
    max_of(ceil_div(len, block), 1)
}

/// Tiles before segment `s`.
pub open spec fn tiles_before(splits: Seq<SegmentSplit>, block: int, s: int) -> int
    decreases s,
{
    if s <= 0 {
        0
    } else {
        tiles_before(splits, block, s - 1) + tiles_of(splits[s - 1].len as int, block)
    }
}

/// The index of tile `k` of segment `s`.
pub open spec fn tile_id(splits: Seq<SegmentSplit>, block: int, s: int, k: int) -> int {
    tiles_before(splits, block, s) + k
}

impl TileTable {
    /// The table of `splits` cut into tiles of `block` rows.
    pub open spec fn cuts(&self, splits: Seq<SegmentSplit>, block: int) -> bool {
        &&& self.seg_begin.len() == splits.len() + 1
        &&& forall|s: int| 0 <= s <= splits.len() ==> #[trigger] self.seg_begin[s] == tiles_before(splits, block, s)
        &&& self.seg.len() == tiles_before(splits, block, splits.len() as int)
        &&& self.off.len() == self.seg.len()
        &&& forall|s: int, k: int|
            0 <= s < splits.len() && 0 <= k < tiles_of(splits[s].len as int, block) ==> {
                &&& self.seg[#[trigger] tile_id(splits, block, s, k)] == s
                &&& self.off[tile_id(splits, block, s, k)] == k * block
            }
    }
}

proof fn lemma_tiles_before(splits: Seq<SegmentSplit>, block: int, a: int, b: int)
    requires
        0 <= a <= b <= splits.len(),
        block > 0,
    ensures
        0 <= tiles_before(splits, block, a) <= tiles_before(splits, block, b),
        a < b ==> tiles_before(splits, block, a) + tiles_of(splits[a].len as int, block) <= tiles_before(
            splits,
            block,
            b,
        ),
    decreases b,
{
    if a < b {
        lemma_tiles_before(splits, block, a, b - 1);
        lemma_ceil_div(splits[b - 1].len as int, block);
    } else if a > 0 {
        lemma_tiles_before(splits, block, a - 1, b - 1);
        lemma_ceil_div(splits[b - 1].len as int, block);
    }
}

/// Cut every segment into `ceil(len / block)` tiles, so that the top of a tree is as
/// parallel as the bottom.
pub fn tile_table(splits: &[SegmentSplit], block: u32) -> (tiles: TileTable)
    requires
        block > 0,
        splits.len() <= u32::MAX,
        tiles_before(splits@, block as int, splits.len() as int) <= u32::MAX,
    ensures
        tiles.cuts(splits@, block as int),
{
    let mut seg: Vec<u32> = Vec::new();
    let mut off: Vec<u32> = Vec::new();
    let mut seg_begin: Vec<u32> = Vec::with_capacity(splits.len());
    let mut s: usize = 0;
    while s < splits.len()
        invariant
            block > 0,
            splits.len() <= u32::MAX,
            tiles_before(splits@, block as int, splits.len() as int) <= u32::MAX,
            s <= splits.len(),
            seg_begin.len() == s,
            forall|i: int| 0 <= i < s ==> #[trigger] seg_begin[i] == tiles_before(splits@, block as int, i),
            seg.len() == tiles_before(splits@, block as int, s as int),
            off.len() == seg.len(),
            forall|i: int, k: int|
                0 <= i < s && 0 <= k < tiles_of(splits[i].len as int, block as int) ==> {
                    &&& seg[#[trigger] tile_id(splits@, block as int, i, k)] == i
                    &&& off[tile_id(splits@, block as int, i, k)] == k * block
                },
        decreases splits.len() - s,
    {
        let ghost first = tiles_before(splits@, block as int, s as int);
        proof {
            lemma_tiles_before(splits@, block as int, s as int, splits.len() as int);
            lemma_tiles_before(splits@, block as int, s as int, s + 1);
            lemma_ceil_div(splits[s as int].len as int, block as int);
            assert forall|i: int| 0 <= i < s implies 0 <= #[trigger] tiles_before(splits@, block as int, i)
                && tiles_before(splits@, block as int, i) + tiles_of(splits[i].len as int, block as int) <= first by {
                lemma_tiles_before(splits@, block as int, i, s as int);
            }
        }
        seg_begin.push(seg.len() as u32);
        let len: u32 = splits[s].len;
        let whole: u32 = div_ceil_u32(len, block);
        let n_tiles: u32 = if whole == 0 {
            1
        } else {
            whole
        };
        let mut k: u32 = 0;
        while k < n_tiles
            invariant
                block > 0,
                s < splits.len() <= u32::MAX,
                k <= n_tiles,
                len == splits[s as int].len,
                n_tiles == tiles_of(len as int, block as int),
                first == tiles_before(splits@, block as int, s as int),
                0 <= first,
                seg.len() == first + k,
                off.len() == seg.len(),
                forall|i: int, k2: int|
                    0 <= i < s && 0 <= k2 < tiles_of(splits[i].len as int, block as int) ==> {
                        &&& seg[#[trigger] tile_id(splits@, block as int, i, k2)] == i
                        &&& off[tile_id(splits@, block as int, i, k2)] == k2 * block
                    },
                forall|i: int| 0 <= i < s ==> 0 <= #[trigger] tiles_before(splits@, block as int, i)
                    && tiles_before(splits@, block as int, i) + tiles_of(
                    splits[i].len as int,
                    block as int,
                ) <= first,
                forall|k2: int|
                    0 <= k2 < k ==> {
                        &&& seg[#[trigger] tile_id(splits@, block as int, s as int, k2)] == s
                        &&& off[tile_id(splits@, block as int, s as int, k2)] == k2 * block
                    },
            decreases n_tiles - k,
        {
            proof {
                lemma_ceil_div(len as int, block as int);
                if k > 0 {
                    assert(k * block < len);
                } else {
                    assert(k * block == 0) by (nonlinear_arith)
                        requires
                            k == 0,
                    ;
                }
            }
            seg.push(s as u32);
            off.push(k * block);
            k += 1;
        }
        proof {
            assert forall|i: int, k2: int|
                0 <= i < s + 1 && 0 <= k2 < tiles_of(splits[i].len as int, block as int) implies {
                &&& seg[#[trigger] tile_id(splits@, block as int, i, k2)] == i
                &&& off[tile_id(splits@, block as int, i, k2)] == k2 * block
            } by {}
        }
        s += 1;
    }
    seg_begin.push(seg.len() as u32);
    TileTable { seg, off, seg_begin }
}

/// Where a tile that starts at `off` in a segment of `len` rows ends.
pub open spec fn tile_end(off: int, len: int, block: int) -> int {
    min_of(off + block, len)
}

impl SegmentSplit {
    /// Left-going rows among the first `m` of the segment.
    pub open spec fn left_before(&self, ell: &DeviceEllpack, rows: Seq<u32>, m: int) -> int {
        self.segment(rows).subrange(0, m).filter(self.left(ell)).len() as int
    }

    /// The segment's rows from `a` up to `b` that go left.
    pub open spec fn left_rows(&self, ell: &DeviceEllpack, rows: Seq<u32>, a: int, b: int) -> Seq<u32> {
        self.segment(rows).subrange(a, b).filter(self.left(ell))
    }

    /// The segment's rows from `a` up to `b` that go right.
    pub open spec fn right_rows(&self, ell: &DeviceEllpack, rows: Seq<u32>, a: int, b: int) -> Seq<u32> {
        self.segment(rows).subrange(a, b).filter(self.right(ell))
    }

    /// The segment lies in the row index and holds rows of the matrix.
    pub open spec fn lies_in(&self, ell: &DeviceEllpack, rows: Seq<u32>) -> bool {
        &&& self.begin + self.len <= rows.len()
        &&& self.begin + self.len <= u32::MAX
        &&& forall|i: int| self.owns(i) ==> has_row(ell, #[trigger] rows[i])
    }
}

/// Counting on from `a` to `b`.
proof fn lemma_left_between(sp: &SegmentSplit, ell: &DeviceEllpack, rows: Seq<u32>, a: int, b: int)
    requires
        sp.begin + sp.len <= rows.len(),
        0 <= a <= b <= sp.len,
    ensures
        sp.left_before(ell, rows, b) == sp.left_before(ell, rows, a) + sp.left_rows(ell, rows, a, b).len(),
        sp.left_rows(ell, rows, a, b).len() + sp.right_rows(ell, rows, a, b).len() == b - a,
        0 <= sp.left_before(ell, rows, a) <= a,
{
    let seg = sp.segment(rows);
    lemma_filter_prefix(seg, a, b, sp.left(ell));
    lemma_filter_counts(seg.subrange(a, b), sp.left(ell), sp.right(ell));
    lemma_filter_counts(seg.subrange(0, a), sp.left(ell), sp.right(ell));
}

/// One row more in a run of a segment.
proof fn lemma_run_push(sp: &SegmentSplit, ell: &DeviceEllpack, rows: Seq<u32>, a: int, b: int)
    requires
        sp.begin + sp.len <= rows.len(),
        0 <= a <= b < sp.len,
    ensures
        sp.left_rows(ell, rows, a, b + 1) == (if sp.sends_left(ell, rows[sp.begin + b]) {
            sp.left_rows(ell, rows, a, b).push(rows[sp.begin + b])
        } else {
            sp.left_rows(ell, rows, a, b)
        }),
        sp.right_rows(ell, rows, a, b + 1) == (if sp.sends_left(ell, rows[sp.begin + b]) {
            sp.right_rows(ell, rows, a, b)
        } else {
            sp.right_rows(ell, rows, a, b).push(rows[sp.begin + b])
        }),
{
    let seg = sp.segment(rows);
    assert(seg.subrange(a, b + 1) =~= seg.subrange(a, b).push(rows[sp.begin + b]));
    lemma_filter_push(seg.subrange(a, b), rows[sp.begin + b], sp.left(ell));
    lemma_filter_push(seg.subrange(a, b), rows[sp.begin + b], sp.right(ell));
}

/// Count the rows of one tile that go left.
///
/// `off` is the tile's first row within the segment of `sp`.
fn count_tile_kernel(src: &Vec<u32>, ell: &DeviceEllpack, sp: &SegmentSplit, off: u32, block: u32) -> (count: u32)
    requires
        ell.wf(),
        sp.applies(ell),
        sp.lies_in(ell, src@),
        off <= sp.len,
    ensures
        count == sp.left_rows(ell, src@, off as int, tile_end(off as int, sp.len as int, block as int)).len(),
{
    let fbegin: u32 = ell.cut_ptrs[sp.fidx as usize];
    let fend: u32 = ell.cut_ptrs[sp.fidx as usize + 1];
    let n: u32 = if sp.len - off < block {
        sp.len - off
    } else {
        block
    };
    let mut count: u32 = 0;
    let mut k: u32 = 0;
    proof {
        assert(sp.segment(src@).subrange(off as int, off as int) =~= Seq::<u32>::empty());
        lemma_filter_empty(sp.left(ell));
    }
    while k < n
        invariant
            ell.wf(),
            sp.applies(ell),
            sp.lies_in(ell, src@),
            fbegin == ell.cut_ptrs[sp.fidx as int],
            fend == ell.cut_ptrs[sp.fidx + 1],
            off <= sp.len,
            n <= sp.len - off,
            k <= n,
            count <= k,
            count == sp.left_rows(ell, src@, off as int, off + k).len(),
        decreases n - k,
    {
        let row: u32 = src[(sp.begin + off + k) as usize];
        assert(sp.owns(sp.begin + off + k));
        let left: bool = goes_left(ell, sp, fbegin, fend, row);
        proof {
            lemma_run_push(sp, ell, src@, off as int, off + k);
        }
        if left {
            count += 1;
        }
        k += 1;
    }
    count
}

/// The slot a row lands in.
///
/// Left rows land at `begin + base + rank`, right rows after all the left ones, which
/// keeps both sides in their old order. `rank` is the row's rank among the
/// left-going rows of its tile; `off - base - rank` counts the rows before it that went
/// right, in this tile and the tiles before.
fn scatter_slot(left: bool, begin: u32, base: u32, seg_left: u32, off: u32, rank: u32) -> (slot: u32)
    requires
        base + rank <= off,
        left ==> begin + base + rank <= u32::MAX,
        !left ==> begin + seg_left + (off - base - rank) <= u32::MAX,
    ensures
        left ==> slot == begin + base + rank,
        !left ==> slot == begin + seg_left + (off - base - rank),
{
    if left {
        begin + base + rank
    } else {
        begin + seg_left + (off - base - rank)
    }
}

/// The counts of a segment's tiles.
pub open spec fn counts_tiles(
    tile_left: Seq<u32>,
    first: int,
    sp: &SegmentSplit,
    ell: &DeviceEllpack,
    rows: Seq<u32>,
    block: int,
) -> bool {
    forall|t: int|
        first <= t < first + tiles_of(sp.len as int, block) ==> #[trigger] tile_left[t] == sp.left_rows(
            ell,
            rows,
            (t - first) * block,
            tile_end((t - first) * block, sp.len as int, block),
        ).len()
}

/// Where the tiles of a segment start.
proof fn lemma_tile_offset(len: int, block: int, k: int)
    requires
        0 <= len,
        0 < block,
        0 <= k < tiles_of(len, block),
    ensures
        0 <= k * block <= len,
        k + 1 < tiles_of(len, block) ==> (k + 1) * block == k * block + block && k * block + block <= len,
        k + 1 == tiles_of(len, block) ==> tile_end(k * block, len, block) == len,
{
    lemma_ceil_div(len, block);
    assert((k + 1) * block == k * block + block) by (nonlinear_arith);
    assert(0 <= k * block) by (nonlinear_arith)
        requires
            0 <= k,
            0 < block,
    ;
    if k > 0 || len > 0 {
        assert(k * block < len);
    } else {
        assert(k * block == 0) by (nonlinear_arith)
            requires
                k == 0,
        ;
    }
    if k + 1 < tiles_of(len, block) {
        assert((k + 1) * block < len);
    } else if ceil_div(len, block) == 0 {
        assert(0 * block == 0) by (nonlinear_arith);
    }
}

/// Sum the counts of a segment's tiles: those before `tile`, and all of them.
fn tile_base(
    tile_left: &Vec<u32>,
    first: u32,
    end: u32,
    tile: u32,
    Ghost(sp): Ghost<&SegmentSplit>,
    Ghost(ell): Ghost<&DeviceEllpack>,
    Ghost(rows): Ghost<Seq<u32>>,
    Ghost(block): Ghost<int>,
) -> (sums: (u32, u32))
    requires
        block > 0,
        sp.begin + sp.len <= rows.len(),
        end == first + tiles_of(sp.len as int, block),
        first <= tile < end <= tile_left.len(),
        counts_tiles(tile_left@, first as int, sp, ell, rows, block),
    ensures
        sums.0 == sp.left_before(ell, rows, (tile - first) * block),
        sums.1 == sp.left_before(ell, rows, sp.len as int),
{
    let mut base: u32 = 0;
    let mut total: u32 = 0;
    let mut k: u32 = first;
    proof {
        assert(sp.segment(rows).subrange(0, 0) =~= Seq::<u32>::empty());
        lemma_filter_empty(sp.left(ell));
        assert(0 * block == 0) by (nonlinear_arith);
    }
    while k < end
        invariant
            block > 0,
            sp.begin + sp.len <= rows.len(),
            end == first + tiles_of(sp.len as int, block),
            first <= tile < end <= tile_left.len(),
            counts_tiles(tile_left@, first as int, sp, ell, rows, block),
            first <= k <= end,
            k < end ==> total == sp.left_before(ell, rows, (k - first) * block),
            k == end ==> total == sp.left_before(ell, rows, sp.len as int),
            k <= tile ==> base == total,
            k > tile ==> base == sp.left_before(ell, rows, (tile - first) * block),
        decreases end - k,
    {
        let count: u32 = tile_left[k as usize];
        proof {
            let j = k - first;
            lemma_tile_offset(sp.len as int, block, j);
            let a = j * block;
            let b = tile_end(a, sp.len as int, block);
            lemma_left_between(sp, ell, rows, a, b);
            lemma_left_between(sp, ell, rows, b, b);
            assert(tile_left[k as int] == sp.left_rows(ell, rows, (k - first) * block, b).len());
        }
        if k < tile {
            base += count;
        }
        total += count;
        k += 1;
    }
    (base, total)
}

/// Write every row of one tile to its final slot; see [`scatter_slot`] for where that
/// is. Hands back the segment's left count.
///
/// `tile_left` is what [`count_tile_kernel`] gave for every tile, and the segment's
/// tiles are `first..end` of it.
fn scatter_tile_kernel(
    src: &Vec<u32>,
    dst: &mut Vec<u32>,
    ell: &DeviceEllpack,
    sp: &SegmentSplit,
    tile_left: &Vec<u32>,
    first: u32,
    end: u32,
    tile: u32,
    off: u32,
    block: u32,
) -> (n_left: u32)
    requires
        ell.wf(),
        sp.applies(ell),
        sp.lies_in(ell, src@),
        old(dst).len() == src.len(),
        block > 0,
        end == first + tiles_of(sp.len as int, block as int),
        first <= tile < end <= tile_left.len(),
        off == (tile - first) * block,
        counts_tiles(tile_left@, first as int, sp, ell, src@, block as int),
    ensures
        n_left == sp.left_before(ell, src@, sp.len as int),
        final(dst).len() == old(dst).len(),
        ({
            let a = off as int;
            let b = tile_end(a, sp.len as int, block as int);
            let la = sp.begin + sp.left_before(ell, src@, a);
            let ra = sp.begin + n_left + a - sp.left_before(ell, src@, a);
            let lefts = sp.left_rows(ell, src@, a, b);
            let rights = sp.right_rows(ell, src@, a, b);
            &&& final(dst)@.subrange(la, la + lefts.len()) == lefts
            &&& final(dst)@.subrange(ra, ra + rights.len()) == rights
            &&& forall|i: int|
                0 <= i < old(dst).len() && !(la <= i < la + lefts.len()) && !(ra <= i < ra + rights.len())
                    ==> #[trigger] final(dst)[i] == old(dst)[i]
        }),
{
    let fbegin: u32 = ell.cut_ptrs[sp.fidx as usize];
    let fend: u32 = ell.cut_ptrs[sp.fidx as usize + 1];
    let (base, n_left) = tile_base(
        tile_left,
        first,
        end,
        tile,
        Ghost(sp),
        Ghost(ell),
        Ghost(src@),
        Ghost(block as int),
    );
    proof {
        lemma_tile_offset(sp.len as int, block as int, tile - first);
        lemma_left_between(sp, ell, src@, off as int, sp.len as int);
        assert(sp.segment(src@).subrange(off as int, off as int) =~= Seq::<u32>::empty());
        lemma_filter_empty(sp.left(ell));
        lemma_filter_empty(sp.right(ell));
    }
    let n: u32 = if sp.len - off < block {
        sp.len - off
    } else {
        block
    };
    let ghost before = dst@;
    let ghost la = sp.begin + base;
    let ghost ra = sp.begin + n_left + off - base;
    let mut rank: u32 = 0;
    let mut k: u32 = 0;
    while k < n
        invariant
            ell.wf(),
            sp.applies(ell),
            sp.lies_in(ell, src@),
            fbegin == ell.cut_ptrs[sp.fidx as int],
            fend == ell.cut_ptrs[sp.fidx + 1],
            off <= sp.len,
            n <= sp.len - off,
            k <= n,
            base == sp.left_before(ell, src@, off as int),
            n_left == sp.left_before(ell, src@, sp.len as int),
            la == sp.begin + base,
            ra == sp.begin + n_left + off - base,
            before.len() == src.len(),
            dst.len() == src.len(),
            rank == sp.left_rows(ell, src@, off as int, off + k).len(),
            rank <= k,
            forall|i: int|
                0 <= i < rank ==> dst[la + i] == #[trigger] sp.left_rows(ell, src@, off as int, off + k)[i],
            forall|i: int|
                0 <= i < k - rank ==> dst[ra + i] == #[trigger] sp.right_rows(
                    ell,
                    src@,
                    off as int,
                    off + k,
                )[i],
            forall|i: int|
                0 <= i < before.len() && !(la <= i < la + rank) && !(ra <= i < ra + k - rank)
                    ==> #[trigger] dst[i] == before[i],
        decreases n - k,
    {
        let at: u32 = off + k;
        let row: u32 = src[(sp.begin + at) as usize];
        assert(sp.owns(sp.begin + at));
        let left: bool = goes_left(ell, sp, fbegin, fend, row);
        proof {
            lemma_run_push(sp, ell, src@, off as int, at as int);
            lemma_left_between(sp, ell, src@, off as int, at as int);
            lemma_left_between(sp, ell, src@, off as int, at + 1);
            lemma_left_between(sp, ell, src@, at + 1, sp.len as int);
            lemma_left_between(sp, ell, src@, 0, sp.len as int);
        }
        let slot: u32 = scatter_slot(left, sp.begin, base, n_left, at, rank);
        dst[slot as usize] = row;
        if left {
            rank += 1;
        }
        k += 1;
    }
    proof {
        let lefts = sp.left_rows(ell, src@, off as int, off + n);
        let rights = sp.right_rows(ell, src@, off as int, off + n);
        lemma_left_between(sp, ell, src@, off as int, off + n);
        lemma_left_between(sp, ell, src@, off + n, sp.len as int);
        assert(dst@.subrange(la, la + lefts.len()) =~= lefts);
        assert(dst@.subrange(ra, ra + rights.len()) =~= rights);
    }
    n_left
}

/// Rows in the first `n` segments together.
pub open spec fn rows_in(splits: Seq<SegmentSplit>, n: int) -> int
    decreases n,
{
    if n <= 0 {
        0
    } else {
        rows_in(splits, n - 1) + splits[n - 1].len
    }
}

proof fn lemma_tiles_bound(splits: Seq<SegmentSplit>, block: int, n: int)
    requires
        block > 0,
        0 <= n <= splits.len(),
    ensures
        0 <= tiles_before(splits, block, n) <= n + rows_in(splits, n),
        0 <= rows_in(splits, n),
    decreases n,
{
    if n > 0 {
        lemma_tiles_bound(splits, block, n - 1);
        lemma_ceil_div(splits[n - 1].len as int, block);
    }
}

/// No two segments share a position.
pub open spec fn disjoint(splits: Seq<SegmentSplit>) -> bool {
    forall|a: int, b: int, i: int|
        0 <= a < b < splits.len() ==> !(#[trigger] splits[a].owns(i) && #[trigger] splits[b].owns(i))
}

/// The splits can be applied to the row index together.
pub open spec fn applicable(ell: &DeviceEllpack, splits: Seq<SegmentSplit>, rows: Seq<u32>) -> bool {
    &&& ell.wf()
    &&& disjoint(splits)
    &&& splits.len() + rows_in(splits, splits.len() as int) <= u32::MAX
    &&& forall|s: int|
        0 <= s < splits.len() ==> (#[trigger] splits[s]).applies(ell) && splits[s].lies_in(ell, rows)
}

/// No segment among the first `n` has position `i`.
pub open spec fn unowned(splits: Seq<SegmentSplit>, n: int, i: int) -> bool {
    forall|s: int| 0 <= s < n ==> !#[trigger] splits[s].owns(i)
}

/// Part one segment, tile after tile, from the counts of its tiles.
fn scatter_segment(
    src: &Vec<u32>,
    dst: &mut Vec<u32>,
    ell: &DeviceEllpack,
    sp: &SegmentSplit,
    tiles: &TileTable,
    tile_left: &Vec<u32>,
    first: u32,
    end: u32,
    block: u32,
) -> (n_left: u32)
    requires
        ell.wf(),
        sp.applies(ell),
        sp.lies_in(ell, src@),
        old(dst).len() == src.len(),
        block > 0,
        end == first + tiles_of(sp.len as int, block as int),
        end <= tile_left.len(),
        tiles.off.len() == tile_left.len(),
        forall|t: int| first <= t < end ==> #[trigger] tiles.off[t] == (t - first) * block,
        counts_tiles(tile_left@, first as int, sp, ell, src@, block as int),
    ensures
        n_left == sp.left_before(ell, src@, sp.len as int),
        final(dst).len() == old(dst).len(),
        sp.segment(final(dst)@) == sp.parted(ell, src@),
        forall|i: int| 0 <= i < old(dst).len() && !sp.owns(i) ==> #[trigger] final(dst)[i] == old(dst)[i],
{
    let ghost before = dst@;
    let ghost total = sp.left_before(ell, src@, sp.len as int);
    let mut n_left: u32 = 0;
    let mut t: u32 = first;
    let ghost mut m: int = 0;
    proof {
        let seg = sp.segment(src@);
        assert(seg.subrange(0, 0) =~= Seq::<u32>::empty());
        lemma_filter_empty(sp.left(ell));
        lemma_filter_empty(sp.right(ell));
        lemma_left_between(sp, ell, src@, 0, sp.len as int);
        assert(0 * block == 0) by (nonlinear_arith);
        lemma_ceil_div(sp.len as int, block as int);
        assert(dst@.subrange(sp.begin as int, sp.begin as int) =~= sp.left_rows(ell, src@, 0, 0));
        assert(dst@.subrange(sp.begin + total, sp.begin + total) =~= sp.right_rows(ell, src@, 0, 0));
    }
    while t < end
        invariant
            ell.wf(),
            sp.applies(ell),
            sp.lies_in(ell, src@),
            before.len() == src.len(),
            dst.len() == src.len(),
            block > 0,
            end == first + tiles_of(sp.len as int, block as int),
            end <= tile_left.len(),
            tiles.off.len() == tile_left.len(),
            forall|t2: int| first <= t2 < end ==> #[trigger] tiles.off[t2] == (t2 - first) * block,
            counts_tiles(tile_left@, first as int, sp, ell, src@, block as int),
            total == sp.left_before(ell, src@, sp.len as int),
            first <= t <= end,
            t > first ==> n_left == total,
            t < end ==> m == (t - first) * block,
            t == end ==> m == sp.len,
            0 <= m <= sp.len,
            dst@.subrange(sp.begin as int, sp.begin + sp.left_before(ell, src@, m)) == sp.left_rows(
                ell,
                src@,
                0,
                m,
            ),
            dst@.subrange(sp.begin + total, sp.begin + total + m - sp.left_before(ell, src@, m))
                == sp.right_rows(ell, src@, 0, m),
            forall|i: int| 0 <= i < before.len() && !sp.owns(i) ==> #[trigger] dst[i] == before[i],
        decreases end - t,
    {
        let ghost a = m;
        let ghost b = tile_end(a, sp.len as int, block as int);
        let ghost was = dst@;
        proof {
            lemma_tile_offset(sp.len as int, block as int, t - first);
            lemma_left_between(sp, ell, src@, a, b);
            lemma_left_between(sp, ell, src@, 0, a);
            lemma_left_between(sp, ell, src@, 0, b);
            lemma_left_between(sp, ell, src@, b, sp.len as int);
            lemma_left_between(sp, ell, src@, 0, sp.len as int);
            lemma_filter_prefix(sp.segment(src@), a, b, sp.left(ell));
            lemma_filter_prefix(sp.segment(src@), a, b, sp.right(ell));
        }
        n_left = scatter_tile_kernel(
            src,
            dst,
            ell,
            sp,
            tile_left,
            first,
            end,
            t,
            tiles.off[t as usize],
            block,
        );
        proof {
            let la = sp.begin + sp.left_before(ell, src@, a);
            let lb = sp.begin + sp.left_before(ell, src@, b);
            let ra = sp.begin + total + a - sp.left_before(ell, src@, a);
            let rb = sp.begin + total + b - sp.left_before(ell, src@, b);
            assert(dst@.subrange(sp.begin as int, la) =~= was.subrange(sp.begin as int, la));
            assert(dst@.subrange(sp.begin as int, lb) =~= dst@.subrange(sp.begin as int, la) + dst@.subrange(
                la,
                lb,
            ));
            assert(dst@.subrange(sp.begin + total, ra) =~= was.subrange(sp.begin + total, ra));
            assert(dst@.subrange(sp.begin + total, rb) =~= dst@.subrange(sp.begin + total, ra)
                + dst@.subrange(ra, rb));
            m = b;
        }
        t += 1;
    }
    proof {
        let seg = sp.segment(src@);
        assert(seg.subrange(0, sp.len as int) =~= seg);
        lemma_left_between(sp, ell, src@, 0, sp.len as int);
        assert(sp.segment(dst@) =~= dst@.subrange(sp.begin as int, sp.begin + total) + dst@.subrange(
            sp.begin + total,
            sp.begin + sp.len,
        ));
    }
    n_left
}

/// The left-going rows of every tile of every segment, counted.
fn count_segments(src: &Vec<u32>, ell: &DeviceEllpack, splits: &[SegmentSplit], tiles: &TileTable, block: u32) -> (tile_left: Vec<
    u32,
>)
    requires
        applicable(ell, splits@, src@),
        block > 0,
        tiles.cuts(splits@, block as int),
    ensures
        tile_left.len() == tiles.off.len(),
        forall|j: int|
            0 <= j < splits.len() ==> #[trigger] counts_tiles(
                tile_left@,
                tiles_before(splits@, block as int, j),
                &splits[j],
                ell,
                src@,
                block as int,
            ),
{
    let mut tile_left: Vec<u32> = Vec::with_capacity(tiles.seg.len());
    let mut s: usize = 0;
    while s < splits.len()
        invariant
            applicable(ell, splits@, src@),
            block > 0,
            tiles.cuts(splits@, block as int),
            s <= splits.len(),
            tile_left.len() == tiles_before(splits@, block as int, s as int),
            forall|j: int|
                0 <= j < s ==> #[trigger] counts_tiles(
                    tile_left@,
                    tiles_before(splits@, block as int, j),
                    &splits[j],
                    ell,
                    src@,
                    block as int,
                ),
        decreases splits.len() - s,
    {
        let ghost first = tiles_before(splits@, block as int, s as int);
        let ghost done = tile_left@;
        proof {
            lemma_tiles_before(splits@, block as int, s as int, splits.len() as int);
        }
        let end: u32 = tiles.seg_begin[s + 1];
        let mut t: u32 = tiles.seg_begin[s];
        assert(splits[s as int].applies(ell));
        while t < end
            invariant
                ell.wf(),
                s < splits.len(),
                splits[s as int].applies(ell),
                splits[s as int].lies_in(ell, src@),
                block > 0,
                tiles.cuts(splits@, block as int),
                first == tiles_before(splits@, block as int, s as int),
                end == first + tiles_of(splits[s as int].len as int, block as int),
                end <= tiles.off.len(),
                done.len() == first,
                first <= t <= end,
                tile_left.len() == t,
                forall|i: int| 0 <= i < done.len() ==> tile_left[i] == #[trigger] done[i],
                forall|k: int|
                    first <= k < t ==> #[trigger] tile_left[k] == splits[s as int].left_rows(
                        ell,
                        src@,
                        (k - first) * block,
                        tile_end((k - first) * block, splits[s as int].len as int, block as int),
                    ).len(),
            decreases end - t,
        {
            proof {
                assert(tiles.off[tile_id(splits@, block as int, s as int, t - first)] == (t - first) * block);
                lemma_tile_offset(splits[s as int].len as int, block as int, t - first);
            }
            let count: u32 = count_tile_kernel(src, ell, &splits[s], tiles.off[t as usize], block);
            tile_left.push(count);
            t += 1;
        }
        proof {
            assert forall|j: int| 0 <= j < s + 1 implies #[trigger] counts_tiles(
                tile_left@,
                tiles_before(splits@, block as int, j),
                &splits[j],
                ell,
                src@,
                block as int,
            ) by {
                if j < s {
                    lemma_tiles_before(splits@, block as int, j, s as int);
                    assert(counts_tiles(
                        done,
                        tiles_before(splits@, block as int, j),
                        &splits[j],
                        ell,
                        src@,
                        block as int,
                    ));
                    let f = tiles_before(splits@, block as int, j);
                    assert forall|t: int|
                        f <= t < f + tiles_of(splits[j].len as int, block as int) implies #[trigger] tile_left[t]
                        == splits[j].left_rows(
                        ell,
                        src@,
                        (t - f) * block,
                        tile_end((t - f) * block, splits[j].len as int, block as int),
                    ).len() by {
                        assert(tile_left[t] == done[t]);
                    }
                }
            }
        }
        s += 1;
    }
    tile_left
}

/// The first `n` segments are parted, and their left-going rows counted; what no segment of
/// them owns is as it was.
spec fn first_parted(
    ell: &DeviceEllpack,
    splits: Seq<SegmentSplit>,
    src: Seq<u32>,
    before: Seq<u32>,
    dst: Seq<u32>,
    seg_left: Seq<u32>,
    n: int,
) -> bool {
    &&& seg_left.len() == n
    &&& dst.len() == before.len()
    &&& forall|j: int| 0 <= j < n ==> segment_parted(ell, #[trigger] splits[j], src, dst, seg_left[j])
    &&& forall|i: int| 0 <= i < before.len() && unowned(splits, n, i) ==> #[trigger] dst[i] == before[i]
}

/// One segment is parted, and its left-going rows are so many.
spec fn segment_parted(ell: &DeviceEllpack, sp: SegmentSplit, src: Seq<u32>, dst: Seq<u32>, n_left: u32) -> bool {
    &&& n_left == sp.left_before(ell, src, sp.len as int)
    &&& sp.segment(dst) == sp.parted(ell, src)
}

/// A segment that another one's parting does not touch stays as it was.
proof fn lemma_segment_kept(a: SegmentSplit, b: SegmentSplit, was: Seq<u32>, now: Seq<u32>)
    requires
        was.len() == now.len(),
        a.begin + a.len <= was.len(),
        forall|i: int| !(#[trigger] a.owns(i) && b.owns(i)),
        forall|i: int| 0 <= i < was.len() && !b.owns(i) ==> #[trigger] now[i] == was[i],
    ensures
        a.segment(now) == a.segment(was),
{
    assert forall|k: int| 0 <= k < a.len implies a.segment(now)[k] == a.segment(was)[k] by {
        assert(a.owns(a.begin + k));
        assert(now[a.begin + k] == was[a.begin + k]);
    }
    assert(a.segment(now) =~= a.segment(was));
}

/// Parting one segment more.
proof fn lemma_one_more_parted(
    ell: &DeviceEllpack,
    splits: Seq<SegmentSplit>,
    src: Seq<u32>,
    before: Seq<u32>,
    was: Seq<u32>,
    now: Seq<u32>,
    seg_left: Seq<u32>,
    n_left: u32,
    n: int,
)
    requires
        applicable(ell, splits, src),
        0 <= n < splits.len(),
        before.len() == src.len(),
        first_parted(ell, splits, src, before, was, seg_left, n),
        now.len() == was.len(),
        segment_parted(ell, splits[n], src, now, n_left),
        forall|i: int| 0 <= i < was.len() && !splits[n].owns(i) ==> #[trigger] now[i] == was[i],
    ensures
        first_parted(ell, splits, src, before, now, seg_left.push(n_left), n + 1),
{
    let counted = seg_left.push(n_left);
    assert forall|j: int| 0 <= j < n + 1 implies segment_parted(ell, #[trigger] splits[j], src, now, counted[j]) by {
        if j < n {
            assert(segment_parted(ell, splits[j], src, was, seg_left[j]));
            assert(splits[j].applies(ell) && splits[j].lies_in(ell, src));
            assert forall|i: int| !(#[trigger] splits[j].owns(i) && splits[n].owns(i)) by {}
            lemma_segment_kept(splits[j], splits[n], was, now);
        }
    }
    assert forall|i: int| 0 <= i < before.len() && unowned(splits, n + 1, i) implies #[trigger] now[i] == before[i] by {
        assert(!splits[n].owns(i));
        assert(unowned(splits, n, i));
        assert(was[i] == before[i]);
    }
}

/// Part every segment of `splits`, reading the rows from `src` and writing them to
/// `dst`: count every tile, then scatter every tile. Hands back each segment's left
/// count.
fn part_segments(
    src: &Vec<u32>,
    dst: &mut Vec<u32>,
    ell: &DeviceEllpack,
    splits: &[SegmentSplit],
    block: u32,
) -> (seg_left: Vec<u32>)
    requires
        applicable(ell, splits@, src@),
        old(dst).len() == src.len(),
        block > 0,
    ensures
        seg_left.len() == splits.len(),
        final(dst).len() == old(dst).len(),
        forall|s: int|
            0 <= s < splits.len() ==> {
                &&& #[trigger] seg_left[s] == splits[s].left_before(ell, src@, splits[s].len as int)
                &&& splits[s].segment(final(dst)@) == splits[s].parted(ell, src@)
            },
        forall|i: int|
            0 <= i < old(dst).len() && unowned(splits@, splits.len() as int, i) ==> #[trigger] final(dst)[i] == old(dst)[i],
{
    proof {
        lemma_tiles_bound(splits@, block as int, splits.len() as int);
    }
    let tiles: TileTable = tile_table(splits, block);
    let tile_left: Vec<u32> = count_segments(src, ell, splits, &tiles, block);
    let ghost before = dst@;
    let mut seg_left: Vec<u32> = Vec::with_capacity(splits.len());
    let mut s: usize = 0;
    while s < splits.len()
        invariant
            applicable(ell, splits@, src@),
            block > 0,
            tiles.cuts(splits@, block as int),
            s <= splits.len(),
            tile_left.len() == tiles.off.len(),
            forall|j: int|
                0 <= j < splits.len() ==> #[trigger] counts_tiles(
                    tile_left@,
                    tiles_before(splits@, block as int, j),
                    &splits[j],
                    ell,
                    src@,
                    block as int,
                ),
            before.len() == src.len(),
            first_parted(ell, splits@, src@, before, dst@, seg_left@, s as int),
        decreases splits.len() - s,
    {
        let ghost was = dst@;
        let ghost counted = seg_left@;
        let first: u32 = tiles.seg_begin[s];
        let end: u32 = tiles.seg_begin[s + 1];
        proof {
            assert(splits[s as int].applies(ell));
            lemma_tiles_before(splits@, block as int, s as int, splits.len() as int);
            assert(counts_tiles(
                tile_left@,
                tiles_before(splits@, block as int, s as int),
                &splits[s as int],
                ell,
                src@,
                block as int,
            ));
            assert forall|t: int| first <= t < end implies #[trigger] tiles.off[t] == (t - first) * block by {
                assert(tiles.off[tile_id(splits@, block as int, s as int, t - first)] == (t - first) * block);
            }
        }
        let n_left: u32 = scatter_segment(src, dst, ell, &splits[s], &tiles, &tile_left, first, end, block);
        seg_left.push(n_left);
        proof {
            lemma_one_more_parted(ell, splits@, src@, before, was, dst@, counted, n_left, s as int);
        }
        s += 1;
    }
    proof {
        assert forall|s: int| 0 <= s < splits.len() implies {
            &&& #[trigger] seg_left[s] == splits[s].left_before(ell, src@, splits[s].len as int)
            &&& splits[s].segment(dst@) == splits[s].parted(ell, src@)
        } by {
            assert(segment_parted(ell, splits[s], src@, dst@, seg_left[s]));
        }
    }
    seg_left
}

/// Copy the segments of `splits` that `stale` marks from one row buffer into the other.
fn commit_segments(scratch: &Vec<u32>, front: &mut Vec<u32>, splits: &[SegmentSplit], stale: &Vec<bool>, block: u32)
    requires
        block > 0,
        scratch.len() == old(front).len(),
        stale.len() == splits.len(),
        forall|s: int|
            0 <= s < splits.len() ==> (#[trigger] splits[s]).begin + splits[s].len <= scratch.len() && splits[s].begin
                + splits[s].len <= u32::MAX,
        disjoint(splits@),
    ensures
        final(front).len() == old(front).len(),
        forall|s: int, i: int|
            0 <= s < splits.len() && #[trigger] splits[s].owns(i) ==> final(front)[i] == (if stale[s] {
                scratch[i]
            } else {
                old(front)[i]
            }),
        forall|i: int|
            0 <= i < old(front).len() && unowned(splits@, splits.len() as int, i) ==> #[trigger] final(front)[i] == old(front)[i],
{
    let ghost before = front@;
    let mut s: usize = 0;
    while s < splits.len()
        invariant
            block > 0,
            scratch.len() == before.len(),
            front.len() == before.len(),
            stale.len() == splits.len(),
            forall|j: int|
                0 <= j < splits.len() ==> (#[trigger] splits[j]).begin + splits[j].len <= scratch.len()
                    && splits[j].begin + splits[j].len <= u32::MAX,
            disjoint(splits@),
            s <= splits.len(),
            forall|j: int, i: int|
                0 <= j < s && #[trigger] splits[j].owns(i) ==> front[i] == (if stale[j] {
                    scratch[i]
                } else {
                    before[i]
                }),
            forall|i: int|
                0 <= i < before.len() && unowned(splits@, s as int, i) ==> #[trigger] front[i] == before[i],
        decreases splits.len() - s,
    {
        let ghost was = front@;
        let sp: &SegmentSplit = &splits[s];
        if stale[s] {
            let mut off: u32 = 0;
            while off < sp.len
                invariant
                    block > 0,
                    s < splits.len(),
                    *sp == splits[s as int],
                    sp.begin + sp.len <= u32::MAX,
                    sp.begin + sp.len <= scratch.len(),
                    scratch.len() == was.len(),
                    front.len() == was.len(),
                    off <= sp.len,
                    forall|i: int|
                        0 <= i < was.len() ==> #[trigger] front[i] == (if sp.begin <= i < sp.begin + off {
                            scratch[i]
                        } else {
                            was[i]
                        }),
                decreases sp.len - off,
            {
                commit_tile_kernel(scratch, front, sp, off, block);
                off = if sp.len - off < block {
                    sp.len
                } else {
                    off + block
                };
            }
        }
        proof {
            assert forall|j: int, i: int| 0 <= j < s + 1 && #[trigger] splits[j].owns(i) implies front[i] == (
            if stale[j] {
                scratch[i]
            } else {
                before[i]
            }) by {
                assert(splits[j].begin + splits[j].len <= scratch.len());
                if j < s {
                    assert(!splits[s as int].owns(i));
                    assert(front[i] == was[i]);
                } else {
                    assert(unowned(splits@, s as int, i));
                    assert(was[i] == before[i]);
                }
            }
            assert forall|i: int| 0 <= i < before.len() && unowned(splits@, s + 1, i) implies #[trigger] front[i]
                == before[i] by {
                assert(!splits[s as int].owns(i));
                assert(unowned(splits@, s as int, i));
                assert(was[i] == before[i]);
            }
        }
        s += 1;
    }
}

/// Copy one tile of a segment from one row buffer into the other.
fn commit_tile_kernel(scratch: &Vec<u32>, front: &mut Vec<u32>, sp: &SegmentSplit, off: u32, block: u32)
    requires
        scratch.len() == old(front).len(),
        sp.begin + sp.len <= scratch.len(),
        sp.begin + sp.len <= u32::MAX,
        off <= sp.len,
    ensures
        final(front).len() == old(front).len(),
        forall|i: int|
            0 <= i < old(front).len() ==> #[trigger] final(front)[i] == (if sp.begin + off <= i < sp.begin
                + tile_end(off as int, sp.len as int, block as int) {
                scratch[i]
            } else {
                old(front)[i]
            }),
{
    let ghost before = front@;
    let n: u32 = if sp.len - off < block {
        sp.len - off
    } else {
        block
    };
    let mut k: u32 = 0;
    while k < n
        invariant
            scratch.len() == before.len(),
            front.len() == before.len(),
            sp.begin + sp.len <= scratch.len(),
            sp.begin + sp.len <= u32::MAX,
            off <= sp.len,
            n <= sp.len - off,
            k <= n,
            forall|i: int|
                0 <= i < before.len() ==> #[trigger] front[i] == (if sp.begin + off <= i < sp.begin + off + k {
                    scratch[i]
                } else {
                    before[i]
                }),
        decreases n - k,
    {
        let i: usize = (sp.begin + (off + k)) as usize;
        front[i] = scratch[i];
        k += 1;
    }
}

/// The row index, partitioned by node.
pub struct RowPartitioner {
    /// The two row buffers a partition ping-pongs between.
    buf0: Vec<u32>,
    buf1: Vec<u32>,
    /// Whether the last partition wrote `buf1`.
    cur: bool,
    /// Per position, whether `buf1` holds its current row. A segment is always written
    /// whole, so one position of a segment speaks for all of it.
    side: Vec<bool>,
}

impl RowPartitioner {
    /// The buffers and the table of sides belong together.
    pub closed spec fn wf(&self) -> bool {
        &&& self.buf0.len() == self.side.len()
        &&& self.buf1.len() == self.side.len()
    }

    /// The current row index.
    pub closed spec fn rows(&self) -> Seq<u32> {
        Seq::new(
            self.side@.len(),
            |i: int|
                if self.side[i] {
                    self.buf1[i]
                } else {
                    self.buf0[i]
                },
        )
    }

    /// The row buffer the last partition wrote.
    pub closed spec fn front(&self) -> Seq<u32> {
        if self.cur {
            self.buf1@
        } else {
            self.buf0@
        }
    }

    /// The positions `begin..begin + len` were last written together, so that one buffer
    /// holds all of them.
    pub closed spec fn whole(&self, begin: int, len: int) -> bool {
        forall|i: int| begin < i < begin + len ==> #[trigger] self.side[i] == self.side[begin]
    }

    /// Which of the two buffers holds position `i`.
    pub closed spec fn side_at(&self, i: int) -> bool {
        self.side[i]
    }

    /// Which of the two buffers the last partition wrote.
    pub closed spec fn front_side(&self) -> bool {
        self.cur
    }

    /// The row buffers are as long as the row index.
    pub proof fn lemma_front_len(&self)
        requires
            self.wf(),
        ensures
            self.front().len() == self.rows().len(),
    {
    }

    /// Two parts of a segment written whole are whole themselves.
    pub proof fn lemma_whole_part(&self, begin: int, len: int, a: int, n: int)
        requires
            self.whole(begin, len),
            begin <= a,
            0 <= n,
            a + n <= begin + len,
        ensures
            self.whole(a, n),
    {
    }

    /// A segment whose positions were left alone stays whole.
    pub proof fn lemma_whole_kept(&self, before: &Self, begin: int, len: int)
        requires
            before.whole(begin, len),
            forall|i: int| begin <= i < begin + len ==> #[trigger] self.side_at(i) == before.side_at(i),
        ensures
            self.whole(begin, len),
    {
        assert forall|i: int| begin < i < begin + len implies #[trigger] self.side[i] == self.side[begin] by {
            assert(self.side_at(i) == before.side_at(i));
            assert(self.side_at(begin) == before.side_at(begin));
        }
    }

    /// Start with `rows` in the single root segment.
    pub fn new(rows: &[u32]) -> (part: Self)
        ensures
            part.wf(),
            part.rows() == rows@,
            part.front() == rows@,
            part.whole(0, rows.len() as int),
    {
        let mut ridx: Vec<u32> = Vec::with_capacity(rows.len());
        ridx.extend_from_slice(rows);
        let scratch: Vec<u32> = vec![0u32; rows.len()];
        let side: Vec<bool> = vec![false; rows.len()];
        let part = RowPartitioner { buf0: ridx, buf1: scratch, cur: false, side };
        assert(part.buf0@ =~= rows@);
        assert(part.rows() =~= rows@);
        part
    }

    /// All rows, in the root segment: position `i` holds row `i`.
    pub fn all_rows(n_rows: usize) -> (part: Self)
        requires
            n_rows <= u32::MAX,
        ensures
            part.wf(),
            part.rows() == Seq::new(n_rows as nat, |i: int| i as u32),
            part.front() == part.rows(),
            part.whole(0, n_rows as int),
    {
        let mut ridx: Vec<u32> = Vec::with_capacity(n_rows);
        let mut i: usize = 0;
        while i < n_rows
            invariant
                n_rows <= u32::MAX,
                i <= n_rows,
                ridx.len() == i,
                forall|k: int| 0 <= k < i ==> #[trigger] ridx[k] == k,
            decreases n_rows - i,
        {
            ridx.push(i as u32);
            i += 1;
        }
        let scratch: Vec<u32> = vec![0u32; n_rows];
        let side: Vec<bool> = vec![false; n_rows];
        let part = RowPartitioner { buf0: ridx, buf1: scratch, cur: false, side };
        assert(part.rows() =~= Seq::new(n_rows as nat, |i: int| i as u32));
        assert(part.front() =~= part.rows());
        part
    }

    pub fn n_rows(&self) -> (n: usize)
        requires
            self.wf(),
        ensures
            n == self.rows().len(),
    {
        self.side.len()
    }

    /// The row buffer the last partition wrote. Every segment that partition produced is
    /// current in it; a segment from an earlier partition may not be.
    pub fn ridx(&self) -> (rows: &Vec<u32>)
        ensures
            rows@ == self.front(),
    {
        if self.cur {
            &self.buf1
        } else {
            &self.buf0
        }
    }

    /// The two row buffers.
    pub fn buffers(&self) -> (bufs: (&Vec<u32>, &Vec<u32>))
        requires
            self.wf(),
        ensures
            bufs.0.len() == self.rows().len(),
            bufs.1.len() == self.rows().len(),
            forall|i: int|
                0 <= i < self.rows().len() ==> #[trigger] self.rows()[i] == (if self.side_at(i) {
                    bufs.1[i]
                } else {
                    bufs.0[i]
                }),
    {
        (&self.buf0, &self.buf1)
    }

    /// Which of the two row buffers holds position `pos`; past the last position, the
    /// one the last partition wrote.
    pub fn side_of(&self, pos: u32) -> (side: u32)
        requires
            self.wf(),
        ensures
            side == (if (if pos < self.rows().len() {
                self.side_at(pos as int)
            } else {
                self.front_side()
            }) {
                1u32
            } else {
                0u32
            }),
    {
        let second: bool = if (pos as usize) < self.side.len() {
            self.side[pos as usize]
        } else {
            self.cur
        };
        if second {
            1
        } else {
            0
        }
    }

    /// Read the whole row index, assembled from both buffers: a segment is current in
    /// whichever one the partition that produced it wrote.
    pub fn read(&self) -> (rows: Vec<u32>)
        requires
            self.wf(),
        ensures
            rows@ == self.rows(),
    {
        let mut rows: Vec<u32> = Vec::with_capacity(self.side.len());
        let mut i: usize = 0;
        while i < self.side.len()
            invariant
                self.wf(),
                i <= self.side.len(),
                rows.len() == i,
                forall|k: int| 0 <= k < i ==> rows[k] == #[trigger] self.rows()[k],
            decreases self.side.len() - i,
        {
            let row: u32 = if self.side[i] {
                self.buf1[i]
            } else {
                self.buf0[i]
            };
            rows.push(row);
            i += 1;
        }
        assert(rows@ =~= self.rows());
        rows
    }

    /// Part every segment of `splits` in one pass.
    ///
    /// Hands back each split's left-child length, so that the caller can turn one segment
    /// into the children's two. A runtime without planes cannot search the rows of a
    /// matrix that stores global bins, and refuses.
    pub fn partition(&mut self, hardware: &Hardware, ell: &DeviceEllpack, splits: &[SegmentSplit]) -> (result: Result<
        Vec<u32>,
        Error,
    >)
        requires
            old(self).wf(),
            applicable(ell, splits@, old(self).rows()),
            forall|s: int|
                0 <= s < splits.len() ==> old(self).whole((#[trigger] splits[s]).begin as int, splits[s].len as int),
        ensures
            final(self).wf(),
            final(self).rows().len() == old(self).rows().len(),
            result is Err <==> splits.len() > 0 && !ell.compressed && !ell.dense && hardware.plane_size_max <= 1,
            result matches Err(e) ==> e == Error::SparseEllpackUnsupported && *final(self) == *old(self),
            result matches Ok(counts) ==> counts.len() == splits.len(),
            result matches Ok(counts) ==> forall|s: int|
                0 <= s < splits.len() ==> {
                    let sp = #[trigger] splits[s];
                    &&& counts[s] == sp.segment(old(self).rows()).filter(sp.left(ell)).len()
                    &&& sp.segment(final(self).rows()) == sp.parted(ell, old(self).rows())
                    &&& final(self).whole(sp.begin as int, sp.len as int)
                    &&& sp.segment(final(self).front()) == sp.segment(final(self).rows())
                },
            result is Ok ==> forall|i: int|
                0 <= i < old(self).rows().len() && unowned(splits@, splits.len() as int, i)
                    ==> #[trigger] final(self).rows()[i] == old(self).rows()[i],
            result is Ok ==> forall|i: int|
                0 <= i < old(self).rows().len() && unowned(splits@, splits.len() as int, i)
                    ==> #[trigger] final(self).side_at(i) == old(self).side_at(i),
    {
        if splits.len() == 0 {
            return Ok(Vec::new());
        }
        if !ell.compressed && !ell.dense && !supports_sparse_layout(hardware) {
            return Err(Error::SparseEllpackUnsupported);
        }
        let block: u32 = if cooperative(hardware) {
            scan_block_1d(hardware, PART_BLOCK)
        } else {
            SERIAL_TILE_ROWS
        };
        let ghost rows = self.rows();
        let from: bool = self.source(splits, block);
        let ghost gathered = *self;
        proof {
            let src = if from {
                self.buf1@
            } else {
                self.buf0@
            };
            assert forall|s: int| 0 <= s < splits.len() implies (#[trigger] splits[s]).applies(ell)
                && splits[s].lies_in(ell, src) by {
                assert(splits[s].lies_in(ell, rows));
                assert forall|i: int| splits[s].owns(i) implies has_row(ell, #[trigger] src[i]) by {
                    assert(!unowned(splits@, splits.len() as int, i));
                    assert(self.side_at(i) == from);
                    assert(self.rows()[i] == src[i]);
                    assert(has_row(ell, rows[i]));
                }
            }
            assert forall|s: int| 0 <= s < splits.len() implies (#[trigger] splits[s]).segment(src)
                == splits[s].segment(rows) by {
                assert(splits[s].lies_in(ell, rows));
                assert forall|k: int| 0 <= k < splits[s].len implies splits[s].segment(src)[k]
                    == splits[s].segment(rows)[k] by {
                    let i = splits[s].begin + k;
                    assert(splits[s].owns(i));
                    assert(!unowned(splits@, splits.len() as int, i));
                    assert(self.side_at(i) == from);
                    assert(self.rows()[i] == src[i]);
                }
                assert(splits[s].segment(src) =~= splits[s].segment(rows));
            }
        }
        let counts: Vec<u32> = if from {
            part_segments(&self.buf1, &mut self.buf0, ell, splits, block)
        } else {
            part_segments(&self.buf0, &mut self.buf1, ell, splits, block)
        };
        mark_segments(&mut self.side, splits, !from);
        self.cur = !from;
        proof {
            let dst = self.front();
            assert forall|s: int| 0 <= s < splits.len() implies {
                let sp = #[trigger] splits[s];
                &&& counts[s] == sp.segment(rows).filter(sp.left(ell)).len()
                &&& sp.segment(self.rows()) == sp.parted(ell, rows)
                &&& self.whole(sp.begin as int, sp.len as int)
                &&& sp.segment(self.front()) == sp.segment(self.rows())
            } by {
                let sp = splits[s];
                assert(sp.lies_in(ell, rows));
                assert(sp.segment(rows).subrange(0, sp.len as int) =~= sp.segment(rows));
                assert(counts[s] == sp.left_before(ell, rows, sp.len as int));
                assert forall|i: int| sp.owns(i) implies #[trigger] self.side[i] == !from by {
                    assert(!unowned(splits@, splits.len() as int, i));
                }
                assert forall|k: int| 0 <= k < sp.len implies sp.segment(self.rows())[k] == sp.segment(dst)[k] by {
                    assert(sp.owns(sp.begin + k));
                    assert(self.side[sp.begin + k] == !from);
                }
                assert(sp.segment(self.rows()) =~= sp.segment(dst));
                assert forall|i: int| sp.begin < i < sp.begin + sp.len implies #[trigger] self.side[i]
                    == self.side[sp.begin as int] by {
                    assert(sp.owns(i));
                    assert(sp.owns(sp.begin as int));
                    assert(self.side[i] == !from);
                    assert(self.side[sp.begin as int] == !from);
                }
            }
            assert forall|i: int| 0 <= i < rows.len() && unowned(splits@, splits.len() as int, i) implies
                #[trigger] self.side_at(i) == old(self).side_at(i) by {
                assert(self.side[i] == gathered.side[i]);
                assert(gathered.side_at(i) == old(self).side_at(i));
            }
            assert forall|i: int| 0 <= i < rows.len() && unowned(splits@, splits.len() as int, i) implies
                #[trigger] self.rows()[i] == rows[i] by {
                assert(self.side[i] == gathered.side[i]);
                assert(self.buf0[i] == gathered.buf0[i] && self.buf1[i] == gathered.buf1[i]);
                assert(gathered.rows()[i] == rows[i]);
            }
        }
        Ok(counts)
    }

    /// The buffer that holds every segment of `splits`. On the depth-wise path that is
    /// whichever the partition that made the segments wrote. Segments on both sides in one
    /// batch are brought together in the front buffer first.
    fn source(&mut self, splits: &[SegmentSplit], block: u32) -> (from: bool)
        requires
            block > 0,
            old(self).wf(),
            disjoint(splits@),
            forall|s: int|
                0 <= s < splits.len() ==> (#[trigger] splits[s]).begin + splits[s].len <= old(self).rows().len()
                    && splits[s].begin + splits[s].len <= u32::MAX,
            forall|s: int|
                0 <= s < splits.len() ==> old(self).whole((#[trigger] splits[s]).begin as int, splits[s].len as int),
        ensures
            final(self).wf(),
            final(self).rows() == old(self).rows(),
            forall|i: int|
                0 <= i < old(self).rows().len() ==> #[trigger] final(self).side_at(i) == (if unowned(
                    splits@,
                    splits.len() as int,
                    i,
                ) {
                    old(self).side_at(i)
                } else {
                    from
                }),
    {
        let mut first: Option<bool> = None;
        let mut uniform: bool = true;
        let mut s: usize = 0;
        while s < splits.len()
            invariant
                self.wf(),
                *self == *old(self),
                s <= splits.len(),
                forall|j: int|
                    0 <= j < splits.len() ==> (#[trigger] splits[j]).begin + splits[j].len <= self.side.len(),
                first is None ==> forall|j: int| 0 <= j < s ==> (#[trigger] splits[j]).len == 0,
                uniform && first is Some ==> forall|j: int|
                    0 <= j < s && (#[trigger] splits[j]).len > 0 ==> self.side[splits[j].begin as int] == first->0,
            decreases splits.len() - s,
        {
            let sp: &SegmentSplit = &splits[s];
            if sp.len > 0 {
                let side: bool = self.side[sp.begin as usize];
                match first {
                    None => {
                        first = Some(side);
                    },
                    Some(f) => {
                        if side != f {
                            uniform = false;
                        }
                    },
                }
            }
            s += 1;
        }
        if uniform {
            let from: bool = match first {
                Some(f) => f,
                None => self.cur,
            };
            proof {
                assert forall|i: int| 0 <= i < old(self).rows().len() implies #[trigger] self.side_at(i) == (
                if unowned(splits@, splits.len() as int, i) {
                    old(self).side_at(i)
                } else {
                    from
                }) by {
                    if !unowned(splits@, splits.len() as int, i) {
                        let s = choose|s: int| 0 <= s < splits.len() && splits[s].owns(i);
                        assert(old(self).whole(splits[s].begin as int, splits[s].len as int));
                        assert(self.side[i] == self.side[splits[s].begin as int]);
                    }
                }
            }
            return from;
        }
        self.catch_up(splits, block);
        self.cur
    }

    /// Bring every segment of `splits` that is current in the back buffer into the front
    /// one.
    fn catch_up(&mut self, splits: &[SegmentSplit], block: u32)
        requires
            block > 0,
            old(self).wf(),
            disjoint(splits@),
            forall|s: int|
                0 <= s < splits.len() ==> (#[trigger] splits[s]).begin + splits[s].len <= old(self).rows().len()
                    && splits[s].begin + splits[s].len <= u32::MAX,
            forall|s: int|
                0 <= s < splits.len() ==> old(self).whole((#[trigger] splits[s]).begin as int, splits[s].len as int),
        ensures
            final(self).wf(),
            final(self).front_side() == old(self).front_side(),
            final(self).rows() == old(self).rows(),
            forall|i: int|
                0 <= i < old(self).rows().len() ==> #[trigger] final(self).side_at(i) == (if unowned(
                    splits@,
                    splits.len() as int,
                    i,
                ) {
                    old(self).side_at(i)
                } else {
                    old(self).front_side()
                }),
    {
        let mut stale: Vec<bool> = Vec::with_capacity(splits.len());
        let mut s: usize = 0;
        while s < splits.len()
            invariant
                self.wf(),
                *self == *old(self),
                s <= splits.len(),
                stale.len() == s,
                forall|j: int|
                    0 <= j < splits.len() ==> (#[trigger] splits[j]).begin + splits[j].len <= self.side.len(),
                forall|j: int|
                    0 <= j < s ==> #[trigger] stale[j] == (splits[j].len > 0 && self.side[splits[j].begin as int]
                        != self.cur),
            decreases splits.len() - s,
        {
            let sp: &SegmentSplit = &splits[s];
            let moved: bool = sp.len > 0 && self.side[sp.begin as usize] != self.cur;
            stale.push(moved);
            s += 1;
        }
        let ghost was = *self;
        if self.cur {
            commit_segments(&self.buf0, &mut self.buf1, splits, &stale, block);
        } else {
            commit_segments(&self.buf1, &mut self.buf0, splits, &stale, block);
        }
        let cur: bool = self.cur;
        mark_segments(&mut self.side, splits, cur);
        proof {
            assert forall|i: int| 0 <= i < was.rows().len() implies #[trigger] self.rows()[i] == was.rows()[i] by {
                if unowned(splits@, splits.len() as int, i) {
                    assert(self.side[i] == was.side[i]);
                    assert(was.buf0[i] == self.buf0[i] && was.buf1[i] == self.buf1[i]);
                } else {
                    let s = choose|s: int| 0 <= s < splits.len() && splits[s].owns(i);
                    assert(splits[s].owns(i));
                    assert(was.whole(splits[s].begin as int, splits[s].len as int));
                    assert(was.side[i] == was.side[splits[s].begin as int]);
                    assert(stale[s] == (was.side[i] != was.cur));
                }
            }
            assert(self.rows() =~= was.rows());
        }
    }
}

/// Record that the segments of `splits` are current in one of the two buffers.
fn mark_segments(side: &mut Vec<bool>, splits: &[SegmentSplit], to: bool)
    requires
        forall|s: int|
            0 <= s < splits.len() ==> (#[trigger] splits[s]).begin + splits[s].len <= old(side).len() && splits[s].begin
                + splits[s].len <= u32::MAX,
    ensures
        final(side).len() == old(side).len(),
        forall|i: int|
            0 <= i < old(side).len() ==> #[trigger] final(side)[i] == (if unowned(splits@, splits.len() as int, i) {
                old(side)[i]
            } else {
                to
            }),
{
    let ghost before = side@;
    let mut s: usize = 0;
    while s < splits.len()
        invariant
            forall|j: int|
                0 <= j < splits.len() ==> (#[trigger] splits[j]).begin + splits[j].len <= before.len()
                    && splits[j].begin + splits[j].len <= u32::MAX,
            side.len() == before.len(),
            s <= splits.len(),
            forall|i: int|
                0 <= i < before.len() ==> #[trigger] side[i] == (if unowned(splits@, s as int, i) {
                    before[i]
                } else {
                    to
                }),
        decreases splits.len() - s,
    {
        let ghost was = side@;
        let begin: usize = splits[s].begin as usize;
        let end: usize = (splits[s].begin + splits[s].len) as usize;
        let mut i: usize = begin;
        while i < end
            invariant
                side.len() == was.len(),
                begin <= i <= end <= was.len(),
                forall|k: int|
                    0 <= k < was.len() ==> #[trigger] side[k] == (if begin <= k < i {
                        to
                    } else {
                        was[k]
                    }),
            decreases end - i,
        {
            side[i] = to;
            i += 1;
        }
        proof {
            assert forall|k: int| 0 <= k < before.len() implies #[trigger] side[k] == (if unowned(
                splits@,
                s + 1,
                k,
            ) {
                before[k]
            } else {
                to
            }) by {
                assert(was[k] == (if unowned(splits@, s as int, k) {
                    before[k]
                } else {
                    to
                }));
                if splits[s as int].owns(k) {
                    assert(!unowned(splits@, s + 1, k));
                } else if unowned(splits@, s as int, k) {
                    assert(unowned(splits@, s + 1, k));
                } else {
                    let j = choose|j: int| 0 <= j < s && splits[j].owns(k);
                    assert(splits[j].owns(k));
                    assert(!unowned(splits@, s + 1, k));
                }
            }
        }
        s += 1;
    }
}

/// Rearranging one stretch of a sequence rearranges the sequence.
proof fn lemma_stretch_rearranged(x: Seq<u32>, y: Seq<u32>, a: int, b: int)
    requires
        x.len() == y.len(),
        0 <= a <= b <= x.len(),
        forall|i: int| 0 <= i < x.len() && !(a <= i < b) ==> x[i] == y[i],
        x.subrange(a, b).to_multiset() == y.subrange(a, b).to_multiset(),
    ensures
        x.to_multiset() == y.to_multiset(),
{
    let n = x.len() as int;
    assert(x =~= x.subrange(0, a) + (x.subrange(a, b) + x.subrange(b, n)));
    assert(y =~= y.subrange(0, a) + (y.subrange(a, b) + y.subrange(b, n)));
    assert(x.subrange(0, a) =~= y.subrange(0, a));
    assert(x.subrange(b, n) =~= y.subrange(b, n));
    vstd::seq_lib::lemma_multiset_commutative(x.subrange(a, b), x.subrange(b, n));
    vstd::seq_lib::lemma_multiset_commutative(y.subrange(a, b), y.subrange(b, n));
    vstd::seq_lib::lemma_multiset_commutative(x.subrange(0, a), x.subrange(a, b) + x.subrange(b, n));
    vstd::seq_lib::lemma_multiset_commutative(y.subrange(0, a), y.subrange(a, b) + y.subrange(b, n));
}

/// The row index with only the first `n` segments parted.
spec fn parted_upto(splits: Seq<SegmentSplit>, before: Seq<u32>, after: Seq<u32>, n: int) -> Seq<u32> {
    Seq::new(
        before.len(),
        |i: int|
            if unowned(splits, n, i) {
                before[i]
            } else {
                after[i]
            },
    )
}

/// A partition rearranges the row index: every row that was in it is in it still, as
/// often as before.
pub proof fn lemma_partition_rearranges(
    ell: &DeviceEllpack,
    splits: Seq<SegmentSplit>,
    before: Seq<u32>,
    after: Seq<u32>,
)
    requires
        applicable(ell, splits, before),
        after.len() == before.len(),
        forall|s: int|
            0 <= s < splits.len() ==> (#[trigger] splits[s]).segment(after) == splits[s].parted(ell, before),
        forall|i: int|
            0 <= i < before.len() && unowned(splits, splits.len() as int, i) ==> #[trigger] after[i] == before[i],
    ensures
        after.to_multiset() == before.to_multiset(),
{
    lemma_parted_upto(ell, splits, before, after, splits.len() as int);
    assert(parted_upto(splits, before, after, splits.len() as int) =~= after);
}

proof fn lemma_parted_upto(
    ell: &DeviceEllpack,
    splits: Seq<SegmentSplit>,
    before: Seq<u32>,
    after: Seq<u32>,
    n: int,
)
    requires
        applicable(ell, splits, before),
        after.len() == before.len(),
        0 <= n <= splits.len(),
        forall|s: int|
            0 <= s < splits.len() ==> (#[trigger] splits[s]).segment(after) == splits[s].parted(ell, before),
    ensures
        parted_upto(splits, before, after, n).to_multiset() == before.to_multiset(),
    decreases n,
{
    let now = parted_upto(splits, before, after, n);
    if n == 0 {
        assert(now =~= before);
    } else {
        lemma_parted_upto(ell, splits, before, after, n - 1);
        let was = parted_upto(splits, before, after, n - 1);
        let sp = splits[n - 1];
        let a = sp.begin as int;
        let b = sp.begin + sp.len;
        assert forall|i: int| 0 <= i < now.len() && !(a <= i < b) implies now[i] == was[i] by {
            assert(!sp.owns(i));
            if unowned(splits, n - 1, i) {
                assert(unowned(splits, n, i));
            } else {
                let j = choose|j: int| 0 <= j < n - 1 && splits[j].owns(i);
                assert(splits[j].owns(i));
                assert(!unowned(splits, n, i));
            }
        }
        assert(now.subrange(a, b) =~= sp.segment(after)) by {
            assert forall|i: int| a <= i < b implies now[i] == after[i] by {
                assert(sp.owns(i));
                assert(!unowned(splits, n, i));
            }
        }
        assert(was.subrange(a, b) =~= sp.segment(before)) by {
            assert forall|i: int| a <= i < b implies was[i] == before[i] by {
                assert(sp.owns(i));
                assert forall|j: int| 0 <= j < n - 1 implies !#[trigger] splits[j].owns(i) by {
                    assert(splits[n - 1].owns(i));
                }
                assert(unowned(splits, n - 1, i));
            }
        }
        lemma_parted_rearranges(&sp, ell, before);
        lemma_stretch_rearranged(now, was, a, b);
    }
}

/// A level's splits as the columns a device launch binds, one entry per segment.
pub struct SegmentTables {
    pub begin: Vec<u32>,
    pub len: Vec<u32>,
    pub fidx: Vec<u32>,
    pub cond: Vec<i64>,
    /// Bit 0 is `default_left`, bit 1 marks a categorical split.
    pub flags: Vec<u32>,
    /// Where each segment's category bit set starts in `cat_bits`.
    pub cat_base: Vec<u32>,
    /// The category bit sets, one after the other; a single zero word where there are
    /// none, because a binding is never empty.
    pub cat_bits: Vec<u32>,
}

/// The category bit sets of the first `n` segments, one after the other.
pub open spec fn cat_words(splits: Seq<SegmentSplit>, n: int) -> Seq<u32>
    decreases n,
{
    if n <= 0 {
        Seq::empty()
    } else {
        cat_words(splits, n - 1) + splits[n - 1].cat_bits@
    }
}

pub open spec fn split_flags(sp: &SegmentSplit) -> u32 {
    ((if sp.default_left {
        1int
    } else {
        0
    }) + (if sp.cat_bits.len() > 0 {
        2int
    } else {
        0
    })) as u32
}

proof fn lemma_cat_words_grow(splits: Seq<SegmentSplit>, a: int, b: int)
    requires
        a <= b,
    ensures
        cat_words(splits, a).len() <= cat_words(splits, b).len(),
    decreases b,
{
    if a < b && b > 0 {
        lemma_cat_words_grow(splits, a, b - 1);
    }
}

/// Lay `splits` out as columns.
pub fn segment_tables(splits: &[SegmentSplit]) -> (tables: SegmentTables)
    requires
        cat_words(splits@, splits.len() as int).len() <= u32::MAX,
    ensures
        tables.begin@ == Seq::new(splits@.len(), |s: int| splits[s].begin),
        tables.len@ == Seq::new(splits@.len(), |s: int| splits[s].len),
        tables.fidx@ == Seq::new(splits@.len(), |s: int| splits[s].fidx),
        tables.cond@ == Seq::new(splits@.len(), |s: int| splits[s].cond),
        tables.flags@ == Seq::new(splits@.len(), |s: int| split_flags(&splits[s])),
        tables.cat_base@ == Seq::new(splits@.len(), |s: int| cat_words(splits@, s).len() as u32),
        tables.cat_bits@ == (if cat_words(splits@, splits.len() as int).len() > 0 {
            cat_words(splits@, splits.len() as int)
        } else {
            seq![0u32]
        }),
{
    let mut begin: Vec<u32> = Vec::with_capacity(splits.len());
    let mut len: Vec<u32> = Vec::with_capacity(splits.len());
    let mut fidx: Vec<u32> = Vec::with_capacity(splits.len());
    let mut cond: Vec<i64> = Vec::with_capacity(splits.len());
    let mut flags: Vec<u32> = Vec::with_capacity(splits.len());
    let mut cat_base: Vec<u32> = Vec::with_capacity(splits.len());
    let mut cat_bits: Vec<u32> = Vec::new();
    let mut s: usize = 0;
    while s < splits.len()
        invariant
            cat_words(splits@, splits.len() as int).len() <= u32::MAX,
            s <= splits.len(),
            begin@ == Seq::new(s as nat, |s: int| splits[s].begin),
            len@ == Seq::new(s as nat, |s: int| splits[s].len),
            fidx@ == Seq::new(s as nat, |s: int| splits[s].fidx),
            cond@ == Seq::new(s as nat, |s: int| splits[s].cond),
            flags@ == Seq::new(s as nat, |s: int| split_flags(&splits[s])),
            cat_base@ == Seq::new(s as nat, |s: int| cat_words(splits@, s).len() as u32),
            cat_bits@ == cat_words(splits@, s as int),
        decreases splits.len() - s,
    {
        let sp: &SegmentSplit = &splits[s];
        let ghost was = cat_bits@;
        proof {
            lemma_cat_words_grow(splits@, s as int, splits.len() as int);
        }
        begin.push(sp.begin);
        len.push(sp.len);
        fidx.push(sp.fidx);
        cond.push(sp.cond);
        let first: u32 = if sp.default_left {
            1
        } else {
            0
        };
        let second: u32 = if sp.cat_bits.len() > 0 {
            2
        } else {
            0
        };
        flags.push(first + second);
        cat_base.push(cat_bits.len() as u32);
        cat_bits.extend_from_slice(sp.cat_bits.as_slice());
        assert(cat_bits@ =~= was + sp.cat_bits@);
        s += 1;
        assert(begin@ =~= Seq::new(s as nat, |s: int| splits[s].begin));
        assert(len@ =~= Seq::new(s as nat, |s: int| splits[s].len));
        assert(fidx@ =~= Seq::new(s as nat, |s: int| splits[s].fidx));
        assert(cond@ =~= Seq::new(s as nat, |s: int| splits[s].cond));
        assert(flags@ =~= Seq::new(s as nat, |s: int| split_flags(&splits[s])));
        assert(cat_base@ =~= Seq::new(s as nat, |s: int| cat_words(splits@, s).len() as u32));
    }
    if cat_bits.len() == 0 {
        cat_bits.push(0);
        assert(cat_bits@ =~= seq![0u32]);
    }
    SegmentTables { begin, len, fidx, cond, flags, cat_base, cat_bits }
}

/// A row whose feature is missing goes where missing values go. Any other goes left on a threshold
/// exactly where its bin is not above it, and on a set of categories exactly where its own is not in
/// the set.
pub proof fn lemma_sends_left(sp: &SegmentSplit, ell: &DeviceEllpack, row: u32)
    ensures
        local_bin(ell, sp.fidx as int, row) is None ==> sp.sends_left(ell, row) == sp.default_left,
        local_bin(ell, sp.fidx as int, row) matches Some(b) && sp.cat_bits.len() == 0 && b <= sp.cond ==> sp.sends_left(
            ell,
            row,
        ),
        local_bin(ell, sp.fidx as int, row) matches Some(b) && sp.cat_bits.len() == 0 && b > sp.cond ==> !sp.sends_left(
            ell,
            row,
        ),
        local_bin(ell, sp.fidx as int, row) matches Some(b) && sp.cat_bits.len() > 0 && bit(
            sp.cat_bits[b / 32],
            b % 32,
        ) ==> !sp.sends_left(ell, row),
        local_bin(ell, sp.fidx as int, row) matches Some(b) && sp.cat_bits.len() > 0 && !bit(
            sp.cat_bits[b / 32],
            b % 32,
        ) ==> sp.sends_left(ell, row),
{
}

/// A higher threshold keeps every row on the left that a lower one sends there.
pub proof fn lemma_higher_threshold(lower: &SegmentSplit, higher: &SegmentSplit, ell: &DeviceEllpack, row: u32)
    requires
        lower.fidx == higher.fidx,
        lower.default_left == higher.default_left,
        lower.cat_bits.len() == 0,
        higher.cat_bits.len() == 0,
        lower.cond <= higher.cond,
        lower.sends_left(ell, row),
    ensures
        higher.sends_left(ell, row),
{
}

/// A segment that was parted holds the rows that go left and then the others, both in the order in
/// which they stood.
pub proof fn lemma_parted_sides(sp: &SegmentSplit, ell: &DeviceEllpack, rows: Seq<u32>)
    requires
        sp.begin + sp.len <= rows.len(),
    ensures
        ({
            let seg = rows.subrange(sp.begin as int, sp.begin + sp.len);
            let parted = sp.parted(ell, rows);
            let n_left = seg.filter(|row: u32| sp.sends_left(ell, row)).len() as int;
            &&& parted.len() == sp.len
            &&& n_left <= sp.len
            &&& forall|k: int| 0 <= k < n_left ==> sp.sends_left(ell, #[trigger] parted[k])
            &&& forall|k: int| n_left <= k < sp.len ==> !sp.sends_left(ell, #[trigger] parted[k])
            &&& parted.subrange(0, n_left) == seg.filter(|row: u32| sp.sends_left(ell, row))
            &&& parted.subrange(n_left, parted.len() as int) == seg.filter(|row: u32| !sp.sends_left(ell, row))
        }),
{
    let seg = sp.segment(rows);
    let lefts = seg.filter(sp.left(ell));
    let rights = seg.filter(sp.right(ell));
    let parted = sp.parted(ell, rows);
    lemma_parted_rearranges(sp, ell, rows);
    assert(sp.left(ell) =~= |row: u32| sp.sends_left(ell, row));
    assert(sp.right(ell) =~= |row: u32| !sp.sends_left(ell, row));
    assert(parted.subrange(0, lefts.len() as int) =~= lefts);
    assert(parted.subrange(lefts.len() as int, parted.len() as int) =~= rights);
    assert forall|k: int| 0 <= k < lefts.len() implies sp.sends_left(ell, #[trigger] parted[k]) by {
        assert(parted[k] == lefts[k]);
        seg.lemma_filter_pred(sp.left(ell), k);
    }
    assert forall|k: int| lefts.len() <= k < parted.len() implies !sp.sends_left(ell, #[trigger] parted[k]) by {
        assert(parted[k] == rights[k - lefts.len()]);
        seg.lemma_filter_pred(sp.right(ell), k - lefts.len());
    }
}

/// An entry of the feature is found wherever the row has one, the last of them, and nothing else is.
pub proof fn lemma_entry_in_range(ell: &DeviceEllpack, r: int, begin: u32, end: u32, n: int)
    requires
        n >= 0,
    ensures
        entry_in_range(ell, r, begin, end, n) is None ==> forall|s: int|
            0 <= s < n ==> !(#[trigger] ell.stored(r, s) != ell.null_value && begin <= ell.stored(r, s) < end),
        entry_in_range(ell, r, begin, end, n) matches Some(v) ==> v != ell.null_value && begin <= v < end
            && exists|s: int|
            0 <= s < n && #[trigger] ell.stored(r, s) == v && forall|q: int|
                s < q < n ==> !(#[trigger] ell.stored(r, q) != ell.null_value && begin <= ell.stored(r, q) < end),
    decreases n,
{
    if n > 0 {
        lemma_entry_in_range(ell, r, begin, end, n - 1);
        let last = ell.stored(r, n - 1);
        if !(last != ell.null_value && begin <= last < end) {
            if let Some(v) = entry_in_range(ell, r, begin, end, n - 1) {
                let s = choose|s: int|
                    0 <= s < n - 1 && #[trigger] ell.stored(r, s) == v && forall|q: int|
                        s < q < n - 1 ==> !(#[trigger] ell.stored(r, q) != ell.null_value && begin <= ell.stored(r, q)
                            < end);
                assert(ell.stored(r, s) == v);
            }
        }
    }
}

/// The bin of a row's feature is counted from the feature's first: what a compressed matrix stores
/// is that already, and what another one stores is counted from the first of all.
pub proof fn lemma_local_bin(ell: &DeviceEllpack, fidx: int, row: u32)
    ensures
        ell.compressed && ell.dense ==> local_bin(ell, fidx, row) == Some(ell.stored(row - ell.base_rowid, fidx) as int),
        ell.compressed && !ell.dense && ell.stored(row - ell.base_rowid, fidx) == ell.null_value ==> local_bin(
            ell,
            fidx,
            row,
        ) is None,
        ell.compressed && !ell.dense && ell.stored(row - ell.base_rowid, fidx) != ell.null_value ==> local_bin(
            ell,
            fidx,
            row,
        ) == Some(ell.stored(row - ell.base_rowid, fidx) as int),
        !ell.compressed ==> (local_bin(ell, fidx, row) is Some <==> entry_in_range(
            ell,
            row - ell.base_rowid,
            ell.cut_ptrs[fidx],
            ell.cut_ptrs[fidx + 1],
            ell.row_stride as int,
        ) is Some),
        !ell.compressed ==> (local_bin(ell, fidx, row) matches Some(b) ==> entry_in_range(
            ell,
            row - ell.base_rowid,
            ell.cut_ptrs[fidx],
            ell.cut_ptrs[fidx + 1],
            ell.row_stride as int,
        )->0 == ell.cut_ptrs[fidx] + b),
{
}

/// The two flags of a split can be told apart: the first says where missing values go, the second
/// whether the split names categories.
pub proof fn lemma_split_flags(sp: &SegmentSplit)
    ensures
        split_flags(sp) % 2 == 1 <==> sp.default_left,
        split_flags(sp) / 2 == 1 <==> sp.cat_bits.len() > 0,
        split_flags(sp) < 4,
{
}

/// Every split finds its own words where its base says.
pub proof fn lemma_cat_words(splits: Seq<SegmentSplit>, s: int, n: int)
    requires
        0 <= s < n <= splits.len(),
    ensures
        cat_words(splits, s).len() + splits[s].cat_bits.len() <= cat_words(splits, n).len(),
        cat_words(splits, n).subrange(
            cat_words(splits, s).len() as int,
            cat_words(splits, s).len() + splits[s].cat_bits.len(),
        ) == splits[s].cat_bits@,
    decreases n,
{
    let from = cat_words(splits, s).len() as int;
    let to = from + splits[s].cat_bits.len();
    let all = cat_words(splits, n);
    if s < n - 1 {
        lemma_cat_words(splits, s, n - 1);
        assert(all.subrange(from, to) =~= cat_words(splits, n - 1).subrange(from, to));
    } else {
        assert(all.subrange(from, to) =~= splits[s].cat_bits@);
    }
}

/// The tiles of a segment cover it and none but the last goes past its end; an empty segment has one.
pub proof fn lemma_tiles_cover(len: int, block: int)
    requires
        len >= 0,
        block > 0,
    ensures
        tiles_of(len, block) >= 1,
        tiles_of(len, block) * block >= len,
        len > 0 ==> (tiles_of(len, block) - 1) * block < len,
        len == 0 ==> tiles_of(len, block) == 1,
{
    crate::gpu::launch::lemma_ceil_div(len, block);
    let n = tiles_of(len, block);
    assert(len == 0 ==> ceil_div(len, block) <= 1);
}

/// On a set of categories a row goes right exactly where its category is in the set.
pub proof fn lemma_categories_go_right(sp: &SegmentSplit, ell: &DeviceEllpack, row: u32)
    requires
        sp.cat_bits.len() > 0,
        local_bin(ell, sp.fidx as int, row) is Some,
        0 <= local_bin(ell, sp.fidx as int, row)->0 < 32 * sp.cat_bits.len(),
    ensures
        !sp.sends_left(ell, row) <==> crate::tree::cat::holds_category(
            sp.cat_bits@,
            local_bin(ell, sp.fidx as int, row)->0,
        ),
{
}

} // verus!
