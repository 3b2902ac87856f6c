//! Quantile cuts: the boundaries of the bins, and what decides where they fall.
//!
//! A weighted quantile sketch sorts the values of a column, folds equal ones together and
//! thins what is left to evenly spaced ranks. The ranks are single-precision sums; what is
//! here are the decisions taken on them (which entry follows which, which entries stay) and
//! everything done with the cuts once they are there. Values, weights and ranks are bit
//! patterns.

use vstd::prelude::*;

use crate::data::radix::{comes_before, radix_order, sorts};
use crate::error::Error;
use crate::float_bits::{is_nan_spec, le, le_spec, lt, lt_spec, rank, same, same_spec, SIGN_BIT};

verus! {

/// Queues shorter than this are not worth the radix bookkeeping.
pub const RADIX_MIN: usize = 512;

// ----------------------------------------------------------- sort keys ----

/// Order-preserving 32-bit key: the sign bit flipped for a positive value, every bit
/// flipped for a negative one.
pub open spec fn key_spec(bits: u32) -> u32 {
    if bits >= SIGN_BIT {
        (0xFFFF_FFFF - bits) as u32
    } else {
        (bits + SIGN_BIT) as u32
    }
}

/// Order-preserving 32-bit key of a value.
pub fn float_key(bits: u32) -> (key: u32)
    ensures
        key == key_spec(bits),
{
    if bits >= SIGN_BIT {
        0xFFFF_FFFF - bits
    } else {
        bits + SIGN_BIT
    }
}

/// The same key with the negative zero folded onto the positive one.
pub open spec fn value_key_spec(bits: u32) -> u32 {
    if bits == SIGN_BIT {
        SIGN_BIT
    } else {
        key_spec(bits)
    }
}

/// Order-preserving 32-bit key of a value, the same for both zeros.
pub fn value_key(bits: u32) -> (key: u32)
    ensures
        key == value_key_spec(bits),
{
    if bits == SIGN_BIT {
        SIGN_BIT
    } else {
        float_key(bits)
    }
}

/// Keys order as values do: a smaller value has a smaller key, and only the two zeros share
/// a value without sharing a [`float_key`].
pub proof fn lemma_key_order(a: u32, b: u32)
    ensures
        rank(a) < rank(b) ==> key_spec(a) < key_spec(b),
        key_spec(a) == key_spec(b) <==> a == b,
        rank(a) < rank(b) <==> value_key_spec(a) < value_key_spec(b),
        rank(a) == rank(b) <==> value_key_spec(a) == value_key_spec(b),
{
}

// ------------------------------------------------------- the staging queue ----

/// One staged value and its weight.
#[derive(Clone, Copy, Debug, PartialEq, Eq, Structural)]
pub struct QEntry {
    pub value: u32,
    pub weight: u32,
}

/// The keys a queue is sorted by.
pub open spec fn queue_keys(queue: Seq<QEntry>) -> Seq<u32> {
    Seq::new(
        queue.len(),
        |i: int|
            if queue.len() < RADIX_MIN {
                value_key_spec(queue[i].value)
            } else {
                key_spec(queue[i].value)
            },
    )
}

/// `sorted` is `queue` in the order `order`.
pub open spec fn arranged(queue: Seq<QEntry>, order: Seq<usize>, sorted: Seq<QEntry>) -> bool {
    &&& sorted.len() == order.len()
    &&& forall|i: int| 0 <= i < order.len() ==> #[trigger] sorted[i] == queue[order[i] as int]
}

/// Sort the staging queue by value, entries of equal value in the order they came.
///
/// A short queue treats the two zeros as the equal values they are; a long one is sorted by
/// [`float_key`], which puts the negative zero first.
pub fn sort_queue(queue: &mut Vec<QEntry>)
    ensures
        exists|order: Seq<usize>|
            #[trigger] sorts(queue_keys(old(queue)@), order) && arranged(old(queue)@, order, final(queue)@),
        forall|i: int, j: int|
            0 <= i < j < final(queue).len() ==> rank(#[trigger] final(queue)[i].value) <= rank(
                #[trigger] final(queue)[j].value,
            ),
{
    let n: usize = queue.len();
    let mut keys: Vec<u32> = Vec::with_capacity(n);
    let mut i: usize = 0;
    while i < n
        invariant
            n == queue.len(),
            i <= n,
            keys.len() == i,
            forall|k: int| 0 <= k < i ==> #[trigger] keys[k] == queue_keys(queue@)[k],
        decreases n - i,
    {
        let value: u32 = queue[i].value;
        let key: u32 = if n < RADIX_MIN {
            value_key(value)
        } else {
            float_key(value)
        };
        keys.push(key);
        i += 1;
    }
    assert(keys@ =~= queue_keys(queue@));
    let order: Vec<usize> = radix_order(keys.as_slice());
    let mut out: Vec<QEntry> = Vec::with_capacity(n);
    let mut i: usize = 0;
    while i < n
        invariant
            n == queue.len(),
            keys@ == queue_keys(queue@),
            sorts(keys@, order@),
            i <= n,
            out.len() == i,
            forall|k: int| 0 <= k < i ==> #[trigger] out[k] == queue[order[k] as int],
        decreases n - i,
    {
        out.push(queue[order[i]]);
        i += 1;
    }
    proof {
        assert(arranged(queue@, order@, out@));
        assert forall|i: int, j: int| 0 <= i < j < out.len() implies rank(#[trigger] out[i].value) <= rank(
            #[trigger] out[j].value,
        ) by {
            let a = order[i] as int;
            let b = order[j] as int;
            assert(comes_before(keys@, a, b));
            lemma_key_order(queue[a].value, queue[b].value);
            lemma_key_order(queue[b].value, queue[a].value);
        }
    }
    *queue = out;
}

/// Where a run of equal values starting at `i` ends.
pub open spec fn run_ends(values: Seq<QEntry>, i: int, j: int) -> bool {
    &&& i < j <= values.len()
    &&& forall|k: int| i < k < j ==> same_spec((#[trigger] values[k]).value, values[i].value)
    &&& j < values.len() ==> !same_spec(values[j].value, values[i].value)
}

/// Cut a sorted queue into runs of equal values: each run's first position, and the end of
/// the last.
pub fn equal_runs(queue: &[QEntry]) -> (starts: Vec<usize>)
    ensures
        starts.len() > 0,
        starts[0] == 0,
        starts@.last() == queue.len(),
        forall|r: int| 0 <= r < starts.len() - 1 ==> run_ends(queue@, #[trigger] starts[r] as int, starts[r + 1] as int),
{
    let mut starts: Vec<usize> = Vec::new();
    starts.push(0);
    let mut i: usize = 0;
    while i < queue.len()
        invariant
            i <= queue.len(),
            starts.len() > 0,
            starts[0] == 0,
            starts@.last() == i,
            forall|r: int|
                0 <= r < starts.len() - 1 ==> run_ends(queue@, #[trigger] starts[r] as int, starts[r + 1] as int),
        decreases queue.len() - i,
    {
        let mut j: usize = i + 1;
        while j < queue.len() && same(queue[j].value, queue[i].value)
            invariant
                i < queue.len(),
                i < j <= queue.len(),
                forall|k: int| i < k < j ==> same_spec((#[trigger] queue[k]).value, queue[i as int].value),
            ensures
                run_ends(queue@, i as int, j as int),
            decreases queue.len() - j,
        {
            j += 1;
        }
        let ghost was = starts@;
        starts.push(j);
        proof {
            assert forall|r: int| 0 <= r < starts.len() - 1 implies run_ends(
                queue@,
                #[trigger] starts[r] as int,
                starts[r + 1] as int,
            ) by {
                assert(starts[r] == was[r]);
                if r + 1 < was.len() {
                    assert(starts[r + 1] == was[r + 1]);
                }
            }
        }
        i = j;
    }
    starts
}

/// What a sketch does with one more value.
#[derive(Clone, Copy, Debug, PartialEq, Eq, Structural)]
pub enum PushStep {
    /// A value of no weight is not looked at.
    Skip,
    /// The value is the last one staged: its weight is added to that.
    Merge,
    /// The value is staged.
    Append,
    /// The queue is full: it is summarised and emptied, then the value is staged.
    Flush,
}

/// What a sketch does with value `x` of weight `w`, its queue of `capacity` entries holding
/// `staged`, the last of which has value `last`.
pub fn push_step(staged: usize, capacity: usize, last: u32, x: u32, w: u32) -> (step: PushStep)
    requires
        staged <= capacity,
        0 < capacity,
    ensures
        step == (if same_spec(w, 0) {
            PushStep::Skip
        } else if staged > 0 && same_spec(last, x) {
            PushStep::Merge
        } else if staged == capacity {
            PushStep::Flush
        } else {
            PushStep::Append
        }),
        step is Append ==> staged < capacity && !same_spec(w, 0),
        step is Merge ==> staged > 0 && same_spec(last, x) && !same_spec(w, 0),
        step is Flush ==> staged == capacity,
        step is Skip <==> same_spec(w, 0),
{
    if same(w, 0) {
        PushStep::Skip
    } else if staged > 0 && same(last, x) {
        PushStep::Merge
    } else if staged == capacity {
        PushStep::Flush
    } else {
        PushStep::Append
    }
}

// ------------------------------------------------------- thinning a summary ----

/// The last entry from `i` on whose successor's mid-rank is not beyond `dx2`; at most the
/// last entry. `sums[k]` is the doubled mid-rank of entry `k`.
pub open spec fn advance(sums: Seq<u32>, i: int, dx2: u32) -> int
    decreases sums.len() - i,
{
    if 0 <= i < sums.len() - 1 && le_spec(sums[i + 1], dx2) {
        advance(sums, i + 1, dx2)
    } else {
        i
    }
}

/// One step of thinning: where the scan stands afterwards, and the entry it stays at, `None`
/// where it has reached the last. `mids[k]` is where entries `k` and `k + 1` part.
pub open spec fn stay(sums: Seq<u32>, mids: Seq<u32>, i: int, dx2: u32) -> Option<int> {
    let at = advance(sums, i, dx2);
    if at == sums.len() - 1 {
        None
    } else if lt_spec(dx2, mids[at]) {
        Some(at)
    } else {
        Some(at + 1)
    }
}

/// The entries that stay after the queries `dx2s[..m]`, and where the scan stands, `None`
/// once it has reached the last entry.
pub open spec fn thinned(sums: Seq<u32>, mids: Seq<u32>, dx2s: Seq<u32>, m: int) -> (Seq<int>, Option<int>)
    decreases m,
{
    if m <= 0 {
        (seq![0int], Some(1int))
    } else {
        let (kept, at) = thinned(sums, mids, dx2s, m - 1);
        match at {
            None => (kept, None),
            Some(i) => match stay(sums, mids, i, dx2s[m - 1]) {
                None => (kept, None),
                Some(k) => (
                    if k == kept.last() {
                        kept
                    } else {
                        kept.push(k)
                    },
                    Some(advance(sums, i, dx2s[m - 1])),
                ),
            },
        }
    }
}

/// The entries that stay: those the queries pick, and the last one.
pub open spec fn kept_entries(sums: Seq<u32>, mids: Seq<u32>, dx2s: Seq<u32>) -> Seq<int> {
    let kept = thinned(sums, mids, dx2s, dx2s.len() as int).0;
    if kept.last() == sums.len() - 1 {
        kept
    } else {
        kept.push(sums.len() - 1)
    }
}

proof fn lemma_advance(sums: Seq<u32>, i: int, dx2: u32)
    requires
        0 <= i < sums.len(),
    ensures
        i <= advance(sums, i, dx2) < sums.len(),
        advance(sums, i, dx2) == sums.len() - 1 || !le_spec(sums[advance(sums, i, dx2) + 1], dx2),
    decreases sums.len() - i,
{
    if i < sums.len() - 1 && le_spec(sums[i + 1], dx2) {
        lemma_advance(sums, i + 1, dx2);
    }
}

/// A summary of more than `maxsize` entries keeps its first and its last entry, at most
/// `maxsize` in all, and no entry twice in a row.
pub proof fn lemma_kept_entries(sums: Seq<u32>, mids: Seq<u32>, dx2s: Seq<u32>)
    requires
        sums.len() >= 2,
    ensures
        kept_entries(sums, mids, dx2s).len() <= dx2s.len() + 2,
        kept_entries(sums, mids, dx2s)[0] == 0,
        kept_entries(sums, mids, dx2s).last() == sums.len() - 1,
        forall|i: int|
            0 <= i < kept_entries(sums, mids, dx2s).len() ==> 0 <= #[trigger] kept_entries(sums, mids, dx2s)[i]
                < sums.len(),
        forall|i: int|
            0 <= i < kept_entries(sums, mids, dx2s).len() - 1 ==> #[trigger] kept_entries(sums, mids, dx2s)[i]
                != kept_entries(sums, mids, dx2s)[i + 1],
{
    lemma_thinned(sums, mids, dx2s, dx2s.len() as int);
}

proof fn lemma_thinned(sums: Seq<u32>, mids: Seq<u32>, dx2s: Seq<u32>, m: int)
    requires
        sums.len() >= 2,
        0 <= m <= dx2s.len(),
    ensures
        ({
            let (kept, at) = thinned(sums, mids, dx2s, m);
            &&& 1 <= kept.len() <= m + 1
            &&& kept[0] == 0
            &&& forall|i: int| 0 <= i < kept.len() ==> 0 <= #[trigger] kept[i] < sums.len()
            &&& forall|i: int| 0 <= i < kept.len() - 1 ==> #[trigger] kept[i] != kept[i + 1]
            &&& at matches Some(i) ==> 0 <= i < sums.len()
        }),
    decreases m,
{
    if m > 0 {
        lemma_thinned(sums, mids, dx2s, m - 1);
        let (kept, at) = thinned(sums, mids, dx2s, m - 1);
        if at is Some {
            lemma_advance(sums, at->0, dx2s[m - 1]);
        }
    }
}

/// Thin a summary to at most `dx2s.len() + 2` entries spaced evenly in rank: the positions
/// of the entries that stay.
///
/// `sums` holds each entry's doubled mid-rank, `mids` where each entry and the next part,
/// `dx2s` the doubled ranks asked for.
pub fn prune_entries(sums: &[u32], mids: &[u32], dx2s: &[u32]) -> (kept: Vec<usize>)
    requires
        sums.len() >= 2,
        mids.len() + 1 >= sums.len(),
    ensures
        kept.len() == kept_entries(sums@, mids@, dx2s@).len(),
        forall|i: int| 0 <= i < kept.len() ==> #[trigger] kept[i] == kept_entries(sums@, mids@, dx2s@)[i],
{
    let last: usize = sums.len() - 1;
    let mut kept: Vec<usize> = Vec::new();
    kept.push(0);
    // Avoids keeping the same entry twice.
    let mut lastidx: usize = 0;
    let mut i: usize = 1;
    let mut k: usize = 0;
    let mut done: bool = false;
    while k < dx2s.len() && !done
        invariant
            sums.len() >= 2,
            mids.len() + 1 >= sums.len(),
            last == sums.len() - 1,
            k <= dx2s.len(),
            i <= last,
            kept.len() > 0,
            lastidx == kept@.last(),
            ({
                let (want, at) = thinned(sums@, mids@, dx2s@, k as int);
                &&& kept.len() == want.len()
                &&& forall|j: int| 0 <= j < kept.len() ==> #[trigger] kept[j] == want[j]
                &&& done ==> at is None
                &&& !done ==> at == Some(i as int)
            }),
        decreases dx2s.len() - k,
    {
        let dx2: u32 = dx2s[k];
        let ghost from = i as int;
        let ghost want0 = thinned(sums@, mids@, dx2s@, k as int).0;
        proof {
            lemma_advance(sums@, i as int, dx2);
        }
        while i < last && le(sums[i + 1], dx2)
            invariant
                last == sums.len() - 1,
                i <= last,
                advance(sums@, from, dx2) == advance(sums@, i as int, dx2),
            ensures
                i <= last,
                i == advance(sums@, from, dx2),
            decreases last - i,
        {
            i += 1;
        }
        if i == last {
            done = true;
        } else {
            let pick: usize = if lt(dx2, mids[i]) {
                i
            } else {
                i + 1
            };
            assert(stay(sums@, mids@, from, dx2) == Some(pick as int));
            assert(want0.last() == lastidx);
            if pick != lastidx {
                kept.push(pick);
                lastidx = pick;
            }
        }
        k += 1;
    }
    proof {
        if done {
            lemma_thinned_done(sums@, mids@, dx2s@, k as int, dx2s.len() as int);
        }
        let want = thinned(sums@, mids@, dx2s@, dx2s.len() as int).0;
        assert(want.last() == lastidx);
    }
    if lastidx != last {
        kept.push(last);
    }
    kept
}

/// Once the scan has reached the last entry nothing more is picked.
proof fn lemma_thinned_done(sums: Seq<u32>, mids: Seq<u32>, dx2s: Seq<u32>, a: int, b: int)
    requires
        0 <= a <= b,
        thinned(sums, mids, dx2s, a).1 is None,
    ensures
        thinned(sums, mids, dx2s, b) == thinned(sums, mids, dx2s, a),
    decreases b,
{
    if a < b {
        lemma_thinned_done(sums, mids, dx2s, a, b - 1);
    }
}

// ------------------------------------------------------ levels of a sketch ----

/// Summary entries kept per bin while a column is sketched.
pub const K_FACTOR: usize = 8;

/// The sizes a column's sketch works with.
#[derive(Clone, Copy, Debug, PartialEq, Eq, Structural)]
pub struct SketchSizes {
    /// Bins the sketch is made accurate for.
    pub n_bins: usize,
    /// Entries its summary is thinned to.
    pub intermediate: usize,
    /// Bins the column may have.
    pub max_num_bins: usize,
}

/// The sizes of a sketch of `values` values for at most `max_bins` bins.
pub open spec fn sizes_of(values: int, max_bins: int) -> (int, int, int) {
    let least = if values < max_bins {
        values
    } else {
        max_bins
    };
    let n_bins = if least < 1 {
        1
    } else {
        least
    };
    let intermediate = if values < max_bins * K_FACTOR {
        values
    } else {
        max_bins * K_FACTOR
    };
    (n_bins, intermediate, if intermediate < max_bins {
        intermediate
    } else {
        max_bins
    })
}

pub fn sketch_sizes(values: usize, max_bins: usize) -> (sizes: SketchSizes)
    requires
        max_bins * K_FACTOR <= usize::MAX,
    ensures
        sizes.n_bins == sizes_of(values as int, max_bins as int).0,
        sizes.intermediate == sizes_of(values as int, max_bins as int).1,
        sizes.max_num_bins == sizes_of(values as int, max_bins as int).2,
{
    let least: usize = if values < max_bins {
        values
    } else {
        max_bins
    };
    let n_bins: usize = if least < 1 {
        1
    } else {
        least
    };
    let limit: usize = max_bins * K_FACTOR;
    let intermediate: usize = if values < limit {
        values
    } else {
        limit
    };
    let max_num_bins: usize = if intermediate < max_bins {
        intermediate
    } else {
        max_bins
    };
    SketchSizes { n_bins, intermediate, max_num_bins }
}

/// Whether `nlevel` levels of `limit_size` entries hold a sketch of `maxn` values: each level
/// stands for twice as many as the one below.
pub fn levels_suffice(nlevel: u32, limit_size: usize, maxn: usize) -> (yes: bool)
    requires
        limit_size >= 1,
    ensures
        yes == (vstd::arithmetic::power2::pow2(nlevel as nat) * limit_size >= maxn),
{
    let mut n: usize = 1;
    let mut k: u32 = 0;
    proof {
        vstd::arithmetic::power2::lemma2_to64();
    }
    while k < nlevel
        invariant
            k <= nlevel,
            limit_size >= 1,
            n == vstd::arithmetic::power2::pow2(k as nat),
            n >= 1,
        decreases nlevel - k,
    {
        proof {
            vstd::arithmetic::power2::lemma_pow2_unfold((k + 1) as nat);
        }
        if n >= maxn || n > usize::MAX / 2 {
            proof {
                vstd::arithmetic::power2::lemma_pow2_strictly_increases(k as nat, nlevel as nat);
                let p = vstd::arithmetic::power2::pow2(nlevel as nat) as int;
                let q = vstd::arithmetic::power2::pow2((k + 1) as nat) as int;
                if k + 1 < nlevel {
                    vstd::arithmetic::power2::lemma_pow2_strictly_increases((k + 1) as nat, nlevel as nat);
                }
                assert(p >= maxn);
                assert(p * limit_size >= p) by (nonlinear_arith)
                    requires
                        limit_size >= 1,
                        p >= 0,
                ;
            }
            return true;
        }
        n = n * 2;
        k += 1;
    }
    match n.checked_mul(limit_size) {
        Some(size) => size >= maxn,
        None => true,
    }
}

/// What becomes of a summary that is carried up to a level.
#[derive(Clone, Copy, Debug, PartialEq, Eq, Structural)]
pub enum Carry {
    /// The level is empty: the summary stays there, thinned.
    Store,
    /// The summary merged with the level's is small enough to stay in its place.
    Replace,
    /// It is not: the level is emptied, and the merged summary goes up another.
    Up,
}

/// Whether the summary stays at a level; `merged` is how many entries it has with the level's
/// own, thinned and merged.
pub fn carry(level: usize, merged: usize, limit_size: usize) -> (step: Carry)
    ensures
        step == (if level == 0 {
            Carry::Store
        } else if merged > limit_size {
            Carry::Up
        } else {
            Carry::Replace
        }),
{
    if level == 0 {
        Carry::Store
    } else if merged > limit_size {
        Carry::Up
    } else {
        Carry::Replace
    }
}

// --------------------------------------------------------- merging summaries ----

/// One entry of a merged summary.
#[derive(Clone, Copy, Debug, PartialEq, Eq, Structural)]
pub enum MergeStep {
    /// Entry `a` of the first and entry `b` of the second, of equal value.
    Both { a: usize, b: usize },
    /// Entry `a` of the first, which comes before entry `b` of the second; `b` is the
    /// second's length where nothing of it is left.
    First { a: usize, b: usize },
    /// Entry `b` of the second, which comes before entry `a` of the first; `a` is the
    /// first's length where nothing of it is left.
    Second { a: usize, b: usize },
}

/// The rest of a merge that stands at entry `a` of the first summary and entry `b` of the
/// second.
pub open spec fn merge_from(sa: Seq<u32>, sb: Seq<u32>, a: int, b: int) -> Seq<MergeStep>
    decreases (sa.len() - a) + (sb.len() - b),
{
    if 0 <= a < sa.len() && 0 <= b < sb.len() {
        if same_spec(sa[a], sb[b]) {
            seq![MergeStep::Both { a: a as usize, b: b as usize }] + merge_from(sa, sb, a + 1, b + 1)
        } else if lt_spec(sa[a], sb[b]) {
            seq![MergeStep::First { a: a as usize, b: b as usize }] + merge_from(sa, sb, a + 1, b)
        } else {
            seq![MergeStep::Second { a: a as usize, b: b as usize }] + merge_from(sa, sb, a, b + 1)
        }
    } else if 0 <= a < sa.len() && b == sb.len() {
        seq![MergeStep::First { a: a as usize, b: b as usize }] + merge_from(sa, sb, a + 1, b)
    } else if 0 <= b < sb.len() && a == sa.len() {
        seq![MergeStep::Second { a: a as usize, b: b as usize }] + merge_from(sa, sb, a, b + 1)
    } else {
        Seq::empty()
    }
}

/// The entries of two summaries merged by value: equal values together, otherwise the
/// smaller first, and what is left of either at the end. `sa` and `sb` hold the values.
pub fn merge_plan(sa: &[u32], sb: &[u32]) -> (plan: Vec<MergeStep>)
    requires
        sa.len() + sb.len() <= usize::MAX,
    ensures
        plan@ == merge_from(sa@, sb@, 0, 0),
{
    let mut plan: Vec<MergeStep> = Vec::new();
    let mut a: usize = 0;
    let mut b: usize = 0;
    assert(plan@ + merge_from(sa@, sb@, 0, 0) =~= merge_from(sa@, sb@, 0, 0));
    while a < sa.len() || b < sb.len()
        invariant
            a <= sa.len(),
            b <= sb.len(),
            sa.len() + sb.len() <= usize::MAX,
            plan@ + merge_from(sa@, sb@, a as int, b as int) == merge_from(sa@, sb@, 0, 0),
        decreases (sa.len() - a) + (sb.len() - b),
    {
        let ghost was = plan@;
        let ghost rest = merge_from(sa@, sb@, a as int, b as int);
        let ghost (a0, b0) = (a as int, b as int);
        let step: MergeStep = if a < sa.len() && b < sb.len() {
            if same(sa[a], sb[b]) {
                MergeStep::Both { a, b }
            } else if lt(sa[a], sb[b]) {
                MergeStep::First { a, b }
            } else {
                MergeStep::Second { a, b }
            }
        } else if a < sa.len() {
            MergeStep::First { a, b }
        } else {
            MergeStep::Second { a, b }
        };
        plan.push(step);
        match step {
            MergeStep::Both { a: _, b: _ } => {
                a += 1;
                b += 1;
            },
            MergeStep::First { a: _, b: _ } => {
                a += 1;
            },
            MergeStep::Second { a: _, b: _ } => {
                b += 1;
            },
        }
        assert(rest =~= seq![step] + merge_from(sa@, sb@, a as int, b as int));
        assert(plan@ + merge_from(sa@, sb@, a as int, b as int) =~= was + rest);
    }
    assert(plan@ + Seq::<MergeStep>::empty() =~= plan@);
    plan
}

/// The value of a merged entry.
pub open spec fn merged_value(sa: Seq<u32>, sb: Seq<u32>, step: MergeStep) -> u32 {
    match step {
        MergeStep::Both { a, .. } => sa[a as int],
        MergeStep::First { a, .. } => sa[a as int],
        MergeStep::Second { b, .. } => sb[b as int],
    }
}

/// The values of a merged summary.
pub open spec fn merged_values(sa: Seq<u32>, sb: Seq<u32>, plan: Seq<MergeStep>) -> Seq<u32> {
    Seq::new(plan.len(), |i: int| merged_value(sa, sb, plan[i]))
}

/// The step with the sides swapped.
pub open spec fn turned(step: MergeStep) -> MergeStep {
    match step {
        MergeStep::Both { a, b } => MergeStep::Both { a: b, b: a },
        MergeStep::First { a, b } => MergeStep::Second { a: b, b: a },
        MergeStep::Second { a, b } => MergeStep::First { a: b, b: a },
    }
}

/// The step takes entry `k` of the first summary.
pub open spec fn takes_first(step: MergeStep, k: int) -> bool {
    match step {
        MergeStep::Both { a, .. } => a == k,
        MergeStep::First { a, .. } => a == k,
        MergeStep::Second { .. } => false,
    }
}

/// The step takes entry `k` of the second summary.
pub open spec fn takes_second(step: MergeStep, k: int) -> bool {
    match step {
        MergeStep::Both { b, .. } => b == k,
        MergeStep::First { .. } => false,
        MergeStep::Second { b, .. } => b == k,
    }
}

/// None of the values is a NaN.
pub open spec fn all_numbers(values: Seq<u32>) -> bool {
    forall|i: int| 0 <= i < values.len() ==> !is_nan_spec(#[trigger] values[i])
}

/// The values strictly ascend.
pub open spec fn strictly_ascend(values: Seq<u32>) -> bool {
    forall|i: int, j: int| 0 <= i < j < values.len() ==> lt_spec(#[trigger] values[i], #[trigger] values[j])
}

/// The steps of a merge name entries that exist, from the ones it stands at on; two are taken
/// together where their values are equal.
pub open spec fn step_ok(sa: Seq<u32>, sb: Seq<u32>, step: MergeStep) -> bool {
    match step {
        MergeStep::Both { a, b } => a < sa.len() && b < sb.len() && same_spec(sa[a as int], sb[b as int]),
        MergeStep::First { a, b } => a < sa.len() && b <= sb.len(),
        MergeStep::Second { a, b } => a <= sa.len() && b < sb.len(),
    }
}

proof fn lemma_merge_steps(sa: Seq<u32>, sb: Seq<u32>, a: int, b: int)
    requires
        0 <= a <= sa.len() <= usize::MAX,
        0 <= b <= sb.len() <= usize::MAX,
    ensures
        forall|i: int| 0 <= i < merge_from(sa, sb, a, b).len() ==> step_ok(sa, sb, #[trigger] merge_from(sa, sb, a, b)[i]),
    decreases (sa.len() - a) + (sb.len() - b),
{
    let plan = merge_from(sa, sb, a, b);
    if a < sa.len() || b < sb.len() {
        let (c, d) = after_step(plan[0], a, b);
        lemma_merge_steps(sa, sb, c, d);
        let rest = merge_from(sa, sb, c, d);
        assert(plan =~= seq![plan[0]] + rest);
        assert forall|i: int| 0 <= i < plan.len() implies step_ok(sa, sb, #[trigger] plan[i]) by {
            if i > 0 {
                assert(plan[i] == rest[i - 1]);
            }
        }
    }
}

/// Where a merge stands after a step.
spec fn after_step(step: MergeStep, a: int, b: int) -> (int, int) {
    match step {
        MergeStep::Both { .. } => (a + 1, b + 1),
        MergeStep::First { .. } => (a + 1, b),
        MergeStep::Second { .. } => (a, b + 1),
    }
}

proof fn lemma_merge_turned(sa: Seq<u32>, sb: Seq<u32>, a: int, b: int)
    requires
        0 <= a <= sa.len() <= usize::MAX,
        0 <= b <= sb.len() <= usize::MAX,
        all_numbers(sa),
        all_numbers(sb),
    ensures
        merge_from(sb, sa, b, a) == Seq::new(
            merge_from(sa, sb, a, b).len(),
            |i: int| turned(merge_from(sa, sb, a, b)[i]),
        ),
    decreases (sa.len() - a) + (sb.len() - b),
{
    let plan = merge_from(sa, sb, a, b);
    let back = merge_from(sb, sa, b, a);
    if a < sa.len() || b < sb.len() {
        let (c, d) = after_step(plan[0], a, b);
        lemma_merge_turned(sa, sb, c, d);
        let rest = merge_from(sa, sb, c, d);
        assert(plan =~= seq![plan[0]] + rest);
        assert(back =~= seq![turned(plan[0])] + merge_from(sb, sa, d, c));
        assert forall|i: int| 0 <= i < plan.len() implies back[i] == turned(#[trigger] plan[i]) by {
            if i > 0 {
                assert(plan[i] == rest[i - 1]);
                assert(back[i] == merge_from(sb, sa, d, c)[i - 1]);
            }
        }
    }
    assert(back =~= Seq::new(plan.len(), |i: int| turned(plan[i])));
}

/// Merging is symmetric: swapping the summaries swaps the sides of every step, and the merged
/// values are the same.
pub proof fn lemma_merge_symmetric(sa: Seq<u32>, sb: Seq<u32>)
    requires
        sa.len() <= usize::MAX,
        sb.len() <= usize::MAX,
        all_numbers(sa),
        all_numbers(sb),
    ensures
        ({
            let plan = merge_from(sa, sb, 0, 0);
            let back = merge_from(sb, sa, 0, 0);
            &&& back == Seq::new(plan.len(), |i: int| turned(plan[i]))
            &&& forall|i: int|
                0 <= i < plan.len() ==> same_spec(
                    #[trigger] merged_values(sa, sb, plan)[i],
                    merged_values(sb, sa, back)[i],
                )
        }),
{
    let plan = merge_from(sa, sb, 0, 0);
    let back = merge_from(sb, sa, 0, 0);
    lemma_merge_turned(sa, sb, 0, 0);
    lemma_merge_steps(sa, sb, 0, 0);
    assert forall|i: int| 0 <= i < plan.len() implies same_spec(
        #[trigger] merged_values(sa, sb, plan)[i],
        merged_values(sb, sa, back)[i],
    ) by {
        assert(step_ok(sa, sb, plan[i]));
        assert(back[i] == turned(plan[i]));
    }
}

proof fn lemma_merge_rest(sa: Seq<u32>, sb: Seq<u32>, a: int, b: int)
    requires
        0 <= a <= sa.len() <= usize::MAX,
        0 <= b <= sb.len() <= usize::MAX,
        a == sa.len() || b == sb.len(),
    ensures
        b == sb.len() ==> merge_from(sa, sb, a, b) == Seq::new(
            (sa.len() - a) as nat,
            |i: int| MergeStep::First { a: (a + i) as usize, b: b as usize },
        ),
        a == sa.len() ==> merge_from(sa, sb, a, b) == Seq::new(
            (sb.len() - b) as nat,
            |i: int| MergeStep::Second { a: a as usize, b: (b + i) as usize },
        ),
    decreases (sa.len() - a) + (sb.len() - b),
{
    let plan = merge_from(sa, sb, a, b);
    if a < sa.len() {
        lemma_merge_rest(sa, sb, a + 1, b);
        let rest = merge_from(sa, sb, a + 1, b);
        assert(plan =~= seq![MergeStep::First { a: a as usize, b: b as usize }] + rest);
    } else if b < sb.len() {
        lemma_merge_rest(sa, sb, a, b + 1);
        let rest = merge_from(sa, sb, a, b + 1);
        assert(plan =~= seq![MergeStep::Second { a: a as usize, b: b as usize }] + rest);
    }
    if b == sb.len() {
        assert(plan =~= Seq::new(
            (sa.len() - a) as nat,
            |i: int| MergeStep::First { a: (a + i) as usize, b: b as usize },
        ));
    }
    if a == sa.len() {
        assert(plan =~= Seq::new(
            (sb.len() - b) as nat,
            |i: int| MergeStep::Second { a: a as usize, b: (b + i) as usize },
        ));
    }
}

/// Merging with an empty summary gives the other one unchanged, on either side.
pub proof fn lemma_merge_empty(s: Seq<u32>)
    requires
        s.len() <= usize::MAX,
    ensures
        merge_from(s, Seq::empty(), 0, 0) == Seq::new(s.len(), |i: int| MergeStep::First { a: i as usize, b: 0 }),
        merge_from(Seq::empty(), s, 0, 0) == Seq::new(s.len(), |i: int| MergeStep::Second { a: 0, b: i as usize }),
        merged_values(s, Seq::empty(), merge_from(s, Seq::empty(), 0, 0)) == s,
        merged_values(Seq::empty(), s, merge_from(Seq::empty(), s, 0, 0)) == s,
{
    let none = Seq::<u32>::empty();
    lemma_merge_rest(s, none, 0, 0);
    lemma_merge_rest(none, s, 0, 0);
    assert(merge_from(s, none, 0, 0) =~= Seq::new(s.len(), |i: int| MergeStep::First { a: i as usize, b: 0 }));
    assert(merge_from(none, s, 0, 0) =~= Seq::new(s.len(), |i: int| MergeStep::Second { a: 0, b: i as usize }));
    assert(merged_values(s, none, merge_from(s, none, 0, 0)) =~= s);
    assert(merged_values(none, s, merge_from(none, s, 0, 0)) =~= s);
}

/// A value that is not below where a merge stands.
spec fn not_before(sa: Seq<u32>, sb: Seq<u32>, a: int, b: int, v: u32) -> bool {
    (a < sa.len() && le_spec(sa[a], v)) || (b < sb.len() && le_spec(sb[b], v))
}

proof fn lemma_merge_ascends(sa: Seq<u32>, sb: Seq<u32>, a: int, b: int)
    requires
        0 <= a <= sa.len() <= usize::MAX,
        0 <= b <= sb.len() <= usize::MAX,
        all_numbers(sa),
        all_numbers(sb),
        strictly_ascend(sa),
        strictly_ascend(sb),
    ensures
        strictly_ascend(merged_values(sa, sb, merge_from(sa, sb, a, b))),
        forall|i: int|
            0 <= i < merge_from(sa, sb, a, b).len() ==> not_before(
                sa,
                sb,
                a,
                b,
                #[trigger] merged_values(sa, sb, merge_from(sa, sb, a, b))[i],
            ),
    decreases (sa.len() - a) + (sb.len() - b),
{
    let plan = merge_from(sa, sb, a, b);
    let values = merged_values(sa, sb, plan);
    if a < sa.len() || b < sb.len() {
        let (c, d) = after_step(plan[0], a, b);
        lemma_merge_ascends(sa, sb, c, d);
        let rest = merge_from(sa, sb, c, d);
        let later = merged_values(sa, sb, rest);
        assert(plan =~= seq![plan[0]] + rest);
        assert forall|i: int| 1 <= i < values.len() implies #[trigger] values[i] == later[i - 1] by {
            assert(plan[i] == rest[i - 1]);
        }
        // What is left stands above the head.
        assert forall|i: int| 1 <= i < values.len() implies lt_spec(values[0], #[trigger] values[i]) by {
            assert(values[i] == later[i - 1]);
            assert(not_before(sa, sb, c, d, later[i - 1]));
            if c == a + 1 && c < sa.len() {
                assert(lt_spec(sa[a], sa[c]));
            }
            if d == b + 1 && d < sb.len() {
                assert(lt_spec(sb[b], sb[d]));
            }
        }
        assert forall|i: int, j: int| 0 <= i < j < values.len() implies lt_spec(#[trigger] values[i], #[trigger] values[j]) by {
            if i > 0 {
                assert(values[i] == later[i - 1] && values[j] == later[j - 1]);
            }
        }
        assert forall|i: int| 0 <= i < plan.len() implies not_before(sa, sb, a, b, #[trigger] values[i]) by {
            assert(not_before(sa, sb, a, b, values[0]));
            if i > 0 {
                assert(lt_spec(values[0], values[i]));
            }
        }
    }
}

proof fn lemma_merge_covers(sa: Seq<u32>, sb: Seq<u32>, a: int, b: int, k: int, first: bool) -> (i: int)
    requires
        0 <= a <= sa.len() <= usize::MAX,
        0 <= b <= sb.len() <= usize::MAX,
        first ==> a <= k < sa.len(),
        !first ==> b <= k < sb.len(),
    ensures
        0 <= i < merge_from(sa, sb, a, b).len(),
        first ==> takes_first(merge_from(sa, sb, a, b)[i], k),
        !first ==> takes_second(merge_from(sa, sb, a, b)[i], k),
    decreases (sa.len() - a) + (sb.len() - b),
{
    let plan = merge_from(sa, sb, a, b);
    let (c, d) = after_step(plan[0], a, b);
    let rest = merge_from(sa, sb, c, d);
    assert(plan =~= seq![plan[0]] + rest);
    if (first && takes_first(plan[0], k)) || (!first && takes_second(plan[0], k)) {
        0
    } else {
        let i = lemma_merge_covers(sa, sb, c, d, k, first);
        assert(plan[i + 1] == rest[i]);
        i + 1
    }
}

/// One of the values equals `v`.
pub open spec fn occurs(values: Seq<u32>, v: u32) -> bool {
    exists|j: int| 0 <= j < values.len() && same_spec(v, #[trigger] values[j])
}

/// Entry `k` of the first summary is taken, together with one of the second exactly where their
/// values are equal.
pub open spec fn first_taken(sa: Seq<u32>, sb: Seq<u32>, plan: Seq<MergeStep>, k: int) -> bool {
    exists|i: int|
        0 <= i < plan.len() && takes_first(#[trigger] plan[i], k) && (plan[i] is Both <==> occurs(sb, sa[k]))
}

/// Entry `k` of the second summary is taken, together with one of the first exactly where their
/// values are equal.
pub open spec fn second_taken(sa: Seq<u32>, sb: Seq<u32>, plan: Seq<MergeStep>, k: int) -> bool {
    exists|i: int|
        0 <= i < plan.len() && takes_second(#[trigger] plan[i], k) && (plan[i] is Both <==> occurs(sa, sb[k]))
}

/// Merging two summaries gives the union of their values, strictly ascending: every entry of
/// either is taken, and two entries are taken together exactly where their values are equal.
pub proof fn lemma_merge_is_union(sa: Seq<u32>, sb: Seq<u32>)
    requires
        sa.len() <= usize::MAX,
        sb.len() <= usize::MAX,
        all_numbers(sa),
        all_numbers(sb),
        strictly_ascend(sa),
        strictly_ascend(sb),
    ensures
        ({
            let plan = merge_from(sa, sb, 0, 0);
            &&& strictly_ascend(merged_values(sa, sb, plan))
            &&& forall|i: int| 0 <= i < plan.len() ==> step_ok(sa, sb, #[trigger] plan[i])
            &&& forall|k: int| 0 <= k < sa.len() ==> #[trigger] first_taken(sa, sb, plan, k)
            &&& forall|k: int| 0 <= k < sb.len() ==> #[trigger] second_taken(sa, sb, plan, k)
        }),
{
    let plan = merge_from(sa, sb, 0, 0);
    let values = merged_values(sa, sb, plan);
    lemma_merge_ascends(sa, sb, 0, 0);
    lemma_merge_steps(sa, sb, 0, 0);
    assert forall|k: int| 0 <= k < sa.len() implies #[trigger] first_taken(sa, sb, plan, k) by {
        let i = lemma_merge_covers(sa, sb, 0, 0, k, true);
        assert(step_ok(sa, sb, plan[i]));
        if occurs(sb, sa[k]) {
            let j = choose|j: int| 0 <= j < sb.len() && same_spec(sa[k], #[trigger] sb[j]);
            let m = lemma_merge_covers(sa, sb, 0, 0, j, false);
            assert(step_ok(sa, sb, plan[m]));
            lemma_same_place(values, i, m);
        } else if plan[i] is Both {
            assert(same_spec(sa[k], sb[plan[i]->Both_b as int]));
        }
        assert(takes_first(plan[i], k));
    }
    assert forall|k: int| 0 <= k < sb.len() implies #[trigger] second_taken(sa, sb, plan, k) by {
        let i = lemma_merge_covers(sa, sb, 0, 0, k, false);
        assert(step_ok(sa, sb, plan[i]));
        if occurs(sa, sb[k]) {
            let j = choose|j: int| 0 <= j < sa.len() && same_spec(sb[k], #[trigger] sa[j]);
            let m = lemma_merge_covers(sa, sb, 0, 0, j, true);
            assert(step_ok(sa, sb, plan[m]));
            lemma_same_place(values, i, m);
        } else if plan[i] is Both {
            assert(same_spec(sb[k], sa[plan[i]->Both_a as int]));
        }
        assert(takes_second(plan[i], k));
    }
}

/// Among values that strictly ascend, equal ones stand at one place.
proof fn lemma_same_place(values: Seq<u32>, i: int, j: int)
    requires
        strictly_ascend(values),
        0 <= i < values.len(),
        0 <= j < values.len(),
        same_spec(values[i], values[j]),
    ensures
        i == j,
{
    if i < j {
        assert(lt_spec(values[i], values[j]));
    } else if j < i {
        assert(lt_spec(values[j], values[i]));
    }
}

/// The largest of the first `n` ranks and zero, passing over what does not compare.
pub open spec fn running_max(ranks: Seq<u32>, n: int) -> u32
    decreases n,
{
    if n <= 0 {
        0
    } else {
        let before = running_max(ranks, n - 1);
        if lt_spec(ranks[n - 1], before) {
            before
        } else {
            ranks[n - 1]
        }
    }
}

/// Raise every rank that rounding left below an earlier one to that one.
pub fn monotone_ranks(ranks: &mut Vec<u32>)
    ensures
        final(ranks).len() == old(ranks).len(),
        forall|i: int| 0 <= i < old(ranks).len() ==> #[trigger] final(ranks)[i] == running_max(old(ranks)@, i + 1),
{
    let ghost before = ranks@;
    let n: usize = ranks.len();
    let mut prev: u32 = 0;
    let mut i: usize = 0;
    while i < n
        invariant
            n == before.len(),
            ranks.len() == n,
            i <= n,
            prev == running_max(before, i as int),
            forall|k: int| 0 <= k < i ==> #[trigger] ranks[k] == running_max(before, k + 1),
            forall|k: int| i <= k < n ==> #[trigger] ranks[k] == before[k],
        decreases n - i,
    {
        if lt(ranks[i], prev) {
            ranks[i] = prev;
        } else {
            prev = ranks[i];
        }
        i += 1;
    }
}

/// The upper ranks after repair: each at least the one before it and at least the rank that
/// its own entry reaches.
pub open spec fn raised(upper: Seq<u32>, reach: Seq<u32>, n: int) -> u32
    decreases n,
{
    if n <= 0 {
        0
    } else {
        let before = raised(upper, reach, n - 1);
        let kept = if lt_spec(upper[n - 1], before) {
            before
        } else {
            upper[n - 1]
        };
        if lt_spec(kept, reach[n - 1]) {
            reach[n - 1]
        } else {
            kept
        }
    }
}

/// Raise every upper rank that rounding left below an earlier one, or below what its own
/// entry reaches.
pub fn raise_ranks(upper: &mut Vec<u32>, reach: &[u32])
    requires
        reach.len() == old(upper).len(),
    ensures
        final(upper).len() == old(upper).len(),
        forall|i: int| 0 <= i < old(upper).len() ==> #[trigger] final(upper)[i] == raised(old(upper)@, reach@, i + 1),
{
    let ghost before = upper@;
    let n: usize = upper.len();
    let mut prev: u32 = 0;
    let mut i: usize = 0;
    while i < n
        invariant
            n == before.len(),
            reach.len() == n,
            upper.len() == n,
            i <= n,
            prev == raised(before, reach@, i as int),
            forall|k: int| 0 <= k < i ==> #[trigger] upper[k] == raised(before, reach@, k + 1),
            forall|k: int| i <= k < n ==> #[trigger] upper[k] == before[k],
        decreases n - i,
    {
        let mut r: u32 = upper[i];
        if lt(r, prev) {
            r = prev;
        }
        if lt(r, reach[i]) {
            r = reach[i];
        }
        upper[i] = r;
        prev = r;
        i += 1;
    }
}

// ---------------------------------------------------------------- the cuts ----

/// Per-feature bin boundaries.
///
/// `cut_values[cut_ptrs[f]..cut_ptrs[f + 1]]` are feature `f`'s upper bin bounds;
/// `min_values[f]` is a value below every observed one, used as the split point when the
/// backward scan splits on the first bin.
#[derive(Clone, Debug, PartialEq, Eq)]
pub struct HistogramCuts {
    pub cut_ptrs: Vec<u32>,
    pub cut_values: Vec<u32>,
    pub min_values: Vec<u32>,
    /// Whether each feature's bins are category codes; empty where none are.
    pub is_categorical: Vec<bool>,
}

/// Categories are the integers below this, which single precision holds exactly.
pub const MAX_CATEGORY: u32 = 0x0100_0000;

/// The category a value names: its integer part, where that is a valid category.
pub open spec fn category_spec(bits: u32) -> Option<u32> {
    if bits == SIGN_BIT || bits < 0x3F80_0000 {
        // Below one, and the negative zero.
        Some(0)
    } else if bits < 0x4B80_0000 {
        // `1.m * 2^(e - 127)`, from one up to `2^24`.
        Some(((bits % 0x80_0000 + 0x80_0000) / vstd::arithmetic::power2::pow2((150 - bits / 0x80_0000) as nat) as int) as u32)
    } else {
        None
    }
}

/// The category a value names, `None` for a negative value or one too large.
pub fn category(bits: u32) -> (code: Option<u32>)
    ensures
        code == category_spec(bits),
        code matches Some(c) ==> c < MAX_CATEGORY,
{
    if bits == SIGN_BIT || bits < 0x3F80_0000 {
        return Some(0);
    }
    if bits >= 0x4B80_0000 {
        return None;
    }
    let exponent: u32 = bits / 0x80_0000;
    let significand: u32 = bits % 0x80_0000 + 0x80_0000;
    let mut shift: u32 = 150 - exponent;
    let ghost total = shift as nat;
    let mut divisor: u32 = 1;
    proof {
        vstd::arithmetic::power2::lemma2_to64();
    }
    while shift > 0
        invariant
            shift <= total <= 23,
            divisor == vstd::arithmetic::power2::pow2((total - shift) as nat),
            divisor <= 0x80_0000,
            vstd::arithmetic::power2::pow2(23) == 0x80_0000,
        decreases shift,
    {
        proof {
            let k = (total - shift) as nat;
            vstd::arithmetic::power2::lemma_pow2_unfold(k + 1);
            if k + 1 < 23 {
                vstd::arithmetic::power2::lemma_pow2_strictly_increases(k + 1, 23);
            }
        }
        divisor = divisor * 2;
        shift -= 1;
    }
    proof {
        vstd::arithmetic::power2::lemma_pow2_pos(total);
        vstd::arithmetic::div_mod::lemma_div_is_ordered_by_denominator(
            significand as int,
            1,
            divisor as int,
        );
    }
    Some(significand / divisor)
}

/// Feature `f`'s cuts ascend and are numbers.
pub open spec fn cuts_sorted(cuts: &HistogramCuts, f: int) -> bool {
    forall|a: int, b: int|
        cuts.cut_ptrs[f] <= a <= b < cuts.cut_ptrs[f + 1] ==> !is_nan_spec(#[trigger] cuts.cut_values[a])
            && !is_nan_spec(#[trigger] cuts.cut_values[b]) && rank(cuts.cut_values[a]) <= rank(cuts.cut_values[b])
}

/// Bin `idx` is the one `value` falls into among feature `f`'s: every cut before it is at
/// most the value, and its own is not, unless it is the last.
pub open spec fn is_bin_of(cuts: &HistogramCuts, value: u32, f: int, idx: int) -> bool {
    &&& cuts.cut_ptrs[f] <= idx < cuts.cut_ptrs[f + 1]
    &&& forall|k: int| cuts.cut_ptrs[f] <= k < idx ==> le_spec(#[trigger] cuts.cut_values[k], value)
    &&& idx + 1 < cuts.cut_ptrs[f + 1] ==> !le_spec(cuts.cut_values[idx], value)
}

/// A value falls into one bin.
pub proof fn lemma_bin_unique(cuts: &HistogramCuts, value: u32, f: int, a: int, b: int)
    requires
        is_bin_of(cuts, value, f, a),
        is_bin_of(cuts, value, f, b),
    ensures
        a == b,
{
    if a < b {
        assert(le_spec(cuts.cut_values[a], value));
    } else if b < a {
        assert(le_spec(cuts.cut_values[b], value));
    }
}

/// Bins do not decrease with the value.
pub proof fn lemma_bins_monotone(cuts: &HistogramCuts, f: int, x: u32, y: u32, a: int, b: int)
    requires
        le_spec(x, y),
        is_bin_of(cuts, x, f, a),
        is_bin_of(cuts, y, f, b),
    ensures
        a <= b,
{
    if b < a {
        assert(le_spec(cuts.cut_values[b], x));
        assert(le_spec(cuts.cut_values[b], y));
    }
}

impl HistogramCuts {
    /// The pointers divide the cuts among the features, each of which has one at least,
    /// in ascending order.
    pub open spec fn wf(&self) -> bool {
        &&& self.cut_ptrs.len() > 0
        &&& self.cut_ptrs[0] == 0
        &&& self.cut_ptrs@.last() == self.cut_values.len()
        &&& self.min_values.len() == self.cut_ptrs.len() - 1
        &&& forall|a: int, b: int|
            0 <= a < b < self.cut_ptrs.len() ==> #[trigger] self.cut_ptrs[a] < #[trigger] self.cut_ptrs[b]
        &&& forall|f: int| 0 <= f < self.cut_ptrs.len() - 1 ==> #[trigger] self.is_sorted(f)
    }

    pub open spec fn is_sorted(&self, f: int) -> bool {
        cuts_sorted(self, f)
    }

    /// Feature `f`'s bins are category codes.
    pub open spec fn categorical(&self, f: int) -> bool {
        f < self.is_categorical.len() && self.is_categorical[f]
    }

    /// Some feature's bins are category codes.
    pub open spec fn any_categorical(&self) -> bool {
        exists|f: int| 0 <= f < self.is_categorical.len() && #[trigger] self.categorical(f)
    }

    /// Bins of feature `f`.
    pub open spec fn width(&self, f: int) -> int {
        self.cut_ptrs[f + 1] - self.cut_ptrs[f]
    }

    /// The same cuts again.
    pub fn duplicate(&self) -> (cuts: Self)
        ensures
            cuts.cut_ptrs@ == self.cut_ptrs@,
            cuts.cut_values@ == self.cut_values@,
            cuts.min_values@ == self.min_values@,
            cuts.is_categorical@ == self.is_categorical@,
    {
        let cuts = HistogramCuts {
            cut_ptrs: self.cut_ptrs.clone(),
            cut_values: self.cut_values.clone(),
            min_values: self.min_values.clone(),
            is_categorical: self.is_categorical.clone(),
        };
        assert(cuts.cut_ptrs@ =~= self.cut_ptrs@);
        assert(cuts.cut_values@ =~= self.cut_values@);
        assert(cuts.min_values@ =~= self.min_values@);
        assert(cuts.is_categorical@ =~= self.is_categorical@);
        cuts
    }

    pub fn num_features(&self) -> (n: usize)
        ensures
            n == (if self.cut_ptrs.len() == 0 {
                0
            } else {
                self.cut_ptrs.len() - 1
            }),
    {
        if self.cut_ptrs.len() == 0 {
            0
        } else {
            self.cut_ptrs.len() - 1
        }
    }

    /// Total bins across all features.
    pub fn total_bins(&self) -> (n: usize)
        ensures
            n == self.cut_values.len(),
    {
        self.cut_values.len()
    }

    pub fn feature_bins(&self, fidx: usize) -> (n: usize)
        requires
            fidx + 1 < self.cut_ptrs.len(),
            self.cut_ptrs[fidx as int] <= self.cut_ptrs[fidx + 1],
        ensures
            n == self.width(fidx as int),
    {
        (self.cut_ptrs[fidx + 1] - self.cut_ptrs[fidx]) as usize
    }

    pub fn is_cat(&self, fidx: usize) -> (cat: bool)
        ensures
            cat == self.categorical(fidx as int),
    {
        fidx < self.is_categorical.len() && self.is_categorical[fidx]
    }

    pub fn has_categorical(&self) -> (any: bool)
        ensures
            any == self.any_categorical(),
            any <==> exists|f: int| 0 <= f < self.is_categorical.len() && #[trigger] self.is_categorical[f],
    {
        let mut f: usize = 0;
        while f < self.is_categorical.len()
            invariant
                f <= self.is_categorical.len(),
                forall|k: int| 0 <= k < f ==> !#[trigger] self.categorical(k),
            decreases self.is_categorical.len() - f,
        {
            if self.is_categorical[f] {
                assert(self.categorical(f as int));
                return true;
            }
            f += 1;
        }
        assert forall|g: int| 0 <= g < self.is_categorical.len() implies !#[trigger] self.is_categorical[g] by {
            assert(!self.categorical(g));
        }
        false
    }

    /// Global bin index for `value` in feature `fidx`: the first cut strictly greater than
    /// `value`, clamped to the feature's last bin.
    ///
    /// The search halves its range without a branch on where the answer lies.
    pub fn search_bin(&self, value: u32, fidx: usize) -> (bin: u32)
        requires
            self.wf(),
            fidx < self.cut_ptrs.len() - 1,
        ensures
            is_bin_of(self, value, fidx as int, bin as int),
    {
        let beg: usize = self.cut_ptrs[fidx] as usize;
        let end: usize = self.cut_ptrs[fidx + 1] as usize;
        assert(self.cut_ptrs[fidx as int] < self.cut_ptrs[fidx + 1]);
        assert(self.is_sorted(fidx as int));
        proof {
            let last = self.cut_ptrs.len() - 1;
            if fidx + 1 < last {
                assert(self.cut_ptrs[fidx + 1] < self.cut_ptrs[last]);
            }
        }
        // Cuts before `base` are at most the value, those from `base + n` on are not.
        let mut base: usize = beg;
        let mut n: usize = end - beg;
        while n > 1
            invariant
                end <= self.cut_values.len(),
                beg == self.cut_ptrs[fidx as int],
                end == self.cut_ptrs[fidx + 1],
                cuts_sorted(self, fidx as int),
                beg <= base,
                1 <= n,
                base + n <= end,
                forall|k: int| beg <= k < base ==> le_spec(#[trigger] self.cut_values[k], value),
                forall|k: int| base + n <= k < end ==> !le_spec(#[trigger] self.cut_values[k], value),
            decreases n,
        {
            let half: usize = n / 2;
            let upper: bool = le(self.cut_values[base + half], value);
            proof {
                if upper {
                    assert forall|k: int| beg <= k < base + half implies le_spec(#[trigger] self.cut_values[k], value) by {
                        assert(rank(self.cut_values[k]) <= rank(self.cut_values[base + half]));
                    }
                } else {
                    assert forall|k: int| base + half <= k < end implies !le_spec(#[trigger] self.cut_values[k], value) by {
                        assert(rank(self.cut_values[base + half]) <= rank(self.cut_values[k]));
                    }
                }
            }
            base = if upper {
                base + half
            } else {
                base
            };
            n -= half;
        }
        let lo: usize = if le(self.cut_values[base], value) {
            base + 1
        } else {
            base
        };
        // A value above every cut belongs to the last bin.
        let idx: usize = if lo == end {
            lo - 1
        } else {
            lo
        };
        idx as u32
    }

    /// The bin of a category, `None` for one without a bin.
    pub fn search_cat_bin(&self, value: u32, fidx: usize) -> (bin: Option<u32>)
        requires
            self.wf(),
            fidx < self.cut_ptrs.len() - 1,
        ensures
            bin == (match category_spec(value) {
                Some(code) => if code < self.width(fidx as int) {
                    Some((self.cut_ptrs[fidx as int] + code) as u32)
                } else {
                    None
                },
                None => None,
            }),
    {
        assert(self.cut_ptrs[fidx as int] < self.cut_ptrs[fidx + 1]);
        match category(value) {
            Some(code) => if code < self.cut_ptrs[fidx + 1] - self.cut_ptrs[fidx] {
                Some(self.cut_ptrs[fidx] + code)
            } else {
                None
            },
            None => None,
        }
    }

    /// `bin` is the global bin of `value` in feature `f`: the category's own, or the one the
    /// value falls into; `None` for a category without a bin.
    pub open spec fn bins_to(&self, value: u32, f: int, bin: Option<u32>) -> bool {
        if self.categorical(f) {
            bin == (match category_spec(value) {
                Some(code) => if code < self.width(f) {
                    Some((self.cut_ptrs[f] + code) as u32)
                } else {
                    None
                },
                None => None,
            })
        } else {
            bin is Some && is_bin_of(self, value, f, bin->0 as int)
        }
    }

    /// Global bin of `value` in feature `fidx`, `None` for a category without a bin.
    pub fn bin_of(&self, value: u32, fidx: usize) -> (bin: Option<u32>)
        requires
            self.wf(),
            fidx < self.cut_ptrs.len() - 1,
        ensures
            self.bins_to(value, fidx as int, bin),
            bin matches Some(b) ==> self.cut_ptrs[fidx as int] <= b < self.cut_ptrs[fidx + 1],
    {
        if self.is_cat(fidx) {
            self.search_cat_bin(value, fidx)
        } else {
            Some(self.search_bin(value, fidx))
        }
    }

    /// Split point of the backward scan when splitting at global bin `bin_idx` of feature
    /// `fidx`.
    pub fn backward_split_point(&self, fidx: usize, bin_idx: usize) -> (value: u32)
        requires
            self.wf(),
            fidx < self.cut_ptrs.len() - 1,
            self.cut_ptrs[fidx as int] <= bin_idx <= self.cut_values.len(),
        ensures
            value == (if bin_idx == self.cut_ptrs[fidx as int] {
                self.min_values[fidx as int]
            } else {
                self.cut_values[bin_idx - 1]
            }),
    {
        if bin_idx == self.cut_ptrs[fidx] as usize {
            self.min_values[fidx]
        } else {
            self.cut_values[bin_idx - 1]
        }
    }

    /// `cond` is the first bin of feature `f` whose cut equals the threshold, or `-1` where
    /// none does.
    pub open spec fn condition_of(&self, f: int, split_pt: u32, cond: int) -> bool {
        &&& cond == -1 <==> forall|b: int|
            self.cut_ptrs[f] <= b < self.cut_ptrs[f + 1] ==> !same_spec(split_pt, #[trigger] self.cut_values[b])
        &&& cond != -1 ==> self.cut_ptrs[f] <= cond < self.cut_ptrs[f + 1] && same_spec(split_pt, self.cut_values[cond])
            && forall|b: int| self.cut_ptrs[f] <= b < cond ==> !same_spec(split_pt, #[trigger] self.cut_values[b])
    }

    /// The first bin of feature `fidx` whose cut equals the split threshold, or `-1`.
    pub fn find_split_condition(&self, fidx: usize, split_pt: u32) -> (cond: i64)
        requires
            self.wf(),
            fidx < self.cut_ptrs.len() - 1,
        ensures
            self.condition_of(fidx as int, split_pt, cond as int),
    {
        let lo: u32 = self.cut_ptrs[fidx];
        let hi: u32 = self.cut_ptrs[fidx + 1];
        assert(self.cut_ptrs[fidx as int] < self.cut_ptrs[fidx + 1]);
        proof {
            let last = self.cut_ptrs.len() - 1;
            if fidx + 1 < last {
                assert(self.cut_ptrs[fidx + 1] < self.cut_ptrs[last]);
            }
        }
        let mut bound: u32 = lo;
        while bound < hi
            invariant
                lo == self.cut_ptrs[fidx as int],
                hi == self.cut_ptrs[fidx + 1],
                lo <= bound <= hi <= self.cut_values.len(),
                forall|b: int| lo <= b < bound ==> !same_spec(split_pt, #[trigger] self.cut_values[b]),
            decreases hi - bound,
        {
            if same(split_pt, self.cut_values[bound as usize]) {
                return bound as i64;
            }
            bound += 1;
        }
        -1
    }
}

// -------------------------------------------------------------- assembling ----

/// The cuts that the first `n` entries of a thinned summary give: every value but the first,
/// as far as it is above the cut before it. The first entry is represented by the minimum.
pub open spec fn inner_cuts(values: Seq<u32>, n: int) -> Seq<u32>
    decreases n,
{
    if n <= 1 {
        Seq::empty()
    } else {
        let rest = inner_cuts(values, n - 1);
        if n == 2 || lt_spec(rest.last(), values[n - 1]) {
            rest.push(values[n - 1])
        } else {
            rest
        }
    }
}

/// How many entries of a summary are looked at.
pub open spec fn looked_at(values: Seq<u32>, max_num_bins: usize) -> int {
    if values.len() <= max_num_bins {
        values.len() as int
    } else {
        max_num_bins as int
    }
}

/// A feature's cuts: the inner ones, and the closing one above every observed value.
pub open spec fn feature_cuts(values: Seq<u32>, closing: u32, max_num_bins: usize) -> Seq<u32> {
    inner_cuts(values, looked_at(values, max_num_bins)).push(closing)
}

/// A feature has at least one bin, and no more than asked for.
pub proof fn lemma_bin_count(values: Seq<u32>, closing: u32, max_num_bins: usize)
    ensures
        1 <= feature_cuts(values, closing, max_num_bins).len(),
        max_num_bins >= 1 ==> feature_cuts(values, closing, max_num_bins).len() <= max_num_bins,
        max_num_bins == 0 ==> feature_cuts(values, closing, max_num_bins).len() == 1,
{
    lemma_inner_len(values, looked_at(values, max_num_bins));
}

proof fn lemma_inner_len(values: Seq<u32>, n: int)
    ensures
        n >= 1 ==> inner_cuts(values, n).len() <= n - 1,
        n <= 1 ==> inner_cuts(values, n).len() == 0,
        n >= 2 ==> inner_cuts(values, n).len() >= 1,
    decreases n,
{
    if n > 1 {
        lemma_inner_len(values, n - 1);
    }
}

/// The cuts of the first `n` features, one after the other.
pub open spec fn all_cuts(summaries: Seq<Vec<u32>>, closing: Seq<u32>, max_bins: Seq<usize>, n: int) -> Seq<u32>
    decreases n,
{
    if n <= 0 {
        Seq::empty()
    } else {
        all_cuts(summaries, closing, max_bins, n - 1) + feature_cuts(
            summaries[n - 1]@,
            closing[n - 1],
            max_bins[n - 1],
        )
    }
}

proof fn lemma_all_cuts_grow(summaries: Seq<Vec<u32>>, closing: Seq<u32>, max_bins: Seq<usize>, a: int, b: int)
    requires
        0 <= a <= b,
    ensures
        all_cuts(summaries, closing, max_bins, a).len() <= all_cuts(summaries, closing, max_bins, b).len(),
        a < b ==> all_cuts(summaries, closing, max_bins, a).len() < all_cuts(summaries, closing, max_bins, b).len(),
    decreases b,
{
    if a < b {
        lemma_all_cuts_grow(summaries, closing, max_bins, a, b - 1);
    }
}

/// The inner cuts ascend, and each is a value of the summary.
proof fn lemma_inner_ascend(values: Seq<u32>, n: int)
    requires
        n <= values.len(),
        forall|i: int| 0 <= i < values.len() ==> !is_nan_spec(#[trigger] values[i]),
    ensures
        forall|a: int, b: int|
            0 <= a < b < inner_cuts(values, n).len() ==> lt_spec(
                #[trigger] inner_cuts(values, n)[a],
                #[trigger] inner_cuts(values, n)[b],
            ),
        forall|a: int| 0 <= a < inner_cuts(values, n).len() ==> values.contains(#[trigger] inner_cuts(values, n)[a]),
    decreases n,
{
    if n > 1 {
        lemma_inner_ascend(values, n - 1);
        lemma_inner_len(values, n - 1);
        let rest = inner_cuts(values, n - 1);
        let now = inner_cuts(values, n);
        assert forall|a: int, b: int| 0 <= a < b < now.len() implies lt_spec(#[trigger] now[a], #[trigger] now[b]) by {
            if b < rest.len() {
                assert(lt_spec(rest[a], rest[b]));
            } else if a < rest.len() - 1 {
                assert(lt_spec(rest[a], rest[rest.len() - 1]));
            }
        }
        assert forall|a: int| 0 <= a < now.len() implies values.contains(#[trigger] now[a]) by {
            if a < rest.len() {
                assert(values.contains(rest[a]));
            } else {
                assert(values[n - 1] == now[a]);
            }
        }
    }
}

/// The summary holds numbers, all of them below the closing cut.
pub open spec fn below_closing(values: Seq<u32>, closing: u32) -> bool {
    !is_nan_spec(closing) && forall|i: int| 0 <= i < values.len() ==> lt_spec(#[trigger] values[i], closing)
}

/// A feature's cuts ascend, whatever the order of its summary.
pub proof fn lemma_feature_cuts_ascend(values: Seq<u32>, closing: u32, max_num_bins: usize)
    requires
        below_closing(values, closing),
    ensures
        forall|a: int, b: int|
            0 <= a < b < feature_cuts(values, closing, max_num_bins).len() ==> lt_spec(
                #[trigger] feature_cuts(values, closing, max_num_bins)[a],
                #[trigger] feature_cuts(values, closing, max_num_bins)[b],
            ),
{
    let n = looked_at(values, max_num_bins);
    lemma_inner_ascend(values, n);
    let inner = inner_cuts(values, n);
    let cuts = feature_cuts(values, closing, max_num_bins);
    assert forall|a: int, b: int| 0 <= a < b < cuts.len() implies lt_spec(#[trigger] cuts[a], #[trigger] cuts[b]) by {
        if b < inner.len() {
            assert(lt_spec(inner[a], inner[b]));
        } else {
            assert(values.contains(inner[a]));
            let i = choose|i: int| 0 <= i < values.len() && values[i] == inner[a];
            assert(lt_spec(values[i], closing));
        }
    }
}

/// Where feature `f`'s cuts stand among all.
proof fn lemma_cuts_of_feature(summaries: Seq<Vec<u32>>, closing: Seq<u32>, max_bins: Seq<usize>, f: int, n: int, k: int)
    requires
        0 <= f < n,
        0 <= k < feature_cuts(summaries[f]@, closing[f], max_bins[f]).len(),
    ensures
        ({
            let at = all_cuts(summaries, closing, max_bins, f).len() + k;
            at < all_cuts(summaries, closing, max_bins, n).len() && all_cuts(summaries, closing, max_bins, n)[at]
                == feature_cuts(summaries[f]@, closing[f], max_bins[f])[k]
        }),
    decreases n,
{
    if f < n - 1 {
        lemma_cuts_of_feature(summaries, closing, max_bins, f, n - 1, k);
    }
}

/// Cuts made of summaries that lie below their closing values are well formed, and no two of
/// a feature's are equal.
pub proof fn lemma_made_cuts(summaries: Seq<Vec<u32>>, closing: Seq<u32>, max_bins: Seq<usize>, cuts: &HistogramCuts)
    requires
        forall|f: int| 0 <= f < summaries.len() ==> below_closing((#[trigger] summaries[f])@, closing[f]),
        cuts.cut_values@ == all_cuts(summaries, closing, max_bins, summaries.len() as int),
        cuts.cut_ptrs.len() == summaries.len() + 1,
        forall|f: int|
            0 <= f <= summaries.len() ==> #[trigger] cuts.cut_ptrs[f] == all_cuts(summaries, closing, max_bins, f).len(),
        cuts.min_values.len() == summaries.len(),
    ensures
        cuts.wf(),
        forall|f: int, a: int, b: int|
            0 <= f < summaries.len() && #[trigger] cuts.cut_ptrs[f] <= a < b < cuts.cut_ptrs[f + 1] ==> lt_spec(
                #[trigger] cuts.cut_values[a],
                #[trigger] cuts.cut_values[b],
            ),
{
    let n = summaries.len() as int;
    assert forall|a: int, b: int| 0 <= a < b < cuts.cut_ptrs.len() implies #[trigger] cuts.cut_ptrs[a]
        < #[trigger] cuts.cut_ptrs[b] by {
        lemma_all_cuts_grow(summaries, closing, max_bins, a, b);
    }
    assert forall|f: int, a: int, b: int|
        0 <= f < n && #[trigger] cuts.cut_ptrs[f] <= a < b < cuts.cut_ptrs[f + 1] implies lt_spec(
        #[trigger] cuts.cut_values[a],
        #[trigger] cuts.cut_values[b],
    ) by {
        let first = cuts.cut_ptrs[f] as int;
        assert(cuts.cut_ptrs[f + 1] == all_cuts(summaries, closing, max_bins, f + 1).len());
        assert(below_closing(summaries[f]@, closing[f]));
        lemma_feature_cuts_ascend(summaries[f]@, closing[f], max_bins[f]);
        lemma_cuts_of_feature(summaries, closing, max_bins, f, n, a - first);
        lemma_cuts_of_feature(summaries, closing, max_bins, f, n, b - first);
        let own = feature_cuts(summaries[f]@, closing[f], max_bins[f]);
        assert(lt_spec(own[a - first], own[b - first]));
    }
    assert forall|f: int| 0 <= f < cuts.cut_ptrs.len() - 1 implies #[trigger] cuts.is_sorted(f) by {
        assert forall|a: int, b: int| cuts.cut_ptrs[f] <= a <= b < cuts.cut_ptrs[f + 1] implies !is_nan_spec(
            #[trigger] cuts.cut_values[a],
        ) && !is_nan_spec(#[trigger] cuts.cut_values[b]) && rank(cuts.cut_values[a]) <= rank(cuts.cut_values[b]) by {
            let first = cuts.cut_ptrs[f] as int;
            let last = cuts.cut_ptrs[f + 1] - 1;
            let own = feature_cuts(summaries[f]@, closing[f], max_bins[f]);
            assert(cuts.cut_ptrs[f + 1] == all_cuts(summaries, closing, max_bins, f + 1).len());
            assert(below_closing(summaries[f]@, closing[f]));
            lemma_cuts_of_feature(summaries, closing, max_bins, f, n, own.len() - 1);
            assert(!is_nan_spec(cuts.cut_values[last]));
            if a < last {
                assert(lt_spec(cuts.cut_values[a], cuts.cut_values[last]));
            }
            if b < last {
                assert(lt_spec(cuts.cut_values[b], cuts.cut_values[last]));
            }
            if a < b {
                assert(lt_spec(cuts.cut_values[a], cuts.cut_values[b]));
            }
        }
    }
}

/// Ends of a column: where a feature's summary strictly ascends from the smallest of its values
/// to the largest, a value that is no larger than the smallest falls into the feature's first
/// bin, and one that is no smaller than the largest into its last.
pub proof fn lemma_summary_ends(
    summaries: Seq<Vec<u32>>,
    closing: Seq<u32>,
    max_bins: Seq<usize>,
    cuts: &HistogramCuts,
    f: int,
    value: u32,
)
    requires
        0 <= f < summaries.len(),
        cuts.cut_values@ == all_cuts(summaries, closing, max_bins, summaries.len() as int),
        cuts.cut_ptrs.len() == summaries.len() + 1,
        forall|g: int|
            0 <= g <= summaries.len() ==> #[trigger] cuts.cut_ptrs[g] == all_cuts(summaries, closing, max_bins, g).len(),
        all_numbers(summaries[f]@),
        strictly_ascend(summaries[f]@),
        summaries[f].len() > 0,
    ensures
        le_spec(value, summaries[f]@[0]) ==> is_bin_of(cuts, value, f, cuts.cut_ptrs[f] as int),
        le_spec(summaries[f]@.last(), value) ==> is_bin_of(cuts, value, f, cuts.cut_ptrs[f + 1] - 1),
{
    let values = summaries[f]@;
    let n = looked_at(values, max_bins[f]);
    let inner = inner_cuts(values, n);
    let own = feature_cuts(values, closing[f], max_bins[f]);
    let first = cuts.cut_ptrs[f] as int;
    let count = summaries.len() as int;
    assert(cuts.cut_ptrs[f + 1] == all_cuts(summaries, closing, max_bins, f + 1).len());
    assert(cuts.cut_ptrs[f + 1] == first + own.len());
    lemma_inner_ascend(values, n);
    lemma_inner_len(values, n);
    assert forall|k: int| first <= k < first + own.len() implies #[trigger] cuts.cut_values[k] == own[k - first] by {
        lemma_cuts_of_feature(summaries, closing, max_bins, f, count, k - first);
    }
    if le_spec(value, values[0]) && own.len() > 1 {
        lemma_first_inner(values, n);
        assert(cuts.cut_values[first] == own[0]);
        assert(own[0] == values[1]);
        assert(lt_spec(values[0], values[1]));
    }
    if le_spec(values.last(), value) {
        let last = cuts.cut_ptrs[f + 1] - 1;
        assert forall|k: int| first <= k < last implies le_spec(#[trigger] cuts.cut_values[k], value) by {
            assert(cuts.cut_values[k] == inner[k - first]);
            assert(values.contains(inner[k - first]));
            let i = choose|i: int| 0 <= i < values.len() && values[i] == inner[k - first];
            if i < values.len() - 1 {
                assert(lt_spec(values[i], values[values.len() - 1]));
            }
        }
    }
}

/// The first inner cut is the second value of the summary.
proof fn lemma_first_inner(values: Seq<u32>, n: int)
    ensures
        n >= 2 ==> inner_cuts(values, n).len() >= 1 && inner_cuts(values, n)[0] == values[1],
    decreases n,
{
    if n > 2 {
        lemma_first_inner(values, n - 1);
    } else if n == 2 {
        assert(inner_cuts(values, 1) =~= Seq::<u32>::empty());
    }
}

/// Make the cuts of every feature from its thinned summary.
///
/// `summaries[f]` holds the values of feature `f`'s summary, `closing[f]` a value above
/// every observed one, `max_bins[f]` the bins the feature may have.
pub fn make_cuts(summaries: &[Vec<u32>], closing: &[u32], mins: Vec<u32>, max_bins: &[usize]) -> (cuts: HistogramCuts)
    requires
        closing.len() == summaries.len(),
        max_bins.len() == summaries.len(),
        all_cuts(summaries@, closing@, max_bins@, summaries.len() as int).len() <= u32::MAX,
    ensures
        cuts.cut_values@ == all_cuts(summaries@, closing@, max_bins@, summaries.len() as int),
        cuts.cut_ptrs.len() == summaries.len() + 1,
        forall|f: int|
            0 <= f <= summaries.len() ==> #[trigger] cuts.cut_ptrs[f] == all_cuts(
                summaries@,
                closing@,
                max_bins@,
                f,
            ).len(),
        forall|a: int, b: int|
            0 <= a < b < cuts.cut_ptrs.len() ==> #[trigger] cuts.cut_ptrs[a] < #[trigger] cuts.cut_ptrs[b],
        cuts.min_values == mins,
        cuts.is_categorical.len() == 0,
{
    let mut cut_values: Vec<u32> = Vec::new();
    let mut cut_ptrs: Vec<u32> = Vec::new();
    cut_ptrs.push(0);
    let mut f: usize = 0;
    while f < summaries.len()
        invariant
            closing.len() == summaries.len(),
            max_bins.len() == summaries.len(),
            all_cuts(summaries@, closing@, max_bins@, summaries.len() as int).len() <= u32::MAX,
            f <= summaries.len(),
            cut_values@ == all_cuts(summaries@, closing@, max_bins@, f as int),
            cut_ptrs.len() == f + 1,
            forall|g: int|
                0 <= g <= f ==> #[trigger] cut_ptrs[g] == all_cuts(summaries@, closing@, max_bins@, g).len(),
        decreases summaries.len() - f,
    {
        let values: &Vec<u32> = &summaries[f];
        let required: usize = if values.len() <= max_bins[f] {
            values.len()
        } else {
            max_bins[f]
        };
        let ghost before = cut_values@;
        let mut i: usize = 1;
        assert(cut_values@ =~= before + inner_cuts(values@, 1));
        if required > 1 {
            while i < required
                invariant
                    1 <= i <= required <= values.len(),
                    cut_values@ == before + inner_cuts(values@, i as int),
                decreases required - i,
            {
                let cpt: u32 = values[i];
                let ghost was = cut_values@;
                proof {
                    lemma_inner_len(values@, i as int);
                    if i > 1 {
                        assert(cut_values@.last() == inner_cuts(values@, i as int).last());
                    }
                }
                if i == 1 || lt(cut_values[cut_values.len() - 1], cpt) {
                    cut_values.push(cpt);
                }
                i += 1;
                assert(cut_values@ =~= before + inner_cuts(values@, i as int));
            }
        }
        cut_values.push(closing[f]);
        proof {
            lemma_all_cuts_grow(summaries@, closing@, max_bins@, f + 1, summaries.len() as int);
            assert(cut_values@ =~= before + feature_cuts(values@, closing[f as int], max_bins[f as int]));
        }
        cut_ptrs.push(cut_values.len() as u32);
        f += 1;
    }
    proof {
        assert forall|a: int, b: int| 0 <= a < b < cut_ptrs.len() implies #[trigger] cut_ptrs[a]
            < #[trigger] cut_ptrs[b] by {
            lemma_all_cuts_grow(summaries@, closing@, max_bins@, a, b);
        }
    }
    HistogramCuts { cut_ptrs, cut_values, min_values: mins, is_categorical: Vec::new() }
}

/// Whether an explicit weight per row has the length the matrix asks for.
pub fn check_row_weights(num_row: usize, weights: Option<usize>) -> (result: Result<(), Error>)
    ensures
        result is Ok <==> (weights matches Some(n) ==> n == num_row),
        result matches Err(e) ==> e == (Error::DataShape { expected: num_row, got: weights->0 }),
{
    match weights {
        Some(n) => if n != num_row {
            Err(Error::DataShape { expected: num_row, got: n })
        } else {
            Ok(())
        },
        None => Ok(()),
    }
}

/// A category is the whole part of a number from zero up to where single precision stops telling
/// whole numbers apart; a negative number names none, nor does what is no number.
pub proof fn lemma_category(bits: u32)
    ensures
        bits < 0x3F80_0000 || bits == 0x8000_0000 ==> category_spec(bits) == Some(0u32),
        bits > 0x8000_0000 || 0x4B80_0000 <= bits < 0x8000_0000 ==> category_spec(bits) is None,
        0x3F80_0000 <= bits < 0x4B80_0000 ==> (category_spec(bits) matches Some(c) && {
            let unit = vstd::arithmetic::power2::pow2((150 - bits / 0x80_0000) as nat) as int;
            c * unit <= bits % 0x80_0000 + 0x80_0000 < (c + 1) * unit
        }),
{
    if 0x3F80_0000 <= bits < 0x4B80_0000 {
        let k = (150 - bits / 0x80_0000) as nat;
        let unit = vstd::arithmetic::power2::pow2(k) as int;
        let m = bits % 0x80_0000 + 0x80_0000;
        vstd::arithmetic::power2::lemma_pow2_pos(k);
        vstd::arithmetic::div_mod::lemma_fundamental_div_mod(m as int, unit);
        let c = m as int / unit;
        assert(0 <= c <= m) by (nonlinear_arith)
            requires
                m == unit * c + m as int % unit,
                0 <= m as int % unit < unit,
                unit >= 1,
                m >= 0,
        ;
        assert(unit * c == c * unit && (c + 1) * unit == c * unit + unit) by (nonlinear_arith);
    }
}

/// A value that equals a cut stands past it, in the next bin, as a larger one does; a value below a
/// cut does not.
pub proof fn lemma_bin_edges(cuts: &HistogramCuts, value: u32, f: int, idx: int, k: int)
    requires
        cuts_sorted(cuts, f),
        is_bin_of(cuts, value, f, idx),
        cuts.cut_ptrs[f] <= k < cuts.cut_ptrs[f + 1],
    ensures
        lt_spec(value, cuts.cut_values[k]) ==> idx <= k,
        le_spec(cuts.cut_values[k], value) && k + 1 < cuts.cut_ptrs[f + 1] ==> idx > k,
        cuts.cut_ptrs[f] <= idx < cuts.cut_ptrs[f + 1],
{
    if le_spec(cuts.cut_values[k], value) && k + 1 < cuts.cut_ptrs[f + 1] && idx <= k {
        assert(!le_spec(cuts.cut_values[idx], value));
        assert(rank(cuts.cut_values[idx]) <= rank(cuts.cut_values[k]));
    }
    if lt_spec(value, cuts.cut_values[k]) && k < idx {
        assert(le_spec(cuts.cut_values[k], value));
    }
}

/// A category is its own bin, counted from its feature's first, where the feature has as many; a
/// number is in the bin that the cuts give it.
pub proof fn lemma_bins_to(cuts: &HistogramCuts, value: u32, f: int, bin: Option<u32>)
    requires
        cuts.wf(),
        0 <= f < cuts.cut_ptrs.len() - 1,
        cuts.bins_to(value, f, bin),
    ensures
        cuts.categorical(f) && bin is Some ==> category_spec(value) is Some && bin->0 == cuts.cut_ptrs[f]
            + category_spec(value)->0 && bin->0 < cuts.cut_ptrs[f + 1],
        cuts.categorical(f) && bin is None ==> category_spec(value) is None || category_spec(value)->0 >= cuts.cut_ptrs[f
            + 1] - cuts.cut_ptrs[f],
        !cuts.categorical(f) ==> bin is Some && is_bin_of(cuts, value, f, bin->0 as int),
{
    assert(cuts.cut_ptrs[f] < cuts.cut_ptrs[f + 1]);
}

/// Of values that ascend, every one but the first is a cut, and no other value is.
pub proof fn lemma_inner_cuts(values: Seq<u32>, n: int)
    requires
        0 <= n <= values.len(),
        strictly_ascend(values),
    ensures
        inner_cuts(values, n) == values.subrange(
            if n < 1 {
                0
            } else {
                1
            },
            n,
        ),
    decreases n,
{
    if n > 1 {
        lemma_inner_cuts(values, n - 1);
        let rest = inner_cuts(values, n - 1);
        if n > 2 {
            assert(rest.last() == values[n - 2]);
            assert(lt_spec(values[n - 2], values[n - 1]));
        }
        assert(inner_cuts(values, n) =~= values.subrange(1, n));
    } else {
        assert(inner_cuts(values, n) =~= values.subrange(
            if n < 1 {
                0
            } else {
                1
            },
            n,
        ));
    }
}

/// A feature's cuts are its values without the smallest, as many as the bins allow, and the cut that
/// closes it.
pub proof fn lemma_feature_cuts(values: Seq<u32>, closing: u32, max_num_bins: usize, i: int)
    requires
        strictly_ascend(values),
        values.len() >= 1,
        max_num_bins >= 1,
    ensures
        ({
            let cuts = feature_cuts(values, closing, max_num_bins);
            &&& cuts.len() == (if values.len() <= max_num_bins {
                values.len() as int
            } else {
                max_num_bins as int
            })
            &&& cuts.last() == closing
            &&& 0 <= i < cuts.len() - 1 ==> cuts[i] == values[i + 1]
        }),
{
    lemma_inner_cuts(values, looked_at(values, max_num_bins));
}

/// The features' cuts stand one after another.
pub proof fn lemma_cuts_follow(summaries: Seq<Vec<u32>>, closing: Seq<u32>, max_bins: Seq<usize>, f: int, n: int)
    requires
        0 <= f < n,
    ensures
        ({
            let own = feature_cuts(summaries[f]@, closing[f], max_bins[f]);
            let from = all_cuts(summaries, closing, max_bins, f).len() as int;
            &&& from + own.len() <= all_cuts(summaries, closing, max_bins, n).len()
            &&& all_cuts(summaries, closing, max_bins, n).subrange(from, from + own.len()) == own
            &&& all_cuts(summaries, closing, max_bins, f + 1).len() == from + own.len()
        }),
        all_cuts(summaries, closing, max_bins, 0).len() == 0,
    decreases n,
{
    let own = feature_cuts(summaries[f]@, closing[f], max_bins[f]);
    let from = all_cuts(summaries, closing, max_bins, f).len() as int;
    let all = all_cuts(summaries, closing, max_bins, n);
    if f < n - 1 {
        lemma_cuts_follow(summaries, closing, max_bins, f, n - 1);
        let before = all_cuts(summaries, closing, max_bins, n - 1);
        assert(all.subrange(from, from + own.len()) =~= before.subrange(from, from + own.len()));
    } else {
        assert(all.subrange(from, from + own.len()) =~= own);
    }
}

/// A sketch of few values keeps them all; one of many keeps a multiple of the bins on the way, and no
/// more than the bins at the end. There is always a bin.
pub proof fn lemma_sizes(values: int, max_bins: int)
    requires
        values >= 0,
        max_bins >= 0,
    ensures
        sizes_of(values, max_bins).0 >= 1,
        1 <= values <= max_bins ==> sizes_of(values, max_bins) == (values, values, values),
        values >= max_bins * K_FACTOR && max_bins >= 1 ==> sizes_of(values, max_bins) == (
            max_bins,
            max_bins * K_FACTOR,
            max_bins,
        ),
        sizes_of(values, max_bins).2 <= max_bins && sizes_of(values, max_bins).2 <= values,
        sizes_of(values, max_bins).1 <= values,
{
    assert(max_bins >= 1 ==> max_bins <= max_bins * K_FACTOR) by (nonlinear_arith)
        requires
            K_FACTOR >= 1,
            max_bins >= 0,
    ;
}

/// Ranks that were raised never fall: each is as large as those before it and as its own.
pub proof fn lemma_running_max(ranks: Seq<u32>, n: int, i: int)
    requires
        0 <= i < n <= ranks.len(),
        forall|k: int| 0 <= k < ranks.len() ==> !is_nan_spec(#[trigger] ranks[k]),
    ensures
        !is_nan_spec(running_max(ranks, n)),
        rank(ranks[i]) <= rank(running_max(ranks, n)),
        rank(running_max(ranks, n)) >= 0,
        rank(running_max(ranks, n)) > 0 ==> exists|k: int|
            0 <= k < n && #[trigger] ranks[k] == running_max(ranks, n),
    decreases n,
{
    lemma_running_number(ranks, n - 1);
    assert(!is_nan_spec(ranks[n - 1]));
    if i < n - 1 {
        lemma_running_max(ranks, n - 1, i);
    } else if n > 1 {
        lemma_running_max(ranks, n - 1, 0);
    }
    if rank(running_max(ranks, n)) > 0 {
        if running_max(ranks, n) == ranks[n - 1] {
            assert(ranks[n - 1] == running_max(ranks, n));
        } else {
            let k = choose|k: int| 0 <= k < n - 1 && #[trigger] ranks[k] == running_max(ranks, n - 1);
            assert(ranks[k] == running_max(ranks, n));
        }
    }
}

proof fn lemma_running_number(ranks: Seq<u32>, n: int)
    requires
        0 <= n <= ranks.len(),
        forall|k: int| 0 <= k < ranks.len() ==> !is_nan_spec(#[trigger] ranks[k]),
    ensures
        !is_nan_spec(running_max(ranks, n)),
        rank(running_max(ranks, n)) >= 0,
    decreases n,
{
    if n > 0 {
        lemma_running_number(ranks, n - 1);
        assert(!is_nan_spec(ranks[n - 1]));
    }
}

/// Upper ranks that were raised never fall, and each reaches as far as it has to.
pub proof fn lemma_raised(upper: Seq<u32>, reach: Seq<u32>, n: int)
    requires
        0 < n <= upper.len(),
        reach.len() == upper.len(),
        forall|k: int| 0 <= k < upper.len() ==> !is_nan_spec(#[trigger] upper[k]),
        forall|k: int| 0 <= k < reach.len() ==> !is_nan_spec(#[trigger] reach[k]),
    ensures
        !is_nan_spec(raised(upper, reach, n)),
        rank(upper[n - 1]) <= rank(raised(upper, reach, n)),
        rank(reach[n - 1]) <= rank(raised(upper, reach, n)),
        rank(raised(upper, reach, n - 1)) <= rank(raised(upper, reach, n)),
        raised(upper, reach, n) == upper[n - 1] || raised(upper, reach, n) == reach[n - 1] || raised(upper, reach, n)
            == raised(upper, reach, n - 1),
    decreases n,
{
    assert(!is_nan_spec(upper[n - 1]) && !is_nan_spec(reach[n - 1]));
    if n > 1 {
        lemma_raised(upper, reach, n - 1);
    }
}

/// The scan moves on past every entry whose sum is not above the rank asked for, and stops before
/// the first that is, or at the last entry.
pub proof fn lemma_advance_stops(sums: Seq<u32>, i: int, dx2: u32)
    requires
        0 <= i < sums.len(),
    ensures
        i <= advance(sums, i, dx2) < sums.len(),
        forall|k: int| i < k <= advance(sums, i, dx2) ==> le_spec(#[trigger] sums[k], dx2),
        advance(sums, i, dx2) < sums.len() - 1 ==> !le_spec(sums[advance(sums, i, dx2) + 1], dx2),
    decreases sums.len() - i,
{
    if i < sums.len() - 1 && le_spec(sums[i + 1], dx2) {
        lemma_advance_stops(sums, i + 1, dx2);
    }
}

/// Of the two entries round the rank asked for, the one before is kept where the rank is below their
/// middle and the one after where it is not; past the last entry none is.
pub proof fn lemma_stay(sums: Seq<u32>, mids: Seq<u32>, i: int, dx2: u32)
    requires
        0 <= i < sums.len(),
    ensures
        stay(sums, mids, i, dx2) is None <==> advance(sums, i, dx2) == sums.len() - 1,
        stay(sums, mids, i, dx2) matches Some(k) ==> {
            let at = advance(sums, i, dx2);
            &&& k == at || k == at + 1
            &&& k == at <==> lt_spec(dx2, mids[at])
        },
{
}

/// A queue that was sorted holds the entries that it held, each once.
pub proof fn lemma_arranged(queue: Seq<QEntry>, order: Seq<usize>, sorted: Seq<QEntry>, k: int)
    requires
        sorts(queue_keys(queue), order),
        arranged(queue, order, sorted),
        0 <= k < queue.len(),
    ensures
        sorted.len() == queue.len(),
        sorted.contains(queue[k]),
        queue.contains(sorted[k]),
        order.no_duplicates(),
{
    assert(crate::data::radix::listed(order, k));
    let i = choose|i: int| 0 <= i < order.len() && #[trigger] order[i] == k;
    assert(sorted[i] == queue[k]);
    assert(sorted[k] == queue[order[k] as int]);
    assert forall|a: int, b: int| 0 <= a < order.len() && 0 <= b < order.len() && a != b implies order[a] != order[b] by {
        if a < b {
            assert(comes_before(queue_keys(queue), order[a] as int, order[b] as int));
        } else {
            assert(comes_before(queue_keys(queue), order[b] as int, order[a] as int));
        }
    }
}

/// A run of equal values ends where the first other value stands, and nowhere else.
pub proof fn lemma_run_ends(values: Seq<QEntry>, i: int, a: int, b: int)
    requires
        0 <= i < values.len(),
        run_ends(values, i, a),
    ensures
        run_ends(values, i, b) ==> a == b,
        forall|k: int| i < k < a ==> same_spec((#[trigger] values[k]).value, values[i].value),
        a < values.len() ==> !same_spec(values[a].value, values[i].value),
{
    if run_ends(values, i, b) && a < b {
        assert(same_spec(values[a].value, values[i].value));
    } else if run_ends(values, i, b) && b < a {
        assert(same_spec(values[b].value, values[i].value));
    }
}

} // verus!
