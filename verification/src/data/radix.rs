//! Stable sorting by 32-bit keys.
//!
//! A least-significant-digit radix sort: four passes of an 8-bit digit, each a stable
//! counting sort of what the pass before left. A pass whose digit is the same for every
//! key would be a plain copy and is skipped.

use vstd::prelude::*;

verus! {

/// Values of one digit.
pub const RADIX: usize = 256;

/// `order` lists positions by ascending key, equal keys by ascending position. There is one
/// such list.
pub open spec fn sorts(keys: Seq<u32>, order: Seq<usize>) -> bool {
    &&& order.len() == keys.len()
    &&& forall|i: int| 0 <= i < order.len() ==> #[trigger] order[i] < keys.len()
    &&& forall|i: int, j: int|
        0 <= i < j < order.len() ==> comes_before(keys, #[trigger] order[i] as int, #[trigger] order[j] as int)
    &&& forall|k: int| 0 <= k < keys.len() ==> #[trigger] listed(order, k)
}

/// Position `a` comes before position `b`: a smaller key, or the same key earlier.
pub open spec fn comes_before(keys: Seq<u32>, a: int, b: int) -> bool {
    keys[a] < keys[b] || (keys[a] == keys[b] && a < b)
}

/// `order` holds position `k`.
pub open spec fn listed(order: Seq<usize>, k: int) -> bool {
    exists|i: int| 0 <= i < order.len() && #[trigger] order[i] == k
}

/// The low digits of a key: what `passes` passes have looked at.
spec fn low(key: u32, passes: int) -> int {
    key as int % base(passes)
}

spec fn base(passes: int) -> int {
    if passes <= 0 {
        1
    } else if passes == 1 {
        256
    } else if passes == 2 {
        65536
    } else if passes == 3 {
        16777216
    } else {
        4294967296
    }
}

/// The digit that pass `pass` looks at.
spec fn digit(key: u32, pass: int) -> int {
    key as int / base(pass) % 256
}

/// Position `a` comes before position `b` by the digits of the first `passes` passes.
spec fn low_before(keys: Seq<u32>, passes: int, a: int, b: int) -> bool {
    low(keys[a], passes) < low(keys[b], passes) || (low(keys[a], passes) == low(keys[b], passes) && a < b)
}

/// `order` is sorted by the digits of the first `passes` passes.
spec fn sorts_low(keys: Seq<u32>, passes: int, order: Seq<usize>) -> bool {
    &&& order.len() == keys.len()
    &&& forall|i: int| 0 <= i < order.len() ==> #[trigger] order[i] < keys.len()
    &&& forall|i: int, j: int|
        0 <= i < j < order.len() ==> low_before(keys, passes, #[trigger] order[i] as int, #[trigger] order[j] as int)
    &&& forall|k: int| 0 <= k < keys.len() ==> #[trigger] listed(order, k)
}

proof fn lemma_low_next(key: u32, pass: int)
    requires
        0 <= pass < 4,
    ensures
        low(key, pass + 1) == digit(key, pass) * base(pass) + low(key, pass),
        0 <= digit(key, pass) < 256,
        0 <= low(key, pass) < base(pass),
{
    let k = key as int;
    let d = digit(key, pass);
    let m = base(pass);
    assert(pass == 0 ==> d * m == d) by (nonlinear_arith)
        requires
            pass == 0 ==> m == 1,
    ;
    assert(pass == 1 ==> d * m == d * 256) by (nonlinear_arith)
        requires
            pass == 1 ==> m == 256,
    ;
    assert(pass == 2 ==> d * m == d * 65536) by (nonlinear_arith)
        requires
            pass == 2 ==> m == 65536,
    ;
    assert(pass == 3 ==> d * m == d * 16777216) by (nonlinear_arith)
        requires
            pass == 3 ==> m == 16777216,
    ;
    if pass == 0 {
        assert(k / 1 == k);
    } else if pass == 1 {
        assert(k % 65536 == (k / 256) % 256 * 256 + k % 256);
    } else if pass == 2 {
        assert(k % 16777216 == (k / 65536) % 256 * 65536 + k % 65536);
    } else {
        assert(k % 4294967296 == (k / 16777216) % 256 * 16777216 + k % 16777216);
    }
}

/// How many of the first `n` of `order` have digit `d`.
spec fn count(keys: Seq<u32>, order: Seq<usize>, pass: int, d: int, n: int) -> int
    decreases n,
{
    if n <= 0 {
        0
    } else {
        count(keys, order, pass, d, n - 1) + (if digit(keys[order[n - 1] as int], pass) == d {
            1int
        } else {
            0
        })
    }
}

/// How many have a digit below `d`.
spec fn below(keys: Seq<u32>, order: Seq<usize>, pass: int, d: int) -> int
    decreases d,
{
    if d <= 0 {
        0
    } else {
        below(keys, order, pass, d - 1) + count(keys, order, pass, d - 1, order.len() as int)
    }
}

/// How many of the first `n` have a digit below `d`.
spec fn below_upto(keys: Seq<u32>, order: Seq<usize>, pass: int, d: int, n: int) -> int
    decreases d,
{
    if d <= 0 {
        0
    } else {
        below_upto(keys, order, pass, d - 1, n) + count(keys, order, pass, d - 1, n)
    }
}

proof fn lemma_count_grows(keys: Seq<u32>, order: Seq<usize>, pass: int, d: int, a: int, b: int)
    requires
        0 <= a <= b,
    ensures
        0 <= count(keys, order, pass, d, a) <= count(keys, order, pass, d, b),
    decreases b,
{
    if a < b {
        lemma_count_grows(keys, order, pass, d, a, b - 1);
    } else if a > 0 {
        lemma_count_grows(keys, order, pass, d, a - 1, b - 1);
    }
}

/// One element more raises one count.
proof fn lemma_below_step(keys: Seq<u32>, order: Seq<usize>, pass: int, d: int, n: int)
    requires
        n > 0,
    ensures
        below_upto(keys, order, pass, d, n) == below_upto(keys, order, pass, d, n - 1) + (if 0 <= digit(
            keys[order[n - 1] as int],
            pass,
        ) < d {
            1int
        } else {
            0
        }),
    decreases d,
{
    if d > 0 {
        lemma_below_step(keys, order, pass, d - 1, n);
    }
}

/// Every element has one digit.
proof fn lemma_below_total(keys: Seq<u32>, order: Seq<usize>, pass: int, n: int)
    requires
        0 <= n <= order.len(),
        0 <= pass < 4,
    ensures
        below_upto(keys, order, pass, 256, n) == n,
    decreases n,
{
    if n == 0 {
        lemma_below_empty(keys, order, pass, 256);
    } else {
        lemma_below_total(keys, order, pass, n - 1);
        lemma_below_step(keys, order, pass, 256, n);
        lemma_low_next(keys[order[n - 1] as int], pass);
    }
}

proof fn lemma_below_empty(keys: Seq<u32>, order: Seq<usize>, pass: int, d: int)
    ensures
        below_upto(keys, order, pass, d, 0) == 0,
    decreases d,
{
    if d > 0 {
        lemma_below_empty(keys, order, pass, d - 1);
    }
}

proof fn lemma_below_same(keys: Seq<u32>, order: Seq<usize>, pass: int, d: int)
    ensures
        below(keys, order, pass, d) == below_upto(keys, order, pass, d, order.len() as int),
    decreases d,
{
    if d > 0 {
        lemma_below_same(keys, order, pass, d - 1);
    }
}

proof fn lemma_below_grows(keys: Seq<u32>, order: Seq<usize>, pass: int, a: int, b: int)
    requires
        0 <= a <= b,
    ensures
        0 <= below(keys, order, pass, a) <= below(keys, order, pass, b),
        a < b ==> below(keys, order, pass, a) + count(keys, order, pass, a, order.len() as int) <= below(
            keys,
            order,
            pass,
            b,
        ),
    decreases b,
{
    if a < b {
        lemma_below_grows(keys, order, pass, a, b - 1);
        lemma_count_grows(keys, order, pass, b - 1, 0, order.len() as int);
    } else if a > 0 {
        lemma_below_grows(keys, order, pass, a - 1, b - 1);
        lemma_count_grows(keys, order, pass, b - 1, 0, order.len() as int);
    }
}

/// Bucket `d` is filled up to where `n` elements have brought it: its slots hold elements
/// of digit `d`, in the order they came.
spec fn bucket_ok(
    keys: Seq<u32>,
    order: Seq<usize>,
    pass: int,
    out: Seq<usize>,
    from: Seq<int>,
    d: int,
    n: int,
) -> bool {
    let start = below(keys, order, pass, d);
    let end = start + count(keys, order, pass, d, n);
    &&& forall|s: int|
        start <= s < end ==> 0 <= #[trigger] from[s] < n && out[s] == order[from[s]] && digit(
            keys[order[from[s]] as int],
            pass,
        ) == d
    &&& forall|s: int, t: int| start <= s < t < end ==> #[trigger] from[s] < #[trigger] from[t]
}

/// One pass: sort `order` by the digit of `pass`, keeping the order of equal digits.
fn radix_pass(keys: &[u32], order: &Vec<usize>, pass: usize, shift: u32) -> (out: Vec<usize>)
    requires
        pass < 4,
        shift == 8 * pass,
        sorts_low(keys@, pass as int, order@),
    ensures
        sorts_low(keys@, pass + 1, out@),
{
    let n: usize = order.len();
    let ghost p = pass as int;
    let mut offsets: Vec<usize> = Vec::with_capacity(RADIX);
    let counts: Vec<usize> = count_digits(keys, order, pass, shift);
    // Every key shares this digit: the pass would be a plain copy.
    let mut d: usize = 0;
    while d < RADIX
        invariant
            d <= RADIX,
            counts.len() == RADIX,
            n == order.len(),
            forall|e: int| 0 <= e < RADIX ==> #[trigger] counts[e] == count(keys@, order@, p, e, n as int),
            sorts_low(keys@, p, order@),
            p == pass,
            pass < 4,
        decreases RADIX - d,
    {
        if counts[d] == n {
            proof {
                lemma_constant_digit(keys@, order@, p, d as int, n as int);
                assert forall|i: int, j: int| 0 <= i < j < order.len() implies low_before(
                    keys@,
                    p + 1,
                    #[trigger] order[i] as int,
                    #[trigger] order[j] as int,
                ) by {
                    lemma_low_next(keys[order[i] as int], p);
                    lemma_low_next(keys[order[j] as int], p);
                    assert(low_before(keys@, p, order[i] as int, order[j] as int));
                }
            }
            let mut same: Vec<usize> = Vec::with_capacity(n);
            same.extend_from_slice(order.as_slice());
            assert(same@ =~= order@);
            return same;
        }
        d += 1;
    }
    let mut acc: usize = 0;
    let mut d: usize = 0;
    while d < RADIX
        invariant
            d <= RADIX,
            counts.len() == RADIX,
            n == order.len(),
            p == pass,
            pass < 4,
            forall|e: int| 0 <= e < RADIX ==> #[trigger] counts[e] == count(keys@, order@, p, e, n as int),
            acc == below(keys@, order@, p, d as int),
            acc <= n,
            offsets.len() == d,
            forall|e: int| 0 <= e < d ==> #[trigger] offsets[e] == below(keys@, order@, p, e),
        decreases RADIX - d,
    {
        proof {
            lemma_below_grows(keys@, order@, p, d + 1, 256);
            lemma_below_same(keys@, order@, p, 256);
            lemma_below_total(keys@, order@, p, n as int);
        }
        offsets.push(acc);
        acc = acc + counts[d];
        d += 1;
    }
    let mut out: Vec<usize> = vec![0usize; n];
    let ghost mut from: Seq<int> = Seq::new(n as nat, |s: int| 0int);
    let ghost mut to: Seq<int> = Seq::empty();
    let mut i: usize = 0;
    proof {
        assert forall|e: int| 0 <= e < 256 implies #[trigger] bucket_ok(keys@, order@, p, out@, from, e, 0) by {}
    }
    while i < n
        invariant
            n == order.len(),
            p == pass,
            pass < 4,
            shift == 8 * pass,
            sorts_low(keys@, p, order@),
            i <= n,
            offsets.len() == RADIX,
            out.len() == n,
            from.len() == n,
            to.len() == i,
            forall|e: int|
                0 <= e < RADIX ==> #[trigger] offsets[e] == below(keys@, order@, p, e) + count(
                    keys@,
                    order@,
                    p,
                    e,
                    i as int,
                ),
            forall|e: int| 0 <= e < 256 ==> #[trigger] bucket_ok(keys@, order@, p, out@, from, e, i as int),
            forall|k: int|
                0 <= k < i ==> from[#[trigger] to[k]] == k && out[to[k]] == order[k] && in_bucket(
                    keys@,
                    order@,
                    p,
                    k,
                    to[k],
                    i as int,
                ),
        decreases n - i,
    {
        let at: usize = order[i];
        let key: u32 = keys[at];
        let bucket: usize = digit_of(key, pass, shift);
        let ghost b = bucket as int;
        let ghost was_out = out@;
        let ghost was_from = from;
        proof {
            lemma_low_next(key, p);
            assert(digit(keys[order[i as int] as int], p) == b);
            lemma_count_grows(keys@, order@, p, b, i + 1, n as int);
            lemma_count_grows(keys@, order@, p, b, 0, i as int);
            lemma_below_grows(keys@, order@, p, b + 1, 256);
            lemma_below_grows(keys@, order@, p, b, b + 1);
            lemma_below_same(keys@, order@, p, 256);
            lemma_below_total(keys@, order@, p, n as int);
        }
        let slot: usize = offsets[bucket];
        out[slot] = at;
        offsets[bucket] = slot + 1;
        proof {
            from = from.update(slot as int, i as int);
            to = to.push(slot as int);
            assert forall|e: int| 0 <= e < 256 implies #[trigger] bucket_ok(keys@, order@, p, out@, from, e, i + 1) by {
                assert(bucket_ok(keys@, order@, p, was_out, was_from, e, i as int));
                let start = below(keys@, order@, p, e);
                lemma_count_grows(keys@, order@, p, e, i as int, i + 1);
                lemma_count_grows(keys@, order@, p, e, i + 1, n as int);
                lemma_below_grows(keys@, order@, p, e, 256);
                if e < b {
                    lemma_below_grows(keys@, order@, p, e, b);
                    assert forall|s: int|
                        start <= s < start + count(keys@, order@, p, e, i + 1) implies 0 <= #[trigger] from[s] < i + 1
                        && out[s] == order[from[s]] && digit(keys[order[from[s]] as int], p) == e by {
                        assert(s != slot);
                        assert(from[s] == was_from[s]);
                    }
                } else if e > b {
                    lemma_below_grows(keys@, order@, p, b, e);
                    assert forall|s: int|
                        start <= s < start + count(keys@, order@, p, e, i + 1) implies 0 <= #[trigger] from[s] < i + 1
                        && out[s] == order[from[s]] && digit(keys[order[from[s]] as int], p) == e by {
                        assert(s != slot);
                        assert(from[s] == was_from[s]);
                    }
                } else {
                    assert forall|s: int|
                        start <= s < start + count(keys@, order@, p, e, i + 1) implies 0 <= #[trigger] from[s] < i + 1
                        && out[s] == order[from[s]] && digit(keys[order[from[s]] as int], p) == e by {
                        if s != slot {
                            assert(from[s] == was_from[s]);
                        }
                    }
                }
                assert forall|s: int, t: int|
                    start <= s < t < start + count(keys@, order@, p, e, i + 1) implies #[trigger] from[s]
                    < #[trigger] from[t] by {
                    if e == b && t == slot {
                        assert(was_from[s] < i);
                    } else {
                        assert(s != slot && t != slot);
                        assert(was_from[s] < was_from[t]);
                    }
                }
            }
            assert forall|k: int| 0 <= k < i + 1 implies from[#[trigger] to[k]] == k && out[to[k]] == order[k]
                && in_bucket(keys@, order@, p, k, to[k], i + 1) by {
                if k < i {
                    // An earlier element keeps its slot.
                    let s = to[k];
                    let e = digit(keys[order[k] as int], p);
                    lemma_low_next(keys[order[k] as int], p);
                    lemma_count_grows(keys@, order@, p, e, i as int, i + 1);
                    lemma_count_grows(keys@, order@, p, e, i + 1, n as int);
                    lemma_below_grows(keys@, order@, p, e, 256);
                    assert(in_bucket(keys@, order@, p, k, s, i as int));
                    if e < b {
                        lemma_below_grows(keys@, order@, p, e, b);
                    } else if e > b {
                        lemma_below_grows(keys@, order@, p, b, e);
                    }
                    assert(s != slot);
                }
            }
        }
        i += 1;
    }
    proof {
        lemma_pass_sorted(keys@, order@, p, out@, from, to);
    }
    out
}

/// Slot `s` is one that the element at `k` may take, once `n` elements are placed.
spec fn in_bucket(keys: Seq<u32>, order: Seq<usize>, pass: int, k: int, s: int, n: int) -> bool {
    let e = digit(keys[order[k] as int], pass);
    below(keys, order, pass, e) <= s < below(keys, order, pass, e) + count(keys, order, pass, e, n)
}

/// The bucket that slot `s` belongs to.
proof fn lemma_bucket_of(keys: Seq<u32>, order: Seq<usize>, pass: int, d: int, s: int) -> (e: int)
    requires
        0 <= d,
        0 <= s < below(keys, order, pass, d),
    ensures
        0 <= e < d,
        below(keys, order, pass, e) <= s < below(keys, order, pass, e) + count(
            keys,
            order,
            pass,
            e,
            order.len() as int,
        ),
    decreases d,
{
    if s >= below(keys, order, pass, d - 1) {
        d - 1
    } else {
        lemma_bucket_of(keys, order, pass, d - 1, s)
    }
}

/// Filled buckets, one after the other, are the next pass's order.
proof fn lemma_pass_sorted(
    keys: Seq<u32>,
    order: Seq<usize>,
    pass: int,
    out: Seq<usize>,
    from: Seq<int>,
    to: Seq<int>,
)
    requires
        0 <= pass < 4,
        sorts_low(keys, pass, order),
        out.len() == order.len(),
        from.len() == order.len(),
        to.len() == order.len(),
        forall|e: int| 0 <= e < 256 ==> #[trigger] bucket_ok(keys, order, pass, out, from, e, order.len() as int),
        forall|k: int|
            0 <= k < order.len() ==> out[#[trigger] to[k]] == order[k] && in_bucket(
                keys,
                order,
                pass,
                k,
                to[k],
                order.len() as int,
            ),
    ensures
        sorts_low(keys, pass + 1, out),
{
    let n = order.len() as int;
    lemma_below_same(keys, order, pass, 256);
    lemma_below_total(keys, order, pass, n);
    assert forall|i: int| 0 <= i < n implies #[trigger] out[i] < keys.len() by {
        let e = lemma_bucket_of(keys, order, pass, 256, i);
        assert(bucket_ok(keys, order, pass, out, from, e, n));
        assert(0 <= from[i] < n);
        assert(order[from[i]] < keys.len());
    }
    assert forall|i: int, j: int| 0 <= i < j < n implies low_before(
        keys,
        pass + 1,
        #[trigger] out[i] as int,
        #[trigger] out[j] as int,
    ) by {
        let e = lemma_bucket_of(keys, order, pass, 256, i);
        let g = lemma_bucket_of(keys, order, pass, 256, j);
        assert(bucket_ok(keys, order, pass, out, from, e, n));
        assert(bucket_ok(keys, order, pass, out, from, g, n));
        assert(0 <= from[i] < n && 0 <= from[j] < n);
        let a = out[i] as int;
        let b = out[j] as int;
        lemma_low_next(keys[a], pass);
        lemma_low_next(keys[b], pass);
        if g < e {
            lemma_below_grows(keys, order, pass, g, e);
        }
        if e == g {
            assert(from[i] < from[j]);
            assert(low_before(keys, pass, order[from[i]] as int, order[from[j]] as int));
        } else {
            let m = base(pass);
            assert(e * m + m <= g * m) by (nonlinear_arith)
                requires
                    e + 1 <= g,
                    0 < m,
            ;
        }
    }
    assert forall|k: int| 0 <= k < keys.len() implies #[trigger] listed(out, k) by {
        assert(listed(order, k));
        let i = choose|i: int| 0 <= i < order.len() && #[trigger] order[i] == k;
        let s = to[i];
        assert(in_bucket(keys, order, pass, i, s, n));
        let e = digit(keys[order[i] as int], pass);
        lemma_low_next(keys[order[i] as int], pass);
        lemma_below_grows(keys, order, pass, e, 256);
        assert(out[s] == k);
    }
}

/// Where every element has the same digit, each one does.
proof fn lemma_constant_digit(keys: Seq<u32>, order: Seq<usize>, pass: int, d: int, n: int)
    requires
        count(keys, order, pass, d, n) == n,
        0 <= n,
    ensures
        forall|i: int| 0 <= i < n ==> digit(keys[#[trigger] order[i] as int], pass) == d,
    decreases n,
{
    if n > 0 {
        lemma_count_bound(keys, order, pass, d, n - 1);
        lemma_constant_digit(keys, order, pass, d, n - 1);
    }
}

proof fn lemma_count_bound(keys: Seq<u32>, order: Seq<usize>, pass: int, d: int, n: int)
    requires
        0 <= n,
    ensures
        count(keys, order, pass, d, n) <= n,
    decreases n,
{
    if n > 0 {
        lemma_count_bound(keys, order, pass, d, n - 1);
    }
}

/// The digit of `key` that pass `pass` looks at.
fn digit_of(key: u32, pass: usize, shift: u32) -> (d: usize)
    requires
        pass < 4,
        shift == 8 * pass,
    ensures
        d == digit(key, pass as int),
        d < RADIX,
{
    let d: u32 = (key >> shift) & 0xff;
    assert(d == (if shift == 0 {
        key % 256
    } else if shift == 8 {
        key / 256 % 256
    } else if shift == 16 {
        key / 65536 % 256
    } else {
        key / 16777216 % 256
    })) by (bit_vector)
        requires
            d == (key >> shift) & 0xff,
            shift == 0 || shift == 8 || shift == 16 || shift == 24,
    ;
    d as usize
}

/// Count the digits that pass `pass` looks at.
fn count_digits(keys: &[u32], order: &Vec<usize>, pass: usize, shift: u32) -> (counts: Vec<usize>)
    requires
        pass < 4,
        shift == 8 * pass,
        forall|i: int| 0 <= i < order.len() ==> #[trigger] order[i] < keys.len(),
    ensures
        counts.len() == RADIX,
        forall|e: int|
            0 <= e < RADIX ==> #[trigger] counts[e] == count(keys@, order@, pass as int, e, order.len() as int),
{
    let mut counts: Vec<usize> = vec![0usize; RADIX];
    let mut i: usize = 0;
    while i < order.len()
        invariant
            pass < 4,
            shift == 8 * pass,
            forall|k: int| 0 <= k < order.len() ==> #[trigger] order[k] < keys.len(),
            i <= order.len(),
            counts.len() == RADIX,
            forall|e: int|
                0 <= e < RADIX ==> #[trigger] counts[e] == count(keys@, order@, pass as int, e, i as int)
                    && counts[e] <= i,
        decreases order.len() - i,
    {
        let d: usize = digit_of(keys[order[i]], pass, shift);
        counts[d] = counts[d] + 1;
        i += 1;
    }
    counts
}

/// The positions of `keys` by ascending key, equal keys in their old order.
pub fn radix_order(keys: &[u32]) -> (order: Vec<usize>)
    ensures
        sorts(keys@, order@),
{
    let n: usize = keys.len();
    let mut order: Vec<usize> = Vec::with_capacity(n);
    let mut i: usize = 0;
    while i < n
        invariant
            n == keys.len(),
            i <= n,
            order.len() == i,
            forall|k: int| 0 <= k < i ==> #[trigger] order[k] == k,
        decreases n - i,
    {
        order.push(i);
        i += 1;
    }
    proof {
        assert forall|k: int| 0 <= k < keys.len() implies #[trigger] listed(order@, k) by {
            assert(order[k] == k);
        }
        assert(sorts_low(keys@, 0, order@));
    }
    let order: Vec<usize> = radix_pass(keys, &order, 0, 0);
    let order: Vec<usize> = radix_pass(keys, &order, 1, 8);
    let order: Vec<usize> = radix_pass(keys, &order, 2, 16);
    let order: Vec<usize> = radix_pass(keys, &order, 3, 24);
    proof {
        assert forall|i: int, j: int| 0 <= i < j < order.len() implies comes_before(
            keys@,
            #[trigger] order[i] as int,
            #[trigger] order[j] as int,
        ) by {
            assert(low_before(keys@, 4, order[i] as int, order[j] as int));
        }
    }
    order
}

/// There is one stable order: two lists that sort the same keys are the same.
pub proof fn lemma_sorts_unique(keys: Seq<u32>, a: Seq<usize>, b: Seq<usize>)
    requires
        sorts(keys, a),
        sorts(keys, b),
    ensures
        a == b,
{
    assert forall|i: int| 0 <= i < a.len() implies a[i] == b[i] by {
        lemma_same_rank(keys, a, b, i);
    }
    assert(a =~= b);
}

/// The lists agree at position `i` if they agree before it.
proof fn lemma_same_rank(keys: Seq<u32>, a: Seq<usize>, b: Seq<usize>, i: int)
    requires
        sorts(keys, a),
        sorts(keys, b),
        0 <= i < a.len(),
    ensures
        a[i] == b[i],
    decreases i,
{
    assert forall|k: int| 0 <= k < i implies a[k] == b[k] by {
        lemma_same_rank(keys, a, b, k);
    }
    // Where each holds what the other has at `i`.
    assert(listed(a, b[i] as int));
    assert(listed(b, a[i] as int));
    let p = choose|p: int| 0 <= p < a.len() && #[trigger] a[p] == b[i];
    let q = choose|q: int| 0 <= q < b.len() && #[trigger] b[q] == a[i];
    if p < i {
        assert(a[p] == b[p]);
        assert(comes_before(keys, b[p] as int, b[i] as int));
    }
    if q < i {
        assert(a[q] == b[q]);
        assert(comes_before(keys, a[q] as int, a[i] as int));
    }
    if p > i && q > i {
        assert(comes_before(keys, a[i] as int, a[p] as int));
        assert(comes_before(keys, b[i] as int, b[q] as int));
    }
}

} // verus!
