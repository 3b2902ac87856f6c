//! The radix sort of a column of keys, tile by tile.
//!
//! Four passes of an 8-bit digit. In each pass every tile's digits are counted, digit by
//! digit and within a digit tile by tile, so that scanning the counts in that order gives
//! every digit of every tile its first slot in the column. Then each tile is sorted by its
//! digit, stably, with eight one-bit splits, and every key goes to its slot: the tile's slot
//! for the digit plus the key's rank inside the tile. Stable within a tile and tiles in
//! order, so stable across the pass, which is what each pass of the sort needs.

use vstd::prelude::*;

use vstd::arithmetic::div_mod::lemma_mod_breakdown;
use vstd::arithmetic::power2::{lemma2_to64, lemma_pow2_adds, lemma_pow2_pos, pow2};

verus! {

/// Keys per tile of the sort: [`SORT_BLOCK`] units taking [`SORT_ITEMS`] each.
pub const SORT_TILE: u32 = 2048;

/// Units per cube of the sort's tiles.
pub const SORT_BLOCK: u32 = 256;

/// Keys a unit owns in a tile.
pub const SORT_ITEMS: u32 = 8;

/// Digits of one pass.
pub const SORT_RADIX: u32 = 256;

/// The digit of a key to base `w` from bit `b` on.
pub open spec fn field(key: u32, b: nat, w: int) -> int {
    key as int / pow2(b) as int % w
}

/// The keys with digit `d`, in their old order.
pub open spec fn bucket(s: Seq<u32>, b: nat, w: int, d: int) -> Seq<u32>
    decreases s.len(),
{
    if s.len() == 0 {
        Seq::empty()
    } else {
        let rest = bucket(s.drop_last(), b, w, d);
        if field(s.last(), b, w) == d {
            rest.push(s.last())
        } else {
            rest
        }
    }
}

/// How many keys have a digit below `d`.
pub open spec fn below(s: Seq<u32>, b: nat, w: int, d: int) -> int
    decreases d,
{
    if d <= 0 {
        0
    } else {
        below(s, b, w, d - 1) + bucket(s, b, w, d - 1).len()
    }
}

/// The keys with a digit below `d`: digit after digit, each in their old order.
pub open spec fn spread(s: Seq<u32>, b: nat, w: int, d: int) -> Seq<u32>
    decreases d,
{
    if d <= 0 {
        Seq::empty()
    } else {
        spread(s, b, w, d - 1) + bucket(s, b, w, d - 1)
    }
}

/// The keys ascend in the `j` bits from bit `b` on.
pub open spec fn ascends(s: Seq<u32>, b: nat, j: nat) -> bool {
    forall|x: int, y: int|
        0 <= x <= y < s.len() ==> field(#[trigger] s[x], b, pow2(j) as int) <= field(#[trigger] s[y], b, pow2(j) as int)
}

proof fn lemma_bucket_concat(s: Seq<u32>, t: Seq<u32>, b: nat, w: int, d: int)
    ensures
        bucket(s + t, b, w, d) == bucket(s, b, w, d) + bucket(t, b, w, d),
    decreases t.len(),
{
    if t.len() == 0 {
        assert(s + t =~= s);
        assert(bucket(s, b, w, d) + bucket(t, b, w, d) =~= bucket(s, b, w, d));
    } else {
        assert((s + t).drop_last() =~= s + t.drop_last());
        lemma_bucket_concat(s, t.drop_last(), b, w, d);
        assert(bucket(s + t, b, w, d) =~= bucket(s, b, w, d) + bucket(t, b, w, d));
    }
}

/// One more key joins the bucket of its digit.
proof fn lemma_bucket_push(s: Seq<u32>, key: u32, b: nat, w: int, d: int)
    ensures
        bucket(s.push(key), b, w, d) == (if field(key, b, w) == d {
            bucket(s, b, w, d).push(key)
        } else {
            bucket(s, b, w, d)
        }),
{
    assert(s.push(key).drop_last() =~= s);
}

proof fn lemma_below_push(s: Seq<u32>, key: u32, b: nat, w: int, d: int)
    requires
        0 <= d,
    ensures
        below(s.push(key), b, w, d) == below(s, b, w, d) + (if field(key, b, w) < d && 0 <= field(key, b, w) {
            1int
        } else {
            0
        }),
    decreases d,
{
    if d > 0 {
        lemma_below_push(s, key, b, w, d - 1);
        lemma_bucket_push(s, key, b, w, d - 1);
    }
}

proof fn lemma_field_range(key: u32, b: nat, w: int)
    requires
        w > 0,
    ensures
        0 <= field(key, b, w) < w,
{
    lemma_pow2_pos(b);
}

/// Every key has one digit.
proof fn lemma_below_all(s: Seq<u32>, b: nat, w: int)
    requires
        w > 0,
    ensures
        below(s, b, w, w) == s.len(),
    decreases s.len(),
{
    if s.len() > 0 {
        lemma_below_all(s.drop_last(), b, w);
        assert(s =~= s.drop_last().push(s.last()));
        lemma_below_push(s.drop_last(), s.last(), b, w, w);
        lemma_field_range(s.last(), b, w);
    } else {
        lemma_below_empty(s, b, w, w);
    }
}

proof fn lemma_below_empty(s: Seq<u32>, b: nat, w: int, d: int)
    requires
        s.len() == 0,
    ensures
        below(s, b, w, d) == 0,
    decreases d,
{
    if d > 0 {
        lemma_below_empty(s, b, w, d - 1);
    }
}

proof fn lemma_below_concat(s: Seq<u32>, t: Seq<u32>, b: nat, w: int, d: int)
    ensures
        below(s + t, b, w, d) == below(s, b, w, d) + below(t, b, w, d),
    decreases d,
{
    if d > 0 {
        lemma_below_concat(s, t, b, w, d - 1);
        lemma_bucket_concat(s, t, b, w, d - 1);
    }
}

proof fn lemma_below_grows(s: Seq<u32>, b: nat, w: int, c: int, d: int)
    requires
        c <= d,
    ensures
        0 <= below(s, b, w, c) <= below(s, b, w, d),
        c < d && c >= 0 ==> below(s, b, w, c) + bucket(s, b, w, c).len() <= below(s, b, w, d),
    decreases d,
{
    if d > 0 {
        if c < d {
            lemma_below_grows(s, b, w, c, d - 1);
        } else {
            lemma_below_grows(s, b, w, d - 1, d - 1);
        }
    }
}

/// What a bucket holds.
proof fn lemma_bucket_members(s: Seq<u32>, b: nat, w: int, d: int)
    ensures
        forall|i: int|
            0 <= i < bucket(s, b, w, d).len() ==> field(#[trigger] bucket(s, b, w, d)[i], b, w) == d && s.contains(
                bucket(s, b, w, d)[i],
            ),
        bucket(s, b, w, d).len() <= s.len(),
    decreases s.len(),
{
    if s.len() > 0 {
        let rest = s.drop_last();
        lemma_bucket_members(rest, b, w, d);
        let all = bucket(s, b, w, d);
        assert forall|i: int| 0 <= i < all.len() implies field(#[trigger] all[i], b, w) == d && s.contains(all[i]) by {
            if i < bucket(rest, b, w, d).len() {
                assert(all[i] == bucket(rest, b, w, d)[i]);
                assert(rest.contains(all[i]));
                let k = choose|k: int| 0 <= k < rest.len() && rest[k] == all[i];
                assert(s[k] == all[i]);
            } else {
                assert(all[i] == s[s.len() - 1]);
            }
        }
    }
}

/// A bucket keeps the order of its keys.
proof fn lemma_bucket_ascends(s: Seq<u32>, b: nat, w: int, d: int, from: nat, n: nat)
    requires
        ascends(s, from, n),
    ensures
        ascends(bucket(s, b, w, d), from, n),
    decreases s.len(),
{
    if s.len() > 0 {
        let rest = s.drop_last();
        let p = pow2(n) as int;
        assert forall|x: int, y: int| 0 <= x <= y < rest.len() implies field(#[trigger] rest[x], from, p) <= field(
            #[trigger] rest[y],
            from,
            p,
        ) by {
            assert(field(s[x], from, p) <= field(s[y], from, p));
        }
        lemma_bucket_ascends(rest, b, w, d, from, n);
        lemma_bucket_members(rest, b, w, d);
        let head = bucket(rest, b, w, d);
        let all = bucket(s, b, w, d);
        assert forall|x: int, y: int| 0 <= x <= y < all.len() implies field(#[trigger] all[x], from, p) <= field(
            #[trigger] all[y],
            from,
            p,
        ) by {
            if y < head.len() {
                assert(all[x] == head[x] && all[y] == head[y]);
            } else {
                assert(all[y] == s[s.len() - 1]);
                if x < head.len() {
                    assert(all[x] == head[x]);
                    assert(rest.contains(head[x]));
                    let k = choose|k: int| 0 <= k < rest.len() && rest[k] == head[x];
                    assert(s[k] == head[x]);
                    assert(field(s[k], from, p) <= field(s[s.len() - 1], from, p));
                }
            }
        }
    }
}

/// A digit of `width` bits on top of `n` bits makes `n + width` bits.
proof fn lemma_field_join(key: u32, from: nat, n: nat, width: nat)
    ensures
        field(key, from, pow2(n + width) as int) == pow2(n) as int * field(key, from + n, pow2(width) as int) + field(
            key,
            from,
            pow2(n) as int,
        ),
        0 <= field(key, from, pow2(n) as int) < pow2(n),
        0 <= field(key, from + n, pow2(width) as int) < pow2(width),
{
    lemma_pow2_pos(from);
    lemma_pow2_pos(n);
    lemma_pow2_pos(width);
    lemma_pow2_adds(n, width);
    lemma_pow2_adds(from, n);
    let y = key as int / pow2(from) as int;
    lemma_mod_breakdown(y, pow2(n) as int, pow2(width) as int);
    vstd::arithmetic::div_mod::lemma_div_denominator(key as int, pow2(from) as int, pow2(n) as int);
}

/// Spreading keys that ascend in `n` bits by the digit above them makes them ascend in both.
proof fn lemma_spread_ascends(s: Seq<u32>, from: nat, n: nat, width: nat, d: int)
    requires
        ascends(s, from, n),
        0 <= d <= pow2(width),
    ensures
        ascends(spread(s, from + n, pow2(width) as int, d), from, n + width),
        forall|i: int|
            0 <= i < spread(s, from + n, pow2(width) as int, d).len() ==> 0 <= field(
                #[trigger] spread(s, from + n, pow2(width) as int, d)[i],
                from + n,
                pow2(width) as int,
            ) < d,
    decreases d,
{
    let w = pow2(width) as int;
    let b = from + n;
    if d > 0 {
        lemma_spread_ascends(s, from, n, width, d - 1);
        lemma_bucket_ascends(s, b, w, d - 1, from, n);
        lemma_bucket_members(s, b, w, d - 1);
        let head = spread(s, b, w, d - 1);
        let tail = bucket(s, b, w, d - 1);
        let all = spread(s, b, w, d);
        let p = pow2(n) as int;
        let q = pow2(n + width) as int;
        assert(all == head + tail);
        assert forall|i: int, j: int| 0 <= i <= j < all.len() implies field(#[trigger] all[i], from, q) <= field(
            #[trigger] all[j],
            from,
            q,
        ) by {
            lemma_field_join(all[i], from, n, width);
            lemma_field_join(all[j], from, n, width);
            let x = field(all[i], b, w);
            let y = field(all[j], b, w);
            if j < head.len() {
                assert(all[i] == head[i] && all[j] == head[j]);
                assert(field(head[i], from, q) <= field(head[j], from, q));
            } else if i < head.len() {
                assert(all[i] == head[i]);
                assert(all[j] == tail[j - head.len()]);
                assert(x < y);
                assert(p * x + p <= p * y) by (nonlinear_arith)
                    requires
                        x + 1 <= y,
                        0 <= p,
                ;
            } else {
                assert(all[i] == tail[i - head.len()] && all[j] == tail[j - head.len()]);
                assert(field(tail[i - head.len()], from, p) <= field(tail[j - head.len()], from, p));
            }
        }
        assert forall|i: int| 0 <= i < all.len() implies 0 <= field(#[trigger] all[i], b, w) < d by {
            if i < head.len() {
                assert(all[i] == head[i]);
            } else {
                assert(all[i] == tail[i - head.len()]);
            }
        }
    }
}

/// Where a spread key stands.
proof fn lemma_spread_at(s: Seq<u32>, b: nat, w: int, n: int, d: int, j: int)
    requires
        0 <= d < n,
        0 <= j < bucket(s, b, w, d).len(),
    ensures
        spread(s, b, w, n).len() == below(s, b, w, n),
        below(s, b, w, d) + j < below(s, b, w, n),
        spread(s, b, w, n)[below(s, b, w, d) + j] == bucket(s, b, w, d)[j],
    decreases n,
{
    lemma_spread_len(s, b, w, n);
    lemma_spread_len(s, b, w, n - 1);
    lemma_below_grows(s, b, w, d, n);
    if d < n - 1 {
        lemma_spread_at(s, b, w, n - 1, d, j);
    }
}

proof fn lemma_spread_len(s: Seq<u32>, b: nat, w: int, d: int)
    ensures
        spread(s, b, w, d).len() == below(s, b, w, d),
    decreases d,
{
    if d > 0 {
        lemma_spread_len(s, b, w, d - 1);
    }
}

/// Every place of a spread is some digit's.
proof fn lemma_spread_owner(s: Seq<u32>, b: nat, w: int, n: int, i: int) -> (r: (int, int))
    requires
        0 <= i < below(s, b, w, n),
    ensures
        0 <= r.0 < n,
        0 <= r.1 < bucket(s, b, w, r.0).len(),
        i == below(s, b, w, r.0) + r.1,
    decreases n,
{
    lemma_below_grows(s, b, w, n - 1, n);
    if i < below(s, b, w, n - 1) {
        lemma_spread_owner(s, b, w, n - 1, i)
    } else {
        (n - 1, i - below(s, b, w, n - 1))
    }
}

/// Spreading moves keys and neither adds nor loses any.
proof fn lemma_spread_push(s: Seq<u32>, key: u32, b: nat, w: int, d: int)
    requires
        0 <= d,
    ensures
        spread(s.push(key), b, w, d).to_multiset() == (if 0 <= field(key, b, w) < d {
            spread(s, b, w, d).to_multiset().insert(key)
        } else {
            spread(s, b, w, d).to_multiset()
        }),
    decreases d,
{
    broadcast use vstd::seq_lib::group_to_multiset_ensures;

    if d > 0 {
        lemma_spread_push(s, key, b, w, d - 1);
        lemma_bucket_push(s, key, b, w, d - 1);
        let a = spread(s.push(key), b, w, d - 1);
        let c = bucket(s.push(key), b, w, d - 1);
        vstd::seq_lib::lemma_multiset_commutative(a, c);
        vstd::seq_lib::lemma_multiset_commutative(spread(s, b, w, d - 1), bucket(s, b, w, d - 1));
        assert(spread(s.push(key), b, w, d).to_multiset() =~= (if 0 <= field(key, b, w) < d {
            spread(s, b, w, d).to_multiset().insert(key)
        } else {
            spread(s, b, w, d).to_multiset()
        }));
    }
}

proof fn lemma_spread_keeps(s: Seq<u32>, b: nat, w: int)
    requires
        w > 0,
    ensures
        spread(s, b, w, w).to_multiset() == s.to_multiset(),
        spread(s, b, w, w).len() == s.len(),
    decreases s.len(),
{
    broadcast use vstd::seq_lib::group_to_multiset_ensures;

    lemma_spread_len(s, b, w, w);
    lemma_below_all(s, b, w);
    if s.len() > 0 {
        lemma_spread_keeps(s.drop_last(), b, w);
        assert(s =~= s.drop_last().push(s.last()));
        lemma_spread_push(s.drop_last(), s.last(), b, w, w);
        lemma_field_range(s.last(), b, w);
    } else {
        assert(spread(s, b, w, w) =~= s);
    }
}

/// Bit `j` of a digit is the key's bit.
proof fn lemma_digit_bit(key: u32, b: nat, j: nat)
    requires
        j < 8,
    ensures
        field(key, b + j, 2) == field(key, b, 256) / pow2(j) as int % 2,
{
    lemma2_to64();
    lemma_pow2_pos(b);
    lemma_pow2_pos(j);
    lemma_pow2_adds(b, j);
    let y = key as int / pow2(b) as int;
    vstd::arithmetic::div_mod::lemma_div_denominator(key as int, pow2(b) as int, pow2(j) as int);
    assert(field(key, b + j, 2) == y / pow2(j) as int % 2);
    let a = pow2(j) as int;
    let c = pow2((8 - j) as nat) as int;
    let half = pow2((7 - j) as nat) as int;
    lemma_pow2_pos((8 - j) as nat);
    lemma_pow2_pos((7 - j) as nat);
    lemma_pow2_adds(j, (8 - j) as nat);
    lemma_pow2_adds(1, (7 - j) as nat);
    lemma_mod_breakdown(y, a, c);
    let q = y / a % c;
    vstd::arithmetic::div_mod::lemma_fundamental_div_mod_converse(y % 256, a, q, y % a);
    vstd::arithmetic::div_mod::lemma_mod_mod(y / a, 2, half);
}

/// Of the keys with one value of a bit, those with a digit are all with that digit, or none.
proof fn lemma_bucket_of_split(s: Seq<u32>, b: nat, j: nat, c: int, d: int)
    requires
        j < 8,
    ensures
        bucket(bucket(s, b + j, 2, c), b, 256, d) == (if d / pow2(j) as int % 2 == c {
            bucket(s, b, 256, d)
        } else {
            Seq::empty()
        }),
    decreases s.len(),
{
    if s.len() > 0 {
        let rest = s.drop_last();
        let key = s.last();
        lemma_bucket_of_split(rest, b, j, c, d);
        lemma_digit_bit(key, b, j);
        lemma_bucket_push(bucket(rest, b + j, 2, c), key, b, 256, d);
        assert(bucket(bucket(s, b + j, 2, c), b, 256, d) =~= (if d / pow2(j) as int % 2 == c {
            bucket(s, b, 256, d)
        } else {
            Seq::empty()
        }));
    }
}

/// Splitting by a bit of the digit keeps the keys of each digit in order.
proof fn lemma_split_keeps_digits(s: Seq<u32>, b: nat, j: nat, d: int)
    requires
        j < 8,
        0 <= d,
    ensures
        bucket(spread(s, b + j, 2, 2), b, 256, d) == bucket(s, b, 256, d),
{
    let zeros = bucket(s, b + j, 2, 0);
    let ones = bucket(s, b + j, 2, 1);
    reveal_with_fuel(spread, 3);
    assert(spread(s, b + j, 2, 2) =~= zeros + ones);
    lemma_bucket_concat(zeros, ones, b, 256, d);
    lemma_bucket_of_split(s, b, j, 0, d);
    lemma_bucket_of_split(s, b, j, 1, d);
    lemma_pow2_pos(j);
    let c = d / pow2(j) as int % 2;
    assert(c == 0 || c == 1);
    assert(bucket(zeros + ones, b, 256, d) =~= bucket(s, b, 256, d));
}

/// The digit of a key from bit `shift` on.
fn digit_of(key: u32, shift: u32) -> (d: u32)
    requires
        shift < 32,
    ensures
        d == field(key, shift as nat, 256),
        d < 256,
{
    proof {
        vstd::bits::lemma_u32_shr_is_div(key, shift);
    }
    (key >> shift) % SORT_RADIX
}

/// One bit of a key.
fn bit_of(key: u32, at: u32) -> (c: u32)
    requires
        at < 32,
    ensures
        c == field(key, at as nat, 2),
{
    proof {
        vstd::bits::lemma_u32_shr_is_div(key, at);
    }
    (key >> at) % 2
}

/// One stable split of a tile by bit `at`: the keys with the bit clear first, then those with
/// it set, each group in its old order.
pub fn split_by_bit(src: &Vec<u32>, at: u32) -> (dst: Vec<u32>)
    requires
        at < 32,
    ensures
        dst@ == spread(src@, at as nat, 2, 2),
        dst.len() == src.len(),
{
    let mut dst: Vec<u32> = Vec::with_capacity(src.len());
    let mut ones: Vec<u32> = Vec::new();
    let mut i: usize = 0;
    while i < src.len()
        invariant
            at < 32,
            i <= src.len(),
            dst@ == bucket(src@.subrange(0, i as int), at as nat, 2, 0),
            ones@ == bucket(src@.subrange(0, i as int), at as nat, 2, 1),
        decreases src.len() - i,
    {
        let key: u32 = src[i];
        proof {
            assert(src@.subrange(0, i + 1) =~= src@.subrange(0, i as int).push(key));
            lemma_bucket_push(src@.subrange(0, i as int), key, at as nat, 2, 0);
            lemma_bucket_push(src@.subrange(0, i as int), key, at as nat, 2, 1);
        }
        if bit_of(key, at) == 1 {
            ones.push(key);
        } else {
            dst.push(key);
        }
        i += 1;
    }
    proof {
        assert(src@.subrange(0, src.len() as int) =~= src@);
        reveal_with_fuel(spread, 3);
        lemma_spread_keeps(src@, at as nat, 2);
    }
    let ghost zeros = dst@;
    dst.extend_from_slice(ones.as_slice());
    assert(dst@ =~= zeros + ones@);
    assert(dst@ =~= spread(src@, at as nat, 2, 2));
    dst
}

/// Sort a tile by its digit, stably, with eight one-bit splits.
fn sort_tile(tile: Vec<u32>, shift: u32) -> (sorted: Vec<u32>)
    requires
        shift <= 24,
    ensures
        sorted.len() == tile.len(),
        ascends(sorted@, shift as nat, 8),
        forall|d: int| 0 <= d ==> #[trigger] bucket(sorted@, shift as nat, 256, d) == bucket(tile@, shift as nat, 256, d),
{
    let mut cur: Vec<u32> = tile;
    let ghost b = shift as nat;
    let mut j: u32 = 0;
    proof {
        lemma2_to64();
        assert(ascends(cur@, b, 0)) by {
            assert forall|x: int, y: int| 0 <= x <= y < cur.len() implies field(#[trigger] cur@[x], b, 1) <= field(
                #[trigger] cur@[y],
                b,
                1,
            ) by {}
        }
    }
    while j < 8
        invariant
            shift <= 24,
            b == shift,
            j <= 8,
            cur.len() == tile.len(),
            ascends(cur@, b, j as nat),
            forall|d: int| 0 <= d ==> #[trigger] bucket(cur@, b, 256, d) == bucket(tile@, b, 256, d),
        decreases 8 - j,
    {
        let next: Vec<u32> = split_by_bit(&cur, shift + j);
        proof {
            lemma2_to64();
            assert(b + j as nat == (shift + j) as nat);
            lemma_spread_ascends(cur@, b, j as nat, 1, 2);
            assert forall|d: int| 0 <= d implies #[trigger] bucket(next@, b, 256, d) == bucket(tile@, b, 256, d) by {
                lemma_split_keeps_digits(cur@, b, j as nat, d);
                assert(bucket(cur@, b, 256, d) == bucket(tile@, b, 256, d));
            }
        }
        cur = next;
        j += 1;
    }
    cur
}

/// The keys of one tile.
pub open spec fn tile_keys(keys: Seq<u32>, tile: int) -> Seq<u32> {
    keys.subrange(tile * SORT_TILE, (tile + 1) * SORT_TILE)
}

/// The keys of the tiles before one.
spec fn keys_before(keys: Seq<u32>, tile: int) -> Seq<u32> {
    keys.subrange(0, tile * SORT_TILE)
}

/// Where the count of a digit in a tile stands: digit by digit, tile by tile.
pub open spec fn count_at(n_tiles: int, d: int, tile: int) -> int {
    d * n_tiles + tile
}

proof fn lemma_count_at(n_tiles: int, d: int, tile: int)
    requires
        0 <= d < 256,
        0 <= tile < n_tiles,
    ensures
        0 <= count_at(n_tiles, d, tile) < 256 * n_tiles,
{
    assert(0 <= d * n_tiles + tile < 256 * n_tiles) by (nonlinear_arith)
        requires
            0 <= d < 256,
            0 <= tile < n_tiles,
    ;
}

/// Count the digits of one tile.
fn count_tile(keys: &Vec<u32>, tile: usize, shift: u32) -> (hist: Vec<u32>)
    requires
        shift <= 24,
        (tile + 1) * SORT_TILE <= keys.len(),
    ensures
        hist.len() == 256,
        forall|d: int|
            0 <= d < 256 ==> #[trigger] hist[d] == bucket(tile_keys(keys@, tile as int), shift as nat, 256, d).len(),
{
    let mut hist: Vec<u32> = vec![0u32; 256];
    let ghost run = tile_keys(keys@, tile as int);
    let ghost b = shift as nat;
    let cells: usize = keys.len();
    let base: usize = tile * SORT_TILE as usize;
    let mut i: usize = 0;
    while i < SORT_TILE as usize
        invariant
            shift <= 24,
            b == shift,
            cells == keys.len(),
            base == tile * SORT_TILE,
            base + SORT_TILE <= cells,
            run == tile_keys(keys@, tile as int),
            i <= SORT_TILE,
            hist.len() == 256,
            forall|d: int| 0 <= d < 256 ==> #[trigger] hist[d] == bucket(run.subrange(0, i as int), b, 256, d).len(),
            forall|d: int| 0 <= d < 256 ==> #[trigger] hist[d] <= i,
        decreases SORT_TILE - i,
    {
        let key: u32 = keys[base + i];
        let d: u32 = digit_of(key, shift);
        let ghost was = hist@;
        let seen: u32 = hist[d as usize];
        hist.set(d as usize, seen + 1);
        proof {
            assert(run[i as int] == key);
            assert(run.subrange(0, i + 1) =~= run.subrange(0, i as int).push(key));
            assert forall|e: int| 0 <= e < 256 implies #[trigger] hist[e] == bucket(run.subrange(0, i + 1), b, 256, e).len()
                && hist[e] <= i + 1 by {
                lemma_bucket_push(run.subrange(0, i as int), key, b, 256, e);
                assert(was[e] == bucket(run.subrange(0, i as int), b, 256, e).len());
                assert(was[e] <= i);
            }
        }
        i += 1;
    }
    assert(run.subrange(0, SORT_TILE as int) =~= run);
    hist
}

/// Count the digits of every tile of a column.
pub fn radix_count_kernel(keys: &Vec<u32>, n_tiles: usize, shift: u32) -> (counts: Vec<u32>)
    requires
        shift <= 24,
        keys.len() == n_tiles * SORT_TILE,
    ensures
        counts.len() == 256 * n_tiles,
        forall|d: int, tile: int|
            0 <= d < 256 && 0 <= tile < n_tiles ==> #[trigger] counts[count_at(n_tiles as int, d, tile)] == bucket(
                tile_keys(keys@, tile),
                shift as nat,
                256,
                d,
            ).len(),
{
    let ghost b = shift as nat;
    let ghost nt = n_tiles as int;
    let cells: usize = keys.len();
    assert(256 * n_tiles <= n_tiles * SORT_TILE) by (nonlinear_arith)
        requires
            SORT_TILE == 2048,
    ;
    let mut counts: Vec<u32> = vec![0u32; 256 * n_tiles];
    let mut tile: usize = 0;
    while tile < n_tiles
        invariant
            shift <= 24,
            b == shift,
            nt == n_tiles,
            cells == keys.len(),
            cells == n_tiles * SORT_TILE,
            256 * n_tiles <= cells,
            tile <= n_tiles,
            counts.len() == 256 * n_tiles,
            forall|d: int, t: int|
                0 <= d < 256 && 0 <= t < tile ==> #[trigger] counts[count_at(nt, d, t)] == bucket(
                    tile_keys(keys@, t),
                    b,
                    256,
                    d,
                ).len(),
        decreases n_tiles - tile,
    {
        assert((tile + 1) * SORT_TILE <= n_tiles * SORT_TILE) by (nonlinear_arith)
            requires
                tile + 1 <= n_tiles,
        ;
        let hist: Vec<u32> = count_tile(keys, tile, shift);
        let mut d: usize = 0;
        while d < 256
            invariant
                b == shift,
                nt == n_tiles,
                256 * n_tiles <= cells,
                tile < n_tiles,
                d <= 256,
                counts.len() == 256 * n_tiles,
                hist.len() == 256,
                forall|e: int| 0 <= e < 256 ==> #[trigger] hist[e] == bucket(tile_keys(keys@, tile as int), b, 256, e).len(),
                forall|e: int, t: int|
                    0 <= e < 256 && 0 <= t < tile ==> #[trigger] counts[count_at(nt, e, t)] == bucket(
                        tile_keys(keys@, t),
                        b,
                        256,
                        e,
                    ).len(),
                forall|e: int|
                    0 <= e < d ==> #[trigger] counts[count_at(nt, e, tile as int)] == bucket(
                        tile_keys(keys@, tile as int),
                        b,
                        256,
                        e,
                    ).len(),
            decreases 256 - d,
        {
            let ghost was = counts@;
            proof {
                lemma_count_at(nt, d as int, tile as int);
            }
            assert(d * n_tiles <= d * n_tiles + tile);
            let at: usize = d * n_tiles + tile;
            counts.set(at, hist[d]);
            proof {
                assert forall|e: int, t: int| 0 <= e < 256 && 0 <= t < tile implies #[trigger] counts[count_at(nt, e, t)]
                    == bucket(tile_keys(keys@, t), b, 256, e).len() by {
                    lemma_count_at(nt, e, t);
                    lemma_counts_apart(nt, e, t, d as int, tile as int);
                    assert(was[count_at(nt, e, t)] == bucket(tile_keys(keys@, t), b, 256, e).len());
                }
                assert forall|e: int| 0 <= e < d + 1 implies #[trigger] counts[count_at(nt, e, tile as int)] == bucket(
                    tile_keys(keys@, tile as int),
                    b,
                    256,
                    e,
                ).len() by {
                    lemma_count_at(nt, e, tile as int);
                    if e < d {
                        lemma_counts_apart(nt, e, tile as int, d as int, tile as int);
                        assert(was[count_at(nt, e, tile as int)] == bucket(
                            tile_keys(keys@, tile as int),
                            b,
                            256,
                            e,
                        ).len());
                    }
                }
            }
            d += 1;
        }
        tile += 1;
    }
    counts
}

proof fn lemma_counts_apart(n_tiles: int, d: int, t: int, e: int, u: int)
    requires
        0 <= t < n_tiles,
        0 <= u < n_tiles,
        d != e || t != u,
    ensures
        count_at(n_tiles, d, t) != count_at(n_tiles, e, u),
{
    assert(d * n_tiles + t != e * n_tiles + u) by (nonlinear_arith)
        requires
            0 <= t < n_tiles,
            0 <= u < n_tiles,
            d != e || t != u,
    ;
}

/// The keys before a tile and the tile's own.
proof fn lemma_tiles_concat(keys: Seq<u32>, n_tiles: int, tile: int)
    requires
        keys.len() == n_tiles * SORT_TILE,
        0 <= tile < n_tiles,
    ensures
        keys_before(keys, tile + 1) == keys_before(keys, tile) + tile_keys(keys, tile),
        tile_keys(keys, tile).len() == SORT_TILE,
        0 <= tile * SORT_TILE,
        (tile + 1) * SORT_TILE <= keys.len(),
{
    assert(0 <= tile * SORT_TILE && (tile + 1) * SORT_TILE <= n_tiles * SORT_TILE) by (nonlinear_arith)
        requires
            0 <= tile,
            tile + 1 <= n_tiles,
    ;
    assert(keys_before(keys, tile + 1) =~= keys_before(keys, tile) + tile_keys(keys, tile));
}

/// The sum of the first `n` counts.
pub open spec fn sum_before(counts: Seq<u32>, n: int) -> int
    decreases n,
{
    if n <= 0 {
        0
    } else {
        sum_before(counts, n - 1) + counts[n - 1]
    }
}

/// Exclusive scan of a column's counts, in memory order.
pub fn radix_scan_kernel(counts: &Vec<u32>) -> (offsets: Vec<u32>)
    requires
        sum_before(counts@, counts.len() as int) <= u32::MAX,
    ensures
        offsets.len() == counts.len(),
        forall|i: int| 0 <= i < counts.len() ==> #[trigger] offsets[i] == sum_before(counts@, i),
{
    let mut offsets: Vec<u32> = Vec::with_capacity(counts.len());
    let mut carry: u32 = 0;
    let mut i: usize = 0;
    while i < counts.len()
        invariant
            sum_before(counts@, counts.len() as int) <= u32::MAX,
            i <= counts.len(),
            offsets.len() == i,
            carry == sum_before(counts@, i as int),
            forall|k: int| 0 <= k < i ==> #[trigger] offsets[k] == sum_before(counts@, k),
        decreases counts.len() - i,
    {
        offsets.push(carry);
        proof {
            lemma_sum_grows(counts@, i + 1, counts.len() as int);
        }
        carry = carry + counts[i];
        i += 1;
    }
    offsets
}

proof fn lemma_sum_grows(counts: Seq<u32>, a: int, b: int)
    requires
        0 <= a <= b <= counts.len(),
    ensures
        0 <= sum_before(counts, a) <= sum_before(counts, b),
    decreases b,
{
    if a < b {
        lemma_sum_grows(counts, a, b - 1);
    } else if b > 0 {
        lemma_sum_grows(counts, a - 1, b - 1);
    }
}

/// The counts in memory order, summed up to a digit of a tile, are its first slot: the
/// smaller digits of the column, and the digit in the tiles before.
proof fn lemma_slot_table(keys: Seq<u32>, counts: Seq<u32>, n_tiles: int, b: nat, d: int, tile: int)
    requires
        keys.len() == n_tiles * SORT_TILE,
        counts.len() == 256 * n_tiles,
        forall|e: int, t: int|
            0 <= e < 256 && 0 <= t < n_tiles ==> #[trigger] counts[count_at(n_tiles, e, t)] == bucket(
                tile_keys(keys, t),
                b,
                256,
                e,
            ).len(),
        0 <= d <= 256,
        0 <= tile <= n_tiles,
        d == 256 ==> tile == 0,
    ensures
        sum_before(counts, count_at(n_tiles, d, tile)) == below(keys, b, 256, d) + bucket(
            keys_before(keys, tile),
            b,
            256,
            d,
        ).len(),
    decreases d, tile,
{
    if tile > 0 {
        lemma_slot_table(keys, counts, n_tiles, b, d, tile - 1);
        lemma_count_at(n_tiles, d, tile - 1);
        lemma_tiles_concat(keys, n_tiles, tile - 1);
        lemma_bucket_concat(keys_before(keys, tile - 1), tile_keys(keys, tile - 1), b, 256, d);
        assert(counts[count_at(n_tiles, d, tile - 1)] == bucket(tile_keys(keys, tile - 1), b, 256, d).len());
        assert(count_at(n_tiles, d, tile) == count_at(n_tiles, d, tile - 1) + 1);
    } else {
        assert(keys_before(keys, 0) =~= Seq::empty());
        assert(bucket(keys_before(keys, 0), b, 256, d).len() == 0);
        if d == 0 {
            assert(count_at(n_tiles, d, tile) == 0) by (nonlinear_arith)
                requires
                    count_at(n_tiles, d, tile) == d * n_tiles + tile,
                    d == 0,
                    tile == 0,
            ;
        }
        if d > 0 {
            lemma_slot_table(keys, counts, n_tiles, b, d - 1, n_tiles);
            assert(keys_before(keys, n_tiles) =~= keys);
            assert(count_at(n_tiles, d, 0) == count_at(n_tiles, d - 1, n_tiles)) by (nonlinear_arith)
                requires
                    count_at(n_tiles, d, 0) == d * n_tiles + 0,
                    count_at(n_tiles, d - 1, n_tiles) == (d - 1) * n_tiles + n_tiles,
            ;
        }
    }
}

/// Where key `j` of digit `d` stands once the column is spread.
spec fn slot_of(keys: Seq<u32>, b: nat, d: int, j: int) -> int {
    below(keys, b, 256, d) + j
}

/// The first keys of every digit stand where they belong.
spec fn placed(out: Seq<u32>, keys: Seq<u32>, b: nat, done: Seq<u32>, part: Seq<u32>) -> bool {
    forall|d: int, j: int|
        0 <= d < 256 && 0 <= j < bucket(done, b, 256, d).len() + bucket(part, b, 256, d).len()
            ==> #[trigger] out[slot_of(keys, b, d, j)] == bucket(keys, b, 256, d)[j]
}

proof fn lemma_below_none(s: Seq<u32>, b: nat, d: int)
    requires
        forall|i: int| 0 <= i < s.len() ==> field(#[trigger] s[i], b, 256) >= d,
        0 <= d,
    ensures
        below(s, b, 256, d) == 0,
    decreases s.len(),
{
    if s.len() > 0 {
        let rest = s.drop_last();
        assert forall|i: int| 0 <= i < rest.len() implies field(#[trigger] rest[i], b, 256) >= d by {
            assert(rest[i] == s[i]);
        }
        lemma_below_none(rest, b, d);
        assert(s =~= rest.push(s.last()));
        lemma_below_push(rest, s.last(), b, 256, d);
        assert(field(s[s.len() - 1], b, 256) >= d);
    } else {
        lemma_below_empty(s, b, 256, d);
    }
}

proof fn lemma_below_full(s: Seq<u32>, b: nat, d: int)
    requires
        forall|i: int| 0 <= i < s.len() ==> field(#[trigger] s[i], b, 256) < d,
        0 <= d,
    ensures
        below(s, b, 256, d) == s.len(),
    decreases s.len(),
{
    if s.len() > 0 {
        let rest = s.drop_last();
        assert forall|i: int| 0 <= i < rest.len() implies field(#[trigger] rest[i], b, 256) < d by {
            assert(rest[i] == s[i]);
        }
        lemma_below_full(rest, b, d);
        assert(s =~= rest.push(s.last()));
        lemma_below_push(rest, s.last(), b, 256, d);
        lemma_field_range(s.last(), b, 256);
        assert(field(s[s.len() - 1], b, 256) < d);
    } else {
        lemma_below_empty(s, b, 256, d);
    }
}

/// A key's place in a tile sorted by digit: behind the smaller digits and the earlier keys
/// of its own.
proof fn lemma_rank(a: Seq<u32>, b: nat, i: int)
    requires
        ascends(a, b, 8),
        0 <= i < a.len(),
    ensures
        i == below(a, b, 256, field(a[i], b, 256)) + bucket(a.subrange(0, i), b, 256, field(a[i], b, 256)).len(),
{
    lemma2_to64();
    let d = field(a[i], b, 256);
    let head = a.subrange(0, i);
    let tail = a.subrange(i, a.len() as int);
    lemma_field_range(a[i], b, 256);
    assert(a =~= head + tail);
    lemma_below_concat(head, tail, b, 256, d);
    assert forall|k: int| 0 <= k < tail.len() implies field(#[trigger] tail[k], b, 256) >= d by {
        assert(field(a[i], b, 256) <= field(a[i + k], b, 256));
    }
    lemma_below_none(tail, b, d);
    assert forall|k: int| 0 <= k < head.len() implies field(#[trigger] head[k], b, 256) < d + 1 by {
        assert(field(a[k], b, 256) <= field(a[i], b, 256));
    }
    lemma_below_full(head, b, d + 1);
}

/// Where a key goes, and that it belongs there.
proof fn lemma_scatter_slot(keys: Seq<u32>, n_tiles: int, tile: int, a: Seq<u32>, b: nat, i: int)
    requires
        keys.len() == n_tiles * SORT_TILE,
        0 <= tile < n_tiles,
        a.len() == SORT_TILE,
        forall|d: int| 0 <= d ==> #[trigger] bucket(a, b, 256, d) == bucket(tile_keys(keys, tile), b, 256, d),
        0 <= i < a.len(),
    ensures
        ({
            let d = field(a[i], b, 256);
            let j = bucket(keys_before(keys, tile), b, 256, d).len() + bucket(a.subrange(0, i), b, 256, d).len();
            &&& 0 <= d < 256
            &&& j < bucket(keys, b, 256, d).len()
            &&& bucket(keys, b, 256, d)[j as int] == a[i]
        }),
{
    let d = field(a[i], b, 256);
    lemma_field_range(a[i], b, 256);
    let head = a.subrange(0, i);
    let rest = a.subrange(i + 1, a.len() as int);
    lemma_bucket_push(head, a[i], b, 256, d);
    assert(a =~= head.push(a[i]) + rest);
    lemma_bucket_concat(head.push(a[i]), rest, b, 256, d);
    let before = keys_before(keys, tile);
    let run = tile_keys(keys, tile);
    lemma_tiles_concat(keys, n_tiles, tile);
    let after = keys.subrange((tile + 1) * SORT_TILE, keys.len() as int);
    assert(keys =~= (before + run) + after);
    lemma_bucket_concat(before + run, after, b, 256, d);
    lemma_bucket_concat(before, run, b, 256, d);
    assert(bucket(run, b, 256, d) == bucket(a, b, 256, d));
}

/// Where each digit starts inside a tile: the tile's own counts, scanned.
fn tile_starts(tile: Ghost<Seq<u32>>, counts: &Vec<u32>, n_tiles: usize, at: usize, shift: u32) -> (starts: Vec<u32>)
    requires
        counts.len() == 256 * n_tiles,
        at < n_tiles,
        tile@.len() == SORT_TILE,
        forall|d: int|
            0 <= d < 256 ==> #[trigger] counts[count_at(n_tiles as int, d, at as int)] == bucket(
                tile@,
                shift as nat,
                256,
                d,
            ).len(),
    ensures
        starts.len() == 256,
        forall|d: int| 0 <= d < 256 ==> #[trigger] starts[d] == below(tile@, shift as nat, 256, d),
{
    let ghost b = shift as nat;
    let ghost nt = n_tiles as int;
    let cells: usize = counts.len();
    let mut starts: Vec<u32> = Vec::with_capacity(256);
    let mut sum: u32 = 0;
    let mut d: usize = 0;
    while d < 256
        invariant
            b == shift,
            nt == n_tiles,
            cells == counts.len(),
            cells == 256 * n_tiles,
            at < n_tiles,
            tile@.len() == SORT_TILE,
            forall|d: int| 0 <= d < 256 ==> #[trigger] counts[count_at(nt, d, at as int)] == bucket(tile@, b, 256, d).len(),
            d <= 256,
            starts.len() == d,
            sum == below(tile@, b, 256, d as int),
            forall|e: int| 0 <= e < d ==> #[trigger] starts[e] == below(tile@, b, 256, e),
        decreases 256 - d,
    {
        proof {
            lemma_count_at(nt, d as int, at as int);
            lemma_below_all(tile@, b, 256);
            lemma_below_grows(tile@, b, 256, d as int, 256);
            assert(counts[count_at(nt, d as int, at as int)] == bucket(tile@, b, 256, d as int).len());
        }
        starts.push(sum);
        sum = sum + counts[d * n_tiles + at];
        d += 1;
    }
    starts
}

/// Sort every tile by its digit and write each key to its slot of the pass.
fn radix_scatter_kernel(keys: &Vec<u32>, counts: &Vec<u32>, offsets: &Vec<u32>, n_tiles: usize, shift: u32) -> (out: Vec<u32>)
    requires
        shift <= 24,
        keys.len() == n_tiles * SORT_TILE,
        keys.len() <= u32::MAX,
        counts.len() == 256 * n_tiles,
        offsets.len() == counts.len(),
        forall|d: int, tile: int|
            0 <= d < 256 && 0 <= tile < n_tiles ==> #[trigger] counts[count_at(n_tiles as int, d, tile)] == bucket(
                tile_keys(keys@, tile),
                shift as nat,
                256,
                d,
            ).len(),
        forall|d: int, tile: int|
            0 <= d < 256 && 0 <= tile < n_tiles ==> #[trigger] offsets[count_at(n_tiles as int, d, tile)] == below(
                keys@,
                shift as nat,
                256,
                d,
            ) + bucket(keys_before(keys@, tile), shift as nat, 256, d).len(),
    ensures
        out@ == spread(keys@, shift as nat, 256, 256),
{
    let ghost b = shift as nat;
    let ghost nt = n_tiles as int;
    let ghost ks = keys@;
    let cells: usize = keys.len();
    let table: usize = counts.len();
    let mut out: Vec<u32> = vec![0u32; cells];
    let mut tile: usize = 0;
    proof {
        assert(keys_before(ks, 0) =~= Seq::empty());
    }
    while tile < n_tiles
        invariant
            shift <= 24,
            b == shift,
            nt == n_tiles,
            ks == keys@,
            cells == keys.len(),
            cells == n_tiles * SORT_TILE,
            cells <= u32::MAX,
            table == 256 * n_tiles,
            counts.len() == table,
            offsets.len() == table,
            forall|d: int, t: int|
                0 <= d < 256 && 0 <= t < nt ==> #[trigger] counts[count_at(nt, d, t)] == bucket(
                    tile_keys(ks, t),
                    b,
                    256,
                    d,
                ).len(),
            forall|d: int, t: int|
                0 <= d < 256 && 0 <= t < nt ==> #[trigger] offsets[count_at(nt, d, t)] == below(ks, b, 256, d) + bucket(
                    keys_before(ks, t),
                    b,
                    256,
                    d,
                ).len(),
            tile <= n_tiles,
            out.len() == cells,
            placed(out@, ks, b, keys_before(ks, tile as int), Seq::empty()),
        decreases n_tiles - tile,
    {
        let ghost done = keys_before(ks, tile as int);
        let ghost run = tile_keys(ks, tile as int);
        proof {
            lemma_tiles_concat(ks, nt, tile as int);
        }
        let base: usize = tile * SORT_TILE as usize;
        let mut staged: Vec<u32> = Vec::with_capacity(SORT_TILE as usize);
        staged.extend_from_slice(vstd::slice::slice_subrange(keys.as_slice(), base, base + SORT_TILE as usize));
        assert(staged@ =~= run);
        let a: Vec<u32> = sort_tile(staged, shift);
        let starts: Vec<u32> = tile_starts(Ghost(run), counts, n_tiles, tile, shift);
        let mut i: usize = 0;
        proof {
            assert(a@.subrange(0, 0) =~= Seq::empty());
        }
        while i < SORT_TILE as usize
            invariant
                shift <= 24,
                b == shift,
                nt == n_tiles,
                ks == keys@,
                cells == keys.len(),
                cells == n_tiles * SORT_TILE,
                cells <= u32::MAX,
                table == 256 * n_tiles,
                counts.len() == table,
                offsets.len() == table,
                forall|d: int, t: int|
                    0 <= d < 256 && 0 <= t < nt ==> #[trigger] offsets[count_at(nt, d, t)] == below(ks, b, 256, d)
                        + bucket(keys_before(ks, t), b, 256, d).len(),
                tile < n_tiles,
                done == keys_before(ks, tile as int),
                run == tile_keys(ks, tile as int),
                run.len() == SORT_TILE,
                a.len() == SORT_TILE,
                ascends(a@, b, 8),
                forall|d: int| 0 <= d ==> #[trigger] bucket(a@, b, 256, d) == bucket(run, b, 256, d),
                starts.len() == 256,
                forall|d: int| 0 <= d < 256 ==> #[trigger] starts[d] == below(run, b, 256, d),
                i <= SORT_TILE,
                out.len() == cells,
                placed(out@, ks, b, done, a@.subrange(0, i as int)),
            decreases SORT_TILE - i,
        {
            let key: u32 = a[i];
            let d: u32 = digit_of(key, shift);
            let ghost was = out@;
            let ghost head = a@.subrange(0, i as int);
            let ghost rank = bucket(head, b, 256, d as int).len() as int;
            let ghost j = bucket(done, b, 256, d as int).len() + rank;
            proof {
                lemma_rank(a@, b, i as int);
                lemma_same_below(a@, run, b, d as int);
                lemma_scatter_slot(ks, nt, tile as int, a@, b, i as int);
                lemma_count_at(nt, d as int, tile as int);
                assert(starts[d as int] == below(run, b, 256, d as int));
                assert(offsets[count_at(nt, d as int, tile as int)] == below(ks, b, 256, d as int) + bucket(
                    done,
                    b,
                    256,
                    d as int,
                ).len());
                lemma_below_all(ks, b, 256);
                lemma_below_grows(ks, b, 256, d as int, 256);
            }
            let at: usize = d as usize * n_tiles + tile;
            let slot: usize = offsets[at] as usize + (i - starts[d as usize] as usize);
            out.set(slot, key);
            proof {
                assert(slot == slot_of(ks, b, d as int, j));
                let next = a@.subrange(0, i + 1);
                assert(next =~= head.push(key));
                assert forall|e: int, k: int|
                    0 <= e < 256 && 0 <= k < bucket(done, b, 256, e).len() + bucket(next, b, 256, e).len() implies #[trigger] out[slot_of(
                    ks,
                    b,
                    e,
                    k,
                )] == bucket(ks, b, 256, e)[k] by {
                    lemma_bucket_push(head, key, b, 256, e);
                    if e == d && k == j {
                    } else {
                        assert(k < bucket(done, b, 256, e).len() + bucket(head, b, 256, e).len());
                        assert(was[slot_of(ks, b, e, k)] == bucket(ks, b, 256, e)[k]);
                        lemma_part_inside(ks, nt, tile as int, a@, b, i as int, e);
                        lemma_below_grows(ks, b, 256, e, 256);
                        lemma_slots_apart(ks, b, e, k, d as int, j);
                    }
                }
            }
            i += 1;
        }
        proof {
            let ghost next = keys_before(ks, tile + 1);
            assert(a@.subrange(0, SORT_TILE as int) =~= a@);
            assert forall|d: int, j: int|
                0 <= d < 256 && 0 <= j < bucket(next, b, 256, d).len() + bucket(Seq::empty(), b, 256, d).len() implies #[trigger] out[slot_of(
                ks,
                b,
                d,
                j,
            )] == bucket(ks, b, 256, d)[j] by {
                lemma_bucket_concat(done, run, b, 256, d);
                assert(bucket(a@, b, 256, d) == bucket(run, b, 256, d));
            }
        }
        tile += 1;
    }
    proof {
        assert(keys_before(ks, nt) =~= ks);
        lemma_spread_len(ks, b, 256, 256);
        lemma_below_all(ks, b, 256);
        let all = spread(ks, b, 256, 256);
        assert forall|i: int| 0 <= i < out.len() implies out[i] == all[i] by {
            let (d, j) = lemma_spread_owner(ks, b, 256, 256, i);
            lemma_spread_at(ks, b, 256, 256, d, j);
            assert(out[slot_of(ks, b, d, j)] == bucket(ks, b, 256, d)[j]);
        }
        assert(out@ =~= all);
    }
    out
}

proof fn lemma_same_below(a: Seq<u32>, s: Seq<u32>, b: nat, d: int)
    requires
        forall|e: int| 0 <= e ==> #[trigger] bucket(a, b, 256, e) == bucket(s, b, 256, e),
    ensures
        below(a, b, 256, d) == below(s, b, 256, d),
    decreases d,
{
    if d > 0 {
        lemma_same_below(a, s, b, d - 1);
        assert(bucket(a, b, 256, d - 1) == bucket(s, b, 256, d - 1));
    }
}

/// The keys placed so far are some of the column's.
proof fn lemma_part_inside(keys: Seq<u32>, n_tiles: int, tile: int, a: Seq<u32>, b: nat, i: int, e: int)
    requires
        keys.len() == n_tiles * SORT_TILE,
        0 <= tile < n_tiles,
        0 <= i <= a.len(),
        0 <= e,
        bucket(a, b, 256, e) == bucket(tile_keys(keys, tile), b, 256, e),
    ensures
        bucket(keys_before(keys, tile), b, 256, e).len() + bucket(a.subrange(0, i), b, 256, e).len() <= bucket(
            keys,
            b,
            256,
            e,
        ).len(),
{
    let rest = a.subrange(i, a.len() as int);
    assert(a =~= a.subrange(0, i) + rest);
    lemma_bucket_concat(a.subrange(0, i), rest, b, 256, e);
    let before = keys_before(keys, tile);
    let run = tile_keys(keys, tile);
    lemma_tiles_concat(keys, n_tiles, tile);
    let after = keys.subrange((tile + 1) * SORT_TILE, keys.len() as int);
    assert(keys =~= (before + run) + after);
    lemma_bucket_concat(before + run, after, b, 256, e);
    lemma_bucket_concat(before, run, b, 256, e);
}

proof fn lemma_slots_apart(keys: Seq<u32>, b: nat, d: int, j: int, e: int, k: int)
    requires
        0 <= d < 256,
        0 <= e < 256,
        0 <= j < bucket(keys, b, 256, d).len(),
        0 <= k < bucket(keys, b, 256, e).len(),
        d != e || j != k,
    ensures
        slot_of(keys, b, d, j) != slot_of(keys, b, e, k),
{
    if d < e {
        lemma_below_grows(keys, b, 256, d, e);
    } else if e < d {
        lemma_below_grows(keys, b, 256, e, d);
    }
}

/// One pass of the sort: the keys digit after digit, each digit's in their old order.
pub fn radix_pass(keys: &Vec<u32>, n_tiles: usize, shift: u32) -> (out: Vec<u32>)
    requires
        shift <= 24,
        keys.len() == n_tiles * SORT_TILE,
        keys.len() <= u32::MAX,
    ensures
        out@ == spread(keys@, shift as nat, 256, 256),
{
    let counts: Vec<u32> = radix_count_kernel(keys, n_tiles, shift);
    proof {
        let b = shift as nat;
        let nt = n_tiles as int;
        lemma_slot_table(keys@, counts@, nt, b, 256, 0);
        lemma_below_all(keys@, b, 256);
        assert(keys_before(keys@, 0) =~= Seq::empty());
        assert(count_at(nt, 256, 0) == counts.len());
    }
    let offsets: Vec<u32> = radix_scan_kernel(&counts);
    proof {
        let b = shift as nat;
        let nt = n_tiles as int;
        assert forall|d: int, tile: int| 0 <= d < 256 && 0 <= tile < n_tiles implies #[trigger] offsets[count_at(
            nt,
            d,
            tile,
        )] == below(keys@, b, 256, d) + bucket(keys_before(keys@, tile), b, 256, d).len() by {
            lemma_slot_table(keys@, counts@, nt, b, d, tile);
            lemma_count_at(nt, d, tile);
        }
    }
    radix_scatter_kernel(keys, &counts, &offsets, n_tiles, shift)
}

/// The keys in ascending order.
pub open spec fn sorted_keys(keys: Seq<u32>) -> bool {
    forall|i: int, j: int| 0 <= i <= j < keys.len() ==> #[trigger] keys[i] <= #[trigger] keys[j]
}

/// Sort a column of whole tiles.
pub fn sort_column(keys: Vec<u32>, n_tiles: usize) -> (sorted: Vec<u32>)
    requires
        keys.len() == n_tiles * SORT_TILE,
        keys.len() <= u32::MAX,
    ensures
        sorted_keys(sorted@),
        sorted@.to_multiset() == keys@.to_multiset(),
        sorted.len() == keys.len(),
{
    let ghost start = keys@;
    let mut cur: Vec<u32> = keys;
    let mut pass: u32 = 0;
    proof {
        lemma2_to64();
        assert forall|x: int, y: int| 0 <= x <= y < start.len() implies field(#[trigger] start[x], 0, 1) <= field(
            #[trigger] start[y],
            0,
            1,
        ) by {}
        assert(ascends(start, 0, 0));
    }
    while pass < 4
        invariant
            pass <= 4,
            start.len() == n_tiles * SORT_TILE,
            start.len() <= u32::MAX,
            cur.len() == start.len(),
            cur@.to_multiset() == start.to_multiset(),
            ascends(cur@, 0, (8 * pass) as nat),
        decreases 4 - pass,
    {
        let next: Vec<u32> = radix_pass(&cur, n_tiles, 8 * pass);
        proof {
            lemma2_to64();
            lemma_spread_keeps(cur@, (8 * pass) as nat, 256);
            lemma_spread_ascends(cur@, 0, (8 * pass) as nat, 8, 256);
            assert((8 * pass) as nat + 8 == (8 * (pass + 1)) as nat);
            assert(0 + (8 * pass) as nat == (8 * pass) as nat);
        }
        cur = next;
        pass += 1;
    }
    proof {
        lemma2_to64();
        lemma_pow2_adds(16, 16);
        assert forall|i: int, j: int| 0 <= i <= j < cur.len() implies #[trigger] cur@[i] <= #[trigger] cur@[j] by {
            assert(field(cur@[i], 0, pow2(32) as int) <= field(cur@[j], 0, pow2(32) as int));
            lemma_whole_field(cur@[i]);
            lemma_whole_field(cur@[j]);
        }
    }
    cur
}

proof fn lemma_whole_field(key: u32)
    ensures
        field(key, 0, pow2(32) as int) == key,
{
    lemma2_to64();
    assert(pow2(32) == 0x1_0000_0000);
    assert(key as int / 1 == key);
    assert(key as int % 0x1_0000_0000 == key);
}

/// A key stands in the bucket of its own digit and in no other, behind the keys that came before it.
pub proof fn lemma_bucket_grows(s: Seq<u32>, x: u32, b: nat, w: int, d: int)
    ensures
        bucket(Seq::empty(), b, w, d).len() == 0,
        field(x, b, w) == d ==> bucket(s.push(x), b, w, d) == bucket(s, b, w, d).push(x),
        field(x, b, w) != d ==> bucket(s.push(x), b, w, d) == bucket(s, b, w, d),
{
    assert(s.push(x).drop_last() =~= s);
}

/// The buckets are laid out one after another from the lowest digit on.
pub proof fn lemma_spread_grows(s: Seq<u32>, b: nat, w: int, d: int, j: int)
    requires
        0 <= d,
        0 <= j < bucket(s, b, w, d).len(),
    ensures
        spread(s, b, w, 0).len() == 0,
        spread(s, b, w, d + 1).len() == spread(s, b, w, d).len() + bucket(s, b, w, d).len(),
        spread(s, b, w, d + 1)[spread(s, b, w, d).len() + j] == bucket(s, b, w, d)[j],
        spread(s, b, w, d + 1).subrange(0, spread(s, b, w, d).len() as int) == spread(s, b, w, d),
{
    assert(spread(s, b, w, d + 1).subrange(0, spread(s, b, w, d).len() as int) =~= spread(s, b, w, d));
}

/// What stands before a count is the sum of the counts before it.
pub proof fn lemma_sum_before(counts: Seq<u32>, n: int)
    requires
        0 <= n < counts.len(),
    ensures
        sum_before(counts, 0) == 0,
        sum_before(counts, n + 1) == sum_before(counts, n) + counts[n],
{
}

} // verus!
