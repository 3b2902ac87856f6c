//! The split search of a feature, shared among the units of a cube.
//!
//! The units take a feature's bins a tile at a time, one bin each. A scan over the tile gives
//! every unit the sum up to its own bin, what the tiles before it came to is carried along,
//! and each unit keeps the best of the splits it scored. A reduction over the units then
//! leaves the best of all. The sums are exact and the order of two splits does not depend on
//! who met them, so the winner is the one that a single unit walking the bins would have
//! found.

use vstd::arithmetic::power2::{lemma_pow2_pos, lemma_pow2_unfold, pow2};
use vstd::prelude::*;

use crate::float_bits::{is_nan_spec, lt_spec, rank};
use crate::gpu::evaluate_multi::{is_multi_trial, lists_multi, shared_trials, width, MultiTrial};
use crate::gpu::evaluate_splits::{
    backward_trial, backward_trials, better, better_spec, choose_trial, forward_trial, forward_trials, has_missing,
    lemma_run_front, lemma_winner_unique, live, run_sum, tag_index, trials_of, wins_features, wins_trials,
    DeviceSplitCandidate, SplitEvaluatorGpu, Trial, DEFAULT_LEFT_BIT,
};
use crate::gpu::pairs::{
    exact, lemma_total_same, lemma_total_split, lemma_wrap_exact, lemma_wrap_plus, minus, plus, total, wrap, zero,
    PairSum,
};
use crate::gpu::GradientPairInt64;
use crate::seqs::{lemma_filter_empty, lemma_filter_push};

verus! {

// ---------------------------------------------------------- the tile scan ----

/// The sum of the last `w` cells up to cell `t`, or of all of them where there are fewer.
pub open spec fn window(cells: Seq<GradientPairInt64>, t: int, w: int) -> PairSum {
    let from = if t + 1 < w {
        0
    } else {
        t + 1 - w
    };
    run_sum(cells, from, t + 1 - from)
}

/// A run is its first part and the rest.
proof fn lemma_run_split(cells: Seq<GradientPairInt64>, start: int, a: int, b: int)
    requires
        0 <= a,
        0 <= b,
    ensures
        run_sum(cells, start, a + b) == plus(run_sum(cells, start, a), run_sum(cells, start + a, b)),
{
    let f = |i: int| exact(cells[start + i]);
    lemma_total_split(a, b, f);
    lemma_total_same(b, |i: int| f(a + i), |i: int| exact(cells[start + a + i]));
}

/// Two windows side by side.
proof fn lemma_window_doubles(cells: Seq<GradientPairInt64>, t: int, d: int)
    requires
        0 < d <= t,
    ensures
        window(cells, t, 2 * d) == plus(window(cells, t - d, d), window(cells, t, d)),
{
    let from = if t + 1 < 2 * d {
        0
    } else {
        t + 1 - 2 * d
    };
    lemma_run_split(cells, from, t - d + 1 - from, d);
}

/// Replace every cell by the sum of the cells up to it. In each step a unit adds the cell that
/// many places before its own, and the distance doubles; every unit reads before any writes.
pub fn scan_tile(cells: &mut Vec<GradientPairInt64>)
    ensures
        final(cells).len() == old(cells).len(),
        forall|t: int| 0 <= t < final(cells).len() ==> #[trigger] final(cells)[t] == wrap(run_sum(old(cells)@, 0, t + 1)),
{
    let ghost was = cells@;
    let n: usize = cells.len();
    let mut d: usize = 1;
    proof {
        assert forall|t: int| 0 <= t < n implies #[trigger] cells[t] == wrap(window(was, t, 1)) by {
            assert(run_sum(was, t, 1) == plus(run_sum(was, t, 0), exact(was[t])));
            lemma_wrap_exact(was[t]);
        }
    }
    while d < n
        invariant
            n == was.len(),
            cells.len() == n,
            1 <= d,
            n > 0 ==> d <= n,
            forall|t: int| 0 <= t < n ==> #[trigger] cells[t] == wrap(window(was, t, d as int)),
        decreases n - d,
    {
        let mut next: Vec<GradientPairInt64> = Vec::with_capacity(n);
        let mut t: usize = 0;
        while t < n
            invariant
                n == was.len(),
                cells.len() == n,
                1 <= d < n,
                forall|k: int| 0 <= k < n ==> #[trigger] cells[k] == wrap(window(was, k, d as int)),
                t <= n,
                next.len() == t,
                forall|k: int| 0 <= k < t ==> #[trigger] next[k] == wrap(window(was, k, 2 * d)),
            decreases n - t,
        {
            let own: GradientPairInt64 = cells[t];
            if t >= d {
                proof {
                    lemma_window_doubles(was, t as int, d as int);
                    lemma_wrap_plus(window(was, t - d, d as int), window(was, t as int, d as int));
                }
                next.push(cells[t - d].wrapping_add(own));
            } else {
                next.push(own);
            }
            t += 1;
        }
        *cells = next;
        d = if d > n - d {
            n
        } else {
            2 * d
        };
    }
    assert forall|t: int| 0 <= t < cells.len() implies #[trigger] cells[t] == wrap(run_sum(was, 0, t + 1)) by {
        assert(window(was, t, d as int) == run_sum(was, 0, t + 1));
    }
}

// ------------------------------------------------------------- the walk ----

/// The bin that step `s` of a walk over a feature's bins looks at: they ascend, or descend
/// where it walks backward.
pub open spec fn bin_at(start: int, n: int, backward: bool, s: int) -> int {
    if backward {
        start + n - 1 - s
    } else {
        start + s
    }
}

/// The sum of the first `m` bins of a walk.
pub open spec fn walked_sum(hist: Seq<GradientPairInt64>, start: int, n: int, backward: bool, m: int) -> PairSum {
    total(m, |s: int| exact(hist[bin_at(start, n, backward, s)]))
}

/// The splits that the first `m` steps of a walk meet.
pub open spec fn walked_trials(
    hist: Seq<GradientPairInt64>,
    start: int,
    ibegin: int,
    n: int,
    parent: GradientPairInt64,
    backward: bool,
    m: int,
) -> Seq<Trial> {
    if backward {
        backward_trials(hist, start, ibegin, n, parent, m)
    } else {
        forward_trials(hist, start, ibegin, m)
    }
}

/// The step of its walk at which a split is met.
pub open spec fn step_of(n: int, t: Trial) -> int {
    if t.backward {
        t.rank - n
    } else {
        t.rank as int
    }
}

/// The splits that unit `u` of `block` meets.
pub open spec fn meets(n: int, block: int, u: int) -> spec_fn(Trial) -> bool {
    |t: Trial| step_of(n, t) % block == u
}

/// What a walk sums up is a run of bins.
proof fn lemma_walked_run(hist: Seq<GradientPairInt64>, start: int, n: int, backward: bool, m: int)
    requires
        0 <= m <= n,
    ensures
        walked_sum(hist, start, n, backward, m) == (if backward {
            run_sum(hist, start + n - m, m)
        } else {
            run_sum(hist, start, m)
        }),
    decreases m,
{
    if !backward {
        lemma_total_same(
            m,
            |s: int| exact(hist[bin_at(start, n, backward, s)]),
            |i: int| exact(hist[start + i]),
        );
    } else if m > 0 {
        lemma_walked_run(hist, start, n, backward, m - 1);
        lemma_run_front(hist, start + n - m, m);
    }
}

/// The split that a step meets, from the sum up to it.
proof fn lemma_step_trial(
    hist: Seq<GradientPairInt64>,
    start: int,
    ibegin: int,
    n: int,
    parent: GradientPairInt64,
    backward: bool,
    s: int,
    sum: GradientPairInt64,
    trial: Trial,
)
    requires
        0 <= s < n,
        2 * n <= u32::MAX,
        ibegin + n <= u32::MAX,
        0 <= ibegin,
        sum == wrap(walked_sum(hist, start, n, backward, s + 1)),
        trial.rank == (if backward {
            n + s
        } else {
            s
        }),
        trial.bin == (if backward {
            ibegin + n - 1 - s
        } else {
            ibegin + s
        }),
        trial.backward == backward,
        trial.left == (if backward {
            wrap(minus(exact(parent), exact(sum)))
        } else {
            sum
        }),
    ensures
        trial == (if backward {
            backward_trial(hist, start, ibegin, n, parent, n - 1 - s)
        } else {
            forward_trial(hist, start, ibegin, s)
        }),
        step_of(n, trial) == s,
{
    lemma_walked_run(hist, start, n, backward, s + 1);
    lemma_wrap_exact(parent);
    lemma_wrap_plus(exact(parent), walked_sum(hist, start, n, backward, s + 1));
}

/// One step more of a walk.
proof fn lemma_walk_step(
    hist: Seq<GradientPairInt64>,
    start: int,
    ibegin: int,
    n: int,
    parent: GradientPairInt64,
    backward: bool,
    s: int,
)
    requires
        0 <= s < n,
    ensures
        walked_trials(hist, start, ibegin, n, parent, backward, s + 1) == (if live(
            hist[bin_at(start, n, backward, s)],
        ) {
            walked_trials(hist, start, ibegin, n, parent, backward, s).push(
                if backward {
                    backward_trial(hist, start, ibegin, n, parent, n - 1 - s)
                } else {
                    forward_trial(hist, start, ibegin, s)
                },
            )
        } else {
            walked_trials(hist, start, ibegin, n, parent, backward, s)
        }),
{
}

/// The bins of one tile: the walk's from step `at` on, and nothing past its end.
fn load_tile(hist: &[GradientPairInt64], start: usize, n: usize, backward: bool, at: usize, block: usize) -> (cells: Vec<
    GradientPairInt64,
>)
    requires
        start + n <= hist.len(),
        at <= n,
        n + block <= usize::MAX,
    ensures
        cells.len() == block,
        forall|k: int|
            0 <= k < block ==> #[trigger] cells[k] == (if at + k < n {
                hist[bin_at(start as int, n as int, backward, at + k)]
            } else {
                GradientPairInt64 { grad: 0, hess: 0 }
            }),
{
    let mut cells: Vec<GradientPairInt64> = Vec::with_capacity(block);
    let mut k: usize = 0;
    while k < block
        invariant
            start + n <= hist.len(),
            at <= n,
            n + block <= usize::MAX,
            k <= block,
            cells.len() == k,
            forall|j: int|
                0 <= j < k ==> #[trigger] cells[j] == (if at + j < n {
                    hist[bin_at(start as int, n as int, backward, at + j)]
                } else {
                    GradientPairInt64 { grad: 0, hess: 0 }
                }),
        decreases block - k,
    {
        let step: usize = at + k;
        cells.push(
            if step >= n {
                GradientPairInt64 { grad: 0, hess: 0 }
            } else if backward {
                hist[start + (n - 1 - step)]
            } else {
                hist[start + step]
            },
        );
        k += 1;
    }
    cells
}

/// A tile's cells add to the walk: the first `k` of them that the walk has.
proof fn lemma_tile_sum(
    hist: Seq<GradientPairInt64>,
    start: int,
    n: int,
    backward: bool,
    at: int,
    cells: Seq<GradientPairInt64>,
    k: int,
)
    requires
        0 <= at <= n,
        0 <= k <= cells.len(),
        forall|j: int|
            0 <= j < cells.len() ==> #[trigger] cells[j] == (if at + j < n {
                hist[bin_at(start, n, backward, at + j)]
            } else {
                GradientPairInt64 { grad: 0, hess: 0 }
            }),
    ensures
        walked_sum(
            hist,
            start,
            n,
            backward,
            if at + k < n {
                at + k
            } else {
                n
            },
        ) == plus(walked_sum(hist, start, n, backward, at), run_sum(cells, 0, k)),
    decreases k,
{
    let f = |s: int| exact(hist[bin_at(start, n, backward, s)]);
    let g = |i: int| exact(cells[0 + i]);
    if k > 0 {
        lemma_tile_sum(hist, start, n, backward, at, cells, k - 1);
        assert(run_sum(cells, 0, k) == plus(run_sum(cells, 0, k - 1), exact(cells[k - 1])));
        if at + (k - 1) < n {
            assert(total(at + k, f) == plus(total(at + k - 1, f), f(at + k - 1)));
        } else {
            assert(exact(cells[k - 1]) == zero());
        }
    }
}

/// What the units hold after the first `m` steps of a walk: what they held before, and the
/// splits that each met.
spec fn held_after(
    before: Seq<Vec<Trial>>,
    now: Seq<Vec<Trial>>,
    trials: Seq<Trial>,
    n: int,
    block: int,
) -> bool {
    &&& now.len() == block
    &&& before.len() == block
    &&& forall|u: int| 0 <= u < block ==> #[trigger] now[u]@ == before[u]@ + trials.filter(meets(n, block, u))
}

/// Walk a feature's bins, the units taking one each of a tile at a time, and add to what each
/// unit holds the splits that it meets at bins that hold rows. Returns what the bins come to.
fn walk(
    hist: &[GradientPairInt64],
    start: usize,
    ibegin: u32,
    n: u32,
    parent: GradientPairInt64,
    backward: bool,
    units: &mut Vec<Vec<Trial>>,
) -> (whole: GradientPairInt64)
    requires
        start + n <= hist.len(),
        2 * n <= u32::MAX,
        ibegin + n <= u32::MAX,
        old(units).len() > 0,
        n + old(units).len() <= usize::MAX,
    ensures
        final(units).len() == old(units).len(),
        forall|u: int|
            0 <= u < final(units).len() ==> #[trigger] final(units)[u]@ == old(units)[u]@ + walked_trials(
                hist@,
                start as int,
                ibegin as int,
                n as int,
                parent,
                backward,
                n as int,
            ).filter(meets(n as int, old(units).len() as int, u)),
        whole == wrap(run_sum(hist@, start as int, n as int)),
{
    let ghost before = units@;
    let block: usize = units.len();
    let ghost (st, ib, nn, bb) = (start as int, ibegin as int, n as int, block as int);
    let len: usize = n as usize;
    let mut carry = GradientPairInt64 { grad: 0, hess: 0 };
    let mut at: usize = 0;
    proof {
        lemma_wrap_exact(carry);
        assert forall|u: int| 0 <= u < block implies #[trigger] units[u]@ == before[u]@ + walked_trials(
            hist@,
            st,
            ib,
            nn,
            parent,
            backward,
            0,
        ).filter(meets(nn, bb, u)) by {
            assert(walked_trials(hist@, st, ib, nn, parent, backward, 0) =~= Seq::<Trial>::empty());
            lemma_filter_empty::<Trial>(meets(nn, bb, u));
            assert(units[u]@ =~= before[u]@ + Seq::<Trial>::empty());
        }
    }
    while at < len
        invariant
            st == start,
            ib == ibegin,
            nn == n,
            bb == block,
            len == n,
            start + n <= hist.len(),
            2 * n <= u32::MAX,
            ibegin + n <= u32::MAX,
            0 < block,
            n + block <= usize::MAX,
            at <= len,
            at < len ==> at as int % bb == 0,
            carry == wrap(walked_sum(hist@, st, nn, backward, at as int)),
            held_after(
                before,
                units@,
                walked_trials(hist@, st, ib, nn, parent, backward, at as int),
                nn,
                bb,
            ),
        decreases len - at,
    {
        let cells: Vec<GradientPairInt64> = load_tile(hist, start, len, backward, at, block);
        let mut sums: Vec<GradientPairInt64> = Vec::with_capacity(block);
        sums.extend_from_slice(cells.as_slice());
        assert(sums@ =~= cells@);
        scan_tile(&mut sums);
        let mut u: usize = 0;
        while u < block
            invariant
                st == start,
                ib == ibegin,
                nn == n,
                bb == block,
                len == n,
                2 * n <= u32::MAX,
                ibegin + n <= u32::MAX,
                0 < block,
                n + block <= usize::MAX,
                at < len,
                at as int % bb == 0,
                carry == wrap(walked_sum(hist@, st, nn, backward, at as int)),
                cells.len() == block,
                sums.len() == block,
                forall|k: int|
                    0 <= k < block ==> #[trigger] cells[k] == (if at + k < n {
                        hist[bin_at(st, nn, backward, at + k)]
                    } else {
                        GradientPairInt64 { grad: 0, hess: 0 }
                    }),
                forall|t: int| 0 <= t < block ==> #[trigger] sums[t] == wrap(run_sum(cells@, 0, t + 1)),
                u <= block,
                held_after(
                    before,
                    units@,
                    walked_trials(
                        hist@,
                        st,
                        ib,
                        nn,
                        parent,
                        backward,
                        if at + u < len {
                            at + u
                        } else {
                            len as int
                        },
                    ),
                    nn,
                    bb,
                ),
            decreases block - u,
        {
            let step: usize = at + u;
            if step < len {
                let own: GradientPairInt64 = cells[u];
                let ghost done = walked_trials(hist@, st, ib, nn, parent, backward, step as int);
                let ghost held = units@;
                proof {
                    lemma_walk_step(hist@, st, ib, nn, parent, backward, step as int);
                    assert(own == hist[bin_at(st, nn, backward, at + u)]);
                }
                if own.grad != 0 || own.hess != 0 {
                    let sum: GradientPairInt64 = carry.wrapping_add(sums[u]);
                    proof {
                        lemma_tile_sum(hist@, st, nn, backward, at as int, cells@, u + 1);
                        lemma_wrap_plus(
                            walked_sum(hist@, st, nn, backward, at as int),
                            run_sum(cells@, 0, u + 1),
                        );
                    }
                    let trial = if backward {
                        Trial {
                            rank: n + step as u32,
                            bin: ibegin + (n - 1 - step as u32),
                            backward,
                            left: parent.wrapping_sub(sum),
                        }
                    } else {
                        Trial { rank: step as u32, bin: ibegin + step as u32, backward, left: sum }
                    };
                    let mut mine: Vec<Trial> = Vec::new();
                    std::mem::swap(&mut mine, &mut units[u]);
                    let ghost kept = mine@;
                    mine.push(trial);
                    units[u] = mine;
                    proof {
                        lemma_step_trial(hist@, st, ib, nn, parent, backward, step as int, sum, trial);
                        vstd::arithmetic::div_mod::lemma_fundamental_div_mod(at as int, bb);
                        vstd::arithmetic::div_mod::lemma_fundamental_div_mod_converse(
                            step as int,
                            bb,
                            at as int / bb,
                            u as int,
                        );
                        assert(bb * (at as int / bb) == (at as int / bb) * bb) by (nonlinear_arith);
                        let more = done.push(trial);
                        assert forall|v: int| 0 <= v < block implies #[trigger] units[v]@ == before[v]@ + more.filter(
                            meets(nn, bb, v),
                        ) by {
                            assert(held[v]@ == before[v]@ + done.filter(meets(nn, bb, v)));
                            lemma_filter_push(done, trial, meets(nn, bb, v));
                            if v == u {
                                assert(kept == held[v]@);
                                assert(units[v]@ =~= before[v]@ + more.filter(meets(nn, bb, v)));
                            } else {
                                assert(units[v] == held[v]);
                            }
                        }
                    }
                }
            }
            u += 1;
        }
        proof {
            lemma_tile_sum(hist@, st, nn, backward, at as int, cells@, block as int);
            lemma_wrap_plus(
                walked_sum(hist@, st, nn, backward, at as int),
                run_sum(cells@, 0, block as int),
            );
            vstd::arithmetic::div_mod::lemma_mod_add_multiples_vanish(at as int, bb);
        }
        carry = carry.wrapping_add(sums[block - 1]);
        at = if at + block < len {
            at + block
        } else {
            len
        };
    }
    proof {
        lemma_walked_run(hist@, st, nn, backward, nn);
    }
    carry
}

/// List the splits of one feature of one node that are worth scoring, shared among `block`
/// units: each has those of the bins it met, in the order it met them.
pub fn unit_trials(
    hist: &[GradientPairInt64],
    hist_base: usize,
    ibegin: u32,
    iend: u32,
    parent: GradientPairInt64,
    masked: bool,
    block: usize,
) -> (units: Vec<Vec<Trial>>)
    requires
        ibegin <= iend,
        2 * (iend - ibegin) <= u32::MAX,
        hist_base + iend <= hist.len(),
        0 < block,
        iend - ibegin + block <= usize::MAX,
    ensures
        units.len() == block,
        masked ==> forall|u: int| 0 <= u < block ==> (#[trigger] units[u])@ == Seq::<Trial>::empty(),
        !masked ==> shares(
            units@,
            trials_of(hist@, hist_base + ibegin, ibegin as int, iend - ibegin, parent),
            iend - ibegin,
        ),
{
    let mut units: Vec<Vec<Trial>> = no_trials(block);
    if masked {
        return units;
    }
    let n: u32 = iend - ibegin;
    let start: usize = hist_base + ibegin as usize;
    let ghost empty = units@;
    let whole: GradientPairInt64 = walk(hist, start, ibegin, n, parent, false, &mut units);
    let ghost forward = units@;
    let ghost ahead = forward_trials(hist@, start as int, ibegin as int, n as int);
    let ghost bb = block as int;
    let missing: bool = whole.grad != parent.grad || whole.hess != parent.hess;
    if missing {
        walk(hist, start, ibegin, n, parent, true, &mut units);
    }
    proof {
        let trials = trials_of(hist@, start as int, ibegin as int, n as int, parent);
        let behind = if has_missing(hist@, start as int, n as int, parent) {
            backward_trials(hist@, start as int, ibegin as int, n as int, parent, n as int)
        } else {
            Seq::empty()
        };
        assert(missing == has_missing(hist@, start as int, n as int, parent));
        assert(trials == ahead + behind);
        assert forall|u: int| 0 <= u < block implies #[trigger] units[u]@ == trials.filter(meets(n as int, bb, u)) by {
            let p = meets(n as int, bb, u);
            Seq::filter_distributes_over_add(ahead, behind, p);
            assert(empty[u]@ == Seq::<Trial>::empty());
            assert(forward[u]@ == empty[u]@ + ahead.filter(p));
            if missing {
                assert(units[u]@ == forward[u]@ + behind.filter(p));
            } else {
                lemma_filter_empty::<Trial>(p);
            }
            assert(units[u]@ =~= ahead.filter(p) + behind.filter(p));
        }
    }
    units
}

/// The units have the trials between them: each those of the bins it met.
pub open spec fn shares(units: Seq<Vec<Trial>>, trials: Seq<Trial>, n: int) -> bool {
    forall|u: int| 0 <= u < units.len() ==> (#[trigger] units[u])@ == trials.filter(meets(n, units.len() as int, u))
}

/// Deal a list of splits to `block` units: each takes the steps that fall to it, of the forward
/// walk and then of the backward one. It is how the units share splits whose sums are there
/// already.
pub fn deal(trials: &[Trial], n: u32, block: usize) -> (units: Vec<Vec<Trial>>)
    requires
        0 < block,
        forall|k: int| 0 <= k < trials.len() ==> (#[trigger] trials[k]).backward ==> trials[k].rank >= n,
    ensures
        units.len() == block,
        shares(units@, trials@, n as int),
{
    let mut units: Vec<Vec<Trial>> = no_trials(block);
    let ghost (nn, bb) = (n as int, block as int);
    let mut k: usize = 0;
    proof {
        assert forall|u: int| 0 <= u < block implies #[trigger] units[u]@ == trials@.subrange(0, 0).filter(
            meets(nn, bb, u),
        ) by {
            assert(trials@.subrange(0, 0) =~= Seq::<Trial>::empty());
            lemma_filter_empty::<Trial>(meets(nn, bb, u));
        }
    }
    while k < trials.len()
        invariant
            nn == n,
            bb == block,
            0 < block,
            forall|j: int| 0 <= j < trials.len() ==> (#[trigger] trials[j]).backward ==> trials[j].rank >= n,
            k <= trials.len(),
            units.len() == block,
            forall|u: int|
                0 <= u < block ==> #[trigger] units[u]@ == trials@.subrange(0, k as int).filter(meets(nn, bb, u)),
        decreases trials.len() - k,
    {
        let trial: Trial = trials[k];
        let step: u32 = if trial.backward {
            trial.rank - n
        } else {
            trial.rank
        };
        let at: usize = step as usize % block;
        let ghost held = units@;
        let mut mine: Vec<Trial> = Vec::new();
        std::mem::swap(&mut mine, &mut units[at]);
        let ghost kept = mine@;
        mine.push(trial);
        units[at] = mine;
        proof {
            let done = trials@.subrange(0, k as int);
            assert(trials@.subrange(0, k + 1) =~= done.push(trial));
            assert forall|v: int| 0 <= v < block implies #[trigger] units[v]@ == done.push(trial).filter(
                meets(nn, bb, v),
            ) by {
                assert(held[v]@ == done.filter(meets(nn, bb, v)));
                lemma_filter_push(done, trial, meets(nn, bb, v));
                if v == at {
                    assert(kept == held[v]@);
                } else {
                    assert(units[v] == held[v]);
                }
            }
        }
        k += 1;
    }
    assert(trials@.subrange(0, trials.len() as int) =~= trials@);
    units
}

/// Nothing for each of `block` units.
fn no_trials(block: usize) -> (units: Vec<Vec<Trial>>)
    ensures
        units.len() == block,
        forall|u: int| 0 <= u < block ==> (#[trigger] units[u])@ == Seq::<Trial>::empty(),
{
    let mut units: Vec<Vec<Trial>> = Vec::with_capacity(block);
    let mut u: usize = 0;
    while u < block
        invariant
            u <= block,
            units.len() == u,
            forall|v: int| 0 <= v < u ==> (#[trigger] units[v])@ == Seq::<Trial>::empty(),
        decreases block - u,
    {
        let none: Vec<Trial> = Vec::new();
        assert(none@ =~= Seq::<Trial>::empty());
        units.push(none);
        u += 1;
    }
    units
}

/// Inclusive prefix sums of a run of bins, a tile at a time: what the tiles before came to is
/// carried along.
pub fn scan_run(hist: &[GradientPairInt64], start: usize, n: usize, block: usize) -> (prefix: Vec<GradientPairInt64>)
    requires
        start + n <= hist.len(),
        0 < block,
        n + block <= usize::MAX,
    ensures
        prefix.len() == n,
        forall|i: int| 0 <= i < n ==> #[trigger] prefix[i] == wrap(run_sum(hist@, start as int, i + 1)),
{
    let ghost (st, nn) = (start as int, n as int);
    let mut prefix: Vec<GradientPairInt64> = Vec::with_capacity(n);
    let mut carry = GradientPairInt64 { grad: 0, hess: 0 };
    proof {
        lemma_wrap_exact(carry);
    }
    while prefix.len() < n
        invariant
            st == start,
            nn == n,
            start + n <= hist.len(),
            0 < block,
            n + block <= usize::MAX,
            prefix.len() <= n,
            carry == wrap(walked_sum(hist@, st, nn, false, prefix.len() as int)),
            forall|i: int| 0 <= i < prefix.len() ==> #[trigger] prefix[i] == wrap(run_sum(hist@, st, i + 1)),
        decreases n - prefix.len(),
    {
        let at: usize = prefix.len();
        let cells: Vec<GradientPairInt64> = load_tile(hist, start, n, false, at, block);
        let mut sums: Vec<GradientPairInt64> = Vec::with_capacity(block);
        sums.extend_from_slice(cells.as_slice());
        assert(sums@ =~= cells@);
        scan_tile(&mut sums);
        let mut u: usize = 0;
        while u < block && at + u < n
            invariant
                st == start,
                nn == n,
                0 < block,
                n + block <= usize::MAX,
                at < n,
                cells.len() == block,
                sums.len() == block,
                carry == wrap(walked_sum(hist@, st, nn, false, at as int)),
                forall|k: int|
                    0 <= k < block ==> #[trigger] cells[k] == (if at + k < n {
                        hist[bin_at(st, nn, false, at + k)]
                    } else {
                        GradientPairInt64 { grad: 0, hess: 0 }
                    }),
                forall|t: int| 0 <= t < block ==> #[trigger] sums[t] == wrap(run_sum(cells@, 0, t + 1)),
                u <= block,
                at + u <= n,
                prefix.len() == at + u,
                forall|i: int| 0 <= i < prefix.len() ==> #[trigger] prefix[i] == wrap(run_sum(hist@, st, i + 1)),
            decreases block - u,
        {
            proof {
                lemma_tile_sum(hist@, st, nn, false, at as int, cells@, u + 1);
                lemma_wrap_plus(walked_sum(hist@, st, nn, false, at as int), run_sum(cells@, 0, u + 1));
                lemma_walked_run(hist@, st, nn, false, at + u + 1);
            }
            prefix.push(carry.wrapping_add(sums[u]));
            u += 1;
        }
        proof {
            lemma_tile_sum(hist@, st, nn, false, at as int, cells@, block as int);
            lemma_wrap_plus(walked_sum(hist@, st, nn, false, at as int), run_sum(cells@, 0, block as int));
        }
        carry = carry.wrapping_add(sums[block - 1]);
    }
    prefix
}

// -------------------------------------------------------- the reduction ----

/// The best that a unit has met, with its gain; nothing where no split gains anything.
pub type Best = Option<(u32, Trial)>;

pub open spec fn gain_of(best: Best) -> u32 {
    match best {
        Some((gain, _)) => gain,
        None => 0,
    }
}

pub open spec fn rank_of(best: Best) -> int {
    match best {
        Some((_, trial)) => trial.rank as int,
        None => 0,
    }
}

/// One unit's best is better than another's.
pub open spec fn ahead(a: Best, b: Best) -> bool {
    better_spec(gain_of(a), rank_of(a), gain_of(b), rank_of(b))
}

fn is_ahead(a: &Best, b: &Best) -> (yes: bool)
    ensures
        yes == ahead(*a, *b),
{
    let (gain_a, rank_a): (u32, u32) = match a {
        Some((gain, trial)) => (*gain, trial.rank),
        None => (0, 0),
    };
    let (gain_b, rank_b): (u32, u32) = match b {
        Some((gain, trial)) => (*gain, trial.rank),
        None => (0, 0),
    };
    better(gain_a, rank_a, gain_b, rank_b)
}

/// No better than one that is not ahead of a third is no better than the third.
proof fn lemma_ahead_order(x: Best, y: Best, z: Best)
    requires
        !is_nan_spec(gain_of(x)),
        !is_nan_spec(gain_of(y)),
        !is_nan_spec(gain_of(z)),
        !ahead(x, y),
        !ahead(y, z),
    ensures
        !ahead(x, z),
{
}

proof fn lemma_ahead_one_way(x: Best, y: Best)
    requires
        ahead(x, y),
    ensures
        !ahead(y, x),
{
}

/// Where slot `u` stands once the upper half of `2 * d` slots was folded onto the lower.
proof fn lemma_fold(u: int, d: int)
    requires
        0 <= u,
        0 < d,
    ensures
        u % (2 * d) < d ==> u % d == u % (2 * d),
        u % (2 * d) >= d ==> u % d == u % (2 * d) - d,
{
    let q = u / (2 * d);
    let r = u % (2 * d);
    vstd::arithmetic::div_mod::lemma_fundamental_div_mod(u, 2 * d);
    if r < d {
        assert(u == (2 * q) * d + r) by (nonlinear_arith)
            requires
                u == (2 * d) * q + r,
        ;
        vstd::arithmetic::div_mod::lemma_fundamental_div_mod_converse(u, d, 2 * q, r);
    } else {
        assert(u == (2 * q + 1) * d + (r - d)) by (nonlinear_arith)
            requires
                u == (2 * d) * q + r,
        ;
        vstd::arithmetic::div_mod::lemma_fundamental_div_mod_converse(u, d, 2 * q + 1, r - d);
    }
}

/// One of the slots holds this.
pub open spec fn among(slots: Seq<Best>, best: Best) -> bool {
    exists|u: int| 0 <= u < slots.len() && #[trigger] slots[u] == best
}

/// Reduce the units' bests to one: the upper half of the slots is folded onto the lower, the
/// better of two staying, until one is left.
pub fn reduce_best(units: Vec<Best>) -> (best: Best)
    requires
        exists|k: nat| units.len() == #[trigger] pow2(k),
        forall|u: int| 0 <= u < units.len() ==> !is_nan_spec(gain_of(#[trigger] units[u])),
    ensures
        among(units@, best),
        forall|u: int| 0 <= u < units.len() ==> !ahead(#[trigger] units[u], best),
{
    let ghost was = units@;
    let ghost mut k: nat = choose|k: nat| units.len() == #[trigger] pow2(k);
    let mut slots: Vec<Best> = units;
    let mut cur: usize = slots.len();
    proof {
        lemma_pow2_pos(k);
        assert forall|u: int| 0 <= u < was.len() implies !ahead(#[trigger] was[u], slots[u % (cur as int)]) by {
            vstd::arithmetic::div_mod::lemma_small_mod(u as nat, cur as nat);
        }
        assert forall|a: int| 0 <= a < cur implies among(was, #[trigger] slots[a]) by {
            assert(was[a] == slots[a]);
        }
    }
    while cur > 1
        invariant
            1 <= cur <= slots.len(),
            slots.len() == was.len(),
            cur == pow2(k),
            forall|u: int| 0 <= u < was.len() ==> !is_nan_spec(gain_of(#[trigger] was[u])),
            forall|u: int| 0 <= u < was.len() ==> !ahead(#[trigger] was[u], slots[u % (cur as int)]),
            forall|a: int| 0 <= a < cur ==> among(was, #[trigger] slots[a]),
        decreases cur,
    {
        let d: usize = cur / 2;
        let ghost before = slots@;
        proof {
            if k == 0 {
                vstd::arithmetic::power2::lemma2_to64();
            }
            lemma_pow2_unfold(k);
            k = (k - 1) as nat;
            lemma_pow2_pos(k);
        }
        let mut a: usize = 0;
        while a < d
            invariant
                cur == 2 * d,
                0 < d,
                cur <= slots.len(),
                slots.len() == was.len(),
                before.len() == was.len(),
                a <= d,
                forall|b: int|
                    0 <= b < a ==> #[trigger] slots[b] == (if ahead(before[b + d], before[b]) {
                        before[b + d]
                    } else {
                        before[b]
                    }),
                forall|b: int| a <= b < slots.len() ==> #[trigger] slots[b] == before[b],
            decreases d - a,
        {
            if is_ahead(&slots[a + d], &slots[a]) {
                let taken: Best = slots[a + d];
                slots[a] = taken;
            }
            a += 1;
        }
        proof {
            assert forall|b: int| 0 <= b < d implies among(was, #[trigger] slots[b]) by {
                assert(among(was, before[b]) && among(was, before[b + d]));
            }
            assert forall|u: int| 0 <= u < was.len() implies !ahead(#[trigger] was[u], slots[u % (d as int)]) by {
                let r = u % (cur as int);
                lemma_fold(u, d as int);
                let b = u % (d as int);
                assert(among(was, before[b]) && among(was, before[b + d]) && among(was, before[r]));
                assert(!ahead(was[u], before[r]));
                if ahead(before[b + d], before[b]) {
                    lemma_ahead_one_way(before[b + d], before[b]);
                }
                if before[r] != slots[b] {
                    lemma_ahead_order(was[u], before[r], slots[b]);
                }
            }
        }
        cur = d;
    }
    proof {
        assert forall|u: int| 0 <= u < was.len() implies !ahead(#[trigger] was[u], slots[0]) by {
            assert(u % 1 == 0);
        }
        assert(among(was, slots[0]));
    }
    slots[0]
}

/// `best` is the winner among the trials that the units share, from their gains.
pub open spec fn wins_units(units: Seq<Vec<Trial>>, gains: Seq<Vec<u32>>, best: Best) -> bool {
    match best {
        None => forall|u: int, j: int|
            0 <= u < units.len() && 0 <= j < units[u].len() ==> !lt_spec(0, #[trigger] gains[u]@[j]),
        Some((gain, trial)) => {
            &&& lt_spec(0, gain)
            &&& exists|u: int, j: int|
                0 <= u < units.len() && 0 <= j < units[u].len() && #[trigger] gains[u]@[j] == gain && units[u]@[j] == trial
            &&& forall|u: int, j: int|
                0 <= u < units.len() && 0 <= j < units[u].len() ==> !better_spec(
                    #[trigger] gains[u]@[j],
                    units[u]@[j].rank as int,
                    gain,
                    trial.rank as int,
                )
        },
    }
}

/// The best of the trials of a unit.
spec fn unit_best(trials: Seq<Trial>, gains: Seq<u32>, best: Best) -> bool {
    exists|w: Option<int>|
        #[trigger] wins_trials(trials, gains, w) && best == (match w {
            Some(k) => Some((gains[k], trials[k])),
            None => None,
        })
}

/// The winner among the splits that the units share: each unit's best, reduced to one.
pub fn choose_shared(units: &[Vec<Trial>], gains: &[Vec<u32>]) -> (best: Best)
    requires
        gains.len() == units.len(),
        exists|k: nat| units.len() == #[trigger] pow2(k),
        forall|u: int| 0 <= u < units.len() ==> (#[trigger] gains[u]).len() == units[u].len(),
    ensures
        wins_units(units@, gains@, best),
{
    let mut bests: Vec<Best> = Vec::with_capacity(units.len());
    let mut u: usize = 0;
    while u < units.len()
        invariant
            gains.len() == units.len(),
            forall|v: int| 0 <= v < units.len() ==> (#[trigger] gains[v]).len() == units[v].len(),
            u <= units.len(),
            bests.len() == u,
            forall|v: int| 0 <= v < u ==> unit_best(units[v]@, gains[v]@, #[trigger] bests[v]),
        decreases units.len() - u,
    {
        assert(gains[u as int].len() == units[u as int].len());
        let winner: Option<usize> = choose_trial(units[u].as_slice(), gains[u].as_slice());
        let ghost w: Option<int> = match winner {
            Some(k) => Some(k as int),
            None => None,
        };
        assert(wins_trials(units[u as int]@, gains[u as int]@, w));
        let best: Best = match winner {
            Some(k) => Some((gains[u][k], units[u][k])),
            None => None,
        };
        assert(unit_best(units[u as int]@, gains[u as int]@, best));
        bests.push(best);
        u += 1;
    }
    let ghost all = bests@;
    proof {
        assert forall|v: int| 0 <= v < all.len() implies !is_nan_spec(gain_of(#[trigger] all[v])) by {
            assert(unit_best(units[v]@, gains[v]@, all[v]));
        }
    }
    let best: Best = reduce_best(bests);
    proof {
        lemma_units_winner(units@, gains@, all, best);
    }
    best
}

/// The best of the units' bests is the best of all their trials.
proof fn lemma_units_winner(units: Seq<Vec<Trial>>, gains: Seq<Vec<u32>>, all: Seq<Best>, best: Best)
    requires
        gains.len() == units.len(),
        all.len() == units.len(),
        forall|u: int| 0 <= u < units.len() ==> (#[trigger] gains[u]).len() == units[u].len(),
        forall|v: int| 0 <= v < units.len() ==> unit_best(units[v]@, gains[v]@, #[trigger] all[v]),
        among(all, best),
        forall|u: int| 0 <= u < all.len() ==> !ahead(#[trigger] all[u], best),
    ensures
        wins_units(units, gains, best),
{
    let at = choose|u: int| 0 <= u < all.len() && #[trigger] all[u] == best;
    assert(unit_best(units[at]@, gains[at]@, all[at]));
    let w = choose|w: Option<int>|
        #[trigger] wins_trials(units[at]@, gains[at]@, w) && best == (match w {
            Some(k) => Some((gains[at]@[k], units[at]@[k])),
            None => None,
        });
    match best {
        Some((gain, trial)) => {
            assert(gains[at]@[w->0] == gain && units[at]@[w->0] == trial);
        },
        None => {},
    }
    assert forall|u: int, j: int| 0 <= u < units.len() && 0 <= j < units[u].len() implies match best {
        None => !lt_spec(0, #[trigger] gains[u]@[j]),
        Some((gain, trial)) => !better_spec(gains[u]@[j], units[u]@[j].rank as int, gain, trial.rank as int),
    } by {
        assert(unit_best(units[u]@, gains[u]@, all[u]));
        let v = choose|v: Option<int>|
            #[trigger] wins_trials(units[u]@, gains[u]@, v) && all[u] == (match v {
                Some(k) => Some((gains[u]@[k], units[u]@[k])),
                None => None,
            });
        assert(!ahead(all[u], best));
        let ts = units[u]@;
        let gs = gains[u]@;
        let gain_at = |i: int| gs[i];
        match v {
            Some(k) => {
                assert(!better_spec(gain_at(j), ts[j].rank as int, gs[k], ts[k].rank as int));
            },
            None => {
                assert(!lt_spec(0, gain_at(j)));
            },
        }
    }
}

// --------------------------------------------------------- the agreement ----

/// Ranks ascend, from `lo` on and below `hi`.
spec fn ranked(trials: Seq<Trial>, lo: int, hi: int) -> bool {
    &&& forall|i: int| 0 <= i < trials.len() ==> lo <= (#[trigger] trials[i]).rank < hi
    &&& forall|i: int, j: int|
        0 <= i < j < trials.len() ==> (#[trigger] trials[i]).rank < (#[trigger] trials[j]).rank
}

proof fn lemma_ranked_push(trials: Seq<Trial>, t: Trial, lo: int, hi: int)
    requires
        ranked(trials, lo, hi),
        lo <= hi,
        t.rank == hi,
    ensures
        ranked(trials.push(t), lo, hi + 1),
{
    let more = trials.push(t);
    assert forall|i: int| 0 <= i < more.len() implies lo <= (#[trigger] more[i]).rank < hi + 1 by {
        if i < trials.len() {
            assert(more[i] == trials[i]);
        }
    }
    assert forall|i: int, j: int| 0 <= i < j < more.len() implies (#[trigger] more[i]).rank < (
    #[trigger] more[j]).rank by {
        assert(more[i] == trials[i]);
        if j < trials.len() {
            assert(more[j] == trials[j]);
        }
    }
}

/// Splits of a feature are met at ranks that ascend.
proof fn lemma_ranks_ascend(
    hist: Seq<GradientPairInt64>,
    start: int,
    ibegin: int,
    n: int,
    parent: GradientPairInt64,
    m: int,
)
    requires
        0 <= m <= n,
        2 * n <= u32::MAX,
    ensures
        ranked(forward_trials(hist, start, ibegin, m), 0, m),
        ranked(backward_trials(hist, start, ibegin, n, parent, m), n, n + m),
    decreases m,
{
    if m > 0 {
        lemma_ranks_ascend(hist, start, ibegin, n, parent, m - 1);
        let f = forward_trials(hist, start, ibegin, m - 1);
        let b = backward_trials(hist, start, ibegin, n, parent, m - 1);
        lemma_ranked_push(f, forward_trial(hist, start, ibegin, m - 1), 0, m - 1);
        lemma_ranked_push(b, backward_trial(hist, start, ibegin, n, parent, n - m), n, n + m - 1);
    }
}

/// A trial has a rank of its own.
proof fn lemma_ranks_differ(
    hist: Seq<GradientPairInt64>,
    start: int,
    ibegin: int,
    n: int,
    parent: GradientPairInt64,
    i: int,
    j: int,
)
    requires
        0 <= n,
        2 * n <= u32::MAX,
        0 <= i < trials_of(hist, start, ibegin, n, parent).len(),
        0 <= j < trials_of(hist, start, ibegin, n, parent).len(),
        trials_of(hist, start, ibegin, n, parent)[i].rank == trials_of(hist, start, ibegin, n, parent)[j].rank,
    ensures
        i == j,
{
    lemma_ranks_ascend(hist, start, ibegin, n, parent, n);
    let forward = forward_trials(hist, start, ibegin, n);
    let trials = trials_of(hist, start, ibegin, n, parent);
    let a = if i < j {
        i
    } else {
        j
    };
    let b = if i < j {
        j
    } else {
        i
    };
    if a < b {
        if b < forward.len() {
            assert(forward[a].rank < forward[b].rank);
        } else if a >= forward.len() {
            let backward = backward_trials(hist, start, ibegin, n, parent, n);
            assert(trials[a] == backward[a - forward.len()] && trials[b] == backward[b - forward.len()]);
            assert(backward[a - forward.len()].rank < backward[b - forward.len()].rank);
        } else {
            let backward = backward_trials(hist, start, ibegin, n, parent, n);
            assert(trials[a] == forward[a] && trials[b] == backward[b - forward.len()]);
        }
    }
}

/// Units that share a list find its winner: where no two splits have the same rank, and every
/// split is scored alike, the winner of the reduction is the winner of the whole list, whatever
/// the number of units.
pub proof fn lemma_dealt_agrees(
    trials: Seq<Trial>,
    n: int,
    score: spec_fn(Trial) -> u32,
    gains: Seq<u32>,
    w: Option<int>,
    units: Seq<Vec<Trial>>,
    unit_gains: Seq<Vec<u32>>,
    best: Best,
)
    requires
        forall|i: int, j: int|
            0 <= i < trials.len() && 0 <= j < trials.len() && #[trigger] trials[i].rank == #[trigger] trials[j].rank
                ==> i == j,
        units.len() > 0,
        shares(units, trials, n),
        gains.len() == trials.len(),
        forall|k: int| 0 <= k < gains.len() ==> #[trigger] gains[k] == score(trials[k]),
        forall|u: int, j: int|
            0 <= u < units.len() && 0 <= j < units[u].len() ==> #[trigger] unit_gains[u]@[j] == score(units[u]@[j]),
        wins_trials(trials, gains, w),
        wins_units(units, unit_gains, best),
    ensures
        best == (match w {
            Some(k) => Some((gains[k], trials[k])),
            None => None,
        }),
{
    let gain_at = |i: int| gains[i];
    match best {
        Some((gain, trial)) => {
            let (u, j) = choose|u: int, j: int|
                0 <= u < units.len() && 0 <= j < units[u].len() && #[trigger] unit_gains[u]@[j] == gain && units[u]@[j]
                    == trial;
            let i = lemma_unit_holds(trials, units, n, u, j);
            assert(gain == score(trial) && gains[i] == gain);
            match w {
                Some(k) => {
                    let (v, l) = lemma_some_unit(trials, units, n, k);
                    assert(unit_gains[v]@[l] == gains[k]);
                    assert(!better_spec(gain_at(i), trials[i].rank as int, gains[k], trials[k].rank as int));
                    assert(!better_spec(unit_gains[v]@[l], units[v]@[l].rank as int, gain, trial.rank as int));
                    assert(trials[i].rank == trials[k].rank);
                },
                None => {
                    assert(!lt_spec(0, gain_at(i)));
                },
            }
        },
        None => {
            match w {
                Some(k) => {
                    let (v, l) = lemma_some_unit(trials, units, n, k);
                    assert(!lt_spec(0, unit_gains[v]@[l]));
                },
                None => {},
            }
        },
    }
}

/// The shared search of a feature finds what a single unit finds.
pub proof fn lemma_shared_agrees(
    hist: Seq<GradientPairInt64>,
    start: int,
    ibegin: int,
    n: int,
    parent: GradientPairInt64,
    score: spec_fn(Trial) -> u32,
    gains: Seq<u32>,
    w: Option<int>,
    units: Seq<Vec<Trial>>,
    unit_gains: Seq<Vec<u32>>,
    best: Best,
)
    requires
        0 <= n,
        2 * n <= u32::MAX,
        units.len() > 0,
        shares(units, trials_of(hist, start, ibegin, n, parent), n),
        gains.len() == trials_of(hist, start, ibegin, n, parent).len(),
        forall|k: int| 0 <= k < gains.len() ==> #[trigger] gains[k] == score(trials_of(hist, start, ibegin, n, parent)[k]),
        forall|u: int, j: int|
            0 <= u < units.len() && 0 <= j < units[u].len() ==> #[trigger] unit_gains[u]@[j] == score(units[u]@[j]),
        wins_trials(trials_of(hist, start, ibegin, n, parent), gains, w),
        wins_units(units, unit_gains, best),
    ensures
        best == (match w {
            Some(k) => Some((gains[k], trials_of(hist, start, ibegin, n, parent)[k])),
            None => None,
        }),
{
    let trials = trials_of(hist, start, ibegin, n, parent);
    assert forall|i: int, j: int|
        0 <= i < trials.len() && 0 <= j < trials.len() && #[trigger] trials[i].rank == #[trigger] trials[j].rank implies i
        == j by {
        lemma_ranks_differ(hist, start, ibegin, n, parent, i, j);
    }
    lemma_dealt_agrees(trials, n, score, gains, w, units, unit_gains, best);
}

/// The shared search of a vector leaf's feature finds what a single unit finds.
pub proof fn lemma_vector_shared_agrees(
    ev: &SplitEvaluatorGpu,
    hist: Seq<GradientPairInt64>,
    hist_base: int,
    parent: Seq<GradientPairInt64>,
    f: int,
    vector: Seq<MultiTrial>,
    score: spec_fn(Trial) -> u32,
    gains: Seq<u32>,
    w: Option<int>,
    units: Seq<Vec<Trial>>,
    unit_gains: Seq<Vec<u32>>,
    best: Best,
)
    requires
        ev.wf(),
        0 <= f < ev.n_features,
        lists_multi(ev, hist, hist_base, parent, f, false, vector),
        units.len() > 0,
        shares(units, shared_trials(vector), width(ev, f)),
        gains.len() == vector.len(),
        forall|k: int| 0 <= k < gains.len() ==> #[trigger] gains[k] == score(vector[k].trial),
        forall|u: int, j: int|
            0 <= u < units.len() && 0 <= j < units[u].len() ==> #[trigger] unit_gains[u]@[j] == score(units[u]@[j]),
        wins_trials(shared_trials(vector), gains, w),
        wins_units(units, unit_gains, best),
    ensures
        best == (match w {
            Some(k) => Some((gains[k], vector[k].trial)),
            None => None,
        }),
{
    let trials = shared_trials(vector);
    let n = width(ev, f);
    assert(ev.cut_ptrs[f] <= ev.cut_ptrs[f + 1]);
    assert forall|k: int| 0 <= k < trials.len() implies (#[trigger] trials[k]).rank == k by {
        if k < n {
            assert(is_multi_trial(ev, hist, hist_base, parent, f, k, false, vector[k]));
        } else {
            assert(is_multi_trial(ev, hist, hist_base, parent, f, 2 * n - 1 - k, true, vector[k]));
        }
    }
    lemma_dealt_agrees(trials, n, score, gains, w, units, unit_gains, best);
}

/// A split that a unit has is one of the list.
proof fn lemma_unit_holds(trials: Seq<Trial>, units: Seq<Vec<Trial>>, n: int, u: int, j: int) -> (i: int)
    requires
        shares(units, trials, n),
        0 <= u < units.len(),
        0 <= j < units[u].len(),
    ensures
        0 <= i < trials.len(),
        trials[i] == units[u]@[j],
{
    let p = meets(n, units.len() as int, u);
    assert(units[u]@ == trials.filter(p));
    trials.lemma_filter_contains_rev(p, units[u]@[j]);
    choose|i: int| 0 <= i < trials.len() && trials[i] == units[u]@[j]
}

/// A split of the list is one that some unit has.
proof fn lemma_some_unit(trials: Seq<Trial>, units: Seq<Vec<Trial>>, n: int, k: int) -> (at: (int, int))
    requires
        shares(units, trials, n),
        units.len() > 0,
        0 <= k < trials.len(),
    ensures
        0 <= at.0 < units.len(),
        0 <= at.1 < units[at.0].len(),
        units[at.0]@[at.1] == trials[k],
{
    let u = step_of(n, trials[k]) % (units.len() as int);
    let p = meets(n, units.len() as int, u);
    assert(units[u]@ == trials.filter(p));
    assert(p(trials[k]));
    trials.lemma_filter_contains(p, k);
    let j = choose|j: int| 0 <= j < units[u].len() && units[u]@[j] == trials[k];
    (u, j)
}

impl SplitEvaluatorGpu {
    /// The candidate that a feature's best split makes.
    pub open spec fn candidate_of(&self, fidx: int, best: Best) -> DeviceSplitCandidate {
        match best {
            None => DeviceSplitCandidate {
                loss_chg: 0,
                sindex: fidx as u32,
                split_value: self.cut_values[0],
                left_grad: 0,
                left_hess: 0,
                is_cat: false,
            },
            Some((gain, trial)) => DeviceSplitCandidate {
                loss_chg: gain,
                sindex: (fidx + (if trial.backward {
                    DEFAULT_LEFT_BIT as int
                } else {
                    0
                })) as u32,
                split_value: self.threshold_spec(fidx, trial.bin as int, trial.backward),
                left_grad: trial.left.grad,
                left_hess: trial.left.hess,
                is_cat: false,
            },
        }
    }

    /// The best split of feature `fidx` of a node, from the gains of the trials that the units
    /// share.
    pub fn evaluate_feature_shared(&self, fidx: usize, units: &[Vec<Trial>], gains: &[Vec<u32>]) -> (candidate: DeviceSplitCandidate)
        requires
            self.wf(),
            fidx < self.n_features,
            gains.len() == units.len(),
            exists|k: nat| units.len() == #[trigger] pow2(k),
            forall|u: int| 0 <= u < units.len() ==> (#[trigger] gains[u]).len() == units[u].len(),
            forall|u: int, j: int|
                0 <= u < units.len() && 0 <= j < units[u].len() ==> self.cut_ptrs[fidx as int] <= (
                #[trigger] units[u]@[j]).bin < self.cut_ptrs[fidx + 1],
        ensures
            exists|best: Best|
                #[trigger] wins_units(units@, gains@, best) && candidate == self.candidate_of(fidx as int, best),
    {
        let best: Best = choose_shared(units, gains);
        assert(self.cut_ptrs[fidx as int] <= self.cut_ptrs[fidx + 1]);
        match best {
            None => DeviceSplitCandidate {
                loss_chg: 0,
                sindex: fidx as u32,
                split_value: self.cut_values[0],
                left_grad: 0,
                left_hess: 0,
                is_cat: false,
            },
            Some((gain, trial)) => {
                proof {
                    let (u, j) = choose|u: int, j: int|
                        0 <= u < units.len() && 0 <= j < units[u].len() && #[trigger] gains[u]@[j] == gain && units[u]@[j]
                            == trial;
                    assert(units[u]@[j].bin < self.cut_ptrs[fidx + 1]);
                }
                DeviceSplitCandidate {
                    loss_chg: gain,
                    sindex: tag_index(fidx as u32, trial.backward),
                    split_value: self.threshold(fidx, trial.bin, trial.backward),
                    left_grad: trial.left.grad,
                    left_hess: trial.left.hess,
                    is_cat: false,
                }
            },
        }
    }
}

/// The features as splits to choose from, each ranked by its index.
spec fn feature_trial(f: int) -> Trial {
    Trial { rank: f as u32, bin: f as u32, backward: false, left: GradientPairInt64 { grad: 0, hess: 0 } }
}

/// Reduce a node's per-feature candidates to one, the units taking the features in turn: the
/// largest gain, the lower feature on a tie, and no split where none gains anything.
pub fn reduce_candidates_shared(candidates: &[DeviceSplitCandidate], block: usize) -> (best: DeviceSplitCandidate)
    requires
        candidates.len() <= u32::MAX,
        exists|k: nat| block == #[trigger] pow2(k),
    ensures
        exists|w: Option<int>|
            #[trigger] wins_features(candidates@, w) && best == (match w {
                None => (DeviceSplitCandidate {
                    loss_chg: 0,
                    sindex: 0,
                    split_value: 0,
                    left_grad: 0,
                    left_hess: 0,
                    is_cat: false,
                }),
                Some(k) => (DeviceSplitCandidate { is_cat: false, ..candidates[k] }),
            }),
{
    proof {
        let k = choose|k: nat| block == #[trigger] pow2(k);
        lemma_pow2_pos(k);
    }
    let n: usize = candidates.len();
    let mut features: Vec<Trial> = Vec::with_capacity(n);
    let mut f: usize = 0;
    while f < n
        invariant
            n == candidates.len(),
            n <= u32::MAX,
            f <= n,
            features.len() == f,
            forall|g: int| 0 <= g < f ==> #[trigger] features[g] == feature_trial(g),
        decreases n - f,
    {
        features.push(
            Trial { rank: f as u32, bin: f as u32, backward: false, left: GradientPairInt64 { grad: 0, hess: 0 } },
        );
        f += 1;
    }
    let units: Vec<Vec<Trial>> = deal(features.as_slice(), 0, block);
    let mut gains: Vec<Vec<u32>> = Vec::with_capacity(block);
    let mut u: usize = 0;
    proof {
        assert forall|v: int, j: int| 0 <= v < units.len() && 0 <= j < units[v].len() implies (
        #[trigger] units[v]@[j]).rank < n by {
            let i = lemma_unit_holds(features@, units@, 0, v, j);
            assert(features[i] == feature_trial(i));
        }
    }
    while u < units.len()
        invariant
            n == candidates.len(),
            u <= units.len(),
            gains.len() == u,
            forall|v: int, j: int| 0 <= v < units.len() && 0 <= j < units[v].len() ==> (#[trigger] units[v]@[j]).rank < n,
            forall|v: int| 0 <= v < u ==> (#[trigger] gains[v]).len() == units[v].len(),
            forall|v: int, j: int|
                0 <= v < u && 0 <= j < units[v].len() ==> #[trigger] gains[v]@[j]
                    == candidates[units[v]@[j].rank as int].loss_chg,
        decreases units.len() - u,
    {
        let mut own: Vec<u32> = Vec::with_capacity(units[u].len());
        let mut j: usize = 0;
        while j < units[u].len()
            invariant
                n == candidates.len(),
                u < units.len(),
                forall|v: int, j: int|
                    0 <= v < units.len() && 0 <= j < units[v].len() ==> (#[trigger] units[v]@[j]).rank < n,
                j <= units[u as int].len(),
                own.len() == j,
                forall|l: int| 0 <= l < j ==> #[trigger] own[l] == candidates[units[u as int]@[l].rank as int].loss_chg,
            decreases units[u as int].len() - j,
        {
            assert(units[u as int]@[j as int].rank < n);
            own.push(candidates[units[u][j].rank as usize].loss_chg);
            j += 1;
        }
        gains.push(own);
        u += 1;
    }
    let found: Best = choose_shared(units.as_slice(), gains.as_slice());
    let ghost w: Option<int> = match found {
        Some((_, trial)) => Some(trial.rank as int),
        None => None,
    };
    proof {
        lemma_features_won(candidates@, features@, units@, gains@, found, w);
    }
    match found {
        None => DeviceSplitCandidate::default(),
        Some((_, trial)) => {
            proof {
                assert(0 <= w->0 < n);
            }
            let c: DeviceSplitCandidate = candidates[trial.rank as usize];
            DeviceSplitCandidate {
                loss_chg: c.loss_chg,
                sindex: c.sindex,
                split_value: c.split_value,
                left_grad: c.left_grad,
                left_hess: c.left_hess,
                is_cat: false,
            }
        },
    }
}

/// The best of the features that the units took is the best of all.
proof fn lemma_features_won(
    candidates: Seq<DeviceSplitCandidate>,
    features: Seq<Trial>,
    units: Seq<Vec<Trial>>,
    gains: Seq<Vec<u32>>,
    found: Best,
    w: Option<int>,
)
    requires
        candidates.len() <= u32::MAX,
        features.len() == candidates.len(),
        forall|f: int| 0 <= f < features.len() ==> #[trigger] features[f] == feature_trial(f),
        units.len() > 0,
        shares(units, features, 0),
        forall|v: int, j: int|
            0 <= v < units.len() && 0 <= j < units[v].len() ==> #[trigger] gains[v]@[j]
                == candidates[units[v]@[j].rank as int].loss_chg,
        wins_units(units, gains, found),
        w == (match found {
            Some((_, trial)) => Some(trial.rank as int),
            None => None,
        }),
    ensures
        wins_features(candidates, w),
{
    let gain_at = |j: int| candidates[j].loss_chg;
    assert forall|f: int| 0 <= f < candidates.len() implies match found {
        None => !lt_spec(0, #[trigger] gain_at(f)),
        Some((gain, trial)) => !better_spec(gain_at(f), f, gain, trial.rank as int),
    } by {
        let (v, l) = lemma_some_unit(features, units, 0, f);
        assert(features[f] == feature_trial(f));
        assert(gains[v]@[l] == candidates[units[v]@[l].rank as int].loss_chg);
    }
    match found {
        Some((gain, trial)) => {
            let (u, j) = choose|u: int, j: int|
                0 <= u < units.len() && 0 <= j < units[u].len() && #[trigger] gains[u]@[j] == gain && units[u]@[j] == trial;
            let i = lemma_unit_holds(features, units, 0, u, j);
            assert(features[i] == feature_trial(i));
            assert(gain_at(trial.rank as int) == gain);
        },
        None => {},
    }
}

/// A node's best candidate is the same in both shapes of the reduction.
pub proof fn lemma_reductions_agree(candidates: Seq<DeviceSplitCandidate>, a: Option<int>, b: Option<int>)
    requires
        wins_features(candidates, a),
        wins_features(candidates, b),
    ensures
        a == b,
{
    lemma_winner_unique(candidates.len() as int, |j: int| candidates[j].loss_chg, |j: int| j, a, b);
}

/// A feature's candidate is the same in both shapes of the search: one unit that walks all of
/// its bins, or any number of units that share them.
pub proof fn lemma_shapes_agree(
    ev: &SplitEvaluatorGpu,
    fidx: int,
    hist: Seq<GradientPairInt64>,
    start: int,
    parent: GradientPairInt64,
    score: spec_fn(Trial) -> u32,
    gains: Seq<u32>,
    serial: DeviceSplitCandidate,
    units: Seq<Vec<Trial>>,
    unit_gains: Seq<Vec<u32>>,
    shared: DeviceSplitCandidate,
)
    requires
        ev.wf(),
        0 <= fidx < ev.n_features,
        ({
            let n = ev.cut_ptrs[fidx + 1] - ev.cut_ptrs[fidx];
            let trials = trials_of(hist, start, ev.cut_ptrs[fidx] as int, n, parent);
            &&& units.len() > 0
            &&& shares(units, trials, n)
            &&& gains.len() == trials.len()
            &&& forall|k: int| 0 <= k < gains.len() ==> #[trigger] gains[k] == score(trials[k])
            &&& forall|u: int, j: int|
                0 <= u < units.len() && 0 <= j < units[u].len() ==> #[trigger] unit_gains[u]@[j] == score(units[u]@[j])
            &&& ev.candidate_spec(fidx, trials, gains, serial)
            &&& exists|best: Best| #[trigger] wins_units(units, unit_gains, best) && shared == ev.candidate_of(fidx, best)
        }),
    ensures
        serial == shared,
{
    let n = ev.cut_ptrs[fidx + 1] - ev.cut_ptrs[fidx];
    let ibegin = ev.cut_ptrs[fidx] as int;
    let trials = trials_of(hist, start, ibegin, n, parent);
    assert(ev.cut_ptrs[fidx] <= ev.cut_ptrs[fidx + 1]);
    let best = choose|best: Best| #[trigger] wins_units(units, unit_gains, best) && shared == ev.candidate_of(fidx, best);
    let w = choose|w: Option<int>|
        #[trigger] wins_trials(trials, gains, w) && serial == ev.candidate_of(
            fidx,
            match w {
                Some(k) => Some((gains[k], trials[k])),
                None => None,
            },
        );
    assert(wins_trials(trials, gains, w) && serial == ev.candidate_of(
        fidx,
        match w {
            Some(k) => Some((gains[k], trials[k])),
            None => None,
        },
    )) by {
        let v = choose|v: Option<int>|
            #[trigger] wins_trials(trials, gains, v) && (match v {
                None => serial == ev.candidate_of(fidx, None),
                Some(k) => serial == ev.candidate_of(fidx, Some((gains[k], trials[k]))),
            });
        assert(wins_trials(trials, gains, v));
    }
    lemma_shared_agrees(hist, start, ibegin, n, parent, score, gains, w, units, unit_gains, best);
}

} // verus!
