//! Split evaluation for trees whose leaves carry one value per target.
//!
//! The split is a single decision shared by every target, scored from one histogram per
//! node and target. A candidate needs the sums of all targets at once, so the inclusive
//! prefix sums are laid down first ([`prefix_scan_kernel`]) and a candidate reads whichever of
//! them it needs. The backward scan needs no second pass: the sum of the last bins is the
//! whole sum minus a prefix, in exact integers.

use vstd::prelude::*;

use crate::gpu::evaluate_splits::{
    lemma_pair_index, lemma_suffix_from_prefix, pair_index, run_sum, DeviceSplitCandidate, SplitEvaluatorGpu,
    Trial,
};
use crate::gpu::pairs::{exact, lemma_wrap_exact, lemma_wrap_plus, minus, plus, total, wrap};
use crate::gpu::GradientPairInt64;

verus! {

/// Per-node inputs for the vector-leaf evaluator: one histogram and one parent sum per
/// target.
pub struct MultiNodeInput {
    /// Bin offset of this node's first target histogram; target `t` follows at
    /// `hist_base + t * node_bins`.
    pub hist_base: u32,
    /// The parent's gain, summed over the targets, as a bit pattern.
    pub root_gain: u32,
    pub lower: u32,
    pub upper: u32,
    /// Quantised parent sum, one per target.
    pub parent: Vec<GradientPairInt64>,
}

/// A node's prefix sums, held between the split search that reads them and the per-target
/// child sums read out of them afterwards.
pub struct MultiScan {
    /// Bin `b` of target `t` stands at `t * node_bins + b`.
    pub prefix: Vec<GradientPairInt64>,
}

/// One split of a vector-leaf tree: the shared decision and each target's left sum.
pub struct MultiTrial {
    pub trial: Trial,
    /// The left child's sum, one per target.
    pub targets: Vec<GradientPairInt64>,
}

/// The first bin of feature `f` in the histogram of target `t` of a node.
pub open spec fn target_start(ev: &SplitEvaluatorGpu, hist_base: int, t: int, f: int) -> int {
    hist_base + t * ev.n_bins + ev.cut_ptrs[f]
}

/// The bins of feature `f`.
pub open spec fn width(ev: &SplitEvaluatorGpu, f: int) -> int {
    ev.cut_ptrs[f + 1] - ev.cut_ptrs[f]
}

/// The features' bins lie side by side.
pub open spec fn cuts_tile(ev: &SplitEvaluatorGpu) -> bool {
    &&& ev.wf()
    &&& forall|f: int, g: int|
        0 <= f <= g <= ev.n_features ==> #[trigger] ev.cut_ptrs[f] <= #[trigger] ev.cut_ptrs[g]
}

/// The node's histograms, one per target, lie in `hist`.
pub open spec fn node_in(ev: &SplitEvaluatorGpu, hist_base: int, n_targets: int, len: int) -> bool {
    hist_base + n_targets * ev.n_bins <= len
}

/// `prefix` holds the inclusive prefix sums of every feature run of every target of the
/// node.
pub open spec fn scans(
    ev: &SplitEvaluatorGpu,
    hist: Seq<GradientPairInt64>,
    hist_base: int,
    n_targets: int,
    prefix: Seq<GradientPairInt64>,
) -> bool {
    &&& prefix.len() == n_targets * ev.n_bins
    &&& forall|t: int, f: int, i: int|
        0 <= t < n_targets && 0 <= f < ev.n_features && 0 <= i < width(ev, f)
            ==> prefix[#[trigger] scan_cell(ev, t, f, i)] == wrap(
            run_sum(hist, target_start(ev, hist_base, t, f), i + 1),
        )
}

/// Where the prefix sum of bin `i` of feature `f` of target `t` stands.
pub open spec fn scan_cell(ev: &SplitEvaluatorGpu, t: int, f: int, i: int) -> int {
    t * ev.n_bins + ev.cut_ptrs[f] + i
}

proof fn lemma_scan_cell(ev: &SplitEvaluatorGpu, n_targets: int, t: int, f: int, i: int)
    requires
        cuts_tile(ev),
        0 <= t < n_targets,
        0 <= f < ev.n_features,
        0 <= i < width(ev, f),
    ensures
        0 <= t * ev.n_bins,
        t * ev.n_bins + ev.n_bins <= n_targets * ev.n_bins,
        0 <= scan_cell(ev, t, f, i) < n_targets * ev.n_bins,
        ev.cut_ptrs[f] + i < ev.n_bins,
{
    assert(ev.cut_ptrs[f] <= ev.cut_ptrs[f + 1]);
    assert(0 <= t * ev.n_bins && t * ev.n_bins + ev.n_bins <= n_targets * ev.n_bins) by (nonlinear_arith)
        requires
            0 <= t,
            t + 1 <= n_targets,
            0 <= ev.n_bins,
    ;
}

/// Inclusive prefix sums over each feature run of each target of one node.
pub fn prefix_scan_kernel(ev: &SplitEvaluatorGpu, hist: &[GradientPairInt64], hist_base: usize, n_targets: usize) -> (scan: MultiScan)
    requires
        cuts_tile(ev),
        node_in(ev, hist_base as int, n_targets as int, hist.len() as int),
    ensures
        scans(ev, hist@, hist_base as int, n_targets as int, scan.prefix@),
{
    let mut prefix: Vec<GradientPairInt64> = vec![GradientPairInt64 { grad: 0, hess: 0 }; n_targets * ev.n_bins];
    let mut t: usize = 0;
    while t < n_targets
        invariant
            cuts_tile(ev),
            node_in(ev, hist_base as int, n_targets as int, hist.len() as int),
            t <= n_targets,
            prefix.len() == n_targets * ev.n_bins,
            forall|u: int, f: int, i: int|
                0 <= u < t && 0 <= f < ev.n_features && 0 <= i < width(ev, f)
                    ==> prefix[#[trigger] scan_cell(ev, u, f, i)] == wrap(
                    run_sum(hist@, target_start(ev, hist_base as int, u, f), i + 1),
                ),
        decreases n_targets - t,
    {
        let ghost was = prefix@;
        proof {
            assert(0 <= t * ev.n_bins && t * ev.n_bins + ev.n_bins <= n_targets * ev.n_bins) by (nonlinear_arith)
                requires
                    0 <= t,
                    t + 1 <= n_targets,
                    0 <= ev.n_bins,
            ;
        }
        let tbase: usize = t * ev.n_bins;
        let mut f: usize = 0;
        while f < ev.n_features
            invariant
                cuts_tile(ev),
                node_in(ev, hist_base as int, n_targets as int, hist.len() as int),
                t < n_targets,
                tbase == t * ev.n_bins,
                tbase + ev.n_bins <= n_targets * ev.n_bins,
                f <= ev.n_features,
                prefix.len() == n_targets * ev.n_bins,
                was.len() == prefix.len(),
                forall|c: int| 0 <= c < tbase ==> #[trigger] prefix[c] == was[c],
                forall|g: int, i: int|
                    0 <= g < f && 0 <= i < width(ev, g) ==> prefix[#[trigger] scan_cell(ev, t as int, g, i)]
                        == wrap(run_sum(hist@, target_start(ev, hist_base as int, t as int, g), i + 1)),
            decreases ev.n_features - f,
        {
            let ibegin: usize = ev.cut_ptrs[f] as usize;
            let iend: usize = ev.cut_ptrs[f + 1] as usize;
            assert(ev.cut_ptrs[f as int] <= ev.cut_ptrs[f + 1]);
            let ghost start = target_start(ev, hist_base as int, t as int, f as int);
            let ghost inner = prefix@;
            let mut acc = GradientPairInt64 { grad: 0, hess: 0 };
            let mut b: usize = ibegin;
            while b < iend
                invariant
                    cuts_tile(ev),
                    node_in(ev, hist_base as int, n_targets as int, hist.len() as int),
                    t < n_targets,
                    f < ev.n_features,
                    tbase == t * ev.n_bins,
                    tbase + ev.n_bins <= n_targets * ev.n_bins,
                    ibegin == ev.cut_ptrs[f as int],
                    iend == ev.cut_ptrs[f + 1],
                    ibegin <= b <= iend <= ev.n_bins,
                    start == hist_base + tbase + ibegin,
                    prefix.len() == n_targets * ev.n_bins,
                    inner.len() == prefix.len(),
                    acc == wrap(run_sum(hist@, start, b - ibegin)),
                    forall|c: int|
                        0 <= c < prefix.len() && !(tbase + ibegin <= c < tbase + b) ==> #[trigger] prefix[c]
                            == inner[c],
                    forall|i: int|
                        0 <= i < b - ibegin ==> prefix[#[trigger] scan_cell(ev, t as int, f as int, i)] == wrap(
                            run_sum(hist@, start, i + 1),
                        ),
                decreases iend - b,
            {
                let cell: GradientPairInt64 = hist[hist_base + tbase + b];
                let ghost i = b - ibegin;
                let ghost mid = prefix@;
                proof {
                    lemma_wrap_plus(run_sum(hist@, start, i), exact(cell));
                    assert(run_sum(hist@, start, i + 1) == plus(run_sum(hist@, start, i), exact(hist[start + i])));
                }
                acc = acc.wrapping_add(cell);
                prefix[tbase + b] = acc;
                proof {
                    assert forall|k: int| 0 <= k < b + 1 - ibegin implies prefix[#[trigger] scan_cell(
                        ev,
                        t as int,
                        f as int,
                        k,
                    )] == wrap(run_sum(hist@, start, k + 1)) by {
                        if k < i {
                            assert(mid[scan_cell(ev, t as int, f as int, k)] == wrap(
                                run_sum(hist@, start, k + 1),
                            ));
                        }
                    }
                }
                b += 1;
            }
            proof {
                assert forall|g: int, i: int| 0 <= g < f + 1 && 0 <= i < width(ev, g) implies prefix[#[trigger] scan_cell(
                    ev,
                    t as int,
                    g,
                    i,
                )] == wrap(run_sum(hist@, target_start(ev, hist_base as int, t as int, g), i + 1)) by {
                    if g < f {
                        assert(ev.cut_ptrs[g + 1] <= ev.cut_ptrs[f as int]);
                        lemma_scan_cell(ev, n_targets as int, t as int, g, i);
                        let c = scan_cell(ev, t as int, g, i);
                        assert(prefix[c] == inner[c]);
                    }
                }
            }
            f += 1;
        }
        proof {
            assert forall|u: int, g: int, i: int|
                0 <= u < t + 1 && 0 <= g < ev.n_features && 0 <= i < width(ev, g) implies prefix[#[trigger] scan_cell(
                ev,
                u,
                g,
                i,
            )] == wrap(run_sum(hist@, target_start(ev, hist_base as int, u, g), i + 1)) by {
                if u < t {
                    lemma_scan_cell(ev, t as int, u, g, i);
                    let c = scan_cell(ev, u, g, i);
                    assert(prefix[c] == was[c]);
                }
            }
        }
        t += 1;
    }
    MultiScan { prefix }
}

/// Target `t`'s left sum at the split of feature `f` at its bin `i`: the bins up to it going
/// forward; the parent without the bins from it on going backward.
pub open spec fn target_left(
    ev: &SplitEvaluatorGpu,
    hist: Seq<GradientPairInt64>,
    hist_base: int,
    parent: Seq<GradientPairInt64>,
    t: int,
    f: int,
    i: int,
    backward: bool,
) -> GradientPairInt64 {
    let start = target_start(ev, hist_base, t, f);
    if backward {
        wrap(minus(exact(parent[t]), run_sum(hist, start + i, width(ev, f) - i)))
    } else {
        wrap(run_sum(hist, start, i + 1))
    }
}

/// The left sum of a split, added over the targets.
pub open spec fn summed_left(
    ev: &SplitEvaluatorGpu,
    hist: Seq<GradientPairInt64>,
    hist_base: int,
    parent: Seq<GradientPairInt64>,
    f: int,
    i: int,
    backward: bool,
) -> GradientPairInt64 {
    wrap(
        total(
            parent.len() as int,
            |t: int| exact(target_left(ev, hist, hist_base, parent, t, f, i, backward)),
        ),
    )
}

/// The split of feature `f` of a node at its bin `i`.
pub open spec fn is_multi_trial(
    ev: &SplitEvaluatorGpu,
    hist: Seq<GradientPairInt64>,
    hist_base: int,
    parent: Seq<GradientPairInt64>,
    f: int,
    i: int,
    backward: bool,
    m: MultiTrial,
) -> bool {
    &&& m.trial == (Trial {
        rank: (if backward {
            width(ev, f) + (width(ev, f) - 1 - i)
        } else {
            i
        }) as u32,
        bin: (ev.cut_ptrs[f] + i) as u32,
        backward,
        left: summed_left(ev, hist, hist_base, parent, f, i, backward),
    })
    &&& m.targets.len() == parent.len()
    &&& forall|t: int|
        0 <= t < parent.len() ==> #[trigger] m.targets[t] == target_left(
            ev,
            hist,
            hist_base,
            parent,
            t,
            f,
            i,
            backward,
        )
}

/// Score nothing, only work out the sums: the split of feature `f` at its bin `i`.
fn multi_trial(
    ev: &SplitEvaluatorGpu,
    scan: &MultiScan,
    parent: &Vec<GradientPairInt64>,
    f: usize,
    i: u32,
    backward: bool,
    Ghost(hist): Ghost<Seq<GradientPairInt64>>,
    Ghost(hist_base): Ghost<int>,
) -> (m: MultiTrial)
    requires
        cuts_tile(ev),
        scans(ev, hist, hist_base, parent.len() as int, scan.prefix@),
        f < ev.n_features,
        i < width(ev, f as int),
    ensures
        is_multi_trial(ev, hist, hist_base, parent@, f as int, i as int, backward, m),
{
    let ibegin: u32 = ev.cut_ptrs[f];
    let iend: u32 = ev.cut_ptrs[f + 1];
    assert(ev.cut_ptrs[f as int] <= ev.cut_ptrs[f + 1]);
    let n: u32 = iend - ibegin;
    let cells: usize = scan.prefix.len();
    let mut targets: Vec<GradientPairInt64> = Vec::with_capacity(parent.len());
    let mut sum = GradientPairInt64 { grad: 0, hess: 0 };
    let ghost term = |t: int| exact(target_left(ev, hist, hist_base, parent@, t, f as int, i as int, backward));
    let mut t: usize = 0;
    while t < parent.len()
        invariant
            cuts_tile(ev),
            scans(ev, hist, hist_base, parent.len() as int, scan.prefix@),
            f < ev.n_features,
            n == width(ev, f as int),
            ibegin == ev.cut_ptrs[f as int],
            cells == scan.prefix.len(),
            i < n,
            term == (|t: int| exact(target_left(ev, hist, hist_base, parent@, t, f as int, i as int, backward))),
            t <= parent.len(),
            targets.len() == t,
            sum == wrap(total(t as int, term)),
            forall|u: int|
                0 <= u < t ==> #[trigger] targets[u] == target_left(
                    ev,
                    hist,
                    hist_base,
                    parent@,
                    u,
                    f as int,
                    i as int,
                    backward,
                ),
        decreases parent.len() - t,
    {
        proof {
            lemma_scan_cell(ev, parent.len() as int, t as int, f as int, i as int);
            lemma_scan_cell(ev, parent.len() as int, t as int, f as int, n - 1);
            if i > 0 {
                lemma_scan_cell(ev, parent.len() as int, t as int, f as int, i - 1);
            }
        }
        let ghost start = target_start(ev, hist_base, t as int, f as int);
        let tbase: usize = t * ev.n_bins + ibegin as usize;
        let left: GradientPairInt64 = if backward {
            let whole: GradientPairInt64 = scan.prefix[tbase + (n - 1) as usize];
            assert(scan.prefix[scan_cell(ev, t as int, f as int, n - 1)] == wrap(run_sum(hist, start, n as int)));
            let head: GradientPairInt64 = if i == 0 {
                GradientPairInt64 { grad: 0, hess: 0 }
            } else {
                assert(scan.prefix[scan_cell(ev, t as int, f as int, i - 1)] == wrap(run_sum(hist, start, i as int)));
                scan.prefix[tbase + (i - 1) as usize]
            };
            proof {
                lemma_suffix_from_prefix(hist, start, n as int, i as int);
                assert(head == wrap(run_sum(hist, start, i as int)));
                lemma_wrap_plus(run_sum(hist, start, n as int), run_sum(hist, start, i as int));
                lemma_wrap_exact(parent[t as int]);
                lemma_wrap_plus(exact(parent[t as int]), run_sum(hist, start + i, n - i));
            }
            parent[t].wrapping_sub(whole.wrapping_sub(head))
        } else {
            assert(scan.prefix[scan_cell(ev, t as int, f as int, i as int)] == wrap(run_sum(hist, start, i + 1)));
            scan.prefix[tbase + i as usize]
        };
        proof {
            lemma_wrap_plus(total(t as int, term), exact(left));
        }
        sum = sum.wrapping_add(left);
        targets.push(left);
        t += 1;
    }
    MultiTrial { trial: Trial {
        rank: if backward {
            n + (n - 1 - i)
        } else {
            i
        },
        bin: ibegin + i,
        backward,
        left: sum,
    }, targets }
}

/// Whether the feature has missing rows in the node: its bins do not account for the node's
/// whole sum, stated over the targets together.
pub open spec fn multi_missing(
    ev: &SplitEvaluatorGpu,
    hist: Seq<GradientPairInt64>,
    hist_base: int,
    parent: Seq<GradientPairInt64>,
    f: int,
) -> bool {
    wrap(
        total(
            parent.len() as int,
            |t: int| exact(wrap(run_sum(hist, target_start(ev, hist_base, t, f), width(ev, f)))),
        ),
    ) != wrap(total(parent.len() as int, |t: int| exact(parent[t])))
}

fn feature_misses(
    ev: &SplitEvaluatorGpu,
    scan: &MultiScan,
    parent: &Vec<GradientPairInt64>,
    f: usize,
    Ghost(hist): Ghost<Seq<GradientPairInt64>>,
    Ghost(hist_base): Ghost<int>,
) -> (missing: bool)
    requires
        cuts_tile(ev),
        scans(ev, hist, hist_base, parent.len() as int, scan.prefix@),
        f < ev.n_features,
    ensures
        missing == multi_missing(ev, hist, hist_base, parent@, f as int),
{
    let ibegin: u32 = ev.cut_ptrs[f];
    let iend: u32 = ev.cut_ptrs[f + 1];
    assert(ev.cut_ptrs[f as int] <= ev.cut_ptrs[f + 1]);
    let n: u32 = iend - ibegin;
    let cells: usize = scan.prefix.len();
    let ghost whole = |t: int|
        exact(wrap(run_sum(hist, target_start(ev, hist_base, t, f as int), width(ev, f as int))));
    let ghost given = |t: int| exact(parent[t]);
    let mut bins = GradientPairInt64 { grad: 0, hess: 0 };
    let mut sums = GradientPairInt64 { grad: 0, hess: 0 };
    let mut t: usize = 0;
    while t < parent.len()
        invariant
            cuts_tile(ev),
            scans(ev, hist, hist_base, parent.len() as int, scan.prefix@),
            f < ev.n_features,
            n == width(ev, f as int),
            ibegin == ev.cut_ptrs[f as int],
            cells == scan.prefix.len(),
            whole == (|t: int|
                exact(wrap(run_sum(hist, target_start(ev, hist_base, t, f as int), width(ev, f as int))))),
            given == (|t: int| exact(parent[t])),
            t <= parent.len(),
            bins == wrap(total(t as int, whole)),
            sums == wrap(total(t as int, given)),
        decreases parent.len() - t,
    {
        let ghost start = target_start(ev, hist_base, t as int, f as int);
        let last: GradientPairInt64 = if n > 0 {
            proof {
                lemma_scan_cell(ev, parent.len() as int, t as int, f as int, n - 1);
                assert(scan.prefix[scan_cell(ev, t as int, f as int, n - 1)] == wrap(run_sum(hist, start, n as int)));
            }
            scan.prefix[t * ev.n_bins + ibegin as usize + (n - 1) as usize]
        } else {
            GradientPairInt64 { grad: 0, hess: 0 }
        };
        proof {
            lemma_wrap_plus(total(t as int, whole), exact(last));
            lemma_wrap_plus(total(t as int, given), exact(parent[t as int]));
        }
        bins = bins.wrapping_add(last);
        sums = sums.wrapping_add(parent[t]);
        t += 1;
    }
    bins.grad != sums.grad || bins.hess != sums.hess
}

/// `trials` are the splits of feature `f` of a node: every bin forward, and where the feature
/// has missing rows every bin backward, last bin first. A masked feature has no split.
pub open spec fn lists_multi(
    ev: &SplitEvaluatorGpu,
    hist: Seq<GradientPairInt64>,
    hist_base: int,
    parent: Seq<GradientPairInt64>,
    f: int,
    masked: bool,
    trials: Seq<MultiTrial>,
) -> bool {
    let n = width(ev, f);
    let missing = multi_missing(ev, hist, hist_base, parent, f);
    if masked {
        trials.len() == 0
    } else {
        &&& trials.len() == (if missing {
            2 * n
        } else {
            n
        })
        &&& forall|i: int| 0 <= i < n ==> is_multi_trial(ev, hist, hist_base, parent, f, i, false, #[trigger] trials[i])
        &&& missing ==> forall|s: int|
            n <= s < 2 * n ==> is_multi_trial(ev, hist, hist_base, parent, f, 2 * n - 1 - s, true, #[trigger] trials[s])
    }
}

/// List the splits of one feature of one node: every bin forward, and where the feature has
/// missing rows every bin backward, last bin first. A masked feature has no split.
pub fn evaluate_feature_multi_kernel(
    ev: &SplitEvaluatorGpu,
    hist: &[GradientPairInt64],
    scan: &MultiScan,
    node: &MultiNodeInput,
    f: usize,
    masked: bool,
) -> (trials: Vec<MultiTrial>)
    requires
        cuts_tile(ev),
        f < ev.n_features,
        scans(ev, hist@, node.hist_base as int, node.parent.len() as int, scan.prefix@),
    ensures
        lists_multi(ev, hist@, node.hist_base as int, node.parent@, f as int, masked, trials@),
{
    let mut trials: Vec<MultiTrial> = Vec::new();
    if masked {
        return trials;
    }
    assert(ev.cut_ptrs[f as int] <= ev.cut_ptrs[f + 1]);
    let n: u32 = ev.cut_ptrs[f + 1] - ev.cut_ptrs[f];
    let mut i: u32 = 0;
    while i < n
        invariant
            cuts_tile(ev),
            f < ev.n_features,
            scans(ev, hist@, node.hist_base as int, node.parent.len() as int, scan.prefix@),
            n == width(ev, f as int),
            i <= n,
            trials.len() == i,
            forall|k: int|
                0 <= k < i ==> is_multi_trial(
                    ev,
                    hist@,
                    node.hist_base as int,
                    node.parent@,
                    f as int,
                    k,
                    false,
                    #[trigger] trials[k],
                ),
        decreases n - i,
    {
        let m: MultiTrial = multi_trial(
            ev,
            scan,
            &node.parent,
            f,
            i,
            false,
            Ghost(hist@),
            Ghost(node.hist_base as int),
        );
        trials.push(m);
        i += 1;
    }
    let missing: bool = feature_misses(ev, scan, &node.parent, f, Ghost(hist@), Ghost(node.hist_base as int));
    if missing {
        let mut s: u32 = 0;
        while s < n
            invariant
                cuts_tile(ev),
                f < ev.n_features,
                scans(ev, hist@, node.hist_base as int, node.parent.len() as int, scan.prefix@),
                n == width(ev, f as int),
                s <= n,
                trials.len() == n + s,
                forall|k: int|
                    0 <= k < n ==> is_multi_trial(
                        ev,
                        hist@,
                        node.hist_base as int,
                        node.parent@,
                        f as int,
                        k,
                        false,
                        #[trigger] trials[k],
                    ),
                forall|k: int|
                    n <= k < n + s ==> is_multi_trial(
                        ev,
                        hist@,
                        node.hist_base as int,
                        node.parent@,
                        f as int,
                        2 * n - 1 - k,
                        true,
                        #[trigger] trials[k],
                    ),
            decreases n - s,
        {
            let m: MultiTrial = multi_trial(
                ev,
                scan,
                &node.parent,
                f,
                n - 1 - s,
                true,
                Ghost(hist@),
                Ghost(node.hist_base as int),
            );
            trials.push(m);
            s += 1;
        }
    }
    trials
}

/// The left and right sums of target `t` at a chosen split of feature `f`, whose condition
/// is the global bin `cond`, or below the feature's first bin where the threshold matched no
/// cut.
///
/// With missing values going left the bins above the condition are the right child;
/// otherwise the bins up to it are the left one, or all of them where nothing matched.
pub open spec fn child_left(
    ev: &SplitEvaluatorGpu,
    hist: Seq<GradientPairInt64>,
    hist_base: int,
    parent: Seq<GradientPairInt64>,
    t: int,
    f: int,
    cond: int,
    default_left: bool,
) -> GradientPairInt64 {
    let start = target_start(ev, hist_base, t, f);
    let n = width(ev, f);
    let upto = if cond < ev.cut_ptrs[f] {
        0
    } else {
        cond - ev.cut_ptrs[f] + 1
    };
    if default_left {
        wrap(minus(exact(parent[t]), run_sum(hist, start + upto, n - upto)))
    } else if upto == 0 {
        wrap(run_sum(hist, start, n))
    } else {
        wrap(run_sum(hist, start, upto))
    }
}

/// Recover a chosen split's per-target child sums from the prefix sums.
pub fn multi_child_sums_kernel(
    ev: &SplitEvaluatorGpu,
    hist: &[GradientPairInt64],
    scan: &MultiScan,
    node: &MultiNodeInput,
    f: usize,
    cond: i64,
    default_left: bool,
) -> (sums: Vec<(GradientPairInt64, GradientPairInt64)>)
    requires
        cuts_tile(ev),
        f < ev.n_features,
        width(ev, f as int) > 0,
        cond < ev.cut_ptrs[f + 1],
        scans(ev, hist@, node.hist_base as int, node.parent.len() as int, scan.prefix@),
    ensures
        sums.len() == node.parent.len(),
        forall|t: int|
            0 <= t < sums.len() ==> {
                let left = child_left(
                    ev,
                    hist@,
                    node.hist_base as int,
                    node.parent@,
                    t,
                    f as int,
                    cond as int,
                    default_left,
                );
                &&& (#[trigger] sums[t]).0 == left
                &&& sums[t].1 == wrap(minus(exact(node.parent[t]), exact(left)))
            },
{
    let parent: &Vec<GradientPairInt64> = &node.parent;
    let ibegin: u32 = ev.cut_ptrs[f];
    let iend: u32 = ev.cut_ptrs[f + 1];
    let n: u32 = iend - ibegin;
    let cells: usize = scan.prefix.len();
    let below: bool = cond < ibegin as i64;
    let ghost upto = if below {
        0
    } else {
        cond - ibegin + 1
    };
    let mut sums: Vec<(GradientPairInt64, GradientPairInt64)> = Vec::with_capacity(parent.len());
    let mut t: usize = 0;
    while t < parent.len()
        invariant
            cuts_tile(ev),
            f < ev.n_features,
            *parent == node.parent,
            scans(ev, hist@, node.hist_base as int, parent.len() as int, scan.prefix@),
            n == width(ev, f as int),
            n > 0,
            ibegin == ev.cut_ptrs[f as int],
            cells == scan.prefix.len(),
            cond < ibegin + n,
            below == (cond < ibegin),
            upto == (if below {
                0
            } else {
                cond - ibegin + 1
            }),
            t <= parent.len(),
            sums.len() == t,
            forall|u: int|
                0 <= u < t ==> {
                    let left = child_left(
                        ev,
                        hist@,
                        node.hist_base as int,
                        parent@,
                        u,
                        f as int,
                        cond as int,
                        default_left,
                    );
                    &&& (#[trigger] sums[u]).0 == left
                    &&& sums[u].1 == wrap(minus(exact(parent[u]), exact(left)))
                },
        decreases parent.len() - t,
    {
        let ghost start = target_start(ev, node.hist_base as int, t as int, f as int);
        proof {
            lemma_scan_cell(ev, parent.len() as int, t as int, f as int, n - 1);
            assert(scan.prefix[scan_cell(ev, t as int, f as int, n - 1)] == wrap(run_sum(hist@, start, n as int)));
            if !below {
                lemma_scan_cell(ev, parent.len() as int, t as int, f as int, upto - 1);
                assert(scan.prefix[scan_cell(ev, t as int, f as int, upto - 1)] == wrap(run_sum(hist@, start, upto)));
            }
        }
        let tbase: usize = t * ev.n_bins;
        let whole: GradientPairInt64 = scan.prefix[tbase + ibegin as usize + (n - 1) as usize];
        let head: GradientPairInt64 = if below {
            GradientPairInt64 { grad: 0, hess: 0 }
        } else {
            scan.prefix[tbase + cond as usize]
        };
        assert(head == wrap(run_sum(hist@, start, upto)));
        let left: GradientPairInt64 = if default_left {
            proof {
                lemma_suffix_from_prefix(hist@, start, n as int, upto);
                lemma_wrap_plus(run_sum(hist@, start, n as int), run_sum(hist@, start, upto));
                lemma_wrap_exact(parent[t as int]);
                lemma_wrap_plus(exact(parent[t as int]), run_sum(hist@, start + upto, n - upto));
            }
            parent[t].wrapping_sub(whole.wrapping_sub(head))
        } else if below {
            whole
        } else {
            head
        };
        sums.push((left, parent[t].wrapping_sub(left)));
        t += 1;
    }
    sums
}

/// The two children of a split share the parent between them.
pub proof fn lemma_children_add_up(parent: GradientPairInt64, left: GradientPairInt64)
    ensures
        wrap(plus(exact(left), exact(wrap(minus(exact(parent), exact(left)))))) == parent,
{
    let right = minus(exact(parent), exact(left));
    lemma_wrap_exact(left);
    lemma_wrap_exact(parent);
    lemma_wrap_plus(exact(left), right);
    assert(plus(exact(left), right) == exact(parent));
}

impl SplitEvaluatorGpu {
    /// Each target's child sums of a chosen split, read out of the prefix sums of the search
    /// that chose it.
    pub fn multi_child_sums(
        &self,
        hist: &[GradientPairInt64],
        scan: &MultiScan,
        node: &MultiNodeInput,
        f: usize,
        cond: i64,
        default_left: bool,
    ) -> (sums: Vec<(GradientPairInt64, GradientPairInt64)>)
        requires
            cuts_tile(self),
            f < self.n_features,
            width(self, f as int) > 0,
            cond < self.cut_ptrs[f + 1],
            scans(self, hist@, node.hist_base as int, node.parent.len() as int, scan.prefix@),
        ensures
            sums.len() == node.parent.len(),
            forall|t: int|
                0 <= t < sums.len() ==> {
                    let left = child_left(
                        self,
                        hist@,
                        node.hist_base as int,
                        node.parent@,
                        t,
                        f as int,
                        cond as int,
                        default_left,
                    );
                    &&& (#[trigger] sums[t]).0 == left
                    &&& sums[t].1 == wrap(minus(exact(node.parent[t]), exact(left)))
                },
    {
        multi_child_sums_kernel(self, hist, scan, node, f, cond, default_left)
    }

    /// The best split of every node of a batch, from the gains of the splits that
    /// [`evaluate_feature_multi_kernel`] lists for each of its features.
    pub fn evaluate_multi(&self, n_nodes: usize, batch: &[Vec<MultiTrial>], gains: &[Vec<u32>]) -> (bests: Vec<
        DeviceSplitCandidate,
    >)
        requires
            self.wf(),
            batch.len() == n_nodes * self.n_features,
            gains.len() == batch.len(),
            forall|k: int| 0 <= k < batch.len() ==> (#[trigger] batch[k]).len() == gains[k].len(),
            forall|i: int, f: int|
                0 <= i < n_nodes && 0 <= f < self.n_features ==> self.at_own_bins(
                    f,
                    shared_trials(batch[#[trigger] pair_index(i, self.n_features as int, f)]@),
                ),
        ensures
            bests.len() == n_nodes,
            exists|trials: Seq<Vec<Trial>>|
                {
                    &&& trials.len() == batch.len()
                    &&& forall|k: int| 0 <= k < batch.len() ==> (#[trigger] trials[k])@ == shared_trials(batch[k]@)
                    &&& forall|i: int| 0 <= i < n_nodes ==> #[trigger] self.best_of_node(i, trials, gains@, bests[i])
                },
    {
        let mut trials: Vec<Vec<Trial>> = Vec::with_capacity(batch.len());
        let mut k: usize = 0;
        while k < batch.len()
            invariant
                k <= batch.len(),
                trials.len() == k,
                forall|j: int| 0 <= j < k ==> (#[trigger] trials[j])@ == shared_trials(batch[j]@),
            decreases batch.len() - k,
        {
            let mut list: Vec<Trial> = Vec::with_capacity(batch[k].len());
            let mut j: usize = 0;
            while j < batch[k].len()
                invariant
                    k < batch.len(),
                    j <= batch[k as int].len(),
                    list.len() == j,
                    forall|x: int| 0 <= x < j ==> #[trigger] list[x] == batch[k as int][x].trial,
                decreases batch[k as int].len() - j,
            {
                list.push(batch[k][j].trial);
                j += 1;
            }
            assert(list@ =~= shared_trials(batch[k as int]@));
            trials.push(list);
            k += 1;
        }
        proof {
            assert forall|k: int| 0 <= k < trials.len() implies (#[trigger] trials[k]).len() == gains[k].len() by {
                assert(trials[k]@ == shared_trials(batch[k]@));
                assert(batch[k].len() == gains[k].len());
            }
            assert forall|i: int, f: int| 0 <= i < n_nodes && 0 <= f < self.n_features implies self.at_own_bins(
                f,
                trials[#[trigger] pair_index(i, self.n_features as int, f)]@,
            ) by {
                lemma_pair_index(i, self.n_features as int, n_nodes as int);
                let k = pair_index(i, self.n_features as int, f);
                assert(trials[k]@ == shared_trials(batch[k]@));
            }
        }
        let bests: Vec<DeviceSplitCandidate> = self.evaluate(n_nodes, trials.as_slice(), gains);
        assert(forall|i: int| 0 <= i < n_nodes ==> self.best_of_node(i, trials@, gains@, #[trigger] bests[i]));
        bests
    }
}

/// The shared decisions of some splits.
pub open spec fn shared_trials(trials: Seq<MultiTrial>) -> Seq<Trial> {
    Seq::new(trials.len(), |k: int| trials[k].trial)
}

/// Where a target has no missing rows, the split before a bin and the split after the bin before it
/// put the same rows on the left.
pub proof fn lemma_target_left_agrees(
    ev: &SplitEvaluatorGpu,
    hist: Seq<GradientPairInt64>,
    hist_base: int,
    parent: Seq<GradientPairInt64>,
    t: int,
    f: int,
    i: int,
)
    requires
        0 < i < width(ev, f),
        wrap(run_sum(hist, target_start(ev, hist_base, t, f), width(ev, f))) == parent[t],
    ensures
        target_left(ev, hist, hist_base, parent, t, f, i, true) == target_left(
            ev,
            hist,
            hist_base,
            parent,
            t,
            f,
            i - 1,
            false,
        ),
{
    let start = target_start(ev, hist_base, t, f);
    let n = width(ev, f);
    let whole = run_sum(hist, start, n);
    let head = run_sum(hist, start, i);
    let tail = run_sum(hist, start + i, n - i);
    lemma_suffix_from_prefix(hist, start, n, i);
    assert(minus(whole, tail) == head);
    let back = crate::gpu::pairs::PairSum { grad: -tail.grad, hess: -tail.hess };
    lemma_wrap_plus(whole, back);
    assert(plus(whole, back) == head);
    assert(plus(exact(wrap(whole)), back) == minus(exact(parent[t]), tail));
}

/// A child's sums are those of the split that was searched: the bins up to the threshold's go left,
/// and the missing rows with them where missing values do.
pub proof fn lemma_child_as_searched(
    ev: &SplitEvaluatorGpu,
    hist: Seq<GradientPairInt64>,
    hist_base: int,
    parent: Seq<GradientPairInt64>,
    t: int,
    f: int,
    i: int,
)
    requires
        0 <= i < width(ev, f),
    ensures
        child_left(ev, hist, hist_base, parent, t, f, ev.cut_ptrs[f] + i, false) == target_left(
            ev,
            hist,
            hist_base,
            parent,
            t,
            f,
            i,
            false,
        ),
        i > 0 ==> child_left(ev, hist, hist_base, parent, t, f, ev.cut_ptrs[f] + i - 1, true) == target_left(
            ev,
            hist,
            hist_base,
            parent,
            t,
            f,
            i,
            true,
        ),
        child_left(ev, hist, hist_base, parent, t, f, ev.cut_ptrs[f] - 1, true) == target_left(
            ev,
            hist,
            hist_base,
            parent,
            t,
            f,
            0,
            true,
        ),
{
}

/// The forward split after a bin has that bin and all before it on the left; one bin further, that
/// bin joins them.
pub proof fn lemma_target_left_grows(
    ev: &SplitEvaluatorGpu,
    hist: Seq<GradientPairInt64>,
    hist_base: int,
    parent: Seq<GradientPairInt64>,
    t: int,
    f: int,
    i: int,
)
    requires
        0 <= i,
    ensures
        target_left(ev, hist, hist_base, parent, t, f, 0, false) == hist[hist_base + t * ev.n_bins + ev.cut_ptrs[f]],
        target_left(ev, hist, hist_base, parent, t, f, i + 1, false) == wrap(
            plus(
                exact(target_left(ev, hist, hist_base, parent, t, f, i, false)),
                exact(hist[hist_base + t * ev.n_bins + ev.cut_ptrs[f] + i + 1]),
            ),
        ),
{
    let start = target_start(ev, hist_base, t, f);
    crate::gpu::evaluate_splits::lemma_run_grows(hist, start, 0);
    crate::gpu::evaluate_splits::lemma_run_grows(hist, start, i + 1);
    let first = hist[start];
    let next = exact(hist[start + i + 1]);
    assert(run_sum(hist, start, 1) == exact(first));
    lemma_wrap_exact(first);
    lemma_wrap_plus(run_sum(hist, start, i + 1), next);
    assert(run_sum(hist, start, i + 2) == plus(run_sum(hist, start, i + 1), next));
}

/// A scan holds, for every target and feature, the running sums of its bins: the first bin's own,
/// and one bin further that bin's more.
pub proof fn lemma_scans(
    ev: &SplitEvaluatorGpu,
    hist: Seq<GradientPairInt64>,
    hist_base: int,
    n_targets: int,
    prefix: Seq<GradientPairInt64>,
    t: int,
    f: int,
    i: int,
)
    requires
        scans(ev, hist, hist_base, n_targets, prefix),
        0 <= t < n_targets,
        0 <= f < ev.n_features,
        0 <= i,
        i + 1 < width(ev, f),
    ensures
        prefix.len() == n_targets * ev.n_bins,
        prefix[t * ev.n_bins + ev.cut_ptrs[f]] == hist[hist_base + t * ev.n_bins + ev.cut_ptrs[f]],
        prefix[t * ev.n_bins + ev.cut_ptrs[f] + i + 1] == wrap(
            plus(
                exact(prefix[t * ev.n_bins + ev.cut_ptrs[f] + i]),
                exact(hist[hist_base + t * ev.n_bins + ev.cut_ptrs[f] + i + 1]),
            ),
        ),
{
    let none: Seq<GradientPairInt64> = Seq::empty();
    lemma_target_left_grows(ev, hist, hist_base, none, t, f, i);
    assert(prefix[scan_cell(ev, t, f, 0)] == wrap(run_sum(hist, target_start(ev, hist_base, t, f), 1)));
    assert(prefix[scan_cell(ev, t, f, i)] == wrap(run_sum(hist, target_start(ev, hist_base, t, f), i + 1)));
    assert(prefix[scan_cell(ev, t, f, i + 1)] == wrap(run_sum(hist, target_start(ev, hist_base, t, f), i + 2)));
}

} // verus!
