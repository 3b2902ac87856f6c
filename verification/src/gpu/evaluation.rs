//! The split search of a batch of nodes.
//!
//! A batch shares one histogram buffer. [`GpuHistGrower::search`] lists the splits that are
//! worth scoring, the caller scores them, [`GpuHistGrower::evaluate`] picks each node's best,
//! and [`GpuHistGrower::take_splits`] hands the nodes back with their splits. A vector-leaf
//! tree goes by [`GpuHistGrower::search_multi`] and [`GpuHistGrower::evaluate_multi`].

use vstd::prelude::*;

use crate::float_bits::{is_nan_spec, lt_spec, rank};
use crate::gpu::categorical::{
    best_upto, is_finite, lemma_merged_gains_most, merge_winners, merged, CatWinner,
};
use crate::gpu::ellpack::cell_at;
use crate::gpu::evaluate_multi::{
    child_left, cuts_tile, evaluate_feature_multi_kernel, is_multi_trial, lists_multi, prefix_scan_kernel,
    scans, shared_trials, width, MultiNodeInput, MultiScan, MultiTrial,
};
use crate::gpu::evaluate_splits::{
    lemma_best_of_node, lemma_pair_index, pair_index, wins_features, DeviceSplitCandidate, NodeInput, SplitEvaluatorGpu, Trial,
    DEFAULT_LEFT_BIT,
};
use crate::gpu::expand::{ExpandEntry, GradStats};
use crate::gpu::grower::{categorical_of, numeric_among, GpuHistGrower};
use crate::gpu::growth::{entry_segs, TreeGrowth};
use crate::gpu::pairs::{exact, minus, wrap};
use crate::gpu::GradientPairInt64;

verus! {

/// What a batch of nodes is searched for.
pub struct Search {
    /// The splits worth scoring, one list per node and feature.
    pub batch: Vec<Vec<Trial>>,
    /// The categorical features that each node may split on, which are scored apart.
    pub categorical: Vec<Vec<u32>>,
}

/// The split found for a node.
#[derive(Clone, Debug)]
pub struct Found {
    pub split: DeviceSplitCandidate,
    /// The categories that go right. Empty unless the split names categories.
    pub cat_bits: Vec<u32>,
    /// The children's sums, one entry per target. Empty outside a vector-leaf tree.
    pub left_target_sums: Vec<GradientPairInt64>,
    pub right_target_sums: Vec<GradientPairInt64>,
}

/// The node as the split search needs it.
pub open spec fn input_of(node: ExpandEntry, bounds: (u32, u32)) -> NodeInput {
    NodeInput {
        hist_base: node.slot,
        parent_grad: node.sum.grad,
        parent_hess: node.sum.hess,
        root_gain: node.root_gain,
        lower: bounds.0,
        upper: bounds.1,
    }
}

impl GpuHistGrower {
    /// The nodes share a histogram buffer, and their histograms lie in it.
    pub open spec fn share_buffer(&self, nodes: Seq<ExpandEntry>) -> bool {
        forall|i: int|
            0 <= i < nodes.len() ==> (#[trigger] nodes[i]).hist@ == nodes[0].hist@ && nodes[i].slot + self.n_targets
                * self.n_bins <= nodes[i].hist@.len()
    }

    /// Every node has a list of the features it may split on.
    pub open spec fn lists_features(&self, allowed: Seq<Vec<u32>>) -> bool {
        forall|i: int, k: int|
            0 <= i < allowed.len() && 0 <= k < allowed[i].len() ==> #[trigger] allowed[i][k] < self.n_features
    }

    /// Feature `f` is not one that the search scans for a node with these features.
    pub open spec fn passed_over(&self, features: Seq<u32>, f: int) -> bool {
        !numeric_among(&self.cuts, features, f, features.len() as int)
    }

    /// List the splits of a batch that are worth scoring. A node's numeric features are
    /// scanned; its categorical ones are listed, to be scored apart.
    pub fn search(&self, nodes: &[ExpandEntry], allowed: &[Vec<u32>], bounds: &[(u32, u32)]) -> (search: Search)
        requires
            self.wf(),
            self.searches(),
            self.share_buffer(nodes@),
            self.lists_features(allowed@),
            allowed.len() == nodes.len(),
            bounds.len() == nodes.len(),
            nodes.len() * self.n_features <= usize::MAX,
        ensures
            search.batch.len() == nodes.len() * self.n_features,
            forall|i: int, f: int|
                0 <= i < nodes.len() && 0 <= f < self.n_features ==> {
                    let at = #[trigger] pair_index(i, self.n_features as int, f);
                    &&& 0 <= at < search.batch.len()
                    &&& search.batch[at]@ == self.split_eval.trials_spec(
                        nodes[i].hist@,
                        input_of(nodes[i], bounds[i]),
                        f,
                        self.passed_over(allowed[i]@, f),
                    )
                    &&& self.split_eval.at_own_bins(f, search.batch[at]@)
                },
            search.categorical.len() == nodes.len(),
            forall|i: int|
                0 <= i < nodes.len() ==> (#[trigger] search.categorical[i])@ == categorical_of(
                    &self.cuts,
                    allowed[i]@,
                    allowed[i].len() as int,
                ),
    {
        let (mask, categorical) = self.feature_mask(allowed);
        if nodes.len() == 0 {
            assert(0 * self.n_features == 0) by (nonlinear_arith);
            return Search { batch: Vec::new(), categorical };
        }
        let inputs: Vec<NodeInput> = GpuHistGrower::node_inputs(nodes, bounds);
        proof {
            self.lemma_first_target();
            assert forall|i: int| 0 <= i < inputs.len() implies (#[trigger] inputs[i]).hist_base + self.n_bins
                <= nodes[0].hist@.len() by {
                assert(nodes[i].hist@ == nodes[0].hist@);
            }
        }
        let hist: &Vec<GradientPairInt64> = &*nodes[0].hist;
        let batch: Vec<Vec<Trial>> = self.split_eval.batch_trials(hist.as_slice(), inputs.as_slice(), mask.as_slice());
        proof {
            assert forall|i: int, f: int| 0 <= i < nodes.len() && 0 <= f < self.n_features implies {
                let at = #[trigger] pair_index(i, self.n_features as int, f);
                &&& 0 <= at < batch.len()
                &&& batch[at]@ == self.split_eval.trials_spec(
                    nodes[i].hist@,
                    input_of(nodes[i], bounds[i]),
                    f,
                    self.passed_over(allowed[i]@, f),
                )
                &&& self.split_eval.at_own_bins(f, batch[at]@)
            } by {
                assert(nodes[i].hist@ == nodes[0].hist@);
                assert(inputs[i] == input_of(nodes[i], bounds[i]));
                assert(pair_index(i, self.n_features as int, f) == cell_at(self.n_features as int, i, f));
            }
        }
        Search { batch, categorical }
    }

    /// A node has one histogram at least.
    proof fn lemma_first_target(&self)
        requires
            self.wf(),
        ensures
            self.n_bins <= self.n_targets * self.n_bins,
    {
        assert(self.n_bins <= self.n_targets * self.n_bins) by (nonlinear_arith)
            requires
                1 <= self.n_targets,
                0 <= self.n_bins,
        ;
    }

    /// `found` is the best split of node `i`: the best of its numeric features, or of the
    /// categorical ones that beat it.
    pub open spec fn found_at(
        &self,
        i: int,
        batch: Seq<Vec<Trial>>,
        gains: Seq<Vec<u32>>,
        winners: Seq<CatWinner>,
        found: Found,
    ) -> bool {
        &&& exists|numeric: DeviceSplitCandidate|
            #[trigger] self.split_eval.best_of_node(i, batch, gains, numeric) && merged(
                numeric,
                winners,
                found.split,
                found.cat_bits@,
            )
        &&& found.left_target_sums.len() == 0
        &&& found.right_target_sums.len() == 0
    }

    /// The split can be applied: it names a feature, and where it names categories its set is as
    /// wide as the feature's bins.
    pub open spec fn applicable(&self, found: Found) -> bool {
        let f = found.split.feature() as int;
        &&& f < self.n_features
        &&& found.split.is_cat && found.cat_bits.len() > 0 ==> self.cuts.width(f) <= 32 * found.cat_bits.len()
    }

    /// Pick each node's best split, from the gains of the splits that [`Self::search`] listed
    /// and the winners among its categorical features.
    pub fn evaluate(&self, n_nodes: usize, search: &Search, gains: &[Vec<u32>], winners: &[Vec<CatWinner>]) -> (found: Vec<
        Found,
    >)
        requires
            self.searches(),
            search.batch.len() == n_nodes * self.n_features,
            gains.len() == search.batch.len(),
            forall|k: int| 0 <= k < search.batch.len() ==> (#[trigger] search.batch[k]).len() == gains[k].len(),
            forall|i: int, f: int|
                0 <= i < n_nodes && 0 <= f < self.n_features ==> self.split_eval.at_own_bins(
                    f,
                    search.batch[#[trigger] pair_index(i, self.n_features as int, f)]@,
                ),
            winners.len() == n_nodes,
            forall|i: int, k: int|
                0 <= i < n_nodes && 0 <= k < winners[i].len() ==> (#[trigger] winners[i][k]).fidx < self.n_features && (
                winners[i][k].bits.len() > 0 ==> self.cuts.width(winners[i][k].fidx as int) <= 32
                    * winners[i][k].bits.len()),
            self.n_features >= 1,
        ensures
            found.len() == n_nodes,
            forall|i: int|
                0 <= i < n_nodes ==> self.found_at(i, search.batch@, gains@, winners[i]@, #[trigger] found[i]),
            forall|i: int| 0 <= i < n_nodes ==> self.applicable(#[trigger] found[i]),
    {
        let bests: Vec<DeviceSplitCandidate> = self.split_eval.evaluate(n_nodes, search.batch.as_slice(), gains);
        let mut found: Vec<Found> = Vec::with_capacity(n_nodes);
        let mut i: usize = 0;
        while i < n_nodes
            invariant
                self.searches(),
                winners.len() == n_nodes,
                forall|i: int, k: int|
                    0 <= i < n_nodes && 0 <= k < winners[i].len() ==> (#[trigger] winners[i][k]).fidx < self.n_features
                        && (winners[i][k].bits.len() > 0 ==> self.cuts.width(winners[i][k].fidx as int) <= 32
                        * winners[i][k].bits.len()),
                self.n_features >= 1,
                bests.len() == n_nodes,
                forall|k: int|
                    0 <= k < n_nodes ==> self.split_eval.best_of_node(k, search.batch@, gains@, #[trigger] bests[k]),
                i <= n_nodes,
                found.len() == i,
                forall|k: int|
                    0 <= k < i ==> self.found_at(k, search.batch@, gains@, winners[k]@, #[trigger] found[k]),
                forall|k: int| 0 <= k < i ==> self.applicable(#[trigger] found[k]),
            decreases n_nodes - i,
        {
            assert forall|k: int| 0 <= k < winners[i as int].len() implies (#[trigger] winners[i as int][k]).fidx
                < DEFAULT_LEFT_BIT by {}
            let (split, cat_bits) = merge_winners(bests[i], winners[i].as_slice());
            let one = Found { split, cat_bits, left_target_sums: Vec::new(), right_target_sums: Vec::new() };
            assert(self.split_eval.best_of_node(i as int, search.batch@, gains@, bests[i as int]));
            assert(self.found_at(i as int, search.batch@, gains@, winners[i as int]@, one));
            proof {
                lemma_best_feature(&self.split_eval, i as int, search.batch@, gains@, bests[i as int]);
                match best_upto(bests[i as int], winners[i as int]@, winners[i as int].len() as int).2 {
                    Some(k) => assert(winners[i as int][k].fidx < self.n_features),
                    None => assert(!bests[i as int].is_cat || one.cat_bits.len() == 0),
                }
            }
            found.push(one);
            i += 1;
        }
        found
    }

    /// The node with the split that was found for it.
    pub open spec fn given_split(node: ExpandEntry, found: Found, stats: (GradStats, GradStats), e: ExpandEntry) -> bool {
        &&& e.cat_bits@ == found.cat_bits@
        &&& e.left_target_sums@ == found.left_target_sums@
        &&& e.right_target_sums@ == found.right_target_sums@
        &&& e == (ExpandEntry {
            split: found.split,
            left_stats: stats.0,
            right_stats: stats.1,
            cat_bits: e.cat_bits,
            left_target_sums: e.left_target_sums,
            right_target_sums: e.right_target_sums,
            ..node
        })
    }

    /// A split does not move a node: its rows and its histogram are where they were.
    proof fn lemma_splits_keep(&self, growth: &TreeGrowth, nodes: Seq<ExpandEntry>, scored: Seq<ExpandEntry>)
        requires
            growth.wf(self, nodes),
            scored.len() == nodes.len(),
            forall|i: int|
                0 <= i < nodes.len() ==> (#[trigger] scored[i]).seg_begin == nodes[i].seg_begin && scored[i].seg_len
                    == nodes[i].seg_len && scored[i].hist == nodes[i].hist && scored[i].slot == nodes[i].slot
                    && scored[i].depth == nodes[i].depth,
        ensures
            growth.wf(self, scored),
    {
        assert(entry_segs(scored) =~= entry_segs(nodes));
        assert forall|k: int| 0 <= k < scored.len() implies self.node_ok(
            growth.gpairs@,
            &growth.partitioner,
            #[trigger] scored[k],
        ) by {
            assert(self.node_ok(growth.gpairs@, &growth.partitioner, nodes[k]));
        }
        if growth.queue.by_level() {
            let was = growth.queue.entries() + nodes;
            let now = growth.queue.entries() + scored;
            assert forall|a: int, b: int| 0 <= a < now.len() && 0 <= b < now.len() implies (#[trigger] now[a]).depth == (
            #[trigger] now[b]).depth && now[a].hist@ == now[b].hist@ by {
                assert(was[a].depth == was[b].depth && was[a].hist@ == was[b].hist@);
            }
        }
    }

    /// Hand the nodes back with the splits that were found for them. `stats` holds the
    /// decoded sums of each split's children.
    pub fn take_splits(
        &self,
        growth: &TreeGrowth,
        nodes: Vec<ExpandEntry>,
        found: &[Found],
        stats: &[(GradStats, GradStats)],
    ) -> (scored: Vec<ExpandEntry>)
        requires
            growth.wf(self, nodes@),
            found.len() == nodes.len(),
            stats.len() == nodes.len(),
        ensures
            growth.wf(self, scored@),
            scored.len() == nodes.len(),
            forall|i: int|
                0 <= i < nodes.len() ==> GpuHistGrower::given_split(nodes[i], found[i], stats[i], #[trigger] scored[i]),
            forall|i: int| 0 <= i < nodes.len() && self.applicable(found[i]) ==> self.splittable(&#[trigger] scored[i]),
    {
        let ghost all = nodes@;
        let mut rest: Vec<ExpandEntry> = nodes;
        let mut turned: Vec<ExpandEntry> = Vec::with_capacity(found.len());
        // Taken from the back, and turned round again afterwards.
        while rest.len() > 0
            invariant
                found.len() == all.len(),
                stats.len() == all.len(),
                rest.len() + turned.len() == all.len(),
                forall|k: int| 0 <= k < rest.len() ==> rest[k] == all[k],
                forall|k: int|
                    0 <= k < turned.len() ==> GpuHistGrower::given_split(
                        all[all.len() - 1 - k],
                        found[all.len() - 1 - k],
                        stats[all.len() - 1 - k],
                        #[trigger] turned[k],
                    ),
            decreases rest.len(),
        {
            match rest.pop() {
                Some(e) => {
                    let i: usize = rest.len();
                    let cat_bits: Vec<u32> = found[i].cat_bits.clone();
                    let left: Vec<GradientPairInt64> = found[i].left_target_sums.clone();
                    let right: Vec<GradientPairInt64> = found[i].right_target_sums.clone();
                    assert(cat_bits@ =~= found[i as int].cat_bits@);
                    assert(left@ =~= found[i as int].left_target_sums@);
                    assert(right@ =~= found[i as int].right_target_sums@);
                    turned.push(e.scored(found[i].split, stats[i].0, stats[i].1, cat_bits, left, right));
                },
                None => {},
            }
        }
        let mut scored: Vec<ExpandEntry> = Vec::with_capacity(found.len());
        while turned.len() > 0
            invariant
                turned.len() + scored.len() == all.len(),
                forall|k: int|
                    0 <= k < turned.len() ==> GpuHistGrower::given_split(
                        all[all.len() - 1 - k],
                        found[all.len() - 1 - k],
                        stats[all.len() - 1 - k],
                        #[trigger] turned[k],
                    ),
                forall|k: int|
                    0 <= k < scored.len() ==> GpuHistGrower::given_split(all[k], found[k], stats[k], #[trigger] scored[k]),
            decreases turned.len(),
        {
            let ghost at = turned.len() - 1;
            assert(GpuHistGrower::given_split(
                all[all.len() - 1 - at],
                found[all.len() - 1 - at],
                stats[all.len() - 1 - at],
                turned[at],
            ));
            match turned.pop() {
                Some(e) => scored.push(e),
                None => {},
            }
        }
        proof {
            self.lemma_splits_keep(growth, all, scored@);
        }
        scored
    }
}

/// What a batch of nodes of a vector-leaf tree is searched for.
pub struct MultiSearch {
    pub inputs: Vec<MultiNodeInput>,
    /// Each node's prefix sums.
    pub scans: Vec<MultiScan>,
    /// The splits, one list per node and feature.
    pub batch: Vec<Vec<MultiTrial>>,
}

/// The node as the vector-leaf search needs it.
pub open spec fn multi_input_of(input: MultiNodeInput, node: ExpandEntry, bounds: (u32, u32)) -> bool {
    &&& input.hist_base == node.slot
    &&& input.root_gain == node.root_gain
    &&& input.lower == bounds.0
    &&& input.upper == bounds.1
    &&& input.parent@ == node.target_sums@
}

/// A node's best split names one of the features.
proof fn lemma_best_feature(
    ev: &SplitEvaluatorGpu,
    i: int,
    batch: Seq<Vec<Trial>>,
    gains: Seq<Vec<u32>>,
    best: DeviceSplitCandidate,
)
    requires
        ev.wf(),
        ev.n_features >= 1,
        ev.best_of_node(i, batch, gains, best),
    ensures
        best.feature() < ev.n_features,
{
    let (candidates, w) = choose|candidates: Seq<DeviceSplitCandidate>, w: Option<int>|
        {
            &&& candidates.len() == ev.n_features
            &&& forall|f: int|
                0 <= f < ev.n_features ==> ev.candidate_spec(
                    f,
                    batch[pair_index(i, ev.n_features as int, f)]@,
                    gains[pair_index(i, ev.n_features as int, f)]@,
                    #[trigger] candidates[f],
                )
            &&& #[trigger] wins_features(candidates, w)
            &&& best == (match w {
                None => (DeviceSplitCandidate {
                    loss_chg: 0,
                    sindex: 0,
                    split_value: 0,
                    left_grad: 0,
                    left_hess: 0,
                    is_cat: false,
                }),
                Some(k) => (DeviceSplitCandidate { is_cat: false, ..candidates[k] }),
            })
        };
    match w {
        None => {},
        Some(k) => {
            assert(ev.candidate_spec(
                k,
                batch[pair_index(i, ev.n_features as int, k)]@,
                gains[pair_index(i, ev.n_features as int, k)]@,
                candidates[k],
            ));
        },
    }
}

impl GpuHistGrower {
    /// The nodes carry a sum per target.
    pub open spec fn carry_targets(&self, nodes: Seq<ExpandEntry>) -> bool {
        forall|i: int| 0 <= i < nodes.len() ==> (#[trigger] nodes[i]).target_sums.len() == self.n_targets
    }

    proof fn lemma_search_tiles(&self)
        requires
            self.wf(),
            self.searches(),
        ensures
            cuts_tile(&self.split_eval),
            forall|f: int| 0 <= f < self.n_features ==> #[trigger] width(&self.split_eval, f) > 0,
    {
        let ev = &self.split_eval;
        assert forall|f: int, g: int| 0 <= f <= g <= ev.n_features implies #[trigger] ev.cut_ptrs[f]
            <= #[trigger] ev.cut_ptrs[g] by {
            if f < g {
                assert(self.cuts.cut_ptrs[f] < self.cuts.cut_ptrs[g]);
            }
        }
        assert forall|f: int| 0 <= f < self.n_features implies #[trigger] width(ev, f) > 0 by {
            assert(self.cuts.cut_ptrs[f] < self.cuts.cut_ptrs[f + 1]);
        }
    }

    /// What [`Self::search_multi`] finds for a batch.
    pub open spec fn searched_multi(
        &self,
        nodes: Seq<ExpandEntry>,
        allowed: Seq<Vec<u32>>,
        bounds: Seq<(u32, u32)>,
        search: &MultiSearch,
        n: int,
    ) -> bool {
        let ev = &self.split_eval;
        &&& search.inputs.len() == n
        &&& search.scans.len() == n
        &&& search.batch.len() == n * self.n_features
        &&& forall|i: int| 0 <= i < n ==> multi_input_of(#[trigger] search.inputs[i], nodes[i], bounds[i])
        &&& forall|i: int|
            0 <= i < n ==> scans(
                ev,
                nodes[i].hist@,
                nodes[i].slot as int,
                self.n_targets as int,
                (#[trigger] search.scans[i]).prefix@,
            )
        &&& forall|i: int, f: int|
            0 <= i < n && 0 <= f < self.n_features ==> {
                let at = #[trigger] pair_index(i, self.n_features as int, f);
                &&& 0 <= at < search.batch.len()
                &&& lists_multi(
                    ev,
                    nodes[i].hist@,
                    nodes[i].slot as int,
                    nodes[i].target_sums@,
                    f,
                    self.passed_over(allowed[i]@, f),
                    search.batch[at]@,
                )
            }
    }

    /// Lay down the prefix sums of a batch of vector-leaf nodes, and list their splits.
    pub fn search_multi(&self, nodes: &[ExpandEntry], allowed: &[Vec<u32>], bounds: &[(u32, u32)]) -> (search: MultiSearch)
        requires
            self.wf(),
            self.searches(),
            self.share_buffer(nodes@),
            self.carry_targets(nodes@),
            self.lists_features(allowed@),
            allowed.len() == nodes.len(),
            bounds.len() == nodes.len(),
            nodes.len() * self.n_features <= usize::MAX,
        ensures
            self.searched_multi(nodes@, allowed@, bounds@, &search, nodes.len() as int),
            self.fits_nodes(nodes@, &search),
    {
        let ghost nf = self.n_features as int;
        let ev: &SplitEvaluatorGpu = &self.split_eval;
        let (mask, _categorical) = self.feature_mask(allowed);
        let mut search = MultiSearch { inputs: Vec::new(), scans: Vec::new(), batch: Vec::new() };
        let mut i: usize = 0;
        proof {
            self.lemma_search_tiles();
            assert(0 * nf == 0) by (nonlinear_arith);
        }
        while i < nodes.len()
            invariant
                self.wf(),
                self.searches(),
                self.share_buffer(nodes@),
                self.carry_targets(nodes@),
                *ev == self.split_eval,
                cuts_tile(ev),
                nf == self.n_features,
                allowed.len() == nodes.len(),
                bounds.len() == nodes.len(),
                mask.len() == nodes.len() * nf,
                forall|i: int, f: int|
                    0 <= i < allowed.len() && 0 <= f < nf ==> #[trigger] mask[cell_at(nf, i, f)] == (if numeric_among(
                        &self.cuts,
                        allowed[i]@,
                        f,
                        allowed[i].len() as int,
                    ) {
                        1u32
                    } else {
                        0u32
                    }),
                i <= nodes.len(),
                self.searched_multi(nodes@, allowed@, bounds@, &search, i as int),
            decreases nodes.len() - i,
        {
            let node: &ExpandEntry = &nodes[i];
            let hist: &Vec<GradientPairInt64> = &*node.hist;
            proof {
                assert(nodes[i as int].hist@ == nodes[0].hist@);
            }
            let scan: MultiScan = prefix_scan_kernel(ev, hist.as_slice(), node.slot as usize, self.n_targets);
            let (lower, upper) = bounds[i];
            let parent: Vec<GradientPairInt64> = node.target_sums.clone();
            assert(parent@ =~= node.target_sums@);
            let input = MultiNodeInput { hist_base: node.slot, root_gain: node.root_gain, lower, upper, parent };
            proof {
                lemma_pair_index(i as int, nf, nodes.len() as int);
                assert((i + 1) * nf == i * nf + nf) by (nonlinear_arith);
            }
            let ghost before = search;
            let mut f: usize = 0;
            while f < self.n_features
                invariant
                    self.searches(),
                    cuts_tile(ev),
                    *ev == self.split_eval,
                    nf == self.n_features,
                    i < nodes.len(),
                    *node == nodes[i as int],
                    hist@ == node.hist@,
                    0 <= i * nf,
                    i * nf + nf <= nodes.len() * nf,
                    mask.len() == nodes.len() * nf,
                    allowed.len() == nodes.len(),
                    multi_input_of(input, *node, bounds[i as int]),
                    node.target_sums.len() == self.n_targets,
                    scans(ev, hist@, node.slot as int, self.n_targets as int, scan.prefix@),
                    forall|i: int, f: int|
                        0 <= i < allowed.len() && 0 <= f < nf ==> #[trigger] mask[cell_at(nf, i, f)] == (
                        if numeric_among(&self.cuts, allowed[i]@, f, allowed[i].len() as int) {
                            1u32
                        } else {
                            0u32
                        }),
                    f <= nf,
                    before.batch.len() == i * nf,
                    search.inputs == before.inputs,
                    search.scans == before.scans,
                    search.batch.len() == i * nf + f,
                    forall|k: int| 0 <= k < before.batch.len() ==> search.batch[k] == before.batch[k],
                    forall|g: int|
                        0 <= g < f ==> lists_multi(
                            ev,
                            node.hist@,
                            node.slot as int,
                            node.target_sums@,
                            g,
                            self.passed_over(allowed[i as int]@, g),
                            (#[trigger] search.batch[pair_index(i as int, nf, g)])@,
                        ),
                decreases nf - f,
            {
                assert(mask[cell_at(nf, i as int, f as int)] == mask[i * nf + f]);
                let masked: bool = mask[i * self.n_features + f] == 0;
                let ghost was = search.batch@;
                let trials: Vec<MultiTrial> = evaluate_feature_multi_kernel(
                    ev,
                    hist.as_slice(),
                    &scan,
                    &input,
                    f,
                    masked,
                );
                search.batch.push(trials);
                assert forall|g: int| 0 <= g < f + 1 implies lists_multi(
                    ev,
                    node.hist@,
                    node.slot as int,
                    node.target_sums@,
                    g,
                    self.passed_over(allowed[i as int]@, g),
                    (#[trigger] search.batch[pair_index(i as int, nf, g)])@,
                ) by {
                    if g < f {
                        assert(search.batch[pair_index(i as int, nf, g)] == was[pair_index(i as int, nf, g)]);
                    }
                }
                f += 1;
            }
            search.inputs.push(input);
            search.scans.push(scan);
            proof {
                assert forall|k: int, g: int| 0 <= k < i + 1 && 0 <= g < nf implies {
                    let at = #[trigger] pair_index(k, nf, g);
                    &&& 0 <= at < search.batch.len()
                    &&& lists_multi(
                        ev,
                        nodes[k].hist@,
                        nodes[k].slot as int,
                        nodes[k].target_sums@,
                        g,
                        self.passed_over(allowed[k]@, g),
                        search.batch[at]@,
                    )
                } by {
                    if k < i {
                        lemma_pair_index(k, nf, i as int);
                        assert(search.batch[pair_index(k, nf, g)] == before.batch[pair_index(k, nf, g)]);
                    }
                }
                assert forall|k: int| 0 <= k < i + 1 implies scans(
                    ev,
                    nodes[k].hist@,
                    nodes[k].slot as int,
                    self.n_targets as int,
                    (#[trigger] search.scans[k]).prefix@,
                ) by {
                    if k < i {
                        assert(search.scans[k] == before.scans[k]);
                    }
                }
                assert forall|k: int| 0 <= k < i + 1 implies multi_input_of(
                    #[trigger] search.inputs[k],
                    nodes[k],
                    bounds[k],
                ) by {
                    if k < i {
                        assert(search.inputs[k] == before.inputs[k]);
                    }
                }
            }
            i += 1;
        }
        proof {
            self.lemma_fits(nodes@, allowed@, bounds@, &search);
        }
        search
    }
}

/// The lists of a vector-leaf search stand at their features' own bins.
proof fn lemma_multi_bins(
    ev: &SplitEvaluatorGpu,
    hist: Seq<GradientPairInt64>,
    hist_base: int,
    parent: Seq<GradientPairInt64>,
    f: int,
    masked: bool,
    trials: Seq<MultiTrial>,
)
    requires
        ev.wf(),
        0 <= f < ev.n_features,
        lists_multi(ev, hist, hist_base, parent, f, masked, trials),
    ensures
        ev.at_own_bins(f, shared_trials(trials)),
{
    let n = width(ev, f);
    assert(ev.cut_ptrs[f] <= ev.cut_ptrs[f + 1]);
    assert forall|k: int| 0 <= k < shared_trials(trials).len() implies ev.cut_ptrs[f] <= (#[trigger] shared_trials(
        trials,
    )[k]).bin < ev.cut_ptrs[f + 1] by {
        if k < n {
            assert(is_multi_trial(ev, hist, hist_base, parent, f, k, false, trials[k]));
        } else {
            assert(is_multi_trial(ev, hist, hist_base, parent, f, 2 * n - 1 - k, true, trials[k]));
        }
    }
}

impl GpuHistGrower {
    /// The child sums of a split of a vector-leaf node: those of the rows on either side of
    /// the condition that its threshold names.
    pub open spec fn target_sums_of(&self, node: ExpandEntry, found: Found) -> bool {
        exists|cond: int|
            #[trigger] self.cuts.condition_of(found.split.feature() as int, found.split.split_value, cond)
                && self.sums_at(node, found, cond)
    }

    /// The child sums of a split at the global bin `cond`.
    pub open spec fn sums_at(&self, node: ExpandEntry, found: Found, cond: int) -> bool {
        &&& found.left_target_sums.len() == self.n_targets
        &&& found.right_target_sums.len() == self.n_targets
        &&& forall|t: int|
            0 <= t < self.n_targets ==> #[trigger] found.left_target_sums[t] == child_left(
                &self.split_eval,
                node.hist@,
                node.slot as int,
                node.target_sums@,
                t,
                found.split.feature() as int,
                cond,
                found.split.missing_left(),
            )
        &&& forall|t: int|
            0 <= t < self.n_targets ==> #[trigger] found.right_target_sums[t] == wrap(
                minus(exact(node.target_sums[t]), exact(found.left_target_sums[t])),
            )
    }

    /// The shared decisions of a vector-leaf search.
    pub open spec fn shares(trials: Seq<Vec<Trial>>, batch: Seq<Vec<MultiTrial>>) -> bool {
        &&& trials.len() == batch.len()
        &&& forall|k: int| 0 <= k < batch.len() ==> (#[trigger] trials[k])@ == shared_trials(batch[k]@)
    }

    /// A search that fits the nodes: their sums, their prefix sums, and lists that stand at
    /// their features' own bins.
    pub open spec fn fits_nodes(&self, nodes: Seq<ExpandEntry>, search: &MultiSearch) -> bool {
        let ev = &self.split_eval;
        &&& search.inputs.len() == nodes.len()
        &&& search.scans.len() == nodes.len()
        &&& search.batch.len() == nodes.len() * self.n_features
        &&& forall|i: int|
            0 <= i < nodes.len() ==> (#[trigger] search.inputs[i]).hist_base == nodes[i].slot && search.inputs[i].parent@
                == nodes[i].target_sums@
        &&& forall|i: int|
            0 <= i < nodes.len() ==> scans(
                ev,
                nodes[i].hist@,
                nodes[i].slot as int,
                self.n_targets as int,
                (#[trigger] search.scans[i]).prefix@,
            )
        &&& forall|i: int, f: int|
            0 <= i < nodes.len() && 0 <= f < self.n_features ==> ev.at_own_bins(
                f,
                shared_trials(search.batch[#[trigger] pair_index(i, self.n_features as int, f)]@),
            )
    }

    proof fn lemma_fits(
        &self,
        nodes: Seq<ExpandEntry>,
        allowed: Seq<Vec<u32>>,
        bounds: Seq<(u32, u32)>,
        search: &MultiSearch,
    )
        requires
            self.searches(),
            self.searched_multi(nodes, allowed, bounds, search, nodes.len() as int),
        ensures
            self.fits_nodes(nodes, search),
    {
        assert forall|i: int, f: int| 0 <= i < nodes.len() && 0 <= f < self.n_features implies self.split_eval.at_own_bins(
            f,
            shared_trials(search.batch[#[trigger] pair_index(i, self.n_features as int, f)]@),
        ) by {
            lemma_multi_bins(
                &self.split_eval,
                nodes[i].hist@,
                nodes[i].slot as int,
                nodes[i].target_sums@,
                f,
                self.passed_over(allowed[i]@, f),
                search.batch[pair_index(i, self.n_features as int, f)]@,
            );
        }
        assert forall|i: int| 0 <= i < nodes.len() implies (#[trigger] search.inputs[i]).hist_base == nodes[i].slot
            && search.inputs[i].parent@ == nodes[i].target_sums@ by {
            assert(multi_input_of(search.inputs[i], nodes[i], bounds[i]));
        }
    }

    /// Pick the best split of each vector-leaf node, from the gains of the splits that
    /// [`Self::search_multi`] listed, and read its children's sums out of the prefix sums.
    ///
    /// A candidate carries one sum, added over the targets. The sums of the single targets
    /// are found by the same rule that the row partitioner goes by.
    pub fn evaluate_multi(&self, nodes: &[ExpandEntry], search: &MultiSearch, gains: &[Vec<u32>]) -> (found: Vec<Found>)
        requires
            self.wf(),
            self.searches(),
            self.carry_targets(nodes@),
            self.fits_nodes(nodes@, search),
            gains.len() == search.batch.len(),
            forall|k: int| 0 <= k < search.batch.len() ==> (#[trigger] search.batch[k]).len() == gains[k].len(),
        ensures
            found.len() == nodes.len(),
            forall|i: int| 0 <= i < nodes.len() ==> self.found_multi_at(i, search.batch@, gains@, #[trigger] found[i]),
            forall|i: int| 0 <= i < nodes.len() ==> self.target_sums_of(nodes[i], #[trigger] found[i]),
            forall|i: int| 0 <= i < nodes.len() ==> self.applicable(#[trigger] found[i]),
    {
        let ev: &SplitEvaluatorGpu = &self.split_eval;
        let ghost nf = self.n_features as int;
        let bests: Vec<DeviceSplitCandidate> = ev.evaluate_multi(nodes.len(), search.batch.as_slice(), gains);
        let ghost trials = choose|trials: Seq<Vec<Trial>>|
            {
                &&& trials.len() == search.batch.len()
                &&& forall|k: int| 0 <= k < search.batch.len() ==> (#[trigger] trials[k])@ == shared_trials(search.batch[k]@)
                &&& forall|i: int| 0 <= i < nodes.len() ==> #[trigger] ev.best_of_node(i, trials, gains@, bests[i])
            };
        assert(GpuHistGrower::shares(trials, search.batch@));
        proof {
            self.lemma_search_tiles();
        }
        let mut found: Vec<Found> = Vec::with_capacity(nodes.len());
        let mut i: usize = 0;
        while i < nodes.len()
            invariant
                self.wf(),
                self.searches(),
                self.carry_targets(nodes@),
                self.fits_nodes(nodes@, search),
                *ev == self.split_eval,
                cuts_tile(ev),
                forall|f: int| 0 <= f < self.n_features ==> #[trigger] width(ev, f) > 0,
                GpuHistGrower::shares(trials, search.batch@),
                bests.len() == nodes.len(),
                forall|i: int| 0 <= i < nodes.len() ==> #[trigger] ev.best_of_node(i, trials, gains@, bests[i]),
                i <= nodes.len(),
                found.len() == i,
                forall|k: int| 0 <= k < i ==> self.found_multi_at(k, search.batch@, gains@, #[trigger] found[k]),
                forall|k: int| 0 <= k < i ==> self.target_sums_of(nodes[k], #[trigger] found[k]),
                forall|k: int| 0 <= k < i ==> self.applicable(#[trigger] found[k]),
            decreases nodes.len() - i,
        {
            let split: DeviceSplitCandidate = bests[i];
            let ghost node = nodes[i as int];
            proof {
                assert(ev.best_of_node(i as int, trials, gains@, bests[i as int]));
                lemma_best_feature(ev, i as int, trials, gains@, split);
                assert(width(ev, split.feature() as int) > 0);
                assert(nodes[i as int].target_sums.len() == self.n_targets);
            }
            let f: usize = split.split_index() as usize;
            let cond: i64 = self.cuts.find_split_condition(f, split.split_value);
            let hist: &Vec<GradientPairInt64> = &*nodes[i].hist;
            proof {
                assert(self.cuts.cut_ptrs[f + 1] == ev.cut_ptrs[f + 1]);
            }
            let sums: Vec<(GradientPairInt64, GradientPairInt64)> = ev.multi_child_sums(
                hist.as_slice(),
                &search.scans[i],
                &search.inputs[i],
                f,
                cond,
                split.default_left(),
            );
            let mut left: Vec<GradientPairInt64> = Vec::with_capacity(sums.len());
            let mut right: Vec<GradientPairInt64> = Vec::with_capacity(sums.len());
            let mut t: usize = 0;
            while t < sums.len()
                invariant
                    t <= sums.len(),
                    left.len() == t,
                    right.len() == t,
                    forall|u: int| 0 <= u < t ==> left[u] == (#[trigger] sums[u]).0,
                    forall|u: int| 0 <= u < t ==> right[u] == (#[trigger] sums[u]).1,
                decreases sums.len() - t,
            {
                left.push(sums[t].0);
                right.push(sums[t].1);
                t += 1;
            }
            let one = Found { split, cat_bits: Vec::new(), left_target_sums: left, right_target_sums: right };
            proof {
                assert(self.found_multi_at(i as int, search.batch@, gains@, one));
                assert forall|t: int| 0 <= t < self.n_targets implies #[trigger] one.left_target_sums[t] == child_left(
                    ev,
                    node.hist@,
                    node.slot as int,
                    node.target_sums@,
                    t,
                    split.feature() as int,
                    cond as int,
                    split.missing_left(),
                ) && one.right_target_sums[t] == wrap(
                    minus(exact(node.target_sums[t]), exact(one.left_target_sums[t])),
                ) by {
                    assert(one.left_target_sums[t] == sums[t].0);
                }
                assert(self.sums_at(node, one, cond as int));
                assert(self.cuts.condition_of(split.feature() as int, split.split_value, cond as int));
                assert(self.target_sums_of(node, one));
            }
            found.push(one);
            i += 1;
        }
        found
    }

    /// `found` is the best split of vector-leaf node `i`.
    pub open spec fn found_multi_at(&self, i: int, batch: Seq<Vec<MultiTrial>>, gains: Seq<Vec<u32>>, found: Found) -> bool {
        &&& exists|trials: Seq<Vec<Trial>>|
            #[trigger] GpuHistGrower::shares(trials, batch) && self.split_eval.best_of_node(i, trials, gains, found.split)
        &&& found.cat_bits.len() == 0
    }
}

/// What a node is searched with is its own: its histogram, its sums, its gain and its bounds.
pub proof fn lemma_input_of(node: ExpandEntry, bounds: (u32, u32))
    ensures
        input_of(node, bounds).hist_base == node.slot,
        input_of(node, bounds).parent_grad == node.sum.grad && input_of(node, bounds).parent_hess == node.sum.hess,
        input_of(node, bounds).root_gain == node.root_gain,
        input_of(node, bounds).lower == bounds.0 && input_of(node, bounds).upper == bounds.1,
{
}

/// A feature is passed over by the search of thresholds exactly where the node may not split on it
/// or its bins are categories.
pub proof fn lemma_passed_over(grower: &GpuHistGrower, features: Seq<u32>, f: u32)
    ensures
        grower.passed_over(features, f as int) <==> !features.contains(f) || grower.cuts.categorical(f as int),
{
    crate::gpu::grower::lemma_features_searched(&grower.cuts, features, f);
}

/// The split that is found for a node gains as much as any threshold on any of its features, and as
/// the best set of categories of any.
pub proof fn lemma_found_gains_most(
    grower: &GpuHistGrower,
    i: int,
    batch: Seq<Vec<Trial>>,
    gains: Seq<Vec<u32>>,
    winners: Seq<CatWinner>,
    found: Found,
    f: int,
    j: int,
    k: int,
)
    requires
        grower.found_at(i, batch, gains, winners, found),
        grower.split_eval.n_features < DEFAULT_LEFT_BIT,
        0 <= f < grower.split_eval.n_features,
        0 <= j < batch[i * grower.split_eval.n_features + f].len(),
        0 <= k < winners.len(),
        is_finite(winners[k].candidate.loss_chg),
        forall|c: DeviceSplitCandidate| #[trigger]
            grower.split_eval.best_of_node(i, batch, gains, c) ==> !is_nan_spec(c.loss_chg),
    ensures
        !lt_spec(found.split.loss_chg, gains[i * grower.split_eval.n_features + f][j]),
        rank(winners[k].candidate.loss_chg) <= rank(found.split.loss_chg),
{
    let numeric = choose|numeric: DeviceSplitCandidate|
        #[trigger] grower.split_eval.best_of_node(i, batch, gains, numeric) && merged(
            numeric,
            winners,
            found.split,
            found.cat_bits@,
        );
    lemma_best_of_node(grower.split_eval, i, batch, gains, numeric, f, j);
    lemma_merged_gains_most(numeric, winners, found.split, found.cat_bits@, k);
}

/// A node that takes a split keeps its place, its rows, its histogram and its sums, and has the
/// split, its categories and its children's statistics, left and right.
pub proof fn lemma_given_split(node: ExpandEntry, found: Found, stats: (GradStats, GradStats), e: ExpandEntry)
    requires
        GpuHistGrower::given_split(node, found, stats, e),
    ensures
        e.split == found.split,
        e.left_stats == stats.0 && e.right_stats == stats.1,
        e.cat_bits@ == found.cat_bits@,
        e.left_target_sums@ == found.left_target_sums@ && e.right_target_sums@ == found.right_target_sums@,
        e.nid == node.nid && e.depth == node.depth && e.seg_begin == node.seg_begin && e.seg_len == node.seg_len,
        e.hist == node.hist && e.slot == node.slot && e.sum == node.sum && e.root_gain == node.root_gain,
        e.target_sums == node.target_sums,
{
}

/// The split that is found for a node with several targets gains as much as any that was searched.
pub proof fn lemma_found_multi_gains_most(
    grower: &GpuHistGrower,
    i: int,
    batch: Seq<Vec<MultiTrial>>,
    gains: Seq<Vec<u32>>,
    found: Found,
    f: int,
    j: int,
)
    requires
        grower.found_multi_at(i, batch, gains, found),
        grower.split_eval.n_features < DEFAULT_LEFT_BIT,
        0 <= f < grower.split_eval.n_features,
        0 <= i,
        i * grower.split_eval.n_features + f < batch.len(),
        0 <= j < batch[i * grower.split_eval.n_features + f].len(),
    ensures
        !lt_spec(found.split.loss_chg, gains[i * grower.split_eval.n_features + f][j]),
        found.cat_bits.len() == 0,
{
    let trials = choose|trials: Seq<Vec<Trial>>|
        #[trigger] GpuHistGrower::shares(trials, batch) && grower.split_eval.best_of_node(i, trials, gains, found.split);
    let at = i * grower.split_eval.n_features + f;
    assert(0 <= i * grower.split_eval.n_features) by (nonlinear_arith)
        requires
            0 <= i,
            0 <= grower.split_eval.n_features,
    ;
    assert(trials[at]@ == shared_trials(batch[at]@));
    lemma_best_of_node(grower.split_eval, i, trials, gains, found.split, f, j);
}

} // verus!
