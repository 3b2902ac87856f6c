//! What a round of a tree booster does to its ensemble: which trees it asks for, from which
//! rows, and how the trees it gets are filed.

use vstd::prelude::*;

use crate::float_bits::{same, same_spec};
use crate::gbm::{at_least_one, round_steps, step_at, update_slot, update_slots, GBTree, TreeStep, ONE_BITS};
use crate::gpu::ellpack::cell_at;

verus! {

/// The trees that a growing round asks for, in order: one per parallel tree and group, or one
/// per parallel tree where a tree covers every group.
pub open spec fn asked<T>(tree: GBTree<T>) -> int {
    let parallel = tree.param.num_parallel_tree as int;
    if tree.covers_all() {
        parallel
    } else {
        parallel * at_least_one(tree.model.num_output_group as int)
    }
}

/// The trees that an updating round moves back into the ensemble.
pub open spec fn update_trees<T>(tree: GBTree<T>) -> int {
    at_least_one(tree.param.num_parallel_tree as int) * tree.model.tree_groups()
}

/// The group that tree `i` of a growing round is filed under. A vector-leaf tree belongs to no
/// single group and is filed under the first.
pub open spec fn filed_under<T>(tree: GBTree<T>, i: int) -> u32 {
    if tree.covers_all() {
        0
    } else {
        step_at(tree.param.num_parallel_tree as int, i).group
    }
}

impl<T> GBTree<T> {
    /// A tree covers every group.
    pub open spec fn covers_all(&self) -> bool {
        self.param.multi_output_tree && self.model.num_output_group > 1
    }

    /// The groups that trees are grown for, as the round counts them.
    fn round_groups(&self) -> (n: usize)
        ensures
            n == at_least_one(self.model.num_output_group as int),
    {
        if self.model.num_output_group == 0 {
            1
        } else {
            self.model.num_output_group
        }
    }

    /// The trees of a growing round, in the order they are grown: the group of each, and
    /// whether the grower has to forget the tree before it.
    pub fn plan_round(&self) -> (steps: Vec<TreeStep>)
        requires
            asked(*self) <= usize::MAX,
            self.model.num_output_group <= u32::MAX,
        ensures
            steps.len() == asked(*self),
            forall|i: int|
                0 <= i < steps.len() ==> #[trigger] steps[i] == (TreeStep { group: filed_under(*self, i), reset: i > 0 }),
    {
        let groups: u32 = if self.param.multi_output_tree && self.model.num_output_group > 1 {
            1
        } else {
            self.round_groups() as u32
        };
        proof {
            let p = self.param.num_parallel_tree as int;
            assert(groups * p == p * groups) by (nonlinear_arith);
            assert(1 * p == p) by (nonlinear_arith);
        }
        let steps: Vec<TreeStep> = round_steps(groups, self.param.num_parallel_tree);
        proof {
            let p = self.param.num_parallel_tree as int;
            if self.covers_all() {
                assert forall|i: int| 0 <= i < steps.len() implies #[trigger] steps[i] == (TreeStep {
                    group: 0,
                    reset: i > 0,
                }) by {
                    assert(steps[i] == step_at(p, i));
                    vstd::arithmetic::div_mod::lemma_fundamental_div_mod_converse(i, p, 0, i);
                }
            }
        }
        steps
    }

    /// File the trees that a growing round grew, each under its group and with the weight that
    /// the round's trees take.
    pub fn file_round(&mut self, trees: Vec<T>, new_weight: u32)
        requires
            old(self).model.wf(),
            trees.len() == asked(*old(self)),
            old(self).model.num_output_group <= u32::MAX,
        ensures
            final(self).model.wf(),
            final(self).model.trees@ == old(self).model.trees@ + trees@,
            final(self).model.tree_info@ == old(self).model.tree_info@ + Seq::new(
                trees@.len(),
                |i: int| filed_under(*old(self), i),
            ),
            final(self).model.tree_weight@ == old(self).model.tree_weight@ + Seq::new(trees@.len(), |i: int| new_weight),
            final(self).model.num_feature == old(self).model.num_feature,
            final(self).model.num_parallel_tree == old(self).model.num_parallel_tree,
            final(self).model.num_output_group == old(self).model.num_output_group,
            final(self).model.multi_output == old(self).model.multi_output,
            final(self).param == old(self).param,
            final(self).dart == old(self).dart,
            final(self).dropped == old(self).dropped,
            final(self).trees_to_update == old(self).trees_to_update,
            final(self).constant_hessian == old(self).constant_hessian,
            forall|n: int| #[trigger] old(self).holds_rounds(n) ==> final(self).holds_rounds(n + 1),
    {
        let ghost was = *self;
        let ghost all = trees@;
        let steps: Vec<TreeStep> = self.plan_round();
        let n: usize = trees.len();
        let mut i: usize = 0;
        let mut rest: Vec<T> = trees;
        proof {
            assert(self.model.tree_info@ =~= was.model.tree_info@ + Seq::new(0, |k: int| filed_under(was, k)));
            assert(self.model.tree_weight@ =~= was.model.tree_weight@ + Seq::new(0, |k: int| new_weight));
        }
        while i < n
            invariant
                n == all.len(),
                n == steps.len(),
                i <= n,
                forall|k: int|
                    0 <= k < steps.len() ==> #[trigger] steps[k] == (TreeStep { group: filed_under(was, k), reset: k > 0 }),
                self.model.trees@ == was.model.trees@,
                rest@ == all,
                self.model.tree_info@ == was.model.tree_info@ + Seq::new(i as nat, |k: int| filed_under(was, k)),
                self.model.tree_weight@ == was.model.tree_weight@ + Seq::new(i as nat, |k: int| new_weight),
                self.model.num_feature == was.model.num_feature,
                self.model.num_parallel_tree == was.model.num_parallel_tree,
                self.model.num_output_group == was.model.num_output_group,
                self.model.multi_output == was.model.multi_output,
                self.param == was.param,
                self.dart == was.dart,
                self.dropped == was.dropped,
                self.trees_to_update == was.trees_to_update,
                self.constant_hessian == was.constant_hessian,
            decreases n - i,
        {
            self.model.tree_info.push(steps[i].group);
            self.model.tree_weight.push(new_weight);
            i += 1;
            proof {
                assert(self.model.tree_info@ =~= was.model.tree_info@ + Seq::new(
                    i as nat,
                    |k: int| filed_under(was, k),
                ));
                assert(self.model.tree_weight@ =~= was.model.tree_weight@ + Seq::new(i as nat, |k: int| new_weight));
            }
        }
        self.model.trees.append(&mut rest);
        proof {
            assert forall|k: int| #[trigger] was.holds_rounds(k) implies self.holds_rounds(k + 1) by {
                lemma_round_adds_one(was, k);
            }
        }
    }

    /// The trees that an updating round rewrites: their places in the ensemble that was set
    /// aside, and their groups. A round's worth of trees moves at a time, and none are left once
    /// every round was revisited.
    pub fn plan_update(&self) -> (slots: Vec<(usize, usize)>)
        requires
            self.model.trees.len() + update_trees(*self) <= usize::MAX,
        ensures
            ({
                let p = at_least_one(self.param.num_parallel_tree as int);
                let g = self.model.tree_groups();
                let round = self.model.trees.len() as int / update_trees(*self);
                let n = self.trees_to_update.len() as int;
                &&& slots.len() <= update_trees(*self)
                &&& forall|k: int|
                    0 <= k < slots.len() ==> (#[trigger] slots[k]).0 == update_slot(round, p, g, k / p, k % p) && slots[k].1
                        == k / p && slots[k].0 < n
                &&& slots.len() < update_trees(*self) ==> round * p * g + slots.len() >= n
            }),
    {
        let per_tree: usize = if self.param.num_parallel_tree == 0 {
            1
        } else {
            self.param.num_parallel_tree as usize
        };
        update_slots(self.model.trees.len(), per_tree, self.model.num_tree_groups(), self.trees_to_update.len())
    }

    /// File the trees that an updating round rewrote, each under its group and at full weight.
    pub fn file_update(&mut self, trees: Vec<T>, slots: &[(usize, usize)])
        requires
            old(self).model.wf(),
            trees.len() == slots.len(),
            forall|k: int| 0 <= k < slots.len() ==> (#[trigger] slots[k]).1 <= u32::MAX,
        ensures
            final(self).model.wf(),
            final(self).model.trees@ == old(self).model.trees@ + trees@,
            final(self).model.tree_info@ == old(self).model.tree_info@ + Seq::new(
                slots@.len(),
                |i: int| slots[i].1 as u32,
            ),
            final(self).model.tree_weight@ == old(self).model.tree_weight@ + Seq::new(slots@.len(), |i: int| ONE_BITS),
            final(self).model.num_feature == old(self).model.num_feature,
            final(self).model.num_parallel_tree == old(self).model.num_parallel_tree,
            final(self).model.num_output_group == old(self).model.num_output_group,
            final(self).model.multi_output == old(self).model.multi_output,
            final(self).param == old(self).param,
            final(self).dart == old(self).dart,
            final(self).dropped == old(self).dropped,
            final(self).trees_to_update == old(self).trees_to_update,
            final(self).constant_hessian == old(self).constant_hessian,
    {
        let ghost was = *self;
        let mut i: usize = 0;
        let mut rest: Vec<T> = trees;
        proof {
            assert(self.model.tree_info@ =~= was.model.tree_info@ + Seq::new(0, |k: int| slots[k].1 as u32));
            assert(self.model.tree_weight@ =~= was.model.tree_weight@ + Seq::new(0, |k: int| ONE_BITS));
        }
        while i < slots.len()
            invariant
                i <= slots.len(),
                forall|k: int| 0 <= k < slots.len() ==> (#[trigger] slots[k]).1 <= u32::MAX,
                self.model.trees@ == was.model.trees@,
                self.model.tree_info@ == was.model.tree_info@ + Seq::new(i as nat, |k: int| slots[k].1 as u32),
                self.model.tree_weight@ == was.model.tree_weight@ + Seq::new(i as nat, |k: int| ONE_BITS),
                self.model.num_feature == was.model.num_feature,
                self.model.num_parallel_tree == was.model.num_parallel_tree,
                self.model.num_output_group == was.model.num_output_group,
                self.model.multi_output == was.model.multi_output,
                self.param == was.param,
                self.dart == was.dart,
                self.dropped == was.dropped,
                self.trees_to_update == was.trees_to_update,
                self.constant_hessian == was.constant_hessian,
            decreases slots.len() - i,
        {
            self.model.tree_info.push(slots[i].1 as u32);
            self.model.tree_weight.push(ONE_BITS);
            i += 1;
            proof {
                assert(self.model.tree_info@ =~= was.model.tree_info@ + Seq::new(
                    i as nat,
                    |k: int| slots[k].1 as u32,
                ));
                assert(self.model.tree_weight@ =~= was.model.tree_weight@ + Seq::new(i as nat, |k: int| ONE_BITS));
            }
        }
        self.model.trees.append(&mut rest);
    }

    /// Whether an approximate round sketches the matrix anew: always, unless the hessian is
    /// constant and the matrix was binned before, when it would give the same cuts.
    pub fn sketches_anew(&self, binned: bool) -> (yes: bool)
        ensures
            yes == !(self.constant_hessian && binned),
    {
        !(self.constant_hessian && binned)
    }
}

/// Every growing round makes the ensemble one round longer, whether it grows a tree for each
/// group or one for all of them: an ensemble of whole rounds stays one, and counts one more.
pub proof fn lemma_round_adds_one<T>(tree: GBTree<T>, rounds: int)
    requires
        tree.holds_rounds(rounds),
    ensures
        asked(tree) == tree.model.round_trees(),
        tree.model.trees.len() as int / tree.model.round_trees() == rounds,
        tree.model.trees.len() + asked(tree) == (rounds + 1) * tree.model.round_trees(),
        (tree.model.trees.len() + asked(tree)) / tree.model.round_trees() == rounds + 1,
{
    let p = tree.param.num_parallel_tree as int;
    let g = tree.model.tree_groups();
    let per = tree.model.round_trees();
    let trees = tree.model.trees.len() as int;
    assert(per >= 1) by (nonlinear_arith)
        requires
            p >= 1,
            g >= 1,
            per == p * g,
    ;
    assert(p * 1 == p);
    vstd::arithmetic::div_mod::lemma_fundamental_div_mod_converse(trees, per, rounds, 0);
    assert(trees + per == (rounds + 1) * per) by (nonlinear_arith)
        requires
            trees == rounds * per,
    ;
    vstd::arithmetic::div_mod::lemma_fundamental_div_mod_converse(trees + per, per, rounds + 1, 0);
}

/// An updating fit that runs as many rounds as the ensemble it revisits files as many trees:
/// the rounds' places follow one another without a gap.
pub proof fn lemma_update_covers(per_tree: int, n_groups: int, round: int, k: int)
    requires
        per_tree >= 1,
        n_groups >= 1,
        0 <= k,
    ensures
        update_slot(round, per_tree, n_groups, k / per_tree, k % per_tree) == round * per_tree * n_groups + k,
{
    vstd::arithmetic::div_mod::lemma_fundamental_div_mod(k, per_tree);
    assert(per_tree * (k / per_tree) == (k / per_tree) * per_tree) by (nonlinear_arith);
}

/// A row that was not sampled: both of its totals are zero.
pub open spec fn left_out(grad: u32, hess: u32) -> bool {
    same_spec(hess, 0) && same_spec(grad, 0)
}

/// Row sampling drops whole rows: every output of a row whose totals are zero is zeroed.
/// `grad_totals` and `hess_totals` hold a row's sums over its outputs after sampling, `values`
/// one number per row and output.
pub fn drop_rows(values: &mut Vec<u32>, grad_totals: &[u32], hess_totals: &[u32], n_groups: usize)
    requires
        grad_totals.len() == hess_totals.len(),
        old(values).len() == grad_totals.len() * n_groups,
    ensures
        final(values).len() == old(values).len(),
        forall|r: int, t: int|
            0 <= r < grad_totals.len() && 0 <= t < n_groups ==> #[trigger] final(values)[cell_at(n_groups as int, r, t)] == (
            if left_out(grad_totals[r], hess_totals[r]) {
                0
            } else {
                old(values)[cell_at(n_groups as int, r, t)]
            }),
{
    let ghost was = values@;
    let ghost n = n_groups as int;
    let rows: usize = grad_totals.len();
    let cells: usize = values.len();
    let mut r: usize = 0;
    while r < rows
        invariant
            rows == grad_totals.len(),
            rows == hess_totals.len(),
            n == n_groups,
            cells == rows * n,
            values.len() == cells,
            was.len() == cells,
            r <= rows,
            forall|q: int, t: int|
                0 <= q < rows && 0 <= t < n ==> #[trigger] values[cell_at(n, q, t)] == (if q < r && left_out(
                    grad_totals[q],
                    hess_totals[q],
                ) {
                    0
                } else {
                    was[cell_at(n, q, t)]
                }),
        decreases rows - r,
    {
        if same(hess_totals[r], 0) && same(grad_totals[r], 0) {
            proof {
                assert(0 <= r * n && r * n + n <= rows * n) by (nonlinear_arith)
                    requires
                        0 <= r,
                        r + 1 <= rows,
                        0 <= n,
                ;
            }
            let mut t: usize = 0;
            while t < n_groups
                invariant
                    rows == grad_totals.len(),
                    rows == hess_totals.len(),
                    n == n_groups,
                    cells == rows * n,
                    values.len() == cells,
                    was.len() == cells,
                    r < rows,
                    0 <= r * n,
                    r * n + n <= cells,
                    t <= n,
                    left_out(grad_totals[r as int], hess_totals[r as int]),
                    forall|q: int, u: int|
                        0 <= q < rows && 0 <= u < n ==> #[trigger] values[cell_at(n, q, u)] == (if (q < r || (q == r && u
                            < t)) && left_out(grad_totals[q], hess_totals[q]) {
                            0
                        } else {
                            was[cell_at(n, q, u)]
                        }),
                decreases n - t,
            {
                let ghost before = values@;
                values.set(r * n_groups + t, 0);
                proof {
                    assert forall|q: int, u: int| 0 <= q < rows && 0 <= u < n implies #[trigger] values[cell_at(n, q, u)]
                        == (if (q < r || (q == r && u < t + 1)) && left_out(grad_totals[q], hess_totals[q]) {
                        0
                    } else {
                        was[cell_at(n, q, u)]
                    }) by {
                        assert(before[cell_at(n, q, u)] == (if (q < r || (q == r && u < t)) && left_out(
                            grad_totals[q],
                            hess_totals[q],
                        ) {
                            0
                        } else {
                            was[cell_at(n, q, u)]
                        }));
                        if q != r {
                            assert(q * n + u != r * n + t) by (nonlinear_arith)
                                requires
                                    q != r,
                                    0 <= u < n,
                                    0 <= t < n,
                            ;
                        }
                        assert(0 <= q * n + u < rows * n) by (nonlinear_arith)
                            requires
                                0 <= q < rows,
                                0 <= u < n,
                        ;
                    }
                }
                t += 1;
            }
        }
        r += 1;
    }
}

/// A round grows as many trees for every output as grow in parallel, unless one tree covers all
/// outputs of a booster with several: the parallel ones are all there is. The trees of an output
/// stand together, and those that cover all are filed under the first.
pub proof fn lemma_round_files<T>(tree: GBTree<T>, g: int, k: int)
    requires
        0 <= g < at_least_one(tree.model.num_output_group as int),
        tree.model.num_output_group <= u32::MAX,
        0 <= k < tree.param.num_parallel_tree,
    ensures
        tree.param.multi_output_tree && tree.model.num_output_group > 1 ==> asked(tree) == tree.param.num_parallel_tree
            && filed_under(tree, k) == 0,
        !(tree.param.multi_output_tree && tree.model.num_output_group > 1) ==> {
            &&& asked(tree) == (if tree.model.num_output_group == 0 {
                tree.param.num_parallel_tree as int
            } else {
                tree.param.num_parallel_tree * tree.model.num_output_group
            })
            &&& filed_under(tree, g * tree.param.num_parallel_tree + k) == g
        },
{
    let p = tree.param.num_parallel_tree as int;
    vstd::arithmetic::div_mod::lemma_fundamental_div_mod_converse(g * p + k, p, g, k);
    assert(p * 1 == p);
}

/// A row is left out exactly where both totals are zero, of either sign.
pub proof fn lemma_left_out(grad: u32, hess: u32)
    ensures
        left_out(grad, hess) <==> (grad == 0 || grad == 0x8000_0000) && (hess == 0 || hess == 0x8000_0000),
{
}

/// An updating round revisits as many trees as a round of the ensemble has.
pub proof fn lemma_update_trees<T>(tree: GBTree<T>)
    requires
        tree.param.num_parallel_tree == tree.model.num_parallel_tree,
    ensures
        update_trees(tree) == tree.model.round_trees(),
        update_trees(tree) >= 1,
{
    crate::gbm::lemma_round_trees(tree.model);
}

} // verus!
