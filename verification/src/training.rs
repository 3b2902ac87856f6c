//! A fit from its first round to its last: what is scored, under which names, what of it is
//! kept, and how many rounds the model that comes out counts.

use vstd::prelude::*;

use crate::api::{score_name, training_error, FitChecks, FitRounds};
use crate::booster::Booster;
use crate::error::Error;
use crate::fit::{begin_fit, begins, can_run, checks_of, fresh_booster, refused, tree_of, FitInputs};
use crate::gbm::LinearModel;
use crate::learner::{with_groups, Learner};
use crate::parameters::TrainingParameters;
use crate::rounds::asked;

verus! {

/// A round's scores: each under its name, as a double-precision bit pattern.
pub type RoundScores = Vec<(String, u64)>;

/// Where the score of metric `k` on set `s` stands in a round of `m` metrics: the sets are
/// outermost.
pub open spec fn score_at(m: int, s: int, k: int) -> int {
    s * m + k
}

/// A round has one entry per evaluation set and metric, named after both.
pub open spec fn names_scores(sets: Seq<String>, metrics: Seq<String>, round: Seq<(String, u64)>) -> bool {
    let m = metrics.len() as int;
    &&& round.len() == sets.len() * m
    &&& forall|s: int, k: int|
        0 <= s < sets.len() && 0 <= k < m ==> round[#[trigger] score_at(m, s, k)].0@ == sets[s]@ + "-"@ + metrics[k]@
}

/// A round holds these scores, one list of them per set.
pub open spec fn holds_scores(m: int, scores: Seq<Vec<u64>>, round: Seq<(String, u64)>) -> bool {
    forall|s: int, k: int|
        0 <= s < scores.len() && 0 <= k < m ==> round[#[trigger] score_at(m, s, k)].1 == scores[s]@[k]
}

/// List a round's scores, sets outermost and metrics in order within a set.
pub fn round_scores(sets: &[String], metrics: &[String], scores: &[Vec<u64>]) -> (round: RoundScores)
    requires
        scores.len() == sets.len(),
        forall|s: int| 0 <= s < scores.len() ==> (#[trigger] scores[s]).len() == metrics.len(),
        sets.len() * metrics.len() <= usize::MAX,
    ensures
        names_scores(sets@, metrics@, round@),
        holds_scores(metrics.len() as int, scores@, round@),
{
    let m: usize = metrics.len();
    let ghost mm = m as int;
    let mut round: RoundScores = Vec::new();
    let mut s: usize = 0;
    while s < sets.len()
        invariant
            mm == metrics.len(),
            m == mm,
            scores.len() == sets.len(),
            forall|t: int| 0 <= t < scores.len() ==> (#[trigger] scores[t]).len() == metrics.len(),
            s <= sets.len(),
            round.len() == s * mm,
            forall|t: int, k: int|
                0 <= t < s && 0 <= k < mm ==> round[#[trigger] score_at(mm, t, k)].0@ == sets[t]@ + "-"@ + metrics[k]@
                    && round[score_at(mm, t, k)].1 == scores[t]@[k],
        decreases sets.len() - s,
    {
        let mut j: usize = 0;
        let ghost before = round@;
        assert(scores[s as int].len() == metrics.len());
        while j < m
            invariant
                mm == metrics.len(),
                m == mm,
                scores.len() == sets.len(),
                s < sets.len(),
                scores[s as int].len() == mm,
                j <= m,
                before.len() == s * mm,
                round.len() == before.len() + j,
                forall|i: int| 0 <= i < before.len() ==> #[trigger] round[i] == before[i],
                forall|k: int|
                    0 <= k < j ==> (#[trigger] round[before.len() + k]).0@ == sets[s as int]@ + "-"@ + metrics[k]@
                        && round[before.len() + k].1 == scores[s as int]@[k],
            decreases m - j,
        {
            let name: String = score_name(sets[s].as_str(), metrics[j].as_str());
            round.push((name, scores[s][j]));
            j += 1;
        }
        proof {
            assert((s + 1) * mm == s * mm + mm) by (nonlinear_arith);
            assert forall|t: int, k: int| 0 <= t < s + 1 && 0 <= k < mm implies round[#[trigger] score_at(mm, t, k)].0@
                == sets[t]@ + "-"@ + metrics[k]@ && round[score_at(mm, t, k)].1 == scores[t]@[k] by {
                if t < s {
                    assert(0 <= t * mm + k < s * mm) by (nonlinear_arith)
                        requires
                            0 <= t,
                            t + 1 <= s,
                            0 <= k < mm,
                    ;
                    assert(round[score_at(mm, t, k)] == before[score_at(mm, t, k)]);
                } else {
                    assert(score_at(mm, t, k) == before.len() + k);
                }
            }
        }
        s += 1;
    }
    round
}

/// Early stopping watches the last metric of the last set: the final entry of a round.
pub proof fn lemma_watches_last(
    sets: Seq<String>,
    metrics: Seq<String>,
    scores: Seq<Vec<u64>>,
    round: Seq<(String, u64)>,
    watched: int,
)
    requires
        sets.len() > 0,
        metrics.len() > 0,
        scores.len() == sets.len(),
        names_scores(sets, metrics, round),
        holds_scores(metrics.len() as int, scores, round),
        watched == sets.len() * metrics.len() - 1,
    ensures
        watched == round.len() - 1,
        round[watched].0@ == sets.last()@ + "-"@ + metrics.last()@,
        round[watched].1 == scores.last()@[metrics.len() - 1],
{
    let m = metrics.len() as int;
    let n = sets.len() as int;
    assert((n - 1) * m + (m - 1) == n * m - 1) by (nonlinear_arith);
    assert(score_at(m, n - 1, m - 1) == watched);
}

/// The scores of a round without their names.
pub open spec fn bare(round: Seq<(String, u64)>) -> Seq<u64> {
    Seq::new(round.len(), |i: int| round[i].1)
}

fn bare_scores(round: &RoundScores) -> (scores: Vec<u64>)
    ensures
        scores@ == bare(round@),
{
    let mut scores: Vec<u64> = Vec::with_capacity(round.len());
    let mut i: usize = 0;
    while i < round.len()
        invariant
            i <= round.len(),
            scores.len() == i,
            forall|k: int| 0 <= k < i ==> #[trigger] scores[k] == round[k].1,
        decreases round.len() - i,
    {
        scores.push(round[i].1);
        i += 1;
    }
    assert(scores@ =~= bare(round@));
    scores
}

/// The booster is made of `n` rounds.
pub open spec fn holds_rounds<T>(booster: crate::gbm::Booster<T>, n: int) -> bool {
    match booster {
        crate::gbm::Booster::Tree(t) => t.holds_rounds(n),
        crate::gbm::Booster::Linear(l) => l.num_boosted_rounds == n,
    }
}

/// One growing round makes `after` of `before`: the trees that the round asks for are added, or
/// a linear model counts the round. What a round's trees are counted by stays as it is.
pub open spec fn grew<T>(before: crate::gbm::Booster<T>, after: crate::gbm::Booster<T>) -> bool {
    match (before, after) {
        (crate::gbm::Booster::Tree(a), crate::gbm::Booster::Tree(b)) => {
            &&& b.model.trees.len() == a.model.trees.len() + asked(a)
            &&& b.model.num_parallel_tree == a.model.num_parallel_tree
            &&& b.model.num_output_group == a.model.num_output_group
            &&& b.model.multi_output == a.model.multi_output
            &&& b.param == a.param
        },
        (crate::gbm::Booster::Linear(a), crate::gbm::Booster::Linear(b)) => b.num_boosted_rounds == a.num_boosted_rounds + 1,
        _ => false,
    }
}

/// A booster of so many rounds counts them, however many trees a round grows.
pub proof fn lemma_rounds_counted<T>(booster: crate::gbm::Booster<T>, n: int)
    requires
        holds_rounds(booster, n),
    ensures
        booster.rounds() == n,
{
    match booster {
        crate::gbm::Booster::Tree(t) => {
            crate::rounds::lemma_round_adds_one(t, n);
        },
        crate::gbm::Booster::Linear(_) => {},
    }
}

/// A booster without trees holds no rounds, whatever the number of its outputs becomes.
pub proof fn lemma_settled_holds_none<T>(booster: crate::gbm::Booster<T>, n_groups: usize)
    requires
        holds_rounds(booster, 0),
    ensures
        holds_rounds(with_groups(booster, n_groups), 0),
{
    match with_groups(booster, n_groups) {
        crate::gbm::Booster::Tree(t) => {
            assert(0 * t.model.round_trees() == 0) by (nonlinear_arith);
        },
        crate::gbm::Booster::Linear(_) => {},
    }
}

/// A growing round adds one.
pub proof fn lemma_grown_round<T>(before: crate::gbm::Booster<T>, after: crate::gbm::Booster<T>, n: int)
    requires
        holds_rounds(before, n),
        grew(before, after),
    ensures
        holds_rounds(after, n + 1),
{
    match before {
        crate::gbm::Booster::Tree(a) => {
            crate::rounds::lemma_round_adds_one(a, n);
        },
        crate::gbm::Booster::Linear(_) => {},
    }
}

/// A fit in progress.
pub struct Fit<T> {
    pub learner: Learner<T>,
    pub rounds: FitRounds,
    /// The names of the evaluation sets.
    pub sets: Vec<String>,
    /// The names of the metrics.
    pub metrics: Vec<String>,
    /// The scores of every round run, in order.
    pub history: Vec<RoundScores>,
}

/// The same names.
pub open spec fn same_names(a: Seq<String>, b: Seq<String>) -> bool {
    a.len() == b.len() && forall|i: int| 0 <= i < a.len() ==> (#[trigger] a[i])@ == b[i]@
}

fn copy_names(names: &Vec<String>) -> (copy: Vec<String>)
    ensures
        same_names(copy@, names@),
{
    let mut copy: Vec<String> = Vec::with_capacity(names.len());
    let mut i: usize = 0;
    while i < names.len()
        invariant
            i <= names.len(),
            copy.len() == i,
            forall|k: int| 0 <= k < i ==> (#[trigger] copy[k])@ == names[k]@,
        decreases names.len() - i,
    {
        copy.push(names[i].as_str().to_owned());
        i += 1;
    }
    copy
}

impl<T> Fit<T> {
    /// The history has a round for every one that was run, each with a score per set and
    /// metric.
    pub open spec fn wf(&self) -> bool {
        &&& self.rounds.wf()
        &&& self.history.len() == self.rounds.done
        &&& self.sets.len() * self.metrics.len() <= usize::MAX
        &&& self.rounds.stopper matches Some(s) ==> self.sets.len() > 0 && self.metrics.len() > 0 && s.watched
            == self.sets.len() * self.metrics.len() - 1
        &&& forall|i: int| 0 <= i < self.history.len() ==> names_scores(self.sets@, self.metrics@, #[trigger] self.history[i]@)
    }

    /// The round to run next.
    pub open spec fn next(&self) -> Option<u32> {
        if self.rounds.stopped || self.rounds.done >= self.rounds.total {
            None
        } else {
            Some(self.rounds.done)
        }
    }

    /// Begin a fit. `sets` names the evaluation sets; the rest is as in
    /// [`begin_fit`](crate::fit::begin_fit).
    pub fn begin(
        params: &TrainingParameters,
        inputs: &FitInputs,
        sets: Vec<String>,
        linear: LinearModel,
        base: Option<Learner<T>>,
    ) -> (result: Result<Self, Error>)
        requires
            sets.len() == inputs.evals,
            inputs.evals * inputs.metric_names.len() <= usize::MAX,
        ensures
            match result {
                Ok(fit) => {
                    &&& can_run(params, inputs)
                    &&& begins(*params, *inputs, linear, base, fit.learner, fit.rounds)
                    &&& fit.wf()
                    &&& fit.sets == sets
                    &&& same_names(fit.metrics@, inputs.metric_names@)
                    &&& fit.history.len() == 0
                    &&& base is None && linear.num_boosted_rounds == 0 && (tree_of(params.booster.booster) matches Some(
                        tree,
                    ) ==> tree.num_parallel_tree >= 1) ==> holds_rounds(fit.learner.booster, 0)
                },
                Err(e) => if can_run(params, inputs) {
                    refused(*params, *inputs, linear, base, e)
                } else {
                    exists|fit: FitChecks| #[trigger] checks_of(params, inputs, fit) && training_error(&fit, e)
                },
            },
    {
        match begin_fit(params, inputs, linear, base) {
            Ok((learner, rounds)) => {
                proof {
                    let n = inputs.evals as int;
                    let m = inputs.metric_names.len() as int;
                    if rounds.stopper is Some {
                        assert(n * m >= 1) by (nonlinear_arith)
                            requires
                                n >= 1,
                                m >= 1,
                        ;
                    }
                }
                proof {
                    if base is None && linear.num_boosted_rounds == 0 && (tree_of(params.booster.booster) matches Some(
                        tree,
                    ) ==> tree.num_parallel_tree >= 1) {
                        lemma_fit_begins_empty(*params, *inputs, linear, learner, rounds);
                    }
                }
                Ok(Fit { learner, rounds, sets, metrics: copy_names(&inputs.metric_names), history: Vec::new() })
            },
            Err(e) => Err(e),
        }
    }

    /// The round to run next; none once all are done or one was the last.
    pub fn next_round(&self) -> (iter: Option<u32>)
        ensures
            iter == self.next(),
    {
        self.rounds.next_round()
    }

    /// Keep the scores of a round that was run, and decide whether it was the last. `scores`
    /// holds a list per set, one score per metric.
    pub fn record(&mut self, scores: &[Vec<u64>])
        requires
            old(self).wf(),
            old(self).next() is Some,
            scores.len() == old(self).sets.len(),
            forall|s: int| 0 <= s < scores.len() ==> (#[trigger] scores[s]).len() == old(self).metrics.len(),
        ensures
            final(self).wf(),
            final(self).learner == old(self).learner,
            final(self).sets == old(self).sets,
            final(self).metrics == old(self).metrics,
            final(self).history.len() == old(self).history.len() + 1,
            forall|i: int| 0 <= i < old(self).history.len() ==> #[trigger] final(self).history[i] == old(self).history[i],
            names_scores(old(self).sets@, old(self).metrics@, final(self).history@.last()@),
            holds_scores(old(self).metrics.len() as int, scores@, final(self).history@.last()@),
            final(self).rounds.total == old(self).rounds.total,
            final(self).rounds.done == old(self).rounds.done + 1,
            match old(self).rounds.stopper {
                None => final(self).rounds.stopper is None && !final(self).rounds.stopped,
                Some(s) => {
                    let last = scores@.last()@[old(self).metrics.len() - 1];
                    let now = s.after(old(self).rounds.done as usize, last);
                    final(self).rounds.stopper == Some(now) && final(self).rounds.stopped == (now.since_improvement
                        >= now.rounds)
                },
            },
    {
        let round: RoundScores = round_scores(self.sets.as_slice(), self.metrics.as_slice(), scores);
        let flat: Vec<u64> = bare_scores(&round);
        proof {
            if self.rounds.stopper is Some {
                let s = self.rounds.stopper->0;
                lemma_watches_last(self.sets@, self.metrics@, scores@, round@, s.watched as int);
            }
        }
        self.rounds.record(flat.as_slice());
        self.history.push(round);
    }

    /// The model that the fit came to, with the best round where early stopping was on, and the
    /// scores of its rounds.
    pub fn finish(self) -> (result: (Booster<T>, Vec<RoundScores>))
        requires
            self.wf(),
        ensures
            result.1 == self.history,
            result.0.learner == self.learner,
            result.0.best_iteration == (match self.rounds.stopper {
                Some(s) => Some(s.best_iteration),
                None => None,
            }),
            result.0.best_score == (match self.rounds.stopper {
                Some(s) => Some(s.best_score),
                None => None,
            }),
            result.1.len() <= self.rounds.total,
            self.next() is None && !self.rounds.stopped ==> result.1.len() == self.rounds.total,
            holds_rounds(self.learner.booster, self.history.len() as int) ==> result.0.learner.booster.rounds()
                == result.1.len(),
    {
        let (best_iteration, best_score) = self.rounds.best();
        proof {
            if holds_rounds(self.learner.booster, self.history.len() as int) {
                lemma_rounds_counted(self.learner.booster, self.history.len() as int);
            }
        }
        (Booster { learner: self.learner, best_iteration, best_score }, self.history)
    }
}

/// A round was run and recorded: the booster grew by a round, and the history by its scores.
pub open spec fn ran_round<T>(before: Fit<T>, after: Fit<T>) -> bool {
    &&& grew(before.learner.booster, after.learner.booster)
    &&& after.history.len() == before.history.len() + 1
    &&& after.rounds.done == before.rounds.done + 1
    &&& after.rounds.total == before.rounds.total
    &&& before.rounds.stopper is None ==> after.rounds.stopper is None && !after.rounds.stopped
    &&& before.rounds.stopper is Some ==> after.rounds.stopper is Some
}

/// A fit without a base model starts with no rounds, be it of trees or linear.
pub proof fn lemma_fit_begins_empty<T>(
    params: TrainingParameters,
    inputs: FitInputs,
    linear: LinearModel,
    learner: Learner<T>,
    rounds: FitRounds,
)
    requires
        begins(params, inputs, linear, None, learner, rounds),
        tree_of(params.booster.booster) matches Some(tree) ==> tree.num_parallel_tree >= 1,
        linear.num_boosted_rounds == 0,
    ensures
        holds_rounds(learner.booster, 0),
        rounds.done == 0,
        rounds.total == params.num_boost_round,
        !rounds.stopped,
        rounds.stopper is Some <==> params.early_stopping_rounds is Some,
{
    let fresh = choose|fresh: crate::gbm::Booster<T>|
        #[trigger] fresh_booster(params, inputs, linear, fresh) && learner.booster == fresh;
    match learner.booster {
        crate::gbm::Booster::Tree(t) => {
            assert(0 * t.model.round_trees() == 0) by (nonlinear_arith);
        },
        crate::gbm::Booster::Linear(_) => {},
    }
}

/// Over a whole fit the history is as long as the rounds that the model counts, however many
/// trees a round grows and whether or not one tree covers every output: `states` holds the fit
/// before its first round and after each one. It is never longer than the rounds asked for, and
/// as long where nothing stopped the fit early.
pub proof fn lemma_history_counts_rounds<T>(states: Seq<Fit<T>>)
    requires
        states.len() > 0,
        states[0].history.len() == 0,
        states[0].rounds.done == 0,
        !states[0].rounds.stopped,
        holds_rounds(states[0].learner.booster, 0),
        forall|i: int| 0 <= i < states.len() - 1 ==> #[trigger] ran_round(states[i], states[i + 1]),
    ensures
        states.last().learner.booster.rounds() == states.last().history.len(),
        states.last().history.len() == states.len() - 1,
        states.last().rounds.done == states.len() - 1,
        states.last().rounds.total == states[0].rounds.total,
        states[0].rounds.stopper is Some <==> states.last().rounds.stopper is Some,
        states[0].rounds.stopper is None && states.last().next() is None && states.last().rounds.done
            <= states.last().rounds.total ==> states.last().history.len() == states[0].rounds.total,
{
    lemma_states(states, states.len() - 1);
    lemma_rounds_counted(states.last().learner.booster, states.len() - 1);
}

proof fn lemma_states<T>(states: Seq<Fit<T>>, n: int)
    requires
        0 <= n < states.len(),
        states[0].history.len() == 0,
        states[0].rounds.done == 0,
        !states[0].rounds.stopped,
        holds_rounds(states[0].learner.booster, 0),
        forall|i: int| 0 <= i < states.len() - 1 ==> #[trigger] ran_round(states[i], states[i + 1]),
    ensures
        holds_rounds(states[n].learner.booster, n),
        states[n].history.len() == n,
        states[n].rounds.done == n,
        states[n].rounds.total == states[0].rounds.total,
        states[0].rounds.stopper is Some <==> states[n].rounds.stopper is Some,
        states[0].rounds.stopper is None ==> !states[n].rounds.stopped,
    decreases n,
{
    if n > 0 {
        lemma_states(states, n - 1);
        assert(ran_round(states[n - 1], states[n - 1 + 1]));
        lemma_grown_round(states[n - 1].learner.booster, states[n].learner.booster, n - 1);
    }
}

/// A round's scores stand set by set, metric after metric, each under the names of its set and its
/// metric and with its own value.
pub proof fn lemma_round_scores(
    sets: Seq<String>,
    metrics: Seq<String>,
    scores: Seq<Vec<u64>>,
    round: Seq<(String, u64)>,
    s: int,
    k: int,
)
    requires
        names_scores(sets, metrics, round),
        holds_scores(metrics.len() as int, scores, round),
        scores.len() == sets.len(),
        0 <= s < sets.len(),
        0 <= k < metrics.len(),
    ensures
        round.len() == sets.len() * metrics.len(),
        round[s * metrics.len() + k].0@ == sets[s]@ + "-"@ + metrics[k]@,
        round[s * metrics.len() + k].1 == scores[s]@[k],
{
    let m = metrics.len() as int;
    assert(round[score_at(m, s, k)].0@ == sets[s]@ + "-"@ + metrics[k]@);
    assert(round[score_at(m, s, k)].1 == scores[s]@[k]);
}

/// The rounds are run in order, until as many were run as were asked for or one was the last.
pub proof fn lemma_next_round<T>(fit: Fit<T>)
    ensures
        fit.next() matches Some(i) ==> i == fit.rounds.done && i < fit.rounds.total && !fit.rounds.stopped,
        fit.next() is None ==> fit.rounds.stopped || fit.rounds.done >= fit.rounds.total,
{
}

} // verus!
