use xgboost_rs::error::Error;
use xgboost_rs::gpu::evaluate_multi::{evaluate_feature_multi_kernel, prefix_scan_kernel, MultiNodeInput};
use xgboost_rs::gpu::evaluate_splits::{
    better, choose_trial, feature_trials, tag_index, unpack_winner, DeviceSplitCandidate, NodeInput, SplitConfig,
    SplitEvaluatorGpu, Trial,
};
use xgboost_rs::gpu::shared_search::{
    choose_shared, deal, reduce_best, reduce_candidates_shared, scan_run, scan_tile, unit_trials,
};
use xgboost_rs::gpu::split_rules::{
    child_weight, clamp_delta, monotone_ok, split_form, threshold_l1, Shrink, SplitForm,
};
use xgboost_rs::gpu::GradientPairInt64;

fn pair(grad: i64, hess: i64) -> GradientPairInt64 {
    GradientPairInt64 { grad, hess }
}

fn evaluator() -> SplitEvaluatorGpu {
    let cfg = SplitConfig {
        lambda: 1.0f32.to_bits(),
        alpha: 0,
        max_delta_step: 0,
        min_child_weight: 1.0f32.to_bits(),
        monotone: vec![1],
    };
    let cuts: Vec<u32> = [1.0f32, 2.0, 3.0, 10.0, 20.0].iter().map(|v| v.to_bits()).collect();
    let mins: Vec<u32> = [0.0f32, 5.0].iter().map(|v| v.to_bits()).collect();
    SplitEvaluatorGpu::new(true, &[0, 3, 5], &cuts, &mins, cfg).unwrap()
}

#[test]
fn doubles_are_needed() {
    let cfg = SplitConfig { lambda: 0, alpha: 0, max_delta_step: 0, min_child_weight: 0, monotone: Vec::new() };
    assert!(matches!(SplitEvaluatorGpu::new(false, &[0], &[], &[], cfg), Err(Error::NoF64Support)));
    let ev = evaluator();
    assert_eq!(ev.monotone, vec![1, 0]);
    assert!(ev.has_constraint);
}

#[test]
fn splits_are_listed_at_bins_that_hold_rows() {
    let ev = evaluator();
    let hist = [pair(4, 2), pair(0, 0), pair(-1, 3), pair(2, 2), pair(1, 1)];
    // Feature 0 holds 3 of the parent's 5: it has missing rows, so both scans are made.
    let node = NodeInput { hist_base: 0, parent_grad: 5, parent_hess: 9, root_gain: 0, lower: 0, upper: 0 };
    let trials = ev.trials(&hist, &node, 0, false);
    let seen: Vec<(u32, u32, bool, i64)> =
        trials.iter().map(|t| (t.rank, t.bin, t.backward, t.left.grad)).collect();
    assert_eq!(seen, vec![(0, 0, false, 4), (2, 2, false, 3), (3, 2, true, 6), (5, 0, true, 2)]);
    assert!(ev.trials(&hist, &node, 0, true).is_empty());
    // A feature whose bins hold the whole parent is scanned once.
    let whole = NodeInput { parent_grad: 3, parent_hess: 3, ..node };
    assert!(ev.trials(&hist, &whole, 1, false).iter().all(|t| !t.backward));
}

#[test]
fn the_larger_gain_wins_and_the_earlier_on_a_tie() {
    let one = 1.0f32.to_bits();
    let two = 2.0f32.to_bits();
    assert!(better(two, 9, one, 0) && !better(one, 0, two, 9));
    assert!(better(two, 3, two, 4) && !better(two, 4, two, 3));
    let ev = evaluator();
    let hist = [pair(1, 1), pair(1, 1), pair(1, 1), pair(0, 0), pair(0, 0)];
    let node = NodeInput { hist_base: 0, parent_grad: 3, parent_hess: 3, root_gain: 0, lower: 0, upper: 0 };
    let trials = ev.trials(&hist, &node, 0, false);
    assert_eq!(choose_trial(&trials, &[one, two, two]), Some(1));
    assert_eq!(choose_trial(&trials, &[0, 0, f32::NEG_INFINITY.to_bits()]), None);
    assert_eq!(choose_trial(&trials, &[f32::NAN.to_bits(), one, 0]), Some(1));
}

#[test]
fn the_best_feature_wins_a_node() {
    let ev = evaluator();
    let hist = [pair(4, 2), pair(-3, 2), pair(-1, 3), pair(2, 4), pair(-2, 3)];
    let node = NodeInput { hist_base: 0, parent_grad: 0, parent_hess: 7, root_gain: 0, lower: 0, upper: 0 };
    let batch = ev.batch_trials(&hist, &[node], &[1, 1]);
    assert_eq!(batch.len(), 2);
    let gains: Vec<Vec<u32>> = batch
        .iter()
        .enumerate()
        .map(|(f, trials)| trials.iter().map(|t| ((f + 1) as f32 + t.rank as f32).to_bits()).collect())
        .collect();
    let best = ev.evaluate(1, &batch, &gains);
    assert_eq!(best[0].split_index(), 0);
    assert_eq!(f32::from_bits(best[0].loss_chg), 3.0);
    assert_eq!(f32::from_bits(best[0].split_value), 3.0);
    assert_eq!((best[0].left_grad, best[0].left_hess), (0, 7));
    // Masking the feature leaves the other.
    let masked = ev.batch_trials(&hist, &[node], &[0, 1]);
    let gains: Vec<Vec<u32>> = masked.iter().map(|t| vec![1.0f32.to_bits(); t.len()]).collect();
    let best = ev.evaluate(1, &masked, &gains);
    assert_eq!(best[0].split_index(), 1);
}

#[test]
fn a_backward_split_at_the_first_bin_is_below_every_value() {
    let ev = evaluator();
    let hist = [pair(1, 1), pair(1, 1), pair(1, 1), pair(0, 0), pair(0, 0)];
    let node = NodeInput { hist_base: 0, parent_grad: 9, parent_hess: 9, root_gain: 0, lower: 0, upper: 0 };
    let trials = ev.trials(&hist, &node, 0, false);
    let gains: Vec<u32> = trials.iter().map(|t| (if t.backward && t.bin == 0 { 5.0f32 } else { 1.0 }).to_bits()).collect();
    let candidate = ev.evaluate_feature_kernel(0, &trials, &gains);
    assert_eq!(f32::from_bits(candidate.split_value), 0.0);
    assert!(candidate.default_left());
    assert_eq!((candidate.left_grad, candidate.left_hess), (6, 6));
}

#[test]
fn vector_leaf_splits_carry_every_target() {
    let ev = evaluator();
    let mut hist = vec![pair(1, 1), pair(2, 1), pair(3, 1), pair(5, 2), pair(1, 1)];
    hist.extend([pair(-1, 1), pair(0, 1), pair(4, 1), pair(2, 2), pair(1, 1)]);
    let node = MultiNodeInput {
        hist_base: 0,
        root_gain: 0,
        lower: 0,
        upper: 0,
        parent: vec![pair(6, 3), pair(4, 4)],
    };
    let scan = prefix_scan_kernel(&ev, &hist, 0, 2);
    assert_eq!(scan.prefix[..3], [pair(1, 1), pair(3, 2), pair(6, 3)]);
    let trials = evaluate_feature_multi_kernel(&ev, &hist, &scan, &node, 0, false);
    // The second target's bins hold 3 of its 4, so missing values are looked for too.
    assert_eq!(trials.len(), 6);
    assert_eq!(trials[1].targets, vec![pair(3, 2), pair(-1, 2)]);
    assert_eq!(trials[1].trial.left, pair(2, 4));
    let sums = ev.multi_child_sums(&hist, &scan, &node, 0, 1, false);
    assert_eq!(sums, vec![(pair(3, 2), pair(3, 1)), (pair(-1, 2), pair(5, 2))]);
    let sums = ev.multi_child_sums(&hist, &scan, &node, 0, 1, true);
    assert_eq!(sums, vec![(pair(3, 2), pair(3, 1)), (pair(0, 3), pair(4, 1))]);
    let batch = vec![trials, Vec::new()];
    let gains = vec![vec![0, 7.0f32.to_bits(), 0, 0, 0, 0], Vec::new()];
    let best = ev.evaluate_multi(1, &batch, &gains);
    assert_eq!((best[0].split_index(), best[0].left_grad), (0, 2));
}

#[test]
fn a_feature_index_carries_the_default_direction() {
    let c = DeviceSplitCandidate { sindex: tag_index(7, true), ..Default::default() };
    assert_eq!((c.split_index(), c.default_left()), (7, true));
    let c = DeviceSplitCandidate { sindex: tag_index(7, false), ..Default::default() };
    assert_eq!((c.split_index(), c.default_left()), (7, false));
    let words = [0, 0, 0, 0, 0, 3, -5, 6, 7, 8];
    let c = unpack_winner(&words, 1);
    assert_eq!((c.sindex, c.left_grad, c.left_hess, c.loss_chg, c.split_value), (3, -5, 6, 7, 8));
}

#[test]
fn split_rules_follow_the_arithmetic() {
    let w = |x: f64| x.to_bits();
    let n = |x: f32| x.to_bits();
    assert_eq!(threshold_l1(w(3.0), w(1.0)), Shrink::Lower);
    assert_eq!(threshold_l1(w(-3.0), w(1.0)), Shrink::Raise);
    assert_eq!(threshold_l1(w(-1.0), w(1.0)), Shrink::Nothing);
    assert_eq!(threshold_l1(w(f64::NAN), w(1.0)), Shrink::Nothing);
    for (dw, expected) in [(5.0, 2.0), (-5.0, -2.0), (1.5, 1.5), (-2.0, -2.0), (f64::INFINITY, 2.0)] {
        assert_eq!(f64::from_bits(clamp_delta(w(dw), w(2.0), true)), expected);
        assert_eq!(f64::from_bits(clamp_delta(w(dw), w(2.0), false)), dw);
    }
    assert!(f64::from_bits(clamp_delta(w(f64::NAN), w(2.0), true)).is_nan());
    assert_eq!(child_weight(n(9.0), n(-1.0), n(1.0), true), n(1.0));
    assert_eq!(child_weight(n(-9.0), n(-1.0), n(1.0), true), n(-1.0));
    assert_eq!(child_weight(n(-9.0), n(-1.0), n(1.0), false), n(-9.0));
    assert_eq!(split_form(w(1.0), w(1.0), w(1.0), false, false), SplitForm::Closed);
    assert_eq!(split_form(w(1.0), w(1.0), w(1.0), false, true), SplitForm::Weighted);
    assert_eq!(split_form(w(1.0), w(0.5), w(1.0), true, true), SplitForm::Rejected);
    assert_eq!(split_form(w(0.0), w(1.0), w(0.0), false, false), SplitForm::Rejected);
    assert!(monotone_ok(0, n(2.0), n(1.0)) && monotone_ok(1, n(1.0), n(1.0)) && monotone_ok(-1, n(2.0), n(1.0)));
    assert!(!monotone_ok(1, n(2.0), n(1.0)) && !monotone_ok(-1, n(1.0), n(2.0)));
}

#[test]
fn a_tile_is_summed_up_to_every_cell() {
    for n in [0usize, 1, 2, 7, 8, 13] {
        let cells: Vec<GradientPairInt64> =
            (0..n).map(|i| GradientPairInt64 { grad: i as i64 * 3 - 7, hess: i as i64 + 1 }).collect();
        let mut sums = cells.clone();
        scan_tile(&mut sums);
        let mut acc = GradientPairInt64::default();
        for (cell, sum) in cells.iter().zip(&sums) {
            acc = acc.wrapping_add(*cell);
            assert_eq!(acc, *sum);
        }
    }
}

#[test]
fn shared_units_find_what_one_unit_finds() {
    let bins: Vec<GradientPairInt64> = (0..23i64)
        .map(|i| match i % 4 {
            1 => GradientPairInt64 { grad: 0, hess: 0 },
            _ => GradientPairInt64 { grad: (i * 37) % 19 - 9, hess: (i * 11) % 5 + 1 },
        })
        .collect();
    let whole = bins.iter().fold(GradientPairInt64::default(), |a, b| a.wrapping_add(*b));
    let score = |parent: GradientPairInt64, t: &Trial| -> u32 {
        let right = parent.wrapping_sub(t.left);
        let part = |g: GradientPairInt64| (g.grad * g.grad) as f32 / (g.hess as f32 + 1.0);
        (part(t.left) + part(right) - part(parent)).to_bits()
    };
    let more = whole.wrapping_add(GradientPairInt64 { grad: 5, hess: 2 });
    for parent in [whole, more] {
        let serial = feature_trials(&bins, 0, 2, 21, parent, false);
        let gains: Vec<u32> = serial.iter().map(|t| score(parent, t)).collect();
        let winner = choose_trial(&serial, &gains).map(|k| (gains[k], serial[k]));
        assert!(winner.is_some());
        for block in [1usize, 2, 4, 8, 32] {
            let units = unit_trials(&bins, 0, 2, 21, parent, false, block);
            assert_eq!(units.iter().map(Vec::len).sum::<usize>(), serial.len());
            let shared: Vec<Vec<u32>> = units.iter().map(|u| u.iter().map(|t| score(parent, t)).collect()).collect();
            assert_eq!(choose_shared(&units, &shared), winner, "{block} units");
        }
    }
    assert!(unit_trials(&bins, 0, 2, 21, whole, true, 4).iter().all(Vec::is_empty));
}

#[test]
fn the_best_unit_wins_and_the_lower_rank_on_a_tie() {
    let trial = |rank| Trial { rank, bin: rank, backward: false, left: GradientPairInt64::default() };
    let one = |gain: f32, rank| Some((gain.to_bits(), trial(rank)));
    assert_eq!(reduce_best(vec![None, one(2.0, 9), one(3.0, 8), one(3.0, 5)]), one(3.0, 5));
    assert_eq!(reduce_best(vec![one(1.0, 3), None]), one(1.0, 3));
    assert_eq!(reduce_best(vec![None]), None);
}

#[test]
fn one_target_chooses_the_scalar_split() {
    let ev = evaluator();
    let hist = vec![pair(-4, 2), pair(0, 0), pair(9, 3), pair(1, 2), pair(3, 2)];
    let parent = pair(4, 5);
    let node = MultiNodeInput { hist_base: 0, root_gain: 0, lower: 0, upper: 0, parent: vec![parent] };
    let scan = prefix_scan_kernel(&ev, &hist, 0, 1);
    let score = |left: GradientPairInt64| -> u32 {
        let right = parent.wrapping_sub(left);
        if left.hess == 0 || right.hess == 0 {
            return 0;
        }
        let part = |g: GradientPairInt64| (g.grad * g.grad) as f32 / (g.hess as f32 + 1.0);
        (part(left) + part(right) - part(parent)).to_bits()
    };
    for f in 0..ev.n_features {
        let vector = evaluate_feature_multi_kernel(&ev, &hist, &scan, &node, f, false);
        let shared: Vec<Trial> = vector.iter().map(|m| m.trial).collect();
        let vector_gains: Vec<u32> = vector.iter().map(|m| score(m.targets[0])).collect();
        let scalar = feature_trials(&hist, 0, ev.cut_ptrs[f], ev.cut_ptrs[f + 1], parent, false);
        let gains: Vec<u32> = scalar.iter().map(|t| score(t.left)).collect();
        let a = choose_trial(&shared, &vector_gains).map(|k| (vector_gains[k], shared[k]));
        let b = choose_trial(&scalar, &gains).map(|k| (gains[k], scalar[k]));
        assert_eq!(a, b);
        assert!(a.is_some());
    }
}

#[test]
fn a_run_is_scanned_tile_by_tile() {
    let bins: Vec<GradientPairInt64> = (0..17i64).map(|i| pair(i * i - 20, i % 3)).collect();
    for block in [1usize, 4, 16, 32] {
        let prefix = scan_run(&bins, 3, 11, block);
        let mut acc = GradientPairInt64::default();
        assert_eq!(prefix.len(), 11);
        for (i, sum) in prefix.iter().enumerate() {
            acc = acc.wrapping_add(bins[3 + i]);
            assert_eq!(acc, *sum, "{block} units, bin {i}");
        }
    }
}

#[test]
fn features_are_reduced_alike_by_one_unit_and_by_several() {
    let ev = evaluator();
    let candidate = |gain: f32, fidx: u32| DeviceSplitCandidate {
        loss_chg: gain.to_bits(),
        sindex: fidx,
        split_value: (fidx as f32).to_bits(),
        left_grad: i64::from(fidx),
        left_hess: 1,
        is_cat: false,
    };
    let gains: [&[f32]; 4] = [&[0.5, 2.0, 2.0, 1.0, 2.0], &[0.0, -1.0], &[], &[3.0]];
    for list in gains {
        let all: Vec<DeviceSplitCandidate> = list.iter().enumerate().map(|(f, g)| candidate(*g, f as u32)).collect();
        let serial = ev.reduce_candidates(&all);
        for block in [1usize, 2, 4, 8] {
            assert_eq!(reduce_candidates_shared(&all, block), serial, "{block} units");
        }
    }
    let trial = |rank, backward| Trial { rank, bin: 0, backward, left: GradientPairInt64::default() };
    let units = deal(&[trial(0, false), trial(1, false), trial(2, false), trial(3, true), trial(4, true)], 3, 2);
    assert_eq!(units, vec![vec![trial(0, false), trial(2, false), trial(3, true)], vec![trial(1, false), trial(4, true)]]);
}
