use xgboost_rs::gpu::categorical::{
    enumerate, merge_winners, plan_trials, replaces, CatCandidate, CatPlan, CatWinner, Score,
};
use xgboost_rs::gpu::evaluate_splits::DeviceSplitCandidate;
use xgboost_rs::gpu::GradientPairInt64;
use xgboost_rs::parameters::{DefaultDirection, Device, ProcessType, SamplingMethod};
use xgboost_rs::tree::cat;
use xgboost_rs::tree::param::{GrowPolicy, TrainParam};

fn param() -> TrainParam {
    TrainParam {
        learning_rate: 0.3f32.to_bits(),
        min_split_loss: 0,
        max_depth: 6,
        max_leaves: 0,
        max_bin: 256,
        grow_policy: GrowPolicy::DepthWise,
        min_child_weight: 1.0f32.to_bits(),
        reg_lambda: 1.0f32.to_bits(),
        reg_alpha: 0,
        max_delta_step: 0,
        subsample: 1.0f32.to_bits(),
        sampling_method: SamplingMethod::Uniform,
        colsample_bytree: 1.0f32.to_bits(),
        colsample_bylevel: 1.0f32.to_bits(),
        colsample_bynode: 1.0f32.to_bits(),
        num_parallel_tree: 1,
        monotone_constraints: Vec::new(),
        interaction_constraints: None,
        max_cached_hist_node: 65536,
        multi_output_tree: false,
        sparse_threshold: 0.2f64.to_bits(),
        max_cat_to_onehot: 4,
        max_cat_threshold: 64,
        default_direction: DefaultDirection::Learn,
        opt_dense_col: 1.0f32.to_bits(),
        updaters: Vec::new(),
        process_type: ProcessType::Default,
        refresh_leaf: true,
        device: Device::Cpu,
    }
}

fn pair(grad: i64, hess: i64) -> GradientPairInt64 {
    GradientPairInt64 { grad, hess }
}

fn gain(p: &TrainParam, g: GradientPairInt64) -> f32 {
    let (grad, hess) = (g.grad as f64, g.hess as f64);
    (grad * grad / (hess + f64::from(f32::from_bits(p.reg_lambda)))) as f32
}

fn weight(p: &TrainParam, g: GradientPairInt64) -> f32 {
    let (grad, hess) = (g.grad as f64, g.hess as f64);
    if hess <= 0.0 { 0.0 } else { (-grad / (hess + f64::from(f32::from_bits(p.reg_lambda)))) as f32 }
}

/// Score the trials of a plan against a parent whose own gain is zero.
fn scores(p: &TrainParam, plan: &CatPlan) -> Vec<Score> {
    let least = f64::from(f32::from_bits(p.min_child_weight));
    plan.trials
        .iter()
        .map(|t| {
            let heavy = |g: GradientPairInt64| g.hess as f64 >= least && g.hess > 0;
            let g = if heavy(t.left) && heavy(t.right) {
                gain(p, t.left) + gain(p, t.right)
            } else {
                f32::NEG_INFINITY
            };
            Score { gain: g.to_bits(), loss_chg: (g - 0.0).to_bits() }
        })
        .collect()
}

fn search(
    p: &TrainParam,
    bins: &[GradientPairInt64],
    parent: GradientPairInt64,
    cut_values: &[f32],
) -> (CatCandidate, Vec<u32>) {
    let weights: Vec<u32> = bins.iter().map(|b| weight(p, *b).to_bits()).collect();
    let cuts: Vec<u32> = cut_values.iter().map(|v| v.to_bits()).collect();
    let plan = plan_trials(p, bins, &weights, parent);
    enumerate(&plan, &cuts, &scores(p, &plan))
}

#[test]
fn one_hot_isolates_the_single_informative_category() {
    // Three categories; category 1 carries all the negative gradient, so
    // isolating it from {0, 2} is the only useful split.
    let bins = [pair(10, 10), pair(-30, 10), pair(10, 10)];
    let parent = pair(-10, 30);
    let cut_values = [0.0f32, 1.0, 2.0];

    let (cand, bits) = search(&param(), &bins, parent, &cut_values);

    assert!(f32::from_bits(cand.loss_chg) > 0.0, "should find a positive-gain split");
    assert!(!bits.is_empty());
    assert!(cat::check_bit(&bits, 1), "category 1 should be the isolated one");
    assert!(!cat::check_bit(&bits, 0));
    assert!(!cat::check_bit(&bits, 2));
}

#[test]
fn partition_is_used_once_the_category_count_passes_the_onehot_cutoff() {
    let p = TrainParam { max_cat_to_onehot: 2, ..param() };
    let bins: Vec<GradientPairInt64> = vec![pair(5, 10), pair(-5, 10), pair(5, 10)];
    let parent = pair(5, 30);
    let cut_values = [0.0f32, 1.0, 2.0];

    let (cand, bits) = search(&p, &bins, parent, &cut_values);
    // Not asserting a specific split here, only that the partition path
    // (not one-hot) ran and produced a self-consistent candidate: a
    // positive gain always comes with a non-empty bit set.
    assert_eq!(f32::from_bits(cand.loss_chg) > 0.0, !bits.is_empty());
}

#[test]
fn no_finite_gain_returns_no_candidate() {
    let p = TrainParam { min_child_weight: 1000.0f32.to_bits(), ..param() };
    let bins = [pair(10, 1), pair(-10, 1)];
    let parent = pair(0, 2);
    let cut_values = [0.0f32, 1.0];

    let (cand, bits) = search(&p, &bins, parent, &cut_values);
    assert_eq!(f32::from_bits(cand.loss_chg), 0.0);
    assert!(bits.is_empty());
}

#[test]
fn a_category_is_tried_with_and_without_the_missing_rows() {
    let bins = [pair(4, 2), pair(-7, 3)];
    let parent = pair(1, 9);
    let plan = plan_trials(&param(), &bins, &[0, 0], parent);
    assert!(plan.one_hot);
    let sums: Vec<(i64, i64, bool)> =
        plan.trials.iter().map(|t| (t.left.grad, t.right.grad, t.default_left)).collect();
    // The feature's bins hold -3 of the parent's 1, so the missing rows hold 4.
    assert_eq!(sums, vec![(-3, 4, true), (-7, 8, false), (8, -7, true), (4, -3, false)]);
}

#[test]
fn an_ordered_set_goes_right_from_its_head() {
    let p = TrainParam { max_cat_to_onehot: 2, ..param() };
    let bins = [pair(5, 10), pair(-9, 10), pair(2, 10)];
    let parent = pair(-2, 30);
    let weights: Vec<u32> = bins.iter().map(|b| weight(&p, *b).to_bits()).collect();
    let plan = plan_trials(&p, &bins, &weights, parent);
    assert!(!plan.one_hot);
    assert_eq!(plan.order, vec![0, 2, 1]);
    let sums: Vec<(i64, i64, usize)> =
        plan.trials.iter().map(|t| (t.left.grad, t.right.grad, t.choice)).collect();
    assert_eq!(sums, vec![(-7, 5, 1), (-9, 7, 2), (-9, 7, 2), (-7, 5, 1)]);
    let cuts: Vec<u32> = [0.0f32, 1.0, 2.0].iter().map(|v| v.to_bits()).collect();
    let (cand, bits) = enumerate(&plan, &cuts, &scores(&p, &plan));
    assert!(cand.default_left);
    assert!(cat::check_bit(&bits, 0) && cat::check_bit(&bits, 2) && !cat::check_bit(&bits, 1));
    assert!(f32::from_bits(cand.split_value).is_nan());
}

#[test]
fn a_tie_keeps_the_lower_feature() {
    let one = 1.0f32.to_bits();
    assert!(!replaces(one, 3, one, 2));
    assert!(replaces(one, 1, one, 2));
    assert!(replaces(2.0f32.to_bits(), 3, one, 2));
    assert!(!replaces(f32::INFINITY.to_bits(), 0, one, 2));
    assert!(!replaces(f32::NAN.to_bits(), 0, one, 2));
}

#[test]
fn the_best_of_all_features_is_kept() {
    let numeric = DeviceSplitCandidate {
        loss_chg: 2.0f32.to_bits(),
        sindex: 1,
        split_value: 0,
        left_grad: 0,
        left_hess: 0,
        is_cat: false,
    };
    let winner = |fidx: u32, gain: f32, word: u32| CatWinner {
        fidx,
        candidate: CatCandidate {
            loss_chg: gain.to_bits(),
            split_value: 0,
            default_left: true,
            left: pair(1, 2),
        },
        bits: vec![word],
    };
    let (best, bits) = merge_winners(numeric, &[winner(4, 1.0, 7), winner(5, 3.0, 8), winner(6, 3.0, 9)]);
    assert_eq!((best.split_index(), best.default_left(), best.is_cat), (5, true, true));
    assert_eq!(bits, vec![8]);
    let (best, bits) = merge_winners(numeric, &[winner(4, 2.0, 7)]);
    assert_eq!((best.split_index(), best.is_cat, bits.len()), (1, false, 0));
    let (best, _) = merge_winners(numeric, &[winner(0, 2.0, 7)]);
    assert_eq!(best.split_index(), 0);
}

#[test]
fn category_sets_are_bit_sets() {
    let mut bits = cat::empty_set(70);
    assert_eq!(bits.len(), 3);
    cat::set_bit(&mut bits, 0);
    cat::set_bit(&mut bits, 69);
    assert_eq!(bits, vec![1, 0, 1 << 5]);
    assert!(cat::check_bit(&bits, 69) && !cat::check_bit(&bits, 68) && !cat::check_bit(&bits, 500));
}
