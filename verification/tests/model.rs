use xgboost_rs::booster::{Booster as ModelBooster, Predictor};
use xgboost_rs::context::Context;
use xgboost_rs::data::DMatrix;
use xgboost_rs::error::Error;
use xgboost_rs::gbm::{
    choose_dropped, gather_group, modifiers, round_steps, tree_modified, update_slots, weighted_pick, Booster,
    DartConfig, DropDraws, GBTree, GBTreeModel, Grower, LinearModel, Preparation, RoundKind, TreeStep,
};
use xgboost_rs::learner::{Learner, TreeRange, HALF_BITS};
use xgboost_rs::parameters::{
    DartNormalizeType, DartSampleType, DefaultDirection, Device, GeneralParameters, IterationRange,
    LearningTaskParameters, PredictParameters, PredictionType, ProcessType, SamplingMethod, TreeUpdaterName,
};
use xgboost_rs::rng::Mt19937;
use xgboost_rs::rounds::drop_rows;
use xgboost_rs::tree::param::{GrowPolicy, TrainParam};

fn param(updaters: &[TreeUpdaterName]) -> TrainParam {
    TrainParam {
        learning_rate: 0.3f32.to_bits(),
        min_split_loss: 0,
        max_depth: 6,
        max_leaves: 0,
        max_bin: 256,
        grow_policy: GrowPolicy::DepthWise,
        min_child_weight: 1.0f32.to_bits(),
        reg_lambda: 1.0f32.to_bits(),
        reg_alpha: 0,
        max_delta_step: 0,
        subsample: 1.0f32.to_bits(),
        sampling_method: SamplingMethod::Uniform,
        colsample_bytree: 1.0f32.to_bits(),
        colsample_bylevel: 1.0f32.to_bits(),
        colsample_bynode: 1.0f32.to_bits(),
        num_parallel_tree: 2,
        monotone_constraints: Vec::new(),
        interaction_constraints: None,
        max_cached_hist_node: 65536,
        multi_output_tree: false,
        sparse_threshold: 0.2f64.to_bits(),
        max_cat_to_onehot: 4,
        max_cat_threshold: 64,
        default_direction: DefaultDirection::Learn,
        opt_dense_col: 1.0f32.to_bits(),
        updaters: updaters.to_vec(),
        process_type: ProcessType::Default,
        refresh_leaf: true,
        device: Device::Cpu,
    }
}

fn dart(one_drop: bool, skip: f32) -> DartConfig {
    DartConfig {
        sample_type: DartSampleType::Uniform,
        normalize_type: DartNormalizeType::Tree,
        rate_drop: 0.5f32.to_bits(),
        one_drop,
        skip_drop: skip.to_bits(),
        learning_rate: 0.3f32.to_bits(),
    }
}

fn learner(trees: usize) -> Learner<u32> {
    let mut l: Learner<u32> = Learner::new(Context::default(), 5, param(&[]), None);
    if let Booster::Tree(t) = &mut l.booster {
        for i in 0..trees {
            t.model.push_tree(i as u32, 0, 1.0f32.to_bits());
        }
    }
    l
}

fn linear() -> Learner<u32> {
    let model = LinearModel { weights: vec![7], num_feature: 5, num_output_group: 0, num_boosted_rounds: 4 };
    Learner::with_booster(Context::default(), Booster::Linear(model), Some(0.25f32.to_bits()))
}

#[test]
fn rounds_are_counted_in_trees() {
    let mut model: GBTreeModel<u32> = GBTreeModel::new(3);
    model.num_parallel_tree = 2;
    model.num_output_group = 3;
    for i in 0..13 {
        model.push_tree(i, i % 3, 2.0f32.to_bits());
    }
    assert_eq!(model.trees_per_round(), 6);
    assert_eq!(model.num_rounds(), 2);
    assert_eq!((model.group_of(4), model.group_of(99)), (1, 0));
    assert_eq!((model.weight_of(4), model.weight_of(99)), (2.0f32.to_bits(), 1.0f32.to_bits()));
    assert_eq!(model.num_trees(), 13);
}

#[test]
fn a_round_grows_group_after_group() {
    let steps = round_steps(2, 2);
    let step = |group, reset| TreeStep { group, reset };
    assert_eq!(steps, vec![step(0, false), step(0, true), step(1, true), step(1, true)]);
    assert!(round_steps(3, 0).is_empty());
    assert_eq!(gather_group(&[1, 2, 3, 4, 5, 6], 3, 2, 1), vec![2, 4, 6]);
}

#[test]
fn an_updating_round_stops_where_the_trees_do() {
    assert_eq!(update_slots(4, 2, 2, 8), vec![(4, 0), (5, 0), (6, 1), (7, 1)]);
    assert_eq!(update_slots(4, 2, 2, 7), vec![(4, 0), (5, 0), (6, 1)]);
    assert!(update_slots(8, 2, 2, 8).is_empty());
}

#[test]
fn an_updating_fit_sets_its_trees_aside() {
    let p = TrainParam { process_type: ProcessType::Update, ..param(&[TreeUpdaterName::Refresh]) };
    let mut t: GBTree<u32> = GBTree::new(3, p);
    t.model.push_tree(5, 0, 0);
    t.model.push_tree(6, 0, 0);
    assert_eq!(t.configure(), Preparation::Nothing);
    assert_eq!(t.trees_to_update, vec![5, 6]);
    assert_eq!(t.model.num_trees(), 0);
    t.model.push_tree(7, 0, 0);
    t.configure();
    assert_eq!((t.trees_to_update.len(), t.model.num_trees()), (2, 1));
    assert_eq!(t.round_kind(), RoundKind::Update);
}

#[test]
fn the_first_growing_updater_decides_a_round() {
    let kind = |updaters: &[TreeUpdaterName]| {
        let mut t: GBTree<u32> = GBTree::new(3, param(updaters));
        (t.grower_kind(), t.configure(), t.round_kind())
    };
    assert_eq!(
        kind(&[TreeUpdaterName::Prune, TreeUpdaterName::GrowColMaker, TreeUpdaterName::GrowHistMaker]),
        (Some(TreeUpdaterName::GrowColMaker), Preparation::SortColumns, RoundKind::Shared(TreeUpdaterName::GrowColMaker))
    );
    assert_eq!(kind(&[TreeUpdaterName::GrowHistMaker]).2, RoundKind::Approximate);
    assert_eq!(kind(&[TreeUpdaterName::GrowGpuHist]).1, Preparation::PackMatrix);
    assert_eq!(kind(&[TreeUpdaterName::GrowQuantileHistMaker]).1, Preparation::BinMatrix);
    let mut multi: GBTree<u32> =
        GBTree::new(3, TrainParam { multi_output_tree: true, ..param(&[TreeUpdaterName::GrowGpuHist]) });
    assert_eq!((multi.n_targets(), multi.round_kind()), (1, RoundKind::Shared(TreeUpdaterName::GrowGpuHist)));
    multi.set_num_output_group(4);
    assert_eq!((multi.n_targets(), multi.round_kind()), (4, RoundKind::MultiOutput));
}

#[test]
fn a_rewritten_tree_is_told_from_an_unchanged_one() {
    let stages = modifiers(&[TreeUpdaterName::GrowColMaker, TreeUpdaterName::Prune, TreeUpdaterName::Sync, TreeUpdaterName::Refresh]);
    assert_eq!(stages, vec![TreeUpdaterName::Prune, TreeUpdaterName::Refresh]);
    assert!(tree_modified(&stages, &[0, 0]));
    assert!(!tree_modified(&[TreeUpdaterName::Prune], &[0]));
    assert!(tree_modified(&[TreeUpdaterName::Prune], &[2]));
}

#[test]
fn dropout_follows_its_draws() {
    let draws = |each: &[f32], pick| DropDraws {
        skip: 0.1f32.to_bits(),
        each: each.iter().map(|v| v.to_bits()).collect(),
        thresholds: vec![0.5f32.to_bits(); each.len()],
        pick,
        alive: true,
    };
    let some = draws(&[0.4, 0.9, 0.5, 0.0], 1);
    assert_eq!(choose_dropped(&Some(dart(true, 0.0)), 4, &some), vec![0, 3]);
    assert!(choose_dropped(&None, 4, &some).is_empty());
    assert!(choose_dropped(&Some(dart(true, 0.2)), 4, &some).is_empty());
    assert_eq!(choose_dropped(&Some(dart(true, 0.1)), 4, &some), vec![0, 3]);
    let none = draws(&[0.9, 0.9], 7);
    assert_eq!(choose_dropped(&Some(dart(true, 0.0)), 2, &none), vec![1]);
    assert!(choose_dropped(&Some(dart(false, 0.0)), 2, &none).is_empty());
    assert!(choose_dropped(&Some(dart(true, 0.0)), 0, &none).is_empty());
    let weighted = DartConfig { sample_type: DartSampleType::Weighted, ..dart(true, 0.0) };
    let decayed = DropDraws { alive: false, ..none };
    assert!(choose_dropped(&Some(weighted), 2, &decayed).is_empty());
    let running: Vec<u32> = [0.5f32, 1.5, 3.0].iter().map(|v| v.to_bits()).collect();
    assert_eq!(weighted_pick(&running, 1.0f32.to_bits()), 1);
    assert_eq!(weighted_pick(&running, 9.0f32.to_bits()), 2);
}

#[test]
fn a_booster_knows_its_name_and_shape() {
    let mut l = learner(4);
    assert_eq!((l.booster().name(), l.booster().num_feature(), l.boosted_rounds()), ("gbtree", 5, 2));
    l.set_dart(dart(true, 0.0));
    assert_eq!(l.booster().name(), "dart");
    assert!(l.gbm().unwrap().is_dart());
    let l = linear();
    assert_eq!((l.booster().name(), l.num_output_group(), l.boosted_rounds()), ("gblinear", 1, 4));
    assert!(l.gbm().is_none() && l.booster().linear().is_some() && !l.has_trees());
    assert_eq!(l.all_trees(), TreeRange { begin: 0, end: 0 });
    assert_eq!(l.base_rounds(), 0);
}

#[test]
fn the_intercept_is_given_or_estimated_or_one_half() {
    let mut l = learner(0);
    assert_eq!(l.base_scores(), [HALF_BITS]);
    l.set_intercept(3, vec![1, 2]);
    assert_eq!(l.base_scores(), [1, 2, 2]);
    assert_eq!(l.num_output_group(), 3);
    l.set_boost_from_average(false);
    l.set_intercept(2, vec![1, 2]);
    assert_eq!(l.base_scores(), [HALF_BITS, HALF_BITS]);
    l.base_score_override = Some(vec![8]);
    l.set_intercept(2, vec![1, 2]);
    assert_eq!(l.base_scores(), [8, 8]);
    l.base_score_override = Some(vec![8, 9]);
    l.set_intercept(2, vec![]);
    assert_eq!(l.base_scores(), [8, 9]);
    l.finish_configure(vec![5, 6], true, vec![0; 4]);
    assert!(l.configured);
    assert_eq!(l.base_margin(), [5, 6]);
    l.set_intercept(7, vec![]);
    assert_eq!(l.base_scores(), [8, 9]);
}

#[test]
fn labels_are_counted_before_a_fit() {
    let d = DMatrix::from_dense(&[0, 0], 2, 1, f32::NAN.to_bits()).unwrap();
    let l = learner(0);
    assert_eq!(l.check_labels(&d, 2), Err(Error::DataShape { expected: 4, got: 0 }));
    let mut labelled = d.clone();
    labelled.set_labels(&[0, 0]).unwrap();
    assert_eq!(l.check_labels(&labelled, 1), Ok(()));
}

#[test]
fn a_fit_continues_from_a_model_of_its_kind() {
    let mut l = learner(0);
    let mut base = learner(6);
    base.base_score = vec![3];
    assert_eq!(l.continue_from(base.clone()), Ok(()));
    assert!(l.has_trees());
    assert_eq!(l.base_rounds(), 3);
    assert_eq!(l.base_score_override, Some(vec![3]));
    assert_eq!(l.all_trees(), TreeRange { begin: 0, end: 6 });

    let reason = |e: Error| match e {
        Error::InvalidParameter { name: "booster", reason } => reason,
        other => panic!("{other:?}"),
    };
    let refused = reason(learner(0).continue_from(linear()).unwrap_err());
    assert_eq!(refused, "cannot continue a `gbtree` fit from a `gblinear` model");
    base.set_dart(dart(true, 0.0));
    let mut l = learner(0);
    assert!(reason(l.continue_from(base).unwrap_err()).starts_with("continuing from a `dart` model"));
    // The trees were taken over before the refusal.
    assert!(l.has_trees());
    assert_eq!(l.base_score_override, None);
    assert_eq!(linear().continue_from(linear()), Ok(()));
}

#[test]
fn a_model_read_back_keeps_its_intercept() {
    let l: Learner<u32> = Learner::from_model(Booster::Tree(GBTree::new(2, param(&[]))), vec![4, 5], vec![6, 7]);
    assert_eq!(l.base_score(), 4);
    assert_eq!(l.base_score_override, Some(vec![4, 5]));
    assert_eq!(l.seed(), 0);
}

#[test]
fn resetting_a_grower_keeps_what_must_survive() {
    let mut g = Grower::Hist;
    g.reset();
    assert!(matches!(g, Grower::Hist));
}

fn grown(groups: usize, parallel: u32, multi: bool) -> GBTree<u32> {
    let mut t: GBTree<u32> =
        GBTree::new(3, TrainParam { num_parallel_tree: parallel, multi_output_tree: multi, ..param(&[]) });
    t.set_num_output_group(groups);
    t
}

#[test]
fn a_round_files_its_trees_group_by_group() {
    let mut t = grown(3, 2, false);
    let groups: Vec<u32> = t.plan_round().iter().map(|s| s.group).collect();
    assert_eq!(groups, vec![0, 0, 1, 1, 2, 2]);
    t.file_round(vec![10, 11, 12, 13, 14, 15], 7);
    assert_eq!(t.model.trees, vec![10, 11, 12, 13, 14, 15]);
    assert_eq!(t.model.tree_info, groups);
    assert_eq!(t.model.tree_weight, vec![7; 6]);
    assert_eq!(t.model.num_rounds(), 1);
    // One tree covers every output.
    let mut t = grown(3, 2, true);
    assert_eq!(t.plan_round().iter().map(|s| (s.group, s.reset)).collect::<Vec<_>>(), vec![(0, false), (0, true)]);
    t.file_round(vec![4, 5], 9);
    assert_eq!(t.model.tree_info, vec![0, 0]);
}

#[test]
fn every_round_counts_once() {
    for multi in [false, true] {
        for groups in [1usize, 2, 5] {
            for parallel in [1u32, 3] {
                let mut t = grown(groups, parallel, multi);
                for round in 0..4 {
                    assert_eq!(t.model.num_rounds(), round, "{multi} {groups} {parallel}");
                    let n = t.plan_round().len();
                    assert_eq!(n, t.model.trees_per_round());
                    t.file_round(vec![7; n], 1);
                }
            }
        }
    }
    // Three rounds of a vector-leaf fit of two targets, one tree each.
    let mut l: Learner<u32> =
        Learner::new(Context::default(), 5, TrainParam { multi_output_tree: true, num_parallel_tree: 1, ..param(&[]) }, None);
    l.set_intercept(2, vec![1, 2]);
    if let Booster::Tree(t) = &mut l.booster {
        for i in 0..3 {
            t.file_round(vec![i], 1);
        }
    }
    assert_eq!(l.boosted_rounds(), 3);
}

#[test]
fn an_update_goes_by_its_own_number_of_trees() {
    let mut t = grown(2, 1, false);
    t.param.num_parallel_tree = 3;
    t.trees_to_update = vec![0; 6];
    assert_eq!(t.plan_update(), vec![(0, 0), (1, 0), (2, 0), (3, 1), (4, 1), (5, 1)]);
}

#[test]
fn a_round_reseeds_by_the_rounds_before_it() {
    let learning = LearningTaskParameters { seed: 5, seed_per_iteration: true, ..Default::default() };
    let ctx = Context::new(&GeneralParameters::default(), &learning);
    let mut l: Learner<u32> =
        Learner::new(ctx, 5, TrainParam { multi_output_tree: true, num_parallel_tree: 1, ..param(&[]) }, None);
    l.set_intercept(2, vec![1, 2]);
    for round in 0..3u32 {
        l.begin_round();
        assert_eq!(l.ctx.rng.next_u32(), Mt19937::new(5 * 127 + round).next_u32());
        if let Booster::Tree(t) = &mut l.booster {
            t.file_round(vec![round], 1);
        }
    }
    // Without it the sequence goes on.
    l.ctx.seed_per_iteration = false;
    let mut on = l.ctx.rng.clone();
    l.begin_round();
    assert_eq!(l.ctx.rng.next_u32(), on.next_u32());
}

#[test]
fn settling_the_intercept_touches_nothing_else() {
    let mut l = learner(4);
    l.train_cache = vec![9];
    l.set_intercept(3, vec![1, 2]);
    assert_eq!((l.base_score.as_slice(), l.train_cache.as_slice()), (&[1, 2, 2][..], &[9][..]));
    let Booster::Tree(t) = &l.booster else { panic!("a tree booster") };
    assert_eq!((t.model.num_output_group, t.model.trees.len(), t.model.num_feature), (3, 4, 5));
    assert!(t.dropped.is_empty() && t.trees_to_update.is_empty() && !t.constant_hessian);
}

#[test]
fn an_updating_fit_revisits_its_rounds_in_order() {
    let p = TrainParam { process_type: ProcessType::Update, ..param(&[TreeUpdaterName::Refresh]) };
    let mut t: GBTree<u32> = GBTree::new(3, p);
    t.set_num_output_group(2);
    t.file_round((0..4).collect(), 1);
    t.file_round((4..8).collect(), 1);
    t.model.push_tree(8, 0, 1);
    t.configure();
    let mut revisited = Vec::new();
    loop {
        let slots = t.plan_update();
        if slots.is_empty() {
            break;
        }
        let trees: Vec<u32> = slots.iter().map(|s| t.trees_to_update[s.0] + 100).collect();
        revisited.push(trees.len());
        t.file_update(trees, &slots);
        if revisited.len() == 3 {
            break;
        }
    }
    assert_eq!(revisited, vec![4, 4, 1]);
    assert_eq!(t.model.trees, (100..109).collect::<Vec<u32>>());
    assert_eq!(t.model.tree_info, vec![0, 0, 1, 1, 0, 0, 1, 1, 0]);
    assert_eq!(t.model.weight_of(3), 1.0f32.to_bits());
    assert!(t.sketches_anew(true));
    t.set_constant_hessian(true);
    assert!(t.sketches_anew(false) && !t.sketches_anew(true));
}

#[test]
fn a_row_that_was_not_sampled_is_dropped_from_every_output() {
    let mut values = vec![1, 2, 3, 4, 5, 6, 7, 8];
    let minus_zero = (-0.0f32).to_bits();
    drop_rows(&mut values, &[0, 9, minus_zero, 0], &[0, 0, 0, 3], 2);
    assert_eq!(values, vec![0, 0, 3, 4, 0, 0, 7, 8]);
}

#[test]
fn a_prediction_is_decided_before_it_is_made() {
    let mut b = ModelBooster::from_learner(learner(6));
    assert_eq!((b.boosted_rounds(), b.num_trees(), b.num_features(), b.num_output_group()), (3, 6, 5, 1));
    assert_eq!((b.best_iteration(), b.best_score(), b.learner().seed()), (None, None, 0));
    let params = |kind, training| PredictParameters {
        predict_type: kind,
        iteration_range: IterationRange::default(),
        training,
        strict_shape: true,
        validate_features: true,
    };
    let margin = params(PredictionType::Margin, true);
    let trees = |begin, end, rounds, dropout| Predictor::Trees { trees: TreeRange { begin, end }, rounds, dropout };
    assert_eq!(b.predict_with(&margin, 5, Ok((1, 3))), Ok(trees(2, 6, 2, None)));
    let refused = b.predict_with(&margin, 4, Ok((0, 3)));
    assert!(matches!(refused, Err(Error::InvalidParameter { name: "validate_features", .. })));
    let e = Error::invalid("iteration_range", "no such round".to_owned());
    assert_eq!(b.predict_with(&margin, 5, Err(e.clone())), Err(e));
    b.learner.ctx.seed = 2;
    b.learner.set_dart(dart(true, 0.0));
    let leaf = params(PredictionType::Leaf, true);
    let plan = b.predict_with(&leaf, 5, Ok((0, 3))).unwrap();
    assert_eq!(plan, trees(0, 6, 3, Some(2 * 127 + 3)));
    let shaped = b.shape_prediction(&leaf, plan, 4, vec![0; 24]);
    assert_eq!(shaped.shape, vec![4, 3, 1, 2]);
    let loose = PredictParameters { strict_shape: false, ..leaf };
    assert_eq!(b.shape_prediction(&loose, plan, 4, vec![0; 24]).shape, vec![4, 6]);
    assert_eq!(b.shape_prediction(&loose, plan, 0, Vec::new()).shape, vec![0, 0]);
    assert!(b.tree_model().is_ok());
    // A vector-leaf tree reports one leaf for all outputs.
    if let Booster::Tree(t) = &mut b.learner.booster {
        t.model.multi_output = true;
        t.model.num_output_group = 2;
    }
    assert_eq!(b.shape_prediction(&leaf, plan, 4, vec![0; 24]).shape, vec![4, 3, 1, 2]);
    assert_eq!(b.shape_prediction(&margin, plan, 4, vec![0; 8]).shape, vec![4, 2]);

    let b = ModelBooster::from_learner(linear());
    assert_eq!(b.predict_with(&margin, 5, Ok((0, 0))), Ok(Predictor::Linear));
    assert!(matches!(b.predict_with(&leaf, 5, Ok((0, 0))), Err(Error::InvalidParameter { name: "predict_type", .. })));
    let ranged = PredictParameters { iteration_range: IterationRange { begin: 0, end: 1 }, ..margin };
    let refused = b.predict_with(&ranged, 5, Ok((0, 0)));
    assert!(matches!(refused, Err(Error::InvalidParameter { name: "iteration_range", .. })));
    assert!(matches!(b.tree_model(), Err(Error::InvalidParameter { name: "booster", .. })));
}
