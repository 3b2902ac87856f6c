use xgboost_rs::api::{
    check_feature_constraints, check_features, check_supported_tree_options, check_supported_updater, check_training,
    check_update, importance_key, importance_kind, linear_interactions, linear_shape, metric_is_maximised,
    resolved_metric_names, score_name, shape_for_value, shows_round, split_counts, train_param, tree_shape,
    unused_parameters, EarlyStopping, FitChecks, FitRounds, Importance, Prediction, ShapeInputs,
};
use xgboost_rs::error::Error;
use xgboost_rs::fit::{begin_fit, FitInputs};
use xgboost_rs::gbm::{Booster, LinearModel};
use xgboost_rs::learner::Learner;
use xgboost_rs::parameters::{
    BoosterParameters, BoosterType, DartNormalizeType, DartParameters, DartSampleType, DefaultDirection, Device, GeneralParameters, IterationRange,
    LearningTaskParameters, LinearBoosterParameters, LinearUpdater, FeatureSelector, MonotoneConstraint, MultiStrategy, PredictParameters, PredictionType, ProcessType,
    SamplingMethod, TrainingParameters, TreeBoosterParameters, TreeMethod, TreeUpdaterName,
    VerboseEval,
};
use xgboost_rs::training::{round_scores, Fit};
use xgboost_rs::tree::param::GrowPolicy;

const LINEAR: LinearBoosterParameters =
    LinearBoosterParameters { updater: LinearUpdater::Shotgun, feature_selector: FeatureSelector::Cyclic };

fn tree() -> TreeBoosterParameters {
    TreeBoosterParameters {
        eta: 0.3f32.to_bits(),
        gamma: 0,
        max_depth: 6,
        max_leaves: 0,
        max_bin: 256,
        tree_method: TreeMethod::Auto,
        grow_policy: "depthwise".to_owned(),
        min_child_weight: 1.0f32.to_bits(),
        lambda: 1.0f32.to_bits(),
        alpha: 0,
        max_delta_step: 0,
        subsample: 1.0f32.to_bits(),
        sampling_method: SamplingMethod::Uniform,
        colsample_bytree: 1.0f32.to_bits(),
        colsample_bylevel: 1.0f32.to_bits(),
        colsample_bynode: 1.0f32.to_bits(),
        num_parallel_tree: 1,
        monotone_constraints: Vec::new(),
        interaction_constraints: None,
        multi_strategy: MultiStrategy::OneOutputPerTree,
        max_cached_hist_node: None,
        sparse_threshold: 0.2f64.to_bits(),
        max_cat_to_onehot: 4,
        max_cat_threshold: 64,
        default_direction: DefaultDirection::Learn,
        opt_dense_col: 1.0f32.to_bits(),
        process_type: ProcessType::Default,
        refresh_leaf: true,
        debug_synchronize: false,
    }
}

fn reason(e: Error) -> (String, String) {
    match e {
        Error::InvalidParameter { name, reason } => (name.to_owned(), reason),
        other => panic!("{other:?}"),
    }
}

fn predict(kind: PredictionType, strict: bool) -> PredictParameters {
    PredictParameters {
        predict_type: kind,
        iteration_range: IterationRange::default(),
        training: false,
        strict_shape: strict,
        validate_features: true,
    }
}

const SHAPE: ShapeInputs =
    ShapeInputs { n_rows: 7, n_groups: 1, n_features: 4, stride: 1, leaves: 6, rounds: 3, num_parallel_tree: 2 };

#[test]
fn shapes_follow_the_kind_of_prediction() {
    let shape = |kind, strict| tree_shape(&predict(kind, strict), &SHAPE);
    assert_eq!(shape(PredictionType::Value, false), vec![7]);
    assert_eq!(shape(PredictionType::Value, true), vec![7, 1]);
    assert_eq!(shape(PredictionType::Margin, true), vec![7, 1]);
    assert_eq!(shape(PredictionType::Leaf, false), vec![7, 6]);
    assert_eq!(shape(PredictionType::Leaf, true), vec![7, 3, 1, 2]);
    assert_eq!(shape(PredictionType::Contribution, false), vec![7, 5]);
    assert_eq!(shape(PredictionType::ApproxContribution, true), vec![7, 1, 5]);
    assert_eq!(shape(PredictionType::Interaction, false), vec![7, 5, 5]);
    assert_eq!(shape(PredictionType::ApproxInteraction, true), vec![7, 1, 5, 5]);
    let many = ShapeInputs { n_groups: 3, ..SHAPE };
    assert_eq!(tree_shape(&predict(PredictionType::Contribution, false), &many), vec![7, 3, 5]);
    assert_eq!(shape_for_value(7, 3, false), vec![7, 3]);
}

#[test]
fn a_row_is_as_wide_as_its_other_dimensions() {
    let stride = |shape: &[usize]| Prediction { values: Vec::new(), shape: shape.to_vec() }.row_stride();
    assert_eq!(stride(&[7]), 1);
    assert_eq!(stride(&[7, 3]), 3);
    assert_eq!(stride(&[7, 3, 5]), 15);
    assert_eq!(stride(&[7, 0]), 1);
    assert_eq!(stride(&[]), 1);
}

#[test]
fn a_linear_model_has_no_rounds_and_no_leaves() {
    let range = PredictParameters {
        iteration_range: IterationRange { begin: 0, end: 2 },
        ..predict(PredictionType::Value, false)
    };
    assert_eq!(reason(linear_shape(&range, &SHAPE).unwrap_err()).0, "iteration_range");
    let leaf = predict(PredictionType::Leaf, false);
    let expected = ("predict_type".to_owned(), "the `gblinear` booster has no leaves to report".to_owned());
    assert_eq!(reason(linear_shape(&leaf, &SHAPE).unwrap_err()), expected);
    assert_eq!(linear_shape(&predict(PredictionType::Margin, false), &SHAPE), Ok(vec![7]));
    assert_eq!(linear_interactions(&[1, 2, 3, 4], 2, 2), vec![1, 0, 0, 2, 3, 0, 0, 4]);
}

#[test]
fn the_features_are_counted_where_that_is_asked_for() {
    let p = predict(PredictionType::Value, false);
    assert_eq!(
        reason(check_features(&p, 12, 7).unwrap_err()),
        ("validate_features".to_owned(), "the model has 12 features, the matrix has 7".to_owned())
    );
    assert_eq!(check_features(&p, 12, 12), Ok(()));
    assert_eq!(check_features(&PredictParameters { validate_features: false, ..p }, 12, 7), Ok(()));
}

#[test]
fn early_stopping_watches_the_last_metric_of_the_last_set() {
    let names = vec!["rmse".to_owned(), "auc".to_owned()];
    let s = EarlyStopping::new(2, None, 3, &names).unwrap();
    assert_eq!((s.watched, s.maximize), (5, true));
    assert_eq!(EarlyStopping::new(2, Some(false), 1, &names).unwrap().maximize, false);
    assert_eq!(reason(EarlyStopping::new(2, None, 0, &names).unwrap_err()).0, "early_stopping_rounds");
    assert_eq!(reason(EarlyStopping::new(2, None, 1, &[]).unwrap_err()).0, "early_stopping_rounds");
}

#[test]
fn a_fit_stops_once_the_score_has_not_improved() {
    let names = vec!["rmse".to_owned()];
    let stopper = EarlyStopping::new(2, None, 1, &names).unwrap();
    let mut rounds = FitRounds::new(10, Some(stopper));
    let mut run = Vec::new();
    for score in [5.0f64, 4.0, 4.5, 4.0, 3.0, 1.0] {
        match rounds.next_round() {
            Some(iter) => run.push(iter),
            None => break,
        }
        rounds.record(&[score.to_bits()]);
    }
    assert_eq!(run, vec![0, 1, 2, 3]);
    assert_eq!(rounds.best(), (Some(1), Some(4.0f64.to_bits())));
    let mut plain = FitRounds::new(1, None);
    assert_eq!(plain.next_round(), Some(0));
    plain.record(&[]);
    assert_eq!(plain.next_round(), None);
    assert_eq!(plain.best(), (None, None));
}

#[test]
fn some_metrics_are_better_when_larger() {
    for m in ["auc", "aucpr", "pre@3", "map", "map@5", "ndcg-", "ams@0.1", "interval-regression-accuracy"] {
        assert!(metric_is_maximised(m), "{m}");
    }
    for m in ["mape", "rmse", "logloss", "", "xauc"] {
        assert!(!metric_is_maximised(m), "{m}");
    }
}

#[test]
fn scores_are_printed_on_the_first_the_last_and_every_so_many_rounds() {
    let show = |n, iter| shows_round(VerboseEval::Every(n), iter, 10, 1);
    assert_eq!((0..10).filter(|i| show(4, *i)).collect::<Vec<u32>>(), vec![0, 4, 8, 9]);
    assert_eq!((0..10).filter(|i| show(0, *i)).collect::<Vec<u32>>(), vec![0, 9]);
    assert!(!shows_round(VerboseEval::Silent, 0, 10, 1));
    assert!(!shows_round(VerboseEval::Every(1), 0, 10, 0));
    assert_eq!(score_name("train", "rmse"), "train-rmse");
}

#[test]
fn constraints_have_to_name_columns() {
    let monotone = TreeBoosterParameters {
        monotone_constraints: vec![MonotoneConstraint::Increasing; 3],
        ..tree()
    };
    assert_eq!(
        reason(check_feature_constraints(&monotone, 2).unwrap_err()),
        (
            "monotone_constraints".to_owned(),
            "3 constraints given for a matrix with 2 features".to_owned()
        )
    );
    let interaction = TreeBoosterParameters {
        interaction_constraints: Some(vec![vec![0, 1], vec![2, 9, 11]]),
        ..tree()
    };
    assert_eq!(
        reason(check_feature_constraints(&interaction, 9).unwrap_err()),
        (
            "interaction_constraints".to_owned(),
            "feature index 9 is out of range for a matrix with 9 features".to_owned()
        )
    );
    assert_eq!(check_feature_constraints(&interaction, 12), Ok(()));
    assert_eq!(check_feature_constraints(&monotone, 3), Ok(()));
}

#[test]
fn a_pipeline_that_cannot_run_is_refused() {
    let hist = [TreeUpdaterName::GrowQuantileHistMaker, TreeUpdaterName::Prune];
    assert_eq!(check_supported_updater(&tree(), &hist, false), Ok(()));
    let gpu = [TreeUpdaterName::GrowGpuHist];
    assert_eq!(check_supported_updater(&tree(), &gpu, true), Ok(()));
    assert_eq!(
        reason(check_supported_updater(&tree(), &gpu, false).unwrap_err()),
        (
            "updater".to_owned(),
            "the `grow_gpu_hist` updater is not implemented on this device".to_owned()
        )
    );
    let exact = [TreeUpdaterName::GrowColMaker];
    let unlimited = TreeBoosterParameters { max_depth: 0, ..tree() };
    assert_eq!(reason(check_supported_updater(&unlimited, &exact, true).unwrap_err()).0, "max_depth");
    assert_eq!(check_supported_updater(&tree(), &exact, true), Ok(()));
}

#[test]
fn options_that_would_be_ignored_are_refused() {
    let multi = TreeBoosterParameters { multi_strategy: MultiStrategy::MultiOutputTree, ..tree() };
    let hist = [TreeUpdaterName::GrowQuantileHistMaker];
    let exact = [TreeUpdaterName::GrowColMaker];
    assert_eq!(check_supported_tree_options(&multi, &hist, false, false), Ok(()));
    assert_eq!(reason(check_supported_tree_options(&multi, &exact, false, false).unwrap_err()).0, "multi_strategy");
    assert_eq!(reason(check_supported_tree_options(&multi, &hist, true, false).unwrap_err()).0, "multi_strategy");
    assert_eq!(reason(check_supported_tree_options(&tree(), &exact, true, false).unwrap_err()).0, "tree_method");
    assert_eq!(check_supported_tree_options(&tree(), &exact, false, false), Ok(()));
    let gpu = [TreeUpdaterName::GrowGpuHist];
    assert!(check_supported_tree_options(&multi, &gpu, false, false).is_err());
    assert_eq!(check_supported_tree_options(&multi, &gpu, false, true), Ok(()));
}

#[test]
fn a_fit_is_checked_from_the_device_down() {
    let t = tree();
    let updaters = [TreeUpdaterName::GrowQuantileHistMaker];
    let fit = |device, gpu| {
        check_training(&FitChecks {
            device,
            device_name: "sycl:gpu",
            tree: Some(&t),
            updaters: &updaters,
            has_categorical: false,
            num_col: 4,
            gpu,
        })
    };
    assert_eq!(
        reason(fit(Device::Sycl(None), true).unwrap_err()).1,
        "there is no SYCL updater in this build; got device `sycl:gpu`"
    );
    assert_eq!(reason(fit(Device::Cuda(Some(1)), false).unwrap_err()).0, "device");
    assert_eq!(fit(Device::Cuda(None), true), Ok(()));
    assert_eq!(fit(Device::Cpu, false), Ok(()));
    let update = TreeBoosterParameters { process_type: ProcessType::Update, ..tree() };
    assert_eq!(reason(check_update(&update, false).unwrap_err()).0, "process_type");
    assert_eq!(check_update(&update, true), Ok(()));
    assert_eq!(check_update(&tree(), false), Ok(()));
}

#[test]
fn parameters_that_nothing_reads_are_named() {
    let odd = TreeBoosterParameters {
        default_direction: DefaultDirection::Left,
        opt_dense_col: 0.5f32.to_bits(),
        max_bin: 64,
        refresh_leaf: false,
        max_cat_to_onehot: 9,
        max_cat_threshold: 8,
        debug_synchronize: true,
        sparse_threshold: 0.9f64.to_bits(),
        ..tree()
    };
    let general = GeneralParameters { use_rmm: true, fail_on_invalid_gpu_id: true, ..Default::default() };
    let hist = [TreeUpdaterName::GrowQuantileHistMaker];
    let exact = [TreeUpdaterName::GrowColMaker, TreeUpdaterName::Refresh];
    assert_eq!(
        unused_parameters(&general, Some(&odd), &tree(), &hist, false),
        vec![
            "default_direction",
            "opt_dense_col",
            "refresh_leaf",
            "max_cat_to_onehot",
            "max_cat_threshold",
            "debug_synchronize",
            "use_rmm",
            "fail_on_invalid_gpu_id"
        ]
    );
    let quiet = GeneralParameters::default();
    assert_eq!(
        unused_parameters(&quiet, Some(&odd), &tree(), &exact, true),
        vec!["max_bin", "debug_synchronize", "sparse_threshold"]
    );
    assert!(unused_parameters(&quiet, Some(&tree()), &tree(), &hist, false).is_empty());
    assert!(unused_parameters(&quiet, None, &tree(), &hist, false).is_empty());
}

#[test]
fn tree_parameters_are_translated() {
    let t = TreeBoosterParameters {
        grow_policy: "lossguide".to_owned(),
        max_leaves: u32::MAX,
        multi_strategy: MultiStrategy::MultiOutputTree,
        interaction_constraints: Some(vec![vec![1, 2]]),
        monotone_constraints: vec![MonotoneConstraint::Decreasing],
        ..tree()
    };
    let p = train_param(&t, Device::Cpu, 99, Ok(vec![TreeUpdaterName::Prune])).unwrap();
    assert_eq!(p.grow_policy, GrowPolicy::LossGuide);
    assert_eq!((p.max_depth, p.max_leaves), (6, -1));
    assert!(p.multi_output_tree);
    assert_eq!(p.interaction_constraints, Some(vec![vec![1, 2]]));
    assert_eq!(p.monotone_constraints, vec![MonotoneConstraint::Decreasing]);
    assert_eq!((p.max_cached_hist_node, p.updaters), (99, vec![TreeUpdaterName::Prune]));
    let e = Error::invalid("updater", "none".to_owned());
    assert_eq!(train_param(&tree(), Device::Cpu, 0, Err(e.clone())), Err(e));
    assert_eq!(train_param(&tree(), Device::Cpu, 0, Ok(Vec::new())).unwrap().grow_policy, GrowPolicy::DepthWise);
}

#[test]
fn metrics_are_the_ones_asked_for_or_the_default() {
    let params = |metrics: &[&str], disabled| TrainingParameters {
        booster: BoosterParameters {
            general: GeneralParameters { disable_default_eval_metric: disabled, ..Default::default() },
            learning: LearningTaskParameters {
                eval_metric: metrics.iter().map(|m| (*m).to_owned()).collect(),
                ..Default::default()
            },
            booster: BoosterType::Gblinear(LINEAR),
        },
        num_boost_round: 1,
        early_stopping_rounds: None,
        maximize: None,
        verbose_eval: VerboseEval::Silent,
    };
    let default = || Ok("rmse".to_owned());
    assert_eq!(resolved_metric_names(&params(&["mae", "auc"], false), default()).unwrap(), vec!["mae", "auc"]);
    assert_eq!(resolved_metric_names(&params(&[], false), default()).unwrap(), vec!["rmse"]);
    assert!(resolved_metric_names(&params(&[], true), default()).unwrap().is_empty());
    let e = Error::parse("objective", "x".to_owned(), "unknown".to_owned());
    assert_eq!(resolved_metric_names(&params(&[], true), Err(e.clone())), Err(e.clone()));
    assert_eq!(resolved_metric_names(&params(&["mae"], true), Err(e)).unwrap(), vec!["mae"]);
}

#[test]
fn importances_are_named_and_counted() {
    assert_eq!(importance_kind("weight", true), Ok(Importance::Weight));
    assert_eq!(importance_kind("gain", false), Ok(Importance::Gain));
    assert_eq!(importance_kind("total_gain", false), Ok(Importance::TotalGain));
    assert_eq!(
        reason(importance_kind("gain", true).unwrap_err()).1,
        "`gblinear` defines only `weight` for feature importance, got `gain`"
    );
    assert_eq!(
        reason(importance_kind("cover", false).unwrap_err()).1,
        "`cover` is not supported; use weight, gain or total_gain"
    );
    assert_eq!(importance_key(12, 0, 1), "f12");
    assert_eq!(importance_key(12, 3, 4), "f12-3");
    assert_eq!(split_counts(&[4, 0, 4, 4, 2], 6), vec![(0, 1), (2, 1), (4, 3)]);
}

#[test]
fn a_fit_begins_once_everything_is_in_order() {
    let inputs = |metrics: &[&str], evals| FitInputs {
        device_name: "cpu".to_owned(),
        updaters: vec![TreeUpdaterName::GrowQuantileHistMaker],
        max_cached_hist_node: 77,
        metric_names: metrics.iter().map(|m| (*m).to_owned()).collect(),
        evals,
        has_categorical: false,
        num_col: 4,
        gpu: false,
    };
    let params = |booster| TrainingParameters {
        booster: BoosterParameters {
            general: GeneralParameters { nthread: 3, ..Default::default() },
            learning: LearningTaskParameters { seed: 11, boost_from_average: false, ..Default::default() },
            booster,
        },
        num_boost_round: 9,
        early_stopping_rounds: Some(2),
        maximize: None,
        verbose_eval: VerboseEval::Silent,
    };
    let linear =
        || LinearModel { weights: Vec::new(), num_feature: 4, num_output_group: 1, num_boosted_rounds: 0 };
    let begin = |booster, inputs: &FitInputs, base: Option<Learner<u32>>| {
        begin_fit(&params(booster), inputs, linear(), base)
    };
    let (learner, rounds) = begin(BoosterType::Gbtree(tree()), &inputs(&["rmse", "auc"], 2), None).unwrap();
    assert_eq!((learner.ctx.nthread, learner.seed(), learner.boost_from_average), (3, 11, false));
    assert_eq!(learner.gbm().unwrap().param.max_cached_hist_node, 77);
    assert_eq!((rounds.total, rounds.stopper.unwrap().watched, rounds.stopper.unwrap().maximize), (9, 3, true));
    // The device is looked at first, the watch list last.
    let dart = DartParameters {
        tree: TreeBoosterParameters { process_type: ProcessType::Update, ..tree() },
        sample_type: DartSampleType::Uniform,
        normalize_type: DartNormalizeType::Tree,
        rate_drop: 0.5f32.to_bits(),
        one_drop: true,
        skip_drop: 0,
    };
    let refused = |booster, inputs: &FitInputs, base| reason(begin(booster, inputs, base).unwrap_err()).0;
    assert_eq!(refused(BoosterType::Dart(dart.clone()), &inputs(&[], 0), None), "process_type");
    assert_eq!(refused(BoosterType::Gbtree(tree()), &inputs(&[], 1), None), "early_stopping_rounds");
    let deep = BoosterType::Gbtree(TreeBoosterParameters {
        monotone_constraints: vec![MonotoneConstraint::Increasing; 5],
        ..tree()
    });
    assert_eq!(refused(deep, &inputs(&[], 0), None), "monotone_constraints");
    assert_eq!(refused(BoosterType::Gblinear(LINEAR), &inputs(&["rmse"], 1), Some(learner.clone())), "booster");
    // A base model brings its trees and its intercept.
    let mut base = learner.clone();
    base.base_score = vec![5];
    if let Booster::Tree(t) = &mut base.booster {
        t.model.push_tree(42, 0, 0);
    }
    let (next, _) = begin(BoosterType::Dart(dart), &inputs(&["rmse"], 1), Some(base)).unwrap();
    assert!(next.has_trees() && next.gbm().unwrap().is_dart());
    assert_eq!(next.base_score_override, Some(vec![5]));
    let (linear_fit, _) = begin(BoosterType::Gblinear(LINEAR), &inputs(&["rmse"], 1), None).unwrap();
    assert_eq!(linear_fit.booster().name(), "gblinear");
}

#[test]
fn the_best_round_is_the_first_with_the_best_score() {
    let runs: [&[f64]; 4] = [&[5.0, 3.0, 3.0, 4.0, 2.0, 2.0], &[1.0, 1.0], &[0.5, 0.75, 0.25, 0.75, 1.5], &[-0.0, 0.0, 1.0]];
    for maximize in [false, true] {
        for run in runs {
            let mut es = EarlyStopping::new(2, Some(maximize), 1, &["rmse".to_owned()]).unwrap();
            for (k, s) in run.iter().enumerate() {
                let stop = es.update(k, &[s.to_bits()]);
                let better = |a: f64, b: f64| if maximize { a > b } else { a < b };
                let best = (0..=k).find(|&i| (0..=k).all(|j| !better(run[j], run[i]))).unwrap();
                assert_eq!((es.best_iteration, f64::from_bits(es.best_score)), (best, run[best]));
                assert_eq!(stop, k - best >= 2, "{run:?} at {k}");
            }
        }
    }
}

fn strings(names: &[&str]) -> Vec<String> {
    names.iter().map(|n| (*n).to_owned()).collect()
}

#[test]
fn a_round_has_a_score_per_set_and_metric() {
    let round = round_scores(
        &strings(&["train", "eval"]),
        &strings(&["rmse", "mae", "auc"]),
        &[vec![1, 2, 3], vec![4, 5, 6]],
    );
    let expected = ["train-rmse", "train-mae", "train-auc", "eval-rmse", "eval-mae", "eval-auc"];
    assert_eq!(round.iter().map(|(name, _)| name.as_str()).collect::<Vec<_>>(), expected);
    assert_eq!(round.iter().map(|(_, v)| *v).collect::<Vec<_>>(), vec![1, 2, 3, 4, 5, 6]);
    assert!(round_scores(&strings(&["train"]), &[], &[Vec::new()]).is_empty());
    assert!(round_scores(&[], &strings(&["rmse"]), &[]).is_empty());
}

fn fit_params(booster: BoosterType, rounds: u32, stop: Option<u32>) -> TrainingParameters {
    TrainingParameters {
        booster: BoosterParameters {
            general: GeneralParameters::default(),
            learning: LearningTaskParameters::default(),
            booster,
        },
        num_boost_round: rounds,
        early_stopping_rounds: stop,
        maximize: None,
        verbose_eval: VerboseEval::Silent,
    }
}

fn start(params: &TrainingParameters) -> Fit<u32> {
    let inputs = FitInputs {
        device_name: "cpu".to_owned(),
        updaters: vec![TreeUpdaterName::GrowQuantileHistMaker],
        max_cached_hist_node: 1,
        metric_names: strings(&["mae", "rmse"]),
        evals: 2,
        has_categorical: false,
        num_col: 4,
        gpu: false,
    };
    let linear = LinearModel { weights: Vec::new(), num_feature: 4, num_output_group: 1, num_boosted_rounds: 0 };
    Fit::begin(params, &inputs, strings(&["train", "eval"]), linear, None).unwrap()
}

/// Run a fit whose watched scores are these, filing as many trees as each round asks for.
fn run(params: &TrainingParameters, groups: usize, watched: &[f64]) -> Fit<u32> {
    let mut fit = start(params);
    fit.learner.set_intercept(groups, vec![1; groups]);
    while let Some(iter) = fit.next_round() {
        fit.learner.begin_round();
        match &mut fit.learner.booster {
            Booster::Tree(t) => {
                let n = t.plan_round().len();
                t.file_round(vec![7; n], 1);
            }
            Booster::Linear(l) => l.file_round(vec![iter]),
        }
        let last = watched[iter as usize].to_bits();
        fit.record(&[vec![0, 1], vec![2, last]]);
    }
    fit
}

#[test]
fn the_history_is_as_long_as_the_rounds_counted() {
    let falling = [5.0, 4.0, 3.0, 2.0, 1.0];
    for strategy in [MultiStrategy::OneOutputPerTree, MultiStrategy::MultiOutputTree] {
        for parallel in [1u32, 3] {
            for groups in [1usize, 2] {
                let t = TreeBoosterParameters { multi_strategy: strategy, num_parallel_tree: parallel, ..tree() };
                let fit = run(&fit_params(BoosterType::Gbtree(t), 4, None), groups, &falling);
                let (booster, history) = fit.finish();
                assert_eq!((history.len(), booster.boosted_rounds()), (4, 4), "{strategy:?} {parallel} {groups}");
                assert_eq!((booster.best_iteration, booster.best_score), (None, None));
                assert_eq!(history[2][3], ("eval-rmse".to_owned(), 3.0f64.to_bits()));
                assert_eq!(history[2][0], ("train-mae".to_owned(), 0));
            }
        }
    }
    let (booster, history) = run(&fit_params(BoosterType::Gblinear(LINEAR), 3, None), 1, &falling).finish();
    assert_eq!((history.len(), booster.boosted_rounds()), (3, 3));
    // Stopped early: the rounds after the best are kept.
    let params = fit_params(BoosterType::Gbtree(tree()), 9, Some(2));
    let (booster, history) = run(&params, 1, &[3.0, 1.0, 2.0, 1.0, 0.0]).finish();
    assert_eq!((history.len(), booster.boosted_rounds()), (4, 4));
    assert_eq!((booster.best_iteration, booster.best_score), (Some(1), Some(1.0f64.to_bits())));
}

#[test]
fn a_device_without_kernels_is_refused_in_full() {
    let fit = FitChecks {
        device: Device::Cuda(None),
        device_name: "cuda",
        tree: None,
        updaters: &[],
        has_categorical: false,
        num_col: 1,
        gpu: false,
    };
    let text = "this build has no GPU kernels; rebuild with the `gpu` feature to use                  device `cuda`";
    assert_eq!(reason(check_training(&fit).unwrap_err()), ("device".to_owned(), text.to_owned()));
}
