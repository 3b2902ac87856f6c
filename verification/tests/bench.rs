use xgboost_rs::bench::args::{env_usize, ArgError, FitArgs, SweepArgs};
use xgboost_rs::bench::cases::{oracle_cases, speed_cases};
use xgboost_rs::bench::sweep::{
    apply, categorical_columns, dataset, groups, label, mask_values, selected, settings, unit_labels, Change, Dataset,
    Ratio, SweptMetric, SweptObjective,
};
use xgboost_rs::bench::{Rng, MISSING_BITS};
use xgboost_rs::gpu::ellpack::EllpackLayout;
use xgboost_rs::parameters::{
    BoosterType, DartNormalizeType, DartSampleType, DefaultDirection, Device, FeatureSelector, LinearUpdater,
    MonotoneConstraint, MultiStrategy, Objective, ProcessType, SamplingMethod, TreeBoosterParameters, TreeMethod,
    VerboseEval, Verbosity,
};

fn words(line: &str) -> Vec<String> {
    line.split_whitespace().map(str::to_owned).collect()
}

fn tree() -> TreeBoosterParameters {
    TreeBoosterParameters {
        eta: 0.3f32.to_bits(),
        gamma: 0,
        max_depth: 6,
        max_leaves: 0,
        max_bin: 256,
        tree_method: TreeMethod::Auto,
        grow_policy: "depthwise".to_owned(),
        min_child_weight: 1.0f32.to_bits(),
        lambda: 1.0f32.to_bits(),
        alpha: 0,
        max_delta_step: 0,
        subsample: 1.0f32.to_bits(),
        sampling_method: SamplingMethod::Uniform,
        colsample_bytree: 1.0f32.to_bits(),
        colsample_bylevel: 1.0f32.to_bits(),
        colsample_bynode: 1.0f32.to_bits(),
        num_parallel_tree: 1,
        monotone_constraints: Vec::new(),
        interaction_constraints: None,
        multi_strategy: MultiStrategy::OneOutputPerTree,
        max_cached_hist_node: None,
        sparse_threshold: 0.2f64.to_bits(),
        max_cat_to_onehot: 4,
        max_cat_threshold: 64,
        default_direction: DefaultDirection::Learn,
        opt_dense_col: 1.0f32.to_bits(),
        process_type: ProcessType::Default,
        refresh_leaf: true,
        debug_synchronize: false,
    }
}

#[test]
fn a_sweep_is_run_as_its_command_line_says() {
    let args = SweepArgs::parse_args(&[]).unwrap();
    assert_eq!((args.rows, args.features, args.rounds, args.repeats, args.threads), (200_000, 40, 10, 3, 0));
    assert_eq!((args.filter, args.device), (None, Device::Cpu));
    let args = SweepArgs::parse_args(&words("--rows 5 --filter max --rows 7 --device cuda:1 --threads 2")).unwrap();
    assert_eq!((args.rows, args.threads), (7, 2));
    assert_eq!((args.filter.as_deref(), args.device), (Some("max"), Device::Cuda(Some(1))));
    let err = |line| SweepArgs::parse_args(&words(line)).unwrap_err();
    assert_eq!(err("--rows 5 --bogus 3"), ArgError::Unknown("--bogus".to_owned()));
    assert_eq!(err("--device cuda:x --bogus"), ArgError::BadDevice("--device".to_owned()));
    assert_eq!(err("--device"), ArgError::MissingValue("--device".to_owned()));
    assert_eq!(err("--rows"), ArgError::MissingValue("--rows".to_owned()));
    assert_eq!(err("--rounds 4294967296"), ArgError::BadNumber("--rounds".to_owned()));
    assert_eq!(err("--rounds x --bogus"), ArgError::BadNumber("--rounds".to_owned()));
}

#[test]
fn a_switch_takes_no_value() {
    let args = FitArgs::parse_args(&words("--breakdown --rows 9 --sparsity 0.25 --max-bin 64")).unwrap();
    assert!(args.breakdown && !args.hash);
    assert_eq!((args.rows, args.max_bin, args.depth, args.repeats), (9, 64, 6, 1));
    assert_eq!(args.sparsity.as_deref(), Some("0.25"));
    let args = FitArgs::parse_args(&words("--hash --dump out")).unwrap();
    assert!(args.hash && !args.breakdown);
    assert_eq!(args.dump.as_deref(), Some("out"));
    assert_eq!((env_usize(Some("12"), 5), env_usize(Some("-1"), 5), env_usize(None, 5)), (12, 5, 5));
}

#[test]
fn global_paths_need_atomics() {
    let names = |native, atomics| oracle_cases(native, atomics).iter().map(|c| c.name).collect::<Vec<_>>();
    assert_eq!(
        names(false, false),
        vec!["hist dense/shared", "hist dense-compressed/shared", "hist sparse/shared"]
    );
    assert_eq!(names(true, true).len(), 8);
    assert!(names(true, false).iter().all(|n| !n.contains("global")));
    let timed: Vec<&str> = speed_cases(true, true).iter().map(|c| c.name).collect();
    assert_eq!(
        timed,
        vec![
            "dense/shared",
            "dense/global/u32",
            "dense/global/i64",
            "sparse0.5/shared",
            "sparse0.5/global/u32",
            "sparse0.5/global/i64"
        ]
    );
    let c = oracle_cases(true, true)[2];
    assert_eq!((c.layout, c.missing, c.force_global, c.atomics), (EllpackLayout::DenseCompressed, 3, false, None));
}

#[test]
fn the_sweep_names_its_rows() {
    let layouts = [(0, 16_043_213), (7, 14_050_918), (20, 1 << 18), (39, 23_802_675)];
    let all = groups(&layouts);
    let names: Vec<&str> = all.iter().map(|g| g.name).collect();
    assert_eq!(names.len(), 21);
    assert_eq!((names[0], names[15], names[16], names[20]), ("max_bin", "categorical", "categorical", "nthread"));
    let labels = |i: usize| all[i].cases.iter().map(|c| label(*c, 40)).collect::<Vec<String>>();
    assert_eq!(labels(0), vec!["max_bin=16", "max_bin=64", "max_bin=256", "max_bin=512"]);
    assert_eq!(labels(2)[3], "lossguide/max_leaves=64");
    assert_eq!(labels(3)[0], "subsample=1.0 (none)");
    assert_eq!(labels(3)[4], "gradient_based/subsample=0.1");
    assert_eq!(labels(4)[6], "colsample_bynode=0.25");
    assert_eq!(labels(12)[4], "approx (varying hessian)");
    assert_eq!(labels(13), vec!["exact/opt_dense_col=1", "exact/opt_dense_col=0.5", "exact/opt_dense_col=0"]);
    assert_eq!(labels(14)[5], "gblinear/coord_descent/thrifty");
    assert_eq!(labels(15)[..3], ["numeric baseline/8 values", "partition/8 cats", "one-hot/8 cats"]);
    for (k, (columns, bytes)) in layouts.iter().enumerate() {
        let expected = format!(
            "={} {columns}/40 sparse {:.1}MiB",
            [0.0f64, 0.2, 0.5, 1.0][k],
            *bytes as f64 / f64::from(1 << 20)
        );
        assert_eq!(labels(17)[k], expected);
    }
    assert_eq!(labels(18)[1], "multi_output_tree/2 targets");
    for (i, group) in all.iter().enumerate() {
        let mut seen = labels(i);
        seen.sort_unstable();
        seen.dedup();
        assert_eq!(seen.len(), group.cases.len(), "{}", group.name);
    }
}

#[test]
fn rows_bring_the_data_they_need() {
    assert_eq!(dataset(Change::MaxBin(16)), Dataset::Shared);
    assert_eq!(dataset(Change::Classes(4)), Dataset::ClassLabels(4));
    assert_eq!(dataset(Change::VaryingHessian(TreeMethod::Hist)), Dataset::UnitLabels);
    assert_eq!(dataset(Change::OneHot(8)), Dataset::Categorical(8));
    assert_eq!(dataset(Change::Ordered(8)), Dataset::CategoricalAsNumbers(8));
    let one = 1.0f32.to_bits();
    assert_eq!(unit_labels(5), vec![one, 0, 0, one, 0]);
    let mut values: Vec<u32> = (0..200).collect();
    mask_values(&mut values);
    let mut rng = Rng(0x9e37_79b9_7f4a_7c15);
    for (i, v) in values.iter().enumerate() {
        let draw = rng.next_bits() as f32 / (1u32 << 24) as f32;
        assert_eq!(*v, if draw < 0.25 { MISSING_BITS } else { i as u32 });
    }
}

#[test]
fn rows_change_what_they_name() {
    assert_eq!(apply(tree(), Change::MaxBin(16), 4), TreeBoosterParameters { max_bin: 16, ..tree() });
    assert_eq!(apply(tree(), Change::NoDropout, 4), tree());
    let leaves = apply(tree(), Change::Leaves(xgboost_rs::tree::param::GrowPolicy::LossGuide, 64), 4);
    assert_eq!((leaves.grow_policy.as_str(), leaves.max_leaves, leaves.max_depth), ("lossguide", 64, 0));
    let constrained = apply(tree(), Change::Interaction, 5);
    assert_eq!(constrained.interaction_constraints, Some(vec![vec![0, 2, 4], vec![1, 3]]));
    let monotone = apply(tree(), Change::Monotone, 3);
    assert_eq!(monotone.monotone_constraints, vec![MonotoneConstraint::Increasing; 3]);
    assert_eq!(apply(tree(), Change::OneHot(8), 4).max_cat_to_onehot, 9);
    let ratios = [Ratio::Zero, Ratio::Tenth, Ratio::Fifth, Ratio::Quarter, Ratio::Half, Ratio::One];
    for (r, v) in ratios.iter().zip([0.0f32, 0.1, 0.2, 0.25, 0.5, 1.0]) {
        assert_eq!((r.bits(), r.as_str().to_owned()), (v.to_bits(), format!("{v}")));
        assert_eq!(r.wide_bits(), r.as_str().parse::<f64>().unwrap().to_bits());
    }
}

#[test]
fn a_filter_names_part_of_a_group() {
    assert!(selected("max_bin", &None));
    assert!(selected("max_bin", &Some("bin".to_owned())) && selected("max_bin", &Some(String::new())));
    assert!(!selected("max_bin", &Some("bins".to_owned())) && !selected("max_bin", &Some("max_bin_".to_owned())));
}

#[test]
fn only_thread_scaling_goes_by_its_own_threads() {
    let args = SweepArgs::parse_args(&words("--threads 3 --rounds 7 --device gpu:2")).unwrap();
    let all = groups(&[(0, 0); 4]);
    assert_eq!((all.len(), all[20].name), (21, "nthread"));
    for (i, group) in all.iter().enumerate() {
        let threads: Vec<u32> =
            group.cases.iter().map(|c| settings(&args, tree(), *c).booster.general.nthread).collect();
        let expected = if i == 20 { vec![1, 2, 4, 8] } else { vec![3; group.cases.len()] };
        assert_eq!(threads, expected, "{}", group.name);
        for change in &group.cases {
            let p = settings(&args, tree(), *change);
            assert_eq!((p.num_boost_round, p.verbose_eval, p.early_stopping_rounds), (7, VerboseEval::Silent, None));
            let general = p.booster.general;
            assert_eq!((general.device, general.verbosity), (Device::Gpu(Some(2)), Verbosity::Silent));
        }
    }
}

#[test]
fn a_row_changes_the_setting_it_compares() {
    let args = SweepArgs::parse_args(&[]).unwrap();
    let of = |change| settings(&args, tree(), change).booster;
    let objective = |swept| of(Change::Objective(swept)).learning.objective;
    assert_eq!(objective(SweptObjective::SquaredError), Objective::RegSquaredError);
    assert_eq!(
        objective(SweptObjective::PseudoHuberError),
        Objective::RegPseudoHuberError { huber_slope: 1.0f32.to_bits() }
    );
    assert_eq!(objective(SweptObjective::Poisson), Objective::CountPoisson { max_delta_step: 0.7f32.to_bits() });
    assert_eq!(
        objective(SweptObjective::Tweedie),
        Objective::RegTweedie { tweedie_variance_power: 1.5f32.to_bits() }
    );
    assert_eq!(
        objective(SweptObjective::QuantileError),
        Objective::RegQuantileError { quantile_alpha: vec![0.5f32.to_bits()] }
    );
    assert_eq!(of(Change::Classes(4)).learning.objective, Objective::MultiSoftprob { num_class: 4 });
    let varying = of(Change::VaryingHessian(TreeMethod::Approx));
    assert_eq!(varying.learning.objective, Objective::RegLogistic);
    assert!(matches!(varying.booster, BoosterType::Gbtree(t) if t.tree_method == TreeMethod::Approx));
    assert_eq!(of(Change::Metric(SweptMetric::Aucpr)).learning.eval_metric, vec!["aucpr".to_owned()]);
    assert!(of(Change::NoDropout).learning.eval_metric.is_empty());
    let BoosterType::Dart(dart) = of(Change::DropRate(Ratio::Tenth)).booster else { panic!("dropout") };
    assert_eq!((dart.rate_drop, dart.one_drop, dart.skip_drop), (0.1f32.to_bits(), false, 0));
    assert_eq!((dart.sample_type, dart.normalize_type), (DartSampleType::Uniform, DartNormalizeType::Tree));
    assert_eq!(dart.tree, tree());
    let BoosterType::Gblinear(linear) = of(Change::Linear(LinearUpdater::CoordDescent, FeatureSelector::Thrifty)).booster
    else {
        panic!("a linear booster")
    };
    assert_eq!((linear.updater, linear.feature_selector), (LinearUpdater::CoordDescent, FeatureSelector::Thrifty));
    assert!(matches!(of(Change::Threads(2)).booster, BoosterType::Gbtree(t) if t == tree()));
}

#[test]
fn a_device_is_spelled_by_its_kind_and_number() {
    assert_eq!(Device::parse("cpu"), Some(Device::Cpu));
    assert_eq!(Device::parse("cuda"), Some(Device::Cuda(None)));
    assert_eq!(Device::parse("gpu:0"), Some(Device::Gpu(Some(0))));
    assert_eq!(Device::parse("sycl:12"), Some(Device::Sycl(Some(12))));
    for wrong in ["", "cpu:0", "cuda:", "cuda:x", "gpu:4294967296", "tpu"] {
        assert_eq!(Device::parse(wrong), None, "{wrong}");
    }
}

#[test]
fn two_columns_hold_the_categories() {
    assert_eq!(categorical_columns(Dataset::Categorical(8), 4), vec![true, true, false, false]);
    assert_eq!(categorical_columns(Dataset::Categorical(8), 1), vec![true]);
    assert_eq!(categorical_columns(Dataset::CategoricalAsNumbers(8), 3), vec![false; 3]);
    assert_eq!(categorical_columns(Dataset::Shared, 2), vec![false; 2]);
}
