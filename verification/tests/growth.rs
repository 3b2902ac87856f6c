use xgboost_rs::data::cuts::HistogramCuts;
use xgboost_rs::data::DMatrix;
use xgboost_rs::error::Error;
use xgboost_rs::gbm::feature_value;
use xgboost_rs::gpu::categorical::{enumerate, plan_trials, CatWinner, Score};
use xgboost_rs::gpu::engine::Capabilities;
use xgboost_rs::gpu::evaluate_splits::DeviceSplitCandidate;
use xgboost_rs::gpu::evaluation::Found;
use xgboost_rs::gpu::expand::{ExpandEntry, GradStats};
use xgboost_rs::gpu::grower::GpuHistGrower;
use xgboost_rs::gpu::growth::{target_sums, ChildIds, GrownTree, TreeGrowth};
use xgboost_rs::gpu::launch::Hardware;
use xgboost_rs::gpu::GradientPairInt64;
use xgboost_rs::parameters::{DefaultDirection, Device, MonotoneConstraint, ProcessType, SamplingMethod};
use xgboost_rs::tree::param::{GrowPolicy, TrainParam};

fn param(policy: GrowPolicy) -> TrainParam {
    TrainParam {
        learning_rate: 0.3f32.to_bits(),
        min_split_loss: 0,
        max_depth: 4,
        max_leaves: 0,
        max_bin: 256,
        grow_policy: policy,
        min_child_weight: 1.0f32.to_bits(),
        reg_lambda: 1.0f32.to_bits(),
        reg_alpha: 0,
        max_delta_step: 0,
        subsample: 1.0f32.to_bits(),
        sampling_method: SamplingMethod::Uniform,
        colsample_bytree: 1.0f32.to_bits(),
        colsample_bylevel: 1.0f32.to_bits(),
        colsample_bynode: 1.0f32.to_bits(),
        num_parallel_tree: 1,
        monotone_constraints: vec![MonotoneConstraint::Increasing],
        interaction_constraints: None,
        max_cached_hist_node: 65536,
        multi_output_tree: false,
        sparse_threshold: 0.2f64.to_bits(),
        max_cat_to_onehot: 4,
        max_cat_threshold: 64,
        default_direction: DefaultDirection::Learn,
        opt_dense_col: 1.0f32.to_bits(),
        updaters: Vec::new(),
        process_type: ProcessType::Default,
        refresh_leaf: true,
        device: Device::Cpu,
    }
}

fn capabilities(planes: u32, atomics: bool) -> Capabilities {
    Capabilities {
        hardware: Hardware {
            plane_size_max: planes,
            max_units_per_cube: 1024,
            max_cube_count_x: 65535,
            max_cube_count_y: 65535,
            max_cube_count_z: 65535,
            num_cpu_cores: Some(4),
        },
        atomic_add_u32: atomics,
        atomic_add_i64: false,
        float64: true,
    }
}

fn cuts(features: usize, bins: usize) -> HistogramCuts {
    HistogramCuts {
        cut_ptrs: (0..=features).map(|f| (f * bins) as u32).collect(),
        cut_values: (0..features * bins).map(|i| (((i % bins) + 1) as f32).to_bits()).collect(),
        min_values: vec![(-1.0f32).to_bits(); features],
        is_categorical: Vec::new(),
    }
}

/// A matrix of small whole numbers, some of them missing.
fn matrix(rows: usize, features: usize, bins: usize) -> DMatrix {
    let values: Vec<u32> = (0..rows * features)
        .map(|i| {
            let x = (i as u64).wrapping_mul(0x9E37_79B9_7F4A_7C15) >> 33;
            if x % 11 == 0 { f32::NAN.to_bits() } else { ((x % bins as u64) as f32).to_bits() }
        })
        .collect();
    DMatrix::from_dense(&values, rows, features, f32::NAN.to_bits()).unwrap()
}

fn column(rows: usize, salt: u64) -> Vec<GradientPairInt64> {
    (0..rows as u64)
        .map(|r| {
            let x = (r + salt).wrapping_mul(0xBF58_476D_1CE4_E5B9) >> 40;
            GradientPairInt64 { grad: (x % 201) as i64 - 100, hess: (x % 7) as i64 + 1 }
        })
        .collect()
}

fn gain(g: GradientPairInt64) -> f32 {
    (g.grad as f64 * g.grad as f64 / (g.hess as f64 + 1.0)) as f32
}

fn stats(g: GradientPairInt64) -> GradStats {
    GradStats { sum_grad: (g.grad as f64).to_bits(), sum_hess: (g.hess as f64).to_bits() }
}

/// Find each node's best numeric split.
fn score(grower: &GpuHistGrower, growth: &TreeGrowth, nodes: Vec<ExpandEntry>) -> Vec<ExpandEntry> {
    let everything: Vec<Vec<u32>> = nodes.iter().map(|_| (0..grower.n_features as u32).collect()).collect();
    let bounds = vec![(f32::NEG_INFINITY.to_bits(), f32::INFINITY.to_bits()); nodes.len()];
    let search = grower.search(&nodes, &everything, &bounds);
    let gains: Vec<Vec<u32>> = search
        .batch
        .iter()
        .enumerate()
        .map(|(k, trials)| {
            let node = &nodes[k / grower.n_features];
            trials
                .iter()
                .map(|t| {
                    let right = node.sum.wrapping_sub(t.left);
                    let chg = if t.left.hess > 0 && right.hess > 0 {
                        gain(t.left) + gain(right) - f32::from_bits(node.root_gain)
                    } else {
                        f32::NEG_INFINITY
                    };
                    chg.to_bits()
                })
                .collect()
        })
        .collect();
    let none: Vec<Vec<CatWinner>> = nodes.iter().map(|_| Vec::new()).collect();
    let found = grower.evaluate(nodes.len(), &search, &gains, &none);
    let stats: Vec<(GradStats, GradStats)> = nodes.iter().zip(&found).map(|(n, f)| child_stats(n, f)).collect();
    grower.take_splits(growth, nodes, &found, &stats)
}

fn child_stats(node: &ExpandEntry, found: &Found) -> (GradStats, GradStats) {
    let left = GradientPairInt64 { grad: found.split.left_grad, hess: found.split.left_hess };
    (stats(left), stats(node.sum.wrapping_sub(left)))
}

fn sum_of(gpairs: &[GradientPairInt64], rows: &[u32]) -> GradientPairInt64 {
    rows.iter().fold(GradientPairInt64::default(), |a, &r| a.wrapping_add(gpairs[r as usize]))
}

/// The histogram of some rows, added up one by one.
fn naive_histogram(
    d: &DMatrix,
    cuts: &HistogramCuts,
    gpairs: &[GradientPairInt64],
    rows: &[u32],
) -> Vec<GradientPairInt64> {
    let mut hist = vec![GradientPairInt64::default(); cuts.total_bins()];
    for &r in rows {
        let (index, value) = d.row(r as usize);
        for (&f, &v) in index.iter().zip(value) {
            let bin = cuts.bin_of(v, f as usize).unwrap() as usize;
            hist[bin] = hist[bin] + gpairs[r as usize];
        }
    }
    hist
}

/// Grow a tree, holding every node's histogram to the rows in its segment.
fn grow(grower: &GpuHistGrower, d: &DMatrix, columns: &[Vec<GradientPairInt64>]) -> (GrownTree, usize) {
    let columns = columns.to_vec();
    let sums = target_sums(&columns);
    let (mut growth, root) = grower.init_root(&columns, gain(sums[0]).to_bits()).unwrap();
    let check = |nodes: &[ExpandEntry], rows: &[u32]| {
        for node in nodes {
            let segment = &rows[node.seg_begin as usize..(node.seg_begin + node.seg_len) as usize];
            if columns.len() == 1 {
                assert_eq!(node.sum, sum_of(&columns[0], segment), "a node's sum is that of its rows");
            }
            for (t, gpairs) in columns.iter().enumerate() {
                let at = node.slot as usize + t * grower.n_bins;
                assert_eq!(
                    node.hist[at..at + grower.n_bins].to_vec(),
                    naive_histogram(d, &grower.cuts, gpairs, segment)
                );
            }
        }
    };
    check(std::slice::from_ref(&root), &growth.partitioner.read());
    let mut next = 1usize;
    let mut routes: Vec<Option<Route>> = vec![None];
    let mut scored = score(grower, &growth, vec![root]);
    loop {
        growth.enqueue(grower, scored);
        let batch = growth.next_batch(grower);
        if batch.is_empty() {
            break;
        }
        let ids: Vec<ChildIds> = batch
            .iter()
            .map(|e| {
                let (l, r) = e.child_sums();
                next += 2;
                routes.resize(next, None);
                routes[e.nid] = Some(Route {
                    fidx: e.split.split_index(),
                    threshold: f32::from_bits(e.split.split_value),
                    default_left: e.split.default_left(),
                    left: next - 2,
                    right: next - 1,
                });
                ChildIds { left: next - 2, right: next - 1, left_gain: gain(l).to_bits(), right_gain: gain(r).to_bits() }
            })
            .collect();
        assert!(grower.fits_level(batch.len()));
        let children = grower.expand(&mut growth, batch, &ids).unwrap();
        assert!(children.windows(2).all(|w| w[0].nid < w[1].nid));
        check(&children, &growth.partitioner.read());
        scored = score(grower, &growth, children);
    }
    let tree = growth.finish(grower);
    for &(nid, begin, len) in &tree.leaf_segments {
        for &r in &tree.ridx[begin as usize..(begin + len) as usize] {
            assert_eq!(leaf_of(&routes, d, r as usize), nid, "row {r}");
        }
    }
    (tree, next)
}

/// A node that was split.
#[derive(Clone, Debug)]
struct Route {
    fidx: u32,
    threshold: f32,
    default_left: bool,
    left: usize,
    right: usize,
}

/// The leaf that a row reaches from the root.
fn leaf_of(routes: &[Option<Route>], d: &DMatrix, row: usize) -> usize {
    let mut at = 0;
    while let Some(route) = &routes[at] {
        let left = match feature_value(d, row, route.fidx) {
            None => route.default_left,
            Some(bits) => f32::from_bits(bits) < route.threshold,
        };
        at = if left { route.left } else { route.right };
    }
    at
}

#[test]
fn a_row_reaches_the_leaf_of_its_segment() {
    let d = matrix(120, 3, 5);
    for policy in [GrowPolicy::DepthWise, GrowPolicy::LossGuide] {
        let grower = GpuHistGrower::new(capabilities(1, false), &d, cuts(3, 5), param(policy)).unwrap();
        let (tree, nodes) = grow(&grower, &d, &[column(120, 9)]);
        assert!(tree.leaf_segments.len() > 2 && nodes > tree.leaf_segments.len());
    }
}

fn check_leaves(tree: &GrownTree, rows: usize) {
    let mut seen = vec![0usize; rows];
    for &(_, begin, len) in &tree.leaf_segments {
        for &r in &tree.ridx[begin as usize..(begin + len) as usize] {
            seen[r as usize] += 1;
        }
    }
    assert!(seen.iter().all(|&n| n == 1), "every row ends in one leaf");
}

#[test]
fn every_row_ends_in_one_leaf_level_by_level() {
    let d = matrix(300, 4, 8);
    for (planes, atomics) in [(1, false), (1, true), (32, true)] {
        let grower =
            GpuHistGrower::new(capabilities(planes, atomics), &d, cuts(4, 8), param(GrowPolicy::DepthWise)).unwrap();
        let (tree, nodes) = grow(&grower, &d, &[column(300, 5)]);
        check_leaves(&tree, 300);
        assert!(nodes > 10);
        assert!(tree.leaf_segments.len() > 8);
    }
}

#[test]
fn every_row_ends_in_one_leaf_best_first() {
    let d = matrix(257, 3, 6);
    let p = TrainParam { max_leaves: 9, max_depth: 0, ..param(GrowPolicy::LossGuide) };
    let grower = GpuHistGrower::new(capabilities(1, false), &d, cuts(3, 6), p).unwrap();
    let (tree, _) = grow(&grower, &d, &[column(257, 2)]);
    check_leaves(&tree, 257);
    assert_eq!(tree.leaf_segments.len(), 9);
}

#[test]
fn both_runtimes_grow_the_same_tree() {
    let d = matrix(200, 3, 5);
    let grown = |planes: u32, atomics: bool| {
        let grower =
            GpuHistGrower::new(capabilities(planes, atomics), &d, cuts(3, 5), param(GrowPolicy::DepthWise)).unwrap();
        let (tree, _) = grow(&grower, &d, &[column(200, 9)]);
        (tree.ridx, tree.leaf_segments)
    };
    assert_eq!(grown(1, false), grown(32, true));
}

#[test]
fn a_node_that_gains_too_little_stays_a_leaf() {
    let d = matrix(60, 2, 4);
    // No split gains this much, so the root is queued and then refused.
    let p = TrainParam { min_split_loss: 1e30f32.to_bits(), ..param(GrowPolicy::DepthWise) };
    let grower = GpuHistGrower::new(capabilities(1, false), &d, cuts(2, 4), p).unwrap();
    let (tree, nodes) = grow(&grower, &d, &[column(60, 1)]);
    assert_eq!(nodes, 1);
    assert_eq!(tree.leaf_segments, vec![(0, 0, 60)]);
    check_leaves(&tree, 60);
}

#[test]
fn predictions_are_updated_once_per_row() {
    let d = matrix(120, 3, 5);
    let grower =
        GpuHistGrower::new(capabilities(1, false), &d, cuts(3, 5), param(GrowPolicy::DepthWise)).unwrap();
    let (tree, _) = grow(&grower, &d, &[column(120, 3)]);
    let updates = tree.update_slots(2, 1);
    assert_eq!(updates.len(), 120);
    let mut slots: Vec<usize> = updates.iter().map(|u| u.1).collect();
    slots.sort_unstable();
    assert_eq!(slots, (0..120).map(|r| r * 2 + 1).collect::<Vec<usize>>());
}

#[test]
fn a_vector_leaf_fit_refuses_categories() {
    let d = matrix(10, 2, 4);
    let categorical = || HistogramCuts { is_categorical: vec![false, true], ..cuts(2, 4) };
    let refused = GpuHistGrower::new_multi(
        capabilities(1, false),
        &d,
        categorical(),
        param(GrowPolicy::DepthWise),
        2,
    );
    assert!(matches!(refused, Err(Error::InvalidParameter { name: "multi_strategy", .. })));
    assert!(GpuHistGrower::new(capabilities(1, false), &d, categorical(), param(GrowPolicy::DepthWise)).is_ok());
    let no_doubles = Capabilities { float64: false, ..capabilities(1, false) };
    let refused = GpuHistGrower::new(no_doubles, &d, cuts(2, 4), param(GrowPolicy::DepthWise));
    assert!(matches!(refused, Err(Error::NoF64Support)));
}

#[test]
fn a_vector_leaf_level_builds_one_histogram_per_target() {
    let d = matrix(150, 2, 6);
    let grower = GpuHistGrower::new_multi(
        capabilities(1, false),
        &d,
        cuts(2, 6),
        param(GrowPolicy::DepthWise),
        3,
    )
    .unwrap();
    let columns = vec![column(150, 1), column(150, 2), column(150, 3)];
    let (mut growth, root) = grower.init_root(&columns, 0).unwrap();
    assert_eq!(root.target_sums.len(), 3);
    // Split the root at bin 2 of feature 0, missing values left.
    let split = DeviceSplitCandidate {
        loss_chg: 1.0f32.to_bits(),
        sindex: 1 << 31,
        split_value: 3.0f32.to_bits(),
        left_grad: 1,
        left_hess: 1,
        is_cat: false,
    };
    let heavy = GradStats { sum_grad: 0, sum_hess: 2.0f64.to_bits() };
    let light = GradStats { sum_grad: 0, sum_hess: 1.0f64.to_bits() };
    let scored = root.scored(split, heavy, light, Vec::new(), Vec::new(), Vec::new());
    growth.enqueue(&grower, vec![scored]);
    let batch = growth.next_batch(&grower);
    let ids = [ChildIds { left: 1, right: 2, left_gain: 0, right_gain: 0 }];
    let children = grower.expand(&mut growth, batch, &ids).unwrap();
    assert_eq!(children.iter().map(|c| c.nid).collect::<Vec<_>>(), vec![1, 2]);
    // The lighter right child was built, so it has the first slot.
    assert_eq!(children[1].slot, 0);
    assert_eq!(children[0].slot as usize, 3 * grower.n_bins);
    let rows = growth.partitioner.read();
    for child in &children {
        let segment = &rows[child.seg_begin as usize..(child.seg_begin + child.seg_len) as usize];
        for (t, gpairs) in columns.iter().enumerate() {
            let at = child.slot as usize + t * grower.n_bins;
            assert_eq!(
                child.hist[at..at + grower.n_bins].to_vec(),
                naive_histogram(&d, &grower.cuts, gpairs, segment)
            );
        }
    }
}

#[test]
fn a_column_of_the_wrong_length_is_an_error() {
    let d = matrix(10, 2, 4);
    let grower =
        GpuHistGrower::new(capabilities(1, false), &d, cuts(2, 4), param(GrowPolicy::DepthWise)).unwrap();
    let refused = grower.init_root(&vec![column(9, 0)], 0);
    assert!(matches!(refused, Err(Error::GpairCount { expected: 10, got: 9 })));
}

#[test]
fn a_vector_leaf_split_parts_every_target() {
    let d = matrix(400, 3, 6);
    let grower = GpuHistGrower::new_multi(
        capabilities(1, false),
        &d,
        cuts(3, 6),
        param(GrowPolicy::DepthWise),
        3,
    )
    .unwrap();
    let columns = vec![column(400, 1), column(400, 2), column(400, 3)];
    let (mut growth, root) = grower.init_root(&columns, 0).unwrap();
    let nodes = vec![root];
    let bounds = [(f32::NEG_INFINITY.to_bits(), f32::INFINITY.to_bits())];
    let search = grower.search_multi(&nodes, &[vec![0, 1, 2]], &bounds);
    for pick in 0..3 * 12usize {
        // Let one split after another win.
        let gains: Vec<Vec<u32>> = search
            .batch
            .iter()
            .enumerate()
            .map(|(f, list)| (0..list.len()).map(|k| if f * 12 + k == pick { 1.0f32.to_bits() } else { 0 }).collect())
            .collect();
        let found = grower.evaluate_multi(&nodes, &search, &gains);
        assert_eq!(f32::from_bits(found[0].split.loss_chg), 1.0);
        let left = found[0].left_target_sums.iter().fold(GradientPairInt64::default(), |a, b| a.wrapping_add(*b));
        assert_eq!((found[0].split.left_grad, found[0].split.left_hess), (left.grad, left.hess));
        let rows = growth.partitioner.read();
        let node = ExpandEntry { split: found[0].split, ..nodes[0].clone() };
        let sp = grower.segment_split(&node);
        let mut part = xgboost_rs::gpu::row_partitioner::RowPartitioner::new(&rows);
        let n = part.partition(&capabilities(1, false).hardware, &grower.engine.ell, &[sp]).unwrap()[0] as usize;
        let parted = part.read();
        for (t, gpairs) in columns.iter().enumerate() {
            assert_eq!(found[0].left_target_sums[t], sum_of(gpairs, &parted[..n]));
            assert_eq!(found[0].right_target_sums[t], sum_of(gpairs, &parted[n..]));
        }
    }
    // The last one is taken.
    let gains: Vec<Vec<u32>> = search.batch.iter().map(|list| vec![1.0f32.to_bits(); list.len()]).collect();
    let found = grower.evaluate_multi(&nodes, &search, &gains);
    let stats: Vec<(GradStats, GradStats)> = nodes.iter().zip(&found).map(|(n, f)| child_stats(n, f)).collect();
    let scored = grower.take_splits(&growth, nodes, &found, &stats);
    growth.enqueue(&grower, scored);
    assert_eq!(growth.next_batch(&grower).len(), 1);
}

#[test]
fn a_categorical_split_parts_the_sum() {
    // Two features of six categories, some values missing.
    let rows = 500usize;
    let values: Vec<u32> = (0..rows * 2)
        .map(|i| {
            let x = (i as u64).wrapping_mul(0x9E37_79B9_7F4A_7C15) >> 33;
            if x % 11 == 0 { f32::NAN.to_bits() } else { ((x % 6) as f32).to_bits() }
        })
        .collect();
    let d = DMatrix::from_dense(&values, rows, 2, f32::NAN.to_bits()).unwrap();
    let codes: Vec<u32> = (0..6).map(|c| (c as f32).to_bits()).collect();
    let cuts = HistogramCuts {
        cut_ptrs: vec![0, 6, 12],
        cut_values: [codes.clone(), codes.clone()].concat(),
        min_values: vec![0; 2],
        is_categorical: vec![true, true],
    };
    for max_cat_to_onehot in [1, 7] {
        let p = TrainParam { max_cat_to_onehot, ..param(GrowPolicy::DepthWise) };
        let grower = GpuHistGrower::new(capabilities(1, false), &d, cuts.clone(), p.clone()).unwrap();
        let gpairs = column(rows, 4);
        let (growth, root) = grower.init_root(&vec![gpairs.clone()], 0).unwrap();
        let bins = &root.hist[6..12];
        let weights: Vec<u32> =
            bins.iter().map(|b| (-(b.grad as f32) / (b.hess as f32 + 1.0)).to_bits()).collect();
        let plan = plan_trials(&p, bins, &weights, root.sum);
        for x in 0..plan.trials.len() {
            let one = |k: usize| if k == x { 1.0f32.to_bits() } else { 0 };
            let scores: Vec<Score> =
                (0..plan.trials.len()).map(|k| Score { gain: one(k), loss_chg: one(k) }).collect();
            let (candidate, bits) = enumerate(&plan, &codes, &scores);
            let winners = vec![vec![CatWinner { fidx: 1, candidate, bits }]];
            let search = grower.search(&[root.clone()], &[vec![0, 1]], &[(0, 0)]);
            assert_eq!(search.categorical, vec![vec![0, 1]]);
            let gains: Vec<Vec<u32>> = search.batch.iter().map(|list| vec![0; list.len()]).collect();
            let found = grower.evaluate(1, &search, &gains, &winners);
            assert!(found[0].split.is_cat);
            let stats = [child_stats(&root, &found[0])];
            let scored = grower.take_splits(&growth, vec![root.clone()], &found, &stats);
            let sp = grower.segment_split(&scored[0]);
            let mut part = xgboost_rs::gpu::row_partitioner::RowPartitioner::all_rows(rows);
            let n = part.partition(&capabilities(1, false).hardware, &grower.engine.ell, &[sp]).unwrap()[0] as usize;
            let (left, right) = scored[0].child_sums();
            assert_eq!(left, sum_of(&gpairs, &part.read()[..n]));
            assert_eq!(right, sum_of(&gpairs, &part.read()[n..]));
        }
    }
}
