use xgboost_rs::error::Error;
use xgboost_rs::gpu::ellpack::{EllpackLayout, EllpackMatrix};
use xgboost_rs::gpu::engine::{build_feature_groups, Capabilities, HistogramBuilder};
use xgboost_rs::gpu::hist_grid::{add_i64_as_u32, join_words, split_words};
use xgboost_rs::gpu::histogram::NodeHistJob;
use xgboost_rs::gpu::launch::Hardware;
use xgboost_rs::gpu::GradientPairInt64;

fn capabilities(planes: u32, atomics: bool) -> Capabilities {
    Capabilities {
        hardware: Hardware {
            plane_size_max: planes,
            max_units_per_cube: 1024,
            max_cube_count_x: 65535,
            max_cube_count_y: 65535,
            max_cube_count_z: 65535,
            num_cpu_cores: Some(4),
        },
        atomic_add_u32: atomics,
        atomic_add_i64: false,
        float64: true,
    }
}

fn mix(i: u64) -> u64 {
    (i + 1).wrapping_mul(0x9E37_79B9_7F4A_7C15) >> 29
}

/// A matrix with `bins` bins per feature; two entries in five are missing where the layout
/// allows it.
fn random_matrix(rows: usize, features: usize, bins: u32, layout: EllpackLayout) -> EllpackMatrix {
    let total = features as u32 * bins;
    let null_value = if layout == EllpackLayout::Sparse { total } else { bins };
    let gidx = (0..rows * features)
        .map(|i| {
            let x = mix(i as u64);
            if layout != EllpackLayout::Dense && x % 5 < 2 {
                return null_value;
            }
            let bin = (x / 5 % u64::from(bins)) as u32;
            if layout == EllpackLayout::Sparse { (i % features) as u32 * bins + bin } else { bin }
        })
        .collect();
    EllpackMatrix {
        gidx,
        row_stride: features,
        base_rowid: 0,
        n_rows: rows,
        cut_ptrs: (0..=features as u32).map(|f| f * bins).collect(),
        null_value,
        layout,
    }
}

fn random_gpairs(rows: usize) -> Vec<GradientPairInt64> {
    (0..rows as u64)
        .map(|r| GradientPairInt64 {
            grad: (mix(r * 3) as i64 - (1 << 34)) << 20,
            hess: (mix(r * 7) as i64) << 12,
        })
        .collect()
}

fn cpu_histogram(m: &EllpackMatrix, gpairs: &[GradientPairInt64], rows: &[u32]) -> Vec<GradientPairInt64> {
    let mut hist = vec![GradientPairInt64::default(); m.n_bins() as usize];
    for &r in rows {
        for f in 0..m.row_stride {
            let stored = m.gidx[r as usize * m.row_stride + f];
            if !m.is_dense() && stored == m.null_value {
                continue;
            }
            let bin = if m.is_compressed() { m.cut_ptrs[f] + stored } else { stored } as usize;
            hist[bin] = hist[bin].wrapping_add(gpairs[r as usize]);
        }
    }
    hist
}

#[test]
fn every_path_builds_the_same_histogram() {
    let layouts = [EllpackLayout::Dense, EllpackLayout::DenseCompressed, EllpackLayout::Sparse];
    for layout in layouts {
        let m = random_matrix(700, 5, 12, layout);
        let gpairs = random_gpairs(700);
        let rows: Vec<u32> = (0..700).step_by(3).collect();
        let expected = cpu_histogram(&m, &gpairs, &rows);
        for (planes, atomics) in [(1, false), (1, true), (32, true), (64, false)] {
            for (global, native) in [(false, false), (true, false), (false, true), (true, true)] {
                let builder = HistogramBuilder::new(capabilities(planes, atomics))
                    .force_global(global && atomics)
                    .native_i64_atomics(native)
                    .max_blocks_per_group(3);
                let engine = builder.build(&m).unwrap();
                assert_eq!(engine.build(&gpairs, &rows).unwrap(), expected);
            }
        }
    }
}

#[test]
fn a_sibling_is_the_parent_minus_the_built_child() {
    let m = random_matrix(500, 4, 16, EllpackLayout::Dense);
    let gpairs = random_gpairs(500);
    let all: Vec<u32> = (0..500).collect();
    let (left, right): (Vec<u32>, Vec<u32>) = all.iter().partition(|r| *r % 3 == 0);
    let engine = HistogramBuilder::new(capabilities(1, false)).build(&m).unwrap();
    let parent = engine.build(&gpairs, &all).unwrap();
    let built = engine.build(&gpairs, &left).unwrap();
    assert_eq!(engine.subtract(&parent, &built).unwrap(), cpu_histogram(&m, &gpairs, &right));
    assert_eq!(
        engine.subtract(&parent, &built[1..]),
        Err(Error::HistogramLen { parent: 64, built: 63 })
    );
}

#[test]
fn a_level_is_built_slot_by_slot() {
    let m = random_matrix(4000, 3, 9, EllpackLayout::DenseCompressed);
    let gpairs = random_gpairs(4000);
    let rows: Vec<u32> = (0..4000).rev().collect();
    for (planes, atomics) in [(1, false), (32, true)] {
        let engine = HistogramBuilder::new(capabilities(planes, atomics)).build(&m).unwrap();
        let dev = engine.upload_gpairs(&gpairs).unwrap();
        let jobs = [
            NodeHistJob { ridx_base: 0, n_ridx: 3000, slot: 27 },
            NodeHistJob { ridx_base: 3000, n_ridx: 0, slot: 54 },
            NodeHistJob { ridx_base: 3000, n_ridx: 1000, slot: 0 },
        ];
        let mut dst = engine.zeroed(4 * 27);
        engine.build_into_batch(&dev, &rows, &jobs, &mut dst);
        assert_eq!(dst[27..54], cpu_histogram(&m, &gpairs, &rows[..3000]));
        assert_eq!(dst[0..27], cpu_histogram(&m, &gpairs, &rows[3000..]));
        assert!(dst[54..].iter().all(|g| *g == GradientPairInt64::default()));
    }
}

#[test]
fn a_deferred_level_is_finished_by_the_subtraction() {
    let m = random_matrix(6000, 2, 8, EllpackLayout::Dense);
    let gpairs = random_gpairs(6000);
    let rows: Vec<u32> = (0..6000).collect();
    let engine = HistogramBuilder::new(capabilities(1, false)).build(&m).unwrap();
    let dev = engine.upload_gpairs(&gpairs).unwrap();
    let parent = engine.build(&gpairs, &rows).unwrap();
    let jobs = [NodeHistJob { ridx_base: 0, n_ridx: 5000, slot: 0 }];
    let mut frontier = engine.frontier(32);
    let pending = engine.build_into_batch_deferred(&dev, &rows, &jobs, &mut frontier);
    engine.subtract_batch(&parent, &mut frontier, &[(0, 0, 16)], &pending);
    assert_eq!(frontier[..16], cpu_histogram(&m, &gpairs, &rows[..5000]));
    assert_eq!(frontier[16..], cpu_histogram(&m, &gpairs, &rows[5000..]));
}

#[test]
fn a_matrix_that_does_not_hold_together_is_refused() {
    let build = |m: &EllpackMatrix| HistogramBuilder::new(capabilities(1, false)).build(m).err();
    let m = random_matrix(10, 2, 4, EllpackLayout::Dense);
    let short = EllpackMatrix { gidx: m.gidx[..19].to_vec(), ..m.clone() };
    assert_eq!(build(&short), Some(Error::MatrixShape { expected: 20, got: 19 }));
    let uncut = EllpackMatrix { cut_ptrs: vec![0], ..m.clone() };
    assert_eq!(build(&uncut), Some(Error::InvalidCuts { got: 1 }));
    let global = HistogramBuilder::new(capabilities(1, false)).force_global(true).build(&m).err();
    assert_eq!(global, Some(Error::NoGlobalHistogramPath));
    let engine = HistogramBuilder::new(capabilities(1, false)).build(&m).unwrap();
    assert_eq!(
        engine.build(&random_gpairs(9), &[0]),
        Err(Error::GpairCount { expected: 10, got: 9 })
    );
}

#[test]
fn features_are_grouped_by_what_fits() {
    // Sixteen bytes a bin: a budget of ten bins.
    let groups = build_feature_groups(&[0, 4, 8, 13, 20], 160).unwrap();
    let shape: Vec<(u32, u32, u32, u32)> =
        groups.iter().map(|g| (g.start_feature, g.num_features, g.start_bin, g.num_bins)).collect();
    assert_eq!(shape, vec![(0, 2, 0, 8), (2, 1, 8, 5), (3, 1, 13, 7)]);
    assert!(build_feature_groups(&[0, 4, 15], 160).is_none());
}

#[test]
fn words_carry() {
    assert_eq!(split_words(-1), (u32::MAX, u32::MAX));
    assert_eq!(join_words(1, u32::MAX), 1 - (1i64 << 32));
    let sum = add_i64_as_u32(split_words(0xFFFF_FFFF), 1);
    assert_eq!(join_words(sum.0, sum.1), 1i64 << 32);
    let sum = add_i64_as_u32(split_words(i64::MAX), 1);
    assert_eq!(join_words(sum.0, sum.1), i64::MIN);
}

#[test]
fn a_histogram_is_read_from_its_words() {
    let m = random_matrix(10, 2, 4, EllpackLayout::Dense);
    let engine = HistogramBuilder::new(capabilities(1, false)).build(&m).unwrap();
    let words = [5, 0, u32::MAX, u32::MAX];
    assert_eq!(engine.read(&words, 1), Ok(vec![GradientPairInt64 { grad: 5, hess: -1 }]));
    assert_eq!(engine.read(&words, 2), Err(Error::HistogramBins { expected: 2, got: 1 }));
    let bytes: &[u8] = bytemuck::cast_slice(&words);
    assert_eq!(engine.read_bytes(bytes, 1), Some(Ok(vec![GradientPairInt64 { grad: 5, hess: -1 }])));
    assert_eq!(engine.read_bytes(bytes, 3), Some(Err(Error::HistogramBins { expected: 3, got: 1 })));
    assert_eq!(engine.read_bytes(&bytes[..15], 1), None);
    // The bytes may begin anywhere.
    let shifted: Vec<u8> = [&[0u8][..], bytes].concat();
    assert_eq!(engine.read_bytes(&shifted[1..], 1), Some(Ok(vec![GradientPairInt64 { grad: 5, hess: -1 }])));
}
