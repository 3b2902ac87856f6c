use xgboost_rs::bench::{dump_dataset, model_hash, Rng};
use xgboost_rs::data::csc::CscPages;
use xgboost_rs::data::DMatrix;
use xgboost_rs::gpu::launch::{
    block_1d, cubes_1d, elementwise, elementwise_runs, line_size_for, scan_block_1d, serial_width, CubeCount, Hardware,
};
use xgboost_rs::gpu::linear::{n_blocks, GpuLinear, LIN_BLOCK};
use xgboost_rs::gpu::objective::{lane_rows, leaf_table, row_update, LeafRows};
use xgboost_rs::gpu::quantiser::{ceil_log2, frexp_exp, keep_curvature, reduce_geometry, sum_device_column};
use xgboost_rs::gpu::tables::TableBuilder;
use xgboost_rs::gpu::tuning::{get, get_or, Overrides};
use xgboost_rs::gpu::GradientPairInt64;
use xgboost_rs::text::{chars_of, decimal_text, parse_number, split, trim};

fn hardware(planes: u32) -> Hardware {
    Hardware {
        plane_size_max: planes,
        max_units_per_cube: 1024,
        max_cube_count_x: 100,
        max_cube_count_y: 100,
        max_cube_count_z: 100,
        num_cpu_cores: Some(4),
    }
}

#[test]
fn overrides_are_read_from_a_list() {
    let o = Overrides::parse(" hist_block = 512,hist_bps=x,nonsense, hist_cap=+7 ,hist_block=64,=3,big=18446744073709551615");
    assert_eq!(get(&o, "hist_block"), Some(64));
    assert_eq!(get(&o, "hist_bps"), None);
    assert_eq!(get(&o, "hist_cap"), Some(7));
    assert_eq!(get(&o, ""), Some(3));
    assert_eq!(get_or(&o, "hist_cap", 9), 7);
    assert_eq!(get_or(&o, "missing", 9), 9);
    assert_eq!(get_or(&o, "big", 9), u32::MAX);
    assert_eq!(get(&Overrides::parse(""), "hist_block"), None);
}

#[test]
fn numbers_are_read_and_written() {
    let read = |s: &str| parse_number(&chars_of(s), 1000);
    assert_eq!(read("0999"), Some(999));
    assert_eq!(read("1000"), Some(1000));
    assert_eq!(read("1001"), None);
    assert_eq!((read(""), read("+"), read("-1"), read("1 "), read("++1")), (None, None, None, None, None));
    assert_eq!(decimal_text(0), "0");
    assert_eq!(decimal_text(u64::MAX), "18446744073709551615");
    assert_eq!(trim(&chars_of("\u{2003} a b\t\n")), vec!['a', ' ', 'b']);
    let parts: Vec<String> = split(&chars_of("a,,b,"), ',').iter().map(|p| p.iter().collect()).collect();
    assert_eq!(parts, vec!["a", "", "b", ""]);
}

#[test]
fn tables_are_packed_aligned() {
    let mut tb = TableBuilder::new();
    let a = tb.push(&[1, 0x0102_0304]);
    let b = tb.push(&[]);
    let c = tb.push_wide(&[-2]);
    let d = tb.push_wide(&[]);
    assert_eq!((a, b, c, d), (0, 1, 2, 3));
    let tables = tb.finish();
    assert_eq!(tables.ranges, vec![(0, 8), (256, 260), (512, 520), (768, 776)]);
    assert_eq!(tables.bytes[4..8], 0x0102_0304u32.to_ne_bytes());
    assert_eq!(tables.bytes[512..520], (-2i64).to_ne_bytes());
    assert!(tables.bytes[8..260].iter().all(|b| *b == 0));
    assert_eq!(tables.offsets(1), (256, 516));
}

#[test]
fn an_exponent_splits_off_a_fraction() {
    for x in [1.0f64, 0.5, 0.75, 3.0, -8.0, 1e300, 1e-310, f64::MIN_POSITIVE, 5e-324] {
        let e = frexp_exp(x.to_bits());
        // A subnormal number is scaled in two steps.
        let m = x.abs() * 2f64.powi(-(e / 2)) * 2f64.powi(-(e - e / 2));
        assert!((0.5..1.0).contains(&m), "{x}");
    }
    for (x, e) in [(1.0f64, 0), (1.5, 1), (2.0, 1), (-3.0, 2), (0.25, -2), (f64::MIN_POSITIVE, -1022), (5e-324, -1074)] {
        assert_eq!(ceil_log2(x.to_bits()), e, "{x}");
    }
    assert_eq!(ceil_log2((3.0 * 5e-324f64).to_bits()), -1072);
    assert_eq!((ceil_log2(0), ceil_log2(f64::INFINITY.to_bits())), (0, 0));
    assert_eq!(frexp_exp(0), 0);
    assert_eq!(frexp_exp(f64::INFINITY.to_bits()), 0);
    assert_eq!(frexp_exp(f64::NAN.to_bits()), 0);
    assert_eq!((keep_curvature(true, 0), keep_curvature(true, -3), keep_curvature(false, 0)), (1, -3, 0));
}

#[test]
fn a_column_is_summed_exactly() {
    let gpairs: Vec<GradientPairInt64> = (0..5000i64)
        .map(|i| GradientPairInt64 { grad: (i * 7919 % 1013 - 500) << 40, hess: i << 30 })
        .collect();
    let expected = gpairs.iter().fold(GradientPairInt64::default(), |a, b| a.wrapping_add(*b));
    for planes in [1, 32, 64] {
        assert_eq!(sum_device_column(&hardware(planes), &gpairs), expected);
    }
    assert_eq!(sum_device_column(&hardware(32), &Vec::new()), GradientPairInt64::default());
    assert_eq!(reduce_geometry(&hardware(32), 1_000_000), (256, 245, 4082));
    assert_eq!(reduce_geometry(&hardware(1), 100), (1, 7, 15));
    assert_eq!(reduce_geometry(&hardware(1), 0), (1, 1, 1));
}

#[test]
fn launches_follow_the_hardware() {
    assert_eq!(block_1d(&hardware(32), 100), 96);
    assert_eq!(block_1d(&hardware(1), 100), 1);
    assert_eq!(scan_block_1d(&hardware(48), 256), 128);
    assert_eq!(serial_width(&hardware(1)), 4);
    assert_eq!(elementwise(&hardware(1), 100), (CubeCount::Elementwise(100), 1));
    assert_eq!(elementwise(&hardware(1), 100_000), (CubeCount::Elementwise(100_000), 4));
    assert_eq!(elementwise(&hardware(32), 0), (CubeCount::Static(1, 1, 1), 1));
    assert_eq!(elementwise_runs(&hardware(1), 100_000, 1), (CubeCount::Static(1, 1, 1), 4, 25_000));
    match cubes_1d(&hardware(32), 250) {
        CubeCount::Static(x, y, z) => assert!(x * y * z >= 250 && x <= 100 && y <= 100),
        other => panic!("{other:?}"),
    }
    assert_eq!(line_size_for(&[8, 4, 2], &[12, 20]), 4);
    assert_eq!(line_size_for(&[8, 4, 2], &[12, 21]), 1);
}

#[test]
fn a_column_is_folded_in_blocks() {
    let rows = LIN_BLOCK + 100;
    let values: Vec<u32> = (0..rows * 2).map(|i| (i as f32).to_bits()).collect();
    let d = DMatrix::from_dense(&values, rows, 2, f32::NAN.to_bits()).unwrap();
    let linear = GpuLinear::new(CscPages::build(&d, None, false), rows, 2);
    assert_eq!((linear.num_pages(), linear.scratch), (1, rows));
    assert_eq!((n_blocks(0), n_blocks(1), n_blocks(LIN_BLOCK), n_blocks(rows)), (0, 1, 1, 2));
    let mut hess = vec![1.0f32.to_bits(); rows * 2];
    // Row 3 is excluded from group 1.
    hess[3 * 2 + 1] = (-1.0f32).to_bits();
    let first = linear.block_terms(0, 1, 1, &hess, 0);
    let second = linear.block_terms(0, 1, 1, &hess, 1);
    assert_eq!((first.len(), second.len()), (LIN_BLOCK - 1, 100));
    assert_eq!((first[3].slot, first[3].value), (4 * 2 + 1, 9.0f32.to_bits()));
    assert_eq!(second[0].slot, LIN_BLOCK * 2 + 1);
    let all = linear.column_terms(0, 1, 1, &hess);
    assert_eq!(all, [first, second].concat());
    assert_eq!(linear.bias_slots(1, &hess, 2, 5), vec![5, 9]);
}

#[test]
fn every_position_finds_its_leaf() {
    let leaf = |side, begin, len| LeafRows { side, begin, len };
    // A leaf without rows begins where another does.
    let leaves = [leaf(1, 5, 3), leaf(0, 0, 5), leaf(0, 5, 0), leaf(1, 8, 2)];
    let table = leaf_table(&leaves);
    assert_eq!(table.order, vec![1, 0, 3]);
    let ridx0: Vec<u32> = (0..10).collect();
    let ridx1: Vec<u32> = (0..10).rev().collect();
    let updates: Vec<(u32, usize)> =
        (0..10).map(|i| row_update(&table, &leaves, &ridx0, &ridx1, 10, i)).collect();
    assert_eq!(updates[..5], [(0, 1), (1, 1), (2, 1), (3, 1), (4, 1)]);
    assert_eq!(updates[5..], [(4, 0), (3, 0), (2, 0), (1, 3), (0, 3)]);
}

#[test]
fn every_row_is_in_one_lane() {
    let mut seen = vec![0; 21];
    for lane in 0..9 {
        for r in lane_rows(12, 3, lane, 21) {
            seen[r as usize] += 1;
        }
    }
    assert!(seen.iter().all(|n| *n == 1));
    assert_eq!(lane_rows(12, 3, 4, 21), vec![13, 16, 19]);
    assert!(lane_rows(12, 3, 8, 14).is_empty());
}

#[test]
fn the_bench_generator_repeats() {
    let mut rng = Rng(0x1234_5678_9abc_def0);
    let mut x = 0x1234_5678_9abc_def0u64;
    for _ in 0..5 {
        x ^= x >> 12;
        x ^= x << 25;
        x ^= x >> 27;
        assert_eq!(rng.next_u64(), x.wrapping_mul(0x2545_F491_4F6C_DD1D));
    }
    let mut again = Rng(x);
    let wide = again.next_u64();
    assert_eq!(rng.next_bits(), (wide >> 40) as u32);
    assert_eq!(model_hash(b""), 0xcbf2_9ce4_8422_2325);
    assert_eq!(model_hash(b"a"), 0xaf63_dc4c_8601_ec8c);
}

#[test]
fn a_dump_fills_the_holes() {
    let nan = f32::NAN.to_bits();
    let mut d = DMatrix::from_dense(&[1, nan, nan, 4], 2, 2, nan).unwrap();
    d.set_labels(&[8, 9]).unwrap();
    assert_eq!(dump_dataset(&d), vec![1, 0x7FC0_0000, 0x7FC0_0000, 4, 8, 9]);
}
