use xgboost_rs::data::DMatrix;
use xgboost_rs::gpu::device_sort::{radix_count_kernel, radix_scan_kernel, sort_column, split_by_bit, SORT_TILE};
use xgboost_rs::gpu::launch::Hardware;
use xgboost_rs::gpu::sketch::{
    applies, cuts_kernel, device_cuts, join_columns, key_value, sketch_key, DeviceValues, EMPTY_CUT, SENTINEL,
};

fn dense(values: &[f32], rows: usize, cols: usize) -> DMatrix {
    let bits: Vec<u32> = values.iter().map(|v| v.to_bits()).collect();
    DMatrix::from_dense(&bits, rows, cols, f32::NAN.to_bits()).unwrap()
}

fn floats(bits: &[u32]) -> Vec<f32> {
    bits.iter().map(|v| f32::from_bits(*v)).collect()
}

fn hardware(planes: u32) -> Hardware {
    Hardware {
        plane_size_max: planes,
        max_units_per_cube: 1024,
        max_cube_count_x: 65535,
        max_cube_count_y: 65535,
        max_cube_count_z: 65535,
        num_cpu_cores: Some(4),
    }
}

#[test]
fn keys_order_as_values_do() {
    let values = [f32::NEG_INFINITY, -2.5, -1e-30, 0.0, 1e-30, 7.0, f32::INFINITY];
    let keys: Vec<u32> = values.iter().map(|v| sketch_key(v.to_bits())).collect();
    assert!(keys.windows(2).all(|w| w[0] < w[1]));
    assert_eq!(sketch_key((-0.0f32).to_bits()), sketch_key(0));
    assert_eq!(sketch_key(f32::NAN.to_bits()), SENTINEL);
    assert_eq!(sketch_key((-f32::NAN).to_bits()), SENTINEL);
    for (v, k) in values.iter().zip(&keys) {
        assert_eq!(f32::from_bits(key_value(*k)), *v);
    }
}

#[test]
fn a_column_of_tiles_is_sorted() {
    let keys: Vec<u32> =
        (0..3 * SORT_TILE as u64).map(|i| (i.wrapping_mul(0x9E37_79B9_7F4A_7C15) >> 27) as u32).collect();
    let mut expected = keys.clone();
    expected.sort_unstable();
    assert_eq!(sort_column(keys, 3), expected);
    assert!(sort_column(Vec::new(), 0).is_empty());
}

#[test]
fn a_split_by_a_bit_is_stable() {
    assert_eq!(split_by_bit(&vec![5, 2, 7, 4, 6, 1], 1), vec![5, 4, 1, 2, 7, 6]);
    let mut keys = vec![0u32; SORT_TILE as usize * 2];
    keys[3] = 0x0500;
    keys[SORT_TILE as usize] = 0x0500;
    let counts = radix_count_kernel(&keys, 2, 8);
    assert_eq!((counts[0], counts[1], counts[10], counts[11]), (2047, 2047, 1, 1));
    let offsets = radix_scan_kernel(&counts);
    assert_eq!((offsets[0], offsets[1], offsets[2], offsets[10], offsets[11]), (0, 2047, 4094, 4094, 4095));
}

#[test]
fn few_values_are_all_cuts() {
    let d = dense(&[3.0, 1.0, 2.0, 1.0, f32::NAN, 3.0], 6, 1);
    let values = DeviceValues::upload(&d);
    assert!(!values.dense_input);
    let columns = device_cuts(&values, 8);
    assert_eq!(floats(&columns[0].inner), vec![2.0, 3.0]);
    assert_eq!(columns[0].largest, Some(3.0f32.to_bits()));
}

#[test]
fn many_values_are_cut_by_rank() {
    let vals: Vec<f32> = (0..100).map(|i| ((i * 37) % 100) as f32).collect();
    let d = dense(&vals, 100, 1);
    let columns = device_cuts(&DeviceValues::upload(&d), 4);
    assert_eq!(floats(&columns[0].inner), vec![25.0, 50.0, 75.0]);
    assert_eq!(columns[0].largest, Some(99.0f32.to_bits()));
}

#[test]
fn a_repeated_value_is_stepped_over() {
    // Half the ranks fall on one value: the next distinct one follows it, and the values
    // run out before the queries do.
    let keys: Vec<u32> = [1u32, 5, 5, 5, 5, 5, 5, 7, SENTINEL, SENTINEL].to_vec();
    let (inner, largest) = cuts_kernel(&keys, 2);
    assert_eq!(inner, vec![key_value(5)]);
    assert_eq!(largest, Some(key_value(7)));
    let keys: Vec<u32> = [1u32, 1, 1, 1, 1, 6, 7, 8].to_vec();
    let (inner, _) = cuts_kernel(&keys, 3);
    assert_eq!(inner, vec![key_value(6), key_value(7)]);
}

#[test]
fn an_empty_column_has_one_cut() {
    let d = dense(&[1.0, f32::NAN, 2.0, f32::NAN], 2, 2);
    let columns = device_cuts(&DeviceValues::upload(&d), 8);
    assert_eq!(columns[1].largest, None);
    let closing = [9.0f32.to_bits(), 0];
    let cuts = join_columns(&columns, &closing);
    assert_eq!(cuts.cut_ptrs, vec![0, 2, 3]);
    assert_eq!(floats(&cuts.cut_values[..2]), vec![2.0, 9.0]);
    assert_eq!(cuts.cut_values[2], EMPTY_CUT);
    assert_eq!(f32::from_bits(EMPTY_CUT), 1e-5);
    assert!(cuts.min_values.iter().all(|m| f32::from_bits(*m) == f32::NEG_INFINITY));
}

#[test]
fn the_sketch_applies_to_plain_columns_on_a_device() {
    let mut d = dense(&[1.0, 2.0], 2, 1);
    assert!(applies(false, &hardware(32), &d, false, 1024));
    assert!(!applies(true, &hardware(32), &d, false, 256));
    assert!(!applies(false, &hardware(1), &d, false, 256));
    assert!(!applies(false, &hardware(32), &d, true, 256));
    assert!(!applies(false, &hardware(32), &d, false, 1025));
    d.set_weights(&[1.0f32.to_bits(), 1.0f32.to_bits()]).unwrap();
    assert!(!applies(false, &hardware(32), &d, false, 256));
}

#[test]
fn rows_have_to_be_in_column_order() {
    let d = dense(&[1.0, 2.0, 3.0, 4.0], 2, 2);
    assert!(DeviceValues::readable(&d));
    let nan = f32::NAN.to_bits();
    let swapped = DMatrix::from_csr(&[0, 2], &[2, 1], &[0, 0], 3, nan).unwrap();
    assert!(!DeviceValues::readable(&swapped));
    let ordered = DMatrix::from_csr(&[0, 2, 2], &[1, 2], &[0, 0], 3, nan).unwrap();
    assert!(DeviceValues::readable(&ordered));
}
