use xgboost_rs::error::Error;
use xgboost_rs::gpu::ellpack::{DeviceEllpack, EllpackLayout, EllpackMatrix};
use xgboost_rs::gpu::launch::Hardware;
use xgboost_rs::gpu::row_partitioner::{supports_sparse_layout, RowPartitioner, SegmentSplit};

fn hardware(planes: u32) -> Hardware {
    Hardware {
        plane_size_max: planes,
        max_units_per_cube: 1024,
        max_cube_count_x: 65535,
        max_cube_count_y: 65535,
        max_cube_count_z: 65535,
        num_cpu_cores: Some(4),
    }
}

fn matrix(rows: usize, layout: EllpackLayout) -> EllpackMatrix {
    let null_value = if layout == EllpackLayout::Sparse { 12 } else { 6 };
    let gidx = (0..rows * 2)
        .map(|i| {
            let x = (i as u64 + 1).wrapping_mul(0x9E37_79B9_7F4A_7C15) >> 40;
            if layout != EllpackLayout::Dense && x % 7 == 0 {
                return null_value;
            }
            let bin = (x / 7 % 6) as u32;
            if layout == EllpackLayout::Sparse { (i % 2) as u32 * 6 + bin } else { bin }
        })
        .collect();
    EllpackMatrix { gidx, row_stride: 2, base_rowid: 0, n_rows: rows, cut_ptrs: vec![0, 6, 12], null_value, layout }
}

fn goes_left(m: &EllpackMatrix, sp: &SegmentSplit, row: u32) -> bool {
    let stored = m.gidx[row as usize * 2 + sp.fidx as usize];
    if !m.is_dense() && stored == m.null_value {
        return sp.default_left;
    }
    let bin = if m.is_compressed() { stored } else { stored - m.cut_ptrs[sp.fidx as usize] };
    if sp.cat_bits.is_empty() { i64::from(bin) <= sp.cond } else { sp.cat_bits[0] >> bin & 1 == 0 }
}

fn split(begin: u32, len: u32, fidx: u32, cond: i64, default_left: bool, cats: &[u32]) -> SegmentSplit {
    SegmentSplit { begin, len, fidx, cond, default_left, cat_bits: cats.to_vec() }
}

/// Part the segments of a plain list of rows.
fn expect(m: &EllpackMatrix, rows: &mut [u32], splits: &[SegmentSplit]) -> Vec<u32> {
    splits
        .iter()
        .map(|sp| {
            let segment = &mut rows[sp.begin as usize..(sp.begin + sp.len) as usize];
            let (l, r): (Vec<u32>, Vec<u32>) = segment.iter().partition(|row| goes_left(m, sp, **row));
            segment.copy_from_slice(&[l.clone(), r].concat());
            l.len() as u32
        })
        .collect()
}

#[test]
fn segments_are_parted_in_place_and_in_order() {
    for layout in [EllpackLayout::Dense, EllpackLayout::DenseCompressed, EllpackLayout::Sparse] {
        for planes in [1u32, 32] {
            if layout == EllpackLayout::Sparse && planes == 1 {
                continue;
            }
            let m = matrix(9000, layout);
            let ell = DeviceEllpack::upload(planes > 1, &m);
            let mut part = RowPartitioner::all_rows(9000);
            let mut rows: Vec<u32> = (0..9000).collect();
            let root = [split(0, 9000, 0, 2, true, &[])];
            let counts = part.partition(&hardware(planes), &ell, &root).unwrap();
            assert_eq!(counts, expect(&m, &mut rows, &root));
            assert_eq!(part.read(), rows);
            let n = counts[0];
            // Only the right half, then both halves: the two buffers fall out of step.
            let right = [split(n, 9000 - n, 1, 4, false, &[])];
            let more = part.partition(&hardware(planes), &ell, &right).unwrap();
            assert_eq!(more, expect(&m, &mut rows, &right));
            assert_eq!(part.read(), rows);
            let both = [
                split(n, more[0], 0, -1, true, &[0b010110]),
                split(0, n, 1, 1, true, &[]),
            ];
            let last = part.partition(&hardware(planes), &ell, &both).unwrap();
            assert_eq!(last, expect(&m, &mut rows, &both));
            assert_eq!(part.read(), rows);
            let (a, b) = part.buffers();
            for (i, row) in rows.iter().enumerate() {
                let held = if part.side_of(i as u32) == 0 { a[i] } else { b[i] };
                assert_eq!(held, *row);
            }
        }
    }
}

#[test]
fn a_sparse_matrix_needs_planes() {
    let m = matrix(20, EllpackLayout::Sparse);
    let ell = DeviceEllpack::upload(false, &m);
    let mut part = RowPartitioner::all_rows(20);
    let refused = part.partition(&hardware(1), &ell, &[split(0, 20, 0, 2, true, &[])]);
    assert_eq!(refused, Err(Error::SparseEllpackUnsupported));
    assert_eq!(part.read(), (0..20).collect::<Vec<u32>>());
    assert!(!supports_sparse_layout(&hardware(1)) && supports_sparse_layout(&hardware(32)));
}

#[test]
fn a_threshold_below_every_bin_sends_present_rows_right() {
    let m = matrix(50, EllpackLayout::DenseCompressed);
    let ell = DeviceEllpack::upload(false, &m);
    let mut part = RowPartitioner::all_rows(50);
    let counts = part.partition(&hardware(1), &ell, &[split(0, 50, 0, -1, true, &[])]).unwrap();
    let missing = (0..50).filter(|r| m.gidx[r * 2] == m.null_value).count();
    assert_eq!(counts[0] as usize, missing);
}

#[test]
fn nothing_to_part_is_nothing_done() {
    let m = matrix(10, EllpackLayout::Dense);
    let ell = DeviceEllpack::upload(false, &m);
    let mut part = RowPartitioner::new(&[4, 2, 9]);
    assert_eq!(part.partition(&hardware(1), &ell, &[]), Ok(Vec::new()));
    assert_eq!(part.read(), vec![4, 2, 9]);
    assert_eq!(part.n_rows(), 3);
}
