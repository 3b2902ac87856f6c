use xgboost_rs::data::cuts::{
    carry, check_row_weights, equal_runs, levels_suffice, make_cuts, merge_plan, monotone_ranks, prune_entries,
    push_step, raise_ranks, sketch_sizes, sort_queue, Carry, HistogramCuts, MergeStep, PushStep, QEntry, K_FACTOR,
};
use xgboost_rs::data::DMatrix;
use xgboost_rs::data::gradient_index::{build_gradient_index, build_gradient_index_with};
use xgboost_rs::error::Error;
use xgboost_rs::gpu::ellpack::{build_ellpack, EllpackLayout};

/// One summary element: a value with its rank interval.
#[derive(Clone, Copy, Debug)]
struct Entry {
    rmin: f32,
    rmax: f32,
    wmin: f32,
    value: f32,
}

impl Entry {
    fn rmin_next(&self) -> f32 {
        self.rmin + self.wmin
    }

    fn rmax_prev(&self) -> f32 {
        self.rmax - self.wmin
    }
}

/// Sort the staging queue and fold equal values into one entry each.
fn make_summary(queue: &mut Vec<QEntry>) -> Vec<Entry> {
    sort_queue(queue);
    let starts = equal_runs(queue);
    let mut out = Vec::new();
    let mut wsum = 0.0f32;
    for run in starts.windows(2) {
        let mut w = f32::from_bits(queue[run[0]].weight);
        for e in &queue[run[0] + 1..run[1]] {
            w += f32::from_bits(e.weight);
        }
        let value = f32::from_bits(queue[run[0]].value);
        out.push(Entry { rmin: wsum, rmax: wsum + w, wmin: w, value });
        wsum += w;
    }
    out
}

/// Keep at most `maxsize` entries, spaced evenly in rank space.
fn set_prune(src: &[Entry], maxsize: usize) -> Vec<Entry> {
    if src.len() <= maxsize {
        return src.to_vec();
    }
    let begin = src[0].rmax;
    let range = src[src.len() - 1].rmin - src[0].rmax;
    let n = maxsize - 1;
    let sums: Vec<u32> = src.iter().map(|e| (e.rmax + e.rmin).to_bits()).collect();
    let mids: Vec<u32> =
        src.windows(2).map(|w| (w[0].rmin_next() + w[1].rmax_prev()).to_bits()).collect();
    let dx2s: Vec<u32> =
        (1..n).map(|k| (2.0 * ((k as f32 * range) / n as f32 + begin)).to_bits()).collect();
    prune_entries(&sums, &mids, &dx2s).into_iter().map(|k| src[k]).collect()
}

/// Merge two summaries, then repair the rank order that rounding may have broken.
fn set_combine(sa: &[Entry], sb: &[Entry]) -> Vec<Entry> {
    if sa.is_empty() {
        return sb.to_vec();
    }
    if sb.is_empty() {
        return sa.to_vec();
    }
    let va: Vec<u32> = sa.iter().map(|e| e.value.to_bits()).collect();
    let vb: Vec<u32> = sb.iter().map(|e| e.value.to_bits()).collect();
    let (mut aprev, mut bprev) = (0.0f32, 0.0f32);
    let mut out = Vec::new();
    for step in merge_plan(&va, &vb) {
        match step {
            MergeStep::Both { a, b } => {
                let (a, b) = (sa[a], sb[b]);
                out.push(Entry {
                    rmin: a.rmin + b.rmin,
                    rmax: a.rmax + b.rmax,
                    wmin: a.wmin + b.wmin,
                    value: a.value,
                });
                aprev = a.rmin_next();
                bprev = b.rmin_next();
            }
            MergeStep::First { a, b } => {
                let a = sa[a];
                let above = if b < sb.len() { sb[b].rmax_prev() } else { sb[sb.len() - 1].rmax };
                out.push(Entry { rmin: a.rmin + bprev, rmax: a.rmax + above, ..a });
                aprev = a.rmin_next();
            }
            MergeStep::Second { a, b } => {
                let b = sb[b];
                let above = if a < sa.len() { sa[a].rmax_prev() } else { sa[sa.len() - 1].rmax };
                out.push(Entry { rmin: b.rmin + aprev, rmax: b.rmax + above, ..b });
                bprev = b.rmin_next();
            }
        }
    }
    let mut lower: Vec<u32> = out.iter().map(|e| e.rmin.to_bits()).collect();
    monotone_ranks(&mut lower);
    for (e, bits) in out.iter_mut().zip(&lower) {
        e.rmin = f32::from_bits(*bits);
    }
    let reach: Vec<u32> = out.iter().map(|e| e.rmin_next().to_bits()).collect();
    let mut upper: Vec<u32> = out.iter().map(|e| e.rmax.to_bits()).collect();
    raise_ranks(&mut upper, &reach);
    for (e, bits) in out.iter_mut().zip(&upper) {
        e.rmax = f32::from_bits(*bits);
    }
    out
}

/// Entries per level of a sketch of `maxn` values with this error.
fn limit_size(maxn: usize, eps: f64) -> usize {
    let mut nlevel = 1u32;
    loop {
        let limit = ((f64::from(nlevel) / eps).ceil() as usize + 1).min(maxn);
        if levels_suffice(nlevel, limit, maxn) {
            return limit;
        }
        nlevel += 1;
    }
}

/// A single feature's sketch.
struct QuantileSketch {
    queue: Vec<QEntry>,
    limit: usize,
    /// The first level is never filled.
    level: Vec<Vec<Entry>>,
}

impl QuantileSketch {
    fn new(maxn: usize, eps: f64) -> Self {
        QuantileSketch { queue: Vec::new(), limit: limit_size(maxn, eps), level: Vec::new() }
    }

    fn push(&mut self, x: u32, w: u32) {
        let last = self.queue.last().map_or(0, |e| e.value);
        match push_step(self.queue.len(), self.limit * 2, last, x, w) {
            PushStep::Skip => {}
            PushStep::Merge => {
                let e = self.queue.last_mut().expect("a value is staged");
                e.weight = (f32::from_bits(e.weight) + f32::from_bits(w)).to_bits();
            }
            PushStep::Append => self.queue.push(QEntry { value: x, weight: w }),
            PushStep::Flush => {
                let temp = make_summary(&mut self.queue);
                self.queue.clear();
                self.push_temp(temp);
                self.queue.push(QEntry { value: x, weight: w });
            }
        }
    }

    /// Carry a summary up the levels until one takes it.
    fn push_temp(&mut self, mut temp: Vec<Entry>) {
        let mut l = 1usize;
        loop {
            while self.level.len() < l + 1 {
                self.level.push(Vec::new());
            }
            let merged = set_combine(&set_prune(&temp, self.limit), &self.level[l]);
            match carry(self.level[l].len(), merged.len(), self.limit) {
                Carry::Store => {
                    self.level[l] = set_prune(&temp, self.limit);
                    return;
                }
                Carry::Replace => {
                    self.level[l] = merged;
                    return;
                }
                Carry::Up => {
                    self.level[l].clear();
                    temp = merged;
                }
            }
            l += 1;
        }
    }

    fn summary(&mut self) -> Vec<Entry> {
        let mut out = set_prune(&make_summary(&mut self.queue), self.limit);
        for l in 1..self.level.len() {
            if self.level[l].is_empty() {
                continue;
            }
            out = if out.is_empty() {
                self.level[l].clone()
            } else {
                set_prune(&set_combine(&out, &self.level[l]), self.limit)
            };
        }
        out
    }
}

/// The quantile cuts of a matrix.
fn build_cuts(dmat: &DMatrix, max_bin: u32) -> HistogramCuts {
    let columns = dmat.column_sizes();
    let max_bins = max_bin as usize;
    let mut sketches: Vec<Option<QuantileSketch>> = columns
        .iter()
        .map(|&n| {
            let sizes = sketch_sizes(n, max_bins);
            let eps = 1.0f64 / f64::from(sizes.n_bins as f32 * K_FACTOR as f32);
            if n > 0 { Some(QuantileSketch::new(n, eps)) } else { None }
        })
        .collect();
    for r in 0..dmat.num_row() {
        let w = dmat.info().weight(r);
        let (idx, val) = dmat.row(r);
        for (&c, &v) in idx.iter().zip(val) {
            if let Some(s) = sketches[c as usize].as_mut() {
                s.push(v, w);
            }
        }
    }
    let mut summaries = Vec::new();
    let mut closing = Vec::new();
    let mut mins = Vec::new();
    let mut limits = Vec::new();
    for (f, sketch) in sketches.iter_mut().enumerate() {
        let sizes = sketch_sizes(columns[f], max_bins);
        let last = match sketch {
            Some(s) => {
                let reduced = set_prune(&s.summary(), sizes.intermediate);
                let last = set_prune(&reduced, sizes.max_num_bins + 1);
                let low = last[0].value;
                mins.push((low - low.abs() - 1e-5).to_bits());
                last
            }
            None => {
                mins.push(1e-5f32.to_bits());
                Vec::new()
            }
        };
        let top = last.last().map_or(f32::from_bits(mins[f]), |e| e.value);
        closing.push((top + (top.abs() + 1e-5)).to_bits());
        summaries.push(last.iter().map(|e| e.value.to_bits()).collect::<Vec<u32>>());
        limits.push(sizes.max_num_bins);
    }
    make_cuts(&summaries, &closing, mins, &limits)
}

fn dense(values: &[f32], rows: usize, cols: usize) -> DMatrix {
    let bits: Vec<u32> = values.iter().map(|v| v.to_bits()).collect();
    DMatrix::from_dense(&bits, rows, cols, f32::NAN.to_bits()).unwrap()
}

#[test]
fn radix_sort_matches_the_comparison_sort() {
    // Mixed signs, zeros, duplicates and a wide exponent range.
    let values: Vec<f32> = (0..5000)
        .map(|i| {
            let x = ((i * 2654435761u64 as usize) % 9973) as f32;
            match i % 5 {
                0 => -x,
                1 => x * 1e-8,
                2 => x * 1e8,
                3 => 0.0,
                _ => x,
            }
        })
        .collect();
    let mut a: Vec<QEntry> =
        values.iter().map(|&v| QEntry { value: v.to_bits(), weight: 1.0f32.to_bits() }).collect();
    let mut b = values.clone();

    sort_queue(&mut a);
    b.sort_by(|x, y| x.partial_cmp(y).unwrap());

    let a: Vec<f32> = a.iter().map(|e| f32::from_bits(e.value)).collect();
    assert_eq!(a, b);
}

#[test]
fn single_distinct_value_yields_one_bin() {
    let d = dense(&[1.0, 1.0, 1.0, 1.0], 4, 1);
    let cuts = build_cuts(&d, 16);
    assert_eq!(cuts.cut_ptrs, vec![0, 1]);
    assert!(f32::from_bits(cuts.cut_values[0]) > 1.0);
    assert!(f32::from_bits(cuts.min_values[0]) < 1.0);
    assert_eq!(cuts.search_bin(1.0f32.to_bits(), 0), 0);
}

#[test]
fn few_distinct_values_are_kept_exactly() {
    let vals: Vec<f32> = (0..40).map(|i| (i % 4) as f32).collect();
    let d = dense(&vals, 40, 1);
    let cuts = build_cuts(&d, 16);
    // Values 0..3: cuts are the upper bounds 1, 2, 3 plus a final sentinel.
    let values: Vec<f32> = cuts.cut_values.iter().map(|v| f32::from_bits(*v)).collect();
    assert_eq!(values[..3], [1.0, 2.0, 3.0]);
    assert_eq!(cuts.search_bin(0.0f32.to_bits(), 0), 0);
    assert_eq!(cuts.search_bin(1.0f32.to_bits(), 0), 1);
    assert_eq!(cuts.search_bin(3.0f32.to_bits(), 0), 3);
}

#[test]
fn bins_never_exceed_max_bin() {
    let vals: Vec<f32> = (0..1000).map(|i| i as f32 * 0.5).collect();
    let d = dense(&vals, 1000, 1);
    for max_bin in [2u32, 8, 37, 256] {
        let cuts = build_cuts(&d, max_bin);
        assert!(
            cuts.feature_bins(0) <= max_bin as usize,
            "max_bin={max_bin} produced {} bins",
            cuts.feature_bins(0)
        );
    }
}

#[test]
fn empty_column_still_gets_one_bin() {
    let d = dense(&[1.0, f32::NAN, 2.0, f32::NAN], 2, 2);
    let cuts = build_cuts(&d, 16);
    assert_eq!(cuts.feature_bins(1), 1);
}

#[test]
fn a_long_column_fills_several_levels() {
    let vals: Vec<f32> = (0..60_000u32).map(|i| (i.wrapping_mul(2_654_435_761) % 50_021) as f32).collect();
    let d = dense(&vals, 60_000, 1);
    let cuts = build_cuts(&d, 16);
    assert_eq!(cuts.feature_bins(0), 16);
    // Evenly spaced in rank: every bin holds about a sixteenth of the values.
    let mut counts = vec![0usize; 16];
    for v in &vals {
        counts[cuts.search_bin(v.to_bits(), 0) as usize] += 1;
    }
    assert!(counts.iter().all(|&c| c > 2500 && c < 5500));
}

#[test]
fn a_value_above_every_cut_is_in_the_last_bin() {
    let d = dense(&[1.0, 2.0, 3.0], 3, 1);
    let cuts = build_cuts(&d, 4);
    let last = cuts.feature_bins(0) as u32 - 1;
    assert_eq!(cuts.search_bin(1e30f32.to_bits(), 0), last);
    assert_eq!(cuts.search_bin((-1e30f32).to_bits(), 0), 0);
}

#[test]
fn a_split_condition_names_the_bin_of_its_cut() {
    let d = dense(&[1.0, 2.0, 3.0, 10.0, 20.0, 30.0], 3, 2);
    let cuts = build_cuts(&d, 4);
    let second = cuts.cut_ptrs[1];
    assert_eq!(cuts.find_split_condition(1, cuts.cut_values[second as usize + 1]), i64::from(second) + 1);
    assert_eq!(cuts.find_split_condition(1, 7.0f32.to_bits()), -1);
    assert_eq!(cuts.backward_split_point(1, second as usize), cuts.min_values[1]);
    assert_eq!(cuts.backward_split_point(1, second as usize + 1), cuts.cut_values[second as usize]);
}

#[test]
fn categories_without_a_bin_have_none() {
    let cuts = HistogramCuts {
        cut_ptrs: vec![0, 3],
        cut_values: vec![0.0f32.to_bits(), 1.0f32.to_bits(), 2.0f32.to_bits()],
        min_values: vec![0],
        is_categorical: vec![true],
    };
    assert_eq!(cuts.bin_of(1.0f32.to_bits(), 0), Some(1));
    assert_eq!(cuts.bin_of(2.75f32.to_bits(), 0), Some(2));
    assert_eq!(cuts.bin_of(3.0f32.to_bits(), 0), None);
    assert_eq!(cuts.bin_of((-1.0f32).to_bits(), 0), None);
    assert!(cuts.has_categorical());
}

#[test]
fn a_weight_per_row_is_needed() {
    assert_eq!(check_row_weights(3, None), Ok(()));
    assert_eq!(check_row_weights(3, Some(3)), Ok(()));
    assert_eq!(check_row_weights(3, Some(2)), Err(Error::DataShape { expected: 3, got: 2 }));
}

#[test]
fn sketches_are_sized_by_their_columns() {
    assert_eq!(sketch_sizes(5, 16).n_bins, 5);
    assert_eq!(sketch_sizes(1000, 16).n_bins, 16);
    assert_eq!(sketch_sizes(1000, 16).intermediate, 128);
    assert_eq!(sketch_sizes(100, 16).intermediate, 100);
    assert_eq!(sketch_sizes(5, 16).max_num_bins, 5);
    assert!(levels_suffice(3, 10, 80));
    assert!(!levels_suffice(3, 10, 81));
    assert!(levels_suffice(200, 1, usize::MAX));
}

const NAN: u32 = 0x7FC0_0000;

fn words(values: &[f32]) -> Vec<u32> {
    values.iter().map(|v| v.to_bits()).collect()
}

/// The smallest number of entries that is not below a share of the rows.
fn sparse_below(threshold: f64, rows: usize) -> usize {
    (threshold * rows as f64).ceil() as usize
}

#[test]
fn bins_are_monotone_in_value() {
    let vals: Vec<f32> = (0..64).map(|i| i as f32).collect();
    let d = dense(&vals, 64, 1);
    let cuts = build_cuts(&d, 16);
    let gi = build_gradient_index(&d, &cuts).unwrap();
    assert!(gi.is_dense);
    let bins: Vec<u32> = (0..64).map(|r| gi.row_global_bins(r)[0]).collect();
    assert!(bins.windows(2).all(|w| w[0] <= w[1]), "bins must not decrease with value");
    assert_eq!(*bins.first().unwrap(), 0);
    assert_eq!(*bins.last().unwrap() as usize, cuts.feature_bins(0) - 1);
}

#[test]
fn dense_index_is_narrowed_to_one_byte() {
    let vals: Vec<f32> = (0..600).map(|i| i as f32).collect();
    let d = dense(&vals, 200, 3);
    let cuts = build_cuts(&d, 256);
    let gi = build_gradient_index(&d, &cuts).unwrap();
    assert_eq!(gi.index.width(), 1, "200 bins per feature fit in a byte");
    assert_eq!(gi.size_bytes(), 600);
}

#[test]
fn sparse_rows_keep_their_entry_count() {
    let d = dense(&[1.0, f32::NAN, 3.0, 4.0], 2, 2);
    let cuts = build_cuts(&d, 8);
    let gi = build_gradient_index(&d, &cuts).unwrap();
    assert!(!gi.is_dense);
    assert_eq!(gi.row_global_bins(0).len(), 1);
    assert_eq!(gi.row_global_bins(1).len(), 2);
}

#[test]
fn column_index_reports_missing_values() {
    let d = dense(&[1.0, f32::NAN, 3.0, 4.0], 2, 2);
    let cuts = build_cuts(&d, 8);
    let gi = build_gradient_index(&d, &cuts).unwrap();
    assert!(gi.columns.get(0, 0).is_some());
    assert_eq!(gi.columns.get(1, 0), None, "row 0 has no feature 1");
    assert!(gi.columns.get(1, 1).is_some());
}

#[test]
fn the_two_column_layouts_agree_on_every_lookup() {
    let (rows, cols) = (400usize, 6usize);
    // Columns of very different density, so a middling threshold splits
    // them between the two layouts.
    let x: Vec<f32> = (0..rows * cols)
        .map(|i| {
            let (r, c) = (i / cols, i % cols);
            if (r * (c + 1)) % (c + 2) == 0 { ((i * 37) % 97) as f32 } else { f32::NAN }
        })
        .collect();
    let d = dense(&x, rows, cols);
    let cuts = build_cuts(&d, 32);

    // 0 forces every column dense, 1 forces every partly-missing column
    // sparse, and the default splits them.
    let all_dense = build_gradient_index_with(&d, &cuts, sparse_below(0.0, rows)).unwrap();
    let all_sparse = build_gradient_index_with(&d, &cuts, sparse_below(1.0, rows)).unwrap();
    let mixed = build_gradient_index_with(&d, &cuts, sparse_below(0.5, rows)).unwrap();

    assert_eq!(all_dense.sparse_columns(), 0, "threshold 0 keeps every column dense");
    assert!(all_sparse.sparse_columns() > 0, "threshold 1 stores sparse columns sparsely");
    assert!(
        mixed.sparse_columns() > 0 && mixed.sparse_columns() < cols,
        "0.5 should split the columns between the layouts, got {}",
        mixed.sparse_columns()
    );

    for f in 0..cols as u32 {
        for r in 0..rows {
            let expected = all_dense.columns.get(f, r);
            assert_eq!(all_sparse.columns.get(f, r), expected, "feature {f} row {r}");
            assert_eq!(mixed.columns.get(f, r), expected, "feature {f} row {r}");
        }
    }
}

#[test]
fn a_sparse_column_layout_is_smaller() {
    let (rows, cols) = (500usize, 4usize);
    // Every column is mostly missing.
    let x: Vec<f32> = (0..rows * cols)
        .map(|i| if i % 10 == 0 { (i % 50) as f32 } else { f32::NAN })
        .collect();
    let d = dense(&x, rows, cols);
    let cuts = build_cuts(&d, 32);

    let dense = build_gradient_index_with(&d, &cuts, sparse_below(0.0, rows)).unwrap();
    let sparse = build_gradient_index_with(&d, &cuts, sparse_below(1.0, rows)).unwrap();
    assert!(
        sparse.column_size_bytes() < dense.column_size_bytes(),
        "sparse columns should cost less: {} vs {}",
        sparse.column_size_bytes(),
        dense.column_size_bytes()
    );
}

#[test]
fn a_full_column_always_stays_dense() {
    let vals: Vec<f32> = (0..300).map(|i| (i % 17) as f32).collect();
    let d = dense(&vals, 100, 3);
    let cuts = build_cuts(&d, 16);
    for threshold in [0.0f64, 0.2, 0.5, 1.0] {
        let gi = build_gradient_index_with(&d, &cuts, sparse_below(threshold, 100)).unwrap();
        assert_eq!(gi.sparse_columns(), 0, "threshold {threshold}");
    }
}

#[test]
fn column_index_agrees_with_the_row_major_index() {
    let vals: Vec<f32> = (0..300).map(|i| ((i * 17) % 23) as f32).collect();
    let d = dense(&vals, 100, 3);
    let cuts = build_cuts(&d, 8);
    let gi = build_gradient_index(&d, &cuts).unwrap();
    for r in 0..d.num_row() {
        for (f, global) in gi.row_global_bins(r).into_iter().enumerate() {
            let local = gi.columns.get(f as u32, r).expect("dense: never missing");
            assert_eq!(local + cuts.cut_ptrs[f], global, "row {r} feature {f}");
        }
    }
}

#[test]
fn the_packed_matrix_has_the_bins_of_the_index() {
    let x: Vec<f32> = (0..240)
        .map(|i| if i % 7 == 3 { f32::NAN } else { ((i * 29) % 31) as f32 })
        .collect();
    let d = dense(&x, 80, 3);
    let cuts = build_cuts(&d, 8);
    let gi = build_gradient_index(&d, &cuts).unwrap();
    let matrix = build_ellpack(&d, &cuts);
    assert_eq!(matrix.layout, EllpackLayout::DenseCompressed);
    assert_eq!(matrix.null_value as usize, (0..3).map(|f| cuts.feature_bins(f)).max().unwrap());
    for r in 0..80 {
        for f in 0..3 {
            let stored = matrix.gidx[r * 3 + f];
            let expected = gi.columns.get(f as u32, r).unwrap_or(matrix.null_value);
            assert_eq!(stored, expected);
        }
    }
}

#[test]
fn a_matrix_without_holes_is_packed_dense() {
    let x: Vec<f32> = (0..30).map(|i| i as f32).collect();
    let d = dense(&x, 10, 3);
    let cuts = build_cuts(&d, 4);
    let matrix = build_ellpack(&d, &cuts);
    assert_eq!(matrix.layout, EllpackLayout::Dense);
    assert_eq!(matrix.row_stride, 3);
    assert_eq!(matrix.cut_ptrs, cuts.cut_ptrs);
}

#[test]
fn an_unseen_category_is_stored_as_missing() {
    let d = dense(&[0.0, 5.0, 1.0], 3, 1);
    let cuts = HistogramCuts {
        cut_ptrs: vec![0, 2],
        cut_values: vec![0.0f32.to_bits(), 1.0f32.to_bits()],
        min_values: vec![0],
        is_categorical: vec![true],
    };
    let matrix = build_ellpack(&d, &cuts);
    assert_eq!(matrix.gidx, vec![0, 2, 1]);
    assert_eq!(matrix.layout, EllpackLayout::DenseCompressed);
}

#[test]
fn columns_may_stand_in_any_order_in_a_row() {
    // The same values, once in column order and once turned round.
    let ordered = DMatrix::from_csr(&[0, 3, 5, 8], &[0, 1, 2, 0, 2, 0, 1, 2], &words(&[1., 2., 3., 4., 5., 6., 7., 8.]), 3, NAN);
    let turned = DMatrix::from_csr(&[0, 3, 5, 8], &[2, 1, 0, 2, 0, 1, 2, 0], &words(&[3., 2., 1., 5., 4., 7., 8., 6.]), 3, NAN);
    let (ordered, turned) = (ordered.unwrap(), turned.unwrap());
    let cuts = build_cuts(&ordered, 4);
    for below in [0, 3] {
        let a = build_gradient_index_with(&ordered, &cuts, below).unwrap();
        let b = build_gradient_index_with(&turned, &cuts, below).unwrap();
        assert_eq!(a.sparse_columns(), b.sparse_columns());
        assert_eq!(a.column_size_bytes(), b.column_size_bytes());
        for r in 0..3 {
            for f in 0..3 {
                assert_eq!(a.columns.get(f, r), b.columns.get(f, r), "feature {f} row {r}");
            }
        }
    }
}

#[test]
fn a_full_row_in_any_order_is_binned_by_its_columns() {
    let ordered = dense(&[1.0, 20.0, 2.0, 10.0, 3.0, 30.0], 3, 2);
    let turned = DMatrix::from_csr(&[0, 2, 4, 6], &[1, 0, 0, 1, 1, 0], &words(&[20., 1., 2., 10., 30., 3.]), 2, NAN).unwrap();
    let cuts = build_cuts(&ordered, 4);
    let a = build_gradient_index(&ordered, &cuts).unwrap();
    let b = build_gradient_index(&turned, &cuts).unwrap();
    assert!(a.is_dense && b.is_dense);
    for r in 0..3 {
        assert_eq!(a.row_global_bins(r), b.row_global_bins(r));
    }
}

#[test]
fn the_column_index_takes_the_bytes_its_layout_says() {
    let x: Vec<f32> = (0..2000).map(|i| if i % 10 == 0 { (i % 50) as f32 } else { f32::NAN }).collect();
    let d = dense(&x, 500, 4);
    let cuts = build_cuts(&d, 32);
    let bytes = |t| build_gradient_index_with(&d, &cuts, sparse_below(t, 500)).unwrap().column_size_bytes();
    assert_eq!((bytes(0.0), bytes(1.0)), (2000, 1000));
    let sizes = d.column_sizes();
    for t in [0.0, 0.1, 0.2, 0.5, 1.0] {
        let gi = build_gradient_index_with(&d, &cuts, sparse_below(t, 500)).unwrap();
        let thin = sizes.iter().filter(|n| (**n as f64) < t * 500.0).count();
        assert_eq!(gi.sparse_columns(), thin, "threshold {t}");
    }
}

#[test]
fn a_column_named_twice_keeps_every_entry_and_answers_with_the_last() {
    // Row 0 names column 1 twice, row 2 column 0; the second row has a hole.
    let d = DMatrix::from_csr(&[0, 3, 4, 6], &[1, 0, 1, 0, 0, 0], &words(&[5., 1., 9., 2., 7., 3.]), 2, NAN).unwrap();
    let plain = dense(&[1.0, 9.0, 2.0, f32::NAN, 3.0, f32::NAN], 3, 2);
    let cuts = build_cuts(&dense(&[1., 5., 2., 9., 3., 5., 7., 9.], 4, 2), 8);
    let expected = build_gradient_index(&plain, &cuts).unwrap();
    for below in [0usize, 2, 3, 4, 5] {
        let gi = build_gradient_index_with(&d, &cuts, below).unwrap();
        assert!(!gi.is_dense);
        assert_eq!(gi.sparse_columns(), [4usize, 2].iter().filter(|n| **n < below).count());
        assert_eq!((0..3).map(|r| gi.row_global_bins(r).len()).collect::<Vec<_>>(), vec![3, 1, 2]);
        for r in 0..3 {
            for f in 0..2 {
                assert_eq!(gi.columns.get(f, r), expected.columns.get(f, r), "feature {f} row {r} below {below}");
            }
        }
    }
    // A full matrix with a column to spare is dense, and its last value counts.
    let full = DMatrix::from_csr(&[0, 3], &[0, 1, 0], &words(&[1., 5., 7.]), 2, NAN).unwrap();
    let gi = build_gradient_index(&full, &cuts).unwrap();
    assert!(gi.is_dense);
    assert_eq!(gi.row_global_bins(0), vec![cuts.search_bin(7.0f32.to_bits(), 0), cuts.search_bin(5.0f32.to_bits(), 1)]);
}

#[test]
fn merging_is_symmetric_and_loses_nothing() {
    let (a, b) = (words(&[1., 2., 4., 7.]), words(&[0., 2., 3., 7., 9.]));
    let values = |x: &[u32], y: &[u32]| -> Vec<f32> {
        merge_plan(x, y)
            .iter()
            .map(|step| match *step {
                MergeStep::Both { a, .. } | MergeStep::First { a, .. } => f32::from_bits(x[a]),
                MergeStep::Second { b, .. } => f32::from_bits(y[b]),
            })
            .collect()
    };
    assert_eq!(values(&a, &b), vec![0., 1., 2., 3., 4., 7., 9.]);
    assert_eq!(values(&a, &b), values(&b, &a));
    let turned: Vec<MergeStep> = merge_plan(&a, &b)
        .into_iter()
        .map(|step| match step {
            MergeStep::Both { a, b } => MergeStep::Both { a: b, b: a },
            MergeStep::First { a, b } => MergeStep::Second { a: b, b: a },
            MergeStep::Second { a, b } => MergeStep::First { a: b, b: a },
        })
        .collect();
    assert_eq!(merge_plan(&b, &a), turned);
    assert_eq!(values(&a, &[]), vec![1., 2., 4., 7.]);
    assert_eq!(values(&[], &a), vec![1., 2., 4., 7.]);
}

#[test]
fn the_ends_of_a_summary_fall_into_the_end_bins() {
    let cuts = make_cuts(&[words(&[1., 2., 5., 8.])], &words(&[20.]), vec![0], &[3]);
    let bin = |v: f32| cuts.search_bin(v.to_bits(), 0);
    assert_eq!((bin(1.0), bin(0.5)), (0, 0));
    assert_eq!((bin(8.0), bin(30.0)), (2, 2));
    assert_eq!(cuts.feature_bins(0), 3);
}
