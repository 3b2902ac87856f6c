use xgboost_rs::gpu::ellpack::{
    bits_for, device_bits, load_bin, natural_bits, pack_bins, DeviceEllpack, EllpackLayout, EllpackMatrix,
};

/// The slow way to read a packed entry: the same bit arithmetic, two words at a time.
fn unpack(words: &[u32], entry: usize, bits: u32) -> u32 {
    let bit = entry as u64 * bits as u64;
    let (w, off) = ((bit >> 5) as usize, (bit & 31) as u32);
    let pair = (words[w + 1] as u64) << 32 | words[w] as u64;
    let mask = if bits == 32 { u32::MAX as u64 } else { (1u64 << bits) - 1 };
    ((pair >> off) & mask) as u32
}

#[test]
fn packing_round_trips_at_every_width() {
    for bits in 1..=32u32 {
        let cap = if bits == 32 { u32::MAX } else { (1u32 << bits) - 1 };
        let values: Vec<u32> =
            (0..1000u64).map(|i| (i.wrapping_mul(2_654_435_761) % (cap as u64 + 1)) as u32).collect();
        let words = pack_bins(&values, bits);
        let expected_words = if bits == 32 {
            values.len() + 1
        } else {
            values.len().div_ceil(32) * bits as usize + 1
        };
        assert_eq!(words.len(), expected_words, "bits {bits}");
        for (i, &v) in values.iter().enumerate() {
            assert_eq!(unpack(&words, i, bits), v, "bits {bits} entry {i}");
            assert_eq!(load_bin(&words, i as u32, bits), v, "bits {bits} entry {i}");
        }
    }
}

#[test]
fn width_follows_the_largest_stored_value() {
    assert_eq!(bits_for(0), 1);
    assert_eq!(bits_for(1), 1);
    assert_eq!(bits_for(255), 8);
    assert_eq!(bits_for(256), 9);
    assert_eq!(bits_for(u32::MAX), 32);
}

fn matrix(layout: EllpackLayout, null_value: u32) -> EllpackMatrix {
    EllpackMatrix {
        gidx: vec![0, 1, 2, 3, 1, 0],
        row_stride: 2,
        base_rowid: 0,
        n_rows: 3,
        cut_ptrs: vec![0, 4, 8],
        null_value,
        layout,
    }
}

#[test]
fn the_sentinel_counts_where_it_can_be_stored() {
    assert_eq!(natural_bits(&matrix(EllpackLayout::Dense, 9)), 2);
    assert_eq!(natural_bits(&matrix(EllpackLayout::DenseCompressed, 9)), 4);
    assert_eq!(device_bits(true, &matrix(EllpackLayout::Dense, 9)), 2);
    assert_eq!(device_bits(false, &matrix(EllpackLayout::Dense, 9)), 32);
}

#[test]
fn the_packed_matrix_holds_both_orders() {
    let m = matrix(EllpackLayout::Dense, 4);
    let ell = DeviceEllpack::upload(true, &m);
    assert_eq!(ell.n_features(), 2);
    for r in 0..3u32 {
        for f in 0..2u32 {
            let stored = m.gidx[(r * 2 + f) as usize];
            assert_eq!(load_bin(&ell.gidx, r * 2 + f, ell.bits), stored);
            assert_eq!(load_bin(&ell.gidx_t, f * 3 + r, ell.bits), stored);
        }
    }
}
