use xgboost_rs::data::csc::{CscPage, CscPages};
use xgboost_rs::data::DMatrix;

fn bits(values: &[f32]) -> Vec<u32> {
    values.iter().map(|v| v.to_bits()).collect()
}

fn dense(values: &[f32], rows: usize, cols: usize) -> DMatrix {
    DMatrix::from_dense(&bits(values), rows, cols, f32::NAN.to_bits()).unwrap()
}

fn matrix() -> DMatrix {
    // 3 rows, 2 columns, one hole at (1, 0).
    dense(&[3.0, 1.0, f32::NAN, 5.0, 2.0, 4.0], 3, 2)
}

fn column(page: &CscPage, f: usize) -> (Vec<u32>, Vec<f32>) {
    let (rows, values) = page.column(f);
    (rows.to_vec(), values.iter().map(|v| f32::from_bits(*v)).collect())
}

#[test]
fn a_column_holds_every_row_that_has_the_feature() {
    let page = CscPage::build(&matrix(), 0..3);
    assert_eq!(column(&page, 0), (vec![0u32, 2], vec![3.0f32, 2.0]));
    assert_eq!(column(&page, 1), (vec![0u32, 1, 2], vec![1.0f32, 5.0, 4.0]));
    assert_eq!(page.column_len(0), 2);
}

#[test]
fn sorting_orders_by_value_and_keeps_rows_absolute() {
    let page = CscPage::build_sorted(&matrix(), 0..3);
    assert_eq!(column(&page, 0), (vec![2u32, 0], vec![2.0f32, 3.0]));
    assert_eq!(column(&page, 1), (vec![0u32, 2, 1], vec![1.0f32, 4.0, 5.0]));
}

#[test]
fn equal_values_keep_their_row_order() {
    let d = dense(&[1.0, 1.0, 1.0, 1.0], 4, 1);
    let page = CscPage::build_sorted(&d, 0..4);
    assert_eq!(page.column(0).0, [0u32, 1, 2, 3]);
}

#[test]
fn batching_splits_rows_and_keeps_absolute_indices() {
    let pages = CscPages::build(&matrix(), Some(2), false);
    assert_eq!(pages.len(), 2);
    let mut seen: Vec<u32> = Vec::new();
    for page in pages.pages.iter() {
        seen.extend_from_slice(page.column(1).0);
    }
    assert_eq!(seen, vec![0, 1, 2], "every row appears in exactly one page");
    assert_eq!(column(&pages.pages[0], 0), (vec![0u32], vec![3.0f32]));
}

#[test]
fn an_unbatched_matrix_is_one_page() {
    assert_eq!(CscPages::build(&matrix(), None, false).len(), 1);
}

#[test]
fn an_empty_matrix_still_yields_a_page() {
    let d = dense(&[], 0, 2);
    let pages = CscPages::build(&d, None, false);
    assert_eq!(pages.len(), 1);
    assert_eq!(pages.single().column(0).0.len(), 0);
}

#[test]
fn the_negative_zero_sorts_with_the_positive_one() {
    let d = dense(&[0.0, -0.0, -1.0, 2.0], 4, 1);
    let page = CscPage::build_sorted(&d, 0..4);
    assert_eq!(column(&page, 0).1[0], -1.0);
    assert_eq!(column(&page, 0).1[3], 2.0);
}

#[test]
fn pages_joined_are_the_whole_matrix() {
    let x: Vec<u32> = (0..35)
        .map(|i| if i % 4 == 1 { f32::NAN.to_bits() } else { (((i * 13) % 7) as f32).to_bits() })
        .collect();
    let d = DMatrix::from_dense(&x, 7, 5, f32::NAN.to_bits()).unwrap();
    let whole = CscPage::build(&d, 0..7);
    for batch in 1..9 {
        let pages = CscPages::build(&d, Some(batch), false);
        assert_eq!(pages.len(), 7usize.div_ceil(batch).max(1));
        for c in 0..5 {
            let rows: Vec<u32> = pages.pages.iter().flat_map(|p| p.column(c).0.to_vec()).collect();
            let values: Vec<u32> = pages.pages.iter().flat_map(|p| p.column(c).1.to_vec()).collect();
            assert_eq!((rows.as_slice(), values.as_slice()), whole.column(c));
        }
    }
}

#[test]
fn a_sorted_column_is_the_plain_one_rearranged() {
    let x: Vec<u32> = (0..40).map(|i| (((i * 29) % 6) as f32 - 2.0).to_bits()).collect();
    let d = DMatrix::from_dense(&x, 20, 2, f32::NAN.to_bits()).unwrap();
    let (plain, sorted) = (CscPage::build(&d, 3..18), CscPage::build_sorted(&d, 3..18));
    assert_eq!(plain.num_col(), sorted.num_col());
    for c in 0..2 {
        let pairs = |p: &CscPage| -> Vec<(u32, u32)> {
            let (rows, values) = p.column(c);
            rows.iter().copied().zip(values.iter().copied()).collect()
        };
        let (mut before, after) = (pairs(&plain), pairs(&sorted));
        before.sort_by(|a, b| f32::from_bits(a.1).partial_cmp(&f32::from_bits(b.1)).unwrap());
        assert_eq!(before, after);
    }
}
