use xgboost_rs::data::libsvm::{scan, LibsvmText};
use xgboost_rs::data::DMatrix;
use xgboost_rs::error::Error;
use xgboost_rs::gbm::feature_value;

fn bits(values: &[f32]) -> Vec<u32> {
    values.iter().map(|v| v.to_bits()).collect()
}

fn floats(values: &[u32]) -> Vec<f32> {
    values.iter().map(|v| f32::from_bits(*v)).collect()
}

fn dense(values: &[f32], rows: usize, cols: usize) -> Result<DMatrix, Error> {
    DMatrix::from_dense(&bits(values), rows, cols, f32::NAN.to_bits())
}

fn row(d: &DMatrix, r: usize) -> (Vec<u32>, Vec<f32>) {
    let (index, value) = d.row(r);
    (index.to_vec(), floats(value))
}

/// Read the numbers of a text and make the matrix of it.
fn from_libsvm(text: &str) -> Result<DMatrix, Error> {
    let scanned: LibsvmText = scan(text);
    let numbers: Vec<Option<u32>> = scanned
        .numbers()
        .iter()
        .map(|n| n.digits.iter().collect::<String>().parse::<f32>().ok().map(f32::to_bits))
        .collect();
    DMatrix::from_libsvm_str(text, &numbers)
}

#[test]
fn dense_drops_missing_and_reports_density() {
    let d = dense(&[1.0, 2.0, f32::NAN, 4.0], 2, 2).unwrap();
    assert_eq!(d.num_row(), 2);
    assert_eq!(d.num_col(), 2);
    assert!(!d.is_dense());
    assert_eq!(row(&d, 0), (vec![0u32, 1], vec![1.0f32, 2.0]));
    assert_eq!(row(&d, 1), (vec![1u32], vec![4.0f32]));
    assert_eq!(d.column_sizes(), vec![1, 2]);
}

#[test]
fn dense_without_missing_is_dense() {
    let d = dense(&[1.0, 0.0, 3.0, 4.0], 2, 2).unwrap();
    assert!(d.is_dense(), "explicit zeros are values, not missing");
}

#[test]
fn a_matrix_is_dense_where_every_row_has_every_column() {
    let one = 1.0f32.to_bits();
    let csr = |ptr: &[usize], index: &[u32], cols: usize| {
        DMatrix::from_csr(ptr, index, &vec![one; index.len()], cols, f32::NAN.to_bits()).unwrap()
    };
    // As many entries as cells, but one column stands twice.
    assert!(!csr(&[0, 2], &[0, 0], 2).is_dense());
    assert!(csr(&[0, 2], &[1, 0], 2).is_dense());
    assert!(csr(&[0, 3], &[0, 1, 0], 2).is_dense());
    assert!(!csr(&[0, 3, 4], &[0, 1, 1, 0], 2).is_dense());
    assert!(csr(&[0], &[], 2).is_dense());
}

#[test]
fn several_labels_need_one_per_row_and_target() {
    let mut d = DMatrix::from_csr(&[0, 0, 0], &[], &[], 1, f32::NAN.to_bits()).unwrap();
    d.set_labels_multi(&[1, 2, 3, 4], 2).unwrap();
    assert_eq!(d.info.labels, vec![1, 2, 3, 4]);
    assert_eq!(d.set_labels_multi(&[1, 2, 3], 2).unwrap_err(), Error::DataShape { expected: 4, got: 3 });
    assert_eq!(d.info.labels, vec![1, 2, 3, 4]);
}

#[test]
fn libsvm_parses_labels_and_infers_columns() {
    let d = from_libsvm("1 0:1 3:2.5\n0 1:7\n").unwrap();
    assert_eq!(d.num_row(), 2);
    assert_eq!(d.num_col(), 4);
    assert_eq!(floats(&d.info().labels), vec![1.0, 0.0]);
    assert_eq!(row(&d, 1), (vec![1u32], vec![7.0f32]));
}

#[test]
fn shape_mismatch_is_an_error() {
    assert!(dense(&[1.0, 2.0], 2, 2).is_err());
}

#[test]
fn a_marked_value_is_missing_too() {
    let d = DMatrix::from_dense(&bits(&[-1.0, 2.0, 3.0, -1.0]), 2, 2, (-1.0f32).to_bits()).unwrap();
    assert_eq!(d.num_nonzero(), 2);
    assert_eq!(row(&d, 0), (vec![1u32], vec![2.0f32]));
}

#[test]
fn blank_lines_are_passed_over_but_counted() {
    let d = from_libsvm("\n1 0:1\r\n   \n0 2:4\n").unwrap();
    assert_eq!(d.num_row(), 2);
    assert_eq!(d.num_col(), 3);
    let token = |text: &str| match from_libsvm(text) {
        Err(Error::LibsvmParse { line, token }) => (line, token),
        other => panic!("{other:?}"),
    };
    assert_eq!(token("\n\n1 0:1 oops\n"), (3, "oops".to_owned()));
}

#[test]
fn the_first_stray_token_is_reported() {
    let token = |text: &str| match from_libsvm(text) {
        Err(Error::LibsvmParse { line, token }) => (line, token),
        other => panic!("{other:?}"),
    };
    assert_eq!(token("x 0:1\n"), (1, "x".to_owned()));
    assert_eq!(token("1 0:1\n2 a:1\n"), (2, "a:1".to_owned()));
    assert_eq!(token("1 0:z 5\n"), (1, "0:z".to_owned()));
    assert_eq!(token("1 0:1 5\nq\n"), (1, "5".to_owned()));
    assert_eq!(token("1 -3:1\n"), (1, "-3:1".to_owned()));
    assert_eq!(token("1 0:1:2\n"), (1, "0:1:2".to_owned()));
}

#[test]
fn a_column_past_the_last_is_an_error() {
    let index = [0u32, 5];
    let value = bits(&[1.0, 2.0]);
    let nan = f32::NAN.to_bits();
    assert_eq!(
        DMatrix::from_csr(&[0, 2], &index, &value, 3, nan),
        Err(Error::FeatureIndex { index: 5, num_col: 3 })
    );
    // A missing value's column is not looked at.
    let value = vec![1.0f32.to_bits(), nan];
    assert_eq!(DMatrix::from_csr(&[0, 2], &index, &value, 3, nan).unwrap().num_nonzero(), 1);
    assert_eq!(DMatrix::from_csr(&[], &[], &[], 3, nan), Err(Error::DataShape { expected: 1, got: 0 }));
    assert_eq!(
        DMatrix::from_csr(&[0, 2], &index, &[], 3, nan),
        Err(Error::DataShape { expected: 2, got: 0 })
    );
}

#[test]
fn labels_need_one_per_row() {
    let mut d = dense(&[1.0, 2.0], 2, 1).unwrap();
    assert_eq!(d.set_labels(&bits(&[1.0])), Err(Error::DataShape { expected: 2, got: 1 }));
    assert_eq!(d.set_labels(&bits(&[1.0, 0.5])), Ok(()));
    assert_eq!(floats(&d.info().labels), vec![1.0, 0.5]);
    assert_eq!(d.info().weight(1), 1.0f32.to_bits());
    assert_eq!(d.set_weights(&bits(&[2.0, 3.0])), Ok(()));
    assert_eq!(d.info().weight(1), 3.0f32.to_bits());
    assert_eq!(d.set_base_margin(&bits(&[2.0])), Err(Error::DataShape { expected: 2, got: 1 }));
}

#[test]
fn a_feature_is_looked_up_by_its_column() {
    let d = dense(&[1.0, f32::NAN, 3.0, f32::NAN, 5.0, 6.0], 2, 3).unwrap();
    assert_eq!(feature_value(&d, 0, 0), Some(1.0f32.to_bits()));
    assert_eq!(feature_value(&d, 0, 1), None);
    assert_eq!(feature_value(&d, 0, 2), Some(3.0f32.to_bits()));
    assert_eq!(feature_value(&d, 1, 0), None);
    assert_eq!(feature_value(&d, 1, 2), Some(6.0f32.to_bits()));
    // In any order, and the last of several.
    let d = DMatrix::from_csr(&[0, 4], &[3, 0, 2, 0], &bits(&[1.0, 2.0, 3.0, 4.0]), 4, f32::NAN.to_bits()).unwrap();
    let values: Vec<Option<u32>> = (0..4).map(|f| feature_value(&d, 0, f)).collect();
    assert_eq!(values, vec![Some(4.0f32.to_bits()), None, Some(3.0f32.to_bits()), Some(1.0f32.to_bits())]);
}
