use selfnn::mnist::{
    count_matching, one_hot, parse_idx_images, parse_idx_labels, IdxError, IMAGE_PIXELS,
};
use selfnn::tensor::Tensor;

fn be(v: u32) -> [u8; 4] {
    v.to_be_bytes()
}

fn image_file(count: u32, rows: u32, cols: u32, payload: usize) -> Vec<u8> {
    let mut bytes = Vec::new();
    bytes.extend_from_slice(&be(2051));
    bytes.extend_from_slice(&be(count));
    bytes.extend_from_slice(&be(rows));
    bytes.extend_from_slice(&be(cols));
    for i in 0..payload {
        bytes.push((i % 256) as u8);
    }
    bytes
}

fn label_file(labels: &[u8], announced: u32) -> Vec<u8> {
    let mut bytes = Vec::new();
    bytes.extend_from_slice(&be(2049));
    bytes.extend_from_slice(&be(announced));
    bytes.extend_from_slice(labels);
    bytes
}

#[test]
fn parses_an_image_file() {
    let bytes = image_file(2, 28, 28, 2 * 784);
    let t = parse_idx_images(&bytes).unwrap();
    assert_eq!(t.shape(), (2, IMAGE_PIXELS));
    assert_eq!(t.data.len(), 2 * 784);
    assert_eq!(t.get(0, 0), 0);
    assert_eq!(t.get(0, 255), 255);
    assert_eq!(t.get(1, 0), (784 % 256) as u8);
}

#[test]
fn image_file_errors() {
    assert_eq!(parse_idx_images(&[0, 0, 8]), Err(IdxError::Truncated));
    let mut wrong = image_file(1, 28, 28, 784);
    wrong[3] = 0x04;
    assert_eq!(parse_idx_images(&wrong), Err(IdxError::WrongMagic));
    assert_eq!(parse_idx_images(&image_file(1, 28, 28, 784)[..12]), Err(IdxError::Truncated));
    assert_eq!(parse_idx_images(&image_file(1, 28, 27, 756)), Err(IdxError::WrongImageSize));
    assert_eq!(parse_idx_images(&image_file(2, 28, 28, 784)), Err(IdxError::LengthMismatch));
    assert_eq!(parse_idx_images(&image_file(0, 28, 28, 1)), Err(IdxError::LengthMismatch));
    assert_eq!(
        parse_idx_images(&image_file(u32::MAX, 28, 28, 784)),
        Err(IdxError::LengthMismatch)
    );
}

#[test]
fn empty_image_file_is_accepted() {
    let t = parse_idx_images(&image_file(0, 28, 28, 0)).unwrap();
    assert_eq!(t.shape(), (0, 784));
}

#[test]
fn parses_a_label_file() {
    let labels = parse_idx_labels(&label_file(&[5, 0, 9], 3)).unwrap();
    assert_eq!(labels, vec![5, 0, 9]);
    // bytes after the announced labels are ignored
    let labels = parse_idx_labels(&label_file(&[1, 2, 77], 2)).unwrap();
    assert_eq!(labels, vec![1, 2]);
}

#[test]
fn label_file_errors() {
    assert_eq!(parse_idx_labels(&[]), Err(IdxError::Truncated));
    assert_eq!(parse_idx_labels(&image_file(0, 28, 28, 0)), Err(IdxError::WrongMagic));
    assert_eq!(parse_idx_labels(&label_file(&[], 0)[..6]), Err(IdxError::Truncated));
    assert_eq!(parse_idx_labels(&label_file(&[1, 2], 3)), Err(IdxError::Truncated));
    // label 10 in the last row would mark a cell past the end
    assert_eq!(parse_idx_labels(&label_file(&[1, 2, 10], 3)), Err(IdxError::LabelOutOfRange));
    assert_eq!(parse_idx_labels(&label_file(&[30, 0, 0], 3)), Err(IdxError::LabelOutOfRange));
}

#[test]
fn a_large_label_marks_a_cell_of_a_later_row() {
    // label 10 in row 1 marks flat position 20: row 2, column 0
    let labels = parse_idx_labels(&label_file(&[1, 10, 2], 3)).unwrap();
    assert_eq!(labels, vec![1, 10, 2]);
    let t = one_hot(&labels, 10, 0.0f32, 1.0f32);
    assert_eq!(t.shape(), (3, 10));
    let ones: Vec<usize> = (0..30).filter(|&p| t.data[p] == 1.0).collect();
    assert_eq!(ones, vec![1, 20, 22]);
    assert_eq!(parse_idx_labels(&label_file(&[29], 3)).unwrap_err(), IdxError::Truncated);
    assert_eq!(parse_idx_labels(&label_file(&[24, 0, 0], 3)).unwrap(), vec![24, 0, 0]);
}

#[test]
fn one_hot_rows_have_a_single_one() {
    let t = one_hot(&vec![2, 0, 1], 3, 0.0f32, 1.0f32);
    assert_eq!(t.shape(), (3, 3));
    assert_eq!(t.data, vec![0.0, 0.0, 1.0, 1.0, 0.0, 0.0, 0.0, 1.0, 0.0]);
    for r in 0..3 {
        let sum: f32 = (0..3).map(|c| t.get(r, c)).sum();
        assert!((sum - 1.0).abs() < 1e-5);
    }
}

#[test]
fn test_accuracy_metric() {
    let pred = Tensor::new(
        vec![
            0.9, 0.1, 0.0, // predicts class 0
            0.1, 0.2, 0.7, // predicts class 2
            0.8, 0.1, 0.1, // predicts class 0
        ],
        (3, 3),
    );
    let target = Tensor::new(
        vec![
            1.0, 0.0, 0.0, // class 0 -> MATCH
            0.0, 0.0, 1.0, // class 2 -> MATCH
            0.0, 1.0, 0.0, // class 1 -> MISMATCH
        ],
        (3, 3),
    );

    let greater = |x: f32, best: f32| x > best;
    let p = pred.argmax_rows_with(f32::NEG_INFINITY, greater);
    let t = target.argmax_rows_with(f32::NEG_INFINITY, greater);
    assert_eq!(p, vec![0, 2, 0]);
    assert_eq!(t, vec![0, 2, 1]);
    let correct = count_matching(&p, &t);
    assert_eq!(correct, 2);
    let acc = (correct as f32 / 3.0) * 100.0;
    assert!((acc - 66.66667).abs() < 1e-3);
}

#[test]
fn argmax_takes_the_first_of_equal_maxima() {
    let t = Tensor::new(vec![3, 7, 7, 1, 5, 5, 5, 0], (2, 4));
    assert_eq!(t.argmax_rows_with(i32::MIN, |x, best| x > best), vec![1, 0]);
    let empty: Tensor<i32> = Tensor::new(vec![], (2, 0));
    assert_eq!(empty.argmax_rows_with(i32::MIN, |x, best| x > best), vec![0, 0]);
}

#[test]
fn count_matching_counts_equal_positions() {
    assert_eq!(count_matching(&vec![], &vec![]), 0);
    assert_eq!(count_matching(&vec![1, 2, 3, 4], &vec![1, 0, 3, 0]), 2);
}
