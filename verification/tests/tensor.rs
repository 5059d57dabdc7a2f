use selfnn::tensor::Tensor;

fn t(data: Vec<f32>, shape: (usize, usize)) -> Tensor<f32> {
    Tensor::new(data, shape)
}

#[test]
fn test_zeros_and_ones() {
    let z = Tensor::full((2, 3), 0.0f32);
    assert_eq!(z.shape(), (2, 3));
    assert_eq!(z.data.len(), 6);
    assert!(z.data.iter().all(|&x| x == 0.0));

    let o = Tensor::full((3, 2), 1.0f32);
    assert_eq!(o.shape(), (3, 2));
    assert_eq!(o.data.len(), 6);
    assert!(o.data.iter().all(|&x| x == 1.0));
}

#[test]
fn test_get_and_set_indexing() {
    let mut t = Tensor::full((3, 4), 0.0f32);
    // Test index (0, 1) -> flat index 1
    t.set(0, 1, 42.0);
    assert_eq!(t.get(0, 1), 42.0);
    assert_eq!(t.data[1], 42.0);

    // Test index (2, 3) -> flat index 2 * 4 + 3 = 11
    t.set(2, 3, 99.0);
    assert_eq!(t.get(2, 3), 99.0);
    assert_eq!(t.data[11], 99.0);

    // Ensure length did not change
    assert_eq!(t.data.len(), 12);
}

#[test]
fn test_elementwise_arithmetic() {
    let a = t(vec![1.0, 2.0, 3.0, 4.0], (2, 2));
    let b = t(vec![10.0, 20.0, 30.0, 40.0], (2, 2));

    let sum = a.zip_with(&b, |x, y| x + y);
    assert_eq!(sum.data, vec![11.0, 22.0, 33.0, 44.0]);

    let diff = b.zip_with(&a, |x, y| x - y);
    assert_eq!(diff.data, vec![9.0, 18.0, 27.0, 36.0]);

    let prod = a.zip_with(&b, |x, y| x * y);
    assert_eq!(prod.data, vec![10.0, 40.0, 90.0, 160.0]);

    let scaled = a.map(|x| x * 2.5);
    assert_eq!(scaled.data, vec![2.5, 5.0, 7.5, 10.0]);
}

#[test]
fn test_add_bias_broadcasting() {
    // (3 rows, 2 cols)
    let x = t(vec![1.0, 2.0, 3.0, 4.0, 5.0, 6.0], (3, 2));
    // (1 row, 2 cols)
    let b = t(vec![10.0, 20.0], (1, 2));

    let y = x.add_bias_with(&b, |v, w| v + w);
    assert_eq!(y.shape(), (3, 2));
    assert_eq!(y.data, vec![11.0, 22.0, 13.0, 24.0, 15.0, 26.0]);
}

#[test]
fn test_transpose() {
    let a = t(vec![1.0, 2.0, 3.0, 4.0, 5.0, 6.0], (2, 3));
    let at = a.transpose();

    assert_eq!(at.shape(), (3, 2));
    assert_eq!(at.data, vec![1.0, 4.0, 2.0, 5.0, 3.0, 6.0]);
}

#[test]
fn test_matmul() {
    let a = t(vec![1.0, 2.0, 3.0, 4.0, 5.0, 6.0], (2, 3));
    let b = t(vec![7.0, 8.0, 9.0, 1.0, 2.0, 3.0], (3, 2));

    // Row 0 x Col 0 = 1*7 + 2*9 + 3*2 = 31, Row 0 x Col 1 = 19,
    // Row 1 x Col 0 = 85, Row 1 x Col 1 = 55
    let c = a.matmul_with(&b, 0.0, |acc, x, y| acc + x * y);
    assert_eq!(c.shape(), (2, 2));
    assert_eq!(c.data, vec![31.0, 19.0, 85.0, 55.0]);
}

#[test]
fn test_sum_axis0() {
    let t = t(vec![1.0, 2.0, 3.0, 4.0, 5.0, 6.0], (3, 2));
    let s = t.sum_axis0_with(0.0, |a, b| a + b);
    assert_eq!(s.shape(), (1, 2));
    assert_eq!(s.data, vec![9.0, 12.0]);
}

#[test]
fn transpose_twice_gives_back_the_tensor() {
    let a = t(vec![1.0, 2.0, 3.0, 4.0, 5.0, 6.0], (2, 3));
    let back = a.transpose().transpose();
    assert_eq!(back, a);
}

#[test]
fn transpose_of_empty_and_single_row() {
    let e: Tensor<f32> = Tensor::new(vec![], (0, 4));
    let et = e.transpose();
    assert_eq!(et.shape(), (4, 0));
    assert!(et.data.is_empty());

    let r = t(vec![1.0, 2.0, 3.0], (1, 3));
    let rt = r.transpose();
    assert_eq!(rt.shape(), (3, 1));
    assert_eq!(rt.data, vec![1.0, 2.0, 3.0]);
}

#[test]
fn get_after_set_leaves_other_cells() {
    let mut a = t(vec![1.0, 2.0, 3.0, 4.0], (2, 2));
    a.set(1, 0, -5.0);
    assert_eq!(a.get(1, 0), -5.0);
    assert_eq!(a.data, vec![1.0, 2.0, -5.0, 4.0]);
}

#[test]
fn get_rows_in_any_order_with_repeats() {
    let a = t(vec![0.0, 1.0, 10.0, 11.0, 20.0, 21.0], (3, 2));
    let picked = a.get_rows(&vec![2, 0, 2]);
    assert_eq!(picked.shape(), (3, 2));
    assert_eq!(picked.data, vec![20.0, 21.0, 0.0, 1.0, 20.0, 21.0]);
    let none = a.get_rows(&vec![]);
    assert_eq!(none.shape(), (0, 2));
}

#[test]
fn slice_rows_matches_get_rows_of_the_range() {
    let a = t(vec![0.0, 1.0, 10.0, 11.0, 20.0, 21.0, 30.0, 31.0], (4, 2));
    let s = a.slice_rows(1, 3);
    assert_eq!(s.shape(), (2, 2));
    assert_eq!(s.data, vec![10.0, 11.0, 20.0, 21.0]);
    assert_eq!(s, a.get_rows(&vec![1, 2]));
    assert_eq!(a.slice_rows(0, 4), a);
    assert_eq!(a.slice_rows(2, 2).shape(), (0, 2));
}

#[test]
fn map_can_change_the_element_type() {
    let bytes: Tensor<u8> = Tensor::new(vec![0, 51, 255], (1, 3));
    let scaled = bytes.map(|b| f32::from(b) / 255.0);
    assert_eq!(scaled.shape(), (1, 3));
    assert_eq!(scaled.data, vec![0.0, 0.2, 1.0]);
}

#[test]
fn matmul_with_integers_and_an_empty_inner_dimension() {
    let a: Tensor<i64> = Tensor::new(vec![1, 2, 3, 4], (2, 2));
    let id: Tensor<i64> = Tensor::new(vec![1, 0, 0, 1], (2, 2));
    assert_eq!(a.matmul_with(&id, 0, |acc, x, y| acc + x * y), a);

    let left: Tensor<i64> = Tensor::new(vec![], (2, 0));
    let right: Tensor<i64> = Tensor::new(vec![], (0, 3));
    let z = left.matmul_with(&right, 7, |acc, x, y| acc + x * y);
    assert_eq!(z.shape(), (2, 3));
    assert_eq!(z.data, vec![7; 6]);
}

#[test]
fn sum_axis0_folds_from_the_first_row() {
    // A fold that is not commutative shows the order: 10*acc + x.
    let a: Tensor<i64> = Tensor::new(vec![1, 2, 3, 4, 5, 6], (3, 2));
    let s = a.sum_axis0_with(0, |acc, x| acc * 10 + x);
    assert_eq!(s.data, vec![135, 246]);
}

#[test]
fn clone_copies_every_cell() {
    let a = t(vec![1.0, 2.0], (2, 1));
    let b = a.clone();
    assert_eq!(a, b);
}
