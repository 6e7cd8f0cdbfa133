use daimond_rust::conv::ConvShape;
use daimond_rust::error::KernelError;
use daimond_rust::layout::{checked_volume4, split2, split4};
use daimond_rust::matmul::MatMulShape;
use daimond_rust::pool::PoolShape;

#[test]
fn checked_volume_multiplies_or_reports_overflow() {
    assert_eq!(checked_volume4(2, 3, 4, 5), Some(120));
    assert_eq!(checked_volume4(usize::MAX, 2, 1, 1), None);
    assert_eq!(checked_volume4(usize::MAX, usize::MAX, 0, 7), Some(0));
    assert_eq!(checked_volume4(1, 1, 1, usize::MAX), Some(usize::MAX));
}

#[test]
fn split_recovers_indices() {
    assert_eq!(split2(4, 11), (2, 3));
    // ((1 * 3 + 2) * 4 + 3) * 5 + 4 = 119
    assert_eq!(split4(3, 4, 5, 119), (1, 2, 3, 4));
}

#[test]
fn error_messages_differ() {
    assert_ne!(KernelError::ShapeMismatch.message(), KernelError::IndexOutOfBounds.message());
    assert!(!KernelError::ShapeMismatch.message().is_empty());
}

#[test]
fn matmul_shape_terms_and_cells() {
    let s = MatMulShape::new(6, 12, 2, 3, 4).unwrap();
    assert_eq!(s, MatMulShape { m: 2, k: 3, n: 4 });
    assert_eq!(s.output_len(), 8);
    assert_eq!(s.cell(6), (1, 2));
    assert_eq!(s.terms(1, 2), vec![(3, 2), (4, 6), (5, 10)]);
}

#[test]
fn matmul_shape_refusals() {
    assert_eq!(MatMulShape::new(5, 12, 2, 3, 4), Err(KernelError::ShapeMismatch));
    assert_eq!(MatMulShape::new(6, 11, 2, 3, 4), Err(KernelError::ShapeMismatch));
    assert_eq!(MatMulShape::new(0, 0, usize::MAX, 0, 2), Err(KernelError::IndexOutOfBounds));
}

#[test]
fn conv_shape_output_extents() {
    let s = ConvShape::new(16, 9, 1, 1, 1, 1, 4, 4, 3).unwrap();
    assert_eq!(s.output_dims(), (1, 1, 2, 2));
    assert_eq!(s.output_len(), 4);
    let s = ConvShape::new(2 * 3 * 5 * 6, 4 * 3 * 2 * 2, 4, 2, 3, 4, 5, 6, 2).unwrap();
    assert_eq!(s.output_dims(), (2, 4, 4, 5));
    assert_eq!(s.output_len(), 160);
}

#[test]
fn conv_shape_taps_in_accumulation_order() {
    let s = ConvShape::new(2 * 2 * 3 * 3, 2 * 2 * 2 * 2, 2, 2, 2, 2, 3, 3, 2).unwrap();
    // Output entry [1][1][1][0]: input block starts at batch 1, weight block at filter 1.
    assert_eq!(
        s.taps(1, 1, 1, 0),
        vec![
            (21, 8),
            (22, 9),
            (24, 10),
            (25, 11),
            (30, 12),
            (31, 13),
            (33, 14),
            (34, 15)
        ]
    );
    assert_eq!(s.cell(14), (1, 1, 1, 0));
}

#[test]
fn conv_shape_refusals() {
    assert_eq!(ConvShape::new(16, 25, 1, 1, 1, 1, 4, 4, 5), Err(KernelError::IndexOutOfBounds));
    assert_eq!(ConvShape::new(15, 9, 1, 1, 1, 1, 4, 4, 3), Err(KernelError::ShapeMismatch));
    // A kernel larger than the plane is reported even when a length is wrong too.
    assert_eq!(ConvShape::new(1, 1, 1, 1, 1, 1, 2, 4, 3), Err(KernelError::IndexOutOfBounds));
    // Every length matches, but the output cannot be addressed.
    assert_eq!(
        ConvShape::new(0, 0, 2, usize::MAX, 0, 2, 1, 1, 1),
        Err(KernelError::IndexOutOfBounds)
    );
    // No kernel at all on a plane of the largest height: one more row than fits.
    assert_eq!(
        ConvShape::new(0, 0, 1, 0, 1, 1, usize::MAX, 1, 0),
        Err(KernelError::IndexOutOfBounds)
    );
}

#[test]
fn pool_shape_windows_and_cells() {
    let s = PoolShape::new(2 * 5 * 5, 1, 2, 5, 5, 2).unwrap();
    assert_eq!(s.output_dims(), (1, 2, 2, 2));
    assert_eq!(s.output_len(), 8);
    assert_eq!(s.cell(7), (0, 1, 1, 1));
    assert_eq!(s.window(0, 1, 1, 1), vec![37, 38, 42, 43]);
    assert_eq!(s.window(0, 0, 0, 0), vec![0, 1, 5, 6]);
}

#[test]
fn pool_shape_refusals_and_empty_output() {
    assert_eq!(PoolShape::new(9, 1, 1, 3, 3, 0), Err(KernelError::IndexOutOfBounds));
    assert_eq!(PoolShape::new(8, 1, 1, 3, 3, 2), Err(KernelError::ShapeMismatch));
    let s = PoolShape::new(9, 1, 1, 3, 3, 4).unwrap();
    assert_eq!(s.output_dims(), (1, 1, 0, 0));
    assert_eq!(s.output_len(), 0);
}
