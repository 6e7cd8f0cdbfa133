use daimond_rust::conv::conv2d_forward;
use daimond_rust::error::KernelError;
use daimond_rust::matmul::fast_matmul_flat;
use daimond_rust::pool::maxpool2d_forward;

fn mul_add(acc: f64, x: f64, y: f64) -> f64 {
    acc + x * y
}

fn larger(acc: f64, x: f64) -> f64 {
    acc.max(x)
}

fn ramp(len: usize) -> Vec<f64> {
    let mut v = Vec::new();
    for i in 0..len {
        v.push((i as f64) * 0.5 - 3.0);
    }
    v
}

#[test]
fn matmul_two_by_two() {
    let c = fast_matmul_flat(
        vec![1.0, 2.0, 3.0, 4.0],
        vec![5.0, 6.0, 7.0, 8.0],
        2,
        2,
        2,
        0.0,
        mul_add,
    );
    assert_eq!(c, Ok(vec![19.0, 22.0, 43.0, 50.0]));
}

#[test]
fn matmul_matches_dot_products() {
    let (m, k, n) = (3usize, 4usize, 2usize);
    let a = ramp(m * k);
    let b: Vec<f64> = ramp(k * n).iter().map(|x| x * 1.25 + 0.1).collect();
    let c = fast_matmul_flat(a.clone(), b.clone(), m, k, n, 0.0, mul_add).unwrap();
    assert_eq!(c.len(), m * n);
    for i in 0..m {
        for j in 0..n {
            let mut sum = 0.0;
            for t in 0..k {
                sum += a[i * k + t] * b[t * n + j];
            }
            assert_eq!(c[i * n + j].to_bits(), sum.to_bits());
        }
    }
}

#[test]
fn matmul_rectangular_exact_values() {
    // [1 2 3] * [[1 0] [0 1] [2 2]] = [7 8]
    let c = fast_matmul_flat(
        vec![1.0, 2.0, 3.0],
        vec![1.0, 0.0, 0.0, 1.0, 2.0, 2.0],
        1,
        3,
        2,
        0.0,
        mul_add,
    );
    assert_eq!(c, Ok(vec![7.0, 8.0]));
}

#[test]
fn matmul_identity_returns_right_factor() {
    let b = vec![2.5, -1.0, 4.0, 0.5, 7.0, 9.0, -3.0, 8.0, 1.0];
    let a = vec![1.0, 0.0, 0.0, 0.0, 1.0, 0.0, 0.0, 0.0, 1.0];
    let c = fast_matmul_flat(a, b.clone(), 3, 3, 3, 0.0, mul_add);
    assert_eq!(c, Ok(b));
}

#[test]
fn matmul_wrong_left_length_is_shape_mismatch() {
    let c = fast_matmul_flat(vec![1.0, 2.0, 3.0], vec![5.0, 6.0, 7.0, 8.0], 2, 2, 2, 0.0, mul_add);
    assert_eq!(c, Err(KernelError::ShapeMismatch));
}

#[test]
fn matmul_wrong_right_length_is_shape_mismatch() {
    let c = fast_matmul_flat(vec![1.0, 2.0, 3.0, 4.0], vec![5.0, 6.0, 7.0], 2, 2, 2, 0.0, mul_add);
    assert_eq!(c, Err(KernelError::ShapeMismatch));
}

#[test]
fn matmul_overflowing_extent_is_shape_mismatch() {
    let c = fast_matmul_flat(vec![1.0], vec![1.0], usize::MAX, 2, 1, 0.0, mul_add);
    assert_eq!(c, Err(KernelError::ShapeMismatch));
}

#[test]
fn matmul_unaddressable_result_is_out_of_bounds() {
    let c = fast_matmul_flat(Vec::<f64>::new(), Vec::new(), usize::MAX, 0, 2, 0.0, mul_add);
    assert_eq!(c, Err(KernelError::IndexOutOfBounds));
}

#[test]
fn matmul_empty_inner_extent_gives_zeros() {
    let c = fast_matmul_flat(Vec::<f64>::new(), Vec::new(), 2, 0, 3, 0.0, mul_add);
    assert_eq!(c, Ok(vec![0.0; 6]));
}

#[test]
fn matmul_sums_in_ascending_order() {
    // An order-sensitive step: acc * 10 + x * y spells the products as digits.
    let step = |acc: u64, x: u64, y: u64| acc * 10 + x * y;
    let c = fast_matmul_flat(vec![1, 2, 3], vec![1, 2, 3], 1, 3, 1, 0u64, step);
    assert_eq!(c, Ok(vec![149]));
}

#[test]
fn conv_unit_kernel_reproduces_input() {
    let input = ramp(2 * 3 * 4);
    let out = conv2d_forward(input.clone(), vec![1.0], vec![0.0], 2, 1, 1, 3, 4, 1, mul_add);
    assert_eq!(out, Ok(input));
}

#[test]
fn conv_four_by_four_kernel_three_gives_two_by_two() {
    let input: Vec<f64> = (1..=16).map(|x| x as f64).collect();
    let out = conv2d_forward(input, vec![1.0; 9], vec![0.5], 1, 1, 1, 4, 4, 3, mul_add).unwrap();
    // Window sums of the 4x4 ramp, plus the bias.
    assert_eq!(out, vec![54.5, 63.5, 90.5, 99.5]);
}

#[test]
fn conv_matches_formula_on_batches_and_channels() {
    let (batch, in_c, out_c, h, w, k) = (2usize, 3usize, 2usize, 5usize, 4usize, 2usize);
    let input = ramp(batch * in_c * h * w);
    let weight: Vec<f64> = ramp(out_c * in_c * k * k).iter().map(|x| x * 0.75 - 0.2).collect();
    let bias = vec![0.25, -1.5];
    let out = conv2d_forward(
        input.clone(),
        weight.clone(),
        bias.clone(),
        batch,
        in_c,
        out_c,
        h,
        w,
        k,
        mul_add,
    )
    .unwrap();
    let (h_out, w_out) = (h - k + 1, w - k + 1);
    assert_eq!(out.len(), batch * out_c * h_out * w_out);
    for b in 0..batch {
        for oc in 0..out_c {
            for i in 0..h_out {
                for j in 0..w_out {
                    let mut sum = bias[oc];
                    for ic in 0..in_c {
                        for ki in 0..k {
                            for kj in 0..k {
                                let in_idx = ((b * in_c + ic) * h + i + ki) * w + j + kj;
                                let w_idx = ((oc * in_c + ic) * k + ki) * k + kj;
                                sum += input[in_idx] * weight[w_idx];
                            }
                        }
                    }
                    let out_idx = ((b * out_c + oc) * h_out + i) * w_out + j;
                    assert_eq!(out[out_idx].to_bits(), sum.to_bits());
                }
            }
        }
    }
}

#[test]
fn conv_accumulates_channel_then_row_then_column() {
    let step = |acc: u64, x: u64, y: u64| acc * 10 + x * y;
    // One output entry; inputs 1..8 over two channels of 2x2, weights all one.
    let out = conv2d_forward(
        vec![1, 2, 3, 4, 5, 6, 7, 8],
        vec![1; 8],
        vec![9],
        1,
        2,
        1,
        2,
        2,
        2,
        step,
    );
    assert_eq!(out, Ok(vec![912345678u64]));
}

#[test]
fn conv_kernel_larger_than_plane_is_out_of_bounds() {
    let out = conv2d_forward(vec![0.0; 16], vec![0.0; 25], vec![0.0], 1, 1, 1, 4, 4, 5, mul_add);
    assert_eq!(out, Err(KernelError::IndexOutOfBounds));
    let out = conv2d_forward(vec![0.0; 8], vec![0.0; 9], vec![0.0], 1, 1, 1, 4, 2, 3, mul_add);
    assert_eq!(out, Err(KernelError::IndexOutOfBounds));
}

#[test]
fn conv_wrong_lengths_are_shape_mismatch() {
    let out = conv2d_forward(vec![0.0; 15], vec![0.0; 9], vec![0.0], 1, 1, 1, 4, 4, 3, mul_add);
    assert_eq!(out, Err(KernelError::ShapeMismatch));
    let out = conv2d_forward(vec![0.0; 16], vec![0.0; 8], vec![0.0], 1, 1, 1, 4, 4, 3, mul_add);
    assert_eq!(out, Err(KernelError::ShapeMismatch));
    let out = conv2d_forward(vec![0.0; 16], vec![0.0; 9], vec![0.0; 2], 1, 1, 1, 4, 4, 3, mul_add);
    assert_eq!(out, Err(KernelError::ShapeMismatch));
}

#[test]
fn conv_empty_kernel_copies_bias() {
    let out = conv2d_forward(vec![0.0; 4], Vec::new(), vec![1.5, 2.5], 1, 1, 2, 2, 2, 0, mul_add);
    assert_eq!(
        out,
        Ok(vec![
            1.5, 1.5, 1.5, 1.5, 1.5, 1.5, 1.5, 1.5, 1.5, 2.5, 2.5, 2.5, 2.5, 2.5, 2.5, 2.5, 2.5, 2.5
        ])
    );
}

#[test]
fn pool_four_by_four_window_two() {
    let input: Vec<f64> = (1..=16).map(|x| x as f64).collect();
    let out = maxpool2d_forward(input, 1, 1, 4, 4, 2, f64::MIN, larger);
    assert_eq!(out, Ok(vec![6.0, 8.0, 14.0, 16.0]));
}

#[test]
fn pool_constant_input_gives_constant() {
    let out = maxpool2d_forward(vec![-2.75; 2 * 3 * 6 * 4], 2, 3, 6, 4, 2, f64::MIN, larger).unwrap();
    assert_eq!(out, vec![-2.75; 2 * 3 * 3 * 2]);
}

#[test]
fn pool_drops_trailing_rows_and_columns() {
    let input: Vec<f64> = (0..25).map(|x| x as f64).collect();
    let out = maxpool2d_forward(input, 1, 1, 5, 5, 2, f64::MIN, larger);
    assert_eq!(out, Ok(vec![6.0, 8.0, 16.0, 18.0]));
}

#[test]
fn pool_window_larger_than_plane_gives_empty_output() {
    let out = maxpool2d_forward(vec![1.0; 9], 1, 1, 3, 3, 4, f64::MIN, larger);
    assert_eq!(out, Ok(Vec::new()));
}

#[test]
fn pool_empty_window_is_out_of_bounds() {
    let out = maxpool2d_forward(vec![1.0; 9], 1, 1, 3, 3, 0, f64::MIN, larger);
    assert_eq!(out, Err(KernelError::IndexOutOfBounds));
}

#[test]
fn pool_wrong_length_is_shape_mismatch() {
    let out = maxpool2d_forward(vec![1.0; 15], 1, 1, 4, 4, 2, f64::MIN, larger);
    assert_eq!(out, Err(KernelError::ShapeMismatch));
}

#[test]
fn pool_matches_formula_on_batches_and_channels() {
    let (batch, channels, h, w, k) = (2usize, 2usize, 7usize, 6usize, 3usize);
    let input: Vec<f64> = ramp(batch * channels * h * w).iter().map(|x| (x * 1.7).sin()).collect();
    let out = maxpool2d_forward(input.clone(), batch, channels, h, w, k, f64::MIN, larger).unwrap();
    let (h_out, w_out) = (h / k, w / k);
    assert_eq!(out.len(), batch * channels * h_out * w_out);
    for b in 0..batch {
        for c in 0..channels {
            for i in 0..h_out {
                for j in 0..w_out {
                    let mut max_val = f64::MIN;
                    for ki in 0..k {
                        for kj in 0..k {
                            let in_idx = ((b * channels + c) * h + i * k + ki) * w + j * k + kj;
                            max_val = max_val.max(input[in_idx]);
                        }
                    }
                    assert_eq!(out[((b * channels + c) * h_out + i) * w_out + j], max_val);
                }
            }
        }
    }
}

#[test]
fn pool_reads_window_row_by_row() {
    let step = |acc: u64, x: u64| acc * 10 + x;
    let out = maxpool2d_forward(vec![1, 2, 3, 4, 5, 6, 7, 8, 9], 1, 1, 3, 3, 2, 0u64, step);
    assert_eq!(out, Ok(vec![1245]));
}

#[test]
fn repeated_calls_give_identical_bits() {
    let a = ramp(12);
    let b = ramp(8);
    let first = fast_matmul_flat(a.clone(), b.clone(), 3, 4, 2, 0.0, mul_add).unwrap();
    let second = fast_matmul_flat(a, b, 3, 4, 2, 0.0, mul_add).unwrap();
    let bits = |v: &Vec<f64>| v.iter().map(|x| x.to_bits()).collect::<Vec<u64>>();
    assert_eq!(bits(&first), bits(&second));

    let input = ramp(32);
    let first = maxpool2d_forward(input.clone(), 2, 1, 4, 4, 2, f64::MIN, larger).unwrap();
    let second = maxpool2d_forward(input.clone(), 2, 1, 4, 4, 2, f64::MIN, larger).unwrap();
    assert_eq!(bits(&first), bits(&second));

    let weight = ramp(9);
    let first =
        conv2d_forward(input.clone(), weight.clone(), vec![0.5], 2, 1, 1, 4, 4, 3, mul_add).unwrap();
    let second = conv2d_forward(input, weight, vec![0.5], 2, 1, 1, 4, 4, 3, mul_add).unwrap();
    assert_eq!(bits(&first), bits(&second));
}
