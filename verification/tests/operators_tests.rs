use lm_infer::arith::Arith;
use lm_infer::error::InferError;
use lm_infer::operators::{
    dot, gather, masked_softmax, matmul_transb, rms_norm, rms_norm_row, rope, rope_vector,
    softmax_row, swiglu,
};
use lm_infer::tensor::Tensor;

struct Ieee;

impl Arith<f32> for Ieee {
    fn zero(&self) -> f32 {
        0.0
    }
    fn one(&self) -> f32 {
        1.0
    }
    fn from_count(&self, n: usize) -> f32 {
        n as f32
    }
    fn add(&self, a: f32, b: f32) -> f32 {
        a + b
    }
    fn sub(&self, a: f32, b: f32) -> f32 {
        a - b
    }
    fn mul(&self, a: f32, b: f32) -> f32 {
        a * b
    }
    fn div(&self, a: f32, b: f32) -> f32 {
        a / b
    }
    fn neg(&self, a: f32) -> f32 {
        -a
    }
    fn abs(&self, a: f32) -> f32 {
        a.abs()
    }
    fn max(&self, a: f32, b: f32) -> f32 {
        a.max(b)
    }
    fn min(&self, a: f32, b: f32) -> f32 {
        a.min(b)
    }
    fn exp(&self, a: f32) -> f32 {
        a.exp()
    }
    fn sqrt(&self, a: f32) -> f32 {
        a.sqrt()
    }
    fn powf(&self, a: f32, e: f32) -> f32 {
        a.powf(e)
    }
    fn sin_cos(&self, a: f32) -> (f32, f32) {
        a.sin_cos()
    }
    fn le(&self, a: f32, b: f32) -> bool {
        a <= b
    }
    fn order_key(&self, a: f32) -> i64 {
        let bits = a.to_bits() as i32;
        (bits ^ (((bits >> 31) as u32) >> 1) as i32) as i64
    }
}

fn near(a: f32, b: f32, tol: f32) -> bool {
    (a - b).abs() <= tol
}

#[test]
fn test_silu() {
    let mut y = Tensor::<f32>::new(vec![2., 3., 4.], &vec![1, 3]);
    let x = Tensor::<f32>::new(vec![1., 2., 3.], &vec![1, 3]);
    assert_eq!(swiglu(&Ieee, &mut y, &x), Ok(()));
    assert!(y.close_to(
        &Ieee,
        &Tensor::<f32>::new(vec![1.4621172, 5.2847824, 11.43089], &vec![1, 3]),
        1e-3
    ));
}

#[test]
fn test_rms_norm() {
    let mut y = Tensor::<f32>::new(vec![1., 2., 3., 4.], &vec![2, 2]);
    let x = Tensor::<f32>::new(vec![1., 2., 3., 4.], &vec![2, 2]);
    let w = Tensor::<f32>::new(vec![1., 2.], &vec![2]);
    assert_eq!(rms_norm(&Ieee, &mut y, &x, &w, 1e-6), Ok(()));
    assert!(y.close_to(
        &Ieee,
        &Tensor::<f32>::new(
            vec![0.6324554, 2.5298216, 0.8485281, 2.2627416],
            &vec![2, 2]
        ),
        1e-3
    ));
}

#[test]
fn test_matmul_transb() {
    let mut c = Tensor::<f32>::new(vec![1., 2., 3., 4.], &vec![2, 2]);
    let a = Tensor::<f32>::new(vec![1., 2., 3., 4., 5., 6.], &vec![2, 3]);
    let b = Tensor::<f32>::new(vec![1., 2., 3., 4., 5., 6.], &vec![2, 3]);
    assert_eq!(matmul_transb(&Ieee, &mut c, 1., &a, &b, 1.), Ok(()));
    assert!(c.close_to(
        &Ieee,
        &Tensor::<f32>::new(vec![15., 34., 35., 81.], &vec![2, 2]),
        1e-3
    ));
}

#[test]
fn matmul_transb_is_exact_on_small_integers() {
    let mut c = Tensor::<f32>::new(vec![1., 2., 3., 4.], &vec![2, 2]);
    let a = Tensor::<f32>::new(vec![1., 2., 3., 4., 5., 6.], &vec![2, 3]);
    let b = Tensor::<f32>::new(vec![1., 2., 3., 4., 5., 6.], &vec![2, 3]);
    assert_eq!(matmul_transb(&Ieee, &mut c, 1., &a, &b, 1.), Ok(()));
    assert_eq!(c.data(), &[15., 34., 35., 81.]);
    assert_eq!(c.shape(), &vec![2, 2]);
}

#[test]
fn matmul_transb_scales_by_beta_and_alpha() {
    let mut c = Tensor::<f32>::new(vec![1., 1., 1., 1., 1., 1.], &vec![2, 3]);
    let a = Tensor::<f32>::new(vec![1., 2., 3., 4.], &vec![2, 2]);
    let b = Tensor::<f32>::new(vec![1., 0., 0., 1., 1., 1.], &vec![3, 2]);
    assert_eq!(matmul_transb(&Ieee, &mut c, 2., &a, &b, 0.5), Ok(()));
    assert_eq!(c.data(), &[2.5, 3., 3.5, 3.5, 4., 5.5]);
}

#[test]
fn matmul_transb_refuses_shapes_that_do_not_fit() {
    let a = Tensor::<f32>::new(vec![1., 2., 3., 4., 5., 6.], &vec![2, 3]);
    let b = Tensor::<f32>::new(vec![1., 2., 3., 4.], &vec![2, 2]);
    let mut c = Tensor::<f32>::new(vec![1., 2., 3., 4.], &vec![2, 2]);
    assert_eq!(
        matmul_transb(&Ieee, &mut c, 1., &a, &b, 1.),
        Err(InferError::ShapeMismatch)
    );
    assert_eq!(c.data(), &[1., 2., 3., 4.]);
    let b = Tensor::<f32>::new(vec![1., 2., 3., 4., 5., 6.], &vec![2, 3]);
    let mut c = Tensor::<f32>::new(vec![1., 2., 3., 4.], &vec![4, 1]);
    assert_eq!(
        matmul_transb(&Ieee, &mut c, 1., &a, &b, 1.),
        Err(InferError::ShapeMismatch)
    );
    let mut c = Tensor::<f32>::new(vec![1., 2., 3., 4.], &vec![4]);
    assert_eq!(
        matmul_transb(&Ieee, &mut c, 1., &a, &b, 1.),
        Err(InferError::ShapeMismatch)
    );
}

#[test]
fn swiglu_refuses_other_length() {
    let mut y = Tensor::<f32>::new(vec![2., 3., 4.], &vec![3]);
    let x = Tensor::<f32>::new(vec![1., 2.], &vec![2]);
    assert_eq!(swiglu(&Ieee, &mut y, &x), Err(InferError::ShapeMismatch));
    assert_eq!(y.data(), &[2., 3., 4.]);
}

#[test]
fn swiglu_of_zero_gate_is_zero() {
    let mut y = Tensor::<f32>::new(vec![2., -3.], &vec![2]);
    let x = Tensor::<f32>::new(vec![0., 0.], &vec![2]);
    assert_eq!(swiglu(&Ieee, &mut y, &x), Ok(()));
    assert_eq!(y.data(), &[0., 0.]);
}

#[test]
fn dot_adds_the_products() {
    let x = Tensor::<f32>::new(vec![1., 2., 3.], &vec![3]);
    let y = Tensor::<f32>::new(vec![4., 5., 6.], &vec![1, 3]);
    assert_eq!(dot(&Ieee, &x, &y), Ok(32.));
    let z = Tensor::<f32>::new(vec![4., 5.], &vec![2]);
    assert_eq!(dot(&Ieee, &x, &z), Err(InferError::ShapeMismatch));
    let e = Tensor::<f32>::new(vec![], &vec![0]);
    assert_eq!(dot(&Ieee, &e, &e), Ok(0.));
}

#[test]
fn gather_copies_the_rows_named() {
    let table = Tensor::<f32>::new(vec![0., 1., 10., 11., 20., 21.], &vec![3, 2]);
    let indices = Tensor::<u32>::new(vec![2, 0, 2, 1], &vec![4]);
    let mut y = Tensor::<f32>::default(&vec![4, 2]);
    assert_eq!(gather(&mut y, &indices, &table), Ok(()));
    assert_eq!(y.data(), &[20., 21., 0., 1., 20., 21., 10., 11.]);
    assert_eq!(y.shape(), &vec![4, 2]);
}

#[test]
fn gather_refuses_wrong_size_index_or_table() {
    let table = Tensor::<f32>::new(vec![0., 1., 10., 11., 20., 21.], &vec![3, 2]);
    let indices = Tensor::<u32>::new(vec![2, 0], &vec![2]);
    let mut y = Tensor::<f32>::new(vec![7., 7., 7.], &vec![3]);
    assert_eq!(
        gather(&mut y, &indices, &table),
        Err(InferError::ShapeMismatch)
    );
    assert_eq!(y.data(), &[7., 7., 7.]);
    let mut y = Tensor::<f32>::new(vec![7., 7., 7., 7.], &vec![2, 2]);
    let beyond = Tensor::<u32>::new(vec![2, 3], &vec![2]);
    assert_eq!(
        gather(&mut y, &beyond, &table),
        Err(InferError::ShapeMismatch)
    );
    assert_eq!(y.data(), &[7., 7., 7., 7.]);
    let flat = Tensor::<f32>::new(vec![0., 1., 10., 11., 20., 21.], &vec![6]);
    assert_eq!(
        gather(&mut y, &indices, &flat),
        Err(InferError::ShapeMismatch)
    );
}

#[test]
fn rms_norm_with_unit_weights_has_unit_mean_square() {
    let x = Tensor::<f32>::new(
        vec![1., -2., 3., 0.5, 10., 20., -30., 40., 0.1, 0.2, 0.3, 0.4],
        &vec![3, 4],
    );
    let w = Tensor::<f32>::new(vec![1., 1., 1., 1.], &vec![4]);
    let mut y = Tensor::<f32>::default(&vec![3, 4]);
    assert_eq!(rms_norm(&Ieee, &mut y, &x, &w, 1e-6), Ok(()));
    for row in y.data().chunks(4) {
        let mean: f32 = row.iter().map(|v| v * v).sum::<f32>() / 4.0;
        assert!(near(mean, 1.0, 1e-3));
    }
}

#[test]
fn rms_norm_row_matches_the_formula() {
    let out = rms_norm_row(&Ieee, 0.0, &[3., 4.], &[2., 0.5], 0.0);
    let rms = (12.5f32).sqrt();
    assert_eq!(out, vec![6. / rms, 2. / rms]);
}

#[test]
fn rms_norm_of_a_zero_row_is_finite() {
    let x = Tensor::<f32>::new(vec![0., 0.], &vec![1, 2]);
    let w = Tensor::<f32>::new(vec![1., 1.], &vec![2]);
    let mut y = Tensor::<f32>::new(vec![5., 5.], &vec![1, 2]);
    assert_eq!(rms_norm(&Ieee, &mut y, &x, &w, 1e-6), Ok(()));
    assert_eq!(y.data(), &[0., 0.]);
}

#[test]
fn rms_norm_refuses_shapes_that_disagree() {
    let x = Tensor::<f32>::new(vec![1., 2., 3., 4.], &vec![2, 2]);
    let mut y = Tensor::<f32>::new(vec![1., 2., 3., 4.], &vec![2, 2]);
    let w3 = Tensor::<f32>::new(vec![1., 2., 3.], &vec![3]);
    assert_eq!(
        rms_norm(&Ieee, &mut y, &x, &w3, 1e-6),
        Err(InferError::ShapeMismatch)
    );
    let w2d = Tensor::<f32>::new(vec![1., 2.], &vec![1, 2]);
    assert_eq!(
        rms_norm(&Ieee, &mut y, &x, &w2d, 1e-6),
        Err(InferError::ShapeMismatch)
    );
    let w = Tensor::<f32>::new(vec![1., 2.], &vec![2]);
    let mut small = Tensor::<f32>::new(vec![1., 2.], &vec![1, 2]);
    assert_eq!(
        rms_norm(&Ieee, &mut small, &x, &w, 1e-6),
        Err(InferError::ShapeMismatch)
    );
    assert_eq!(small.data(), &[1., 2.]);
}

#[test]
fn masked_softmax_rows_sum_to_one_and_mask_is_zero() {
    let mut y = Tensor::<f32>::new(
        vec![
            1., 2., 3., 4., 5., 6., 7., 8., 9., 10., 11., 12., 0.5, 0.25, 0., -1., 2., 2., 2.,
            2., -3., 1., 4., 1.,
        ],
        &vec![2, 3, 4],
    );
    assert_eq!(masked_softmax(&Ieee, &mut y), Ok(()));
    assert_eq!(y.shape(), &vec![2, 3, 4]);
    for (r, row) in y.data().chunks(4).enumerate() {
        let boundary = 4 - 3 + (r % 3) + 1;
        let sum: f32 = row[..boundary].iter().sum();
        assert!(near(sum, 1.0, 1e-5));
        for v in &row[boundary..] {
            assert_eq!(*v, 0.0);
        }
        for v in &row[..boundary] {
            assert!(*v > 0.0);
        }
    }
}

#[test]
fn masked_softmax_of_a_square_block() {
    let mut y = Tensor::<f32>::new(vec![0., 0., 0., 0.], &vec![2, 2]);
    assert_eq!(masked_softmax(&Ieee, &mut y), Ok(()));
    assert_eq!(y.data(), &[1., 0., 0.5, 0.5]);
}

#[test]
fn softmax_row_matches_the_formula() {
    let out = softmax_row(&Ieee, 0.0, &[1., 2., 100.], 2);
    let e = (-1f32).exp();
    assert_eq!(out, vec![e / (e + 1.), 1. / (e + 1.), 0.]);
}

#[test]
fn masked_softmax_refuses_bad_shapes() {
    let mut y = Tensor::<f32>::new(vec![1., 2., 3., 4.], &vec![4]);
    assert_eq!(masked_softmax(&Ieee, &mut y), Err(InferError::ShapeMismatch));
    let mut y = Tensor::<f32>::new(vec![1., 2., 3., 4., 5., 6.], &vec![3, 2]);
    assert_eq!(masked_softmax(&Ieee, &mut y), Err(InferError::ShapeMismatch));
    assert_eq!(y.data(), &[1., 2., 3., 4., 5., 6.]);
}

#[test]
fn rope_keeps_the_length_of_every_pair() {
    let data: Vec<f32> = (0..2 * 3 * 4).map(|v| v as f32 * 0.5 - 3.0).collect();
    let mut y = Tensor::<f32>::new(data.clone(), &vec![2, 3, 4]);
    assert_eq!(rope(&Ieee, &mut y, 5, 10000.0), Ok(()));
    for (before, after) in data.chunks(4).zip(y.data().chunks(4)) {
        for i in 0..2 {
            let was = before[i] * before[i] + before[i + 2] * before[i + 2];
            let is = after[i] * after[i] + after[i + 2] * after[i + 2];
            assert!(near(was, is, 1e-4));
        }
    }
}

#[test]
fn rope_at_position_zero_changes_nothing() {
    let mut y = Tensor::<f32>::new(vec![1., 2., 3., 4.], &vec![1, 1, 4]);
    assert_eq!(rope(&Ieee, &mut y, 0, 10000.0), Ok(()));
    assert_eq!(y.data(), &[1., 2., 3., 4.]);
}

#[test]
fn rope_vector_matches_the_formula() {
    let out = rope_vector(&Ieee, 100.0, 3, &[1., 2., 3., 4., 9.]);
    let (s0, c0) = (3f32 / 100f32.powf(0.0 / 5.0)).sin_cos();
    let (s1, c1) = (3f32 / 100f32.powf(2.0 / 5.0)).sin_cos();
    assert_eq!(
        out,
        vec![
            1. * c0 - 3. * s0,
            2. * c1 - 4. * s1,
            3. * c0 + 1. * s0,
            4. * c1 + 2. * s1,
            9.
        ]
    );
}

#[test]
fn rope_uses_the_absolute_position() {
    let mut whole = Tensor::<f32>::new(vec![1., 2., 3., 4., 5., 6., 7., 8.], &vec![2, 2, 2]);
    assert_eq!(rope(&Ieee, &mut whole, 7, 10000.0), Ok(()));
    let mut second = Tensor::<f32>::new(vec![5., 6., 7., 8.], &vec![1, 2, 2]);
    assert_eq!(rope(&Ieee, &mut second, 8, 10000.0), Ok(()));
    assert_eq!(&whole.data()[4..], second.data());
}

#[test]
fn rope_refuses_other_ranks() {
    let mut y = Tensor::<f32>::new(vec![1., 2., 3., 4.], &vec![2, 2]);
    assert_eq!(rope(&Ieee, &mut y, 0, 10000.0), Err(InferError::ShapeMismatch));
    assert_eq!(y.data(), &[1., 2., 3., 4.]);
}

#[test]
fn rope_refuses_positions_beyond_the_machine() {
    let mut y = Tensor::<f32>::new(vec![1., 2., 3., 4.], &vec![2, 1, 2]);
    assert_eq!(
        rope(&Ieee, &mut y, usize::MAX - 1, 10000.0),
        Err(InferError::ShapeMismatch)
    );
    assert_eq!(y.data(), &[1., 2., 3., 4.]);
    assert_eq!(rope(&Ieee, &mut y, usize::MAX - 2, 10000.0), Ok(()));
}
