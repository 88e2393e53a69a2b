use lm_infer::arith::Arith;
use lm_infer::error::InferError;
use lm_infer::sampling::{
    argmax, cumulative_weights, descending_order, first_reaching, order_keys, random_sample,
    threshold,
};
use lm_infer::tensor::Tensor;

struct Ieee;

impl Arith<f32> for Ieee {
    fn zero(&self) -> f32 {
        0.0
    }
    fn one(&self) -> f32 {
        1.0
    }
    fn from_count(&self, n: usize) -> f32 {
        n as f32
    }
    fn add(&self, a: f32, b: f32) -> f32 {
        a + b
    }
    fn sub(&self, a: f32, b: f32) -> f32 {
        a - b
    }
    fn mul(&self, a: f32, b: f32) -> f32 {
        a * b
    }
    fn div(&self, a: f32, b: f32) -> f32 {
        a / b
    }
    fn neg(&self, a: f32) -> f32 {
        -a
    }
    fn abs(&self, a: f32) -> f32 {
        a.abs()
    }
    fn max(&self, a: f32, b: f32) -> f32 {
        a.max(b)
    }
    fn min(&self, a: f32, b: f32) -> f32 {
        a.min(b)
    }
    fn exp(&self, a: f32) -> f32 {
        a.exp()
    }
    fn sqrt(&self, a: f32) -> f32 {
        a.sqrt()
    }
    fn powf(&self, a: f32, e: f32) -> f32 {
        a.powf(e)
    }
    fn sin_cos(&self, a: f32) -> (f32, f32) {
        a.sin_cos()
    }
    fn le(&self, a: f32, b: f32) -> bool {
        a <= b
    }
    fn order_key(&self, a: f32) -> i64 {
        let bits = a.to_bits() as i32;
        (bits ^ (((bits >> 31) as u32) >> 1) as i32) as i64
    }
}

#[test]
fn argmax_takes_the_lowest_index_of_the_largest() {
    assert_eq!(argmax(&[3, 9, 2, 9, 9]), Some(1));
    assert_eq!(argmax(&[-5]), Some(0));
    assert_eq!(argmax(&[7, 7, 7]), Some(0));
    assert_eq!(argmax(&[1, 2, 3]), Some(2));
    assert_eq!(argmax(&[]), None);
    assert_eq!(argmax(&[i64::MIN, i64::MAX, i64::MAX]), Some(1));
}

#[test]
fn descending_order_sorts_and_breaks_ties_by_index() {
    assert_eq!(descending_order(&[3, 9, 2, 9, 5]), vec![1, 3, 4, 0, 2]);
    assert_eq!(descending_order(&[1, 2, 3]), vec![2, 1, 0]);
    assert_eq!(descending_order(&[4, 4, 4]), vec![0, 1, 2]);
    assert_eq!(descending_order(&[i64::MIN, i64::MAX, 0]), vec![1, 2, 0]);
    assert_eq!(descending_order(&[]), Vec::<usize>::new());
}

#[test]
fn order_keys_order_as_the_numbers_do() {
    let keys = order_keys(&Ieee, &[-2.5, -0.0, 0.0, 1.0, f32::MAX, -1e-30]);
    assert!(keys[0] < keys[5]);
    assert!(keys[5] < keys[1]);
    assert!(keys[1] < keys[2]);
    assert!(keys[2] < keys[3]);
    assert!(keys[3] < keys[4]);
}

#[test]
fn cumulative_weights_add_up_along_the_order() {
    let cum = cumulative_weights(&Ieee, &[1., 3., 2.], &[1, 2, 0], 2.0);
    let second = 1.0 + (-0.5f32).exp();
    let third = second + (-1.0f32).exp();
    assert_eq!(cum, vec![1.0, second, third]);
    assert_eq!(cumulative_weights(&Ieee, &[], &[], 1.0), Vec::<f32>::new());
}

#[test]
fn threshold_is_the_draw_times_the_smaller_cutoff() {
    let cum = [1.0f32, 1.5, 1.75, 2.0];
    assert_eq!(threshold(&Ieee, &cum, 1.0, 2, 0.5), 0.75);
    assert_eq!(threshold(&Ieee, &cum, 0.5, 3, 0.5), 0.5);
    assert_eq!(threshold(&Ieee, &cum, 1.0, 9, 0.25), 0.5);
    assert_eq!(threshold(&Ieee, &cum, 1.0, 4, 0.25), 0.5);
}

#[test]
fn first_reaching_finds_the_first_sum_at_the_limit() {
    let cum = [1.0f32, 1.5, 1.75, 2.0];
    assert_eq!(first_reaching(&Ieee, &cum, 0.0), Some(0));
    assert_eq!(first_reaching(&Ieee, &cum, 1.5), Some(1));
    assert_eq!(first_reaching(&Ieee, &cum, 1.6), Some(2));
    assert_eq!(first_reaching(&Ieee, &cum, 2.5), None);
    assert_eq!(first_reaching(&Ieee, &cum, f32::NAN), None);
}

#[test]
fn random_sample_is_greedy_for_degenerate_parameters() {
    let x = Tensor::<f32>::new(vec![0.5, 2.0, -1.0, 2.0, 1.5], &vec![5]);
    for draw in [0.0f32, 0.3, 0.999] {
        assert_eq!(random_sample(&Ieee, &x, 0.8, 30, 0.0, draw), Ok(1));
        assert_eq!(random_sample(&Ieee, &x, 0.8, 30, -1.0, draw), Ok(1));
        assert_eq!(random_sample(&Ieee, &x, 0.8, 1, 1.0, draw), Ok(1));
        assert_eq!(random_sample(&Ieee, &x, 0.8, 0, 1.0, draw), Ok(1));
        assert_eq!(random_sample(&Ieee, &x, 0.0, 30, 1.0, draw), Ok(1));
        assert_eq!(random_sample(&Ieee, &x, -0.5, 30, 1.0, draw), Ok(1));
    }
}

#[test]
fn random_sample_takes_the_first_candidate_that_reaches_the_draw() {
    let x = Tensor::<f32>::new(vec![1., 3., 2.], &vec![1, 3]);
    // order 1, 2, 0; running sums 1, 1 + exp(-1), 1 + exp(-1) + exp(-2)
    assert_eq!(random_sample(&Ieee, &x, 1.0, 2, 1.0, 0.5), Ok(1));
    assert_eq!(random_sample(&Ieee, &x, 1.0, 2, 1.0, 0.9), Ok(2));
    assert_eq!(random_sample(&Ieee, &x, 1.0, 3, 1.0, 0.95), Ok(0));
    assert_eq!(random_sample(&Ieee, &x, 1.0, 2, 1.0, 0.0), Ok(1));
    // top_p caps the threshold below the first running sum
    assert_eq!(random_sample(&Ieee, &x, 0.5, 3, 1.0, 0.999), Ok(1));
}

#[test]
fn random_sample_breaks_ties_by_token_id() {
    let x = Tensor::<f32>::new(vec![2., 5., 5., 5.], &vec![4]);
    // order 1, 2, 3, 0; running sums 1, 2, 3, 3 + exp(-3)
    assert_eq!(random_sample(&Ieee, &x, 1.0, 4, 1.0, 0.2), Ok(1));
    assert_eq!(random_sample(&Ieee, &x, 1.0, 4, 1.0, 0.5), Ok(2));
    assert_eq!(random_sample(&Ieee, &x, 1.0, 4, 1.0, 0.9), Ok(3));
}

#[test]
fn random_sample_falls_back_where_nothing_reaches() {
    let x = Tensor::<f32>::new(vec![1., 3., 2.], &vec![3]);
    assert_eq!(random_sample(&Ieee, &x, 1.0, 2, 1.0, f32::NAN), Ok(1));
}

#[test]
fn random_sample_refuses_what_is_no_vector() {
    let x = Tensor::<f32>::new(vec![1., 3., 2., 4.], &vec![2, 2]);
    assert_eq!(
        random_sample(&Ieee, &x, 1.0, 2, 1.0, 0.5),
        Err(InferError::ShapeMismatch)
    );
    let e = Tensor::<f32>::new(vec![], &vec![0]);
    assert_eq!(
        random_sample(&Ieee, &e, 1.0, 2, 1.0, 0.5),
        Err(InferError::ShapeMismatch)
    );
    let s = Tensor::<f32>::new(vec![1.0], &vec![]);
    assert_eq!(
        random_sample(&Ieee, &s, 1.0, 2, 1.0, 0.5),
        Err(InferError::ShapeMismatch)
    );
}
