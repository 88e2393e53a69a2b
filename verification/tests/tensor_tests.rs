use lm_infer::arith::{Arith, Cast};
use lm_infer::error::InferError;
use lm_infer::tensor::{copy_of, element_count, float_eq, same_shape, DType, Tensor};

struct Ieee;

impl Arith<f32> for Ieee {
    fn zero(&self) -> f32 {
        0.0
    }
    fn one(&self) -> f32 {
        1.0
    }
    fn from_count(&self, n: usize) -> f32 {
        n as f32
    }
    fn add(&self, a: f32, b: f32) -> f32 {
        a + b
    }
    fn sub(&self, a: f32, b: f32) -> f32 {
        a - b
    }
    fn mul(&self, a: f32, b: f32) -> f32 {
        a * b
    }
    fn div(&self, a: f32, b: f32) -> f32 {
        a / b
    }
    fn neg(&self, a: f32) -> f32 {
        -a
    }
    fn abs(&self, a: f32) -> f32 {
        a.abs()
    }
    fn max(&self, a: f32, b: f32) -> f32 {
        a.max(b)
    }
    fn min(&self, a: f32, b: f32) -> f32 {
        a.min(b)
    }
    fn exp(&self, a: f32) -> f32 {
        a.exp()
    }
    fn sqrt(&self, a: f32) -> f32 {
        a.sqrt()
    }
    fn powf(&self, a: f32, e: f32) -> f32 {
        a.powf(e)
    }
    fn sin_cos(&self, a: f32) -> (f32, f32) {
        a.sin_cos()
    }
    fn le(&self, a: f32, b: f32) -> bool {
        a <= b
    }
    fn order_key(&self, a: f32) -> i64 {
        let bits = a.to_bits() as i32;
        (bits ^ (((bits >> 31) as u32) >> 1) as i32) as i64
    }
}

impl Cast<f32, f32> for Ieee {
    fn widen(&self, x: f32) -> f32 {
        x
    }
    fn through_half(&self, x: f32) -> f32 {
        half::f16::from_f32(x).to_f32()
    }
}

#[test]
fn new_keeps_data_and_shape() {
    let t = Tensor::<u32>::new(vec![1, 2, 3, 4, 5, 6], &vec![2, 3]);
    assert_eq!(t.data(), &[1, 2, 3, 4, 5, 6]);
    assert_eq!(t.shape(), &vec![2, 3]);
    assert_eq!(t.size(), 6);
    assert_eq!(t.to_vec(), vec![1, 2, 3, 4, 5, 6]);
}

#[test]
fn default_fills_with_the_default_value() {
    let t = Tensor::<u32>::default(&vec![2, 0, 3]);
    assert_eq!(t.size(), 0);
    let t = Tensor::<f32>::default(&vec![2, 2]);
    assert_eq!(t.data(), &[0., 0., 0., 0.]);
    assert_eq!(t.shape(), &vec![2, 2]);
    let scalar = Tensor::<u32>::default(&vec![]);
    assert_eq!(scalar.data(), &[0]);
}

#[test]
fn element_count_is_the_product_where_it_fits() {
    assert_eq!(element_count(&vec![]), Some(1));
    assert_eq!(element_count(&vec![2, 3, 4]), Some(24));
    assert_eq!(element_count(&vec![usize::MAX, 2]), None);
    assert_eq!(element_count(&vec![usize::MAX, 2, 0]), Some(0));
    assert_eq!(element_count(&vec![0, usize::MAX, usize::MAX]), Some(0));
    assert_eq!(element_count(&vec![usize::MAX, 1]), Some(usize::MAX));
}

#[test]
fn reshape_refuses_other_count() {
    let mut t = Tensor::<u32>::new(vec![1, 2, 3, 4, 5, 6], &vec![2, 3]);
    assert_eq!(t.reshape(&vec![4, 2]), Err(InferError::ShapeMismatch));
    assert_eq!(t.shape(), &vec![2, 3]);
    assert_eq!(t.reshape(&vec![usize::MAX, 2]), Err(InferError::ShapeMismatch));
    assert_eq!(t.shape(), &vec![2, 3]);
    assert_eq!(t.reshape(&vec![3, 2]), Ok(()));
    assert_eq!(t.shape(), &vec![3, 2]);
    assert_eq!(t.reshape(&vec![6]), Ok(()));
    assert_eq!(t.data(), &[1, 2, 3, 4, 5, 6]);
}

#[test]
fn slice_is_a_window() {
    let t = Tensor::<u32>::new(vec![1, 2, 3, 4, 5, 6], &vec![2, 3]);
    let s = t.slice(2, &vec![2, 2]).unwrap();
    assert_eq!(s.data(), &[3, 4, 5, 6]);
    assert_eq!(s.shape(), &vec![2, 2]);
    let inner = s.slice(1, &vec![3]).unwrap();
    assert_eq!(inner.data(), &[4, 5, 6]);
    let empty = t.slice(6, &vec![0]).unwrap();
    assert_eq!(empty.size(), 0);
    assert_eq!(t.slice(0, &vec![6]).unwrap().data(), t.data());
}

#[test]
fn slice_refuses_what_is_out_of_bounds() {
    let t = Tensor::<u32>::new(vec![1, 2, 3, 4, 5, 6], &vec![2, 3]);
    assert!(matches!(t.slice(3, &vec![2, 2]), Err(InferError::ShapeMismatch)));
    assert!(matches!(t.slice(7, &vec![0]), Err(InferError::ShapeMismatch)));
    assert!(matches!(
        t.slice(0, &vec![usize::MAX, 2]),
        Err(InferError::ShapeMismatch)
    ));
    assert!(matches!(
        t.slice(usize::MAX, &vec![2]),
        Err(InferError::ShapeMismatch)
    ));
}

#[test]
fn store_leaves_other_views_as_they_were() {
    let t = Tensor::<u32>::new(vec![1, 2, 3, 4, 5, 6], &vec![2, 3]);
    let mut s = t.slice(3, &vec![3]).unwrap();
    s.store(vec![7, 8, 9]);
    assert_eq!(s.data(), &[7, 8, 9]);
    assert_eq!(s.shape(), &vec![3]);
    assert_eq!(t.data(), &[1, 2, 3, 4, 5, 6]);
}

#[test]
fn copy_of_copies() {
    assert_eq!(copy_of(&[1u32, 2, 3]), vec![1, 2, 3]);
    assert_eq!(copy_of::<u32>(&[]), Vec::<u32>::new());
}

#[test]
fn same_shape_compares_every_dimension() {
    assert!(same_shape(&vec![2, 3], &vec![2, 3]));
    assert!(!same_shape(&vec![2, 3], &vec![3, 2]));
    assert!(!same_shape(&vec![2, 3], &vec![2, 3, 1]));
    assert!(same_shape(&vec![], &vec![]));
}

#[test]
fn float_eq_is_relative() {
    assert!(float_eq(&Ieee, 100.0, 100.05, 1e-3));
    assert!(!float_eq(&Ieee, 100.0, 100.2, 1e-3));
    assert!(float_eq(&Ieee, 0.0, 0.0, 1e-3));
    assert!(!float_eq(&Ieee, 0.0, 1e-9, 1e-3));
    assert!(float_eq(&Ieee, 1.0, 3.0, 1.0));
    assert!(!float_eq(&Ieee, f32::NAN, f32::NAN, 1.0));
}

#[test]
fn close_to_needs_the_same_shape() {
    let a = Tensor::<f32>::new(vec![1., 2., 3., 4.], &vec![2, 2]);
    let b = Tensor::<f32>::new(vec![1., 2., 3., 4.], &vec![4]);
    let c = Tensor::<f32>::new(vec![1.0001, 2., 3., 3.9999], &vec![2, 2]);
    let d = Tensor::<f32>::new(vec![1., 2., 3., 5.], &vec![2, 2]);
    assert!(a.close_to(&Ieee, &a, 1e-3));
    assert!(!a.close_to(&Ieee, &b, 1e-3));
    assert!(a.close_to(&Ieee, &c, 1e-3));
    assert!(!a.close_to(&Ieee, &d, 1e-3));
}

#[test]
fn to_dtype_rounds_through_half_precision() {
    let t = Tensor::<f32>::new(vec![1.0, 0.1, 65504.0, 1e-10, 2049.0], &vec![5]);
    let same = t.to_dtype(&Ieee, DType::F32);
    assert_eq!(same.data(), t.data());
    assert_eq!(same.shape(), &vec![5]);
    let half = t.to_dtype(&Ieee, DType::F16);
    assert_eq!(half.data(), &[1.0, 0.099975586, 65504.0, 0.0, 2048.0]);
    assert_eq!(half.shape(), &vec![5]);
}
