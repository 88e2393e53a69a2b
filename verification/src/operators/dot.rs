//! The inner product of two tensors.

use crate::arith::{dot_of, inner_product, zero_gives, Arith};
use crate::error::InferError;
use crate::tensor::Tensor;
use vstd::prelude::*;

verus! {

/// The inner product of two tensors of one size, taken as flat vectors.
///
/// Refused where the sizes differ.
pub fn dot<T: Copy, A: Arith<T>>(ar: &A, x: &Tensor<T>, y: &Tensor<T>) -> (r: Result<T, InferError>)
    ensures
        r is Ok <==> x@.len() == y@.len(),
        r is Err ==> r matches Err(InferError::ShapeMismatch),
        r matches Ok(v) ==> exists|zero: T|
            #[trigger] zero_gives(ar, zero) && dot_of(ar, x@, y@, zero, v),
{
    if x.size() != y.size() {
        return Err(InferError::ShapeMismatch);
    }
    let zero = ar.zero();
    let v = inner_product(ar, x.data(), y.data(), zero);
    assert(zero_gives(ar, zero) && dot_of(ar, x@, y@, zero, v));
    Ok(v)
}

} // verus!
