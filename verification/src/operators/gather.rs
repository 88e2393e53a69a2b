//! Row lookup in a table, as for embeddings.

use crate::error::InferError;
use crate::layout::{
    append_row, lemma_equal_rows, lemma_row_in_bounds, lemma_rows_after_append,
    lemma_shape_size_2, row_of,
};
use crate::tensor::Tensor;
use vstd::prelude::*;

verus! {

/// What `gather` asks of its arguments: `table` is a matrix, every index
/// names one of its rows, and `y` has room for one row per index.
pub open spec fn gather_fits(y_len: nat, indices: Seq<u32>, table: Seq<usize>) -> bool {
    &&& table.len() == 2
    &&& y_len == indices.len() * table[1]
    &&& forall|i: int| 0 <= i < indices.len() ==> (#[trigger] indices[i]) < table[0]
}

/// Row `i` of `after` is the row of `table` that index `i` names, for rows of
/// `dim` elements.
pub open spec fn is_gathered<T>(table: Seq<T>, dim: int, indices: Seq<u32>, after: Seq<T>) -> bool {
    &&& after.len() == indices.len() * dim
    &&& forall|i: int|
        0 <= i < indices.len() ==> #[trigger] row_of(after, dim, i) == row_of(
            table,
            dim,
            indices[i] as int,
        )
}

/// Copies, for each index in `indices`, that row of `table` into the next
/// row of `y`.
///
/// Refused, with `y` untouched, where `table` is no matrix, an index names
/// no row of it, or `y` does not hold one row per index.
pub fn gather<T: Copy>(y: &mut Tensor<T>, indices: &Tensor<u32>, table: &Tensor<T>) -> (r: Result<
    (),
    InferError,
>)
    ensures
        r is Ok <==> gather_fits(old(y)@.len(), indices@, table.dims()),
        r is Err ==> r == Err::<(), InferError>(InferError::ShapeMismatch) && final(y)@ == old(
            y,
        )@,
        final(y).dims() == old(y).dims(),
        r is Ok ==> is_gathered(table@, table.dims()[1] as int, indices@, final(y)@),
{
    let shape = table.shape();
    if shape.len() != 2 {
        return Err(InferError::ShapeMismatch);
    }
    let rows = shape[0];
    let dim = shape[1];
    let ids = indices.data();
    let count = ids.len();
    let y_len = y.size();
    match count.checked_mul(dim) {
        Some(total) => {
            if total != y_len {
                return Err(InferError::ShapeMismatch);
            }
        },
        None => {
            return Err(InferError::ShapeMismatch);
        },
    }
    let mut k: usize = 0;
    while k < count
        invariant
            0 <= k <= count,
            count == ids@.len(),
            ids@ == indices@,
            rows == table.dims()[0],
            forall|i: int| 0 <= i < k ==> (#[trigger] ids@[i]) < rows,
        decreases count - k,
    {
        if ids[k] as usize >= rows {
            assert(indices@[k as int] >= rows);
            return Err(InferError::ShapeMismatch);
        }
        k += 1;
    }
    proof {
        lemma_shape_size_2(table.dims());
    }
    let source = table.data();
    let mut out: Vec<T> = Vec::with_capacity(y_len);
    let mut i: usize = 0;
    while i < count
        invariant
            0 <= i <= count,
            count == ids@.len(),
            count * dim == old(y)@.len(),
            source@ == table@,
            source@.len() == rows * dim,
            forall|t: int| 0 <= t < count ==> (#[trigger] ids@[t]) < rows,
            out@.len() == i * dim,
            forall|t: int|
                0 <= t < i ==> #[trigger] row_of(out@, dim as int, t) == row_of(
                    table@,
                    dim as int,
                    ids@[t] as int,
                ),
        decreases count - i,
    {
        let row = ids[i] as usize;
        proof {
            lemma_row_in_bounds(row as int, rows as int, dim as int);
        }
        let _room = source.len();
        let ghost before = out@;
        append_row(&mut out, &source[row * dim..row * dim + dim]);
        proof {
            lemma_rows_after_append(before, row_of(table@, dim as int, row as int), dim as int, i as int);
            assert((i + 1) * dim == i * dim + dim) by (nonlinear_arith);
        }
        i += 1;
    }
    y.store(out);
    Ok(())
}

/// `gather` has one result.
pub proof fn lemma_gathered_one_value<T>(
    table: Seq<T>,
    dim: int,
    indices: Seq<u32>,
    y1: Seq<T>,
    y2: Seq<T>,
)
    requires
        0 <= dim,
        is_gathered(table, dim, indices, y1),
        is_gathered(table, dim, indices, y2),
    ensures
        y1 == y2,
{
    lemma_equal_rows(y1, y2, indices.len() as int, dim);
}

} // verus!
