//! Root-mean-square normalisation, row by row.

use crate::arith::{
    add_gives, count_gives, div_gives, dot_of, inner_product, is_functional,
    lemma_dot_of_one_value, mul_gives, sqrt_gives, zero_gives, Arith,
};
use crate::error::InferError;
use crate::layout::{
    append_row, lemma_equal_rows, lemma_row_count, lemma_row_in_bounds,
    lemma_rows_after_append, row_of,
};
use crate::tensor::{shape_size, Tensor};
use vstd::prelude::*;

verus! {

/// `rms` is a root mean square of `row`, shifted by `epsilon`:
/// `sqrt(sum(row[l] * row[l]) / n + epsilon)` for a row of `n` elements.
pub open spec fn rms_of<T, A: Arith<T>>(ar: &A, zero: T, epsilon: T, row: Seq<T>, rms: T) -> bool {
    exists|sum: T, n: T, mean: T, shifted: T|
        #![trigger div_gives(ar, sum, n, mean), add_gives(ar, mean, epsilon, shifted)]
        {
            &&& dot_of(ar, row, row, zero, sum)
            &&& count_gives(ar, row.len() as usize, n)
            &&& div_gives(ar, sum, n, mean)
            &&& add_gives(ar, mean, epsilon, shifted)
            &&& sqrt_gives(ar, shifted, rms)
        }
}

/// `r` is a value of `w * x / rms`.
pub open spec fn scaled_of<T, A: Arith<T>>(ar: &A, w: T, x: T, rms: T, r: T) -> bool {
    exists|p: T| #[trigger] mul_gives(ar, w, x, p) && div_gives(ar, p, rms, r)
}

/// `y_row` is `x_row` normalised: each element times its weight, over one
/// root mean square of the whole row.
pub open spec fn is_normed_row<T, A: Arith<T>>(
    ar: &A,
    zero: T,
    epsilon: T,
    x_row: Seq<T>,
    w: Seq<T>,
    y_row: Seq<T>,
) -> bool {
    exists|rms: T|
        {
            &&& #[trigger] rms_of(ar, zero, epsilon, x_row, rms)
            &&& y_row.len() == x_row.len()
            &&& forall|l: int|
                0 <= l < x_row.len() ==> scaled_of(ar, w[l], x_row[l], rms, #[trigger] y_row[l])
        }
}

/// Normalises one row. Rows do not depend on each other, so a caller may
/// hand them out to workers.
pub fn rms_norm_row<T: Copy, A: Arith<T>>(ar: &A, zero: T, x_row: &[T], w: &[T], epsilon: T) -> (r:
    Vec<T>)
    requires
        w@.len() == x_row@.len(),
    ensures
        is_normed_row(ar, zero, epsilon, x_row@, w@, r@),
{
    let width = x_row.len();
    let sum = inner_product(ar, x_row, x_row, zero);
    let n = ar.from_count(width);
    let mean = ar.div(sum, n);
    let shifted = ar.add(mean, epsilon);
    let rms = ar.sqrt(shifted);
    assert(dot_of(ar, x_row@, x_row@, zero, sum) && count_gives(ar, x_row@.len() as usize, n)
        && div_gives(ar, sum, n, mean) && add_gives(ar, mean, epsilon, shifted) && sqrt_gives(
        ar,
        shifted,
        rms,
    ));
    let mut out: Vec<T> = Vec::with_capacity(width);
    let mut l: usize = 0;
    while l < width
        invariant
            0 <= l <= width,
            width == x_row@.len(),
            width == w@.len(),
            out@.len() == l,
            forall|k: int|
                0 <= k < l ==> scaled_of(ar, w@[k], x_row@[k], rms, #[trigger] out@[k]),
        decreases width - l,
    {
        let p = ar.mul(w[l], x_row[l]);
        let v = ar.div(p, rms);
        assert(mul_gives(ar, w@[l as int], x_row@[l as int], p) && div_gives(ar, p, rms, v));
        out.push(v);
        l += 1;
    }
    assert(rms_of(ar, zero, epsilon, x_row@, rms));
    out
}

/// What `rms_norm` asks of its arguments: `w` is a vector as long as the
/// rows of `x` and of `y`, which hold the same number of elements.
pub open spec fn rms_norm_fits(
    y: Seq<usize>,
    y_len: nat,
    x: Seq<usize>,
    x_len: nat,
    w: Seq<usize>,
) -> bool {
    &&& w.len() == 1
    &&& x.len() >= 1 && x.last() == w[0]
    &&& y.len() >= 1 && y.last() == w[0]
    &&& y_len == x_len
}

/// `y` holds the rows of `x`, each normalised and weighted by `w`.
pub open spec fn is_rms_normed<T, A: Arith<T>>(
    ar: &A,
    epsilon: T,
    x: Seq<T>,
    w: Seq<T>,
    y: Seq<T>,
) -> bool {
    &&& y.len() == x.len()
    &&& exists|zero: T|
        #[trigger] zero_gives(ar, zero) && forall|i: int|
            0 <= i && 0 < w.len() && i * w.len() + w.len() <= x.len() ==> #[trigger] is_normed_row(
                ar,
                zero,
                epsilon,
                row_of(x, w.len() as int, i),
                w,
                row_of(y, w.len() as int, i),
            )
}

/// Writes to `y` the rows of `x`, each normalised by its root mean square
/// and weighted by `w`: `y[l] = w[l] * x[l] / sqrt(mean(x^2) + epsilon)`.
///
/// Refused, with `y` untouched, where the shapes do not fit.
pub fn rms_norm<T: Copy, A: Arith<T>>(
    ar: &A,
    y: &mut Tensor<T>,
    x: &Tensor<T>,
    w: &Tensor<T>,
    epsilon: T,
) -> (r: Result<(), InferError>)
    ensures
        r is Ok <==> rms_norm_fits(old(y).dims(), old(y)@.len(), x.dims(), x@.len(), w.dims()),
        r is Err ==> r == Err::<(), InferError>(InferError::ShapeMismatch) && final(y)@ == old(
            y,
        )@,
        final(y).dims() == old(y).dims(),
        r is Ok ==> is_rms_normed(ar, epsilon, x@, w@, final(y)@),
{
    let w_shape = w.shape();
    let x_shape = x.shape();
    let y_shape = y.shape();
    if w_shape.len() != 1 || x_shape.len() == 0 || y_shape.len() == 0 {
        return Err(InferError::ShapeMismatch);
    }
    let width = w_shape[0];
    if x_shape[x_shape.len() - 1] != width || y_shape[y_shape.len() - 1] != width || x.size()
        != y.size() {
        return Err(InferError::ShapeMismatch);
    }
    proof {
        reveal_with_fuel(shape_size, 2);
        assert(w.dims().drop_last().len() == 0);
        assert(w@.len() == width);
    }
    let total = x.size();
    let zero = ar.zero();
    let source = x.data();
    let weights = w.data();
    let rows: usize = if width == 0 {
        0
    } else {
        total / width
    };
    proof {
        if width > 0 {
            lemma_row_count(total as int, shape_size(x.dims().drop_last()) as int, width as int);
        } else {
            assert(total == 0) by (nonlinear_arith)
                requires
                    total == shape_size(x.dims().drop_last()) * width,
                    width == 0,
            ;
        }
        assert(total == rows * width);
    }
    let mut out: Vec<T> = Vec::with_capacity(total);
    let mut i: usize = 0;
    while i < rows
        invariant
            0 <= i <= rows,
            total == rows * width,
            source@ == x@,
            source@.len() == total,
            weights@ == w@,
            weights@.len() == width,
            out@.len() == i * width,
            forall|t: int|
                0 <= t < i ==> #[trigger] is_normed_row(
                    ar,
                    zero,
                    epsilon,
                    row_of(x@, width as int, t),
                    w@,
                    row_of(out@, width as int, t),
                ),
        decreases rows - i,
    {
        proof {
            lemma_row_in_bounds(i as int, rows as int, width as int);
        }
        let _room = source.len();
        let row = rms_norm_row(ar, zero, &source[i * width..i * width + width], weights, epsilon);
        let ghost before = out@;
        append_row(&mut out, row.as_slice());
        proof {
            lemma_rows_after_append(before, row@, width as int, i as int);
            assert((i + 1) * width == i * width + width) by (nonlinear_arith);
            assert forall|t: int| 0 <= t < i + 1 implies #[trigger] is_normed_row(
                ar,
                zero,
                epsilon,
                row_of(x@, width as int, t),
                w@,
                row_of(out@, width as int, t),
            ) by {
                if t < i {
                    assert(row_of(out@, width as int, t) == row_of(before, width as int, t));
                }
            }
        }
        i += 1;
    }
    y.store(out);
    proof {
        assert(zero_gives(ar, zero));
        assert forall|t: int|
            0 <= t && 0 < w@.len() && t * w@.len() + w@.len() <= x@.len()
                implies #[trigger] is_normed_row(
            ar,
            zero,
            epsilon,
            row_of(x@, w@.len() as int, t),
            w@,
            row_of(y@, w@.len() as int, t),
        ) by {
            assert(t < rows) by (nonlinear_arith)
                requires
                    t * width + width <= rows * width,
                    width > 0,
            ;
        }
    }
    Ok(())
}

/// With functional arithmetic, a row has one root mean square.
pub proof fn lemma_rms_of_one_value<T, A: Arith<T>>(
    ar: &A,
    zero: T,
    epsilon: T,
    row: Seq<T>,
    r1: T,
    r2: T,
)
    requires
        is_functional(ar),
        rms_of(ar, zero, epsilon, row, r1),
        rms_of(ar, zero, epsilon, row, r2),
    ensures
        r1 == r2,
{
    let (s1, n1, m1, h1) = choose|sum: T, n: T, mean: T, shifted: T|
        #![trigger div_gives(ar, sum, n, mean), add_gives(ar, mean, epsilon, shifted)]
        {
            &&& dot_of(ar, row, row, zero, sum)
            &&& count_gives(ar, row.len() as usize, n)
            &&& div_gives(ar, sum, n, mean)
            &&& add_gives(ar, mean, epsilon, shifted)
            &&& sqrt_gives(ar, shifted, r1)
        };
    let (s2, n2, m2, h2) = choose|sum: T, n: T, mean: T, shifted: T|
        #![trigger div_gives(ar, sum, n, mean), add_gives(ar, mean, epsilon, shifted)]
        {
            &&& dot_of(ar, row, row, zero, sum)
            &&& count_gives(ar, row.len() as usize, n)
            &&& div_gives(ar, sum, n, mean)
            &&& add_gives(ar, mean, epsilon, shifted)
            &&& sqrt_gives(ar, shifted, r2)
        };
    lemma_dot_of_one_value(ar, row, row, zero, s1, s2);
    assert(n1 == n2);
    assert(m1 == m2);
    assert(h1 == h2);
}

/// With functional arithmetic, a row has one normalised row.
pub proof fn lemma_normed_row_one_value<T, A: Arith<T>>(
    ar: &A,
    zero: T,
    epsilon: T,
    x_row: Seq<T>,
    w: Seq<T>,
    y1: Seq<T>,
    y2: Seq<T>,
)
    requires
        is_functional(ar),
        is_normed_row(ar, zero, epsilon, x_row, w, y1),
        is_normed_row(ar, zero, epsilon, x_row, w, y2),
    ensures
        y1 == y2,
{
    let r1 = choose|rms: T|
        {
            &&& #[trigger] rms_of(ar, zero, epsilon, x_row, rms)
            &&& y1.len() == x_row.len()
            &&& forall|l: int|
                0 <= l < x_row.len() ==> scaled_of(ar, w[l], x_row[l], rms, #[trigger] y1[l])
        };
    let r2 = choose|rms: T|
        {
            &&& #[trigger] rms_of(ar, zero, epsilon, x_row, rms)
            &&& y2.len() == x_row.len()
            &&& forall|l: int|
                0 <= l < x_row.len() ==> scaled_of(ar, w[l], x_row[l], rms, #[trigger] y2[l])
        };
    lemma_rms_of_one_value(ar, zero, epsilon, x_row, r1, r2);
    assert forall|l: int| 0 <= l < x_row.len() implies y1[l] == y2[l] by {
        assert(scaled_of(ar, w[l], x_row[l], r1, y1[l]));
        assert(scaled_of(ar, w[l], x_row[l], r1, y2[l]));
        let p1 = choose|p: T| #[trigger] mul_gives(ar, w[l], x_row[l], p) && div_gives(ar, p, r1, y1[l]);
        let p2 = choose|p: T| #[trigger] mul_gives(ar, w[l], x_row[l], p) && div_gives(ar, p, r1, y2[l]);
        assert(p1 == p2);
    }
    assert(y1 =~= y2);
}

/// With functional arithmetic, `rms_norm` has one result on `rows` rows.
pub proof fn lemma_rms_normed_one_value<T, A: Arith<T>>(
    ar: &A,
    epsilon: T,
    x: Seq<T>,
    w: Seq<T>,
    y1: Seq<T>,
    y2: Seq<T>,
    rows: int,
)
    requires
        is_functional(ar),
        0 <= rows,
        x.len() == rows * w.len(),
        is_rms_normed(ar, epsilon, x, w, y1),
        is_rms_normed(ar, epsilon, x, w, y2),
    ensures
        y1 == y2,
{
    let width = w.len() as int;
    if width == 0 {
        assert(x.len() == 0) by (nonlinear_arith)
            requires
                x.len() == rows * width,
                width == 0,
        ;
        assert(y1 =~= y2);
    } else {
        let z1 = choose|zero: T|
            #[trigger] zero_gives(ar, zero) && forall|i: int|
                0 <= i && 0 < w.len() && i * w.len() + w.len() <= x.len()
                    ==> #[trigger] is_normed_row(
                    ar,
                    zero,
                    epsilon,
                    row_of(x, w.len() as int, i),
                    w,
                    row_of(y1, w.len() as int, i),
                );
        let z2 = choose|zero: T|
            #[trigger] zero_gives(ar, zero) && forall|i: int|
                0 <= i && 0 < w.len() && i * w.len() + w.len() <= x.len()
                    ==> #[trigger] is_normed_row(
                    ar,
                    zero,
                    epsilon,
                    row_of(x, w.len() as int, i),
                    w,
                    row_of(y2, w.len() as int, i),
                );
        assert(z1 == z2);
        assert forall|i: int| 0 <= i < rows implies #[trigger] row_of(y1, width, i) == row_of(
            y2,
            width,
            i,
        ) by {
            lemma_row_in_bounds(i, rows, width);
            assert(is_normed_row(ar, z1, epsilon, row_of(x, width, i), w, row_of(y1, width, i)));
            assert(is_normed_row(ar, z1, epsilon, row_of(x, width, i), w, row_of(y2, width, i)));
            lemma_normed_row_one_value(
                ar,
                z1,
                epsilon,
                row_of(x, width, i),
                w,
                row_of(y1, width, i),
                row_of(y2, width, i),
            );
        }
        lemma_equal_rows(y1, y2, rows, width);
    }
}

} // verus!
