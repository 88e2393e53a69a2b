//! The matrix product against a transposed matrix, and the projections built
//! on it.

use crate::arith::{
    add_gives, dot_of, inner_product, is_functional, lemma_dot_of_one_value, mul_gives, one_gives,
    zero_gives, Arith,
};
use crate::error::InferError;
use crate::layout::{
    filled, lemma_cell_of_index, lemma_cell_order, lemma_row_in_bounds, lemma_shape_size_2,
    row_of, shape2,
};
use crate::tensor::Tensor;
use vstd::prelude::*;

verus! {

/// The three shapes fit `c := beta * c + alpha * a @ b^T`: `a` is
/// `[rows, inner]`, `b` is `[cols, inner]` and `c` is `[rows, cols]`.
pub open spec fn matmul_shapes(c: Seq<usize>, a: Seq<usize>, b: Seq<usize>) -> bool {
    &&& a.len() == 2 && b.len() == 2 && c.len() == 2
    &&& a[1] == b[1]
    &&& c[0] == a[0]
    &&& c[1] == b[0]
}

/// `after` is a value of `beta * before + alpha * dot(a_row, b_row)`.
pub open spec fn matmul_entry<T, A: Arith<T>>(
    ar: &A,
    zero: T,
    beta: T,
    alpha: T,
    before: T,
    a_row: Seq<T>,
    b_row: Seq<T>,
    after: T,
) -> bool {
    exists|sum: T, kept: T, added: T|
        #![trigger mul_gives(ar, beta, before, kept), mul_gives(ar, alpha, sum, added)]
        {
            &&& dot_of(ar, a_row, b_row, zero, sum)
            &&& mul_gives(ar, beta, before, kept)
            &&& mul_gives(ar, alpha, sum, added)
            &&& add_gives(ar, kept, added, after)
        }
}

/// Cell `(i, j)` of the result is the matrix product's entry for row `i` of
/// `a` and row `j` of `b`, on top of what the cell held.
pub open spec fn is_matmul_cell<T, A: Arith<T>>(
    ar: &A,
    zero: T,
    beta: T,
    alpha: T,
    before: Seq<T>,
    a: Seq<T>,
    b: Seq<T>,
    after: Seq<T>,
    cols: int,
    inner: int,
    i: int,
    j: int,
) -> bool {
    matmul_entry(
        ar,
        zero,
        beta,
        alpha,
        before[i * cols + j],
        row_of(a, inner, i),
        row_of(b, inner, j),
        after[i * cols + j],
    )
}

/// `after` is `beta * before + alpha * a @ b^T`, where `a` has `rows` rows,
/// `b` has `cols` rows, and both have `inner` columns.
pub open spec fn is_matmul<T, A: Arith<T>>(
    ar: &A,
    beta: T,
    alpha: T,
    before: Seq<T>,
    a: Seq<T>,
    b: Seq<T>,
    after: Seq<T>,
    rows: int,
    cols: int,
    inner: int,
) -> bool {
    &&& after.len() == before.len()
    &&& exists|zero: T|
        #[trigger] zero_gives(ar, zero) && forall|i: int, j: int|
            0 <= i < rows && 0 <= j < cols ==> #[trigger] is_matmul_cell(
                ar,
                zero,
                beta,
                alpha,
                before,
                a,
                b,
                after,
                cols,
                inner,
                i,
                j,
            )
}

/// `c := beta * c + alpha * a @ b^T`, with `b` read row by row so that no
/// transpose is built.
///
/// Refused, with `c` untouched, where the shapes do not fit.
pub fn matmul_transb<T: Copy, A: Arith<T>>(
    ar: &A,
    c: &mut Tensor<T>,
    beta: T,
    a: &Tensor<T>,
    b: &Tensor<T>,
    alpha: T,
) -> (r: Result<(), InferError>)
    ensures
        r is Ok <==> matmul_shapes(old(c).dims(), a.dims(), b.dims()),
        r is Err ==> r == Err::<(), InferError>(InferError::ShapeMismatch) && final(c)@ == old(
            c,
        )@,
        final(c).dims() == old(c).dims(),
        r is Ok ==> is_matmul(
            ar,
            beta,
            alpha,
            old(c)@,
            a@,
            b@,
            final(c)@,
            a.dims()[0] as int,
            b.dims()[0] as int,
            a.dims()[1] as int,
        ),
{
    let a_shape = a.shape();
    let b_shape = b.shape();
    let c_shape = c.shape();
    if a_shape.len() != 2 || b_shape.len() != 2 || c_shape.len() != 2 {
        return Err(InferError::ShapeMismatch);
    }
    let rows = a_shape[0];
    let inner = a_shape[1];
    let cols = b_shape[0];
    if b_shape[1] != inner || c_shape[0] != rows || c_shape[1] != cols {
        return Err(InferError::ShapeMismatch);
    }
    proof {
        lemma_shape_size_2(a.dims());
        lemma_shape_size_2(b.dims());
        lemma_shape_size_2(c.dims());
    }
    let a_data = a.data();
    let b_data = b.data();
    let mut out = c.to_vec();
    let zero = ar.zero();
    let a_len = a_data.len();
    let b_len = b_data.len();
    let c_len = out.len();
    assert(rows * inner == a_len && cols * inner == b_len && rows * cols == c_len);
    let mut i: usize = 0;
    while i < rows
        invariant
            0 <= i <= rows,
            rows * inner <= usize::MAX,
            cols * inner <= usize::MAX,
            rows * cols <= usize::MAX,
            a_data@ == a@,
            b_data@ == b@,
            a_data@.len() == rows * inner,
            b_data@.len() == cols * inner,
            out@.len() == rows * cols,
            old(c)@.len() == rows * cols,
            forall|p: int| i * cols <= p < rows * cols ==> out@[p] == old(c)@[p],
            forall|i2: int, j2: int|
                0 <= i2 < i && 0 <= j2 < cols ==> #[trigger] is_matmul_cell(
                    ar,
                    zero,
                    beta,
                    alpha,
                    old(c)@,
                    a@,
                    b@,
                    out@,
                    cols as int,
                    inner as int,
                    i2,
                    j2,
                ),
        decreases rows - i,
    {
        proof {
            lemma_row_in_bounds(i as int, rows as int, inner as int);
            lemma_row_in_bounds(i as int, rows as int, cols as int);
        }
        let a_row = &a_data[i * inner..i * inner + inner];
        let mut j: usize = 0;
        while j < cols
            invariant
                0 <= i < rows,
                0 <= j <= cols,
                rows * inner <= usize::MAX,
                cols * inner <= usize::MAX,
                rows * cols <= usize::MAX,
                a_data@ == a@,
                b_data@ == b@,
                a_data@.len() == rows * inner,
                b_data@.len() == cols * inner,
                out@.len() == rows * cols,
                old(c)@.len() == rows * cols,
                i * cols + cols <= rows * cols,
                0 <= i * cols,
                a_row@ == row_of(a@, inner as int, i as int),
                a_row@.len() == inner,
                forall|p: int| i * cols + j <= p < rows * cols ==> out@[p] == old(c)@[p],
                forall|i2: int, j2: int|
                    (0 <= i2 < i && 0 <= j2 < cols) || (i2 == i && 0 <= j2 < j)
                        ==> #[trigger] is_matmul_cell(
                        ar,
                        zero,
                        beta,
                        alpha,
                        old(c)@,
                        a@,
                        b@,
                        out@,
                        cols as int,
                        inner as int,
                        i2,
                        j2,
                    ),
            decreases cols - j,
        {
            proof {
                lemma_row_in_bounds(j as int, cols as int, inner as int);
            }
            let b_row = &b_data[j * inner..j * inner + inner];
            let sum = inner_product(ar, a_row, b_row, zero);
            let at = i * cols + j;
            let before = out[at];
            let kept = ar.mul(beta, before);
            let added = ar.mul(alpha, sum);
            let after = ar.add(kept, added);
            let ghost earlier = out@;
            out.set(at, after);
            proof {
                assert(dot_of(ar, row_of(a@, inner as int, i as int), row_of(b@, inner as int, j as int), zero, sum));
                assert(mul_gives(ar, beta, before, kept) && mul_gives(ar, alpha, sum, added)
                    && add_gives(ar, kept, added, after));
                assert(is_matmul_cell(
                    ar,
                    zero,
                    beta,
                    alpha,
                    old(c)@,
                    a@,
                    b@,
                    out@,
                    cols as int,
                    inner as int,
                    i as int,
                    j as int,
                ));
                assert forall|i2: int, j2: int|
                    (0 <= i2 < i && 0 <= j2 < cols) || (i2 == i && 0 <= j2 < j)
                        implies #[trigger] is_matmul_cell(
                    ar,
                    zero,
                    beta,
                    alpha,
                    old(c)@,
                    a@,
                    b@,
                    out@,
                    cols as int,
                    inner as int,
                    i2,
                    j2,
                ) by {
                    lemma_cell_order(i2, j2, i as int, j as int, cols as int);
                    assert(is_matmul_cell(
                        ar,
                        zero,
                        beta,
                        alpha,
                        old(c)@,
                        a@,
                        b@,
                        earlier,
                        cols as int,
                        inner as int,
                        i2,
                        j2,
                    ));
                    assert(out@[i2 * cols + j2] == earlier[i2 * cols + j2]);
                }
            }
            j += 1;
        }
        assert((i + 1) * cols == i * cols + cols) by (nonlinear_arith);
        i += 1;
    }
    c.store(out);
    assert(zero_gives(ar, zero));
    Ok(())
}

/// `y` is `alpha * x @ w^T`, computed on top of a matrix of zeros, where `x`
/// has `rows` rows, `w` has `cols` rows, and both have `inner` columns.
pub open spec fn is_projection<T, A: Arith<T>>(
    ar: &A,
    alpha: T,
    x: Seq<T>,
    w: Seq<T>,
    y: Seq<T>,
    rows: int,
    cols: int,
    inner: int,
) -> bool {
    exists|zero: T, blank: Seq<T>|
        #![trigger is_matmul(ar, zero, alpha, blank, x, w, y, rows, cols, inner)]
        {
            &&& zero_gives(ar, zero)
            &&& blank.len() == rows * cols
            &&& forall|i: int| 0 <= i < blank.len() ==> blank[i] == zero
            &&& is_matmul(ar, zero, alpha, blank, x, w, y, rows, cols, inner)
        }
}

/// What `project` asks of two shapes: both are matrices with the same number
/// of columns, and the result fits the machine.
pub open spec fn projection_fits(x: Seq<usize>, w: Seq<usize>) -> bool {
    &&& x.len() == 2 && w.len() == 2
    &&& x[1] == w[1]
    &&& x[0] * w[0] <= usize::MAX
}

/// The projection `alpha * x @ w^T` as a new matrix, by `matmul_transb` on
/// top of zeros.
///
/// Refused where the shapes do not fit.
pub fn project<T: Copy, A: Arith<T>>(ar: &A, alpha: T, x: &Tensor<T>, w: &Tensor<T>) -> (r: Result<
    Tensor<T>,
    InferError,
>)
    ensures
        r is Ok <==> projection_fits(x.dims(), w.dims()),
        r is Err ==> r matches Err(InferError::ShapeMismatch),
        r matches Ok(y) ==> y.dims() == seq![x.dims()[0], w.dims()[0]] && is_projection(
            ar,
            alpha,
            x@,
            w@,
            y@,
            x.dims()[0] as int,
            w.dims()[0] as int,
            x.dims()[1] as int,
        ),
{
    let x_shape = x.shape();
    let w_shape = w.shape();
    if x_shape.len() != 2 || w_shape.len() != 2 || x_shape[1] != w_shape[1] {
        return Err(InferError::ShapeMismatch);
    }
    let rows = x_shape[0];
    let cols = w_shape[0];
    let size = match rows.checked_mul(cols) {
        Some(n) => n,
        None => {
            return Err(InferError::ShapeMismatch);
        },
    };
    let zero = ar.zero();
    let mut y = Tensor::new(filled(zero, size), &shape2(rows, cols));
    let ghost blank = y@;
    match matmul_transb(ar, &mut y, zero, x, w, alpha) {
        Ok(()) => {
            assert(zero_gives(ar, zero) && is_matmul(
                ar,
                zero,
                alpha,
                blank,
                x@,
                w@,
                y@,
                rows as int,
                cols as int,
                x.dims()[1] as int,
            ));
            Ok(y)
        },
        Err(e) => Err(e),
    }
}

/// `after` is `before + x @ w^T`: the projection added to what was there.
pub open spec fn is_residual<T, A: Arith<T>>(
    ar: &A,
    before: Seq<T>,
    x: Seq<T>,
    w: Seq<T>,
    after: Seq<T>,
    rows: int,
    cols: int,
    inner: int,
) -> bool {
    exists|one: T|
        #![trigger is_matmul(ar, one, one, before, x, w, after, rows, cols, inner)]
        one_gives(ar, one) && is_matmul(ar, one, one, before, x, w, after, rows, cols, inner)
}

/// Adds the projection `x @ w^T` to `c`, by `matmul_transb` with both
/// factors one.
///
/// Refused, with `c` untouched, where the shapes do not fit.
pub fn add_projection<T: Copy, A: Arith<T>>(
    ar: &A,
    c: &mut Tensor<T>,
    x: &Tensor<T>,
    w: &Tensor<T>,
) -> (r: Result<(), InferError>)
    ensures
        r is Ok <==> matmul_shapes(old(c).dims(), x.dims(), w.dims()),
        r is Err ==> r == Err::<(), InferError>(InferError::ShapeMismatch) && final(c)@ == old(
            c,
        )@,
        final(c).dims() == old(c).dims(),
        r is Ok ==> is_residual(
            ar,
            old(c)@,
            x@,
            w@,
            final(c)@,
            x.dims()[0] as int,
            w.dims()[0] as int,
            x.dims()[1] as int,
        ),
{
    let one = ar.one();
    let r = matmul_transb(ar, c, one, x, w, one);
    proof {
        if r is Ok {
            assert(one_gives(ar, one) && is_matmul(
                ar,
                one,
                one,
                old(c)@,
                x@,
                w@,
                c@,
                x.dims()[0] as int,
                w.dims()[0] as int,
                x.dims()[1] as int,
            ));
        }
    }
    r
}

/// With functional arithmetic, an entry of the matrix product has one value.
pub proof fn lemma_matmul_entry_one_value<T, A: Arith<T>>(
    ar: &A,
    zero: T,
    beta: T,
    alpha: T,
    before: T,
    a_row: Seq<T>,
    b_row: Seq<T>,
    r1: T,
    r2: T,
)
    requires
        is_functional(ar),
        matmul_entry(ar, zero, beta, alpha, before, a_row, b_row, r1),
        matmul_entry(ar, zero, beta, alpha, before, a_row, b_row, r2),
    ensures
        r1 == r2,
{
    let (s1, k1, d1) = choose|sum: T, kept: T, added: T|
        #![trigger mul_gives(ar, beta, before, kept), mul_gives(ar, alpha, sum, added)]
        {
            &&& dot_of(ar, a_row, b_row, zero, sum)
            &&& mul_gives(ar, beta, before, kept)
            &&& mul_gives(ar, alpha, sum, added)
            &&& add_gives(ar, kept, added, r1)
        };
    let (s2, k2, d2) = choose|sum: T, kept: T, added: T|
        #![trigger mul_gives(ar, beta, before, kept), mul_gives(ar, alpha, sum, added)]
        {
            &&& dot_of(ar, a_row, b_row, zero, sum)
            &&& mul_gives(ar, beta, before, kept)
            &&& mul_gives(ar, alpha, sum, added)
            &&& add_gives(ar, kept, added, r2)
        };
    lemma_dot_of_one_value(ar, a_row, b_row, zero, s1, s2);
    assert(k1 == k2);
    assert(d1 == d2);
}

/// With functional arithmetic, `matmul_transb` has one result.
pub proof fn lemma_matmul_one_value<T, A: Arith<T>>(
    ar: &A,
    beta: T,
    alpha: T,
    before: Seq<T>,
    a: Seq<T>,
    b: Seq<T>,
    c1: Seq<T>,
    c2: Seq<T>,
    rows: int,
    cols: int,
    inner: int,
)
    requires
        is_functional(ar),
        0 <= rows,
        0 <= cols,
        before.len() == rows * cols,
        is_matmul(ar, beta, alpha, before, a, b, c1, rows, cols, inner),
        is_matmul(ar, beta, alpha, before, a, b, c2, rows, cols, inner),
    ensures
        c1 == c2,
{
    let z1 = choose|zero: T|
        #[trigger] zero_gives(ar, zero) && forall|i: int, j: int|
            0 <= i < rows && 0 <= j < cols ==> #[trigger] is_matmul_cell(
                ar,
                zero,
                beta,
                alpha,
                before,
                a,
                b,
                c1,
                cols,
                inner,
                i,
                j,
            );
    let z2 = choose|zero: T|
        #[trigger] zero_gives(ar, zero) && forall|i: int, j: int|
            0 <= i < rows && 0 <= j < cols ==> #[trigger] is_matmul_cell(
                ar,
                zero,
                beta,
                alpha,
                before,
                a,
                b,
                c2,
                cols,
                inner,
                i,
                j,
            );
    assert(z1 == z2);
    assert forall|p: int| 0 <= p < before.len() implies c1[p] == c2[p] by {
        let (i, j) = lemma_cell_of_index(p, rows, cols);
        assert(is_matmul_cell(ar, z1, beta, alpha, before, a, b, c1, cols, inner, i, j));
        assert(is_matmul_cell(ar, z1, beta, alpha, before, a, b, c2, cols, inner, i, j));
        lemma_matmul_entry_one_value(
            ar,
            z1,
            beta,
            alpha,
            before[p],
            row_of(a, inner, i),
            row_of(b, inner, j),
            c1[p],
            c2[p],
        );
    }
    assert(c1 =~= c2);
}

/// A projection has as many elements as its rows and columns ask for.
pub proof fn lemma_projection_len<T, A: Arith<T>>(
    ar: &A,
    alpha: T,
    x: Seq<T>,
    w: Seq<T>,
    y: Seq<T>,
    rows: int,
    cols: int,
    inner: int,
)
    requires
        is_projection(ar, alpha, x, w, y, rows, cols, inner),
    ensures
        y.len() == rows * cols,
{
    let (zero, blank) = choose|zero: T, blank: Seq<T>|
        #![trigger is_matmul(ar, zero, alpha, blank, x, w, y, rows, cols, inner)]
        {
            &&& zero_gives(ar, zero)
            &&& blank.len() == rows * cols
            &&& forall|i: int| 0 <= i < blank.len() ==> blank[i] == zero
            &&& is_matmul(ar, zero, alpha, blank, x, w, y, rows, cols, inner)
        };
}

/// Adding a projection keeps the number of elements.
pub proof fn lemma_residual_len<T, A: Arith<T>>(
    ar: &A,
    before: Seq<T>,
    x: Seq<T>,
    w: Seq<T>,
    after: Seq<T>,
    rows: int,
    cols: int,
    inner: int,
)
    requires
        is_residual(ar, before, x, w, after, rows, cols, inner),
    ensures
        after.len() == before.len(),
{
    let one = choose|one: T|
        #![trigger is_matmul(ar, one, one, before, x, w, after, rows, cols, inner)]
        one_gives(ar, one) && is_matmul(ar, one, one, before, x, w, after, rows, cols, inner);
}

/// With functional arithmetic, `project` has one result.
pub proof fn lemma_projection_one_value<T, A: Arith<T>>(
    ar: &A,
    alpha: T,
    x: Seq<T>,
    w: Seq<T>,
    y1: Seq<T>,
    y2: Seq<T>,
    rows: int,
    cols: int,
    inner: int,
)
    requires
        is_functional(ar),
        0 <= rows,
        0 <= cols,
        is_projection(ar, alpha, x, w, y1, rows, cols, inner),
        is_projection(ar, alpha, x, w, y2, rows, cols, inner),
    ensures
        y1 == y2,
{
    let (z1, b1) = choose|zero: T, blank: Seq<T>|
        #![trigger is_matmul(ar, zero, alpha, blank, x, w, y1, rows, cols, inner)]
        {
            &&& zero_gives(ar, zero)
            &&& blank.len() == rows * cols
            &&& forall|i: int| 0 <= i < blank.len() ==> blank[i] == zero
            &&& is_matmul(ar, zero, alpha, blank, x, w, y1, rows, cols, inner)
        };
    let (z2, b2) = choose|zero: T, blank: Seq<T>|
        #![trigger is_matmul(ar, zero, alpha, blank, x, w, y2, rows, cols, inner)]
        {
            &&& zero_gives(ar, zero)
            &&& blank.len() == rows * cols
            &&& forall|i: int| 0 <= i < blank.len() ==> blank[i] == zero
            &&& is_matmul(ar, zero, alpha, blank, x, w, y2, rows, cols, inner)
        };
    assert(z1 == z2);
    assert(b1 =~= b2);
    lemma_matmul_one_value(ar, z1, alpha, b1, x, w, y1, y2, rows, cols, inner);
}

/// With functional arithmetic, `add_projection` has one result.
pub proof fn lemma_residual_one_value<T, A: Arith<T>>(
    ar: &A,
    before: Seq<T>,
    x: Seq<T>,
    w: Seq<T>,
    c1: Seq<T>,
    c2: Seq<T>,
    rows: int,
    cols: int,
    inner: int,
)
    requires
        is_functional(ar),
        0 <= rows,
        0 <= cols,
        before.len() == rows * cols,
        is_residual(ar, before, x, w, c1, rows, cols, inner),
        is_residual(ar, before, x, w, c2, rows, cols, inner),
    ensures
        c1 == c2,
{
    let one1 = choose|one: T|
        #![trigger is_matmul(ar, one, one, before, x, w, c1, rows, cols, inner)]
        one_gives(ar, one) && is_matmul(ar, one, one, before, x, w, c1, rows, cols, inner);
    let one2 = choose|one: T|
        #![trigger is_matmul(ar, one, one, before, x, w, c2, rows, cols, inner)]
        one_gives(ar, one) && is_matmul(ar, one, one, before, x, w, c2, rows, cols, inner);
    assert(one1 == one2);
    lemma_matmul_one_value(ar, one1, one1, before, x, w, c1, c2, rows, cols, inner);
}

} // verus!
