//! Row-major layout: rows of matrices, vectors of heads, and the index
//! arithmetic that the kernels share.

use crate::tensor::shape_size;
use vstd::arithmetic::div_mod::{
    lemma_div_pos_is_pos, lemma_fundamental_div_mod, lemma_mod_pos_bound, lemma_multiply_divide_lt,
};
use vstd::prelude::*;

verus! {

/// Row `i` of a row-major matrix with `width` columns.
pub open spec fn row_of<T>(m: Seq<T>, width: int, i: int) -> Seq<T> {
    m.subrange(i * width, i * width + width)
}

/// Row `i` of a matrix with `rows` rows lies inside the matrix.
pub proof fn lemma_row_in_bounds(i: int, rows: int, width: int)
    requires
        0 <= i < rows,
        0 <= width,
    ensures
        0 <= i * width,
        i * width + width <= rows * width,
{
    assert(0 <= i * width && i * width + width <= rows * width) by (nonlinear_arith)
        requires
            0 <= i < rows,
            0 <= width,
    ;
}

/// A cell that comes earlier in row-major order has the smaller flat index.
pub proof fn lemma_cell_order(i: int, j: int, i2: int, j2: int, width: int)
    requires
        0 <= i,
        0 <= j < width,
        0 <= i2,
        0 <= j2 < width,
        i < i2 || (i == i2 && j < j2),
    ensures
        i * width + j < i2 * width + j2,
{
    assert(i * width + j < i2 * width + j2) by (nonlinear_arith)
        requires
            0 <= i,
            0 <= j < width,
            0 <= i2,
            0 <= j2 < width,
            i < i2 || (i == i2 && j < j2),
    ;
}

/// The size of a shape of two dimensions.
pub proof fn lemma_shape_size_2(dims: Seq<usize>)
    requires
        dims.len() == 2,
    ensures
        shape_size(dims) == dims[0] * dims[1],
{
    reveal_with_fuel(shape_size, 3);
    assert(dims.drop_last().drop_last().len() == 0);
    assert(shape_size(dims) == 1 * (dims[0] as nat) * (dims[1] as nat));
    assert(1 * (dims[0] as nat) * (dims[1] as nat) == dims[0] * dims[1]) by (nonlinear_arith);
}

/// The size of a shape of three dimensions.
pub proof fn lemma_shape_size_3(dims: Seq<usize>)
    requires
        dims.len() == 3,
    ensures
        shape_size(dims) == dims[0] * dims[1] * dims[2],
{
    lemma_shape_size_2(dims.drop_last());
}

/// Appends the elements of `row` to `out`.
pub fn append_row<T: Copy>(out: &mut Vec<T>, row: &[T])
    ensures
        final(out)@ == old(out)@ + row@,
{
    let mut i: usize = 0;
    while i < row.len()
        invariant
            0 <= i <= row.len(),
            out@ == old(out)@ + row@.take(i as int),
        decreases row.len() - i,
    {
        out.push(row[i]);
        assert(row@.take(i + 1) =~= row@.take(i as int).push(row@[i as int]));
        assert(out@ =~= old(out)@ + row@.take(i + 1));
        i += 1;
    }
    assert(row@.take(row@.len() as int) =~= row@);
}

/// Appending one row to a matrix of `i` rows leaves those rows as they are
/// and makes the new one row `i`.
pub proof fn lemma_rows_after_append<T>(m: Seq<T>, row: Seq<T>, width: int, i: int)
    requires
        0 <= i,
        0 <= width,
        m.len() == i * width,
        row.len() == width,
    ensures
        row_of(m + row, width, i) == row,
        forall|i2: int| 0 <= i2 < i ==> #[trigger] row_of(m + row, width, i2) == row_of(m, width, i2),
{
    assert(row_of(m + row, width, i) =~= row);
    assert forall|i2: int| 0 <= i2 < i implies #[trigger] row_of(m + row, width, i2) == row_of(
        m,
        width,
        i2,
    ) by {
        lemma_row_in_bounds(i2, i, width);
        assert(row_of(m + row, width, i2) =~= row_of(m, width, i2));
    }
}

/// The number of rows of a matrix of `rows * width` elements.
pub proof fn lemma_row_count(len: int, rows: int, width: int)
    requires
        0 <= rows,
        0 < width,
        len == rows * width,
    ensures
        len / width == rows,
{
    assert(len / width == rows) by (nonlinear_arith)
        requires
            0 <= rows,
            0 < width,
            len == rows * width,
    ;
}

/// A vector of `n` elements, each of them `value`.
pub fn filled<T: Copy>(value: T, n: usize) -> (r: Vec<T>)
    ensures
        r@.len() == n,
        forall|i: int| 0 <= i < n ==> r@[i] == value,
{
    let mut out: Vec<T> = Vec::with_capacity(n);
    let mut i: usize = 0;
    while i < n
        invariant
            0 <= i <= n,
            out@.len() == i,
            forall|k: int| 0 <= k < i ==> out@[k] == value,
        decreases n - i,
    {
        out.push(value);
        i += 1;
    }
    out
}

/// A shape of one dimension.
pub fn shape1(n: usize) -> (r: Vec<usize>)
    ensures
        r@ == seq![n],
        shape_size(r@) == n,
{
    let mut shape: Vec<usize> = Vec::with_capacity(1);
    shape.push(n);
    proof {
        assert(shape@ =~= seq![n]);
        reveal_with_fuel(shape_size, 2);
        assert(shape@.drop_last() =~= Seq::<usize>::empty());
        assert(shape_size(shape@.drop_last()) == 1);
        assert(shape_size(shape@) == 1 * (n as nat));
    }
    shape
}

/// A shape of two dimensions.
pub fn shape2(rows: usize, cols: usize) -> (r: Vec<usize>)
    ensures
        r@ == seq![rows, cols],
        shape_size(r@) == rows * cols,
{
    let mut shape: Vec<usize> = Vec::with_capacity(2);
    shape.push(rows);
    shape.push(cols);
    proof {
        assert(shape@ =~= seq![rows, cols]);
        lemma_shape_size_2(shape@);
    }
    shape
}

/// A shape of three dimensions.
pub fn shape3(a: usize, b: usize, c: usize) -> (r: Vec<usize>)
    ensures
        r@ == seq![a, b, c],
        shape_size(r@) == a * b * c,
{
    let mut shape: Vec<usize> = Vec::with_capacity(3);
    shape.push(a);
    shape.push(b);
    shape.push(c);
    proof {
        assert(shape@ =~= seq![a, b, c]);
        lemma_shape_size_3(shape@);
    }
    shape
}

/// `out` holds the vectors of one head: `x` is a row of `heads` vectors of
/// `dh` elements for each of `len` positions, and row `t` of `out` is the
/// vector of head `head` at position `t`.
pub open spec fn is_head_rows<T>(
    x: Seq<T>,
    heads: int,
    dh: int,
    head: int,
    len: int,
    out: Seq<T>,
) -> bool {
    &&& out.len() == len * dh
    &&& forall|t: int|
        0 <= t < len ==> #[trigger] row_of(out, dh, t) == row_of(x, dh, t * heads + head)
}

/// Copies the vectors of one head out of `x`.
pub fn head_rows<T: Copy>(x: &[T], len: usize, heads: usize, dh: usize, head: usize) -> (r: Vec<T>)
    requires
        head < heads,
        x@.len() == len * heads * dh,
    ensures
        is_head_rows(x@, heads as int, dh as int, head as int, len as int, r@),
{
    let mut out: Vec<T> = Vec::new();
    if dh == 0 {
        proof {
            assert(len * 0 == 0) by (nonlinear_arith);
            assert forall|t: int| 0 <= t < len implies #[trigger] row_of(out@, 0, t) == row_of(
                x@,
                0,
                t * heads + head,
            ) by {
                assert(t * 0 == 0 && (t * heads + head) * 0 == 0) by (nonlinear_arith);
                assert(row_of(out@, 0, t) =~= row_of(x@, 0, t * heads + head));
            }
        }
        return out;
    }
    let _room = x.len();
    let mut t: usize = 0;
    assert(0 * dh == 0) by (nonlinear_arith);
    while t < len
        invariant
            0 <= t <= len,
            head < heads,
            dh >= 1,
            x@.len() == len * heads * dh,
            len * heads * dh <= usize::MAX,
            out@.len() == t * dh,
            forall|k: int|
                0 <= k < t ==> #[trigger] row_of(out@, dh as int, k) == row_of(
                    x@,
                    dh as int,
                    k * heads + head,
                ),
        decreases len - t,
    {
        proof {
            assert(t * heads + head < len * heads) by (nonlinear_arith)
                requires
                    0 <= t < len,
                    0 <= head < heads,
            ;
            lemma_row_in_bounds(t * heads + head, len * heads, dh as int);
            assert(t * heads + head <= (t * heads + head) * dh) by (nonlinear_arith)
                requires
                    dh >= 1,
                    t * heads + head >= 0,
            ;
            assert(t * heads <= t * heads + head);
        }
        let v = t * heads + head;
        let ghost before = out@;
        append_row(&mut out, &x[v * dh..v * dh + dh]);
        proof {
            lemma_rows_after_append(before, row_of(x@, dh as int, v as int), dh as int, t as int);
            assert((t + 1) * dh == t * dh + dh) by (nonlinear_arith);
        }
        t += 1;
    }
    out
}

/// `out` is the matrix `m` of `rows` rows and `cols` columns, turned over:
/// its row `j` is column `j` of `m`.
pub open spec fn is_transposed<T>(m: Seq<T>, rows: int, cols: int, out: Seq<T>) -> bool {
    &&& out.len() == rows * cols
    &&& forall|j: int, i: int|
        0 <= j < cols && 0 <= i < rows ==> #[trigger] out[j * rows + i] == m[i * cols + j]
}

/// The transpose of a matrix.
pub fn transpose<T: Copy>(m: &[T], rows: usize, cols: usize) -> (r: Vec<T>)
    requires
        m@.len() == rows * cols,
    ensures
        is_transposed(m@, rows as int, cols as int, r@),
{
    let size = m.len();
    let mut out: Vec<T> = Vec::with_capacity(size);
    let mut j: usize = 0;
    assert(0 * rows == 0) by (nonlinear_arith);
    while j < cols
        invariant
            0 <= j <= cols,
            m@.len() == rows * cols,
            rows * cols <= usize::MAX,
            out@.len() == j * rows,
            forall|j2: int, i2: int|
                0 <= j2 < j && 0 <= i2 < rows ==> #[trigger] out@[j2 * rows + i2] == m@[i2 * cols
                    + j2],
        decreases cols - j,
    {
        let mut i: usize = 0;
        while i < rows
            invariant
                0 <= j < cols,
                0 <= i <= rows,
                m@.len() == rows * cols,
                rows * cols <= usize::MAX,
                out@.len() == j * rows + i,
                forall|j2: int, i2: int|
                    (0 <= j2 < j && 0 <= i2 < rows) || (j2 == j && 0 <= i2 < i)
                        ==> #[trigger] out@[j2 * rows + i2] == m@[i2 * cols + j2],
            decreases rows - i,
        {
            proof {
                lemma_cell_order(i as int, j as int, rows as int, 0, cols as int + 1);
                assert(i * cols + j < rows * cols) by (nonlinear_arith)
                    requires
                        0 <= i < rows,
                        0 <= j < cols,
                ;
            }
            let ghost before = out@;
            out.push(m[i * cols + j]);
            proof {
                assert forall|j2: int, i2: int|
                    (0 <= j2 < j && 0 <= i2 < rows) || (j2 == j && 0 <= i2 < i + 1)
                        implies #[trigger] out@[j2 * rows + i2] == m@[i2 * cols + j2] by {
                    if j2 == j && i2 == i {
                    } else {
                        lemma_cell_order(j2, i2, j as int, i as int, rows as int);
                        assert(out@[j2 * rows + i2] == before[j2 * rows + i2]);
                    }
                }
            }
            i += 1;
        }
        assert((j + 1) * rows == j * rows + rows) by (nonlinear_arith);
        j += 1;
    }
    assert(cols * rows == rows * cols) by (nonlinear_arith);
    out
}

/// Puts the vectors of all heads side by side: `outs[h]` holds one vector of
/// `dh` elements for each of `len` positions, and the result holds, for each
/// position, the vectors of all heads in order.
pub fn interleave<T: Copy>(outs: &Vec<Vec<T>>, len: usize, heads: usize, dh: usize) -> (r: Vec<T>)
    requires
        outs@.len() == heads,
        len * heads * dh <= usize::MAX,
        forall|h: int| 0 <= h < heads ==> (#[trigger] outs@[h])@.len() == len * dh,
    ensures
        r@.len() == len * heads * dh,
        forall|h: int|
            0 <= h < heads ==> is_head_rows(
                r@,
                heads as int,
                dh as int,
                h,
                len as int,
                (#[trigger] outs@[h])@,
            ),
{
    let mut out: Vec<T> = Vec::new();
    if dh == 0 {
        proof {
            assert(len * heads * 0 == 0 && len * 0 == 0) by (nonlinear_arith);
            assert forall|h: int| 0 <= h < heads implies is_head_rows(
                out@,
                heads as int,
                0,
                h,
                len as int,
                (#[trigger] outs@[h])@,
            ) by {
                assert forall|t2: int| 0 <= t2 < len implies #[trigger] row_of(outs@[h]@, 0, t2)
                    == row_of(out@, 0, t2 * heads + h) by {
                    assert(t2 * 0 == 0 && (t2 * heads + h) * 0 == 0) by (nonlinear_arith);
                    assert(row_of(outs@[h]@, 0, t2) =~= row_of(out@, 0, t2 * heads + h));
                }
            }
        }
        return out;
    }
    let mut t: usize = 0;
    let mut v: usize = 0;
    assert(0 * heads == 0 && 0 * dh == 0) by (nonlinear_arith);
    while t < len
        invariant
            0 <= t <= len,
            dh >= 1,
            outs@.len() == heads,
            len * heads * dh <= usize::MAX,
            forall|h: int| 0 <= h < heads ==> (#[trigger] outs@[h])@.len() == len * dh,
            v == t * heads,
            out@.len() == v * dh,
            forall|t2: int, h2: int|
                0 <= t2 < t && 0 <= h2 < heads ==> #[trigger] row_of(
                    out@,
                    dh as int,
                    t2 * heads + h2,
                ) == row_of(outs@[h2]@, dh as int, t2),
        decreases len - t,
    {
        let mut h: usize = 0;
        while h < heads
            invariant
                0 <= t < len,
                0 <= h <= heads,
                dh >= 1,
                outs@.len() == heads,
                len * heads * dh <= usize::MAX,
                forall|h: int| 0 <= h < heads ==> (#[trigger] outs@[h])@.len() == len * dh,
                v == t * heads + h,
                out@.len() == v * dh,
                forall|t2: int, h2: int|
                    (0 <= t2 < t && 0 <= h2 < heads) || (t2 == t && 0 <= h2 < h)
                        ==> #[trigger] row_of(out@, dh as int, t2 * heads + h2) == row_of(
                        outs@[h2]@,
                        dh as int,
                        t2,
                    ),
            decreases heads - h,
        {
            proof {
                lemma_row_in_bounds(t as int, len as int, dh as int);
                assert(outs@[h as int]@.len() == len * dh);
            }
            let source = outs[h].as_slice();
            let _room = source.len();
            let ghost before = out@;
            append_row(&mut out, &source[t * dh..t * dh + dh]);
            proof {
                lemma_rows_after_append(
                    before,
                    row_of(outs@[h as int]@, dh as int, t as int),
                    dh as int,
                    v as int,
                );
                assert((v + 1) * dh == v * dh + dh) by (nonlinear_arith);
                assert forall|t2: int, h2: int|
                    (0 <= t2 < t && 0 <= h2 < heads) || (t2 == t && 0 <= h2 < h + 1)
                        implies #[trigger] row_of(out@, dh as int, t2 * heads + h2) == row_of(
                    outs@[h2]@,
                    dh as int,
                    t2,
                ) by {
                    if t2 == t && h2 == h {
                    } else {
                        lemma_cell_order(t2, h2, t as int, h as int, heads as int);
                        assert(row_of(out@, dh as int, t2 * heads + h2) == row_of(
                            before,
                            dh as int,
                            t2 * heads + h2,
                        ));
                    }
                }
                assert(v + 1 <= len * heads * dh) by (nonlinear_arith)
                    requires
                        v == t * heads + h,
                        0 <= t < len,
                        0 <= h < heads,
                        dh >= 1,
                ;
            }
            h += 1;
            v += 1;
        }
        assert((t + 1) * heads == t * heads + heads) by (nonlinear_arith);
        t += 1;
    }
    proof {
        assert(v * dh == len * heads * dh) by (nonlinear_arith)
            requires
                v == len * heads,
        ;
        assert forall|h: int| 0 <= h < heads implies is_head_rows(
            out@,
            heads as int,
            dh as int,
            h,
            len as int,
            (#[trigger] outs@[h])@,
        ) by {
            assert forall|t2: int| 0 <= t2 < len implies #[trigger] row_of(
                outs@[h]@,
                dh as int,
                t2,
            ) == row_of(out@, dh as int, t2 * heads + h) by {
                assert(row_of(out@, dh as int, t2 * heads + h) == row_of(outs@[h]@, dh as int, t2));
            }
        }
    }
    out
}

/// Every index of a matrix of `rows` rows and `width` columns is the index of
/// a cell: the row and the column returned.
pub proof fn lemma_cell_of_index(p: int, rows: int, width: int) -> (r: (int, int))
    requires
        0 <= rows,
        0 <= width,
        0 <= p < rows * width,
    ensures
        0 <= r.0 < rows,
        0 <= r.1 < width,
        p == r.0 * width + r.1,
{
    assert(width > 0) by (nonlinear_arith)
        requires
            0 <= rows,
            0 <= width,
            0 <= p < rows * width,
    ;
    lemma_fundamental_div_mod(p, width);
    lemma_mod_pos_bound(p, width);
    lemma_div_pos_is_pos(p, width);
    assert(width * rows == rows * width) by (nonlinear_arith);
    lemma_multiply_divide_lt(p, width, rows);
    assert(width * (p / width) == (p / width) * width) by (nonlinear_arith);
    (p / width, p % width)
}

/// Two matrices of `rows` rows of `width` elements that agree row by row
/// are equal.
pub proof fn lemma_equal_rows<T>(a: Seq<T>, b: Seq<T>, rows: int, width: int)
    requires
        0 <= rows,
        0 <= width,
        a.len() == rows * width,
        b.len() == rows * width,
        forall|i: int| 0 <= i < rows ==> #[trigger] row_of(a, width, i) == row_of(b, width, i),
    ensures
        a == b,
{
    assert forall|p: int| 0 <= p < a.len() implies a[p] == b[p] by {
        let (i, j) = lemma_cell_of_index(p, rows, width);
        lemma_row_in_bounds(i, rows, width);
        assert(row_of(a, width, i) == row_of(b, width, i));
        assert(row_of(a, width, i)[j] == a[p]);
        assert(row_of(b, width, i)[j] == b[p]);
    }
    assert(a =~= b);
}

/// The vectors of one head are one sequence.
pub proof fn lemma_head_rows_one_value<T>(
    x: Seq<T>,
    heads: int,
    dh: int,
    head: int,
    len: int,
    o1: Seq<T>,
    o2: Seq<T>,
)
    requires
        0 <= len,
        0 <= dh,
        is_head_rows(x, heads, dh, head, len, o1),
        is_head_rows(x, heads, dh, head, len, o2),
    ensures
        o1 == o2,
{
    lemma_equal_rows(o1, o2, len, dh);
}

/// A matrix has one transpose.
pub proof fn lemma_transposed_one_value<T>(m: Seq<T>, rows: int, cols: int, o1: Seq<T>, o2: Seq<T>)
    requires
        0 <= rows,
        0 <= cols,
        is_transposed(m, rows, cols, o1),
        is_transposed(m, rows, cols, o2),
    ensures
        o1 == o2,
{
    assert(cols * rows == rows * cols) by (nonlinear_arith);
    assert forall|p: int| 0 <= p < o1.len() implies o1[p] == o2[p] by {
        let (j, i) = lemma_cell_of_index(p, cols, rows);
        assert(o1[j * rows + i] == m[i * cols + j]);
        assert(o2[j * rows + i] == m[i * cols + j]);
    }
    assert(o1 =~= o2);
}

/// The vectors of all heads, side by side, are one sequence.
pub proof fn lemma_interleaved_one_value<T>(
    outs: Seq<Seq<T>>,
    len: int,
    heads: int,
    dh: int,
    a1: Seq<T>,
    a2: Seq<T>,
)
    requires
        0 <= len,
        0 <= heads,
        0 <= dh,
        a1.len() == len * heads * dh,
        a2.len() == len * heads * dh,
        forall|h: int| 0 <= h < heads ==> is_head_rows(a1, heads, dh, h, len, #[trigger] outs[h]),
        forall|h: int| 0 <= h < heads ==> is_head_rows(a2, heads, dh, h, len, #[trigger] outs[h]),
    ensures
        a1 == a2,
{
    assert(0 <= len * heads) by (nonlinear_arith)
        requires
            0 <= len,
            0 <= heads,
    ;
    assert forall|v: int| 0 <= v < len * heads implies #[trigger] row_of(a1, dh, v) == row_of(
        a2,
        dh,
        v,
    ) by {
        let (t, h) = lemma_cell_of_index(v, len, heads);
        assert(is_head_rows(a1, heads, dh, h, len, outs[h]));
        assert(is_head_rows(a2, heads, dh, h, len, outs[h]));
        assert(row_of(outs[h], dh, t) == row_of(a1, dh, t * heads + h));
        assert(row_of(outs[h], dh, t) == row_of(a2, dh, t * heads + h));
    }
    lemma_equal_rows(a1, a2, len * heads, dh);
}

} // verus!
