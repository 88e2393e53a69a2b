//! Softmax under a causal mask.

use crate::arith::{
    div_gives, exp_gives, is_functional, lemma_max_of_one_value, lemma_max_of_push,
    lemma_sums_to_one_value, lemma_sums_to_push, max_of, sub_gives, sums_to, zero_gives, Arith,
};
use crate::error::InferError;
use crate::layout::{
    append_row, lemma_cell_of_index, lemma_cell_order, lemma_equal_rows, lemma_row_count,
    lemma_row_in_bounds, lemma_rows_after_append, row_of,
};
use crate::tensor::{shape_size, Tensor};
use vstd::prelude::*;

verus! {

/// Number of columns that row `i` of a causal block may attend to, where the
/// block has `seq_len` rows and `total` columns: the columns of the earlier
/// positions and the row's own.
pub open spec fn causal_boundary(seq_len: int, total: int, i: int) -> int {
    total - seq_len + i + 1
}

/// `e` is a value of `exp(v - largest)`.
pub open spec fn exp_shift_of<T, A: Arith<T>>(ar: &A, v: T, largest: T, e: T) -> bool {
    exists|d: T| #[trigger] sub_gives(ar, v, largest, d) && exp_gives(ar, d, e)
}

/// `out` is the softmax of the first `boundary` elements of `row`, followed
/// by `zero` in every later place: the largest element of the prefix is
/// taken off each element before the exponential, the exponentials are added
/// up from `zero`, and each is divided by the sum.
pub open spec fn is_masked_softmax_row<T, A: Arith<T>>(
    ar: &A,
    zero: T,
    row: Seq<T>,
    boundary: int,
    out: Seq<T>,
) -> bool {
    exists|largest: T, e: Seq<T>, sum: T|
        #![trigger max_of(ar, row.subrange(1, boundary), row[0], largest), sums_to(ar, e, zero, sum)]
        {
            &&& max_of(ar, row.subrange(1, boundary), row[0], largest)
            &&& e.len() == boundary
            &&& forall|j: int|
                0 <= j < boundary ==> exp_shift_of(ar, row[j], largest, #[trigger] e[j])
            &&& sums_to(ar, e, zero, sum)
            &&& out.len() == row.len()
            &&& forall|j: int| 0 <= j < boundary ==> div_gives(ar, e[j], sum, #[trigger] out[j])
            &&& forall|j: int| boundary <= j < row.len() ==> #[trigger] out[j] == zero
        }
}

/// What `is_masked_softmax_row` says of the places behind the boundary: each
/// holds `zero`.
pub proof fn lemma_masked_places_hold_zero<T, A: Arith<T>>(
    ar: &A,
    zero: T,
    row: Seq<T>,
    boundary: int,
    out: Seq<T>,
)
    requires
        is_masked_softmax_row(ar, zero, row, boundary, out),
    ensures
        out.len() == row.len(),
        forall|j: int| boundary <= j < row.len() ==> #[trigger] out[j] == zero,
{
}

/// The masked softmax of one row.
pub fn softmax_row<T: Copy, A: Arith<T>>(ar: &A, zero: T, row: &[T], boundary: usize) -> (r: Vec<T>)
    requires
        1 <= boundary <= row@.len(),
    ensures
        is_masked_softmax_row(ar, zero, row@, boundary as int, r@),
{
    let mut largest = row[0];
    let mut j: usize = 1;
    assert(row@.subrange(1, 1) =~= Seq::<T>::empty());
    while j < boundary
        invariant
            1 <= j <= boundary <= row@.len(),
            max_of(ar, row@.subrange(1, j as int), row@[0], largest),
        decreases boundary - j,
    {
        let next = ar.max(largest, row[j]);
        proof {
            lemma_max_of_push(ar, row@.subrange(1, j as int), row@[0], largest, row@[j as int], next);
            assert(row@.subrange(1, j as int).push(row@[j as int]) =~= row@.subrange(1, j + 1));
        }
        largest = next;
        j += 1;
    }
    let mut out: Vec<T> = Vec::with_capacity(row.len());
    let mut sum = zero;
    let mut k: usize = 0;
    while k < boundary
        invariant
            0 <= k <= boundary <= row@.len(),
            out@.len() == k,
            forall|t: int| 0 <= t < k ==> exp_shift_of(ar, row@[t], largest, #[trigger] out@[t]),
            sums_to(ar, out@, zero, sum),
        decreases boundary - k,
    {
        let d = ar.sub(row[k], largest);
        let e = ar.exp(d);
        let next = ar.add(sum, e);
        proof {
            assert(sub_gives(ar, row@[k as int], largest, d) && exp_gives(ar, d, e));
            lemma_sums_to_push(ar, out@, zero, sum, e, next);
        }
        out.push(e);
        sum = next;
        k += 1;
    }
    let ghost e = out@;
    let mut m: usize = 0;
    while m < boundary
        invariant
            0 <= m <= boundary,
            e.len() == boundary,
            out@.len() == boundary,
            forall|t: int| m <= t < boundary ==> out@[t] == e[t],
            forall|t: int| 0 <= t < m ==> div_gives(ar, e[t], sum, #[trigger] out@[t]),
        decreases boundary - m,
    {
        let q = ar.div(out[m], sum);
        out.set(m, q);
        m += 1;
    }
    let mut p: usize = boundary;
    while p < row.len()
        invariant
            boundary <= p <= row@.len(),
            out@.len() == p,
            forall|t: int| 0 <= t < boundary ==> div_gives(ar, e[t], sum, #[trigger] out@[t]),
            forall|t: int| boundary <= t < p ==> #[trigger] out@[t] == zero,
        decreases row.len() - p,
    {
        out.push(zero);
        p += 1;
    }
    assert(max_of(ar, row@.subrange(1, boundary as int), row@[0], largest) && sums_to(
        ar,
        e,
        zero,
        sum,
    ));
    out
}

/// Number of causal blocks in a tensor of these dimensions: the product of
/// all dimensions but the last two.
pub open spec fn block_count(dims: Seq<usize>) -> nat {
    shape_size(dims.drop_last().drop_last())
}

/// Row `i` of block `b` holds the masked softmax of what it held.
pub open spec fn is_softmax_row_at<T, A: Arith<T>>(
    ar: &A,
    zero: T,
    before: Seq<T>,
    after: Seq<T>,
    seq_len: int,
    total: int,
    b: int,
    i: int,
) -> bool {
    is_masked_softmax_row(
        ar,
        zero,
        row_of(before, total, b * seq_len + i),
        causal_boundary(seq_len, total, i),
        row_of(after, total, b * seq_len + i),
    )
}

/// `after` is `before`, taken as `blocks` blocks of `seq_len` rows and
/// `total` columns, with every row replaced by its masked softmax.
pub open spec fn is_masked_softmax<T, A: Arith<T>>(
    ar: &A,
    before: Seq<T>,
    after: Seq<T>,
    blocks: int,
    seq_len: int,
    total: int,
) -> bool {
    &&& after.len() == before.len()
    &&& exists|zero: T|
        #[trigger] zero_gives(ar, zero) && forall|b: int, i: int|
            0 <= b < blocks && 0 <= i < seq_len ==> #[trigger] is_softmax_row_at(
                ar,
                zero,
                before,
                after,
                seq_len,
                total,
                b,
                i,
            )
}

/// What `masked_softmax` asks of a shape: at least two dimensions, the last
/// of which is no smaller than the one before it.
pub open spec fn softmax_fits(dims: Seq<usize>) -> bool {
    dims.len() >= 2 && dims[dims.len() - 2] <= dims[dims.len() - 1]
}

/// Softmax under a causal mask, in place, over the last two dimensions
/// `[seq_len, total_seq_len]` of `y`: row `i` keeps its first
/// `total_seq_len - seq_len + i + 1` columns, which are replaced by their
/// softmax, and every later column becomes zero.
///
/// Refused, with `y` untouched, where the shape does not fit.
pub fn masked_softmax<T: Copy, A: Arith<T>>(ar: &A, y: &mut Tensor<T>) -> (r: Result<(), InferError>)
    ensures
        r is Ok <==> softmax_fits(old(y).dims()),
        r is Err ==> r == Err::<(), InferError>(InferError::ShapeMismatch) && final(y)@ == old(
            y,
        )@,
        final(y).dims() == old(y).dims(),
        r is Ok ==> is_masked_softmax(
            ar,
            old(y)@,
            final(y)@,
            block_count(old(y).dims()) as int,
            old(y).dims()[old(y).dims().len() - 2] as int,
            old(y).dims()[old(y).dims().len() - 1] as int,
        ),
{
    let shape = y.shape();
    let ndim = shape.len();
    if ndim < 2 {
        return Err(InferError::ShapeMismatch);
    }
    let seq_len = shape[ndim - 2];
    let total = shape[ndim - 1];
    if seq_len > total {
        return Err(InferError::ShapeMismatch);
    }
    let ghost blocks = block_count(y.dims());
    proof {
        reveal_with_fuel(shape_size, 3);
        assert(y.dims().drop_last().last() == seq_len);
        assert(shape_size(y.dims()) == blocks * seq_len * total);
    }
    let size = y.size();
    let zero = ar.zero();
    if size == 0 {
        proof {
            assert(zero_gives(ar, zero));
            assert forall|b: int, i: int|
                0 <= b < blocks && 0 <= i < seq_len implies #[trigger] is_softmax_row_at(
                ar,
                zero,
                y@,
                y@,
                seq_len as int,
                total as int,
                b,
                i,
            ) by {
                assert(false) by (nonlinear_arith)
                    requires
                        blocks * seq_len * total == 0,
                        0 <= b < blocks,
                        0 <= i < seq_len,
                        seq_len <= total,
                ;
            }
        }
        return Ok(());
    }
    assert(total >= 1 && seq_len >= 1) by (nonlinear_arith)
        requires
            blocks * seq_len * total > 0,
            seq_len >= 0,
            total >= 0,
    ;
    let source = y.data();
    let rows = size / total;
    let count = rows / seq_len;
    proof {
        assert(blocks * seq_len * total == (blocks * seq_len) * total) by (nonlinear_arith);
        lemma_row_count(size as int, blocks * seq_len, total as int);
        lemma_row_count(rows as int, blocks as int, seq_len as int);
        assert(0 * seq_len == 0 && 0 * total == 0) by (nonlinear_arith);
    }
    let mut out: Vec<T> = Vec::with_capacity(size);
    let mut b: usize = 0;
    let mut v: usize = 0;
    while b < count
        invariant
            0 <= b <= count,
            count == blocks,
            1 <= seq_len <= total,
            rows == count * seq_len,
            size == rows * total,
            source@ == old(y)@,
            source@.len() == size,
            v == b * seq_len,
            out@.len() == v * total,
            forall|b2: int, i2: int|
                0 <= b2 < b && 0 <= i2 < seq_len ==> #[trigger] is_softmax_row_at(
                    ar,
                    zero,
                    old(y)@,
                    out@,
                    seq_len as int,
                    total as int,
                    b2,
                    i2,
                ),
        decreases count - b,
    {
        let mut i: usize = 0;
        while i < seq_len
            invariant
                0 <= b < count,
                0 <= i <= seq_len,
                1 <= seq_len <= total,
                rows == count * seq_len,
                size == rows * total,
                source@ == old(y)@,
                source@.len() == size,
                v == b * seq_len + i,
                out@.len() == v * total,
                forall|b2: int, i2: int|
                    (0 <= b2 < b && 0 <= i2 < seq_len) || (b2 == b && 0 <= i2 < i)
                        ==> #[trigger] is_softmax_row_at(
                        ar,
                        zero,
                        old(y)@,
                        out@,
                        seq_len as int,
                        total as int,
                        b2,
                        i2,
                    ),
            decreases seq_len - i,
        {
            proof {
                assert(b * seq_len + i < count * seq_len) by (nonlinear_arith)
                    requires
                        0 <= b < count,
                        0 <= i < seq_len,
                ;
                lemma_row_in_bounds(v as int, rows as int, total as int);
            }
            let _room = source.len();
            let boundary = total - seq_len + i + 1;
            let row = softmax_row(ar, zero, &source[v * total..v * total + total], boundary);
            let ghost before = out@;
            append_row(&mut out, row.as_slice());
            proof {
                lemma_rows_after_append(before, row@, total as int, v as int);
                assert((v + 1) * total == v * total + total) by (nonlinear_arith);
                assert forall|b2: int, i2: int|
                    (0 <= b2 < b && 0 <= i2 < seq_len) || (b2 == b && 0 <= i2 < i + 1)
                        implies #[trigger] is_softmax_row_at(
                    ar,
                    zero,
                    old(y)@,
                    out@,
                    seq_len as int,
                    total as int,
                    b2,
                    i2,
                ) by {
                    if b2 == b && i2 == i {
                        assert(row_of(out@, total as int, v as int) == row@);
                        assert(row_of(old(y)@, total as int, v as int) == source@.subrange(
                            v * total,
                            v * total + total,
                        ));
                    } else {
                        lemma_cell_order(b2, i2, b as int, i as int, seq_len as int);
                        assert(is_softmax_row_at(
                            ar,
                            zero,
                            old(y)@,
                            before,
                            seq_len as int,
                            total as int,
                            b2,
                            i2,
                        ));
                        assert(row_of(out@, total as int, b2 * seq_len + i2) == row_of(
                            before,
                            total as int,
                            b2 * seq_len + i2,
                        ));
                    }
                }
            }
            i += 1;
            v += 1;
        }
        assert((b + 1) * seq_len == b * seq_len + seq_len) by (nonlinear_arith);
        b += 1;
    }
    y.store(out);
    assert(zero_gives(ar, zero));
    Ok(())
}

/// With functional arithmetic, a row has one masked softmax.
pub proof fn lemma_masked_softmax_row_one_value<T, A: Arith<T>>(
    ar: &A,
    zero: T,
    row: Seq<T>,
    boundary: int,
    o1: Seq<T>,
    o2: Seq<T>,
)
    requires
        is_functional(ar),
        0 <= boundary <= row.len(),
        is_masked_softmax_row(ar, zero, row, boundary, o1),
        is_masked_softmax_row(ar, zero, row, boundary, o2),
    ensures
        o1 == o2,
{
    let (m1, e1, s1) = choose|largest: T, e: Seq<T>, sum: T|
        #![trigger max_of(ar, row.subrange(1, boundary), row[0], largest), sums_to(ar, e, zero, sum)]
        {
            &&& max_of(ar, row.subrange(1, boundary), row[0], largest)
            &&& e.len() == boundary
            &&& forall|j: int|
                0 <= j < boundary ==> exp_shift_of(ar, row[j], largest, #[trigger] e[j])
            &&& sums_to(ar, e, zero, sum)
            &&& o1.len() == row.len()
            &&& forall|j: int| 0 <= j < boundary ==> div_gives(ar, e[j], sum, #[trigger] o1[j])
            &&& forall|j: int| boundary <= j < row.len() ==> #[trigger] o1[j] == zero
        };
    let (m2, e2, s2) = choose|largest: T, e: Seq<T>, sum: T|
        #![trigger max_of(ar, row.subrange(1, boundary), row[0], largest), sums_to(ar, e, zero, sum)]
        {
            &&& max_of(ar, row.subrange(1, boundary), row[0], largest)
            &&& e.len() == boundary
            &&& forall|j: int|
                0 <= j < boundary ==> exp_shift_of(ar, row[j], largest, #[trigger] e[j])
            &&& sums_to(ar, e, zero, sum)
            &&& o2.len() == row.len()
            &&& forall|j: int| 0 <= j < boundary ==> div_gives(ar, e[j], sum, #[trigger] o2[j])
            &&& forall|j: int| boundary <= j < row.len() ==> #[trigger] o2[j] == zero
        };
    lemma_max_of_one_value(ar, row.subrange(1, boundary), row[0], m1, m2);
    assert forall|j: int| 0 <= j < boundary implies e1[j] == e2[j] by {
        assert(exp_shift_of(ar, row[j], m1, e1[j]) && exp_shift_of(ar, row[j], m1, e2[j]));
        let d1 = choose|d: T| #[trigger] sub_gives(ar, row[j], m1, d) && exp_gives(ar, d, e1[j]);
        let d2 = choose|d: T| #[trigger] sub_gives(ar, row[j], m1, d) && exp_gives(ar, d, e2[j]);
        assert(d1 == d2);
    }
    assert(e1 =~= e2);
    lemma_sums_to_one_value(ar, e1, zero, s1, s2);
    assert forall|j: int| 0 <= j < row.len() implies o1[j] == o2[j] by {
        if j < boundary {
            assert(div_gives(ar, e1[j], s1, o1[j]) && div_gives(ar, e1[j], s1, o2[j]));
        } else {
            assert(o1[j] == zero && o2[j] == zero);
        }
    }
    assert(o1 =~= o2);
}

/// With functional arithmetic, `masked_softmax` has one result.
pub proof fn lemma_masked_softmax_one_value<T, A: Arith<T>>(
    ar: &A,
    before: Seq<T>,
    y1: Seq<T>,
    y2: Seq<T>,
    blocks: int,
    seq_len: int,
    total: int,
)
    requires
        is_functional(ar),
        0 <= blocks,
        0 <= seq_len <= total,
        before.len() == blocks * seq_len * total,
        is_masked_softmax(ar, before, y1, blocks, seq_len, total),
        is_masked_softmax(ar, before, y2, blocks, seq_len, total),
    ensures
        y1 == y2,
{
    let z1 = choose|zero: T|
        #[trigger] zero_gives(ar, zero) && forall|b: int, i: int|
            0 <= b < blocks && 0 <= i < seq_len ==> #[trigger] is_softmax_row_at(
                ar,
                zero,
                before,
                y1,
                seq_len,
                total,
                b,
                i,
            );
    let z2 = choose|zero: T|
        #[trigger] zero_gives(ar, zero) && forall|b: int, i: int|
            0 <= b < blocks && 0 <= i < seq_len ==> #[trigger] is_softmax_row_at(
                ar,
                zero,
                before,
                y2,
                seq_len,
                total,
                b,
                i,
            );
    assert(z1 == z2);
    assert(0 <= blocks * seq_len) by (nonlinear_arith)
        requires
            0 <= blocks,
            0 <= seq_len,
    ;
    assert forall|v: int| 0 <= v < blocks * seq_len implies #[trigger] row_of(y1, total, v)
        == row_of(y2, total, v) by {
        let (b, i) = lemma_cell_of_index(v, blocks, seq_len);
        lemma_row_in_bounds(v, blocks * seq_len, total);
        assert(is_softmax_row_at(ar, z1, before, y1, seq_len, total, b, i));
        assert(is_softmax_row_at(ar, z1, before, y2, seq_len, total, b, i));
        assert(row_of(before, total, v).len() == total);
        lemma_masked_softmax_row_one_value(
            ar,
            z1,
            row_of(before, total, v),
            causal_boundary(seq_len, total, i),
            row_of(y1, total, v),
            row_of(y2, total, v),
        );
    }
    lemma_equal_rows(y1, y2, blocks * seq_len, total);
}

} // verus!
