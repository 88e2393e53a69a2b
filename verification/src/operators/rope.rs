//! Rotary positional encoding.

use crate::arith::{
    add_gives, count_gives, div_gives, is_functional, mul_gives, powf_gives, sin_cos_gives,
    sub_gives, Arith,
};
use crate::error::InferError;
use crate::layout::{
    append_row, lemma_cell_of_index, lemma_cell_order, lemma_equal_rows, lemma_row_in_bounds,
    lemma_rows_after_append, lemma_shape_size_3, row_of,
};
use crate::tensor::{copy_of, Tensor};
use vstd::prelude::*;

verus! {

/// `freq` is an angle of pair `i` at position `pos`:
/// `pos / theta^(2i / d)` for vectors of `d` elements.
pub open spec fn angle_of<T, A: Arith<T>>(
    ar: &A,
    theta: T,
    pos: usize,
    i: usize,
    d: usize,
    freq: T,
) -> bool {
    exists|p: T, twice: T, width: T, expo: T, denom: T|
        #![trigger div_gives(ar, twice, width, expo), div_gives(ar, p, denom, freq)]
        {
            &&& count_gives(ar, pos, p)
            &&& count_gives(ar, (2 * i) as usize, twice)
            &&& count_gives(ar, d, width)
            &&& div_gives(ar, twice, width, expo)
            &&& powf_gives(ar, theta, expo, denom)
            &&& div_gives(ar, p, denom, freq)
        }
}

/// `(a2, b2)` is `(a, b)` turned by the angle whose sine and cosine are
/// `sin` and `cos`: `(a * cos - b * sin, b * cos + a * sin)`.
pub open spec fn turn_of<T, A: Arith<T>>(
    ar: &A,
    sin: T,
    cos: T,
    a: T,
    b: T,
    a2: T,
    b2: T,
) -> bool {
    exists|ac: T, bs: T, bc: T, a_s: T|
        #![trigger sub_gives(ar, ac, bs, a2), add_gives(ar, bc, a_s, b2)]
        {
            &&& mul_gives(ar, a, cos, ac)
            &&& mul_gives(ar, b, sin, bs)
            &&& sub_gives(ar, ac, bs, a2)
            &&& mul_gives(ar, b, cos, bc)
            &&& mul_gives(ar, a, sin, a_s)
            &&& add_gives(ar, bc, a_s, b2)
        }
}

/// `(a2, b2)` is pair `i` of a vector at position `pos`, rotated.
pub open spec fn rotated_pair<T, A: Arith<T>>(
    ar: &A,
    theta: T,
    pos: usize,
    i: usize,
    d: usize,
    a: T,
    b: T,
    a2: T,
    b2: T,
) -> bool {
    exists|freq: T, sin: T, cos: T|
        {
            &&& angle_of(ar, theta, pos, i, d, freq)
            &&& #[trigger] sin_cos_gives(ar, freq, sin, cos)
            &&& turn_of(ar, sin, cos, a, b, a2, b2)
        }
}

/// `after` is the vector `before` at position `pos` with the rotary encoding
/// applied: element `i` of the first half is paired with element `i` of the
/// second half and the pair is rotated; with an odd number of elements the
/// last one stays.
pub open spec fn is_rotated_vector<T, A: Arith<T>>(
    ar: &A,
    theta: T,
    pos: usize,
    before: Seq<T>,
    after: Seq<T>,
) -> bool {
    let d = before.len();
    let half = d / 2;
    {
        &&& after.len() == d
        &&& forall|i: int|
            0 <= i < half ==> rotated_pair(
                ar,
                theta,
                pos,
                i as usize,
                d as usize,
                before[i],
                before[i + half],
                #[trigger] after[i],
                after[i + half],
            )
        &&& forall|i: int| 2 * half <= i < d ==> #[trigger] after[i] == before[i]
    }
}

/// Applies the rotary encoding to one vector at position `pos`.
pub fn rope_vector<T: Copy, A: Arith<T>>(ar: &A, theta: T, pos: usize, v: &[T]) -> (r: Vec<T>)
    ensures
        is_rotated_vector(ar, theta, pos, v@, r@),
{
    let d = v.len();
    let half = d / 2;
    let mut out = copy_of(v);
    let mut i: usize = 0;
    while i < half
        invariant
            d == v@.len(),
            half == d / 2,
            0 <= i <= half,
            out@.len() == d,
            forall|k: int|
                (i <= k < half || i + half <= k < d) ==> #[trigger] out@[k] == v@[k],
            forall|k: int|
                0 <= k < i ==> rotated_pair(
                    ar,
                    theta,
                    pos,
                    k as usize,
                    d,
                    v@[k],
                    v@[k + half],
                    #[trigger] out@[k],
                    out@[k + half],
                ),
        decreases half - i,
    {
        let a = v[i];
        let b = v[i + half];
        let p = ar.from_count(pos);
        let twice = ar.from_count(2 * i);
        let width = ar.from_count(d);
        let expo = ar.div(twice, width);
        let denom = ar.powf(theta, expo);
        let freq = ar.div(p, denom);
        let (sin, cos) = ar.sin_cos(freq);
        let ac = ar.mul(a, cos);
        let bs = ar.mul(b, sin);
        let a2 = ar.sub(ac, bs);
        let bc = ar.mul(b, cos);
        let a_s = ar.mul(a, sin);
        let b2 = ar.add(bc, a_s);
        let ghost earlier = out@;
        out.set(i, a2);
        out.set(i + half, b2);
        proof {
            assert(count_gives(ar, pos, p) && count_gives(ar, (2 * i) as usize, twice)
                && count_gives(ar, d, width) && div_gives(ar, twice, width, expo) && powf_gives(
                ar,
                theta,
                expo,
                denom,
            ) && div_gives(ar, p, denom, freq));
            assert(angle_of(ar, theta, pos, i, d, freq));
            assert(mul_gives(ar, a, cos, ac) && mul_gives(ar, b, sin, bs) && sub_gives(
                ar,
                ac,
                bs,
                a2,
            ) && mul_gives(ar, b, cos, bc) && mul_gives(ar, a, sin, a_s) && add_gives(
                ar,
                bc,
                a_s,
                b2,
            ));
            assert(turn_of(ar, sin, cos, a, b, a2, b2));
            assert(sin_cos_gives(ar, freq, sin, cos));
            assert(rotated_pair(ar, theta, pos, i, d, a, b, a2, b2));
            assert forall|k: int| 0 <= k < i + 1 implies rotated_pair(
                ar,
                theta,
                pos,
                k as usize,
                d,
                v@[k],
                v@[k + half],
                #[trigger] out@[k],
                out@[k + half],
            ) by {
                if k < i {
                    assert(out@[k] == earlier[k]);
                    assert(out@[k + half] == earlier[k + half]);
                }
            }
        }
        i += 1;
    }
    out
}

/// The vector of head `head` of token `tok` is rotated for the position
/// `start_pos + tok`.
pub open spec fn is_rope_vector<T, A: Arith<T>>(
    ar: &A,
    theta: T,
    start_pos: usize,
    before: Seq<T>,
    after: Seq<T>,
    heads: int,
    d: int,
    tok: int,
    head: int,
) -> bool {
    is_rotated_vector(
        ar,
        theta,
        (start_pos + tok) as usize,
        row_of(before, d, tok * heads + head),
        row_of(after, d, tok * heads + head),
    )
}

/// `after` is `before`, a row of `heads` vectors of `d` elements for each of
/// `seq_len` tokens, with each vector rotated for its token's position.
pub open spec fn is_roped<T, A: Arith<T>>(
    ar: &A,
    theta: T,
    start_pos: usize,
    before: Seq<T>,
    after: Seq<T>,
    seq_len: int,
    heads: int,
    d: int,
) -> bool {
    &&& after.len() == before.len()
    &&& forall|tok: int, head: int|
        0 <= tok < seq_len && 0 <= head < heads ==> #[trigger] is_rope_vector(
            ar,
            theta,
            start_pos,
            before,
            after,
            heads,
            d,
            tok,
            head,
        )
}

/// What `rope` asks of a shape and a first position: three dimensions, and
/// positions that fit the machine.
pub open spec fn rope_fits(dims: Seq<usize>, start_pos: usize) -> bool {
    dims.len() == 3 && start_pos + dims[0] <= usize::MAX
}

/// Applies the rotary positional encoding in place to a tensor of shape
/// `[seq_len, heads, head_dim]`, whose first token stands at `start_pos`.
///
/// Refused, with `y` untouched, where `y` has not three dimensions or the
/// positions of its tokens do not fit the machine.
pub fn rope<T: Copy, A: Arith<T>>(ar: &A, y: &mut Tensor<T>, start_pos: usize, theta: T) -> (r:
    Result<(), InferError>)
    ensures
        r is Ok <==> rope_fits(old(y).dims(), start_pos),
        r is Err ==> r == Err::<(), InferError>(InferError::ShapeMismatch) && final(y)@ == old(
            y,
        )@,
        final(y).dims() == old(y).dims(),
        r is Ok ==> is_roped(
            ar,
            theta,
            start_pos,
            old(y)@,
            final(y)@,
            old(y).dims()[0] as int,
            old(y).dims()[1] as int,
            old(y).dims()[2] as int,
        ),
{
    let shape = y.shape();
    if shape.len() != 3 {
        return Err(InferError::ShapeMismatch);
    }
    let seq_len = shape[0];
    let heads = shape[1];
    let d = shape[2];
    if start_pos.checked_add(seq_len).is_none() {
        return Err(InferError::ShapeMismatch);
    }
    proof {
        lemma_shape_size_3(y.dims());
    }
    let total = y.size();
    if total == 0 {
        proof {
            assert forall|tok: int, head: int|
                0 <= tok < seq_len && 0 <= head < heads implies #[trigger] is_rope_vector(
                ar,
                theta,
                start_pos,
                y@,
                y@,
                heads as int,
                d as int,
                tok,
                head,
            ) by {
                assert(d == 0) by (nonlinear_arith)
                    requires
                        seq_len * heads * d == 0,
                        0 <= tok < seq_len,
                        0 <= head < heads,
                        d >= 0,
                ;
                assert((tok * heads + head) * 0 == 0) by (nonlinear_arith);
            }
        }
        return Ok(());
    }
    assert(d >= 1) by (nonlinear_arith)
        requires
            seq_len * heads * d > 0,
    ;
    let source = y.data();
    let mut out: Vec<T> = Vec::with_capacity(total);
    let mut tok: usize = 0;
    let mut v: usize = 0;
    assert(0 * heads + 0 == 0 && 0 * d == 0) by (nonlinear_arith);
    while tok < seq_len
        invariant
            0 <= tok <= seq_len,
            d >= 1,
            start_pos + seq_len <= usize::MAX,
            source@ == old(y)@,
            source@.len() == seq_len * heads * d,
            seq_len * heads * d <= usize::MAX,
            v == tok * heads,
            out@.len() == v * d,
            forall|t: int, h: int|
                0 <= t < tok && 0 <= h < heads ==> #[trigger] is_rope_vector(
                    ar,
                    theta,
                    start_pos,
                    old(y)@,
                    out@,
                    heads as int,
                    d as int,
                    t,
                    h,
                ),
        decreases seq_len - tok,
    {
        let pos = start_pos + tok;
        let mut head: usize = 0;
        while head < heads
            invariant
                0 <= tok < seq_len,
                0 <= head <= heads,
                d >= 1,
                pos == start_pos + tok,
                source@ == old(y)@,
                source@.len() == seq_len * heads * d,
                seq_len * heads * d <= usize::MAX,
                v == tok * heads + head,
                out@.len() == v * d,
                forall|t: int, h: int|
                    (0 <= t < tok && 0 <= h < heads) || (t == tok && 0 <= h < head)
                        ==> #[trigger] is_rope_vector(
                        ar,
                        theta,
                        start_pos,
                        old(y)@,
                        out@,
                        heads as int,
                        d as int,
                        t,
                        h,
                    ),
            decreases heads - head,
        {
            proof {
                assert(tok * heads + head < seq_len * heads) by (nonlinear_arith)
                    requires
                        0 <= tok < seq_len,
                        0 <= head < heads,
                ;
                lemma_row_in_bounds(v as int, seq_len * heads, d as int);
            }
            let row = rope_vector(ar, theta, pos, &source[v * d..v * d + d]);
            let ghost before = out@;
            append_row(&mut out, row.as_slice());
            proof {
                lemma_rows_after_append(before, row@, d as int, v as int);
                assert((v + 1) * d == v * d + d) by (nonlinear_arith);
                assert forall|t: int, h: int|
                    (0 <= t < tok && 0 <= h < heads) || (t == tok && 0 <= h < head + 1)
                        implies #[trigger] is_rope_vector(
                    ar,
                    theta,
                    start_pos,
                    old(y)@,
                    out@,
                    heads as int,
                    d as int,
                    t,
                    h,
                ) by {
                    if t == tok && h == head {
                        assert(row_of(out@, d as int, v as int) == row@);
                        assert(row_of(old(y)@, d as int, v as int) == source@.subrange(
                            v * d,
                            v * d + d,
                        ));
                    } else {
                        lemma_cell_order(t, h, tok as int, head as int, heads as int);
                        assert(is_rope_vector(
                            ar,
                            theta,
                            start_pos,
                            old(y)@,
                            before,
                            heads as int,
                            d as int,
                            t,
                            h,
                        ));
                        assert(row_of(out@, d as int, t * heads + h) == row_of(
                            before,
                            d as int,
                            t * heads + h,
                        ));
                    }
                }
                assert(v + 1 <= (v + 1) * d) by (nonlinear_arith)
                    requires
                        d >= 1,
                        v >= 0,
                ;
            }
            head += 1;
            v += 1;
        }
        assert((tok + 1) * heads == tok * heads + heads) by (nonlinear_arith);
        tok += 1;
    }
    assert(v * d == seq_len * heads * d) by (nonlinear_arith)
        requires
            v == seq_len * heads,
    ;
    y.store(out);
    Ok(())
}

/// With functional arithmetic, a pair at a position has one rotation.
pub proof fn lemma_rotated_pair_one_value<T, A: Arith<T>>(
    ar: &A,
    theta: T,
    pos: usize,
    i: usize,
    d: usize,
    a: T,
    b: T,
    a1: T,
    b1: T,
    a2: T,
    b2: T,
)
    requires
        is_functional(ar),
        rotated_pair(ar, theta, pos, i, d, a, b, a1, b1),
        rotated_pair(ar, theta, pos, i, d, a, b, a2, b2),
    ensures
        a1 == a2,
        b1 == b2,
{
    let (f1, s1, c1) = choose|freq: T, sin: T, cos: T|
        {
            &&& angle_of(ar, theta, pos, i, d, freq)
            &&& #[trigger] sin_cos_gives(ar, freq, sin, cos)
            &&& turn_of(ar, sin, cos, a, b, a1, b1)
        };
    let (f2, s2, c2) = choose|freq: T, sin: T, cos: T|
        {
            &&& angle_of(ar, theta, pos, i, d, freq)
            &&& #[trigger] sin_cos_gives(ar, freq, sin, cos)
            &&& turn_of(ar, sin, cos, a, b, a2, b2)
        };
    let (p1, t1, w1, x1, n1) = choose|p: T, twice: T, width: T, expo: T, denom: T|
        #![trigger div_gives(ar, twice, width, expo), div_gives(ar, p, denom, f1)]
        {
            &&& count_gives(ar, pos, p)
            &&& count_gives(ar, (2 * i) as usize, twice)
            &&& count_gives(ar, d, width)
            &&& div_gives(ar, twice, width, expo)
            &&& powf_gives(ar, theta, expo, denom)
            &&& div_gives(ar, p, denom, f1)
        };
    let (p2, t2, w2, x2, n2) = choose|p: T, twice: T, width: T, expo: T, denom: T|
        #![trigger div_gives(ar, twice, width, expo), div_gives(ar, p, denom, f2)]
        {
            &&& count_gives(ar, pos, p)
            &&& count_gives(ar, (2 * i) as usize, twice)
            &&& count_gives(ar, d, width)
            &&& div_gives(ar, twice, width, expo)
            &&& powf_gives(ar, theta, expo, denom)
            &&& div_gives(ar, p, denom, f2)
        };
    assert(p1 == p2 && t1 == t2 && w1 == w2);
    assert(x1 == x2);
    assert(n1 == n2);
    assert(f1 == f2);
    assert(s1 == s2 && c1 == c2);
    let (ac1, bs1, bc1, as1) = choose|ac: T, bs: T, bc: T, a_s: T|
        #![trigger sub_gives(ar, ac, bs, a1), add_gives(ar, bc, a_s, b1)]
        {
            &&& mul_gives(ar, a, c1, ac)
            &&& mul_gives(ar, b, s1, bs)
            &&& sub_gives(ar, ac, bs, a1)
            &&& mul_gives(ar, b, c1, bc)
            &&& mul_gives(ar, a, s1, a_s)
            &&& add_gives(ar, bc, a_s, b1)
        };
    let (ac2, bs2, bc2, as2) = choose|ac: T, bs: T, bc: T, a_s: T|
        #![trigger sub_gives(ar, ac, bs, a2), add_gives(ar, bc, a_s, b2)]
        {
            &&& mul_gives(ar, a, c1, ac)
            &&& mul_gives(ar, b, s1, bs)
            &&& sub_gives(ar, ac, bs, a2)
            &&& mul_gives(ar, b, c1, bc)
            &&& mul_gives(ar, a, s1, a_s)
            &&& add_gives(ar, bc, a_s, b2)
        };
    assert(ac1 == ac2 && bs1 == bs2 && bc1 == bc2 && as1 == as2);
}

/// With functional arithmetic, a vector at a position has one encoding.
pub proof fn lemma_rotated_vector_one_value<T, A: Arith<T>>(
    ar: &A,
    theta: T,
    pos: usize,
    before: Seq<T>,
    v1: Seq<T>,
    v2: Seq<T>,
)
    requires
        is_functional(ar),
        before.len() <= usize::MAX,
        is_rotated_vector(ar, theta, pos, before, v1),
        is_rotated_vector(ar, theta, pos, before, v2),
    ensures
        v1 == v2,
{
    let d = before.len() as int;
    let half = d / 2;
    assert forall|k: int| 0 <= k < d implies v1[k] == v2[k] by {
        if k < half {
            lemma_rotated_pair_one_value(
                ar,
                theta,
                pos,
                k as usize,
                d as usize,
                before[k],
                before[k + half],
                v1[k],
                v1[k + half],
                v2[k],
                v2[k + half],
            );
        } else if k < 2 * half {
            let i = k - half;
            assert(rotated_pair(
                ar,
                theta,
                pos,
                i as usize,
                d as usize,
                before[i],
                before[i + half],
                v1[i],
                v1[i + half],
            ));
            lemma_rotated_pair_one_value(
                ar,
                theta,
                pos,
                i as usize,
                d as usize,
                before[i],
                before[i + half],
                v1[i],
                v1[i + half],
                v2[i],
                v2[i + half],
            );
        } else {
            assert(v1[k] == before[k] && v2[k] == before[k]);
        }
    }
    assert(v1 =~= v2);
}

/// With functional arithmetic, `rope` has one result.
pub proof fn lemma_roped_one_value<T, A: Arith<T>>(
    ar: &A,
    theta: T,
    start_pos: usize,
    before: Seq<T>,
    y1: Seq<T>,
    y2: Seq<T>,
    seq_len: int,
    heads: int,
    d: int,
)
    requires
        is_functional(ar),
        0 <= seq_len,
        0 <= heads,
        0 <= d <= usize::MAX,
        before.len() == seq_len * heads * d,
        is_roped(ar, theta, start_pos, before, y1, seq_len, heads, d),
        is_roped(ar, theta, start_pos, before, y2, seq_len, heads, d),
    ensures
        y1 == y2,
{
    assert(0 <= seq_len * heads) by (nonlinear_arith)
        requires
            0 <= seq_len,
            0 <= heads,
    ;
    assert forall|v: int| 0 <= v < seq_len * heads implies #[trigger] row_of(y1, d, v) == row_of(
        y2,
        d,
        v,
    ) by {
        let (tok, head) = lemma_cell_of_index(v, seq_len, heads);
        lemma_row_in_bounds(v, seq_len * heads, d);
        assert(is_rope_vector(ar, theta, start_pos, before, y1, heads, d, tok, head));
        assert(is_rope_vector(ar, theta, start_pos, before, y2, heads, d, tok, head));
        assert(row_of(before, d, v).len() == d);
        lemma_rotated_vector_one_value(
            ar,
            theta,
            (start_pos + tok) as usize,
            row_of(before, d, v),
            row_of(y1, d, v),
            row_of(y2, d, v),
        );
    }
    lemma_equal_rows(y1, y2, seq_len * heads, d);
}

} // verus!
