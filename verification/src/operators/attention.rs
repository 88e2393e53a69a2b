//! Causal self-attention, head by head.

use crate::arith::{count_gives, div_gives, is_functional, one_gives, sqrt_gives, Arith};
use crate::error::InferError;
use crate::layout::{
    head_rows, interleave, is_head_rows, is_transposed, lemma_head_rows_one_value,
    lemma_interleaved_one_value, lemma_shape_size_2, lemma_shape_size_3,
    lemma_transposed_one_value, shape2, transpose,
};
use crate::operators::matmul::{
    is_projection, lemma_projection_len, lemma_projection_one_value, project,
};
use crate::operators::softmax::{
    block_count, is_masked_softmax, lemma_masked_softmax_one_value, masked_softmax,
};
use crate::tensor::{shape_size, Tensor};
use vstd::prelude::*;

verus! {

/// `scale` is a value of `1 / sqrt(dh)`, the factor on attention scores for
/// vectors of `dh` elements.
pub open spec fn is_scale<T, A: Arith<T>>(ar: &A, dh: usize, scale: T) -> bool {
    exists|one: T, n: T, root: T|
        #![trigger sqrt_gives(ar, n, root), div_gives(ar, one, root, scale)]
        {
            &&& one_gives(ar, one)
            &&& count_gives(ar, dh, n)
            &&& sqrt_gives(ar, n, root)
            &&& div_gives(ar, one, root, scale)
        }
}

/// The factor on attention scores for vectors of `dh` elements.
pub fn attention_scale<T: Copy, A: Arith<T>>(ar: &A, dh: usize) -> (r: T)
    ensures
        is_scale(ar, dh, r),
{
    let one = ar.one();
    let n = ar.from_count(dh);
    let root = ar.sqrt(n);
    let scale = ar.div(one, root);
    assert(one_gives(ar, one) && count_gives(ar, dh, n) && sqrt_gives(ar, n, root) && div_gives(
        ar,
        one,
        root,
        scale,
    ));
    scale
}

/// `out` is what head `head` attends to: the scores `scale * Q @ K^T` of its
/// queries against its keys, their masked softmax, and the sum of its values
/// weighted by that.
///
/// `q` holds `seq` positions, `k` and `v` hold `total`; each position is a
/// row of `heads` vectors of `dh` elements.
pub open spec fn is_head_attention<T, A: Arith<T>>(
    ar: &A,
    scale: T,
    one: T,
    q: Seq<T>,
    k: Seq<T>,
    v: Seq<T>,
    seq: int,
    total: int,
    heads: int,
    dh: int,
    head: int,
    out: Seq<T>,
) -> bool {
    exists|qh: Seq<T>, kh: Seq<T>, vh: Seq<T>, vt: Seq<T>, scores: Seq<T>, probs: Seq<T>|
        #![trigger is_head_rows(q, heads, dh, head, seq, qh), is_head_rows(k, heads, dh, head, total, kh), is_transposed(vh, total, dh, vt), is_masked_softmax(ar, scores, probs, 1, seq, total)]
        {
            &&& is_head_rows(q, heads, dh, head, seq, qh)
            &&& is_head_rows(k, heads, dh, head, total, kh)
            &&& is_head_rows(v, heads, dh, head, total, vh)
            &&& is_transposed(vh, total, dh, vt)
            &&& is_projection(ar, scale, qh, kh, scores, seq, total, dh)
            &&& is_masked_softmax(ar, scores, probs, 1, seq, total)
            &&& is_projection(ar, one, probs, vt, out, seq, dh, total)
        }
}

/// `att` is the attention of the queries `q` over the keys `k` and values
/// `v`: for each position, the outputs of all heads side by side.
pub open spec fn is_attention<T, A: Arith<T>>(
    ar: &A,
    q: Seq<T>,
    k: Seq<T>,
    v: Seq<T>,
    seq: int,
    total: int,
    heads: int,
    dh: int,
    att: Seq<T>,
) -> bool {
    &&& att.len() == seq * heads * dh
    &&& exists|scale: T, one: T, outs: Seq<Seq<T>>|
        #![trigger is_scale(ar, dh as usize, scale), one_gives(ar, one), outs.len()]
        {
            &&& is_scale(ar, dh as usize, scale)
            &&& one_gives(ar, one)
            &&& outs.len() == heads
            &&& forall|h: int|
                0 <= h < heads ==> is_head_attention(
                    ar,
                    scale,
                    one,
                    q,
                    k,
                    v,
                    seq,
                    total,
                    heads,
                    dh,
                    h,
                    #[trigger] outs[h],
                ) && is_head_rows(att, heads, dh, h, seq, outs[h])
        }
}

/// What `attention` asks of the shapes of queries, keys and values: all are
/// `[positions, heads, head_dim]`, keys and values alike, with as many heads
/// and elements as the queries and no fewer positions; and the scores fit the
/// machine.
pub open spec fn attention_fits(q: Seq<usize>, k: Seq<usize>, v: Seq<usize>) -> bool {
    &&& q.len() == 3 && k.len() == 3 && v.len() == 3
    &&& k[0] == v[0] && k[1] == v[1] && k[2] == v[2]
    &&& q[1] == k[1] && q[2] == k[2]
    &&& q[0] <= k[0]
    &&& q[0] * k[0] <= usize::MAX
    &&& q[1] * q[2] <= usize::MAX
}

/// The attention of one head.
fn attend_head<T: Copy, A: Arith<T>>(
    ar: &A,
    scale: T,
    one: T,
    q: &[T],
    k: &[T],
    v: &[T],
    seq: usize,
    total: usize,
    heads: usize,
    dh: usize,
    head: usize,
) -> (r: Result<Vec<T>, InferError>)
    requires
        head < heads,
        seq <= total,
        seq * total <= usize::MAX,
        q@.len() == seq * heads * dh,
        k@.len() == total * heads * dh,
        v@.len() == total * heads * dh,
    ensures
        r matches Ok(out) && out@.len() == seq * dh && is_head_attention(
            ar,
            scale,
            one,
            q@,
            k@,
            v@,
            seq as int,
            total as int,
            heads as int,
            dh as int,
            head as int,
            out@,
        ),
{
    let _q_len = q.len();
    let _k_len = k.len();
    proof {
        assert(seq * dh <= seq * heads * dh && total * dh <= total * heads * dh)
            by (nonlinear_arith)
            requires
                heads >= 1,
                seq >= 0,
                total >= 0,
                dh >= 0,
        ;
        assert(dh * total == total * dh) by (nonlinear_arith);
    }
    let qh = head_rows(q, seq, heads, dh, head);
    let kh = head_rows(k, total, heads, dh, head);
    let vh = head_rows(v, total, heads, dh, head);
    let vt = transpose(vh.as_slice(), total, dh);
    let ghost qh_seq = qh@;
    let ghost kh_seq = kh@;
    let ghost vt_seq = vt@;
    let q_head = Tensor::new(qh, &shape2(seq, dh));
    let k_head = Tensor::new(kh, &shape2(total, dh));
    let v_turned = Tensor::new(vt, &shape2(dh, total));
    let mut scores = project(ar, scale, &q_head, &k_head)?;
    let ghost raw = scores@;
    proof {
        assert(scores.dims().drop_last().drop_last() =~= Seq::<usize>::empty());
        assert(block_count(scores.dims()) == 1) by {
            reveal_with_fuel(shape_size, 1);
        }
    }
    masked_softmax(ar, &mut scores)?;
    let out = project(ar, one, &scores, &v_turned)?;
    proof {
        assert(is_head_rows(q@, heads as int, dh as int, head as int, seq as int, qh_seq)
            && is_head_rows(k@, heads as int, dh as int, head as int, total as int, kh_seq)
            && is_transposed(vh@, total as int, dh as int, vt_seq) && is_masked_softmax(
            ar,
            raw,
            scores@,
            1,
            seq as int,
            total as int,
        ));
        lemma_shape_size_2(out.dims());
    }
    Ok(out.to_vec())
}

/// Causal self-attention of the queries `q` over the keys `k` and the values
/// `v`, head by head; the result has one row per query position, which holds
/// the outputs of all heads.
///
/// The last query stands at the last key's position: query `i` of `seq`
/// attends to the first `total - seq + i + 1` of the `total` keys. Refused
/// where the shapes do not fit.
pub fn attention<T: Copy, A: Arith<T>>(ar: &A, q: &Tensor<T>, k: &Tensor<T>, v: &Tensor<T>) -> (r:
    Result<Tensor<T>, InferError>)
    ensures
        r is Ok <==> attention_fits(q.dims(), k.dims(), v.dims()),
        r is Err ==> r matches Err(InferError::ShapeMismatch),
        r matches Ok(att) ==> att.dims() == seq![q.dims()[0], (q.dims()[1] * q.dims()[2]) as usize]
            && is_attention(
            ar,
            q@,
            k@,
            v@,
            q.dims()[0] as int,
            k.dims()[0] as int,
            q.dims()[1] as int,
            q.dims()[2] as int,
            att@,
        ),
{
    let q_shape = q.shape();
    let k_shape = k.shape();
    let v_shape = v.shape();
    if q_shape.len() != 3 || k_shape.len() != 3 || v_shape.len() != 3 {
        return Err(InferError::ShapeMismatch);
    }
    let seq = q_shape[0];
    let heads = q_shape[1];
    let dh = q_shape[2];
    let total = k_shape[0];
    if v_shape[0] != total || k_shape[1] != heads || v_shape[1] != heads || k_shape[2] != dh
        || v_shape[2] != dh || seq > total {
        return Err(InferError::ShapeMismatch);
    }
    if seq.checked_mul(total).is_none() {
        return Err(InferError::ShapeMismatch);
    }
    let width = match heads.checked_mul(dh) {
        Some(w) => w,
        None => {
            return Err(InferError::ShapeMismatch);
        },
    };
    proof {
        lemma_shape_size_3(q.dims());
        lemma_shape_size_3(k.dims());
        lemma_shape_size_3(v.dims());
    }
    let q_data = q.data();
    let k_data = k.data();
    let v_data = v.data();
    let _size = q.size();
    let scale = attention_scale(ar, dh);
    let one = ar.one();
    let mut outs: Vec<Vec<T>> = Vec::with_capacity(heads);
    let mut h: usize = 0;
    while h < heads
        invariant
            0 <= h <= heads,
            seq <= total,
            seq * total <= usize::MAX,
            q_data@ == q@,
            k_data@ == k@,
            v_data@ == v@,
            q_data@.len() == seq * heads * dh,
            k_data@.len() == total * heads * dh,
            v_data@.len() == total * heads * dh,
            outs@.len() == h,
            forall|h2: int|
                0 <= h2 < h ==> (#[trigger] outs@[h2])@.len() == seq * dh && is_head_attention(
                    ar,
                    scale,
                    one,
                    q@,
                    k@,
                    v@,
                    seq as int,
                    total as int,
                    heads as int,
                    dh as int,
                    h2,
                    outs@[h2]@,
                ),
        decreases heads - h,
    {
        let out = attend_head(ar, scale, one, q_data, k_data, v_data, seq, total, heads, dh, h)?;
        outs.push(out);
        h += 1;
    }
    let att = interleave(&outs, seq, heads, dh);
    let ghost views = Seq::new(heads as nat, |h: int| outs@[h]@);
    proof {
        assert(seq * heads * dh == seq * (heads * dh)) by (nonlinear_arith);
        assert(is_scale(ar, dh, scale) && one_gives(ar, one) && views.len() == heads);
        assert forall|h2: int| 0 <= h2 < heads implies is_head_attention(
            ar,
            scale,
            one,
            q@,
            k@,
            v@,
            seq as int,
            total as int,
            heads as int,
            dh as int,
            h2,
            #[trigger] views[h2],
        ) && is_head_rows(att@, heads as int, dh as int, h2, seq as int, views[h2]) by {
            assert(views[h2] == outs@[h2]@);
        }
    }
    let result = Tensor::new(att, &shape2(seq, width));
    proof {
        assert(result.dims() =~= seq![q.dims()[0], (q.dims()[1] * q.dims()[2]) as usize]);
        assert(result@.len() == seq * heads * dh);
        assert((dh as int) as usize == dh);
        assert(is_scale(ar, (dh as int) as usize, scale) && one_gives(ar, one) && views.len()
            == heads as int);
        assert(is_attention(
            ar,
            q@,
            k@,
            v@,
            seq as int,
            total as int,
            heads as int,
            dh as int,
            result@,
        ));
    }
    Ok(result)
}

/// With functional arithmetic, the factor on attention scores has one value.
pub proof fn lemma_scale_one_value<T, A: Arith<T>>(ar: &A, dh: usize, s1: T, s2: T)
    requires
        is_functional(ar),
        is_scale(ar, dh, s1),
        is_scale(ar, dh, s2),
    ensures
        s1 == s2,
{
    let (o1, n1, r1) = choose|one: T, n: T, root: T|
        #![trigger sqrt_gives(ar, n, root), div_gives(ar, one, root, s1)]
        {
            &&& one_gives(ar, one)
            &&& count_gives(ar, dh, n)
            &&& sqrt_gives(ar, n, root)
            &&& div_gives(ar, one, root, s1)
        };
    let (o2, n2, r2) = choose|one: T, n: T, root: T|
        #![trigger sqrt_gives(ar, n, root), div_gives(ar, one, root, s2)]
        {
            &&& one_gives(ar, one)
            &&& count_gives(ar, dh, n)
            &&& sqrt_gives(ar, n, root)
            &&& div_gives(ar, one, root, s2)
        };
    assert(o1 == o2 && n1 == n2);
    assert(r1 == r2);
}

/// With functional arithmetic, a head has one output.
pub proof fn lemma_head_attention_one_value<T, A: Arith<T>>(
    ar: &A,
    scale: T,
    one: T,
    q: Seq<T>,
    k: Seq<T>,
    v: Seq<T>,
    seq: int,
    total: int,
    heads: int,
    dh: int,
    head: int,
    o1: Seq<T>,
    o2: Seq<T>,
)
    requires
        is_functional(ar),
        0 <= seq <= total,
        0 <= dh,
        is_head_attention(ar, scale, one, q, k, v, seq, total, heads, dh, head, o1),
        is_head_attention(ar, scale, one, q, k, v, seq, total, heads, dh, head, o2),
    ensures
        o1 == o2,
{
    let (qh1, kh1, vh1, vt1, sc1, pr1) = choose|
        qh: Seq<T>,
        kh: Seq<T>,
        vh: Seq<T>,
        vt: Seq<T>,
        scores: Seq<T>,
        probs: Seq<T>,
    |
        #![trigger is_head_rows(q, heads, dh, head, seq, qh), is_head_rows(k, heads, dh, head, total, kh), is_transposed(vh, total, dh, vt), is_masked_softmax(ar, scores, probs, 1, seq, total)]
        {
            &&& is_head_rows(q, heads, dh, head, seq, qh)
            &&& is_head_rows(k, heads, dh, head, total, kh)
            &&& is_head_rows(v, heads, dh, head, total, vh)
            &&& is_transposed(vh, total, dh, vt)
            &&& is_projection(ar, scale, qh, kh, scores, seq, total, dh)
            &&& is_masked_softmax(ar, scores, probs, 1, seq, total)
            &&& is_projection(ar, one, probs, vt, o1, seq, dh, total)
        };
    let (qh2, kh2, vh2, vt2, sc2, pr2) = choose|
        qh: Seq<T>,
        kh: Seq<T>,
        vh: Seq<T>,
        vt: Seq<T>,
        scores: Seq<T>,
        probs: Seq<T>,
    |
        #![trigger is_head_rows(q, heads, dh, head, seq, qh), is_head_rows(k, heads, dh, head, total, kh), is_transposed(vh, total, dh, vt), is_masked_softmax(ar, scores, probs, 1, seq, total)]
        {
            &&& is_head_rows(q, heads, dh, head, seq, qh)
            &&& is_head_rows(k, heads, dh, head, total, kh)
            &&& is_head_rows(v, heads, dh, head, total, vh)
            &&& is_transposed(vh, total, dh, vt)
            &&& is_projection(ar, scale, qh, kh, scores, seq, total, dh)
            &&& is_masked_softmax(ar, scores, probs, 1, seq, total)
            &&& is_projection(ar, one, probs, vt, o2, seq, dh, total)
        };
    lemma_head_rows_one_value(q, heads, dh, head, seq, qh1, qh2);
    lemma_head_rows_one_value(k, heads, dh, head, total, kh1, kh2);
    lemma_head_rows_one_value(v, heads, dh, head, total, vh1, vh2);
    lemma_transposed_one_value(vh1, total, dh, vt1, vt2);
    lemma_projection_one_value(ar, scale, qh1, kh1, sc1, sc2, seq, total, dh);
    lemma_projection_len(ar, scale, qh1, kh1, sc1, seq, total, dh);
    assert(1 * seq * total == seq * total) by (nonlinear_arith);
    lemma_masked_softmax_one_value(ar, sc1, pr1, pr2, 1, seq, total);
    lemma_projection_one_value(ar, one, pr1, vt1, o1, o2, seq, dh, total);
}

/// With functional arithmetic, `attention` has one result.
pub proof fn lemma_attention_one_value<T, A: Arith<T>>(
    ar: &A,
    q: Seq<T>,
    k: Seq<T>,
    v: Seq<T>,
    seq: int,
    total: int,
    heads: int,
    dh: int,
    a1: Seq<T>,
    a2: Seq<T>,
)
    requires
        is_functional(ar),
        0 <= seq <= total,
        0 <= heads,
        0 <= dh <= usize::MAX,
        is_attention(ar, q, k, v, seq, total, heads, dh, a1),
        is_attention(ar, q, k, v, seq, total, heads, dh, a2),
    ensures
        a1 == a2,
{
    let (s1, one1, outs1) = choose|scale: T, one: T, outs: Seq<Seq<T>>|
        #![trigger is_scale(ar, dh as usize, scale), one_gives(ar, one), outs.len()]
        {
            &&& is_scale(ar, dh as usize, scale)
            &&& one_gives(ar, one)
            &&& outs.len() == heads
            &&& forall|h: int|
                0 <= h < heads ==> is_head_attention(
                    ar,
                    scale,
                    one,
                    q,
                    k,
                    v,
                    seq,
                    total,
                    heads,
                    dh,
                    h,
                    #[trigger] outs[h],
                ) && is_head_rows(a1, heads, dh, h, seq, outs[h])
        };
    let (s2, one2, outs2) = choose|scale: T, one: T, outs: Seq<Seq<T>>|
        #![trigger is_scale(ar, dh as usize, scale), one_gives(ar, one), outs.len()]
        {
            &&& is_scale(ar, dh as usize, scale)
            &&& one_gives(ar, one)
            &&& outs.len() == heads
            &&& forall|h: int|
                0 <= h < heads ==> is_head_attention(
                    ar,
                    scale,
                    one,
                    q,
                    k,
                    v,
                    seq,
                    total,
                    heads,
                    dh,
                    h,
                    #[trigger] outs[h],
                ) && is_head_rows(a2, heads, dh, h, seq, outs[h])
        };
    lemma_scale_one_value(ar, dh as usize, s1, s2);
    assert(one1 == one2);
    assert forall|h: int| 0 <= h < heads implies outs1[h] == outs2[h] by {
        assert(is_head_attention(ar, s1, one1, q, k, v, seq, total, heads, dh, h, outs1[h]));
        assert(is_head_attention(ar, s1, one1, q, k, v, seq, total, heads, dh, h, outs2[h]));
        lemma_head_attention_one_value(
            ar,
            s1,
            one1,
            q,
            k,
            v,
            seq,
            total,
            heads,
            dh,
            h,
            outs1[h],
            outs2[h],
        );
    }
    assert(outs1 =~= outs2);
    lemma_interleaved_one_value(outs1, seq, heads, dh, a1, a2);
}

} // verus!
