//! The decoder: sizes, weights, the forward pass over a window of tokens, and
//! generation with a model.

use crate::arith::{is_functional, one_gives, Arith};
use crate::error::InferError;
use crate::generate::{
    is_deterministic_up_to, is_generation, lemma_generation_is_deterministic, step_gives, Step,
};
use crate::kvcache::KVCache;
use crate::layout::{
    filled, lemma_row_in_bounds, lemma_shape_size_2, row_of, shape1, shape2, shape3,
};
use crate::operators::attention::{attention, is_attention, lemma_attention_one_value};
use crate::operators::gather::{gather, is_gathered, lemma_gathered_one_value};
use crate::operators::matmul::{
    add_projection, is_projection, is_residual, lemma_projection_len,
    lemma_projection_one_value, lemma_residual_len, lemma_residual_one_value, project,
};
use crate::operators::rms_norm::{is_rms_normed, lemma_rms_normed_one_value, rms_norm};
use crate::operators::rope::{is_roped, lemma_roped_one_value, rope};
use crate::operators::swiglu::{is_gated, lemma_gated_one_value, swiglu};
use crate::sampling::{
    draw_gives, is_greedy, lemma_greedy_sample_one_value, random_sample, sample_of, Draw,
};
use crate::tensor::{copy_of, same_shape, Tensor};
use vstd::prelude::*;

verus! {

/// The sizes of a model.
#[derive(Debug, Clone, Copy)]
pub struct Config {
    /// Number of decoder layers.
    pub n_layers: usize,
    /// Number of attention heads.
    pub n_heads: usize,
    /// Number of elements of one head's vectors.
    pub head_dim: usize,
    /// Number of elements of a position's hidden state.
    pub d_model: usize,
    /// Number of elements inside the feed-forward block.
    pub d_ff: usize,
    /// Number of token ids.
    pub vocab: usize,
    /// Largest number of positions of one sequence.
    pub max_seq_len: usize,
    /// The token id that ends a sequence.
    pub eos_token_id: u32,
}

impl Config {
    /// Number of elements of the vectors of all heads together.
    pub open spec fn width(&self) -> int {
        self.n_heads * self.head_dim
    }

    /// Every buffer that a forward pass over a full context needs fits the
    /// machine, and every token id fits its type.
    pub open spec fn fits_machine(&self) -> bool {
        &&& self.n_heads * self.head_dim <= usize::MAX
        &&& self.max_seq_len * self.d_model <= usize::MAX
        &&& self.max_seq_len * self.width() <= usize::MAX
        &&& self.max_seq_len * self.d_ff <= usize::MAX
        &&& self.max_seq_len * self.max_seq_len <= usize::MAX
        &&& 1 <= self.vocab <= u32::MAX + 1
    }

    /// Whether the sizes fit the machine.
    pub fn check(&self) -> (r: bool)
        ensures
            r == self.fits_machine(),
    {
        let width = match self.n_heads.checked_mul(self.head_dim) {
            Some(w) => w,
            None => {
                return false;
            },
        };
        self.max_seq_len.checked_mul(self.d_model).is_some() && self.max_seq_len.checked_mul(
            width,
        ).is_some() && self.max_seq_len.checked_mul(self.d_ff).is_some()
            && self.max_seq_len.checked_mul(self.max_seq_len).is_some() && self.vocab >= 1
            && self.vocab - 1 <= u32::MAX as usize
    }
}

/// The weights of one decoder layer.
pub struct LayerWeights<T> {
    /// Weight of the normalisation before attention, `[d_model]`.
    pub att_norm: Tensor<T>,
    /// Query projection, `[width, d_model]`.
    pub wq: Tensor<T>,
    /// Key projection, `[width, d_model]`.
    pub wk: Tensor<T>,
    /// Value projection, `[width, d_model]`.
    pub wv: Tensor<T>,
    /// Output projection of the attention, `[d_model, width]`.
    pub wo: Tensor<T>,
    /// Weight of the normalisation before the feed-forward block,
    /// `[d_model]`.
    pub ffn_norm: Tensor<T>,
    /// Gate projection, `[d_ff, d_model]`.
    pub w_gate: Tensor<T>,
    /// Up projection, `[d_ff, d_model]`.
    pub w_up: Tensor<T>,
    /// Down projection, `[d_model, d_ff]`.
    pub w_down: Tensor<T>,
}

/// The weights of a layer have the shapes that the sizes ask for.
pub open spec fn layer_fits<T>(c: Config, w: LayerWeights<T>) -> bool {
    &&& w.att_norm.dims() == seq![c.d_model]
    &&& w.wq.dims() == seq![c.width() as usize, c.d_model]
    &&& w.wk.dims() == seq![c.width() as usize, c.d_model]
    &&& w.wv.dims() == seq![c.width() as usize, c.d_model]
    &&& w.wo.dims() == seq![c.d_model, c.width() as usize]
    &&& w.ffn_norm.dims() == seq![c.d_model]
    &&& w.w_gate.dims() == seq![c.d_ff, c.d_model]
    &&& w.w_up.dims() == seq![c.d_ff, c.d_model]
    &&& w.w_down.dims() == seq![c.d_model, c.d_ff]
}

/// The weights of the two normalisations of a layer have as many elements as
/// a hidden state.
pub open spec fn norms_fill<T>(c: Config, w: LayerWeights<T>) -> bool {
    w.att_norm@.len() == c.d_model && w.ffn_norm@.len() == c.d_model
}

/// Whether the weights of a layer have the shapes that the sizes ask for.
pub fn check_layer<T: Copy>(c: &Config, w: &LayerWeights<T>) -> (r: bool)
    requires
        c.fits_machine(),
    ensures
        r == layer_fits(*c, *w),
        r ==> norms_fill(*c, *w),
{
    let width = c.n_heads * c.head_dim;
    let _att = w.att_norm.size();
    let _ffn = w.ffn_norm.size();
    let vector = shape1(c.d_model);
    let inward = shape2(width, c.d_model);
    let outward = shape2(c.d_model, width);
    let wide = shape2(c.d_ff, c.d_model);
    let narrow = shape2(c.d_model, c.d_ff);
    same_shape(w.att_norm.shape(), &vector) && same_shape(w.wq.shape(), &inward) && same_shape(
        w.wk.shape(),
        &inward,
    ) && same_shape(w.wv.shape(), &inward) && same_shape(w.wo.shape(), &outward) && same_shape(
        w.ffn_norm.shape(),
        &vector,
    ) && same_shape(w.w_gate.shape(), &wide) && same_shape(w.w_up.shape(), &wide) && same_shape(
        w.w_down.shape(),
        &narrow,
    )
}

/// One decoder layer leads from `x_in` to `x_out` and from the keys and
/// values before to those after.
///
/// The hidden states are normalised and projected to queries, keys and
/// values; queries and keys get the rotary encoding for the positions from
/// `past` on; the new keys and values join the cached ones; the attention of
/// the queries over all of them is projected and added to the hidden states;
/// these are normalised again, sent through the gated feed-forward block, and
/// the result is added once more.
pub open spec fn is_layer_pass<T, A: Arith<T>>(
    ar: &A,
    one: T,
    c: Config,
    epsilon: T,
    theta: T,
    w: LayerWeights<T>,
    past: usize,
    seq: int,
    x_in: Seq<T>,
    keys_before: Seq<T>,
    values_before: Seq<T>,
    keys_after: Seq<T>,
    values_after: Seq<T>,
    x_out: Seq<T>,
) -> bool {
    let d = c.d_model as int;
    let width = c.width();
    let heads = c.n_heads as int;
    let dh = c.head_dim as int;
    exists|
        h: Seq<T>,
        q0: Seq<T>,
        k0: Seq<T>,
        v: Seq<T>,
        q: Seq<T>,
        k: Seq<T>,
        att: Seq<T>,
        x_mid: Seq<T>,
        h2: Seq<T>,
        gate: Seq<T>,
        up: Seq<T>,
        act: Seq<T>,
    |
        #![trigger is_rms_normed(ar, epsilon, x_in, w.att_norm@, h), is_roped(ar, theta, past, q0, q, seq, heads, dh), is_roped(ar, theta, past, k0, k, seq, heads, dh), is_projection(ar, one, h, w.wv@, v, seq, width, d), is_residual(ar, x_in, att, w.wo@, x_mid, seq, d, width), is_rms_normed(ar, epsilon, x_mid, w.ffn_norm@, h2), is_gated(ar, up, gate, act)]
        {
            &&& is_rms_normed(ar, epsilon, x_in, w.att_norm@, h)
            &&& is_projection(ar, one, h, w.wq@, q0, seq, width, d)
            &&& is_projection(ar, one, h, w.wk@, k0, seq, width, d)
            &&& is_projection(ar, one, h, w.wv@, v, seq, width, d)
            &&& is_roped(ar, theta, past, q0, q, seq, heads, dh)
            &&& is_roped(ar, theta, past, k0, k, seq, heads, dh)
            &&& keys_after == keys_before + k
            &&& values_after == values_before + v
            &&& is_attention(ar, q, keys_after, values_after, seq, past + seq, heads, dh, att)
            &&& is_residual(ar, x_in, att, w.wo@, x_mid, seq, d, width)
            &&& is_rms_normed(ar, epsilon, x_mid, w.ffn_norm@, h2)
            &&& is_projection(ar, one, h2, w.w_gate@, gate, seq, c.d_ff as int, d)
            &&& is_projection(ar, one, h2, w.w_up@, up, seq, c.d_ff as int, d)
            &&& is_gated(ar, up, gate, act)
            &&& is_residual(ar, x_mid, act, w.w_down@, x_out, seq, d, c.d_ff as int)
        }
}

/// With functional arithmetic, a decoder layer has one outcome: the same
/// hidden states, keys and values lead to the same hidden states, keys and
/// values.
pub proof fn lemma_layer_pass_one_value<T, A: Arith<T>>(
    ar: &A,
    one: T,
    c: Config,
    epsilon: T,
    theta: T,
    w: LayerWeights<T>,
    past: usize,
    seq: int,
    x_in: Seq<T>,
    keys_before: Seq<T>,
    values_before: Seq<T>,
    k1: Seq<T>,
    v1: Seq<T>,
    x1: Seq<T>,
    k2: Seq<T>,
    v2: Seq<T>,
    x2: Seq<T>,
)
    requires
        is_functional(ar),
        c.fits_machine(),
        norms_fill(c, w),
        0 <= seq,
        x_in.len() == seq * c.d_model,
        is_layer_pass(ar, one, c, epsilon, theta, w, past, seq, x_in, keys_before, values_before, k1, v1, x1),
        is_layer_pass(ar, one, c, epsilon, theta, w, past, seq, x_in, keys_before, values_before, k2, v2, x2),
    ensures
        k1 == k2,
        v1 == v2,
        x1 == x2,
        x1.len() == x_in.len(),
{
    let d = c.d_model as int;
    let width = c.width();
    let heads = c.n_heads as int;
    let dh = c.head_dim as int;
    let ff = c.d_ff as int;
    let (ha, q0a, k0a, va, qa, ka, atta, xma, h2a, ga, ua, aa) = choose|
        h: Seq<T>,
        q0: Seq<T>,
        k0: Seq<T>,
        v: Seq<T>,
        q: Seq<T>,
        k: Seq<T>,
        att: Seq<T>,
        x_mid: Seq<T>,
        h2: Seq<T>,
        gate: Seq<T>,
        up: Seq<T>,
        act: Seq<T>,
    |
        #![trigger is_rms_normed(ar, epsilon, x_in, w.att_norm@, h), is_roped(ar, theta, past, q0, q, seq, heads, dh), is_roped(ar, theta, past, k0, k, seq, heads, dh), is_projection(ar, one, h, w.wv@, v, seq, width, d), is_residual(ar, x_in, att, w.wo@, x_mid, seq, d, width), is_rms_normed(ar, epsilon, x_mid, w.ffn_norm@, h2), is_gated(ar, up, gate, act)]
        {
            &&& is_rms_normed(ar, epsilon, x_in, w.att_norm@, h)
            &&& is_projection(ar, one, h, w.wq@, q0, seq, width, d)
            &&& is_projection(ar, one, h, w.wk@, k0, seq, width, d)
            &&& is_projection(ar, one, h, w.wv@, v, seq, width, d)
            &&& is_roped(ar, theta, past, q0, q, seq, heads, dh)
            &&& is_roped(ar, theta, past, k0, k, seq, heads, dh)
            &&& k1 == keys_before + k
            &&& v1 == values_before + v
            &&& is_attention(ar, q, k1, v1, seq, past + seq, heads, dh, att)
            &&& is_residual(ar, x_in, att, w.wo@, x_mid, seq, d, width)
            &&& is_rms_normed(ar, epsilon, x_mid, w.ffn_norm@, h2)
            &&& is_projection(ar, one, h2, w.w_gate@, gate, seq, ff, d)
            &&& is_projection(ar, one, h2, w.w_up@, up, seq, ff, d)
            &&& is_gated(ar, up, gate, act)
            &&& is_residual(ar, x_mid, act, w.w_down@, x1, seq, d, ff)
        };
    let (hb, q0b, k0b, vb, qb, kb, attb, xmb, h2b, gb, ub, ab) = choose|
        h: Seq<T>,
        q0: Seq<T>,
        k0: Seq<T>,
        v: Seq<T>,
        q: Seq<T>,
        k: Seq<T>,
        att: Seq<T>,
        x_mid: Seq<T>,
        h2: Seq<T>,
        gate: Seq<T>,
        up: Seq<T>,
        act: Seq<T>,
    |
        #![trigger is_rms_normed(ar, epsilon, x_in, w.att_norm@, h), is_roped(ar, theta, past, q0, q, seq, heads, dh), is_roped(ar, theta, past, k0, k, seq, heads, dh), is_projection(ar, one, h, w.wv@, v, seq, width, d), is_residual(ar, x_in, att, w.wo@, x_mid, seq, d, width), is_rms_normed(ar, epsilon, x_mid, w.ffn_norm@, h2), is_gated(ar, up, gate, act)]
        {
            &&& is_rms_normed(ar, epsilon, x_in, w.att_norm@, h)
            &&& is_projection(ar, one, h, w.wq@, q0, seq, width, d)
            &&& is_projection(ar, one, h, w.wk@, k0, seq, width, d)
            &&& is_projection(ar, one, h, w.wv@, v, seq, width, d)
            &&& is_roped(ar, theta, past, q0, q, seq, heads, dh)
            &&& is_roped(ar, theta, past, k0, k, seq, heads, dh)
            &&& k2 == keys_before + k
            &&& v2 == values_before + v
            &&& is_attention(ar, q, k2, v2, seq, past + seq, heads, dh, att)
            &&& is_residual(ar, x_in, att, w.wo@, x_mid, seq, d, width)
            &&& is_rms_normed(ar, epsilon, x_mid, w.ffn_norm@, h2)
            &&& is_projection(ar, one, h2, w.w_gate@, gate, seq, ff, d)
            &&& is_projection(ar, one, h2, w.w_up@, up, seq, ff, d)
            &&& is_gated(ar, up, gate, act)
            &&& is_residual(ar, x_mid, act, w.w_down@, x2, seq, d, ff)
        };
    assert(0 <= width) by (nonlinear_arith)
        requires
            width == heads * dh,
            0 <= heads,
            0 <= dh,
    ;
    lemma_rms_normed_one_value(ar, epsilon, x_in, w.att_norm@, ha, hb, seq);
    lemma_projection_one_value(ar, one, ha, w.wq@, q0a, q0b, seq, width, d);
    lemma_projection_one_value(ar, one, ha, w.wk@, k0a, k0b, seq, width, d);
    lemma_projection_one_value(ar, one, ha, w.wv@, va, vb, seq, width, d);
    lemma_projection_len(ar, one, ha, w.wq@, q0a, seq, width, d);
    lemma_projection_len(ar, one, ha, w.wk@, k0a, seq, width, d);
    assert(seq * width == seq * heads * dh) by (nonlinear_arith)
        requires
            width == heads * dh,
    ;
    lemma_roped_one_value(ar, theta, past, q0a, qa, qb, seq, heads, dh);
    lemma_roped_one_value(ar, theta, past, k0a, ka, kb, seq, heads, dh);
    lemma_attention_one_value(ar, qa, k1, v1, seq, past + seq, heads, dh, atta, attb);
    lemma_residual_one_value(ar, x_in, atta, w.wo@, xma, xmb, seq, d, width);
    lemma_residual_len(ar, x_in, atta, w.wo@, xma, seq, d, width);
    lemma_rms_normed_one_value(ar, epsilon, xma, w.ffn_norm@, h2a, h2b, seq);
    lemma_projection_one_value(ar, one, h2a, w.w_gate@, ga, gb, seq, ff, d);
    lemma_projection_one_value(ar, one, h2a, w.w_up@, ua, ub, seq, ff, d);
    lemma_gated_one_value(ar, ua, ga, aa, ab);
    lemma_residual_one_value(ar, xma, aa, w.w_down@, x1, x2, seq, d, ff);
    lemma_residual_len(ar, xma, aa, w.w_down@, x1, seq, d, ff);
}

/// Appends `seq` positions to one layer of the cache: position `t` gets row
/// `t` of `k` as its key and row `t` of `v` as its value.
pub fn append_positions<T: Copy>(
    cache: &mut KVCache<T>,
    layer: usize,
    k: &[T],
    v: &[T],
    seq: usize,
) -> (r: Result<(), InferError>)
    requires
        layer < old(cache).layers(),
        k@.len() == seq * old(cache).width(),
        v@.len() == seq * old(cache).width(),
        old(cache).cursor(layer as int) + seq <= old(cache).capacity(),
    ensures
        r is Ok,
        final(cache).layers() == old(cache).layers(),
        final(cache).capacity() == old(cache).capacity(),
        final(cache).width() == old(cache).width(),
        final(cache).cursor(layer as int) == old(cache).cursor(layer as int) + seq,
        final(cache).keys_of(layer as int) == old(cache).keys_of(layer as int) + k@,
        final(cache).values_of(layer as int) == old(cache).values_of(layer as int) + v@,
        forall|l: int|
            #![trigger final(cache).cursor(l)]
            #![trigger final(cache).keys_of(l)]
            #![trigger final(cache).values_of(l)]
            0 <= l < old(cache).layers() && l != layer ==> {
                &&& final(cache).cursor(l) == old(cache).cursor(l)
                &&& final(cache).keys_of(l) == old(cache).keys_of(l)
                &&& final(cache).values_of(l) == old(cache).values_of(l)
            },
{
    let width = cache.vector_len();
    let _room = k.len();
    let mut t: usize = 0;
    assert(k@.take(0) =~= Seq::<T>::empty() && v@.take(0) =~= Seq::<T>::empty());
    assert(0 * width == 0) by (nonlinear_arith);
    assert(old(cache).keys_of(layer as int) + Seq::<T>::empty() =~= old(cache).keys_of(
        layer as int,
    ));
    assert(old(cache).values_of(layer as int) + Seq::<T>::empty() =~= old(cache).values_of(
        layer as int,
    ));
    while t < seq
        invariant
            0 <= t <= seq,
            layer < old(cache).layers(),
            width == old(cache).width(),
            k@.len() == seq * width,
            v@.len() == seq * width,
            seq * width <= usize::MAX,
            old(cache).cursor(layer as int) + seq <= old(cache).capacity(),
            cache.layers() == old(cache).layers(),
            cache.capacity() == old(cache).capacity(),
            cache.width() == old(cache).width(),
            cache.cursor(layer as int) == old(cache).cursor(layer as int) + t,
            cache.keys_of(layer as int) == old(cache).keys_of(layer as int) + k@.take(t * width),
            cache.values_of(layer as int) == old(cache).values_of(layer as int) + v@.take(
                t * width,
            ),
            forall|l: int|
                0 <= l < old(cache).layers() && l != layer ==> {
                    &&& cache.cursor(l) == old(cache).cursor(l)
                    &&& cache.keys_of(l) == old(cache).keys_of(l)
                    &&& cache.values_of(l) == old(cache).values_of(l)
                },
        decreases seq - t,
    {
        proof {
            lemma_row_in_bounds(t as int, seq as int, width as int);
            assert((t + 1) * width == t * width + width) by (nonlinear_arith);
        }
        let ghost keys_so_far = cache.keys_of(layer as int);
        let ghost values_so_far = cache.values_of(layer as int);
        cache.append(layer, &k[t * width..t * width + width], &v[t * width..t * width + width])?;
        proof {
            assert(k@.take(t * width) + k@.subrange(t * width, t * width + width) =~= k@.take(
                (t + 1) * width,
            ));
            assert(v@.take(t * width) + v@.subrange(t * width, t * width + width) =~= v@.take(
                (t + 1) * width,
            ));
            assert(cache.keys_of(layer as int) =~= old(cache).keys_of(layer as int) + k@.take(
                (t + 1) * width,
            ));
            assert(cache.values_of(layer as int) =~= old(cache).values_of(layer as int) + v@.take(
                (t + 1) * width,
            ));
        }
        t += 1;
    }
    assert(k@.take(seq * width) =~= k@ && v@.take(seq * width) =~= v@);
    Ok(())
}

/// Runs one decoder layer in place on the hidden states `x` of `seq` new
/// positions, appending their keys and values to layer `l` of the cache.
pub(crate) fn layer_pass<T: Copy, A: Arith<T>>(
    ar: &A,
    one: T,
    c: &Config,
    epsilon: T,
    theta: T,
    w: &LayerWeights<T>,
    x: &mut Tensor<T>,
    cache: &mut KVCache<T>,
    l: usize,
    seq: usize,
) -> (r: Result<(), InferError>)
    requires
        c.fits_machine(),
        layer_fits(*c, *w),
        old(x).dims() == seq![seq, c.d_model],
        l < old(cache).layers(),
        old(cache).width() == c.width(),
        old(cache).capacity() <= c.max_seq_len,
        old(cache).cursor(l as int) + seq <= old(cache).capacity(),
    ensures
        r is Ok,
        final(x).dims() == old(x).dims(),
        final(cache).layers() == old(cache).layers(),
        final(cache).capacity() == old(cache).capacity(),
        final(cache).width() == old(cache).width(),
        final(cache).cursor(l as int) == old(cache).cursor(l as int) + seq,
        forall|l2: int|
            #![trigger final(cache).cursor(l2)]
            #![trigger final(cache).keys_of(l2)]
            #![trigger final(cache).values_of(l2)]
            0 <= l2 < old(cache).layers() && l2 != l ==> {
                &&& final(cache).cursor(l2) == old(cache).cursor(l2)
                &&& final(cache).keys_of(l2) == old(cache).keys_of(l2)
                &&& final(cache).values_of(l2) == old(cache).values_of(l2)
            },
        is_layer_pass(
            ar,
            one,
            *c,
            epsilon,
            theta,
            *w,
            old(cache).cursor(l as int) as usize,
            seq as int,
            old(x)@,
            old(cache).keys_of(l as int),
            old(cache).values_of(l as int),
            final(cache).keys_of(l as int),
            final(cache).values_of(l as int),
            final(x)@,
        ),
{
    let heads = c.n_heads;
    let dh = c.head_dim;
    let d = c.d_model;
    let width = heads * dh;
    let past = match cache.len(l) {
        Some(n) => n,
        None => {
            return Err(InferError::ShapeMismatch);
        },
    };
    let total = past + seq;
    proof {
        let m = c.max_seq_len;
        assert(seq * d <= m * d && seq * width <= m * width && seq * c.d_ff <= m * c.d_ff && seq
            * total <= m * m && total * width <= m * width) by (nonlinear_arith)
            requires
                0 <= seq <= total <= m,
                d >= 0,
                width >= 0,
                c.d_ff >= 0,
        ;
        assert(seq * heads * dh == seq * width && total * heads * dh == total * width)
            by (nonlinear_arith)
            requires
                width == heads * dh,
        ;
    }
    let ghost x_in = x@;
    let mut h = x.slice(0, x.shape())?;
    rms_norm(ar, &mut h, x, &w.att_norm, epsilon)?;
    let mut q = project(ar, one, &h, &w.wq)?;
    let mut k = project(ar, one, &h, &w.wk)?;
    let v = project(ar, one, &h, &w.wv)?;
    let ghost q0 = q@;
    let ghost k0 = k@;
    let split = shape3(seq, heads, dh);
    q.reshape(&split)?;
    k.reshape(&split)?;
    rope(ar, &mut q, past, theta)?;
    rope(ar, &mut k, past, theta)?;
    append_positions(cache, l, k.data(), v.data(), seq)?;
    let all = shape3(total, heads, dh);
    let keys = match cache.keys(l) {
        Some(s) => Tensor::new(copy_of(s), &all),
        None => {
            return Err(InferError::ShapeMismatch);
        },
    };
    let values = match cache.values(l) {
        Some(s) => Tensor::new(copy_of(s), &all),
        None => {
            return Err(InferError::ShapeMismatch);
        },
    };
    let att = attention(ar, &q, &keys, &values)?;
    add_projection(ar, x, &att, &w.wo)?;
    let ghost x_mid = x@;
    let mut h2 = x.slice(0, x.shape())?;
    rms_norm(ar, &mut h2, x, &w.ffn_norm, epsilon)?;
    let gate = project(ar, one, &h2, &w.w_gate)?;
    let mut up = project(ar, one, &h2, &w.w_up)?;
    let ghost up0 = up@;
    swiglu(ar, &mut up, &gate)?;
    add_projection(ar, x, &up, &w.w_down)?;
    proof {
        let dd = d as int;
        let ww = c.width();
        let ss = seq as int;
        assert(is_rms_normed(ar, epsilon, x_in, w.att_norm@, h@));
        assert(is_projection(ar, one, h@, w.wq@, q0, ss, ww, dd));
        assert(is_projection(ar, one, h@, w.wk@, k0, ss, ww, dd));
        assert(is_projection(ar, one, h@, w.wv@, v@, ss, ww, dd));
        assert(is_roped(ar, theta, past, q0, q@, ss, heads as int, dh as int));
        assert(is_roped(ar, theta, past, k0, k@, ss, heads as int, dh as int));
        assert(cache.keys_of(l as int) == old(cache).keys_of(l as int) + k@);
        assert(cache.values_of(l as int) == old(cache).values_of(l as int) + v@);
        assert(is_attention(
            ar,
            q@,
            cache.keys_of(l as int),
            cache.values_of(l as int),
            ss,
            past + seq,
            heads as int,
            dh as int,
            att@,
        ));
        assert(is_residual(ar, x_in, att@, w.wo@, x_mid, ss, dd, ww));
        assert(is_rms_normed(ar, epsilon, x_mid, w.ffn_norm@, h2@));
        assert(is_projection(ar, one, h2@, w.w_gate@, gate@, ss, c.d_ff as int, dd));
        assert(is_projection(ar, one, h2@, w.w_up@, up0, ss, c.d_ff as int, dd));
        assert(is_gated(ar, up0, gate@, up@));
        assert(is_residual(ar, x_mid, up@, w.w_down@, x@, ss, dd, c.d_ff as int));
    }
    Ok(())
}

/// A decoder-only transformer: its sizes and its weights, which never change.
pub struct Llama<T> {
    config: Config,
    embedding: Tensor<T>,
    layers: Vec<LayerWeights<T>>,
    out_norm: Tensor<T>,
    lm_head: Tensor<T>,
    epsilon: T,
    theta: T,
}

/// The weights have the shapes that the sizes ask for, and the sizes fit the
/// machine: the embedding table and the output projection are
/// `[vocab, d_model]`, the output normalisation is `[d_model]`, and there is
/// one set of fitting layer weights per layer.
pub open spec fn model_fits<T>(
    c: Config,
    embedding: Seq<usize>,
    layers: Seq<LayerWeights<T>>,
    out_norm: Seq<usize>,
    lm_head: Seq<usize>,
) -> bool {
    &&& c.fits_machine()
    &&& layers.len() == c.n_layers
    &&& embedding == seq![c.vocab, c.d_model]
    &&& out_norm == seq![c.d_model]
    &&& lm_head == seq![c.vocab, c.d_model]
    &&& forall|l: int| 0 <= l < layers.len() ==> layer_fits(c, #[trigger] layers[l])
}

impl<T> Llama<T> {
    #[verifier::type_invariant]
    spec fn well_formed(&self) -> bool {
        model_fits(
            self.config,
            self.embedding.dims(),
            self.layers@,
            self.out_norm.dims(),
            self.lm_head.dims(),
        )
    }

    /// The sizes of the model.
    pub closed spec fn sizes(&self) -> Config {
        self.config
    }

    /// The embedding table, row by row.
    pub closed spec fn embedding_of(&self) -> Seq<T> {
        self.embedding@
    }

    /// The weights of layer `l`.
    pub closed spec fn layer_of(&self, l: int) -> LayerWeights<T> {
        self.layers@[l]
    }

    /// The weight of the output normalisation.
    pub closed spec fn out_norm_of(&self) -> Seq<T> {
        self.out_norm@
    }

    /// The output projection, row by row.
    pub closed spec fn lm_head_of(&self) -> Seq<T> {
        self.lm_head@
    }

    /// The shift under the root of the normalisations.
    pub closed spec fn epsilon_of(&self) -> T {
        self.epsilon
    }

    /// The base of the rotary encoding.
    pub closed spec fn theta_of(&self) -> T {
        self.theta
    }

    /// The sizes fit the machine, and the weights of all normalisations have
    /// as many elements as a hidden state.
    pub open spec fn is_sound(&self) -> bool {
        &&& self.sizes().fits_machine()
        &&& self.out_norm_of().len() == self.sizes().d_model
        &&& forall|l: int|
            0 <= l < self.sizes().n_layers ==> norms_fill(self.sizes(), #[trigger] self.layer_of(l))
    }

    /// The cache has the layers and the vector length of this model, and no
    /// more room than the model's context; the window is not empty and
    /// holds token ids of the vocabulary only.
    pub open spec fn accepts(&self, input: Seq<u32>, cache: KVCache<T>) -> bool {
        &&& input.len() >= 1
        &&& forall|i: int| 0 <= i < input.len() ==> (#[trigger] input[i]) < self.sizes().vocab
        &&& cache.layers() == self.sizes().n_layers
        &&& cache.width() == self.sizes().width()
        &&& cache.capacity() <= self.sizes().max_seq_len
    }

    /// Every layer of the cache has room for the positions of the window.
    pub open spec fn has_room(&self, input: Seq<u32>, cache: KVCache<T>) -> bool {
        &&& input.len() <= cache.capacity()
        &&& forall|l: int|
            0 <= l < cache.layers() ==> #[trigger] cache.cursor(l) + input.len() <= cache.capacity()
    }

    /// Layer `l` leads from the hidden states `xs[l]` to `xs[l + 1]`, and
    /// from its part of the cache before to its part after.
    pub open spec fn is_layer_step<A: Arith<T>>(
        &self,
        ar: &A,
        one: T,
        before: KVCache<T>,
        after: KVCache<T>,
        seq: int,
        xs: Seq<Seq<T>>,
        l: int,
    ) -> bool {
        is_layer_pass(
            ar,
            one,
            self.sizes(),
            self.epsilon_of(),
            self.theta_of(),
            self.layer_of(l),
            before.cursor(l) as usize,
            seq,
            xs[l],
            before.keys_of(l),
            before.values_of(l),
            after.keys_of(l),
            after.values_of(l),
            xs[l + 1],
        )
    }

    /// `logits` are logits that a forward pass over `input` can give, which
    /// takes the cache from `before` to `after`.
    ///
    /// The rows of the embedding table that the tokens name are the first
    /// hidden states; each layer leads to the next hidden states; those of
    /// the last position after the last layer are normalised and projected
    /// onto the vocabulary.
    pub open spec fn is_forward<A: Arith<T>>(
        &self,
        ar: &A,
        input: Seq<u32>,
        before: KVCache<T>,
        after: KVCache<T>,
        logits: Seq<T>,
    ) -> bool {
        let c = self.sizes();
        let seq = input.len() as int;
        let d = c.d_model as int;
        exists|one: T, xs: Seq<Seq<T>>, last: Seq<T>|
            #![trigger one_gives(ar, one), is_gathered(self.embedding_of(), d, input, xs[0]), is_projection(ar, one, last, self.lm_head_of(), logits, 1, c.vocab as int, d)]
            {
                &&& one_gives(ar, one)
                &&& xs.len() == c.n_layers + 1
                &&& is_gathered(self.embedding_of(), d, input, xs[0])
                &&& forall|l: int|
                    0 <= l < c.n_layers ==> #[trigger] self.is_layer_step(
                        ar,
                        one,
                        before,
                        after,
                        seq,
                        xs,
                        l,
                    )
                &&& is_rms_normed(
                    ar,
                    self.epsilon_of(),
                    row_of(xs[c.n_layers as int], d, seq - 1),
                    self.out_norm_of(),
                    last,
                )
                &&& is_projection(ar, one, last, self.lm_head_of(), logits, 1, c.vocab as int, d)
            }
    }
}

/// Two caches hold the same.
pub open spec fn same_cache<T>(a: KVCache<T>, b: KVCache<T>) -> bool {
    &&& a.layers() == b.layers()
    &&& a.capacity() == b.capacity()
    &&& a.width() == b.width()
    &&& forall|l: int|
        #![trigger a.cursor(l)]
        #![trigger a.keys_of(l)]
        #![trigger a.values_of(l)]
        0 <= l < a.layers() ==> {
            &&& a.cursor(l) == b.cursor(l)
            &&& a.keys_of(l) == b.keys_of(l)
            &&& a.values_of(l) == b.values_of(l)
        }
}

impl<T: Copy> Llama<T> {
    /// Puts a model together. Refused where the sizes do not fit the machine
    /// or a weight has not the shape that the sizes ask for.
    pub fn new(
        config: Config,
        embedding: Tensor<T>,
        layers: Vec<LayerWeights<T>>,
        out_norm: Tensor<T>,
        lm_head: Tensor<T>,
        epsilon: T,
        theta: T,
    ) -> (r: Result<Self, InferError>)
        ensures
            r is Ok <==> model_fits(
                config,
                embedding.dims(),
                layers@,
                out_norm.dims(),
                lm_head.dims(),
            ),
            r is Err ==> r matches Err(InferError::ShapeMismatch),
            r matches Ok(m) ==> {
                &&& m.is_sound()
                &&& m.sizes() == config
                &&& m.embedding_of() == embedding@
                &&& m.out_norm_of() == out_norm@
                &&& m.lm_head_of() == lm_head@
                &&& m.epsilon_of() == epsilon
                &&& m.theta_of() == theta
                &&& forall|l: int| 0 <= l < layers@.len() ==> m.layer_of(l) == layers@[l]
            },
    {
        if !config.check() || layers.len() != config.n_layers {
            return Err(InferError::ShapeMismatch);
        }
        let table = shape2(config.vocab, config.d_model);
        let vector = shape1(config.d_model);
        if !same_shape(embedding.shape(), &table) || !same_shape(out_norm.shape(), &vector)
            || !same_shape(lm_head.shape(), &table) {
            return Err(InferError::ShapeMismatch);
        }
        let _norm = out_norm.size();
        let mut l: usize = 0;
        while l < layers.len()
            invariant
                0 <= l <= layers@.len(),
                config.fits_machine(),
                forall|k: int|
                    0 <= k < l ==> layer_fits(config, #[trigger] layers@[k]) && norms_fill(
                        config,
                        layers@[k],
                    ),
            decreases layers.len() - l,
        {
            if !check_layer(&config, &layers[l]) {
                return Err(InferError::ShapeMismatch);
            }
            l += 1;
        }
        Ok(Llama { config, embedding, layers, out_norm, lm_head, epsilon, theta })
    }

    /// The sizes of the model.
    pub fn config(&self) -> (r: &Config)
        ensures
            *r == self.sizes(),
            r.fits_machine(),
    {
        proof {
            use_type_invariant(self);
        }
        &self.config
    }

    /// An empty cache for this model, with room for its whole context.
    pub fn new_cache(&self) -> (r: KVCache<T>)
        ensures
            r.layers() == self.sizes().n_layers,
            r.capacity() == self.sizes().max_seq_len,
            r.width() == self.sizes().width(),
            forall|l: int|
                #![trigger r.cursor(l)]
                #![trigger r.keys_of(l)]
                #![trigger r.values_of(l)]
                0 <= l < r.layers() ==> {
                    &&& r.cursor(l) == 0
                    &&& r.keys_of(l).len() == 0
                    &&& r.values_of(l).len() == 0
                },
    {
        proof {
            use_type_invariant(self);
        }
        let cache = KVCache::new(
            self.config.n_layers,
            self.config.max_seq_len,
            self.config.n_heads * self.config.head_dim,
        );
        cache
    }

    /// One forward pass: feeds the window `input` of new token ids to the
    /// model, appends the keys and values of its positions to every layer of
    /// the cache, and returns the logits of its last position as a tensor
    /// `[1, vocab]`.
    ///
    /// Refused with `ShapeMismatch` where the model does not accept the
    /// window and the cache, else with `CacheCapacityExceeded` where the
    /// cache lacks room. A refused call leaves the cache as it was.
    pub fn forward<A: Arith<T>>(&self, ar: &A, input: &[u32], cache: &mut KVCache<T>) -> (r: Result<
        Tensor<T>,
        InferError,
    >)
        ensures
            final(cache).layers() == old(cache).layers(),
            final(cache).capacity() == old(cache).capacity(),
            final(cache).width() == old(cache).width(),
            r is Ok <==> self.accepts(input@, *old(cache)) && self.has_room(input@, *old(cache)),
            match r {
                Ok(logits) => {
                    &&& logits.dims() == seq![1usize, self.sizes().vocab]
                    &&& forall|l: int|
                        0 <= l < old(cache).layers() ==> #[trigger] final(cache).cursor(l) == old(
                            cache,
                        ).cursor(l) + input@.len()
                    &&& self.is_forward(ar, input@, *old(cache), *final(cache), logits@)
                },
                Err(InferError::ShapeMismatch) => {
                    &&& !self.accepts(input@, *old(cache))
                    &&& same_cache(*old(cache), *final(cache))
                },
                Err(InferError::CacheCapacityExceeded) => {
                    &&& self.accepts(input@, *old(cache))
                    &&& !self.has_room(input@, *old(cache))
                    &&& same_cache(*old(cache), *final(cache))
                },
            },
    {
        proof {
            use_type_invariant(self);
        }
        let c = &self.config;
        let seq = input.len();
        let d = c.d_model;
        let width = c.n_heads * c.head_dim;
        if seq == 0 || cache.n_layers() != c.n_layers || cache.vector_len() != width
            || cache.max_seq_len() > c.max_seq_len {
            return Err(InferError::ShapeMismatch);
        }
        let mut i: usize = 0;
        while i < seq
            invariant
                0 <= i <= seq,
                seq == input@.len(),
                *c == self.sizes(),
                forall|k: int| 0 <= k < i ==> (#[trigger] input@[k]) < c.vocab,
            decreases seq - i,
        {
            if input[i] as usize >= c.vocab {
                return Err(InferError::ShapeMismatch);
            }
            i += 1;
        }
        if seq > cache.max_seq_len() {
            return Err(InferError::CacheCapacityExceeded);
        }
        let mut l: usize = 0;
        while l < c.n_layers
            invariant
                0 <= l <= c.n_layers,
                seq == input@.len(),
                self.accepts(input@, *old(cache)),
                cache.layers() == c.n_layers,
                seq <= cache.capacity(),
                *cache == *old(cache),
                forall|k: int|
                    0 <= k < l ==> #[trigger] cache.cursor(k) + seq <= cache.capacity(),
            decreases c.n_layers - l,
        {
            match cache.len(l) {
                Some(n) => {
                    if n > cache.max_seq_len() - seq {
                        assert(cache.cursor(l as int) + seq > cache.capacity());
                        return Err(InferError::CacheCapacityExceeded);
                    }
                },
                None => {
                    return Err(InferError::ShapeMismatch);
                },
            }
            l += 1;
        }
        proof {
            assert(seq * d <= c.max_seq_len * d) by (nonlinear_arith)
                requires
                    seq <= c.max_seq_len,
                    d >= 0,
            ;
        }
        let one = ar.one();
        let ids = Tensor::new(copy_of(input), &shape1(seq));
        let mut x = Tensor::new(filled(one, seq * d), &shape2(seq, d));
        gather(&mut x, &ids, &self.embedding)?;
        let ghost mut xs: Seq<Seq<T>> = seq![x@];
        let mut l: usize = 0;
        while l < c.n_layers
            invariant
                0 <= l <= c.n_layers,
                seq == input@.len(),
                seq >= 1,
                *c == self.sizes(),
                self.accepts(input@, *old(cache)),
                self.has_room(input@, *old(cache)),
                x.dims() == seq![seq, d],
                d == c.d_model,
                xs.len() == l + 1,
                xs[l as int] == x@,
                is_gathered(self.embedding_of(), d as int, input@, xs[0]),
                cache.layers() == old(cache).layers(),
                cache.capacity() == old(cache).capacity(),
                cache.width() == old(cache).width(),
                forall|k: int|
                    0 <= k < l ==> #[trigger] cache.cursor(k) == old(cache).cursor(k) + seq,
                forall|k: int|
                    l <= k < c.n_layers ==> {
                        &&& #[trigger] cache.cursor(k) == old(cache).cursor(k)
                        &&& cache.keys_of(k) == old(cache).keys_of(k)
                        &&& cache.values_of(k) == old(cache).values_of(k)
                    },
                forall|k: int|
                    0 <= k < l ==> #[trigger] self.is_layer_step(
                        ar,
                        one,
                        *old(cache),
                        *cache,
                        seq as int,
                        xs,
                        k,
                    ),
            decreases c.n_layers - l,
        {
            proof {
                use_type_invariant(self);
                assert(layer_fits(self.config, self.layers@[l as int]));
                assert(old(cache).cursor(l as int) + seq <= old(cache).capacity());
            }
            let ghost cache_before = *cache;
            let ghost xs_before = xs;
            layer_pass(
                ar,
                one,
                c,
                self.epsilon,
                self.theta,
                &self.layers[l],
                &mut x,
                cache,
                l,
                seq,
            )?;
            proof {
                xs = xs.push(x@);
                assert forall|k: int| 0 <= k < l + 1 implies #[trigger] self.is_layer_step(
                    ar,
                    one,
                    *old(cache),
                    *cache,
                    seq as int,
                    xs,
                    k,
                ) by {
                    if k < l {
                        assert(self.is_layer_step(
                            ar,
                            one,
                            *old(cache),
                            cache_before,
                            seq as int,
                            xs_before,
                            k,
                        ));
                        assert(xs[k] == xs_before[k] && xs[k + 1] == xs_before[k + 1]);
                        assert(cache.keys_of(k) == cache_before.keys_of(k));
                        assert(cache.values_of(k) == cache_before.values_of(k));
                    } else {
                        assert(xs[k] == xs_before[k] && xs[k + 1] == x@);
                        assert(cache_before.cursor(k) == old(cache).cursor(k));
                    }
                }
            }
            l += 1;
        }
        let _size = x.size();
        proof {
            lemma_shape_size_2(x.dims());
            assert((seq - 1) * d + 1 * d == seq * d) by (nonlinear_arith);
            assert(1 * d == d);
        }
        let row = shape2(1, d);
        let last = x.slice((seq - 1) * d, &row)?;
        let mut normed = last.slice(0, &row)?;
        rms_norm(ar, &mut normed, &last, &self.out_norm, self.epsilon)?;
        let logits = project(ar, one, &normed, &self.lm_head)?;
        proof {
            assert(last@ == row_of(xs[c.n_layers as int], d as int, seq - 1));
            assert(one_gives(ar, one) && is_gathered(self.embedding_of(), d as int, input@, xs[0])
                && is_projection(
                ar,
                one,
                normed@,
                self.lm_head_of(),
                logits@,
                1,
                c.vocab as int,
                d as int,
            ));
            assert(is_rms_normed(
                ar,
                self.epsilon_of(),
                row_of(xs[c.n_layers as int], d as int, seq - 1),
                self.out_norm_of(),
                normed@,
            ));
            assert(self.is_forward(ar, input@, *old(cache), *cache, logits@));
            assert(logits.dims() =~= seq![1usize, self.sizes().vocab]);
        }
        Ok(logits)
    }
}

/// Every layer of `after` holds `n` positions more than it held in `before`;
/// layers, capacity and vector length are the same.
pub open spec fn advanced<T>(before: KVCache<T>, after: KVCache<T>, n: nat) -> bool {
    &&& after.layers() == before.layers()
    &&& after.capacity() == before.capacity()
    &&& after.width() == before.width()
    &&& forall|l: int|
        0 <= l < before.layers() ==> #[trigger] after.cursor(l) == before.cursor(l) + n
}

/// What a generation with a model steps by: the model, the arithmetic, the
/// source of random numbers and the sampling parameters.
pub struct Decoder<'a, T, A, R> {
    pub model: &'a Llama<T>,
    pub ar: &'a A,
    pub rng: &'a R,
    pub top_p: T,
    pub top_k: u32,
    pub temperature: T,
}

/// `(after, r)` is an outcome that one step of `dec` on the window `fed` can
/// have: a forward pass that takes the cache from `before` to `after`, one
/// random number, and the token sampled with it from the logits; or the
/// refusal of the forward pass, with the cache as it was.
pub open spec fn is_decoding<T, A: Arith<T>, R: Draw<T>>(
    dec: Decoder<T, A, R>,
    before: KVCache<T>,
    fed: Seq<u32>,
    after: KVCache<T>,
    r: Result<u32, InferError>,
) -> bool {
    match r {
        Ok(tok) => exists|logits: Seq<T>, u: T|
            #![trigger dec.model.is_forward(dec.ar, fed, before, after, logits), draw_gives(dec.rng, u)]
            {
                &&& dec.model.accepts(fed, before)
                &&& dec.model.has_room(fed, before)
                &&& advanced(before, after, fed.len())
                &&& dec.model.is_forward(dec.ar, fed, before, after, logits)
                &&& draw_gives(dec.rng, u)
                &&& sample_of(dec.ar, logits, dec.top_p, dec.top_k, dec.temperature, u, tok)
            },
        Err(InferError::ShapeMismatch) => {
            &&& !dec.model.accepts(fed, before)
            &&& same_cache(before, after)
        },
        Err(InferError::CacheCapacityExceeded) => {
            &&& dec.model.accepts(fed, before)
            &&& !dec.model.has_room(fed, before)
            &&& same_cache(before, after)
        },
    }
}

/// With functional arithmetic, the hidden states before layer `l` are the
/// same in two forward passes over one window on caches that hold the same,
/// and so are the keys and values that the layers before it left.
proof fn lemma_forward_agrees_up_to<T, A: Arith<T>>(
    model: Llama<T>,
    ar: &A,
    one: T,
    input: Seq<u32>,
    b1: KVCache<T>,
    a1: KVCache<T>,
    xs1: Seq<Seq<T>>,
    b2: KVCache<T>,
    a2: KVCache<T>,
    xs2: Seq<Seq<T>>,
    l: int,
)
    requires
        is_functional(ar),
        model.is_sound(),
        same_cache(b1, b2),
        b1.layers() == model.sizes().n_layers,
        0 <= l <= model.sizes().n_layers,
        xs1.len() == model.sizes().n_layers + 1,
        xs2.len() == model.sizes().n_layers + 1,
        xs1[0] == xs2[0],
        xs1[0].len() == input.len() * model.sizes().d_model,
        forall|k: int|
            0 <= k < model.sizes().n_layers ==> #[trigger] model.is_layer_step(
                ar,
                one,
                b1,
                a1,
                input.len() as int,
                xs1,
                k,
            ),
        forall|k: int|
            0 <= k < model.sizes().n_layers ==> #[trigger] model.is_layer_step(
                ar,
                one,
                b2,
                a2,
                input.len() as int,
                xs2,
                k,
            ),
    ensures
        xs1[l] == xs2[l],
        xs1[l].len() == input.len() * model.sizes().d_model,
        forall|k: int|
            0 <= k < l ==> a1.keys_of(k) == a2.keys_of(k) && a1.values_of(k) == a2.values_of(k),
    decreases l,
{
    if l > 0 {
        lemma_forward_agrees_up_to(model, ar, one, input, b1, a1, xs1, b2, a2, xs2, l - 1);
        let k = l - 1;
        assert(model.is_layer_step(ar, one, b1, a1, input.len() as int, xs1, k));
        assert(model.is_layer_step(ar, one, b2, a2, input.len() as int, xs2, k));
        assert(b1.cursor(k) == b2.cursor(k));
        assert(b1.keys_of(k) == b2.keys_of(k));
        assert(b1.values_of(k) == b2.values_of(k));
        lemma_layer_pass_one_value(
            ar,
            one,
            model.sizes(),
            model.epsilon_of(),
            model.theta_of(),
            model.layer_of(k),
            b1.cursor(k) as usize,
            input.len() as int,
            xs1[k],
            b1.keys_of(k),
            b1.values_of(k),
            a1.keys_of(k),
            a1.values_of(k),
            xs1[k + 1],
            a2.keys_of(k),
            a2.values_of(k),
            xs2[k + 1],
        );
    }
}

/// With functional arithmetic, a forward pass has one outcome: over one
/// window, on caches that hold the same, two passes give the same logits and
/// leave the same keys and values.
pub proof fn lemma_forward_one_value<T, A: Arith<T>>(
    model: Llama<T>,
    ar: &A,
    input: Seq<u32>,
    b1: KVCache<T>,
    a1: KVCache<T>,
    logits1: Seq<T>,
    b2: KVCache<T>,
    a2: KVCache<T>,
    logits2: Seq<T>,
)
    requires
        is_functional(ar),
        model.is_sound(),
        same_cache(b1, b2),
        b1.layers() == model.sizes().n_layers,
        input.len() >= 1,
        model.is_forward(ar, input, b1, a1, logits1),
        model.is_forward(ar, input, b2, a2, logits2),
    ensures
        logits1 == logits2,
        forall|l: int|
            #![trigger a1.keys_of(l)]
            #![trigger a1.values_of(l)]
            0 <= l < b1.layers() ==> a1.keys_of(l) == a2.keys_of(l) && a1.values_of(l)
                == a2.values_of(l),
{
    let c = model.sizes();
    let seq = input.len() as int;
    let d = c.d_model as int;
    let n = c.n_layers as int;
    let (one1, xs1, last1) = choose|one: T, xs: Seq<Seq<T>>, last: Seq<T>|
        #![trigger one_gives(ar, one), is_gathered(model.embedding_of(), d, input, xs[0]), is_projection(ar, one, last, model.lm_head_of(), logits1, 1, c.vocab as int, d)]
        {
            &&& one_gives(ar, one)
            &&& xs.len() == c.n_layers + 1
            &&& is_gathered(model.embedding_of(), d, input, xs[0])
            &&& forall|l: int|
                0 <= l < c.n_layers ==> #[trigger] model.is_layer_step(ar, one, b1, a1, seq, xs, l)
            &&& is_rms_normed(
                ar,
                model.epsilon_of(),
                row_of(xs[c.n_layers as int], d, seq - 1),
                model.out_norm_of(),
                last,
            )
            &&& is_projection(ar, one, last, model.lm_head_of(), logits1, 1, c.vocab as int, d)
        };
    let (one2, xs2, last2) = choose|one: T, xs: Seq<Seq<T>>, last: Seq<T>|
        #![trigger one_gives(ar, one), is_gathered(model.embedding_of(), d, input, xs[0]), is_projection(ar, one, last, model.lm_head_of(), logits2, 1, c.vocab as int, d)]
        {
            &&& one_gives(ar, one)
            &&& xs.len() == c.n_layers + 1
            &&& is_gathered(model.embedding_of(), d, input, xs[0])
            &&& forall|l: int|
                0 <= l < c.n_layers ==> #[trigger] model.is_layer_step(ar, one, b2, a2, seq, xs, l)
            &&& is_rms_normed(
                ar,
                model.epsilon_of(),
                row_of(xs[c.n_layers as int], d, seq - 1),
                model.out_norm_of(),
                last,
            )
            &&& is_projection(ar, one, last, model.lm_head_of(), logits2, 1, c.vocab as int, d)
        };
    assert(one1 == one2);
    lemma_gathered_one_value(model.embedding_of(), d, input, xs1[0], xs2[0]);
    lemma_forward_agrees_up_to(model, ar, one1, input, b1, a1, xs1, b2, a2, xs2, n);
    lemma_row_in_bounds(seq - 1, seq, d);
    assert(row_of(xs1[n], d, seq - 1).len() == 1 * d);
    lemma_rms_normed_one_value(
        ar,
        model.epsilon_of(),
        row_of(xs1[n], d, seq - 1),
        model.out_norm_of(),
        last1,
        last2,
        1,
    );
    lemma_projection_one_value(
        ar,
        one1,
        last1,
        model.lm_head_of(),
        logits1,
        logits2,
        1,
        c.vocab as int,
        d,
    );
}

/// With functional arithmetic and greedy sampling parameters, the step of a
/// generation with a model is deterministic: on caches that hold the same
/// and for the same window, whatever is drawn, two steps give the same token
/// or the same error and leave caches that hold the same.
pub proof fn lemma_greedy_decoder_is_deterministic<T: Copy, A: Arith<T>, R: Draw<T>>(
    dec: Decoder<T, A, R>,
)
    requires
        is_functional(dec.ar),
        is_greedy(dec.ar, dec.top_p, dec.top_k, dec.temperature),
        dec.model.is_sound(),
    ensures
        is_deterministic_up_to(&dec, |a: KVCache<T>, b: KVCache<T>| same_cache(a, b)),
{
    let same = |a: KVCache<T>, b: KVCache<T>| same_cache(a, b);
    assert forall|
        s1: KVCache<T>,
        s2: KVCache<T>,
        fed1: Vec<u32>,
        fed2: Vec<u32>,
        a1: KVCache<T>,
        a2: KVCache<T>,
        r1: Result<u32, InferError>,
        r2: Result<u32, InferError>,
    |
        same(s1, s2) && fed1@ == fed2@ && #[trigger] step_gives(&dec, s1, fed1, a1, r1)
            && #[trigger] step_gives(&dec, s2, fed2, a2, r2) implies same(a1, a2) && r1 == r2 by {
        assert(is_decoding(dec, s1, fed1@, a1, r1));
        assert(is_decoding(dec, s2, fed2@, a2, r2));
        let fed = fed1@;
        assert(dec.model.accepts(fed, s1) == dec.model.accepts(fed, s2));
        assert(dec.model.has_room(fed, s1) == dec.model.has_room(fed, s2)) by {
            if dec.model.has_room(fed, s1) {
                assert forall|l: int| 0 <= l < s2.layers() implies #[trigger] s2.cursor(l)
                    + fed.len() <= s2.capacity() by {
                    assert(s1.cursor(l) + fed.len() <= s1.capacity());
                }
            }
            if dec.model.has_room(fed, s2) {
                assert forall|l: int| 0 <= l < s1.layers() implies #[trigger] s1.cursor(l)
                    + fed.len() <= s1.capacity() by {
                    assert(s2.cursor(l) + fed.len() <= s2.capacity());
                }
            }
        }
        match (r1, r2) {
            (Ok(t1), Ok(t2)) => {
                let (l1, u1) = choose|logits: Seq<T>, u: T|
                    #![trigger dec.model.is_forward(dec.ar, fed, s1, a1, logits), draw_gives(dec.rng, u)]
                    {
                        &&& dec.model.accepts(fed, s1)
                        &&& dec.model.has_room(fed, s1)
                        &&& advanced(s1, a1, fed.len())
                        &&& dec.model.is_forward(dec.ar, fed, s1, a1, logits)
                        &&& draw_gives(dec.rng, u)
                        &&& sample_of(dec.ar, logits, dec.top_p, dec.top_k, dec.temperature, u, t1)
                    };
                let (l2, u2) = choose|logits: Seq<T>, u: T|
                    #![trigger dec.model.is_forward(dec.ar, fed, s2, a2, logits), draw_gives(dec.rng, u)]
                    {
                        &&& dec.model.accepts(fed, s2)
                        &&& dec.model.has_room(fed, s2)
                        &&& advanced(s2, a2, fed.len())
                        &&& dec.model.is_forward(dec.ar, fed, s2, a2, logits)
                        &&& draw_gives(dec.rng, u)
                        &&& sample_of(dec.ar, logits, dec.top_p, dec.top_k, dec.temperature, u, t2)
                    };
                lemma_forward_one_value(*dec.model, dec.ar, fed, s1, a1, l1, s2, a2, l2);
                lemma_greedy_sample_one_value(
                    dec.ar,
                    l1,
                    dec.top_p,
                    dec.top_k,
                    dec.temperature,
                    u1,
                    u2,
                    t1,
                    t2,
                );
                assert(same_cache(a1, a2)) by {
                    assert forall|l: int|
                        #![trigger a1.cursor(l)]
                        #![trigger a1.keys_of(l)]
                        #![trigger a1.values_of(l)]
                        0 <= l < a1.layers() implies a1.cursor(l) == a2.cursor(l) && a1.keys_of(l)
                        == a2.keys_of(l) && a1.values_of(l) == a2.values_of(l) by {
                        assert(a1.cursor(l) == s1.cursor(l) + fed.len());
                        assert(a2.cursor(l) == s2.cursor(l) + fed.len());
                        assert(s1.cursor(l) == s2.cursor(l));
                    }
                }
            },
            (Err(_), Err(_)) => {
                assert(same_cache(a1, a2)) by {
                    assert forall|l: int|
                        #![trigger a1.cursor(l)]
                        #![trigger a1.keys_of(l)]
                        #![trigger a1.values_of(l)]
                        0 <= l < a1.layers() implies a1.cursor(l) == a2.cursor(l) && a1.keys_of(l)
                        == a2.keys_of(l) && a1.values_of(l) == a2.values_of(l) by {
                        assert(s1.cursor(l) == a1.cursor(l) && s1.keys_of(l) == a1.keys_of(l)
                            && s1.values_of(l) == a1.values_of(l));
                        assert(s2.cursor(l) == a2.cursor(l) && s2.keys_of(l) == a2.keys_of(l)
                            && s2.values_of(l) == a2.values_of(l));
                        assert(s1.cursor(l) == s2.cursor(l));
                    }
                }
            },
            _ => {},
        }
    }
}

/// With functional arithmetic and greedy sampling parameters, generation
/// repeats itself: two generations with the same prompt and limit, on from
/// caches that hold the same, emit the same tokens and leave caches that
/// hold the same, whatever is drawn.
pub proof fn lemma_greedy_generation_repeats<T: Copy, A: Arith<T>, R: Draw<T>>(
    dec: Decoder<T, A, R>,
    prompt: Seq<u32>,
    max_new_tokens: nat,
    eos: u32,
    start1: KVCache<T>,
    end1: KVCache<T>,
    emitted1: Vec<u32>,
    start2: KVCache<T>,
    end2: KVCache<T>,
    emitted2: Vec<u32>,
)
    requires
        is_functional(dec.ar),
        is_greedy(dec.ar, dec.top_p, dec.top_k, dec.temperature),
        dec.model.is_sound(),
        same_cache(start1, start2),
        is_generation(
            &dec,
            start1,
            prompt,
            max_new_tokens,
            eos,
            end1,
            Ok::<Vec<u32>, InferError>(emitted1),
        ),
        is_generation(
            &dec,
            start2,
            prompt,
            max_new_tokens,
            eos,
            end2,
            Ok::<Vec<u32>, InferError>(emitted2),
        ),
    ensures
        emitted1@ == emitted2@,
        same_cache(end1, end2),
{
    let same = |a: KVCache<T>, b: KVCache<T>| same_cache(a, b);
    lemma_greedy_decoder_is_deterministic(dec);
    lemma_generation_is_deterministic(
        &dec,
        same,
        prompt,
        max_new_tokens,
        eos,
        start1,
        emitted1@,
        end1,
        start2,
        emitted2@,
        end2,
    );
}

impl<'a, T: Copy, A: Arith<T>, R: Draw<T>> Step<KVCache<T>> for Decoder<'a, T, A, R> {
    fn step(&self, state: KVCache<T>, fed: Vec<u32>) -> (out: (KVCache<T>, Result<u32, InferError>))
        ensures
            is_decoding(*self, state, fed@, out.0, out.1),
    {
        let mut cache = state;
        match self.model.forward(self.ar, fed.as_slice(), &mut cache) {
            Ok(logits) => {
                let u = self.rng.draw();
                let _size = logits.size();
                proof {
                    lemma_shape_size_2(logits.dims());
                    assert(1 * self.model.sizes().vocab == self.model.sizes().vocab);
                }
                let _sizes = self.model.config();
                let sampled = random_sample(
                    self.ar,
                    &logits,
                    self.top_p,
                    self.top_k,
                    self.temperature,
                    u,
                );
                proof {
                    assert(sampled is Ok);
                    assert(self.model.is_forward(self.ar, fed@, state, cache, logits@)
                        && draw_gives(self.rng, u));
                }
                (cache, sampled)
            },
            Err(e) => (cache, Err(e)),
        }
    }
}

impl<T: Copy> Llama<T> {
    /// Generates from `prompt`: forward passes and samples in turn, on from
    /// what `cache` holds, until the model's end-of-sequence token was
    /// emitted or `max_new_tokens` tokens were. Gives back the cache and the
    /// tokens emitted, or the error of the step that failed.
    pub fn generate<A: Arith<T>, R: Draw<T>>(
        &self,
        ar: &A,
        rng: &R,
        cache: KVCache<T>,
        prompt: &[u32],
        max_new_tokens: usize,
        top_p: T,
        top_k: u32,
        temperature: T,
    ) -> (r: (KVCache<T>, Result<Vec<u32>, InferError>))
        ensures
            is_generation(
                &(Decoder { model: self, ar, rng, top_p, top_k, temperature }),
                cache,
                prompt@,
                max_new_tokens as nat,
                self.sizes().eos_token_id,
                r.0,
                r.1,
            ),
    {
        let dec = Decoder { model: self, ar, rng, top_p, top_k, temperature };
        crate::generate::generate(&dec, cache, prompt, max_new_tokens, self.config.eos_token_id)
    }
}

} // verus!
