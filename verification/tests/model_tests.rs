use lm_infer::arith::Arith;
use lm_infer::error::InferError;
use lm_infer::kvcache::KVCache;
use lm_infer::layout::{filled, head_rows, interleave, shape1, shape2, shape3, transpose};
use lm_infer::model::{append_positions, check_layer, Config, LayerWeights, Llama};
use lm_infer::operators::{add_projection, attention, project};
use lm_infer::sampling::Draw;
use lm_infer::tensor::Tensor;

struct Ieee;

impl Arith<f32> for Ieee {
    fn zero(&self) -> f32 {
        0.0
    }
    fn one(&self) -> f32 {
        1.0
    }
    fn from_count(&self, n: usize) -> f32 {
        n as f32
    }
    fn add(&self, a: f32, b: f32) -> f32 {
        a + b
    }
    fn sub(&self, a: f32, b: f32) -> f32 {
        a - b
    }
    fn mul(&self, a: f32, b: f32) -> f32 {
        a * b
    }
    fn div(&self, a: f32, b: f32) -> f32 {
        a / b
    }
    fn neg(&self, a: f32) -> f32 {
        -a
    }
    fn abs(&self, a: f32) -> f32 {
        a.abs()
    }
    fn max(&self, a: f32, b: f32) -> f32 {
        a.max(b)
    }
    fn min(&self, a: f32, b: f32) -> f32 {
        a.min(b)
    }
    fn exp(&self, a: f32) -> f32 {
        a.exp()
    }
    fn sqrt(&self, a: f32) -> f32 {
        a.sqrt()
    }
    fn powf(&self, a: f32, e: f32) -> f32 {
        a.powf(e)
    }
    fn sin_cos(&self, a: f32) -> (f32, f32) {
        a.sin_cos()
    }
    fn le(&self, a: f32, b: f32) -> bool {
        a <= b
    }
    fn order_key(&self, a: f32) -> i64 {
        let bits = a.to_bits() as i32;
        (bits ^ (((bits >> 31) as u32) >> 1) as i32) as i64
    }
}

/// Always draws the same number.
struct Fixed(f32);

impl Draw<f32> for Fixed {
    fn draw(&self) -> f32 {
        self.0
    }
}

fn near(a: &[f32], b: &[f32], tol: f32) -> bool {
    a.len() == b.len() && a.iter().zip(b).all(|(x, y)| (x - y).abs() <= tol)
}

/// Weights that differ from element to element, small enough to keep the
/// activations tame.
fn weights(rows: usize, cols: usize, seed: u32) -> Tensor<f32> {
    let mut state = seed.wrapping_mul(2654435761).wrapping_add(12345);
    let mut data = Vec::with_capacity(rows * cols);
    for _ in 0..rows * cols {
        state = state.wrapping_mul(1664525).wrapping_add(1013904223);
        data.push(((state >> 8) % 2001) as f32 / 1000.0 - 1.0);
    }
    Tensor::new(data, &vec![rows, cols])
}

fn vector(n: usize, seed: u32) -> Tensor<f32> {
    let mut t = weights(1, n, seed);
    assert_eq!(t.reshape(&vec![n]), Ok(()));
    t
}

fn config() -> Config {
    Config {
        n_layers: 2,
        n_heads: 2,
        head_dim: 4,
        d_model: 6,
        d_ff: 10,
        vocab: 7,
        max_seq_len: 5,
        eos_token_id: 6,
    }
}

fn layer(c: &Config, seed: u32) -> LayerWeights<f32> {
    let width = c.n_heads * c.head_dim;
    LayerWeights {
        att_norm: vector(c.d_model, seed),
        wq: weights(width, c.d_model, seed + 1),
        wk: weights(width, c.d_model, seed + 2),
        wv: weights(width, c.d_model, seed + 3),
        wo: weights(c.d_model, width, seed + 4),
        ffn_norm: vector(c.d_model, seed + 5),
        w_gate: weights(c.d_ff, c.d_model, seed + 6),
        w_up: weights(c.d_ff, c.d_model, seed + 7),
        w_down: weights(c.d_model, c.d_ff, seed + 8),
    }
}

fn model() -> Llama<f32> {
    let c = config();
    let layers = vec![layer(&c, 100), layer(&c, 200)];
    match Llama::new(
        c,
        weights(c.vocab, c.d_model, 1),
        layers,
        vector(c.d_model, 2),
        weights(c.vocab, c.d_model, 3),
        1e-5,
        10000.0,
    ) {
        Ok(m) => m,
        Err(e) => panic!("model refused: {:?}", e),
    }
}

#[test]
fn shapes_hold_their_dimensions() {
    assert_eq!(shape1(3), vec![3]);
    assert_eq!(shape2(3, 4), vec![3, 4]);
    assert_eq!(shape3(3, 4, 5), vec![3, 4, 5]);
    assert_eq!(filled(7u32, 3), vec![7, 7, 7]);
    assert_eq!(filled(7u32, 0), Vec::<u32>::new());
}

#[test]
fn head_rows_pick_one_head() {
    // two positions, three heads, two elements
    let x: Vec<u32> = (0..12).collect();
    assert_eq!(head_rows(&x, 2, 3, 2, 0), vec![0, 1, 6, 7]);
    assert_eq!(head_rows(&x, 2, 3, 2, 1), vec![2, 3, 8, 9]);
    assert_eq!(head_rows(&x, 2, 3, 2, 2), vec![4, 5, 10, 11]);
    assert_eq!(head_rows::<u32>(&[], 2, 3, 0, 1), Vec::<u32>::new());
}

#[test]
fn transpose_turns_rows_into_columns() {
    assert_eq!(transpose(&[1u32, 2, 3, 4, 5, 6], 2, 3), vec![1, 4, 2, 5, 3, 6]);
    assert_eq!(transpose(&[1u32, 2, 3], 1, 3), vec![1, 2, 3]);
    assert_eq!(transpose::<u32>(&[], 0, 3), Vec::<u32>::new());
}

#[test]
fn interleave_undoes_head_rows() {
    let x: Vec<u32> = (0..12).collect();
    let outs = vec![
        head_rows(&x, 2, 3, 2, 0),
        head_rows(&x, 2, 3, 2, 1),
        head_rows(&x, 2, 3, 2, 2),
    ];
    assert_eq!(interleave(&outs, 2, 3, 2), x);
}

#[test]
fn project_multiplies_by_the_transpose() {
    let x = Tensor::<f32>::new(vec![1., 2., 3., 4., 5., 6.], &vec![2, 3]);
    let w = Tensor::<f32>::new(vec![1., 0., 0., 0., 1., 0., 1., 1., 1., 2., 2., 2.], &vec![4, 3]);
    let y = project(&Ieee, 0.5, &x, &w).unwrap();
    assert_eq!(y.shape(), &vec![2, 4]);
    assert_eq!(y.data(), &[0.5, 1., 3., 6., 2., 2.5, 7.5, 15.]);
    let narrow = Tensor::<f32>::new(vec![1., 2.], &vec![1, 2]);
    assert!(matches!(
        project(&Ieee, 1.0, &x, &narrow),
        Err(InferError::ShapeMismatch)
    ));
    let flat = Tensor::<f32>::new(vec![1., 2., 3.], &vec![3]);
    assert!(matches!(
        project(&Ieee, 1.0, &flat, &w),
        Err(InferError::ShapeMismatch)
    ));
}

#[test]
fn add_projection_adds_to_what_is_there() {
    let mut c = Tensor::<f32>::new(vec![1., 2., 3., 4.], &vec![2, 2]);
    let a = Tensor::<f32>::new(vec![1., 2., 3., 4., 5., 6.], &vec![2, 3]);
    let b = Tensor::<f32>::new(vec![1., 2., 3., 4., 5., 6.], &vec![2, 3]);
    assert_eq!(add_projection(&Ieee, &mut c, &a, &b), Ok(()));
    assert_eq!(c.data(), &[15., 34., 35., 81.]);
    let mut wrong = Tensor::<f32>::new(vec![1., 2.], &vec![1, 2]);
    assert_eq!(
        add_projection(&Ieee, &mut wrong, &a, &b),
        Err(InferError::ShapeMismatch)
    );
    assert_eq!(wrong.data(), &[1., 2.]);
}

#[test]
fn attention_of_one_position_returns_its_value() {
    let q = Tensor::<f32>::new(vec![1., 2., 3., 4.], &vec![1, 2, 2]);
    let k = Tensor::<f32>::new(vec![5., 6., 7., 8.], &vec![1, 2, 2]);
    let v = Tensor::<f32>::new(vec![9., 10., 11., 12.], &vec![1, 2, 2]);
    let att = attention(&Ieee, &q, &k, &v).unwrap();
    assert_eq!(att.shape(), &vec![1, 4]);
    assert_eq!(att.data(), &[9., 10., 11., 12.]);
}

#[test]
fn attention_weighs_the_values_by_the_softmax_of_the_scores() {
    // one head of two elements; two queries over two keys
    let q = Tensor::<f32>::new(vec![1., 0., 0., 2.], &vec![2, 1, 2]);
    let k = Tensor::<f32>::new(vec![1., 1., 3., 0.], &vec![2, 1, 2]);
    let v = Tensor::<f32>::new(vec![10., 20., 30., 40.], &vec![2, 1, 2]);
    let att = attention(&Ieee, &q, &k, &v).unwrap();
    // the first query sees the first key only
    assert_eq!(&att.data()[..2], &[10., 20.]);
    // the second query scores 2 / sqrt(2) against the first key and 0 against the second
    let s = 2.0f32 / 2.0f32.sqrt();
    let (e0, e1) = (1.0f32, (0.0 - s).exp());
    let (w0, w1) = (e0 / (e0 + e1), e1 / (e0 + e1));
    assert!(near(
        &att.data()[2..],
        &[w0 * 10. + w1 * 30., w0 * 20. + w1 * 40.],
        1e-5
    ));
}

#[test]
fn attention_over_a_longer_past_masks_only_the_future() {
    // one query at the last of three positions: nothing is masked
    let q = Tensor::<f32>::new(vec![0., 0.], &vec![1, 1, 2]);
    let k = Tensor::<f32>::new(vec![1., 2., 3., 4., 5., 6.], &vec![3, 1, 2]);
    let v = Tensor::<f32>::new(vec![3., 0., 6., 0., 9., 3.], &vec![3, 1, 2]);
    let att = attention(&Ieee, &q, &k, &v).unwrap();
    assert!(near(att.data(), &[6., 1.], 1e-5));
}

#[test]
fn attention_refuses_shapes_that_do_not_fit() {
    let q = Tensor::<f32>::new(vec![1., 2., 3., 4.], &vec![2, 1, 2]);
    let k = Tensor::<f32>::new(vec![5., 6.], &vec![1, 1, 2]);
    let v = Tensor::<f32>::new(vec![9., 10.], &vec![1, 1, 2]);
    assert!(matches!(
        attention(&Ieee, &q, &k, &v),
        Err(InferError::ShapeMismatch)
    ));
    let k2 = Tensor::<f32>::new(vec![5., 6., 7., 8.], &vec![2, 1, 2]);
    assert!(matches!(
        attention(&Ieee, &q, &k2, &v),
        Err(InferError::ShapeMismatch)
    ));
    let flat = Tensor::<f32>::new(vec![5., 6., 7., 8.], &vec![2, 2]);
    assert!(matches!(
        attention(&Ieee, &q, &flat, &flat),
        Err(InferError::ShapeMismatch)
    ));
}

#[test]
fn append_positions_appends_row_by_row() {
    let mut cache = KVCache::<u32>::new(2, 4, 2);
    assert_eq!(
        append_positions(&mut cache, 1, &[1, 2, 3, 4, 5, 6], &[7, 8, 9, 10, 11, 12], 3),
        Ok(())
    );
    assert_eq!(cache.len(1), Some(3));
    assert_eq!(cache.len(0), Some(0));
    assert_eq!(cache.keys(1), Some(&[1, 2, 3, 4, 5, 6][..]));
    assert_eq!(cache.values(1), Some(&[7, 8, 9, 10, 11, 12][..]));
}

#[test]
fn config_check_finds_what_does_not_fit() {
    let c = config();
    assert!(c.check());
    assert!(!Config { vocab: 0, ..c }.check());
    assert!(!Config { max_seq_len: usize::MAX, ..c }.check());
    assert!(!Config { n_heads: usize::MAX, head_dim: 2, ..c }.check());
    assert!(Config { n_layers: 0, ..c }.check());
}

#[test]
fn check_layer_compares_every_shape() {
    let c = config();
    assert!(check_layer(&c, &layer(&c, 1)));
    let mut wrong = layer(&c, 1);
    wrong.w_down = weights(c.d_ff, c.d_model, 9);
    assert!(!check_layer(&c, &wrong));
    let mut wrong = layer(&c, 1);
    wrong.att_norm = weights(1, c.d_model, 9);
    assert!(!check_layer(&c, &wrong));
}

#[test]
fn new_refuses_weights_that_do_not_fit() {
    let c = config();
    let r = Llama::new(
        c,
        weights(c.vocab, c.d_model, 1),
        vec![layer(&c, 100)],
        vector(c.d_model, 2),
        weights(c.vocab, c.d_model, 3),
        1e-5,
        10000.0,
    );
    assert!(matches!(r, Err(InferError::ShapeMismatch)));
    let r = Llama::new(
        c,
        weights(c.vocab + 1, c.d_model, 1),
        vec![layer(&c, 100), layer(&c, 200)],
        vector(c.d_model, 2),
        weights(c.vocab, c.d_model, 3),
        1e-5,
        10000.0,
    );
    assert!(matches!(r, Err(InferError::ShapeMismatch)));
}

#[test]
fn new_cache_has_the_sizes_of_the_model() {
    let m = model();
    let cache = m.new_cache();
    assert_eq!(cache.n_layers(), 2);
    assert_eq!(cache.max_seq_len(), 5);
    assert_eq!(cache.vector_len(), 8);
    assert_eq!(cache.len(0), Some(0));
    assert_eq!(m.config().vocab, 7);
}

#[test]
fn forward_gives_logits_and_fills_the_cache() {
    let m = model();
    let mut cache = m.new_cache();
    let logits = m.forward(&Ieee, &[1, 4, 2], &mut cache).unwrap();
    assert_eq!(logits.shape(), &vec![1, 7]);
    assert!(logits.data().iter().all(|v| v.is_finite()));
    assert_eq!(cache.len(0), Some(3));
    assert_eq!(cache.len(1), Some(3));
    assert_eq!(cache.keys(0).map(|k| k.len()), Some(24));
    assert_eq!(cache.values(1).map(|v| v.len()), Some(24));
}

#[test]
fn forward_step_by_step_agrees_with_forward_at_once() {
    let m = model();
    let mut whole = m.new_cache();
    let at_once = m.forward(&Ieee, &[1, 4, 2, 5], &mut whole).unwrap();
    let mut stepped = m.new_cache();
    m.forward(&Ieee, &[1, 4], &mut stepped).unwrap();
    m.forward(&Ieee, &[2], &mut stepped).unwrap();
    let last = m.forward(&Ieee, &[5], &mut stepped).unwrap();
    assert!(near(at_once.data(), last.data(), 1e-3));
    for l in 0..2 {
        assert!(near(whole.keys(l).unwrap(), stepped.keys(l).unwrap(), 1e-3));
        assert!(near(whole.values(l).unwrap(), stepped.values(l).unwrap(), 1e-3));
    }
}

#[test]
fn forward_refuses_without_touching_the_cache() {
    let m = model();
    let mut cache = m.new_cache();
    m.forward(&Ieee, &[1, 4, 2], &mut cache).unwrap();
    let keys_before = cache.keys(1).unwrap().to_vec();
    assert!(matches!(
        m.forward(&Ieee, &[], &mut cache),
        Err(InferError::ShapeMismatch)
    ));
    assert!(matches!(
        m.forward(&Ieee, &[1, 7], &mut cache),
        Err(InferError::ShapeMismatch)
    ));
    assert!(matches!(
        m.forward(&Ieee, &[1, 2, 3], &mut cache),
        Err(InferError::CacheCapacityExceeded)
    ));
    assert_eq!(cache.len(0), Some(3));
    assert_eq!(cache.len(1), Some(3));
    assert_eq!(cache.keys(1).unwrap(), &keys_before[..]);
    let mut other = KVCache::<f32>::new(3, 5, 8);
    assert!(matches!(
        m.forward(&Ieee, &[1], &mut other),
        Err(InferError::ShapeMismatch)
    ));
    let mut narrow = KVCache::<f32>::new(2, 5, 4);
    assert!(matches!(
        m.forward(&Ieee, &[1], &mut narrow),
        Err(InferError::ShapeMismatch)
    ));
    m.forward(&Ieee, &[1, 2], &mut cache).unwrap();
    assert!(matches!(
        m.forward(&Ieee, &[1], &mut cache),
        Err(InferError::CacheCapacityExceeded)
    ));
}

#[test]
fn generate_with_greedy_settings_repeats_itself() {
    let m = model();
    let (cache, first) = m.generate(&Ieee, &Fixed(0.3), m.new_cache(), &[1, 4], 3, 0.8, 30, 0.0);
    let first = first.unwrap();
    let (_, second) = m.generate(&Ieee, &Fixed(0.9), m.new_cache(), &[1, 4], 3, 0.8, 30, 0.0);
    assert_eq!(Ok(first.clone()), second);
    assert!(first.len() <= 3);
    assert!(first.len() == 3 || first.last() == Some(&6));
    assert!(first.iter().all(|t| *t < 7));
    assert_eq!(cache.len(0), Some(2 + first.len() - 1));
}

#[test]
fn generate_is_the_argmax_of_the_forward_pass_when_greedy() {
    let m = model();
    let mut cache = m.new_cache();
    let logits = m.forward(&Ieee, &[3, 1], &mut cache).unwrap();
    let mut best = 0;
    for (i, v) in logits.data().iter().enumerate() {
        if *v > logits.data()[best] {
            best = i;
        }
    }
    let (_, out) = m.generate(&Ieee, &Fixed(0.5), m.new_cache(), &[3, 1], 1, 0.8, 30, 0.0);
    assert_eq!(out, Ok(vec![best as u32]));
}

#[test]
fn generate_stops_where_the_cache_is_full() {
    let m = model();
    let (cache, out) = m.generate(&Ieee, &Fixed(0.5), m.new_cache(), &[1, 2, 3, 4], 50, 0.9, 5, 1.0);
    match out {
        Ok(tokens) => assert_eq!(tokens.last(), Some(&6)),
        Err(e) => {
            assert_eq!(e, InferError::CacheCapacityExceeded);
            assert_eq!(cache.len(0), Some(5));
        }
    }
}
