//! The forward pass: schedules carried out on small models, with plain kernels.
use std::collections::HashMap;

use glint::cache::paged::PagedKvCache;
use glint::cache::pool::{PagePool, PAGE_SIZE};
use glint::cache::prefix::PrefixCacheConfig;
use glint::sampling::SamplerConfig;
use glint::server::batch::{Admission, Engine, EngineShape, EngineStep, InferenceRequest};
use glint::server::engine::EngineLimits;
use glint::session::CacheFormat;
use glint::tensor::dequantize::Dequantized;
use glint::tensor::ggml::GgmlType;
use glint::tensor::index::{LoadedTensor, StoredTensor, TensorIndex};
use glint::tensor::quantized::QuantizedTensor;
use glint::tensor::tiles::tiles;
use glint::transformer::config::{attn_heads, ModelConfig};
use glint::transformer::forward::{
    embed, feed_forward, forward, forward_batch, forward_batch_lora, forward_one, forward_one_lora,
    forward_prefill, forward_prefill_all, forward_prefill_inner, forward_prefill_lora, Lane,
    LayerSwitches, LoraLayer, Matrix, ModelPlan, Op, Step,
};
use glint::transformer::rotary::rope_pairs;
use glint::transformer::weights::{LayerWeights, TransformerWeights};
use tokio::sync::mpsc;

/// EOS id outside the small models' vocabularies.
const NO_EOS: u32 = 9999;

// ── Kernels ──────────────────────────────────────────────────────────────────

fn floats(d: &Dequantized) -> Vec<f32> {
    match d {
        Dequantized::Values(v) => v.iter().map(|b| f32::from_bits(*b)).collect(),
        Dequantized::Terms(t) => t
            .iter()
            .map(|t| {
                let v = f32::from_bits(t.d) * t.code.scale as f32 * t.code.q as f32;
                t.code.offset.map_or(v, |o| v + f32::from_bits(t.m) * o as f32)
            })
            .collect(),
    }
}

fn dot(a: &[f32], b: &[f32]) -> f32 {
    a.iter().zip(b).map(|(x, y)| x * y).sum()
}

fn matvec(m: &QuantizedTensor, x: &[f32]) -> Vec<f32> {
    assert_eq!(m.cols(), x.len());
    (0..m.rows()).map(|r| dot(&floats(&m.row_as_f32(r)), x)).collect()
}

fn add_to(a: &mut [f32], b: &[f32]) {
    assert_eq!(a.len(), b.len());
    for (x, y) in a.iter_mut().zip(b) {
        *x += y;
    }
}

fn rms_norm(x: &[f32], w: &[f32]) -> Vec<f32> {
    assert_eq!(x.len(), w.len());
    let mean_sq: f32 = x.iter().map(|v| v * v).sum::<f32>() / x.len() as f32;
    let r = 1.0 / (mean_sq + 1e-5).sqrt();
    x.iter().zip(w).map(|(x, w)| x * r * w).collect()
}

fn argmax(logits: &[f32]) -> u32 {
    logits
        .iter()
        .enumerate()
        .max_by(|(_, a), (_, b)| a.total_cmp(b))
        .map(|(i, _)| i as u32)
        .unwrap()
}

// ── Models ───────────────────────────────────────────────────────────────────

#[derive(Default)]
struct Extras {
    q_bias: Vec<f32>,
    k_bias: Vec<f32>,
    v_bias: Vec<f32>,
    post_attn_norm: Vec<f32>,
    post_ffn_norm: Vec<f32>,
}

/// A rank-one update of the output projection of the only layer.
struct Update {
    a: QuantizedTensor,
    b: QuantizedTensor,
    scale: f32,
}

struct Model {
    weights: TransformerWeights,
    plan: ModelPlan,
    extras: Vec<Extras>,
    updates: Vec<Update>,
    query_scale: Option<f32>,
    attn_softcap: Option<f32>,
    final_softcap: f32,
}

type Rows = (Vec<f32>, Vec<f32>);

/// Keys and values by page. A cache without pages of a pool numbers its own.
#[derive(Clone, Default)]
struct Cache {
    store: HashMap<usize, HashMap<usize, Rows>>,
}

#[derive(Clone, Default)]
struct State {
    x: Vec<f32>,
    normed: Vec<f32>,
    q: Vec<f32>,
    k: Vec<f32>,
    v: Vec<f32>,
    attn: Vec<f32>,
    gate: Vec<f32>,
    up: Vec<f32>,
    out: Vec<f32>,
    logits: Vec<f32>,
}

impl State {
    fn input(&self, m: Matrix) -> &[f32] {
        match m {
            Matrix::AttnOutput => &self.attn,
            Matrix::FfnDown => &self.gate,
            _ => &self.normed,
        }
    }

    fn result(&mut self, m: Matrix) -> &mut Vec<f32> {
        match m {
            Matrix::AttnQ => &mut self.q,
            Matrix::AttnK => &mut self.k,
            Matrix::AttnV => &mut self.v,
            Matrix::FfnGate => &mut self.gate,
            Matrix::FfnUp => &mut self.up,
            Matrix::AttnOutput | Matrix::FfnDown => &mut self.out,
        }
    }
}

impl Model {
    fn matrix(&self, layer: usize, m: Matrix) -> &QuantizedTensor {
        let l = &self.weights.layers[layer];
        match m {
            Matrix::AttnQ => &l.attn_q,
            Matrix::AttnK => &l.attn_k,
            Matrix::AttnV => &l.attn_v,
            Matrix::AttnOutput => &l.attn_output,
            Matrix::FfnGate => &l.ffn_gate,
            Matrix::FfnUp => &l.ffn_up,
            Matrix::FfnDown => &l.ffn_down,
        }
    }

    fn slot(&self, pages: Option<&[usize]>, layer: usize, pos: usize) -> (usize, usize) {
        let i = pos / PAGE_SIZE * self.weights.layers.len() + layer;
        (pages.map_or(i, |p| p[i]), pos % PAGE_SIZE)
    }

    fn row<'a>(
        &self,
        cache: &'a Cache,
        pages: Option<&[usize]>,
        layer: usize,
        pos: usize,
    ) -> &'a Rows {
        let (page, at) = self.slot(pages, layer, pos);
        &cache.store[&page][&at]
    }

    fn attend<'a>(
        &self,
        q: &[f32],
        start: usize,
        len: usize,
        read: impl Fn(usize) -> &'a Rows,
    ) -> Vec<f32> {
        let c = &self.plan.config;
        let hd = c.head_dim() as usize;
        let scale = self.query_scale.unwrap_or(1.0 / (hd as f32).sqrt());
        let mut out = vec![0.0f32; c.head_count as usize * hd];
        for slot in attn_heads(c.head_count as usize, c.head_count_kv as usize, hd) {
            let query = &q[slot.offset..slot.offset + hd];
            let at = slot.kv_head * hd;
            let (mut max, mut total) = (f32::NEG_INFINITY, 0.0f32);
            let mut acc = vec![0.0f32; hd];
            for tile in tiles(start, len) {
                let scores: Vec<f32> = (tile.start..tile.start + tile.len)
                    .map(|p| {
                        let s = dot(query, &read(p).0[at..at + hd]) * scale;
                        self.attn_softcap.map_or(s, |cap| cap * (s / cap).tanh())
                    })
                    .collect();
                let new_max = scores.iter().cloned().fold(max, f32::max);
                let rescale = (max - new_max).exp();
                acc.iter_mut().for_each(|o| *o *= rescale);
                total *= rescale;
                for (i, s) in scores.iter().enumerate() {
                    let e = (s - new_max).exp();
                    let value = &read(tile.start + i).1[at..at + hd];
                    acc.iter_mut().zip(value).for_each(|(o, v)| *o += e * v);
                    total += e;
                }
                max = new_max;
            }
            for (d, v) in acc.iter().enumerate() {
                out[slot.offset + d] = v / total;
            }
        }
        out
    }

    fn apply(
        &self,
        op: Op,
        s: &mut State,
        lora: Option<usize>,
        cache: &mut Cache,
        pages: Option<&[usize]>,
    ) {
        match op {
            Op::Embed { token } => {
                s.x = floats(&self.weights.token_embedding.row_as_f32(token as usize));
            }
            Op::AttnNorm { layer } => {
                s.normed = rms_norm(&s.x, &floats(&self.weights.layers[layer].attn_norm.values));
            }
            Op::FfnNorm { layer } => {
                s.normed = rms_norm(&s.x, &floats(&self.weights.layers[layer].ffn_norm.values));
            }
            Op::Project { layer, matrix } => {
                *s.result(matrix) = matvec(self.matrix(layer, matrix), s.input(matrix));
            }
            Op::Bias { layer, matrix } => {
                let e = &self.extras[layer];
                let bias = match matrix {
                    Matrix::AttnQ => &e.q_bias,
                    Matrix::AttnK => &e.k_bias,
                    _ => &e.v_bias,
                };
                add_to(s.result(matrix), bias);
            }
            Op::Lora { layer, matrix } => {
                assert_eq!((layer, matrix), (0, Matrix::AttnOutput));
                let u = &self.updates[lora.unwrap()];
                let mut y = matvec(&u.b, &matvec(&u.a, s.input(matrix)));
                y.iter_mut().for_each(|v| *v *= u.scale);
                add_to(s.result(matrix), &y);
            }
            Op::Rope { matrix, pos } => {
                let c = &self.plan.config;
                let hd = c.head_dim() as usize;
                let x = s.result(matrix).clone();
                let out = s.result(matrix);
                for p in rope_pairs(x.len(), hd, c.rot_dim() as usize) {
                    let freq = 1.0 / 10000.0f32.powf(p.dim as f32 / hd as f32);
                    let (sin, cos) = (pos as f32 * freq).sin_cos();
                    out[p.first] = x[p.first] * cos - x[p.first + 1] * sin;
                    out[p.first + 1] = x[p.first] * sin + x[p.first + 1] * cos;
                }
            }
            Op::WriteKv { layer, pos } => {
                let (page, at) = self.slot(pages, layer, pos);
                cache.store.entry(page).or_default().insert(at, (s.k.clone(), s.v.clone()));
            }
            Op::Attend { layer, window } => {
                let cache = &*cache;
                s.attn = self.attend(&s.q, window.start, window.len, |p| {
                    self.row(cache, pages, layer, p)
                });
            }
            Op::PostAttnNorm { layer } => {
                s.out = rms_norm(&s.out, &self.extras[layer].post_attn_norm);
            }
            Op::PostFfnNorm { layer } => {
                s.out = rms_norm(&s.out, &self.extras[layer].post_ffn_norm);
            }
            Op::AddAttn | Op::AddFfn => add_to(&mut s.x, &s.out),
            Op::Activate => {
                for (g, u) in s.gate.iter_mut().zip(&s.up) {
                    *g = *g * (1.0 / (1.0 + (-*g).exp())) * u;
                }
            }
            Op::FinalNorm => {
                s.normed = rms_norm(&s.x, &floats(&self.weights.output_norm.values));
            }
            Op::LmHead => s.logits = matvec(&self.weights.output, &s.normed),
            Op::Softcap => {
                for v in s.logits.iter_mut() {
                    *v = self.final_softcap * (*v / self.final_softcap).tanh();
                }
            }
            Op::Advance => {}
            Op::AttendFresh { .. } | Op::Pool { .. } => unreachable!("not in a cached schedule"),
        }
    }

    fn one(
        &self,
        token: u32,
        pos: usize,
        lora: Option<usize>,
        cache: &mut Cache,
        pages: Option<&[usize]>,
    ) -> Vec<f32> {
        let mut s = State::default();
        for op in forward_one_lora(&self.plan, &Lane { token, pos, lora }) {
            self.apply(op, &mut s, lora, cache, pages);
        }
        s.logits
    }

    /// One step of several lanes, each with a cache of its own.
    fn batch(&self, lanes: Vec<Lane>, caches: &mut [Cache]) -> Vec<Vec<f32>> {
        let mut states = vec![State::default(); lanes.len()];
        for step in forward_batch_lora(&self.plan, &lanes, false) {
            match step {
                Step::All { op } => {
                    for (i, s) in states.iter_mut().enumerate() {
                        self.apply(op, s, lanes[i].lora, &mut caches[i], None);
                    }
                }
                Step::One { lane, op } => {
                    let lora = lanes[lane].lora;
                    self.apply(op, &mut states[lane], lora, &mut caches[lane], None);
                }
            }
        }
        states.into_iter().map(|s| s.logits).collect()
    }

    /// The logits of the last token of a prompt.
    fn prefill(
        &self,
        tokens: &[u32],
        offset: usize,
        cache: &mut Cache,
        pages: Option<&[usize]>,
    ) -> Vec<f32> {
        let mut states = vec![State::default(); tokens.len()];
        let (steps, last) = forward_prefill(&self.plan, tokens, offset);
        for step in steps {
            match step {
                Step::All { op } => {
                    for s in states.iter_mut() {
                        self.apply(op, s, None, cache, pages);
                    }
                }
                Step::One { lane, op } => self.apply(op, &mut states[lane], None, cache, pages),
            }
        }
        states.swap_remove(last.unwrap()).logits
    }

    fn prefilled(&self, prompt: &[u32]) -> (Cache, Vec<f32>) {
        let mut cache = Cache::default();
        let logits = self.prefill(prompt, 0, &mut cache, None);
        (cache, logits)
    }

    /// Carry out a schedule that caches nothing; the states, and the sum of those pooled.
    fn fresh(&self, steps: Vec<Step>, n: usize) -> (Vec<State>, Vec<f32>) {
        let mut states = vec![State::default(); n];
        let mut sum = vec![0.0f32; self.plan.config.embedding_length as usize];
        let mut none = Cache::default();
        for step in steps {
            let Step::One { lane, op } = step else {
                panic!("a fresh schedule goes position by position");
            };
            match op {
                Op::AttendFresh { len, .. } => {
                    assert_eq!(len, lane + 1);
                    let rows: Vec<Rows> =
                        (0..len).map(|p| (states[p].k.clone(), states[p].v.clone())).collect();
                    let attn = self.attend(&states[lane].q, 0, len, |p| &rows[p]);
                    states[lane].attn = attn;
                }
                Op::Pool { count } => {
                    assert_eq!(count, n);
                    add_to(&mut sum, &states[lane].normed);
                }
                op => self.apply(op, &mut states[lane], None, &mut none, None),
            }
        }
        (states, sum)
    }

    fn uncached(&self, tokens: &[u32]) -> Vec<f32> {
        let steps = forward(&self.plan, tokens);
        self.fresh(steps, tokens.len()).0.pop().unwrap().logits
    }

    fn embedding(&self, tokens: &[u32]) -> Vec<f32> {
        let (_, sum) = self.fresh(embed(&self.plan, tokens), tokens.len());
        sum.iter().map(|v| v / tokens.len() as f32).collect()
    }
}

fn matrix(rows: usize, cols: usize, f: impl Fn(usize) -> f32) -> QuantizedTensor {
    let bits: Vec<u32> = (0..rows * cols).map(|i| f(i).to_bits()).collect();
    QuantizedTensor::from_f32(&bits, rows, cols)
}

fn vector(v: &[f32]) -> LoadedTensor {
    LoadedTensor {
        values: Dequantized::Values(v.iter().map(|x| x.to_bits()).collect()),
        shape: vec![v.len()],
    }
}

fn tiny_config() -> ModelConfig {
    ModelConfig {
        context_length: 32,
        embedding_length: 4,
        block_count: 1,
        head_count: 2,
        head_count_kv: 1,
        vocab_size: 8,
        sliding_window: None,
        sliding_window_alternating: false,
        head_dim_override: None,
        rotary_dim: None,
        final_softcap: false,
    }
}

fn tiny_layer(attn_norm: &[f32], ffn_norm: &[f32]) -> LayerWeights {
    LayerWeights {
        attn_norm: vector(attn_norm),
        ffn_norm: vector(ffn_norm),
        attn_q: matrix(4, 4, |i| i as f32 * 0.05 - 0.4),
        attn_k: matrix(2, 4, |i| i as f32 * 0.1 - 0.3),
        attn_v: matrix(2, 4, |i| i as f32 * 0.07 - 0.2),
        attn_output: matrix(4, 4, |i| i as f32 * 0.03 - 0.2),
        ffn_gate: matrix(8, 4, |i| i as f32 * 0.02 - 0.3),
        ffn_up: matrix(8, 4, |i| i as f32 * 0.015 - 0.2),
        ffn_down: matrix(4, 8, |i| i as f32 * 0.025 - 0.4),
    }
}

fn plain_model(weights: TransformerWeights, config: ModelConfig) -> Model {
    let n = weights.layers.len();
    let off = LayerSwitches {
        q_bias: false,
        k_bias: false,
        v_bias: false,
        post_attn_norm: false,
        post_ffn_norm: false,
    };
    Model {
        weights,
        plan: ModelPlan { config, layers: vec![off; n], adapters: Vec::new(), lora: None },
        extras: (0..n).map(|_| Extras::default()).collect(),
        updates: Vec::new(),
        query_scale: None,
        attn_softcap: None,
        final_softcap: 1.0,
    }
}

fn tiny_weights(layers: Vec<LayerWeights>) -> TransformerWeights {
    TransformerWeights {
        token_embedding: matrix(8, 4, |i| i as f32 * 0.1),
        layers,
        output_norm: vector(&[1.0; 4]),
        output: matrix(8, 4, |i| i as f32 * 0.1 - 1.6),
    }
}

/// A minimal one-layer model: two query heads over one key head.
fn make_tiny_model() -> Model {
    plain_model(tiny_weights(vec![tiny_layer(&[1.0; 4], &[1.0; 4])]), tiny_config())
}

fn q8_0_tensor(rows: usize, cols: usize, f: impl Fn(usize, usize) -> f32) -> QuantizedTensor {
    assert_eq!(cols % 32, 0);
    let mut data = Vec::new();
    for r in 0..rows {
        for b in 0..cols / 32 {
            let values: Vec<f32> = (0..32).map(|j| f(r, b * 32 + j)).collect();
            let max_abs = values.iter().map(|v| v.abs()).fold(0.0f32, f32::max);
            let d = half::f16::from_f32(if max_abs > 0.0 { max_abs / 127.0 } else { 1.0 });
            data.extend_from_slice(&d.to_le_bytes());
            let d = d.to_f32();
            for v in values {
                data.push(((v / d).round().clamp(-127.0, 127.0) as i8) as u8);
            }
        }
    }
    QuantizedTensor::from_raw(data, rows, cols, GgmlType::Q8_0)
}

fn make_tiny_q8_model() -> Model {
    let config = ModelConfig { embedding_length: 32, vocab_size: 32, ..tiny_config() };
    let wave = |k: f32| move |r: usize, c: usize| ((r * 31 + c * 7) as f32 * 0.021).sin() * k;
    let attn_norm: Vec<f32> = (0..32).map(|i| 1.0 + i as f32 * 0.01).collect();
    let ffn_norm: Vec<f32> = (0..32).map(|i| 1.0 - i as f32 * 0.005).collect();
    let weights = TransformerWeights {
        token_embedding: q8_0_tensor(32, 32, wave(0.7)),
        layers: vec![LayerWeights {
            attn_norm: vector(&attn_norm),
            ffn_norm: vector(&ffn_norm),
            attn_q: q8_0_tensor(32, 32, wave(0.4)),
            attn_k: q8_0_tensor(16, 32, wave(0.35)),
            attn_v: q8_0_tensor(16, 32, wave(0.5)),
            attn_output: q8_0_tensor(32, 32, wave(0.3)),
            ffn_gate: q8_0_tensor(64, 32, wave(0.25)),
            ffn_up: q8_0_tensor(64, 32, wave(0.45)),
            ffn_down: q8_0_tensor(32, 64, wave(0.2)),
        }],
        output_norm: vector(&[1.0; 32]),
        output: q8_0_tensor(32, 32, wave(0.6)),
    };
    plain_model(weights, config)
}

fn assert_same_logits(expected: &[f32], got: &[f32], what: &str) {
    assert_eq!(expected.len(), got.len(), "{what}: shape");
    assert!(!got.is_empty());
    for (i, (a, b)) in expected.iter().zip(got).enumerate() {
        assert_eq!(a.to_bits(), b.to_bits(), "{what}: logit {i} single={a} batched={b}");
    }
}

fn lanes_of(prompts: &[&[u32]], next: &[u32], loras: &[Option<usize>]) -> Vec<Lane> {
    (0..next.len())
        .map(|s| Lane { token: next[s], pos: prompts[s].len(), lora: loras[s] })
        .collect()
}

/// Every sequence gets from a shared step what it gets on its own.
fn assert_batch_matches(m: &Model, prompts: &[&[u32]], next: &[u32], loras: &[Option<usize>]) {
    let expected: Vec<Vec<f32>> = (0..next.len())
        .map(|s| {
            let (mut cache, _) = m.prefilled(prompts[s]);
            m.one(next[s], prompts[s].len(), loras[s], &mut cache, None)
        })
        .collect();
    let mut caches: Vec<Cache> = (0..next.len()).map(|s| m.prefilled(prompts[s]).0).collect();
    let got = m.batch(lanes_of(prompts, next, loras), &mut caches);
    assert_eq!(got.len(), next.len());
    for s in 0..next.len() {
        assert_same_logits(&expected[s], &got[s], &format!("batch={} seq={s}", next.len()));
    }
}

// ── Schedules ────────────────────────────────────────────────────────────────

#[test]
fn test_cached_matches_uncached() {
    let m = make_tiny_model();
    let tokens = [1u32, 3, 5];
    let uncached = m.uncached(&tokens);
    let mut cache = Cache::default();
    let mut cached = Vec::new();
    for (pos, token) in tokens.iter().enumerate() {
        cached = m.one(*token, pos, None, &mut cache, None);
    }
    assert_eq!(uncached.len(), cached.len());
    for (i, (a, b)) in uncached.iter().zip(&cached).enumerate() {
        assert!((a - b).abs() < 1e-4, "index {i}: uncached={a:.6}, cached={b:.6}");
    }
}

#[test]
fn test_prefill_matches_sequential() {
    let m = make_tiny_model();
    let tokens = [1u32, 3, 5];
    let mut cache = Cache::default();
    let mut sequential = Vec::new();
    for (pos, token) in tokens.iter().enumerate() {
        sequential = m.one(*token, pos, None, &mut cache, None);
    }
    let (_, prefill) = m.prefilled(&tokens);
    assert_eq!(sequential.len(), prefill.len());
    for (i, (a, b)) in sequential.iter().zip(&prefill).enumerate() {
        assert!((a - b).abs() < 1e-4, "index {i}: sequential={a:.6}, prefill={b:.6}");
    }
}

#[test]
fn test_paged_cache_matches_kv_cache_end_to_end() {
    let m = make_tiny_model();
    let prompt = vec![1u32, 3, 5, 2, 7];
    let context = m.plan.config.context_length as usize;
    let mut pool = PagePool::new(PagePool::pages_for(context, 1).unwrap());
    let mut paged = PagedKvCache::new(1);
    let (mut plain_cache, mut pool_cache) = (Cache::default(), Cache::default());

    assert!(paged.reserve(&mut pool, prompt.len()).is_ok());
    let pages = paged.first_pages(paged.allocated_pages());
    let mut l_plain = m.prefill(&prompt, 0, &mut plain_cache, None);
    let mut l_paged = m.prefill(&prompt, 0, &mut pool_cache, Some(&pages));
    for _ in &prompt {
        paged.advance();
    }

    // Far enough to cross a page boundary.
    let mut tokens = prompt.clone();
    for step in 0..25 {
        assert_same_logits(&l_plain, &l_paged, &format!("step {step}"));
        let next = argmax(&l_plain);
        tokens.push(next);
        let pos = tokens.len() - 1;
        assert!(paged.reserve(&mut pool, tokens.len()).is_ok());
        let pages = paged.first_pages(paged.allocated_pages());
        l_plain = m.one(next, pos, None, &mut plain_cache, None);
        l_paged = m.one(next, pos, None, &mut pool_cache, Some(&pages));
        paged.advance();
    }
    assert_eq!(tokens.len(), paged.len());
    assert_eq!(paged.pages_per_layer(), tokens.len().div_ceil(16));
    assert_eq!(pool.live_pages(), paged.allocated_pages());
}

#[test]
fn test_feed_forward_shape() {
    let mut m = make_tiny_model();
    let layer = &mut m.weights.layers[0];
    layer.ffn_norm = vector(&[0.0; 4]);
    layer.ffn_gate = matrix(8, 4, |_| 0.0);
    layer.ffn_up = matrix(8, 4, |_| 0.0);
    layer.ffn_down = matrix(4, 8, |_| 0.0);
    let mut s = State { x: vec![1.0, 2.0, 3.0, 4.0], out: vec![0.0; 4], ..State::default() };
    let mut none = Cache::default();
    for op in feed_forward(&m.plan, 0) {
        m.apply(op, &mut s, None, &mut none, None);
    }
    assert_eq!(s.out.len(), 4);
    assert_eq!(s.x, vec![1.0, 2.0, 3.0, 4.0]);
}

#[test]
fn forward_batch_matches_forward_one() {
    let m = make_tiny_model();
    let prompts: [&[u32]; 4] = [&[1, 2, 3], &[4], &[5, 0, 6, 7], &[2, 2]];
    let next = [3u32, 6, 1, 7];
    for batch in [1usize, 2, 4] {
        assert_batch_matches(&m, &prompts, &next[..batch], &[None; 4]);
    }
}

#[test]
fn forward_batch_writes_the_same_cache_state() {
    let m = make_tiny_model();
    let prompts: [&[u32]; 2] = [&[1, 2, 3], &[5, 0]];
    let next = [4u32, 6];
    let solo: Vec<Cache> = (0..2)
        .map(|s| {
            let (mut cache, _) = m.prefilled(prompts[s]);
            m.one(next[s], prompts[s].len(), None, &mut cache, None);
            cache
        })
        .collect();
    let mut batched: Vec<Cache> = (0..2).map(|s| m.prefilled(prompts[s]).0).collect();
    m.batch(lanes_of(&prompts, &next, &[None; 2]), &mut batched);
    for s in 0..2 {
        assert_eq!(solo[s].store[&0].len(), prompts[s].len() + 1, "seq {s} cache length");
        assert_eq!(solo[s].store[&0].len(), batched[s].store[&0].len(), "seq {s} cache length");
        for pos in 0..=prompts[s].len() {
            let (alone, shared) = (m.row(&solo[s], None, 0, pos), m.row(&batched[s], None, 0, pos));
            assert_eq!(alone.0, shared.0, "seq {s} K@{pos}");
            assert_eq!(alone.1, shared.1, "seq {s} V@{pos}");
        }
    }
}

#[test]
fn forward_batch_stays_identical_over_many_steps() {
    let m = make_tiny_model();
    let prompts: [&[u32]; 3] = [&[1, 2], &[3, 4, 5], &[6]];
    let steps = 6;
    let solo: Vec<Vec<u32>> = (0..3)
        .map(|s| {
            let (mut cache, mut logits) = m.prefilled(prompts[s]);
            let mut produced = Vec::new();
            for pos in (prompts[s].len()..).take(steps) {
                let token = argmax(&logits);
                produced.push(token);
                logits = m.one(token, pos, None, &mut cache, None);
            }
            produced
        })
        .collect();

    let (mut caches, mut logits) = (Vec::new(), Vec::new());
    for prompt in prompts {
        let (cache, first) = m.prefilled(prompt);
        caches.push(cache);
        logits.push(first);
    }
    let mut produced: Vec<Vec<u32>> = vec![Vec::new(); 3];
    for step in 0..steps {
        let lanes: Vec<Lane> = (0..3)
            .map(|s| Lane {
                token: argmax(&logits[s]),
                pos: prompts[s].len() + step,
                lora: None,
            })
            .collect();
        for (s, lane) in lanes.iter().enumerate() {
            produced[s].push(lane.token);
        }
        logits = m.batch(lanes, &mut caches);
    }
    assert_eq!(produced, solo, "batched decoding diverged from solo decoding");
}

#[test]
fn forward_batch_matches_forward_one_quantized() {
    let m = make_tiny_q8_model();
    let prompts: [&[u32]; 4] = [&[1, 2, 3], &[9], &[5, 0, 6, 7], &[11, 11]];
    let next = [3u32, 6, 1, 7];
    for batch in [2usize, 4] {
        assert_batch_matches(&m, &prompts, &next[..batch], &[None; 4]);
    }
}

#[test]
fn forward_batch_applies_per_sequence_lora() {
    let mut m = make_tiny_model();
    let on_output = LoraLayer {
        attn_q: false,
        attn_k: false,
        attn_v: false,
        attn_output: true,
        ffn_gate: false,
        ffn_up: false,
        ffn_down: false,
    };
    m.plan.adapters = vec![vec![on_output], vec![on_output]];
    m.updates = [0.25f32, -0.5]
        .iter()
        .map(|k| Update { a: matrix(1, 4, |_| *k), b: matrix(4, 1, |_| 0.5), scale: 2.0 })
        .collect();
    let prompts: [&[u32]; 2] = [&[1, 2], &[3]];
    let next = [4u32, 5];
    let loras = [Some(0), Some(1)];
    assert_batch_matches(&m, &prompts, &next, &loras);
    let mut caches: Vec<Cache> = prompts.iter().map(|p| m.prefilled(p).0).collect();
    let got = m.batch(lanes_of(&prompts, &next, &loras), &mut caches);
    assert_ne!(got[0][0].to_bits(), got[1][0].to_bits());
}

#[test]
fn an_embedding_is_the_mean_of_causal_states() {
    let m = make_tiny_model();
    let inputs: [&[u32]; 2] = [&[1, 3], &[5, 2, 4]];
    let individual: Vec<Vec<f32>> = inputs.iter().map(|t| m.embedding(t)).collect();
    // A causal pass over a prompt ends in the same hidden state.
    for (tokens, mean) in inputs.iter().zip(&individual) {
        assert_eq!(mean.len(), 4);
        let mut sum = vec![0.0f32; 4];
        for end in 1..=tokens.len() {
            let states = m.fresh(forward(&m.plan, &tokens[..end]), end).0;
            add_to(&mut sum, &states[end - 1].normed);
        }
        for (i, (a, b)) in sum.iter().zip(mean).enumerate() {
            let a = a / tokens.len() as f32;
            assert!((a - b).abs() < 1e-5, "index {i}: {a:.6}, {b:.6}");
        }
    }
}

#[test]
fn test_gemma2_forward_features() {
    let config = ModelConfig {
        block_count: 2,
        sliding_window: Some(2),
        sliding_window_alternating: true,
        head_dim_override: Some(2),
        final_softcap: true,
        ..tiny_config()
    };
    let layer = || tiny_layer(&[1.0, 1.1, 0.9, 1.0], &[1.0, 0.9, 1.1, 1.0]);
    let mut m = plain_model(tiny_weights(vec![layer(), layer()]), config);
    m.query_scale = Some(1.0);
    m.attn_softcap = Some(10.0);
    m.final_softcap = 15.0;
    for i in 0..2 {
        m.plan.layers[i].post_attn_norm = true;
        m.plan.layers[i].post_ffn_norm = true;
        m.extras[i].post_attn_norm = vec![1.05, 0.95, 1.0, 1.0];
        m.extras[i].post_ffn_norm = vec![0.95, 1.05, 1.0, 1.0];
    }
    let prompt = [1u32, 2, 3, 4];
    let (mut cache, _) = m.prefilled(&prompt);
    for val in m.one(5, prompt.len(), None, &mut cache, None) {
        assert!(val.abs() <= 15.0 + 1e-5, "val {val} exceeded softcap 15.0");
    }
    assert_batch_matches(&m, &[&prompt], &[5], &[None]);
}

#[test]
fn test_qwen2_forward_features() {
    let mut m = make_tiny_model();
    m.plan.layers[0].q_bias = true;
    m.plan.layers[0].k_bias = true;
    m.plan.layers[0].v_bias = true;
    m.extras[0].q_bias = vec![0.1, -0.1, 0.2, -0.2];
    m.extras[0].k_bias = vec![0.05, -0.05];
    m.extras[0].v_bias = vec![0.15, -0.15];
    assert_batch_matches(&m, &[&[1, 2, 3]], &[4], &[None]);
}

#[test]
fn schedules_without_a_request_adapter_use_the_model_s_own() {
    let mut m = make_tiny_model();
    let on_output = LoraLayer {
        attn_q: false,
        attn_k: false,
        attn_v: false,
        attn_output: true,
        ffn_gate: false,
        ffn_up: false,
        ffn_down: false,
    };
    m.plan.adapters = vec![vec![on_output]];
    m.plan.lora = Some(0);
    let lane = |token, pos| Lane { token, pos, lora: None };
    let one = forward_one(&m.plan, 3, 5);
    assert_eq!(one, forward_one_lora(&m.plan, &lane(3, 5)));
    assert!(one.contains(&Op::Lora { layer: 0, matrix: Matrix::AttnOutput }));
    assert_eq!(one[0], Op::Embed { token: 3 });
    assert_eq!(one[one.len() - 1], Op::LmHead);

    let both = forward_batch(&m.plan, &[3, 4], &[5, 9], false);
    assert_eq!(both, forward_batch_lora(&m.plan, &vec![lane(3, 5), lane(4, 9)], false));
    assert!(both.contains(&Step::All { op: Op::Project { layer: 0, matrix: Matrix::FfnUp } }));
    let apart = forward_batch(&m.plan, &[3, 4], &[5, 9], true);
    assert!(apart.iter().all(|s| matches!(s, Step::One { .. })));

    let inner = forward_prefill_inner(&m.plan, &[1, 2, 3], 4, None);
    assert_eq!(forward_prefill_all(&m.plan, &[1, 2, 3], 4), inner);
    assert_eq!(forward_prefill(&m.plan, &[1, 2, 3], 4), (inner, Some(2)));
    assert_eq!(forward_prefill_lora(&m.plan, &[], 4, Some(0)), (Vec::new(), None));
}

#[test]
fn a_prompt_continues_from_any_position() {
    let m = make_tiny_model();
    let prompt: Vec<u32> = (0..24u32).map(|i| i % 7).collect();
    let (whole_cache, whole) = m.prefilled(&prompt);
    let (mut cache, _) = m.prefilled(&prompt[..16]);
    let rest = m.prefill(&prompt[16..], 16, &mut cache, None);
    assert_same_logits(&whole, &rest, "continued prompt");
    for pos in 0..24 {
        assert_eq!(m.row(&whole_cache, None, 0, pos), m.row(&cache, None, 0, pos));
    }
}

// ── The engine on a model ────────────────────────────────────────────────────

struct Seat {
    logits: Vec<f32>,
    cache: Cache,
    rx: mpsc::Receiver<u32>,
    got: Vec<u32>,
}

/// An engine with a model behind it. Pages of the pool are in `shared`; a sequence
/// without them has a cache of its own.
struct Rig {
    model: Model,
    engine: Engine,
    shared: Cache,
    seats: Vec<Seat>,
    done: Vec<(Vec<u32>, Vec<u32>)>,
}

impl Rig {
    fn new(limits: EngineLimits, context_length: usize) -> Self {
        let shape = EngineShape {
            context_length,
            n_layers: 1,
            n_kv_heads: 1,
            head_dim: 2,
            cache_format: CacheFormat::F32,
        };
        Rig {
            model: make_tiny_model(),
            engine: Engine::new(limits, shape),
            shared: Cache::default(),
            seats: Vec::new(),
            done: Vec::new(),
        }
    }

    fn enter(&mut self, prompt: Vec<u32>, max_new_tokens: usize) {
        let (tx, rx) = mpsc::channel(64);
        let request = InferenceRequest {
            prompt_tokens: prompt.clone(),
            max_new_tokens,
            sampler_cfg: SamplerConfig { seed: 7 },
            eos_token: NO_EOS,
            lora_name: None,
            tx,
        };
        let Admission::Admitted { start } = self.engine.prefill_and_add(request, true) else {
            panic!("the prompt was not admitted");
        };
        let mut cache = Cache::default();
        let logits = match &self.engine.pool {
            None => self.model.prefill(&prompt[start..], start, &mut cache, None),
            Some(_) => {
                let pages = self.pages(self.seats.len());
                self.model.prefill(&prompt[start..], start, &mut self.shared, Some(&pages))
            }
        };
        self.seats.push(Seat { logits, cache, rx, got: Vec::new() });
    }

    fn pages(&self, index: usize) -> Vec<usize> {
        let pages = &self.engine.active[index].pages;
        pages.first_pages(pages.allocated_pages())
    }

    /// Hand out a token to each sequence, drop those that are through, and decode.
    fn turn(&mut self, next: Vec<u32>) {
        let leaving = self.engine.sample_and_deliver(&next, 0);
        for seat in &mut self.seats {
            while let Ok(token) = seat.rx.try_recv() {
                seat.got.push(token);
            }
        }
        let gone = self.engine.retire(&leaving);
        for (i, sequence) in leaving.iter().rev().zip(gone) {
            let seat = self.seats.swap_remove(*i);
            let prompt = sequence.session.tokens[..sequence.session.prefill_len].to_vec();
            self.done.push((prompt, seat.got));
        }
        if self.engine.next_step() == EngineStep::Decode {
            self.engine.reserve_next(0);
            self.decode();
        }
    }

    fn decode(&mut self) {
        let slots = self.engine.decode_batch_cpu();
        let lanes: Vec<Lane> =
            slots.iter().map(|s| Lane { token: s.token, pos: s.pos, lora: None }).collect();
        let mut caches: Vec<Cache> =
            slots.iter().map(|s| self.seats[s.index].cache.clone()).collect();
        let logits = self.model.batch(lanes, &mut caches);
        for ((slot, cache), logits) in slots.iter().zip(caches).zip(logits) {
            self.seats[slot.index].cache = cache;
            self.seats[slot.index].logits = logits;
        }
    }

    /// What each prompt is answered, greedily.
    fn run(&mut self) -> Vec<(Vec<u32>, Vec<u32>)> {
        while !self.seats.is_empty() {
            let next = self.seats.iter().map(|s| argmax(&s.logits)).collect();
            self.turn(next);
        }
        std::mem::take(&mut self.done)
    }
}

/// The logits of sequences that decode one token together.
fn stepped(prompts: &[&[u32]], next: &[u32]) -> Vec<Vec<f32>> {
    let mut rig = Rig::new(EngineLimits::default(), 64);
    for prompt in prompts {
        rig.enter(prompt.to_vec(), 16);
    }
    rig.turn(next.to_vec());
    rig.seats.into_iter().map(|s| s.logits).collect()
}

#[test]
fn batched_step_matches_single_sequence_steps() {
    let prompts: [&[u32]; 3] = [&[1, 2, 3], &[4], &[5, 0, 6]];
    let next = [6u32, 2, 7];
    let got = stepped(&prompts, &next);
    let m = make_tiny_model();
    for s in 0..3 {
        let (mut cache, _) = m.prefilled(prompts[s]);
        let expected = m.one(next[s], prompts[s].len(), None, &mut cache, None);
        assert_eq!(got[s].len(), expected.len(), "seq {s} logits len");
        assert_same_logits(&expected, &got[s], &format!("seq {s}"));
    }
}

#[test]
fn batch_of_one_matches_the_single_sequence_path() {
    let m = make_tiny_model();
    let (mut cache, _) = m.prefilled(&[1, 2, 3]);
    let expected = m.one(5, 3, None, &mut cache, None);
    assert_same_logits(&expected, &stepped(&[&[1, 2, 3]], &[5])[0], "batch of one");
}

#[test]
fn batched_decode_matches_serial_decode() {
    let budget = 24;
    let prompts: Vec<Vec<u32>> = vec![vec![1, 2, 3], vec![4, 5], vec![6, 0, 7, 1]];
    let mut rig = Rig::new(EngineLimits::default(), 256);
    let serial: Vec<Vec<u32>> = prompts
        .iter()
        .map(|p| {
            rig.enter(p.clone(), budget);
            rig.run().pop().unwrap().1
        })
        .collect();
    for stream in &serial {
        assert_eq!(stream.len(), budget, "serial run should spend its budget");
    }
    for p in &prompts {
        rig.enter(p.clone(), budget);
    }
    let answers = rig.run();
    let concurrent: Vec<Vec<u32>> = prompts
        .iter()
        .map(|p| answers.iter().find(|(prompt, _)| prompt == p).unwrap().1.clone())
        .collect();
    assert_eq!(concurrent, serial, "sharing a batch changed the tokens a request received");
}

fn shared_prompt(tail: &[u32]) -> Vec<u32> {
    let mut prompt: Vec<u32> = (0..40u32).map(|i| i % 7).collect();
    prompt.extend_from_slice(tail);
    prompt
}

/// Prompts that are admitted with and without a registry of prefixes end up with the
/// same logits and the same keys and values at every position.
fn assert_reuse_is_bit_identical(prompts: &[Vec<u32>], expect_reused: u64) {
    let pooled = EngineLimits { kv_pool_pages: Some(256), ..EngineLimits::default() };
    let mut cold = Rig::new(pooled, 256);
    let config = PrefixCacheConfig { max_entries: 32 };
    let mut warm = Rig::new(EngineLimits { prefix_cache: Some(config), ..pooled }, 256);
    for p in prompts {
        cold.enter(p.clone(), 8);
        warm.enter(p.clone(), 8);
    }
    let stats = warm.engine.prefix.as_ref().unwrap().stats();
    assert_eq!(stats.tokens_reused, expect_reused, "unexpected amount of prefix reuse");
    for (seq, prompt) in prompts.iter().enumerate() {
        assert_same_logits(&cold.seats[seq].logits, &warm.seats[seq].logits, &format!("seq {seq}"));
        let (cold_pages, warm_pages) = (cold.pages(seq), warm.pages(seq));
        for pos in 0..prompt.len() {
            assert_eq!(
                cold.model.row(&cold.shared, Some(&cold_pages), 0, pos),
                warm.model.row(&warm.shared, Some(&warm_pages), 0, pos),
                "seq {seq} row {pos}"
            );
        }
    }
}

#[test]
fn a_forked_admission_is_bit_identical_to_a_cold_one() {
    assert_reuse_is_bit_identical(&[shared_prompt(&[1, 2, 3]), shared_prompt(&[4, 5, 6])], 32);
}

#[test]
fn a_partial_page_prefix_is_bit_identical_to_a_cold_one() {
    let base: Vec<u32> = (0..20u32).map(|i| i % 5).collect();
    let mut a = base.clone();
    let mut b = base;
    a.extend([1, 1]);
    b.extend([6, 6]);
    assert_reuse_is_bit_identical(&[a, b], 16);
}

#[test]
fn a_growing_chain_of_prompts_stays_bit_identical() {
    let long = shared_prompt(&[1, 2, 3, 4, 5, 6, 7, 0, 1, 2, 3, 4]);
    let prompts = vec![long[..24].to_vec(), long[..40].to_vec(), long.clone()];
    assert_reuse_is_bit_identical(&prompts, 16 + 32);
}

#[test]
fn unrelated_prompts_reuse_nothing_and_stay_bit_identical() {
    let a: Vec<u32> = (0..40u32).map(|i| i % 7).collect();
    let b: Vec<u32> = (0..40u32).map(|i| (i * 3 + 1) % 7).collect();
    assert_reuse_is_bit_identical(&[a, b], 0);
}

// ── Loaded checkpoints ───────────────────────────────────────────────────────

fn pseudo_random(n: usize, seed: u64) -> Vec<f32> {
    let mut s = seed.wrapping_mul(0x9e37_79b9_7f4a_7c15) | 1;
    (0..n)
        .map(|_| {
            s ^= s << 13;
            s ^= s >> 7;
            s ^= s << 17;
            (s >> 40) as f32 / (1u64 << 24) as f32 - 0.5
        })
        .collect()
}

/// A two-layer checkpoint, with values written by `encode`.
fn micro_checkpoint(ty: GgmlType, dtype: &str, encode: impl Fn(f32) -> Vec<u8>) -> TensorIndex {
    let mut plan: Vec<(String, Vec<usize>)> =
        vec![("model.embed_tokens.weight".to_string(), vec![12, 8])];
    for i in 0..2 {
        for (name, shape) in [
            ("self_attn.q_proj", vec![8, 8]),
            ("self_attn.k_proj", vec![4, 8]),
            ("self_attn.v_proj", vec![4, 8]),
            ("self_attn.o_proj", vec![8, 8]),
            ("mlp.gate_proj", vec![16, 8]),
            ("mlp.up_proj", vec![16, 8]),
            ("mlp.down_proj", vec![8, 16]),
            ("input_layernorm", vec![8]),
            ("post_attention_layernorm", vec![8]),
        ] {
            plan.push((format!("model.layers.{i}.{name}.weight"), shape));
        }
    }
    plan.push(("model.norm.weight".to_string(), vec![8]));
    plan.push(("lm_head.weight".to_string(), vec![12, 8]));
    let tensors = plan
        .into_iter()
        .enumerate()
        .map(|(seed, (name, shape))| StoredTensor {
            name,
            dtype: dtype.to_string(),
            format: Some(ty),
            data: pseudo_random(shape.iter().product(), seed as u64 + 1)
                .into_iter()
                .flat_map(&encode)
                .collect(),
            shape,
        })
        .collect();
    TensorIndex { tensors }
}

fn micro_model(st: &TensorIndex) -> Model {
    let config =
        ModelConfig { embedding_length: 8, block_count: 2, vocab_size: 12, ..tiny_config() };
    let weights = TransformerWeights::from_safetensors(st, &config, false).unwrap();
    plain_model(weights, config)
}

fn micro_f32() -> Model {
    micro_model(&micro_checkpoint(GgmlType::F32, "F32", |v| v.to_le_bytes().to_vec()))
}

#[test]
fn test_f16_weights_load_natively_and_track_f32() {
    let narrow = micro_model(&micro_checkpoint(GgmlType::F16, "F16", |v| {
        half::f16::from_f32(v).to_le_bytes().to_vec()
    }));
    assert_eq!(narrow.weights.layers[0].attn_q.ggml_type(), GgmlType::F16);
    assert_eq!(
        narrow.weights.layers[0].attn_q.raw_data().len(),
        2 * 4 * 8 * 2,
        "F16 weights must not be widened to f32"
    );
    let f16_logits = narrow.uncached(&[1, 5, 3]);
    let f32_logits = micro_f32().uncached(&[1, 5, 3]);
    for (a, b) in f16_logits.iter().zip(&f32_logits) {
        assert!((a - b).abs() < 1e-2, "f16 {f16_logits:?} vs f32 {f32_logits:?}");
    }
}

#[test]
fn test_from_safetensors_forward_pass_produces_finite_logits() {
    let logits = micro_f32().uncached(&[1, 5, 3]);
    assert_eq!(logits.len(), 12);
    assert!(logits.iter().all(|v| v.is_finite()), "logits: {logits:?}");
}
