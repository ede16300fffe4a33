//! Loading weights from both kinds of model file.
use glint::error::GlintError;
use glint::tensor::dequantize::Dequantized;
use glint::tensor::ggml::GgmlType;
use glint::tensor::index::{load_tensor_f32, StoredTensor, TensorIndex};
use glint::tensor::quantized::{check_dims, QuantizedTensor};
use glint::transformer::config::ModelConfig;
use glint::transformer::weights::{
    checkpoint_norms_are_whole, gguf_norms_are_whole, TransformerWeights,
};

const EMBED: usize = 8;
const HEADS: usize = 2;
const KV_HEADS: usize = 1;
const HEAD_DIM: usize = EMBED / HEADS;
const FFN: usize = 16;
const VOCAB: usize = 12;
const LAYERS: usize = 2;

fn micro_config() -> ModelConfig {
    ModelConfig {
        context_length: 32,
        embedding_length: EMBED as u32,
        block_count: LAYERS as u32,
        head_count: HEADS as u32,
        head_count_kv: KV_HEADS as u32,
        vocab_size: VOCAB as u32,
        sliding_window: None,
        sliding_window_alternating: false,
        head_dim_override: None,
        rotary_dim: None,
        final_softcap: false,
    }
}

/// Every tensor of the micro model as `(hf_name, ggml_name, rows, cols)`.
fn tensor_plan() -> Vec<(String, String, usize, usize)> {
    let mut plan = vec![(
        "model.embed_tokens.weight".to_string(),
        "token_embd.weight".to_string(),
        VOCAB,
        EMBED,
    )];
    for i in 0..LAYERS {
        for (hf, ggml, rows, cols) in [
            ("self_attn.q_proj", "attn_q", HEADS * HEAD_DIM, EMBED),
            ("self_attn.k_proj", "attn_k", KV_HEADS * HEAD_DIM, EMBED),
            ("self_attn.v_proj", "attn_v", KV_HEADS * HEAD_DIM, EMBED),
            ("self_attn.o_proj", "attn_output", EMBED, HEADS * HEAD_DIM),
            ("mlp.gate_proj", "ffn_gate", FFN, EMBED),
            ("mlp.up_proj", "ffn_up", FFN, EMBED),
            ("mlp.down_proj", "ffn_down", EMBED, FFN),
            ("input_layernorm", "attn_norm", EMBED, 1),
            ("post_attention_layernorm", "ffn_norm", EMBED, 1),
        ] {
            plan.push((
                format!("model.layers.{i}.{hf}.weight"),
                format!("blk.{i}.{ggml}.weight"),
                rows,
                cols,
            ));
        }
    }
    plan.push(("model.norm.weight".to_string(), "output_norm.weight".to_string(), EMBED, 1));
    plan.push(("lm_head.weight".to_string(), "output.weight".to_string(), VOCAB, EMBED));
    plan
}

fn pseudo_random(n: usize, seed: u64) -> Vec<f32> {
    let mut s = seed.wrapping_mul(0x9e37_79b9_7f4a_7c15) | 1;
    (0..n)
        .map(|_| {
            s ^= s << 13;
            s ^= s >> 7;
            s ^= s << 17;
            (s >> 40) as f32 / (1u64 << 24) as f32 - 0.5
        })
        .collect()
}

fn bytes_of(v: &[f32]) -> Vec<u8> {
    v.iter().flat_map(|x| x.to_le_bytes()).collect()
}

fn stored(name: &str, shape: Vec<usize>, data: Vec<u8>) -> StoredTensor {
    StoredTensor {
        name: name.to_string(),
        dtype: "F32".to_string(),
        format: Some(GgmlType::F32),
        shape,
        data,
    }
}

fn micro_tensors() -> Vec<StoredTensor> {
    tensor_plan()
        .into_iter()
        .enumerate()
        .map(|(seed, (hf, _, rows, cols))| {
            let shape = if cols == 1 { vec![rows] } else { vec![rows, cols] };
            stored(&hf, shape, bytes_of(&pseudo_random(rows * cols, seed as u64 + 1)))
        })
        .collect()
}

fn micro_safetensors() -> TensorIndex {
    TensorIndex { tensors: micro_tensors() }
}

fn reference_permute(rows: &[Vec<f32>], n_heads: usize, head_dim: usize) -> Vec<f32> {
    let half = head_dim / 2;
    let mut out = vec![Vec::new(); rows.len()];
    for h in 0..n_heads {
        for a in 0..2 {
            for j in 0..half {
                out[h * head_dim + j * 2 + a] = rows[h * head_dim + a * half + j].clone();
            }
        }
    }
    out.into_iter().flatten().collect()
}

/// The same weights as a converter writes them: dimensions reversed, query and key
/// rows already in order.
fn micro_gguf() -> TensorIndex {
    let tensors = tensor_plan()
        .into_iter()
        .enumerate()
        .map(|(seed, (hf, ggml, rows, cols))| {
            let mut data = pseudo_random(rows * cols, seed as u64 + 1);
            if hf.ends_with("q_proj.weight") || hf.ends_with("k_proj.weight") {
                let n_heads = if hf.ends_with("q_proj.weight") { HEADS } else { KV_HEADS };
                let split: Vec<Vec<f32>> = data.chunks(cols).map(|c| c.to_vec()).collect();
                data = reference_permute(&split, n_heads, HEAD_DIM);
            }
            let shape = if cols == 1 { vec![rows] } else { vec![cols, rows] };
            stored(&ggml, shape, bytes_of(&data))
        })
        .collect();
    TensorIndex { tensors }
}

fn load_micro_safetensors() -> TransformerWeights {
    let st = micro_safetensors();
    assert!(checkpoint_norms_are_whole(&st, LAYERS));
    TransformerWeights::from_safetensors(&st, &micro_config(), false).unwrap()
}

fn patterns(t: &Dequantized) -> Vec<u32> {
    match t {
        Dequantized::Values(v) => v.clone(),
        Dequantized::Terms(_) => panic!("norms are stored plain"),
    }
}

fn text(e: GlintError) -> String {
    format!("{e:?}")
}

#[test]
fn test_from_safetensors_matches_gguf_load() {
    let gguf = micro_gguf();
    assert!(gguf_norms_are_whole(&gguf, LAYERS));
    let from_gguf = TransformerWeights::load(&gguf, &micro_config()).unwrap();
    let from_st = load_micro_safetensors();

    assert_eq!(from_st.token_embedding.raw_data(), from_gguf.token_embedding.raw_data());
    assert_eq!(
        (from_st.token_embedding.rows(), from_st.token_embedding.cols()),
        (VOCAB, EMBED)
    );
    assert_eq!(from_st.output.raw_data(), from_gguf.output.raw_data());
    assert_eq!(patterns(&from_st.output_norm.values), patterns(&from_gguf.output_norm.values));
    assert_eq!(from_st.layers.len(), from_gguf.layers.len());

    for (i, (st, gg)) in from_st.layers.iter().zip(&from_gguf.layers).enumerate() {
        assert_eq!(patterns(&st.attn_norm.values), patterns(&gg.attn_norm.values), "layer {i} norm");
        assert_eq!(patterns(&st.ffn_norm.values), patterns(&gg.ffn_norm.values), "layer {i} ffn norm");
        for (name, a, b) in [
            ("attn_q", &st.attn_q, &gg.attn_q),
            ("attn_k", &st.attn_k, &gg.attn_k),
            ("attn_v", &st.attn_v, &gg.attn_v),
            ("attn_output", &st.attn_output, &gg.attn_output),
            ("ffn_gate", &st.ffn_gate, &gg.ffn_gate),
            ("ffn_up", &st.ffn_up, &gg.ffn_up),
            ("ffn_down", &st.ffn_down, &gg.ffn_down),
        ] {
            assert_eq!((a.rows(), a.cols()), (b.rows(), b.cols()), "layer {i} {name} shape");
            assert_eq!(a.raw_data(), b.raw_data(), "layer {i} {name} data");
        }
    }
}

#[test]
fn test_tie_word_embeddings_reuses_the_embedding_table() {
    let weights =
        TransformerWeights::from_safetensors(&micro_safetensors(), &micro_config(), true).unwrap();
    assert_eq!(weights.output.raw_data(), weights.token_embedding.raw_data());
}

#[test]
fn test_missing_lm_head_falls_back_to_the_embedding_table() {
    let mut st = micro_safetensors();
    st.tensors.retain(|t| t.name != "lm_head.weight");
    let weights = TransformerWeights::from_safetensors(&st, &micro_config(), false).unwrap();
    assert_eq!(weights.output.raw_data(), weights.token_embedding.raw_data());
}

#[test]
fn test_missing_tensor_is_named() {
    let mut st = micro_safetensors();
    st.tensors.retain(|t| !t.name.ends_with("layers.1.mlp.up_proj.weight"));
    let err = TransformerWeights::from_safetensors(&st, &micro_config(), false).err().unwrap();
    let err = text(err);
    assert!(err.contains("model.layers.1.mlp.up_proj.weight"), "got: {err}");
}

#[test]
fn test_shape_disagreeing_with_config_is_rejected() {
    let mut config = micro_config();
    config.embedding_length = EMBED as u32 * 2;
    config.head_count = HEADS as u32; // keeps head_dim divisible
    let err = TransformerWeights::from_safetensors(&micro_safetensors(), &config, false)
        .err()
        .unwrap();
    let err = text(err);
    assert!(err.contains("expected shape"), "got: {err}");
    assert!(err.contains("expected shape [*, 16], found [12, 8]"), "got: {err}");
}

#[test]
fn test_attention_bias_is_rejected() {
    let mut st = micro_safetensors();
    st.tensors.push(stored(
        "model.layers.0.self_attn.q_proj.bias",
        vec![EMBED],
        bytes_of(&[0.1; EMBED]),
    ));
    let err = TransformerWeights::from_safetensors(&st, &micro_config(), false).err().unwrap();
    let err = text(err);
    assert!(err.contains("bias-free"), "got: {err}");
    assert!(err.contains("'model.layers.0.self_attn.q_proj.bias'"), "got: {err}");
}

#[test]
fn other_layouts_are_rejected_by_name() {
    for (name, want) in [
        ("model.layers.1.self_attn.qkv_proj.weight", "fused self_attn.qkv_proj"),
        ("model.layers.1.mlp.gate_up_proj.weight", "fused mlp.gate_up_proj"),
        ("model.layers.1.self_attn.q_norm.weight", "per-head 'q_norm'"),
        ("model.layers.1.self_attn.k_norm.weight", "per-head 'k_norm'"),
    ] {
        let mut st = micro_safetensors();
        st.tensors.push(stored(name, vec![1], vec![0; 4]));
        let err = TransformerWeights::from_safetensors(&st, &micro_config(), false).err().unwrap();
        assert!(matches!(err, GlintError::HfUnsupported(_)));
        assert!(text(err).contains(want), "{name}");
    }
}

#[test]
fn format_without_a_kernel_is_rejected() {
    let mut st = micro_safetensors();
    st.tensors[0].format = None;
    st.tensors[0].dtype = "I64".to_string();
    let err = TransformerWeights::from_safetensors(&st, &micro_config(), false).err().unwrap();
    assert!(matches!(err, GlintError::SafeTensorsUnsupportedDtype { ref dtype, .. } if dtype == "I64"));
}

#[test]
fn an_unreadable_matrix_loads_and_cannot_be_used() {
    let stored = |shape: Vec<usize>| StoredTensor {
        name: "w".to_string(),
        dtype: "IQ2_XS".to_string(),
        format: None,
        shape,
        data: vec![1, 2, 3],
    };
    let index = TensorIndex { tensors: vec![stored(vec![256, 2])] };
    let m = QuantizedTensor::load(&index, "w").unwrap();
    assert_eq!((m.rows(), m.cols(), m.raw_data()), (2, 256, &[1u8, 2, 3][..]));
    assert_eq!(m.ggml_type(), GgmlType::Other);
    assert!(!m.ggml_type().is_readable());
    assert!(!check_dims(m.ggml_type(), 1 << 20, 2, 256, 256));
    // A vector is unpacked at once.
    let index = TensorIndex { tensors: vec![stored(vec![256])] };
    let err = load_tensor_f32(&index, "w").err().unwrap();
    assert!(matches!(err, GlintError::UnsupportedQuantization(ref t) if t == "IQ2_XS"));
}

#[test]
fn norm_of_the_wrong_length_is_rejected() {
    let mut st = micro_safetensors();
    let norm = st.tensors.iter_mut().find(|t| t.name == "model.norm.weight").unwrap();
    norm.shape = vec![4];
    let err = TransformerWeights::from_safetensors(&st, &micro_config(), false).err().unwrap();
    assert!(text(err).contains("expected 8 elements, found 4"));
    let norm = st.tensors.iter_mut().find(|t| t.name == "model.norm.weight").unwrap();
    norm.shape = vec![8, 1];
    let err = TransformerWeights::from_safetensors(&st, &micro_config(), false).err().unwrap();
    assert!(matches!(err, GlintError::InvalidTensorShape { ndim: 2, .. }));
}

#[test]
fn column_major_dimensions_are_reversed() {
    let model = TensorIndex { tensors: vec![stored("w", vec![3, 2], vec![0; 24])] };
    let w = QuantizedTensor::load(&model, "w").unwrap();
    assert_eq!((w.rows(), w.cols()), (2, 3));
    let t = load_tensor_f32(&model, "w").unwrap();
    assert_eq!(t.shape, vec![2, 3]);
    assert!(matches!(QuantizedTensor::load(&model, "v"), Err(GlintError::TensorNotFound(_))));
    let cube = TensorIndex { tensors: vec![stored("c", vec![1, 1, 1], vec![0; 4])] };
    assert!(matches!(
        QuantizedTensor::load(&cube, "c"),
        Err(GlintError::InvalidTensorShape { ndim: 3, .. })
    ));
}

#[test]
fn cut_tensor_is_noticed() {
    let name = |i: usize| format!("model.layers.{i}.input_layernorm.weight");
    let cut = |name: &str| {
        let mut st = micro_safetensors();
        st.tensors.iter_mut().find(|t| t.name == name).unwrap().data.pop();
        st
    };
    assert!(!cut(&name(1)).is_whole_if_there(&name(1)));
    assert!(!checkpoint_norms_are_whole(&cut(&name(1)), LAYERS));
    assert!(!checkpoint_norms_are_whole(&cut("model.norm.weight"), LAYERS));
    // Only what is unpacked has to be whole.
    let st = cut("model.embed_tokens.weight");
    assert!(checkpoint_norms_are_whole(&st, LAYERS));
    assert!(TransformerWeights::from_safetensors(&st, &micro_config(), false).is_ok());
    assert!(st.is_whole_if_there("no such tensor"));
    let mut gguf = micro_gguf();
    gguf.tensors.iter_mut().find(|t| t.name == "blk.1.ffn_norm.weight").unwrap().data.pop();
    assert!(!gguf_norms_are_whole(&gguf, LAYERS));
    assert!(gguf_norms_are_whole(&gguf, 1));
}
