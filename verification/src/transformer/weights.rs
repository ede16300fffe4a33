//! Loading a model's weights from a column-major model file or from a checkpoint.
//!
//! Weight matrices keep their storage format. Both kinds of file end up in the same
//! layout: rows are outputs, and the query and key rows stand in adjacent-pair
//! order.
use vstd::prelude::*;

use crate::error::{Fault, GlintError};
use crate::tensor::dequantize::dequantize;
use crate::tensor::index::{
    find, gguf_matrix, gguf_vector, load_tensor_f32, whole_if_there,
    loads_matrix, loads_vector, matrix, unpacks, LoadedTensor, Matrix, Packed, StoredTensor,
    TensorIndex,
};
use crate::tensor::quantized::QuantizedTensor;
use crate::tensor::tensor::product;
use crate::text::{decimal, numbered, push_decimal};
use crate::transformer::config::ModelConfig;
use crate::transformer::rotary::{permute_qk_rows, permuted};

verus! {

/// The weights of one layer.
#[derive(Debug)]
pub struct LayerWeights {
    /// Scale of the norm in front of attention.
    pub attn_norm: LoadedTensor,
    /// Scale of the norm in front of the feed-forward network.
    pub ffn_norm: LoadedTensor,
    pub attn_q: QuantizedTensor,
    pub attn_k: QuantizedTensor,
    pub attn_v: QuantizedTensor,
    pub attn_output: QuantizedTensor,
    pub ffn_gate: QuantizedTensor,
    pub ffn_up: QuantizedTensor,
    pub ffn_down: QuantizedTensor,
}

/// The weights of a model.
#[derive(Debug)]
pub struct TransformerWeights {
    pub token_embedding: QuantizedTensor,
    pub layers: Vec<LayerWeights>,
    pub output_norm: LoadedTensor,
    /// The output projection, a copy of the embedding table where the two are tied.
    pub output: QuantizedTensor,
}

/// The contents of one layer's weights.
pub struct LayerImage {
    pub attn_norm: Packed,
    pub ffn_norm: Packed,
    pub attn_q: Matrix,
    pub attn_k: Matrix,
    pub attn_v: Matrix,
    pub attn_output: Matrix,
    pub ffn_gate: Matrix,
    pub ffn_up: Matrix,
    pub ffn_down: Matrix,
}

/// The contents of a model's weights.
pub struct ModelImage {
    pub token_embedding: Matrix,
    pub layers: Seq<LayerImage>,
    pub output_norm: Packed,
    pub output: Matrix,
}

/// A layer's weights have these contents.
pub open spec fn layer_holds(l: LayerWeights, image: LayerImage) -> bool {
    &&& unpacks(l.attn_norm, image.attn_norm)
    &&& unpacks(l.ffn_norm, image.ffn_norm)
    &&& matrix(l.attn_q) == image.attn_q
    &&& matrix(l.attn_k) == image.attn_k
    &&& matrix(l.attn_v) == image.attn_v
    &&& matrix(l.attn_output) == image.attn_output
    &&& matrix(l.ffn_gate) == image.ffn_gate
    &&& matrix(l.ffn_up) == image.ffn_up
    &&& matrix(l.ffn_down) == image.ffn_down
}

/// Some layers' weights have these contents.
pub open spec fn layers_hold(ls: Seq<LayerWeights>, images: Seq<LayerImage>) -> bool {
    &&& ls.len() == images.len()
    &&& forall|i: int| 0 <= i < ls.len() ==> layer_holds(#[trigger] ls[i], images[i])
}

/// A model's weights have these contents.
pub open spec fn model_holds(w: TransformerWeights, image: ModelImage) -> bool {
    &&& matrix(w.token_embedding) == image.token_embedding
    &&& layers_hold(w.layers@, image.layers)
    &&& unpacks(w.output_norm, image.output_norm)
    &&& matrix(w.output) == image.output
}

// ── Column-major model files ─────────────────────────────────────────────────

/// The name of a layer's tensor in a column-major file.
pub open spec fn gguf_name(i: nat, suffix: Seq<char>) -> Seq<char> {
    "blk."@ + decimal(i) + suffix
}

/// What loading layer `i` of a column-major file gives. The first tensor that
/// cannot be loaded decides the error.
pub open spec fn gguf_layer(ts: Seq<StoredTensor>, i: nat) -> Result<LayerImage, Fault> {
    match gguf_vector(ts, gguf_name(i, ".attn_norm.weight"@)) {
        Err(e) => Err(e),
        Ok(attn_norm) => match gguf_vector(ts, gguf_name(i, ".ffn_norm.weight"@)) {
            Err(e) => Err(e),
            Ok(ffn_norm) => match gguf_matrix(ts, gguf_name(i, ".attn_q.weight"@)) {
                Err(e) => Err(e),
                Ok(attn_q) => match gguf_matrix(ts, gguf_name(i, ".attn_k.weight"@)) {
                    Err(e) => Err(e),
                    Ok(attn_k) => match gguf_matrix(ts, gguf_name(i, ".attn_v.weight"@)) {
                        Err(e) => Err(e),
                        Ok(attn_v) => match gguf_matrix(ts, gguf_name(i, ".attn_output.weight"@)) {
                            Err(e) => Err(e),
                            Ok(attn_output) => match gguf_matrix(ts, gguf_name(i, ".ffn_gate.weight"@)) {
                                Err(e) => Err(e),
                                Ok(ffn_gate) => match gguf_matrix(ts, gguf_name(i, ".ffn_up.weight"@)) {
                                    Err(e) => Err(e),
                                    Ok(ffn_up) => match gguf_matrix(ts, gguf_name(i, ".ffn_down.weight"@)) {
                                        Err(e) => Err(e),
                                        Ok(ffn_down) => Ok(LayerImage { attn_norm, ffn_norm, attn_q, attn_k, attn_v, attn_output, ffn_gate, ffn_up, ffn_down }),
                                    },
                                },
                            },
                        },
                    },
                },
            },
        },
    }
}

/// What loading the first `n` layers of a column-major file gives.
pub open spec fn gguf_layers(ts: Seq<StoredTensor>, n: nat) -> Result<Seq<LayerImage>, Fault>
    decreases n,
{
    if n == 0 {
        Ok(Seq::empty())
    } else {
        match gguf_layers(ts, (n - 1) as nat) {
            Err(e) => Err(e),
            Ok(done) => match gguf_layer(ts, (n - 1) as nat) {
                Err(e) => Err(e),
                Ok(l) => Ok(done.push(l)),
            },
        }
    }
}

/// What loading a column-major file gives. A file without an output projection
/// uses its embedding table for it.
pub open spec fn gguf_model(ts: Seq<StoredTensor>, n_layers: nat) -> Result<ModelImage, Fault> {
    match gguf_matrix(ts, "token_embd.weight"@) {
        Err(e) => Err(e),
        Ok(token_embedding) => match gguf_layers(ts, n_layers) {
            Err(e) => Err(e),
            Ok(layers) => match gguf_vector(ts, "output_norm.weight"@) {
                Err(e) => Err(e),
                Ok(output_norm) => if find(ts, "output.weight"@) is Some {
                    match gguf_matrix(ts, "output.weight"@) {
                        Err(e) => Err(e),
                        Ok(output) => Ok(
                            ModelImage { token_embedding, layers, output_norm, output },
                        ),
                    }
                } else {
                    Ok(
                        ModelImage {
                            token_embedding,
                            layers,
                            output_norm,
                            output: token_embedding,
                        },
                    )
                },
            },
        },
    }
}

/// Loading a layer does what its contract says.
pub open spec fn loads_layer(
    r: Result<LayerWeights, GlintError>,
    want: Result<LayerImage, Fault>,
) -> bool {
    match (r, want) {
        (Ok(l), Ok(image)) => layer_holds(l, image),
        (Err(e), Err(f)) => e.fault() == f,
        _ => false,
    }
}

/// Loading a model does what its contract says: the contents, or the error.
pub open spec fn loads_model(
    r: Result<TransformerWeights, GlintError>,
    want: Result<ModelImage, Fault>,
) -> bool {
    match (r, want) {
        (Ok(w), Ok(image)) => model_holds(w, image),
        (Err(e), Err(f)) => e.fault() == f,
        _ => false,
    }
}

/// The norms of layer `i` of a column-major file, which are unpacked on loading, have all
/// their bytes.
pub open spec fn gguf_layer_norms_whole(ts: Seq<StoredTensor>, i: nat) -> bool {
    &&& whole_if_there(ts, gguf_name(i, ".attn_norm.weight"@))
    &&& whole_if_there(ts, gguf_name(i, ".ffn_norm.weight"@))
}

/// What is unpacked on loading a column-major file of `n` layers has all its bytes.
pub open spec fn gguf_norms_whole(ts: Seq<StoredTensor>, n: nat) -> bool {
    &&& whole_if_there(ts, "output_norm.weight"@)
    &&& forall|i: nat| i < n ==> #[trigger] gguf_layer_norms_whole(ts, i)
}

/// True if what is unpacked on loading a column-major file has all its bytes.
pub fn gguf_norms_are_whole(model: &TensorIndex, n_layers: usize) -> (b: bool)
    ensures
        b == gguf_norms_whole(model.tensors@, n_layers as nat),
{
    if !model.is_whole_if_there("output_norm.weight") {
        return false;
    }
    let mut i: usize = 0;
    while i < n_layers
        invariant
            i <= n_layers,
            forall|j: nat| j < i ==> #[trigger] gguf_layer_norms_whole(model.tensors@, j),
        decreases n_layers - i,
    {
        let attn = model.is_whole_if_there(
            numbered("blk.", i as u64, ".attn_norm.weight").as_str(),
        );
        let ffn = model.is_whole_if_there(
            numbered("blk.", i as u64, ".ffn_norm.weight").as_str(),
        );
        if !(attn && ffn) {
            assert(!gguf_layer_norms_whole(model.tensors@, i as nat));
            return false;
        }
        i = i + 1;
    }
    true
}

fn load_gguf_layer(model: &TensorIndex, i: usize) -> (r: Result<LayerWeights, GlintError>)
    requires
        gguf_layer_norms_whole(model.tensors@, i as nat),
    ensures
        loads_layer(r, gguf_layer(model.tensors@, i as nat)),
{
    let attn_norm = load_tensor_f32(model, numbered("blk.", i as u64, ".attn_norm.weight").as_str())?;
    let ffn_norm = load_tensor_f32(model, numbered("blk.", i as u64, ".ffn_norm.weight").as_str())?;
    let attn_q = QuantizedTensor::load(model, numbered("blk.", i as u64, ".attn_q.weight").as_str())?;
    let attn_k = QuantizedTensor::load(model, numbered("blk.", i as u64, ".attn_k.weight").as_str())?;
    let attn_v = QuantizedTensor::load(model, numbered("blk.", i as u64, ".attn_v.weight").as_str())?;
    let attn_output = QuantizedTensor::load(model, numbered("blk.", i as u64, ".attn_output.weight").as_str())?;
    let ffn_gate = QuantizedTensor::load(model, numbered("blk.", i as u64, ".ffn_gate.weight").as_str())?;
    let ffn_up = QuantizedTensor::load(model, numbered("blk.", i as u64, ".ffn_up.weight").as_str())?;
    let ffn_down = QuantizedTensor::load(model, numbered("blk.", i as u64, ".ffn_down.weight").as_str())?;
    Ok(LayerWeights { attn_norm, ffn_norm, attn_q, attn_k, attn_v, attn_output, ffn_gate, ffn_up, ffn_down })
}

impl TransformerWeights {
    /// Load the weights of a column-major model file.
    pub fn load(model: &TensorIndex, config: &ModelConfig) -> (r: Result<Self, GlintError>)
        requires
            gguf_norms_whole(model.tensors@, config.block_count as nat),
            config.block_count <= usize::MAX,
        ensures
            loads_model(r, gguf_model(model.tensors@, config.block_count as nat)),
    {
        let token_embedding = QuantizedTensor::load(model, "token_embd.weight")?;
        let n_layers: usize = config.block_count as usize;
        let mut layers: Vec<LayerWeights> = Vec::new();
        let mut i: usize = 0;
        let ghost mut images: Seq<LayerImage> = Seq::empty();
        while i < n_layers
            invariant
                gguf_norms_whole(model.tensors@, config.block_count as nat),
                n_layers == config.block_count,
                i <= n_layers,
                gguf_matrix(model.tensors@, "token_embd.weight"@) is Ok,
                gguf_layers(model.tensors@, i as nat) == Ok::<Seq<LayerImage>, Fault>(images),
                layers_hold(layers@, images),
            decreases n_layers - i,
        {
            assert(gguf_layer_norms_whole(model.tensors@, i as nat));
            let l = load_gguf_layer(model, i);
            match l {
                Ok(l) => {
                    proof {
                        let image = gguf_layer(model.tensors@, i as nat)->Ok_0;
                        images = images.push(image);
                    }
                    layers.push(l);
                },
                Err(e) => {
                    proof {
                        lemma_gguf_layers_fail(model.tensors@, i as nat, n_layers as nat);
                    }
                    return Err(e);
                },
            }
            i = i + 1;
        }
        let output_norm = load_tensor_f32(model, "output_norm.weight")?;
        let output = if model.contains("output.weight") {
            QuantizedTensor::load(model, "output.weight")?
        } else {
            token_embedding.duplicate()
        };
        Ok(TransformerWeights { token_embedding, layers, output_norm, output })
    }
}

proof fn lemma_gguf_layers_fail(ts: Seq<StoredTensor>, i: nat, n: nat)
    requires
        i < n,
        gguf_layers(ts, i) is Ok,
        gguf_layer(ts, i) is Err,
    ensures
        gguf_layers(ts, n) == Err::<Seq<LayerImage>, Fault>(gguf_layer(ts, i)->Err_0),
    decreases n,
{
    if i < n - 1 {
        lemma_gguf_layers_fail(ts, i, (n - 1) as nat);
    }
}

// ── Checkpoints ──────────────────────────────────────────────────────────────

/// A text where any size is allowed.
pub open spec fn size_text(n: Option<nat>) -> Seq<char> {
    match n {
        Some(n) => decimal(n),
        None => "*"@,
    }
}

/// What a matrix of the wrong shape is refused with.
pub open spec fn shape_detail(rows: Option<nat>, cols: nat, r: nat, c: nat) -> Seq<char> {
    "expected shape ["@ + size_text(rows) + ", "@ + decimal(cols) + "], found ["@ + decimal(r)
        + ", "@ + decimal(c) + "]"@
}

/// What a vector of the wrong length is refused with.
pub open spec fn length_detail(want: nat, found: nat) -> Seq<char> {
    "expected "@ + decimal(want) + " elements, found "@ + decimal(found)
}

/// What loading a matrix of a checkpoint gives. Its shape must agree with the
/// model's configuration; its bytes stay as they are.
pub open spec fn checkpoint_matrix(
    ts: Seq<StoredTensor>,
    name: Seq<char>,
    rows: Option<nat>,
    cols: nat,
) -> Result<Matrix, Fault> {
    match find(ts, name) {
        None => Err(Fault::NotFound(name)),
        Some(t) => {
            let (r, c) = (t.shape@[0] as nat, t.shape@[1] as nat);
            if t.shape@.len() != 2 {
                Err(Fault::Shape { name, ndim: t.shape@.len() })
            } else if c != cols || (rows is Some && rows->0 != r) {
                Err(Fault::Read { name, detail: shape_detail(rows, cols, r, c) })
            } else if t.format is None {
                Err(Fault::Dtype { name, dtype: t.dtype@ })
            } else {
                Ok(Matrix { bytes: t.data@, rows: r, cols: c, ty: t.format->0 })
            }
        },
    }
}

/// What loading a vector of a checkpoint gives.
pub open spec fn checkpoint_vector(
    ts: Seq<StoredTensor>,
    name: Seq<char>,
    len: nat,
) -> Result<Packed, Fault> {
    match find(ts, name) {
        None => Err(Fault::NotFound(name)),
        Some(t) => if t.shape@.len() != 1 {
            Err(Fault::Shape { name, ndim: t.shape@.len() })
        } else if t.shape@[0] != len {
            Err(Fault::Read { name, detail: length_detail(len, t.shape@[0] as nat) })
        } else if t.format is None {
            Err(Fault::Dtype { name, dtype: t.dtype@ })
        } else {
            Ok(Packed { bytes: t.data@, ty: t.format->0, shape: t.shape@ })
        },
    }
}

fn shape_message(rows: Option<usize>, cols: usize, r: usize, c: usize) -> (s: String)
    ensures
        s@ == shape_detail(
            match rows {
                Some(n) => Some(n as nat),
                None => None,
            },
            cols as nat,
            r as nat,
            c as nat,
        ),
{
    let mut s = String::new();
    s.append("expected shape [");
    match rows {
        Some(n) => {
            push_decimal(&mut s, n as u64);
        },
        None => {
            s.append("*");
        },
    }
    s.append(", ");
    push_decimal(&mut s, cols as u64);
    s.append("], found [");
    push_decimal(&mut s, r as u64);
    s.append(", ");
    push_decimal(&mut s, c as u64);
    s.append("]");
    s
}

/// Load a matrix of a checkpoint, keeping its storage format. `expect_rows` is
/// `None` where the tensor itself decides.
pub fn hf_matrix(
    st: &TensorIndex,
    name: &str,
    expect_rows: Option<usize>,
    expect_cols: usize,
) -> (r: Result<QuantizedTensor, GlintError>)
    ensures
        loads_matrix(
            r,
            checkpoint_matrix(
                st.tensors@,
                name@,
                match expect_rows {
                    Some(n) => Some(n as nat),
                    None => None,
                },
                expect_cols as nat,
            ),
        ),
{
    let t = match st.get(name) {
        Some(t) => t,
        None => {
            return Err(GlintError::TensorNotFound(name.to_string()));
        },
    };
    if t.shape.len() != 2 {
        return Err(GlintError::InvalidTensorShape { name: name.to_string(), ndim: t.shape.len() });
    }
    let rows: usize = t.shape[0];
    let cols: usize = t.shape[1];
    let wrong_rows = match expect_rows {
        Some(n) => n != rows,
        None => false,
    };
    if cols != expect_cols || wrong_rows {
        return Err(
            GlintError::TensorReadError {
                name: name.to_string(),
                detail: shape_message(expect_rows, expect_cols, rows, cols),
            },
        );
    }
    match t.format {
        Some(ty) => Ok(
            QuantizedTensor::from_raw(
                vstd::slice::slice_to_vec(t.data.as_slice()),
                rows,
                cols,
                ty,
            ),
        ),
        None => Err(
            GlintError::SafeTensorsUnsupportedDtype {
                name: name.to_string(),
                dtype: t.dtype.clone(),
            },
        ),
    }
}

/// Load a vector of a checkpoint, such as a norm's scale, and unpack it.
pub fn hf_vector(st: &TensorIndex, name: &str, expect_len: usize) -> (r: Result<
    LoadedTensor,
    GlintError,
>)
    requires
        whole_if_there(st.tensors@, name@),
    ensures
        loads_vector(r, checkpoint_vector(st.tensors@, name@, expect_len as nat)),
{
    let t = match st.get(name) {
        Some(t) => t,
        None => {
            return Err(GlintError::TensorNotFound(name.to_string()));
        },
    };
    if t.shape.len() != 1 {
        return Err(GlintError::InvalidTensorShape { name: name.to_string(), ndim: t.shape.len() });
    }
    if t.shape[0] != expect_len {
        let mut detail = String::new();
        detail.append("expected ");
        push_decimal(&mut detail, expect_len as u64);
        detail.append(" elements, found ");
        push_decimal(&mut detail, t.shape[0] as u64);
        return Err(GlintError::TensorReadError { name: name.to_string(), detail });
    }
    proof {
        crate::tensor::tensor::lemma_one_dimension(t.shape@[0]);
        assert(t.shape@ =~= seq![t.shape@[0]]);
    }
    match t.format {
        Some(ty) => {
            let mut shape: Vec<usize> = Vec::new();
            shape.push(expect_len);
            assert(shape@ =~= t.shape@);
            Ok(LoadedTensor { values: dequantize(t.data.as_slice(), ty, expect_len), shape })
        },
        None => Err(
            GlintError::SafeTensorsUnsupportedDtype {
                name: name.to_string(),
                dtype: t.dtype.clone(),
            },
        ),
    }
}

/// The rows of a query or key projection in adjacent-pair order.
pub open spec fn permuted_matrix(m: Matrix, n_heads: nat, head_dim: nat, rot_dim: nat) -> Matrix {
    let row_bytes = if m.rows == 0 {
        m.bytes.len()
    } else {
        m.bytes.len() / m.rows
    };
    Matrix { bytes: permuted(m.bytes, n_heads, head_dim, rot_dim, row_bytes), ..m }
}

/// Put the rows of a query or key projection in adjacent-pair order.
pub fn permute_qk(weight: QuantizedTensor, n_heads: usize, head_dim: usize, rot_dim: usize) -> (t:
    QuantizedTensor)
    requires
        rot_dim / 2 * 2 <= head_dim,
    ensures
        matrix(t) == permuted_matrix(
            matrix(weight),
            n_heads as nat,
            head_dim as nat,
            rot_dim as nat,
        ),
{
    let rows: usize = weight.rows();
    let cols: usize = weight.cols();
    let ty = weight.ggml_type();
    let row_bytes: usize = if rows == 0 {
        weight.raw_data().len()
    } else {
        weight.raw_data().len() / rows
    };
    let permuted = permute_qk_rows(weight.raw_data(), n_heads, head_dim, rot_dim, row_bytes);
    QuantizedTensor::from_raw(permuted, rows, cols, ty)
}

/// The name of a layer's tensor in a checkpoint.
pub open spec fn checkpoint_name(i: nat, suffix: Seq<char>) -> Seq<char> {
    "model.layers."@ + decimal(i) + suffix
}

/// True if layer `i` has a tensor of that suffix.
pub open spec fn has(ts: Seq<StoredTensor>, i: nat, suffix: Seq<char>) -> bool {
    find(ts, checkpoint_name(i, suffix)) is Some
}

/// What a layer with a bias is refused with.
pub open spec fn bias_fault(i: nat, suffix: Seq<char>) -> Fault {
    Fault::Unsupported(
        "attention bias '"@ + checkpoint_name(i, suffix)
            + "' — Glint's attention is bias-free"@,
    )
}

/// Why the layout of layer `i` cannot be run, if it cannot.
pub open spec fn layout_fault(ts: Seq<StoredTensor>, i: nat) -> Option<Fault> {
    if has(ts, i, ".self_attn.qkv_proj.weight"@) {
        Some(
            Fault::Unsupported(
                "fused self_attn.qkv_proj (Phi-3 layout) — Glint needs separate q/k/v projections"@,
            ),
        )
    } else if has(ts, i, ".mlp.gate_up_proj.weight"@) {
        Some(
            Fault::Unsupported(
                "fused mlp.gate_up_proj (Phi-3 layout) — Glint needs separate gate/up projections"@,
            ),
        )
    } else if has(ts, i, ".self_attn.q_proj.bias"@) {
        Some(bias_fault(i, ".self_attn.q_proj.bias"@))
    } else if has(ts, i, ".self_attn.k_proj.bias"@) {
        Some(bias_fault(i, ".self_attn.k_proj.bias"@))
    } else if has(ts, i, ".self_attn.v_proj.bias"@) {
        Some(bias_fault(i, ".self_attn.v_proj.bias"@))
    } else if has(ts, i, ".self_attn.o_proj.bias"@) {
        Some(bias_fault(i, ".self_attn.o_proj.bias"@))
    } else if has(ts, i, ".self_attn.q_norm.weight"@) {
        Some(Fault::Unsupported("per-head 'q_norm' (Qwen3 layout) is not implemented"@))
    } else if has(ts, i, ".self_attn.k_norm.weight"@) {
        Some(Fault::Unsupported("per-head 'k_norm' (Qwen3 layout) is not implemented"@))
    } else {
        None
    }
}

/// Why the layout of the first `n` layers cannot be run: the first layer's reason.
pub open spec fn first_layout_fault(ts: Seq<StoredTensor>, n: nat) -> Option<Fault>
    decreases n,
{
    if n == 0 {
        None
    } else {
        match first_layout_fault(ts, (n - 1) as nat) {
            Some(f) => Some(f),
            None => layout_fault(ts, (n - 1) as nat),
        }
    }
}

fn bias_error(i: usize, suffix: &str) -> (e: GlintError)
    ensures
        e.fault() == bias_fault(i as nat, suffix@),
{
    let mut s = String::new();
    s.append("attention bias '");
    s.append(numbered("model.layers.", i as u64, suffix).as_str());
    s.append("' — Glint's attention is bias-free");
    GlintError::HfUnsupported(s)
}

fn layer_has(st: &TensorIndex, i: usize, suffix: &str) -> (b: bool)
    ensures
        b == has(st.tensors@, i as nat, suffix@),
{
    st.contains(numbered("model.layers.", i as u64, suffix).as_str())
}

fn check_layer_layout(st: &TensorIndex, i: usize) -> (r: Result<(), GlintError>)
    ensures
        match r {
            Ok(()) => layout_fault(st.tensors@, i as nat) is None,
            Err(e) => layout_fault(st.tensors@, i as nat) == Some(e.fault()),
        },
{
    if layer_has(st, i, ".self_attn.qkv_proj.weight") {
        return Err(
            GlintError::HfUnsupported(
                "fused self_attn.qkv_proj (Phi-3 layout) — Glint needs separate q/k/v projections".to_string(),
            ),
        );
    }
    if layer_has(st, i, ".mlp.gate_up_proj.weight") {
        return Err(
            GlintError::HfUnsupported(
                "fused mlp.gate_up_proj (Phi-3 layout) — Glint needs separate gate/up projections".to_string(),
            ),
        );
    }
    if layer_has(st, i, ".self_attn.q_proj.bias") {
        return Err(bias_error(i, ".self_attn.q_proj.bias"));
    }
    if layer_has(st, i, ".self_attn.k_proj.bias") {
        return Err(bias_error(i, ".self_attn.k_proj.bias"));
    }
    if layer_has(st, i, ".self_attn.v_proj.bias") {
        return Err(bias_error(i, ".self_attn.v_proj.bias"));
    }
    if layer_has(st, i, ".self_attn.o_proj.bias") {
        return Err(bias_error(i, ".self_attn.o_proj.bias"));
    }
    if layer_has(st, i, ".self_attn.q_norm.weight") {
        return Err(
            GlintError::HfUnsupported(
                "per-head 'q_norm' (Qwen3 layout) is not implemented".to_string(),
            ),
        );
    }
    if layer_has(st, i, ".self_attn.k_norm.weight") {
        return Err(
            GlintError::HfUnsupported(
                "per-head 'k_norm' (Qwen3 layout) is not implemented".to_string(),
            ),
        );
    }
    Ok(())
}

/// Refuse layouts that the forward pass cannot express, saying which one.
pub fn reject_unsupported_layouts(st: &TensorIndex, n_layers: usize) -> (r: Result<(), GlintError>)
    ensures
        match r {
            Ok(()) => first_layout_fault(st.tensors@, n_layers as nat) is None,
            Err(e) => first_layout_fault(st.tensors@, n_layers as nat) == Some(e.fault()),
        },
{
    let mut i: usize = 0;
    while i < n_layers
        invariant
            i <= n_layers,
            first_layout_fault(st.tensors@, i as nat) is None,
        decreases n_layers - i,
    {
        let r = check_layer_layout(st, i);
        match r {
            Ok(()) => {},
            Err(e) => {
                proof {
                    lemma_layout_fault_stays(st.tensors@, (i + 1) as nat, n_layers as nat);
                }
                return Err(e);
            },
        }
        i = i + 1;
    }
    Ok(())
}

proof fn lemma_layout_fault_stays(ts: Seq<StoredTensor>, i: nat, n: nat)
    requires
        i <= n,
        first_layout_fault(ts, i) is Some,
    ensures
        first_layout_fault(ts, n) == first_layout_fault(ts, i),
    decreases n,
{
    if i < n {
        lemma_layout_fault_stays(ts, i, (n - 1) as nat);
    }
}

/// The sizes that a checkpoint must agree with.
#[derive(Clone, Copy)]
pub struct Sizes {
    pub embed: nat,
    pub n_heads: nat,
    pub n_kv_heads: nat,
    pub head_dim: nat,
    pub rot_dim: nat,
    pub q_rows: nat,
    pub kv_rows: nat,
}

/// The sizes that a configuration asks for.
pub open spec fn sizes(config: ModelConfig) -> Sizes {
    let head_dim = config.spec_head_dim() as nat;
    Sizes {
        embed: config.embedding_length as nat,
        n_heads: config.head_count as nat,
        n_kv_heads: config.head_count_kv as nat,
        head_dim,
        rot_dim: config.spec_rot_dim() as nat,
        q_rows: config.head_count as nat * head_dim,
        kv_rows: config.head_count_kv as nat * head_dim,
    }
}

/// What loading layer `i` of a checkpoint gives. The first tensor that cannot be
/// loaded decides the error.
pub open spec fn checkpoint_layer(ts: Seq<StoredTensor>, i: nat, d: Sizes) -> Result<
LayerImage,
Fault,
> {
    match checkpoint_matrix(ts, checkpoint_name(i, ".self_attn.q_proj.weight"@), Some(d.q_rows), d.embed) {
        Err(e) => Err(e),
        Ok(attn_q) => match checkpoint_matrix(ts, checkpoint_name(i, ".self_attn.k_proj.weight"@), Some(d.kv_rows), d.embed) {
            Err(e) => Err(e),
            Ok(attn_k) => match checkpoint_matrix(ts, checkpoint_name(i, ".mlp.gate_proj.weight"@), None, d.embed) {
                Err(e) => Err(e),
                Ok(ffn_gate) => match checkpoint_vector(ts, checkpoint_name(i, ".input_layernorm.weight"@), d.embed) {
                    Err(e) => Err(e),
                    Ok(attn_norm) => match checkpoint_vector(ts, checkpoint_name(i, ".post_attention_layernorm.weight"@), d.embed) {
                        Err(e) => Err(e),
                        Ok(ffn_norm) => match checkpoint_matrix(ts, checkpoint_name(i, ".self_attn.v_proj.weight"@), Some(d.kv_rows), d.embed) {
                            Err(e) => Err(e),
                            Ok(attn_v) => match checkpoint_matrix(ts, checkpoint_name(i, ".self_attn.o_proj.weight"@), Some(d.embed), d.q_rows) {
                                Err(e) => Err(e),
                                Ok(attn_output) => match checkpoint_matrix(ts, checkpoint_name(i, ".mlp.up_proj.weight"@), Some(ffn_gate.rows), d.embed) {
                                    Err(e) => Err(e),
                                    Ok(ffn_up) => match checkpoint_matrix(ts, checkpoint_name(i, ".mlp.down_proj.weight"@), Some(d.embed), ffn_gate.rows) {
                                        Err(e) => Err(e),
                                        Ok(ffn_down) => Ok(LayerImage {
                                                attn_norm,
                                                ffn_norm,
                                                attn_q: permuted_matrix(attn_q, d.n_heads, d.head_dim, d.rot_dim),
                                                attn_k: permuted_matrix(attn_k, d.n_kv_heads, d.head_dim, d.rot_dim),
                                                attn_v,
                                                attn_output,
                                                ffn_gate,
                                                ffn_up,
                                                ffn_down,
                                        }),
                                    },
                                },
                            },
                        },
                    },
                },
            },
        },
    }
}

/// What loading the first `n` layers of a checkpoint gives.
pub open spec fn checkpoint_layers(ts: Seq<StoredTensor>, n: nat, d: Sizes) -> Result<
    Seq<LayerImage>,
    Fault,
>
    decreases n,
{
    if n == 0 {
        Ok(Seq::empty())
    } else {
        match checkpoint_layers(ts, (n - 1) as nat, d) {
            Err(e) => Err(e),
            Ok(done) => match checkpoint_layer(ts, (n - 1) as nat, d) {
                Err(e) => Err(e),
                Ok(l) => Ok(done.push(l)),
            },
        }
    }
}

/// What loading a checkpoint gives. Where the embeddings are tied, or no output
/// projection is there, the embedding table serves as one.
pub open spec fn checkpoint_model(
    ts: Seq<StoredTensor>,
    n_layers: nat,
    d: Sizes,
    tied: bool,
) -> Result<ModelImage, Fault> {
    if first_layout_fault(ts, n_layers) is Some {
        Err(first_layout_fault(ts, n_layers)->0)
    } else {
        match checkpoint_matrix(ts, "model.embed_tokens.weight"@, None, d.embed) {
            Err(e) => Err(e),
            Ok(token_embedding) => match checkpoint_layers(ts, n_layers, d) {
                Err(e) => Err(e),
                Ok(layers) => match checkpoint_vector(ts, "model.norm.weight"@, d.embed) {
                    Err(e) => Err(e),
                    Ok(output_norm) => if tied || find(ts, "lm_head.weight"@) is None {
                        Ok(
                            ModelImage {
                                token_embedding,
                                layers,
                                output_norm,
                                output: token_embedding,
                            },
                        )
                    } else {
                        match checkpoint_matrix(ts, "lm_head.weight"@, None, d.embed) {
                            Err(e) => Err(e),
                            Ok(output) => Ok(
                                ModelImage { token_embedding, layers, output_norm, output },
                            ),
                        }
                    },
                },
            },
        }
    }
}

/// The sizes of a configuration fit the machine's word.
pub open spec fn sizes_fit(config: ModelConfig) -> bool {
    &&& config.head_dim_override is None ==> config.head_count > 0
    &&& config.block_count <= usize::MAX
    &&& config.spec_rot_dim() <= config.spec_head_dim()
    &&& sizes(config).q_rows <= usize::MAX
    &&& sizes(config).kv_rows <= usize::MAX
}

/// The norms of layer `i` of a checkpoint, which are unpacked on loading, have all their
/// bytes.
pub open spec fn checkpoint_layer_norms_whole(ts: Seq<StoredTensor>, i: nat) -> bool {
    &&& whole_if_there(ts, checkpoint_name(i, ".input_layernorm.weight"@))
    &&& whole_if_there(ts, checkpoint_name(i, ".post_attention_layernorm.weight"@))
}

/// What is unpacked on loading a checkpoint of `n` layers has all its bytes.
pub open spec fn checkpoint_norms_whole(ts: Seq<StoredTensor>, n: nat) -> bool {
    &&& whole_if_there(ts, "model.norm.weight"@)
    &&& forall|i: nat| i < n ==> #[trigger] checkpoint_layer_norms_whole(ts, i)
}

/// True if what is unpacked on loading a checkpoint has all its bytes.
pub fn checkpoint_norms_are_whole(st: &TensorIndex, n_layers: usize) -> (b: bool)
    ensures
        b == checkpoint_norms_whole(st.tensors@, n_layers as nat),
{
    if !st.is_whole_if_there("model.norm.weight") {
        return false;
    }
    let mut i: usize = 0;
    while i < n_layers
        invariant
            i <= n_layers,
            forall|j: nat| j < i ==> #[trigger] checkpoint_layer_norms_whole(st.tensors@, j),
        decreases n_layers - i,
    {
        let attn = st.is_whole_if_there(
            numbered("model.layers.", i as u64, ".input_layernorm.weight").as_str(),
        );
        let ffn = st.is_whole_if_there(
            numbered("model.layers.", i as u64, ".post_attention_layernorm.weight").as_str(),
        );
        if !(attn && ffn) {
            assert(!checkpoint_layer_norms_whole(st.tensors@, i as nat));
            return false;
        }
        i = i + 1;
    }
    true
}

fn load_checkpoint_layer(st: &TensorIndex, i: usize, config: &ModelConfig) -> (r: Result<
    LayerWeights,
    GlintError,
>)
    requires
        checkpoint_layer_norms_whole(st.tensors@, i as nat),
        sizes_fit(*config),
    ensures
        loads_layer(r, checkpoint_layer(st.tensors@, i as nat, sizes(*config))),
{
    let embed: usize = config.embedding_length as usize;
    let n_heads: usize = config.head_count as usize;
    let n_kv_heads: usize = config.head_count_kv as usize;
    let head_dim: usize = config.head_dim() as usize;
    let rot_dim: usize = config.rot_dim() as usize;
    let q_rows: usize = n_heads * head_dim;
    let kv_rows: usize = n_kv_heads * head_dim;
    let attn_q = hf_matrix(
        st,
        numbered("model.layers.", i as u64, ".self_attn.q_proj.weight").as_str(),
        Some(q_rows),
        embed,
    )?;
    let attn_k = hf_matrix(
        st,
        numbered("model.layers.", i as u64, ".self_attn.k_proj.weight").as_str(),
        Some(kv_rows),
        embed,
    )?;
    let ffn_gate = hf_matrix(
        st,
        numbered("model.layers.", i as u64, ".mlp.gate_proj.weight").as_str(),
        None,
        embed,
    )?;
    let ffn_hidden: usize = ffn_gate.rows();
    let attn_norm = hf_vector(
        st,
        numbered("model.layers.", i as u64, ".input_layernorm.weight").as_str(),
        embed,
    )?;
    let ffn_norm = hf_vector(
        st,
        numbered("model.layers.", i as u64, ".post_attention_layernorm.weight").as_str(),
        embed,
    )?;
    let attn_v = hf_matrix(
        st,
        numbered("model.layers.", i as u64, ".self_attn.v_proj.weight").as_str(),
        Some(kv_rows),
        embed,
    )?;
    let attn_output = hf_matrix(
        st,
        numbered("model.layers.", i as u64, ".self_attn.o_proj.weight").as_str(),
        Some(embed),
        q_rows,
    )?;
    let ffn_up = hf_matrix(
        st,
        numbered("model.layers.", i as u64, ".mlp.up_proj.weight").as_str(),
        Some(ffn_hidden),
        embed,
    )?;
    let ffn_down = hf_matrix(
        st,
        numbered("model.layers.", i as u64, ".mlp.down_proj.weight").as_str(),
        Some(embed),
        ffn_hidden,
    )?;
    Ok(
        LayerWeights {
            attn_norm,
            ffn_norm,
            attn_q: permute_qk(attn_q, n_heads, head_dim, rot_dim),
            attn_k: permute_qk(attn_k, n_kv_heads, head_dim, rot_dim),
            attn_v,
            attn_output,
            ffn_gate,
            ffn_up,
            ffn_down,
        },
    )
}

proof fn lemma_checkpoint_layers_fail(ts: Seq<StoredTensor>, i: nat, n: nat, d: Sizes)
    requires
        i < n,
        checkpoint_layers(ts, i, d) is Ok,
        checkpoint_layer(ts, i, d) is Err,
    ensures
        checkpoint_layers(ts, n, d) == Err::<Seq<LayerImage>, Fault>(
            checkpoint_layer(ts, i, d)->Err_0,
        ),
    decreases n,
{
    if i < n - 1 {
        lemma_checkpoint_layers_fail(ts, i, (n - 1) as nat, d);
    }
}

impl TransformerWeights {
    /// Load the weights of a checkpoint.
    ///
    /// A checkpoint stores every matrix with its rows first, which is the layout
    /// used here. Only the query and key rows are reordered.
    pub fn from_safetensors(
        st: &TensorIndex,
        config: &ModelConfig,
        tie_word_embeddings: bool,
    ) -> (r: Result<Self, GlintError>)
        requires
            checkpoint_norms_whole(st.tensors@, config.block_count as nat),
            sizes_fit(*config),
        ensures
            loads_model(
                r,
                checkpoint_model(
                    st.tensors@,
                    config.block_count as nat,
                    sizes(*config),
                    tie_word_embeddings,
                ),
            ),
    {
        let embed: usize = config.embedding_length as usize;
        let n_layers: usize = config.block_count as usize;
        let ghost d = sizes(*config);
        reject_unsupported_layouts(st, n_layers)?;
        let token_embedding = hf_matrix(st, "model.embed_tokens.weight", None, embed)?;
        let mut layers: Vec<LayerWeights> = Vec::new();
        let mut i: usize = 0;
        let ghost mut images: Seq<LayerImage> = Seq::empty();
        while i < n_layers
            invariant
                checkpoint_norms_whole(st.tensors@, config.block_count as nat),
                sizes_fit(*config),
                d == sizes(*config),
                n_layers == config.block_count,
                i <= n_layers,
                first_layout_fault(st.tensors@, n_layers as nat) is None,
                checkpoint_matrix(
                    st.tensors@,
                    "model.embed_tokens.weight"@,
                    None,
                    d.embed,
                ) is Ok,
                checkpoint_layers(st.tensors@, i as nat, d) == Ok::<Seq<LayerImage>, Fault>(
                    images,
                ),
                layers_hold(layers@, images),
            decreases n_layers - i,
        {
            assert(checkpoint_layer_norms_whole(st.tensors@, i as nat));
            let l = load_checkpoint_layer(st, i, config);
            match l {
                Ok(l) => {
                    proof {
                        images = images.push(checkpoint_layer(st.tensors@, i as nat, d)->Ok_0);
                    }
                    layers.push(l);
                },
                Err(e) => {
                    proof {
                        lemma_checkpoint_layers_fail(
                            st.tensors@,
                            i as nat,
                            n_layers as nat,
                            d,
                        );
                    }
                    return Err(e);
                },
            }
            i = i + 1;
        }
        let output_norm = hf_vector(st, "model.norm.weight", embed)?;
        let output = if tie_word_embeddings || !st.contains("lm_head.weight") {
            token_embedding.duplicate()
        } else {
            hf_matrix(st, "lm_head.weight", None, embed)?
        };
        Ok(TransformerWeights { token_embedding, layers, output_norm, output })
    }
}

// ── Laws ─────────────────────────────────────────────────────────────────────

/// Two files store the same matrix: one with the rows first, the other column-major
/// and, for a query or key projection of `heads` heads, already in adjacent-pair
/// order.
pub open spec fn same_matrix(
    hf: Seq<StoredTensor>,
    hf_name: Seq<char>,
    gg: Seq<StoredTensor>,
    gg_name: Seq<char>,
    heads: Option<nat>,
    d: Sizes,
) -> bool {
    let a = find(hf, hf_name);
    let b = find(gg, gg_name);
    &&& a is Some && b is Some
    &&& a->0.shape@.len() == 2
    &&& b->0.shape@ == seq![a->0.shape@[1], a->0.shape@[0]]
    &&& a->0.format == b->0.format
    &&& a->0.format is Some
    &&& match heads {
        None => b->0.data@ == a->0.data@,
        Some(n) => b->0.data@ == permuted_matrix(
            Matrix {
                bytes: a->0.data@,
                rows: a->0.shape@[0] as nat,
                cols: a->0.shape@[1] as nat,
                ty: a->0.format->0,
            },
            n,
            d.head_dim,
            d.rot_dim,
        ).bytes,
    }
}

/// Two files store the same vector.
pub open spec fn same_vector(
    hf: Seq<StoredTensor>,
    hf_name: Seq<char>,
    gg: Seq<StoredTensor>,
    gg_name: Seq<char>,
) -> bool {
    let a = find(hf, hf_name);
    let b = find(gg, gg_name);
    &&& a is Some && b is Some
    &&& a->0.shape@.len() == 1
    &&& b->0.shape@ == a->0.shape@
    &&& a->0.format == b->0.format
    &&& a->0.format is Some
    &&& b->0.data@ == a->0.data@
}

/// A checkpoint and a column-major file store the same layer `i`.
pub open spec fn same_layer(
    hf: Seq<StoredTensor>,
    gg: Seq<StoredTensor>,
    i: nat,
    d: Sizes,
) -> bool {
    &&& same_vector(
        hf,
        checkpoint_name(i, ".input_layernorm.weight"@),
        gg,
        gguf_name(i, ".attn_norm.weight"@),
    )
    &&& same_vector(
        hf,
        checkpoint_name(i, ".post_attention_layernorm.weight"@),
        gg,
        gguf_name(i, ".ffn_norm.weight"@),
    )
    &&& same_matrix(
        hf,
        checkpoint_name(i, ".self_attn.q_proj.weight"@),
        gg,
        gguf_name(i, ".attn_q.weight"@),
        Some(d.n_heads),
        d,
    )
    &&& same_matrix(
        hf,
        checkpoint_name(i, ".self_attn.k_proj.weight"@),
        gg,
        gguf_name(i, ".attn_k.weight"@),
        Some(d.n_kv_heads),
        d,
    )
    &&& same_matrix(
        hf,
        checkpoint_name(i, ".self_attn.v_proj.weight"@),
        gg,
        gguf_name(i, ".attn_v.weight"@),
        None,
        d,
    )
    &&& same_matrix(
        hf,
        checkpoint_name(i, ".self_attn.o_proj.weight"@),
        gg,
        gguf_name(i, ".attn_output.weight"@),
        None,
        d,
    )
    &&& same_matrix(
        hf,
        checkpoint_name(i, ".mlp.gate_proj.weight"@),
        gg,
        gguf_name(i, ".ffn_gate.weight"@),
        None,
        d,
    )
    &&& same_matrix(
        hf,
        checkpoint_name(i, ".mlp.up_proj.weight"@),
        gg,
        gguf_name(i, ".ffn_up.weight"@),
        None,
        d,
    )
    &&& same_matrix(
        hf,
        checkpoint_name(i, ".mlp.down_proj.weight"@),
        gg,
        gguf_name(i, ".ffn_down.weight"@),
        None,
        d,
    )
}

/// A checkpoint and a column-major file store the same model.
pub open spec fn same_model(
    hf: Seq<StoredTensor>,
    gg: Seq<StoredTensor>,
    n_layers: nat,
    d: Sizes,
    tied: bool,
) -> bool {
    &&& same_matrix(
        hf,
        "model.embed_tokens.weight"@,
        gg,
        "token_embd.weight"@,
        None,
        d,
    )
    &&& forall|i: nat| i < n_layers ==> #[trigger] same_layer(hf, gg, i, d)
    &&& same_vector(hf, "model.norm.weight"@, gg, "output_norm.weight"@)
    &&& if tied || find(hf, "lm_head.weight"@) is None {
        find(gg, "output.weight"@) is None
    } else {
        same_matrix(hf, "lm_head.weight"@, gg, "output.weight"@, None, d)
    }
}

/// A model loads to the same weights from either kind of file.
pub proof fn law_both_files_load_the_same_weights(
    hf: Seq<StoredTensor>,
    gg: Seq<StoredTensor>,
    n_layers: nat,
    d: Sizes,
    tied: bool,
)
    requires
        same_model(hf, gg, n_layers, d, tied),
        checkpoint_model(hf, n_layers, d, tied) is Ok,
    ensures
        gguf_model(gg, n_layers) == checkpoint_model(hf, n_layers, d, tied),
{
    lemma_same_layers(hf, gg, n_layers, n_layers, d);
    assert(find(gg, "output_norm.weight"@)->0.shape@.reverse() =~= find(
        hf,
        "model.norm.weight"@,
    )->0.shape@);
}

proof fn lemma_same_layer(hf: Seq<StoredTensor>, gg: Seq<StoredTensor>, i: nat, d: Sizes)
    requires
        same_layer(hf, gg, i, d),
        checkpoint_layer(hf, i, d) is Ok,
    ensures
        gguf_layer(gg, i) == checkpoint_layer(hf, i, d),
{
    let a = find(hf, checkpoint_name(i, ".input_layernorm.weight"@))->0;
    let b = find(gg, gguf_name(i, ".attn_norm.weight"@))->0;
    assert(b.shape@.reverse() =~= a.shape@);
    let a = find(hf, checkpoint_name(i, ".post_attention_layernorm.weight"@))->0;
    let b = find(gg, gguf_name(i, ".ffn_norm.weight"@))->0;
    assert(b.shape@.reverse() =~= a.shape@);
}

proof fn lemma_same_layers(
    hf: Seq<StoredTensor>,
    gg: Seq<StoredTensor>,
    k: nat,
    n: nat,
    d: Sizes,
)
    requires
        k <= n,
        forall|i: nat| i < n ==> #[trigger] same_layer(hf, gg, i, d),
        checkpoint_layers(hf, k, d) is Ok,
    ensures
        gguf_layers(gg, k) == checkpoint_layers(hf, k, d),
    decreases k,
{
    if k > 0 {
        let m = (k - 1) as nat;
        lemma_same_layers(hf, gg, m, n, d);
        assert(same_layer(hf, gg, m, d));
        lemma_same_layer(hf, gg, m, d);
    }
}

/// The shapes of a layer agree with the configuration.
pub open spec fn layer_fits(l: LayerImage, d: Sizes) -> bool {
    &&& l.attn_q.rows == d.q_rows && l.attn_q.cols == d.embed
    &&& l.attn_k.rows == d.kv_rows && l.attn_k.cols == d.embed
    &&& l.attn_v.rows == d.kv_rows && l.attn_v.cols == d.embed
    &&& l.attn_output.rows == d.embed && l.attn_output.cols == d.q_rows
    &&& l.ffn_gate.cols == d.embed
    &&& l.ffn_up.rows == l.ffn_gate.rows && l.ffn_up.cols == d.embed
    &&& l.ffn_down.rows == d.embed && l.ffn_down.cols == l.ffn_gate.rows
    &&& product(l.attn_norm.shape) == d.embed
    &&& product(l.ffn_norm.shape) == d.embed
}

/// A checkpoint that loads agrees with its configuration: it has every layer, and
/// the shapes of its weights compose, so that no product can fail later.
pub proof fn law_loaded_checkpoint_fits_its_configuration(
    ts: Seq<StoredTensor>,
    n_layers: nat,
    d: Sizes,
    tied: bool,
)
    requires
        checkpoint_model(ts, n_layers, d, tied) is Ok,
    ensures
        ({
            let m = checkpoint_model(ts, n_layers, d, tied)->Ok_0;
            &&& m.layers.len() == n_layers
            &&& forall|i: int| 0 <= i < n_layers ==> layer_fits(#[trigger] m.layers[i], d)
            &&& m.token_embedding.cols == d.embed
            &&& m.output.cols == d.embed
            &&& product(m.output_norm.shape) == d.embed
        }),
{
    lemma_layers_fit(ts, n_layers, d);
    lemma_vector_length(ts, "model.norm.weight"@, d.embed);
}

proof fn lemma_vector_length(ts: Seq<StoredTensor>, name: Seq<char>, len: nat)
    ensures
        checkpoint_vector(ts, name, len) matches Ok(p) ==> product(p.shape) == len,
{
    if checkpoint_vector(ts, name, len) is Ok {
        let p = checkpoint_vector(ts, name, len)->Ok_0;
        assert(p.shape =~= seq![p.shape[0]]);
        crate::tensor::tensor::lemma_one_dimension(p.shape[0]);
    }
}

proof fn lemma_layers_fit(ts: Seq<StoredTensor>, n: nat, d: Sizes)
    requires
        checkpoint_layers(ts, n, d) is Ok,
    ensures
        checkpoint_layers(ts, n, d)->Ok_0.len() == n,
        forall|i: int|
            0 <= i < n ==> layer_fits(#[trigger] checkpoint_layers(ts, n, d)->Ok_0[i], d),
    decreases n,
{
    if n > 0 {
        let m = (n - 1) as nat;
        lemma_layers_fit(ts, m, d);
        lemma_vector_length(ts, checkpoint_name(m, ".input_layernorm.weight"@), d.embed);
        lemma_vector_length(
            ts,
            checkpoint_name(m, ".post_attention_layernorm.weight"@),
            d.embed,
        );
        assert(layer_fits(checkpoint_layer(ts, m, d)->Ok_0, d));
    }
}

/// The matrix has the bytes and the format of the tensor of that name.
pub open spec fn is_stored(m: Matrix, ts: Seq<StoredTensor>, name: Seq<char>) -> bool {
    &&& find(ts, name) matches Some(t)
    &&& m.bytes == t.data@
    &&& t.format is Some ==> m.ty == t.format->0
}

/// The vector has the bytes and the format of the tensor of that name.
pub open spec fn is_stored_vector(p: Packed, ts: Seq<StoredTensor>, name: Seq<char>) -> bool {
    &&& find(ts, name) matches Some(t)
    &&& p.bytes == t.data@
    &&& t.format == Some(p.ty)
}

/// Every weight of a column-major file is its own tensor: the layers by their number and the
/// weight's name, the output projection where there is one, the embedding table else.
pub proof fn law_weights_come_from_their_tensors(ts: Seq<StoredTensor>, n_layers: nat, i: int)
    requires
        gguf_model(ts, n_layers) is Ok,
        0 <= i < n_layers,
    ensures
        ({
            let m = gguf_model(ts, n_layers)->Ok_0;
            let l = m.layers[i];
            let layer = "blk."@ + decimal(i as nat);
            &&& m.layers.len() == n_layers
            &&& is_stored(m.token_embedding, ts, "token_embd.weight"@)
            &&& is_stored_vector(m.output_norm, ts, "output_norm.weight"@)
            &&& find(ts, "output.weight"@) is Some ==> is_stored(m.output, ts, "output.weight"@)
            &&& find(ts, "output.weight"@) is None ==> m.output == m.token_embedding
            &&& is_stored_vector(l.attn_norm, ts, layer + ".attn_norm.weight"@)
            &&& is_stored_vector(l.ffn_norm, ts, layer + ".ffn_norm.weight"@)
            &&& is_stored(l.attn_q, ts, layer + ".attn_q.weight"@)
            &&& is_stored(l.attn_k, ts, layer + ".attn_k.weight"@)
            &&& is_stored(l.attn_v, ts, layer + ".attn_v.weight"@)
            &&& is_stored(l.attn_output, ts, layer + ".attn_output.weight"@)
            &&& is_stored(l.ffn_gate, ts, layer + ".ffn_gate.weight"@)
            &&& is_stored(l.ffn_up, ts, layer + ".ffn_up.weight"@)
            &&& is_stored(l.ffn_down, ts, layer + ".ffn_down.weight"@)
        }),
{
    lemma_gguf_layers(ts, n_layers, i);
}

proof fn lemma_gguf_layers(ts: Seq<StoredTensor>, n: nat, i: int)
    requires
        gguf_layers(ts, n) is Ok,
    ensures
        gguf_layers(ts, n)->Ok_0.len() == n,
        0 <= i < n ==> gguf_layer(ts, i as nat) == Ok::<LayerImage, Fault>(
            gguf_layers(ts, n)->Ok_0[i],
        ),
    decreases n,
{
    if n > 0 {
        lemma_gguf_layers(ts, (n - 1) as nat, i);
    }
}

/// Every weight of a checkpoint is its own tensor, as in a column-major file; the rows of
/// the query and key projections are put in another order, head by head.
pub proof fn law_checkpoint_weights_come_from_their_tensors(
    ts: Seq<StoredTensor>,
    n_layers: nat,
    d: Sizes,
    tied: bool,
    i: int,
)
    requires
        checkpoint_model(ts, n_layers, d, tied) is Ok,
        0 <= i < n_layers,
    ensures
        ({
            let m = checkpoint_model(ts, n_layers, d, tied)->Ok_0;
            let l = m.layers[i];
            let layer = "model.layers."@ + decimal(i as nat);
            let q = find(ts, layer + ".self_attn.q_proj.weight"@);
            let k = find(ts, layer + ".self_attn.k_proj.weight"@);
            let kept = !tied && find(ts, "lm_head.weight"@) is Some;
            &&& m.layers.len() == n_layers
            &&& is_stored(m.token_embedding, ts, "model.embed_tokens.weight"@)
            &&& is_stored_vector(m.output_norm, ts, "model.norm.weight"@)
            &&& kept ==> is_stored(m.output, ts, "lm_head.weight"@)
            &&& !kept ==> m.output == m.token_embedding
            &&& is_stored_vector(l.attn_norm, ts, layer + ".input_layernorm.weight"@)
            &&& is_stored_vector(l.ffn_norm, ts, layer + ".post_attention_layernorm.weight"@)
            &&& q is Some && d.q_rows > 0 ==> l.attn_q.bytes == permuted(
                q->0.data@,
                d.n_heads,
                d.head_dim,
                d.rot_dim,
                q->0.data@.len() / d.q_rows,
            )
            &&& k is Some && d.kv_rows > 0 ==> l.attn_k.bytes == permuted(
                k->0.data@,
                d.n_kv_heads,
                d.head_dim,
                d.rot_dim,
                k->0.data@.len() / d.kv_rows,
            )
            &&& q is Some && k is Some
            &&& is_stored(l.attn_v, ts, layer + ".self_attn.v_proj.weight"@)
            &&& is_stored(l.attn_output, ts, layer + ".self_attn.o_proj.weight"@)
            &&& is_stored(l.ffn_gate, ts, layer + ".mlp.gate_proj.weight"@)
            &&& is_stored(l.ffn_up, ts, layer + ".mlp.up_proj.weight"@)
            &&& is_stored(l.ffn_down, ts, layer + ".mlp.down_proj.weight"@)
        }),
{
    lemma_checkpoint_layers(ts, n_layers, d, i);
}

proof fn lemma_checkpoint_layers(ts: Seq<StoredTensor>, n: nat, d: Sizes, i: int)
    requires
        checkpoint_layers(ts, n, d) is Ok,
    ensures
        checkpoint_layers(ts, n, d)->Ok_0.len() == n,
        0 <= i < n ==> checkpoint_layer(ts, i as nat, d) == Ok::<LayerImage, Fault>(
            checkpoint_layers(ts, n, d)->Ok_0[i],
        ),
    decreases n,
{
    if n > 0 {
        lemma_checkpoint_layers(ts, (n - 1) as nat, d, i);
    }
}

/// A checkpoint is not loaded where a layer fuses its projections, adds a bias to one of its
/// attention's, or normalises its queries or keys.
pub proof fn law_unknown_layouts_are_refused(
    ts: Seq<StoredTensor>,
    n: nat,
    d: Sizes,
    tied: bool,
    i: nat,
)
    requires
        i < n,
        checkpoint_model(ts, n, d, tied) is Ok,
    ensures
        ({
            let layer = "model.layers."@ + decimal(i);
            &&& find(ts, layer + ".self_attn.qkv_proj.weight"@) is None
            &&& find(ts, layer + ".mlp.gate_up_proj.weight"@) is None
            &&& find(ts, layer + ".self_attn.q_proj.bias"@) is None
            &&& find(ts, layer + ".self_attn.k_proj.bias"@) is None
            &&& find(ts, layer + ".self_attn.v_proj.bias"@) is None
            &&& find(ts, layer + ".self_attn.o_proj.bias"@) is None
            &&& find(ts, layer + ".self_attn.q_norm.weight"@) is None
            &&& find(ts, layer + ".self_attn.k_norm.weight"@) is None
        }),
{
    lemma_layouts_known(ts, n, i);
}

proof fn lemma_layouts_known(ts: Seq<StoredTensor>, n: nat, i: nat)
    requires
        i < n,
        first_layout_fault(ts, n) is None,
    ensures
        layout_fault(ts, i) is None,
    decreases n,
{
    if i < n - 1 {
        lemma_layouts_known(ts, (n - 1) as nat, i);
    }
}

} // verus!
