//! Schedules of the decoder-only forward pass.
//!
//! A *lane* is one token at one position: a sequence in a batched decode step, or
//! a position of a prompt. A schedule lists the steps of a forward pass in order;
//! each step is one kernel call, for one lane or for all lanes at once.
use vstd::prelude::*;

use crate::transformer::config::{attend_window, window_for, ModelConfig, Window};
use crate::transformer::meaning::{
    decodes, lemma_decodes, lemma_pools_text, lemma_reads_text, pools_text, reads_text,
};

verus! {

/// A weight matrix of a layer.
#[derive(Clone, Copy, Debug, PartialEq, Eq, Structural)]
pub enum Matrix {
    AttnQ,
    AttnK,
    AttnV,
    AttnOutput,
    FfnGate,
    FfnUp,
    FfnDown,
}

/// One kernel call on the activations of a lane.
#[derive(Clone, Copy, Debug, PartialEq, Eq, Structural)]
pub enum Op {
    /// Start from the token's embedding.
    Embed { token: u32 },
    /// Normalise the residual stream for attention.
    AttnNorm { layer: usize },
    /// Multiply by a weight matrix.
    Project { layer: usize, matrix: Matrix },
    /// Add a projection's bias.
    Bias { layer: usize, matrix: Matrix },
    /// Add an adapter's low-rank update to a projection.
    Lora { layer: usize, matrix: Matrix },
    /// Rotate a query or key to its position.
    Rope { matrix: Matrix, pos: usize },
    /// Publish the position's key and value.
    WriteKv { layer: usize, pos: usize },
    /// Attend over cached positions.
    Attend { layer: usize, window: Window },
    /// Normalise the attention output.
    PostAttnNorm { layer: usize },
    /// Add the attention output to the residual stream.
    AddAttn,
    /// Normalise the residual stream for the feed-forward block.
    FfnNorm { layer: usize },
    /// `silu(gate) * up`.
    Activate,
    /// Normalise the feed-forward output.
    PostFfnNorm { layer: usize },
    /// Add the feed-forward output to the residual stream.
    AddFfn,
    /// Count the position as cached.
    Advance,
    /// Normalise for the language-model head.
    FinalNorm,
    /// Compute the logits.
    LmHead,
    /// Soft-cap the logits.
    Softcap,
    /// Attend over positions `0..len`, whose keys and values are computed anew
    /// from the layer's input.
    AttendFresh { layer: usize, len: usize },
    /// Add the lane to an embedding that averages `count` lanes.
    Pool { count: usize },
}

/// What a layer has beyond its weight matrices.
#[derive(Clone, Copy, Debug, PartialEq, Eq, Structural)]
pub struct LayerSwitches {
    pub q_bias: bool,
    pub k_bias: bool,
    pub v_bias: bool,
    pub post_attn_norm: bool,
    pub post_ffn_norm: bool,
}

/// Which matrices of a layer an adapter updates.
#[derive(Clone, Copy, Debug, PartialEq, Eq, Structural)]
pub struct LoraLayer {
    pub attn_q: bool,
    pub attn_k: bool,
    pub attn_v: bool,
    pub attn_output: bool,
    pub ffn_gate: bool,
    pub ffn_up: bool,
    pub ffn_down: bool,
}

/// The parts of a model that a schedule depends on.
#[derive(Debug)]
pub struct ModelPlan {
    pub config: ModelConfig,
    pub layers: Vec<LayerSwitches>,
    /// The adapters that are loaded, the model's own and the requests'.
    pub adapters: Vec<Vec<LoraLayer>>,
    /// The model's built-in adapter, by its place in `adapters`.
    pub lora: Option<usize>,
}

/// One token at one position, with the adapter of its request, by its place
/// among the loaded ones. The request's adapter takes the place of the model's.
#[derive(Clone, Copy, Debug, PartialEq, Eq, Structural)]
pub struct Lane {
    pub token: u32,
    pub pos: usize,
    pub lora: Option<usize>,
}

/// One step of a schedule.
#[derive(Clone, Copy, Debug, PartialEq, Eq, Structural)]
pub enum Step {
    /// For every lane, in one call.
    All { op: Op },
    /// For one lane.
    One { lane: usize, op: Op },
}

// ── The reference: one lane on its own ───────────────────────────────────────

pub open spec fn no_lora() -> LoraLayer {
    LoraLayer {
        attn_q: false,
        attn_k: false,
        attn_v: false,
        attn_output: false,
        ffn_gate: false,
        ffn_up: false,
        ffn_down: false,
    }
}

/// What an adapter does to `layer`: nothing where it has no such layer.
pub open spec fn adapter_layer(m: ModelPlan, adapter: Option<usize>, layer: int) -> LoraLayer {
    match adapter {
        Some(a) => if a < m.adapters@.len() && 0 <= layer < m.adapters@[a as int]@.len() {
            m.adapters@[a as int]@[layer]
        } else {
            no_lora()
        },
        None => no_lora(),
    }
}

/// The adapter that a lane runs with, at `layer`.
pub open spec fn effective_lora(m: ModelPlan, lane: Lane, layer: int) -> LoraLayer {
    if lane.lora is Some {
        adapter_layer(m, lane.lora, layer)
    } else {
        adapter_layer(m, m.lora, layer)
    }
}

pub open spec fn opt(b: bool, op: Op) -> Seq<Op> {
    if b {
        seq![op]
    } else {
        Seq::empty()
    }
}

/// How many pieces a layer's work is cut into.
pub const PIECES: usize = 13;

/// Piece `i` of the work of `layer` on one lane.
pub open spec fn piece_ops(m: ModelPlan, lane: Lane, layer: usize, i: int) -> Seq<Op> {
    let sw = m.layers@[layer as int];
    let ad = effective_lora(m, lane, layer as int);
    if i == 0 {
        seq![
            Op::AttnNorm { layer },
            Op::Project { layer, matrix: Matrix::AttnQ },
            Op::Project { layer, matrix: Matrix::AttnK },
            Op::Project { layer, matrix: Matrix::AttnV },
        ] + opt(sw.q_bias, Op::Bias { layer, matrix: Matrix::AttnQ }) + opt(
            sw.k_bias,
            Op::Bias { layer, matrix: Matrix::AttnK },
        ) + opt(sw.v_bias, Op::Bias { layer, matrix: Matrix::AttnV })
    } else if i == 1 {
        opt(ad.attn_q, Op::Lora { layer, matrix: Matrix::AttnQ }) + opt(
            ad.attn_k,
            Op::Lora { layer, matrix: Matrix::AttnK },
        ) + opt(ad.attn_v, Op::Lora { layer, matrix: Matrix::AttnV })
    } else if i == 2 {
        seq![
            Op::Rope { matrix: Matrix::AttnQ, pos: lane.pos },
            Op::Rope { matrix: Matrix::AttnK, pos: lane.pos },
        ]
    } else if i == 3 {
        seq![Op::WriteKv { layer, pos: lane.pos }]
    } else if i == 4 {
        seq![Op::Attend { layer, window: attend_window(m.config, layer as nat, lane.pos) }]
    } else if i == 5 {
        seq![Op::Project { layer, matrix: Matrix::AttnOutput }]
    } else if i == 6 {
        opt(ad.attn_output, Op::Lora { layer, matrix: Matrix::AttnOutput })
    } else if i == 7 {
        opt(sw.post_attn_norm, Op::PostAttnNorm { layer }).push(Op::AddAttn)
    } else if i == 8 {
        seq![
            Op::FfnNorm { layer },
            Op::Project { layer, matrix: Matrix::FfnGate },
            Op::Project { layer, matrix: Matrix::FfnUp },
        ]
    } else if i == 9 {
        opt(ad.ffn_gate, Op::Lora { layer, matrix: Matrix::FfnGate }) + opt(
            ad.ffn_up,
            Op::Lora { layer, matrix: Matrix::FfnUp },
        )
    } else if i == 10 {
        seq![Op::Activate, Op::Project { layer, matrix: Matrix::FfnDown }]
    } else if i == 11 {
        opt(ad.ffn_down, Op::Lora { layer, matrix: Matrix::FfnDown })
    } else {
        opt(sw.post_ffn_norm, Op::PostFfnNorm { layer }).push(Op::AddFfn)
    }
}

/// Pieces `a..b` of a layer.
pub open spec fn range_ops(m: ModelPlan, lane: Lane, layer: usize, a: int, b: int) -> Seq<Op>
    decreases b - a,
{
    if b <= a {
        Seq::empty()
    } else {
        range_ops(m, lane, layer, a, b - 1) + piece_ops(m, lane, layer, b - 1)
    }
}

/// The first `k` layers.
pub open spec fn layers_ops(m: ModelPlan, lane: Lane, k: nat) -> Seq<Op>
    decreases k,
{
    if k == 0 {
        Seq::empty()
    } else {
        layers_ops(m, lane, (k - 1) as nat) + range_ops(
            m,
            lane,
            (k - 1) as usize,
            0,
            PIECES as int,
        )
    }
}

/// From the residual stream to the logits.
pub open spec fn head_ops(m: ModelPlan) -> Seq<Op> {
    seq![Op::FinalNorm, Op::LmHead] + opt(m.config.final_softcap, Op::Softcap)
}

/// Everything that happens to one lane.
pub open spec fn decode_ops(m: ModelPlan, lane: Lane) -> Seq<Op> {
    seq![Op::Embed { token: lane.token }] + layers_ops(m, lane, m.layers@.len()) + seq![Op::Advance]
        + head_ops(m)
}

// ── Schedules ────────────────────────────────────────────────────────────────

/// What a schedule does to lane `lane`, in order.
pub open spec fn lane_view(steps: Seq<Step>, lane: int) -> Seq<Op>
    decreases steps.len(),
{
    if steps.len() == 0 {
        Seq::empty()
    } else {
        let before = lane_view(steps.drop_last(), lane);
        match steps.last() {
            Step::All { op } => before.push(op),
            Step::One { lane: l, op } => if l == lane {
                before.push(op)
            } else {
                before
            },
        }
    }
}

/// Every step is for a lane that exists.
pub open spec fn in_lanes(steps: Seq<Step>, n: nat) -> bool {
    forall|k: int|
        0 <= k < steps.len() ==> (#[trigger] steps[k] matches Step::One { lane, op } ==> lane < n)
}

pub proof fn lemma_lane_view_concat(a: Seq<Step>, b: Seq<Step>, lane: int)
    ensures
        lane_view(a + b, lane) == lane_view(a, lane) + lane_view(b, lane),
    decreases b.len(),
{
    if b.len() == 0 {
        assert(a + b =~= a);
        assert(lane_view(a, lane) + Seq::empty() =~= lane_view(a, lane));
    } else {
        lemma_lane_view_concat(a, b.drop_last(), lane);
        assert((a + b).drop_last() =~= a + b.drop_last());
        assert((a + b).last() == b.last());
        let x = lane_view(a, lane);
        let y = lane_view(b.drop_last(), lane);
        match b.last() {
            Step::All { op } => {
                assert(x + y.push(op) =~= (x + y).push(op));
            },
            Step::One { lane: l, op } => {
                assert(x + y.push(op) =~= (x + y).push(op));
            },
        }
    }
}

/// `ops` for every lane at once.
pub open spec fn for_all(ops: Seq<Op>) -> Seq<Step> {
    Seq::new(ops.len(), |k: int| Step::All { op: ops[k] })
}

/// `ops` for one lane.
pub open spec fn for_one(lane: usize, ops: Seq<Op>) -> Seq<Step> {
    Seq::new(ops.len(), |k: int| Step::One { lane, op: ops[k] })
}

pub proof fn lemma_for_all_view(ops: Seq<Op>, lane: int)
    ensures
        lane_view(for_all(ops), lane) == ops,
    decreases ops.len(),
{
    if ops.len() == 0 {
    } else {
        lemma_for_all_view(ops.drop_last(), lane);
        assert(for_all(ops).drop_last() =~= for_all(ops.drop_last()));
        assert(ops.drop_last().push(ops.last()) =~= ops);
    }
}

pub proof fn lemma_for_one_view(l: usize, ops: Seq<Op>, lane: int)
    ensures
        lane_view(for_one(l, ops), lane) == if l == lane {
            ops
        } else {
            Seq::empty()
        },
    decreases ops.len(),
{
    if ops.len() == 0 {
    } else {
        lemma_for_one_view(l, ops.drop_last(), lane);
        assert(for_one(l, ops).drop_last() =~= for_one(l, ops.drop_last()));
        assert(ops.drop_last().push(ops.last()) =~= ops);
    }
}

fn push_opt(ops: &mut Vec<Op>, b: bool, op: Op)
    ensures
        final(ops)@ == old(ops)@ + opt(b, op),
{
    if b {
        ops.push(op);
        assert(ops@ =~= old(ops)@ + opt(b, op));
    } else {
        assert(ops@ =~= old(ops)@ + opt(b, op));
    }
}

fn lora_at(m: &ModelPlan, adapter: Option<usize>, layer: usize) -> (l: LoraLayer)
    ensures
        l == adapter_layer(*m, adapter, layer as int),
{
    match adapter {
        Some(a) => if a < m.adapters.len() && layer < m.adapters[a].len() {
            return m.adapters[a][layer];
        },
        None => {},
    }
    LoraLayer {
        attn_q: false,
        attn_k: false,
        attn_v: false,
        attn_output: false,
        ffn_gate: false,
        ffn_up: false,
        ffn_down: false,
    }
}

/// Piece `i` of a layer's work on one lane.
fn piece(m: &ModelPlan, lane: &Lane, layer: usize, i: usize) -> (ops: Vec<Op>)
    requires
        layer < m.layers@.len(),
        i < PIECES,
        lane.pos < usize::MAX,
    ensures
        ops@ == piece_ops(*m, *lane, layer, i as int),
{
    let sw = m.layers[layer];
    let ad = match lane.lora {
        Some(_) => lora_at(m, lane.lora, layer),
        None => lora_at(m, m.lora, layer),
    };
    let mut ops: Vec<Op> = Vec::new();
    match i {
        0 => {
            ops.push(Op::AttnNorm { layer });
            ops.push(Op::Project { layer, matrix: Matrix::AttnQ });
            ops.push(Op::Project { layer, matrix: Matrix::AttnK });
            ops.push(Op::Project { layer, matrix: Matrix::AttnV });
            push_opt(&mut ops, sw.q_bias, Op::Bias { layer, matrix: Matrix::AttnQ });
            push_opt(&mut ops, sw.k_bias, Op::Bias { layer, matrix: Matrix::AttnK });
            push_opt(&mut ops, sw.v_bias, Op::Bias { layer, matrix: Matrix::AttnV });
        },
        1 => {
            push_opt(&mut ops, ad.attn_q, Op::Lora { layer, matrix: Matrix::AttnQ });
            push_opt(&mut ops, ad.attn_k, Op::Lora { layer, matrix: Matrix::AttnK });
            push_opt(&mut ops, ad.attn_v, Op::Lora { layer, matrix: Matrix::AttnV });
        },
        2 => {
            ops.push(Op::Rope { matrix: Matrix::AttnQ, pos: lane.pos });
            ops.push(Op::Rope { matrix: Matrix::AttnK, pos: lane.pos });
        },
        3 => {
            ops.push(Op::WriteKv { layer, pos: lane.pos });
        },
        4 => {
            ops.push(Op::Attend { layer, window: window_for(&m.config, layer, lane.pos) });
        },
        5 => {
            ops.push(Op::Project { layer, matrix: Matrix::AttnOutput });
        },
        6 => {
            push_opt(&mut ops, ad.attn_output, Op::Lora { layer, matrix: Matrix::AttnOutput });
        },
        7 => {
            push_opt(&mut ops, sw.post_attn_norm, Op::PostAttnNorm { layer });
            ops.push(Op::AddAttn);
        },
        8 => {
            ops.push(Op::FfnNorm { layer });
            ops.push(Op::Project { layer, matrix: Matrix::FfnGate });
            ops.push(Op::Project { layer, matrix: Matrix::FfnUp });
        },
        9 => {
            push_opt(&mut ops, ad.ffn_gate, Op::Lora { layer, matrix: Matrix::FfnGate });
            push_opt(&mut ops, ad.ffn_up, Op::Lora { layer, matrix: Matrix::FfnUp });
        },
        10 => {
            ops.push(Op::Activate);
            ops.push(Op::Project { layer, matrix: Matrix::FfnDown });
        },
        11 => {
            push_opt(&mut ops, ad.ffn_down, Op::Lora { layer, matrix: Matrix::FfnDown });
        },
        _ => {
            push_opt(&mut ops, sw.post_ffn_norm, Op::PostFfnNorm { layer });
            ops.push(Op::AddFfn);
        },
    }
    assert(ops@ =~= piece_ops(*m, *lane, layer, i as int));
    ops
}

/// Append `ops` for one lane.
fn push_one(steps: &mut Vec<Step>, lane: usize, ops: &Vec<Op>)
    ensures
        final(steps)@ == old(steps)@ + for_one(lane, ops@),
{
    let mut k: usize = 0;
    while k < ops.len()
        invariant
            k <= ops@.len(),
            steps@ == old(steps)@ + for_one(lane, ops@.take(k as int)),
        decreases ops@.len() - k,
    {
        steps.push(Step::One { lane, op: ops[k] });
        k = k + 1;
        assert(steps@ =~= old(steps)@ + for_one(lane, ops@.take(k as int)));
    }
    assert(ops@.take(k as int) =~= ops@);
}

/// Append `ops` for every lane at once.
fn push_all(steps: &mut Vec<Step>, ops: &Vec<Op>)
    ensures
        final(steps)@ == old(steps)@ + for_all(ops@),
{
    let mut k: usize = 0;
    while k < ops.len()
        invariant
            k <= ops@.len(),
            steps@ == old(steps)@ + for_all(ops@.take(k as int)),
        decreases ops@.len() - k,
    {
        steps.push(Step::All { op: ops[k] });
        k = k + 1;
        assert(steps@ =~= old(steps)@ + for_all(ops@.take(k as int)));
    }
    assert(ops@.take(k as int) =~= ops@);
}

/// Pieces `a..b` of a layer's work on one lane.
fn pieces(m: &ModelPlan, lane: &Lane, layer: usize, a: usize, b: usize) -> (ops: Vec<Op>)
    requires
        layer < m.layers@.len(),
        a <= b <= PIECES,
        lane.pos < usize::MAX,
    ensures
        ops@ == range_ops(*m, *lane, layer, a as int, b as int),
{
    let mut ops: Vec<Op> = Vec::new();
    let mut i: usize = a;
    while i < b
        invariant
            layer < m.layers@.len(),
            a <= i <= b <= PIECES,
            lane.pos < usize::MAX,
            ops@ == range_ops(*m, *lane, layer, a as int, i as int),
        decreases b - i,
    {
        let mut more = piece(m, lane, layer, i);
        ops.append(&mut more);
        i = i + 1;
    }
    ops
}

/// Pieces `a..b` of a layer for the first `k` lanes, lane by lane.
pub open spec fn each_lane(
    m: ModelPlan,
    lanes: Seq<Lane>,
    layer: usize,
    a: int,
    b: int,
    k: nat,
) -> Seq<Step>
    decreases k,
{
    if k == 0 {
        Seq::empty()
    } else {
        each_lane(m, lanes, layer, a, b, (k - 1) as nat) + for_one(
            (k - 1) as usize,
            range_ops(m, lanes[k - 1], layer, a, b),
        )
    }
}

proof fn lemma_each_lane_view(
    m: ModelPlan,
    lanes: Seq<Lane>,
    layer: usize,
    a: int,
    b: int,
    k: nat,
    lane: int,
)
    requires
        k <= lanes.len() <= usize::MAX,
        0 <= lane,
    ensures
        lane_view(each_lane(m, lanes, layer, a, b, k), lane) == if lane < k {
            range_ops(m, lanes[lane], layer, a, b)
        } else {
            Seq::empty()
        },
        in_lanes(each_lane(m, lanes, layer, a, b, k), k),
    decreases k,
{
    if k > 0 {
        lemma_each_lane_view(m, lanes, layer, a, b, (k - 1) as nat, lane);
        let before = each_lane(m, lanes, layer, a, b, (k - 1) as nat);
        let ops = range_ops(m, lanes[k - 1], layer, a, b);
        lemma_lane_view_concat(before, for_one((k - 1) as usize, ops), lane);
        lemma_for_one_view((k - 1) as usize, ops, lane);
        if lane < k - 1 {
            assert(lane_view(before, lane) + Seq::empty() =~= lane_view(before, lane));
        } else if lane == k - 1 {
            assert(Seq::<Op>::empty() + ops =~= ops);
        } else {
            assert(Seq::<Op>::empty() + Seq::<Op>::empty() =~= Seq::<Op>::empty());
        }
    }
}

/// Append pieces `a..b` of a layer, lane by lane.
fn push_each(
    steps: &mut Vec<Step>,
    m: &ModelPlan,
    lanes: &Vec<Lane>,
    layer: usize,
    a: usize,
    b: usize,
)
    requires
        layer < m.layers@.len(),
        a <= b <= PIECES,
        forall|s: int| 0 <= s < lanes@.len() ==> (#[trigger] lanes@[s]).pos < usize::MAX,
    ensures
        final(steps)@ == old(steps)@ + each_lane(
            *m,
            lanes@,
            layer,
            a as int,
            b as int,
            lanes@.len(),
        ),
{
    let mut s: usize = 0;
    assert(steps@ =~= old(steps)@ + each_lane(*m, lanes@, layer, a as int, b as int, 0));
    while s < lanes.len()
        invariant
            s <= lanes@.len(),
            layer < m.layers@.len(),
            a <= b <= PIECES,
            forall|k: int| 0 <= k < lanes@.len() ==> (#[trigger] lanes@[k]).pos < usize::MAX,
            steps@ == old(steps)@ + each_lane(*m, lanes@, layer, a as int, b as int, s as nat),
        decreases lanes@.len() - s,
    {
        assert(lanes@[s as int].pos < usize::MAX);
        let ops = pieces(m, &lanes[s], layer, a, b);
        let ghost before = steps@;
        push_one(steps, s, &ops);
        s = s + 1;
        assert(steps@ =~= old(steps)@ + each_lane(
            *m,
            lanes@,
            layer,
            a as int,
            b as int,
            s as nat,
        ));
    }
}

/// True for the pieces that are the same for every lane.
pub open spec fn shared_piece(i: int) -> bool {
    i == 0 || i == 5 || i == 7 || i == 8 || i == 10 || i == 12
}

proof fn lemma_shared_piece(m: ModelPlan, a: Lane, b: Lane, layer: usize, i: int)
    requires
        shared_piece(i),
    ensures
        piece_ops(m, a, layer, i) == piece_ops(m, b, layer, i),
{
}

/// True for the calls that stream a weight matrix from memory.
pub open spec fn reads_weights(op: Op) -> bool {
    op is Project || op is LmHead
}

/// No weight matrix is read for one lane alone.
pub open spec fn weights_shared(steps: Seq<Step>) -> bool {
    forall|k: int|
        0 <= k < steps.len() ==> (#[trigger] steps[k] matches Step::One { lane, op }
            ==> !reads_weights(op))
}

proof fn lemma_private_pieces_read_no_weights(
    m: ModelPlan,
    lanes: Seq<Lane>,
    layer: usize,
    i: int,
    k: nat,
)
    requires
        0 <= i < PIECES,
        !shared_piece(i),
    ensures
        weights_shared(each_lane(m, lanes, layer, i, i + 1, k)),
    decreases k,
{
    if k > 0 {
        lemma_private_pieces_read_no_weights(m, lanes, layer, i, (k - 1) as nat);
        let lane = lanes[k - 1];
        reveal_with_fuel(range_ops, 2);
        let ops = range_ops(m, lane, layer, i, i + 1);
        assert(ops =~= piece_ops(m, lane, layer, i));
        assert forall|j: int| 0 <= j < ops.len() implies !reads_weights(#[trigger] ops[j]) by {}
        let before = each_lane(m, lanes, layer, i, i + 1, (k - 1) as nat);
        let all = each_lane(m, lanes, layer, i, i + 1, k);
        assert forall|j: int|
            0 <= j < all.len() implies (#[trigger] all[j] matches Step::One { lane, op }
            ==> !reads_weights(op)) by {
            if j < before.len() {
                assert(all[j] == before[j]);
            } else {
                assert(all[j] == (Step::One {
                    lane: (k - 1) as usize,
                    op: ops[j - before.len()],
                }));
            }
        }
    }
}

/// Append one layer of a batched decode step.
fn batch_layer(steps: &mut Vec<Step>, m: &ModelPlan, lanes: &Vec<Lane>, layer: usize)
    requires
        layer < m.layers@.len(),
        lanes@.len() > 0,
        forall|s: int| 0 <= s < lanes@.len() ==> (#[trigger] lanes@[s]).pos < usize::MAX,
        in_lanes(old(steps)@, lanes@.len()),
        weights_shared(old(steps)@),
    ensures
        in_lanes(final(steps)@, lanes@.len()),
        weights_shared(final(steps)@),
        forall|s: int|
            0 <= s < lanes@.len() ==> #[trigger] lane_view(final(steps)@, s) == lane_view(
                old(steps)@,
                s,
            ) + range_ops(*m, lanes@[s], layer, 0, PIECES as int),
{
    let n: usize = lanes.len();
    let mut i: usize = 0;
    proof {
        assert forall|s: int| 0 <= s < lanes@.len() implies #[trigger] lane_view(steps@, s)
            == lane_view(old(steps)@, s) + range_ops(*m, lanes@[s], layer, 0, 0) by {
            assert(lane_view(old(steps)@, s) + Seq::empty() =~= lane_view(old(steps)@, s));
        }
    }
    while i < PIECES
        invariant
            i <= PIECES,
            n == lanes@.len(),
            layer < m.layers@.len(),
            lanes@.len() > 0,
            forall|s: int| 0 <= s < lanes@.len() ==> (#[trigger] lanes@[s]).pos < usize::MAX,
            in_lanes(steps@, lanes@.len()),
            weights_shared(steps@),
            forall|s: int|
                0 <= s < lanes@.len() ==> #[trigger] lane_view(steps@, s) == lane_view(
                    old(steps)@,
                    s,
                ) + range_ops(*m, lanes@[s], layer, 0, i as int),
        decreases PIECES - i,
    {
        let ghost before = steps@;
        let ghost mut added: Seq<Step> = Seq::empty();
        if i == 0 || i == 5 || i == 7 || i == 8 || i == 10 || i == 12 {
            assert(lanes@[0].pos < usize::MAX);
            let ops = piece(m, &lanes[0], layer, i);
            push_all(steps, &ops);
            proof {
                added = for_all(ops@);
                assert forall|s: int| 0 <= s < lanes@.len() implies #[trigger] lane_view(added, s)
                    == piece_ops(*m, lanes@[s], layer, i as int) by {
                    lemma_for_all_view(ops@, s);
                    lemma_shared_piece(*m, lanes@[0], lanes@[s], layer, i as int);
                }
                assert(weights_shared(added));
                assert(in_lanes(added, lanes@.len()));
            }
        } else {
            push_each(steps, m, lanes, layer, i, i + 1);
            proof {
                added = each_lane(*m, lanes@, layer, i as int, i + 1, lanes@.len());
                lemma_private_pieces_read_no_weights(
                    *m,
                    lanes@,
                    layer,
                    i as int,
                    lanes@.len(),
                );
                lemma_each_lane_view(*m, lanes@, layer, i as int, i + 1, lanes@.len(), 0);
                assert forall|s: int| 0 <= s < lanes@.len() implies #[trigger] lane_view(added, s)
                    == piece_ops(*m, lanes@[s], layer, i as int) by {
                    lemma_each_lane_view(*m, lanes@, layer, i as int, i + 1, lanes@.len(), s);
                    reveal_with_fuel(range_ops, 2);
                    assert(range_ops(*m, lanes@[s], layer, i as int, i + 1) =~= piece_ops(
                        *m,
                        lanes@[s],
                        layer,
                        i as int,
                    ));
                }
            }
        }
        proof {
            assert(steps@ == before + added);
            lemma_steps_appended(before, added, lanes@.len());
            assert forall|s: int| 0 <= s < lanes@.len() implies #[trigger] lane_view(steps@, s)
                == lane_view(old(steps)@, s) + range_ops(*m, lanes@[s], layer, 0, i + 1) by {
                lemma_lane_view_concat(before, added, s);
                assert(lane_view(before, s) == lane_view(old(steps)@, s) + range_ops(
                    *m,
                    lanes@[s],
                    layer,
                    0,
                    i as int,
                ));
                assert(lane_view(added, s) == piece_ops(*m, lanes@[s], layer, i as int));
                let x = lane_view(old(steps)@, s);
                let y = range_ops(*m, lanes@[s], layer, 0, i as int);
                let z = piece_ops(*m, lanes@[s], layer, i as int);
                assert(x + y + z =~= x + (y + z));
            }
        }
        i = i + 1;
    }
}

proof fn lemma_steps_appended(a: Seq<Step>, b: Seq<Step>, n: nat)
    requires
        in_lanes(a, n),
        in_lanes(b, n),
    ensures
        in_lanes(a + b, n),
        weights_shared(a) && weights_shared(b) ==> weights_shared(a + b),
{
    assert forall|k: int| 0 <= k < (a + b).len() implies (
    #[trigger] (a + b)[k] matches Step::One { lane, op } ==> lane < n) by {
        if k < a.len() {
            assert((a + b)[k] == a[k]);
        } else {
            assert((a + b)[k] == b[k - a.len()]);
        }
    }
    if weights_shared(a) && weights_shared(b) {
        assert forall|k: int| 0 <= k < (a + b).len() implies (
        #[trigger] (a + b)[k] matches Step::One { lane, op } ==> !reads_weights(op)) by {
            if k < a.len() {
                assert((a + b)[k] == a[k]);
            } else {
                assert((a + b)[k] == b[k - a.len()]);
            }
        }
    }
}

/// From the residual stream to the logits.
fn head(m: &ModelPlan) -> (ops: Vec<Op>)
    ensures
        ops@ == head_ops(*m),
{
    let mut ops: Vec<Op> = Vec::new();
    ops.push(Op::FinalNorm);
    ops.push(Op::LmHead);
    push_opt(&mut ops, m.config.final_softcap, Op::Softcap);
    assert(ops@ =~= head_ops(*m));
    ops
}

/// The forward pass of one token at one position: the calls in order.
///
/// The lane's adapter, where it has one, is used in place of the model's.
pub fn forward_one_lora(m: &ModelPlan, lane: &Lane) -> (ops: Vec<Op>)
    requires
        lane.pos < usize::MAX,
    ensures
        ops@ == decode_ops(*m, *lane),
        decodes::<int>(*m, *lane, ops@),
{
    let mut ops: Vec<Op> = Vec::new();
    ops.push(Op::Embed { token: lane.token });
    let ghost first = ops@;
    let mut layer: usize = 0;
    assert(first + layers_ops(*m, *lane, 0) =~= first);
    while layer < m.layers.len()
        invariant
            layer <= m.layers@.len(),
            lane.pos < usize::MAX,
            ops@ == first + layers_ops(*m, *lane, layer as nat),
        decreases m.layers@.len() - layer,
    {
        let mut more = pieces(m, lane, layer, 0, PIECES);
        let ghost before = ops@;
        let ghost added = more@;
        ops.append(&mut more);
        layer = layer + 1;
        assert(ops@ =~= first + layers_ops(*m, *lane, layer as nat));
    }
    ops.push(Op::Advance);
    let mut last = head(m);
    ops.append(&mut last);
    assert(ops@ =~= decode_ops(*m, *lane));
    proof {
        lemma_decodes::<int>(*m, *lane);
    }
    ops
}

/// One decode step for several sequences.
///
/// `single_device` says that a device with one context runs the kernels, so that
/// there is nothing to share. There, and for a lone sequence, each sequence runs
/// on its own. Otherwise all sequences go through one pass that reads every
/// weight matrix once for all of them.
///
/// Either way batching is invisible: each sequence goes through exactly the calls
/// of [`forward_one_lora`], in the same order.
pub fn forward_batch_lora(m: &ModelPlan, lanes: &Vec<Lane>, single_device: bool) -> (steps: Vec<Step>)
    requires
        forall|s: int| 0 <= s < lanes@.len() ==> (#[trigger] lanes@[s]).pos < usize::MAX,
    ensures
        in_lanes(steps@, lanes@.len()),
        forall|s: int|
            0 <= s < lanes@.len() ==> #[trigger] lane_view(steps@, s) == decode_ops(*m, lanes@[s]),
        forall|s: int|
            0 <= s < lanes@.len() ==> decodes::<int>(
                *m,
                lanes@[s],
                #[trigger] lane_view(steps@, s),
            ),
        lanes@.len() == 0 ==> steps@.len() == 0,
        lanes@.len() > 1 && !single_device ==> weights_shared(steps@),
{
    let n: usize = lanes.len();
    let mut steps: Vec<Step> = Vec::new();
    if n == 0 {
        return steps;
    }
    proof {
        assert forall|k: int| 0 <= k < lanes@.len() implies decodes::<int>(
            *m,
            #[trigger] lanes@[k],
            decode_ops(*m, lanes@[k]),
        ) by {
            lemma_decodes::<int>(*m, lanes@[k]);
        }
    }
    let mut s: usize = 0;
    if n == 1 || single_device {
        while s < n
            invariant
                s <= n == lanes@.len(),
                forall|k: int| 0 <= k < lanes@.len() ==> (#[trigger] lanes@[k]).pos < usize::MAX,
                in_lanes(steps@, lanes@.len()),
                forall|k: int|
                    0 <= k < lanes@.len() ==> #[trigger] lane_view(steps@, k) == if k < s {
                        decode_ops(*m, lanes@[k])
                    } else {
                        Seq::empty()
                    },
            decreases n - s,
        {
            assert(lanes@[s as int].pos < usize::MAX);
            let ops = forward_one_lora(m, &lanes[s]);
            let ghost before = steps@;
            push_one(&mut steps, s, &ops);
            proof {
                let added = for_one(s, ops@);
                lemma_steps_appended(before, added, lanes@.len());
                assert forall|k: int| 0 <= k < lanes@.len() implies #[trigger] lane_view(steps@, k)
                    == if k < s + 1 {
                    decode_ops(*m, lanes@[k])
                } else {
                    Seq::empty()
                } by {
                    lemma_lane_view_concat(before, added, k);
                    lemma_for_one_view(s, ops@, k);
                    let old_view = lane_view(before, k);
                    if k == s {
                        assert(Seq::<Op>::empty() + ops@ =~= ops@);
                    } else {
                        assert(old_view + Seq::<Op>::empty() =~= old_view);
                    }
                }
            }
            s = s + 1;
        }
        return steps;
    }
    while s < n
        invariant
            s <= n == lanes@.len(),
            in_lanes(steps@, lanes@.len()),
            weights_shared(steps@),
            forall|k: int|
                0 <= k < lanes@.len() ==> #[trigger] lane_view(steps@, k) == if k < s {
                    seq![Op::Embed { token: lanes@[k].token }]
                } else {
                    Seq::empty()
                },
        decreases n - s,
    {
        let ghost before = steps@;
        steps.push(Step::One { lane: s, op: Op::Embed { token: lanes[s].token } });
        proof {
            assert(steps@.drop_last() =~= before);
            assert forall|k: int| 0 <= k < lanes@.len() implies #[trigger] lane_view(steps@, k)
                == if k < s + 1 {
                seq![Op::Embed { token: lanes@[k].token }]
            } else {
                Seq::empty()
            } by {
                assert(lane_view(before, k) == if k < s {
                    seq![Op::Embed { token: lanes@[k].token }]
                } else {
                    Seq::empty()
                });
                if k == s {
                    assert(lane_view(steps@, k) =~= seq![Op::Embed { token: lanes@[k].token }]);
                }
            }
        }
        s = s + 1;
    }
    let mut layer: usize = 0;
    proof {
        assert forall|k: int| 0 <= k < lanes@.len() implies #[trigger] lane_view(steps@, k)
            == seq![Op::Embed { token: lanes@[k].token }] + layers_ops(*m, lanes@[k], 0) by {
            assert(seq![Op::Embed { token: lanes@[k].token }] + Seq::empty() =~= seq![
                Op::Embed { token: lanes@[k].token },
            ]);
        }
    }
    while layer < m.layers.len()
        invariant
            layer <= m.layers@.len(),
            n == lanes@.len(),
            n > 0,
            forall|k: int| 0 <= k < lanes@.len() ==> (#[trigger] lanes@[k]).pos < usize::MAX,
            in_lanes(steps@, lanes@.len()),
            weights_shared(steps@),
            forall|k: int|
                0 <= k < lanes@.len() ==> #[trigger] lane_view(steps@, k) == seq![
                    Op::Embed { token: lanes@[k].token },
                ] + layers_ops(*m, lanes@[k], layer as nat),
        decreases m.layers@.len() - layer,
    {
        let ghost before = steps@;
        batch_layer(&mut steps, m, lanes, layer);
        proof {
            assert forall|k: int| 0 <= k < lanes@.len() implies #[trigger] lane_view(steps@, k)
                == seq![Op::Embed { token: lanes@[k].token }] + layers_ops(
                *m,
                lanes@[k],
                (layer + 1) as nat,
            ) by {
                assert(lane_view(before, k) == seq![Op::Embed { token: lanes@[k].token }]
                    + layers_ops(*m, lanes@[k], layer as nat));
                let x = seq![Op::Embed { token: lanes@[k].token }];
                let y = layers_ops(*m, lanes@[k], layer as nat);
                let z = range_ops(*m, lanes@[k], layer, 0, PIECES as int);
                assert(x + y + z =~= x + (y + z));
            }
        }
        layer = layer + 1;
    }
    let ghost body = steps@;
    advance_each(&mut steps, n);
    let ops = head(m);
    let ghost advanced = steps@;
    push_all(&mut steps, &ops);
    proof {
        assert(in_lanes(for_all(ops@), lanes@.len()));
        assert(weights_shared(for_all(ops@)));
        lemma_steps_appended(advanced, for_all(ops@), lanes@.len());
        assert forall|k: int| 0 <= k < lanes@.len() implies #[trigger] lane_view(steps@, k)
            == decode_ops(*m, lanes@[k]) by {
            lemma_lane_view_concat(advanced, for_all(ops@), k);
            lemma_for_all_view(ops@, k);
            assert(lane_view(advanced, k) == lane_view(body, k).push(Op::Advance));
            assert(lane_view(body, k) == seq![Op::Embed { token: lanes@[k].token }] + layers_ops(
                *m,
                lanes@[k],
                m.layers@.len(),
            ));
            assert(lane_view(steps@, k) =~= decode_ops(*m, lanes@[k]));
        }
    }
    steps
}

/// Count one more cached position for each lane, in order.
fn advance_each(steps: &mut Vec<Step>, n: usize)
    requires
        in_lanes(old(steps)@, n as nat),
    ensures
        in_lanes(final(steps)@, n as nat),
        weights_shared(old(steps)@) ==> weights_shared(final(steps)@),
        final(steps)@.len() == old(steps)@.len() + n,
        final(steps)@.take(old(steps)@.len() as int) == old(steps)@,
        forall|k: int|
            old(steps)@.len() <= k < final(steps)@.len() ==> #[trigger] final(steps)@[k] == (
            Step::One { lane: (k - old(steps)@.len()) as usize, op: Op::Advance }),
        forall|k: int|
            0 <= k < n ==> #[trigger] lane_view(final(steps)@, k) == lane_view(
                old(steps)@,
                k,
            ).push(Op::Advance),
{
    let mut s: usize = 0;
    assert(steps@.take(steps@.len() as int) =~= steps@);
    while s < n
        invariant
            s <= n,
            in_lanes(steps@, n as nat),
            weights_shared(old(steps)@) ==> weights_shared(steps@),
            steps@.len() == old(steps)@.len() + s,
            steps@.take(old(steps)@.len() as int) == old(steps)@,
            forall|k: int|
                old(steps)@.len() <= k < steps@.len() ==> #[trigger] steps@[k] == (Step::One {
                    lane: (k - old(steps)@.len()) as usize,
                    op: Op::Advance,
                }),
            forall|k: int|
                0 <= k < n ==> #[trigger] lane_view(steps@, k) == if k < s {
                    lane_view(old(steps)@, k).push(Op::Advance)
                } else {
                    lane_view(old(steps)@, k)
                },
        decreases n - s,
    {
        let ghost before = steps@;
        steps.push(Step::One { lane: s, op: Op::Advance });
        proof {
            assert(steps@.drop_last() =~= before);
            assert(steps@.take(old(steps)@.len() as int) =~= before.take(
                old(steps)@.len() as int,
            ));
            assert forall|k: int| 0 <= k < n implies #[trigger] lane_view(steps@, k) == if k < s
                + 1 {
                lane_view(old(steps)@, k).push(Op::Advance)
            } else {
                lane_view(old(steps)@, k)
            } by {
                assert(lane_view(before, k) == if k < s {
                    lane_view(old(steps)@, k).push(Op::Advance)
                } else {
                    lane_view(old(steps)@, k)
                });
            }
        }
        s = s + 1;
    }
}

// ── Prompts ──────────────────────────────────────────────────────────────────

/// Before step `k`, the key and value of position `p` were written in `layer`.
pub open spec fn written_before(steps: Seq<Step>, k: int, layer: usize, p: int, base: int) -> bool {
    exists|j: int|
        0 <= j < k && #[trigger] steps[j] == (Step::One {
            lane: (p - base) as usize,
            op: Op::WriteKv { layer, pos: p as usize },
        })
}

/// Step `k` is for one lane, and it reads only positions in front of the prompt and
/// positions that the schedule has written by then.
pub open spec fn reads_written(steps: Seq<Step>, k: int, base: int) -> bool {
    match steps[k] {
        Step::One { lane, op } => match op {
            Op::Attend { layer, window } => forall|p: int|
                base <= p && window.start <= p < window.start + window.len
                    ==> #[trigger] written_before(steps, k, layer, p, base),
            _ => true,
        },
        Step::All { .. } => false,
    }
}

/// Lane by lane, and no attention reads a position before it has been written.
pub open spec fn writes_precede_reads(steps: Seq<Step>, base: int) -> bool {
    forall|k: int| 0 <= k < steps.len() ==> #[trigger] reads_written(steps, k, base)
}

proof fn lemma_reads_appended(a: Seq<Step>, b: Seq<Step>, base: int)
    requires
        writes_precede_reads(a, base),
        forall|k: int|
            0 <= k < b.len() ==> (#[trigger] b[k] matches Step::One { lane, op } && (
            op matches Op::Attend { layer, window } ==> forall|p: int|
                base <= p && window.start <= p < window.start + window.len
                    ==> #[trigger] written_before(a, a.len() as int, layer, p, base))),
    ensures
        writes_precede_reads(a + b, base),
{
    let all = a + b;
    assert forall|k: int| 0 <= k < all.len() implies #[trigger] reads_written(all, k, base) by {
        if k < a.len() {
            assert(all[k] == a[k]);
            assert(reads_written(a, k, base));
            match a[k] {
                Step::One { lane, op } => match op {
                    Op::Attend { layer, window } => {
                        assert forall|p: int|
                            base <= p && window.start <= p < window.start
                                + window.len implies #[trigger] written_before(
                            all,
                            k,
                            layer,
                            p,
                            base,
                        ) by {
                            assert(written_before(a, k, layer, p, base));
                            let j = choose|j: int|
                                0 <= j < k && #[trigger] a[j] == (Step::One {
                                    lane: (p - base) as usize,
                                    op: Op::WriteKv { layer, pos: p as usize },
                                });
                            assert(all[j] == a[j]);
                        }
                    },
                    _ => {},
                },
                Step::All { op } => {},
            }
        } else {
            let bk = b[k - a.len()];
            assert(all[k] == bk);
            match bk {
                Step::One { lane, op } => match op {
                    Op::Attend { layer, window } => {
                        assert forall|p: int|
                            base <= p && window.start <= p < window.start
                                + window.len implies #[trigger] written_before(
                            all,
                            k,
                            layer,
                            p,
                            base,
                        ) by {
                            assert(written_before(a, a.len() as int, layer, p, base));
                            let j = choose|j: int|
                                0 <= j < a.len() && #[trigger] a[j] == (Step::One {
                                    lane: (p - base) as usize,
                                    op: Op::WriteKv { layer, pos: p as usize },
                                });
                            assert(all[j] == a[j]);
                        }
                    },
                    _ => {},
                },
                Step::All { op } => {},
            }
        }
    }
}

proof fn lemma_attend_only_once(m: ModelPlan, lane: Lane, layer: usize, a: int, b: int)
    requires
        0 <= a <= b <= PIECES,
    ensures
        forall|j: int|
            0 <= j < range_ops(m, lane, layer, a, b).len() && (
            #[trigger] range_ops(m, lane, layer, a, b)[j] is Attend) ==> a <= 4 < b && range_ops(
                m,
                lane,
                layer,
                a,
                b,
            )[j] == (Op::Attend {
                layer,
                window: attend_window(m.config, layer as nat, lane.pos),
            }),
    decreases b - a,
{
    if a < b {
        lemma_attend_only_once(m, lane, layer, a, b - 1);
        let front = range_ops(m, lane, layer, a, b - 1);
        let last = piece_ops(m, lane, layer, b - 1);
        let all = range_ops(m, lane, layer, a, b);
        assert forall|j: int| 0 <= j < all.len() && (#[trigger] all[j] is Attend) implies a <= 4
            < b && all[j] == (Op::Attend {
            layer,
            window: attend_window(m.config, layer as nat, lane.pos),
        }) by {
            if j < front.len() {
                assert(all[j] == front[j]);
            } else {
                assert(all[j] == last[j - front.len()]);
            }
        }
    }
}

/// Every step of `each_lane` is an operation of its lane's range.
proof fn lemma_each_lane_elements(
    m: ModelPlan,
    lanes: Seq<Lane>,
    layer: usize,
    a: int,
    b: int,
    k: nat,
)
    requires
        k <= lanes.len() <= usize::MAX,
        0 <= a <= b <= PIECES,
    ensures
        forall|j: int|
            0 <= j < each_lane(m, lanes, layer, a, b, k).len() ==> (
            #[trigger] each_lane(m, lanes, layer, a, b, k)[j] matches Step::One { lane, op } && lane
                < k && (op is Attend ==> a <= 4 < b && op == (Op::Attend {
                layer,
                window: attend_window(m.config, layer as nat, lanes[lane as int].pos),
            }))),
    decreases k,
{
    if k > 0 {
        lemma_each_lane_elements(m, lanes, layer, a, b, (k - 1) as nat);
        let before = each_lane(m, lanes, layer, a, b, (k - 1) as nat);
        let ops = range_ops(m, lanes[k - 1], layer, a, b);
        lemma_attend_only_once(m, lanes[k - 1], layer, a, b);
        let all = each_lane(m, lanes, layer, a, b, k);
        assert forall|j: int| 0 <= j < all.len() implies (
        #[trigger] all[j] matches Step::One { lane, op } && lane < k && (op is Attend ==> a <= 4
            < b && op == (Op::Attend {
            layer,
            window: attend_window(m.config, layer as nat, lanes[lane as int].pos),
        }))) by {
            if j < before.len() {
                assert(all[j] == before[j]);
            } else {
                let o = ops[j - before.len()];
                assert(all[j] == (Step::One { lane: (k - 1) as usize, op: o }));
            }
        }
    }
}

/// The writes of a layer stand in the order of the lanes.
proof fn lemma_writes_in_order(m: ModelPlan, lanes: Seq<Lane>, layer: usize, k: nat)
    requires
        k <= lanes.len() <= usize::MAX,
    ensures
        each_lane(m, lanes, layer, 3, 4, k).len() == k,
        forall|j: int|
            0 <= j < k ==> #[trigger] each_lane(m, lanes, layer, 3, 4, k)[j] == (Step::One {
                lane: j as usize,
                op: Op::WriteKv { layer, pos: lanes[j].pos },
            }),
    decreases k,
{
    if k > 0 {
        lemma_writes_in_order(m, lanes, layer, (k - 1) as nat);
        reveal_with_fuel(range_ops, 2);
        assert(range_ops(m, lanes[k - 1], layer, 3, 4) =~= seq![
            Op::WriteKv { layer, pos: lanes[k - 1].pos },
        ]);
        let before = each_lane(m, lanes, layer, 3, 4, (k - 1) as nat);
        let all = each_lane(m, lanes, layer, 3, 4, k);
        assert forall|j: int| 0 <= j < k implies #[trigger] all[j] == (Step::One {
            lane: j as usize,
            op: Op::WriteKv { layer, pos: lanes[j].pos },
        }) by {
            if j < k - 1 {
                assert(all[j] == before[j]);
            }
        }
    }
}

proof fn lemma_range_split(m: ModelPlan, lane: Lane, layer: usize, a: int, b: int, c: int)
    requires
        a <= b <= c,
    ensures
        range_ops(m, lane, layer, a, c) == range_ops(m, lane, layer, a, b) + range_ops(
            m,
            lane,
            layer,
            b,
            c,
        ),
    decreases c - b,
{
    if b == c {
        assert(range_ops(m, lane, layer, a, b) + Seq::empty() =~= range_ops(m, lane, layer, a, b));
    } else {
        lemma_range_split(m, lane, layer, a, b, c - 1);
        let x = range_ops(m, lane, layer, a, b);
        let y = range_ops(m, lane, layer, b, c - 1);
        let z = piece_ops(m, lane, layer, c - 1);
        assert(x + y + z =~= x + (y + z));
    }
}

/// The lanes of a prompt: one after the other, from `base` on.
pub open spec fn prompt_lane(tokens: Seq<u32>, base: usize, lora: Option<usize>, k: int) -> Lane {
    Lane { token: tokens[k], pos: (base + k) as usize, lora }
}

/// Lanes at consecutive positions from `base` on.
spec fn consecutive(lanes: Seq<Lane>, base: int) -> bool {
    &&& base + lanes.len() <= usize::MAX
    &&& base >= 0
    &&& forall|k: int| 0 <= k < lanes.len() ==> (#[trigger] lanes[k]).pos == base + k
}

/// Append a part of a prompt's layer, lane by lane.
fn push_part(
    steps: &mut Vec<Step>,
    m: &ModelPlan,
    lanes: &Vec<Lane>,
    layer: usize,
    a: usize,
    b: usize,
    base: usize,
)
    requires
        layer < m.layers@.len(),
        a <= b <= PIECES,
        consecutive(lanes@, base as int),
        in_lanes(old(steps)@, lanes@.len()),
        writes_precede_reads(old(steps)@, base as int),
        a <= 4 < b ==> forall|p: int|
            base <= p < base + lanes@.len() ==> #[trigger] written_before(
                old(steps)@,
                old(steps)@.len() as int,
                layer,
                p,
                base as int,
            ),
    ensures
        in_lanes(final(steps)@, lanes@.len()),
        writes_precede_reads(final(steps)@, base as int),
        final(steps)@ == old(steps)@ + each_lane(
            *m,
            lanes@,
            layer,
            a as int,
            b as int,
            lanes@.len(),
        ),
        forall|s: int|
            0 <= s < lanes@.len() ==> #[trigger] lane_view(final(steps)@, s) == lane_view(
                old(steps)@,
                s,
            ) + range_ops(*m, lanes@[s], layer, a as int, b as int),
{
    let n: usize = lanes.len();
    let ghost before = steps@;
    let ghost added = each_lane(*m, lanes@, layer, a as int, b as int, lanes@.len());
    push_each(steps, m, lanes, layer, a, b);
    proof {
        lemma_each_lane_elements(*m, lanes@, layer, a as int, b as int, lanes@.len());
        lemma_each_lane_view(*m, lanes@, layer, a as int, b as int, lanes@.len(), 0);
        lemma_steps_appended(before, added, lanes@.len());
        assert forall|k: int| 0 <= k < added.len() implies (
        #[trigger] added[k] matches Step::One { lane, op } && (op matches Op::Attend {
            layer: l,
            window,
        } ==> forall|p: int|
            base <= p && window.start <= p < window.start + window.len
                ==> #[trigger] written_before(before, before.len() as int, l, p, base as int))) by {
            let lane = added[k]->One_lane;
            assert(lanes@[lane as int].pos == base + lane);
        }
        lemma_reads_appended(before, added, base as int);
        assert forall|s: int| 0 <= s < lanes@.len() implies #[trigger] lane_view(steps@, s)
            == lane_view(before, s) + range_ops(*m, lanes@[s], layer, a as int, b as int) by {
            lemma_lane_view_concat(before, added, s);
            lemma_each_lane_view(*m, lanes@, layer, a as int, b as int, lanes@.len(), s);
        }
    }
}

/// Append one layer of a prompt: projections of all positions, then their keys
/// and values into the cache, then attention, then the feed-forward block.
fn prompt_layer(steps: &mut Vec<Step>, m: &ModelPlan, lanes: &Vec<Lane>, layer: usize, base: usize)
    requires
        layer < m.layers@.len(),
        consecutive(lanes@, base as int),
        in_lanes(old(steps)@, lanes@.len()),
        writes_precede_reads(old(steps)@, base as int),
    ensures
        in_lanes(final(steps)@, lanes@.len()),
        writes_precede_reads(final(steps)@, base as int),
        forall|s: int|
            0 <= s < lanes@.len() ==> #[trigger] lane_view(final(steps)@, s) == lane_view(
                old(steps)@,
                s,
            ) + range_ops(*m, lanes@[s], layer, 0, PIECES as int),
{
    let n: usize = lanes.len();
    let ghost s0 = steps@;
    push_part(steps, m, lanes, layer, 0, 3, base);
    let ghost s1 = steps@;
    push_part(steps, m, lanes, layer, 3, 4, base);
    let ghost s2 = steps@;
    proof {
        lemma_writes_in_order(*m, lanes@, layer, lanes@.len());
        assert forall|p: int| base <= p < base + lanes@.len() implies #[trigger] written_before(
            s2,
            s2.len() as int,
            layer,
            p,
            base as int,
        ) by {
            let j = s1.len() + (p - base);
            let w = each_lane(*m, lanes@, layer, 3, 4, lanes@.len());
            assert(s2[j] == w[p - base]);
            assert(lanes@[p - base].pos == p);
        }
    }
    push_part(steps, m, lanes, layer, 4, 8, base);
    let ghost s3 = steps@;
    push_part(steps, m, lanes, layer, 8, PIECES, base);
    proof {
        assert forall|s: int| 0 <= s < lanes@.len() implies #[trigger] lane_view(steps@, s)
            == lane_view(s0, s) + range_ops(*m, lanes@[s], layer, 0, PIECES as int) by {
            let lane = lanes@[s];
            lemma_range_split(*m, lane, layer, 0, 3, 13);
            lemma_range_split(*m, lane, layer, 3, 4, 13);
            lemma_range_split(*m, lane, layer, 4, 8, 13);
            assert(lane_view(s1, s) == lane_view(s0, s) + range_ops(*m, lane, layer, 0, 3));
            assert(lane_view(s2, s) == lane_view(s1, s) + range_ops(*m, lane, layer, 3, 4));
            assert(lane_view(s3, s) == lane_view(s2, s) + range_ops(*m, lane, layer, 4, 8));
            let v = lane_view(s0, s);
            let a = range_ops(*m, lane, layer, 0, 3);
            let b = range_ops(*m, lane, layer, 3, 4);
            let c = range_ops(*m, lane, layer, 4, 8);
            let d = range_ops(*m, lane, layer, 8, 13);
            assert(v + a + b + c + d =~= v + (a + (b + (c + d))));
        }
    }
}

/// The forward pass of a whole prompt from position `pos_offset` on.
///
/// Every position goes through exactly the calls that decoding it alone would
/// make, in the same order, and no attention reads a position of the prompt
/// before it has been written: a prompt processed at once leaves what the same
/// tokens decoded one by one leave.
pub fn forward_prefill_inner(
    m: &ModelPlan,
    tokens: &[u32],
    pos_offset: usize,
    lora: Option<usize>,
) -> (steps: Vec<Step>)
    requires
        pos_offset + tokens@.len() <= usize::MAX,
    ensures
        tokens@.len() == 0 ==> steps@.len() == 0,
        in_lanes(steps@, tokens@.len()),
        writes_precede_reads(steps@, pos_offset as int),
        forall|k: int|
            0 <= k < tokens@.len() ==> #[trigger] lane_view(steps@, k) == decode_ops(
                *m,
                prompt_lane(tokens@, pos_offset, lora, k),
            ),
        forall|k: int|
            0 <= k < tokens@.len() ==> decodes::<int>(
                *m,
                Lane { token: tokens@[k], pos: (pos_offset + k) as usize, lora },
                #[trigger] lane_view(steps@, k),
            ),
{
    let n: usize = tokens.len();
    let mut steps: Vec<Step> = Vec::new();
    if n == 0 {
        return steps;
    }
    let mut lanes: Vec<Lane> = Vec::new();
    let mut k: usize = 0;
    while k < n
        invariant
            k <= n == tokens@.len(),
            pos_offset + tokens@.len() <= usize::MAX,
            lanes@.len() == k,
            forall|j: int|
                0 <= j < k ==> #[trigger] lanes@[j] == prompt_lane(tokens@, pos_offset, lora, j),
            in_lanes(steps@, n as nat),
            writes_precede_reads(steps@, pos_offset as int),
            forall|j: int|
                0 <= j < n ==> #[trigger] lane_view(steps@, j) == if j < k {
                    seq![Op::Embed { token: tokens@[j] }]
                } else {
                    Seq::empty()
                },
        decreases n - k,
    {
        lanes.push(Lane { token: tokens[k], pos: pos_offset + k, lora });
        let ghost before = steps@;
        steps.push(Step::One { lane: k, op: Op::Embed { token: tokens[k] } });
        proof {
            assert(steps@.drop_last() =~= before);
            let added = seq![Step::One { lane: k, op: Op::Embed { token: tokens@[k as int] } }];
            assert(steps@ =~= before + added);
            lemma_reads_appended(before, added, pos_offset as int);
            assert forall|j: int| 0 <= j < n implies #[trigger] lane_view(steps@, j) == if j < k
                + 1 {
                seq![Op::Embed { token: tokens@[j] }]
            } else {
                Seq::empty()
            } by {
                assert(lane_view(before, j) == if j < k {
                    seq![Op::Embed { token: tokens@[j] }]
                } else {
                    Seq::empty()
                });
                if j == k {
                    assert(lane_view(steps@, j) =~= seq![Op::Embed { token: tokens@[j] }]);
                }
            }
        }
        k = k + 1;
    }
    let mut layer: usize = 0;
    proof {
        assert forall|j: int| 0 <= j < n implies #[trigger] lane_view(steps@, j) == seq![
            Op::Embed { token: tokens@[j] },
        ] + layers_ops(*m, lanes@[j], 0) by {
            assert(seq![Op::Embed { token: tokens@[j] }] + Seq::empty() =~= seq![
                Op::Embed { token: tokens@[j] },
            ]);
        }
    }
    while layer < m.layers.len()
        invariant
            layer <= m.layers@.len(),
            n == tokens@.len() == lanes@.len(),
            consecutive(lanes@, pos_offset as int),
            in_lanes(steps@, n as nat),
            writes_precede_reads(steps@, pos_offset as int),
            forall|j: int|
                0 <= j < n ==> #[trigger] lane_view(steps@, j) == seq![
                    Op::Embed { token: tokens@[j] },
                ] + layers_ops(*m, lanes@[j], layer as nat),
        decreases m.layers@.len() - layer,
    {
        let ghost before = steps@;
        prompt_layer(&mut steps, m, &lanes, layer, pos_offset);
        proof {
            assert forall|j: int| 0 <= j < n implies #[trigger] lane_view(steps@, j) == seq![
                Op::Embed { token: tokens@[j] },
            ] + layers_ops(*m, lanes@[j], (layer + 1) as nat) by {
                assert(lane_view(before, j) == seq![Op::Embed { token: tokens@[j] }] + layers_ops(
                    *m,
                    lanes@[j],
                    layer as nat,
                ));
                let x = seq![Op::Embed { token: tokens@[j] }];
                let y = layers_ops(*m, lanes@[j], layer as nat);
                let z = range_ops(*m, lanes@[j], layer, 0, PIECES as int);
                assert(x + y + z =~= x + (y + z));
            }
        }
        layer = layer + 1;
    }
    let ghost body = steps@;
    advance_each(&mut steps, n);
    let ghost advanced = steps@;
    proof {
        let added = advanced.skip(body.len() as int);
        assert(advanced =~= body + added);
        assert forall|j: int| 0 <= j < added.len() implies (
        #[trigger] added[j] matches Step::One { lane, op } && !(op is Attend)) by {
            assert(added[j] == advanced[body.len() + j]);
        }
        lemma_reads_appended(body, added, pos_offset as int);
    }
    let ops = head(m);
    let mut s: usize = 0;
    while s < n
        invariant
            s <= n == tokens@.len(),
            ops@ == head_ops(*m),
            in_lanes(steps@, n as nat),
            writes_precede_reads(steps@, pos_offset as int),
            forall|j: int|
                0 <= j < n ==> #[trigger] lane_view(steps@, j) == if j < s {
                    lane_view(advanced, j) + ops@
                } else {
                    lane_view(advanced, j)
                },
        decreases n - s,
    {
        let ghost before = steps@;
        let ghost added = for_one(s, ops@);
        push_one(&mut steps, s, &ops);
        proof {
            lemma_steps_appended(before, added, n as nat);
            lemma_reads_appended(before, added, pos_offset as int);
            assert forall|j: int| 0 <= j < n implies #[trigger] lane_view(steps@, j) == if j < s
                + 1 {
                lane_view(advanced, j) + ops@
            } else {
                lane_view(advanced, j)
            } by {
                lemma_lane_view_concat(before, added, j);
                lemma_for_one_view(s, ops@, j);
                assert(lane_view(before, j) == if j < s {
                    lane_view(advanced, j) + ops@
                } else {
                    lane_view(advanced, j)
                });
                if j != s {
                    assert(lane_view(before, j) + Seq::<Op>::empty() =~= lane_view(before, j));
                }
            }
        }
        s = s + 1;
    }
    proof {
        assert forall|j: int| 0 <= j < n implies #[trigger] lane_view(steps@, j) == decode_ops(
            *m,
            prompt_lane(tokens@, pos_offset, lora, j),
        ) by {
            assert(lanes@[j] == prompt_lane(tokens@, pos_offset, lora, j));
            assert(lane_view(steps@, j) == lane_view(advanced, j) + ops@);
            assert(lane_view(advanced, j) == lane_view(body, j).push(Op::Advance));
            assert(lane_view(body, j) == seq![Op::Embed { token: tokens@[j] }] + layers_ops(
                *m,
                lanes@[j],
                m.layers@.len(),
            ));
            assert(lane_view(steps@, j) =~= decode_ops(*m, lanes@[j]));
        }
        assert forall|j: int| 0 <= j < n implies decodes::<int>(
            *m,
            Lane { token: tokens@[j], pos: (pos_offset + j) as usize, lora },
            #[trigger] lane_view(steps@, j),
        ) by {
            lemma_decodes::<int>(*m, prompt_lane(tokens@, pos_offset, lora, j));
        }
    }
    steps
}

/// The forward pass of one token at one position, with the model's own adapter.
pub fn forward_one(m: &ModelPlan, token: u32, pos: usize) -> (ops: Vec<Op>)
    requires
        pos < usize::MAX,
    ensures
        ops@ == decode_ops(*m, Lane { token, pos, lora: None }),
        decodes::<int>(*m, Lane { token, pos, lora: None }, ops@),
{
    forward_one_lora(m, &Lane { token, pos, lora: None })
}

/// One decode step for several sequences, with the model's own adapter.
pub fn forward_batch(
    m: &ModelPlan,
    tokens: &[u32],
    positions: &[usize],
    single_device: bool,
) -> (steps: Vec<Step>)
    requires
        tokens@.len() == positions@.len(),
        forall|s: int| 0 <= s < positions@.len() ==> #[trigger] positions@[s] < usize::MAX,
    ensures
        in_lanes(steps@, tokens@.len()),
        forall|s: int|
            0 <= s < tokens@.len() ==> #[trigger] lane_view(steps@, s) == decode_ops(
                *m,
                Lane { token: tokens@[s], pos: positions@[s], lora: None },
            ),
        forall|s: int|
            0 <= s < tokens@.len() ==> decodes::<int>(
                *m,
                Lane { token: tokens@[s], pos: positions@[s], lora: None },
                #[trigger] lane_view(steps@, s),
            ),
        tokens@.len() == 0 ==> steps@.len() == 0,
        tokens@.len() > 1 && !single_device ==> weights_shared(steps@),
{
    let mut lanes: Vec<Lane> = Vec::new();
    let mut s: usize = 0;
    while s < tokens.len()
        invariant
            s <= tokens@.len() == positions@.len(),
            lanes@.len() == s,
            forall|k: int|
                0 <= k < s ==> #[trigger] lanes@[k] == (Lane {
                    token: tokens@[k],
                    pos: positions@[k],
                    lora: None,
                }),
        decreases tokens@.len() - s,
    {
        lanes.push(Lane { token: tokens[s], pos: positions[s], lora: None });
        s = s + 1;
    }
    forward_batch_lora(m, &lanes, single_device)
}

/// The forward pass of a whole prompt, for the logits of every position, with the model's
/// own adapter.
pub fn forward_prefill_all(m: &ModelPlan, tokens: &[u32], pos_offset: usize) -> (steps: Vec<Step>)
    requires
        pos_offset + tokens@.len() <= usize::MAX,
    ensures
        tokens@.len() == 0 ==> steps@.len() == 0,
        in_lanes(steps@, tokens@.len()),
        writes_precede_reads(steps@, pos_offset as int),
        forall|k: int|
            0 <= k < tokens@.len() ==> #[trigger] lane_view(steps@, k) == decode_ops(
                *m,
                prompt_lane(tokens@, pos_offset, None, k),
            ),
        forall|k: int|
            0 <= k < tokens@.len() ==> decodes::<int>(
                *m,
                Lane { token: tokens@[k], pos: (pos_offset + k) as usize, lora: None },
                #[trigger] lane_view(steps@, k),
            ),
{
    forward_prefill_inner(m, tokens, pos_offset, None)
}

/// The forward pass of a whole prompt, and the lane whose logits are wanted: the last one,
/// where there is any.
pub fn forward_prefill_lora(
    m: &ModelPlan,
    tokens: &[u32],
    pos_offset: usize,
    lora: Option<usize>,
) -> (r: (Vec<Step>, Option<usize>))
    requires
        pos_offset + tokens@.len() <= usize::MAX,
    ensures
        tokens@.len() == 0 ==> r.0@.len() == 0 && r.1 is None,
        tokens@.len() > 0 ==> r.1 == Some((tokens@.len() - 1) as usize),
        in_lanes(r.0@, tokens@.len()),
        writes_precede_reads(r.0@, pos_offset as int),
        forall|k: int|
            0 <= k < tokens@.len() ==> #[trigger] lane_view(r.0@, k) == decode_ops(
                *m,
                prompt_lane(tokens@, pos_offset, lora, k),
            ),
        forall|k: int|
            0 <= k < tokens@.len() ==> decodes::<int>(
                *m,
                Lane { token: tokens@[k], pos: (pos_offset + k) as usize, lora },
                #[trigger] lane_view(r.0@, k),
            ),
{
    let steps = forward_prefill_inner(m, tokens, pos_offset, lora);
    let n: usize = tokens.len();
    if n == 0 {
        (steps, None)
    } else {
        (steps, Some(n - 1))
    }
}

/// The forward pass of a whole prompt for the logits of its last token, with the model's
/// own adapter.
pub fn forward_prefill(m: &ModelPlan, tokens: &[u32], pos_offset: usize) -> (r: (
    Vec<Step>,
    Option<usize>,
))
    requires
        pos_offset + tokens@.len() <= usize::MAX,
    ensures
        tokens@.len() == 0 ==> r.0@.len() == 0 && r.1 is None,
        tokens@.len() > 0 ==> r.1 == Some((tokens@.len() - 1) as usize),
        in_lanes(r.0@, tokens@.len()),
        writes_precede_reads(r.0@, pos_offset as int),
        forall|k: int|
            0 <= k < tokens@.len() ==> #[trigger] lane_view(r.0@, k) == decode_ops(
                *m,
                prompt_lane(tokens@, pos_offset, None, k),
            ),
        forall|k: int|
            0 <= k < tokens@.len() ==> decodes::<int>(
                *m,
                Lane { token: tokens@[k], pos: (pos_offset + k) as usize, lora: None },
                #[trigger] lane_view(r.0@, k),
            ),
{
    forward_prefill_lora(m, tokens, pos_offset, None)
}

// ── Without a cache ──────────────────────────────────────────────────────────

/// Attention of one layer at `pos` when nothing is cached. Adapters and sliding
/// windows do not apply here.
pub open spec fn fresh_attention(m: ModelPlan, layer: usize, pos: usize) -> Seq<Op> {
    let sw = m.layers@[layer as int];
    seq![
        Op::AttnNorm { layer },
        Op::Project { layer, matrix: Matrix::AttnQ },
        Op::Project { layer, matrix: Matrix::AttnK },
        Op::Project { layer, matrix: Matrix::AttnV },
    ] + opt(sw.q_bias, Op::Bias { layer, matrix: Matrix::AttnQ }) + opt(
        sw.k_bias,
        Op::Bias { layer, matrix: Matrix::AttnK },
    ) + opt(sw.v_bias, Op::Bias { layer, matrix: Matrix::AttnV }) + seq![
        Op::Rope { matrix: Matrix::AttnQ, pos },
        Op::Rope { matrix: Matrix::AttnK, pos },
        Op::AttendFresh { layer, len: (pos + 1) as usize },
        Op::Project { layer, matrix: Matrix::AttnOutput },
    ]
}

/// What follows attention in a layer when nothing is cached.
pub open spec fn fresh_feed_forward(m: ModelPlan, layer: usize) -> Seq<Op> {
    let sw = m.layers@[layer as int];
    opt(sw.post_attn_norm, Op::PostAttnNorm { layer }) + seq![
        Op::AddAttn,
        Op::FfnNorm { layer },
        Op::Project { layer, matrix: Matrix::FfnGate },
        Op::Project { layer, matrix: Matrix::FfnUp },
        Op::Activate,
        Op::Project { layer, matrix: Matrix::FfnDown },
    ] + opt(sw.post_ffn_norm, Op::PostFfnNorm { layer }) + seq![Op::AddFfn]
}

/// The work of one layer on the token at `pos` when nothing is cached.
pub open spec fn fresh_ops(m: ModelPlan, layer: usize, pos: usize) -> Seq<Op> {
    fresh_attention(m, layer, pos) + fresh_feed_forward(m, layer)
}

/// The embeddings of the first `k` tokens.
pub open spec fn embed_steps(tokens: Seq<u32>, k: nat) -> Seq<Step>
    decreases k,
{
    if k == 0 {
        Seq::empty()
    } else {
        embed_steps(tokens, (k - 1) as nat).push(
            Step::One { lane: (k - 1) as usize, op: Op::Embed { token: tokens[k - 1] } },
        )
    }
}

/// One layer on the first `k` positions.
pub open spec fn fresh_layer(m: ModelPlan, layer: usize, k: nat) -> Seq<Step>
    decreases k,
{
    if k == 0 {
        Seq::empty()
    } else {
        fresh_layer(m, layer, (k - 1) as nat) + for_one(
            (k - 1) as usize,
            fresh_ops(m, layer, (k - 1) as usize),
        )
    }
}

/// The first `l` layers on `n` positions, a layer at a time.
pub open spec fn fresh_layers(m: ModelPlan, n: nat, l: nat) -> Seq<Step>
    decreases l,
{
    if l == 0 {
        Seq::empty()
    } else {
        fresh_layers(m, n, (l - 1) as nat) + fresh_layer(m, (l - 1) as usize, n)
    }
}

/// The uncached pass over a text, up to the logits of its last position.
pub open spec fn uncached_steps(m: ModelPlan, tokens: Seq<u32>) -> Seq<Step> {
    embed_steps(tokens, tokens.len()) + fresh_layers(m, tokens.len(), m.layers@.len()) + for_one(
        (tokens.len() - 1) as usize,
        head_ops(m),
    )
}

/// The uncached pass over a text, up to the mean of its final hidden states.
pub open spec fn embedding_steps(m: ModelPlan, tokens: Seq<u32>) -> Seq<Step> {
    embed_steps(tokens, tokens.len()) + fresh_layers(m, tokens.len(), m.layers@.len())
        + pool_steps(tokens.len() as usize, tokens.len())
}

/// The averaging of `count` positions, the first `k` of them.
pub open spec fn pool_steps(count: usize, k: nat) -> Seq<Step>
    decreases k,
{
    if k == 0 {
        Seq::empty()
    } else {
        pool_steps(count, (k - 1) as nat) + for_one(
            (k - 1) as usize,
            seq![Op::FinalNorm, Op::Pool { count }],
        )
    }
}

/// Attention of one layer at one position when nothing is cached.
pub fn attention(m: &ModelPlan, layer: usize, pos: usize) -> (ops: Vec<Op>)
    requires
        layer < m.layers@.len(),
        pos < usize::MAX,
    ensures
        ops@ == fresh_attention(*m, layer, pos),
{
    let sw = m.layers[layer];
    let mut ops: Vec<Op> = Vec::new();
    ops.push(Op::AttnNorm { layer });
    ops.push(Op::Project { layer, matrix: Matrix::AttnQ });
    ops.push(Op::Project { layer, matrix: Matrix::AttnK });
    ops.push(Op::Project { layer, matrix: Matrix::AttnV });
    push_opt(&mut ops, sw.q_bias, Op::Bias { layer, matrix: Matrix::AttnQ });
    push_opt(&mut ops, sw.k_bias, Op::Bias { layer, matrix: Matrix::AttnK });
    push_opt(&mut ops, sw.v_bias, Op::Bias { layer, matrix: Matrix::AttnV });
    ops.push(Op::Rope { matrix: Matrix::AttnQ, pos });
    ops.push(Op::Rope { matrix: Matrix::AttnK, pos });
    ops.push(Op::AttendFresh { layer, len: pos + 1 });
    ops.push(Op::Project { layer, matrix: Matrix::AttnOutput });
    assert(ops@ =~= fresh_attention(*m, layer, pos));
    ops
}

/// What follows attention in a layer when nothing is cached.
pub fn feed_forward(m: &ModelPlan, layer: usize) -> (ops: Vec<Op>)
    requires
        layer < m.layers@.len(),
    ensures
        ops@ == fresh_feed_forward(*m, layer),
{
    let sw = m.layers[layer];
    let mut ops: Vec<Op> = Vec::new();
    push_opt(&mut ops, sw.post_attn_norm, Op::PostAttnNorm { layer });
    ops.push(Op::AddAttn);
    ops.push(Op::FfnNorm { layer });
    ops.push(Op::Project { layer, matrix: Matrix::FfnGate });
    ops.push(Op::Project { layer, matrix: Matrix::FfnUp });
    ops.push(Op::Activate);
    ops.push(Op::Project { layer, matrix: Matrix::FfnDown });
    push_opt(&mut ops, sw.post_ffn_norm, Op::PostFfnNorm { layer });
    ops.push(Op::AddFfn);
    assert(ops@ =~= fresh_feed_forward(*m, layer));
    ops
}

/// Embeddings and layers of a text, without a cache.
fn fresh_body(m: &ModelPlan, tokens: &[u32]) -> (steps: Vec<Step>)
    ensures
        steps@ == embed_steps(tokens@, tokens@.len()) + fresh_layers(
            *m,
            tokens@.len(),
            m.layers@.len(),
        ),
{
    let n: usize = tokens.len();
    let mut steps: Vec<Step> = Vec::new();
    let mut k: usize = 0;
    while k < n
        invariant
            k <= n == tokens@.len(),
            steps@ == embed_steps(tokens@, k as nat),
        decreases n - k,
    {
        steps.push(Step::One { lane: k, op: Op::Embed { token: tokens[k] } });
        k = k + 1;
    }
    let ghost embeds = steps@;
    let mut layer: usize = 0;
    assert(embeds + fresh_layers(*m, n as nat, 0) =~= embeds);
    while layer < m.layers.len()
        invariant
            layer <= m.layers@.len(),
            n == tokens@.len(),
            steps@ == embeds + fresh_layers(*m, n as nat, layer as nat),
        decreases m.layers@.len() - layer,
    {
        let ghost before = steps@;
        let mut pos: usize = 0;
        assert(before + fresh_layer(*m, layer, 0) =~= before);
        while pos < n
            invariant
                layer < m.layers@.len(),
                pos <= n,
                steps@ == before + fresh_layer(*m, layer, pos as nat),
            decreases n - pos,
        {
            let mut ops = attention(m, layer, pos);
            let mut rest = feed_forward(m, layer);
            ops.append(&mut rest);
            push_one(&mut steps, pos, &ops);
            pos = pos + 1;
            assert(steps@ =~= before + fresh_layer(*m, layer, pos as nat));
        }
        layer = layer + 1;
        assert(steps@ =~= embeds + fresh_layers(*m, n as nat, layer as nat));
    }
    steps
}

/// The logits of the last token of a text, recomputing everything.
pub fn forward(m: &ModelPlan, token_ids: &[u32]) -> (steps: Vec<Step>)
    requires
        token_ids@.len() > 0,
    ensures
        steps@ == uncached_steps(*m, token_ids@),
        reads_text::<int>(*m, token_ids@, steps@),
{
    let mut steps = fresh_body(m, token_ids);
    let ops = head(m);
    push_one(&mut steps, token_ids.len() - 1, &ops);
    proof {
        lemma_reads_text::<int>(*m, token_ids@);
    }
    steps
}

/// The embedding of a text: the mean of its final hidden states.
pub fn embed(m: &ModelPlan, token_ids: &[u32]) -> (steps: Vec<Step>)
    ensures
        steps@ == embedding_steps(*m, token_ids@),
        pools_text::<int>(*m, token_ids@, steps@),
{
    let n: usize = token_ids.len();
    let mut steps = fresh_body(m, token_ids);
    let ghost body = steps@;
    let mut ops: Vec<Op> = Vec::new();
    ops.push(Op::FinalNorm);
    ops.push(Op::Pool { count: n });
    assert(ops@ =~= seq![Op::FinalNorm, Op::Pool { count: n }]);
    let mut k: usize = 0;
    assert(body + pool_steps(n, 0) =~= body);
    while k < n
        invariant
            k <= n,
            ops@ == seq![Op::FinalNorm, Op::Pool { count: n }],
            steps@ == body + pool_steps(n, k as nat),
        decreases n - k,
    {
        push_one(&mut steps, k, &ops);
        k = k + 1;
        assert(steps@ =~= body + pool_steps(n, k as nat));
    }
    proof {
        lemma_pools_text::<int>(*m, token_ids@);
    }
    steps
}

} // verus!
