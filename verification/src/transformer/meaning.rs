//! What the schedules compute: the transformer.
//!
//! The arithmetic is left open. Whatever the kernels compute, a schedule combines them as
//! the formulas below do, value for value: with a cache, over a prompt or token by token,
//! and without one.
use vstd::prelude::*;

use crate::transformer::config::{attend_window, ModelConfig};
use crate::transformer::execution::{
    in_window, lane_step, law_prompt_at_once_is_one_by_one, one_by_one, run_lane, run_together,
    Kernels, Prompt, Rows,
};
use crate::transformer::forward::{
    decode_ops, effective_lora, embed_steps, embedding_steps, for_one, fresh_attention,
    fresh_feed_forward, fresh_layer, fresh_layers, fresh_ops, head_ops, in_lanes, lane_view,
    layers_ops, opt, piece_ops, pool_steps, prompt_lane, range_ops, uncached_steps,
    writes_precede_reads, Lane, LoraLayer, Matrix, ModelPlan, Op, Step, PIECES,
};

verus! {

/// The functions that a model is made of, over vectors `V`.
#[verifier::reject_recursive_types(V)]
pub struct Arithmetic<V> {
    /// The embedding of a token.
    pub embed: spec_fn(u32) -> V,
    /// The normalisations of a layer: before and behind attention, before and behind the
    /// feed-forward block.
    pub attn_norm: spec_fn(usize, V) -> V,
    pub post_attn_norm: spec_fn(usize, V) -> V,
    pub ffn_norm: spec_fn(usize, V) -> V,
    pub post_ffn_norm: spec_fn(usize, V) -> V,
    /// A weight matrix times a vector.
    pub project: spec_fn(usize, Matrix, V) -> V,
    /// A vector with the bias of a projection added.
    pub bias: spec_fn(usize, Matrix, V) -> V,
    /// A projection's result with an adapter's update added, which depends on what was
    /// projected.
    pub update: spec_fn(Option<usize>, usize, Matrix, V, V) -> V,
    /// A query or key rotated to a position.
    pub rotate: spec_fn(V, usize) -> V,
    /// What a query gets from keys and values.
    pub attend: spec_fn(usize, V, Seq<(V, V)>) -> V,
    /// The gated activation of the feed-forward block.
    pub activate: spec_fn(V, V) -> V,
    pub plus: spec_fn(V, V) -> V,
    pub final_norm: spec_fn(V) -> V,
    pub lm_head: spec_fn(V) -> V,
    pub softcap: spec_fn(V) -> V,
}

/// The vectors that a lane has at hand.
#[verifier::reject_recursive_types(V)]
pub struct Registers<V> {
    /// The residual stream.
    pub x: V,
    pub normed: V,
    pub q: V,
    pub k: V,
    pub v: V,
    pub attn: V,
    pub out: V,
    pub gate: V,
    pub up: V,
    pub logits: V,
}

/// What a matrix is multiplied with.
pub open spec fn input<V>(r: Registers<V>, matrix: Matrix) -> V {
    match matrix {
        Matrix::AttnOutput => r.attn,
        Matrix::FfnDown => r.gate,
        _ => r.normed,
    }
}

/// Where the result of a projection is kept.
pub open spec fn result<V>(r: Registers<V>, matrix: Matrix) -> V {
    match matrix {
        Matrix::AttnQ => r.q,
        Matrix::AttnK => r.k,
        Matrix::AttnV => r.v,
        Matrix::FfnGate => r.gate,
        Matrix::FfnUp => r.up,
        _ => r.out,
    }
}

pub open spec fn with_result<V>(r: Registers<V>, matrix: Matrix, y: V) -> Registers<V> {
    match matrix {
        Matrix::AttnQ => Registers { q: y, ..r },
        Matrix::AttnK => Registers { k: y, ..r },
        Matrix::AttnV => Registers { v: y, ..r },
        Matrix::FfnGate => Registers { gate: y, ..r },
        Matrix::FfnUp => Registers { up: y, ..r },
        _ => Registers { out: y, ..r },
    }
}

/// What one operation does to a lane that runs with `adapter`. What attention reads and
/// where rows go is not said here.
pub open spec fn computed<V>(
    a: Arithmetic<V>,
    adapter: Option<usize>,
    op: Op,
    r: Registers<V>,
) -> Registers<V> {
    match op {
        Op::Embed { token } => Registers { x: (a.embed)(token), ..r },
        Op::AttnNorm { layer } => Registers { normed: (a.attn_norm)(layer, r.x), ..r },
        Op::Project { layer, matrix } => with_result(
            r,
            matrix,
            (a.project)(layer, matrix, input(r, matrix)),
        ),
        Op::Bias { layer, matrix } => with_result(
            r,
            matrix,
            (a.bias)(layer, matrix, result(r, matrix)),
        ),
        Op::Lora { layer, matrix } => with_result(
            r,
            matrix,
            (a.update)(adapter, layer, matrix, input(r, matrix), result(r, matrix)),
        ),
        Op::Rope { matrix, pos } => with_result(r, matrix, (a.rotate)(result(r, matrix), pos)),
        Op::PostAttnNorm { layer } => Registers { out: (a.post_attn_norm)(layer, r.out), ..r },
        Op::AddAttn => Registers { x: (a.plus)(r.x, r.out), ..r },
        Op::FfnNorm { layer } => Registers { normed: (a.ffn_norm)(layer, r.x), ..r },
        Op::Activate => Registers { gate: (a.activate)(r.gate, r.up), ..r },
        Op::PostFfnNorm { layer } => Registers { out: (a.post_ffn_norm)(layer, r.out), ..r },
        Op::AddFfn => Registers { x: (a.plus)(r.x, r.out), ..r },
        Op::FinalNorm => Registers { normed: (a.final_norm)(r.x), ..r },
        Op::LmHead => Registers { logits: (a.lm_head)(r.normed), ..r },
        Op::Softcap => Registers { logits: (a.softcap)(r.logits), ..r },
        _ => r,
    }
}

/// The kernels of this arithmetic: a row is a key and a value.
pub open spec fn kernels_of<V>(a: Arithmetic<V>, adapter: Option<usize>) -> Kernels<
    Registers<V>,
    (V, V),
> {
    Kernels {
        step: |op: Op, r: Registers<V>| computed(a, adapter, op, r),
        row: |op: Op, r: Registers<V>| (r.k, r.v),
        attend: |op: Op, r: Registers<V>, rows: Seq<(V, V)>|
            match op {
                Op::Attend { layer, .. } => Registers { attn: (a.attend)(layer, r.q, rows), ..r },
                _ => r,
            },
    }
}

// ── The transformer ──────────────────────────────────────────────────────────

/// The adapter that a request runs with: its own, or else the model's.
pub open spec fn chosen(m: ModelPlan, lora: Option<usize>) -> Option<usize> {
    if lora is Some {
        lora
    } else {
        m.lora
    }
}

/// An adapter updates this matrix.
pub open spec fn listed(l: LoraLayer, matrix: Matrix) -> bool {
    match matrix {
        Matrix::AttnQ => l.attn_q,
        Matrix::AttnK => l.attn_k,
        Matrix::AttnV => l.attn_v,
        Matrix::AttnOutput => l.attn_output,
        Matrix::FfnGate => l.ffn_gate,
        Matrix::FfnUp => l.ffn_up,
        Matrix::FfnDown => l.ffn_down,
    }
}

/// The adapter is loaded, reaches up to this layer and updates this matrix of it.
pub open spec fn updates(
    m: ModelPlan,
    adapter: Option<usize>,
    layer: usize,
    matrix: Matrix,
) -> bool {
    &&& adapter is Some
    &&& adapter->0 < m.adapters@.len()
    &&& layer < m.adapters@[adapter->0 as int]@.len()
    &&& listed(m.adapters@[adapter->0 as int]@[layer as int], matrix)
}

/// This projection has a bias. Only those of attention's inputs can have one.
pub open spec fn biased(m: ModelPlan, layer: usize, matrix: Matrix) -> bool {
    let sw = m.layers@[layer as int];
    ||| matrix == Matrix::AttnQ && sw.q_bias
    ||| matrix == Matrix::AttnK && sw.k_bias
    ||| matrix == Matrix::AttnV && sw.v_bias
}

/// A projection: the matrix, then the bias it has, then the update of the adapter.
pub open spec fn linear<V>(
    a: Arithmetic<V>,
    m: ModelPlan,
    adapter: Option<usize>,
    layer: usize,
    matrix: Matrix,
    x: V,
) -> V {
    let y = (a.project)(layer, matrix, x);
    let z = if biased(m, layer, matrix) {
        (a.bias)(layer, matrix, y)
    } else {
        y
    };
    if updates(m, adapter, layer, matrix) {
        (a.update)(adapter, layer, matrix, x, z)
    } else {
        z
    }
}

/// The key and value of a position whose residual stream is `x`. The key is rotated to the
/// position.
pub open spec fn row_of<V>(
    a: Arithmetic<V>,
    m: ModelPlan,
    adapter: Option<usize>,
    layer: usize,
    pos: usize,
    x: V,
) -> (V, V) {
    let h = (a.attn_norm)(layer, x);
    (
        (a.rotate)(linear(a, m, adapter, layer, Matrix::AttnK, h), pos),
        linear(a, m, adapter, layer, Matrix::AttnV, h),
    )
}

/// The query of a position, rotated to it.
pub open spec fn query_of<V>(
    a: Arithmetic<V>,
    m: ModelPlan,
    adapter: Option<usize>,
    layer: usize,
    pos: usize,
    x: V,
) -> V {
    (a.rotate)(linear(a, m, adapter, layer, Matrix::AttnQ, (a.attn_norm)(layer, x)), pos)
}

/// The residual stream behind attention over `rows`.
pub open spec fn attended<V>(
    a: Arithmetic<V>,
    m: ModelPlan,
    adapter: Option<usize>,
    layer: usize,
    pos: usize,
    x: V,
    rows: Seq<(V, V)>,
) -> V {
    let y = (a.attend)(layer, query_of(a, m, adapter, layer, pos, x), rows);
    let o = linear(a, m, adapter, layer, Matrix::AttnOutput, y);
    (a.plus)(
        x,
        if m.layers@[layer as int].post_attn_norm {
            (a.post_attn_norm)(layer, o)
        } else {
            o
        },
    )
}

/// The residual stream behind the feed-forward block.
pub open spec fn fed_forward<V>(
    a: Arithmetic<V>,
    m: ModelPlan,
    adapter: Option<usize>,
    layer: usize,
    x: V,
) -> V {
    let h = (a.ffn_norm)(layer, x);
    let f = (a.activate)(
        linear(a, m, adapter, layer, Matrix::FfnGate, h),
        linear(a, m, adapter, layer, Matrix::FfnUp, h),
    );
    let d = linear(a, m, adapter, layer, Matrix::FfnDown, f);
    (a.plus)(
        x,
        if m.layers@[layer as int].post_ffn_norm {
            (a.post_ffn_norm)(layer, d)
        } else {
            d
        },
    )
}

/// One layer.
pub open spec fn block<V>(
    a: Arithmetic<V>,
    m: ModelPlan,
    adapter: Option<usize>,
    layer: usize,
    pos: usize,
    x: V,
    rows: Seq<(V, V)>,
) -> V {
    fed_forward(a, m, adapter, layer, attended(a, m, adapter, layer, pos, x, rows))
}

/// The logits of a position whose residual stream behind all layers is `x`.
pub open spec fn logits_of<V>(a: Arithmetic<V>, m: ModelPlan, x: V) -> V {
    let y = (a.lm_head)((a.final_norm)(x));
    if m.config.final_softcap {
        (a.softcap)(y)
    } else {
        y
    }
}

/// The query at `pos` sees position `p` in `layer`: it is not in the future, and a layer
/// with a sliding window reaches back that many positions, its own included. Where windows
/// alternate, only every other layer has one, the first among them.
pub open spec fn sees(cfg: ModelConfig, layer: nat, pos: int, p: int) -> bool {
    &&& 0 <= p <= pos
    &&& cfg.sliding_window matches Some(w) ==> pos - p < w || (cfg.sliding_window_alternating
        && layer % 2 == 1)
}

/// How many positions the query at `pos` sees in `layer`: its own and those before it.
pub open spec fn reach(cfg: ModelConfig, layer: nat, pos: int) -> nat {
    match cfg.sliding_window {
        Some(w) => if w < pos + 1 && !(cfg.sliding_window_alternating && layer % 2 == 1) {
            w as nat
        } else {
            (pos + 1) as nat
        },
        None => (pos + 1) as nat,
    }
}

/// The positions that attention is told to look at are exactly those that the query sees.
pub proof fn law_attention_looks_at_what_is_seen(cfg: ModelConfig, layer: nat, pos: usize, p: int)
    requires
        pos < usize::MAX,
    ensures
        ({
            let w = attend_window(cfg, layer, pos);
            &&& (w.start <= p < w.start + w.len) <==> sees(cfg, layer, pos as int, p)
            &&& w.len == reach(cfg, layer, pos as int)
            &&& w.start + w.len == pos + 1
        }),
{
}

// ── One lane ─────────────────────────────────────────────────────────────────

proof fn lemma_run_concat<S, R>(k: Kernels<S, R>, a: Seq<Op>, b: Seq<Op>, s: S, c: Rows<R>)
    ensures
        run_lane(k, a + b, s, c) == run_lane(
            k,
            b,
            run_lane(k, a, s, c).0,
            run_lane(k, a, s, c).1,
        ),
    decreases b.len(),
{
    if b.len() == 0 {
        assert(a + b =~= a);
    } else {
        lemma_run_concat(k, a, b.drop_last(), s, c);
        assert((a + b).drop_last() =~= a + b.drop_last());
        assert((a + b).last() == b.last());
    }
}

proof fn lemma_run_one<S, R>(k: Kernels<S, R>, op: Op, s: S, c: Rows<R>)
    ensures
        run_lane(k, seq![op], s, c) == lane_step(k, op, s, c),
{
    let ops = seq![op];
    assert(ops.drop_last() =~= Seq::empty());
    assert(run_lane(k, ops.drop_last(), s, c) == (s, c));
}

/// One more operation, if it is there.
proof fn lemma_run_then<S, R>(k: Kernels<S, R>, a: Seq<Op>, b: bool, op: Op, s: S, c: Rows<R>)
    ensures
        ({
            let (s1, c1) = run_lane(k, a, s, c);
            run_lane(k, a + opt(b, op), s, c) == if b {
                lane_step(k, op, s1, c1)
            } else {
                (s1, c1)
            }
        }),
{
    lemma_run_concat(k, a, opt(b, op), s, c);
    let (s1, c1) = run_lane(k, a, s, c);
    if b {
        lemma_run_one(k, op, s1, c1);
    }
}

proof fn lemma_run_four<S, R>(
    k: Kernels<S, R>,
    o1: Op,
    o2: Op,
    o3: Op,
    o4: Op,
    s: S,
    c: Rows<R>,
)
    ensures
        ({
            let (s1, c1) = lane_step(k, o1, s, c);
            let (s2, c2) = lane_step(k, o2, s1, c1);
            let (s3, c3) = lane_step(k, o3, s2, c2);
            &&& run_lane(k, seq![o1, o2], s, c) == (s2, c2)
            &&& run_lane(k, seq![o1, o2, o3], s, c) == (s3, c3)
            &&& run_lane(k, seq![o1, o2, o3, o4], s, c) == lane_step(k, o4, s3, c3)
        }),
{
    lemma_run_one(k, o1, s, c);
    let two = seq![o1, o2];
    let three = seq![o1, o2, o3];
    let four = seq![o1, o2, o3, o4];
    assert(two.drop_last() =~= seq![o1] && two.last() == o2);
    assert(three.drop_last() =~= two && three.last() == o3);
    assert(four.drop_last() =~= three && four.last() == o4);
    let (s1, c1) = lane_step(k, o1, s, c);
    let (s2, c2) = lane_step(k, o2, s1, c1);
    let (s3, c3) = lane_step(k, o3, s2, c2);
    assert(run_lane(k, two, s, c) == (s2, c2));
    assert(run_lane(k, three, s, c) == (s3, c3));
    assert(run_lane(k, four, s, c) == lane_step(k, o4, s3, c3));
}

/// What the pieces before attention leave: the query, and the key and value to publish.
proof fn lemma_inputs<V>(
    a: Arithmetic<V>,
    m: ModelPlan,
    lane: Lane,
    layer: usize,
    r: Registers<V>,
    c: Rows<(V, V)>,
)
    requires
        layer < m.layers@.len(),
    ensures
        ({
            let k = kernels_of(a, chosen(m, lane.lora));
            let ad = chosen(m, lane.lora);
            let (s, c1) = run_lane(k, range_ops(m, lane, layer, 0, 3), r, c);
            &&& c1 == c
            &&& s.x == r.x
            &&& s.q == query_of(a, m, ad, layer, lane.pos, r.x)
            &&& (s.k, s.v) == row_of(a, m, ad, layer, lane.pos, r.x)
        }),
{
    let ad = chosen(m, lane.lora);
    let k = kernels_of(a, ad);
    let sw = m.layers@[layer as int];
    let l = effective_lora(m, lane, layer as int);
    reveal_with_fuel(range_ops, 4);
    let p0 = piece_ops(m, lane, layer, 0);
    let p1 = piece_ops(m, lane, layer, 1);
    let p2 = piece_ops(m, lane, layer, 2);
    assert(range_ops(m, lane, layer, 0, 3) =~= p0 + p1 + p2);
    lemma_run_concat(k, p0 + p1, p2, r, c);
    lemma_run_concat(k, p0, p1, r, c);
    // Projections and biases.
    let four = seq![
        Op::AttnNorm { layer },
        Op::Project { layer, matrix: Matrix::AttnQ },
        Op::Project { layer, matrix: Matrix::AttnK },
        Op::Project { layer, matrix: Matrix::AttnV },
    ];
    lemma_run_four(k, four[0], four[1], four[2], four[3], r, c);
    let bq = Op::Bias { layer, matrix: Matrix::AttnQ };
    let bk = Op::Bias { layer, matrix: Matrix::AttnK };
    let bv = Op::Bias { layer, matrix: Matrix::AttnV };
    lemma_run_then(k, four, sw.q_bias, bq, r, c);
    lemma_run_then(k, four + opt(sw.q_bias, bq), sw.k_bias, bk, r, c);
    lemma_run_then(k, four + opt(sw.q_bias, bq) + opt(sw.k_bias, bk), sw.v_bias, bv, r, c);
    let (s0, c0) = run_lane(k, p0, r, c);
    // Updates.
    let uq = Op::Lora { layer, matrix: Matrix::AttnQ };
    let uk = Op::Lora { layer, matrix: Matrix::AttnK };
    let uv = Op::Lora { layer, matrix: Matrix::AttnV };
    let none = Seq::<Op>::empty();
    assert(none + opt(l.attn_q, uq) =~= opt(l.attn_q, uq));
    lemma_run_then(k, none, l.attn_q, uq, s0, c0);
    lemma_run_then(k, opt(l.attn_q, uq), l.attn_k, uk, s0, c0);
    lemma_run_then(k, opt(l.attn_q, uq) + opt(l.attn_k, uk), l.attn_v, uv, s0, c0);
    let (s1, c1) = run_lane(k, p1, s0, c0);
    // Rotations.
    let rq = Op::Rope { matrix: Matrix::AttnQ, pos: lane.pos };
    let rk = Op::Rope { matrix: Matrix::AttnK, pos: lane.pos };
    lemma_run_four(k, rq, rk, rk, rk, s1, c1);
    assert(p2 =~= seq![rq, rk]);
}

/// The rows that the query at `pos` sees, its own being `own`.
pub open spec fn visible<V>(
    m: ModelPlan,
    cache: Rows<(V, V)>,
    layer: usize,
    pos: usize,
    own: (V, V),
) -> Seq<(V, V)> {
    let n = reach(m.config, layer as nat, pos as int);
    Seq::new(
        n,
        |i: int|
            if i == n - 1 {
                own
            } else {
                cache[(layer, pos + 1 - n + i)]
            },
    )
}

proof fn lemma_layer<V>(
    a: Arithmetic<V>,
    m: ModelPlan,
    lane: Lane,
    layer: usize,
    r: Registers<V>,
    c: Rows<(V, V)>,
)
    requires
        layer < m.layers@.len(),
        lane.pos < usize::MAX,
    ensures
        ({
            let ad = chosen(m, lane.lora);
            let own = row_of(a, m, ad, layer, lane.pos, r.x);
            let (s, c1) = run_lane(
                kernels_of(a, ad),
                range_ops(m, lane, layer, 0, PIECES as int),
                r,
                c,
            );
            &&& c1 == c.insert((layer, lane.pos as int), own)
            &&& s.x == block(
                a,
                m,
                ad,
                layer,
                lane.pos,
                r.x,
                visible(m, c, layer, lane.pos, own),
            )
        }),
{
    let ad = chosen(m, lane.lora);
    let k = kernels_of(a, ad);
    let sw = m.layers@[layer as int];
    let l = effective_lora(m, lane, layer as int);
    let own = row_of(a, m, ad, layer, lane.pos, r.x);
    lemma_inputs(a, m, lane, layer, r, c);
    let (s2, c2) = run_lane(k, range_ops(m, lane, layer, 0, 3), r, c);
    lemma_pieces(a, m, lane, layer, r, c);
    // Publish and attend.
    let write = Op::WriteKv { layer, pos: lane.pos };
    let window = attend_window(m.config, layer as nat, lane.pos);
    let attend = Op::Attend { layer, window };
    lemma_run_one(k, write, s2, c2);
    let (s3, c3) = lane_step(k, write, s2, c2);
    lemma_run_one(k, attend, s3, c3);
    law_attention_looks_at_what_is_seen(m.config, layer as nat, lane.pos, 0);
    assert(in_window(c3, layer, window.start as int, window.len as nat) =~= visible(
        m,
        c,
        layer,
        lane.pos,
        own,
    ));
    let (s4, c4) = lane_step(k, attend, s3, c3);
    // Project the output.
    let po = Op::Project { layer, matrix: Matrix::AttnOutput };
    lemma_run_one(k, po, s4, c4);
    let (s5, c5) = lane_step(k, po, s4, c4);
    let none = Seq::<Op>::empty();
    let uo = Op::Lora { layer, matrix: Matrix::AttnOutput };
    assert(none + opt(l.attn_output, uo) =~= opt(l.attn_output, uo));
    lemma_run_then(k, none, l.attn_output, uo, s5, c5);
    let (s6, c6) = run_lane(k, piece_ops(m, lane, layer, 6), s5, c5);
    let pn = Op::PostAttnNorm { layer };
    assert(none + opt(sw.post_attn_norm, pn) =~= opt(sw.post_attn_norm, pn));
    lemma_run_then(k, none, sw.post_attn_norm, pn, s6, c6);
    lemma_run_then(k, opt(sw.post_attn_norm, pn), true, Op::AddAttn, s6, c6);
    assert(opt(sw.post_attn_norm, pn) + opt(true, Op::AddAttn) =~= piece_ops(m, lane, layer, 7));
    let (s7, c7) = run_lane(k, piece_ops(m, lane, layer, 7), s6, c6);
    assert(s7.x == attended(
        a,
        m,
        ad,
        layer,
        lane.pos,
        r.x,
        visible(m, c, layer, lane.pos, own),
    ));
    // Feed forward.
    let nf = Op::FfnNorm { layer };
    let pg = Op::Project { layer, matrix: Matrix::FfnGate };
    let pu = Op::Project { layer, matrix: Matrix::FfnUp };
    lemma_run_four(k, nf, pg, pu, pu, s7, c7);
    let (s8, c8) = run_lane(k, piece_ops(m, lane, layer, 8), s7, c7);
    let ug = Op::Lora { layer, matrix: Matrix::FfnGate };
    let uu = Op::Lora { layer, matrix: Matrix::FfnUp };
    assert(none + opt(l.ffn_gate, ug) =~= opt(l.ffn_gate, ug));
    lemma_run_then(k, none, l.ffn_gate, ug, s8, c8);
    lemma_run_then(k, opt(l.ffn_gate, ug), l.ffn_up, uu, s8, c8);
    let (s9, c9) = run_lane(k, piece_ops(m, lane, layer, 9), s8, c8);
    let pd = Op::Project { layer, matrix: Matrix::FfnDown };
    lemma_run_four(k, Op::Activate, pd, pd, pd, s9, c9);
    let (s10, c10) = run_lane(k, piece_ops(m, lane, layer, 10), s9, c9);
    let ud = Op::Lora { layer, matrix: Matrix::FfnDown };
    assert(none + opt(l.ffn_down, ud) =~= opt(l.ffn_down, ud));
    lemma_run_then(k, none, l.ffn_down, ud, s10, c10);
    let (s11, c11) = run_lane(k, piece_ops(m, lane, layer, 11), s10, c10);
    let qn = Op::PostFfnNorm { layer };
    assert(none + opt(sw.post_ffn_norm, qn) =~= opt(sw.post_ffn_norm, qn));
    lemma_run_then(k, none, sw.post_ffn_norm, qn, s11, c11);
    lemma_run_then(k, opt(sw.post_ffn_norm, qn), true, Op::AddFfn, s11, c11);
    assert(opt(sw.post_ffn_norm, qn) + opt(true, Op::AddFfn) =~= piece_ops(m, lane, layer, 12));
}

/// A layer is its pieces one after the other.
proof fn lemma_pieces<V>(
    a: Arithmetic<V>,
    m: ModelPlan,
    lane: Lane,
    layer: usize,
    r: Registers<V>,
    c: Rows<(V, V)>,
)
    ensures
        ({
            let k = kernels_of(a, chosen(m, lane.lora));
            let (s2, c2) = run_lane(k, range_ops(m, lane, layer, 0, 3), r, c);
            let (s3, c3) = run_lane(k, piece_ops(m, lane, layer, 3), s2, c2);
            let (s4, c4) = run_lane(k, piece_ops(m, lane, layer, 4), s3, c3);
            let (s5, c5) = run_lane(k, piece_ops(m, lane, layer, 5), s4, c4);
            let (s6, c6) = run_lane(k, piece_ops(m, lane, layer, 6), s5, c5);
            let (s7, c7) = run_lane(k, piece_ops(m, lane, layer, 7), s6, c6);
            let (s8, c8) = run_lane(k, piece_ops(m, lane, layer, 8), s7, c7);
            let (s9, c9) = run_lane(k, piece_ops(m, lane, layer, 9), s8, c8);
            let (s10, c10) = run_lane(k, piece_ops(m, lane, layer, 10), s9, c9);
            let (s11, c11) = run_lane(k, piece_ops(m, lane, layer, 11), s10, c10);
            run_lane(k, range_ops(m, lane, layer, 0, PIECES as int), r, c) == run_lane(
                k,
                piece_ops(m, lane, layer, 12),
                s11,
                c11,
            )
        }),
{
    let k = kernels_of(a, chosen(m, lane.lora));
    lemma_next_piece(k, m, lane, layer, 4, r, c);
    lemma_next_piece(k, m, lane, layer, 5, r, c);
    lemma_next_piece(k, m, lane, layer, 6, r, c);
    lemma_next_piece(k, m, lane, layer, 7, r, c);
    lemma_next_piece(k, m, lane, layer, 8, r, c);
    lemma_next_piece(k, m, lane, layer, 9, r, c);
    lemma_next_piece(k, m, lane, layer, 10, r, c);
    lemma_next_piece(k, m, lane, layer, 11, r, c);
    lemma_next_piece(k, m, lane, layer, 12, r, c);
    lemma_next_piece(k, m, lane, layer, 13, r, c);
}

proof fn lemma_next_piece<S, R>(
    k: Kernels<S, R>,
    m: ModelPlan,
    lane: Lane,
    layer: usize,
    b: int,
    s: S,
    c: Rows<R>,
)
    requires
        b > 0,
    ensures
        ({
            let (s1, c1) = run_lane(k, range_ops(m, lane, layer, 0, b - 1), s, c);
            run_lane(k, range_ops(m, lane, layer, 0, b), s, c) == run_lane(
                k,
                piece_ops(m, lane, layer, b - 1),
                s1,
                c1,
            )
        }),
{
    lemma_run_concat(
        k,
        range_ops(m, lane, layer, 0, b - 1),
        piece_ops(m, lane, layer, b - 1),
        s,
        c,
    );
}

/// The residual stream of a token behind `l` layers, decoded behind what is cached.
pub open spec fn stream<V>(
    a: Arithmetic<V>,
    m: ModelPlan,
    lane: Lane,
    cache: Rows<(V, V)>,
    l: nat,
) -> V
    decreases l,
{
    if l == 0 {
        (a.embed)(lane.token)
    } else {
        let layer = (l - 1) as usize;
        let ad = chosen(m, lane.lora);
        let x = stream(a, m, lane, cache, (l - 1) as nat);
        let own = row_of(a, m, ad, layer, lane.pos, x);
        block(a, m, ad, layer, lane.pos, x, visible(m, cache, layer, lane.pos, own))
    }
}

/// What a decoded token leaves in the cache: its own row in every layer.
pub open spec fn leaves_rows<V>(
    a: Arithmetic<V>,
    m: ModelPlan,
    lane: Lane,
    before: Rows<(V, V)>,
    after: Rows<(V, V)>,
    l: nat,
) -> bool {
    &&& forall|layer: usize, p: int|
        !(layer < l && p == lane.pos) ==> #[trigger] after.dom().contains((layer, p))
            == before.dom().contains((layer, p)) && after[(layer, p)] == before[(layer, p)]
    &&& forall|layer: usize|
        layer < l ==> #[trigger] after.dom().contains((layer, lane.pos as int)) && after[(
            layer,
            lane.pos as int,
        )] == row_of(
            a,
            m,
            chosen(m, lane.lora),
            layer,
            lane.pos,
            stream(a, m, lane, before, layer as nat),
        )
}

proof fn lemma_layers_run<V>(
    a: Arithmetic<V>,
    m: ModelPlan,
    lane: Lane,
    r: Registers<V>,
    c: Rows<(V, V)>,
    l: nat,
)
    requires
        l <= m.layers@.len(),
        lane.pos < usize::MAX,
        r.x == (a.embed)(lane.token),
    ensures
        ({
            let (s, c1) = run_lane(
                kernels_of(a, chosen(m, lane.lora)),
                layers_ops(m, lane, l),
                r,
                c,
            );
            &&& s.x == stream(a, m, lane, c, l)
            &&& leaves_rows(a, m, lane, c, c1, l)
        }),
    decreases l,
{
    let k = kernels_of(a, chosen(m, lane.lora));
    assert(m.layers.len() <= usize::MAX);
    if l > 0 {
        let before = (l - 1) as nat;
        let layer = before as usize;
        lemma_layers_run(a, m, lane, r, c, before);
        let (s0, c0) = run_lane(k, layers_ops(m, lane, before), r, c);
        lemma_run_concat(
            k,
            layers_ops(m, lane, before),
            range_ops(m, lane, layer, 0, PIECES as int),
            r,
            c,
        );
        lemma_layer(a, m, lane, layer, s0, c0);
        let own = row_of(a, m, chosen(m, lane.lora), layer, lane.pos, s0.x);
        let n = reach(m.config, layer as nat, lane.pos as int);
        let (was, is) = (
            visible(m, c, layer, lane.pos, own),
            visible(m, c0, layer, lane.pos, own),
        );
        assert forall|i: int| 0 <= i < n implies was[i] == is[i] by {
            let p = lane.pos + 1 - n + i;
            assert(c0.dom().contains((layer, p)) == c.dom().contains((layer, p)));
        }
        assert(was =~= is);
        let c1 = c0.insert((layer, lane.pos as int), own);
        assert forall|y: usize, p: int| !(y < l && p == lane.pos) implies #[trigger] c1.dom().contains(
            (y, p),
        ) == c.dom().contains((y, p)) && c1[(y, p)] == c[(y, p)] by {
            assert(c0.dom().contains((y, p)) == c.dom().contains((y, p)));
        }
        assert forall|y: usize| y < l implies #[trigger] c1.dom().contains((y, lane.pos as int))
            && c1[(y, lane.pos as int)] == row_of(
            a,
            m,
            chosen(m, lane.lora),
            y,
            lane.pos,
            stream(a, m, lane, c, y as nat),
        ) by {
            if y < before {
                assert(c0.dom().contains((y, lane.pos as int)));
            }
        }
        assert(leaves_rows(a, m, lane, c, c1, l));
    }
}

/// Decoding a token computes the transformer: behind every layer the residual stream is
/// what the formulas make of the token and the rows it sees, the logits are those of the
/// last one, and what is cached in every layer is the position's own key, rotated to it,
/// and value.
pub proof fn law_decoding_computes_the_transformer<V>(
    a: Arithmetic<V>,
    m: ModelPlan,
    lane: Lane,
    r: Registers<V>,
    cache: Rows<(V, V)>,
)
    requires
        lane.pos < usize::MAX,
    ensures
        ({
            let (s, c) = run_lane(
                kernels_of(a, chosen(m, lane.lora)),
                decode_ops(m, lane),
                r,
                cache,
            );
            let x = stream(a, m, lane, cache, m.layers@.len());
            &&& s.x == x
            &&& s.logits == logits_of(a, m, x)
            &&& leaves_rows(a, m, lane, cache, c, m.layers@.len())
        }),
{
    let k = kernels_of(a, chosen(m, lane.lora));
    let n = m.layers@.len();
    let embed = seq![Op::Embed { token: lane.token }];
    let body = embed + layers_ops(m, lane, n);
    lemma_run_one(k, Op::Embed { token: lane.token }, r, cache);
    let (s0, c0) = run_lane(k, embed, r, cache);
    lemma_run_concat(k, embed, layers_ops(m, lane, n), r, cache);
    lemma_layers_run(a, m, lane, s0, c0, n);
    lemma_run_concat(k, body, seq![Op::Advance], r, cache);
    let (s1, c1) = run_lane(k, body, r, cache);
    lemma_run_one(k, Op::Advance, s1, c1);
    lemma_run_concat(k, body + seq![Op::Advance], head_ops(m), r, cache);
    lemma_head_run(a, m, chosen(m, lane.lora), s1, c1);
}

proof fn lemma_head_run<V>(
    a: Arithmetic<V>,
    m: ModelPlan,
    adapter: Option<usize>,
    s: Registers<V>,
    c: Rows<(V, V)>,
)
    ensures
        ({
            let (s1, c1) = run_lane(kernels_of(a, adapter), head_ops(m), s, c);
            &&& s1.x == s.x
            &&& s1.logits == logits_of(a, m, s.x)
            &&& c1 == c
        }),
{
    let k = kernels_of(a, adapter);
    lemma_run_four(k, Op::FinalNorm, Op::LmHead, Op::LmHead, Op::LmHead, s, c);
    lemma_run_then(
        k,
        seq![Op::FinalNorm, Op::LmHead],
        m.config.final_softcap,
        Op::Softcap,
        s,
        c,
    );
}

// ── A whole text ─────────────────────────────────────────────────────────────

/// How many positions the query at `p` sees: those in the window, or all up to its own
/// where windows are not minded.
pub open spec fn span(m: ModelPlan, windows: bool, layer: nat, p: int) -> nat {
    if windows {
        reach(m.config, layer, p)
    } else {
        (p + 1) as nat
    }
}

/// The hidden state of position `p` of a text behind `l` layers: the token's embedding, and
/// then layer by layer what it gets from the positions that it sees.
pub open spec fn hidden<V>(
    a: Arithmetic<V>,
    m: ModelPlan,
    adapter: Option<usize>,
    windows: bool,
    tokens: Seq<u32>,
    l: nat,
    p: int,
) -> V
    decreases l, 0int,
{
    if l == 0 {
        (a.embed)(tokens[p])
    } else {
        block(
            a,
            m,
            adapter,
            (l - 1) as usize,
            p as usize,
            hidden(a, m, adapter, windows, tokens, (l - 1) as nat, p),
            rows_seen(a, m, adapter, windows, tokens, (l - 1) as nat, p),
        )
    }
}

/// The keys and values that position `p` of a text sees in `layer`, its own last.
pub open spec fn rows_seen<V>(
    a: Arithmetic<V>,
    m: ModelPlan,
    adapter: Option<usize>,
    windows: bool,
    tokens: Seq<u32>,
    layer: nat,
    p: int,
) -> Seq<(V, V)>
    decreases layer, 1int,
{
    let n = span(m, windows, layer, p);
    Seq::new(
        n,
        |i: int|
            {
                let q = p + 1 - n + i;
                row_of(
                    a,
                    m,
                    adapter,
                    layer as usize,
                    q as usize,
                    hidden(a, m, adapter, windows, tokens, layer, q),
                )
            },
    )
}

/// The first `n` positions of a text are cached: every layer holds their rows.
pub open spec fn caches_text<V>(
    a: Arithmetic<V>,
    m: ModelPlan,
    adapter: Option<usize>,
    tokens: Seq<u32>,
    n: nat,
    cache: Rows<(V, V)>,
) -> bool {
    forall|layer: usize, q: int|
        layer < m.layers@.len() && 0 <= q < n ==> #[trigger] cache.dom().contains((layer, q))
            && cache[(layer, q)] == row_of(
            a,
            m,
            adapter,
            layer,
            q as usize,
            hidden(a, m, adapter, true, tokens, layer as nat, q),
        )
}

proof fn lemma_stream_is_hidden<V>(
    a: Arithmetic<V>,
    m: ModelPlan,
    lora: Option<usize>,
    tokens: Seq<u32>,
    p: int,
    cache: Rows<(V, V)>,
    l: nat,
)
    requires
        0 <= p < tokens.len() <= usize::MAX,
        l <= m.layers@.len(),
        caches_text(a, m, chosen(m, lora), tokens, p as nat, cache),
    ensures
        stream(a, m, prompt_lane(tokens, 0, lora, p), cache, l) == hidden(
            a,
            m,
            chosen(m, lora),
            true,
            tokens,
            l,
            p,
        ),
    decreases l,
{
    if l > 0 {
        let ad = chosen(m, lora);
        let lane = prompt_lane(tokens, 0, lora, p);
        let before = (l - 1) as nat;
        let layer = before as usize;
        assert(m.layers.len() <= usize::MAX);
        lemma_stream_is_hidden(a, m, lora, tokens, p, cache, before);
        let x = stream(a, m, lane, cache, before);
        let own = row_of(a, m, ad, layer, lane.pos, x);
        let n = reach(m.config, layer as nat, p);
        let rows = rows_seen(a, m, ad, true, tokens, before, p);
        let seen = visible(m, cache, layer, lane.pos, own);
        assert forall|i: int| 0 <= i < n implies seen[i] == rows[i] by {
            let q = p + 1 - n + i;
            if i < n - 1 {
                assert(cache.dom().contains((layer, q)));
            }
        }
        assert(seen =~= rows);
    }
}

/// A text that is decoded token by token computes the transformer: behind every position
/// are its hidden state and logits, and the cache holds every position's rows.
pub proof fn law_a_text_computes_the_transformer<V>(
    a: Arithmetic<V>,
    m: ModelPlan,
    lora: Option<usize>,
    tokens: Seq<u32>,
    n: nat,
    blank: Registers<V>,
)
    requires
        n <= tokens.len() < usize::MAX,
    ensures
        ({
            let ad = chosen(m, lora);
            let (done, cache) = one_by_one(
                kernels_of(a, ad),
                m,
                Prompt { tokens, base: 0, lora },
                n,
                blank,
                Map::empty(),
            );
            &&& done.len() == n
            &&& forall|i: int|
                0 <= i < n ==> {
                    let x = hidden(a, m, ad, true, tokens, m.layers@.len(), i);
                    (#[trigger] done[i]).x == x && done[i].logits == logits_of(a, m, x)
                }
            &&& caches_text(a, m, ad, tokens, n, cache)
        }),
    decreases n,
{
    if n > 0 {
        let ad = chosen(m, lora);
        let k = kernels_of(a, ad);
        let prompt = Prompt { tokens, base: 0, lora };
        let i = n - 1;
        law_a_text_computes_the_transformer(a, m, lora, tokens, i as nat, blank);
        let (done, c) = one_by_one(k, m, prompt, i as nat, blank, Map::empty());
        let lane = prompt_lane(tokens, 0, lora, i);
        law_decoding_computes_the_transformer(a, m, lane, blank, c);
        lemma_stream_is_hidden(a, m, lora, tokens, i, c, m.layers@.len());
        let (s, c1) = run_lane(k, decode_ops(m, lane), blank, c);
        assert(one_by_one(k, m, prompt, n, blank, Map::empty()) == (done.push(s), c1));
        assert forall|j: int| 0 <= j < n implies {
            let x = hidden(a, m, ad, true, tokens, m.layers@.len(), j);
            (#[trigger] done.push(s)[j]).x == x && done.push(s)[j].logits == logits_of(a, m, x)
        } by {
            if j < i {
                assert(done.push(s)[j] == done[j]);
            }
        }
        assert(m.layers.len() <= usize::MAX);
        assert forall|layer: usize, q: int| layer < m.layers@.len() && 0 <= q < n implies
            #[trigger] c1.dom().contains((layer, q)) && c1[(layer, q)] == row_of(
            a,
            m,
            ad,
            layer,
            q as usize,
            hidden(a, m, ad, true, tokens, layer as nat, q),
        ) by {
            if q < i {
                assert(c.dom().contains((layer, q)));
                assert(c1.dom().contains((layer, q)) == c.dom().contains((layer, q)));
            } else {
                lemma_stream_is_hidden(a, m, lora, tokens, i, c, layer as nat);
                assert(c1.dom().contains((layer, lane.pos as int)));
            }
        }
    }
}

/// A prompt that is computed at once computes the transformer.
pub proof fn law_a_prompt_computes_the_transformer<V>(
    a: Arithmetic<V>,
    m: ModelPlan,
    lora: Option<usize>,
    tokens: Seq<u32>,
    steps: Seq<Step>,
    blank: Registers<V>,
)
    requires
        tokens.len() < usize::MAX,
        in_lanes(steps, tokens.len()),
        writes_precede_reads(steps, 0),
        forall|i: int|
            0 <= i < tokens.len() ==> #[trigger] lane_view(steps, i) == decode_ops(
                m,
                prompt_lane(tokens, 0, lora, i),
            ),
    ensures
        ({
            let ad = chosen(m, lora);
            let (lanes, cache) = run_together(
                kernels_of(a, ad),
                steps,
                Seq::new(tokens.len(), |i: int| blank),
                Map::empty(),
            );
            &&& lanes.len() == tokens.len()
            &&& forall|i: int|
                0 <= i < tokens.len() ==> {
                    let x = hidden(a, m, ad, true, tokens, m.layers@.len(), i);
                    (#[trigger] lanes[i]).x == x && lanes[i].logits == logits_of(a, m, x)
                }
            &&& caches_text(a, m, ad, tokens, tokens.len(), cache)
        }),
{
    let p = Prompt { tokens, base: 0, lora };
    law_prompt_at_once_is_one_by_one(
        kernels_of(a, chosen(m, lora)),
        m,
        p,
        steps,
        blank,
        Map::empty(),
    );
    law_a_text_computes_the_transformer(a, m, lora, tokens, tokens.len(), blank);
}

// ── Without a cache ──────────────────────────────────────────────────────────

/// What a schedule without a cache computes: attention reads the keys and values that the
/// lanes have at hand, and what is pooled is kept with the number that it is divided by.
pub open spec fn run_fresh<V>(
    a: Arithmetic<V>,
    steps: Seq<Step>,
    lanes: Seq<Registers<V>>,
    pooled: Seq<(V, usize)>,
) -> (Seq<Registers<V>>, Seq<(V, usize)>)
    decreases steps.len(),
{
    if steps.len() == 0 {
        (lanes, pooled)
    } else {
        let (now, sum) = run_fresh(a, steps.drop_last(), lanes, pooled);
        match steps.last() {
            Step::All { .. } => (now, sum),
            Step::One { lane, op } => fresh_step(a, lane as int, op, now, sum),
        }
    }
}

pub open spec fn fresh_step<V>(
    a: Arithmetic<V>,
    lane: int,
    op: Op,
    now: Seq<Registers<V>>,
    sum: Seq<(V, usize)>,
) -> (Seq<Registers<V>>, Seq<(V, usize)>) {
    let r = now[lane];
    match op {
        Op::AttendFresh { layer, len } => {
            let rows = Seq::new(len as nat, |p: int| (now[p].k, now[p].v));
            (now.update(lane, Registers { attn: (a.attend)(layer, r.q, rows), ..r }), sum)
        },
        Op::Pool { count } => (now, sum.push((r.normed, count))),
        _ => (now.update(lane, computed(a, None, op, r)), sum),
    }
}

proof fn lemma_fresh_concat<V>(
    a: Arithmetic<V>,
    s: Seq<Step>,
    t: Seq<Step>,
    lanes: Seq<Registers<V>>,
    pooled: Seq<(V, usize)>,
)
    ensures
        run_fresh(a, s + t, lanes, pooled) == run_fresh(
            a,
            t,
            run_fresh(a, s, lanes, pooled).0,
            run_fresh(a, s, lanes, pooled).1,
        ),
    decreases t.len(),
{
    if t.len() == 0 {
        assert(s + t =~= s);
    } else {
        lemma_fresh_concat(a, s, t.drop_last(), lanes, pooled);
        assert((s + t).drop_last() =~= s + t.drop_last());
        assert((s + t).last() == t.last());
    }
}

spec fn private(op: Op) -> bool {
    !(op is AttendFresh || op is Pool || op is Attend || op is WriteKv)
}

/// Operations that concern a lane alone do to it what they do anywhere.
proof fn lemma_fresh_private<V>(
    a: Arithmetic<V>,
    lane: usize,
    ops: Seq<Op>,
    lanes: Seq<Registers<V>>,
    pooled: Seq<(V, usize)>,
)
    requires
        lane < lanes.len(),
        forall|i: int| 0 <= i < ops.len() ==> private(#[trigger] ops[i]),
    ensures
        run_fresh(a, for_one(lane, ops), lanes, pooled) == (
            lanes.update(
                lane as int,
                run_lane(kernels_of(a, None), ops, lanes[lane as int], Map::empty()).0,
            ),
            pooled,
        ),
    decreases ops.len(),
{
    let steps = for_one(lane, ops);
    if ops.len() == 0 {
        assert(lanes.update(lane as int, lanes[lane as int]) =~= lanes);
    } else {
        let front = ops.drop_last();
        lemma_fresh_private(a, lane, front, lanes, pooled);
        assert(steps.drop_last() =~= for_one(lane, front));
        assert(steps.last() == Step::One { lane, op: ops.last() });
        assert(private(ops[ops.len() - 1]));
        let r = run_lane(kernels_of(a, None), front, lanes[lane as int], Map::empty()).0;
        assert(lanes.update(lane as int, r).update(
            lane as int,
            computed(a, None, ops.last(), r),
        ) =~= lanes.update(lane as int, computed(a, None, ops.last(), r)));
    }
}

proof fn lemma_fresh_inputs<V>(
    a: Arithmetic<V>,
    m: ModelPlan,
    layer: usize,
    pos: usize,
    r: Registers<V>,
) -> (ops: Seq<Op>)
    requires
        layer < m.layers@.len(),
    ensures
        forall|i: int| 0 <= i < ops.len() ==> private(#[trigger] ops[i]),
        fresh_attention(m, layer, pos) == ops + seq![
            Op::AttendFresh { layer, len: (pos + 1) as usize },
        ] + seq![Op::Project { layer, matrix: Matrix::AttnOutput }],
        ({
            let s = run_lane(kernels_of(a, None), ops, r, Map::empty()).0;
            &&& s.x == r.x
            &&& s.q == query_of(a, m, None, layer, pos, r.x)
            &&& (s.k, s.v) == row_of(a, m, None, layer, pos, r.x)
        }),
{
    let k = kernels_of(a, None);
    let c = Map::<(usize, int), (V, V)>::empty();
    let sw = m.layers@[layer as int];
    let four = seq![
        Op::AttnNorm { layer },
        Op::Project { layer, matrix: Matrix::AttnQ },
        Op::Project { layer, matrix: Matrix::AttnK },
        Op::Project { layer, matrix: Matrix::AttnV },
    ];
    let bq = Op::Bias { layer, matrix: Matrix::AttnQ };
    let bk = Op::Bias { layer, matrix: Matrix::AttnK };
    let bv = Op::Bias { layer, matrix: Matrix::AttnV };
    let rq = Op::Rope { matrix: Matrix::AttnQ, pos };
    let rk = Op::Rope { matrix: Matrix::AttnK, pos };
    let front = four + opt(sw.q_bias, bq) + opt(sw.k_bias, bk) + opt(sw.v_bias, bv);
    let ops = front + seq![rq, rk];
    lemma_run_four(k, four[0], four[1], four[2], four[3], r, c);
    lemma_run_then(k, four, sw.q_bias, bq, r, c);
    lemma_run_then(k, four + opt(sw.q_bias, bq), sw.k_bias, bk, r, c);
    lemma_run_then(k, four + opt(sw.q_bias, bq) + opt(sw.k_bias, bk), sw.v_bias, bv, r, c);
    let (s, c1) = run_lane(k, front, r, c);
    lemma_run_concat(k, front, seq![rq, rk], r, c);
    lemma_run_four(k, rq, rk, rk, rk, s, c1);
    let attend = Op::AttendFresh { layer, len: (pos + 1) as usize };
    let po = Op::Project { layer, matrix: Matrix::AttnOutput };
    assert(front + seq![rq, rk, attend, po] =~= ops + seq![attend] + seq![po]);
    ops
}

proof fn lemma_fresh_output<V>(a: Arithmetic<V>, m: ModelPlan, layer: usize, r: Registers<V>)
    requires
        layer < m.layers@.len(),
    ensures
        ({
            let ops = seq![Op::Project { layer, matrix: Matrix::AttnOutput }] + fresh_feed_forward(
                m,
                layer,
            );
            let s = run_lane(kernels_of(a, None), ops, r, Map::empty()).0;
            let o = linear(a, m, None, layer, Matrix::AttnOutput, r.attn);
            let x = (a.plus)(
                r.x,
                if m.layers@[layer as int].post_attn_norm {
                    (a.post_attn_norm)(layer, o)
                } else {
                    o
                },
            );
            &&& forall|i: int| 0 <= i < ops.len() ==> private(#[trigger] ops[i])
            &&& s.x == fed_forward(a, m, None, layer, x)
            &&& s.k == r.k
            &&& s.v == r.v
        }),
{
    let k = kernels_of(a, None);
    let c = Map::<(usize, int), (V, V)>::empty();
    let sw = m.layers@[layer as int];
    let po = seq![Op::Project { layer, matrix: Matrix::AttnOutput }];
    let pn = Op::PostAttnNorm { layer };
    let qn = Op::PostFfnNorm { layer };
    let nf = Op::FfnNorm { layer };
    let pg = Op::Project { layer, matrix: Matrix::FfnGate };
    let pu = Op::Project { layer, matrix: Matrix::FfnUp };
    let pd = Op::Project { layer, matrix: Matrix::FfnDown };
    let b1 = po + opt(sw.post_attn_norm, pn);
    let b2 = b1 + seq![Op::AddAttn, nf, pg, pu];
    let b3 = b2 + seq![Op::Activate, pd];
    let b4 = b3 + opt(sw.post_ffn_norm, qn);
    let b5 = b4 + seq![Op::AddFfn];
    lemma_run_one(k, po[0], r, c);
    lemma_run_then(k, po, sw.post_attn_norm, pn, r, c);
    let (s1, c1) = run_lane(k, b1, r, c);
    lemma_run_concat(k, b1, seq![Op::AddAttn, nf, pg, pu], r, c);
    lemma_run_four(k, Op::AddAttn, nf, pg, pu, s1, c1);
    let (s2, c2) = run_lane(k, b2, r, c);
    lemma_run_concat(k, b2, seq![Op::Activate, pd], r, c);
    lemma_run_four(k, Op::Activate, pd, pd, pd, s2, c2);
    lemma_run_then(k, b3, sw.post_ffn_norm, qn, r, c);
    let (s4, c4) = run_lane(k, b4, r, c);
    lemma_run_concat(k, b4, seq![Op::AddFfn], r, c);
    lemma_run_one(k, Op::AddFfn, s4, c4);
    let ops = po + fresh_feed_forward(m, layer);
    assert(ops =~= b5);
}

proof fn lemma_for_one_concat(lane: usize, a: Seq<Op>, b: Seq<Op>)
    ensures
        for_one(lane, a + b) == for_one(lane, a) + for_one(lane, b),
{
    assert(for_one(lane, a + b) =~= for_one(lane, a) + for_one(lane, b));
}

/// Layer `l` has been through the first `k` positions.
spec fn halfway<V>(
    a: Arithmetic<V>,
    m: ModelPlan,
    tokens: Seq<u32>,
    l: nat,
    k: int,
    lanes: Seq<Registers<V>>,
) -> bool {
    &&& lanes.len() == tokens.len()
    &&& forall|p: int|
        0 <= p < tokens.len() ==> (#[trigger] lanes[p]).x == hidden(
            a,
            m,
            None,
            false,
            tokens,
            if p < k {
                l + 1
            } else {
                l
            },
            p,
        )
    &&& forall|p: int|
        0 <= p < k ==> ((#[trigger] lanes[p]).k, lanes[p].v) == row_of(
            a,
            m,
            None,
            l as usize,
            p as usize,
            hidden(a, m, None, false, tokens, l, p),
        )
}

proof fn lemma_fresh_position<V>(
    a: Arithmetic<V>,
    m: ModelPlan,
    tokens: Seq<u32>,
    layer: usize,
    pos: usize,
    lanes: Seq<Registers<V>>,
    pooled: Seq<(V, usize)>,
)
    requires
        layer < m.layers@.len(),
        pos < tokens.len() <= usize::MAX,
        halfway(a, m, tokens, layer as nat, pos as int, lanes),
    ensures
        ({
            let (now, sum) = run_fresh(
                a,
                for_one(pos, fresh_ops(m, layer, pos)),
                lanes,
                pooled,
            );
            halfway(a, m, tokens, layer as nat, pos + 1, now) && sum == pooled
        }),
{
    let l = layer as nat;
    let x = hidden(a, m, None, false, tokens, l, pos as int);
    let r = lanes[pos as int];
    let ops = lemma_fresh_inputs(a, m, layer, pos, r);
    let attend = seq![Op::AttendFresh { layer, len: (pos + 1) as usize }];
    let po = seq![Op::Project { layer, matrix: Matrix::AttnOutput }];
    let ff = fresh_feed_forward(m, layer);
    assert(fresh_ops(m, layer, pos) =~= ops + attend + (po + ff));
    lemma_for_one_concat(pos, ops + attend, po + ff);
    lemma_for_one_concat(pos, ops, attend);
    let (f1, f2, f3) = (for_one(pos, ops), for_one(pos, attend), for_one(pos, po + ff));
    lemma_fresh_concat(a, f1 + f2, f3, lanes, pooled);
    lemma_fresh_concat(a, f1, f2, lanes, pooled);
    lemma_fresh_private(a, pos, ops, lanes, pooled);
    let s1 = run_lane(kernels_of(a, None), ops, r, Map::empty()).0;
    let lanes1 = lanes.update(pos as int, s1);
    assert(f2.drop_last() =~= Seq::empty());
    assert(run_fresh(a, f2.drop_last(), lanes1, pooled) == (lanes1, pooled));
    assert(f2.last() == Step::One { lane: pos, op: attend[0] });
    let rows = Seq::new((pos + 1) as nat, |p: int| (lanes1[p].k, lanes1[p].v));
    assert(rows =~= rows_seen(a, m, None, false, tokens, l, pos as int));
    let s2 = Registers { attn: (a.attend)(layer, s1.q, rows), ..s1 };
    let lanes2 = lanes1.update(pos as int, s2);
    assert(run_fresh(a, f2, lanes1, pooled) == (lanes2, pooled)) by {
        let rows_again = Seq::new(
            ((pos + 1) as usize) as nat,
            |p: int| (lanes1[p].k, lanes1[p].v),
        );
        assert(rows_again =~= rows);
    }
    lemma_fresh_output(a, m, layer, s2);
    lemma_fresh_private(a, pos, po + ff, lanes2, pooled);
    let s3 = run_lane(kernels_of(a, None), po + ff, s2, Map::empty()).0;
    let lanes3 = lanes2.update(pos as int, s3);
    assert(lanes3 =~= lanes.update(pos as int, s3));
    assert(s3.x == hidden(a, m, None, false, tokens, l + 1, pos as int)) by {
        assert((l + 1 - 1) as nat == l);
    }
    assert forall|p: int| 0 <= p < tokens.len() implies (#[trigger] lanes3[p]).x == hidden(
        a,
        m,
        None,
        false,
        tokens,
        if p < pos + 1 {
            l + 1
        } else {
            l
        },
        p,
    ) by {
        if p != pos {
            assert(lanes3[p] == lanes[p]);
        }
    }
    assert forall|p: int| 0 <= p < pos + 1 implies ((#[trigger] lanes3[p]).k, lanes3[p].v)
        == row_of(
        a,
        m,
        None,
        layer,
        p as usize,
        hidden(a, m, None, false, tokens, l, p),
    ) by {
        if p != pos {
            assert(lanes3[p] == lanes[p]);
        }
    }
}

proof fn lemma_fresh_layer<V>(
    a: Arithmetic<V>,
    m: ModelPlan,
    tokens: Seq<u32>,
    layer: usize,
    k: nat,
    lanes: Seq<Registers<V>>,
    pooled: Seq<(V, usize)>,
)
    requires
        layer < m.layers@.len(),
        k <= tokens.len() <= usize::MAX,
        halfway(a, m, tokens, layer as nat, 0, lanes),
    ensures
        ({
            let (now, sum) = run_fresh(a, fresh_layer(m, layer, k), lanes, pooled);
            halfway(a, m, tokens, layer as nat, k as int, now) && sum == pooled
        }),
    decreases k,
{
    if k > 0 {
        let pos = (k - 1) as usize;
        lemma_fresh_layer(a, m, tokens, layer, (k - 1) as nat, lanes, pooled);
        let (now, sum) = run_fresh(a, fresh_layer(m, layer, (k - 1) as nat), lanes, pooled);
        lemma_fresh_concat(
            a,
            fresh_layer(m, layer, (k - 1) as nat),
            for_one(pos, fresh_ops(m, layer, pos)),
            lanes,
            pooled,
        );
        lemma_fresh_position(a, m, tokens, layer, pos, now, sum);
    }
}

proof fn lemma_fresh_layers<V>(
    a: Arithmetic<V>,
    m: ModelPlan,
    tokens: Seq<u32>,
    l: nat,
    lanes: Seq<Registers<V>>,
    pooled: Seq<(V, usize)>,
)
    requires
        l <= m.layers@.len(),
        tokens.len() <= usize::MAX,
        halfway(a, m, tokens, 0, 0, lanes),
    ensures
        ({
            let (now, sum) = run_fresh(a, fresh_layers(m, tokens.len(), l), lanes, pooled);
            halfway(a, m, tokens, l, 0, now) && sum == pooled
        }),
    decreases l,
{
    assert(m.layers.len() <= usize::MAX);
    if l > 0 {
        let before = (l - 1) as nat;
        let n = tokens.len();
        lemma_fresh_layers(a, m, tokens, before, lanes, pooled);
        let (now, sum) = run_fresh(a, fresh_layers(m, n, before), lanes, pooled);
        lemma_fresh_concat(
            a,
            fresh_layers(m, n, before),
            fresh_layer(m, before as usize, n),
            lanes,
            pooled,
        );
        lemma_fresh_layer(a, m, tokens, before as usize, n, now, sum);
    }
}

proof fn lemma_fresh_embeds<V>(
    a: Arithmetic<V>,
    m: ModelPlan,
    tokens: Seq<u32>,
    k: nat,
    lanes: Seq<Registers<V>>,
    pooled: Seq<(V, usize)>,
)
    requires
        k <= tokens.len() <= usize::MAX,
        lanes.len() == tokens.len(),
    ensures
        ({
            let (now, sum) = run_fresh(a, embed_steps(tokens, k), lanes, pooled);
            &&& now.len() == tokens.len()
            &&& sum == pooled
            &&& forall|p: int| 0 <= p < k ==> (#[trigger] now[p]).x == (a.embed)(tokens[p])
        }),
    decreases k,
{
    if k > 0 {
        lemma_fresh_embeds(a, m, tokens, (k - 1) as nat, lanes, pooled);
        let steps = embed_steps(tokens, k);
        assert(steps.drop_last() =~= embed_steps(tokens, (k - 1) as nat));
    }
}

/// What the uncached pass leaves behind all layers: the hidden states, over all positions
/// up to each one's own and without adapters.
proof fn lemma_fresh_body<V>(
    a: Arithmetic<V>,
    m: ModelPlan,
    tokens: Seq<u32>,
    lanes: Seq<Registers<V>>,
)
    requires
        tokens.len() <= usize::MAX,
        lanes.len() == tokens.len(),
    ensures
        ({
            let (now, sum) = run_fresh(
                a,
                embed_steps(tokens, tokens.len()) + fresh_layers(
                    m,
                    tokens.len(),
                    m.layers@.len(),
                ),
                lanes,
                Seq::empty(),
            );
            &&& now.len() == tokens.len()
            &&& sum == Seq::<(V, usize)>::empty()
            &&& forall|p: int|
                0 <= p < tokens.len() ==> (#[trigger] now[p]).x == hidden(
                    a,
                    m,
                    None,
                    false,
                    tokens,
                    m.layers@.len(),
                    p,
                )
        }),
{
    let n = tokens.len();
    let none = Seq::<(V, usize)>::empty();
    lemma_fresh_embeds(a, m, tokens, n, lanes, none);
    let (now, sum) = run_fresh(a, embed_steps(tokens, n), lanes, none);
    lemma_fresh_concat(
        a,
        embed_steps(tokens, n),
        fresh_layers(m, n, m.layers@.len()),
        lanes,
        none,
    );
    assert(halfway(a, m, tokens, 0, 0, now));
    lemma_fresh_layers(a, m, tokens, m.layers@.len(), now, sum);
}

/// The uncached pass computes the transformer: the logits of the last position of a text,
/// over all positions up to each one's own and without adapters.
pub proof fn law_the_uncached_pass_computes_the_transformer<V>(
    a: Arithmetic<V>,
    m: ModelPlan,
    tokens: Seq<u32>,
    lanes: Seq<Registers<V>>,
)
    requires
        0 < tokens.len() <= usize::MAX,
        lanes.len() == tokens.len(),
    ensures
        run_fresh(a, uncached_steps(m, tokens), lanes, Seq::empty()).0[tokens.len() - 1].logits == logits_of(
            a,
            m,
            hidden(a, m, None, false, tokens, m.layers@.len(), tokens.len() - 1),
        ),
{
    let n = tokens.len();
    let none = Seq::<(V, usize)>::empty();
    let last = (n - 1) as usize;
    let body = embed_steps(tokens, n) + fresh_layers(m, n, m.layers@.len());
    lemma_fresh_body(a, m, tokens, lanes);
    let (now, sum) = run_fresh(a, body, lanes, none);
    lemma_fresh_concat(a, body, for_one(last, head_ops(m)), lanes, none);
    lemma_fresh_private(a, last, head_ops(m), now, sum);
    lemma_head_run(a, m, None, now[last as int], Map::empty());
}

proof fn lemma_pooled<V>(
    a: Arithmetic<V>,
    count: usize,
    k: nat,
    lanes: Seq<Registers<V>>,
    pooled: Seq<(V, usize)>,
)
    requires
        k <= lanes.len() <= usize::MAX,
    ensures
        ({
            let (now, sum) = run_fresh(a, pool_steps(count, k), lanes, pooled);
            &&& now.len() == lanes.len()
            &&& forall|p: int| 0 <= p < lanes.len() ==> (#[trigger] now[p]).x == lanes[p].x
            &&& sum == pooled + Seq::new(k, |p: int| ((a.final_norm)(lanes[p].x), count))
        }),
    decreases k,
{
    let want = pooled + Seq::new(k, |p: int| ((a.final_norm)(lanes[p].x), count));
    if k == 0 {
        assert(want =~= pooled);
    } else {
        let i = (k - 1) as nat;
        let lane = i as usize;
        lemma_pooled(a, count, i, lanes, pooled);
        let (now, sum) = run_fresh(a, pool_steps(count, i), lanes, pooled);
        let ops = seq![Op::FinalNorm, Op::Pool { count }];
        let steps = for_one(lane, ops);
        lemma_fresh_concat(a, pool_steps(count, i), steps, lanes, pooled);
        let first = for_one(lane, seq![Op::FinalNorm]);
        assert(steps.drop_last() =~= first);
        assert(steps.last() == Step::One { lane, op: Op::Pool { count } });
        lemma_fresh_private(a, lane, seq![Op::FinalNorm], now, sum);
        lemma_run_one(kernels_of(a, None), Op::FinalNorm, now[lane as int], Map::empty());
        let (was, is) = (now, run_fresh(a, first, now, sum).0);
        assert(is[lane as int].normed == (a.final_norm)(lanes[lane as int].x));
        assert(sum.push((is[lane as int].normed, count)) =~= want);
    }
}

/// An embedding is the mean of the normalised final hidden states of all positions: each is
/// added once, in order, and each is divided by their number.
pub proof fn law_an_embedding_is_the_mean_of_the_hidden_states<V>(
    a: Arithmetic<V>,
    m: ModelPlan,
    tokens: Seq<u32>,
    lanes: Seq<Registers<V>>,
)
    requires
        tokens.len() <= usize::MAX,
        lanes.len() == tokens.len(),
    ensures
        run_fresh(a, embedding_steps(m, tokens), lanes, Seq::empty()).1 == Seq::new(
            tokens.len(),
            |p: int|
                (
                    (a.final_norm)(hidden(a, m, None, false, tokens, m.layers@.len(), p)),
                    tokens.len() as usize,
                ),
        ),
{
    let n = tokens.len();
    let none = Seq::<(V, usize)>::empty();
    let body = embed_steps(tokens, n) + fresh_layers(m, n, m.layers@.len());
    lemma_fresh_body(a, m, tokens, lanes);
    let (now, sum) = run_fresh(a, body, lanes, none);
    lemma_fresh_concat(a, body, pool_steps(n as usize, n), lanes, none);
    lemma_pooled(a, n as usize, n, now, sum);
    assert(run_fresh(a, embedding_steps(m, tokens), lanes, none).1 =~= Seq::new(
        n,
        |p: int|
            (
                (a.final_norm)(hidden(a, m, None, false, tokens, m.layers@.len(), p)),
                n as usize,
            ),
    ));
}

/// Where a model has no sliding window and no adapter of its own, the hidden states without
/// a cache are those with one, so that both passes give a text the same logits.
pub proof fn law_both_passes_agree<V>(
    a: Arithmetic<V>,
    m: ModelPlan,
    tokens: Seq<u32>,
    l: nat,
    p: int,
)
    requires
        m.config.sliding_window is None,
        m.lora is None,
        0 <= p < tokens.len(),
    ensures
        hidden(a, m, chosen(m, None), true, tokens, l, p) == hidden(
            a,
            m,
            None,
            false,
            tokens,
            l,
            p,
        ),
    decreases l,
{
    if l > 0 {
        let before = (l - 1) as nat;
        law_both_passes_agree(a, m, tokens, before, p);
        let x = rows_seen(a, m, None, true, tokens, before, p);
        let y = rows_seen(a, m, None, false, tokens, before, p);
        assert forall|i: int| 0 <= i < p + 1 implies x[i] == y[i] by {
            law_both_passes_agree(a, m, tokens, before, i);
        }
        assert(x =~= y);
    }
}

// ── What a schedule has to do ────────────────────────────────────────────────

/// On whatever arithmetic, from whatever is at hand and cached, these operations decode the
/// lane's token.
pub open spec fn decodes<V>(m: ModelPlan, lane: Lane, ops: Seq<Op>) -> bool {
    forall|a: Arithmetic<V>, r: Registers<V>, cache: Rows<(V, V)>|
        {
            let (s, c) = #[trigger] run_lane(kernels_of(a, chosen(m, lane.lora)), ops, r, cache);
            let x = stream(a, m, lane, cache, m.layers@.len());
            &&& s.x == x
            &&& s.logits == logits_of(a, m, x)
            &&& leaves_rows(a, m, lane, cache, c, m.layers@.len())
        }
}

/// On whatever arithmetic, these steps compute the logits of the last position of a text
/// without a cache.
pub open spec fn reads_text<V>(m: ModelPlan, tokens: Seq<u32>, steps: Seq<Step>) -> bool {
    forall|a: Arithmetic<V>, lanes: Seq<Registers<V>>|
        lanes.len() == tokens.len() ==> (#[trigger] run_fresh(
            a,
            steps,
            lanes,
            Seq::empty(),
        )).0[tokens.len() - 1].logits == logits_of(
            a,
            m,
            hidden(a, m, None, false, tokens, m.layers@.len(), tokens.len() - 1),
        )
}

/// On whatever arithmetic, these steps pool the final hidden states of a text, each divided
/// by their number.
pub open spec fn pools_text<V>(m: ModelPlan, tokens: Seq<u32>, steps: Seq<Step>) -> bool {
    forall|a: Arithmetic<V>, lanes: Seq<Registers<V>>|
        lanes.len() == tokens.len() ==> (#[trigger] run_fresh(
            a,
            steps,
            lanes,
            Seq::empty(),
        )).1 == Seq::new(
            tokens.len(),
            |p: int|
                (
                    (a.final_norm)(hidden(a, m, None, false, tokens, m.layers@.len(), p)),
                    tokens.len() as usize,
                ),
        )
}

pub proof fn lemma_decodes<V>(m: ModelPlan, lane: Lane)
    requires
        lane.pos < usize::MAX,
    ensures
        decodes::<V>(m, lane, decode_ops(m, lane)),
{
    assert forall|a: Arithmetic<V>, r: Registers<V>, cache: Rows<(V, V)>|
        {
            let (s, c) = #[trigger] run_lane(
                kernels_of(a, chosen(m, lane.lora)),
                decode_ops(m, lane),
                r,
                cache,
            );
            let x = stream(a, m, lane, cache, m.layers@.len());
            &&& s.x == x
            &&& s.logits == logits_of(a, m, x)
            &&& leaves_rows(a, m, lane, cache, c, m.layers@.len())
        } by {
        law_decoding_computes_the_transformer(a, m, lane, r, cache);
    }
}

pub proof fn lemma_reads_text<V>(m: ModelPlan, tokens: Seq<u32>)
    requires
        0 < tokens.len() <= usize::MAX,
    ensures
        reads_text::<V>(m, tokens, uncached_steps(m, tokens)),
{
    let steps = uncached_steps(m, tokens);
    assert forall|a: Arithmetic<V>, lanes: Seq<Registers<V>>|
        lanes.len() == tokens.len() implies (#[trigger] run_fresh(
        a,
        steps,
        lanes,
        Seq::empty(),
    )).0[tokens.len() - 1].logits == logits_of(
        a,
        m,
        hidden(a, m, None, false, tokens, m.layers@.len(), tokens.len() - 1),
    ) by {
        law_the_uncached_pass_computes_the_transformer(a, m, tokens, lanes);
    }
}

pub proof fn lemma_pools_text<V>(m: ModelPlan, tokens: Seq<u32>)
    requires
        tokens.len() <= usize::MAX,
    ensures
        pools_text::<V>(m, tokens, embedding_steps(m, tokens)),
{
    let steps = embedding_steps(m, tokens);
    assert forall|a: Arithmetic<V>, lanes: Seq<Registers<V>>|
        lanes.len() == tokens.len() implies (#[trigger] run_fresh(
        a,
        steps,
        lanes,
        Seq::empty(),
    )).1 == Seq::new(
        tokens.len(),
        |p: int|
            (
                (a.final_norm)(hidden(a, m, None, false, tokens, m.layers@.len(), p)),
                tokens.len() as usize,
            ),
    ) by {
        law_an_embedding_is_the_mean_of_the_hidden_states(a, m, tokens, lanes);
    }
}

} // verus!
