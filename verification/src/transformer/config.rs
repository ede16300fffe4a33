//! What a model's configuration decides about control flow.
use vstd::prelude::*;

verus! {

/// The dimensions and switches of a model.
#[derive(Clone, Copy, Debug, PartialEq, Eq, Structural)]
pub struct ModelConfig {
    pub context_length: u32,
    pub embedding_length: u32,
    pub block_count: u32,
    pub head_count: u32,
    pub head_count_kv: u32,
    pub vocab_size: u32,
    /// Positions that attention looks back on, the current one included.
    pub sliding_window: Option<u32>,
    /// Only even layers use the sliding window; odd ones see the full context.
    pub sliding_window_alternating: bool,
    /// Head size where it is not the embedding size divided by the heads.
    pub head_dim_override: Option<u32>,
    /// Head dimensions that are rotated where it is not all of them.
    pub rotary_dim: Option<u32>,
    /// The output logits are soft-capped.
    pub final_softcap: bool,
}

impl ModelConfig {
    pub open spec fn spec_head_dim(&self) -> u32 {
        match self.head_dim_override {
            Some(d) => d,
            None => self.embedding_length / self.head_count,
        }
    }

    /// The size of one attention head.
    pub fn head_dim(&self) -> (d: u32)
        requires
            self.head_dim_override is None ==> self.head_count > 0,
        ensures
            d == self.spec_head_dim(),
    {
        match self.head_dim_override {
            Some(d) => d,
            None => self.embedding_length / self.head_count,
        }
    }

    pub open spec fn spec_rot_dim(&self) -> u32 {
        match self.rotary_dim {
            Some(r) => (r - r % 2) as u32,
            None => self.spec_head_dim(),
        }
    }

    /// The head dimensions that are rotated: all of them, or an even number.
    pub fn rot_dim(&self) -> (d: u32)
        requires
            self.rotary_dim is None && self.head_dim_override is None ==> self.head_count > 0,
        ensures
            d == self.spec_rot_dim(),
    {
        match self.rotary_dim {
            Some(r) => r - r % 2,
            None => self.head_dim(),
        }
    }
}

/// The first position that the query at `pos` attends to, for a window that
/// reaches back `window` positions.
pub open spec fn window_begin(window: Option<u32>, pos: nat) -> nat {
    match window {
        Some(w) => if pos + 1 >= w {
            (pos + 1 - w) as nat
        } else {
            0
        },
        None => 0,
    }
}

/// The window of layer `layer`.
pub open spec fn layer_window(cfg: ModelConfig, layer: nat) -> Option<u32> {
    if cfg.sliding_window_alternating && layer % 2 != 0 {
        None
    } else {
        cfg.sliding_window
    }
}

/// The positions that one query attends to.
#[derive(Clone, Copy, Debug, PartialEq, Eq, Structural)]
pub struct Window {
    pub start: usize,
    pub len: usize,
}

/// The positions that the query at `pos` attends to in `layer`.
pub open spec fn attend_window(cfg: ModelConfig, layer: nat, pos: usize) -> Window {
    let start = window_begin(layer_window(cfg, layer), pos as nat);
    Window { start: start as usize, len: (pos + 1 - start) as usize }
}

/// The positions that the query at `pos` attends to in layer `layer`: up to and
/// with `pos`, as far back as the layer's window reaches.
pub fn window_for(cfg: &ModelConfig, layer: usize, pos: usize) -> (w: Window)
    requires
        pos < usize::MAX,
    ensures
        w == attend_window(*cfg, layer as nat, pos),
        w.start + w.len == pos + 1,
{
    let full = cfg.sliding_window_alternating && layer % 2 != 0;
    let start: usize = match cfg.sliding_window {
        Some(w) => if !full && (pos as u64) + 1 >= w as u64 {
            ((pos as u64) + 1 - w as u64) as usize
        } else {
            0
        },
        None => 0,
    };
    Window { start, len: pos + 1 - start }
}

/// A window ends with the query's own position and holds as many positions as
/// the sliding window allows and the sequence has.
pub proof fn law_window_size(cfg: ModelConfig, layer: nat, pos: usize)
    requires
        pos < usize::MAX,
    ensures
        ({
            let w = attend_window(cfg, layer, pos);
            &&& w.start + w.len == pos + 1
            &&& match layer_window(cfg, layer) {
                Some(n) => w.len == if pos + 1 < n {
                    pos + 1
                } else {
                    n as int
                },
                None => w.len == pos + 1,
            }
        }),
{
}

/// One query head and the key/value head that it shares.
#[derive(Clone, Copy, Debug, PartialEq, Eq, Structural)]
pub struct HeadSlot {
    pub kv_head: usize,
    /// Where the head's dimensions start in the query and in the output.
    pub offset: usize,
}

/// Query heads are dealt to key/value heads in runs of equal length, one run behind the
/// other, and start where the one before ends.
pub open spec fn dealt_in_runs(slots: Seq<HeadSlot>, n_kv_heads: int, head_dim: int) -> bool {
    let run = slots.len() as int / n_kv_heads;
    &&& forall|h: int|
        0 <= h < slots.len() ==> (#[trigger] slots[h]).kv_head * run <= h < slots[h].kv_head * run
            + run
    &&& slots.len() > 0 ==> slots[0].offset == 0
    &&& forall|h: int|
        0 < h < slots.len() ==> (#[trigger] slots[h]).offset == slots[h - 1].offset + head_dim
}

/// Which key/value head each query head uses, and where it starts. Query heads
/// are dealt to key/value heads in runs of equal length.
pub fn attn_heads(n_heads: usize, n_kv_heads: usize, head_dim: usize) -> (slots: Vec<HeadSlot>)
    requires
        n_kv_heads > 0,
        n_heads % n_kv_heads == 0,
        n_heads * head_dim <= usize::MAX,
    ensures
        slots@.len() == n_heads,
        forall|h: int|
            0 <= h < n_heads ==> {
                &&& (#[trigger] slots@[h]).kv_head == h / (n_heads as int / n_kv_heads as int)
                &&& slots@[h].kv_head < n_kv_heads
                &&& slots@[h].offset == h * head_dim
                &&& slots@[h].offset + head_dim <= n_heads * head_dim
            },
        dealt_in_runs(slots@, n_kv_heads as int, head_dim as int),
{
    let mut slots: Vec<HeadSlot> = Vec::new();
    if n_heads == 0 {
        return slots;
    }
    let group: usize = n_heads / n_kv_heads;
    proof {
        vstd::arithmetic::div_mod::lemma_fundamental_div_mod(n_heads as int, n_kv_heads as int);
        assert(n_heads == n_kv_heads * group);
        assert(group > 0) by (nonlinear_arith)
            requires
                n_heads == n_kv_heads * group,
                n_heads > 0,
        ;
    }
    let mut h: usize = 0;
    while h < n_heads
        invariant
            h <= n_heads,
            group > 0,
            group == n_heads / n_kv_heads,
            n_heads == n_kv_heads * group,
            n_heads * head_dim <= usize::MAX,
            slots@.len() == h,
            forall|k: int|
                0 <= k < h ==> {
                    &&& (#[trigger] slots@[k]).kv_head == k / (n_heads as int / n_kv_heads as int)
                    &&& slots@[k].kv_head < n_kv_heads
                    &&& slots@[k].offset == k * head_dim
                    &&& slots@[k].offset + head_dim <= n_heads * head_dim
                },
        decreases n_heads - h,
    {
        proof {
            assert((h + 1) * head_dim <= n_heads * head_dim) by (nonlinear_arith)
                requires
                    h + 1 <= n_heads,
            ;
            assert((h + 1) * head_dim == h * head_dim + head_dim) by (nonlinear_arith);
            let q = h as int / group as int;
            let g = group as int;
            vstd::arithmetic::div_mod::lemma_fundamental_div_mod(h as int, g);
            assert(q < n_kv_heads) by (nonlinear_arith)
                requires
                    h == g * q + h as int % g,
                    h as int % g >= 0,
                    h < n_kv_heads * g,
                    g > 0,
            ;
        }
        slots.push(HeadSlot { kv_head: h / group, offset: h * head_dim });
        h = h + 1;
    }
    proof {
        let g = group as int;
        assert forall|k: int| 0 <= k < slots@.len() implies (#[trigger] slots@[k]).kv_head * g <= k
            < slots@[k].kv_head * g + g by {
            vstd::arithmetic::div_mod::lemma_fundamental_div_mod(k, g);
            assert(g * (k / g) == (k / g) * g) by (nonlinear_arith);
        }
        assert(0 * head_dim == 0);
        assert forall|k: int| 0 < k < slots@.len() implies (#[trigger] slots@[k]).offset
            == slots@[k - 1].offset + head_dim by {
            assert(k * head_dim == (k - 1) * head_dim + head_dim) by (nonlinear_arith);
        }
    }
    slots
}

/// Heads of equal size fill the embedding as far as they can, unless the size is given; the
/// dimensions that are rotated are an even number, as many as the head or the setting has.
pub proof fn law_heads_fill_the_embedding(cfg: ModelConfig)
    requires
        cfg.head_count > 0,
    ensures
        match cfg.head_dim_override {
            Some(d) => cfg.spec_head_dim() == d,
            None => {
                let used = cfg.spec_head_dim() * cfg.head_count;
                used <= cfg.embedding_length < used + cfg.head_count
            },
        },
        match cfg.rotary_dim {
            Some(r) => cfg.spec_rot_dim() % 2 == 0 && cfg.spec_rot_dim() <= r <= cfg.spec_rot_dim()
                + 1,
            None => cfg.spec_rot_dim() == cfg.spec_head_dim(),
        },
{
    let (e, n) = (cfg.embedding_length as int, cfg.head_count as int);
    vstd::arithmetic::div_mod::lemma_fundamental_div_mod(e, n);
    assert(n * (e / n) == (e / n) * n) by (nonlinear_arith);
}

/// Layers see the whole sequence where there is no sliding window. Where there is one, every
/// layer looks through it, except that of alternating layers every second one, from the
/// second on, sees the whole sequence.
pub proof fn law_layers_alternate(cfg: ModelConfig, k: nat)
    ensures
        layer_window(cfg, 2 * k) == cfg.sliding_window,
        layer_window(cfg, 2 * k + 1) == if cfg.sliding_window_alternating {
            None
        } else {
            cfg.sliding_window
        },
{
}

} // verus!
