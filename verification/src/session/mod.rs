//! Session: the owner of one sequence's generation state.
//!
//! A [`Session`] knows nothing of channels, HTTP or the engine that drives it.
use vstd::prelude::*;

use crate::sampling::{Sampler, SamplerConfig};

pub mod snapshot;

verus! {

/// Which storage format a session's cache uses.
#[derive(Clone, Copy, Debug, PartialEq, Eq, Structural)]
pub enum CacheFormat {
    /// Full f32 precision: highest accuracy, most memory.
    F32,
    /// Q8_0 quantised: about 3.8 times smaller, minimal accuracy loss.
    Q8,
}

impl Default for CacheFormat {
    fn default() -> (f: CacheFormat)
        ensures
            f == CacheFormat::F32,
    {
        CacheFormat::F32
    }
}

/// Parameters of a new [`Session`].
#[derive(Debug)]
pub struct SessionOptions {
    pub max_new_tokens: usize,
    pub sampler_cfg: SamplerConfig,
    pub eos_token: u32,
    pub cache_format: CacheFormat,
    /// Cache dimensions, normally taken from the model's configuration.
    pub context_length: usize,
    pub n_layers: usize,
    pub n_kv_heads: usize,
    pub head_dim: usize,
    /// The adapter to apply for this session, by name. It takes the place of the
    /// model's built-in adapter.
    pub lora_adapter: Option<String>,
}

/// The raw bytes of a key/value cache, layer by layer.
#[derive(Debug)]
pub struct CacheImage {
    pub k_layers: Vec<Vec<u8>>,
    pub v_layers: Vec<Vec<u8>>,
    /// How many positions the image covers.
    pub len: usize,
}

/// All mutable state of one generation sequence.
#[derive(Debug)]
pub struct Session {
    /// All tokens seen so far, prompt first.
    pub tokens: Vec<u32>,
    /// How many of `tokens` are the prompt: a restored session replays only the
    /// generated rest through its output constraint.
    pub prefill_len: usize,
    pub cache: CacheImage,
    pub cache_format: CacheFormat,
    pub sampler: Sampler,
    /// Current decode position (`tokens.len() - 1` after the prompt).
    pub pos: usize,
    pub eos_token: u32,
    /// Remaining token budget.
    pub max_remaining: usize,
    pub lora_adapter: Option<String>,
}

/// A session is over once its budget is spent or it has produced its stop token.
pub open spec fn session_over(tokens: Seq<u32>, max_remaining: nat, eos: u32) -> bool {
    max_remaining == 0 || (tokens.len() > 0 && tokens.last() == eos)
}

/// As many empty layers as the model has.
fn blank_layers(n: usize) -> (v: Vec<Vec<u8>>)
    ensures
        v@.len() == n,
        forall|i: int| 0 <= i < n ==> (#[trigger] v@[i])@.len() == 0,
{
    let mut v: Vec<Vec<u8>> = Vec::new();
    let mut i: usize = 0;
    while i < n
        invariant
            i <= n,
            v@.len() == i,
            forall|j: int| 0 <= j < i ==> (#[trigger] v@[j])@.len() == 0,
        decreases n - i,
    {
        v.push(Vec::new());
        i = i + 1;
    }
    v
}

impl Session {
    /// A new session: nothing has been decoded yet, so that the cache has all its layers
    /// and no position in any of them.
    pub fn new(opts: SessionOptions) -> (s: Self)
        ensures
            s.tokens@.len() == 0,
            s.prefill_len == 0,
            s.cache.k_layers@.len() == opts.n_layers,
            s.cache.v_layers@.len() == opts.n_layers,
            forall|i: int|
                0 <= i < opts.n_layers ==> (#[trigger] s.cache.k_layers@[i])@.len() == 0,
            forall|i: int|
                0 <= i < opts.n_layers ==> (#[trigger] s.cache.v_layers@[i])@.len() == 0,
            s.cache.len == 0,
            s.cache_format == opts.cache_format,
            s.sampler.rng.state == opts.sampler_cfg.seed,
            s.pos == 0,
            s.eos_token == opts.eos_token,
            s.max_remaining == opts.max_new_tokens,
            s.lora_adapter == opts.lora_adapter,
    {
        Session {
            tokens: Vec::new(),
            prefill_len: 0,
            cache: CacheImage {
                k_layers: blank_layers(opts.n_layers),
                v_layers: blank_layers(opts.n_layers),
                len: 0,
            },
            cache_format: opts.cache_format,
            sampler: Sampler::new(opts.sampler_cfg),
            pos: 0,
            eos_token: opts.eos_token,
            max_remaining: opts.max_new_tokens,
            lora_adapter: opts.lora_adapter,
        }
    }

    /// True if this session has finished (stop token hit or budget exhausted).
    pub fn is_finished(&self) -> (b: bool)
        ensures
            b == session_over(self.tokens@, self.max_remaining as nat, self.eos_token),
    {
        let n: usize = self.tokens.len();
        self.max_remaining == 0 || (n > 0 && self.tokens[n - 1] == self.eos_token)
    }
}

/// A session is over exactly if nothing may follow: no budget is left, or its last token is
/// the stop token.
pub proof fn law_sessions_end_at_the_stop_token(tokens: Seq<u32>, next: u32, left: nat, eos: u32)
    ensures
        session_over(tokens, 0, eos),
        left > 0 ==> !session_over(Seq::empty(), left, eos),
        left > 0 ==> (session_over(tokens.push(next), left, eos) <==> next == eos),
{
}

} // verus!
