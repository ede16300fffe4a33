//! What the handlers of a server share.
use vstd::prelude::*;

use crate::transformer::config::ModelConfig;

verus! {

/// The counters of a server that only completes requests.
#[derive(Clone, Copy, Debug, PartialEq, Eq, Structural)]
pub struct Metrics {
    pub requests_total: u64,
    pub tokens_generated: u64,
    pub total_latency_ms: u64,
}

impl Metrics {
    /// All counters at zero.
    pub fn new() -> (m: Self)
        ensures
            m == (Metrics { requests_total: 0, tokens_generated: 0, total_latency_ms: 0 }),
    {
        Metrics { requests_total: 0, tokens_generated: 0, total_latency_ms: 0 }
    }

    /// Count a completed request. The counters wrap around.
    pub fn record(&mut self, tokens: u64, latency_ms: u64)
        ensures
            final(self).requests_total == old(self).requests_total.wrapping_add(1),
            final(self).tokens_generated == old(self).tokens_generated.wrapping_add(tokens),
            final(self).total_latency_ms == old(self).total_latency_ms.wrapping_add(latency_ms),
    {
        self.requests_total = self.requests_total.wrapping_add(1);
        self.tokens_generated = self.tokens_generated.wrapping_add(tokens);
        self.total_latency_ms = self.total_latency_ms.wrapping_add(latency_ms);
    }
}

/// The model that a server serves.
#[derive(Debug)]
pub struct AppState {
    /// The name under which the model is served.
    pub model_name: String,
    pub config: ModelConfig,
    pub eos_token: u32,
}

} // verus!
