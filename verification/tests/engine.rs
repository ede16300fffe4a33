//! The engine, driven turn by turn with a toy model.
use std::collections::VecDeque;

use glint::cache::prefix::{PrefixCacheConfig, PrefixCacheStats};
use glint::sampling::SamplerConfig;
use glint::server::batch::{Admission, Engine, EngineShape, EngineStep, InferenceRequest};
use glint::server::deliver::{submitted, Offer};
use glint::server::engine::{
    publish_kv_stats, EngineKvStats, EngineLimits, Finish, FinishSignal, SubmitError,
    DRAIN_TIMEOUT,
};
use glint::session::CacheFormat;
use tokio::sync::mpsc;

/// EOS id outside the toy model's vocabulary.
const NO_EOS: u32 = 9999;

/// The toy model: the next token depends on all tokens so far.
fn next_token(tokens: &[u32]) -> u32 {
    let mut h: u32 = 7;
    for t in tokens {
        h = h.wrapping_mul(31).wrapping_add(*t);
    }
    h % 8
}

struct Client {
    rx: Option<mpsc::Receiver<u32>>,
    tx: mpsc::Sender<u32>,
    got: Vec<u32>,
    finish: Finish,
    reads: bool,
}

struct Server {
    engine: Engine,
    queue: VecDeque<(usize, InferenceRequest)>,
    clients: Vec<Client>,
    stats: EngineKvStats,
    now: u64,
}

impl Server {
    fn with_format(limits: EngineLimits, context_length: usize, cache_format: CacheFormat) -> Self {
        let shape = EngineShape {
            context_length,
            n_layers: 1,
            n_kv_heads: 1,
            head_dim: 4,
            cache_format,
        };
        Server {
            engine: Engine::new(limits, shape),
            queue: VecDeque::new(),
            clients: Vec::new(),
            stats: EngineKvStats::default(),
            now: 0,
        }
    }

    fn start(limits: EngineLimits, context_length: usize) -> Self {
        Server::with_format(limits, context_length, CacheFormat::F32)
    }

    fn submit(&mut self, prompt_tokens: Vec<u32>, max_new_tokens: usize, eos_token: u32) -> usize {
        let (tx, rx) = mpsc::channel(64);
        let id = self.clients.len();
        self.clients.push(Client {
            rx: Some(rx),
            tx: tx.clone(),
            got: Vec::new(),
            finish: Finish::Incomplete,
            reads: true,
        });
        self.queue.push_back((
            id,
            InferenceRequest {
                prompt_tokens,
                max_new_tokens,
                sampler_cfg: SamplerConfig { seed: 7 },
                eos_token,
                lora_name: None,
                tx,
            },
        ));
        id
    }

    fn read(&mut self) {
        for c in &mut self.clients {
            if c.reads {
                if let Some(rx) = &mut c.rx {
                    while let Ok(t) = rx.try_recv() {
                        c.got.push(t);
                    }
                }
            }
        }
    }

    /// One turn of the loop; false once there is nothing to do.
    fn turn(&mut self) -> bool {
        self.now += 1_000_000;
        while self.engine.has_slot() {
            match self.queue.pop_front() {
                Some((id, req)) => {
                    if let Admission::Refused { finish } = self.engine.prefill_and_add(req, true) {
                        self.clients[id].finish = finish;
                    } else {
                        // The prompt is computed: its positions are cached.
                        let seq = self.engine.active.last_mut().unwrap();
                        if seq.pages.allocated_pages() > 0 {
                            while seq.pages.len() < seq.session.tokens.len() {
                                seq.pages.advance();
                            }
                        }
                    }
                }
                None => break,
            }
        }
        publish_kv_stats(&mut self.stats, &self.engine.pool, &self.engine.prefix);
        if self.engine.next_step() == EngineStep::Wait {
            return !self.queue.is_empty();
        }
        let next: Vec<u32> =
            self.engine.active.iter().map(|s| next_token(&s.session.tokens)).collect();
        let leaving = self.engine.sample_and_deliver(&next, self.now);
        self.read();
        let gone = self.engine.retire(&leaving);
        for seq in gone {
            let c = self.clients.iter_mut().find(|c| c.tx.same_channel(seq.tx.channel())).unwrap();
            c.finish = seq.finish.get();
        }
        publish_kv_stats(&mut self.stats, &self.engine.pool, &self.engine.prefix);
        if self.engine.next_step() == EngineStep::Decode {
            self.engine.reserve_next(self.now);
            for slot in self.engine.decode_batch_cpu() {
                let seq = &mut self.engine.active[slot.index];
                assert_eq!(slot.token, *seq.session.tokens.last().unwrap());
                assert_eq!(slot.pos, seq.session.tokens.len() - 1);
                if seq.pages.allocated_pages() > 0 {
                    seq.pages.advance();
                }
            }
        }
        true
    }

    fn run(&mut self) {
        for _ in 0..100_000 {
            if !self.turn() {
                self.read();
                return;
            }
        }
        panic!("the engine never came to rest");
    }

    fn complete(&mut self, prompt: Vec<u32>, budget: usize, eos: u32) -> (Vec<u32>, Finish) {
        let id = self.submit(prompt, budget, eos);
        self.run();
        (self.clients[id].got.clone(), self.clients[id].finish)
    }

    fn prefix_stats(&self) -> PrefixCacheStats {
        self.stats.prefix.expect("prefix cache is enabled for this engine")
    }
}

fn paged_limits(pool_pages: usize) -> EngineLimits {
    EngineLimits { kv_pool_pages: Some(pool_pages), ..EngineLimits::default() }
}

fn prefix_limits(pool_pages: usize) -> EngineLimits {
    EngineLimits {
        kv_pool_pages: Some(pool_pages),
        prefix_cache: Some(PrefixCacheConfig { max_entries: 32 }),
        ..EngineLimits::default()
    }
}

fn shared_prompt(tail: &[u32]) -> Vec<u32> {
    let mut prompt: Vec<u32> = (0..40u32).map(|i| i % 7).collect();
    prompt.extend_from_slice(tail);
    prompt
}

#[test]
fn slow_reader_still_receives_every_token() {
    let mut server = Server::start(EngineLimits::default(), 256);
    let budget = 100; // > channel capacity of 64
    let id = server.submit(vec![1, 2, 3], budget, NO_EOS);
    server.clients[id].reads = false;
    for _ in 0..500 {
        server.turn();
    }
    server.clients[id].reads = true;
    server.run();
    assert_eq!(server.clients[id].got.len(), budget);
}

#[test]
fn concurrent_requests_all_complete() {
    let mut server = Server::start(EngineLimits::default(), 64);
    let budget = 20;
    let ids: Vec<usize> = (0..3).map(|i| server.submit(vec![1 + i, 2], budget, NO_EOS)).collect();
    server.run();
    for id in ids {
        assert_eq!(server.clients[id].got.len(), budget);
    }
}

#[test]
fn disconnect_does_not_wedge_engine() {
    let mut server = Server::start(EngineLimits::default(), 256);
    let a = server.submit(vec![1, 2], 200, NO_EOS);
    server.turn();
    assert!(!server.clients[a].got.is_empty());
    server.clients[a].rx = None;
    let (tokens, _) = server.complete(vec![3, 4], 15, NO_EOS);
    assert_eq!(tokens.len(), 15);
}

#[test]
fn paged_pool_produces_the_same_tokens_as_the_default_cache() {
    let budget = 40; // spans several 16-token pages
    let (from_plain, _) =
        Server::start(EngineLimits::default(), 256).complete(vec![1, 2, 3], budget, NO_EOS);
    let (from_paged, _) =
        Server::start(paged_limits(64), 256).complete(vec![1, 2, 3], budget, NO_EOS);
    assert_eq!(from_plain.len(), budget);
    assert_eq!(from_plain, from_paged);
}

#[test]
fn paged_pool_exhaustion_ends_the_sequence_not_the_engine() {
    let mut server = Server::start(paged_limits(2), 256);
    let (tokens, finish) = server.complete(vec![1, 2, 3], 200, NO_EOS);
    assert!(
        !tokens.is_empty() && tokens.len() < 200,
        "expected a short but non-empty completion, got {}",
        tokens.len()
    );
    assert_eq!(finish, Finish::Length);

    let (again, finish_again) = server.complete(vec![4, 5], 6, NO_EOS);
    assert_eq!(again.len(), 6);
    assert_eq!(finish_again, Finish::Length);
    assert_eq!(server.stats.pool.unwrap().live, 0);
}

#[test]
fn saturated_queue_rejects_with_busy() {
    let limits = EngineLimits { max_active: 1, queue_capacity: 1, ..EngineLimits::default() };
    let (tx, _rx) = mpsc::channel::<u32>(limits.queue_slots());
    let offer = |n: u32| match tx.try_send(n) {
        Ok(()) => Offer::Sent,
        Err(mpsc::error::TrySendError::Full(_)) => Offer::Full,
        Err(mpsc::error::TrySendError::Closed(_)) => Offer::Closed,
    };
    assert_eq!(submitted(offer(2)), Ok(()));
    assert_eq!(submitted(offer(3)), Err(SubmitError::Busy));

    // One slot: the second request waits until the first is done.
    let mut server = Server::start(limits, 256);
    server.submit(vec![1, 2], 5, NO_EOS);
    server.submit(vec![3, 4], 5, NO_EOS);
    server.turn();
    assert_eq!((server.engine.active.len(), server.queue.len()), (1, 1));
    server.run();
    assert!(server.clients.iter().all(|c| c.got.len() == 5));
}

#[test]
fn oversized_prompt_is_rejected_not_panicking() {
    let mut server = Server::start(EngineLimits::default(), 32);
    let huge_prompt: Vec<u32> = (0..40).map(|i| i % 8).collect(); // 40 > 32
    let (tokens, _) = server.complete(huge_prompt, 10, NO_EOS);
    assert!(tokens.is_empty(), "oversized prompt yields an empty stream");
    let (tokens, _) = server.complete(vec![1, 2], 5, NO_EOS);
    assert_eq!(tokens.len(), 5);
}

#[test]
fn budget_exhaustion_reports_length() {
    let budget = 12;
    let (tokens, finish) =
        Server::start(EngineLimits::default(), 256).complete(vec![1, 2], budget, NO_EOS);
    assert_eq!(tokens.len(), budget, "budget is spent in full");
    assert_eq!(finish, Finish::Length);
}

#[test]
fn context_limit_reports_length() {
    let context = 24;
    let prompt = vec![1, 2, 3];
    let (tokens, finish) =
        Server::start(EngineLimits::default(), context).complete(prompt.clone(), 500, NO_EOS);
    assert_eq!(finish, Finish::Length);
    assert_eq!(
        prompt.len() + tokens.len(),
        context,
        "generation runs exactly up to the context window"
    );
}

#[test]
fn eos_reports_stop() {
    let mut server = Server::start(EngineLimits::default(), 256);
    let prompt = vec![1, 2];
    let first = server.complete(prompt.clone(), 1, NO_EOS).0[0];
    let (tokens, finish) = server.complete(prompt, 50, first);
    assert_eq!(finish, Finish::Stop);
    assert_eq!(tokens, vec![first], "the EOS token is delivered, then generation stops");
}

#[test]
fn abandoned_stream_reports_truncated() {
    let mut server = Server::start(EngineLimits::default(), 256);
    let id = server.submit(vec![1, 2], 500, NO_EOS);
    server.turn();
    assert!(!server.clients[id].got.is_empty(), "sequence is live");
    server.clients[id].rx = None;
    server.run();
    assert_eq!(server.clients[id].finish, Finish::Truncated);
}

#[test]
fn client_that_never_reads_is_given_up() {
    let mut server = Server::start(EngineLimits::default(), 256);
    let id = server.submit(vec![1, 2], 100, NO_EOS);
    server.clients[id].reads = false;
    for _ in 0..200 {
        server.turn();
    }
    assert_eq!(server.engine.active.len(), 1, "still waiting for its client");
    assert_eq!(server.engine.next_step(), EngineStep::Pause);
    server.now += DRAIN_TIMEOUT + 1;
    server.turn();
    assert_eq!(server.clients[id].finish, Finish::Truncated);
    assert!(server.engine.active.is_empty());
}

#[test]
fn draining_sequences_are_excluded_from_the_batch() {
    let mut server = Server::start(EngineLimits::default(), 64);
    let done = server.submit(vec![1, 2, 3], 1, next_token(&[1, 2, 3]));
    server.submit(vec![4], 16, NO_EOS);
    // The first sequence ends at once but its client does not read.
    server.clients[done].reads = false;
    for _ in 0..64 {
        server.clients[done].tx.try_send(0).unwrap();
    }
    server.turn();
    assert_eq!(server.engine.active.len(), 2);
    let slots = server.engine.decode_batch_cpu();
    assert_eq!(slots.len(), 1);
    assert_eq!(slots[0].index, 1, "a draining sequence must not be decoded");
    assert_eq!(server.engine.next_step(), EngineStep::Decode);
}

#[test]
fn sequences_leaving_the_batch_do_not_disturb_the_rest() {
    let mut server = Server::start(EngineLimits::default(), 256);
    let budget = 40;
    let prompt = vec![1, 2, 3];
    let (alone, _) = server.complete(prompt.clone(), budget, NO_EOS);

    let long = server.submit(prompt, budget, NO_EOS);
    let shorts: Vec<usize> =
        (0..3u32).map(|i| server.submit(vec![4 + i, 5], 5, NO_EOS)).collect();
    server.run();
    for short in shorts {
        assert_eq!(server.clients[short].got.len(), 5);
    }
    assert_eq!(
        server.clients[long].got, alone,
        "a neighbour retiring changed this sequence's tokens"
    );
}

#[test]
fn request_admitted_mid_generation_completes() {
    let mut server = Server::start(EngineLimits::default(), 256);
    let long_budget = 60;
    let first = server.submit(vec![1, 2], long_budget, NO_EOS);
    for _ in 0..5 {
        server.turn();
    }
    assert_eq!(server.clients[first].got.len(), 5);

    let late_budget = 12;
    let second = server.submit(vec![3, 4], late_budget, NO_EOS);
    server.run();
    assert_eq!(server.clients[second].got.len(), late_budget);
    assert_eq!(server.clients[first].got.len(), long_budget);
    assert_eq!(server.clients[first].finish, Finish::Length);
}

#[test]
fn finished_sequences_free_slots_for_queued_requests() {
    let limits = EngineLimits { max_active: 2, queue_capacity: 16, ..EngineLimits::default() };
    let mut server = Server::start(limits, 256);
    let budget = 8;
    let ids: Vec<usize> =
        (0..6u32).map(|i| server.submit(vec![1 + i % 4, 2], budget, NO_EOS)).collect();
    server.run();
    for id in ids {
        assert_eq!(server.clients[id].got.len(), budget, "every queued request completes");
        assert_eq!(server.clients[id].finish, Finish::Length);
    }
}

#[test]
fn finish_outcomes_stay_per_sequence_within_a_batch() {
    let mut server = Server::start(EngineLimits::default(), 256);
    let prompt = vec![1, 2];
    let first = server.complete(prompt.clone(), 1, NO_EOS).0[0];

    let stopper = server.submit(prompt, 50, first);
    let budget = 20;
    let runner = server.submit(vec![3, 4, 5], budget, NO_EOS);
    server.run();
    assert_eq!(server.clients[stopper].finish, Finish::Stop);
    assert_eq!(server.clients[stopper].got, vec![first]);
    assert_eq!(server.clients[runner].finish, Finish::Length);
    assert_eq!(server.clients[runner].got.len(), budget);
}

#[test]
fn rejected_prompt_reports_incomplete() {
    let huge_prompt: Vec<u32> = (0..40).map(|i| i % 8).collect(); // 40 > 32
    let (tokens, finish) =
        Server::start(EngineLimits::default(), 32).complete(huge_prompt, 10, NO_EOS);
    assert!(tokens.is_empty());
    assert_eq!(finish, Finish::Incomplete);
}

#[test]
fn prefix_hit_produces_the_same_tokens_as_a_cold_prefill() {
    let budget = 24;
    let prompt_a = shared_prompt(&[1, 2, 3]);
    let prompt_b = shared_prompt(&[4, 5, 6]);

    let mut cold = Server::start(paged_limits(256), 256);
    let (expect_a, _) = cold.complete(prompt_a.clone(), budget, NO_EOS);
    let (expect_b, _) = cold.complete(prompt_b.clone(), budget, NO_EOS);
    assert_eq!(expect_a.len(), budget);

    let mut warm = Server::start(prefix_limits(256), 256);
    let (got_a, _) = warm.complete(prompt_a, budget, NO_EOS);
    let (got_b, _) = warm.complete(prompt_b, budget, NO_EOS);
    assert_eq!(got_a, expect_a, "the cold-path request changed");
    assert_eq!(got_b, expect_b, "reuse changed the tokens a client received");

    let stats = warm.prefix_stats();
    assert_eq!(stats.hits, 1, "B should have been served from A's pages");
    assert_eq!(stats.misses, 1, "A found an empty registry");
    assert_eq!(stats.tokens_reused, 32, "43 prompt positions share two whole pages");
}

#[test]
fn prefix_is_reusable_while_the_first_request_is_still_decoding() {
    let prompt_a = shared_prompt(&[1, 2, 3]);
    let prompt_b = shared_prompt(&[4, 5, 6]);
    let budget_b = 20;

    let (expect_b, _) =
        Server::start(paged_limits(256), 256).complete(prompt_b.clone(), budget_b, NO_EOS);

    let mut warm = Server::start(prefix_limits(256), 256);
    let a = warm.submit(prompt_a, 200, NO_EOS);
    warm.turn();
    assert!(!warm.clients[a].got.is_empty(), "A is live");
    let b = warm.submit(prompt_b, budget_b, NO_EOS);
    warm.run();
    assert_eq!(warm.clients[b].got, expect_b, "sharing a live sequence's pages changed B");
    assert_eq!(warm.prefix_stats().hits, 1);
    assert_eq!(warm.clients[a].got.len(), 200, "A completed its own budget");
}

#[test]
fn decoded_positions_go_to_pages_of_their_own() {
    let mut warm = Server::start(prefix_limits(256), 256);
    warm.submit(shared_prompt(&[1, 2, 3]), 30, NO_EOS);
    warm.turn();
    warm.submit(shared_prompt(&[4, 5, 6]), 30, NO_EOS);
    for _ in 0..10 {
        warm.turn();
    }
    let (a, b) = (&warm.engine.active[0].pages, &warm.engine.active[1].pages);
    let layers = a.layers();
    assert!(a.len() > 48 && b.len() > 48);
    for layer in 0..layers {
        for pos in 0..32 {
            assert_eq!(a.slot(layer, pos), b.slot(layer, pos), "two whole pages are shared");
        }
    }
    let own: Vec<usize> = (32..a.len()).map(|pos| a.slot(0, pos).0).collect();
    let others = b.first_pages(b.allocated_pages());
    assert!(own.iter().all(|id| !others.contains(id)), "a page is written by two sequences");
    for entry in &warm.engine.prefix.as_ref().unwrap().entries {
        for pos in 43..a.len() {
            assert!(!entry.pages.contains(&a.slot(0, pos).0), "a kept page is written");
        }
    }
}

#[test]
fn a_partial_page_prefix_shares_exactly_one_page() {
    let budget = 16;
    let base: Vec<u32> = (0..20u32).map(|i| i % 5).collect();
    let mut prompt_a = base.clone();
    let mut prompt_b = base;
    prompt_a.extend([1, 1]); // diverges at position 20 — inside page 1
    prompt_b.extend([6, 6]);

    let mut cold = Server::start(paged_limits(256), 256);
    let (expect_a, _) = cold.complete(prompt_a.clone(), budget, NO_EOS);
    let (expect_b, _) = cold.complete(prompt_b.clone(), budget, NO_EOS);

    let mut warm = Server::start(prefix_limits(256), 256);
    let (got_a, _) = warm.complete(prompt_a, budget, NO_EOS);
    let (got_b, _) = warm.complete(prompt_b, budget, NO_EOS);
    assert_eq!(got_a, expect_a);
    assert_eq!(got_b, expect_b, "the diverging tail page leaked between them");
    let stats = warm.prefix_stats();
    assert_eq!(stats.hits, 1);
    assert_eq!(stats.tokens_reused, 16, "only the one complete page is shared");
}

#[test]
fn an_unrelated_prompt_misses_and_is_unaffected() {
    let budget = 12;
    let (expect, _) =
        Server::start(paged_limits(256), 256).complete(vec![7, 0, 7], budget, NO_EOS);

    let mut warm = Server::start(prefix_limits(256), 256);
    warm.complete(shared_prompt(&[1]), 4, NO_EOS);
    let (got, _) = warm.complete(vec![7, 0, 7], budget, NO_EOS);
    assert_eq!(got, expect);
    let stats = warm.prefix_stats();
    assert_eq!(stats.hits, 0);
    assert_eq!(stats.tokens_reused, 0);
}

#[test]
fn a_running_sequence_evicts_cached_prefixes_rather_than_stopping_short() {
    let pool_pages = 6; // one layer: 6 × 16 = 96 positions
    let prompt = vec![1, 2, 3];

    let mut cold = Server::start(paged_limits(pool_pages), 512);
    let (expect, cold_finish) = cold.complete(prompt.clone(), 500, NO_EOS);
    assert_eq!(cold_finish, Finish::Length, "the pool is the limit here");
    assert!(!expect.is_empty());

    let mut warm = Server::start(prefix_limits(pool_pages), 512);
    warm.complete(shared_prompt(&[]), 4, NO_EOS);
    assert!(warm.prefix_stats().entries > 0, "registry is holding pages");

    let (got, warm_finish) = warm.complete(prompt, 500, NO_EOS);
    assert_eq!(warm_finish, Finish::Length);
    assert_eq!(got.len(), expect.len(), "a kept prefix cost a live request its tokens");
    assert_eq!(got, expect);
    assert!(warm.prefix_stats().evictions >= 1, "the prefix should have been given back");
}

#[test]
fn admission_that_cannot_fit_even_after_eviction_fails_cleanly() {
    let mut warm = Server::start(prefix_limits(4), 512); // 4 × 16 = 64 positions
    warm.complete(shared_prompt(&[]), 2, NO_EOS);
    let huge: Vec<u32> = (0..100u32).map(|i| i % 8).collect(); // needs 7 pages
    let (tokens, finish) = warm.complete(huge, 4, NO_EOS);
    assert!(tokens.is_empty());
    assert_eq!(finish, Finish::Incomplete);

    let (again, _) = warm.complete(vec![1, 2], 5, NO_EOS);
    assert_eq!(again.len(), 5);
}

#[test]
fn prefix_cache_is_off_by_default() {
    let budget = 20;
    let prompt_a = shared_prompt(&[1, 2, 3]);
    let prompt_b = shared_prompt(&[4, 5, 6]);

    let mut default_engine = Server::start(EngineLimits::default(), 256);
    assert_eq!(default_engine.stats, EngineKvStats::default());
    let (expect_a, _) = default_engine.complete(prompt_a.clone(), budget, NO_EOS);
    let (expect_b, _) = default_engine.complete(prompt_b.clone(), budget, NO_EOS);
    assert_eq!(default_engine.stats, EngineKvStats::default());

    let mut paged = Server::start(paged_limits(256), 256);
    let (got_a, _) = paged.complete(prompt_a, budget, NO_EOS);
    let (got_b, _) = paged.complete(prompt_b, budget, NO_EOS);
    assert!(paged.stats.pool.is_some(), "the pool is reported");
    assert!(paged.stats.prefix.is_none(), "no registry without opting in");
    assert_eq!(got_a, expect_a);
    assert_eq!(got_b, expect_b);
}

#[test]
fn q8_sessions_get_no_prefix_cache() {
    let mut server = Server::with_format(prefix_limits(256), 256, CacheFormat::Q8);
    let (tokens, _) = server.complete(shared_prompt(&[1]), 12, NO_EOS);
    assert_eq!(tokens.len(), 12);
    assert!(server.stats.prefix.is_none());
}

#[test]
fn q8_sessions_never_draw_from_the_pool() {
    let mut server = Server::with_format(paged_limits(1), 256, CacheFormat::Q8);
    let (tokens, finish) = server.complete(shared_prompt(&[1]), 100, NO_EOS);
    assert_eq!(tokens.len(), 100);
    assert_eq!(finish, Finish::Length);
    let pool = server.stats.pool.unwrap();
    assert_eq!((pool.capacity, pool.peak_live), (1, 0));
}

#[test]
fn an_admitted_prompt_is_kept_for_the_next_one() {
    let mut server = Server::start(prefix_limits(64), 256);
    server.complete(shared_prompt(&[1]), 4, NO_EOS);
    let stats = server.prefix_stats();
    assert_eq!((stats.hits, stats.misses, stats.entries, stats.pages), (0, 1, 1, 2));
    server.complete(shared_prompt(&[2]), 4, NO_EOS);
    let stats = server.prefix_stats();
    assert_eq!((stats.hits, stats.misses, stats.entries), (1, 1, 1));
    assert_eq!(stats.tokens_reused, 32);
}

#[test]
fn unusable_constraint_is_refused() {
    let mut server = Server::start(paged_limits(4), 64);
    let (tx, _rx) = mpsc::channel(64);
    let req = InferenceRequest {
        prompt_tokens: vec![1, 2],
        max_new_tokens: 4,
        sampler_cfg: SamplerConfig { seed: 7 },
        eos_token: NO_EOS,
        lora_name: None,
        tx,
    };
    assert_eq!(
        server.engine.prefill_and_add(req, false),
        Admission::Refused { finish: Finish::Truncated }
    );
    publish_kv_stats(&mut server.stats, &server.engine.pool, &server.engine.prefix);
    assert_eq!(server.stats.pool.unwrap().live, 0);
}

#[test]
fn outcome_signal_starts_incomplete_and_keeps_what_is_set() {
    let mut s = FinishSignal::new();
    assert_eq!(s.get(), Finish::Incomplete);
    for f in [Finish::Stop, Finish::Length, Finish::Truncated, Finish::Incomplete] {
        s.set(f);
        assert_eq!(s.get(), f);
        assert_eq!(FinishSignal::from_code(s.code()).get(), f);
    }
}

#[test]
fn every_handle_reads_what_was_published_last() {
    // Two handles on one byte.
    let byte = std::sync::Arc::new(std::sync::atomic::AtomicU8::new(FinishSignal::new().code()));
    let (a, b) = (std::sync::Arc::clone(&byte), byte);
    let order = std::sync::atomic::Ordering::SeqCst;
    let publish = |cell: &std::sync::atomic::AtomicU8, f: Finish| {
        let mut s = FinishSignal::from_code(cell.load(order));
        s.set(f);
        cell.store(s.code(), order);
    };
    let read = |cell: &std::sync::atomic::AtomicU8| FinishSignal::from_code(cell.load(order)).get();
    assert_eq!((read(&a), read(&b)), (Finish::Incomplete, Finish::Incomplete));
    publish(&a, Finish::Stop);
    assert_eq!((read(&a), read(&b)), (Finish::Stop, Finish::Stop));
    publish(&b, Finish::Truncated);
    assert_eq!((read(&a), read(&b)), (Finish::Truncated, Finish::Truncated));
    assert_eq!(FinishSignal::from_code(200).code(), 0);
}

#[test]
fn a_completion_does_not_depend_on_its_company() {
    let paged = EngineLimits {
        kv_pool_pages: Some(64),
        prefix_cache: Some(PrefixCacheConfig { max_entries: 4 }),
        ..EngineLimits::default()
    };
    let prompt: Vec<u32> = (0..20).map(|i| i % 7).collect();
    let mut outcomes = Vec::new();
    for (limits, others) in
        [(EngineLimits::default(), 0), (EngineLimits::default(), 5), (paged, 0), (paged, 5)]
    {
        let mut server = Server::start(limits, 64);
        for i in 0..others {
            server.submit(prompt[..prompt.len() - i as usize].to_vec(), 3 + i, NO_EOS);
        }
        let id = server.submit(prompt.clone(), 30, NO_EOS);
        while server.turn() {}
        outcomes.push((server.clients[id].got.clone(), server.clients[id].finish));
    }
    assert_eq!(outcomes[0].0.len(), 30);
    assert_eq!(outcomes[0].1, Finish::Length);
    assert!(outcomes.iter().all(|o| *o == outcomes[0]));
}
