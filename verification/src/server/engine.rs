//! What the continuously batched engine decides.
//!
//! The engine runs in turns. Each turn it admits waiting requests, lets every
//! running sequence take the token sampled for it, hands queued tokens to the
//! clients, removes the sequences that are done, claims memory for the next
//! position, and lists the sequences that take part in the next batched forward
//! pass. A sequence that has produced its last token is kept in a *draining*
//! state until every queued token has been delivered.
//!
//! Everything about a sequence (budget, queue, outcome, pages) is its own:
//! sharing a turn with others changes nothing that it observes.
use std::collections::VecDeque;
use vstd::prelude::*;

use crate::cache::paged::PagedKvCache;
use crate::cache::pool::{PagePool, PoolStats};
use crate::cache::prefix::{total_pages, PrefixCache, PrefixCacheConfig, PrefixCacheStats};
use crate::server::deliver::{
    delivered, law_delivery_moves_the_front_of_the_queue, sent, taken, try_deliver, Delivery, Offer,
    TokenSender,
};
use crate::session::Session;

verus! {

/// Why a sequence stopped producing tokens.
#[derive(Clone, Copy, Debug, PartialEq, Eq, Structural)]
pub enum Finish {
    /// No outcome was ever recorded: the sequence was dropped, or its prompt was
    /// refused. Never to be reported as a success.
    Incomplete,
    /// The stop token was sampled: the model chose to stop.
    Stop,
    /// The token budget, the context window or the page pool ran out. Every
    /// produced token was delivered.
    Length,
    /// Evicted before its queue could be delivered. What the client received is
    /// a strict prefix of what was generated.
    Truncated,
}

/// The byte that an outcome is published as.
pub open spec fn finish_code(f: Finish) -> u8 {
    match f {
        Finish::Incomplete => 0,
        Finish::Stop => 1,
        Finish::Length => 2,
        Finish::Truncated => 3,
    }
}

/// The outcome that a published byte stands for.
pub open spec fn finish_of(code: u8) -> Finish {
    if code == 1 {
        Finish::Stop
    } else if code == 2 {
        Finish::Length
    } else if code == 3 {
        Finish::Truncated
    } else {
        Finish::Incomplete
    }
}

/// Where a sequence's outcome is recorded, as one byte.
///
/// The outcome is recorded before the token channel closes, so that a reader
/// who sees the channel close can tell a finished completion from a truncated
/// one. There is one signal for a sequence: it cannot be copied.
#[derive(Debug)]
pub struct FinishSignal {
    finish: Finish,
}

impl FinishSignal {
    pub closed spec fn recorded(&self) -> Finish {
        self.finish
    }

    /// Nothing recorded yet.
    pub fn new() -> (s: Self)
        ensures
            s.recorded() == Finish::Incomplete,
    {
        FinishSignal { finish: Finish::Incomplete }
    }

    /// The signal that a published byte stands for.
    pub fn from_code(code: u8) -> (s: Self)
        ensures
            s.recorded() == finish_of(code),
    {
        let finish = match code {
            1 => Finish::Stop,
            2 => Finish::Length,
            3 => Finish::Truncated,
            _ => Finish::Incomplete,
        };
        FinishSignal { finish }
    }

    /// Record the outcome. A later call overwrites an earlier one: a sequence
    /// that finished cleanly and was evicted while draining is truncated.
    pub fn set(&mut self, finish: Finish)
        ensures
            final(self).recorded() == finish,
    {
        self.finish = finish;
    }

    /// The recorded outcome. Meaningful once the token channel has closed;
    /// before that the sequence is running and reads [`Finish::Incomplete`].
    pub fn get(&self) -> (f: Finish)
        ensures
            f == self.recorded(),
    {
        self.finish
    }

    /// The byte to publish.
    pub fn code(&self) -> (c: u8)
        ensures
            c == finish_code(self.recorded()),
    {
        match self.finish {
            Finish::Incomplete => 0,
            Finish::Stop => 1,
            Finish::Length => 2,
            Finish::Truncated => 3,
        }
    }
}

impl Default for FinishSignal {
    fn default() -> (s: FinishSignal)
        ensures
            s.recorded() == Finish::Incomplete,
    {
        FinishSignal::new()
    }
}

/// An outcome survives being published as a byte.
pub proof fn law_finish_code_round_trip(f: Finish)
    ensures
        finish_of(finish_code(f)) == f,
{
}

/// An outcome that is published through one of the handles on a shared byte.
pub struct Published {
    pub handle: nat,
    pub finish: Finish,
}

/// The byte that all handles share: that of a new signal at first, and behind every
/// outcome that is published, through whichever handle, the one that stands for it.
pub open spec fn is_shared_byte(bytes: Seq<u8>, outcomes: Seq<Published>) -> bool {
    &&& bytes.len() == outcomes.len() + 1
    &&& bytes[0] == finish_code(Finish::Incomplete)
    &&& forall|i: int|
        0 <= i < outcomes.len() ==> bytes[i + 1] == finish_code((#[trigger] outcomes[i]).finish)
}

/// The outcome that was published last.
pub open spec fn latest(outcomes: Seq<Published>) -> Finish {
    if outcomes.len() == 0 {
        Finish::Incomplete
    } else {
        outcomes.last().finish
    }
}

/// Whoever reads the shared byte gets the outcome that was published last, whichever handle
/// it came through and whatever had been published before; until then nothing is recorded.
pub proof fn law_every_handle_reads_the_latest_outcome(
    bytes: Seq<u8>,
    outcomes: Seq<Published>,
    i: int,
)
    requires
        is_shared_byte(bytes, outcomes),
        0 <= i < bytes.len(),
    ensures
        finish_of(bytes[i]) == latest(outcomes.take(i)),
{
    if i > 0 {
        assert(outcomes.take(i).last() == outcomes[i - 1]);
    }
}

/// Admission limits of the engine.
#[derive(Clone, Copy, Debug, PartialEq, Eq, Structural)]
pub struct EngineLimits {
    /// Sequences decoded together at most; further requests wait in the queue.
    pub max_active: usize,
    /// Requests that may wait; one more is refused as busy.
    pub queue_capacity: usize,
    /// Pages of a shared pool, or `None` for a full-context cache per sequence.
    pub kv_pool_pages: Option<usize>,
    /// Bounds of a prefix registry over the pool, or `None` to compute every
    /// prompt from scratch. Without a pool it has no effect.
    pub prefix_cache: Option<PrefixCacheConfig>,
}

impl Default for EngineLimits {
    fn default() -> (l: EngineLimits)
        ensures
            l.max_active == 8,
            l.queue_capacity == 32,
            l.kv_pool_pages is None,
            l.prefix_cache is None,
    {
        EngineLimits { max_active: 8, queue_capacity: 32, kv_pool_pages: None, prefix_cache: None }
    }
}

impl EngineLimits {
    /// Slots of the request queue: at least one.
    pub fn queue_slots(&self) -> (n: usize)
        ensures
            n == if self.queue_capacity == 0 {
                1
            } else {
                self.queue_capacity
            },
    {
        if self.queue_capacity == 0 {
            1
        } else {
            self.queue_capacity
        }
    }
}

/// Memory bookkeeping, sampled when sequences are admitted or retired.
#[derive(Clone, Copy, Debug, PartialEq, Eq, Structural)]
pub struct EngineKvStats {
    /// Occupancy of the shared page pool.
    pub pool: Option<PoolStats>,
    /// Counters of the prefix registry.
    pub prefix: Option<PrefixCacheStats>,
}

impl Default for EngineKvStats {
    fn default() -> (s: EngineKvStats)
        ensures
            s.pool is None,
            s.prefix is None,
    {
        EngineKvStats { pool: None, prefix: None }
    }
}

/// Why a submission was refused.
#[derive(Clone, Copy, Debug, PartialEq, Eq, Structural)]
pub enum SubmitError {
    /// The request queue is full.
    Busy,
    /// The engine has shut down.
    Shutdown,
}

/// Publish a memory snapshot. Without a pool and a registry there is nothing to
/// publish and the slot is left alone.
pub fn publish_kv_stats(
    slot: &mut EngineKvStats,
    pool: &Option<PagePool>,
    prefix: &Option<PrefixCache>,
)
    requires
        *pool matches Some(p) ==> p.wf(),
    ensures
        *pool is None && *prefix is None ==> *final(slot) == *old(slot),
        *pool is Some || *prefix is Some ==> {
            &&& match *pool {
                None => final(slot).pool is None,
                Some(p) => final(slot).pool matches Some(s) && s.capacity == p.capacity()
                    && s.live == p.live() && s.peak_live == p.peak() && s.pooled == p.refs().len()
                    - p.live(),
            }
            &&& match *prefix {
                None => final(slot).prefix is None,
                Some(p) => final(slot).prefix matches Some(s) && s.hits == p.hits && s.misses
                    == p.misses && s.evictions == p.evictions && s.tokens_reused
                    == p.tokens_reused && s.entries == p.entries@.len() && s.pages == if total_pages(
                    p.entries@,
                ) > usize::MAX {
                    usize::MAX as nat
                } else {
                    total_pages(p.entries@)
                },
            }
        },
{
    if pool.is_none() && prefix.is_none() {
        return;
    }
    let pool_stats = match pool {
        Some(p) => Some(p.stats()),
        None => None,
    };
    let prefix_stats = match prefix {
        Some(p) => Some(p.stats()),
        None => None,
    };
    *slot = EngineKvStats { pool: pool_stats, prefix: prefix_stats };
}

// ── One sequence ─────────────────────────────────────────────────────────────

/// How long, in nanoseconds, a finished sequence may wait for its client to
/// accept the rest of its tokens.
pub const DRAIN_TIMEOUT: u64 = 10_000_000_000;

/// A sequence that the engine is decoding.
pub struct ActiveSequence {
    pub session: Session,
    /// Where the tokens go. Dropping it tells the client that no more will come.
    pub tx: TokenSender,
    /// Tokens produced but not yet accepted by the client's channel.
    pub pending: VecDeque<u32>,
    /// When the sequence produced its last token, if it has. A draining sequence
    /// is not decoded any more.
    pub draining_since: Option<u64>,
    pub finish: FinishSignal,
    /// The sequence's pages; none where caches are not paged.
    pub pages: PagedKvCache,
}

/// What the engine's rules say of a sequence.
pub struct SeqState {
    pub tokens: Seq<u32>,
    pub prompt_len: nat,
    pub pending: Seq<u32>,
    pub remaining: nat,
    pub draining: Option<u64>,
    pub finish: Finish,
    pub eos: u32,
    /// The tokens offered to the client's channel, each with what became of it.
    pub offers: Seq<(u32, Offer)>,
}

impl ActiveSequence {
    pub open spec fn state(&self) -> SeqState {
        SeqState {
            tokens: self.session.tokens@,
            prompt_len: self.session.prefill_len as nat,
            pending: self.pending@,
            remaining: self.session.max_remaining as nat,
            draining: self.draining_since,
            finish: self.finish.recorded(),
            eos: self.session.eos_token,
            offers: self.tx.log(),
        }
    }

    /// What a turn leaves alone.
    pub open spec fn same_request(&self, other: &ActiveSequence) -> bool {
        &&& self.pages == other.pages
        &&& self.session.lora_adapter == other.session.lora_adapter
        &&& self.session.cache_format == other.session.cache_format
        &&& self.session.sampler == other.session.sampler
        &&& self.session.cache == other.session.cache
        &&& self.session.pos == other.session.pos
        &&& self.tx.sender() == other.tx.sender()
    }
}

impl SeqState {
    /// Tokens that the sequence has produced.
    pub open spec fn generated(self) -> Seq<u32> {
        self.tokens.skip(self.prompt_len as int)
    }

    /// Tokens that the client's channel has accepted.
    pub open spec fn received(self) -> Seq<u32> {
        taken(self.offers)
    }

    /// What the channel has accepted and what is queued is what was produced; a
    /// sequence has an outcome exactly when it has stopped; a clean stop ends in the
    /// stop token.
    pub open spec fn valid(self) -> bool {
        &&& 0 < self.prompt_len <= self.tokens.len()
        &&& self.received() + self.pending == self.generated()
        &&& self.draining is None <==> self.finish == Finish::Incomplete
        &&& self.finish != Finish::Truncated
        &&& self.finish == Finish::Stop ==> self.generated().len() > 0 && self.tokens.last()
            == self.eos
    }

    /// The state after a turn's sampling, where `next` is the token sampled.
    pub open spec fn sampled(self, next: u32, now: u64, context_length: nat) -> SeqState {
        if self.draining is Some {
            self
        } else if self.remaining == 0 {
            SeqState { draining: Some(now), finish: Finish::Length, ..self }
        } else {
            let produced = SeqState {
                tokens: self.tokens.push(next),
                pending: self.pending.push(next),
                remaining: (self.remaining - 1) as nat,
                ..self
            };
            if next == self.eos {
                SeqState { draining: Some(now), finish: Finish::Stop, ..produced }
            } else if self.tokens.len() + 1 >= context_length {
                SeqState { draining: Some(now), finish: Finish::Length, ..produced }
            } else {
                produced
            }
        }
    }

    /// The state after a round of offers to the client's channel.
    pub open spec fn flushed(self, made: Seq<(u32, Offer)>) -> SeqState {
        SeqState {
            pending: self.pending.skip(sent(made) as int),
            offers: self.offers + made,
            ..self
        }
    }

    /// Whether the sequence leaves after a round of delivery that ended in `d`,
    /// and whether it leaves truncated.
    pub open spec fn leaves(self, d: Delivery, now: u64) -> bool {
        ||| d != Delivery::Healthy
        ||| self.draining is Some && self.pending.len() == 0
        ||| self.overdue(now)
    }

    /// A draining sequence whose client has had its time.
    pub open spec fn overdue(self, now: u64) -> bool {
        match self.draining {
            Some(since) => now > since && now - since > DRAIN_TIMEOUT,
            None => false,
        }
    }

    /// The state after a round of delivery that ended in `d`.
    pub open spec fn settled(self, d: Delivery, now: u64) -> SeqState {
        if d != Delivery::Healthy || (self.pending.len() > 0 && self.overdue(now)) {
            SeqState { finish: Finish::Truncated, ..self }
        } else {
            self
        }
    }
}

/// True if a token has to be sampled for `seq` this turn.
pub fn wants_token(seq: &ActiveSequence) -> (b: bool)
    ensures
        b == (seq.state().draining is None && seq.state().remaining > 0),
{
    seq.draining_since.is_none() && seq.session.max_remaining > 0
}

/// Let `seq` take `next`, the token sampled for it. `next` is not looked at where
/// no token is wanted.
pub fn take_token(seq: &mut ActiveSequence, next: u32, now: u64, context_length: usize)
    ensures
        final(seq).state() == old(seq).state().sampled(next, now, context_length as nat),
        final(seq).same_request(old(seq)),
{
    if seq.draining_since.is_none() {
        if seq.session.max_remaining == 0 {
            // Nothing more to emit.
            seq.finish.set(Finish::Length);
            seq.draining_since = Some(now);
        } else {
            seq.session.max_remaining = seq.session.max_remaining - 1;
            seq.session.tokens.push(next);
            seq.pending.push_back(next);
            // A stop token is the model's choice, a full context is not.
            if next == seq.session.eos_token {
                seq.finish.set(Finish::Stop);
                seq.draining_since = Some(now);
            } else if seq.session.tokens.len() >= context_length {
                seq.finish.set(Finish::Length);
                seq.draining_since = Some(now);
            }
        }
    }
}

/// Record what a round of delivery means for `seq`; true if it leaves.
pub fn settle(seq: &mut ActiveSequence, d: Delivery, now: u64) -> (leaves: bool)
    ensures
        final(seq).state() == old(seq).state().settled(d, now),
        leaves == old(seq).state().leaves(d, now),
        final(seq).same_request(old(seq)),
{
    match d {
        // Evicted with tokens still queued. This overwrites an outcome recorded
        // before: what the client can observe is an incomplete response.
        Delivery::Disconnected | Delivery::TooSlow => {
            seq.finish.set(Finish::Truncated);
            true
        },
        Delivery::Healthy => match seq.draining_since {
            Some(since) => if seq.pending.len() == 0 {
                true
            } else if now > since && now - since > DRAIN_TIMEOUT {
                seq.finish.set(Finish::Truncated);
                true
            } else {
                false
            },
            None => false,
        },
    }
}

/// One sequence went through a turn: it took `next`, its queue was offered to the
/// client's channel as `made` says, and the round ended in `d`.
pub open spec fn turned(
    s0: SeqState,
    s1: SeqState,
    leaves: bool,
    next: u32,
    now: u64,
    context_length: nat,
    d: Delivery,
    made: Seq<(u32, Offer)>,
) -> bool {
    let s = s0.sampled(next, now, context_length);
    &&& delivered(s.pending, s.flushed(made).pending, made, d)
    &&& s1 == s.flushed(made).settled(d, now)
    &&& leaves == s.flushed(made).leaves(d, now)
}

/// Take one sequence through a turn: sampling, delivery, verdict. True if it
/// leaves.
pub fn turn(seq: &mut ActiveSequence, next: u32, now: u64, context_length: usize) -> (leaves: bool)
    ensures
        exists|d: Delivery, made: Seq<(u32, Offer)>| #[trigger]
            turned(
                old(seq).state(),
                final(seq).state(),
                leaves,
                next,
                now,
                context_length as nat,
                d,
                made,
            ),
        final(seq).same_request(old(seq)),
{
    let ghost s0 = seq.state();
    take_token(seq, next, now, context_length);
    let ghost s = seq.state();
    let d = try_deliver(&mut seq.tx, &mut seq.pending);
    let ghost made = seq.tx.log().skip(s.offers.len() as int);
    assert(seq.tx.log() =~= s.offers + made);
    assert(seq.state() == s.flushed(made));
    let leaves = settle(seq, d, now);
    assert(turned(s0, seq.state(), leaves, next, now, context_length as nat, d, made));
    leaves
}

// ── Laws of a sequence ───────────────────────────────────────────────────────

/// A sequence that stays is valid after its turn.
pub proof fn law_turn_keeps_sequences_valid(
    s0: SeqState,
    s1: SeqState,
    leaves: bool,
    next: u32,
    now: u64,
    context_length: nat,
    d: Delivery,
    made: Seq<(u32, Offer)>,
)
    requires
        s0.valid(),
        turned(s0, s1, leaves, next, now, context_length, d, made),
    ensures
        !leaves ==> s1.valid(),
        s1.received() + s1.pending == s1.generated(),
{
    let s = s0.sampled(next, now, context_length);
    lemma_sampled_queue(s0, next, now, context_length);
    law_delivery_moves_the_front_of_the_queue(
        s.offers,
        s.pending,
        s.flushed(made).pending,
        made,
        d,
    );
    assert(s1.generated() == s.generated());
}

proof fn lemma_sampled_queue(s0: SeqState, next: u32, now: u64, context_length: nat)
    requires
        s0.valid(),
    ensures
        s0.sampled(next, now, context_length).valid(),
        s0.sampled(next, now, context_length).generated() == if s0.draining is None
            && s0.remaining > 0 {
            s0.generated().push(next)
        } else {
            s0.generated()
        },
{
    let s = s0.sampled(next, now, context_length);
    if s0.draining is None && s0.remaining > 0 {
        let g0 = s0.generated();
        assert(s.generated() =~= g0.push(next));
        assert(s.received() + s.pending =~= s.generated());
    }
}

/// Tokens are neither lost nor repeated nor reordered: a turn only appends to
/// what was produced and to what the client has received, and what the client
/// has received is always the beginning of what was produced.
pub proof fn law_streams_only_grow(
    s0: SeqState,
    s1: SeqState,
    leaves: bool,
    next: u32,
    now: u64,
    context_length: nat,
    d: Delivery,
    made: Seq<(u32, Offer)>,
)
    requires
        s0.valid(),
        turned(s0, s1, leaves, next, now, context_length, d, made),
    ensures
        s0.generated().is_prefix_of(s1.generated()),
        s0.received().is_prefix_of(s1.received()),
        s1.received().is_prefix_of(s1.generated()),
        s1.received() + s1.pending == s1.generated(),
{
    law_turn_keeps_sequences_valid(s0, s1, leaves, next, now, context_length, d, made);
    lemma_sampled_queue(s0, next, now, context_length);
    let s = s0.sampled(next, now, context_length);
    law_delivery_moves_the_front_of_the_queue(
        s.offers,
        s.pending,
        s.flushed(made).pending,
        made,
        d,
    );
    let g0 = s0.generated();
    let g1 = s1.generated();
    assert(g0 =~= g1.take(g0.len() as int));
    assert(s0.received() =~= s1.received().take(s0.received().len() as int));
    assert(s1.received() =~= g1.take(s1.received().len() as int));
}

/// A sequence never leaves without an outcome. One that leaves with a clean
/// outcome has delivered everything that it produced; one that leaves truncated
/// has delivered a strict prefix of it.
pub proof fn law_outcomes_are_honest(
    s0: SeqState,
    s1: SeqState,
    next: u32,
    now: u64,
    context_length: nat,
    d: Delivery,
    made: Seq<(u32, Offer)>,
)
    requires
        s0.valid(),
        turned(s0, s1, true, next, now, context_length, d, made),
    ensures
        s1.finish != Finish::Incomplete,
        s1.finish == Finish::Stop || s1.finish == Finish::Length ==> s1.received()
            == s1.generated(),
        s1.finish == Finish::Stop ==> s1.generated().len() > 0 && s1.tokens.last() == s1.eos,
        s1.finish == Finish::Truncated ==> s1.received().len() < s1.generated().len(),
{
    lemma_sampled_queue(s0, next, now, context_length);
    law_turn_keeps_sequences_valid(s0, s1, true, next, now, context_length, d, made);
    if s1.finish == Finish::Stop || s1.finish == Finish::Length {
        assert(s1.received() =~= s1.generated());
    }
}

/// A sequence never produces more than its budget: what it has produced and what
/// it may still produce always add up to the same number.
pub proof fn law_budget_is_kept(
    s0: SeqState,
    s1: SeqState,
    leaves: bool,
    next: u32,
    now: u64,
    context_length: nat,
    d: Delivery,
    made: Seq<(u32, Offer)>,
)
    requires
        s0.valid(),
        turned(s0, s1, leaves, next, now, context_length, d, made),
    ensures
        s1.generated().len() + s1.remaining == s0.generated().len() + s0.remaining,
{
    lemma_sampled_queue(s0, next, now, context_length);
}

/// A sequence that goes on decoding has room in the context window for the
/// position that it decodes next.
pub proof fn law_decoded_positions_fit_the_context(
    s0: SeqState,
    s1: SeqState,
    leaves: bool,
    next: u32,
    now: u64,
    context_length: nat,
    d: Delivery,
    made: Seq<(u32, Offer)>,
)
    requires
        s0.valid(),
        turned(s0, s1, leaves, next, now, context_length, d, made),
        s1.draining is None,
    ensures
        0 < s1.tokens.len() < context_length,
{
}

/// Why a sequence stops and why it leaves. It stops where the stop token is sampled, its
/// budget is spent or the context is full, and at that time; the stop token alone is a clean
/// stop. It leaves once it has stopped and everything is delivered. It is cut off where its
/// client is gone or too slow, or takes longer than ten seconds over the rest.
pub proof fn law_sequences_stop_for_a_reason(
    s0: SeqState,
    s1: SeqState,
    leaves: bool,
    next: u32,
    now: u64,
    context_length: nat,
    d: Delivery,
    made: Seq<(u32, Offer)>,
)
    requires
        s0.valid(),
        turned(s0, s1, leaves, next, now, context_length, d, made),
    ensures
        ({
            let running = s0.draining is None;
            let takes = running && s0.remaining > 0;
            let ends = takes && next == s0.eos;
            let full = takes && s0.tokens.len() + 1 >= context_length;
            let late = s1.draining matches Some(since) && now - since > 10_000_000_000;
            let cut = d != Delivery::Healthy || s1.pending.len() > 0 && late;
            &&& s1.tokens == if takes {
                s0.tokens.push(next)
            } else {
                s0.tokens
            }
            &&& running && (ends || full || !takes) <==> running && s1.draining is Some
            &&& running && s1.draining is Some ==> s1.draining == Some(now)
            &&& !running ==> s1.draining == s0.draining
            &&& cut <==> s1.finish == Finish::Truncated
            &&& !cut && running ==> (s1.finish == Finish::Stop <==> ends)
            &&& !cut && !running ==> s1.finish == s0.finish
            &&& leaves <==> cut || s1.draining is Some && s1.pending.len() == 0
        }),
{
}

} // verus!
