//! The engine's batch: who is in it, what memory each holds, what runs next.
use std::collections::VecDeque;
use vstd::prelude::*;

use crate::cache::paged::{page_count, pages_missing, reserved_per_layer, PagedKvCache};
use crate::cache::pool::{
    all_held, backed, held, holders, lemma_live_count_released, pages_needed, released, PagePool,
    PAGE_SIZE,
};
use crate::cache::prefix::{
    adapter_key, after_evictions, conserved, entries_of, entries_wf, entry_wf, fits_after,
    inserted, lemma_backed_list_is_held, lemma_held_concat, lemma_list_added, lemma_list_given_up,
    lemma_most_saved_bounds, lists_with, looked_up, missed, most_saved, page_lists, PrefixCache,
    PrefixEntry,
};
use crate::sampling::SamplerConfig;
use crate::server::deliver::{Delivery, Offer, TokenSender};
use crate::server::engine::{
    law_turn_keeps_sequences_valid, turn, turned, ActiveSequence, EngineLimits, Finish,
    FinishSignal, SeqState, wants_token,
};
use crate::server::reserve::{only_evicted, reserve_or_evict, reserved_after};
use crate::session::{CacheFormat, Session, SessionOptions};

verus! {

/// A request for a completion.
#[derive(Debug)]
pub struct InferenceRequest {
    pub prompt_tokens: Vec<u32>,
    pub max_new_tokens: usize,
    pub sampler_cfg: SamplerConfig,
    pub eos_token: u32,
    /// The adapter to run with, by name.
    pub lora_name: Option<String>,
    /// Tokens are delivered here.
    pub tx: tokio::sync::mpsc::Sender<u32>,
}

/// What became of a request.
#[derive(Clone, Copy, Debug, PartialEq, Eq, Structural)]
pub enum Admission {
    /// The request joined the batch; its prompt has to be computed from position
    /// `start` on, what comes before it is reused.
    Admitted { start: usize },
    /// The request was turned away with this outcome.
    Refused { finish: Finish },
}

/// What the engine's loop does once requests have been let in.
#[derive(Clone, Copy, Debug, PartialEq, Eq, Structural)]
pub enum EngineStep {
    /// No sequence is there: wait for a request.
    Wait,
    /// Every sequence only waits for its client: pause instead of spinning.
    Pause,
    /// Run a forward pass.
    Decode,
}

/// Dimensions that decide about memory.
#[derive(Clone, Copy, Debug, PartialEq, Eq, Structural)]
pub struct EngineShape {
    pub context_length: usize,
    pub n_layers: usize,
    pub n_kv_heads: usize,
    pub head_dim: usize,
    pub cache_format: CacheFormat,
}

/// The engine's state between two turns.
pub struct Engine {
    pub limits: EngineLimits,
    pub shape: EngineShape,
    pub pool: Option<PagePool>,
    pub prefix: Option<PrefixCache>,
    pub active: Vec<ActiveSequence>,
}

/// The page lists of the running sequences.
pub open spec fn cache_lists(active: Seq<ActiveSequence>) -> Seq<Seq<usize>> {
    Seq::new(active.len(), |i: int| active[i].pages.pages())
}

/// Every page's count is exactly the number of lists that name it.
pub open spec fn exact(refs: Seq<usize>, lists: Seq<Seq<usize>>) -> bool {
    &&& forall|i: int| 0 <= i < lists.len() ==> (#[trigger] lists[i]).no_duplicates()
    &&& forall|id: usize|
        #![trigger held(lists, id)]
        #![trigger holders(refs, id as int)]
        held(lists, id) == holders(refs, id as int)
}

impl Engine {
    /// Sequences draw pages from a pool. Quantised caches do not: they are made whole.
    pub open spec fn paged(&self) -> bool {
        self.pool is Some && self.shape.cache_format == CacheFormat::F32
    }

    /// All page lists: the sequences' and the registry's.
    pub open spec fn lists(&self) -> Seq<Seq<usize>> {
        cache_lists(self.active@) + page_lists(entries_of(self.prefix))
    }

    /// The bookkeeping is sound: the pool's counts are exactly the holders there
    /// are, so that no page is leaked and none is given up while it is in use.
    pub open spec fn memory_wf(&self) -> bool {
        &&& self.pool matches Some(p) ==> p.wf() && exact(p.refs(), self.lists())
        &&& self.prefix is Some ==> self.paged()
        &&& entries_wf(entries_of(self.prefix), self.shape.n_layers as nat)
        &&& forall|i: int|
            0 <= i < self.active@.len() ==> {
                &&& (#[trigger] self.active@[i]).pages.wf()
                &&& self.active@[i].pages.n_layers() == self.shape.n_layers
                &&& !self.paged() ==> self.active@[i].pages.pages().len() == 0
            }
    }

    /// Sound bookkeeping, and every sequence is valid, but for those at the
    /// indices `leaving`.
    pub open spec fn wf_but(&self, leaving: Seq<usize>) -> bool {
        &&& self.memory_wf()
        &&& forall|i: int|
            0 <= i < self.active@.len() && !leaving.contains(i as usize)
                ==> (#[trigger] self.active@[i]).state().valid()
    }

    pub open spec fn wf(&self) -> bool {
        self.wf_but(Seq::empty())
    }

    /// An idle engine.
    ///
    /// Prefix reuse is page sharing, so a registry exists only where sequences
    /// get paged caches: with f32 caches drawing from a pool.
    pub fn new(limits: EngineLimits, shape: EngineShape) -> (e: Self)
        ensures
            e.wf(),
            e.limits == limits,
            e.shape == shape,
            e.active@.len() == 0,
            match limits.kv_pool_pages {
                Some(n) => e.pool matches Some(p) && p.capacity() == n && p.refs().len() == 0,
                None => e.pool is None,
            },
            e.prefix is Some <==> limits.kv_pool_pages is Some && limits.prefix_cache is Some
                && shape.cache_format == CacheFormat::F32,
            e.prefix matches Some(p) ==> p.entries@.len() == 0 && p.max_entries
                == limits.prefix_cache->0.max_entries,
    {
        let pool = match limits.kv_pool_pages {
            Some(n) => Some(PagePool::new(n)),
            None => None,
        };
        let prefix = if pool.is_some() && shape.cache_format == CacheFormat::F32 {
            match limits.prefix_cache {
                Some(cfg) => Some(PrefixCache::new(cfg)),
                None => None,
            }
        } else {
            None
        };
        let e = Engine { limits, shape, pool, prefix, active: Vec::new() };
        proof {
            assert(e.lists() =~= Seq::empty());
            assert forall|id: usize| #[trigger] held(e.lists(), id) == 0 by {}
        }
        e
    }

    fn draws_pages(&self) -> (b: bool)
        ensures
            b == self.paged(),
    {
        self.pool.is_some() && match self.shape.cache_format {
            CacheFormat::F32 => true,
            CacheFormat::Q8 => false,
        }
    }

    /// True if another request may join the batch.
    pub fn has_slot(&self) -> (b: bool)
        ensures
            b == (self.active@.len() < self.limits.max_active),
    {
        self.active.len() < self.limits.max_active
    }
}

// ── Accounting ───────────────────────────────────────────────────────────────

proof fn lemma_exact_is_backed(refs: Seq<usize>, a: Seq<Seq<usize>>, b: Seq<Seq<usize>>)
    requires
        exact(refs, a + b),
    ensures
        backed(refs, b),
        backed(refs, a),
{
    assert forall|id: usize|
        held(b, id) <= holders(refs, id as int) && held(a, id) <= holders(refs, id as int) by {
        lemma_held_concat(a, b, id);
        assert(held(a + b, id) == holders(refs, id as int));
    }
    assert forall|i: int| 0 <= i < b.len() implies (#[trigger] b[i]).no_duplicates() by {
        assert((a + b)[i + a.len()] == b[i]);
    }
    assert forall|i: int| 0 <= i < a.len() implies (#[trigger] a[i]).no_duplicates() by {
        assert((a + b)[i] == a[i]);
    }
}

/// What is conserved around some lists stays exact beside the others.
proof fn lemma_exact_frame(
    others: Seq<Seq<usize>>,
    refs0: Seq<usize>,
    l0: Seq<Seq<usize>>,
    refs1: Seq<usize>,
    l1: Seq<Seq<usize>>,
)
    requires
        exact(refs0, others + l0),
        conserved(refs0, l0, refs1, l1),
        forall|i: int| 0 <= i < l1.len() ==> (#[trigger] l1[i]).no_duplicates(),
    ensures
        exact(refs1, others + l1),
{
    assert forall|id: usize|
        #![trigger held(others + l1, id)]
        #![trigger holders(refs1, id as int)]
        held(others + l1, id) == holders(refs1, id as int) by {
        lemma_held_concat(others, l0, id);
        lemma_held_concat(others, l1, id);
        assert(held(others + l0, id) == holders(refs0, id as int));
        assert(holders(refs1, id as int) - held(l1, id) == holders(refs0, id as int) - held(
            l0,
            id,
        ));
    }
    assert forall|i: int| 0 <= i < (others + l1).len() implies (
    #[trigger] (others + l1)[i]).no_duplicates() by {
        if i < others.len() {
            assert((others + l1)[i] == (others + l0)[i]);
        } else {
            assert((others + l1)[i] == l1[i - others.len()]);
        }
    }
}

/// The same lists in another order.
proof fn lemma_exact_reordered(refs: Seq<usize>, l: Seq<Seq<usize>>, m: Seq<Seq<usize>>)
    requires
        exact(refs, l),
        forall|id: usize| #[trigger] held(m, id) == held(l, id),
        forall|i: int| 0 <= i < m.len() ==> (#[trigger] m[i]).no_duplicates(),
    ensures
        exact(refs, m),
{
    assert forall|id: usize|
        #![trigger held(m, id)]
        #![trigger holders(refs, id as int)]
        held(m, id) == holders(refs, id as int) by {
        assert(held(m, id) == held(l, id));
        assert(held(l, id) == holders(refs, id as int));
    }
}

/// A sequence's list moved behind the registry's, or back.
pub proof fn lemma_exact_list_moved(
    refs: Seq<usize>,
    c: Seq<Seq<usize>>,
    p: Seq<Seq<usize>>,
    x: Seq<usize>,
)
    ensures
        exact(refs, c + p.push(x)) <==> exact(refs, c.push(x) + p),
{
    let l = c + p.push(x);
    let m = c.push(x) + p;
    assert forall|id: usize| #![trigger held(m, id)] #![trigger held(l, id)]
        held(m, id) == held(l, id) by {
        assert(l =~= c + p + seq![x]);
        assert(m =~= c + seq![x] + p);
        lemma_held_concat(c + p, seq![x], id);
        lemma_held_concat(c, p, id);
        lemma_held_concat(c + seq![x], p, id);
        lemma_held_concat(c, seq![x], id);
    }
    if exact(refs, l) {
        assert forall|i: int| 0 <= i < m.len() implies (#[trigger] m[i]).no_duplicates() by {
            if i < c.len() {
                assert(m[i] == l[i]);
            } else if i == c.len() {
                assert(m[i] == l[l.len() - 1]);
            } else {
                assert(m[i] == l[i - 1]);
            }
        }
        lemma_exact_reordered(refs, l, m);
    }
    if exact(refs, m) {
        assert forall|i: int| 0 <= i < l.len() implies (#[trigger] l[i]).no_duplicates() by {
            if i < c.len() {
                assert(m[i] == l[i]);
            } else if i == l.len() - 1 {
                assert(l[i] == m[c.len() as int]);
            } else {
                assert(l[i] == m[i + 1]);
            }
        }
        lemma_exact_reordered(refs, m, l);
    }
}

/// A lookup keeps the accounting exact, the fork being one more list.
pub proof fn lemma_lookup_exact(
    others: Seq<Seq<usize>>,
    p0: PrefixCache,
    p1: PrefixCache,
    pool0: PagePool,
    pool1: PagePool,
    prompt: Seq<u32>,
    lora: Option<Seq<char>>,
    n_layers: nat,
    i: int,
    c: PagedKvCache,
)
    requires
        exact(pool0.refs(), others + page_lists(p0.entries@)),
        looked_up(p0, p1, pool0, pool1, prompt, lora, n_layers, i, c),
        entries_wf(p0.entries@, n_layers),
    ensures
        exact(pool1.refs(), others + page_lists(p1.entries@).push(c.pages())),
        entries_wf(p1.entries@, n_layers),
{
    let l0 = others + page_lists(p0.entries@);
    let x = c.pages();
    c.lemma_shape();
    let none = Seq::<Seq<usize>>::empty();
    assert(l0 + none =~= l0);
    lemma_exact_is_backed(pool0.refs(), l0, none);
    lemma_list_added(pool0.refs(), l0, x, none);
    let l1 = l0 + seq![x] + none;
    assert(none + l0 =~= l0);
    assert(none + l1 =~= l1);
    lemma_exact_frame(none, pool0.refs(), l0, pool1.refs(), l1);
    let a = page_lists(p0.entries@.take(i));
    let b = page_lists(p0.entries@.skip(i + 1));
    let y = p0.entries@[i].pages@;
    let l2 = others + page_lists(p1.entries@).push(x);
    assert(page_lists(p0.entries@) =~= a + seq![y] + b);
    assert(page_lists(p1.entries@) =~= a + b + seq![y]);
    assert forall|id: usize| #[trigger] held(l2, id) == held(l1, id) by {
        assert(l1 =~= others + (a + seq![y] + b) + seq![x]);
        assert(l2 =~= others + (a + b + seq![y]) + seq![x]);
        lemma_held_concat(others + (a + seq![y] + b), seq![x], id);
        lemma_held_concat(others, a + seq![y] + b, id);
        lemma_held_concat(a + seq![y], b, id);
        lemma_held_concat(a, seq![y], id);
        lemma_held_concat(others + (a + b + seq![y]), seq![x], id);
        lemma_held_concat(others, a + b + seq![y], id);
        lemma_held_concat(a + b, seq![y], id);
        lemma_held_concat(a, b, id);
    }
    assert forall|j: int| 0 <= j < l2.len() implies (#[trigger] l2[j]).no_duplicates() by {
        let n = others.len();
        if j < n + i {
            assert(l2[j] == l1[j]);
        } else if j < l2.len() - 2 {
            assert(l2[j] == l1[j + 1]);
        } else if j == l2.len() - 2 {
            assert(l2[j] == l1[n + i]);
        } else {
            assert(l2[j] == x);
        }
    }
    lemma_exact_reordered(pool1.refs(), l1, l2);
    assert forall|j: int| 0 <= j < p1.entries@.len() implies entry_wf(
        #[trigger] p1.entries@[j],
        n_layers,
    ) by {
        if j < i {
            assert(p1.entries@[j] == p0.entries@[j]);
        } else if j < p1.entries@.len() - 1 {
            assert(p1.entries@[j] == p0.entries@[j + 1]);
        } else {
            assert(p1.entries@[j] == p0.entries@[i]);
        }
    }
}

/// Give a sequence's list back: the accounting stays exact without it.
proof fn lemma_release_exact(
    others: Seq<Seq<usize>>,
    p: Seq<Seq<usize>>,
    x: Seq<usize>,
    refs: Seq<usize>,
)
    requires
        exact(refs, others + p.push(x)),
    ensures
        x.no_duplicates(),
        all_held(refs, x),
        exact(released(refs, x), others + p),
{
    let none = Seq::<Seq<usize>>::empty();
    let l = others + p;
    assert(others + p.push(x) =~= l + seq![x] + none);
    assert(l + seq![x] + none =~= none + (l + seq![x] + none));
    lemma_exact_is_backed(refs, none, l + seq![x] + none);
    lemma_list_given_up(refs, l, x, none);
    lemma_exact_frame(none, refs, l + seq![x] + none, released(refs, x), l + none);
    assert(none + (l + none) =~= l);
}

/// A prompt starts behind the most pages that a kept prefix saves it; from
/// scratch, where a page has as many holders as can be counted.
pub open spec fn reuse_start(
    entries: Seq<PrefixEntry>,
    refs: Seq<usize>,
    prompt: Seq<u32>,
    lora: Option<Seq<char>>,
    start: nat,
) -> bool {
    ||| start == most_saved(entries, prompt, lora) * PAGE_SIZE
    ||| start == 0 && exists|id: usize| #[trigger] holders(refs, id as int) == usize::MAX
}

/// How memory for a prompt was claimed.
pub struct Claim {
    /// The registry and the pool right after the lookup.
    pub found: Option<PrefixCache>,
    pub pool: PagePool,
    /// What the prompt starts from.
    pub fork: PagedKvCache,
    /// How many kept prefixes were given up.
    pub evicted: nat,
    /// The registry and the pool's counts once the pages were there.
    pub left: Option<PrefixCache>,
    pub refs: Seq<usize>,
}

/// The prompt was looked up in the registry, where there is one; it starts from `fork`.
pub open spec fn fork_found(
    prefix0: Option<PrefixCache>,
    prefix1: Option<PrefixCache>,
    pool0: PagePool,
    pool1: PagePool,
    prompt: Seq<u32>,
    lora: Option<Seq<char>>,
    n_layers: nat,
    fork: PagedKvCache,
) -> bool {
    match (prefix0, prefix1) {
        (Some(p0), Some(p1)) => fork_of(p0, p1, pool0, pool1, prompt, lora, n_layers, fork),
        (None, None) => pool1.refs() == pool0.refs() && from_scratch(fork),
        _ => false,
    }
}

/// A cache that nothing is known of yet.
pub open spec fn from_scratch(c: PagedKvCache) -> bool {
    c.pages().len() == 0 && c.per_layer() == 0 && c.length() == 0
}

/// The prompt was looked up in the registry; it starts from `fork`.
pub open spec fn fork_of(
    p0: PrefixCache,
    p1: PrefixCache,
    pool0: PagePool,
    pool1: PagePool,
    prompt: Seq<u32>,
    lora: Option<Seq<char>>,
    n_layers: nat,
    fork: PagedKvCache,
) -> bool {
    &&& p1.max_entries == p0.max_entries
    &&& p1.evictions == p0.evictions
    &&& {
        ||| missed(p0, p1, pool0, pool1, prompt, lora) && from_scratch(fork)
        ||| exists|i: int| #[trigger]
            looked_up(p0, p1, pool0, pool1, prompt, lora, n_layers, i, fork)
    }
}

/// The prompt got `pages`: those of its fork and new ones, for which no more kept
/// prefixes were given up than had to be.
pub open spec fn claim_made(
    c: Claim,
    prefix: Option<PrefixCache>,
    pool: PagePool,
    prompt: Seq<u32>,
    lora: Option<Seq<char>>,
    n_layers: nat,
    pages: Seq<usize>,
) -> bool {
    &&& fork_found(prefix, c.found, pool, c.pool, prompt, lora, n_layers, c.fork)
    &&& reserved_after(
        c.evicted,
        c.found,
        c.left,
        c.fork.pages(),
        pages,
        c.pool.refs(),
        c.refs,
        pool.capacity(),
        pages_missing(prompt.len(), c.fork.per_layer(), n_layers),
    )
}

/// The prompt got `pages`, written up to `start`, which left the registry and the pool's
/// counts like this.
pub open spec fn paid_for(
    prefix: Option<PrefixCache>,
    pool: PagePool,
    prompt: Seq<u32>,
    lora: Option<Seq<char>>,
    n_layers: nat,
    pages: Seq<usize>,
    start: nat,
    left: Option<PrefixCache>,
    refs: Seq<usize>,
) -> bool {
    exists|c: Claim|
        {
            &&& #[trigger] claim_made(c, prefix, pool, prompt, lora, n_layers, pages)
            &&& c.fork.length() == start
            &&& c.left == left
            &&& c.refs == refs
        }
}

/// The prompt got no memory, with every kept prefix given up.
pub open spec fn claim_failed(
    c: Claim,
    prefix: Option<PrefixCache>,
    pool: PagePool,
    prompt: Seq<u32>,
    lora: Option<Seq<char>>,
    n_layers: nat,
) -> bool {
    let lists = page_lists(entries_of(c.found));
    &&& fork_found(prefix, c.found, pool, c.pool, prompt, lora, n_layers, c.fork)
    &&& forall|k: nat|
        k <= lists.len() ==> !#[trigger] fits_after(
            c.pool.refs(),
            lists,
            k,
            pool.capacity(),
            pages_missing(prompt.len(), c.fork.per_layer(), n_layers),
        )
    &&& entries_of(c.left).len() == 0
    &&& only_evicted(c.found, c.left, lists.len())
}

/// The whole pages of a prompt were offered to the registry, where there is one.
pub open spec fn offered(
    c: Claim,
    prefix: Option<PrefixCache>,
    prompt: Seq<u32>,
    lora: Option<Seq<char>>,
    n_layers: nat,
    pages: Seq<usize>,
) -> bool {
    match (c.left, prefix) {
        (Some(p0), Some(p1)) => {
            &&& p1.max_entries == p0.max_entries
            &&& p1.hits == p0.hits
            &&& p1.misses == p0.misses
            &&& p1.tokens_reused == p0.tokens_reused
            &&& exists|i: int, e: PrefixEntry| #[trigger]
                inserted(
                    p0,
                    p1,
                    c.refs,
                    prompt,
                    lora,
                    pages.take((prompt.len() / PAGE_SIZE as nat * n_layers) as int),
                    i,
                    e,
                )
        },
        (None, None) => true,
        _ => false,
    }
}

/// Fork the kept prefix that saves a prompt the most, where there is one.
fn look_up_prompt(
    pool: &mut PagePool,
    prefix: &mut Option<PrefixCache>,
    prompt: &Vec<u32>,
    lora: &Option<String>,
    n_layers: usize,
    Ghost(others): Ghost<Seq<Seq<usize>>>,
) -> (fork: PagedKvCache)
    requires
        old(pool).wf(),
        prompt@.len() > 0,
        entries_wf(entries_of(*old(prefix)), n_layers as nat),
        exact(old(pool).refs(), others + page_lists(entries_of(*old(prefix)))),
    ensures
        final(pool).wf(),
        final(pool).capacity() == old(pool).capacity(),
        (*final(prefix) is Some) == (*old(prefix) is Some),
        entries_wf(entries_of(*final(prefix)), n_layers as nat),
        fork.wf(),
        fork.n_layers() == n_layers,
        fork.length() < prompt@.len(),
        exact(
            final(pool).refs(),
            others + page_lists(entries_of(*final(prefix))).push(fork.pages()),
        ),
        reuse_start(
            entries_of(*old(prefix)),
            old(pool).refs(),
            prompt@,
            adapter_key(*lora),
            fork.length(),
        ),
        fork_found(
            *old(prefix),
            *final(prefix),
            *old(pool),
            *final(pool),
            prompt@,
            adapter_key(*lora),
            n_layers as nat,
            fork,
        ),
{
    let mut cache = PagedKvCache::new(n_layers);
    let ghost lists0 = page_lists(entries_of(*prefix));
    proof {
        lemma_most_saved_bounds(entries_of(*prefix), prompt@, adapter_key(*lora));
    }
    match prefix.take() {
        Some(mut p) => {
            let ghost p0 = p;
            let ghost pool0 = *pool;
            proof {
                lemma_exact_is_backed(pool.refs(), others, page_lists(p0.entries@));
            }
            match p.lookup(pool, prompt.as_slice(), lora, n_layers) {
                Some(fork) => {
                    proof {
                        let i = choose|i: int| #[trigger]
                            looked_up(
                                p0,
                                p,
                                pool0,
                                *pool,
                                prompt@,
                                adapter_key(*lora),
                                n_layers as nat,
                                i,
                                fork,
                            );
                        lemma_lookup_exact(
                            others,
                            p0,
                            p,
                            pool0,
                            *pool,
                            prompt@,
                            adapter_key(*lora),
                            n_layers as nat,
                            i,
                            fork,
                        );
                        assert(fork_of(
                            p0,
                            p,
                            pool0,
                            *pool,
                            prompt@,
                            adapter_key(*lora),
                            n_layers as nat,
                            fork,
                        ));
                    }
                    cache = fork;
                },
                None => {
                    proof {
                        lemma_empty_list_added(
                            pool.refs(),
                            others + page_lists(p.entries@),
                            cache.pages(),
                        );
                        assert(others + page_lists(p.entries@).push(cache.pages()) =~= (others
                            + page_lists(p.entries@)).push(cache.pages()));
                    }
                },
            }
            *prefix = Some(p);
        },
        None => {
            proof {
                lemma_empty_list_added(pool.refs(), others + lists0, cache.pages());
                assert(others + lists0.push(cache.pages()) =~= (others + lists0).push(
                    cache.pages(),
                ));
            }
        },
    }
    cache
}

/// Memory for a prompt: reuse the kept prefix that saves the most, then claim
/// the rest, at the price of kept prefixes. `None` where the prompt does not fit
/// even with an empty registry.
fn claim_memory(
    pool: &mut PagePool,
    prefix: &mut Option<PrefixCache>,
    prompt: &Vec<u32>,
    lora: &Option<String>,
    n_layers: usize,
    Ghost(others): Ghost<Seq<Seq<usize>>>,
) -> (r: Option<PagedKvCache>)
    requires
        old(pool).wf(),
        prompt@.len() > 0,
        entries_wf(entries_of(*old(prefix)), n_layers as nat),
        exact(old(pool).refs(), others + page_lists(entries_of(*old(prefix)))),
    ensures
        final(pool).wf(),
        final(pool).capacity() == old(pool).capacity(),
        (*final(prefix) is Some) == (*old(prefix) is Some),
        entries_wf(entries_of(*final(prefix)), n_layers as nat),
        r matches Some(c) ==> {
            &&& c.wf()
            &&& c.n_layers() == n_layers
            &&& c.per_layer() >= page_count(prompt@.len())
            &&& c.length() < prompt@.len()
            &&& exact(
                final(pool).refs(),
                others + page_lists(entries_of(*final(prefix))).push(c.pages()),
            )
            &&& reuse_start(
                entries_of(*old(prefix)),
                old(pool).refs(),
                prompt@,
                adapter_key(*lora),
                c.length(),
            )
            &&& paid_for(
                *old(prefix),
                *old(pool),
                prompt@,
                adapter_key(*lora),
                n_layers as nat,
                c.pages(),
                c.length(),
                *final(prefix),
                final(pool).refs(),
            )
        },
        r is None ==> {
            &&& exact(final(pool).refs(), others + page_lists(entries_of(*final(prefix))))
            &&& pages_needed(prompt@.len(), n_layers as nat) + final(pool).live()
                > final(pool).capacity()
            &&& exists|claim: Claim|
                #[trigger] claim_failed(
                    claim,
                    *old(prefix),
                    *old(pool),
                    prompt@,
                    adapter_key(*lora),
                    n_layers as nat,
                ) && claim.left == *final(prefix)
        },
{
    let mut cache = look_up_prompt(pool, prefix, prompt, lora, n_layers, Ghost(others));
    let ghost fork = cache;
    let ghost pool1 = *pool;
    let ghost found = *prefix;
    let ghost refs1 = pool.refs();
    let ghost lists1 = page_lists(entries_of(*prefix));
    let ghost with_fork = lists_with(*prefix, cache.pages());
    proof {
        assert(with_fork =~= lists1.push(cache.pages()));
        lemma_exact_is_backed(refs1, others, with_fork);
    }
    let reservation = reserve_or_evict(pool, &mut cache, prompt.len(), prefix);
    let ghost lists2 = page_lists(entries_of(*prefix));
    let ghost missing = pages_missing(prompt@.len(), fork.per_layer(), n_layers as nat);
    proof {
        let l2 = lists_with(*prefix, cache.pages());
        assert(l2 =~= lists2.push(cache.pages()));
        lemma_exact_frame(others, refs1, with_fork, pool.refs(), l2);
    }
    match reservation {
        Ok(()) => {
            proof {
                let k = choose|k: nat| #[trigger]
                    reserved_after(
                        k,
                        found,
                        *prefix,
                        fork.pages(),
                        cache.pages(),
                        refs1,
                        pool.refs(),
                        pool1.capacity(),
                        missing,
                    );
                let claim = Claim {
                    found,
                    pool: pool1,
                    fork,
                    evicted: k,
                    left: *prefix,
                    refs: pool.refs(),
                };
                assert(claim_made(
                    claim,
                    *old(prefix),
                    *old(pool),
                    prompt@,
                    adapter_key(*lora),
                    n_layers as nat,
                    cache.pages(),
                ));
                assert(paid_for(
                    *old(prefix),
                    *old(pool),
                    prompt@,
                    adapter_key(*lora),
                    n_layers as nat,
                    cache.pages(),
                    cache.length(),
                    *prefix,
                    pool.refs(),
                ));
            }
            Some(cache)
        },
        Err(_) => {
            proof {
                let claim = Claim {
                    found,
                    pool: pool1,
                    fork,
                    evicted: 0,
                    left: *prefix,
                    refs: pool.refs(),
                };
                assert(claim_failed(
                    claim,
                    *old(prefix),
                    *old(pool),
                    prompt@,
                    adapter_key(*lora),
                    n_layers as nat,
                ));
                lemma_release_exact(others, lists2, cache.pages(), pool.refs());
                pool.lemma_sizes();
                lemma_live_count_released(pool.refs(), cache.pages());
                cache.lemma_shape();
                let want = page_count(prompt@.len()) as int;
                let have = cache.per_layer() as int;
                let n = n_layers as int;
                assert((want - have) * n + have * n == want * n) by (nonlinear_arith);
                assert(pages_needed(prompt@.len(), n_layers as nat) == want * n);
                assert(!fits_after(refs1, lists1, lists1.len(), pool.capacity(), missing));
                assert(missing + pool.live() > pool.capacity());
                if want <= have {
                    assert(missing == 0);
                }
                assert(missing + cache.pages().len() == want * n);
            }
            cache.release(pool);
            None
        },
    }
}

/// A list without pages changes nothing.
proof fn lemma_empty_list_added(refs: Seq<usize>, l: Seq<Seq<usize>>, x: Seq<usize>)
    requires
        exact(refs, l),
        x.len() == 0,
    ensures
        exact(refs, l.push(x)),
{
    let m = l.push(x);
    assert(m.drop_last() =~= l);
    assert forall|id: usize| #[trigger] held(m, id) == held(l, id) by {}
    assert forall|i: int| 0 <= i < m.len() implies (#[trigger] m[i]).no_duplicates() by {
        if i < l.len() {
            assert(m[i] == l[i]);
        }
    }
    lemma_exact_reordered(refs, l, m);
}

/// A prompt that the engine can take: not empty, and within the context window.
pub open spec fn prompt_fits(prompt: Seq<u32>, context_length: nat) -> bool {
    0 < prompt.len() <= context_length
}

/// A sequence that has just joined the batch.
pub open spec fn fresh_state(req: InferenceRequest) -> SeqState {
    SeqState {
        tokens: req.prompt_tokens@,
        prompt_len: req.prompt_tokens@.len(),
        pending: Seq::empty(),
        remaining: req.max_new_tokens as nat,
        draining: None,
        finish: Finish::Incomplete,
        eos: req.eos_token,
        offers: Seq::empty(),
    }
}

/// What became of a request, and what that did to the engine. A prompt that is empty or
/// longer than the context window is refused outright; one that gets no memory, even with
/// every kept prefix given up, is refused too, and so is one whose constraint is unusable.
/// Any other joins the batch at its end, starting behind what it reuses, and its whole
/// pages are offered to the registry.
pub open spec fn admission(
    e0: Engine,
    e1: Engine,
    req: InferenceRequest,
    constraint_ok: bool,
    a: Admission,
) -> bool {
    match a {
        Admission::Admitted { start } => {
            let seq = e1.active@.last();
            &&& prompt_fits(req.prompt_tokens@, e0.shape.context_length as nat)
            &&& constraint_ok
            &&& e1.active@.len() == e0.active@.len() + 1
            &&& e1.active@.drop_last() == e0.active@
            &&& seq.state() == fresh_state(req)
            &&& seq.tx.sender() == req.tx
            &&& seq.session.lora_adapter == req.lora_name
            &&& seq.session.cache_format == e0.shape.cache_format
            &&& seq.session.pos == req.prompt_tokens@.len() - 1
            &&& seq.session.sampler.rng.state == req.sampler_cfg.seed
            &&& seq.pages.length() == start
            &&& start < req.prompt_tokens@.len()
            &&& !e0.paged() ==> {
                &&& start == 0
                &&& seq.pages.pages().len() == 0
                &&& e1.pool == e0.pool
                &&& e1.prefix == e0.prefix
            }
            &&& e0.paged() ==> {
                &&& seq.pages.per_layer() >= page_count(req.prompt_tokens@.len())
                &&& reuse_start(
                    entries_of(e0.prefix),
                    e0.pool->0.refs(),
                    req.prompt_tokens@,
                    adapter_key(req.lora_name),
                    start as nat,
                )
                &&& exists|c: Claim|
                    {
                        &&& #[trigger] claim_made(
                            c,
                            e0.prefix,
                            e0.pool->0,
                            req.prompt_tokens@,
                            adapter_key(req.lora_name),
                            e0.shape.n_layers as nat,
                            seq.pages.pages(),
                        )
                        &&& c.fork.length() == start
                        &&& offered(
                            c,
                            e1.prefix,
                            req.prompt_tokens@,
                            adapter_key(req.lora_name),
                            e0.shape.n_layers as nat,
                            seq.pages.pages(),
                        )
                    }
            }
        },
        Admission::Refused { finish } => {
            &&& e1.active@ == e0.active@
            &&& if !prompt_fits(
                req.prompt_tokens@,
                e0.shape.context_length as nat,
            ) {
                finish == Finish::Incomplete && e1 == e0
            } else if !e0.paged() {
                finish == Finish::Truncated && !constraint_ok && e1 == e0
            } else if finish == Finish::Incomplete {
                &&& pages_needed(
                    req.prompt_tokens@.len(),
                    e0.shape.n_layers as nat,
                ) + e1.pool->0.live() > e1.pool->0.capacity()
                &&& exists|c: Claim|
                    #[trigger] claim_failed(
                        c,
                        e0.prefix,
                        e0.pool->0,
                        req.prompt_tokens@,
                        adapter_key(req.lora_name),
                        e0.shape.n_layers as nat,
                    ) && c.left == e1.prefix
            } else {
                &&& finish == Finish::Truncated
                &&& !constraint_ok
                &&& exists|c: Claim, pages: Seq<usize>|
                    {
                        &&& #[trigger] claim_made(
                            c,
                            e0.prefix,
                            e0.pool->0,
                            req.prompt_tokens@,
                            adapter_key(req.lora_name),
                            e0.shape.n_layers as nat,
                            pages,
                        )
                        &&& c.left == e1.prefix
                        &&& e1.pool->0.refs() == released(c.refs, pages)
                    }
            }
        },
    }
}

impl Engine {
    /// True if a prompt is one that the engine can take.
    pub fn takes(&self, prompt: &[u32]) -> (b: bool)
        ensures
            b == prompt_fits(prompt@, self.shape.context_length as nat),
    {
        prompt.len() > 0 && prompt.len() <= self.shape.context_length
    }

    /// Decide about a request, and claim memory for its prompt.
    ///
    /// A prompt that is empty or longer than the context window is refused
    /// outright, as is one that does not fit the pool even with every kept
    /// prefix given up. `constraint_ok` tells whether the request's output
    /// constraint, if any, could be built. The whole pages of an admitted prompt
    /// are offered to the registry for the next request that shares them.
    pub fn prefill_and_add(&mut self, req: InferenceRequest, constraint_ok: bool) -> (a: Admission)
        requires
            old(self).wf(),
        ensures
            final(self).wf(),
            final(self).limits == old(self).limits,
            final(self).shape == old(self).shape,
            (final(self).pool is Some) == (old(self).pool is Some),
            (final(self).prefix is Some) == (old(self).prefix is Some),
            old(self).pool is Some ==> final(self).pool->0.capacity() == old(
                self,
            ).pool->0.capacity(),
            admission(*old(self), *final(self), req, constraint_ok, a),
    {
        let n: usize = req.prompt_tokens.len();
        if n == 0 || n > self.shape.context_length {
            return Admission::Refused { finish: Finish::Incomplete };
        }
        let n_layers: usize = self.shape.n_layers;
        let ghost others = cache_lists(self.active@);
        let ghost entries0 = entries_of(self.prefix);
        let mut pages = PagedKvCache::new(n_layers);
        let paged = self.draws_pages();
        if !paged && !constraint_ok {
            return Admission::Refused { finish: Finish::Truncated };
        }
        if paged {
            if let Some(mut pool) = self.pool.take() {
                let claimed = claim_memory(
                    &mut pool,
                    &mut self.prefix,
                    &req.prompt_tokens,
                    &req.lora_name,
                    n_layers,
                    Ghost(others),
                );
                match claimed {
                    None => {
                        self.pool = Some(pool);
                        return Admission::Refused { finish: Finish::Incomplete };
                    },
                    Some(c) => {
                        pages = c;
                    },
                }
                let ghost lists = page_lists(entries_of(self.prefix));
                if !constraint_ok {
                    proof {
                        lemma_release_exact(others, lists, pages.pages(), pool.refs());
                    }
                    pages.release(&mut pool);
                    self.pool = Some(pool);
                    return Admission::Refused { finish: Finish::Truncated };
                }
                match self.prefix.take() {
                    None => {},
                    Some(mut p) => {
                        let ghost refs = pool.refs();
                        let ghost l0 = page_lists(p.entries@).push(pages.pages());
                        proof {
                            lemma_exact_is_backed(refs, others, l0);
                        }
                        p.insert(&mut pool, req.prompt_tokens.as_slice(), &pages, &req.lora_name);
                        proof {
                            lemma_exact_frame(
                                others,
                                refs,
                                l0,
                                pool.refs(),
                                page_lists(p.entries@).push(pages.pages()),
                            );
                        }
                        self.prefix = Some(p);
                    },
                }
                proof {
                    lemma_exact_list_moved(
                        pool.refs(),
                        others,
                        page_lists(entries_of(self.prefix)),
                        pages.pages(),
                    );
                }
                self.pool = Some(pool);
            }
        }
        let start: usize = pages.len();
        let mut session = Session::new(
            SessionOptions {
                max_new_tokens: req.max_new_tokens,
                sampler_cfg: req.sampler_cfg,
                eos_token: req.eos_token,
                cache_format: self.shape.cache_format,
                context_length: self.shape.context_length,
                n_layers,
                n_kv_heads: self.shape.n_kv_heads,
                head_dim: self.shape.head_dim,
                lora_adapter: req.lora_name,
            },
        );
        session.tokens = req.prompt_tokens;
        session.prefill_len = n;
        session.pos = n - 1;
        let seq = ActiveSequence {
            session,
            tx: TokenSender::new(req.tx),
            pending: VecDeque::new(),
            draining_since: None,
            finish: FinishSignal::new(),
            pages,
        };
        let ghost before = self.active@;
        self.active.push(seq);
        proof {
            assert(cache_lists(self.active@) =~= others.push(pages.pages()));
            if !paged && self.pool is Some {
                let lists = page_lists(entries_of(self.prefix));
                lemma_empty_list_added(self.pool->0.refs(), others + lists, pages.pages());
                assert((others + lists).push(pages.pages()) =~= others + lists.push(
                    pages.pages(),
                ));
                lemma_exact_list_moved(self.pool->0.refs(), others, lists, pages.pages());
            }
            assert(self.active@.drop_last() =~= before);
            assert(seq.state().valid()) by {
                assert(seq.state().generated().len() == 0);
                assert(seq.state().received() + seq.state().pending =~= seq.state().generated());
            }
            assert forall|i: int| 0 <= i < self.active@.len() implies {
                &&& (#[trigger] self.active@[i]).pages.wf()
                &&& self.active@[i].pages.n_layers() == self.shape.n_layers
                &&& !self.paged() ==> self.active@[i].pages.pages().len() == 0
                &&& self.active@[i].state().valid()
            } by {
                if i < before.len() {
                    assert(self.active@[i] == before[i]);
                }
            }
        }
        Admission::Admitted { start }
    }
}

// ── Turns ────────────────────────────────────────────────────────────────────

/// `idx` names places of a sequence of length `n`, in ascending order.
pub open spec fn ascending(idx: Seq<usize>, n: nat) -> bool {
    &&& forall|i: int, j: int| 0 <= i < j < idx.len() ==> idx[i] < idx[j]
    &&& forall|i: int| 0 <= i < idx.len() ==> #[trigger] idx[i] < n
}

/// What is left of `s` when the places `idx` are vacated from the last to the
/// first, the last element moving into each vacated place.
pub open spec fn swap_removed<A>(s: Seq<A>, idx: Seq<usize>) -> Seq<A>
    decreases idx.len(),
{
    if idx.len() == 0 {
        s
    } else {
        swap_removed(
            s.update(idx.last() as int, s.last()).drop_last(),
            idx.drop_last(),
        )
    }
}

/// The elements of `s` at the places `idx`.
pub open spec fn at_places<A>(s: Seq<A>, idx: Seq<usize>) -> Seq<A> {
    Seq::new(idx.len(), |k: int| s[idx[k] as int])
}

/// Retiring some sequences keeps exactly the others: what stays and what leaves
/// together are what was there.
pub proof fn law_retiring_keeps_the_others<A>(s: Seq<A>, idx: Seq<usize>)
    requires
        ascending(idx, s.len()),
    ensures
        swap_removed(s, idx).to_multiset().add(at_places(s, idx).to_multiset())
            == s.to_multiset(),
        swap_removed(s, idx).len() == s.len() - idx.len(),
    decreases idx.len(),
{
    broadcast use vstd::seq_lib::group_to_multiset_ensures;

    if idx.len() == 0 {
        assert(at_places(s, idx) =~= Seq::empty());
        assert(s.to_multiset().add(at_places(s, idx).to_multiset()) =~= s.to_multiset());
    } else {
        let i = idx.last() as int;
        let rest = idx.drop_last();
        let t = s.update(i, s.last()).drop_last();
        assert(ascending(rest, t.len())) by {
            assert forall|k: int| 0 <= k < rest.len() implies #[trigger] rest[k] < t.len() by {
                assert(idx[k] < idx[idx.len() - 1]);
                assert(idx[k] == rest[k]);
            }
        }
        law_retiring_keeps_the_others(t, rest);
        assert(at_places(t, rest) =~= at_places(s, rest)) by {
            assert forall|k: int| 0 <= k < rest.len() implies t[rest[k] as int]
                == s[rest[k] as int] by {
                assert(idx[k] < idx[idx.len() - 1]);
            }
        }
        assert(at_places(s, idx) =~= at_places(s, rest).push(s[i]));
        let last = s.last();
        let u = s.update(i, last);
        assert(u =~= t.push(last));
        assert(s =~= s.drop_last().push(last));
        lemma_update_multiset(s, i, last);
        assert(u.to_multiset() =~= t.to_multiset().insert(last));
        assert(s.contains(s[i]));
        assert(s.to_multiset().count(s[i]) > 0);
        assert forall|x: A| #[trigger]
            s.to_multiset().count(x) == t.to_multiset().insert(s[i]).count(x) by {
            assert(u.to_multiset().count(x) == t.to_multiset().insert(last).count(x));
        }
        assert(s.to_multiset() =~= t.to_multiset().insert(s[i]));
        let left = swap_removed(s, idx).to_multiset();
        let gone = at_places(s, rest).to_multiset();
        assert(at_places(s, idx).to_multiset() =~= gone.insert(s[i]));
        assert(left.add(gone.insert(s[i])) =~= left.add(gone).insert(s[i]));
    }
}

proof fn lemma_update_multiset<A>(s: Seq<A>, i: int, v: A)
    requires
        0 <= i < s.len(),
    ensures
        s.update(i, v).to_multiset() == s.to_multiset().insert(v).remove(s[i]),
{
    broadcast use vstd::seq_lib::group_to_multiset_ensures;

    let a = s.take(i);
    let b = s.skip(i + 1);
    assert(s =~= a.push(s[i]) + b);
    assert(s.update(i, v) =~= a.push(v) + b);
    vstd::seq_lib::lemma_multiset_commutative(a.push(s[i]), b);
    vstd::seq_lib::lemma_multiset_commutative(a.push(v), b);
    assert(a.push(v).to_multiset() =~= a.to_multiset().insert(v));
    assert(a.push(s[i]).to_multiset() =~= a.to_multiset().insert(s[i]));
    assert(s.update(i, v).to_multiset() =~= s.to_multiset().insert(v).remove(s[i]));
}

impl Engine {
    /// Take every sequence through a turn; the places of those that leave, in
    /// order. `next` holds the token sampled for each sequence that wants one.
    pub fn sample_and_deliver(&mut self, next: &Vec<u32>, now: u64) -> (leaving: Vec<usize>)
        requires
            old(self).wf(),
            next@.len() == old(self).active@.len(),
        ensures
            final(self).wf_but(leaving@),
            all_took_turns(*old(self), *final(self), next@, now, leaving@),
    {
        let ghost before = self.active@;
        let ghost lists0 = self.lists();
        let mut leaving: Vec<usize> = Vec::new();
        let mut i: usize = 0;
        while i < self.active.len()
            invariant
                old(self).wf(),
                before == old(self).active@,
                self.limits == old(self).limits,
                self.shape == old(self).shape,
                self.pool == old(self).pool,
                self.prefix == old(self).prefix,
                self.active@.len() == before.len(),
                next@.len() == before.len(),
                i <= before.len(),
                ascending(leaving@, i as nat),
                forall|j: int| i <= j < before.len() ==> self.active@[j] == before[j],
                forall|j: int|
                    0 <= j < i ==> went_through(
                        #[trigger] before[j],
                        self.active@[j],
                        leaving@.contains(j as usize),
                        next@[j],
                        now,
                        self.shape.context_length as nat,
                    ),
            decreases before.len() - i,
        {
            let ghost active0 = self.active@;
            let ghost leaving0 = leaving@;
            let leaves = turn(&mut self.active[i], next[i], now, self.shape.context_length);
            proof {
                assert(went_through(
                    before[i as int],
                    self.active@[i as int],
                    leaves,
                    next@[i as int],
                    now,
                    self.shape.context_length as nat,
                ));
            }
            if leaves {
                leaving.push(i);
            }
            proof {
                assert forall|j: int| 0 <= j <= i implies #[trigger] leaving@.contains(j as usize) == (if j
                    < i {
                    leaving0.contains(j as usize)
                } else {
                    leaves
                }) by {
                    if leaves && j == i {
                        assert(leaving@[leaving0.len() as int] == j as usize);
                    }
                    if leaving0.contains(j as usize) {
                        let w = choose|w: int| 0 <= w < leaving0.len() && leaving0[w] == j as usize;
                        assert(leaving@[w] == j as usize);
                    }
                    if leaving@.contains(j as usize) && j < i {
                        let w = choose|w: int| 0 <= w < leaving@.len() && leaving@[w] == j as usize;
                        assert(leaving0[w] == j as usize);
                    }
                }
                assert forall|j: int| 0 <= j < i + 1 implies went_through(
                    #[trigger] before[j],
                    self.active@[j],
                    leaving@.contains(j as usize),
                    next@[j],
                    now,
                    self.shape.context_length as nat,
                ) by {
                    if j < i {
                        assert(self.active@[j] == active0[j]);
                    }
                }
            }
            i = i + 1;
        }
        proof {
            assert forall|j: int| 0 <= j < before.len() implies {
                &&& (#[trigger] self.active@[j]).pages == before[j].pages
                &&& !leaving@.contains(j as usize) ==> self.active@[j].state().valid()
            } by {
                let ghost b = before[j];
                assert(went_through(
                    b,
                    self.active@[j],
                    leaving@.contains(j as usize),
                    next@[j],
                    now,
                    self.shape.context_length as nat,
                ));
                let (d, made) = choose|d: Delivery, made: Seq<(u32, Offer)>| #[trigger]
                    turned(
                        b.state(),
                        self.active@[j].state(),
                        leaving@.contains(j as usize),
                        next@[j],
                        now,
                        self.shape.context_length as nat,
                        d,
                        made,
                    );
                assert(b.state().valid());
                law_turn_keeps_sequences_valid(
                    b.state(),
                    self.active@[j].state(),
                    leaving@.contains(j as usize),
                    next@[j],
                    now,
                    self.shape.context_length as nat,
                    d,
                    made,
                );
            }
            assert(cache_lists(self.active@) =~= cache_lists(before));
            assert(self.lists() == lists0);
        }
        leaving
    }
}

/// Every sequence took its turn; those at the places `leaving`, in order, leave.
pub open spec fn all_took_turns(
    e0: Engine,
    e1: Engine,
    next: Seq<u32>,
    now: u64,
    leaving: Seq<usize>,
) -> bool {
    &&& e1.limits == e0.limits
    &&& e1.shape == e0.shape
    &&& e1.pool == e0.pool
    &&& e1.prefix == e0.prefix
    &&& e1.active@.len() == e0.active@.len()
    &&& ascending(leaving, e0.active@.len())
    &&& forall|i: int|
        0 <= i < e0.active@.len() ==> went_through(
            #[trigger] e0.active@[i],
            e1.active@[i],
            leaving.contains(i as usize),
            next[i],
            now,
            e0.shape.context_length as nat,
        )
}

/// The sequences at the places `leaving` are gone, and have given their pages back.
pub open spec fn some_retired(
    e0: Engine,
    e1: Engine,
    leaving: Seq<usize>,
    gone: Seq<ActiveSequence>,
) -> bool {
    &&& e1.limits == e0.limits
    &&& e1.shape == e0.shape
    &&& e1.prefix == e0.prefix
    &&& (e1.pool is Some) == (e0.pool is Some)
    &&& e0.pool is Some ==> e1.pool->0.capacity() == e0.pool->0.capacity()
    &&& e1.active@ == swap_removed(e0.active@, leaving)
    &&& gone.len() == leaving.len()
    &&& forall|k: int|
        0 <= k < gone.len() ==> {
            let left = e0.active@[leaving[leaving.len() - 1 - k] as int];
            &&& (#[trigger] gone[k]).state() == left.state()
            &&& gone[k].tx == left.tx
            &&& gone[k].pages.pages().len() == 0
        }
}

/// A sequence went through a turn of its own: nothing but its own state, the
/// token sampled for it and its own client decide what becomes of it.
pub open spec fn went_through(
    before: ActiveSequence,
    after: ActiveSequence,
    leaves: bool,
    next: u32,
    now: u64,
    context_length: nat,
) -> bool {
    &&& exists|d: Delivery, made: Seq<(u32, Offer)>| #[trigger]
        turned(before.state(), after.state(), leaves, next, now, context_length, d, made)
    &&& after.same_request(&before)
}

/// One if a list names page `id`.
pub open spec fn names(p: Seq<usize>, id: usize) -> int {
    if p.contains(id) {
        1
    } else {
        0
    }
}

pub proof fn lemma_held_update(l: Seq<Seq<usize>>, i: int, v: Seq<usize>, id: usize)
    requires
        0 <= i < l.len(),
    ensures
        held(l.update(i, v), id) == held(l, id) - names(l[i], id) + names(v, id),
    decreases l.len(),
{
    let u = l.update(i, v);
    if i == l.len() - 1 {
        assert(u.drop_last() =~= l.drop_last());
    } else {
        lemma_held_update(l.drop_last(), i, v, id);
        assert(u.drop_last() =~= l.drop_last().update(i, v));
    }
}

/// Vacating place `i` and giving its pages back keeps the accounting exact.
proof fn lemma_vacate_exact(
    refs: Seq<usize>,
    c: Seq<Seq<usize>>,
    p: Seq<Seq<usize>>,
    i: int,
)
    requires
        exact(refs, c + p),
        0 <= i < c.len(),
    ensures
        c[i].no_duplicates(),
        all_held(refs, c[i]),
        exact(released(refs, c[i]), c.update(i, c.last()).drop_last() + p),
{
    let x = c[i];
    let c1 = c.update(i, c.last()).drop_last();
    let r1 = released(refs, x);
    lemma_exact_is_backed(refs, c, p);
    lemma_backed_list_is_held(refs, c, i);
    assert forall|id: usize|
        #![trigger held(c1 + p, id)]
        #![trigger holders(r1, id as int)]
        held(c1 + p, id) == holders(r1, id as int) by {
        lemma_held_concat(c, p, id);
        lemma_held_concat(c1, p, id);
        lemma_held_update(c, i, c.last(), id);
        assert(held(c + p, id) == holders(refs, id as int));
        if x.contains(id) {
            let k = choose|k: int| 0 <= k < x.len() && x[k] == id;
            assert(holders(refs, x[k] as int) > 0);
        }
    }
    assert forall|j: int| 0 <= j < (c1 + p).len() implies (
    #[trigger] (c1 + p)[j]).no_duplicates() by {
        if j < c1.len() {
            if j == i {
                assert((c1 + p)[j] == (c + p)[c.len() - 1]);
            } else {
                assert((c1 + p)[j] == (c + p)[j]);
            }
        } else {
            assert((c1 + p)[j] == (c + p)[j + 1]);
        }
    }
}

impl Engine {
    /// Remove the sequences at the places `leaving` and give their pages back.
    /// They are handed out, the last place first, with their outcomes, so that
    /// those can be published before the channels close.
    pub fn retire(&mut self, leaving: &Vec<usize>) -> (gone: Vec<ActiveSequence>)
        requires
            old(self).wf_but(leaving@),
            ascending(leaving@, old(self).active@.len()),
        ensures
            final(self).wf(),
            some_retired(*old(self), *final(self), leaving@, gone@),
    {
        let ghost all = self.active@;
        let mut gone: Vec<ActiveSequence> = Vec::new();
        let mut k: usize = leaving.len();
        assert(leaving@.take(k as int) =~= leaving@);
        while k > 0
            invariant
                all == old(self).active@,
                k <= leaving@.len(),
                ascending(leaving@, all.len()),
                self.limits == old(self).limits,
                self.shape == old(self).shape,
                self.prefix == old(self).prefix,
                (self.pool is Some) == (old(self).pool is Some),
                old(self).pool is Some ==> self.pool->0.capacity() == old(
                    self,
                ).pool->0.capacity(),
                self.memory_wf(),
                self.active@.len() == all.len() - (leaving@.len() - k),
                swap_removed(self.active@, leaving@.take(k as int)) == swap_removed(all, leaving@),
                forall|c: int|
                    0 <= c < k ==> #[trigger] leaving@[c] < self.active@.len()
                        && self.active@[leaving@[c] as int] == all[leaving@[c] as int],
                forall|j: int|
                    0 <= j < self.active@.len() && !leaving@.take(k as int).contains(j as usize)
                        ==> (#[trigger] self.active@[j]).state().valid(),
                gone@.len() == leaving@.len() - k,
                forall|m: int|
                    0 <= m < gone@.len() ==> {
                        let left = all[leaving@[leaving@.len() - 1 - m] as int];
                        &&& (#[trigger] gone@[m]).state() == left.state()
                        &&& gone@[m].tx == left.tx
                        &&& gone@[m].pages.pages().len() == 0
                    },
            decreases k,
        {
            let ghost now = self.active@;
            let ghost c0 = cache_lists(now);
            let ghost idx0 = leaving@.take(k as int);
            k = k - 1;
            let i: usize = leaving[k];
            let ghost idx1 = leaving@.take(k as int);
            proof {
                assert(idx0.drop_last() =~= idx1);
                assert(idx0.last() == i);
                assert(now[leaving@[k as int] as int] == all[leaving@[k as int] as int]);
            }
            let total: usize = self.active.len();
            assert(now.len() == total);
            let mut seq = self.active.swap_remove(i);
            proof {
                assert(self.active@ =~= now.update(i as int, now.last()).drop_last());
                assert(cache_lists(self.active@) =~= c0.update(i as int, c0.last()).drop_last());
            }
            match self.pool.take() {
                None => {},
                Some(mut pool) => {
                    proof {
                        lemma_vacate_exact(
                            pool.refs(),
                            c0,
                            page_lists(entries_of(self.prefix)),
                            i as int,
                        );
                        assert(c0[i as int] == seq.pages.pages());
                    }
                    seq.pages.release(&mut pool);
                    self.pool = Some(pool);
                },
            }
            proof {
                assert forall|j: int| 0 <= j < self.active@.len() implies {
                    &&& (#[trigger] self.active@[j]).pages.wf()
                    &&& self.active@[j].pages.n_layers() == self.shape.n_layers
                    &&& self.pool is None ==> self.active@[j].pages.pages().len() == 0
                } by {
                    if j == i {
                        assert(self.active@[j] == now[now.len() - 1]);
                    } else {
                        assert(self.active@[j] == now[j]);
                    }
                }
                assert forall|j: int|
                    0 <= j < self.active@.len() && !idx1.contains(j as usize) implies (
                #[trigger] self.active@[j]).state().valid() by {
                    let from = if j == i {
                        now.len() - 1
                    } else {
                        j
                    };
                    assert(self.active@[j] == now[from]);
                    assert(!idx0.contains(from as usize)) by {
                        if idx0.contains(from as usize) {
                            let w = choose|w: int|
                                0 <= w < idx0.len() && idx0[w] == from as usize;
                            if w < k {
                                assert(idx1[w] == from as usize);
                                assert(leaving@[w] < leaving@[k as int]);
                                assert(leaving@[w] == from);
                            } else {
                                assert(from == i);
                            }
                        }
                    }
                }
                assert forall|c: int| 0 <= c < k implies #[trigger] leaving@[c]
                    < self.active@.len() && self.active@[leaving@[c] as int]
                    == all[leaving@[c] as int] by {
                    assert(leaving@[c] < leaving@[k as int]);
                    assert(now[leaving@[c] as int] == all[leaving@[c] as int]);
                }
            }
            gone.push(seq);
        }
        assert(leaving@.take(0) =~= Seq::empty());
        gone
    }

    /// True if every sequence is draining: there is no forward pass to run.
    pub fn all_draining(&self) -> (b: bool)
        ensures
            b == (forall|i: int|
                0 <= i < self.active@.len() ==> (#[trigger] self.active@[i]).state().draining
                    is Some),
    {
        let mut i: usize = 0;
        while i < self.active.len()
            invariant
                i <= self.active@.len(),
                forall|j: int|
                    0 <= j < i ==> (#[trigger] self.active@[j]).state().draining is Some,
            decreases self.active@.len() - i,
        {
            if self.active[i].draining_since.is_none() {
                assert(self.active@[i as int].state().draining is None);
                return false;
            }
            i = i + 1;
        }
        true
    }

    /// What the loop does next.
    pub fn next_step(&self) -> (step: EngineStep)
        ensures
            step == EngineStep::Wait <==> self.active@.len() == 0,
            step == EngineStep::Decode <==> exists|i: int|
                0 <= i < self.active@.len() && (#[trigger] self.active@[i]).state().draining
                    is None,
    {
        if self.active.len() == 0 {
            EngineStep::Wait
        } else if self.all_draining() {
            EngineStep::Pause
        } else {
            EngineStep::Decode
        }
    }

    /// Which sequences want a token this turn, in order.
    pub fn wanting(&self) -> (v: Vec<bool>)
        ensures
            v@.len() == self.active@.len(),
            forall|i: int|
                0 <= i < v@.len() ==> #[trigger] v@[i] == (self.active@[i].state().draining is None
                    && self.active@[i].state().remaining > 0),
    {
        let mut v: Vec<bool> = Vec::new();
        let mut i: usize = 0;
        while i < self.active.len()
            invariant
                i <= self.active@.len(),
                v@.len() == i,
                forall|j: int|
                    0 <= j < i ==> #[trigger] v@[j] == (self.active@[j].state().draining is None
                        && self.active@[j].state().remaining > 0),
            decreases self.active@.len() - i,
        {
            v.push(wants_token(&self.active[i]));
            i = i + 1;
        }
        v
    }
}

/// One place in a batched decode step.
#[derive(Clone, Copy, Debug, PartialEq, Eq, Structural)]
pub struct DecodeSlot {
    /// Which sequence.
    pub index: usize,
    /// The token to decode.
    pub token: u32,
    /// Its position.
    pub pos: usize,
}

/// The slots of the sequences that still decode, in the order of the batch.
pub open spec fn decode_slots(active: Seq<ActiveSequence>) -> Seq<DecodeSlot>
    decreases active.len(),
{
    if active.len() == 0 {
        Seq::empty()
    } else {
        let rest = decode_slots(active.drop_last());
        let s = active.last().state();
        if s.draining is None {
            rest.push(
                DecodeSlot {
                    index: (active.len() - 1) as usize,
                    token: s.tokens.last(),
                    pos: (s.tokens.len() - 1) as usize,
                },
            )
        } else {
            rest
        }
    }
}

impl Engine {
    /// The slots of the next decode step: every sequence that is not draining,
    /// with its last token and that token's position.
    pub fn decode_batch_cpu(&self) -> (slots: Vec<DecodeSlot>)
        requires
            self.wf(),
        ensures
            slots@ == decode_slots(self.active@),
    {
        let mut slots: Vec<DecodeSlot> = Vec::new();
        let mut i: usize = 0;
        while i < self.active.len()
            invariant
                self.wf(),
                i <= self.active@.len(),
                slots@ == decode_slots(self.active@.take(i as int)),
            decreases self.active@.len() - i,
        {
            let seq = &self.active[i];
            proof {
                assert(self.active@.take(i + 1).drop_last() =~= self.active@.take(i as int));
                assert(self.active@[i as int].state().valid());
            }
            if seq.draining_since.is_none() {
                let n: usize = seq.session.tokens.len();
                slots.push(
                    DecodeSlot { index: i, token: seq.session.tokens[n - 1], pos: n - 1 },
                );
            }
            i = i + 1;
        }
        assert(self.active@.take(i as int) =~= self.active@);
        slots
    }
}

/// Draining sequences are left out of the batch and every other one is in it
/// exactly once, in order.
pub proof fn law_batch_holds_exactly_the_live_sequences(active: Seq<ActiveSequence>)
    requires
        active.len() <= usize::MAX,
    ensures
        forall|a: int, b: int|
            0 <= a < b < decode_slots(active).len() ==> decode_slots(active)[a].index
                < decode_slots(active)[b].index,
        forall|a: int|
            0 <= a < decode_slots(active).len() ==> {
                let slot = #[trigger] decode_slots(active)[a];
                &&& slot.index < active.len()
                &&& active[slot.index as int].state().draining is None
                &&& slot.token == active[slot.index as int].state().tokens.last()
                &&& slot.pos == (active[slot.index as int].state().tokens.len() - 1) as usize
            },
        forall|i: int|
            0 <= i < active.len() && (#[trigger] active[i]).state().draining is None
                ==> exists|a: int|
                0 <= a < decode_slots(active).len() && (
                #[trigger] decode_slots(active)[a]).index == i,
    decreases active.len(),
{
    if active.len() > 0 {
        let front = active.drop_last();
        law_batch_holds_exactly_the_live_sequences(front);
        let all = decode_slots(active);
        let rest = decode_slots(front);
        assert forall|i: int|
            0 <= i < active.len() && (
            #[trigger] active[i]).state().draining is None implies exists|a: int|
            0 <= a < all.len() && (#[trigger] all[a]).index == i by {
            if i < front.len() {
                assert(front[i] == active[i]);
                let a = choose|a: int| 0 <= a < rest.len() && (#[trigger] rest[a]).index == i;
                assert(all[a].index == i);
            } else {
                assert(all[rest.len() as int].index == i);
            }
        }
        assert forall|a: int| 0 <= a < all.len() implies {
            let slot = #[trigger] all[a];
            &&& slot.index < active.len()
            &&& active[slot.index as int].state().draining is None
            &&& slot.token == active[slot.index as int].state().tokens.last()
            &&& slot.pos == (active[slot.index as int].state().tokens.len() - 1) as usize
        } by {
            if a < rest.len() {
                assert(all[a] == rest[a]);
                assert(front[rest[a].index as int] == active[rest[a].index as int]);
            }
        }
        assert forall|a: int, b: int| 0 <= a < b < all.len() implies all[a].index
            < all[b].index by {
            assert(all[a] == rest[a]);
            if b < rest.len() {
                assert(all[b] == rest[b]);
            }
        }
    }
}

// ── Memory for the next position ─────────────────────────────────────────────

/// The list at place `i` counts the same at the end of all lists.
proof fn lemma_exact_place(refs: Seq<usize>, c: Seq<Seq<usize>>, p: Seq<Seq<usize>>, i: int)
    requires
        0 <= i < c.len(),
    ensures
        exact(refs, c + p) <==> exact(refs, c.remove(i) + p.push(c[i])),
{
    let l = c + p;
    let m = c.remove(i) + p.push(c[i]);
    let a = c.take(i);
    let b = c.skip(i + 1);
    let x = c[i];
    assert forall|id: usize| #![trigger held(m, id)] #![trigger held(l, id)]
        held(m, id) == held(l, id) by {
        assert(l =~= a + seq![x] + b + p);
        assert(m =~= a + b + p + seq![x]);
        lemma_held_concat(a + seq![x] + b, p, id);
        lemma_held_concat(a + seq![x], b, id);
        lemma_held_concat(a, seq![x], id);
        lemma_held_concat(a + b + p, seq![x], id);
        lemma_held_concat(a + b, p, id);
        lemma_held_concat(a, b, id);
    }
    if exact(refs, l) {
        assert forall|j: int| 0 <= j < m.len() implies (#[trigger] m[j]).no_duplicates() by {
            if j < i {
                assert(m[j] == l[j]);
            } else if j < m.len() - 1 {
                assert(m[j] == l[j + 1]);
            } else {
                assert(m[j] == l[i]);
            }
        }
        lemma_exact_reordered(refs, l, m);
    }
    if exact(refs, m) {
        assert forall|j: int| 0 <= j < l.len() implies (#[trigger] l[j]).no_duplicates() by {
            if j < i {
                assert(m[j] == l[j]);
            } else if j == i {
                assert(l[j] == m[m.len() - 1]);
            } else {
                assert(l[j] == m[j - 1]);
            }
        }
        lemma_exact_reordered(refs, m, l);
    }
}

/// A sequence could not get a page for its next position: it stops there, with
/// every token that it produced still to be delivered.
pub open spec fn out_of_pages(before: ActiveSequence, after: ActiveSequence, now: u64) -> bool {
    &&& after.state() == (SeqState {
        draining: Some(now),
        finish: Finish::Length,
        ..before.state()
    })
    &&& after.same_request(&before)
}

/// The registry and the pool's counts at one moment.
pub struct Moment {
    pub prefix: Option<PrefixCache>,
    pub refs: Seq<usize>,
}

/// What claiming memory for its next position does to one sequence, and to the registry
/// and the pool. One that is draining needs none. Else kept prefixes are given up, the
/// least recently used first, until the pages are there; no more of them than have to be.
pub open spec fn claimed(
    before: ActiveSequence,
    after: ActiveSequence,
    m0: Moment,
    m1: Moment,
    capacity: nat,
    now: u64,
) -> bool {
    if before.state().draining is Some {
        after == before && m1 == m0
    } else {
        let tokens = before.state().tokens.len();
        let have = before.pages.per_layer();
        let missing = pages_missing(tokens, have, before.pages.n_layers());
        let lists = page_lists(entries_of(m0.prefix));
        if exists|k: nat|
            k <= lists.len() && #[trigger] fits_after(m0.refs, lists, k, capacity, missing) {
            &&& after == (ActiveSequence { pages: after.pages, ..before })
            &&& after.pages.length() == before.pages.length()
            &&& after.pages.per_layer() == reserved_per_layer(tokens, have)
            &&& exists|k: nat| #[trigger]
                reserved_after(
                    k,
                    m0.prefix,
                    m1.prefix,
                    before.pages.pages(),
                    after.pages.pages(),
                    m0.refs,
                    m1.refs,
                    capacity,
                    missing,
                )
        } else {
            &&& out_of_pages(before, after, now)
            &&& entries_of(m1.prefix).len() == 0
            &&& only_evicted(m0.prefix, m1.prefix, lists.len())
            &&& m1.refs == after_evictions(m0.refs, lists, lists.len())
        }
    }
}

/// The sequences claimed memory one after the other, at the moments `ms`.
pub open spec fn claimed_in_turn(
    before: Seq<ActiveSequence>,
    after: Seq<ActiveSequence>,
    ms: Seq<Moment>,
    capacity: nat,
    now: u64,
) -> bool {
    &&& after.len() == before.len()
    &&& ms.len() == before.len() + 1
    &&& forall|i: int|
        0 <= i < before.len() ==> claimed(
            #[trigger] before[i],
            after[i],
            ms[i],
            ms[i + 1],
            capacity,
            now,
        )
}

/// Every decoding sequence has claimed memory for its next position, in order, or has
/// stopped for want of it. Without pages of a pool nothing changes.
pub open spec fn next_claimed(e0: Engine, e1: Engine, now: u64) -> bool {
    &&& e1.limits == e0.limits
    &&& e1.shape == e0.shape
    &&& e1.active@.len() == e0.active@.len()
    &&& (e1.prefix is Some) == (e0.prefix is Some)
    &&& !e0.paged() ==> e1 == e0
    &&& e0.paged() ==> {
        &&& e1.pool is Some
        &&& e1.pool->0.capacity() == e0.pool->0.capacity()
        &&& exists|ms: Seq<Moment>|
            {
                &&& #[trigger] claimed_in_turn(
                    e0.active@,
                    e1.active@,
                    ms,
                    e0.pool->0.capacity(),
                    now,
                )
                &&& ms[0] == e0.moment()
                &&& ms.last() == e1.moment()
            }
    }
}

impl Engine {
    pub open spec fn moment(&self) -> Moment {
        Moment { prefix: self.prefix, refs: self.pool->0.refs() }
    }

    /// Claim pages for the position that each decoding sequence writes next, in
    /// order, giving up kept prefixes first. A sequence that cannot get its page
    /// ends there instead of failing inside the forward pass. Without pages of a
    /// pool there is nothing to claim.
    pub fn reserve_next(&mut self, now: u64)
        requires
            old(self).wf(),
        ensures
            final(self).wf(),
            next_claimed(*old(self), *final(self), now),
    {
        if !self.draws_pages() {
            return;
        }
        let mut pool = match self.pool.take() {
            Some(p) => p,
            None => {
                return;
            },
        };
        let ghost before = self.active@;
        let ghost mut ms: Seq<Moment> = seq![old(self).moment()];
        let mut i: usize = 0;
        while i < self.active.len()
            invariant
                old(self).wf(),
                old(self).paged(),
                before == old(self).active@,
                self.limits == old(self).limits,
                self.shape == old(self).shape,
                self.active@.len() == before.len(),
                (self.prefix is Some) == (old(self).prefix is Some),
                self.pool is None,
                pool.wf(),
                pool.capacity() == old(self).pool->0.capacity(),
                i <= before.len(),
                exact(pool.refs(), self.lists()),
                entries_wf(entries_of(self.prefix), self.shape.n_layers as nat),
                forall|j: int|
                    0 <= j < before.len() ==> {
                        &&& (#[trigger] self.active@[j]).pages.wf()
                        &&& self.active@[j].pages.n_layers() == self.shape.n_layers
                        &&& self.active@[j].state().valid()
                    },
                forall|j: int| i <= j < before.len() ==> self.active@[j] == before[j],
                ms.len() == i + 1,
                ms[0] == old(self).moment(),
                ms.last() == (Moment { prefix: self.prefix, refs: pool.refs() }),
                forall|j: int|
                    0 <= j < i ==> claimed(
                        #[trigger] before[j],
                        self.active@[j],
                        ms[j],
                        ms[j + 1],
                        pool.capacity(),
                        now,
                    ),
            decreases before.len() - i,
        {
            let ghost active0 = self.active@;
            let ghost m0 = ms.last();
            if self.active[i].draining_since.is_none() {
                let need: usize = self.active[i].session.tokens.len();
                let ghost pool0 = pool;
                let ghost prefix0 = self.prefix;
                let ghost c0 = cache_lists(active0);
                let ghost p0 = page_lists(entries_of(self.prefix));
                let ghost x0 = self.active@[i as int].pages.pages();
                let ghost others = c0.remove(i as int);
                proof {
                    lemma_exact_place(pool.refs(), c0, p0, i as int);
                    assert(lists_with(self.prefix, x0) =~= p0.push(x0));
                    lemma_exact_is_backed(pool.refs(), others, p0.push(x0));
                }
                let r = reserve_or_evict(
                    &mut pool,
                    &mut self.active[i].pages,
                    need,
                    &mut self.prefix,
                );
                let ghost active1 = self.active@;
                let ghost m1 = Moment { prefix: self.prefix, refs: pool.refs() };
                let ghost missing = pages_missing(
                    need as nat,
                    before[i as int].pages.per_layer(),
                    before[i as int].pages.n_layers(),
                );
                proof {
                    let x1 = active1[i as int].pages.pages();
                    let p1 = page_lists(entries_of(self.prefix));
                    let c1 = cache_lists(active1);
                    assert(lists_with(self.prefix, x1) =~= p1.push(x1));
                    lemma_exact_frame(others, pool0.refs(), p0.push(x0), pool.refs(), p1.push(x1));
                    assert(c1.remove(i as int) =~= others);
                    lemma_exact_place(pool.refs(), c1, p1, i as int);
                }
                if r.is_err() {
                    self.active[i].finish.set(Finish::Length);
                    self.active[i].draining_since = Some(now);
                    assert(cache_lists(self.active@) =~= cache_lists(active1));
                } else {
                    proof {
                        let k = choose|k: nat| #[trigger]
                            reserved_after(
                                k,
                                prefix0,
                                self.prefix,
                                x0,
                                active1[i as int].pages.pages(),
                                pool0.refs(),
                                pool.refs(),
                                pool.capacity(),
                                missing,
                            );
                        assert(reserved_after(
                            k,
                            m0.prefix,
                            m1.prefix,
                            before[i as int].pages.pages(),
                            self.active@[i as int].pages.pages(),
                            m0.refs,
                            m1.refs,
                            pool.capacity(),
                            missing,
                        ));
                        assert(fits_after(m0.refs, p0, k, pool.capacity(), missing));
                    }
                }
                proof {
                    assert(claimed(
                        before[i as int],
                        self.active@[i as int],
                        m0,
                        m1,
                        pool.capacity(),
                        now,
                    ));
                    ms = ms.push(m1);
                    assert forall|j: int| 0 <= j < before.len() implies {
                        &&& (#[trigger] self.active@[j]).pages.wf()
                        &&& self.active@[j].pages.n_layers() == self.shape.n_layers
                        &&& self.active@[j].state().valid()
                    } by {
                        assert(active0[j].state().valid());
                    }
                }
            } else {
                proof {
                    ms = ms.push(m0);
                }
            }
            proof {
                assert forall|j: int| 0 <= j < i + 1 implies claimed(
                    #[trigger] before[j],
                    self.active@[j],
                    ms[j],
                    ms[j + 1],
                    pool.capacity(),
                    now,
                ) by {
                    if j < i {
                        assert(self.active@[j] == active0[j]);
                    }
                }
            }
            i = i + 1;
        }
        self.pool = Some(pool);
        assert(claimed_in_turn(before, self.active@, ms, pool.capacity(), now));
    }
}

} // verus!
