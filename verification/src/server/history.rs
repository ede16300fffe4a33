//! What the engine's methods do is a history of its requests.
//!
//! A company stands for an engine: it holds everyone who is or was on it, with what the
//! model has computed for them. Each method of the engine, together with the schedule
//! that belongs to it, takes one company to the next in a way that a history allows, so
//! that what holds of histories holds of the running engine.
use vstd::prelude::*;

use crate::cache::paged::pages_missing;
use crate::cache::pool::{released, PagePool, PAGE_SIZE};
use crate::cache::prefix::{
    adapter_key, all_from, counted, entries_of, entry_saves, inserted, lemma_inserted_from,
    lemma_most_saved_bounds, lemma_moved_from, lemma_shared_is_common, looked_up, most_saved,
    reusable_pages, shared_len, whole_pages, PrefixCache, PrefixEntry,
};
use crate::server::batch::{
    admission, all_took_turns, ascending, claim_failed, claim_made, claimed, claimed_in_turn,
    decode_slots, fork_found, fork_of, fresh_state, law_batch_holds_exactly_the_live_sequences,
    next_claimed, offered, some_retired, swap_removed, went_through, Admission, Claim, Engine,
    InferenceRequest, Moment,
};
use crate::server::deliver::{Delivery, Offer};
use crate::server::engine::{turned, ActiveSequence, Finish, SeqState};
use crate::server::reserve::reserved_after;
use crate::server::run::{
    all_keep_to_themselves, alone, goes_round, happens, has_turn, is_history, joined_member,
    keeps_to_itself, kept_len, lane_of, lanes_of, law_company_is_invisible, lemma_join,
    lemma_round, lemma_turn_of_member, live, may_join, takes_turn, Company, Event, Machine,
    Member, Turn,
};
use crate::transformer::execution::run_apart;
use crate::transformer::forward::{
    decode_ops, in_lanes, lane_view, prompt_lane, writes_precede_reads, Lane, Step,
};

verus! {

/// Which adapter a name stands for.
pub type Adapters = spec_fn(Option<Seq<char>>) -> Option<usize>;

/// `ids[i]` is the number of the request at place `i` of the batch. Everyone who has not
/// left has a place.
pub open spec fn seated<S, R>(
    w: Company<S, R>,
    ids: Seq<nat>,
    active: Seq<ActiveSequence>,
    adapters: Adapters,
) -> bool {
    &&& ids.len() == active.len()
    &&& ids.no_duplicates()
    &&& forall|i: int|
        0 <= i < ids.len() ==> {
            let x = w[#[trigger] ids[i]];
            &&& w.dom().contains(ids[i])
            &&& !x.left
            &&& x.state == active[i].state()
            &&& x.lora == adapters(adapter_key(active[i].session.lora_adapter))
        }
    &&& forall|id: nat| w.dom().contains(id) && !(#[trigger] w[id]).left ==> ids.contains(id)
}

/// The positions that entry `e` keeps are the first ones of request `donor`.
pub open spec fn comes_from<S, R>(
    w: Company<S, R>,
    e: PrefixEntry,
    donor: nat,
    adapters: Adapters,
) -> bool {
    &&& w.dom().contains(donor)
    &&& w[donor].lora == adapters(adapter_key(e.lora))
    &&& e.tokens@.len() <= w[donor].seen
    &&& e.tokens@.len() <= w[donor].state.tokens.len()
    &&& w[donor].state.tokens.take(e.tokens@.len() as int) == e.tokens@
}

/// The positions that entry `e` keeps are the first ones of some request.
pub open spec fn has_donor<S, R>(w: Company<S, R>, e: PrefixEntry, adapters: Adapters) -> bool {
    exists|donor: nat| #[trigger] comes_from(w, e, donor, adapters)
}

/// Every kept prefix comes from a request.
pub open spec fn remembered<S, R>(
    w: Company<S, R>,
    entries: Seq<PrefixEntry>,
    adapters: Adapters,
) -> bool {
    forall|i: int|
        0 <= i < entries.len() ==> has_donor(w, #[trigger] entries[i], adapters)
}

/// The company `w` stands for the engine `e`.
pub open spec fn stands_for<S, R>(
    k: Machine<S, R>,
    w: Company<S, R>,
    ids: Seq<nat>,
    e: Engine,
    adapters: Adapters,
) -> bool {
    &&& k.context == e.shape.context_length
    &&& seated(w, ids, e.active@, adapters)
    &&& remembered(w, entries_of(e.prefix), adapters)
}

// ── Admissions ───────────────────────────────────────────────────────────────

/// What `forward_prefill_lora` returns for the part of a prompt behind its first `start`
/// positions.
pub open spec fn prompt_schedule<S, R>(
    k: Machine<S, R>,
    prompt: Seq<u32>,
    start: usize,
    lora: Option<usize>,
    steps: Seq<Step>,
) -> bool {
    let rest = prompt.skip(start as int);
    &&& in_lanes(steps, rest.len())
    &&& writes_precede_reads(steps, start as int)
    &&& forall|i: int|
        0 <= i < rest.len() ==> #[trigger] lane_view(steps, i) == decode_ops(
            k.plan,
            prompt_lane(rest, start, lora, i),
        )
}

proof fn lemma_remembered_from<S, R>(
    w: Company<S, R>,
    a: Seq<PrefixEntry>,
    b: Seq<PrefixEntry>,
    adapters: Adapters,
)
    requires
        all_from(a, b),
        remembered(w, b, adapters),
    ensures
        remembered(w, a, adapters),
{
    assert forall|i: int| 0 <= i < a.len() implies has_donor(
        w,
        #[trigger] a[i],
        adapters,
    ) by {
        assert(b.contains(a[i]));
        let j = choose|j: int| 0 <= j < b.len() && b[j] == a[i];
        assert(has_donor(w, b[j], adapters));
    }
}

proof fn lemma_found_from(
    c: Claim,
    prefix: Option<PrefixCache>,
    pool: PagePool,
    prompt: Seq<u32>,
    lora: Option<Seq<char>>,
    n_layers: nat,
)
    requires
        fork_found(prefix, c.found, pool, c.pool, prompt, lora, n_layers, c.fork),
    ensures
        all_from(entries_of(c.found), entries_of(prefix)),
{
    match (prefix, c.found) {
        (Some(p0), Some(p1)) => {
            if p1.entries@ == p0.entries@ {
                assert forall|i: int| 0 <= i < p1.entries@.len() implies p0.entries@.contains(
                    #[trigger] p1.entries@[i],
                ) by {}
            } else {
                let i = choose|i: int| #[trigger]
                    looked_up(p0, p1, pool, c.pool, prompt, lora, n_layers, i, c.fork);
                lemma_moved_from(p0.entries@, i);
            }
        },
        _ => {},
    }
}

pub proof fn lemma_skipped_from(entries: Seq<PrefixEntry>, k: int)
    requires
        0 <= k <= entries.len(),
    ensures
        all_from(entries.skip(k), entries),
{
    assert forall|i: int| 0 <= i < entries.skip(k).len() implies entries.contains(
        #[trigger] entries.skip(k)[i],
    ) by {
        assert(entries[i + k] == entries.skip(k)[i]);
    }
}

pub proof fn lemma_from_trans(a: Seq<PrefixEntry>, b: Seq<PrefixEntry>, c: Seq<PrefixEntry>)
    requires
        all_from(a, b),
        all_from(b, c),
    ensures
        all_from(a, c),
{
    assert forall|i: int| 0 <= i < a.len() implies c.contains(#[trigger] a[i]) by {
        assert(b.contains(a[i]));
        let j = choose|j: int| 0 <= j < b.len() && b[j] == a[i];
        assert(c.contains(b[j]));
    }
}

proof fn lemma_claim_from(
    c: Claim,
    prefix: Option<PrefixCache>,
    pool: PagePool,
    prompt: Seq<u32>,
    lora: Option<Seq<char>>,
    n_layers: nat,
    pages: Seq<usize>,
)
    requires
        claim_made(c, prefix, pool, prompt, lora, n_layers, pages),
    ensures
        all_from(entries_of(c.left), entries_of(prefix)),
{
    lemma_found_from(c, prefix, pool, prompt, lora, n_layers);
    lemma_skipped_from(entries_of(c.found), c.evicted as int);
    lemma_from_trans(entries_of(c.left), entries_of(c.found), entries_of(prefix));
}

/// The first `start` positions of request `donor` are those of `prompt`.
pub open spec fn starts_alike<S, R>(
    w: Company<S, R>,
    donor: nat,
    prompt: Seq<u32>,
    lora: Option<usize>,
    start: usize,
) -> bool {
    &&& w.dom().contains(donor)
    &&& w[donor].lora == lora
    &&& start <= w[donor].seen
    &&& w[donor].state.tokens.take(start as int) == prompt.take(start as int)
}

/// Whose positions a prompt reuses that starts behind `start` of them.
pub open spec fn reused_by<S, R>(
    w: Company<S, R>,
    prompt: Seq<u32>,
    lora: Option<usize>,
    start: usize,
) -> Option<(nat, int)> {
    if start == 0 {
        None
    } else {
        Some((choose|donor: nat| starts_alike(w, donor, prompt, lora, start), start as int))
    }
}

/// What a prompt reuses are the first positions of a request on the same server that has
/// the same adapter and starts alike, in whole pages. Without a registry it starts from
/// scratch.
pub proof fn law_reused_positions_have_a_donor<S, R>(
    k: Machine<S, R>,
    w: Company<S, R>,
    ids: Seq<nat>,
    e0: Engine,
    e1: Engine,
    req: InferenceRequest,
    start: usize,
    adapters: Adapters,
)
    requires
        stands_for(k, w, ids, e0, adapters),
        admission(e0, e1, req, true, Admission::Admitted { start }),
    ensures
        start % PAGE_SIZE == 0,
        e0.prefix is None ==> start == 0,
        start > 0 ==> exists|donor: nat| #[trigger]
            starts_alike(
                w,
                donor,
                req.prompt_tokens@,
                adapters(adapter_key(req.lora_name)),
                start,
            ),
{
    let entries = entries_of(e0.prefix);
    let prompt = req.prompt_tokens@;
    let lora = adapter_key(req.lora_name);
    if start > 0 {
        lemma_most_saved_bounds(entries, prompt, lora);
        let saved = most_saved(entries, prompt, lora);
        assert(start == saved * PAGE_SIZE);
        let j = choose|j: int|
            0 <= j < entries.len() && entry_saves(#[trigger] entries[j], prompt, lora) == saved;
        let e = entries[j];
        assert(adapter_key(e.lora) == lora);
        assert(reusable_pages(e.tokens@, prompt) == saved);
        assert(start <= shared_len(e.tokens@, prompt)) by {
            let shared = shared_len(e.tokens@, prompt);
            lemma_shared_is_common(e.tokens@, prompt, shared);
        }
        lemma_shared_is_common(e.tokens@, prompt, start as nat);
        assert(has_donor(w, e, adapters));
        let donor = choose|donor: nat| #[trigger] comes_from(w, e, donor, adapters);
        let t = w[donor].state.tokens;
        assert(t.take(start as int) =~= e.tokens@.take(start as int));
        assert(starts_alike(w, donor, prompt, adapters(lora), start));
    }
}

/// What becomes of a company when a request joins.
pub open spec fn company_joined<S, R>(
    k: Machine<S, R>,
    w: Company<S, R>,
    id: nat,
    req: InferenceRequest,
    start: usize,
    pick: spec_fn(S, Seq<u32>) -> u32,
    steps: Seq<Step>,
    adapters: Adapters,
) -> Company<S, R> {
    let lora = adapters(adapter_key(req.lora_name));
    w.insert(
        id,
        joined_member(
            k,
            w,
            fresh_state(req),
            req.max_new_tokens as nat,
            lora,
            pick,
            reused_by(w, req.prompt_tokens@, lora, start),
            steps,
        ),
    )
}

/// The event that an admission is.
pub open spec fn join_event<S, R>(
    w: Company<S, R>,
    id: nat,
    req: InferenceRequest,
    start: usize,
    pick: spec_fn(S, Seq<u32>) -> u32,
    steps: Seq<Step>,
    adapters: Adapters,
) -> Event<S> {
    let lora = adapters(adapter_key(req.lora_name));
    Event::Join {
        id,
        state: fresh_state(req),
        budget: req.max_new_tokens as nat,
        lora,
        pick,
        reused: reused_by(w, req.prompt_tokens@, lora, start),
        steps,
    }
}

/// Admitting a request and computing its prompt is a step of a history: the request joins,
/// and the new company stands for the new engine.
pub proof fn law_admission_is_a_step<S, R>(
    k: Machine<S, R>,
    w: Company<S, R>,
    ids: Seq<nat>,
    e0: Engine,
    e1: Engine,
    req: InferenceRequest,
    start: usize,
    id: nat,
    pick: spec_fn(S, Seq<u32>) -> u32,
    steps: Seq<Step>,
    adapters: Adapters,
)
    requires
        stands_for(k, w, ids, e0, adapters),
        all_keep_to_themselves(k, w),
        admission(e0, e1, req, true, Admission::Admitted { start }),
        e1.shape == e0.shape,
        (e1.prefix is Some) == (e0.prefix is Some),
        !w.dom().contains(id),
        prompt_schedule(
            k,
            req.prompt_tokens@,
            start,
            adapters(adapter_key(req.lora_name)),
            steps,
        ),
    ensures
        happens(
            k,
            w,
            company_joined(k, w, id, req, start, pick, steps, adapters),
            join_event(w, id, req, start, pick, steps, adapters),
        ),
        stands_for(
            k,
            company_joined(k, w, id, req, start, pick, steps, adapters),
            ids.push(id),
            e1,
            adapters,
        ),
{
    let state = fresh_state(req);
    let budget = req.max_new_tokens as nat;
    let lora = adapters(adapter_key(req.lora_name));
    let prompt = req.prompt_tokens@;
    let reused = reused_by(w, prompt, lora, start);
    law_reused_positions_have_a_donor(k, w, ids, e0, e1, req, start, adapters);
    assert(may_join(k, w, id, state, budget, lora, reused, steps)) by {
        assert forall|i: int| 0 <= i < prompt.len() - kept_len(reused) implies #[trigger] lane_view(
            steps,
            i,
        ) == decode_ops(
            k.plan,
            prompt_lane(prompt.skip(kept_len(reused)), kept_len(reused) as usize, lora, i),
        ) by {}
    }
    let w1 = company_joined(k, w, id, req, start, pick, steps, adapters);
    let seats = ids.push(id);
    assert(seated(w1, seats, e1.active@, adapters)) by {
        assert(!ids.contains(id)) by {
            if ids.contains(id) {
                let i = choose|i: int| 0 <= i < ids.len() && ids[i] == id;
                assert(w.dom().contains(ids[i]));
            }
        }
        assert(e1.active@.drop_last() == e0.active@);
        assert forall|i: int| 0 <= i < seats.len() implies {
            let x = w1[#[trigger] seats[i]];
            &&& w1.dom().contains(seats[i])
            &&& !x.left
            &&& x.state == e1.active@[i].state()
            &&& x.lora == adapters(adapter_key(e1.active@[i].session.lora_adapter))
        } by {
            if i < ids.len() {
                assert(seats[i] == ids[i]);
                assert(w.dom().contains(ids[i]));
                assert(e1.active@[i] == e1.active@.drop_last()[i]);
            }
        }
        assert forall|j: nat|
            w1.dom().contains(j) && !(#[trigger] w1[j]).left implies seats.contains(j) by {
            if j == id {
                assert(seats[ids.len() as int] == id);
            } else {
                assert(w1[j] == w[j]);
                assert(ids.contains(j));
                let i = choose|i: int| 0 <= i < ids.len() && ids[i] == j;
                assert(seats[i] == j);
            }
        }
    }
    assert(remembered(w1, entries_of(e1.prefix), adapters)) by {
        lemma_admitted_entries(k, w, ids, e0, e1, req, start, id, pick, steps, adapters);
    }
}

proof fn lemma_admitted_entries<S, R>(
    k: Machine<S, R>,
    w: Company<S, R>,
    ids: Seq<nat>,
    e0: Engine,
    e1: Engine,
    req: InferenceRequest,
    start: usize,
    id: nat,
    pick: spec_fn(S, Seq<u32>) -> u32,
    steps: Seq<Step>,
    adapters: Adapters,
)
    requires
        stands_for(k, w, ids, e0, adapters),
        admission(e0, e1, req, true, Admission::Admitted { start }),
        (e1.prefix is Some) == (e0.prefix is Some),
        !w.dom().contains(id),
    ensures
        remembered(
            company_joined(k, w, id, req, start, pick, steps, adapters),
            entries_of(e1.prefix),
            adapters,
        ),
{
    let w1 = company_joined(k, w, id, req, start, pick, steps, adapters);
    let prompt = req.prompt_tokens@;
    let lora = adapter_key(req.lora_name);
    let old_entries = entries_of(e0.prefix);
    let new_entries = entries_of(e1.prefix);
    assert forall|i: int| 0 <= i < new_entries.len() implies has_donor(
        w1,
        #[trigger] new_entries[i],
        adapters,
    ) by {
        let e = new_entries[i];
        assert(old_entries.contains(e) || (e.tokens@ == whole_pages(prompt) && adapter_key(e.lora)
            == lora)) by {
            if e0.paged() && e1.prefix is Some {
                let pages = e1.active@.last().pages.pages();
                let n_layers = e0.shape.n_layers as nat;
                let c = choose|c: Claim|
                    {
                        &&& #[trigger] claim_made(
                            c,
                            e0.prefix,
                            e0.pool->0,
                            prompt,
                            lora,
                            n_layers,
                            pages,
                        )
                        &&& c.fork.length() == start
                        &&& offered(c, e1.prefix, prompt, lora, n_layers, pages)
                    };
                lemma_claim_from(c, e0.prefix, e0.pool->0, prompt, lora, n_layers, pages);
                let p0 = c.left->0;
                let p1 = e1.prefix->0;
                let head = pages.take((prompt.len() / PAGE_SIZE as nat * n_layers) as int);
                let (x, f) = choose|x: int, f: PrefixEntry| #[trigger]
                    inserted(p0, p1, c.refs, prompt, lora, head, x, f);
                lemma_inserted_from(p0, p1, c.refs, prompt, lora, head, x, f, i);
                if p0.entries@.contains(e) {
                    let y = choose|y: int| 0 <= y < p0.entries@.len() && p0.entries@[y] == e;
                    assert(old_entries.contains(entries_of(c.left)[y]));
                }
            } else {
                assert(old_entries[i] == e);
            }
        }
        if old_entries.contains(e) {
            let y = choose|y: int| 0 <= y < old_entries.len() && old_entries[y] == e;
            assert(has_donor(w, old_entries[y], adapters));
            let donor = choose|donor: nat| #[trigger]
                comes_from(w, old_entries[y], donor, adapters);
            assert(comes_from(w1, e, donor, adapters));
        } else {
            let n = prompt.len() / PAGE_SIZE as nat * PAGE_SIZE as nat;
            assert(n <= prompt.len());
            assert(comes_from(w1, e, id, adapters));
        }
    }
}

/// A refusal adds nothing to the registry.
pub proof fn lemma_refused_from(
    e0: Engine,
    e1: Engine,
    req: InferenceRequest,
    constraint_ok: bool,
    finish: Finish,
)
    requires
        admission(e0, e1, req, constraint_ok, Admission::Refused { finish }),
    ensures
        all_from(entries_of(e1.prefix), entries_of(e0.prefix)),
{
    let prompt = req.prompt_tokens@;
    let lora = adapter_key(req.lora_name);
    let n_layers = e0.shape.n_layers as nat;
    let entries = entries_of(e0.prefix);
    if e1 == e0 {
        assert(entries.skip(0) =~= entries);
        lemma_skipped_from(entries, 0);
    } else if finish == Finish::Incomplete {
        let c = choose|c: Claim|
            #[trigger] claim_failed(c, e0.prefix, e0.pool->0, prompt, lora, n_layers) && c.left
                == e1.prefix;
        assert(entries_of(e1.prefix).len() == 0);
    } else {
        let (c, pages) = choose|c: Claim, pages: Seq<usize>|
            {
                &&& #[trigger] claim_made(c, e0.prefix, e0.pool->0, prompt, lora, n_layers, pages)
                &&& c.left == e1.prefix
                &&& e1.pool->0.refs() == released(c.refs, pages)
            };
        lemma_claim_from(c, e0.prefix, e0.pool->0, prompt, lora, n_layers, pages);
    }
}

/// A request that is turned away leaves everyone as they were.
pub proof fn law_refusal_changes_nobody<S, R>(
    k: Machine<S, R>,
    w: Company<S, R>,
    ids: Seq<nat>,
    e0: Engine,
    e1: Engine,
    req: InferenceRequest,
    constraint_ok: bool,
    finish: Finish,
    adapters: Adapters,
)
    requires
        stands_for(k, w, ids, e0, adapters),
        admission(e0, e1, req, constraint_ok, Admission::Refused { finish }),
        e1.shape == e0.shape,
    ensures
        stands_for(k, w, ids, e1, adapters),
{
    lemma_refused_from(e0, e1, req, constraint_ok, finish);
    lemma_remembered_from(w, entries_of(e1.prefix), entries_of(e0.prefix), adapters);
}

// ── Rounds ───────────────────────────────────────────────────────────────────

/// One pass over the batch: everyone was taken through a turn, those who left were
/// retired, the others claimed memory, and those who still decode were decoded together.
pub struct Pass {
    /// The tokens that the samplers drew, and when they were delivered.
    pub next: Seq<u32>,
    pub now: u64,
    /// The places that were vacated, and who had them.
    pub leaving: Seq<usize>,
    pub gone: Seq<ActiveSequence>,
    /// The engine once the tokens were delivered, and once those who left were gone.
    pub delivered: Engine,
    pub thinned: Engine,
    /// When memory was claimed.
    pub later: u64,
    /// The batched decode.
    pub steps: Seq<Step>,
}

/// Whoever wants a token is given the one that its own sampler draws.
pub open spec fn draws<S, R>(w: Company<S, R>, ids: Seq<nat>, next: Seq<u32>) -> bool {
    forall|i: int|
        0 <= i < ids.len() ==> {
            let x = w[#[trigger] ids[i]];
            x.state.draining is None && x.state.remaining > 0 ==> next[i] == (x.pick)(
                x.acts,
                x.state.tokens,
            )
        }
}

/// What `forward_batch_lora` returns for the sequences of a batch that still decode.
pub open spec fn batch_schedule<S, R>(
    k: Machine<S, R>,
    active: Seq<ActiveSequence>,
    steps: Seq<Step>,
    adapters: Adapters,
) -> bool {
    let slots = decode_slots(active);
    &&& in_lanes(steps, slots.len())
    &&& forall|a: int|
        0 <= a < slots.len() ==> #[trigger] lane_view(steps, a) == decode_ops(
            k.plan,
            Lane {
                token: slots[a].token,
                pos: slots[a].pos,
                lora: adapters(adapter_key(active[slots[a].index as int].session.lora_adapter)),
            },
        )
}

/// What `sample_and_deliver`, `retire` and `reserve_next` did in this order, on the tokens
/// that were drawn, and the schedule of the decode behind them.
pub open spec fn pass_made<S, R>(
    k: Machine<S, R>,
    w: Company<S, R>,
    ids: Seq<nat>,
    e0: Engine,
    e1: Engine,
    p: Pass,
    adapters: Adapters,
) -> bool {
    &&& all_took_turns(e0, p.delivered, p.next, p.now, p.leaving)
    &&& draws(w, ids, p.next)
    &&& some_retired(p.delivered, p.thinned, p.leaving, p.gone)
    &&& next_claimed(p.thinned, e1, p.later)
    &&& batch_schedule(k, e1.active@, p.steps, adapters)
}

/// The turn of the request at place `i`.
pub open spec fn turn_at(e0: Engine, p: Pass, i: int) -> Turn {
    let (d, made) = choose|d: Delivery, made: Seq<(u32, Offer)>| #[trigger]
        turned(
            e0.active@[i].state(),
            p.delivered.active@[i].state(),
            p.leaving.contains(i as usize),
            p.next[i],
            p.now,
            e0.shape.context_length as nat,
            d,
            made,
        );
    Turn { next: p.next[i], now: p.now, made, d }
}

/// Everyone's turn.
pub open spec fn turns_of<S, R>(w: Company<S, R>, ids: Seq<nat>, e0: Engine, p: Pass) -> Map<
    nat,
    Turn,
> {
    Map::new(|id: nat| w.dom().contains(id), |id: nat| turn_at(e0, p, ids.index_of(id)))
}

/// Those who left.
pub open spec fn leavers(ids: Seq<nat>, p: Pass) -> Set<nat> {
    Set::new(|id: nat| ids.contains(id) && p.leaving.contains(ids.index_of(id) as usize))
}

/// Who is at which place once they have left.
pub open spec fn seats_after(ids: Seq<nat>, p: Pass) -> Seq<nat> {
    swap_removed(ids, p.leaving)
}

/// Whoever is at place `j` then finds no page.
pub open spec fn starves_at(p: Pass, e1: Engine, j: int) -> bool {
    p.thinned.active@[j].state().draining is None && e1.active@[j].state().draining is Some
}

/// Those who found no page.
pub open spec fn starvers(ids: Seq<nat>, e1: Engine, p: Pass) -> Map<nat, u64> {
    let seats = seats_after(ids, p);
    Map::new(
        |id: nat| seats.contains(id) && starves_at(p, e1, seats.index_of(id)),
        |id: nat| p.later,
    )
}

/// Those who were decoded, in the order of the batch.
pub open spec fn decoded(ids: Seq<nat>, e1: Engine, p: Pass) -> Seq<nat> {
    let slots = decode_slots(e1.active@);
    Seq::new(slots.len(), |a: int| seats_after(ids, p)[slots[a].index as int])
}

/// What a pass makes of request `id`.
pub open spec fn member_after<S, R>(
    k: Machine<S, R>,
    w: Company<S, R>,
    ids: Seq<nat>,
    e1: Engine,
    p: Pass,
    id: nat,
) -> Member<S, R> {
    let x = w[id];
    let j = seats_after(ids, p).index_of(id);
    let order = decoded(ids, e1, p);
    if x.left {
        x
    } else if leavers(ids, p).contains(id) {
        Member {
            state: p.delivered.active@[ids.index_of(id)].state(),
            left: true,
            ..x
        }
    } else {
        let state = e1.active@[j].state();
        let starved = x.starved || starves_at(p, e1, j);
        if state.draining is None {
            let lanes = lanes_of(k, w, order);
            let (acts, rows) = run_apart(k.kernels, p.steps, lanes)[order.index_of(id)];
            Member { state, starved, seen: state.tokens.len(), acts, rows, ..x }
        } else {
            Member { state, starved, ..x }
        }
    }
}

/// What a pass makes of a company.
pub open spec fn company_passed<S, R>(
    k: Machine<S, R>,
    w: Company<S, R>,
    ids: Seq<nat>,
    e1: Engine,
    p: Pass,
) -> Company<S, R> {
    Map::new(|id: nat| w.dom().contains(id), |id: nat| member_after(k, w, ids, e1, p, id))
}

proof fn lemma_index_of<A>(s: Seq<A>, i: int)
    requires
        s.no_duplicates(),
        0 <= i < s.len(),
    ensures
        s.contains(s[i]),
        s.index_of(s[i]) == i,
{
}

pub proof fn lemma_thinned<A>(s: Seq<A>, idx: Seq<usize>)
    requires
        s.no_duplicates(),
        s.len() <= usize::MAX,
        ascending(idx, s.len()),
    ensures
        swap_removed(s, idx).no_duplicates(),
        forall|x: A| #[trigger]
            swap_removed(s, idx).contains(x) <==> s.contains(x) && !idx.contains(
                s.index_of(x) as usize,
            ),
    decreases idx.len(),
{
    if idx.len() > 0 {
        let l = idx.last() as int;
        let t = s.update(l, s.last()).drop_last();
        let front = idx.drop_last();
        assert(idx[idx.len() - 1] == idx.last());
        assert(ascending(front, t.len())) by {
            assert forall|i: int| 0 <= i < front.len() implies #[trigger] front[i] < t.len() by {
                assert(front[i] == idx[i]);
            }
        }
        assert(t.no_duplicates());
        lemma_thinned(t, front);
        assert forall|x: A| #[trigger]
            swap_removed(s, idx).contains(x) <==> s.contains(x) && !idx.contains(
                s.index_of(x) as usize,
            ) by {
            assert(swap_removed(s, idx) == swap_removed(t, front));
            if s.contains(x) {
                let i = s.index_of(x);
                if i == l {
                    assert(idx[idx.len() - 1] == i as usize);
                    assert(!t.contains(x));
                } else {
                    let j = if i == s.len() - 1 {
                        l
                    } else {
                        i
                    };
                    assert(t[j] == x);
                    lemma_index_of(t, j);
                    if idx.contains(i as usize) {
                        let m = choose|m: int| 0 <= m < idx.len() && idx[m] == i as usize;
                        assert(m < idx.len() - 1);
                        assert(front[m] == i as usize);
                        assert(i == j);
                    }
                    if front.contains(j as usize) {
                        let m = choose|m: int| 0 <= m < front.len() && front[m] == j as usize;
                        assert(idx[m] == j as usize);
                        assert(j < l);
                        assert(i == j);
                    }
                }
            } else if t.contains(x) {
                let j = choose|j: int| 0 <= j < t.len() && t[j] == x;
                assert(s.contains(x)) by {
                    if j == l {
                        assert(s[s.len() - 1] == x);
                    } else {
                        assert(s[j] == x);
                    }
                }
            }
        }
    } else {
        assert forall|x: A| s.contains(x) implies !idx.contains(s.index_of(x) as usize) by {}
    }
}

/// `x` and `y` are at the same place of `a` and `b`.
pub open spec fn at_one_place<A, B>(a: Seq<A>, b: Seq<B>, x: A, y: B) -> bool {
    exists|i: int| 0 <= i < a.len() && #[trigger] a[i] == x && b[i] == y
}

pub proof fn lemma_paired<A, B>(a: Seq<A>, b: Seq<B>, idx: Seq<usize>)
    requires
        a.len() == b.len(),
        ascending(idx, a.len()),
    ensures
        swap_removed(a, idx).len() == swap_removed(b, idx).len(),
        forall|j: int|
            0 <= j < swap_removed(a, idx).len() ==> at_one_place(
                a,
                b,
                #[trigger] swap_removed(a, idx)[j],
                swap_removed(b, idx)[j],
            ),
    decreases idx.len(),
{
    let (ra, rb) = (swap_removed(a, idx), swap_removed(b, idx));
    if idx.len() > 0 {
        let l = idx.last() as int;
        let s = a.update(l, a.last()).drop_last();
        let t = b.update(l, b.last()).drop_last();
        let front = idx.drop_last();
        assert(idx[idx.len() - 1] == idx.last());
        assert(ascending(front, s.len())) by {
            assert forall|i: int| 0 <= i < front.len() implies #[trigger] front[i] < s.len() by {
                assert(front[i] == idx[i]);
            }
        }
        lemma_paired(s, t, front);
        assert forall|j: int| 0 <= j < ra.len() implies at_one_place(
            a,
            b,
            #[trigger] ra[j],
            rb[j],
        ) by {
            assert(at_one_place(s, t, ra[j], rb[j]));
            let i = choose|i: int| 0 <= i < s.len() && #[trigger] s[i] == ra[j] && t[i] == rb[j];
            let m = if i == l {
                a.len() - 1
            } else {
                i
            };
            assert(a[m] == ra[j] && b[m] == rb[j]);
        }
    } else {
        assert forall|j: int| 0 <= j < ra.len() implies at_one_place(
            a,
            b,
            #[trigger] ra[j],
            rb[j],
        ) by {
            assert(a[j] == ra[j]);
        }
    }
}

spec fn claims_settled(p: Pass, e1: Engine) -> bool {
    forall|j: int|
        0 <= j < p.thinned.active@.len() ==> {
            let (a, b) = (#[trigger] p.thinned.active@[j], e1.active@[j]);
            &&& b.session.lora_adapter == a.session.lora_adapter
            &&& b.state() == if starves_at(p, e1, j) {
                SeqState { draining: Some(p.later), finish: Finish::Length, ..a.state() }
            } else {
                a.state()
            }
        }
}

proof fn lemma_claims_from(
    before: Seq<ActiveSequence>,
    after: Seq<ActiveSequence>,
    ms: Seq<Moment>,
    capacity: nat,
    now: u64,
    i: int,
)
    requires
        claimed_in_turn(before, after, ms, capacity, now),
        0 <= i <= before.len(),
    ensures
        all_from(entries_of(ms[i].prefix), entries_of(ms[0].prefix)),
    decreases i,
{
    if i == 0 {
        let entries = entries_of(ms[0].prefix);
        assert(entries.skip(0) =~= entries);
        lemma_skipped_from(entries, 0);
    } else {
        lemma_claims_from(before, after, ms, capacity, now, i - 1);
        let (m0, m1) = (ms[i - 1], ms[i]);
        assert(claimed(before[i - 1], after[i - 1], m0, ms[i - 1 + 1], capacity, now));
        let entries = entries_of(m0.prefix);
        assert(all_from(entries_of(m1.prefix), entries)) by {
            if m1 == m0 {
                assert(entries.skip(0) =~= entries);
                lemma_skipped_from(entries, 0);
            } else if entries_of(m1.prefix).len() > 0 {
                let b = before[i - 1];
                let a = after[i - 1];
                let missing = pages_missing(
                    b.state().tokens.len(),
                    b.pages.per_layer(),
                    b.pages.n_layers(),
                );
                let k = choose|k: nat| #[trigger]
                    reserved_after(
                        k,
                        m0.prefix,
                        m1.prefix,
                        b.pages.pages(),
                        a.pages.pages(),
                        m0.refs,
                        m1.refs,
                        capacity,
                        missing,
                    );
                lemma_skipped_from(entries, k as int);
            }
        }
        lemma_from_trans(entries_of(m1.prefix), entries, entries_of(ms[0].prefix));
    }
}

proof fn lemma_claims(p: Pass, e1: Engine)
    requires
        next_claimed(p.thinned, e1, p.later),
    ensures
        claims_settled(p, e1),
        all_from(entries_of(e1.prefix), entries_of(p.thinned.prefix)),
{
    let e0 = p.thinned;
    if e0.paged() {
        let ms = choose|ms: Seq<Moment>|
            {
                &&& #[trigger] claimed_in_turn(
                    e0.active@,
                    e1.active@,
                    ms,
                    e0.pool->0.capacity(),
                    p.later,
                )
                &&& ms[0] == e0.moment()
                &&& ms.last() == e1.moment()
            };
        let n = e0.active@.len() as int;
        lemma_claims_from(e0.active@, e1.active@, ms, e0.pool->0.capacity(), p.later, n);
        assert forall|j: int| 0 <= j < n implies {
            let (a, b) = (#[trigger] e0.active@[j], e1.active@[j]);
            &&& b.session.lora_adapter == a.session.lora_adapter
            &&& b.state() == if starves_at(p, e1, j) {
                SeqState { draining: Some(p.later), finish: Finish::Length, ..a.state() }
            } else {
                a.state()
            }
        } by {
            assert(claimed(
                e0.active@[j],
                e1.active@[j],
                ms[j],
                ms[j + 1],
                e0.pool->0.capacity(),
                p.later,
            ));
        }
    } else {
        let entries = entries_of(e0.prefix);
        assert(entries.skip(0) =~= entries);
        lemma_skipped_from(entries, 0);
    }
}

/// Where the requests are during a pass.
spec fn kept_place(ids: Seq<nat>, p: Pass, i: int, j: int) -> bool {
    let seats = seats_after(ids, p);
    &&& 0 <= i < ids.len()
    &&& 0 <= j < seats.len()
    &&& seats[j] == ids[i]
    &&& seats.contains(ids[i])
    &&& seats.index_of(ids[i]) == j
    &&& !leavers(ids, p).contains(ids[i])
    &&& p.thinned.active@[j] == p.delivered.active@[i]
}

proof fn lemma_kept_place(ids: Seq<nat>, p: Pass, j: int) -> (i: int)
    requires
        ids.no_duplicates(),
        ids.len() == p.delivered.active@.len(),
        ids.len() <= usize::MAX,
        ascending(p.leaving, ids.len()),
        p.thinned.active@ == swap_removed(p.delivered.active@, p.leaving),
        0 <= j < seats_after(ids, p).len(),
    ensures
        kept_place(ids, p, i, j),
        ids.index_of(ids[i]) == i,
{
    let seats = seats_after(ids, p);
    lemma_thinned(ids, p.leaving);
    lemma_paired(ids, p.delivered.active@, p.leaving);
    assert(at_one_place(ids, p.delivered.active@, seats[j], p.thinned.active@[j]));
    let i = choose|i: int|
        0 <= i < ids.len() && #[trigger] ids[i] == seats[j] && p.delivered.active@[i]
            == p.thinned.active@[j];
    lemma_index_of(ids, i);
    lemma_index_of(seats, j);
    assert(seats.contains(seats[j]));
    i
}

proof fn lemma_kept_seat(ids: Seq<nat>, p: Pass, id: nat) -> (j: int)
    requires
        ids.no_duplicates(),
        ids.len() == p.delivered.active@.len(),
        ids.len() <= usize::MAX,
        ascending(p.leaving, ids.len()),
        p.thinned.active@ == swap_removed(p.delivered.active@, p.leaving),
        ids.contains(id),
        !leavers(ids, p).contains(id),
    ensures
        ids[ids.index_of(id)] == id,
        kept_place(ids, p, ids.index_of(id), j),
{
    let seats = seats_after(ids, p);
    lemma_thinned(ids, p.leaving);
    assert(seats.contains(id));
    let j = seats.index_of(id);
    let i = lemma_kept_place(ids, p, j);
    j
}

proof fn lemma_pass_frame<S, R>(
    k: Machine<S, R>,
    w: Company<S, R>,
    ids: Seq<nat>,
    e0: Engine,
    e1: Engine,
    p: Pass,
    adapters: Adapters,
)
    requires
        stands_for(k, w, ids, e0, adapters),
        pass_made(k, w, ids, e0, e1, p, adapters),
    ensures
        ids.no_duplicates(),
        ids.len() == e0.active@.len(),
        ids.len() == p.delivered.active@.len(),
        ids.len() <= usize::MAX,
        ascending(p.leaving, ids.len()),
        p.thinned.active@ == swap_removed(p.delivered.active@, p.leaving),
        seats_after(ids, p).no_duplicates(),
        seats_after(ids, p).len() == e1.active@.len(),
        e1.active@.len() <= usize::MAX,
        claims_settled(p, e1),
        all_from(entries_of(e1.prefix), entries_of(e0.prefix)),
        e1.shape == e0.shape,
{
    assert(e0.active.len() <= usize::MAX);
    assert(e1.active.len() <= usize::MAX);
    lemma_thinned(ids, p.leaving);
    lemma_paired(ids, p.delivered.active@, p.leaving);
    lemma_claims(p, e1);
}

proof fn lemma_member_turn<S, R>(
    k: Machine<S, R>,
    w: Company<S, R>,
    ids: Seq<nat>,
    e0: Engine,
    e1: Engine,
    p: Pass,
    adapters: Adapters,
    id: nat,
)
    requires
        stands_for(k, w, ids, e0, adapters),
        pass_made(k, w, ids, e0, e1, p, adapters),
        w.dom().contains(id),
    ensures
        has_turn(
            k,
            w[id],
            member_after(k, w, ids, e1, p, id),
            turn_at(e0, p, ids.index_of(id)),
            leavers(ids, p).contains(id),
            if starvers(ids, e1, p).dom().contains(id) {
                Some(starvers(ids, e1, p)[id])
            } else {
                None
            },
        ),
{
    lemma_pass_frame(k, w, ids, e0, e1, p, adapters);
    let x0 = w[id];
    let x1 = member_after(k, w, ids, e1, p, id);
    if !x0.left {
        assert(ids.contains(id));
        let i = ids.index_of(id);
        assert(ids[i] == id);
        let leaves = leavers(ids, p).contains(id);
        let t = turn_at(e0, p, i);
        let s = p.delivered.active@[i].state();
        assert(x0.state == e0.active@[i].state());
        assert(went_through(
            e0.active@[i],
            p.delivered.active@[i],
            p.leaving.contains(i as usize),
            p.next[i],
            p.now,
            e0.shape.context_length as nat,
        ));
        assert(takes_turn(x0.state, s, leaves, t, k.context));
        if !leaves {
            let j = lemma_kept_seat(ids, p, id);
            assert(p.thinned.active@[j].state() == s);
        }
    }
}

proof fn lemma_decoded<S, R>(
    k: Machine<S, R>,
    w: Company<S, R>,
    ids: Seq<nat>,
    e0: Engine,
    e1: Engine,
    p: Pass,
    adapters: Adapters,
)
    requires
        stands_for(k, w, ids, e0, adapters),
        pass_made(k, w, ids, e0, e1, p, adapters),
    ensures
        decoded(ids, e1, p).no_duplicates(),
        forall|id: nat| #[trigger]
            decoded(ids, e1, p).contains(id) <==> w.dom().contains(id) && live(
                member_after(k, w, ids, e1, p, id),
            ),
        forall|a: int|
            0 <= a < decoded(ids, e1, p).len() ==> #[trigger] lane_view(p.steps, a) == decode_ops(
                k.plan,
                lane_of(member_after(k, w, ids, e1, p, decoded(ids, e1, p)[a])),
            ),
{
    lemma_pass_frame(k, w, ids, e0, e1, p, adapters);
    let order = decoded(ids, e1, p);
    let seats = seats_after(ids, p);
    let slots = decode_slots(e1.active@);
    law_batch_holds_exactly_the_live_sequences(e1.active@);
    assert forall|a: int, b: int| 0 <= a < b < order.len() implies order[a] != order[b] by {
        assert(slots[a].index < slots[b].index);
        assert(slots[b].index < e1.active@.len());
    }
    assert forall|a: int| 0 <= a < order.len() implies {
        let x = member_after(k, w, ids, e1, p, order[a]);
        &&& w.dom().contains(#[trigger] order[a])
        &&& live(x)
        &&& x.state == e1.active@[slots[a].index as int].state()
        &&& x.lora == adapters(
            adapter_key(e1.active@[slots[a].index as int].session.lora_adapter),
        )
    } by {
        let j = slots[a].index as int;
        assert(e1.active@[j].state().draining is None);
        let i = lemma_kept_place(ids, p, j);
        assert(order[a] == ids[i]);
        assert(went_through(
            e0.active@[i],
            p.delivered.active@[i],
            p.leaving.contains(i as usize),
            p.next[i],
            p.now,
            e0.shape.context_length as nat,
        ));
        assert(p.thinned.active@[j].session.lora_adapter
            == e1.active@[j].session.lora_adapter);
    }
    assert forall|id: nat| #[trigger]
        order.contains(id) <==> w.dom().contains(id) && live(
            member_after(k, w, ids, e1, p, id),
        ) by {
        if order.contains(id) {
            let a = order.index_of(id);
            assert(order[a] == id);
        }
        if w.dom().contains(id) && live(member_after(k, w, ids, e1, p, id)) {
            assert(!w[id].left);
            assert(ids.contains(id));
            let j = lemma_kept_seat(ids, p, id);
            assert(e1.active@[j].state().draining is None);
            let a = choose|a: int| 0 <= a < slots.len() && (#[trigger] slots[a]).index == j;
            assert(order[a] == id);
        }
    }
    assert forall|a: int| 0 <= a < order.len() implies #[trigger] lane_view(p.steps, a)
        == decode_ops(k.plan, lane_of(member_after(k, w, ids, e1, p, order[a]))) by {
        let x = member_after(k, w, ids, e1, p, order[a]);
        assert(x.state == e1.active@[slots[a].index as int].state());
    }
}

/// The event that a pass is.
pub open spec fn pass_event<S, R>(
    w: Company<S, R>,
    ids: Seq<nat>,
    e0: Engine,
    e1: Engine,
    p: Pass,
) -> Event<S> {
    Event::Round {
        turns: turns_of(w, ids, e0, p),
        leaving: leavers(ids, p),
        starving: starvers(ids, e1, p),
        order: decoded(ids, e1, p),
        steps: p.steps,
    }
}

/// Sampling and delivering, retiring, claiming memory and decoding are together a step of
/// a history: everyone goes through a turn of their own, and the new company stands for
/// the new engine.
pub proof fn law_pass_is_a_step<S, R>(
    k: Machine<S, R>,
    w: Company<S, R>,
    ids: Seq<nat>,
    e0: Engine,
    e1: Engine,
    p: Pass,
    adapters: Adapters,
)
    requires
        stands_for(k, w, ids, e0, adapters),
        all_keep_to_themselves(k, w),
        pass_made(k, w, ids, e0, e1, p, adapters),
    ensures
        happens(k, w, company_passed(k, w, ids, e1, p), pass_event(w, ids, e0, e1, p)),
        stands_for(k, company_passed(k, w, ids, e1, p), seats_after(ids, p), e1, adapters),
{
    lemma_pass_frame(k, w, ids, e0, e1, p, adapters);
    lemma_decoded(k, w, ids, e0, e1, p, adapters);
    let w1 = company_passed(k, w, ids, e1, p);
    let order = decoded(ids, e1, p);
    let starving = starvers(ids, e1, p);
    assert(w1.dom() =~= w.dom());
    assert(goes_round(
        k,
        w,
        w1,
        turns_of(w, ids, e0, p),
        leavers(ids, p),
        starving,
        order,
        p.steps,
    )) by {
        assert forall|id: nat| w.dom().contains(id) implies has_turn(
            k,
            w[id],
            #[trigger] w1[id],
            turns_of(w, ids, e0, p)[id],
            leavers(ids, p).contains(id),
            if starving.dom().contains(id) {
                Some(starving[id])
            } else {
                None
            },
        ) by {
            lemma_member_turn(k, w, ids, e0, e1, p, adapters, id);
        }
        assert forall|i: int| 0 <= i < order.len() implies {
            let x = w1[#[trigger] order[i]];
            &&& x.seen == x.state.tokens.len()
            &&& (x.acts, x.rows) == run_apart(k.kernels, p.steps, lanes_of(k, w, order))[i]
        } by {
            lemma_index_of(order, i);
            assert(live(member_after(k, w, ids, e1, p, order[i])));
        }
        assert forall|i: int| 0 <= i < order.len() implies #[trigger] lane_view(p.steps, i)
            == decode_ops(k.plan, lane_of(w1[order[i]])) by {
            assert(order.contains(order[i]));
        }
    }
    assert(seated(w1, seats_after(ids, p), e1.active@, adapters)) by {
        lemma_seated(k, w, ids, e0, e1, p, adapters);
    }
    assert(remembered(w1, entries_of(e1.prefix), adapters)) by {
        lemma_donors_stay(k, w, ids, e0, e1, p, adapters);
        lemma_remembered_from(w1, entries_of(e1.prefix), entries_of(e0.prefix), adapters);
    }
}

proof fn lemma_seated<S, R>(
    k: Machine<S, R>,
    w: Company<S, R>,
    ids: Seq<nat>,
    e0: Engine,
    e1: Engine,
    p: Pass,
    adapters: Adapters,
)
    requires
        stands_for(k, w, ids, e0, adapters),
        pass_made(k, w, ids, e0, e1, p, adapters),
    ensures
        seated(company_passed(k, w, ids, e1, p), seats_after(ids, p), e1.active@, adapters),
{
    lemma_pass_frame(k, w, ids, e0, e1, p, adapters);
    let w1 = company_passed(k, w, ids, e1, p);
    let seats = seats_after(ids, p);
    assert forall|j: int| 0 <= j < seats.len() implies {
        let x = w1[#[trigger] seats[j]];
        &&& w1.dom().contains(seats[j])
        &&& !x.left
        &&& x.state == e1.active@[j].state()
        &&& x.lora == adapters(adapter_key(e1.active@[j].session.lora_adapter))
    } by {
        let i = lemma_kept_place(ids, p, j);
        assert(w.dom().contains(ids[i]));
        assert(went_through(
            e0.active@[i],
            p.delivered.active@[i],
            p.leaving.contains(i as usize),
            p.next[i],
            p.now,
            e0.shape.context_length as nat,
        ));
        assert(p.thinned.active@[j].session.lora_adapter
            == e1.active@[j].session.lora_adapter);
    }
    assert forall|id: nat|
        w1.dom().contains(id) && !(#[trigger] w1[id]).left implies seats.contains(id) by {
        assert(!w[id].left);
        assert(ids.contains(id));
        let j = lemma_kept_seat(ids, p, id);
    }
}

proof fn lemma_donors_stay<S, R>(
    k: Machine<S, R>,
    w: Company<S, R>,
    ids: Seq<nat>,
    e0: Engine,
    e1: Engine,
    p: Pass,
    adapters: Adapters,
)
    requires
        stands_for(k, w, ids, e0, adapters),
        all_keep_to_themselves(k, w),
        pass_made(k, w, ids, e0, e1, p, adapters),
    ensures
        remembered(company_passed(k, w, ids, e1, p), entries_of(e0.prefix), adapters),
{
    let w1 = company_passed(k, w, ids, e1, p);
    let entries = entries_of(e0.prefix);
    assert forall|i: int| 0 <= i < entries.len() implies has_donor(
        w1,
        #[trigger] entries[i],
        adapters,
    ) by {
        let e = entries[i];
        assert(has_donor(w, e, adapters));
        let donor = choose|donor: nat| #[trigger] comes_from(w, e, donor, adapters);
        let starves = if starvers(ids, e1, p).dom().contains(donor) {
            Some(starvers(ids, e1, p)[donor])
        } else {
            None
        };
        let (x0, x1) = (w[donor], w1[donor]);
        lemma_member_turn(k, w, ids, e0, e1, p, adapters, donor);
        assert(keeps_to_itself(k, x0));
        lemma_turn_of_member(
            k,
            x0,
            x1,
            turn_at(e0, p, ids.index_of(donor)),
            leavers(ids, p).contains(donor),
            starves,
        );
        assert(x0.seen <= x1.seen);
        let n = e.tokens@.len() as int;
        assert(x1.state.tokens.take(n) =~= x0.state.tokens.take(n)) by {
            assert forall|m: int| 0 <= m < n implies x1.state.tokens[m] == x0.state.tokens[m] by {
                assert(x1.state.tokens.take(x0.state.tokens.len() as int)[m]
                    == x1.state.tokens[m]);
            }
        }
        assert(comes_from(w1, e, donor, adapters));
    }
}

/// Where nobody decodes there is nothing to claim and nothing to compute: a pass that
/// stops there is one that claimed and decoded nothing.
pub proof fn law_pausing_is_an_empty_decode<S, R>(
    k: Machine<S, R>,
    e: Engine,
    now: u64,
    adapters: Adapters,
)
    requires
        forall|i: int|
            0 <= i < e.active@.len() ==> (#[trigger] e.active@[i]).state().draining is Some,
    ensures
        next_claimed(e, e, now),
        batch_schedule(k, e.active@, Seq::empty(), adapters),
{
    let n = e.active@.len();
    assert(e.active.len() <= usize::MAX);
    let ms = Seq::new(n + 1, |i: int| e.moment());
    assert(claimed_in_turn(e.active@, e.active@, ms, e.pool->0.capacity(), now));
    law_batch_holds_exactly_the_live_sequences(e.active@);
    if decode_slots(e.active@).len() > 0 {
        let slot = decode_slots(e.active@)[0];
        assert(e.active@[slot.index as int].state().draining is None);
    }
}

// ── Whole runs of the engine ─────────────────────────────────────────────────

/// Nothing has changed but how often the samplers have drawn and how many positions the
/// caches have noted.
pub open spec fn only_noted(e0: Engine, e1: Engine) -> bool {
    &&& e1.shape == e0.shape
    &&& e1.prefix == e0.prefix
    &&& e1.active@.len() == e0.active@.len()
    &&& forall|i: int|
        0 <= i < e0.active@.len() ==> {
            let (a, b) = (#[trigger] e0.active@[i], e1.active@[i]);
            &&& b.state() == a.state()
            &&& b.session.lora_adapter == a.session.lora_adapter
            &&& b.pages.pages() == a.pages.pages()
        }
}

/// Something that the loop around the engine did.
#[verifier::reject_recursive_types(S)]
pub enum Deed<S> {
    /// It let a request in, and computed the prompt by `steps`.
    Admitted {
        req: InferenceRequest,
        start: usize,
        pick: spec_fn(S, Seq<u32>) -> u32,
        steps: Seq<Step>,
    },
    /// It turned a request away.
    Refused { req: InferenceRequest, constraint_ok: bool, finish: Finish },
    /// It let the samplers draw, or noted what had been written to the caches.
    Noted,
    /// It made a pass over the batch.
    Passed { pass: Pass },
}

/// What the methods and the schedules that a deed is made of say of it.
pub open spec fn done<S, R>(
    k: Machine<S, R>,
    w: Company<S, R>,
    ids: Seq<nat>,
    e0: Engine,
    e1: Engine,
    deed: Deed<S>,
    adapters: Adapters,
) -> bool {
    match deed {
        Deed::Admitted { req, start, pick, steps } => {
            &&& e1.shape == e0.shape
            &&& (e1.prefix is Some) == (e0.prefix is Some)
            &&& admission(e0, e1, req, true, Admission::Admitted { start })
            &&& prompt_schedule(
                k,
                req.prompt_tokens@,
                start,
                adapters(adapter_key(req.lora_name)),
                steps,
            )
        },
        Deed::Refused { req, constraint_ok, finish } => {
            &&& e1.shape == e0.shape
            &&& admission(e0, e1, req, constraint_ok, Admission::Refused { finish })
        },
        Deed::Noted => only_noted(e0, e1),
        Deed::Passed { pass } => pass_made(k, w, ids, e0, e1, pass, adapters),
    }
}

/// What the deed with number `n` makes of a company and of the places.
pub open spec fn after_deed<S, R>(
    k: Machine<S, R>,
    w: Company<S, R>,
    ids: Seq<nat>,
    e1: Engine,
    n: nat,
    deed: Deed<S>,
    adapters: Adapters,
) -> (Company<S, R>, Seq<nat>) {
    match deed {
        Deed::Admitted { req, start, pick, steps } => (
            company_joined(k, w, n, req, start, pick, steps, adapters),
            ids.push(n),
        ),
        Deed::Refused { .. } => (w, ids),
        Deed::Noted => (w, ids),
        Deed::Passed { pass } => (company_passed(k, w, ids, e1, pass), seats_after(ids, pass)),
    }
}

/// The event that the deed with number `n` is.
pub open spec fn event_of<S, R>(
    w: Company<S, R>,
    ids: Seq<nat>,
    e0: Engine,
    e1: Engine,
    n: nat,
    deed: Deed<S>,
    adapters: Adapters,
) -> Event<S> {
    match deed {
        Deed::Admitted { req, start, pick, steps } => join_event(
            w,
            n,
            req,
            start,
            pick,
            steps,
            adapters,
        ),
        Deed::Refused { .. } => Event::Aside,
        Deed::Noted => Event::Aside,
        Deed::Passed { pass } => pass_event(w, ids, e0, e1, pass),
    }
}

/// A run of an engine: how it was after each deed.
#[verifier::reject_recursive_types(S)]
pub struct Run<S> {
    pub engines: Seq<Engine>,
    pub deeds: Seq<Deed<S>>,
    pub adapters: Adapters,
}

impl<S> Run<S> {
    /// The company and the places after the first `n` deeds. Whoever was let in by a deed
    /// has its number.
    pub open spec fn after<R>(self, k: Machine<S, R>, n: nat) -> (Company<S, R>, Seq<nat>)
        decreases n,
    {
        if n == 0 {
            (Map::empty(), Seq::empty())
        } else {
            let (w, ids) = self.after(k, (n - 1) as nat);
            after_deed(
                k,
                w,
                ids,
                self.engines[n as int],
                (n - 1) as nat,
                self.deeds[n - 1],
                self.adapters,
            )
        }
    }

    /// The engine was started empty, and every deed was done by its methods.
    pub open spec fn wf<R>(self, k: Machine<S, R>) -> bool {
        &&& self.engines.len() == self.deeds.len() + 1
        &&& self.engines[0].active@.len() == 0
        &&& entries_of(self.engines[0].prefix).len() == 0
        &&& k.context == self.engines[0].shape.context_length
        &&& forall|i: int|
            0 <= i < self.deeds.len() ==> done(
                k,
                self.after(k, i as nat).0,
                self.after(k, i as nat).1,
                self.engines[i],
                self.engines[i + 1],
                #[trigger] self.deeds[i],
                self.adapters,
            )
    }

    /// Everyone who is or was on the engine, after each deed.
    pub open spec fn worlds<R>(self, k: Machine<S, R>) -> Seq<Company<S, R>> {
        Seq::new(self.deeds.len() + 1, |i: int| self.after(k, i as nat).0)
    }

    /// What happened.
    pub open spec fn events<R>(self, k: Machine<S, R>) -> Seq<Event<S>> {
        Seq::new(
            self.deeds.len(),
            |i: int|
                event_of(
                    self.after(k, i as nat).0,
                    self.after(k, i as nat).1,
                    self.engines[i],
                    self.engines[i + 1],
                    i as nat,
                    self.deeds[i],
                    self.adapters,
                ),
        )
    }
}

spec fn numbered_below<S, R>(w: Company<S, R>, n: nat) -> bool {
    forall|id: nat| #[trigger] w.dom().contains(id) ==> id < n
}

proof fn lemma_admitted<S, R>(
    k: Machine<S, R>,
    w: Company<S, R>,
    ids: Seq<nat>,
    e0: Engine,
    e1: Engine,
    n: nat,
    req: InferenceRequest,
    start: usize,
    pick: spec_fn(S, Seq<u32>) -> u32,
    steps: Seq<Step>,
    adapters: Adapters,
)
    requires
        stands_for(k, w, ids, e0, adapters),
        all_keep_to_themselves(k, w),
        numbered_below(w, n),
        done(k, w, ids, e0, e1, Deed::Admitted { req, start, pick, steps }, adapters),
    ensures
        ({
            let w1 = company_joined(k, w, n, req, start, pick, steps, adapters);
            &&& stands_for(k, w1, ids.push(n), e1, adapters)
            &&& all_keep_to_themselves(k, w1)
            &&& numbered_below(w1, n + 1)
            &&& happens(k, w, w1, join_event(w, n, req, start, pick, steps, adapters))
        }),
{
    assert(k.context <= usize::MAX);
    let w1 = company_joined(k, w, n, req, start, pick, steps, adapters);
    law_admission_is_a_step(k, w, ids, e0, e1, req, start, n, pick, steps, adapters);
    let lora = adapters(adapter_key(req.lora_name));
    lemma_join(
        k,
        w,
        n,
        fresh_state(req),
        req.max_new_tokens as nat,
        lora,
        pick,
        reused_by(w, req.prompt_tokens@, lora, start),
        steps,
    );
    assert forall|id: nat| w1.dom().contains(id) implies keeps_to_itself(k, #[trigger] w1[id]) by {
        if id != n {
            assert(w1[id] == w[id]);
        }
    }
}

proof fn lemma_passed<S, R>(
    k: Machine<S, R>,
    w: Company<S, R>,
    ids: Seq<nat>,
    e0: Engine,
    e1: Engine,
    n: nat,
    p: Pass,
    adapters: Adapters,
)
    requires
        stands_for(k, w, ids, e0, adapters),
        all_keep_to_themselves(k, w),
        numbered_below(w, n),
        pass_made(k, w, ids, e0, e1, p, adapters),
    ensures
        ({
            let w1 = company_passed(k, w, ids, e1, p);
            &&& stands_for(k, w1, seats_after(ids, p), e1, adapters)
            &&& all_keep_to_themselves(k, w1)
            &&& numbered_below(w1, n + 1)
            &&& happens(k, w, w1, pass_event(w, ids, e0, e1, p))
        }),
{
    assert(k.context <= usize::MAX);
    let w1 = company_passed(k, w, ids, e1, p);
    law_pass_is_a_step(k, w, ids, e0, e1, p, adapters);
    lemma_round(
        k,
        w,
        w1,
        turns_of(w, ids, e0, p),
        leavers(ids, p),
        starvers(ids, e1, p),
        decoded(ids, e1, p),
        p.steps,
    );
    assert forall|id: nat| #[trigger] w1.dom().contains(id) implies id < n + 1 by {
        assert(w.dom().contains(id));
    }
}

proof fn lemma_deed<S, R>(
    k: Machine<S, R>,
    w: Company<S, R>,
    ids: Seq<nat>,
    e0: Engine,
    e1: Engine,
    n: nat,
    deed: Deed<S>,
    adapters: Adapters,
)
    requires
        stands_for(k, w, ids, e0, adapters),
        all_keep_to_themselves(k, w),
        numbered_below(w, n),
        done(k, w, ids, e0, e1, deed, adapters),
    ensures
        ({
            let (w1, ids1) = after_deed(k, w, ids, e1, n, deed, adapters);
            &&& stands_for(k, w1, ids1, e1, adapters)
            &&& all_keep_to_themselves(k, w1)
            &&& numbered_below(w1, n + 1)
            &&& happens(k, w, w1, event_of(w, ids, e0, e1, n, deed, adapters))
        }),
{
    match deed {
        Deed::Admitted { req, start, pick, steps } => {
            lemma_admitted(k, w, ids, e0, e1, n, req, start, pick, steps, adapters);
        },
        Deed::Refused { req, constraint_ok, finish } => {
            law_refusal_changes_nobody(k, w, ids, e0, e1, req, constraint_ok, finish, adapters);
            assert(happens(k, w, w, Event::<S>::Aside));
        },
        Deed::Noted => {
            assert(seated(w, ids, e1.active@, adapters));
            assert(happens(k, w, w, Event::<S>::Aside));
        },
        Deed::Passed { pass } => {
            lemma_passed(k, w, ids, e0, e1, n, pass, adapters);
        },
    }
}

proof fn lemma_run<S, R>(k: Machine<S, R>, run: Run<S>, n: nat)
    requires
        run.wf(k),
        n <= run.deeds.len(),
    ensures
        ({
            let (w, ids) = run.after(k, n);
            &&& stands_for(k, w, ids, run.engines[n as int], run.adapters)
            &&& all_keep_to_themselves(k, w)
            &&& numbered_below(w, n)
        }),
        n > 0 ==> happens(
            k,
            run.after(k, (n - 1) as nat).0,
            run.after(k, n).0,
            run.events(k)[n - 1],
        ),
    decreases n,
{
    if n > 0 {
        let m = n - 1;
        lemma_run(k, run, m as nat);
        let (w, ids) = run.after(k, m as nat);
        let (e0, e1) = (run.engines[m], run.engines[m + 1]);
        let deed = run.deeds[m];
        assert(done(k, w, ids, e0, e1, deed, run.adapters));
        lemma_deed(k, w, ids, e0, e1, m as nat, deed, run.adapters);
        assert(run.after(k, n) == after_deed(k, w, ids, e1, m as nat, deed, run.adapters));
        assert(run.events(k)[m] == event_of(w, ids, e0, e1, m as nat, deed, run.adapters));
    }
}

/// Whatever is done with an engine, through its methods and the schedules, is a history of
/// its requests, and at every moment the company of that history stands for the engine.
pub proof fn law_runs_are_histories<S, R>(k: Machine<S, R>, run: Run<S>)
    requires
        run.wf(k),
    ensures
        is_history(k, run.worlds(k), run.events(k)),
        forall|n: nat|
            n <= run.deeds.len() ==> stands_for(
                k,
                (#[trigger] run.after(k, n)).0,
                run.after(k, n).1,
                run.engines[n as int],
                run.adapters,
            ),
{
    let worlds = run.worlds(k);
    let events = run.events(k);
    assert(k.context <= usize::MAX);
    assert forall|i: int| 0 <= i < events.len() implies happens(
        k,
        worlds[i],
        worlds[i + 1],
        #[trigger] events[i],
    ) by {
        lemma_run(k, run, (i + 1) as nat);
    }
    assert forall|n: nat| n <= run.deeds.len() implies stands_for(
        k,
        (#[trigger] run.after(k, n)).0,
        run.after(k, n).1,
        run.engines[n as int],
        run.adapters,
    ) by {
        lemma_run(k, run, n);
    }
}

/// `x` is the request `req`, sampled by `pick`.
pub open spec fn serves<S, R>(
    x: Member<S, R>,
    req: InferenceRequest,
    pick: spec_fn(S, Seq<u32>) -> u32,
    adapters: Adapters,
) -> bool {
    &&& x.prompt == req.prompt_tokens@
    &&& x.budget == req.max_new_tokens
    &&& x.lora == adapters(adapter_key(req.lora_name))
    &&& x.pick == pick
    &&& x.state.eos == req.eos_token
}

/// A request that was let in by deed `a` is in the company from then on, under that
/// number.
pub proof fn law_requests_stay_known<S, R>(k: Machine<S, R>, run: Run<S>, a: nat, n: nat)
    requires
        run.wf(k),
        a < n <= run.deeds.len(),
        run.deeds[a as int] is Admitted,
    ensures
        run.after(k, n).0.dom().contains(a),
        serves(
            run.after(k, n).0[a],
            run.deeds[a as int]->Admitted_req,
            run.deeds[a as int]->Admitted_pick,
            run.adapters,
        ),
    decreases n,
{
    let m = n - 1;
    let (w, ids) = run.after(k, m as nat);
    let (e0, e1) = (run.engines[m], run.engines[m + 1]);
    let deed = run.deeds[m];
    assert(run.after(k, n) == after_deed(k, w, ids, e1, m as nat, deed, run.adapters));
    if m > a {
        law_requests_stay_known(k, run, a, m as nat);
        assert(done(k, w, ids, e0, e1, deed, run.adapters));
        match deed {
            Deed::Passed { pass } => {
                lemma_run(k, run, m as nat);
                lemma_member_turn(k, w, ids, e0, e1, pass, run.adapters, a);
                let (x0, x1) = (w[a], member_after(k, w, ids, e1, pass, a));
                assert(x1.state.eos == x0.state.eos);
            },
            _ => {},
        }
    }
}

/// The load of the engine is invisible. The same request is let in by two runs of engines
/// on the same model, in whatever company, with and without a registry of prefixes. If
/// both times it ends cleanly and is not stopped for want of memory, it has produced the
/// same tokens and ended the same way.
pub proof fn law_load_is_invisible<S, R>(
    k: Machine<S, R>,
    one: Run<S>,
    a: nat,
    i: nat,
    other: Run<S>,
    b: nat,
    j: nat,
)
    requires
        one.wf(k) && a < i <= one.deeds.len() && one.deeds[a as int] is Admitted,
        other.wf(k) && b < j <= other.deeds.len() && other.deeds[b as int] is Admitted,
        one.adapters == other.adapters,
        one.deeds[a as int]->Admitted_pick == other.deeds[b as int]->Admitted_pick,
        ({
            let (r, q) = (
                one.deeds[a as int]->Admitted_req,
                other.deeds[b as int]->Admitted_req,
            );
            &&& r.prompt_tokens@ == q.prompt_tokens@
            &&& r.max_new_tokens == q.max_new_tokens
            &&& r.eos_token == q.eos_token
            &&& adapter_key(r.lora_name) == adapter_key(q.lora_name)
        }),
        ({
            let (x, y) = (one.after(k, i).0[a], other.after(k, j).0[b]);
            &&& !x.starved && !y.starved
            &&& x.state.finish == Finish::Stop || x.state.finish == Finish::Length
            &&& y.state.finish == Finish::Stop || y.state.finish == Finish::Length
        }),
    ensures
        ({
            let (s, t) = (one.after(k, i).0[a].state, other.after(k, j).0[b].state);
            &&& s.tokens == t.tokens
            &&& s.finish == t.finish
            &&& s.pending.len() == 0 && t.pending.len() == 0 ==> s.received() == t.received()
        }),
{
    law_runs_are_histories(k, one);
    law_runs_are_histories(k, other);
    law_requests_stay_known(k, one, a, i);
    law_requests_stay_known(k, other, b, j);
    law_company_is_invisible(
        k,
        one.worlds(k),
        one.events(k),
        i,
        a,
        other.worlds(k),
        other.events(k),
        j,
        b,
    );
}

// ── Reuse ────────────────────────────────────────────────────────────────────

/// The registry counts exactly the positions that an admitted prompt reused.
pub proof fn law_reused_tokens_are_counted(
    e0: Engine,
    e1: Engine,
    req: InferenceRequest,
    start: usize,
)
    requires
        admission(e0, e1, req, true, Admission::Admitted { start }),
        (e1.prefix is Some) == (e0.prefix is Some),
        e0.prefix is Some,
    ensures
        e1.prefix->0.tokens_reused == counted(e0.prefix->0.tokens_reused, start as int),
        start > 0 ==> e1.prefix->0.hits == counted(e0.prefix->0.hits, 1),
{
    if e0.paged() {
        let prompt = req.prompt_tokens@;
        let lora = adapter_key(req.lora_name);
        let n_layers = e0.shape.n_layers as nat;
        let pages = e1.active@.last().pages.pages();
        let c = choose|c: Claim|
            {
                &&& #[trigger] claim_made(
                    c,
                    e0.prefix,
                    e0.pool->0,
                    prompt,
                    lora,
                    n_layers,
                    pages,
                )
                &&& c.fork.length() == start
                &&& offered(c, e1.prefix, prompt, lora, n_layers, pages)
            };
        assert(fork_of(
            e0.prefix->0,
            c.found->0,
            e0.pool->0,
            c.pool,
            prompt,
            lora,
            n_layers,
            c.fork,
        ));
    }
}

/// Reuse is invisible. One engine keeps prefixes and another does not; both let in a
/// request with the same prompt, budget, stop token and adapter. Each appends one sequence
/// that holds the prompt, has nothing queued and is not draining. The one without a
/// registry starts from scratch, the other behind whole pages. The activations behind the
/// last token of the prompt, logits among them, and the cached rows are the same, namely
/// those of the prompt alone.
pub proof fn law_reuse_is_invisible<S, R>(
    k: Machine<S, R>,
    w: Company<S, R>,
    ids: Seq<nat>,
    e0: Engine,
    e1: Engine,
    req: InferenceRequest,
    start: usize,
    id: nat,
    steps: Seq<Step>,
    cold_w: Company<S, R>,
    cold_ids: Seq<nat>,
    cold_e0: Engine,
    cold_e1: Engine,
    cold_req: InferenceRequest,
    cold_start: usize,
    cold_id: nat,
    cold_steps: Seq<Step>,
    pick: spec_fn(S, Seq<u32>) -> u32,
    adapters: Adapters,
)
    requires
        stands_for(k, w, ids, e0, adapters) && all_keep_to_themselves(k, w),
        !w.dom().contains(id),
        done(k, w, ids, e0, e1, Deed::Admitted { req, start, pick, steps }, adapters),
        stands_for(k, cold_w, cold_ids, cold_e0, adapters) && all_keep_to_themselves(k, cold_w),
        !cold_w.dom().contains(cold_id),
        done(
            k,
            cold_w,
            cold_ids,
            cold_e0,
            cold_e1,
            Deed::Admitted { req: cold_req, start: cold_start, pick, steps: cold_steps },
            adapters,
        ),
        cold_e0.prefix is None,
        fresh_state(req) == fresh_state(cold_req),
        adapter_key(req.lora_name) == adapter_key(cold_req.lora_name),
    ensures
        e1.active@.len() == e0.active@.len() + 1,
        e1.active@.drop_last() == e0.active@,
        cold_e1.active@.len() == cold_e0.active@.len() + 1,
        cold_e1.active@.drop_last() == cold_e0.active@,
        e1.active@.last().state() == cold_e1.active@.last().state(),
        ({
            let s = e1.active@.last().state();
            &&& s.tokens == req.prompt_tokens@
            &&& s.pending.len() == 0
            &&& s.draining is None
        }),
        cold_start == 0,
        start % PAGE_SIZE == 0,
        start < req.prompt_tokens@.len(),
        ({
            let x = company_joined(k, w, id, req, start, pick, steps, adapters)[id];
            let y = company_joined(
                k,
                cold_w,
                cold_id,
                cold_req,
                cold_start,
                pick,
                cold_steps,
                adapters,
            )[cold_id];
            let lora = adapters(adapter_key(req.lora_name));
            &&& x.acts == y.acts
            &&& x.rows == y.rows
            &&& (x.acts, x.rows) == alone(k, lora, req.prompt_tokens@)
        }),
        cold_e1.prefix is None,
        e0.prefix is Some ==> e1.prefix->0.tokens_reused == counted(
            e0.prefix->0.tokens_reused,
            start as int,
        ),
{
    let prompt = req.prompt_tokens@;
    let lora = adapters(adapter_key(req.lora_name));
    assert(prompt == fresh_state(req).tokens);
    assert(cold_req.prompt_tokens@ == fresh_state(cold_req).tokens);
    assert(k.context <= usize::MAX);
    law_reused_positions_have_a_donor(k, w, ids, e0, e1, req, start, adapters);
    law_reused_positions_have_a_donor(
        k,
        cold_w,
        cold_ids,
        cold_e0,
        cold_e1,
        cold_req,
        cold_start,
        adapters,
    );
    lemma_joined_alone(k, w, ids, e0, e1, req, start, id, pick, steps, adapters);
    lemma_joined_alone(
        k,
        cold_w,
        cold_ids,
        cold_e0,
        cold_e1,
        cold_req,
        cold_start,
        cold_id,
        pick,
        cold_steps,
        adapters,
    );
    if e0.prefix is Some {
        law_reused_tokens_are_counted(e0, e1, req, start);
    }
}

proof fn lemma_joined_alone<S, R>(
    k: Machine<S, R>,
    w: Company<S, R>,
    ids: Seq<nat>,
    e0: Engine,
    e1: Engine,
    req: InferenceRequest,
    start: usize,
    id: nat,
    pick: spec_fn(S, Seq<u32>) -> u32,
    steps: Seq<Step>,
    adapters: Adapters,
)
    requires
        stands_for(k, w, ids, e0, adapters) && all_keep_to_themselves(k, w),
        !w.dom().contains(id),
        done(k, w, ids, e0, e1, Deed::Admitted { req, start, pick, steps }, adapters),
    ensures
        ({
            let x = company_joined(k, w, id, req, start, pick, steps, adapters)[id];
            (x.acts, x.rows) == alone(
                k,
                adapters(adapter_key(req.lora_name)),
                req.prompt_tokens@,
            )
        }),
{
    let prompt = req.prompt_tokens@;
    let lora = adapters(adapter_key(req.lora_name));
    assert(k.context <= usize::MAX);
    law_admission_is_a_step(k, w, ids, e0, e1, req, start, id, pick, steps, adapters);
    lemma_join(
        k,
        w,
        id,
        fresh_state(req),
        req.max_new_tokens as nat,
        lora,
        pick,
        reused_by(w, prompt, lora, start),
        steps,
    );
    assert(prompt.take(prompt.len() as int) =~= prompt);
}

} // verus!
