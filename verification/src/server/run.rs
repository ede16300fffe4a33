//! Whole runs: what holds of a request from its admission to its end, and why the
//! company it is decoded in cannot be seen in what it delivers.
use vstd::prelude::*;

use crate::server::batch::{fresh_state, prompt_fits, InferenceRequest};
use crate::server::deliver::{Delivery, Offer};
use crate::server::engine::{
    law_decoded_positions_fit_the_context, law_outcomes_are_honest, law_streams_only_grow,
    law_turn_keeps_sequences_valid, turned, Finish, SeqState,
};
use crate::transformer::execution::{
    below, law_batching_is_invisible, law_kept_rows_stay, law_prompt_at_once_is_one_by_one,
    lemma_head, lemma_split, one_by_one, run_apart, run_lane, run_together, Kernels, Prompt, Rows,
};
use crate::transformer::forward::{
    decode_ops, in_lanes, lane_view, prompt_lane, writes_precede_reads, Lane, ModelPlan, Step,
};

verus! {

// ── The run of one sequence ──────────────────────────────────────────────────

/// One turn of a sequence: the token sampled for it, when, the offers that were made to
/// its client, and the verdict on them.
pub struct Turn {
    pub next: u32,
    pub now: u64,
    pub made: Seq<(u32, Offer)>,
    pub d: Delivery,
}

/// A turn leads from `s0` to `s1`.
pub open spec fn takes_turn(
    s0: SeqState,
    s1: SeqState,
    leaves: bool,
    t: Turn,
    context: nat,
) -> bool {
    turned(s0, s1, leaves, t.next, t.now, context, t.d, t.made)
}

/// A sequence that has just joined the batch.
pub open spec fn just_joined(s: SeqState, budget: nat, context: nat) -> bool {
    &&& 0 < s.prompt_len <= context
    &&& s.tokens.len() == s.prompt_len
    &&& s.pending.len() == 0
    &&& s.offers.len() == 0
    &&& s.remaining == budget
    &&& s.draining is None
    &&& s.finish == Finish::Incomplete
}

/// A request that the engine lets in has just joined.
pub proof fn law_admitted_requests_have_just_joined(req: InferenceRequest, context: nat)
    requires
        prompt_fits(req.prompt_tokens@, context),
    ensures
        just_joined(fresh_state(req), req.max_new_tokens as nat, context),
{
}

/// The turns of a sequence from its admission on; the last one is the one that it leaves
/// in.
pub open spec fn is_run(
    states: Seq<SeqState>,
    turns: Seq<Turn>,
    budget: nat,
    context: nat,
) -> bool {
    &&& turns.len() > 0
    &&& states.len() == turns.len() + 1
    &&& just_joined(states[0], budget, context)
    &&& forall|i: int|
        0 <= i < turns.len() ==> takes_turn(
            states[i],
            states[i + 1],
            i == turns.len() - 1,
            #[trigger] turns[i],
            context,
        )
}

/// The stop token is not among these.
pub open spec fn no_stop(tokens: Seq<u32>, eos: u32) -> bool {
    forall|j: int| 0 <= j < tokens.len() ==> #[trigger] tokens[j] != eos
}

/// How many tokens a context window has room for behind a prompt. One that the prompt
/// fills still yields the token that follows it.
pub open spec fn room(prompt_len: nat, context: nat) -> int {
    if prompt_len < context {
        context - prompt_len
    } else {
        1
    }
}

/// How many tokens a sequence produces that is not stopped before.
pub open spec fn full_length(prompt_len: nat, budget: nat, context: nat) -> int {
    if budget < room(prompt_len, context) {
        budget as int
    } else {
        room(prompt_len, context)
    }
}

/// What holds of a sequence at every moment: it has produced what its budget has lost,
/// it fits the context, nothing follows the stop token, and an outcome says what
/// happened.
pub open spec fn orderly(s: SeqState, budget: nat, context: nat) -> bool {
    let g = s.generated();
    &&& 0 < s.prompt_len <= s.tokens.len()
    &&& s.prompt_len <= context
    &&& g.len() <= room(s.prompt_len, context)
    &&& g.len() + s.remaining == budget
    &&& s.received() + s.pending == g
    &&& g.len() > 0 ==> no_stop(g.drop_last(), s.eos)
    &&& s.draining is None ==> no_stop(g, s.eos) && g.len() < room(s.prompt_len, context)
    &&& s.finish == Finish::Stop ==> g.len() > 0 && g.last() == s.eos
    &&& s.finish == Finish::Length ==> no_stop(g, s.eos) && g.len() == full_length(
        s.prompt_len,
        budget,
        context,
    )
}

proof fn lemma_joined_is_orderly(s: SeqState, budget: nat, context: nat)
    requires
        just_joined(s, budget, context),
    ensures
        orderly(s, budget, context),
        s.valid(),
{
    assert(s.generated() =~= Seq::empty());
    assert(s.received() =~= Seq::empty());
    assert(s.received() + s.pending =~= s.generated());
}

proof fn lemma_turn_is_orderly(
    s0: SeqState,
    s1: SeqState,
    leaves: bool,
    t: Turn,
    budget: nat,
    context: nat,
)
    requires
        orderly(s0, budget, context),
        s0.valid(),
        takes_turn(s0, s1, leaves, t, context),
    ensures
        orderly(s1, budget, context),
        !leaves ==> s1.valid(),
        s1.prompt_len == s0.prompt_len,
        s1.eos == s0.eos,
        s1.tokens == if s0.draining is None && s0.remaining > 0 {
            s0.tokens.push(t.next)
        } else {
            s0.tokens
        },
{
    law_turn_keeps_sequences_valid(s0, s1, leaves, t.next, t.now, context, t.d, t.made);
    let g0 = s0.generated();
    let g1 = s1.generated();
    if s0.draining is None && s0.remaining > 0 {
        assert(g1 =~= g0.push(t.next));
        assert(g1.drop_last() =~= g0);
        assert forall|j: int| 0 <= j < g1.len() && t.next != s0.eos implies #[trigger] g1[j]
            != s0.eos by {
            if j < g0.len() {
                assert(g1[j] == g0[j]);
            }
        }
    } else {
        assert(g1 == g0);
    }
}

/// A completion is exact. From its admission to the turn that it leaves in, a request
/// always gets an outcome. What its client receives is a beginning of what was produced:
/// all of it where the outcome is clean, and less exactly if tokens were still queued.
/// The stop token comes at most once and last; a clean completion that does not end in it
/// is as long as budget and context allow.
pub proof fn law_completions_are_exact(
    states: Seq<SeqState>,
    turns: Seq<Turn>,
    budget: nat,
    context: nat,
)
    requires
        is_run(states, turns, budget, context),
    ensures
        ({
            let s = states.last();
            let r = s.received();
            &&& s.finish != Finish::Incomplete
            &&& r.is_prefix_of(s.generated())
            &&& s.finish == Finish::Truncated <==> s.pending.len() > 0
            &&& s.finish == Finish::Truncated ==> r.len() < s.generated().len()
            &&& s.finish != Finish::Truncated ==> {
                &&& r == s.generated()
                &&& s.finish == Finish::Stop <==> r.len() > 0 && r.last() == s.eos
                &&& s.finish == Finish::Length ==> r.len() == full_length(
                    s.prompt_len,
                    budget,
                    context,
                )
            }
            &&& r.len() > 0 ==> no_stop(r.drop_last(), s.eos)
        }),
{
    let n = turns.len() as int;
    lemma_run_is_orderly(states, turns, budget, context, n - 1);
    let s0 = states[n - 1];
    let s = states[n];
    let t = turns[n - 1];
    assert(takes_turn(s0, s, true, t, context));
    lemma_turn_is_orderly(s0, s, true, t, budget, context);
    law_outcomes_are_honest(s0, s, t.next, t.now, context, t.d, t.made);
    law_streams_only_grow(s0, s, true, t.next, t.now, context, t.d, t.made);
    let r = s.received();
    let g = s.generated();
    assert(r + s.pending == g);
    if s.pending.len() == 0 {
        assert(r =~= g);
    }
    if r.len() > 0 {
        assert forall|j: int| 0 <= j < r.drop_last().len() implies #[trigger] r.drop_last()[j]
            != s.eos by {
            assert(g[j] == r[j]);
            assert(g.drop_last()[j] == g[j]);
        }
    }
}

proof fn lemma_run_is_orderly(
    states: Seq<SeqState>,
    turns: Seq<Turn>,
    budget: nat,
    context: nat,
    i: int,
)
    requires
        is_run(states, turns, budget, context),
        0 <= i < turns.len(),
    ensures
        orderly(states[i], budget, context),
        states[i].valid(),
    decreases i,
{
    if i == 0 {
        lemma_joined_is_orderly(states[0], budget, context);
    } else {
        lemma_run_is_orderly(states, turns, budget, context, i - 1);
        assert(takes_turn(states[i - 1], states[i], false, turns[i - 1], context));
        lemma_turn_is_orderly(states[i - 1], states[i], false, turns[i - 1], budget, context);
    }
}

// ── Tokens that follow from tokens ───────────────────────────────────────────

/// The prompt and the next `n` tokens, where each follows from those before it.
pub open spec fn course(follow: spec_fn(Seq<u32>) -> u32, prompt: Seq<u32>, n: nat) -> Seq<u32>
    decreases n,
{
    if n == 0 {
        prompt
    } else {
        let t = course(follow, prompt, (n - 1) as nat);
        t.push(follow(t))
    }
}

/// A sequence has taken the tokens that follow from its prompt, and no others.
pub open spec fn on_course(
    s: SeqState,
    follow: spec_fn(Seq<u32>) -> u32,
    prompt: Seq<u32>,
    budget: nat,
    context: nat,
) -> bool {
    &&& orderly(s, budget, context)
    &&& s.prompt_len == prompt.len()
    &&& s.tokens == course(follow, prompt, s.generated().len())
}

proof fn lemma_course(follow: spec_fn(Seq<u32>) -> u32, prompt: Seq<u32>, a: nat, b: nat)
    requires
        a <= b,
    ensures
        course(follow, prompt, b).len() == prompt.len() + b,
        course(follow, prompt, b).take((prompt.len() + a) as int) == course(follow, prompt, a),
    decreases b,
{
    if b == 0 {
        assert(prompt.take(prompt.len() as int) =~= prompt);
    } else if a == b {
        lemma_course(follow, prompt, 0, (b - 1) as nat);
        let t = course(follow, prompt, b);
        assert(t.take(t.len() as int) =~= t);
    } else {
        lemma_course(follow, prompt, a, (b - 1) as nat);
        let t = course(follow, prompt, (b - 1) as nat);
        assert(course(follow, prompt, b).take((prompt.len() + a) as int) =~= t.take(
            (prompt.len() + a) as int,
        ));
    }
}

proof fn lemma_turn_on_course(
    s0: SeqState,
    s1: SeqState,
    leaves: bool,
    t: Turn,
    follow: spec_fn(Seq<u32>) -> u32,
    prompt: Seq<u32>,
    budget: nat,
    context: nat,
)
    requires
        on_course(s0, follow, prompt, budget, context),
        s0.valid(),
        takes_turn(s0, s1, leaves, t, context),
        s0.draining is None && s0.remaining > 0 ==> t.next == follow(s0.tokens),
    ensures
        on_course(s1, follow, prompt, budget, context),
        !leaves ==> s1.valid(),
{
    lemma_turn_is_orderly(s0, s1, leaves, t, budget, context);
}

proof fn lemma_not_shorter(
    a: SeqState,
    b: SeqState,
    follow: spec_fn(Seq<u32>) -> u32,
    prompt: Seq<u32>,
    budget: nat,
    context: nat,
)
    requires
        on_course(a, follow, prompt, budget, context),
        on_course(b, follow, prompt, budget, context),
        a.eos == b.eos,
        a.finish == Finish::Stop || a.finish == Finish::Length,
    ensures
        a.generated().len() >= b.generated().len(),
{
    let (x, y) = (a.generated().len(), b.generated().len());
    if x < y {
        lemma_course(follow, prompt, x, y);
        if a.finish == Finish::Stop {
            let i = x - 1;
            assert(b.tokens[prompt.len() + i] == b.tokens.take((prompt.len() + x) as int)[prompt.len()
                + i]);
            assert(a.generated()[i] == a.tokens[prompt.len() + i]);
            assert(b.generated()[i] == b.tokens[prompt.len() + i]);
            assert(b.generated().drop_last()[i] == b.generated()[i]);
        }
    }
}

/// Two clean completions of one request are the same, whatever their clients did and
/// whenever they were served, as long as each token follows from those before it.
pub proof fn law_clean_completions_agree(
    a: SeqState,
    b: SeqState,
    follow: spec_fn(Seq<u32>) -> u32,
    prompt: Seq<u32>,
    budget: nat,
    context: nat,
)
    requires
        on_course(a, follow, prompt, budget, context),
        on_course(b, follow, prompt, budget, context),
        a.eos == b.eos,
        a.finish == Finish::Stop || a.finish == Finish::Length,
        b.finish == Finish::Stop || b.finish == Finish::Length,
    ensures
        a.tokens == b.tokens,
        a.finish == b.finish,
{
    lemma_not_shorter(a, b, follow, prompt, budget, context);
    lemma_not_shorter(b, a, follow, prompt, budget, context);
    assert(a.generated() == b.generated());
    let g = a.generated();
    if g.len() > 0 {
        assert(g[g.len() - 1] == g.last());
    }
}

// ── A server and everyone on it ──────────────────────────────────────────────

/// What a server runs: kernels, the model, the activations that a lane starts from, and
/// the size of the context window.
#[verifier::reject_recursive_types(S)]
#[verifier::reject_recursive_types(R)]
pub struct Machine<S, R> {
    pub kernels: Kernels<S, R>,
    pub plan: ModelPlan,
    pub blank: S,
    pub context: nat,
}

/// A request on a server.
#[verifier::reject_recursive_types(S)]
#[verifier::reject_recursive_types(R)]
pub struct Member<S, R> {
    pub state: SeqState,
    pub prompt: Seq<u32>,
    pub budget: nat,
    pub lora: Option<usize>,
    /// The token that its sampler draws, given the activations behind the last token and
    /// all tokens so far. A seeded sampler knows from their number how often it has
    /// drawn.
    pub pick: spec_fn(S, Seq<u32>) -> u32,
    /// How many of its tokens have been through the model.
    pub seen: nat,
    /// The activations, logits among them, of the last of those.
    pub acts: S,
    /// The rows that it has cached.
    pub rows: Rows<R>,
    /// It has left the server.
    pub left: bool,
    /// It was stopped because there was no page for its next position.
    pub starved: bool,
}

/// Everyone who is or was on a server, by number.
pub type Company<S, R> = Map<nat, Member<S, R>>;

/// What is left when `tokens` go through the model one by one and alone: the activations
/// behind the last one, and the cache.
pub open spec fn alone<S, R>(k: Machine<S, R>, lora: Option<usize>, tokens: Seq<u32>) -> (
    S,
    Rows<R>,
) {
    let (done, rows) = one_by_one(
        k.kernels,
        k.plan,
        Prompt { tokens, base: 0, lora },
        tokens.len(),
        k.blank,
        Map::empty(),
    );
    (done.last(), rows)
}

/// The token that follows `tokens` for a request that is alone.
pub open spec fn follows<S, R>(
    k: Machine<S, R>,
    lora: Option<usize>,
    pick: spec_fn(S, Seq<u32>) -> u32,
) -> spec_fn(Seq<u32>) -> u32 {
    |tokens: Seq<u32>| pick(alone(k, lora, tokens).0, tokens)
}

/// A request that may go on decoding.
pub open spec fn live<S, R>(x: Member<S, R>) -> bool {
    !x.left && x.state.draining is None
}

/// Something that happens on a server.
#[verifier::reject_recursive_types(S)]
pub enum Event<S> {
    /// A request joins. Its prompt is computed by `steps`, from scratch or behind the
    /// first `reused.1` positions of another request that starts alike.
    Join {
        id: nat,
        state: SeqState,
        budget: nat,
        lora: Option<usize>,
        pick: spec_fn(S, Seq<u32>) -> u32,
        reused: Option<(nat, int)>,
        steps: Seq<Step>,
    },
    /// Everyone takes a turn, those in `leaving` their last; those in `starving` find no
    /// page and stop at the given time; the others are decoded together by `steps`, in
    /// this order.
    Round {
        turns: Map<nat, Turn>,
        leaving: Set<nat>,
        starving: Map<nat, u64>,
        order: Seq<nat>,
        steps: Seq<Step>,
    },
    /// Something that is nobody's turn: a request is turned away, a sampler draws, or a
    /// cache notes what was written to it.
    Aside,
}

/// The rows that a prompt is continued from.
pub open spec fn kept_rows<S, R>(w: Company<S, R>, reused: Option<(nat, int)>) -> Rows<R> {
    match reused {
        Some((donor, a)) => w[donor].rows.restrict(below(a)),
        None => Map::empty(),
    }
}

/// How many positions are reused.
pub open spec fn kept_len(reused: Option<(nat, int)>) -> int {
    match reused {
        Some((_, a)) => a,
        None => 0,
    }
}

/// A request may join: its prompt fits, what is reused are the first positions of a
/// request with the same adapter that starts alike, and the schedule is that of the rest.
pub open spec fn may_join<S, R>(
    k: Machine<S, R>,
    w: Company<S, R>,
    id: nat,
    state: SeqState,
    budget: nat,
    lora: Option<usize>,
    reused: Option<(nat, int)>,
    steps: Seq<Step>,
) -> bool {
    let prompt = state.tokens;
    let a = kept_len(reused);
    &&& !w.dom().contains(id)
    &&& 0 < prompt.len() <= k.context
    &&& state.prompt_len == prompt.len()
    &&& state.pending.len() == 0
    &&& state.offers.len() == 0
    &&& state.remaining == budget
    &&& state.draining is None
    &&& state.finish == Finish::Incomplete
    &&& 0 <= a < prompt.len()
    &&& reused matches Some((donor, _)) ==> {
        &&& w.dom().contains(donor)
        &&& w[donor].lora == lora
        &&& a <= w[donor].seen
        &&& w[donor].state.tokens.take(a) == prompt.take(a)
    }
    &&& in_lanes(steps, (prompt.len() - a) as nat)
    &&& writes_precede_reads(steps, a)
    &&& forall|i: int|
        0 <= i < prompt.len() - a ==> #[trigger] lane_view(steps, i) == decode_ops(
            k.plan,
            prompt_lane(prompt.skip(a), a as usize, lora, i),
        )
}

/// A request as it joins.
pub open spec fn joined_member<S, R>(
    k: Machine<S, R>,
    w: Company<S, R>,
    state: SeqState,
    budget: nat,
    lora: Option<usize>,
    pick: spec_fn(S, Seq<u32>) -> u32,
    reused: Option<(nat, int)>,
    steps: Seq<Step>,
) -> Member<S, R> {
    let rest = (state.tokens.len() - kept_len(reused)) as nat;
    let (acts, rows) = run_together(
        k.kernels,
        steps,
        Seq::new(rest, |i: int| k.blank),
        kept_rows(w, reused),
    );
    Member {
        state,
        prompt: state.tokens,
        budget,
        lora,
        pick,
        seen: state.tokens.len(),
        acts: acts.last(),
        rows,
        left: false,
        starved: false,
    }
}

/// What a round does to the standing of a request: it takes its turn, with the token that
/// its own sampler draws, and stops if there is no page for it.
pub open spec fn has_turn<S, R>(
    k: Machine<S, R>,
    x0: Member<S, R>,
    x1: Member<S, R>,
    t: Turn,
    leaves: bool,
    starves: Option<u64>,
) -> bool {
    &&& x1.prompt == x0.prompt && x1.budget == x0.budget && x1.lora == x0.lora && x1.pick
        == x0.pick
    &&& if x0.left {
        x1 == x0
    } else {
        &&& x0.state.draining is None && x0.state.remaining > 0 ==> t.next == (x0.pick)(
            x0.acts,
            x0.state.tokens,
        )
        &&& x1.left == leaves
        &&& exists|s: SeqState| #[trigger]
            takes_turn(x0.state, s, leaves, t, k.context) && {
                let stops = !leaves && s.draining is None && starves is Some;
                &&& x1.starved == (x0.starved || stops)
                &&& x1.state == if stops {
                    SeqState { draining: starves, finish: Finish::Length, ..s }
                } else {
                    s
                }
            }
    }
}

/// What the model is asked for request `x`: its last token.
pub open spec fn lane_of<S, R>(x: Member<S, R>) -> Lane {
    Lane {
        token: x.state.tokens.last(),
        pos: (x.state.tokens.len() - 1) as usize,
        lora: x.lora,
    }
}

/// What the requests `order` start a batched decode from: blank activations, and the rows
/// that each has cached.
pub open spec fn lanes_of<S, R>(k: Machine<S, R>, w: Company<S, R>, order: Seq<nat>) -> Seq<
    (S, Rows<R>),
> {
    Seq::new(order.len(), |i: int| (k.blank, w[order[i]].rows))
}

/// `w1` is what a round makes of `w0`.
pub open spec fn goes_round<S, R>(
    k: Machine<S, R>,
    w0: Company<S, R>,
    w1: Company<S, R>,
    turns: Map<nat, Turn>,
    leaving: Set<nat>,
    starving: Map<nat, u64>,
    order: Seq<nat>,
    steps: Seq<Step>,
) -> bool {
    let lanes = lanes_of(k, w0, order);
    &&& w1.dom() == w0.dom()
    &&& forall|id: nat|
        w0.dom().contains(id) ==> has_turn(
            k,
            w0[id],
            #[trigger] w1[id],
            turns[id],
            leaving.contains(id),
            if starving.dom().contains(id) {
                Some(starving[id])
            } else {
                None
            },
        )
    &&& order.no_duplicates()
    &&& forall|id: nat| #[trigger]
        order.contains(id) <==> w1.dom().contains(id) && live(w1[id])
    &&& in_lanes(steps, order.len())
    &&& forall|i: int|
        0 <= i < order.len() ==> #[trigger] lane_view(steps, i) == decode_ops(
            k.plan,
            lane_of(w1[order[i]]),
        )
    &&& forall|i: int|
        0 <= i < order.len() ==> {
            let x = w1[#[trigger] order[i]];
            &&& x.seen == x.state.tokens.len()
            &&& (x.acts, x.rows) == run_apart(k.kernels, steps, lanes)[i]
        }
    &&& forall|id: nat|
        w0.dom().contains(id) && !order.contains(id) ==> {
            let x = #[trigger] w1[id];
            &&& x.seen == w0[id].seen
            &&& x.acts == w0[id].acts
            &&& x.rows == w0[id].rows
        }
}

/// `w1` is what an event makes of `w0`.
pub open spec fn happens<S, R>(
    k: Machine<S, R>,
    w0: Company<S, R>,
    w1: Company<S, R>,
    e: Event<S>,
) -> bool {
    match e {
        Event::Join { id, state, budget, lora, pick, reused, steps } => {
            &&& may_join(k, w0, id, state, budget, lora, reused, steps)
            &&& w1 == w0.insert(
                id,
                joined_member(k, w0, state, budget, lora, pick, reused, steps),
            )
        },
        Event::Round { turns, leaving, starving, order, steps } => goes_round(
            k,
            w0,
            w1,
            turns,
            leaving,
            starving,
            order,
            steps,
        ),
        Event::Aside => w1 == w0,
    }
}

/// What happened on a server since it was started with nobody on it.
pub open spec fn is_history<S, R>(
    k: Machine<S, R>,
    worlds: Seq<Company<S, R>>,
    events: Seq<Event<S>>,
) -> bool {
    &&& k.context <= usize::MAX
    &&& worlds.len() == events.len() + 1
    &&& worlds[0] == Map::<nat, Member<S, R>>::empty()
    &&& forall|i: int|
        0 <= i < events.len() ==> happens(k, worlds[i], worlds[i + 1], #[trigger] events[i])
}

/// What holds of a request at every moment, in whatever company: its activations and its
/// cache are those of its own tokens alone, and unless it was starved it has taken the
/// tokens that follow from its prompt.
pub open spec fn keeps_to_itself<S, R>(k: Machine<S, R>, x: Member<S, R>) -> bool {
    &&& 0 < x.seen <= x.state.tokens.len()
    &&& x.seen <= k.context
    &&& (x.acts, x.rows) == alone(k, x.lora, x.state.tokens.take(x.seen as int))
    &&& !x.left ==> x.state.valid()
    &&& live(x) ==> x.seen == x.state.tokens.len()
    &&& x.state.prompt_len == x.prompt.len()
    &&& !x.starved ==> on_course(
        x.state,
        follows(k, x.lora, x.pick),
        x.prompt,
        x.budget,
        k.context,
    )
}

/// Everyone keeps to themselves.
pub open spec fn all_keep_to_themselves<S, R>(k: Machine<S, R>, w: Company<S, R>) -> bool {
    forall|id: nat| w.dom().contains(id) ==> keeps_to_itself(k, #[trigger] w[id])
}

proof fn lemma_take_prefix(s: Seq<u32>, t: Seq<u32>, n: int)
    requires
        0 <= n <= s.len() <= t.len(),
        t.take(s.len() as int) == s,
    ensures
        t.take(n) == s.take(n),
{
    assert forall|i: int| 0 <= i < n implies t[i] == s[i] by {
        assert(t.take(s.len() as int)[i] == t[i]);
    }
    assert(t.take(n) =~= s.take(n));
}

pub proof fn lemma_join<S, R>(
    k: Machine<S, R>,
    w: Company<S, R>,
    id: nat,
    state: SeqState,
    budget: nat,
    lora: Option<usize>,
    pick: spec_fn(S, Seq<u32>) -> u32,
    reused: Option<(nat, int)>,
    steps: Seq<Step>,
)
    requires
        k.context <= usize::MAX,
        all_keep_to_themselves(k, w),
        may_join(k, w, id, state, budget, lora, reused, steps),
    ensures
        keeps_to_itself(k, joined_member(k, w, state, budget, lora, pick, reused, steps)),
{
    let tokens = state.tokens;
    let n = tokens.len();
    let a = kept_len(reused);
    let p = Prompt { tokens, base: 0, lora };
    let x = joined_member(k, w, state, budget, lora, pick, reused, steps);
    let first = one_by_one(k.kernels, k.plan, p.head(a), a as nat, k.blank, Map::empty());
    assert(kept_rows(w, reused) == first.1) by {
        match reused {
            Some((donor, _)) => {
                let y = w[donor];
                assert(keeps_to_itself(k, y));
                let known = y.state.tokens.take(y.seen as int);
                let q = Prompt { tokens: known, base: 0, lora };
                law_kept_rows_stay(k.kernels, k.plan, q, a, y.seen, k.blank);
                assert(known.take(a) =~= y.state.tokens.take(a));
                assert(q.head(a) == p.head(a));
            },
            None => {},
        }
    }
    assert forall|i: int| 0 <= i < p.tail(a).tokens.len() implies #[trigger] lane_view(steps, i)
        == decode_ops(
        k.plan,
        prompt_lane(p.tail(a).tokens, p.tail(a).base, p.tail(a).lora, i),
    ) by {}
    law_prompt_at_once_is_one_by_one(k.kernels, k.plan, p.tail(a), steps, k.blank, first.1);
    lemma_split(k.kernels, k.plan, p, a, n, k.blank, Map::empty());
    let rest = one_by_one(
        k.kernels,
        k.plan,
        p.tail(a),
        (n - a) as nat,
        k.blank,
        first.1,
    );
    lemma_done_len(k, p.tail(a), (n - a) as nat, first.1);
    assert((first.0 + rest.0).last() == rest.0.last());
    assert(tokens.take(n as int) =~= tokens);
    assert((x.acts, x.rows) == alone(k, lora, tokens));
    assert(state.generated() =~= Seq::empty());
    assert(state.received() =~= Seq::empty());
    assert(state.received() + state.pending =~= state.generated());
    lemma_joined_is_orderly(state, budget, k.context);
}

proof fn lemma_done_len<S, R>(k: Machine<S, R>, p: Prompt, n: nat, cache: Rows<R>)
    ensures
        one_by_one(k.kernels, k.plan, p, n, k.blank, cache).0.len() == n,
    decreases n,
{
    if n > 0 {
        lemma_done_len(k, p, (n - 1) as nat, cache);
    }
}

/// Decoding one more token goes on from what the tokens before it left.
proof fn lemma_alone_goes_on<S, R>(k: Machine<S, R>, lora: Option<usize>, tokens: Seq<u32>)
    requires
        tokens.len() > 0,
    ensures
        ({
            let before = alone(k, lora, tokens.drop_last());
            let lane = Lane { token: tokens.last(), pos: (tokens.len() - 1) as usize, lora };
            alone(k, lora, tokens) == run_lane(
                k.kernels,
                decode_ops(k.plan, lane),
                k.blank,
                before.1,
            )
        }),
{
    let n = tokens.len();
    let p = Prompt { tokens, base: 0, lora };
    lemma_head(k.kernels, k.plan, p, n - 1, (n - 1) as nat, k.blank, Map::empty());
    assert(p.head(n - 1) == Prompt { tokens: tokens.drop_last(), base: 0, lora }) by {
        assert(tokens.take(n - 1) =~= tokens.drop_last());
    }
    assert(prompt_lane(tokens, 0, lora, n - 1) == Lane {
        token: tokens.last(),
        pos: (n - 1) as usize,
        lora,
    });
}

pub proof fn lemma_turn_of_member<S, R>(
    k: Machine<S, R>,
    x0: Member<S, R>,
    x1: Member<S, R>,
    t: Turn,
    leaves: bool,
    starves: Option<u64>,
)
    requires
        keeps_to_itself(k, x0),
        has_turn(k, x0, x1, t, leaves, starves),
    ensures
        !x1.left ==> x1.state.valid(),
        x1.state.prompt_len == x1.prompt.len(),
        x0.state.tokens.len() <= x1.state.tokens.len(),
        x1.state.tokens.take(x0.state.tokens.len() as int) == x0.state.tokens,
        live(x1) ==> {
            &&& live(x0)
            &&& x1.state.tokens.len() == x0.state.tokens.len() + 1
            &&& x1.state.tokens.len() < k.context
        },
        !x1.starved ==> on_course(
            x1.state,
            follows(k, x1.lora, x1.pick),
            x1.prompt,
            x1.budget,
            k.context,
        ),
{
    let n = x0.state.tokens.len() as int;
    assert(x0.state.tokens.take(n) =~= x0.state.tokens);
    if !x0.left {
        let s = choose|s: SeqState| #[trigger]
            takes_turn(x0.state, s, leaves, t, k.context) && {
                let stops = !leaves && s.draining is None && starves is Some;
                &&& x1.starved == (x0.starved || stops)
                &&& x1.state == if stops {
                    SeqState { draining: starves, finish: Finish::Length, ..s }
                } else {
                    s
                }
            };
        law_turn_keeps_sequences_valid(
            x0.state,
            s,
            leaves,
            t.next,
            t.now,
            k.context,
            t.d,
            t.made,
        );
        assert(x0.state.tokens.push(t.next).take(n) =~= x0.state.tokens);
        if s.draining is None {
            law_decoded_positions_fit_the_context(
                x0.state,
                s,
                leaves,
                t.next,
                t.now,
                k.context,
                t.d,
                t.made,
            );
        }
        if !x1.starved {
            lemma_turn_on_course(
                x0.state,
                s,
                leaves,
                t,
                follows(k, x0.lora, x0.pick),
                x0.prompt,
                x0.budget,
                k.context,
            );
        }
    }
}

pub proof fn lemma_round<S, R>(
    k: Machine<S, R>,
    w0: Company<S, R>,
    w1: Company<S, R>,
    turns: Map<nat, Turn>,
    leaving: Set<nat>,
    starving: Map<nat, u64>,
    order: Seq<nat>,
    steps: Seq<Step>,
)
    requires
        k.context <= usize::MAX,
        all_keep_to_themselves(k, w0),
        goes_round(k, w0, w1, turns, leaving, starving, order, steps),
    ensures
        all_keep_to_themselves(k, w1),
{
    let requests = Seq::new(order.len(), |i: int| lane_of(w1[order[i]]));
    let lanes = lanes_of(k, w0, order);
    assert forall|i: int| 0 <= i < requests.len() implies #[trigger] lane_view(steps, i)
        == decode_ops(k.plan, requests[i]) by {}
    law_batching_is_invisible(k.kernels, k.plan, requests, steps, lanes);
    assert forall|id: nat| w1.dom().contains(id) implies keeps_to_itself(k, #[trigger] w1[id]) by {
        let x0 = w0[id];
        let x1 = w1[id];
        assert(keeps_to_itself(k, x0));
        let starves = if starving.dom().contains(id) {
            Some(starving[id])
        } else {
            None
        };
        assert(has_turn(k, x0, x1, turns[id], leaving.contains(id), starves));
        lemma_turn_of_member(k, x0, x1, turns[id], leaving.contains(id), starves);
        let t0 = x0.state.tokens;
        let t1 = x1.state.tokens;
        if order.contains(id) {
            let i = choose|i: int| 0 <= i < order.len() && order[i] == id;
            assert(live(x1));
            assert(run_apart(k.kernels, steps, lanes)[i] == run_lane(
                k.kernels,
                decode_ops(k.plan, requests[i]),
                lanes[i].0,
                lanes[i].1,
            ));
            assert(t1.drop_last() =~= t0) by {
                assert(t1.drop_last() =~= t1.take(t0.len() as int));
            }
            assert(t0.take(t0.len() as int) =~= t0);
            lemma_alone_goes_on(k, x1.lora, t1);
            assert(t1.take(t1.len() as int) =~= t1);
        } else {
            lemma_take_prefix(t0, t1, x0.seen as int);
        }
    }
}

/// However long a server has run and whoever was on it, every request has kept to itself.
pub proof fn law_everyone_keeps_to_themselves<S, R>(
    k: Machine<S, R>,
    worlds: Seq<Company<S, R>>,
    events: Seq<Event<S>>,
    i: nat,
)
    requires
        is_history(k, worlds, events),
        i < worlds.len(),
    ensures
        all_keep_to_themselves(k, worlds[i as int]),
    decreases i,
{
    if i > 0 {
        law_everyone_keeps_to_themselves(k, worlds, events, (i - 1) as nat);
        let (w0, w1) = (worlds[i - 1], worlds[i as int]);
        assert(happens(k, w0, w1, events[i - 1]));
        match events[i - 1] {
            Event::Join { id, state, budget, lora, pick, reused, steps } => {
                lemma_join(k, w0, id, state, budget, lora, pick, reused, steps);
                assert forall|j: nat| w1.dom().contains(j) implies keeps_to_itself(
                    k,
                    #[trigger] w1[j],
                ) by {
                    if j != id {
                        assert(w1[j] == w0[j]);
                    }
                }
            },
            Event::Round { turns, leaving, starving, order, steps } => {
                lemma_round(k, w0, w1, turns, leaving, starving, order, steps);
            },
            Event::Aside => {},
        }
    }
}

/// The server's load is invisible. The same request, on the same model and with the same
/// sampler, is run on two servers: in whatever company, alone or not, with its prompt
/// computed from scratch or behind reused positions, read fast or slowly. If both runs end
/// cleanly and neither ran out of memory, they have produced and delivered the same tokens
/// and ended the same way.
pub proof fn law_company_is_invisible<S, R>(
    k: Machine<S, R>,
    worlds_a: Seq<Company<S, R>>,
    events_a: Seq<Event<S>>,
    i: nat,
    a: nat,
    worlds_b: Seq<Company<S, R>>,
    events_b: Seq<Event<S>>,
    j: nat,
    b: nat,
)
    requires
        is_history(k, worlds_a, events_a),
        is_history(k, worlds_b, events_b),
        i < worlds_a.len() && worlds_a[i as int].dom().contains(a),
        j < worlds_b.len() && worlds_b[j as int].dom().contains(b),
        ({
            let (x, y) = (worlds_a[i as int][a], worlds_b[j as int][b]);
            &&& x.prompt == y.prompt
            &&& x.budget == y.budget
            &&& x.state.eos == y.state.eos
            &&& x.lora == y.lora
            &&& x.pick == y.pick
            &&& !x.starved && !y.starved
            &&& x.state.finish == Finish::Stop || x.state.finish == Finish::Length
            &&& y.state.finish == Finish::Stop || y.state.finish == Finish::Length
        }),
    ensures
        ({
            let (s, t) = (worlds_a[i as int][a].state, worlds_b[j as int][b].state);
            &&& s.tokens == t.tokens
            &&& s.finish == t.finish
            &&& s.pending.len() == 0 && t.pending.len() == 0 ==> s.received() == t.received()
        }),
{
    law_everyone_keeps_to_themselves(k, worlds_a, events_a, i);
    law_everyone_keeps_to_themselves(k, worlds_b, events_b, j);
    let (x, y) = (worlds_a[i as int][a], worlds_b[j as int][b]);
    assert(keeps_to_itself(k, x));
    assert(keeps_to_itself(k, y));
    law_clean_completions_agree(
        x.state,
        y.state,
        follows(k, x.lora, x.pick),
        x.prompt,
        x.budget,
        k.context,
    );
    if x.state.pending.len() == 0 && y.state.pending.len() == 0 {
        assert(x.state.received() =~= x.state.generated());
        assert(y.state.received() =~= y.state.generated());
    }
}

} // verus!
