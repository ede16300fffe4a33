//! Speculative decoding.
//!
//! A small draft model proposes a few tokens; the large target model judges all
//! of them in one batched call. A proposed token is accepted with probability
//! `min(1, p / q)`; the first one that is not is replaced by a draw from the
//! residual distribution, and if all are accepted one more is drawn from the
//! target. The stop token ends the generation wherever it is accepted: nothing is
//! drawn behind it.
use vstd::prelude::*;

use crate::sampling::{
    draw24, law_selection_is_deterministic, sample_from_probs, selected, xorshift, Xorshift64,
};

verus! {

/// A speculative generation.
#[derive(Debug)]
pub struct Speculation {
    /// Prompt and produced tokens.
    pub tokens: Vec<u32>,
    pub generated: usize,
    pub max_new_tokens: usize,
    pub eos_token: u32,
    pub rng: Xorshift64,
}

/// The probabilities of one round, in units of `2^-24`.
#[derive(Debug)]
pub struct RoundOdds {
    /// For each proposed token, how many draws accept it.
    pub accept: Vec<u32>,
    /// For each proposed token, the cumulative residual distribution.
    pub residual: Vec<Vec<u32>>,
    /// The cumulative distribution of the target behind the last proposed token.
    pub bonus: Vec<u32>,
}

impl RoundOdds {
    /// Odds for `k` proposed tokens over a non-empty vocabulary.
    pub open spec fn wf(&self, k: nat) -> bool {
        &&& self.accept@.len() == k
        &&& self.residual@.len() == k
        &&& forall|i: int| 0 <= i < k ==> 0 < (#[trigger] self.residual@[i])@.len() <= u32::MAX
        &&& 0 < self.bonus@.len() <= u32::MAX
    }
}

/// How many of the proposed tokens from `i` on are kept, with the generator in
/// state `rng` and `room` tokens left to produce: up to the first one that is
/// rejected, up to the stop token, and no more than there is room for.
pub open spec fn kept_from(
    draft: Seq<u32>,
    accept: Seq<u32>,
    i: nat,
    rng: u64,
    room: nat,
    eos: u32,
) -> nat
    decreases draft.len() - i,
{
    if i >= draft.len() || room == 0 || draw24(rng) >= accept[i as int] {
        0
    } else if draft[i as int] == eos {
        1
    } else {
        1 + kept_from(draft, accept, i + 1, xorshift(rng), (room - 1) as nat, eos)
    }
}

/// The generator's state after `n` draws.
pub open spec fn after_draws(rng: u64, n: nat) -> u64
    decreases n,
{
    if n == 0 {
        rng
    } else {
        xorshift(after_draws(rng, (n - 1) as nat))
    }
}

/// How a round ended behind the `kept` tokens that it kept.
pub open spec fn rejected_at(draft: Seq<u32>, kept: nat, room: nat, eos: u32) -> bool {
    kept < draft.len() && kept < room && !(kept > 0 && draft[kept - 1] == eos)
}

/// What one round appends: the kept part of the proposal and at most one token
/// of its own.
pub open spec fn round_result(
    s0: Speculation,
    s1: Speculation,
    draft: Seq<u32>,
    odds: RoundOdds,
) -> bool {
    let room = (s0.max_new_tokens - s0.generated) as nat;
    let kept = kept_from(draft, odds.accept@, 0, s0.rng.state, room, s0.eos_token);
    let base = s0.tokens@ + draft.take(kept as int);
    if rejected_at(draft, kept, room, s0.eos_token) {
        // The draw that rejected the token, then the draw of its replacement.
        let rng = after_draws(s0.rng.state, kept + 1);
        &&& s1.tokens@.len() == base.len() + 1
        &&& s1.tokens@.take(base.len() as int) == base
        &&& selected(odds.residual@[kept as int]@, draw24(rng), s1.tokens@.last() as int)
        &&& s1.rng.state == xorshift(rng)
    } else if kept == draft.len() && kept < room && draft.last() != s0.eos_token {
        let rng = after_draws(s0.rng.state, kept);
        &&& s1.tokens@.len() == base.len() + 1
        &&& s1.tokens@.take(base.len() as int) == base
        &&& selected(odds.bonus@, draw24(rng), s1.tokens@.last() as int)
        &&& s1.rng.state == xorshift(rng)
    } else {
        &&& s1.tokens@ == base
        &&& s1.rng.state == after_draws(s0.rng.state, kept)
    }
}

/// Draw `i` of a generator that starts from `rng`, a number of 24 bits.
pub open spec fn draw(rng: u64, i: nat) -> u64 {
    draw24(after_draws(rng, i))
}

/// `t` is drawn by `u` from a distribution given by its cumulative probabilities: `u` is not
/// below what the tokens before `t` have together, and is below what they have with it. The
/// last token takes what is left.
pub open spec fn drawn_from(cumulative: Seq<u32>, u: u64, t: u32) -> bool {
    &&& t < cumulative.len()
    &&& forall|j: int| 0 <= j < t ==> #[trigger] cumulative[j] <= u
    &&& t + 1 < cumulative.len() ==> u < cumulative[t as int]
}

/// A round that keeps `kept` proposed tokens. Each of them is kept because its own draw is
/// below its odds. The round stops at the stop token; at the first token whose draw is not
/// below its odds, which is replaced by a draw from its residual distribution; or behind the
/// whole proposal, with one more token drawn from the target where there is room.
pub open spec fn decided_by_draws(
    s0: Speculation,
    s1: Speculation,
    draft: Seq<u32>,
    odds: RoundOdds,
    kept: nat,
) -> bool {
    let rng = s0.rng.state;
    let n = s0.tokens@.len();
    let stopped = kept > 0 && draft[kept - 1] == s0.eos_token;
    &&& kept <= draft.len()
    &&& forall|i: int| 0 <= i < kept ==> draw(rng, i as nat) < #[trigger] odds.accept@[i]
    &&& forall|i: int| 0 <= i < kept - 1 ==> #[trigger] draft[i] != s0.eos_token
    &&& forall|i: int| 0 <= i < n ==> #[trigger] s1.tokens@[i] == s0.tokens@[i]
    &&& forall|i: int| 0 <= i < kept ==> s1.tokens@[n + i] == #[trigger] draft[i]
    &&& if stopped {
        s1.tokens@.len() == n + kept && s1.rng.state == after_draws(rng, kept)
    } else if kept < draft.len() {
        &&& draw(rng, kept) >= odds.accept@[kept as int]
        &&& s1.tokens@.len() == n + kept + 1
        &&& drawn_from(
            odds.residual@[kept as int]@,
            draw(rng, kept + 1),
            s1.tokens@[(n + kept) as int],
        )
        &&& s1.rng.state == after_draws(rng, kept + 2)
    } else if kept < s0.max_new_tokens - s0.generated {
        &&& s1.tokens@.len() == n + kept + 1
        &&& drawn_from(odds.bonus@, draw(rng, kept), s1.tokens@[(n + kept) as int])
        &&& s1.rng.state == after_draws(rng, kept + 1)
    } else {
        s1.tokens@.len() == n + kept && s1.rng.state == after_draws(rng, kept)
    }
}

impl Speculation {
    pub open spec fn wf(&self) -> bool {
        self.generated <= self.max_new_tokens
    }

    pub fn new(prompt: &[u32], max_new_tokens: usize, eos_token: u32, seed: u64) -> (s: Self)
        ensures
            s.wf(),
            s.tokens@ == prompt@,
            s.generated == 0,
            s.max_new_tokens == max_new_tokens,
            s.eos_token == eos_token,
            s.rng.state == seed,
    {
        Speculation {
            tokens: vstd::slice::slice_to_vec(prompt),
            generated: 0,
            max_new_tokens,
            eos_token,
            rng: Xorshift64::new(seed),
        }
    }

    /// How many tokens to propose in the next round: `None` where generation is
    /// over, because the budget is spent or a context window is full.
    pub fn next_round(
        &self,
        lookahead: usize,
        draft_context: usize,
        target_context: usize,
    ) -> (k: Option<usize>)
        requires
            self.wf(),
        ensures
            k is None <==> self.generated == self.max_new_tokens || self.tokens@.len()
                >= draft_context || self.tokens@.len() >= target_context,
            k matches Some(k) ==> {
                &&& k >= 1
                &&& k == if lookahead == 0 {
                    1int
                } else if lookahead < self.max_new_tokens - self.generated {
                    lookahead as int
                } else {
                    self.max_new_tokens - self.generated
                }
            },
    {
        let n: usize = self.tokens.len();
        if self.generated >= self.max_new_tokens || n >= draft_context || n >= target_context {
            return None;
        }
        let ahead: usize = if lookahead == 0 {
            1
        } else {
            lookahead
        };
        let room: usize = self.max_new_tokens - self.generated;
        if ahead < room {
            Some(ahead)
        } else {
            Some(room)
        }
    }

    /// The token to feed the draft model for its next proposal, and its position:
    /// the last token so far, those proposed in this round included.
    pub fn draft_step(&self, drafted: &[u32]) -> (step: (u32, usize))
        requires
            0 < self.tokens@.len() + drafted@.len() <= usize::MAX,
        ensures
            step.0 == (self.tokens@ + drafted@).last(),
            step.1 == self.tokens@.len() + drafted@.len() - 1,
            step.0 == (self.tokens@ + drafted@)[step.1 as int],
    {
        let n: usize = self.tokens.len();
        let d: usize = drafted.len();
        let token: u32 = if d > 0 {
            drafted[d - 1]
        } else {
            self.tokens[n - 1]
        };
        (token, n + d - 1)
    }

    /// Judge a proposal. True if generation is over.
    pub fn verify_round(&mut self, draft: &[u32], odds: &RoundOdds) -> (done: bool)
        requires
            old(self).wf(),
            0 < draft@.len() <= old(self).max_new_tokens - old(self).generated,
            odds.wf(draft@.len()),
        ensures
            final(self).wf(),
            final(self).max_new_tokens == old(self).max_new_tokens,
            final(self).eos_token == old(self).eos_token,
            final(self).generated - old(self).generated == final(self).tokens@.len() - old(
                self,
            ).tokens@.len(),
            round_result(*old(self), *final(self), draft@, *odds),
            exists|kept: nat| #[trigger]
                decided_by_draws(*old(self), *final(self), draft@, *odds, kept),
            final(self).tokens@.len() > 0,
            done == (final(self).tokens@.last() == old(self).eos_token),
    {
        let ghost s0 = *self;
        let ghost room = (self.max_new_tokens - self.generated) as nat;
        let ghost kept = kept_from(
            draft@,
            odds.accept@,
            0,
            self.rng.state,
            room,
            self.eos_token,
        );
        let k: usize = draft.len();
        let mut i: usize = 0;
        let mut go = true;
        let mut rejected = false;
        proof {
            assert(s0.tokens@ + draft@.take(0) =~= s0.tokens@);
        }
        while go && i < k
            invariant
                k == draft@.len(),
                i <= k,
                odds.wf(draft@.len()),
                s0.wf(),
                0 < draft@.len() <= s0.max_new_tokens - s0.generated,
                room == s0.max_new_tokens - s0.generated,
                kept == kept_from(draft@, odds.accept@, 0, s0.rng.state, room, s0.eos_token),
                self.max_new_tokens == s0.max_new_tokens,
                self.eos_token == s0.eos_token,
                self.tokens@ == s0.tokens@ + draft@.take(i as int),
                self.generated == s0.generated + i,
                i <= room,
                go ==> {
                    &&& !rejected
                    &&& self.rng.state == after_draws(s0.rng.state, i as nat)
                    &&& kept == i + kept_from(
                        draft@,
                        odds.accept@,
                        i as nat,
                        self.rng.state,
                        (room - i) as nat,
                        s0.eos_token,
                    )
                    &&& i > 0 ==> draft@[i - 1] != s0.eos_token
                    &&& i < room || i == k
                },
                !go ==> kept == i,
                !go && rejected ==> {
                    &&& i < k
                    &&& i < room
                    &&& i > 0 ==> draft@[i - 1] != s0.eos_token
                    &&& self.rng.state == after_draws(s0.rng.state, (i + 1) as nat)
                },
                !go && !rejected ==> {
                    &&& i > 0
                    &&& draft@[i - 1] == s0.eos_token || i == room
                    &&& self.rng.state == after_draws(s0.rng.state, i as nat)
                },
            decreases k - i, go as int,
        {
            let ghost rng0 = self.rng.state;
            let u: u32 = self.rng.next_unit24();
            if u < odds.accept[i] {
                let t: u32 = draft[i];
                self.tokens.push(t);
                self.generated = self.generated + 1;
                i = i + 1;
                assert(self.tokens@ =~= s0.tokens@ + draft@.take(i as int));
                proof {
                    reveal_with_fuel(kept_from, 2);
                }
                if t == self.eos_token || self.generated >= self.max_new_tokens {
                    go = false;
                }
            } else {
                rejected = true;
                go = false;
            }
        }
        assert(kept == i);
        if rejected {
            let t: u32 = sample_from_probs(odds.residual[i].as_slice(), &mut self.rng);
            self.tokens.push(t);
            self.generated = self.generated + 1;
        } else if i == k && self.generated < self.max_new_tokens && draft[k - 1] != self.eos_token {
            let t: u32 = sample_from_probs(odds.bonus.as_slice(), &mut self.rng);
            self.tokens.push(t);
            self.generated = self.generated + 1;
        }
        proof {
            let base = s0.tokens@ + draft@.take(kept as int);
            if self.tokens@.len() > base.len() {
                assert(self.tokens@.take(base.len() as int) =~= base);
            }
            let counted = law_rounds_follow_their_draws(s0, *self, draft@, *odds);
        }
        let n: usize = self.tokens.len();
        self.tokens[n - 1] == self.eos_token
    }
}

proof fn lemma_kept_by_draws(
    draft: Seq<u32>,
    accept: Seq<u32>,
    i: nat,
    rng: u64,
    room: nat,
    eos: u32,
)
    requires
        i <= draft.len() == accept.len(),
        draft.len() - i <= room,
    ensures
        ({
            let state = after_draws(rng, i);
            let end = i + kept_from(draft, accept, i, state, room, eos);
            &&& end <= draft.len()
            &&& forall|j: int| i <= j < end ==> draw(rng, j as nat) < #[trigger] accept[j]
            &&& forall|j: int| i <= j < end - 1 ==> #[trigger] draft[j] != eos
            &&& end < draft.len() ==> (end > i && draft[end - 1] == eos) || draw(rng, end)
                >= accept[end as int]
        }),
    decreases draft.len() - i,
{
    if i < draft.len() {
        lemma_kept_by_draws(draft, accept, i + 1, rng, (room - 1) as nat, eos);
        assert(after_draws(rng, i + 1) == xorshift(after_draws(rng, i)));
    }
}

/// What a round does is decided by the draws of the generator, each compared with the odds
/// of the token that it is about: as many of the `2^24` draws keep a token as its odds say.
pub proof fn law_rounds_follow_their_draws(
    s0: Speculation,
    s1: Speculation,
    draft: Seq<u32>,
    odds: RoundOdds,
) -> (kept: nat)
    requires
        s0.wf(),
        0 < draft.len() <= s0.max_new_tokens - s0.generated,
        odds.wf(draft.len()),
        round_result(s0, s1, draft, odds),
    ensures
        decided_by_draws(s0, s1, draft, odds, kept),
        kept > 0 <==> draw(s0.rng.state, 0) < odds.accept@[0],
{
    let room = (s0.max_new_tokens - s0.generated) as nat;
    let rng = s0.rng.state;
    let kept = kept_from(draft, odds.accept@, 0, rng, room, s0.eos_token);
    lemma_kept_by_draws(draft, odds.accept@, 0, rng, room, s0.eos_token);
    let base = s0.tokens@ + draft.take(kept as int);
    let n = s0.tokens@.len();
    assert(s1.tokens@.take(base.len() as int) =~= base);
    assert forall|i: int| 0 <= i < n implies #[trigger] s1.tokens@[i] == s0.tokens@[i] by {
        assert(s1.tokens@.take(base.len() as int)[i] == base[i]);
    }
    assert forall|i: int| 0 <= i < kept implies s1.tokens@[n + i] == #[trigger] draft[i] by {
        assert(s1.tokens@.take(base.len() as int)[n + i] == base[n + i]);
    }
    assert(after_draws(rng, kept + 2) == xorshift(after_draws(rng, kept + 1)));
    assert(after_draws(rng, kept + 1) == xorshift(after_draws(rng, kept)));
    kept
}

/// Of the `2^24` draws exactly as many are below some odds as the odds say.
pub proof fn law_odds_count_draws(accept: u32)
    requires
        accept <= 0x100_0000,
    ensures
        Set::new(|u: int| 0 <= u < 0x100_0000 && u < accept).len() == accept,
        Set::new(|u: int| 0 <= u < 0x100_0000 && u < accept).finite(),
{
    let below = vstd::set_lib::set_int_range(0, accept as int);
    vstd::set_lib::lemma_int_range(0, accept as int);
    assert(Set::new(|u: int| 0 <= u < 0x100_0000 && u < accept) =~= below);
}

/// A round keeps a prefix of the proposal and appends at most one token of its
/// own, at least one token in all, and stays within the budget.
pub proof fn law_round_yields_tokens(
    s0: Speculation,
    s1: Speculation,
    draft: Seq<u32>,
    odds: RoundOdds,
)
    requires
        s0.wf(),
        0 < draft.len() <= s0.max_new_tokens - s0.generated,
        round_result(s0, s1, draft, odds),
    ensures
        ({
            let room = s0.max_new_tokens - s0.generated;
            let added = s1.tokens@.len() - s0.tokens@.len();
            let kept = kept_from(
                draft,
                odds.accept@,
                0,
                s0.rng.state,
                room as nat,
                s0.eos_token,
            );
            &&& kept <= added <= kept + 1
            &&& 1 <= added <= draft.len() + 1
            &&& added <= room
            &&& s1.tokens@.take(s0.tokens@.len() + kept as int) == s0.tokens@ + draft.take(
                kept as int,
            )
        }),
{
    let room = (s0.max_new_tokens - s0.generated) as nat;
    lemma_kept_bound(draft, odds.accept@, 0, s0.rng.state, room, s0.eos_token);
    let kept = kept_from(draft, odds.accept@, 0, s0.rng.state, room, s0.eos_token);
    let base = s0.tokens@ + draft.take(kept as int);
    assert(base.take(base.len() as int) =~= base);
}

proof fn lemma_kept_bound(
    draft: Seq<u32>,
    accept: Seq<u32>,
    i: nat,
    rng: u64,
    room: nat,
    eos: u32,
)
    requires
        i <= draft.len(),
    ensures
        i + kept_from(draft, accept, i, rng, room, eos) <= draft.len(),
        kept_from(draft, accept, i, rng, room, eos) <= room,
    decreases draft.len() - i,
{
    if i < draft.len() && room > 0 {
        lemma_kept_bound(draft, accept, i + 1, xorshift(rng), (room - 1) as nat, eos);
    }
}

proof fn lemma_kept_before_the_stop_token(
    draft: Seq<u32>,
    accept: Seq<u32>,
    i: nat,
    rng: u64,
    room: nat,
    eos: u32,
)
    requires
        i <= draft.len(),
    ensures
        forall|j: int|
            i <= j < i + kept_from(draft, accept, i, rng, room, eos) - 1 ==> #[trigger] draft[j]
                != eos,
    decreases draft.len() - i,
{
    if i < draft.len() && room > 0 {
        lemma_kept_before_the_stop_token(
            draft,
            accept,
            i + 1,
            xorshift(rng),
            (room - 1) as nat,
            eos,
        );
    }
}

/// Among the tokens that a round adds, the stop token occurs only as the last.
pub proof fn law_nothing_follows_the_stop_token(
    s0: Speculation,
    s1: Speculation,
    draft: Seq<u32>,
    odds: RoundOdds,
)
    requires
        s0.wf(),
        0 < draft.len() <= s0.max_new_tokens - s0.generated,
        round_result(s0, s1, draft, odds),
    ensures
        forall|j: int|
            s0.tokens@.len() <= j < s1.tokens@.len() - 1 ==> #[trigger] s1.tokens@[j]
                != s0.eos_token,
{
    let room = (s0.max_new_tokens - s0.generated) as nat;
    let kept = kept_from(draft, odds.accept@, 0, s0.rng.state, room, s0.eos_token);
    let base = s0.tokens@ + draft.take(kept as int);
    lemma_kept_bound(draft, odds.accept@, 0, s0.rng.state, room, s0.eos_token);
    lemma_kept_before_the_stop_token(
        draft,
        odds.accept@,
        0,
        s0.rng.state,
        room,
        s0.eos_token,
    );
    assert forall|j: int| s0.tokens@.len() <= j < s1.tokens@.len() - 1 implies #[trigger] s1.tokens@[j]
        != s0.eos_token by {
        assert(s1.tokens@[j] == s1.tokens@.take(base.len() as int)[j] || s1.tokens@ == base);
        assert(base[j] == draft[j - s0.tokens@.len()]);
        if j == base.len() - 1 {
            assert(s1.tokens@.len() == base.len() + 1);
            assert(draft[kept - 1] != s0.eos_token);
        }
    }
}

/// A round depends on nothing but the state it starts from, the proposal and the odds:
/// the same seed gives the same tokens.
pub proof fn law_rounds_are_deterministic(
    s0: Speculation,
    a: Speculation,
    b: Speculation,
    draft: Seq<u32>,
    odds: RoundOdds,
)
    requires
        s0.wf(),
        0 < draft.len() <= s0.max_new_tokens - s0.generated,
        odds.wf(draft.len()),
        round_result(s0, a, draft, odds),
        round_result(s0, b, draft, odds),
    ensures
        a.tokens@ == b.tokens@,
        a.rng.state == b.rng.state,
{
    let room = (s0.max_new_tokens - s0.generated) as nat;
    let kept = kept_from(draft, odds.accept@, 0, s0.rng.state, room, s0.eos_token);
    lemma_kept_bound(draft, odds.accept@, 0, s0.rng.state, room, s0.eos_token);
    let base = s0.tokens@ + draft.take(kept as int);
    if rejected_at(draft, kept, room, s0.eos_token) {
        let rng = after_draws(s0.rng.state, kept + 1);
        law_selection_is_deterministic(
            odds.residual@[kept as int]@,
            draw24(rng),
            a.tokens@.last() as int,
            b.tokens@.last() as int,
        );
        assert(a.tokens@ =~= base.push(a.tokens@.last()));
        assert(b.tokens@ =~= base.push(b.tokens@.last()));
    } else if kept == draft.len() && kept < room && draft.last() != s0.eos_token {
        let rng = after_draws(s0.rng.state, kept);
        law_selection_is_deterministic(
            odds.bonus@,
            draw24(rng),
            a.tokens@.last() as int,
            b.tokens@.last() as int,
        );
        assert(a.tokens@ =~= base.push(a.tokens@.last()));
        assert(b.tokens@ =~= base.push(b.tokens@.last()));
    }
}

/// A round leads from `s0` to `s1`.
pub open spec fn is_round(
    s0: Speculation,
    s1: Speculation,
    draft: Seq<u32>,
    odds: RoundOdds,
) -> bool {
    &&& 0 < draft.len() <= s0.max_new_tokens - s0.generated
    &&& round_result(s0, s1, draft, odds)
    &&& s1.max_new_tokens == s0.max_new_tokens
    &&& s1.eos_token == s0.eos_token
    &&& s1.generated - s0.generated == s1.tokens@.len() - s0.tokens@.len()
}

/// A generation from `states[0]` to the last state, one round after the other: round
/// `i` judges `drafts[i]` by `odds[i]`, and no round follows the stop token.
pub open spec fn is_generation(
    states: Seq<Speculation>,
    drafts: Seq<Seq<u32>>,
    odds: Seq<RoundOdds>,
) -> bool {
    &&& states.len() == drafts.len() + 1
    &&& drafts.len() == odds.len()
    &&& states[0].wf() && states[0].generated == 0
    &&& forall|i: int|
        0 <= i < drafts.len() ==> is_round(
            states[i],
            states[i + 1],
            #[trigger] drafts[i],
            odds[i],
        )
    &&& forall|i: int|
        0 < i < drafts.len() ==> (#[trigger] states[i]).tokens@.last() != states[i].eos_token
}

/// A whole generation starts with the prompt, stays within the budget, and holds the
/// stop token at most once, at its end.
pub proof fn law_generations_end_at_the_stop_token(
    states: Seq<Speculation>,
    drafts: Seq<Seq<u32>>,
    odds: Seq<RoundOdds>,
)
    requires
        is_generation(states, drafts, odds),
    ensures
        ({
            let (first, last) = (states[0], states.last());
            let n = first.tokens@.len();
            &&& n <= last.tokens@.len() <= n + first.max_new_tokens
            &&& last.tokens@.take(n as int) == first.tokens@
            &&& forall|j: int|
                n <= j < last.tokens@.len() - 1 ==> #[trigger] last.tokens@[j] != first.eos_token
        }),
    decreases drafts.len(),
{
    let first = states[0];
    let last = states.last();
    let n = first.tokens@.len();
    if drafts.len() == 0 {
        assert(last.tokens@.take(n as int) =~= first.tokens@);
    } else {
        let k = drafts.len() - 1;
        let before = states[k];
        let earlier = states.drop_last();
        assert(is_generation(earlier, drafts.drop_last(), odds.drop_last())) by {
            assert forall|i: int| 0 <= i < drafts.drop_last().len() implies is_round(
                earlier[i],
                earlier[i + 1],
                #[trigger] drafts.drop_last()[i],
                odds.drop_last()[i],
            ) by {
                assert(drafts[i] == drafts.drop_last()[i]);
            }
        }
        law_generations_end_at_the_stop_token(earlier, drafts.drop_last(), odds.drop_last());
        lemma_generation_counts(states, drafts, odds, k as nat);
        assert(drafts[k].len() > 0);
        law_round_yields_tokens(before, last, drafts[k], odds[k]);
        law_nothing_follows_the_stop_token(before, last, drafts[k], odds[k]);
        let m = before.tokens@.len();
        assert(last.tokens@.take(m as int) =~= before.tokens@) by {
            let kept = kept_from(
                drafts[k],
                odds[k].accept@,
                0,
                before.rng.state,
                (before.max_new_tokens - before.generated) as nat,
                before.eos_token,
            );
            let base = before.tokens@ + drafts[k].take(kept as int);
            assert(last.tokens@.take(m + kept as int) == base);
            assert forall|j: int| 0 <= j < m implies last.tokens@[j] == before.tokens@[j] by {
                assert(last.tokens@[j] == last.tokens@.take(m + kept as int)[j]);
            }
        }
        assert(last.tokens@.take(n as int) =~= first.tokens@) by {
            assert(before.tokens@.take(n as int) == first.tokens@);
            assert forall|j: int| 0 <= j < n implies last.tokens@[j] == first.tokens@[j] by {
                assert(last.tokens@[j] == last.tokens@.take(m as int)[j]);
                assert(before.tokens@[j] == before.tokens@.take(n as int)[j]);
            }
        }
        assert forall|j: int| n <= j < last.tokens@.len() - 1 implies #[trigger] last.tokens@[j]
            != first.eos_token by {
            if j < m {
                assert(last.tokens@[j] == last.tokens@.take(m as int)[j]);
                if j == m - 1 {
                    assert(k > 0);
                }
            }
        }
    }
}

proof fn lemma_generation_counts(
    states: Seq<Speculation>,
    drafts: Seq<Seq<u32>>,
    odds: Seq<RoundOdds>,
    i: nat,
)
    requires
        is_generation(states, drafts, odds),
        i < states.len(),
    ensures
        states[i as int].wf(),
        states[i as int].eos_token == states[0].eos_token,
        states[i as int].max_new_tokens == states[0].max_new_tokens,
        states[i as int].tokens@.len() == states[0].tokens@.len() + states[i as int].generated,
    decreases i,
{
    if i > 0 {
        lemma_generation_counts(states, drafts, odds, (i - 1) as nat);
        assert(drafts[i - 1].len() > 0);
        law_round_yields_tokens(states[i - 1], states[i as int], drafts[i - 1], odds[i - 1]);
    }
}

/// A proposal that the target always accepts and that holds no stop token is
/// kept whole, as far as the budget goes.
pub proof fn law_certain_proposal_is_kept(
    draft: Seq<u32>,
    accept: Seq<u32>,
    i: nat,
    rng: u64,
    room: nat,
    eos: u32,
)
    requires
        i <= draft.len(),
        draft.len() - i <= room,
        accept.len() == draft.len(),
        forall|j: int| 0 <= j < draft.len() ==> #[trigger] accept[j] >= 0x100_0000,
        forall|j: int| 0 <= j < draft.len() ==> #[trigger] draft[j] != eos,
    ensures
        kept_from(draft, accept, i, rng, room, eos) == draft.len() - i,
    decreases draft.len() - i,
{
    if i < draft.len() {
        let x = xorshift(rng);
        assert(x >> 40u64 < 0x100_0000u64) by (bit_vector);
        assert(accept[i as int] >= 0x100_0000);
        law_certain_proposal_is_kept(draft, accept, i + 1, x, (room - 1) as nat, eos);
    }
}

} // verus!
