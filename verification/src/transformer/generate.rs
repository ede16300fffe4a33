//! When generation goes on and when it stops.
use vstd::prelude::*;

verus! {

/// A running generation: the prompt, what has been produced, and the budget.
#[derive(Debug)]
pub struct Generation {
    /// Prompt and produced tokens.
    pub tokens: Vec<u32>,
    pub prompt_len: usize,
    /// Tokens that may still be produced.
    pub remaining: usize,
    pub eos_token: u32,
    pub stopped: bool,
}

/// What the caller has to do with a token that was taken.
#[derive(Clone, Copy, Debug, PartialEq, Eq, Structural)]
pub enum Progress {
    /// Decode the token at this position for the next logits.
    Decode { token: u32, pos: usize },
    /// Nothing more is produced.
    Stop,
}

impl Generation {
    pub open spec fn produced(&self) -> Seq<u32> {
        self.tokens@.skip(self.prompt_len as int)
    }

    /// Only the last produced token can be the stop token, and then generation
    /// has stopped.
    pub open spec fn wf(&self) -> bool {
        &&& self.prompt_len <= self.tokens@.len()
        &&& forall|i: int|
            0 <= i < self.produced().len() - 1 ==> #[trigger] self.produced()[i]
                != self.eos_token
        &&& self.produced().len() > 0 && self.produced().last() == self.eos_token ==> self.stopped
    }

    pub fn new(prompt: &[u32], max_new_tokens: usize, eos_token: u32) -> (g: Self)
        ensures
            g.wf(),
            g.tokens@ == prompt@,
            g.prompt_len == prompt@.len(),
            g.remaining == max_new_tokens,
            g.eos_token == eos_token,
            !g.stopped,
    {
        let g = Generation {
            tokens: vstd::slice::slice_to_vec(prompt),
            prompt_len: prompt.len(),
            remaining: max_new_tokens,
            eos_token,
            stopped: false,
        };
        assert(g.produced().len() == 0);
        g
    }

    /// True if another token is to be sampled.
    pub fn wants_token(&self) -> (b: bool)
        ensures
            b == (!self.stopped && self.remaining > 0),
    {
        !self.stopped && self.remaining > 0
    }

    /// Take a sampled token. `keep_going` is false where the receiver of the
    /// stream wants no more.
    pub fn take(&mut self, next: u32, keep_going: bool) -> (p: Progress)
        requires
            old(self).wf(),
            !old(self).stopped,
            old(self).remaining > 0,
        ensures
            final(self).wf(),
            final(self).tokens@ == old(self).tokens@.push(next),
            final(self).prompt_len == old(self).prompt_len,
            final(self).remaining == old(self).remaining - 1,
            final(self).eos_token == old(self).eos_token,
            final(self).stopped == (!keep_going || next == old(self).eos_token),
            p == if final(self).stopped {
                Progress::Stop
            } else {
                Progress::Decode { token: next, pos: old(self).tokens@.len() as usize }
            },
    {
        let ghost before = self.produced();
        let pos: usize = self.tokens.len();
        self.tokens.push(next);
        self.remaining = self.remaining - 1;
        self.stopped = !keep_going || next == self.eos_token;
        proof {
            let now = self.produced();
            assert(now =~= before.push(next));
            assert forall|i: int| 0 <= i < now.len() - 1 implies #[trigger] now[i]
                != self.eos_token by {
                assert(now[i] == before[i]);
                if i == before.len() - 1 {
                    assert(before.last() == before[i]);
                }
            }
        }
        if self.stopped {
            Progress::Stop
        } else {
            Progress::Decode { token: next, pos }
        }
    }
}

/// Generation never produces more than its budget, and nothing behind the stop
/// token: after any number of tokens the budget spent is what was produced.
pub proof fn law_generation_respects_its_budget(g0: Generation, g1: Generation, next: u32)
    requires
        g0.wf(),
        g1.wf(),
        g0.remaining > 0,
        g1.tokens@ == g0.tokens@.push(next),
        g1.prompt_len == g0.prompt_len,
        g1.remaining == g0.remaining - 1,
        g1.eos_token == g0.eos_token,
    ensures
        g1.produced().len() + g1.remaining == g0.produced().len() + g0.remaining,
        g1.tokens@.take(g1.prompt_len as int) == g0.tokens@.take(g0.prompt_len as int),
        !(g0.produced().len() > 0 && g0.produced().last() == g0.eos_token),
{
    assert(g1.produced() =~= g0.produced().push(next));
    assert(g1.tokens@.take(g1.prompt_len as int) =~= g0.tokens@.take(g0.prompt_len as int));
    if g0.produced().len() > 0 && g0.produced().last() == g0.eos_token {
        assert(g1.produced()[g0.produced().len() - 1] == g0.eos_token);
    }
}

} // verus!
