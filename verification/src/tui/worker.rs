//! The worker behind the terminal interface.
use vstd::prelude::*;

verus! {

/// A generation that runs on the worker.
#[derive(Clone, Copy, Debug, PartialEq, Eq, Structural)]
pub struct WorkerRun {
    pub prompt_len: usize,
    pub max_tokens: usize,
    pub eos_token: u32,
    pub generated: usize,
    pub first_token_sent: bool,
}

/// What the worker does with a sampled token.
#[derive(Clone, Copy, Debug, PartialEq, Eq, Structural)]
pub struct WorkerStep {
    /// Report the time to the first token.
    pub announce: bool,
    /// Send the token and decode it at this position; `None` ends the generation.
    pub decode_at: Option<usize>,
}

impl WorkerRun {
    pub open spec fn wf(&self) -> bool {
        self.prompt_len + self.max_tokens <= usize::MAX
    }

    /// A generation that has not produced anything yet.
    pub fn new(prompt_len: usize, max_tokens: usize, eos_token: u32) -> (w: Self)
        ensures
            w == (WorkerRun {
                prompt_len,
                max_tokens,
                eos_token,
                generated: 0,
                first_token_sent: false,
            }),
    {
        WorkerRun { prompt_len, max_tokens, eos_token, generated: 0, first_token_sent: false }
    }

    /// What to do with a sampled token. The generation ends where its budget is spent,
    /// where it was cancelled, and where the model ends it.
    pub fn step(&mut self, token: u32, cancelled: bool) -> (s: WorkerStep)
        requires
            old(self).wf(),
        ensures
            s == worker_step(*old(self), token, cancelled).0,
            *final(self) == worker_step(*old(self), token, cancelled).1,
            final(self).wf(),
    {
        if self.generated >= self.max_tokens || cancelled {
            return WorkerStep { announce: false, decode_at: None };
        }
        let announce = !self.first_token_sent;
        self.first_token_sent = true;
        if token == self.eos_token {
            return WorkerStep { announce, decode_at: None };
        }
        let at: usize = self.prompt_len + self.generated;
        self.generated = self.generated + 1;
        WorkerStep { announce, decode_at: Some(at) }
    }
}

/// What the worker does with a sampled token, and its state afterwards.
pub open spec fn worker_step(w: WorkerRun, token: u32, cancelled: bool) -> (
    WorkerStep,
    WorkerRun,
) {
    let announce = !w.first_token_sent;
    if w.generated >= w.max_tokens || cancelled {
        (WorkerStep { announce: false, decode_at: None }, w)
    } else if token == w.eos_token {
        (
            WorkerStep { announce, decode_at: None },
            WorkerRun { first_token_sent: true, ..w },
        )
    } else {
        (
            WorkerStep { announce, decode_at: Some((w.prompt_len + w.generated) as usize) },
            WorkerRun {
                first_token_sent: true,
                generated: (w.generated + 1) as usize,
                ..w
            },
        )
    }
}

/// The worker never exceeds its budget, decodes positions in a row right behind the
/// prompt, and announces the first token once.
pub proof fn law_worker_keeps_to_its_budget(w: WorkerRun, token: u32, cancelled: bool)
    requires
        w.wf(),
        w.generated <= w.max_tokens,
    ensures
        ({
            let (s, after) = worker_step(w, token, cancelled);
            &&& after.generated <= after.max_tokens
            &&& s.decode_at is Some <==> after.generated == w.generated + 1
            &&& s.decode_at matches Some(at) ==> at == w.prompt_len + w.generated && token
                != w.eos_token && !cancelled
            &&& s.announce ==> !w.first_token_sent && after.first_token_sent
        }),
{
}

/// The worker goes on with every token that it may: it ends only where the budget is spent,
/// the generation was cancelled or the model ended it, and it announces the first token that
/// it gets to see, whatever it is.
pub proof fn law_worker_ends_for_a_reason(w: WorkerRun, token: u32, cancelled: bool)
    requires
        w.wf(),
    ensures
        ({
            let (s, after) = worker_step(w, token, cancelled);
            let over = w.generated >= w.max_tokens || cancelled;
            &&& s.decode_at is None <==> over || token == w.eos_token
            &&& s.announce <==> !over && !w.first_token_sent
            &&& after.first_token_sent <==> w.first_token_sent || !over
            &&& after.prompt_len == w.prompt_len && after.max_tokens == w.max_tokens
                && after.eos_token == w.eos_token
        }),
{
}

} // verus!
