//! Counters of a running server.
//!
//! | Counter | goes up | goes down |
//! |---|---|---|
//! | `requests_total`, `tokens_generated`, `total_latency_ms`, `decode_total_us` | on completion | never |
//! | `requests_failed` | on any error response, on a stream that is cut short | never |
//! | `ttft_total_us` | on the first token | never |
//! | `active_sessions` | on submission | on completion, or when the client disconnects |
//! | `queue_depth` | on submission | on the first token |
//!
//! Counters wrap around.
use vstd::prelude::*;

verus! {

/// The counters.
#[derive(Clone, Copy, Debug, PartialEq, Eq, Structural)]
pub struct Metrics {
    /// Completed requests.
    pub requests_total: u64,
    /// Tokens of all requests.
    pub tokens_generated: u64,
    /// Sum of the requests' durations, in milliseconds.
    pub total_latency_ms: u64,
    /// Sum of the times to the first token, in microseconds.
    pub ttft_total_us: u64,
    /// Sum of the decoding times, in microseconds.
    pub decode_total_us: u64,
    /// Requests answered with an error.
    pub requests_failed: u64,
    /// Requests in flight.
    pub active_sessions: i64,
    /// Requests that wait for their first token.
    pub queue_depth: i64,
}

/// `a + b`, wrapped to 64 bits.
pub open spec fn sum(a: u64, b: u64) -> u64 {
    a.wrapping_add(b)
}

/// Microseconds of a duration in milliseconds, capped at the largest number.
pub open spec fn micros(ms: u64) -> u64 {
    if ms * 1000 > u64::MAX {
        u64::MAX
    } else {
        (ms * 1000) as u64
    }
}

/// The counters after a completed request.
pub open spec fn recorded(m: Metrics, tokens: u64, latency_ms: u64) -> Metrics {
    Metrics {
        requests_total: sum(m.requests_total, 1),
        tokens_generated: sum(m.tokens_generated, tokens),
        total_latency_ms: sum(m.total_latency_ms, latency_ms),
        decode_total_us: sum(m.decode_total_us, micros(latency_ms)),
        ..m
    }
}

/// The counters after a first token.
pub open spec fn ttft_recorded(m: Metrics, us: u64) -> Metrics {
    Metrics { ttft_total_us: sum(m.ttft_total_us, us), ..m }
}

/// The counters after an error response.
pub open spec fn failed(m: Metrics) -> Metrics {
    Metrics { requests_failed: sum(m.requests_failed, 1), ..m }
}

/// The counters after a submission.
pub open spec fn submitted(m: Metrics) -> Metrics {
    Metrics {
        active_sessions: m.active_sessions.wrapping_add(1),
        queue_depth: m.queue_depth.wrapping_add(1),
        ..m
    }
}

/// The counters once a request has left the queue.
pub open spec fn started(m: Metrics) -> Metrics {
    Metrics { queue_depth: m.queue_depth.wrapping_sub(1), ..m }
}

/// The counters once a request is over.
pub open spec fn completed(m: Metrics) -> Metrics {
    Metrics { active_sessions: m.active_sessions.wrapping_sub(1), ..m }
}

/// All counters at zero.
pub open spec fn zeroed() -> Metrics {
    Metrics {
        requests_total: 0,
        tokens_generated: 0,
        total_latency_ms: 0,
        ttft_total_us: 0,
        decode_total_us: 0,
        requests_failed: 0,
        active_sessions: 0,
        queue_depth: 0,
    }
}

impl Default for Metrics {
    fn default() -> (m: Metrics)
        ensures
            m == zeroed(),
    {
        Metrics::new()
    }
}

impl Metrics {
    /// All counters at zero.
    pub fn new() -> (m: Self)
        ensures
            m == zeroed(),
    {
        Metrics {
            requests_total: 0,
            tokens_generated: 0,
            total_latency_ms: 0,
            ttft_total_us: 0,
            decode_total_us: 0,
            requests_failed: 0,
            active_sessions: 0,
            queue_depth: 0,
        }
    }

    /// Count a completed request.
    pub fn record(&mut self, tokens: u64, latency_ms: u64)
        ensures
            *final(self) == recorded(*old(self), tokens, latency_ms),
    {
        self.requests_total = self.requests_total.wrapping_add(1);
        self.tokens_generated = self.tokens_generated.wrapping_add(tokens);
        self.total_latency_ms = self.total_latency_ms.wrapping_add(latency_ms);
        let us: u64 = match latency_ms.checked_mul(1000) {
            Some(us) => us,
            None => u64::MAX,
        };
        self.decode_total_us = self.decode_total_us.wrapping_add(us);
    }

    /// Count the time that one request took to its first token.
    pub fn record_ttft_us(&mut self, us: u64)
        ensures
            *final(self) == ttft_recorded(*old(self), us),
    {
        self.ttft_total_us = self.ttft_total_us.wrapping_add(us);
    }

    /// Count an error response.
    pub fn record_failure(&mut self)
        ensures
            *final(self) == failed(*old(self)),
    {
        self.requests_failed = self.requests_failed.wrapping_add(1);
    }

    /// A request was submitted: it is in flight, and queued.
    pub fn on_submit(&mut self)
        ensures
            *final(self) == submitted(*old(self)),
    {
        self.active_sessions = self.active_sessions.wrapping_add(1);
        self.queue_depth = self.queue_depth.wrapping_add(1);
    }

    /// A request got its first token: it is no longer queued.
    pub fn on_first_token(&mut self)
        ensures
            *final(self) == started(*old(self)),
    {
        self.queue_depth = self.queue_depth.wrapping_sub(1);
    }

    /// A request is over: it is no longer in flight.
    pub fn on_complete(&mut self)
        ensures
            *final(self) == completed(*old(self)),
    {
        self.active_sessions = self.active_sessions.wrapping_sub(1);
    }
}

/// A request that is submitted, gets a first token and completes leaves both gauges
/// where it found them.
pub proof fn law_gauges_balance(m: Metrics, us: u64, tokens: u64, latency_ms: u64)
    ensures
        ({
            let after = completed(
                recorded(started(ttft_recorded(submitted(m), us)), tokens, latency_ms),
            );
            &&& after.active_sessions == m.active_sessions
            &&& after.queue_depth == m.queue_depth
            &&& after.requests_failed == m.requests_failed
            &&& after.requests_total == sum(m.requests_total, 1)
        }),
{
}

/// What the life of a request does to the gauges.
pub enum Call {
    Submit,
    FirstToken,
    /// The request completed, or its client disconnected.
    Complete,
}

/// The counters after one call.
pub open spec fn called(m: Metrics, call: Call) -> Metrics {
    match call {
        Call::Submit => submitted(m),
        Call::FirstToken => started(m),
        Call::Complete => completed(m),
    }
}

/// The counters after some calls, in order.
pub open spec fn called_all(m: Metrics, calls: Seq<Call>) -> Metrics
    decreases calls.len(),
{
    if calls.len() == 0 {
        m
    } else {
        called(called_all(m, calls.drop_last()), calls.last())
    }
}

/// How often a call occurs.
pub open spec fn times(calls: Seq<Call>, call: Call) -> nat
    decreases calls.len(),
{
    if calls.len() == 0 {
        0
    } else {
        times(calls.drop_last(), call) + if calls.last() == call {
            1nat
        } else {
            0
        }
    }
}

proof fn lemma_times_bound(calls: Seq<Call>, call: Call)
    ensures
        times(calls, call) <= calls.len(),
    decreases calls.len(),
{
    if calls.len() > 0 {
        lemma_times_bound(calls.drop_last(), call);
    }
}

/// The gauges are differences of counts: in whatever order requests are submitted, get
/// their first token and complete, the requests in flight are those submitted and not
/// completed, the queued ones those submitted and still without a token, and no other
/// counter moves.
pub proof fn law_gauges_are_differences(m: Metrics, calls: Seq<Call>)
    requires
        i64::MIN + calls.len() <= m.active_sessions <= i64::MAX - calls.len(),
        i64::MIN + calls.len() <= m.queue_depth <= i64::MAX - calls.len(),
    ensures
        ({
            let submits = times(calls, Call::Submit);
            called_all(m, calls) == (Metrics {
                active_sessions: (m.active_sessions + submits - times(
                    calls,
                    Call::Complete,
                )) as i64,
                queue_depth: (m.queue_depth + submits - times(calls, Call::FirstToken)) as i64,
                ..m
            })
        }),
    decreases calls.len(),
{
    if calls.len() > 0 {
        let rest = calls.drop_last();
        law_gauges_are_differences(m, rest);
        lemma_times_bound(rest, Call::Submit);
        lemma_times_bound(rest, Call::FirstToken);
        lemma_times_bound(rest, Call::Complete);
    }
}

/// What each event adds to the counters, where none of them is full: a completed request
/// its tokens and its time, a thousand microseconds for every millisecond; a first token the
/// time it took; an error one failure. Nothing else moves.
pub proof fn law_counters_are_sums(m: Metrics, tokens: u64, latency_ms: u64, us: u64)
    requires
        m.requests_total < u64::MAX,
        m.requests_failed < u64::MAX,
        m.tokens_generated + tokens <= u64::MAX,
        m.total_latency_ms + latency_ms <= u64::MAX,
        m.decode_total_us + latency_ms * 1000 <= u64::MAX,
        m.ttft_total_us + us <= u64::MAX,
    ensures
        ({
            let r = recorded(m, tokens, latency_ms);
            &&& r.requests_total == m.requests_total + 1
            &&& r.tokens_generated == m.tokens_generated + tokens
            &&& r.total_latency_ms == m.total_latency_ms + latency_ms
            &&& r.decode_total_us == m.decode_total_us + latency_ms * 1000
            &&& r.ttft_total_us == m.ttft_total_us
            &&& r.requests_failed == m.requests_failed
            &&& r.active_sessions == m.active_sessions
            &&& r.queue_depth == m.queue_depth
        }),
        ttft_recorded(m, us) == (Metrics { ttft_total_us: (m.ttft_total_us + us) as u64, ..m }),
        failed(m) == (Metrics { requests_failed: (m.requests_failed + 1) as u64, ..m }),
        failed(m).requests_failed == m.requests_failed + 1,
        ttft_recorded(m, us).ttft_total_us == m.ttft_total_us + us,
{
}

} // verus!
