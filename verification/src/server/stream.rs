//! Responses that are sent token by token.
//!
//! Each kind of stream is a small machine: what it sends first, what it sends for a
//! token, and what it sends at the end. A stream that was cut short never ends like
//! one that was finished.
use vstd::prelude::*;

use crate::server::engine::Finish;
use crate::server::metrics::{completed, failed, recorded, Metrics};
use crate::server::respond::{
    build_responses_response, finish_reason_for, first_token, is_response, reason,
    response_status, status_for, word,
};
use crate::server::constraint::text_of;
use crate::server::types::{
    ChatChunk, ChatChunkChoice, ChatDelta, ChunkChoice, CompletionChunk, FunctionCallDelta,
    ResponsesResponse, ToolCallDelta,
};

verus! {

/// What is sent in place of the usual end where a stream was cut short.
pub const TRUNCATED_SSE_BODY: &'static str = "{\"error\":{\"message\":\"The response was truncated: the server dropped undelivered tokens because this client could not keep up with the stream. The content received is incomplete.\",\"type\":\"server_error\",\"code\":\"truncated\"}}";

/// What a client of the responses interface is told of a stream that was cut short.
pub const TRUNCATED_MESSAGE: &'static str = "The response was truncated: the server dropped undelivered tokens because this client could not keep up with the stream.";

/// One event of a stream.
#[derive(Debug)]
pub enum StreamEvent {
    Completion(CompletionChunk),
    Chat(ChatChunk),
    /// A responses object has been created.
    Created(ResponsesResponse),
    /// A piece of text of a responses object.
    Delta { response_id: String, delta: String },
    /// The whole text of a responses object.
    TextDone { response_id: String, text: String },
    /// A responses object is complete.
    Completed(ResponsesResponse),
    /// A responses object was cut short.
    Failed { response_id: String, message: &'static str },
    /// The stream was cut short; the body of the error event.
    Truncated(&'static str),
    /// The mark at the end of a finished stream.
    Done,
}

// ── Counting ─────────────────────────────────────────────────────────────────

/// How many tokens a stream has sent.
#[derive(Clone, Copy, Debug, PartialEq, Eq, Structural)]
pub struct Meter {
    pub tokens: u64,
    pub started: bool,
}

/// The counters after a token of a stream.
pub open spec fn after_token(meter: Meter, m: Metrics, us: u64) -> Metrics {
    if meter.started {
        m
    } else {
        first_token(m, us)
    }
}

/// The meter after a token.
pub open spec fn ticked(meter: Meter) -> Meter {
    Meter { tokens: meter.tokens.wrapping_add(1), started: true }
}

/// The counters after a stream. One that was cut short has failed, but its time and its
/// tokens were spent, and it is no longer in flight.
pub open spec fn after_stream(meter: Meter, m: Metrics, ms: u64, finish: Finish) -> Metrics {
    let m = completed(recorded(m, meter.tokens, ms));
    if reason(finish) is None {
        failed(m)
    } else {
        m
    }
}

impl Meter {
    pub fn new() -> (m: Self)
        ensures
            m == (Meter { tokens: 0, started: false }),
    {
        Meter { tokens: 0, started: false }
    }

    /// Count a token, sent `us` microseconds after the start.
    pub fn tick(&mut self, metrics: &mut Metrics, us: u64)
        ensures
            *final(self) == ticked(*old(self)),
            *final(metrics) == after_token(*old(self), *old(metrics), us),
    {
        if !self.started {
            metrics.record_ttft_us(us);
            metrics.on_first_token();
            self.started = true;
        }
        self.tokens = self.tokens.wrapping_add(1);
    }

    /// Count the end of a stream, `ms` milliseconds after its start.
    pub fn stop(&self, metrics: &mut Metrics, ms: u64, finish: Finish)
        ensures
            *final(metrics) == after_stream(*self, *old(metrics), ms, finish),
    {
        metrics.record(self.tokens, ms);
        metrics.on_complete();
        if finish_reason_for(finish).is_none() {
            metrics.record_failure();
        }
    }

    /// The client went away before the end of the stream: its request is no longer in
    /// flight, and nothing else is counted.
    pub fn abandon(&self, metrics: &mut Metrics)
        ensures
            *final(metrics) == completed(*old(metrics)),
    {
        metrics.on_complete();
    }
}

// ── Completions ──────────────────────────────────────────────────────────────

/// A streamed completion.
#[derive(Debug)]
pub struct CompletionStream {
    pub id: String,
    pub created: u64,
    pub model: String,
    pub meter: Meter,
}

/// `e` is a piece of the completion: that text, that reason.
pub open spec fn is_completion_chunk(
    e: StreamEvent,
    s: CompletionStream,
    text: Seq<char>,
    finish_reason: Option<Seq<char>>,
) -> bool {
    &&& e matches StreamEvent::Completion(c)
    &&& c.id@ == s.id@
    &&& c.object@ == "text_completion"@
    &&& c.created == s.created
    &&& c.model@ == s.model@
    &&& c.choices@.len() == 1
    &&& c.choices@[0].text@ == text
    &&& c.choices@[0].index == 0
    &&& word(c.choices@[0].finish_reason) == finish_reason
}

/// A stream that was cut short ends with an error and without the end mark.
pub open spec fn ends_cut(events: Seq<StreamEvent>) -> bool {
    &&& events.len() == 1
    &&& events[0] matches StreamEvent::Truncated(body)
    &&& body@ == TRUNCATED_SSE_BODY@
}

impl CompletionStream {
    fn chunk(&self, text: String, finish_reason: Option<&'static str>) -> (e: StreamEvent)
        ensures
            is_completion_chunk(e, *self, text@, word(finish_reason)),
    {
        let mut choices: Vec<ChunkChoice> = Vec::new();
        choices.push(ChunkChoice { text, index: 0, finish_reason });
        StreamEvent::Completion(
            CompletionChunk {
                id: self.id.clone(),
                object: "text_completion",
                created: self.created,
                model: self.model.clone(),
                choices,
            },
        )
    }

    /// Send a token's text, `us` microseconds after the start.
    pub fn token(&mut self, text: String, metrics: &mut Metrics, us: u64) -> (e: StreamEvent)
        ensures
            is_completion_chunk(e, *old(self), text@, None),
            *final(self) == (CompletionStream { meter: ticked(old(self).meter), ..*old(self) }),
            *final(metrics) == after_token(old(self).meter, *old(metrics), us),
    {
        self.meter.tick(metrics, us);
        self.chunk(text, None)
    }

    /// End the stream. A finished one gets a last piece with the reason and the end
    /// mark; one that was cut short gets neither.
    pub fn finish(&self, finish: Finish, metrics: &mut Metrics, ms: u64) -> (events: Vec<
        StreamEvent,
    >)
        ensures
            match reason(finish) {
                Some(r) => {
                    &&& events@.len() == 2
                    &&& is_completion_chunk(events@[0], *self, Seq::empty(), Some(r))
                    &&& events@[1] is Done
                },
                None => ends_cut(events@),
            },
            *final(metrics) == after_stream(self.meter, *old(metrics), ms, finish),
    {
        let mut events: Vec<StreamEvent> = Vec::new();
        match finish_reason_for(finish) {
            Some(r) => {
                events.push(self.chunk(String::new(), Some(r)));
                events.push(StreamEvent::Done);
            },
            None => {
                events.push(StreamEvent::Truncated(TRUNCATED_SSE_BODY));
            },
        }
        self.meter.stop(metrics, ms, finish);
        events
    }
}

// ── Chat completions ─────────────────────────────────────────────────────────

/// A streamed chat completion. In tool mode the text is sent as the arguments of a
/// call.
#[derive(Debug)]
pub struct ChatStream {
    pub id: String,
    pub call_id: String,
    pub created: u64,
    pub model: String,
    pub tool_mode: bool,
    /// The tool that is called, where it is known up front.
    pub tool_name: Option<String>,
    pub meter: Meter,
}

/// `e` is a piece of the chat completion.
pub open spec fn is_chat_chunk(
    e: StreamEvent,
    s: ChatStream,
    finish_reason: Option<Seq<char>>,
) -> bool {
    &&& e matches StreamEvent::Chat(c)
    &&& c.id@ == s.id@
    &&& c.object@ == "chat.completion.chunk"@
    &&& c.created == s.created
    &&& c.model@ == s.model@
    &&& c.choices@.len() == 1
    &&& c.choices@[0].index == 0
    &&& word(c.choices@[0].finish_reason) == finish_reason
}

/// What a piece of a chat completion adds.
pub open spec fn delta(e: StreamEvent) -> ChatDelta {
    e->Chat_0.choices@[0].delta
}

/// `d` is a call with that identifier, name and arguments.
pub open spec fn is_call_delta(
    d: ChatDelta,
    id: Option<Seq<char>>,
    name: Option<Seq<char>>,
    arguments: Seq<char>,
) -> bool {
    &&& d.content is None
    &&& d.tool_calls matches Some(v)
    &&& v@.len() == 1
    &&& v@[0].index == 0
    &&& text_of(v@[0].id) == id
    &&& text_of(v@[0].tool_type) == (if id is Some {
        Some("function"@)
    } else {
        None
    })
    &&& v@[0].function matches Some(f)
    &&& text_of(f.name) == name
    &&& text_of(f.arguments) == Some(arguments)
}

/// What a chat client is told about how a generation ended: a finished tool call is a
/// call, not a stop.
pub open spec fn chat_reason(finish: Finish, tool_mode: bool) -> Option<Seq<char>> {
    if tool_mode && finish == Finish::Stop {
        Some("tool_calls"@)
    } else {
        reason(finish)
    }
}

impl ChatStream {
    fn chunk(&self, delta: ChatDelta, finish_reason: Option<&'static str>) -> (e: StreamEvent)
        ensures
            is_chat_chunk(e, *self, word(finish_reason)),
            crate::server::stream::delta(e) == delta,
    {
        let mut choices: Vec<ChatChunkChoice> = Vec::new();
        choices.push(ChatChunkChoice { index: 0, delta, finish_reason });
        StreamEvent::Chat(
            ChatChunk {
                id: self.id.clone(),
                object: "chat.completion.chunk",
                created: self.created,
                model: self.model.clone(),
                choices,
            },
        )
    }

    /// The first event: the role, and in tool mode the start of the call.
    pub fn first(&self) -> (e: StreamEvent)
        ensures
            is_chat_chunk(e, *self, None),
            word(delta(e).role) == Some("assistant"@),
            if self.tool_mode {
                is_call_delta(
                    delta(e),
                    Some(self.call_id@),
                    text_of(self.tool_name),
                    Seq::empty(),
                )
            } else {
                delta(e).content is None && delta(e).tool_calls is None
            },
    {
        if self.tool_mode {
            let mut calls: Vec<ToolCallDelta> = Vec::new();
            calls.push(
                ToolCallDelta {
                    index: 0,
                    id: Some(self.call_id.clone()),
                    tool_type: Some("function".to_string()),
                    function: Some(
                        FunctionCallDelta {
                            name: match &self.tool_name {
                                Some(n) => Some(n.clone()),
                                None => None,
                            },
                            arguments: Some(String::new()),
                        },
                    ),
                },
            );
            self.chunk(
                ChatDelta { role: Some("assistant"), content: None, tool_calls: Some(calls) },
                None,
            )
        } else {
            self.chunk(
                ChatDelta { role: Some("assistant"), content: None, tool_calls: None },
                None,
            )
        }
    }

    /// Send a token's text, `us` microseconds after the start.
    pub fn token(&mut self, text: String, metrics: &mut Metrics, us: u64) -> (e: StreamEvent)
        ensures
            is_chat_chunk(e, *old(self), None),
            delta(e).role is None,
            if old(self).tool_mode {
                is_call_delta(delta(e), None, None, text@)
            } else {
                delta(e).content == Some(text) && delta(e).tool_calls is None
            },
            *final(self) == (ChatStream { meter: ticked(old(self).meter), ..*old(self) }),
            *final(metrics) == after_token(old(self).meter, *old(metrics), us),
    {
        self.meter.tick(metrics, us);
        if self.tool_mode {
            let mut calls: Vec<ToolCallDelta> = Vec::new();
            calls.push(
                ToolCallDelta {
                    index: 0,
                    id: None,
                    tool_type: None,
                    function: Some(FunctionCallDelta { name: None, arguments: Some(text) }),
                },
            );
            self.chunk(ChatDelta { role: None, content: None, tool_calls: Some(calls) }, None)
        } else {
            self.chunk(ChatDelta { role: None, content: Some(text), tool_calls: None }, None)
        }
    }

    /// End the stream. A finished one gets a last piece with the reason and the end
    /// mark; one that was cut short gets neither.
    pub fn finish(&self, finish: Finish, metrics: &mut Metrics, ms: u64) -> (events: Vec<
        StreamEvent,
    >)
        ensures
            match chat_reason(finish, self.tool_mode) {
                Some(r) => {
                    &&& events@.len() == 2
                    &&& is_chat_chunk(events@[0], *self, Some(r))
                    &&& delta(events@[0]).role is None
                    &&& delta(events@[0]).content is None
                    &&& delta(events@[0]).tool_calls is None
                    &&& events@[1] is Done
                },
                None => ends_cut(events@),
            },
            *final(metrics) == after_stream(self.meter, *old(metrics), ms, finish),
    {
        let mut events: Vec<StreamEvent> = Vec::new();
        let raw = finish_reason_for(finish);
        let told: Option<&'static str> = if self.tool_mode && finish == Finish::Stop {
            Some("tool_calls")
        } else {
            raw
        };
        match told {
            Some(r) => {
                events.push(
                    self.chunk(
                        ChatDelta { role: None, content: None, tool_calls: None },
                        Some(r),
                    ),
                );
                events.push(StreamEvent::Done);
            },
            None => {
                events.push(StreamEvent::Truncated(TRUNCATED_SSE_BODY));
            },
        }
        self.meter.stop(metrics, ms, finish);
        events
    }
}

// ── Responses ────────────────────────────────────────────────────────────────

/// A streamed responses object.
#[derive(Debug)]
pub struct ResponsesStream {
    pub response_id: String,
    pub message_id: String,
    pub created_at: u64,
    pub model: String,
    pub prompt_len: usize,
    /// The text sent so far.
    pub text: String,
    pub meter: Meter,
}

impl ResponsesStream {
    /// The first event: the object, still empty.
    pub fn first(&self) -> (e: StreamEvent)
        ensures
            e matches StreamEvent::Created(r) && is_response(
                r,
                self.response_id@,
                self.message_id@,
                self.created_at,
                self.model@,
                Seq::empty(),
                self.prompt_len as int,
                0,
                "in_progress"@,
            ),
    {
        StreamEvent::Created(
            build_responses_response(
                self.response_id.clone(),
                self.message_id.clone(),
                self.created_at,
                self.model.clone(),
                String::new(),
                self.prompt_len,
                0,
                "in_progress",
            ),
        )
    }

    /// Send a token's text, `us` microseconds after the start.
    pub fn token(&mut self, text: String, metrics: &mut Metrics, us: u64) -> (e: StreamEvent)
        ensures
            e matches StreamEvent::Delta { response_id, delta } && response_id@ == old(
                self,
            ).response_id@ && delta@ == text@,
            final(self).text@ == old(self).text@ + text@,
            final(self).meter == ticked(old(self).meter),
            final(self).response_id == old(self).response_id,
            final(self).message_id == old(self).message_id,
            final(self).created_at == old(self).created_at,
            final(self).model == old(self).model,
            final(self).prompt_len == old(self).prompt_len,
            *final(metrics) == after_token(old(self).meter, *old(metrics), us),
    {
        self.meter.tick(metrics, us);
        self.text.append(text.as_str());
        StreamEvent::Delta { response_id: self.response_id.clone(), delta: text }
    }

    /// End the stream. A finished one gets its whole text, then the complete object;
    /// one that was cut short gets neither, only the failure.
    pub fn finish(&self, finish: Finish, metrics: &mut Metrics, ms: u64) -> (events: Vec<
        StreamEvent,
    >)
        requires
            self.prompt_len + self.meter.tokens <= usize::MAX,
        ensures
            match reason(finish) {
                Some(r) => {
                    &&& events@.len() == 2
                    &&& events@[0] matches StreamEvent::TextDone { response_id, text }
                        && response_id@ == self.response_id@ && text@ == self.text@
                    &&& events@[1] matches StreamEvent::Completed(c) && is_response(
                        c,
                        self.response_id@,
                        self.message_id@,
                        self.created_at,
                        self.model@,
                        self.text@,
                        self.prompt_len as int,
                        self.meter.tokens as int,
                        status_for(r),
                    )
                },
                None => {
                    &&& events@.len() == 1
                    &&& events@[0] matches StreamEvent::Failed { response_id, message }
                        && response_id@ == self.response_id@ && message@ == TRUNCATED_MESSAGE@
                },
            },
            *final(metrics) == after_stream(self.meter, *old(metrics), ms, finish),
    {
        let mut events: Vec<StreamEvent> = Vec::new();
        self.meter.stop(metrics, ms, finish);
        match finish_reason_for(finish) {
            Some(r) => {
                events.push(
                    StreamEvent::TextDone {
                        response_id: self.response_id.clone(),
                        text: self.text.clone(),
                    },
                );
                events.push(
                    StreamEvent::Completed(
                        build_responses_response(
                            self.response_id.clone(),
                            self.message_id.clone(),
                            self.created_at,
                            self.model.clone(),
                            self.text.clone(),
                            self.prompt_len,
                            self.meter.tokens as usize,
                            response_status(r),
                        ),
                    ),
                );
            },
            None => {
                events.push(
                    StreamEvent::Failed {
                        response_id: self.response_id.clone(),
                        message: TRUNCATED_MESSAGE,
                    },
                );
            },
        }
        events
    }
}

// ── Laws ─────────────────────────────────────────────────────────────────────

/// The end mark, or the complete object, is sent exactly if the generation finished:
/// a client that waits for it never takes a cut response for a whole one.
pub proof fn law_only_finished_chats_are_marked(finish: Finish, tool_mode: bool)
    ensures
        chat_reason(finish, tool_mode) is Some <==> finish == Finish::Stop || finish
            == Finish::Length,
        chat_reason(finish, tool_mode) is Some <==> reason(finish) is Some,
{
}

/// However a stream ends, its request is no longer in flight and has been counted.
pub proof fn law_every_stream_is_counted(meter: Meter, m: Metrics, ms: u64, finish: Finish)
    ensures
        ({
            let after = after_stream(meter, m, ms, finish);
            &&& after.active_sessions == m.active_sessions.wrapping_sub(1)
            &&& after.requests_total == m.requests_total.wrapping_add(1)
            &&& after.tokens_generated == m.tokens_generated.wrapping_add(meter.tokens)
            &&& after.requests_failed == (if finish == Finish::Stop || finish == Finish::Length {
                m.requests_failed
            } else {
                m.requests_failed.wrapping_add(1)
            })
        }),
{
}

/// A chat that the model ended is a call where tools are called and a stop else; running out
/// of room is the same either way.
pub proof fn law_finished_calls_are_calls(tool_mode: bool)
    ensures
        chat_reason(Finish::Stop, true) == Some("tool_calls"@),
        chat_reason(Finish::Stop, false) == Some("stop"@),
        chat_reason(Finish::Length, tool_mode) == Some("length"@),
{
}

/// The first token of a stream, and only that, takes its request out of the queue and is
/// timed; every token is counted.
pub proof fn law_first_tokens_are_timed(meter: Meter, m: Metrics, us: u64)
    requires
        m.queue_depth > i64::MIN,
        m.ttft_total_us + us <= u64::MAX,
        meter.tokens < u64::MAX,
    ensures
        ticked(meter).started,
        ticked(meter).tokens == meter.tokens + 1,
        meter.started ==> after_token(meter, m, us) == m,
        !meter.started ==> {
            let after = after_token(meter, m, us);
            &&& after.queue_depth == m.queue_depth - 1
            &&& after.ttft_total_us == m.ttft_total_us + us
            &&& after.active_sessions == m.active_sessions
        },
{
}

} // verus!
