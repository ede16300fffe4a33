//! The state of the terminal interface.
use vstd::prelude::*;

use crate::server::constraint::{ConstraintSpec, SchemaSpec};
use crate::server::prepare::PromptMessage;
use crate::text::{chars_of, string_of, trim, trimmed};

verus! {

/// What the middle of the screen shows.
#[derive(Copy, Clone, Debug, PartialEq, Eq, Structural)]
pub enum ActiveTab {
    Chat,
    StructuredLab,
    KvTelemetry,
}

/// One turn of the conversation.
#[derive(Debug)]
pub struct ChatTurn {
    pub role: String,
    pub content: String,
    /// Tokens per second, with one decimal.
    pub tok_per_sec: Option<String>,
    pub ttft_ms: Option<u64>,
    pub token_count: Option<usize>,
}

/// What the inference worker reports.
#[derive(Debug)]
pub enum InferenceEvent {
    FirstToken { ttft_ms: u64 },
    Token(String),
    /// The generation is over. The speed has one decimal; the seconds that it took are
    /// the bit pattern of a floating-point number.
    Done { total_tokens: usize, tok_per_sec: String, elapsed_secs: u64 },
    Error(String),
}

/// The sampling knobs. Floating-point numbers are kept as bit patterns.
#[derive(Clone, Copy, Debug, PartialEq, Eq, Structural)]
pub struct Knobs {
    pub temperature: u32,
    pub top_p: u32,
    pub top_k: usize,
    pub repeat_penalty: u32,
    pub max_tokens: usize,
}

/// What the inference worker is asked to do.
#[derive(Debug)]
pub struct InferenceRequest {
    pub messages: Vec<PromptMessage>,
    pub knobs: Knobs,
    pub constraint: Option<ConstraintSpec>,
}

/// What is known of the model.
#[derive(Debug)]
pub struct ModelCard {
    pub model_name: String,
    pub architecture: String,
    pub context_length: usize,
    pub embedding_length: usize,
    pub block_count: usize,
    pub head_count: usize,
}

/// The state of the terminal interface.
#[derive(Debug)]
pub struct App {
    pub model: ModelCard,
    pub active_tab: ActiveTab,
    pub settings_open: bool,
    pub selected_setting: usize,
    pub messages: Vec<ChatTurn>,
    pub streaming_response: String,
    pub input_text: String,
    pub input_cursor: usize,
    pub chat_scroll: usize,
    /// 0 for a JSON schema, 1 for a grammar.
    pub lab_mode: usize,
    pub schema_input: String,
    pub grammar_input: String,
    pub lab_prompt: String,
    pub lab_output: String,
    pub lab_focus: usize,
    pub total_tokens_generated: usize,
    /// How long the last generation took, in seconds: the bit pattern of a
    /// floating-point number.
    pub last_elapsed_secs: u64,
    /// Tokens per second, with one decimal.
    pub current_tok_per_sec: String,
    pub current_ttft_ms: u64,
    pub kv_used_tokens: usize,
    pub knobs: Knobs,
    pub system_prompt: String,
    pub is_generating: bool,
    /// The worker is to stop.
    pub cancel_signal: bool,
}

impl App {
    /// The cursor stands at the end of the input, and the choices are among those
    /// that there are.
    pub open spec fn wf(&self) -> bool {
        &&& self.input_cursor == self.input_text@.len()
        &&& self.selected_setting <= 5
        &&& self.lab_mode < 2
    }
}

/// `t` says that, and has not been measured.
pub open spec fn is_turn(t: ChatTurn, role: Seq<char>, content: Seq<char>) -> bool {
    &&& t.role@ == role
    &&& t.content@ == content
    &&& t.tok_per_sec is None
    &&& t.ttft_ms is None
    &&& t.token_count is None
}

fn turn(role: &str, content: &str) -> (t: ChatTurn)
    ensures
        is_turn(t, role@, content@),
{
    ChatTurn {
        role: role.to_string(),
        content: content.to_string(),
        tok_per_sec: None,
        ttft_ms: None,
        token_count: None,
    }
}

/// The schema that the lab starts with.
pub const START_SCHEMA: &'static str = "{\"type\": \"object\", \"properties\": {\"name\": {\"type\": \"string\"}, \"age\": {\"type\": \"integer\"}}, \"required\": [\"name\", \"age\"]}";

/// The grammar that the lab starts with.
pub const START_GRAMMAR: &'static str = "root ::= \"{\" ws \"\\\"status\\\":\" ws (\"\\\"ok\\\"\" | \"\\\"error\\\"\") ws \"}\"\nws   ::= [ \\t\\n]*";

/// The system prompt where none is given.
pub const START_PROMPT: &'static str = "You are Glint, an ultra-fast, intelligent AI pair programmer and assistant.";

impl App {
    /// The state at the start: the chat is shown, and holds the system prompt if that
    /// is not empty.
    pub fn new(model: ModelCard, system_prompt: Option<String>, knobs: Knobs) -> (app: Self)
        ensures
            app.wf(),
            app.model == model,
            app.knobs == knobs,
            app.active_tab == ActiveTab::Chat,
            !app.settings_open && app.selected_setting == 0,
            app.streaming_response@.len() == 0 && app.input_text@.len() == 0,
            app.chat_scroll == 0 && app.lab_mode == 0 && app.lab_focus == 0,
            app.schema_input@ == START_SCHEMA@,
            app.grammar_input@ == START_GRAMMAR@,
            app.lab_prompt@ == "Output user profile data:"@,
            app.lab_output@.len() == 0,
            app.total_tokens_generated == 0 && app.current_ttft_ms == 0 && app.kv_used_tokens == 0,
            app.last_elapsed_secs == 0,
            app.current_tok_per_sec@ == "0.0"@,
            !app.is_generating && !app.cancel_signal,
            app.system_prompt@ == match system_prompt {
                Some(p) => p@,
                None => START_PROMPT@,
            },
            if app.system_prompt@.len() == 0 {
                app.messages@.len() == 0
            } else {
                app.messages@.len() == 1 && is_turn(
                    app.messages@[0],
                    "system"@,
                    app.system_prompt@,
                )
            },
    {
        let system_prompt = match system_prompt {
            Some(p) => p,
            None => START_PROMPT.to_string(),
        };
        let mut messages: Vec<ChatTurn> = Vec::new();
        if !system_prompt.as_str().is_empty() {
            messages.push(turn("system", system_prompt.as_str()));
        }
        App {
            model,
            active_tab: ActiveTab::Chat,
            settings_open: false,
            selected_setting: 0,
            messages,
            streaming_response: String::new(),
            input_text: String::new(),
            input_cursor: 0,
            chat_scroll: 0,
            lab_mode: 0,
            schema_input: START_SCHEMA.to_string(),
            grammar_input: START_GRAMMAR.to_string(),
            lab_prompt: "Output user profile data:".to_string(),
            lab_output: String::new(),
            lab_focus: 0,
            total_tokens_generated: 0,
            last_elapsed_secs: 0,
            current_tok_per_sec: "0.0".to_string(),
            current_ttft_ms: 0,
            kv_used_tokens: 0,
            knobs,
            system_prompt,
            is_generating: false,
            cancel_signal: false,
        }
    }
}

// ── Requests ─────────────────────────────────────────────────────────────────

/// The request repeats these turns.
pub open spec fn repeats(messages: Seq<PromptMessage>, turns: Seq<ChatTurn>) -> bool {
    &&& messages.len() == turns.len()
    &&& forall|i: int|
        0 <= i < turns.len() ==> (#[trigger] messages[i]).role@ == turns[i].role@
            && messages[i].content@ == turns[i].content@
}

fn repeat_turns(turns: &Vec<ChatTurn>) -> (messages: Vec<PromptMessage>)
    ensures
        repeats(messages@, turns@),
{
    let mut messages: Vec<PromptMessage> = Vec::new();
    let mut i: usize = 0;
    while i < turns.len()
        invariant
            i <= turns@.len(),
            messages@.len() == i,
            forall|k: int|
                0 <= k < i ==> (#[trigger] messages@[k]).role@ == turns@[k].role@
                    && messages@[k].content@ == turns@[k].content@,
        decreases turns@.len() - i,
    {
        messages.push(
            PromptMessage { role: turns[i].role.clone(), content: turns[i].content.clone() },
        );
        i = i + 1;
    }
    messages
}

/// The text of the input, without the white space around it.
pub open spec fn entered(app: App) -> Seq<char> {
    trim(app.input_text@)
}

impl App {
    /// Send what the user has typed. Nothing happens while a generation runs or where
    /// nothing has been typed.
    pub fn submit_user_message(&mut self) -> (r: Option<InferenceRequest>)
        requires
            old(self).wf(),
        ensures
            final(self).wf(),
            match r {
                None => {
                    &&& old(self).is_generating || entered(*old(self)).len() == 0
                    &&& *final(self) == *old(self)
                },
                Some(req) => {
                    &&& !old(self).is_generating && entered(*old(self)).len() > 0
                    &&& final(self).messages@.len() == old(self).messages@.len() + 1
                    &&& final(self).messages@.drop_last() == old(self).messages@
                    &&& is_turn(final(self).messages@.last(), "user"@, entered(*old(self)))
                    &&& repeats(req.messages@, final(self).messages@)
                    &&& req.knobs == old(self).knobs
                    &&& req.constraint is None
                    &&& final(self).input_text@.len() == 0
                    &&& final(self).streaming_response@.len() == 0
                    &&& *final(self) == (App {
                        messages: final(self).messages,
                        input_text: final(self).input_text,
                        input_cursor: 0,
                        streaming_response: final(self).streaming_response,
                        is_generating: true,
                        cancel_signal: false,
                        ..*old(self)
                    })
                },
            },
    {
        if self.is_generating {
            return None;
        }
        let text = string_of(trimmed(chars_of(self.input_text.as_str()).as_slice()).as_slice());
        if text.as_str().is_empty() {
            return None;
        }
        let ghost before = self.messages@;
        self.messages.push(turn("user", text.as_str()));
        assert(self.messages@.drop_last() =~= before);
        self.input_text = String::new();
        self.input_cursor = 0;
        self.streaming_response = String::new();
        let messages = repeat_turns(&self.messages);
        self.is_generating = true;
        self.cancel_signal = false;
        Some(InferenceRequest { messages, knobs: self.knobs, constraint: None })
    }
}

// ── The lab ──────────────────────────────────────────────────────────────────

/// What `serde_json` finds wrong with a text, if it is no JSON.
pub uninterp spec fn json_fault(text: Seq<char>) -> Option<Seq<char>>;

/// `serde_json::from_str` on `text`, for its error only: what is wrong with the text,
/// in the words of `serde_json::Error`, or nothing where the text is JSON. The result
/// depends on the text alone.
#[verifier::external_body]
fn find_json_fault(text: &str) -> (f: Option<String>)
    ensures
        match f {
            Some(s) => json_fault(text@) == Some(s@),
            None => json_fault(text@) is None,
        },
{
    serde_json::from_str::<serde_json::Value>(text).err().map(|e| e.to_string())
}

/// What a lab request asks for: the system prompt and the lab's prompt, in the shape
/// that the lab's mode sets.
pub open spec fn is_lab_request(app: App, req: InferenceRequest) -> bool {
    &&& req.messages@.len() == 2
    &&& req.messages@[0].role@ == "system"@
    &&& req.messages@[0].content@ == app.system_prompt@
    &&& req.messages@[1].role@ == "user"@
    &&& req.messages@[1].content@ == app.lab_prompt@
    &&& req.knobs == app.knobs
    &&& if app.lab_mode == 0 {
        req.constraint matches Some(ConstraintSpec::JsonSchema(SchemaSpec::Given(s)))
            && s@ == app.schema_input@
    } else {
        req.constraint matches Some(ConstraintSpec::Grammar(g)) && g@ == app.grammar_input@
    }
}

/// What the lab does on a request, given what is wrong with its schema: nothing while
/// a generation runs; a schema that is no JSON is reported in place of the output.
pub open spec fn lab_submitted(
    before: App,
    after: App,
    fault: Option<Seq<char>>,
    r: Option<InferenceRequest>,
) -> bool {
    if before.is_generating {
        r is None && after == before
    } else if before.lab_mode == 0 && fault is Some {
        &&& r is None
        &&& after.lab_output@ == "Invalid JSON Schema: "@ + fault->0
        &&& after == (App { lab_output: after.lab_output, ..before })
    } else {
        &&& r is Some
        &&& is_lab_request(before, r->0)
        &&& after.lab_output@.len() == 0
        &&& after == (App {
            lab_output: after.lab_output,
            is_generating: true,
            cancel_signal: false,
            ..before
        })
    }
}

impl App {
    /// Send the lab's prompt, given what is wrong with the schema.
    pub fn submit_lab_with(&mut self, fault: Option<String>) -> (r: Option<InferenceRequest>)
        ensures
            lab_submitted(
                *old(self),
                *final(self),
                match fault {
                    Some(f) => Some(f@),
                    None => None,
                },
                r,
            ),
    {
        if self.is_generating {
            return None;
        }
        self.lab_output = String::new();
        let constraint = if self.lab_mode == 0 {
            match fault {
                Some(f) => {
                    self.lab_output.append("Invalid JSON Schema: ");
                    self.lab_output.append(f.as_str());
                    assert(self.lab_output@ =~= "Invalid JSON Schema: "@ + f@);
                    return None;
                },
                None => ConstraintSpec::JsonSchema(SchemaSpec::Given(self.schema_input.clone())),
            }
        } else {
            ConstraintSpec::Grammar(self.grammar_input.clone())
        };
        let mut messages: Vec<PromptMessage> = Vec::new();
        messages.push(
            PromptMessage { role: "system".to_string(), content: self.system_prompt.clone() },
        );
        messages.push(PromptMessage { role: "user".to_string(), content: self.lab_prompt.clone() });
        self.is_generating = true;
        self.cancel_signal = false;
        Some(InferenceRequest { messages, knobs: self.knobs, constraint: Some(constraint) })
    }

    /// Send the lab's prompt.
    pub fn submit_lab_request(&mut self) -> (r: Option<InferenceRequest>)
        ensures
            lab_submitted(*old(self), *final(self), json_fault(old(self).schema_input@), r),
    {
        let fault = find_json_fault(self.schema_input.as_str());
        self.submit_lab_with(fault)
    }

    /// Ask a running generation to stop.
    pub fn cancel_generation(&mut self)
        ensures
            *final(self) == (App {
                cancel_signal: old(self).is_generating || old(self).cancel_signal,
                ..*old(self)
            }),
    {
        if self.is_generating {
            self.cancel_signal = true;
        }
    }
}

// ── Reports of the worker ────────────────────────────────────────────────────

/// What a round of reports adds up to.
#[derive(Debug)]
pub struct Tally {
    pub finished: bool,
    pub tok_per_sec: String,
    pub ttft_ms: u64,
    pub tokens: usize,
}

/// What reports change, by its values.
pub struct Progress {
    pub ttft_ms: u64,
    pub stream: Seq<char>,
    pub lab: Seq<char>,
    pub total: nat,
    pub elapsed: u64,
    pub speed: Seq<char>,
    pub finished: bool,
    pub final_speed: Seq<char>,
    pub final_ttft: u64,
    pub final_tokens: nat,
}

/// The progress so far.
pub open spec fn progress(app: App, tally: Tally) -> Progress {
    Progress {
        ttft_ms: app.current_ttft_ms,
        stream: app.streaming_response@,
        lab: app.lab_output@,
        total: app.total_tokens_generated as nat,
        elapsed: app.last_elapsed_secs,
        speed: app.current_tok_per_sec@,
        finished: tally.finished,
        final_speed: tally.tok_per_sec@,
        final_ttft: tally.ttft_ms,
        final_tokens: tally.tokens as nat,
    }
}

/// Text goes to the lab's output while the lab is shown, else to the chat.
pub open spec fn with_text(p: Progress, in_lab: bool, text: Seq<char>) -> Progress {
    if in_lab {
        Progress { lab: p.lab + text, ..p }
    } else {
        Progress { stream: p.stream + text, ..p }
    }
}

/// The progress after one more report.
pub open spec fn reported(p: Progress, in_lab: bool, e: InferenceEvent) -> Progress {
    match e {
        InferenceEvent::FirstToken { ttft_ms } => Progress {
            ttft_ms,
            final_ttft: ttft_ms,
            ..p
        },
        InferenceEvent::Token(t) => with_text(p, in_lab, t@),
        InferenceEvent::Done { total_tokens, tok_per_sec, elapsed_secs } => Progress {
            finished: true,
            elapsed: elapsed_secs,
            total: p.total + total_tokens as nat,
            speed: tok_per_sec@,
            final_speed: tok_per_sec@,
            final_tokens: total_tokens as nat,
            ..p
        },
        InferenceEvent::Error(err) => Progress {
            finished: true,
            ..with_text(p, in_lab, "\n[Error: "@ + err@ + "]"@)
        },
    }
}

/// The progress after the first `n` reports.
pub open spec fn reported_all(
    p: Progress,
    in_lab: bool,
    events: Seq<InferenceEvent>,
    n: nat,
) -> Progress
    decreases n,
{
    if n == 0 {
        p
    } else {
        reported(reported_all(p, in_lab, events, (n - 1) as nat), in_lab, events[n - 1])
    }
}

/// The tokens that reports count.
pub open spec fn tokens_reported(events: Seq<InferenceEvent>, n: nat) -> nat
    decreases n,
{
    if n == 0 {
        0
    } else {
        tokens_reported(events, (n - 1) as nat) + match events[n - 1] {
            InferenceEvent::Done { total_tokens, .. } => total_tokens as nat,
            _ => 0,
        }
    }
}

proof fn lemma_tokens_grow(events: Seq<InferenceEvent>, k: nat, n: nat)
    requires
        k <= n,
    ensures
        tokens_reported(events, k) <= tokens_reported(events, n),
    decreases n,
{
    if k < n {
        lemma_tokens_grow(events, k, (n - 1) as nat);
    }
}

proof fn lemma_total(p: Progress, in_lab: bool, events: Seq<InferenceEvent>, n: nat)
    ensures
        reported_all(p, in_lab, events, n).total == p.total + tokens_reported(events, n),
    decreases n,
{
    if n > 0 {
        lemma_total(p, in_lab, events, (n - 1) as nat);
    }
}

/// What a round of reports starts from.
pub open spec fn fresh(app: App) -> Progress {
    Progress {
        ttft_ms: app.current_ttft_ms,
        stream: app.streaming_response@,
        lab: app.lab_output@,
        total: app.total_tokens_generated as nat,
        elapsed: app.last_elapsed_secs,
        speed: app.current_tok_per_sec@,
        finished: false,
        final_speed: "0.0"@,
        final_ttft: 0,
        final_tokens: 0,
    }
}

/// The fields that a report may change.
pub open spec fn only_progress(before: App, after: App) -> bool {
    after == (App {
        current_ttft_ms: after.current_ttft_ms,
        streaming_response: after.streaming_response,
        lab_output: after.lab_output,
        total_tokens_generated: after.total_tokens_generated,
        last_elapsed_secs: after.last_elapsed_secs,
        current_tok_per_sec: after.current_tok_per_sec,
        ..before
    })
}

/// `t` is the answer that a round of reports completed.
pub open spec fn is_answer(t: ChatTurn, p: Progress) -> bool {
    &&& t.role@ == "assistant"@
    &&& t.content@ == p.stream
    &&& t.tok_per_sec matches Some(s) && s@ == p.final_speed
    &&& t.ttft_ms == Some(
        if p.final_ttft > 0 {
            p.final_ttft
        } else {
            p.ttft_ms
        },
    )
    &&& t.token_count == Some(p.final_tokens as usize)
}

/// The state after a round of reports that adds up to `p`: a finished answer joins the
/// conversation while the chat is shown.
pub open spec fn polled(before: App, after: App, p: Progress) -> bool {
    let joins = p.finished && before.active_tab == ActiveTab::Chat && p.stream.len() > 0;
    &&& after.current_ttft_ms == p.ttft_ms
    &&& after.lab_output@ == p.lab
    &&& after.total_tokens_generated == p.total
    &&& after.last_elapsed_secs == p.elapsed
    &&& after.current_tok_per_sec@ == p.speed
    &&& after.is_generating == (before.is_generating && !p.finished)
    &&& after.streaming_response@ == (if joins {
        Seq::empty()
    } else {
        p.stream
    })
    &&& if joins {
        &&& after.messages@.len() == before.messages@.len() + 1
        &&& after.messages@.drop_last() == before.messages@
        &&& is_answer(after.messages@.last(), p)
    } else {
        after.messages == before.messages
    }
    &&& after == (App {
        current_ttft_ms: after.current_ttft_ms,
        streaming_response: after.streaming_response,
        lab_output: after.lab_output,
        total_tokens_generated: after.total_tokens_generated,
        last_elapsed_secs: after.last_elapsed_secs,
        current_tok_per_sec: after.current_tok_per_sec,
        is_generating: after.is_generating,
        messages: after.messages,
        ..before
    })
}

impl App {
    fn add_text(&mut self, text: &str)
        ensures
            only_progress(*old(self), *final(self)),
            final(self).streaming_response@ == (if old(self).active_tab
                == ActiveTab::StructuredLab {
                old(self).streaming_response@
            } else {
                old(self).streaming_response@ + text@
            }),
            final(self).lab_output@ == (if old(self).active_tab == ActiveTab::StructuredLab {
                old(self).lab_output@ + text@
            } else {
                old(self).lab_output@
            }),
            final(self).current_ttft_ms == old(self).current_ttft_ms,
            final(self).total_tokens_generated == old(self).total_tokens_generated,
            final(self).last_elapsed_secs == old(self).last_elapsed_secs,
            final(self).current_tok_per_sec == old(self).current_tok_per_sec,
    {
        if self.active_tab == ActiveTab::StructuredLab {
            self.lab_output.append(text);
        } else {
            self.streaming_response.append(text);
        }
    }

    fn take_report(&mut self, e: &InferenceEvent, tally: &mut Tally)
        requires
            reported(
                progress(*old(self), *old(tally)),
                old(self).active_tab == ActiveTab::StructuredLab,
                *e,
            ).total <= usize::MAX,
        ensures
            only_progress(*old(self), *final(self)),
            progress(*final(self), *final(tally)) == reported(
                progress(*old(self), *old(tally)),
                old(self).active_tab == ActiveTab::StructuredLab,
                *e,
            ),
    {
        match e {
            InferenceEvent::FirstToken { ttft_ms } => {
                self.current_ttft_ms = *ttft_ms;
                tally.ttft_ms = *ttft_ms;
            },
            InferenceEvent::Token(t) => {
                self.add_text(t.as_str());
            },
            InferenceEvent::Done { total_tokens, tok_per_sec, elapsed_secs } => {
                tally.finished = true;
                self.last_elapsed_secs = *elapsed_secs;
                self.total_tokens_generated = self.total_tokens_generated + *total_tokens;
                self.current_tok_per_sec = tok_per_sec.clone();
                tally.tok_per_sec = tok_per_sec.clone();
                tally.tokens = *total_tokens;
            },
            InferenceEvent::Error(err) => {
                tally.finished = true;
                let mut text = String::new();
                text.append("\n[Error: ");
                text.append(err.as_str());
                text.append("]");
                self.add_text(text.as_str());
            },
        }
    }

    /// Take in what the worker has reported since the last time.
    pub fn poll_events(&mut self, events: &Vec<InferenceEvent>)
        requires
            old(self).total_tokens_generated + tokens_reported(events@, events@.len())
                <= usize::MAX,
        ensures
            polled(
                *old(self),
                *final(self),
                reported_all(
                    fresh(*old(self)),
                    old(self).active_tab == ActiveTab::StructuredLab,
                    events@,
                    events@.len(),
                ),
            ),
    {
        let mut tally = Tally {
            finished: false,
            tok_per_sec: "0.0".to_string(),
            ttft_ms: 0,
            tokens: 0,
        };
        let ghost in_lab = self.active_tab == ActiveTab::StructuredLab;
        let mut i: usize = 0;
        while i < events.len()
            invariant
                i <= events@.len(),
                only_progress(*old(self), *self),
                in_lab == (old(self).active_tab == ActiveTab::StructuredLab),
                old(self).total_tokens_generated + tokens_reported(events@, events@.len())
                    <= usize::MAX,
                progress(*self, tally) == reported_all(
                    fresh(*old(self)),
                    in_lab,
                    events@,
                    i as nat,
                ),
            decreases events@.len() - i,
        {
            proof {
                lemma_total(fresh(*old(self)), in_lab, events@, (i + 1) as nat);
                lemma_tokens_grow(events@, (i + 1) as nat, events@.len());
            }
            self.take_report(&events[i], &mut tally);
            i = i + 1;
        }
        let ghost p = progress(*self, tally);
        if tally.finished {
            self.is_generating = false;
            if self.active_tab == ActiveTab::Chat && !self.streaming_response.as_str().is_empty() {
                let content = self.streaming_response.clone();
                self.streaming_response = String::new();
                let ttft_ms: u64 = if tally.ttft_ms > 0 {
                    tally.ttft_ms
                } else {
                    self.current_ttft_ms
                };
                let ghost before = self.messages@;
                self.messages.push(
                    ChatTurn {
                        role: "assistant".to_string(),
                        content,
                        tok_per_sec: Some(tally.tok_per_sec),
                        ttft_ms: Some(ttft_ms),
                        token_count: Some(tally.tokens),
                    },
                );
                assert(self.messages@.drop_last() =~= before);
            }
        }
    }
}

/// The tokens that `events` bring, one behind the other, where nothing went wrong.
pub open spec fn said(events: Seq<InferenceEvent>) -> Seq<char>
    decreases events.len(),
{
    if events.len() == 0 {
        Seq::empty()
    } else {
        said(events.drop_last()) + match events.last() {
            InferenceEvent::Token(t) => t@,
            _ => Seq::empty(),
        }
    }
}

/// Reports add up. Without an error the tokens appear in order behind the text that was there,
/// in the lab's output while the lab is shown and in the chat else, and nowhere besides; the
/// tokens counted are added to the total; and the generation is finished exactly if one of
/// the reports says so.
pub proof fn law_reports_add_up(
    p: Progress,
    in_lab: bool,
    events: Seq<InferenceEvent>,
    n: nat,
)
    requires
        n <= events.len(),
        forall|i: int| 0 <= i < n ==> !(#[trigger] events[i] is Error),
    ensures
        ({
            let q = reported_all(p, in_lab, events, n);
            let text = said(events.take(n as int));
            &&& q.lab == if in_lab {
                p.lab + text
            } else {
                p.lab
            }
            &&& q.stream == if in_lab {
                p.stream
            } else {
                p.stream + text
            }
            &&& q.total == p.total + tokens_reported(events, n)
            &&& q.finished <==> p.finished || exists|i: int|
                0 <= i < n && #[trigger] events[i] is Done
            &&& forall|i: int|
                i == n - 1 && 0 <= i && events[i] is Done ==> q.final_tokens
                    == #[trigger] events[i]->total_tokens && q.speed == events[i]->tok_per_sec@
                    && q.final_speed == q.speed
        }),
    decreases n,
{
    lemma_total(p, in_lab, events, n);
    if n == 0 {
        assert(events.take(0) =~= Seq::empty());
        assert(p.lab + Seq::<char>::empty() =~= p.lab);
        assert(p.stream + Seq::<char>::empty() =~= p.stream);
    } else {
        let m = (n - 1) as nat;
        law_reports_add_up(p, in_lab, events, m);
        assert(events.take(n as int).drop_last() =~= events.take(m as int));
        let before = said(events.take(m as int));
        let e = events[m as int];
        assert(events.take(n as int).last() == e);
        let q = reported_all(p, in_lab, events, n);
        assert(before + Seq::<char>::empty() =~= before);
        if e is Token {
            assert(p.lab + before + e->Token_0@ =~= p.lab + (before + e->Token_0@));
            assert(p.stream + before + e->Token_0@ =~= p.stream + (before + e->Token_0@));
        }
        if q.finished && !p.finished && !(e is Done) {
            let i = choose|i: int| 0 <= i < m && #[trigger] events[i] is Done;
            assert(events[i] is Done);
        }
    }
}

} // verus!
